//! Falling bytes corrupt cells of a square memory grid.  Part one drops
//! the first kilobyte and reports the least number of steps from the top
//! left to the bottom right corner; part two keeps dropping bytes and
//! names the first one that cuts the exit off.

use vstd::prelude::*;

verus! {

use crate::parse::{
    ascii_bytes, bytes_of, digits_val, find_sep, is_digits, lines_spec, lines_of, parse_u64,
};
use crate::grid2d::{GridMap, graph_from_cells, grid_adjacency, rect_lines};
use crate::search::{
    bfs_reachable, connects, dijkstra, dijkstra_post, graph_view, lemma_subgraph_connects,
    reachable, subgraph,
};

/// The coordinates a line `x,y` writes, if it parses into numbers that fit
/// `usize`.
pub open spec fn line_coord(l: Seq<u8>) -> Option<(int, int)> {
    let ci = find_sep(l, 44);
    if !(0 <= ci < l.len()) {
        None
    } else {
        let a = l.take(ci);
        let b = l.skip(ci + 1);
        if is_digits(a) && is_digits(b) && digits_val(a) <= usize::MAX && digits_val(b)
            <= usize::MAX {
            Some((digits_val(a), digits_val(b)))
        } else {
            None
        }
    }
}

/// Cell `(x, y)` is corrupted by one of the first `upto` input lines.
pub open spec fn blocked(s: Seq<u8>, upto: int, x: int, y: int) -> bool {
    exists|k: int|
        0 <= k < upto && k < lines_spec(s).len() && line_coord(#[trigger] lines_spec(s)[k])
            == Some((x, y))
}

/// The grid cells after the first `upto` bytes fell, row-major.
pub open spec fn day_cells(s: Seq<u8>, size: int, upto: int) -> Seq<char> {
    Seq::new(
        (size * size) as nat,
        |i: int|
            if blocked(s, upto, i % size, i / size) {
                '#'
            } else {
                '.'
            },
    )
}

/// The walkable graph after the first `upto` bytes fell.
pub open spec fn day_graph(s: Seq<u8>, size: int, upto: int) -> Seq<Seq<(usize, u64)>> {
    graph_from_cells(day_cells(s, size, upto), size, size)
}

/// Lines `lo..hi` (clipped to the input) parse and land inside the grid.
pub open spec fn lines_ok(s: Seq<u8>, size: int, lo: int, hi: int) -> bool {
    forall|k: int|
        lo <= k < hi && k < lines_spec(s).len() ==> {
            let c = line_coord(#[trigger] lines_spec(s)[k]);
            c is Some && 0 <= (c->0).0 < size && 0 <= (c->0).1 < size
        }
}

/// Parse one coordinate line.
fn parse_coord(l: &Vec<u8>) -> (r: Option<(usize, usize)>)
    ensures
        match r {
            Some(p) => line_coord(l@) == Some((p.0 as int, p.1 as int)),
            None => line_coord(l@) is None,
        },
{
    let ci = crate::parse::find_byte(l.as_slice(), 0, 44);
    proof {
        assert(l@.subrange(0, l@.len() as int) =~= l@);
    }
    if ci >= l.len() {
        return None;
    }
    let a = crate::parse::sub_vec(l.as_slice(), 0, ci);
    let b = crate::parse::sub_vec(l.as_slice(), ci + 1, l.len());
    proof {
        assert(a@ =~= l@.take(ci as int));
        assert(b@ =~= l@.skip(ci + 1));
    }
    match (parse_u64(a.as_slice()), parse_u64(b.as_slice())) {
        (Some(x), Some(y)) => {
            if x <= usize::MAX as u64 && y <= usize::MAX as u64 {
                Some((x as usize, y as usize))
            } else {
                None
            }
        },
        _ => None,
    }
}

/// An all-open grid of the given square size.
fn open_grid(size: usize) -> (g: GridMap)
    requires
        1 <= size,
        size * size <= usize::MAX,
    ensures
        g.wf(),
        g.width_spec() == size,
        g.height_spec() == size,
        forall|i: int| 0 <= i < g.cells().len() ==> g.cells()[i] == '.',
{
    let mut lines: Vec<Vec<u8>> = Vec::new();
    let mut y: usize = 0;
    while y < size
        invariant
            0 <= y <= size,
            size >= 1,
            lines@.len() == y,
            forall|t: int|
                0 <= t < y ==> (#[trigger] lines@[t]@).len() == size && forall|q: int|
                    0 <= q < size ==> lines@[t]@[q] == 46u8,
        decreases size - y,
    {
        let mut row: Vec<u8> = Vec::new();
        let mut x: usize = 0;
        while x < size
            invariant
                0 <= x <= size,
                row@.len() == x,
                forall|q: int| 0 <= q < x ==> row@[q] == 46u8,
            decreases size - x,
        {
            row.push(46u8);
            x += 1;
        }
        lines.push(row);
        y += 1;
    }
    let g = match GridMap::from_lines(&lines) {
        Some(g) => g,
        None => {
            proof {
                assert(lines.deep_view()[0].len() == lines@[0]@.len());
                assert forall|i: int| 0 <= i < lines.deep_view().len() implies (
                #[trigger] lines.deep_view()[i]).len() == lines.deep_view()[0].len() by {
                    assert(lines.deep_view()[i] =~= lines@[i]@);
                    assert(lines.deep_view()[0] =~= lines@[0]@);
                }
                assert(rect_lines(lines.deep_view()));
                assert(false);
            }
            vstd::pervasive::unreached()
        },
    };
    proof {
        g.lemma_dims();
        assert forall|i: int| 0 <= i < g.cells().len() implies g.cells()[i] == '.' by {
            let x = i % (size as int);
            let y2 = i / (size as int);
            vstd::arithmetic::div_mod::lemma_fundamental_div_mod(i, size as int);
            assert(0 <= x < size && 0 <= y2 < size) by (nonlinear_arith)
                requires
                    size >= 1,
                    0 <= i < (size as int) * (size as int),
                    x == i % (size as int),
                    y2 == i / (size as int),
            ;
            assert(g.cell(x, y2) == lines@[y2]@[x] as char);
            assert(g.cell(x, y2) == g.cells()[y2 * (size as int) + x]);
            assert(y2 * (size as int) + x == i);
        }
    }
    g
}

/// Drop the first `upto` bytes onto the grid.  `false` when a line in
/// range fails to parse or lands outside.
#[verifier::rlimit(60)]
fn drop_bytes(g: &mut GridMap, lines: &Vec<Vec<u8>>, lo: usize, hi: usize, Ghost(s): Ghost<
    Seq<u8>,
>) -> (ok: bool)
    requires
        old(g).wf(),
        old(g).width_spec() == old(g).height_spec(),
        lo <= hi,
        lines@.len() == lines_spec(s).len(),
        forall|t: int| 0 <= t < lines@.len() ==> lines@[t]@ == lines_spec(s)[t],
        forall|i: int|
            0 <= i < old(g).cells().len() ==> old(g).cells()[i] == day_cells(
                s,
                old(g).width_spec(),
                lo as int,
            )[i],
    ensures
        final(g).wf(),
        final(g).width_spec() == old(g).width_spec(),
        final(g).height_spec() == old(g).height_spec(),
        ok ==> lines_ok(s, old(g).width_spec(), lo as int, hi as int) && forall|i: int|
            0 <= i < final(g).cells().len() ==> final(g).cells()[i] == day_cells(
                s,
                old(g).width_spec(),
                hi as int,
            )[i],
        !ok ==> !lines_ok(s, old(g).width_spec(), lo as int, hi as int),
{
    let ghost size = old(g).width_spec();
    proof {
        old(g).lemma_dims();
    }
    let mut k = lo;
    while k < hi && k < lines.len()
        invariant
            lo <= k <= hi,
            g.wf(),
            size == old(g).width_spec(),
            size == old(g).height_spec(),
            g.width_spec() == size,
            g.height_spec() == size,
            g.cells().len() == size * size,
            lines@.len() == lines_spec(s).len(),
            forall|t: int| 0 <= t < lines@.len() ==> lines@[t]@ == lines_spec(s)[t],
            lines_ok(s, size, lo as int, k as int),
            forall|i: int|
                0 <= i < g.cells().len() ==> g.cells()[i] == day_cells(s, size, k as int)[i],
        decreases hi - k,
    {
        let (x, y) = match parse_coord(&lines[k]) {
            Some(p) => p,
            None => {
                proof {
                    assert(line_coord(lines_spec(s)[k as int]) is None);
                }
                return false;
            },
        };
        let sz = g.width();
        if x >= sz || y >= sz {
            return false;
        }
        proof {
            g.lemma_dims();
        }
        let ghost old_cells = g.cells();
        g.set(x, y, '#');
        proof {
            g.lemma_dims();
            lemma_cells_after_drop(
                s,
                size,
                k as int,
                x as int,
                y as int,
                old_cells,
                g.cells(),
            );
        }
        k += 1;
    }
    proof {
        g.lemma_dims();
        if k < hi {
            // the input ran out of lines: the remaining range is vacuous
            assert(lines_ok(s, size, lo as int, hi as int));
        }
        assert forall|i: int| 0 <= i < g.cells().len() implies g.cells()[i] == day_cells(
            s,
            size,
            hi as int,
        )[i] by {
            let xi = i % size;
            let yi = i / size;
            if blocked(s, hi as int, xi, yi) != blocked(s, k as int, xi, yi) {
                let kk = choose|kk: int|
                    0 <= kk < hi && kk < lines_spec(s).len() && line_coord(
                        #[trigger] lines_spec(s)[kk],
                    ) == Some((xi, yi));
                assert(kk < k);
                assert(false);
            }
        }
    }
    true
}

/// Dropping the byte of line `k` onto a grid that mirrors the first `k`
/// bytes yields a grid that mirrors the first `k + 1`.
proof fn lemma_cells_after_drop(
    s: Seq<u8>,
    size: int,
    k: int,
    x: int,
    y: int,
    oldc: Seq<char>,
    newc: Seq<char>,
)
    requires
        size >= 1,
        oldc.len() == size * size,
        newc == oldc.update(y * size + x, '#'),
        0 <= x < size,
        0 <= y < size,
        0 <= k < lines_spec(s).len(),
        line_coord(lines_spec(s)[k]) == Some((x, y)),
        forall|i: int| 0 <= i < oldc.len() ==> oldc[i] == day_cells(s, size, k)[i],
    ensures
        forall|i: int| 0 <= i < newc.len() ==> newc[i] == day_cells(s, size, k + 1)[i],
{
    crate::grid2d::lemma_row_major_index(size, size, x, y);
    assert forall|i: int| 0 <= i < newc.len() implies newc[i] == day_cells(s, size, k + 1)[i] by {
        let xi = i % size;
        let yi = i / size;
        vstd::arithmetic::div_mod::lemma_fundamental_div_mod(i, size);
        assert(0 <= xi < size && 0 <= yi < size) by (nonlinear_arith)
            requires
                size >= 1,
                0 <= i < size * size,
                xi == i % size,
                yi == i / size,
        ;
        assert(size * yi + xi == yi * size + xi) by (nonlinear_arith);
        assert(i == yi * size + xi);
        if i == y * size + x {
            assert(xi == x && yi == y) by {
                crate::grid2d::lemma_row_major_decode(size, y, x);
            }
            assert(blocked(s, k + 1, xi, yi));
            assert(newc[i] == '#');
        } else {
            assert(newc[i] == oldc[i]);
            assert(oldc[i] == day_cells(s, size, k)[i]);
            if blocked(s, k + 1, xi, yi) != blocked(s, k, xi, yi) {
                let kk = choose|kk: int|
                    0 <= kk < k + 1 && kk < lines_spec(s).len() && line_coord(
                        #[trigger] lines_spec(s)[kk],
                    ) == Some((xi, yi));
                assert(kk == k);
                assert(xi == x && yi == y);
                assert(false);
            }
        }
    }
}

/// The search returned a cost for the goal that fits `u32`.
proof fn lemma_part_one_some(s: Seq<u8>, size: int, bytes: int, dist: Seq<Option<u64>>, d: u64)
    requires
        size >= 1,
        dijkstra_post(day_graph(s, size, bytes), 0, dist),
        size * size - 1 < dist.len(),
        lines_ok(s, size, 0, bytes),
        dist[size * size - 1] == Some(d),
        d <= u32::MAX,
    ensures
        part_one_post(s, size, bytes, true, Some(d as u32)),
{
    let gr = day_graph(s, size, bytes);
    let goal = size * size - 1;
    assert(size * size >= 1) by (nonlinear_arith)
        requires
            size >= 1,
    ;
    assert(gr.len() == size * size);
    assert(dist[goal] is Some && dist[goal]->0 == d);
    let k0 = choose|k: nat| connects(gr, 0, goal, dist[goal]->0 as int, k);
    assert(connects(gr, 0, goal, dist[goal]->0 as int, k0));
    assert((d as u32) as int == dist[goal]->0 as int);
    assert(connects(gr, 0, goal, (d as u32) as int, k0));
    assert(min_cost_is(gr, goal, (d as u32) as int)) by {
        assert forall|c2: int, k2: nat| connects(gr, 0, goal, c2, k2) implies (d as u32) as int
            <= c2 by {
            assert(dist[goal]->0 <= c2);
        }
    }
    assert(lines_ok(s, size, 0, bytes));
}

/// `c` is the least cost of any walk from the entry to `goal` in `gr`.
pub open spec fn min_cost_is(gr: Seq<Seq<(usize, u64)>>, goal: int, c: int) -> bool {
    &&& exists|k: nat| connects(gr, 0, goal, c, k)
    &&& forall|c2: int, k2: nat| connects(gr, 0, goal, c2, k2) ==> c <= c2
}

/// What `solve_part_one` establishes about its result: `Some` carries the
/// exact least walk cost, and `None` comes exactly on a bad input or a
/// cut-off exit.
pub open spec fn part_one_post(s: Seq<u8>, size: int, bytes: int, ascii: bool, r: Option<u32>) -> bool {
    let gr = day_graph(s, size, bytes);
    let goal = size * size - 1;
    match r {
        Some(c) => ascii && lines_ok(s, size, 0, bytes) && min_cost_is(gr, goal, c as int),
        None => !ascii || !lines_ok(s, size, 0, bytes) || !reachable(gr, 0, goal),
    }
}

/// The least number of steps from the top-left to the bottom-right cell
/// after the first `bytes` bytes fell, as `u32`; `None` when a byte line
/// is bad, the exit is cut off, or the distance leaves `u32`.
#[verifier::rlimit(60)]
pub fn solve_part_one(input: &str, size: usize, bytes: usize) -> (r: Option<u32>)
    requires
        1 <= size,
        size * size <= u32::MAX,
    ensures
        part_one_post(ascii_bytes(input@), size as int, bytes as int, input.is_ascii(), r),
{
    if !input.is_ascii() {
        return None;
    }
    let bytes_v = bytes_of(input);
    let lines = lines_of(&bytes_v);
    let ghost s = ascii_bytes(input@);
    let mut g = open_grid(size);
    proof {
        g.lemma_dims();
        assert forall|i: int| 0 <= i < g.cells().len() implies g.cells()[i] == day_cells(
            s,
            size as int,
            0,
        )[i] by {
            assert(!blocked(s, 0, i % (size as int), i / (size as int)));
        }
    }
    let ok = drop_bytes(&mut g, &lines, 0, bytes, Ghost(s));
    if !ok {
        return None;
    }
    let adj = grid_adjacency(&g);
    proof {
        g.lemma_dims();
        assert(day_cells(s, size as int, bytes as int) =~= g.cells());
        assert(graph_view(adj) == day_graph(s, size as int, bytes as int));
        assert(adj@.len() * 1 <= u64::MAX);
        assert((size as int) * (size as int) >= 1) by (nonlinear_arith)
            requires
                size >= 1,
        ;
    }
    let dist = dijkstra(&adj, 0, 1);
    let goal = size * size - 1;
    let ghost gr = day_graph(s, size as int, bytes as int);
    proof {
        assert(dijkstra_post(gr, 0, dist@));
    }
    match dist[goal] {
        Some(d) => {
            // the search's cost bound keeps every distance within the cell
            // count, which the caller keeps within `u32`
            proof {
                assert(dist@[goal as int]->0 <= adj@.len() * 1);
                assert(adj@.len() * 1 == adj@.len()) by (nonlinear_arith);
                assert(d <= u32::MAX);
                assert(goal as int == (size as int) * (size as int) - 1);
                lemma_part_one_some(s, size as int, bytes as int, dist@, d);
            }
            Some(d as u32)
        },
        None => {
            proof {
                assert(dist@[goal as int] is None);
                assert(!reachable(gr, 0, goal as int));
                assert(part_one_post(s, size as int, bytes as int, true, None::<u32>));
            }
            None
        },
    }
}

/// The shortest escape after the first kilobyte of bytes fell on the real
/// 71 by 71 grid.
pub fn part_one(input: &str) -> (r: Option<u32>)
    ensures
        part_one_post(ascii_bytes(input@), 71, 1024, input.is_ascii(), r),
{
    solve_part_one(input, 71, 1024)
}

/// Dropping more bytes only closes cells: every edge of the later graph
/// stands in the earlier one.
proof fn lemma_day_graph_mono(s: Seq<u8>, size: int, m1: int, m2: int)
    requires
        m1 <= m2,
        size >= 1,
    ensures
        subgraph(day_graph(s, size, m2), day_graph(s, size, m1)),
{
    let c1 = day_cells(s, size, m1);
    let c2 = day_cells(s, size, m2);
    let g1 = day_graph(s, size, m1);
    let g2 = day_graph(s, size, m2);
    assert(size * size >= 1) by (nonlinear_arith)
        requires
            size >= 1,
    ;
    assert(g1.len() == g2.len());
    assert forall|i: int| 0 <= i < c2.len() && #[trigger] c2[i] == '.' implies c1[i] == '.' by {
        if blocked(s, m1, i % size, i / size) {
            let k = choose|k: int|
                0 <= k < m1 && k < lines_spec(s).len() && line_coord(
                    #[trigger] lines_spec(s)[k],
                ) == Some((i % size, i / size));
            assert(blocked(s, m2, i % size, i / size));
        }
    }
    assert forall|u: int, v: int, w2: int|
        0 <= u < g2.len() && #[trigger] crate::search::has_edge(g2, u, v, w2) implies
        crate::search::has_edge(g1, u, v, w2) by {
        let j = choose|j: int|
            0 <= j < g2[u].len() && (#[trigger] g2[u][j]).0 == v && g2[u][j].1 == w2;
        crate::grid2d::lemma_cell_succ_mono(c1, c2, size, size, (u % size) as int, u / size, j);
        let j2 = choose|j2: int|
            0 <= j2 < crate::grid2d::cell_succ(c1, size, size, u % size, u / size).len() && (
            #[trigger] crate::grid2d::cell_succ(c1, size, size, u % size, u / size)[j2])
                == crate::grid2d::cell_succ(c2, size, size, u % size, u / size)[j];
        assert(g1[u][j2] == g2[u][j]);
    }
}

/// Reaching the goal under more blocks implies reaching it under fewer.
proof fn lemma_reach_mono(s: Seq<u8>, size: int, m1: int, m2: int, goal: int)
    requires
        m1 <= m2,
        size >= 1,
        reachable(day_graph(s, size, m2), 0, goal),
    ensures
        reachable(day_graph(s, size, m1), 0, goal),
{
    lemma_day_graph_mono(s, size, m1, m2);
    let (c, k) = choose|c: int, k: nat| connects(day_graph(s, size, m2), 0, goal, c, k);
    lemma_subgraph_connects(day_graph(s, size, m2), day_graph(s, size, m1), 0, goal, c, k);
}

/// Line `k` is the byte that first cuts the exit off: everything through
/// it parses and lands inside, the goal is still reachable before it
/// falls and no longer after.
pub open spec fn is_blocker(s: Seq<u8>, size: int, bytes: int, k: int) -> bool {
    &&& bytes <= k < lines_spec(s).len()
    &&& lines_ok(s, size, 0, k + 1)
    &&& reachable(day_graph(s, size, k), 0, size * size - 1)
    &&& !reachable(day_graph(s, size, k + 1), 0, size * size - 1)
}

pub open spec fn has_blocker(s: Seq<u8>, size: int, bytes: int) -> bool {
    exists|k: int| is_blocker(s, size, bytes, k)
}

/// What `solve_part_two` establishes: `Some` names the coordinates of the
/// first byte from `bytes` on whose fall disconnects the exit, and `None`
/// comes exactly when no such byte exists in the input.
pub open spec fn part_two_post(
    s: Seq<u8>,
    size: int,
    bytes: int,
    ascii: bool,
    r: Option<(usize, usize)>,
) -> bool {
    match r {
        Some(p) => ascii && exists|k: int|
            #[trigger] is_blocker(s, size, bytes, k) && line_coord(lines_spec(s)[k]) == Some(
                (p.0 as int, p.1 as int),
            ),
        None => !ascii || !has_blocker(s, size, bytes),
    }
}

/// Keep dropping bytes after the first `bytes` until the exit is cut off,
/// and name the byte that cut it.
#[verifier::rlimit(60)]
pub fn solve_part_two(input: &str, size: usize, bytes: usize) -> (r: Option<(usize, usize)>)
    requires
        1 <= size,
        size * size <= u32::MAX,
    ensures
        part_two_post(ascii_bytes(input@), size as int, bytes as int, input.is_ascii(), r),
{
    if !input.is_ascii() {
        return None;
    }
    let bytes_v = bytes_of(input);
    let lines = lines_of(&bytes_v);
    let ghost s = ascii_bytes(input@);
    let mut g = open_grid(size);
    proof {
        g.lemma_dims();
        assert forall|i: int| 0 <= i < g.cells().len() implies g.cells()[i] == day_cells(
            s,
            size as int,
            0,
        )[i] by {
            assert(!blocked(s, 0, i % (size as int), i / (size as int)));
        }
    }
    let ok = drop_bytes(&mut g, &lines, 0, bytes, Ghost(s));
    if !ok {
        proof {
            assert forall|k: int| !is_blocker(s, size as int, bytes as int, k) by {
                if is_blocker(s, size as int, bytes as int, k) {
                    assert(lines_ok(s, size as int, 0, bytes as int));
                }
            }
        }
        return None;
    }
    proof {
        assert((size as int) * (size as int) >= 1) by (nonlinear_arith)
            requires
                size >= 1,
        ;
        g.lemma_dims();
        assert(day_cells(s, size as int, bytes as int) =~= g.cells());
    }
    let goal = size * size - 1;
    let adj0 = grid_adjacency(&g);
    let vis0 = bfs_reachable(&adj0, 0);
    if !vis0[goal] {
        proof {
            assert(graph_view(adj0) == day_graph(s, size as int, bytes as int));
            assert(!reachable(day_graph(s, size as int, bytes as int), 0, goal as int));
            assert forall|k: int| !is_blocker(s, size as int, bytes as int, k) by {
                if is_blocker(s, size as int, bytes as int, k) {
                    lemma_reach_mono(s, size as int, bytes as int, k, goal as int);
                }
            }
        }
        return None;
    }
    let mut m = bytes;
    proof {
        assert(graph_view(adj0) == day_graph(s, size as int, bytes as int));
    }
    loop
        invariant
            bytes <= m,
            m <= lines@.len() || m == bytes,
            1 <= size,
            size * size <= u32::MAX,
            input.is_ascii(),
            s == ascii_bytes(input@),
            g.wf(),
            g.width_spec() == size,
            g.height_spec() == size,
            goal == size * size - 1,
            lines@.len() == lines_spec(s).len(),
            forall|t: int| 0 <= t < lines@.len() ==> lines@[t]@ == lines_spec(s)[t],
            forall|i: int|
                0 <= i < g.cells().len() ==> g.cells()[i] == day_cells(s, size as int, m as int)[i],
            lines_ok(s, size as int, 0, m as int),
            forall|j: int|
                bytes <= j <= m ==> #[trigger] reachable(
                    day_graph(s, size as int, j),
                    0,
                    goal as int,
                ),
        ensures
            !has_blocker(s, size as int, bytes as int),
        decreases lines@.len() + 1 - m,
    {
        if m >= lines.len() {
            proof {
                assert forall|k: int| !is_blocker(s, size as int, bytes as int, k) by {
                    if is_blocker(s, size as int, bytes as int, k) {
                        assert(k < lines_spec(s).len());
                        assert(k + 1 <= m);
                        assert(reachable(day_graph(s, size as int, k + 1), 0, goal as int));
                    }
                }
            }
            break;
        }
        let (x, y) = match parse_coord(&lines[m]) {
            Some(p) => p,
            None => {
                proof {
                    assert(line_coord(lines_spec(s)[m as int]) is None);
                    assert forall|k: int| !is_blocker(s, size as int, bytes as int, k) by {
                        if is_blocker(s, size as int, bytes as int, k) {
                            if k >= m {
                                assert(lines_ok(s, size as int, 0, k + 1));
                                assert(line_coord(lines_spec(s)[m as int]) is Some);
                            } else {
                                assert(reachable(day_graph(s, size as int, k + 1), 0, goal as int));
                            }
                        }
                    }
                    assert(!has_blocker(s, size as int, bytes as int));
                }
                return None;
            },
        };
        if x >= size || y >= size {
            proof {
                assert forall|k: int| !is_blocker(s, size as int, bytes as int, k) by {
                    if is_blocker(s, size as int, bytes as int, k) {
                        if k >= m {
                            assert(lines_ok(s, size as int, 0, k + 1));
                            assert(({
                                let c = line_coord(lines_spec(s)[m as int]);
                                c is Some && 0 <= (c->0).0 < size && 0 <= (c->0).1 < size
                            }));
                        } else {
                            assert(reachable(day_graph(s, size as int, k + 1), 0, goal as int));
                        }
                    }
                }
                assert(!has_blocker(s, size as int, bytes as int));
            }
            return None;
        }
        proof {
            g.lemma_dims();
        }
        let ghost old_cells = g.cells();
        g.set(x, y, '#');
        proof {
            g.lemma_dims();
            lemma_cells_after_drop(
                s,
                size as int,
                m as int,
                x as int,
                y as int,
                old_cells,
                g.cells(),
            );
        }
        let adj = grid_adjacency(&g);
        let vis = bfs_reachable(&adj, 0);
        proof {
            assert(day_cells(s, size as int, m + 1) =~= g.cells());
            assert(graph_view(adj) == day_graph(s, size as int, m + 1));
        }
        if !vis[goal] {
            proof {
                assert(!reachable(day_graph(s, size as int, m + 1), 0, goal as int));
                assert(is_blocker(s, size as int, bytes as int, m as int));
            }
            return Some((x, y));
        }
        proof {
            assert(reachable(day_graph(s, size as int, m + 1), 0, goal as int));
        }
        m += 1;
    }
    None
}

/// The first byte that cuts the exit off, after the real first kilobyte.
pub fn part_two(input: &str) -> (r: Option<(usize, usize)>)
    ensures
        part_two_post(ascii_bytes(input@), 71, 1024, input.is_ascii(), r),
{
    solve_part_two(input, 71, 1024)
}

} // verus!
