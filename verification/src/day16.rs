//! The reindeer maze: a walker stands on a cell facing one of four
//! directions.  Stepping forward onto a non-wall cell costs one point,
//! turning a quarter either way costs a thousand.  Part one reports the
//! cheapest total from the `S` cell facing east to the `E` cell.

use vstd::prelude::*;

verus! {

use crate::parse::{ascii_bytes, bytes_of, lines_spec, lines_of};
use crate::grid2d::{GridMap, lemma_row_major_decode, lemma_row_major_index, rect_lines};
use crate::day10::map_cells;
use crate::search::{connects, dijkstra, dijkstra_post, graph_view, reachable, wf_graph};

/// The successor entries of the state at cell `(x, y)` facing `d`
/// (0 east, 1 south, 2 west, 3 north): a forward step onto a non-wall
/// cell at cost one, then the two quarter turns at cost a thousand.
pub open spec fn maze_succ(cells: Seq<char>, w: int, h: int, x: int, y: int, d: int) -> Seq<
    (usize, u64),
> {
    let cell = y * w + x;
    let fwd = if d == 0 && 0 <= y < h && 0 <= x && x + 1 < w && cells[y * w + (x + 1)] != '#' {
        seq![(((y * w + (x + 1)) * 4) as usize, 1u64)]
    } else if d == 1 && 0 <= x < w && 0 <= y && y + 1 < h && cells[(y + 1) * w + x] != '#' {
        seq![((((y + 1) * w + x) * 4 + 1) as usize, 1u64)]
    } else if d == 2 && 0 <= y < h && 0 <= x - 1 && x - 1 < w && cells[y * w + (x - 1)] != '#' {
        seq![(((y * w + (x - 1)) * 4 + 2) as usize, 1u64)]
    } else if d == 3 && 0 <= x < w && 0 <= y - 1 && y - 1 < h && cells[(y - 1) * w + x] != '#' {
        seq![((((y - 1) * w + x) * 4 + 3) as usize, 1u64)]
    } else {
        Seq::<(usize, u64)>::empty()
    };
    fwd + seq![
        ((cell * 4 + ((d + 1) % 4)) as usize, 1000u64),
        ((cell * 4 + ((d + 3) % 4)) as usize, 1000u64),
    ]
}

/// The whole maze as a graph over cell-and-direction states.
pub open spec fn maze_graph(cells: Seq<char>, w: int, h: int) -> Seq<Seq<(usize, u64)>> {
    Seq::new((w * h * 4) as nat, |st: int| maze_succ(cells, w, h, (st / 4) % w, (st / 4) / w, st % 4))
}

/// The first cell holding `t`, or `-1` if none does.
pub open spec fn find_cell(cells: Seq<char>, t: char) -> int
    decreases cells.len(),
{
    if cells.len() == 0 {
        -1
    } else if cells[0] == t {
        0
    } else {
        let r = find_cell(cells.drop_first(), t);
        if r < 0 {
            -1
        } else {
            1 + r
        }
    }
}

proof fn lemma_find_cell_at(cells: Seq<char>, from: int, at: int, t: char)
    requires
        0 <= from <= at < cells.len(),
        forall|j: int| from <= j < at ==> cells[j] != t,
        cells[at] == t,
    ensures
        find_cell(cells.skip(from), t) == at - from,
    decreases at - from,
{
    let suf = cells.skip(from);
    assert(suf[0] == cells[from]);
    if at > from {
        lemma_find_cell_at(cells, from + 1, at, t);
        assert(suf.drop_first() =~= cells.skip(from + 1));
    }
}

proof fn lemma_find_cell_none(cells: Seq<char>, from: int, t: char)
    requires
        0 <= from <= cells.len(),
        forall|j: int| from <= j < cells.len() ==> cells[j] != t,
    ensures
        find_cell(cells.skip(from), t) == -1,
    decreases cells.len() - from,
{
    let suf = cells.skip(from);
    if suf.len() > 0 {
        assert(suf[0] == cells[from]);
        lemma_find_cell_none(cells, from + 1, t);
        assert(suf.drop_first() =~= cells.skip(from + 1));
    }
}

/// The maze has its walker and its end marker.
pub open spec fn maze_ok(s: Seq<u8>) -> bool {
    &&& rect_lines(lines_spec(s))
    &&& find_cell(map_cells(s), 'S') >= 0
    &&& find_cell(map_cells(s), 'E') >= 0
}

/// The state space is too large for the machine words used here.
pub open spec fn maze_too_big(s: Seq<u8>) -> bool {
    let w = lines_spec(s)[0].len() as int;
    let h = lines_spec(s).len() as int;
    w * h * 4 > usize::MAX || w * h * 4 * 1000 > u64::MAX
}

/// `c` is the least cost from `start` to the end cell under any facing.
pub open spec fn maze_min_is(g: Seq<Seq<(usize, u64)>>, start: int, e: int, c: int) -> bool {
    &&& exists|d: int, k: nat| 0 <= d < 4 && #[trigger] connects(g, start, e * 4 + d, c, k)
    &&& forall|d: int, c2: int, k2: nat|
        0 <= d < 4 && #[trigger] connects(g, start, e * 4 + d, c2, k2) ==> c <= c2
}

/// What `part_one` establishes: `Some` carries the exact least score,
/// and `None` comes exactly on a bad input, an unreachable end, a state
/// space beyond the machine words, or a least score beyond `u32`.
pub open spec fn part_one_post(s: Seq<u8>, ascii: bool, r: Option<u32>) -> bool {
    let cells = map_cells(s);
    let w = lines_spec(s)[0].len() as int;
    let h = lines_spec(s).len() as int;
    let g = maze_graph(cells, w, h);
    let start = find_cell(cells, 'S') * 4;
    let e = find_cell(cells, 'E');
    match r {
        Some(c) => ascii && maze_ok(s) && !maze_too_big(s) && maze_min_is(g, start, e, c as int),
        None => {
            ||| !ascii
            ||| !maze_ok(s)
            ||| maze_too_big(s)
            ||| (forall|d: int| 0 <= d < 4 ==> !#[trigger] reachable(g, start, e * 4 + d))
            ||| (forall|d: int, c2: int, k2: nat|
                0 <= d < 4 && #[trigger] connects(g, start, e * 4 + d, c2, k2) ==> c2
                    > u32::MAX)
        },
    }
}

/// Every successor entry points at a state.
proof fn lemma_maze_succ_wf(cells: Seq<char>, w: int, h: int, x: int, y: int, d: int)
    requires
        w >= 1,
        h >= 1,
        0 <= x < w,
        0 <= y < h,
        0 <= d < 4,
        w * h * 4 <= usize::MAX,
    ensures
        forall|j: int|
            0 <= j < maze_succ(cells, w, h, x, y, d).len() ==> 0 <= (#[trigger] maze_succ(
                cells,
                w,
                h,
                x,
                y,
                d,
            )[j]).0 < w * h * 4 && maze_succ(cells, w, h, x, y, d)[j].1 <= 1000,
{
    lemma_row_major_index(w, h, x, y);
    if x + 1 < w {
        lemma_row_major_index(w, h, x + 1, y);
    }
    if 0 <= x - 1 {
        lemma_row_major_index(w, h, x - 1, y);
    }
    if y + 1 < h {
        lemma_row_major_index(w, h, x, y + 1);
    }
    if 0 <= y - 1 {
        lemma_row_major_index(w, h, x, y - 1);
    }
    assert(h * w == w * h) by (nonlinear_arith);
    let own = y * w + x;
    assert(0 <= own * 4 && own * 4 + 4 <= w * h * 4) by (nonlinear_arith)
        requires
            0 <= own < w * h,
    ;
    if x + 1 < w {
        let f = y * w + (x + 1);
        assert(0 <= f * 4 && f * 4 + 4 <= w * h * 4) by (nonlinear_arith)
            requires
                0 <= f < h * w,
                h * w == w * h,
        ;
    }
    if 0 <= x - 1 {
        let f = y * w + (x - 1);
        assert(0 <= f * 4 && f * 4 + 4 <= w * h * 4) by (nonlinear_arith)
            requires
                0 <= f < h * w,
                h * w == w * h,
        ;
    }
    if y + 1 < h {
        let f = (y + 1) * w + x;
        assert(0 <= f * 4 && f * 4 + 4 <= w * h * 4) by (nonlinear_arith)
            requires
                0 <= f < h * w,
                h * w == w * h,
        ;
    }
    if 0 <= y - 1 {
        let f = (y - 1) * w + x;
        assert(0 <= f * 4 && f * 4 + 4 <= w * h * 4) by (nonlinear_arith)
            requires
                0 <= f < h * w,
                h * w == w * h,
        ;
    }
}

/// A state index decodes back into its cell and facing.
proof fn lemma_state_decode(cell: int, d: int)
    requires
        cell >= 0,
        0 <= d < 4,
    ensures
        (cell * 4 + d) / 4 == cell,
        (cell * 4 + d) % 4 == d,
{
    assert((cell * 4 + d) / 4 == cell && (cell * 4 + d) % 4 == d) by (nonlinear_arith)
        requires
            cell >= 0,
            0 <= d < 4,
    ;
}

/// Build the adjacency list of the maze graph.
fn maze_adjacency(g: &GridMap) -> (adj: Vec<Vec<(usize, u64)>>)
    requires
        g.wf(),
        g.width_spec() * g.height_spec() * 4 <= usize::MAX,
    ensures
        graph_view(adj) == maze_graph(g.cells(), g.width_spec(), g.height_spec()),
        adj@.len() == g.width_spec() * g.height_spec() * 4,
        wf_graph(graph_view(adj)),
        crate::search::costs_bounded(graph_view(adj), 1000),
{
    let w = g.width();
    let h = g.height();
    let ghost cells = g.cells();
    let ghost gw = g.width_spec();
    let ghost gh = g.height_spec();
    let mut adj: Vec<Vec<(usize, u64)>> = Vec::new();
    let mut y: usize = 0;
    proof {
        g.lemma_dims();
        assert(gw * gh * 4 >= 0) by (nonlinear_arith)
            requires
                gw >= 1,
                gh >= 1,
        ;
    }
    while y < h
        invariant
            0 <= y <= h,
            w == gw,
            h == gh,
            g.wf(),
            cells == g.cells(),
            gw == g.width_spec(),
            gh == g.height_spec(),
            cells.len() == gw * gh,
            gw * gh * 4 <= usize::MAX,
            adj@.len() == (y * w) * 4,
            forall|st: int|
                0 <= st < adj@.len() ==> (#[trigger] adj@[st])@ == maze_succ(
                    cells,
                    gw,
                    gh,
                    (st / 4) % gw,
                    (st / 4) / gw,
                    st % 4,
                ),
        decreases h - y,
    {
        let mut x: usize = 0;
        while x < w
            invariant
                0 <= x <= w,
                0 <= y < h,
                w == gw,
                h == gh,
                g.wf(),
                cells == g.cells(),
                gw == g.width_spec(),
                gh == g.height_spec(),
                cells.len() == gw * gh,
                gw * gh * 4 <= usize::MAX,
                adj@.len() == (y * w + x) * 4,
                forall|st: int|
                    0 <= st < adj@.len() ==> (#[trigger] adj@[st])@ == maze_succ(
                        cells,
                        gw,
                        gh,
                        (st / 4) % gw,
                        (st / 4) / gw,
                        st % 4,
                    ),
            decreases w - x,
        {
            proof {
                lemma_row_major_index(gw, gh, x as int, y as int);
                assert(((y * w + x) as int) * 4 + 4 <= gw * gh * 4) by (nonlinear_arith)
                    requires
                        0 <= ((y * w + x) as int) && ((y * w + x) as int) < gw * gh,
                ;
            }
            let cell = y * w + x;
            let mut d: usize = 0;
            while d < 4
                invariant
                    0 <= d <= 4,
                    0 <= x < w,
                    0 <= y < h,
                    w == gw,
                    h == gh,
                    g.wf(),
                    cells == g.cells(),
                    gw == g.width_spec(),
                    gh == g.height_spec(),
                    cells.len() == gw * gh,
                    gw * gh * 4 <= usize::MAX,
                    cell == y * w + x,
                    (cell as int) * 4 + 4 <= gw * gh * 4,
                    adj@.len() == (cell as int) * 4 + d,
                    forall|st: int|
                        0 <= st < adj@.len() ==> (#[trigger] adj@[st])@ == maze_succ(
                            cells,
                            gw,
                            gh,
                            (st / 4) % gw,
                            (st / 4) / gw,
                            st % 4,
                        ),
                decreases 4 - d,
            {
                let mut row: Vec<(usize, u64)> = Vec::new();
                proof {
                    if x + 1 < w {
                        lemma_row_major_index(gw, gh, x as int + 1, y as int);
                        assert((((y as int) * gw + (x as int + 1)) * 4 + 4) <= gw * gh * 4)
                            by (nonlinear_arith)
                            requires
                                0 <= (y as int) * gw + (x as int + 1) < gw * gh,
                        ;
                    }
                    if y + 1 < h {
                        lemma_row_major_index(gw, gh, x as int, y as int + 1);
                        assert(((((y as int) + 1) * gw + (x as int)) * 4 + 4) <= gw * gh * 4)
                            by (nonlinear_arith)
                            requires
                                0 <= ((y as int) + 1) * gw + (x as int) < gw * gh,
                        ;
                    }
                    if x > 0 {
                        lemma_row_major_index(gw, gh, x as int - 1, y as int);
                        assert((((y as int) * gw + (x as int - 1)) * 4 + 4) <= gw * gh * 4)
                            by (nonlinear_arith)
                            requires
                                0 <= (y as int) * gw + (x as int - 1) < gw * gh,
                        ;
                    }
                    if y > 0 {
                        lemma_row_major_index(gw, gh, x as int, y as int - 1);
                        assert(((((y as int) - 1) * gw + (x as int)) * 4 + 4) <= gw * gh * 4)
                            by (nonlinear_arith)
                            requires
                                0 <= ((y as int) - 1) * gw + (x as int) < gw * gh,
                        ;
                    }
                }
                // the forward step, by facing
                if d == 0 {
                    if x + 1 < w {
                        match g.get(x + 1, y) {
                            Some(c) => if c != '#' {
                                row.push(((y * w + (x + 1)) * 4, 1u64));
                            },
                            None => {},
                        }
                    }
                } else if d == 1 {
                    if y + 1 < h {
                        match g.get(x, y + 1) {
                            Some(c) => if c != '#' {
                                row.push((((y + 1) * w + x) * 4 + 1, 1u64));
                            },
                            None => {},
                        }
                    }
                } else if d == 2 {
                    if x > 0 {
                        match g.get(x - 1, y) {
                            Some(c) => if c != '#' {
                                row.push(((y * w + (x - 1)) * 4 + 2, 1u64));
                            },
                            None => {},
                        }
                    }
                } else {
                    if y > 0 {
                        match g.get(x, y - 1) {
                            Some(c) => if c != '#' {
                                row.push((((y - 1) * w + x) * 4 + 3, 1u64));
                            },
                            None => {},
                        }
                    }
                }
                // the two quarter turns
                row.push((cell * 4 + ((d + 1) % 4), 1000u64));
                row.push((cell * 4 + ((d + 3) % 4), 1000u64));
                proof {
                    assert(row@ =~= maze_succ(cells, gw, gh, x as int, y as int, d as int));
                    lemma_state_decode(cell as int, d as int);
                    lemma_row_major_decode(gw, y as int, x as int);
                }
                adj.push(row);
                d += 1;
            }
            proof {
                assert(((y * w + x) as int) * 4 + 4 == ((y * w + x) as int + 1) * 4)
                    by (nonlinear_arith);
            }
            x += 1;
        }
        proof {
            assert(((y as int) * gw + gw) * 4 == (((y as int) + 1) * gw) * 4) by (nonlinear_arith);
        }
        y += 1;
    }
    proof {
        let gv = graph_view(adj);
        assert(gh * gw * 4 == gw * gh * 4) by (nonlinear_arith);
        assert(gv.len() == gw * gh * 4);
        assert forall|st: int| 0 <= st < gv.len() implies #[trigger] gv[st] == maze_succ(
            cells,
            gw,
            gh,
            (st / 4) % gw,
            (st / 4) / gw,
            st % 4,
        ) by {
            assert(adj@[st]@ == maze_succ(cells, gw, gh, (st / 4) % gw, (st / 4) / gw, st % 4));
        }
        assert(gv =~= maze_graph(cells, gw, gh));
        assert forall|u: int, j: int|
            0 <= u < gv.len() && 0 <= j < gv[u].len() implies (#[trigger] gv[u][j]).0 < gv.len()
                && gv[u][j].1 <= 1000 by {
            vstd::arithmetic::div_mod::lemma_fundamental_div_mod(u, 4);
            let cell2 = u / 4;
            vstd::arithmetic::div_mod::lemma_fundamental_div_mod(cell2, gw);
            assert(0 <= cell2 < gw * gh) by (nonlinear_arith)
                requires
                    0 <= u < gw * gh * 4,
                    u == 4 * cell2 + u % 4,
                    0 <= u % 4 < 4,
            ;
            assert(0 <= (cell2 % gw) && cell2 % gw < gw && 0 <= (cell2 / gw) && cell2 / gw
                < gh) by (nonlinear_arith)
                requires
                    gw >= 1,
                    0 <= cell2 < gw * gh,
                    cell2 == gw * (cell2 / gw) + cell2 % gw,
                    0 <= cell2 % gw < gw,
            ;
            lemma_maze_succ_wf(cells, gw, gh, cell2 % gw, cell2 / gw, u % 4);
        }
    }
    adj
}

/// Find the first cell holding `t`, reporting the cell count if absent.
fn find_marker(g: &GridMap, t: char, Ghost(cells): Ghost<Seq<char>>) -> (r: usize)
    requires
        g.wf(),
        cells == g.cells(),
    ensures
        r <= cells.len(),
        r < cells.len() ==> r == find_cell(cells, t),
        r == cells.len() ==> find_cell(cells, t) == -1,
{
    let w = g.width();
    let h = g.height();
    let ghost n = cells.len();
    proof {
        g.lemma_dims();
        assert(cells.skip(0) =~= cells);
    }
    let mut y: usize = 0;
    while y < h
        invariant
            0 <= y <= h,
            g.wf(),
            cells == g.cells(),
            w == g.width_spec(),
            h == g.height_spec(),
            w >= 1,
            cells.len() == w * h,
            w * h <= usize::MAX,
            forall|j: int| 0 <= j < (y as int) * w ==> cells[j] != t,
        decreases h - y,
    {
        let mut x: usize = 0;
        while x < w
            invariant
                0 <= x <= w,
                0 <= y < h,
                g.wf(),
                cells == g.cells(),
                w == g.width_spec(),
                h == g.height_spec(),
                w >= 1,
                cells.len() == w * h,
                w * h <= usize::MAX,
                forall|j: int| 0 <= j < (y as int) * w + x ==> cells[j] != t,
            decreases w - x,
        {
            proof {
                lemma_row_major_index(w as int, h as int, x as int, y as int);
                assert((h as int) * (w as int) == (w as int) * (h as int)) by (nonlinear_arith);
            }
            match g.get(x, y) {
                Some(c) => {
                    if c == t {
                        proof {
                            assert(cells.skip(0) =~= cells);
                            lemma_find_cell_at(cells, 0, (y as int) * w + x, t);
                        }
                        return y * w + x;
                    }
                },
                None => {},
            }
            proof {
                assert(cells[(y as int) * w + x] == g.cell(x as int, y as int));
            }
            x += 1;
        }
        proof {
            assert((y as int) * w + w == ((y as int) + 1) * w) by (nonlinear_arith);
        }
        y += 1;
    }
    proof {
        assert((h as int) * w == w * h) by (nonlinear_arith);
        assert(cells.skip(0) =~= cells);
        lemma_find_cell_none(cells, 0, t);
    }
    let total = w * h;
    total
}

/// The cheapest run from `S` facing east to `E`.
#[verifier::rlimit(60)]
pub fn part_one(input: &str) -> (r: Option<u32>)
    ensures
        part_one_post(ascii_bytes(input@), input.is_ascii(), r),
{
    if !input.is_ascii() {
        return None;
    }
    let bytes = bytes_of(input);
    let lines = lines_of(&bytes);
    let ghost s = ascii_bytes(input@);
    proof {
        assert(lines.deep_view() =~~= lines_spec(s));
    }
    let g = match GridMap::from_lines(&lines) {
        Some(g) => g,
        None => {
            return None;
        },
    };
    proof {
        g.lemma_dims();
        assert forall|i: int| 0 <= i < g.cells().len() implies g.cells()[i] == map_cells(
            s,
        )[i] by {
            let w = g.width_spec();
            let x = i % w;
            let y2 = i / w;
            vstd::arithmetic::div_mod::lemma_fundamental_div_mod(i, w);
            assert(0 <= x && x < w && 0 <= y2 && y2 < g.height_spec()) by (nonlinear_arith)
                requires
                    w >= 1,
                    0 <= i < w * g.height_spec(),
                    x == i % w,
                    y2 == i / w,
            ;
            assert(y2 * w + x == i) by (nonlinear_arith)
                requires
                    i == w * y2 + x,
            ;
            assert(g.cell(x, y2) == lines_spec(s)[y2][x] as char);
        }
        assert(g.cells() =~= map_cells(s));
    }
    let ghost cells = g.cells();
    let w = g.width();
    let h = g.height();
    // the state space must fit the machine words
    let base = w * h;
    let states = match base.checked_mul(4) {
        Some(v) => v,
        None => {
            proof {
                assert(maze_too_big(s)) by {
                    assert((w as int) * (h as int) * 4 > usize::MAX);
                }
            }
            return None;
        },
    };
    if states as u64 > u64::MAX / 1000 {
        proof {
            assert(maze_too_big(s)) by {
                assert((w as int) * (h as int) * 4 * 1000 > u64::MAX) by (nonlinear_arith)
                    requires
                        (w as int) * (h as int) * 4 == states as int,
                        states as int > u64::MAX as int / 1000,
                ;
            }
        }
        return None;
    }
    let s_cell = find_marker(&g, 'S', Ghost(cells));
    if s_cell == base {
        proof {
            assert(!maze_ok(s));
        }
        return None;
    }
    let e_cell = find_marker(&g, 'E', Ghost(cells));
    if e_cell == base {
        proof {
            assert(!maze_ok(s));
        }
        return None;
    }
    proof {
        assert(cells.len() == base as int);
        assert(s_cell as int == find_cell(cells, 'S'));
        assert(e_cell as int == find_cell(cells, 'E'));
    }
    let adj = maze_adjacency(&g);
    let ghost gv = maze_graph(cells, w as int, h as int);
    let start = s_cell * 4;
    proof {
        assert((s_cell as int) * 4 + 4 <= (base as int) * 4) by (nonlinear_arith)
            requires
                0 <= (s_cell as int) && (s_cell as int) < base as int,
        ;
        assert((e_cell as int) * 4 + 4 <= (base as int) * 4) by (nonlinear_arith)
            requires
                0 <= (e_cell as int) && (e_cell as int) < base as int,
        ;
        assert((adj@.len() as int) * 1000 <= u64::MAX) by (nonlinear_arith)
            requires
                adj@.len() as int == states as int,
                states as int <= u64::MAX as int / 1000,
        ;
    }
    let dist = dijkstra(&adj, start, 1000);
    let mut best: Option<u64> = None;
    let mut d: usize = 0;
    while d < 4
        invariant
            0 <= d <= 4,
            gv == maze_graph(cells, w as int, h as int),
            dijkstra_post(gv, start as int, dist@),
            dist@.len() == (base as int) * 4,
            (base as int) * 4 <= usize::MAX,
            (e_cell as int) * 4 + 4 <= (base as int) * 4,
            e_cell as int == find_cell(cells, 'E'),
            start as int == find_cell(cells, 'S') * 4,
            match best {
                Some(m) => {
                    &&& exists|dd: int|
                        0 <= dd < d && #[trigger] dist@[(e_cell as int) * 4 + dd] == Some(m)
                    &&& forall|dd: int|
                        0 <= dd < d ==> match #[trigger] dist@[(e_cell as int) * 4 + dd] {
                            Some(v) => m <= v,
                            None => true,
                        }
                },
                None => forall|dd: int|
                    0 <= dd < d ==> #[trigger] dist@[(e_cell as int) * 4 + dd] is None,
            },
        decreases 4 - d,
    {
        match dist[e_cell * 4 + d] {
            Some(v) => {
                match best {
                    Some(m) => {
                        if v < m {
                            best = Some(v);
                        }
                    },
                    None => {
                        best = Some(v);
                    },
                }
            },
            None => {},
        }
        d += 1;
    }
    match best {
        Some(m) => {
            if m <= u32::MAX as u64 {
                proof {
                    lemma_min_from_dists(gv, start as int, e_cell as int, dist@, m as int);
                }
                Some(m as u32)
            } else {
                proof {
                    assert forall|dd: int, c2: int, k2: nat|
                        0 <= dd < 4 && #[trigger] connects(
                            gv,
                            start as int,
                            (e_cell as int) * 4 + dd,
                            c2,
                            k2,
                        ) implies c2 > u32::MAX by {
                        assert(dist@[(e_cell as int) * 4 + dd] is Some);
                        assert(dist@[(e_cell as int) * 4 + dd]->0 <= c2);
                        assert(m <= dist@[(e_cell as int) * 4 + dd]->0);
                    }
                }
                None
            }
        },
        None => {
            proof {
                assert forall|dd: int|
                    0 <= dd < 4 implies !#[trigger] reachable(
                    gv,
                    start as int,
                    (e_cell as int) * 4 + dd,
                ) by {
                    assert(dist@[(e_cell as int) * 4 + dd] is None);
                }
            }
            None
        },
    }
}

/// The least of the four end-state distances is the least walk cost to
/// the end cell.
proof fn lemma_min_from_dists(
    g: Seq<Seq<(usize, u64)>>,
    start: int,
    e: int,
    dist: Seq<Option<u64>>,
    m: int,
)
    requires
        dijkstra_post(g, start, dist),
        e >= 0,
        e * 4 + 4 <= dist.len(),
        exists|dd: int| 0 <= dd < 4 && #[trigger] dist[e * 4 + dd] == Some(m as u64),
        forall|dd: int|
            0 <= dd < 4 ==> match #[trigger] dist[e * 4 + dd] {
                Some(v) => m <= v,
                None => true,
            },
        0 <= m <= u32::MAX,
    ensures
        maze_min_is(g, start, e, m),
{
    let dd0 = choose|dd: int| 0 <= dd < 4 && #[trigger] dist[e * 4 + dd] == Some(m as u64);
    assert(dist[e * 4 + dd0] is Some);
    let k0 = choose|k: nat| #[trigger] connects(g, start, e * 4 + dd0, dist[e * 4 + dd0]->0 as int, k);
    assert(connects(g, start, e * 4 + dd0, m, k0));
    assert forall|dd: int, c2: int, k2: nat|
        0 <= dd < 4 && #[trigger] connects(g, start, e * 4 + dd, c2, k2) implies m <= c2 by {
        assert(dist[e * 4 + dd] is Some);
        assert(dist[e * 4 + dd]->0 <= c2);
    }
}

} // verus!
