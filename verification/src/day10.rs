//! A topographic map of digit heights.  A trail climbs by exactly one
//! height per step, orthogonally.  Part one scores each trailhead (a `0`
//! cell) by how many distinct `9` cells it can reach, and sums the scores.

use vstd::prelude::*;

verus! {

use crate::parse::{ascii_bytes, bytes_of, lines_spec, lines_of};
use crate::grid2d::{GridMap, lemma_row_major_decode, lemma_row_major_index, rect_lines};
use crate::search::{
    bfs_reachable, count_true, graph_view, lemma_count_true_is_card, reachable, true_set,
    wf_graph,
};

/// The uphill successor entries of cell `(x, y)`: the in-bounds
/// neighbours whose cell reads exactly one higher, in the order right,
/// left, down, up, each with cost one.
pub open spec fn trail_succ(cells: Seq<char>, w: int, h: int, x: int, y: int) -> Seq<
    (usize, u64),
> {
    let here = cells[y * w + x] as int;
    let right = if x + 1 < w && 0 <= x + 1 && 0 <= y < h && cells[y * w + (x + 1)] as int == here
        + 1 {
        seq![((y * w + (x + 1)) as usize, 1u64)]
    } else {
        Seq::<(usize, u64)>::empty()
    };
    let left = if 0 <= x - 1 && x - 1 < w && 0 <= y < h && cells[y * w + (x - 1)] as int == here
        + 1 {
        seq![((y * w + (x - 1)) as usize, 1u64)]
    } else {
        Seq::<(usize, u64)>::empty()
    };
    let down = if 0 <= x < w && 0 <= y + 1 && y + 1 < h && cells[(y + 1) * w + x] as int == here
        + 1 {
        seq![(((y + 1) * w + x) as usize, 1u64)]
    } else {
        Seq::<(usize, u64)>::empty()
    };
    let up = if 0 <= x < w && 0 <= y - 1 && y - 1 < h && cells[(y - 1) * w + x] as int == here
        + 1 {
        seq![(((y - 1) * w + x) as usize, 1u64)]
    } else {
        Seq::<(usize, u64)>::empty()
    };
    right + left + down + up
}

/// The whole map as a graph: every cell steps to its one-higher
/// neighbours.
pub open spec fn trail_graph(cells: Seq<char>, w: int, h: int) -> Seq<Seq<(usize, u64)>> {
    Seq::new((w * h) as nat, |u: int| trail_succ(cells, w, h, u % w, u / w))
}

/// Every successor entry points at a state and costs one.
proof fn lemma_trail_succ_wf(cells: Seq<char>, w: int, h: int, x: int, y: int)
    requires
        w >= 1,
        h >= 1,
        w * h <= usize::MAX,
    ensures
        forall|j: int|
            0 <= j < trail_succ(cells, w, h, x, y).len() ==> 0 <= (#[trigger] trail_succ(
                cells,
                w,
                h,
                x,
                y,
            )[j]).0 < w * h && trail_succ(cells, w, h, x, y)[j].1 == 1,
{
    if x + 1 < w && 0 <= x + 1 && 0 <= y < h {
        lemma_row_major_index(w, h, x + 1, y);
    }
    if 0 <= x - 1 && x - 1 < w && 0 <= y < h {
        lemma_row_major_index(w, h, x - 1, y);
    }
    if 0 <= x < w && 0 <= y + 1 && y + 1 < h {
        lemma_row_major_index(w, h, x, y + 1);
    }
    if 0 <= x < w && 0 <= y - 1 && y - 1 < h {
        lemma_row_major_index(w, h, x, y - 1);
    }
    assert(h * w == w * h) by (nonlinear_arith);
}

/// Build the adjacency list of the map's uphill graph.
pub fn trail_adjacency(g: &GridMap) -> (adj: Vec<Vec<(usize, u64)>>)
    requires
        g.wf(),
    ensures
        graph_view(adj) == trail_graph(g.cells(), g.width_spec(), g.height_spec()),
        adj@.len() == g.width_spec() * g.height_spec(),
        wf_graph(graph_view(adj)),
{
    let w = g.width();
    let h = g.height();
    let ghost cells = g.cells();
    let ghost gw = g.width_spec();
    let ghost gh = g.height_spec();
    let mut adj: Vec<Vec<(usize, u64)>> = Vec::new();
    let mut y: usize = 0;
    proof {
        g.lemma_dims();
    }
    while y < h
        invariant
            0 <= y <= h,
            w == gw,
            h == gh,
            g.wf(),
            cells == g.cells(),
            gw == g.width_spec(),
            gh == g.height_spec(),
            cells.len() == gw * gh,
            gw * gh <= usize::MAX,
            adj@.len() == y * w,
            forall|u: int|
                0 <= u < adj@.len() ==> (#[trigger] adj@[u])@ == trail_succ(
                    cells,
                    gw,
                    gh,
                    u % gw,
                    u / gw,
                ),
        decreases h - y,
    {
        let mut x: usize = 0;
        while x < w
            invariant
                0 <= x <= w,
                0 <= y < h,
                w == gw,
                h == gh,
                g.wf(),
                cells == g.cells(),
                gw == g.width_spec(),
                gh == g.height_spec(),
                cells.len() == gw * gh,
                gw * gh <= usize::MAX,
                adj@.len() == y * w + x,
                forall|u: int|
                    0 <= u < adj@.len() ==> (#[trigger] adj@[u])@ == trail_succ(
                        cells,
                        gw,
                        gh,
                        u % gw,
                        u / gw,
                    ),
            decreases w - x,
        {
            let mut row: Vec<(usize, u64)> = Vec::new();
            proof {
                lemma_row_major_index(gw, gh, x as int, y as int);
            }
            let here = match g.get(x, y) {
                Some(c) => c,
                None => ' ',
            };
            let want = (here as u32) + 1;
            if x + 1 < w {
                match g.get(x + 1, y) {
                    Some(c) => if c as u32 == want {
                        proof {
                            lemma_row_major_index(gw, gh, x + 1, y as int);
                        }
                        row.push((y * w + (x + 1), 1u64));
                    },
                    None => {},
                }
            }
            if x > 0 {
                match g.get(x - 1, y) {
                    Some(c) => if c as u32 == want {
                        proof {
                            lemma_row_major_index(gw, gh, x - 1, y as int);
                        }
                        row.push((y * w + (x - 1), 1u64));
                    },
                    None => {},
                }
            }
            if y + 1 < h {
                match g.get(x, y + 1) {
                    Some(c) => if c as u32 == want {
                        proof {
                            lemma_row_major_index(gw, gh, x as int, y + 1);
                        }
                        row.push(((y + 1) * w + x, 1u64));
                    },
                    None => {},
                }
            }
            if y > 0 {
                match g.get(x, y - 1) {
                    Some(c) => if c as u32 == want {
                        proof {
                            lemma_row_major_index(gw, gh, x as int, y - 1);
                        }
                        row.push(((y - 1) * w + x, 1u64));
                    },
                    None => {},
                }
            }
            proof {
                assert(row@ =~= trail_succ(cells, gw, gh, x as int, y as int));
                lemma_row_major_decode(gw, y as int, x as int);
            }
            adj.push(row);
            x += 1;
        }
        proof {
            assert((y + 1) * w == y * w + w) by (nonlinear_arith);
        }
        y += 1;
    }
    proof {
        let gv = graph_view(adj);
        assert(gh * gw == gw * gh) by (nonlinear_arith);
        assert(gv.len() == gw * gh);
        assert forall|u: int| 0 <= u < gv.len() implies #[trigger] gv[u] == trail_succ(
            cells,
            gw,
            gh,
            u % gw,
            u / gw,
        ) by {
            assert(adj@[u]@ == trail_succ(cells, gw, gh, u % gw, u / gw));
        }
        assert(gv =~= trail_graph(cells, gw, gh));
        assert forall|u: int, j: int|
            0 <= u < gv.len() && 0 <= j < gv[u].len() implies (#[trigger] gv[u][j]).0
            < gv.len() by {
            lemma_trail_succ_wf(cells, gw, gh, u % gw, u / gw);
            vstd::arithmetic::div_mod::lemma_fundamental_div_mod(u, gw);
        }
    }
    adj
}

/// The map's cells as characters, row-major, read off the input lines.
pub open spec fn map_cells(s: Seq<u8>) -> Seq<char> {
    let ls = lines_spec(s);
    let w = ls[0].len() as int;
    Seq::new((w * ls.len()) as nat, |i: int| ls[i / w][i % w] as char)
}

/// Every cell of the map is a decimal digit.
pub open spec fn map_ok(s: Seq<u8>) -> bool {
    &&& rect_lines(lines_spec(s))
    &&& forall|i: int, j: int|
        0 <= i < lines_spec(s).len() && 0 <= j < lines_spec(s)[i].len() ==> 48 <= (
        #[trigger] lines_spec(s)[i][j]) <= 57
}

/// The distinct `9` cells a trailhead at `z` can reach.
pub open spec fn nine_set(g: Seq<Seq<(usize, u64)>>, cells: Seq<char>, z: int) -> Set<int> {
    Set::new(|v: int| 0 <= v < g.len() && reachable(g, z, v) && cells[v] == '9')
}

/// Sum of the trailhead scores over the first `k` cells.
pub open spec fn score_sum(g: Seq<Seq<(usize, u64)>>, cells: Seq<char>, k: int) -> int
    decreases k,
{
    if k <= 0 {
        0
    } else {
        score_sum(g, cells, k - 1) + if cells[k - 1] == '0' {
            nine_set(g, cells, k - 1).len() as int
        } else {
            0int
        }
    }
}

/// What part one answers: the summed trailhead scores of the map.
pub open spec fn part_one_spec(s: Seq<u8>) -> Option<u64> {
    if !map_ok(s) {
        None
    } else {
        let cells = map_cells(s);
        let w = lines_spec(s)[0].len() as int;
        let h = lines_spec(s).len() as int;
        let g = trail_graph(cells, w, h);
        if score_sum(g, cells, w * h) > u64::MAX {
            None
        } else {
            Some(score_sum(g, cells, w * h) as u64)
        }
    }
}

/// Count the reachable `9` cells of one trailhead.
fn nine_count(
    g: &GridMap,
    adj: &Vec<Vec<(usize, u64)>>,
    z: usize,
    Ghost(cells): Ghost<Seq<char>>,
) -> (r: usize)
    requires
        g.wf(),
        cells == g.cells(),
        graph_view(*adj) == trail_graph(g.cells(), g.width_spec(), g.height_spec()),
        adj@.len() == g.width_spec() * g.height_spec(),
        wf_graph(graph_view(*adj)),
        z < adj@.len(),
    ensures
        r == nine_set(trail_graph(cells, g.width_spec(), g.height_spec()), cells, z as int).len(),
{
    let ghost gv = graph_view(*adj);
    let visited = bfs_reachable(adj, z);
    let mut flags: Vec<bool> = Vec::new();
    let n = visited.len();
    let w = g.width();
    let mut idx: usize = 0;
    proof {
        g.lemma_dims();
    }
    while idx < n
        invariant
            0 <= idx <= n,
            g.wf(),
            cells == g.cells(),
            cells.len() == g.width_spec() * g.height_spec(),
            w == g.width_spec(),
            w >= 1,
            gv == graph_view(*adj),
            n == adj@.len(),
            n == g.width_spec() * g.height_spec(),
            visited@.len() == n,
            forall|v: int| 0 <= v < n ==> (visited@[v] <==> reachable(gv, z as int, v)),
            flags@.len() == idx,
            forall|v: int|
                0 <= v < idx ==> (#[trigger] flags@[v] == (visited@[v] && cells[v] == '9')),
        decreases n - idx,
    {
        let x = idx % w;
        let y = idx / w;
        proof {
            vstd::arithmetic::div_mod::lemma_fundamental_div_mod(idx as int, w as int);
            assert(0 <= (x as int) && (x as int) < w && 0 <= (y as int) && (y as int)
                < g.height_spec()) by (nonlinear_arith)
                requires
                    w as int >= 1,
                    0 <= (idx as int) && (idx as int) < (w as int) * g.height_spec(),
                    x as int == idx as int % (w as int),
                    y as int == idx as int / (w as int),
            ;
            assert((y as int) * (w as int) + (x as int) == idx as int) by (nonlinear_arith)
                requires
                    idx as int == (w as int) * (y as int) + (x as int),
            ;
        }
        let c = match g.get(x, y) {
            Some(c) => c,
            None => ' ',
        };
        flags.push(visited[idx] && c == '9');
        idx += 1;
    }
    let mut count: usize = 0;
    let mut q: usize = 0;
    proof {
        assert(flags@.take(0) =~= Seq::<bool>::empty());
    }
    while q < flags.len()
        invariant
            0 <= q <= flags@.len(),
            count == count_true(flags@.take(q as int)),
            count <= q,
        decreases flags@.len() - q,
    {
        proof {
            assert(flags@.take(q + 1).drop_last() =~= flags@.take(q as int));
            assert(flags@.take(q + 1).last() == flags@[q as int]);
        }
        if flags[q] {
            count += 1;
        }
        q += 1;
    }
    proof {
        assert(flags@.take(flags@.len() as int) =~= flags@);
        lemma_count_true_is_card(flags@);
        assert(true_set(flags@) =~= nine_set(
            trail_graph(cells, g.width_spec(), g.height_spec()),
            cells,
            z as int,
        ));
    }
    count
}

proof fn lemma_score_prefix(g: Seq<Seq<(usize, u64)>>, cells: Seq<char>, k: int)
    requires
        0 <= k <= cells.len(),
    ensures
        score_sum(g, cells, k) <= score_sum(g, cells, cells.len() as int),
    decreases cells.len() - k,
{
    if k < cells.len() {
        lemma_score_prefix(g, cells, k + 1);
    }
}

/// Sum of the trailhead scores: how many distinct peak cells each `0`
/// cell reaches, added up.
pub fn part_one(input: &str) -> (r: Option<u64>)
    ensures
        r == if input.is_ascii() {
            part_one_spec(ascii_bytes(input@))
        } else {
            None::<u64>
        },
{
    if !input.is_ascii() {
        return None;
    }
    let bytes = bytes_of(input);
    let lines = lines_of(&bytes);
    let ghost s = ascii_bytes(input@);
    proof {
        assert(lines.deep_view() =~~= lines_spec(s));
    }
    let g = match GridMap::from_lines(&lines) {
        Some(g) => g,
        None => {
            return None;
        },
    };
    // every cell must be a digit
    proof {
        g.lemma_dims();
    }
    let w = g.width();
    let h = g.height();
    let mut y: usize = 0;
    while y < h
        invariant
            0 <= y <= h,
            input.is_ascii(),
            s == ascii_bytes(input@),
            g.wf(),
            w == g.width_spec(),
            h == g.height_spec(),
            g.width_spec() == lines_spec(s)[0].len(),
            g.height_spec() == lines_spec(s).len(),
            rect_lines(lines_spec(s)),
            forall|x2: int, y2: int|
                g.in_bounds(x2, y2) ==> g.cell(x2, y2) == lines_spec(s)[y2][x2] as char,
            forall|i: int, j: int|
                0 <= i < y && 0 <= j < lines_spec(s)[i].len() ==> 48 <= (
                #[trigger] lines_spec(s)[i][j]) <= 57,
        decreases h - y,
    {
        let mut x: usize = 0;
        while x < w
            invariant
                0 <= x <= w,
                0 <= y < h,
                input.is_ascii(),
                s == ascii_bytes(input@),
                g.wf(),
                w == g.width_spec(),
                h == g.height_spec(),
                g.width_spec() == lines_spec(s)[0].len(),
                g.height_spec() == lines_spec(s).len(),
                rect_lines(lines_spec(s)),
                forall|x2: int, y2: int|
                    g.in_bounds(x2, y2) ==> g.cell(x2, y2) == lines_spec(s)[y2][x2] as char,
                forall|j: int|
                    0 <= j < x ==> 48 <= (#[trigger] lines_spec(s)[y as int][j]) <= 57,
            decreases w - x,
        {
            let c = match g.get(x, y) {
                Some(c) => c,
                None => ' ',
            };
            if (c as u32) < 48 || (c as u32) > 57 {
                proof {
                    assert(lines_spec(s)[y as int][x as int] as char == c);
                    assert(!(48 <= lines_spec(s)[y as int][x as int] <= 57));
                }
                return None;
            }
            proof {
                assert(lines_spec(s)[y as int][x as int] as char == c);
            }
            x += 1;
        }
        y += 1;
    }
    proof {
        assert(map_ok(s)) by {
            assert forall|i: int, j: int|
                0 <= i < lines_spec(s).len() && 0 <= j < lines_spec(s)[i].len() implies 48 <= (
            #[trigger] lines_spec(s)[i][j]) <= 57 by {
                assert(lines_spec(s)[i].len() == lines_spec(s)[0].len());
            }
        }
        assert forall|i: int| 0 <= i < g.cells().len() implies g.cells()[i] == map_cells(
            s,
        )[i] by {
            let w = g.width_spec();
            let x = i % w;
            let y2 = i / w;
            vstd::arithmetic::div_mod::lemma_fundamental_div_mod(i, w);
            assert(0 <= x < w && 0 <= y2 < g.height_spec()) by (nonlinear_arith)
                requires
                    w >= 1,
                    0 <= i < w * g.height_spec(),
                    x == i % w,
                    y2 == i / w,
            ;
            assert(y2 * w + x == i) by (nonlinear_arith)
                requires
                    i == w * y2 + x,
            ;
            assert(g.cell(x, y2) == lines_spec(s)[y2][x] as char);
        }
        assert(g.cells() =~= map_cells(s));
    }
    let adj = trail_adjacency(&g);
    let ghost cells = g.cells();
    let ghost gv = trail_graph(cells, g.width_spec(), g.height_spec());
    let n = adj.len();
    let mut acc: u64 = 0;
    let mut z: usize = 0;
    proof {
        g.lemma_dims();
    }
    while z < n
        invariant
            0 <= z <= n,
            input.is_ascii(),
            s == ascii_bytes(input@),
            g.wf(),
            cells == g.cells(),
            cells == map_cells(s),
            cells.len() == g.width_spec() * g.height_spec(),
            map_ok(s),
            g.width_spec() == lines_spec(s)[0].len(),
            g.height_spec() == lines_spec(s).len(),
            gv == trail_graph(cells, g.width_spec(), g.height_spec()),
            graph_view(adj) == gv,
            adj@.len() == g.width_spec() * g.height_spec(),
            wf_graph(graph_view(adj)),
            n == adj@.len(),
            acc == score_sum(gv, cells, z as int),
        decreases n - z,
    {
        let w = g.width();
        let x = z % w;
        let y = z / w;
        proof {
            vstd::arithmetic::div_mod::lemma_fundamental_div_mod(z as int, w as int);
            assert(0 <= (x as int) && (x as int) < w && 0 <= (y as int) && (y as int)
                < g.height_spec()) by (nonlinear_arith)
                requires
                    w as int >= 1,
                    0 <= (z as int) && (z as int) < (w as int) * g.height_spec(),
                    x as int == z as int % (w as int),
                    y as int == z as int / (w as int),
            ;
            assert((y as int) * (w as int) + (x as int) == z as int) by (nonlinear_arith)
                requires
                    z as int == (w as int) * (y as int) + (x as int),
            ;
        }
        let c = match g.get(x, y) {
            Some(c) => c,
            None => ' ',
        };
        if c == '0' {
            let sc = nine_count(&g, &adj, z, Ghost(cells));
            match acc.checked_add(sc as u64) {
                Some(a) => {
                    acc = a;
                },
                None => {
                    proof {
                        lemma_score_prefix(gv, cells, z + 1);
                        assert(cells.len() == g.width_spec() * g.height_spec());
                    }
                    return None;
                },
            }
        }
        z += 1;
    }
    proof {
        assert(score_sum(gv, cells, n as int) == score_sum(
            gv,
            cells,
            (g.width_spec() * g.height_spec()) as int,
        ));
    }
    Some(acc)
}

} // verus!
