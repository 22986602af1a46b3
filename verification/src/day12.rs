//! Garden regions: cells of the same plant connect orthogonally into
//! regions.  A region's price is its area times its perimeter, where each
//! cell contributes one fence unit per side not shared with its region.
//! Summing area times each cell's fence units over the cells of a region
//! equals area times perimeter, so part one sums, over every cell, the
//! size of its region times its own open sides.

use vstd::prelude::*;

verus! {

use crate::parse::{ascii_bytes, bytes_of, lines_spec, lines_of};
use crate::grid2d::{GridMap, lemma_row_major_decode, lemma_row_major_index, rect_lines};
use crate::day10::map_cells;
use crate::search::{bfs_reachable_count, graph_view, reachable_set, wf_graph};

/// The same-plant successor entries of cell `(x, y)`: the in-bounds
/// neighbours holding the same character, in the order right, left, down,
/// up, each with cost one.
pub open spec fn same_succ(cells: Seq<char>, w: int, h: int, x: int, y: int) -> Seq<
    (usize, u64),
> {
    let here = cells[y * w + x];
    let right = if x + 1 < w && 0 <= x + 1 && 0 <= y < h && cells[y * w + (x + 1)] == here {
        seq![((y * w + (x + 1)) as usize, 1u64)]
    } else {
        Seq::<(usize, u64)>::empty()
    };
    let left = if 0 <= x - 1 && x - 1 < w && 0 <= y < h && cells[y * w + (x - 1)] == here {
        seq![((y * w + (x - 1)) as usize, 1u64)]
    } else {
        Seq::<(usize, u64)>::empty()
    };
    let down = if 0 <= x < w && 0 <= y + 1 && y + 1 < h && cells[(y + 1) * w + x] == here {
        seq![(((y + 1) * w + x) as usize, 1u64)]
    } else {
        Seq::<(usize, u64)>::empty()
    };
    let up = if 0 <= x < w && 0 <= y - 1 && y - 1 < h && cells[(y - 1) * w + x] == here {
        seq![(((y - 1) * w + x) as usize, 1u64)]
    } else {
        Seq::<(usize, u64)>::empty()
    };
    right + left + down + up
}

/// The garden as a graph: every cell steps to its same-plant neighbours.
pub open spec fn same_graph(cells: Seq<char>, w: int, h: int) -> Seq<Seq<(usize, u64)>> {
    Seq::new((w * h) as nat, |u: int| same_succ(cells, w, h, u % w, u / w))
}

/// The fence price, summed cell by cell over the first `k` cells: each
/// cell pays its region's size for every side not shared with a
/// same-plant neighbour.
pub open spec fn price_sum(g: Seq<Seq<(usize, u64)>>, k: int) -> int
    decreases k,
{
    if k <= 0 {
        0
    } else {
        price_sum(g, k - 1) + reachable_set(g, k - 1).len() * (4 - g[k - 1].len())
    }
}

/// What part one answers: the total fence price of the garden.
pub open spec fn part_one_spec(s: Seq<u8>) -> Option<u32> {
    if !rect_lines(lines_spec(s)) {
        None
    } else {
        let cells = map_cells(s);
        let w = lines_spec(s)[0].len() as int;
        let h = lines_spec(s).len() as int;
        let g = same_graph(cells, w, h);
        if price_sum(g, w * h) > u32::MAX {
            None
        } else {
            Some(price_sum(g, w * h) as u32)
        }
    }
}

/// Every successor entry points at a state, and no cell has more than
/// four.
proof fn lemma_same_succ_wf(cells: Seq<char>, w: int, h: int, x: int, y: int)
    requires
        w >= 1,
        h >= 1,
        w * h <= usize::MAX,
    ensures
        forall|j: int|
            0 <= j < same_succ(cells, w, h, x, y).len() ==> 0 <= (#[trigger] same_succ(
                cells,
                w,
                h,
                x,
                y,
            )[j]).0 < w * h,
        same_succ(cells, w, h, x, y).len() <= 4,
{
    if x + 1 < w && 0 <= x + 1 && 0 <= y < h {
        lemma_row_major_index(w, h, x + 1, y);
    }
    if 0 <= x - 1 && x - 1 < w && 0 <= y < h {
        lemma_row_major_index(w, h, x - 1, y);
    }
    if 0 <= x < w && 0 <= y + 1 && y + 1 < h {
        lemma_row_major_index(w, h, x, y + 1);
    }
    if 0 <= x < w && 0 <= y - 1 && y - 1 < h {
        lemma_row_major_index(w, h, x, y - 1);
    }
    assert(h * w == w * h) by (nonlinear_arith);
}

/// Build the adjacency list of the garden's same-plant graph.
pub fn same_adjacency(g: &GridMap) -> (adj: Vec<Vec<(usize, u64)>>)
    requires
        g.wf(),
    ensures
        graph_view(adj) == same_graph(g.cells(), g.width_spec(), g.height_spec()),
        adj@.len() == g.width_spec() * g.height_spec(),
        wf_graph(graph_view(adj)),
        forall|u: int| 0 <= u < adj@.len() ==> (#[trigger] graph_view(adj)[u]).len() <= 4,
{
    let w = g.width();
    let h = g.height();
    let ghost cells = g.cells();
    let ghost gw = g.width_spec();
    let ghost gh = g.height_spec();
    let mut adj: Vec<Vec<(usize, u64)>> = Vec::new();
    let mut y: usize = 0;
    proof {
        g.lemma_dims();
    }
    while y < h
        invariant
            0 <= y <= h,
            w == gw,
            h == gh,
            g.wf(),
            cells == g.cells(),
            gw == g.width_spec(),
            gh == g.height_spec(),
            cells.len() == gw * gh,
            gw * gh <= usize::MAX,
            adj@.len() == y * w,
            forall|u: int|
                0 <= u < adj@.len() ==> (#[trigger] adj@[u])@ == same_succ(
                    cells,
                    gw,
                    gh,
                    u % gw,
                    u / gw,
                ),
        decreases h - y,
    {
        let mut x: usize = 0;
        while x < w
            invariant
                0 <= x <= w,
                0 <= y < h,
                w == gw,
                h == gh,
                g.wf(),
                cells == g.cells(),
                gw == g.width_spec(),
                gh == g.height_spec(),
                cells.len() == gw * gh,
                gw * gh <= usize::MAX,
                adj@.len() == y * w + x,
                forall|u: int|
                    0 <= u < adj@.len() ==> (#[trigger] adj@[u])@ == same_succ(
                        cells,
                        gw,
                        gh,
                        u % gw,
                        u / gw,
                    ),
            decreases w - x,
        {
            let mut row: Vec<(usize, u64)> = Vec::new();
            proof {
                lemma_row_major_index(gw, gh, x as int, y as int);
            }
            let here = match g.get(x, y) {
                Some(c) => c,
                None => ' ',
            };
            if x + 1 < w {
                match g.get(x + 1, y) {
                    Some(c) => if c == here {
                        proof {
                            lemma_row_major_index(gw, gh, x + 1, y as int);
                        }
                        row.push((y * w + (x + 1), 1u64));
                    },
                    None => {},
                }
            }
            if x > 0 {
                match g.get(x - 1, y) {
                    Some(c) => if c == here {
                        proof {
                            lemma_row_major_index(gw, gh, x - 1, y as int);
                        }
                        row.push((y * w + (x - 1), 1u64));
                    },
                    None => {},
                }
            }
            if y + 1 < h {
                match g.get(x, y + 1) {
                    Some(c) => if c == here {
                        proof {
                            lemma_row_major_index(gw, gh, x as int, y + 1);
                        }
                        row.push(((y + 1) * w + x, 1u64));
                    },
                    None => {},
                }
            }
            if y > 0 {
                match g.get(x, y - 1) {
                    Some(c) => if c == here {
                        proof {
                            lemma_row_major_index(gw, gh, x as int, y - 1);
                        }
                        row.push(((y - 1) * w + x, 1u64));
                    },
                    None => {},
                }
            }
            proof {
                assert(row@ =~= same_succ(cells, gw, gh, x as int, y as int));
                lemma_row_major_decode(gw, y as int, x as int);
            }
            adj.push(row);
            x += 1;
        }
        proof {
            assert((y + 1) * w == y * w + w) by (nonlinear_arith);
        }
        y += 1;
    }
    proof {
        let gv = graph_view(adj);
        assert(gh * gw == gw * gh) by (nonlinear_arith);
        assert(gv.len() == gw * gh);
        assert forall|u: int| 0 <= u < gv.len() implies #[trigger] gv[u] == same_succ(
            cells,
            gw,
            gh,
            u % gw,
            u / gw,
        ) by {
            assert(adj@[u]@ == same_succ(cells, gw, gh, u % gw, u / gw));
        }
        assert(gv =~= same_graph(cells, gw, gh));
        assert forall|u: int, j: int|
            0 <= u < gv.len() && 0 <= j < gv[u].len() implies (#[trigger] gv[u][j]).0
            < gv.len() by {
            lemma_same_succ_wf(cells, gw, gh, u % gw, u / gw);
            vstd::arithmetic::div_mod::lemma_fundamental_div_mod(u, gw);
        }
        assert forall|u: int| 0 <= u < gv.len() implies (#[trigger] gv[u]).len() <= 4 by {
            lemma_same_succ_wf(cells, gw, gh, u % gw, u / gw);
        }
    }
    adj
}

proof fn lemma_price_prefix(g: Seq<Seq<(usize, u64)>>, k: int, n: int)
    requires
        0 <= k <= n,
        forall|u: int| 0 <= u < n ==> (#[trigger] g[u]).len() <= 4,
    ensures
        price_sum(g, k) <= price_sum(g, n),
    decreases n - k,
{
    if k < n {
        lemma_price_prefix(g, k + 1, n);
    }
}

/// The total fence price: each cell pays its region's size per open side.
pub fn part_one(input: &str) -> (r: Option<u32>)
    ensures
        r == if input.is_ascii() {
            part_one_spec(ascii_bytes(input@))
        } else {
            None::<u32>
        },
{
    if !input.is_ascii() {
        return None;
    }
    let bytes = bytes_of(input);
    let lines = lines_of(&bytes);
    let ghost s = ascii_bytes(input@);
    proof {
        assert(lines.deep_view() =~~= lines_spec(s));
    }
    let g = match GridMap::from_lines(&lines) {
        Some(g) => g,
        None => {
            return None;
        },
    };
    proof {
        g.lemma_dims();
        assert forall|i: int| 0 <= i < g.cells().len() implies g.cells()[i] == map_cells(
            s,
        )[i] by {
            let w = g.width_spec();
            let x = i % w;
            let y2 = i / w;
            vstd::arithmetic::div_mod::lemma_fundamental_div_mod(i, w);
            assert(0 <= (x) && (x) < w && 0 <= (y2) && (y2) < g.height_spec())
                by (nonlinear_arith)
                requires
                    w >= 1,
                    0 <= i < w * g.height_spec(),
                    x == i % w,
                    y2 == i / w,
            ;
            assert(y2 * w + x == i) by (nonlinear_arith)
                requires
                    i == w * y2 + x,
            ;
            assert(g.cell(x, y2) == lines_spec(s)[y2][x] as char);
        }
        assert(g.cells() =~= map_cells(s));
    }
    let adj = same_adjacency(&g);
    let ghost cells = g.cells();
    let ghost gv = same_graph(cells, g.width_spec(), g.height_spec());
    let n = adj.len();
    let mut acc: u64 = 0;
    let mut z: usize = 0;
    proof {
        g.lemma_dims();
    }
    while z < n
        invariant
            0 <= z <= n,
            input.is_ascii(),
            s == ascii_bytes(input@),
            g.wf(),
            cells == g.cells(),
            cells == map_cells(s),
            rect_lines(lines_spec(s)),
            g.width_spec() == lines_spec(s)[0].len(),
            g.height_spec() == lines_spec(s).len(),
            gv == same_graph(cells, g.width_spec(), g.height_spec()),
            graph_view(adj) == gv,
            adj@.len() == g.width_spec() * g.height_spec(),
            wf_graph(graph_view(adj)),
            forall|u: int| 0 <= u < adj@.len() ==> (#[trigger] gv[u]).len() <= 4,
            n == adj@.len(),
            acc == price_sum(gv, z as int),
            acc <= u32::MAX,
        decreases n - z,
    {
        let region = bfs_reachable_count(&adj, z);
        proof {
            assert(gv[z as int].len() <= 4);
            assert(adj@[z as int]@ == gv[z as int]);
        }
        let sides = 4 - adj[z].len();
        proof {
            assert((region as int) * (sides as int) <= (region as int) * 4) by (nonlinear_arith)
                requires
                    0 <= sides <= 4,
                    region >= 0,
            ;
        }
        let price = (region as u128) * (sides as u128);
        if (acc as u128) + price > u32::MAX as u128 {
            proof {
                lemma_price_prefix(gv, z + 1, n as int);
            }
            return None;
        }
        acc = acc + (price as u64);
        z += 1;
    }
    Some(acc as u32)
}

} // verus!
