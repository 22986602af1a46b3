//! Antenna antinodes: every pair of same-frequency antennas projects an
//! antinode at the point twice as far from the first as the second.  Part
//! one counts the distinct antinodes that land on the map.

use vstd::prelude::*;

verus! {

use crate::parse::{ascii_bytes, bytes_of, lines_spec, lines_of};
use crate::grid2d::{GridMap, lemma_row_major_index, rect_lines};
use crate::day10::map_cells;
use crate::search::{count_true, lemma_count_true_is_card, true_set};

/// The antinode the ordered antenna pair `(i, j)` projects, as a
/// row-major cell index, when both hold the same frequency and the
/// mirror point lands on the map.
pub open spec fn pair_node(cells: Seq<char>, w: int, h: int, i: int, j: int) -> Option<int> {
    if 0 <= i < cells.len() && 0 <= j < cells.len() && i != j && cells[i] == cells[j]
        && cells[i] != '.' {
        let x = 2 * (j % w) - (i % w);
        let y = 2 * (j / w) - (i / w);
        if 0 <= x < w && 0 <= y < h {
            Some(y * w + x)
        } else {
            None
        }
    } else {
        None
    }
}

/// The distinct cells some antenna pair projects an antinode onto.
pub open spec fn antinode_set(cells: Seq<char>, w: int, h: int) -> Set<int> {
    Set::new(
        |p: int| exists|i: int, j: int| #[trigger] pair_node(cells, w, h, i, j) == Some(p),
    )
}

/// What part one answers: how many cells hold an antinode.
pub open spec fn part_one_spec(s: Seq<u8>) -> Option<u32> {
    if !rect_lines(lines_spec(s)) {
        None
    } else {
        let cells = map_cells(s);
        let w = lines_spec(s)[0].len() as int;
        let h = lines_spec(s).len() as int;
        if antinode_set(cells, w, h).len() > u32::MAX {
            None
        } else {
            Some(antinode_set(cells, w, h).len() as u32)
        }
    }
}

/// Count the distinct antinodes on the map.
#[verifier::rlimit(60)]
pub fn part_one(input: &str) -> (r: Option<u32>)
    ensures
        r == if input.is_ascii() {
            part_one_spec(ascii_bytes(input@))
        } else {
            None::<u32>
        },
{
    if !input.is_ascii() {
        return None;
    }
    let bytes = bytes_of(input);
    let lines = lines_of(&bytes);
    let ghost s = ascii_bytes(input@);
    proof {
        assert(lines.deep_view() =~~= lines_spec(s));
    }
    let g = match GridMap::from_lines(&lines) {
        Some(g) => g,
        None => {
            return None;
        },
    };
    proof {
        g.lemma_dims();
        assert forall|i: int| 0 <= i < g.cells().len() implies g.cells()[i] == map_cells(
            s,
        )[i] by {
            let w = g.width_spec();
            let x = i % w;
            let y2 = i / w;
            vstd::arithmetic::div_mod::lemma_fundamental_div_mod(i, w);
            assert(0 <= (x) && (x) < w && 0 <= (y2) && (y2) < g.height_spec())
                by (nonlinear_arith)
                requires
                    w >= 1,
                    0 <= i < w * g.height_spec(),
                    x == i % w,
                    y2 == i / w,
            ;
            assert(y2 * w + x == i) by (nonlinear_arith)
                requires
                    i == w * y2 + x,
            ;
            assert(g.cell(x, y2) == lines_spec(s)[y2][x] as char);
        }
        assert(g.cells() =~= map_cells(s));
    }
    let ghost cells = g.cells();
    let w = g.width();
    let h = g.height();
    let n = w * h;
    let ghost gw = w as int;
    let ghost gh = h as int;
    let mut mask: Vec<bool> = Vec::new();
    let mut z: usize = 0;
    while z < n
        invariant
            mask@.len() == z <= n,
            forall|t: int| 0 <= t < z ==> !mask@[t],
        decreases n - z,
    {
        mask.push(false);
        z += 1;
    }
    let mut i: usize = 0;
    while i < n
        invariant
            0 <= i <= n,
            g.wf(),
            cells == g.cells(),
            gw == g.width_spec(),
            gh == g.height_spec(),
            w == gw,
            h == gh,
            n == gw * gh,
            n == cells.len(),
            w >= 1,
            mask@.len() == n,
            forall|p: int|
                0 <= p < n && #[trigger] mask@[p] ==> exists|i2: int, j2: int|
                    pair_node(cells, gw, gh, i2, j2) == Some(p),
            forall|i2: int, j2: int|
                0 <= i2 < i && #[trigger] pair_node(cells, gw, gh, i2, j2) is Some ==> 0
                    <= pair_node(cells, gw, gh, i2, j2)->0 < n && mask@[
                    pair_node(cells, gw, gh, i2, j2)->0
                ],
        decreases n - i,
    {
        let xi = i % w;
        let yi = i / w;
        proof {
            vstd::arithmetic::div_mod::lemma_fundamental_div_mod(i as int, gw);
            assert(0 <= (xi as int) && (xi as int) < gw && 0 <= (yi as int) && (yi as int)
                < gh) by (nonlinear_arith)
                requires
                    gw >= 1,
                    0 <= (i as int) && (i as int) < gw * gh,
                    xi as int == (i as int) % gw,
                    yi as int == (i as int) / gw,
            ;
        }
        let ci = match g.get(xi, yi) {
            Some(c) => c,
            None => ' ',
        };
        proof {
            assert((yi as int) * gw + (xi as int) == i as int) by (nonlinear_arith)
                requires
                    i as int == gw * (yi as int) + (xi as int),
            ;
            assert(ci == cells[i as int]);
        }
        let mut j: usize = 0;
        while j < n
            invariant
                0 <= j <= n,
                0 <= i < n,
                g.wf(),
                cells == g.cells(),
                gw == g.width_spec(),
                gh == g.height_spec(),
                w == gw,
                h == gh,
                n == gw * gh,
                n == cells.len(),
                w >= 1,
                mask@.len() == n,
                xi as int == (i as int) % gw,
                yi as int == (i as int) / gw,
                ci == cells[i as int],
                forall|p: int|
                    0 <= p < n && #[trigger] mask@[p] ==> exists|i2: int, j2: int|
                        pair_node(cells, gw, gh, i2, j2) == Some(p),
                forall|i2: int, j2: int|
                    0 <= i2 < i && #[trigger] pair_node(cells, gw, gh, i2, j2) is Some ==> 0
                        <= pair_node(cells, gw, gh, i2, j2)->0 < n && mask@[
                        pair_node(cells, gw, gh, i2, j2)->0
                    ],
                forall|j2: int|
                    0 <= j2 < j && #[trigger] pair_node(cells, gw, gh, i as int, j2) is Some
                        ==> 0 <= pair_node(cells, gw, gh, i as int, j2)->0 < n && mask@[
                        pair_node(cells, gw, gh, i as int, j2)->0
                    ],
            decreases n - j,
        {
            let xj = j % w;
            let yj = j / w;
            proof {
                vstd::arithmetic::div_mod::lemma_fundamental_div_mod(j as int, gw);
                assert(0 <= (xj as int) && (xj as int) < gw && 0 <= (yj as int) && (yj as int)
                    < gh) by (nonlinear_arith)
                    requires
                        gw >= 1,
                        0 <= (j as int) && (j as int) < gw * gh,
                        xj as int == (j as int) % gw,
                        yj as int == (j as int) / gw,
                ;
            }
            let cj = match g.get(xj, yj) {
                Some(c) => c,
                None => ' ',
            };
            proof {
                assert((yj as int) * gw + (xj as int) == j as int) by (nonlinear_arith)
                    requires
                        j as int == gw * (yj as int) + (xj as int),
                ;
                assert(cj == cells[j as int]);
            }
            if i != j && ci == cj && ci != '.' {
                let xc: i128 = 2 * (xj as i128) - (xi as i128);
                let yc: i128 = 2 * (yj as i128) - (yi as i128);
                if 0 <= xc && xc < w as i128 && 0 <= yc && yc < h as i128 {
                    proof {
                        lemma_row_major_index(gw, gh, xc as int, yc as int);
                    }
                    let p = (yc as usize) * w + (xc as usize);
                    mask.set(p, true);
                    proof {
                        assert(pair_node(cells, gw, gh, i as int, j as int) == Some(p as int));
                        lemma_pair_node_range(cells, gw, gh, i as int, j as int);
                    }
                } else {
                    proof {
                        assert(pair_node(cells, gw, gh, i as int, j as int) is None);
                    }
                }
            } else {
                proof {
                    assert(pair_node(cells, gw, gh, i as int, j as int) is None);
                }
            }
            j += 1;
        }
        i += 1;
    }
    // count the marks
    let mut count: usize = 0;
    let mut q: usize = 0;
    proof {
        assert(mask@.take(0) =~= Seq::<bool>::empty());
    }
    while q < mask.len()
        invariant
            0 <= q <= mask@.len(),
            count == count_true(mask@.take(q as int)),
            count <= q,
        decreases mask@.len() - q,
    {
        proof {
            assert(mask@.take(q + 1).drop_last() =~= mask@.take(q as int));
            assert(mask@.take(q + 1).last() == mask@[q as int]);
        }
        if mask[q] {
            count += 1;
        }
        q += 1;
    }
    proof {
        assert(mask@.take(mask@.len() as int) =~= mask@);
        lemma_count_true_is_card(mask@);
        assert forall|p: int| #[trigger] antinode_set(cells, gw, gh).contains(p) implies 0 <= p
            < n && mask@[p] by {
            let (i2, j2) = choose|i2: int, j2: int|
                #[trigger] pair_node(cells, gw, gh, i2, j2) == Some(p);
            lemma_pair_node_range(cells, gw, gh, i2, j2);
        }
        assert(true_set(mask@) =~= antinode_set(cells, gw, gh));
    }
    if count > u32::MAX as usize {
        return None;
    }
    Some(count as u32)
}

/// A projected antinode index always lies on the map.
proof fn lemma_pair_node_range(cells: Seq<char>, w: int, h: int, i: int, j: int)
    requires
        w >= 1,
        pair_node(cells, w, h, i, j) is Some,
    ensures
        0 <= pair_node(cells, w, h, i, j)->0 < w * h,
{
    let x = 2 * (j % w) - (i % w);
    let y = 2 * (j / w) - (i / w);
    lemma_row_major_index(w, h, x, y);
}

} // verus!
