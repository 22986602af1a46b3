//! The grid adapter: a rectangular character grid stored in the `grid`
//! crate's container, exposed through position-based accessors.
//!
//! Width and height come from the parsed input: the width is the first
//! line's length, the height the line count, and every row has the same
//! length.  Cells are addressed as `(x, y)` with `0 <= x < width` and
//! `0 <= y < height`, row-major.

use vstd::prelude::*;

verus! {

#[verifier::external_type_specification]
#[verifier::external_body]
#[verifier::reject_recursive_types(T)]
pub struct ExGrid<T>(grid::Grid<T>);

/// The cells a `grid::Grid<char>` holds, row-major.
pub uninterp spec fn grid_cells(g: grid::Grid<char>) -> Seq<char>;

/// The column count a `grid::Grid<char>` was built with.
pub uninterp spec fn grid_cols(g: grid::Grid<char>) -> nat;

/// The grid stores its cells row-major and its row count times its column
/// count equals its cell count.  Every grid this crate builds, through
/// `grid::Grid::from_vec`, satisfies this.
pub uninterp spec fn grid_row_major(g: grid::Grid<char>) -> bool;

/// Relies on grid::Grid::from_vec: stores the given cells row-major with
/// the given column count (positive, dividing the cell count).
#[verifier::external_body]
fn grid_from_vec(v: Vec<char>, cols: usize) -> (g: grid::Grid<char>)
    requires
        cols > 0,
        v.len() > 0,
        v@.len() as int % (cols as int) == 0,
    ensures
        grid_cells(g) == v@,
        grid_cols(g) == cols,
        grid_row_major(g),
{
    grid::Grid::from_vec(v, cols)
}

/// Relies on grid::Grid::get: `Some` of the row-major cell at the given
/// row and column when both are in bounds, else `None`.
#[verifier::external_body]
fn grid_get(g: &grid::Grid<char>, row: usize, col: usize) -> (r: Option<char>)
    ensures
        (grid_row_major(*g) && grid_cols(*g) > 0 && grid_cells(*g).len() % grid_cols(*g) == 0)
            ==> r == (if row < grid_cells(*g).len() / grid_cols(*g) && col < grid_cols(*g) {
            Some(grid_cells(*g)[row * grid_cols(*g) + col])
        } else {
            None::<char>
        }),
{
    g.get(row, col).copied()
}

/// Relies on grid::Grid::get_mut: writes one in-bounds cell and changes
/// nothing else.
#[verifier::external_body]
fn grid_put(g: &mut grid::Grid<char>, row: usize, col: usize, val: char)
    requires
        grid_row_major(*old(g)),
        grid_cols(*old(g)) > 0,
        grid_cells(*old(g)).len() % grid_cols(*old(g)) == 0,
        col < grid_cols(*old(g)),
        row * grid_cols(*old(g)) + col < grid_cells(*old(g)).len(),
    ensures
        grid_cells(*final(g)) == grid_cells(*old(g)).update(
            row * grid_cols(*old(g)) + col,
            val,
        ),
        grid_cols(*final(g)) == grid_cols(*old(g)),
        grid_row_major(*final(g)),
{
    match g.get_mut(row, col) {
        Some(c) => {
            *c = val;
        },
        None => {},
    }
}

/// Row-major positions stay inside the rectangle.
pub proof fn lemma_row_major_index(w: int, h: int, x: int, y: int)
    requires
        w > 0,
        0 <= x < w,
        0 <= y < h,
    ensures
        0 <= y * w + x < h * w,
        0 <= y * w + x < w * h,
{
    assert(0 <= y * w + x < h * w && h * w == w * h) by (nonlinear_arith)
        requires
            w > 0,
            0 <= x < w,
            0 <= y < h,
    ;
}

/// A row-major position decodes back into its row and column.
pub proof fn lemma_row_major_decode(w: int, y: int, x: int)
    requires
        w > 0,
        0 <= x < w,
        y >= 0,
    ensures
        (y * w + x) / w == y,
        (y * w + x) % w == x,
{
    assert((y * w + x) / w == y && (y * w + x) % w == x) by (nonlinear_arith)
        requires
            w > 0,
            0 <= x < w,
            y >= 0,
    ;
}

/// Lines form a rectangle: at least one line, all of the first line's
/// positive length.
pub open spec fn rect_lines(ls: Seq<Seq<u8>>) -> bool {
    &&& ls.len() > 0
    &&& ls[0].len() > 0
    &&& forall|i: int| 0 <= i < ls.len() ==> (#[trigger] ls[i]).len() == ls[0].len()
}

/// A rectangular character grid wrapping the `grid` crate's container.
pub struct GridMap {
    inner: grid::Grid<char>,
    width: usize,
    height: usize,
}

impl GridMap {
    /// The cells, row-major.
    pub closed spec fn cells(self) -> Seq<char> {
        grid_cells(self.inner)
    }

    pub closed spec fn width_spec(self) -> int {
        self.width as int
    }

    pub closed spec fn height_spec(self) -> int {
        self.height as int
    }

    /// The grid is consistent: positive extent, and exactly
    /// `width * height` row-major cells.
    pub closed spec fn wf(self) -> bool {
        &&& grid_row_major(self.inner)
        &&& grid_cols(self.inner) == self.width
        &&& self.width > 0
        &&& self.height > 0
        &&& grid_cells(self.inner).len() == self.width_spec() * self.height_spec()
        &&& self.width_spec() * self.height_spec() <= usize::MAX
    }

    /// `(x, y)` lies inside `[0, width) x [0, height)`.
    pub open spec fn in_bounds(self, x: int, y: int) -> bool {
        0 <= x < self.width_spec() && 0 <= y < self.height_spec()
    }

    /// The cell at `(x, y)`.
    pub open spec fn cell(self, x: int, y: int) -> char {
        self.cells()[y * self.width_spec() + x]
    }

    pub fn width(&self) -> (r: usize)
        ensures
            r == self.width_spec(),
    {
        self.width
    }

    pub fn height(&self) -> (r: usize)
        ensures
            r == self.height_spec(),
    {
        self.height
    }

    /// Build the grid from input lines; `None` unless they are rectangular.
    pub fn from_lines(lines: &Vec<Vec<u8>>) -> (r: Option<GridMap>)
        ensures
            match r {
                Some(g) => {
                    &&& rect_lines(lines.deep_view())
                    &&& g.wf()
                    &&& g.width_spec() == lines[0]@.len()
                    &&& g.height_spec() == lines@.len()
                    &&& forall|x: int, y: int|
                        g.in_bounds(x, y) ==> g.cell(x, y) == lines[y]@[x] as char
                },
                None => !rect_lines(lines.deep_view()),
            },
    {
        let h = lines.len();
        if h == 0 {
            return None;
        }
        let w = lines[0].len();
        if w == 0 {
            return None;
        }
        let mut cells: Vec<char> = Vec::new();
        let mut y: usize = 0;
        while y < h
            invariant
                0 <= y <= h,
                h == lines@.len(),
                w == lines[0]@.len(),
                w > 0,
                forall|t: int| 0 <= t < y ==> (#[trigger] lines[t]@).len() == w,
                cells@.len() == y * w,
                forall|idx: int|
                    0 <= idx < cells@.len() ==> #[trigger] cells@[idx] == lines[idx / (
                    w as int)]@[idx % (w as int)] as char,
            decreases h - y,
        {
            let line = &lines[y];
            if line.len() != w {
                proof {
                    assert(lines.deep_view()[y as int].len() == lines[y as int]@.len());
                }
                return None;
            }
            let mut x: usize = 0;
            while x < w
                invariant
                    0 <= x <= w,
                    0 <= y < h,
                    h == lines@.len(),
                    w == lines[0]@.len(),
                    w > 0,
                    line == &lines[y as int],
                    line@.len() == w,
                    cells@.len() == y * w + x,
                    forall|idx: int|
                        0 <= idx < cells@.len() ==> #[trigger] cells@[idx] == lines[idx / (
                        w as int)]@[idx % (w as int)] as char,
                decreases w - x,
            {
                let b = line[x];
                proof {
                    lemma_row_major_decode(w as int, y as int, x as int);
                }
                cells.push(b as char);
                x += 1;
            }
            proof {
                assert((y + 1) * w == y * w + w) by (nonlinear_arith);
            }
            y += 1;
        }
        proof {
            assert(cells@.len() == h * w);
            assert((h * w) % (w as int) == 0) by (nonlinear_arith)
                requires
                    w > 0,
                    h >= 0,
            ;
            assert(h * w > 0) by (nonlinear_arith)
                requires
                    w > 0,
                    h > 0,
            ;
        }
        let total = cells.len();
        proof {
            assert(total == h * w);
        }
        let inner = grid_from_vec(cells, w);
        let g = GridMap { inner, width: w, height: h };
        proof {
            assert(g.cells().len() == g.width_spec() * g.height_spec()) by {
                assert(g.cells().len() == h * w);
                assert((h as int) * (w as int) == (w as int) * (h as int)) by (nonlinear_arith);
            }
            assert(g.width_spec() * g.height_spec() <= usize::MAX) by {
                assert((h as int) * (w as int) == (w as int) * (h as int)) by (nonlinear_arith);
            }
            assert(g.wf());
            assert forall|x: int, y2: int| g.in_bounds(x, y2) implies g.cell(x, y2)
                == lines[y2]@[x] as char by {
                lemma_row_major_index(w as int, h as int, x, y2);
                lemma_row_major_decode(w as int, y2, x);
                assert(g.cell(x, y2) == g.cells()[y2 * w + x]);
            }
            assert(rect_lines(lines.deep_view())) by {
                assert forall|i: int| 0 <= i < lines@.len() implies (
                #[trigger] lines.deep_view()[i]).len() == lines.deep_view()[0].len() by {
                    assert(lines.deep_view()[i].len() == lines[i]@.len());
                    assert(lines.deep_view()[0].len() == lines[0]@.len());
                }
            }
        }
                Some(g)
    }

    /// The cell at `(x, y)`, or `None` outside the grid.
    pub fn get(&self, x: usize, y: usize) -> (r: Option<char>)
        requires
            self.wf(),
        ensures
            r == if self.in_bounds(x as int, y as int) {
                Some(self.cell(x as int, y as int))
            } else {
                None::<char>
            },
    {
        proof {
            self.lemma_shape();
        }
        grid_get(&self.inner, y, x)
    }

    /// Write `val` at the in-bounds position `(x, y)`.
    pub fn set(&mut self, x: usize, y: usize, val: char)
        requires
            old(self).wf(),
            old(self).in_bounds(x as int, y as int),
        ensures
            final(self).wf(),
            final(self).width_spec() == old(self).width_spec(),
            final(self).height_spec() == old(self).height_spec(),
            final(self).cells() == old(self).cells().update(
                y * old(self).width_spec() + x,
                val,
            ),
    {
        proof {
            self.lemma_shape();
            let xi = x as int;
            let yi = y as int;
            let w = self.width as int;
            let h = self.height as int;
            assert(yi * w + xi < w * h) by (nonlinear_arith)
                requires
                    0 <= yi < h,
                    0 <= xi < w,
            ;
        }
        grid_put(&mut self.inner, y, x, val);
    }

    /// The public shape facts of a well-formed grid.
    pub proof fn lemma_dims(self)
        requires
            self.wf(),
        ensures
            self.cells().len() == self.width_spec() * self.height_spec(),
            self.width_spec() >= 1,
            self.height_spec() >= 1,
            self.width_spec() * self.height_spec() <= usize::MAX,
    {
    }

    /// Shape facts that follow from well-formedness.
    proof fn lemma_shape(self)
        requires
            self.wf(),
        ensures
            grid_cells(self.inner).len() % grid_cols(self.inner) == 0,
            grid_cells(self.inner).len() / grid_cols(self.inner) == self.height_spec(),
            forall|x: int, y: int|
                self.in_bounds(x, y) ==> 0 <= y * self.width_spec() + x < self.cells().len(),
    {
        let w = self.width_spec();
        let h = self.height_spec();
        assert((w * h) % w == 0 && (w * h) / w == h) by (nonlinear_arith)
            requires
                w > 0,
                h > 0,
        ;
        assert forall|x: int, y: int| self.in_bounds(x, y) implies 0 <= y * w + x < self.cells().len() by {
            assert(0 <= y * w + x < w * h) by (nonlinear_arith)
                requires
                    0 <= x < w,
                    0 <= y < h,
            ;
        }
    }

    /// The up-to-four axis-aligned in-bounds neighbours of `(x, y)`, with
    /// their cells, in the fixed order right, left, down, up.  Every
    /// returned position lies inside the grid.
    pub fn neighbors(&self, x: usize, y: usize) -> (r: Vec<(usize, usize, char)>)
        requires
            self.wf(),
            self.in_bounds(x as int, y as int),
        ensures
            forall|i: int|
                0 <= i < r@.len() ==> self.in_bounds(
                    (#[trigger] r@[i]).0 as int,
                    r@[i].1 as int,
                ) && r@[i].2 == self.cell(r@[i].0 as int, r@[i].1 as int),
            r@.map_values(|t: (usize, usize, char)| (t.0 as int, t.1 as int))
                == self.neighbor_positions(x as int, y as int),
    {
        let mut r: Vec<(usize, usize, char)> = Vec::new();
        let w = self.width;
        let h = self.height;
        if x + 1 < w {
            match self.get(x + 1, y) {
                Some(c) => {
                    r.push((x + 1, y, c));
                },
                None => {},
            }
        }
        if x > 0 {
            match self.get(x - 1, y) {
                Some(c) => {
                    r.push((x - 1, y, c));
                },
                None => {},
            }
        }
        if y + 1 < h {
            match self.get(x, y + 1) {
                Some(c) => {
                    r.push((x, y + 1, c));
                },
                None => {},
            }
        }
        if y > 0 {
            match self.get(x, y - 1) {
                Some(c) => {
                    r.push((x, y - 1, c));
                },
                None => {},
            }
        }
        proof {
            let xi = x as int;
            let yi = y as int;
            assert(r@.map_values(|t: (usize, usize, char)| (t.0 as int, t.1 as int))
                =~= self.neighbor_positions(xi, yi));
        }
        r
    }

    /// The in-bounds candidates among right, left, down and up, in that
    /// order.
    pub open spec fn neighbor_positions(self, x: int, y: int) -> Seq<(int, int)> {
        let right = if self.in_bounds(x + 1, y) {
            seq![(x + 1, y)]
        } else {
            Seq::<(int, int)>::empty()
        };
        let left = if self.in_bounds(x - 1, y) {
            seq![(x - 1, y)]
        } else {
            Seq::<(int, int)>::empty()
        };
        let down = if self.in_bounds(x, y + 1) {
            seq![(x, y + 1)]
        } else {
            Seq::<(int, int)>::empty()
        };
        let up = if self.in_bounds(x, y - 1) {
            seq![(x, y - 1)]
        } else {
            Seq::<(int, int)>::empty()
        };
        right + left + down + up
    }
}

/// The unit-cost successor entries of cell `(x, y)`: the in-bounds
/// neighbours that hold an open cell `.`, in the order right, left, down,
/// up, each as a row-major state index with cost one.
pub open spec fn cell_succ(cells: Seq<char>, w: int, h: int, x: int, y: int) -> Seq<(usize, u64)> {
    let right = if x + 1 < w && 0 <= x + 1 && 0 <= y < h && cells[y * w + (x + 1)] == '.' {
        seq![((y * w + (x + 1)) as usize, 1u64)]
    } else {
        Seq::<(usize, u64)>::empty()
    };
    let left = if 0 <= x - 1 && x - 1 < w && 0 <= y < h && cells[y * w + (x - 1)] == '.' {
        seq![((y * w + (x - 1)) as usize, 1u64)]
    } else {
        Seq::<(usize, u64)>::empty()
    };
    let down = if 0 <= x < w && 0 <= y + 1 && y + 1 < h && cells[(y + 1) * w + x] == '.' {
        seq![(((y + 1) * w + x) as usize, 1u64)]
    } else {
        Seq::<(usize, u64)>::empty()
    };
    let up = if 0 <= x < w && 0 <= y - 1 && y - 1 < h && cells[(y - 1) * w + x] == '.' {
        seq![(((y - 1) * w + x) as usize, 1u64)]
    } else {
        Seq::<(usize, u64)>::empty()
    };
    right + left + down + up
}

/// The whole grid as a unit-cost graph over row-major state indices:
/// every cell steps to its open neighbours.
pub open spec fn graph_from_cells(cells: Seq<char>, w: int, h: int) -> Seq<Seq<(usize, u64)>> {
    Seq::new((w * h) as nat, |u: int| cell_succ(cells, w, h, u % w, u / w))
}

/// Closing cells only removes successor entries: when every open cell
/// under `c2` is open under `c1` too, entry `j` of a cell's successor
/// list under `c2` appears somewhere in its list under `c1`.
pub proof fn lemma_cell_succ_mono(
    c1: Seq<char>,
    c2: Seq<char>,
    w: int,
    h: int,
    x: int,
    y: int,
    j: int,
)
    requires
        c1.len() == c2.len(),
        forall|i: int| 0 <= i < c2.len() && #[trigger] c2[i] == '.' ==> c1[i] == '.',
        c2.len() == w * h,
        w >= 1,
        h >= 1,
        0 <= j < cell_succ(c2, w, h, x, y).len(),
    ensures
        exists|j2: int|
            0 <= j2 < cell_succ(c1, w, h, x, y).len() && (#[trigger] cell_succ(
                c1,
                w,
                h,
                x,
                y,
            )[j2]) == cell_succ(c2, w, h, x, y)[j],
{
    let s1 = cell_succ(c1, w, h, x, y);
    let s2 = cell_succ(c2, w, h, x, y);
    if x + 1 < w && 0 <= x + 1 && 0 <= y < h {
        lemma_row_major_index(w, h, x + 1, y);
    }
    if 0 <= x - 1 && x - 1 < w && 0 <= y < h {
        lemma_row_major_index(w, h, x - 1, y);
    }
    if 0 <= x < w && 0 <= y + 1 && y + 1 < h {
        lemma_row_major_index(w, h, x, y + 1);
    }
    if 0 <= x < w && 0 <= y - 1 && y - 1 < h {
        lemma_row_major_index(w, h, x, y - 1);
    }
    let right1 = if x + 1 < w && 0 <= x + 1 && 0 <= y < h && c1[y * w + (x + 1)] == '.' {
        seq![((y * w + (x + 1)) as usize, 1u64)]
    } else {
        Seq::<(usize, u64)>::empty()
    };
    let left1 = if 0 <= x - 1 && x - 1 < w && 0 <= y < h && c1[y * w + (x - 1)] == '.' {
        seq![((y * w + (x - 1)) as usize, 1u64)]
    } else {
        Seq::<(usize, u64)>::empty()
    };
    let down1 = if 0 <= x < w && 0 <= y + 1 && y + 1 < h && c1[(y + 1) * w + x] == '.' {
        seq![(((y + 1) * w + x) as usize, 1u64)]
    } else {
        Seq::<(usize, u64)>::empty()
    };
    let up1 = if 0 <= x < w && 0 <= y - 1 && y - 1 < h && c1[(y - 1) * w + x] == '.' {
        seq![(((y - 1) * w + x) as usize, 1u64)]
    } else {
        Seq::<(usize, u64)>::empty()
    };
    assert(s1 == right1 + left1 + down1 + up1);
    let e = s2[j];
    if x + 1 < w && 0 <= x + 1 && 0 <= y < h && c2[y * w + (x + 1)] == '.' && e == ((y * w + (x
        + 1)) as usize, 1u64) {
        assert(right1.len() == 1 && s1[0] == e);
    } else if 0 <= x - 1 && x - 1 < w && 0 <= y < h && c2[y * w + (x - 1)] == '.' && e == ((y
        * w + (x - 1)) as usize, 1u64) {
        assert(left1[0] == e);
        assert(s1[right1.len() as int] == e);
    } else if 0 <= x < w && 0 <= y + 1 && y + 1 < h && c2[(y + 1) * w + x] == '.' && e == (((y
        + 1) * w + x) as usize, 1u64) {
        assert(down1[0] == e);
        assert(s1[right1.len() as int + left1.len() as int] == e);
    } else {
        assert(0 <= x < w && 0 <= y - 1 && y - 1 < h && c2[(y - 1) * w + x] == '.' && e == (((y
            - 1) * w + x) as usize, 1u64));
        assert(up1[0] == e);
        assert(s1[right1.len() as int + left1.len() as int + down1.len() as int] == e);
    }
}

/// Build the adjacency list of the grid's unit-cost graph.
pub fn grid_adjacency(g: &GridMap) -> (adj: Vec<Vec<(usize, u64)>>)
    requires
        g.wf(),
    ensures
        crate::search::graph_view(adj) == graph_from_cells(
            g.cells(),
            g.width_spec(),
            g.height_spec(),
        ),
        adj@.len() == g.width_spec() * g.height_spec(),
        crate::search::wf_graph(crate::search::graph_view(adj)),
        crate::search::costs_bounded(crate::search::graph_view(adj), 1),
{
    let w = g.width();
    let h = g.height();
    let ghost cells = g.cells();
    let ghost gw = g.width_spec();
    let ghost gh = g.height_spec();
    let mut adj: Vec<Vec<(usize, u64)>> = Vec::new();
    let mut y: usize = 0;
    proof {
        g.lemma_shape();
    }
    while y < h
        invariant
            0 <= y <= h,
            w == gw,
            h == gh,
            g.wf(),
            cells == g.cells(),
            gw == g.width_spec(),
            gh == g.height_spec(),
            cells.len() == gw * gh,
            gw * gh <= usize::MAX,
            adj@.len() == y * w,
            forall|u: int|
                0 <= u < adj@.len() ==> (#[trigger] adj@[u])@ == cell_succ(
                    cells,
                    gw,
                    gh,
                    u % gw,
                    u / gw,
                ),
        decreases h - y,
    {
        let mut x: usize = 0;
        while x < w
            invariant
                0 <= x <= w,
                0 <= y < h,
                w == gw,
                h == gh,
                g.wf(),
                cells == g.cells(),
                gw == g.width_spec(),
                gh == g.height_spec(),
                cells.len() == gw * gh,
                gw * gh <= usize::MAX,
                adj@.len() == y * w + x,
                forall|u: int|
                    0 <= u < adj@.len() ==> (#[trigger] adj@[u])@ == cell_succ(
                        cells,
                        gw,
                        gh,
                        u % gw,
                        u / gw,
                    ),
            decreases w - x,
        {
            let mut row: Vec<(usize, u64)> = Vec::new();
            proof {
                lemma_row_major_index(gw, gh, x as int, y as int);
            }
            if x + 1 < w {
                match g.get(x + 1, y) {
                    Some(c) => if c == '.' {
                        proof {
                            lemma_row_major_index(gw, gh, x + 1, y as int);
                        }
                        row.push((y * w + (x + 1), 1u64));
                    },
                    None => {},
                }
            }
            if x > 0 {
                match g.get(x - 1, y) {
                    Some(c) => if c == '.' {
                        proof {
                            lemma_row_major_index(gw, gh, x - 1, y as int);
                        }
                        row.push((y * w + (x - 1), 1u64));
                    },
                    None => {},
                }
            }
            if y + 1 < h {
                match g.get(x, y + 1) {
                    Some(c) => if c == '.' {
                        proof {
                            lemma_row_major_index(gw, gh, x as int, y + 1);
                        }
                        row.push(((y + 1) * w + x, 1u64));
                    },
                    None => {},
                }
            }
            if y > 0 {
                match g.get(x, y - 1) {
                    Some(c) => if c == '.' {
                        proof {
                            lemma_row_major_index(gw, gh, x as int, y - 1);
                        }
                        row.push(((y - 1) * w + x, 1u64));
                    },
                    None => {},
                }
            }
            proof {
                assert(row@ =~= cell_succ(cells, gw, gh, x as int, y as int));
                lemma_row_major_decode(gw, y as int, x as int);
            }
            adj.push(row);
            x += 1;
        }
        proof {
            assert((y + 1) * w == y * w + w) by (nonlinear_arith);
        }
        y += 1;
    }
    proof {
        let gv = crate::search::graph_view(adj);
        assert(gh * gw == gw * gh) by (nonlinear_arith);
        assert(gv.len() == gw * gh);
        assert forall|u: int| 0 <= u < gv.len() implies #[trigger] gv[u] == cell_succ(
            cells,
            gw,
            gh,
            u % gw,
            u / gw,
        ) by {
            assert(adj@[u]@ == cell_succ(cells, gw, gh, u % gw, u / gw));
        }
        assert(gv =~= graph_from_cells(cells, gw, gh));
        assert forall|u: int, j: int|
            0 <= u < gv.len() && 0 <= j < gv[u].len() implies (#[trigger] gv[u][j]).0 < gv.len()
                && gv[u][j].1 <= 1 by {
            lemma_cell_succ_wf(cells, gw, gh, u % gw, u / gw);
            vstd::arithmetic::div_mod::lemma_fundamental_div_mod(u, gw);
        }
    }
    adj
}

/// Every successor entry points at a state and costs one.
proof fn lemma_cell_succ_wf(cells: Seq<char>, w: int, h: int, x: int, y: int)
    requires
        w >= 1,
        h >= 1,
        w * h <= usize::MAX,
    ensures
        forall|j: int|
            0 <= j < cell_succ(cells, w, h, x, y).len() ==> 0 <= (#[trigger] cell_succ(
                cells,
                w,
                h,
                x,
                y,
            )[j]).0 < w * h && cell_succ(cells, w, h, x, y)[j].1 == 1,
{
    if x + 1 < w && 0 <= x + 1 && 0 <= y < h {
        lemma_row_major_index(w, h, x + 1, y);
    }
    if 0 <= x - 1 && x - 1 < w && 0 <= y < h {
        lemma_row_major_index(w, h, x - 1, y);
    }
    if 0 <= x < w && 0 <= y + 1 && y + 1 < h {
        lemma_row_major_index(w, h, x, y + 1);
    }
    if 0 <= x < w && 0 <= y - 1 && y - 1 < h {
        lemma_row_major_index(w, h, x, y - 1);
    }
    assert(h * w == w * h) by (nonlinear_arith);
}

} // verus!
