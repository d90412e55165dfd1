//! A word search over a wall of letters: where does `XMAS` appear, and where
//! do two diagonal `MAS` cross?
use vstd::prelude::*;
use crate::text::{lines, split_lines};

verus! {

/// A direction in which a word can be read.
#[derive(Debug, Clone, Copy, PartialEq, Eq, Structural)]
pub enum Direction {
    East,
    West,
    North,
    South,
    NorthEast,
    NorthWest,
    SouthEast,
    SouthWest,
}

/// The letter in column `x` of row `y`, if there is one.
pub open spec fn cell(g: Seq<Vec<char>>, x: int, y: int) -> Option<char> {
    if 0 <= y < g.len() && 0 <= x < g[y]@.len() {
        Some(g[y]@[x])
    } else {
        None
    }
}

/// Whether the cells at `(xs[i], ys[i])` spell `w`.
#[verifier::opaque]
pub open spec fn spells(g: Seq<Vec<char>>, xs: Seq<int>, ys: Seq<int>, w: Seq<char>) -> bool {
    forall|i: int| 0 <= i < 4 ==> #[trigger] cell(g, xs[i], ys[i]) == Some(w[i])
}

pub open spec fn xmas() -> Seq<char> {
    seq!['X', 'M', 'A', 'S']
}

pub open spec fn samx() -> Seq<char> {
    seq!['S', 'A', 'M', 'X']
}

/// `s` with `d` appended when `found`.
pub open spec fn push_if(s: Seq<Direction>, found: bool, d: Direction) -> Seq<Direction> {
    if found {
        s.push(d)
    } else {
        s
    }
}

/// The readings of `XMAS` in the four-by-four block whose top left corner is
/// `(x, y)`: along its top row, its left column, its main diagonal and its
/// other diagonal, each forwards and backwards. A backwards reading along
/// the other diagonal is reported as `SouthEast`.
pub open spec fn xmas_directions(g: Seq<Vec<char>>, x: int, y: int) -> Seq<Direction> {
    let row = seq![x, x + 1, x + 2, x + 3];
    let col = seq![y, y + 1, y + 2, y + 3];
    let flat = seq![y, y, y, y];
    let upright = seq![x, x, x, x];
    let back = seq![x + 3, x + 2, x + 1, x];
    let s1 = push_if(Seq::empty(), spells(g, row, flat, xmas()), Direction::East);
    let s2 = push_if(s1, spells(g, row, flat, samx()), Direction::West);
    let s3 = push_if(s2, spells(g, upright, col, xmas()), Direction::South);
    let s4 = push_if(s3, spells(g, upright, col, samx()), Direction::North);
    let s5 = push_if(s4, spells(g, row, col, xmas()), Direction::SouthEast);
    let s6 = push_if(s5, spells(g, row, col, samx()), Direction::NorthWest);
    let s7 = push_if(s6, spells(g, back, col, xmas()), Direction::SouthWest);
    push_if(s7, spells(g, back, col, samx()), Direction::SouthEast)
}

/// Whether the three-by-three block whose top left corner is `(x, y)` holds
/// `A` in its middle and `M` and `S` at opposite ends of both diagonals.
pub open spec fn cross_mas(g: Seq<Vec<char>>, x: int, y: int) -> bool {
    let c = |dx: int, dy: int| cell(g, x + dx, y + dy);
    &&& c(1, 1) == Some('A')
    &&& {
        ||| c(0, 0) == Some('M') && c(2, 0) == Some('S') && c(0, 2) == Some('M') && c(2, 2) == Some(
            'S',
        )
        ||| c(0, 0) == Some('S') && c(2, 0) == Some('S') && c(0, 2) == Some('M') && c(2, 2) == Some(
            'M',
        )
        ||| c(0, 0) == Some('M') && c(2, 0) == Some('M') && c(0, 2) == Some('S') && c(2, 2) == Some(
            'S',
        )
        ||| c(0, 0) == Some('S') && c(2, 0) == Some('M') && c(0, 2) == Some('S') && c(2, 2) == Some(
            'M',
        )
    }
}

/// The sum of `f(x, y)` over the columns `x < w` of row `y`.
pub open spec fn row_sum(f: spec_fn(int, int) -> nat, y: int, w: nat) -> nat
    decreases w,
{
    if w == 0 {
        0
    } else {
        row_sum(f, y, (w - 1) as nat) + f((w - 1) as int, y)
    }
}

/// The sum of `f(x, y)` over the rows `y < h` and the columns `x < w`.
pub open spec fn grid_sum(f: spec_fn(int, int) -> nat, h: nat, w: nat) -> nat
    decreases h,
{
    if h == 0 {
        0
    } else {
        grid_sum(f, (h - 1) as nat, w) + row_sum(f, (h - 1) as int, w)
    }
}

/// The width that the counts scan: the length of the first row.
pub open spec fn scan_width(g: Seq<Vec<char>>) -> nat {
    if g.len() == 0 {
        0
    } else {
        g[0]@.len()
    }
}

proof fn lemma_row_sum_bound(f: spec_fn(int, int) -> nat, y: int, w: nat, b: nat)
    requires
        forall|x: int| 0 <= x < w ==> #[trigger] f(x, y) <= b,
    ensures
        row_sum(f, y, w) <= b * w,
    decreases w,
{
    if w > 0 {
        lemma_row_sum_bound(f, y, (w - 1) as nat, b);
        assert(b * (w - 1) + b == b * w) by (nonlinear_arith);
    }
}

proof fn lemma_grid_sum_bound(f: spec_fn(int, int) -> nat, h: nat, w: nat, b: nat)
    requires
        forall|x: int, y: int| 0 <= x < w && 0 <= y < h ==> #[trigger] f(x, y) <= b,
    ensures
        grid_sum(f, h, w) <= b * w * h,
    decreases h,
{
    if h > 0 {
        lemma_grid_sum_bound(f, (h - 1) as nat, w, b);
        lemma_row_sum_bound(f, (h - 1) as int, w, b);
        assert(b * w * (h - 1) + b * w == b * w * h) by (nonlinear_arith);
    }
}

/// A rectangular wall of letters, one row of characters per line.
#[derive(Debug, Clone)]
pub struct LetterWall(pub Vec<Vec<char>>);

impl LetterWall {
    /// The letter in column `x` of row `y`, if there is one.
    fn at(&self, x: usize, y: usize) -> (r: Option<char>)
        ensures
            r == cell(self.0@, x as int, y as int),
    {
        if y < self.0.len() {
            let row = &self.0[y];
            assert(row@ == self.0@[y as int]@);
            if x < row.len() {
                Some(row[x])
            } else {
                None
            }
        } else {
            None
        }
    }

    /// The letter `dx` columns right of and `dy` rows below `(x, y)`.
    fn at_offset(&self, x: usize, y: usize, dx: usize, dy: usize) -> (r: Option<char>)
        ensures
            r == cell(self.0@, x + dx, y + dy),
    {
        let h = self.0.len();
        match y.checked_add(dy) {
            Some(cy) => {
                if cy >= h {
                    return None;
                }
                let row_len = self.0[cy].len();
                match x.checked_add(dx) {
                    Some(cx) => if cx < row_len {
                        self.at(cx, cy)
                    } else {
                        None
                    },
                    None => None,
                }
            },
            None => None,
        }
    }

    /// Whether the cells at the given offsets from `(x, y)` spell `w`.
    fn spells_at(&self, x: usize, y: usize, dxs: [usize; 4], dys: [usize; 4], w: [char; 4]) -> (r:
        bool)
        ensures
            r == spells(
                self.0@,
                Seq::new(4, |i: int| x + dxs@[i]),
                Seq::new(4, |i: int| y + dys@[i]),
                w@,
            ),
    {
        let ghost xs = Seq::new(4, |i: int| x + dxs@[i]);
        let ghost ys = Seq::new(4, |i: int| y + dys@[i]);
        proof {
            reveal(spells);
        }
        let mut i: usize = 0;
        while i < 4
            invariant
                i <= 4,
                xs == Seq::new(4, |i: int| x + dxs@[i]),
                ys == Seq::new(4, |i: int| y + dys@[i]),
                forall|j: int| 0 <= j < i ==> #[trigger] cell(self.0@, xs[j], ys[j]) == Some(w@[j]),
            decreases 4 - i,
        {
            let found = self.at_offset(x, y, dxs[i], dys[i]);
            proof {
                assert(xs[i as int] == x + dxs@[i as int]);
                assert(ys[i as int] == y + dys@[i as int]);
            }
            if found != Some(w[i]) {
                assert(cell(self.0@, xs[i as int], ys[i as int]) != Some(w@[i as int]));
                proof {
                    reveal(spells);
                }
                return false;
            }
            i = i + 1;
        }
        proof {
            reveal(spells);
        }
        true
    }

    /// The directions in which `XMAS` is read in the four-by-four block
    /// whose top left corner is `(x, y)`.
    fn get_xmas_directions(&self, x: usize, y: usize) -> (r: Vec<Direction>)
        ensures
            r@ == xmas_directions(self.0@, x as int, y as int),
    {
        let ghost g = self.0@;
        let xmas_w = ['X', 'M', 'A', 'S'];
        let samx_w = ['S', 'A', 'M', 'X'];
        let row = [0usize, 1, 2, 3];
        let flat = [0usize, 0, 0, 0];
        let back = [3usize, 2, 1, 0];
        proof {
            assert(xmas_w@ =~= xmas());
            assert(samx_w@ =~= samx());
            let xi = x as int;
            let yi = y as int;
            assert(Seq::new(4, |i: int| x + row@[i]) =~= seq![xi, xi + 1, xi + 2, xi + 3]);
            assert(Seq::new(4, |i: int| y + row@[i]) =~= seq![yi, yi + 1, yi + 2, yi + 3]);
            assert(Seq::new(4, |i: int| x + flat@[i]) =~= seq![xi, xi, xi, xi]);
            assert(Seq::new(4, |i: int| y + flat@[i]) =~= seq![yi, yi, yi, yi]);
            assert(Seq::new(4, |i: int| x + back@[i]) =~= seq![xi + 3, xi + 2, xi + 1, xi]);
        }
        let east = self.spells_at(x, y, row, flat, xmas_w);
        let west = self.spells_at(x, y, row, flat, samx_w);
        let south = self.spells_at(x, y, flat, row, xmas_w);
        let north = self.spells_at(x, y, flat, row, samx_w);
        let south_east = self.spells_at(x, y, row, row, xmas_w);
        let north_west = self.spells_at(x, y, row, row, samx_w);
        let south_west = self.spells_at(x, y, back, row, xmas_w);
        let north_east = self.spells_at(x, y, back, row, samx_w);
        let mut directions: Vec<Direction> = Vec::new();
        if east {
            directions.push(Direction::East);
        }
        if west {
            directions.push(Direction::West);
        }
        if south {
            directions.push(Direction::South);
        }
        if north {
            directions.push(Direction::North);
        }
        if south_east {
            directions.push(Direction::SouthEast);
        }
        if north_west {
            directions.push(Direction::NorthWest);
        }
        if south_west {
            directions.push(Direction::SouthWest);
        }
        if north_east {
            directions.push(Direction::SouthEast);
        }
        directions
    }

    /// Whether two diagonal `MAS` cross in the three-by-three block whose
    /// top left corner is `(x, y)`.
    fn is_cross_mas(&self, x: usize, y: usize) -> (r: bool)
        ensures
            r == cross_mas(self.0@, x as int, y as int),
    {
        let top_left = self.at_offset(x, y, 0, 0);
        let top_right = self.at_offset(x, y, 2, 0);
        let bottom_left = self.at_offset(x, y, 0, 2);
        let bottom_right = self.at_offset(x, y, 2, 2);
        if self.at_offset(x, y, 1, 1) != Some('A') {
            return false;
        }
        match (top_left, top_right, bottom_left, bottom_right) {
            (Some('M'), Some('S'), Some('M'), Some('S')) => true,
            (Some('S'), Some('S'), Some('M'), Some('M')) => true,
            (Some('M'), Some('M'), Some('S'), Some('S')) => true,
            (Some('S'), Some('M'), Some('S'), Some('M')) => true,
            _ => false,
        }
    }

    /// The number of readings of `XMAS` over the blocks whose top left
    /// corner lies in the first row's width and the wall's height.
    pub fn count_xmas(&self) -> (r: u64)
        requires
            8 * scan_width(self.0@) * self.0@.len() <= u64::MAX,
        ensures
            r == grid_sum(
                |x: int, y: int| xmas_directions(self.0@, x, y).len(),
                self.0@.len(),
                scan_width(self.0@),
            ),
    {
        let ghost f = |x: int, y: int| xmas_directions(self.0@, x, y).len();
        let h = self.0.len();
        if h == 0 {
            return 0;
        }
        let w = self.0[0].len();
        proof {
            assert forall|x: int, y: int| 0 <= x < w && 0 <= y < h implies #[trigger] f(x, y)
                <= 8 by {
                assert(xmas_directions(self.0@, x, y).len() <= 8);
            }
            lemma_grid_sum_bound(f, h as nat, w as nat, 8);
        }
        let mut count: u64 = 0;
        let mut y: usize = 0;
        while y < h
            invariant
                y <= h,
                h == self.0@.len(),
                w == scan_width(self.0@),
                f == (|x: int, y: int| xmas_directions(self.0@, x, y).len()),
                count == grid_sum(f, y as nat, w as nat),
                grid_sum(f, h as nat, w as nat) <= u64::MAX,
            decreases h - y,
        {
            proof {
                lemma_grid_sum_grows(f, (y + 1) as nat, h as nat, w as nat);
            }
            let mut x: usize = 0;
            while x < w
                invariant
                    x <= w,
                    y < h,
                    h == self.0@.len(),
                    f == (|x: int, y: int| xmas_directions(self.0@, x, y).len()),
                    count == grid_sum(f, y as nat, w as nat) + row_sum(f, y as int, x as nat),
                    grid_sum(f, y as nat, w as nat) + row_sum(f, y as int, w as nat) <= u64::MAX,
                decreases w - x,
            {
                proof {
                    lemma_row_sum_grows(f, y as int, (x + 1) as nat, w as nat);
                }
                let found = self.get_xmas_directions(x, y);
                count = count + found.len() as u64;
                x = x + 1;
            }
            y = y + 1;
        }
        count
    }

    /// The number of crossed `MAS` over the blocks whose top left corner lies
    /// in the first row's width and the wall's height.
    pub fn count_cross_mas(&self) -> (r: u64)
        requires
            scan_width(self.0@) * self.0@.len() <= u64::MAX,
        ensures
            r == grid_sum(
                |x: int, y: int|
                    if cross_mas(self.0@, x, y) {
                        1nat
                    } else {
                        0nat
                    },
                self.0@.len(),
                scan_width(self.0@),
            ),
    {
        let ghost f = |x: int, y: int|
            if cross_mas(self.0@, x, y) {
                1nat
            } else {
                0nat
            };
        let h = self.0.len();
        if h == 0 {
            return 0;
        }
        let w = self.0[0].len();
        proof {
            lemma_grid_sum_bound(f, h as nat, w as nat, 1);
            assert(1 * w * h == w * h) by (nonlinear_arith);
        }
        let mut count: u64 = 0;
        let mut y: usize = 0;
        while y < h
            invariant
                y <= h,
                h == self.0@.len(),
                w == scan_width(self.0@),
                f == (|x: int, y: int|
                    if cross_mas(self.0@, x, y) {
                        1nat
                    } else {
                        0nat
                    }),
                count == grid_sum(f, y as nat, w as nat),
                grid_sum(f, h as nat, w as nat) <= u64::MAX,
            decreases h - y,
        {
            proof {
                lemma_grid_sum_grows(f, (y + 1) as nat, h as nat, w as nat);
            }
            let mut x: usize = 0;
            while x < w
                invariant
                    x <= w,
                    y < h,
                    h == self.0@.len(),
                    f == (|x: int, y: int|
                        if cross_mas(self.0@, x, y) {
                            1nat
                        } else {
                            0nat
                        }),
                    count == grid_sum(f, y as nat, w as nat) + row_sum(f, y as int, x as nat),
                    grid_sum(f, y as nat, w as nat) + row_sum(f, y as int, w as nat) <= u64::MAX,
                decreases w - x,
            {
                proof {
                    lemma_row_sum_grows(f, y as int, (x + 1) as nat, w as nat);
                }
                if self.is_cross_mas(x, y) {
                    count = count + 1;
                }
                x = x + 1;
            }
            y = y + 1;
        }
        count
    }
}

proof fn lemma_row_sum_grows(f: spec_fn(int, int) -> nat, y: int, i: nat, j: nat)
    requires
        i <= j,
    ensures
        row_sum(f, y, i) <= row_sum(f, y, j),
    decreases j - i,
{
    if i < j {
        lemma_row_sum_grows(f, y, i, (j - 1) as nat);
    }
}

proof fn lemma_grid_sum_grows(f: spec_fn(int, int) -> nat, i: nat, j: nat, w: nat)
    requires
        i <= j,
    ensures
        grid_sum(f, i, w) <= grid_sum(f, j, w),
    decreases j - i,
{
    if i < j {
        lemma_grid_sum_grows(f, i, (j - 1) as nat, w);
    }
}

impl LetterWall {
    /// Reads one row of letters per line.
    pub fn parse(text: &[char]) -> (r: LetterWall)
        ensures
            r.0@.map_values(|row: Vec<char>| row@) == lines(text@),
    {
        LetterWall(split_lines(text))
    }
}

} // verus!
