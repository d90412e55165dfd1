//! Antennas on a map and the antinodes that pairs of antennas of one
//! frequency create.
use vstd::prelude::*;
use crate::text::{lines, split_lines};

verus! {

/// A point or a displacement on the map.
#[derive(Debug, Clone, Copy, PartialEq, Eq, Hash, Structural)]
pub struct Vector {
    pub x: i64,
    pub y: i64,
}

/// The largest map size each way: it keeps every point and displacement
/// computed below within `i64`.
pub const COORDINATE_BOUND: i64 = 0x1000_0000_0000_0000;

/// Coordinates small enough that a sum of two does not overflow.
pub open spec fn small(v: Vector) -> bool {
    -0x4000_0000_0000_0000 < v.x < 0x4000_0000_0000_0000 && -0x4000_0000_0000_0000 < v.y
        < 0x4000_0000_0000_0000
}

pub open spec fn plus(a: Vector, b: Vector) -> Vector {
    Vector { x: (a.x + b.x) as i64, y: (a.y + b.y) as i64 }
}

pub open spec fn minus(a: Vector, b: Vector) -> Vector {
    Vector { x: (a.x - b.x) as i64, y: (a.y - b.y) as i64 }
}

impl Vector {
    pub fn sub(self, rhs: Self) -> (r: Self)
        requires
            small(self),
            small(rhs),
        ensures
            r == minus(self, rhs),
    {
        Vector { x: self.x - rhs.x, y: self.y - rhs.y }
    }

    pub fn add(self, rhs: Self) -> (r: Self)
        requires
            small(self),
            small(rhs),
        ensures
            r == plus(self, rhs),
    {
        Vector { x: self.x + rhs.x, y: self.y + rhs.y }
    }

    /// The product, coordinate by coordinate.
    pub fn mul(self, rhs: Self) -> (r: Self)
        requires
            i64::MIN <= self.x * rhs.x <= i64::MAX,
            i64::MIN <= self.y * rhs.y <= i64::MAX,
        ensures
            r.x == self.x * rhs.x,
            r.y == self.y * rhs.y,
    {
        Vector { x: self.x * rhs.x, y: self.y * rhs.y }
    }
}

/// Whether both coordinates of `p` lie in `0..COORDINATE_BOUND`.
pub open spec fn in_bounds(p: Vector) -> bool {
    0 <= p.x < COORDINATE_BOUND && 0 <= p.y < COORDINATE_BOUND
}

/// Whether `p` lies on a map of size `limits`.
pub open spec fn in_limits(p: Vector, limits: Vector) -> bool {
    0 <= p.x < limits.x && 0 <= p.y < limits.y
}

/// The antinode that antenna `b` creates beyond antenna `a`'s opposite side:
/// `a + 2 (b - a)`.
pub open spec fn antinode(a: Vector, b: Vector) -> Vector {
    Vector { x: (a.x + 2 * (b.x - a.x)) as i64, y: (a.y + 2 * (b.y - a.y)) as i64 }
}

/// The antinodes on the map of the pairs `(a, b)` with `b < n`, `b != a`.
pub open spec fn antinodes_of(ps: Seq<Vector>, limits: Vector, a: int, n: int) -> Seq<Vector>
    decreases n,
{
    if n <= 0 {
        Seq::empty()
    } else {
        let before = antinodes_of(ps, limits, a, n - 1);
        let b = n - 1;
        if b != a && in_limits(antinode(ps[a], ps[b]), limits) {
            before.push(antinode(ps[a], ps[b]))
        } else {
            before
        }
    }
}

/// The antinodes on the map of all ordered pairs of the first `n` antennas
/// of `ps`, by first antenna and then second.
pub open spec fn all_pairs(
    ps: Seq<Vector>,
    limits: Vector,
    n: int,
    each: spec_fn(Seq<Vector>, Vector, int) -> Seq<Vector>,
) -> Seq<Vector>
    decreases n,
{
    if n <= 0 {
        Seq::empty()
    } else {
        all_pairs(ps, limits, n - 1, each) + each(ps, limits, n - 1)
    }
}

/// The antinodes of a frequency whose antennas are `ps`.
pub open spec fn antinodes(ps: Seq<Vector>, limits: Vector) -> Seq<Vector> {
    all_pairs(ps, limits, ps.len() as int, |ps: Seq<Vector>, limits: Vector, a: int| antinodes_of(ps, limits, a, ps.len() as int))
}

/// The points `p, p + d, p + 2d, ..` while they lie on the map, at most
/// `fuel` of them.
pub open spec fn ray(p: Vector, d: Vector, limits: Vector, fuel: nat) -> Seq<Vector>
    decreases fuel,
{
    if fuel == 0 || !in_limits(p, limits) {
        Seq::empty()
    } else {
        seq![p] + ray(plus(p, d), d, limits, (fuel - 1) as nat)
    }
}

/// The resonant points of the pair `(a, b)`: from `b` on in steps of
/// `b - a`, while on the map. No ray is longer than the map's width plus
/// height.
pub open spec fn resonance(a: Vector, b: Vector, limits: Vector) -> Seq<Vector> {
    ray(b, minus(b, a), limits, (limits.x + limits.y) as nat)
}

/// The resonant points of the pairs `(a, b)` with `b < n`, `b != a`.
pub open spec fn resonances_of(ps: Seq<Vector>, limits: Vector, a: int, n: int) -> Seq<Vector>
    decreases n,
{
    if n <= 0 {
        Seq::empty()
    } else {
        let before = resonances_of(ps, limits, a, n - 1);
        let b = n - 1;
        if b != a {
            before + resonance(ps[a], ps[b], limits)
        } else {
            before
        }
    }
}

/// The resonant points of a frequency whose antennas are `ps`.
pub open spec fn resonances(ps: Seq<Vector>, limits: Vector) -> Seq<Vector> {
    all_pairs(ps, limits, ps.len() as int, |ps: Seq<Vector>, limits: Vector, a: int| resonances_of(ps, limits, a, ps.len() as int))
}

/// The antennas of a map, grouped by frequency in order of first
/// appearance, and the map's size.
#[derive(Debug, Clone)]
pub struct AntennaMap {
    pub antenna: Vec<(char, Vec<Vector>)>,
    pub limits: Vector,
}

impl AntennaMap {
    /// Each frequency is listed once, and neither the map's size nor an
    /// antenna's coordinates reach `COORDINATE_BOUND`.
    pub open spec fn wf(&self) -> bool {
        &&& forall|i: int, j: int|
            0 <= i < j < self.antenna@.len() ==> #[trigger] self.antenna@[i].0
                != #[trigger] self.antenna@[j].0
        &&& 0 <= self.limits.x < COORDINATE_BOUND
        &&& 0 <= self.limits.y < COORDINATE_BOUND
        &&& forall|i: int, k: int|
            0 <= i < self.antenna@.len() && 0 <= k < self.antenna@[i].1@.len() ==> in_bounds(
                #[trigger] self.antenna@[i].1@[k],
            )
    }

    /// The antennas of frequency `f`, if the map has any.
    pub open spec fn antennas_of(&self, f: char) -> Option<Seq<Vector>> {
        if exists|i: int| 0 <= i < self.antenna@.len() && #[trigger] self.antenna@[i].0 == f {
            let i = choose|i: int| 0 <= i < self.antenna@.len() && #[trigger] self.antenna@[i].0 == f;
            Some(self.antenna@[i].1@)
        } else {
            None
        }
    }

    /// Whether `point` lies on the map.
    pub fn is_in_limits(&self, point: Vector) -> (r: bool)
        ensures
            r == in_limits(point, self.limits),
    {
        !(point.x < 0 || point.y < 0 || point.x >= self.limits.x || point.y >= self.limits.y)
    }

    /// The index of frequency `f` in the list, if it is there.
    fn find(&self, f: char) -> (r: Option<usize>)
        requires
            self.wf(),
        ensures
            r matches Some(i) ==> i < self.antenna@.len() && self.antenna@[i as int].0 == f
                && self.antennas_of(f) == Some(self.antenna@[i as int].1@),
            r is None ==> self.antennas_of(f) is None,
    {
        let mut i: usize = 0;
        while i < self.antenna.len()
            invariant
                i <= self.antenna@.len(),
                self.wf(),
                forall|j: int| 0 <= j < i ==> #[trigger] self.antenna@[j].0 != f,
            decreases self.antenna.len() - i,
        {
            if self.antenna[i].0 == f {
                proof {
                    let k = choose|k: int|
                        0 <= k < self.antenna@.len() && #[trigger] self.antenna@[k].0 == f;
                    if k > i {
                        assert(self.antenna@[i as int].0 != self.antenna@[k].0);
                    }
                    assert(k == i);
                }
                return Some(i);
            }
            i = i + 1;
        }
        None
    }

    /// The antinodes of frequency `f`: for each ordered pair of its
    /// antennas, the point as far beyond the second as the second is from
    /// the first, when it lies on the map. `None` when no antenna has that
    /// frequency.
    pub fn get_antinodes(&self, frequency: char) -> (r: Option<Vec<Vector>>)
        requires
            self.wf(),
        ensures
            match self.antennas_of(frequency) {
                None => r is None,
                Some(ps) => r matches Some(v) && v@ == antinodes(ps, self.limits),
            },
    {
        let index = match self.find(frequency) {
            Some(i) => i,
            None => return None,
        };
        let antennas = &self.antenna[index].1;
        let ghost ps = antennas@;
        let ghost each = |ps: Seq<Vector>, limits: Vector, a: int| antinodes_of(ps, limits, a, ps.len() as int);
        let n = antennas.len();
        let mut found: Vec<Vector> = Vec::new();
        let mut a: usize = 0;
        while a < n
            invariant
                a <= n,
                n == ps.len(),
                ps == self.antenna@[index as int].1@,
                antennas@ == ps,
                index < self.antenna@.len(),
                self.wf(),
                each == (|ps: Seq<Vector>, limits: Vector, a: int| antinodes_of(ps, limits, a, ps.len() as int)),
                found@ == all_pairs(ps, self.limits, a as int, each),
            decreases n - a,
        {
            let ghost outer = found@;
            let mut b: usize = 0;
            while b < n
                invariant
                    a < n,
                    b <= n,
                    n == ps.len(),
                    ps == self.antenna@[index as int].1@,
                    antennas@ == ps,
                antennas@ == ps,
                    index < self.antenna@.len(),
                    self.wf(),
                    found@ == outer + antinodes_of(ps, self.limits, a as int, b as int),
                decreases n - b,
            {
                let ghost prev = found@;
                if b != a {
                    let pa = antennas[a];
                    let pb = antennas[b];
                    proof {
                        assert(in_bounds(ps[a as int]));
                        assert(in_bounds(ps[b as int]));
                    }
                    let d = pb.sub(pa);
                    let position = pa.add(d.mul(Vector { x: 2, y: 2 }));
                    assert(position == antinode(ps[a as int], ps[b as int]));
                    if self.is_in_limits(position) {
                        found.push(position);
                        proof {
                            assert(found@ =~= outer + antinodes_of(ps, self.limits, a as int, b + 1));
                        }
                    }
                }
                b = b + 1;
            }
            proof {
                assert(found@ == all_pairs(ps, self.limits, a + 1, each));
            }
            a = a + 1;
        }
        Some(found)
    }

    /// The resonant points of frequency `f`: for each ordered pair `(a, b)`
    /// of its antennas, the points `b, b + (b - a), ..` while on the map.
    /// `None` when no antenna has that frequency.
    pub fn get_resonances(&self, frequency: char) -> (r: Option<Vec<Vector>>)
        requires
            self.wf(),
        ensures
            match self.antennas_of(frequency) {
                None => r is None,
                Some(ps) => r matches Some(v) && v@ == resonances(ps, self.limits),
            },
    {
        let index = match self.find(frequency) {
            Some(i) => i,
            None => return None,
        };
        let antennas = &self.antenna[index].1;
        let ghost ps = antennas@;
        let ghost each = |ps: Seq<Vector>, limits: Vector, a: int| resonances_of(ps, limits, a, ps.len() as int);
        let n = antennas.len();
        let bound: i64 = self.limits.x + self.limits.y;
        let mut found: Vec<Vector> = Vec::new();
        let mut a: usize = 0;
        while a < n
            invariant
                a <= n,
                n == ps.len(),
                ps == self.antenna@[index as int].1@,
                antennas@ == ps,
                index < self.antenna@.len(),
                self.wf(),
                bound == self.limits.x + self.limits.y,
                each == (|ps: Seq<Vector>, limits: Vector, a: int| resonances_of(ps, limits, a, ps.len() as int)),
                found@ == all_pairs(ps, self.limits, a as int, each),
            decreases n - a,
        {
            let ghost outer = found@;
            let mut b: usize = 0;
            while b < n
                invariant
                    a < n,
                    b <= n,
                    n == ps.len(),
                    ps == self.antenna@[index as int].1@,
                    antennas@ == ps,
                antennas@ == ps,
                    index < self.antenna@.len(),
                    self.wf(),
                    bound == self.limits.x + self.limits.y,
                    found@ == outer + resonances_of(ps, self.limits, a as int, b as int),
                decreases n - b,
            {
                if b != a {
                    let pa = antennas[a];
                    let pb = antennas[b];
                    proof {
                        assert(in_bounds(ps[a as int]));
                        assert(in_bounds(ps[b as int]));
                    }
                    let d = pb.sub(pa);
                                        let ghost start = found@;
                    let mut position = pb;
                    proof {
                        assert(start =~= outer + resonances_of(ps, self.limits, a as int, b as int));
                    }
                    let mut fuel: i64 = bound;
                    while fuel > 0 && self.is_in_limits(position)
                        invariant
                            0 <= fuel <= bound,
                            self.wf(),
                            small(d),
                            d == minus(ps[b as int], ps[a as int]),
                            found@ + ray(position, d, self.limits, fuel as nat) == start + resonance(ps[a as int], ps[b as int], self.limits),
                        decreases fuel,
                    {
                        let ghost before = found@;
                        let ghost rest = ray(plus(position, d), d, self.limits, (fuel - 1) as nat);
                        found.push(position);
                        proof {
                            assert(found@ + rest =~= before + (seq![position] + rest));
                        }
                        position = position.add(d);
                        fuel = fuel - 1;
                    }
                    proof {
                        assert(found@ =~= found@ + ray(position, d, self.limits, fuel as nat));
                        assert(found@ =~= outer + resonances_of(ps, self.limits, a as int, b + 1));
                    }
                }
                b = b + 1;
            }
            proof {
                assert(found@ == all_pairs(ps, self.limits, a + 1, each));
            }
            a = a + 1;
        }
        Some(found)
    }
}

/// The points that `each` gives for the frequencies of the first `n`
/// entries, in order.
pub open spec fn every_frequency(
    entries: Seq<(char, Vec<Vector>)>,
    limits: Vector,
    n: int,
    each: spec_fn(Seq<Vector>, Vector) -> Seq<Vector>,
) -> Seq<Vector>
    decreases n,
{
    if n <= 0 {
        Seq::empty()
    } else {
        every_frequency(entries, limits, n - 1, each) + each(entries[n - 1].1@, limits)
    }
}

proof fn lemma_entry_found(m: AntennaMap, i: int)
    requires
        m.wf(),
        0 <= i < m.antenna@.len(),
    ensures
        m.antennas_of(m.antenna@[i].0) == Some(m.antenna@[i].1@),
{
    let f = m.antenna@[i].0;
    assert(m.antenna@[i].0 == f);
    let k = choose|k: int| 0 <= k < m.antenna@.len() && #[trigger] m.antenna@[k].0 == f;
    if k < i {
        assert(m.antenna@[k].0 != m.antenna@[i].0);
    }
    if k > i {
        assert(m.antenna@[i].0 != m.antenna@[k].0);
    }
}

/// Appends the points of `src` to `dst`.
fn extend_points(dst: &mut Vec<Vector>, src: &Vec<Vector>)
    ensures
        final(dst)@ == old(dst)@ + src@,
{
    let ghost start = dst@;
    let mut i: usize = 0;
    while i < src.len()
        invariant
            i <= src@.len(),
            dst@ == start + src@.subrange(0, i as int),
        decreases src.len() - i,
    {
        dst.push(src[i]);
        i = i + 1;
        proof {
            assert(dst@ =~= start + src@.subrange(0, i as int));
        }
    }
    proof {
        assert(src@.subrange(0, src@.len() as int) =~= src@);
    }
}

/// The number of distinct points in `v`.
pub fn count_distinct(v: &Vec<Vector>) -> (r: u64)
    ensures
        r == v@.to_set().len(),
{
    let mut unique: Vec<Vector> = Vec::new();
    let mut i: usize = 0;
    while i < v.len()
        invariant
            i <= v@.len(),
            unique@.no_duplicates(),
            unique@.to_set() == v@.subrange(0, i as int).to_set(),
            unique@.len() <= i,
        decreases v.len() - i,
    {
        let p = v[i];
        let mut j: usize = 0;
        let mut seen = false;
        while j < unique.len()
            invariant
                j <= unique@.len(),
                seen <==> exists|k: int| 0 <= k < j && unique@[k] == p,
            decreases unique.len() - j,
        {
            if unique[j] == p {
                seen = true;
            }
            j = j + 1;
        }
        let ghost before = unique@;
        if !seen {
            unique.push(p);
        }
        proof {
            assert(v@.subrange(0, i + 1) =~= v@.subrange(0, i as int).push(p));
            v@.subrange(0, i as int).lemma_push_to_set_commute(p);
            if !seen {
                assert(!before.contains(p));
                before.lemma_push_to_set_commute(p);
            } else {
                let k = choose|k: int| 0 <= k < before.len() && before[k] == p;
                assert(before.contains(p));
                assert(before.to_set().contains(p));
                assert(unique@.to_set() =~= before.to_set().insert(p));
            }
        }
        i = i + 1;
    }
    proof {
        assert(v@.subrange(0, v@.len() as int) =~= v@);
        unique@.unique_seq_to_set();
    }
    unique.len() as u64
}

impl AntennaMap {
    /// The antinodes of every frequency, frequency after frequency.
    pub fn get_all_antinodes(&self) -> (r: Vec<Vector>)
        requires
            self.wf(),
        ensures
            r@ == every_frequency(
                self.antenna@,
                self.limits,
                self.antenna@.len() as int,
                |ps: Seq<Vector>, limits: Vector| antinodes(ps, limits),
            ),
    {
        let ghost each = |ps: Seq<Vector>, limits: Vector| antinodes(ps, limits);
        let mut all: Vec<Vector> = Vec::new();
        let mut i: usize = 0;
        while i < self.antenna.len()
            invariant
                i <= self.antenna@.len(),
                self.wf(),
                each == (|ps: Seq<Vector>, limits: Vector| antinodes(ps, limits)),
                all@ == every_frequency(self.antenna@, self.limits, i as int, each),
            decreases self.antenna.len() - i,
        {
            proof {
                lemma_entry_found(*self, i as int);
            }
            if let Some(found) = self.get_antinodes(self.antenna[i].0) {
                extend_points(&mut all, &found);
            }
            i = i + 1;
        }
        all
    }

    /// The resonant points of every frequency, frequency after frequency.
    pub fn get_all_resonances(&self) -> (r: Vec<Vector>)
        requires
            self.wf(),
        ensures
            r@ == every_frequency(
                self.antenna@,
                self.limits,
                self.antenna@.len() as int,
                |ps: Seq<Vector>, limits: Vector| resonances(ps, limits),
            ),
    {
        let ghost each = |ps: Seq<Vector>, limits: Vector| resonances(ps, limits);
        let mut all: Vec<Vector> = Vec::new();
        let mut i: usize = 0;
        while i < self.antenna.len()
            invariant
                i <= self.antenna@.len(),
                self.wf(),
                each == (|ps: Seq<Vector>, limits: Vector| resonances(ps, limits)),
                all@ == every_frequency(self.antenna@, self.limits, i as int, each),
            decreases self.antenna.len() - i,
        {
            proof {
                lemma_entry_found(*self, i as int);
            }
            if let Some(found) = self.get_resonances(self.antenna[i].0) {
                extend_points(&mut all, &found);
            }
            i = i + 1;
        }
        all
    }
}

/// The number of distinct antinode positions on the map.
pub fn part_one(map: &AntennaMap) -> (r: u64)
    requires
        map.wf(),
    ensures
        r == every_frequency(
            map.antenna@,
            map.limits,
            map.antenna@.len() as int,
            |ps: Seq<Vector>, limits: Vector| antinodes(ps, limits),
        ).to_set().len(),
{
    count_distinct(&map.get_all_antinodes())
}

/// The number of distinct resonant positions on the map.
pub fn part_two(map: &AntennaMap) -> (r: u64)
    requires
        map.wf(),
    ensures
        r == every_frequency(
            map.antenna@,
            map.limits,
            map.antenna@.len() as int,
            |ps: Seq<Vector>, limits: Vector| resonances(ps, limits),
        ).to_set().len(),
{
    count_distinct(&map.get_all_resonances())
}

/// The antennas among the first `n` characters of line `y`: each character
/// other than `.`, with its position.
pub open spec fn line_cells(line: Seq<char>, y: int, n: int) -> Seq<(char, Vector)>
    decreases n,
{
    if n <= 0 {
        Seq::empty()
    } else {
        let before = line_cells(line, y, n - 1);
        if line[n - 1] != '.' {
            before.push((line[n - 1], Vector { x: (n - 1) as i64, y: y as i64 }))
        } else {
            before
        }
    }
}

/// The antennas of the first `n` lines, line by line.
pub open spec fn grid_cells(ls: Seq<Seq<char>>, n: int) -> Seq<(char, Vector)>
    decreases n,
{
    if n <= 0 {
        Seq::empty()
    } else {
        grid_cells(ls, n - 1) + line_cells(ls[n - 1], n - 1, ls[n - 1].len() as int)
    }
}

/// The frequencies of `cs` in order of first appearance.
pub open spec fn first_keys(cs: Seq<(char, Vector)>) -> Seq<char>
    decreases cs.len(),
{
    if cs.len() == 0 {
        Seq::empty()
    } else {
        let k = first_keys(cs.drop_last());
        if k.contains(cs.last().0) {
            k
        } else {
            k.push(cs.last().0)
        }
    }
}

/// The positions of the antennas of frequency `c` in `cs`, in order.
pub open spec fn positions_of(cs: Seq<(char, Vector)>, c: char) -> Seq<Vector>
    decreases cs.len(),
{
    if cs.len() == 0 {
        Seq::empty()
    } else {
        let p = positions_of(cs.drop_last(), c);
        if cs.last().0 == c {
            p.push(cs.last().1)
        } else {
            p
        }
    }
}

/// Whether lines `ls` can describe an antenna map: at least one line, and
/// fewer than `COORDINATE_BOUND` lines and characters in each.
pub open spec fn antenna_readable(ls: Seq<Seq<char>>) -> bool {
    &&& 0 < ls.len() < COORDINATE_BOUND
    &&& forall|i: int| 0 <= i < ls.len() ==> #[trigger] ls[i].len() < COORDINATE_BOUND
}

/// Whether `m` is the map that lines `ls` describe: as wide as the first
/// line and as high as there are lines, with the antennas grouped by
/// frequency in order of first appearance.
pub open spec fn antenna_map_of(m: AntennaMap, ls: Seq<Seq<char>>) -> bool {
    let cs = grid_cells(ls, ls.len() as int);
    let keys = first_keys(cs);
    &&& m.limits == Vector { x: ls[0].len() as i64, y: ls.len() as i64 }
    &&& m.antenna@.len() == keys.len()
    &&& forall|i: int|
        0 <= i < keys.len() ==> (#[trigger] m.antenna@[i]).0 == keys[i] && m.antenna@[i].1@
            == positions_of(cs, keys[i])
}

impl AntennaMap {
    /// Reads a map: every character other than `.` is an antenna of that
    /// frequency. `None` when the text does not describe a map.
    pub fn parse(text: &[char]) -> (r: Option<AntennaMap>)
        ensures
            r is Some <==> antenna_readable(lines(text@)),
            r matches Some(m) ==> m.wf() && antenna_map_of(m, lines(text@)),
    {
        let ls = split_lines(text);
        let ghost g = ls@.map_values(|l: Vec<char>| l@);
        let h = ls.len();
        if h == 0 || h as u64 >= COORDINATE_BOUND as u64 {
            return None;
        }
        let mut y: usize = 0;
        while y < h
            invariant
                y <= h,
                h == ls@.len(),
                g == ls@.map_values(|l: Vec<char>| l@),
                g == lines(text@),
                forall|i: int| 0 <= i < y ==> #[trigger] g[i].len() < COORDINATE_BOUND,
            decreases h - y,
        {
            proof {
                assert(g[y as int] == ls@[y as int]@);
            }
            if ls[y].len() as u64 >= COORDINATE_BOUND as u64 {
                return None;
            }
            y = y + 1;
        }
        let mut cells: Vec<(char, Vector)> = Vec::new();
        let mut y: usize = 0;
        while y < h
            invariant
                y <= h < COORDINATE_BOUND,
                h == ls@.len(),
                g == ls@.map_values(|l: Vec<char>| l@),
                g == lines(text@),
                forall|i: int| 0 <= i < h ==> #[trigger] g[i].len() < COORDINATE_BOUND,
                cells@ == grid_cells(g, y as int),
                forall|k: int| 0 <= k < cells@.len() ==> in_bounds(#[trigger] cells@[k].1),
            decreases h - y,
        {
            let line = &ls[y];
            let w = line.len();
            proof {
                assert(g[y as int] == line@);
                assert(w < COORDINATE_BOUND);
            }
            let ghost above = cells@;
            let mut x: usize = 0;
            while x < w
                invariant
                    x <= w < COORDINATE_BOUND,
                    y < h < COORDINATE_BOUND,
                    g[y as int] == line@,
                    w == line@.len(),
                    cells@ == above + line_cells(line@, y as int, x as int),
                    forall|k: int| 0 <= k < cells@.len() ==> in_bounds(#[trigger] cells@[k].1),
                decreases w - x,
            {
                let c = line[x];
                if c != '.' {
                    let ghost prev = cells@;
                    cells.push((c, Vector { x: x as i64, y: y as i64 }));
                    proof {
                        assert(cells@ =~= above + line_cells(line@, y as int, x + 1));
                    }
                }
                x = x + 1;
            }
            proof {
                assert(cells@ == grid_cells(g, y + 1));
            }
            y = y + 1;
        }
        let ghost cs = cells@;
        let mut keys: Vec<char> = Vec::new();
        let mut i: usize = 0;
        while i < cells.len()
            invariant
                i <= cells@.len(),
                cs == cells@,
                keys@ == first_keys(cs.subrange(0, i as int)),
                keys@.no_duplicates(),
            decreases cells.len() - i,
        {
            proof {
                assert(cs.subrange(0, i + 1).drop_last() =~= cs.subrange(0, i as int));
            }
            let c = cells[i].0;
            let mut j: usize = 0;
            let mut seen = false;
            while j < keys.len()
                invariant
                    j <= keys@.len(),
                    seen <==> exists|k: int| 0 <= k < j && keys@[k] == c,
                decreases keys.len() - j,
            {
                if keys[j] == c {
                    seen = true;
                }
                j = j + 1;
            }
            if !seen {
                keys.push(c);
            }
            i = i + 1;
        }
        proof {
            assert(cs.subrange(0, cs.len() as int) =~= cs);
        }
        let mut antenna: Vec<(char, Vec<Vector>)> = Vec::new();
        let mut k: usize = 0;
        while k < keys.len()
            invariant
                k <= keys@.len(),
                cs == cells@,
                keys@ == first_keys(cs),
                keys@.no_duplicates(),
                forall|k: int| 0 <= k < cs.len() ==> in_bounds(#[trigger] cs[k].1),
                antenna@.len() == k,
                forall|a: int|
                    0 <= a < k ==> (#[trigger] antenna@[a]).0 == keys@[a] && antenna@[a].1@
                        == positions_of(cs, keys@[a]) && forall|b: int|
                        0 <= b < antenna@[a].1@.len() ==> in_bounds(antenna@[a].1@[b]),
            decreases keys.len() - k,
        {
            let c = keys[k];
            let mut ps: Vec<Vector> = Vec::new();
            let mut j: usize = 0;
            while j < cells.len()
                invariant
                    j <= cells@.len(),
                    cs == cells@,
                    forall|k: int| 0 <= k < cs.len() ==> in_bounds(#[trigger] cs[k].1),
                    ps@ == positions_of(cs.subrange(0, j as int), c),
                    forall|b: int| 0 <= b < ps@.len() ==> in_bounds(#[trigger] ps@[b]),
                decreases cells.len() - j,
            {
                proof {
                    assert(cs.subrange(0, j + 1).drop_last() =~= cs.subrange(0, j as int));
                }
                if cells[j].0 == c {
                    ps.push(cells[j].1);
                }
                j = j + 1;
            }
            proof {
                assert(cs.subrange(0, cs.len() as int) =~= cs);
            }
            antenna.push((c, ps));
            k = k + 1;
        }
        let limits = Vector { x: ls[0].len() as i64, y: h as i64 };
        proof {
            assert(g[0] == ls@[0]@);
        }
        let m = AntennaMap { antenna, limits };
        proof {
            assert forall|i: int, j: int|
                0 <= i < j < m.antenna@.len() implies #[trigger] m.antenna@[i].0
                != #[trigger] m.antenna@[j].0 by {
                assert(keys@[i] != keys@[j]);
            }
        }
        Some(m)
    }
}

} // verus!
