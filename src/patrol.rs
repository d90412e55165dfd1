//! A guard patrolling a map: walk forward, and turn right in front of an
//! obstacle.
use vstd::prelude::*;
use crate::text::{lines, split_lines};

verus! {

/// A heading on the map; north is towards smaller `y`.
#[derive(Debug, Clone, Copy, PartialEq, Eq, Structural)]
pub enum Direction {
    North,
    East,
    South,
    West,
}

/// The heading after a quarter turn clockwise.
pub open spec fn turned(d: Direction) -> Direction {
    match d {
        Direction::North => Direction::East,
        Direction::East => Direction::South,
        Direction::South => Direction::West,
        Direction::West => Direction::North,
    }
}

impl Direction {
    pub fn turn_right(&self) -> (r: Self)
        ensures
            r == turned(*self),
    {
        match self {
            Direction::North => Direction::East,
            Direction::East => Direction::South,
            Direction::South => Direction::West,
            Direction::West => Direction::North,
        }
    }
}

/// A position on the map: `x` grows eastwards and `y` southwards.
#[derive(Debug, Clone, Copy, PartialEq, Eq, Hash, Structural)]
pub struct Position {
    pub x: u8,
    pub y: u8,
}

/// Where `p` ends up after `steps` steps towards `dir`, if it stays on the
/// coordinates. Moving south is refused once `y + 1` reaches `limit_y`, and
/// moving west once `x + 1` reaches `limit_x`; moving north or east stops
/// only at the edge of the `u8` range.
pub open spec fn moved(p: Position, dir: Direction, steps: u8, limit_x: u8, limit_y: u8) -> Option<
    Position,
> {
    match dir {
        Direction::North => if p.y >= steps {
            Some(Position { x: p.x, y: (p.y - steps) as u8 })
        } else {
            None
        },
        Direction::South => if p.y + 1 >= limit_y || p.y + steps > u8::MAX {
            None
        } else {
            Some(Position { x: p.x, y: (p.y + steps) as u8 })
        },
        Direction::East => if p.x + steps > u8::MAX {
            None
        } else {
            Some(Position { x: (p.x + steps) as u8, y: p.y })
        },
        Direction::West => if p.x + 1 >= limit_x || p.x < steps {
            None
        } else {
            Some(Position { x: (p.x - steps) as u8, y: p.y })
        },
    }
}

impl Position {
    pub fn move_in_direction(&self, dir: Direction, steps: u8, limit_x: u8, limit_y: u8) -> (r:
        Option<Self>)
        ensures
            r == moved(*self, dir, steps, limit_x, limit_y),
    {
        match dir {
            Direction::North => match self.y.checked_sub(steps) {
                Some(y) => Some(Position { x: self.x, y }),
                None => None,
            },
            Direction::South => {
                if self.y as u16 + 1 >= limit_y as u16 {
                    None
                } else {
                    match self.y.checked_add(steps) {
                        Some(y) => Some(Position { x: self.x, y }),
                        None => None,
                    }
                }
            },
            Direction::East => match self.x.checked_add(steps) {
                Some(x) => Some(Position { x, y: self.y }),
                None => None,
            },
            Direction::West => {
                if self.x as u16 + 1 >= limit_x as u16 {
                    None
                } else {
                    match self.x.checked_sub(steps) {
                        Some(x) => Some(Position { x, y: self.y }),
                        None => None,
                    }
                }
            },
        }
    }
}

/// A patrol map: its size, its obstacles and where the guard starts.
#[derive(Debug, Clone)]
pub struct PatrollingMap {
    pub width: u8,
    pub height: u8,
    pub obstacles: Vec<Position>,
    pub start_position: Position,
}

/// The guard's state after one step from `pos` heading `dir`: a step that
/// leaves the coordinates changes nothing; a step onto an obstacle turns the
/// guard right and steps that way instead, possibly off the map.
pub open spec fn patrol_step(m: PatrollingMap, pos: Option<Position>, dir: Direction) -> (Option<
    Position,
>, Direction) {
    match pos {
        None => (None, dir),
        Some(p) => match moved(p, dir, 1, m.width, m.height) {
            None => (pos, dir),
            Some(ahead) => if m.obstacles@.contains(ahead) {
                (moved(p, turned(dir), 1, m.width, m.height), turned(dir))
            } else {
                (Some(ahead), dir)
            },
        },
    }
}

/// What one step reports: the new position and heading, when the guard
/// moved and is still on the map.
pub open spec fn patrol_report(m: PatrollingMap, pos: Option<Position>, dir: Direction) -> Option<
    (Position, Direction),
> {
    match pos {
        None => None,
        Some(p) => match moved(p, dir, 1, m.width, m.height) {
            None => None,
            Some(_) => {
                let (next, d) = patrol_step(m, pos, dir);
                match next {
                    Some(q) => Some((q, d)),
                    None => None,
                }
            },
        },
    }
}

/// The guard's state after `k` steps from the start, heading north.
pub open spec fn walk(m: PatrollingMap, k: nat) -> (Option<Position>, Direction)
    decreases k,
{
    if k == 0 {
        (Some(m.start_position), Direction::North)
    } else {
        let (pos, dir) = walk(m, (k - 1) as nat);
        patrol_step(m, pos, dir)
    }
}

/// What step `k + 1` of the walk reports.
pub open spec fn walk_report(m: PatrollingMap, k: nat) -> Option<(Position, Direction)> {
    let (pos, dir) = walk(m, k);
    patrol_report(m, pos, dir)
}

/// Whether step `k + 1` of the walk reports position `p`.
pub open spec fn reports_at(m: PatrollingMap, k: nat, p: Position) -> bool {
    match walk_report(m, k) {
        Some((q, _)) => q == p,
        None => false,
    }
}

/// The guard walking a map, one step at a time.
pub struct PatrolPathIterator<'a> {
    position: Option<Position>,
    direction: Direction,
    map: &'a PatrollingMap,
}

impl<'a> PatrolPathIterator<'a> {
    pub closed spec fn map(&self) -> PatrollingMap {
        *self.map
    }

    pub closed spec fn state(&self) -> (Option<Position>, Direction) {
        (self.position, self.direction)
    }

    /// Takes one step and reports the new position and heading; `None` once
    /// the guard cannot move on.
    pub fn next(&mut self) -> (r: Option<(Position, Direction)>)
        ensures
            final(self).map() == old(self).map(),
            final(self).state() == patrol_step(
                old(self).map(),
                old(self).state().0,
                old(self).state().1,
            ),
            r == patrol_report(old(self).map(), old(self).state().0, old(self).state().1),
    {
        let pos = match self.position {
            Some(p) => p,
            None => return None,
        };
        let ahead = match pos.move_in_direction(self.direction, 1, self.map.width, self.map.height) {
            Some(a) => a,
            None => return None,
        };
        let mut next_pos = Some(ahead);
        if self.map.is_obstacle(ahead) {
            self.direction = self.direction.turn_right();
            next_pos = pos.move_in_direction(self.direction, 1, self.map.width, self.map.height);
        }
        self.position = next_pos;
        match self.position {
            Some(q) => Some((q, self.direction)),
            None => None,
        }
    }
}

/// Whether `q` is among `v`.
fn position_in(v: &Vec<Position>, q: Position) -> (r: bool)
    ensures
        r == v@.contains(q),
{
    let mut i: usize = 0;
    while i < v.len()
        invariant
            i <= v@.len(),
            forall|j: int| 0 <= j < i ==> v@[j] != q,
        decreases v.len() - i,
    {
        if v[i] == q {
            return true;
        }
        i = i + 1;
    }
    false
}

/// The number of steps after which a walk that has not stopped never will:
/// the guard has then repeated a state, as there are at most this many less
/// one.
pub const MAX_PATROL_STEPS: usize = 262145;

impl PatrollingMap {
    /// Whether `pos` holds an obstacle.
    pub fn is_obstacle(&self, pos: Position) -> (r: bool)
        ensures
            r == self.obstacles@.contains(pos),
    {
        let mut i: usize = 0;
        while i < self.obstacles.len()
            invariant
                i <= self.obstacles@.len(),
                forall|j: int| 0 <= j < i ==> self.obstacles@[j] != pos,
            decreases self.obstacles.len() - i,
        {
            if self.obstacles[i] == pos {
                return true;
            }
            i = i + 1;
        }
        false
    }

    /// The guard at the start position, heading north.
    pub fn iter(&self) -> (r: PatrolPathIterator<'_>)
        ensures
            r.map() == *self,
            r.state() == walk(*self, 0),
    {
        PatrolPathIterator { position: Some(self.start_position), direction: Direction::North, map: self }
    }

    /// The distinct positions that the walk reports within
    /// `MAX_PATROL_STEPS` steps, in the order first reached.
    pub fn get_visiting_positions(&self) -> (r: Vec<Position>)
        ensures
            r@.no_duplicates(),
            forall|p: Position|
                r@.contains(p) <==> exists|k: nat| k < MAX_PATROL_STEPS && #[trigger] reports_at(*self, k, p),
    {
        let mut visited: Vec<Position> = Vec::new();
        let mut guard = self.iter();
        let mut k: usize = 0;
        while k < MAX_PATROL_STEPS
            invariant
                k <= MAX_PATROL_STEPS,
                guard.map() == *self,
                guard.state() == walk(*self, k as nat),
                visited@.no_duplicates(),
                forall|p: Position|
                    visited@.contains(p) <==> exists|j: nat| j < k && #[trigger] reports_at(*self, j, p),
            decreases MAX_PATROL_STEPS - k,
        {
            let ghost before = visited@;
            let report = guard.next();
            assert(report == walk_report(*self, k as nat));
            match report {
                Some((q, _)) => {
                    if !position_in(&visited, q) {
                        visited.push(q);
                    }
                },
                None => {},
            }
            proof {
                assert forall|p: Position|
                    visited@.contains(p) <==> (before.contains(p) || reports_at(*self, k as nat, p)) by {
                    if visited@ != before {
                        assert(visited@ == before.push(report->Some_0.0));
                        if visited@.contains(p) && !before.contains(p) {
                            let i = choose|i: int| 0 <= i < visited@.len() && visited@[i] == p;
                            assert(i == before.len());
                        }
                        if before.contains(p) {
                            let i = choose|i: int| 0 <= i < before.len() && before[i] == p;
                            assert(visited@[i] == p);
                        }
                        assert(visited@[before.len() as int] == report->Some_0.0);
                    }
                }
                assert forall|p: Position|
                    visited@.contains(p) <==> exists|j: nat| j < k + 1 && #[trigger] reports_at(*self, j, p) by {
                    if reports_at(*self, k as nat, p) {
                        assert(k + 1 > k);
                    }
                    if before.contains(p) {
                        let j = choose|j: nat| j < k && #[trigger] reports_at(*self, j, p);
                        assert(j < k + 1 && reports_at(*self, j, p));
                    }
                    if exists|j: nat| j < k + 1 && #[trigger] reports_at(*self, j, p) {
                        let j = choose|j: nat| j < k + 1 && #[trigger] reports_at(*self, j, p);
                        if j < k {
                        } else {
                            assert(j == k);
                        }
                    }
                }
            }
            k = k + 1;
        }
        visited
    }
}

/// The character in column `x` of line `y`, if there is one.
pub open spec fn char_at(ls: Seq<Seq<char>>, x: int, y: int) -> Option<char> {
    if 0 <= y < ls.len() && 0 <= x < ls[y].len() {
        Some(ls[y][x])
    } else {
        None
    }
}

/// Whether `(x1, y1)` comes before `(x2, y2)` reading line by line.
pub open spec fn earlier(x1: int, y1: int, x2: int, y2: int) -> bool {
    y1 < y2 || (y1 == y2 && x1 < x2)
}

/// Whether lines `ls` can describe a patrol map: one to 255 lines of at
/// most 255 characters, with a guard `^` somewhere.
pub open spec fn patrol_readable(ls: Seq<Seq<char>>) -> bool {
    &&& 0 < ls.len() <= 255
    &&& forall|i: int| 0 <= i < ls.len() ==> #[trigger] ls[i].len() <= 255
    &&& exists|x: int, y: int| #[trigger] char_at(ls, x, y) == Some('^')
}

/// Whether `m` is the map that lines `ls` describe: as many rows as lines,
/// as wide as the first line, an obstacle at each `#`, and the guard at the
/// last `^`.
pub open spec fn describes(m: PatrollingMap, ls: Seq<Seq<char>>) -> bool {
    &&& m.height == ls.len()
    &&& m.width == ls[0].len()
    &&& forall|p: Position| #[trigger]
        m.obstacles@.contains(p) <==> char_at(ls, p.x as int, p.y as int) == Some('#')
    &&& char_at(ls, m.start_position.x as int, m.start_position.y as int) == Some('^')
    &&& forall|x: int, y: int|
        #[trigger] char_at(ls, x, y) == Some('^') ==> !earlier(
            m.start_position.x as int,
            m.start_position.y as int,
            x,
            y,
        )
}

impl PatrollingMap {
    /// Reads a map: `#` marks an obstacle and `^` the guard, who starts
    /// heading north. `None` when the text does not describe a patrol map.
    pub fn parse(text: &[char]) -> (r: Option<PatrollingMap>)
        ensures
            r is Some <==> patrol_readable(lines(text@)),
            r matches Some(m) ==> describes(m, lines(text@)),
    {
        let ls = split_lines(text);
        let ghost g = ls@.map_values(|l: Vec<char>| l@);
        let h = ls.len();
        if h == 0 || h > 255 {
            return None;
        }
        let mut y: usize = 0;
        while y < h
            invariant
                y <= h,
                h == ls@.len(),
                g == ls@.map_values(|l: Vec<char>| l@),
                g == lines(text@),
                forall|i: int| 0 <= i < y ==> #[trigger] ls@[i]@.len() <= 255,
            decreases h - y,
        {
            if ls[y].len() > 255 {
                proof {
                    assert(g[y as int].len() > 255);
                }
                return None;
            }
            y = y + 1;
        }
        let mut obstacles: Vec<Position> = Vec::new();
        let mut start: Option<Position> = None;
        let mut y: usize = 0;
        while y < h
            invariant
                y <= h <= 255,
                h == ls@.len(),
                g == ls@.map_values(|l: Vec<char>| l@),
                g == lines(text@),
                forall|i: int| 0 <= i < h ==> #[trigger] ls@[i]@.len() <= 255,
                forall|p: Position| #[trigger]
                    obstacles@.contains(p) <==> (char_at(g, p.x as int, p.y as int) == Some('#')
                        && (p.y as int) < y),
                match start {
                    None => forall|x: int, yy: int|
                        yy < y ==> #[trigger] char_at(g, x, yy) != Some('^'),
                    Some(s) => (s.y as int) < y && char_at(g, s.x as int, s.y as int) == Some('^')
                        && forall|x: int, yy: int|
                        yy < y && #[trigger] char_at(g, x, yy) == Some('^') ==> !earlier(
                            s.x as int,
                            s.y as int,
                            x,
                            yy,
                        ),
                },
            decreases h - y,
        {
            let line = &ls[y];
            let w = line.len();
            proof {
                assert(g[y as int] == line@);
            }
            let mut x: usize = 0;
            while x < w
                invariant
                    x <= w <= 255,
                    y < h <= 255,
                    h == ls@.len(),
                    w == line@.len(),
                    g == ls@.map_values(|l: Vec<char>| l@),
                    g == lines(text@),
                g == lines(text@),
                    g[y as int] == line@,
                    forall|p: Position| #[trigger]
                        obstacles@.contains(p) <==> (char_at(g, p.x as int, p.y as int) == Some(
                            '#',
                        ) && earlier(p.x as int, p.y as int, x as int, y as int)),
                    match start {
                        None => forall|xx: int, yy: int|
                            earlier(xx, yy, x as int, y as int) ==> #[trigger] char_at(g, xx, yy)
                                != Some('^'),
                        Some(s) => earlier(s.x as int, s.y as int, x as int, y as int) && char_at(
                            g,
                            s.x as int,
                            s.y as int,
                        ) == Some('^') && forall|xx: int, yy: int|
                            earlier(xx, yy, x as int, y as int) && #[trigger] char_at(g, xx, yy)
                                == Some('^') ==> !earlier(s.x as int, s.y as int, xx, yy),
                    },
                decreases w - x,
            {
                let c = line[x];
                let here = Position { x: x as u8, y: y as u8 };
                let ghost before = obstacles@;
                if c == '#' {
                    obstacles.push(here);
                }
                if c == '^' {
                    start = Some(here);
                }
                proof {
                    assert(char_at(g, x as int, y as int) == Some(c));
                    assert forall|p: Position| #[trigger]
                        obstacles@.contains(p) <==> (char_at(g, p.x as int, p.y as int) == Some(
                            '#',
                        ) && earlier(p.x as int, p.y as int, x + 1, y as int)) by {
                        if c == '#' {
                            assert(obstacles@ == before.push(here));
                            if obstacles@.contains(p) && !before.contains(p) {
                                let i = choose|i: int| 0 <= i < obstacles@.len() && obstacles@[i] == p;
                                assert(i == before.len());
                            }
                            if before.contains(p) {
                                let i = choose|i: int| 0 <= i < before.len() && before[i] == p;
                                assert(obstacles@[i] == p);
                            }
                            if p == here {
                                assert(obstacles@[before.len() as int] == p);
                            }
                        }
                    }
                }
                x = x + 1;
            }
            proof {
                assert forall|p: Position| #[trigger]
                    obstacles@.contains(p) <==> (char_at(g, p.x as int, p.y as int) == Some('#')
                        && (p.y as int) < y + 1) by {
                    if p.y as int == y && p.x as int >= w {
                        assert(char_at(g, p.x as int, p.y as int) is None);
                    }
                }
                match start {
                    None => {
                        assert forall|xx: int, yy: int|
                            yy < y + 1 implies #[trigger] char_at(g, xx, yy) != Some('^') by {
                            if yy == y && xx >= w {
                                assert(char_at(g, xx, yy) is None);
                            }
                            if yy == y && xx < w {
                                assert(earlier(xx, yy, w as int, y as int));
                            }
                        }
                    },
                    Some(s) => {
                        assert forall|xx: int, yy: int|
                            yy < y + 1 && #[trigger] char_at(g, xx, yy) == Some('^') implies !earlier(
                            s.x as int,
                            s.y as int,
                            xx,
                            yy,
                        ) by {
                            if yy == y && xx < w {
                                assert(earlier(xx, yy, w as int, y as int));
                            }
                        }
                    },
                }
            }
            y = y + 1;
        }
        match start {
            Some(s) => {
                let width = ls[0].len() as u8;
                Some(PatrollingMap { width, height: h as u8, obstacles, start_position: s })
            },
            None => {
                proof {
                    assert forall|x: int, yy: int| #[trigger] char_at(g, x, yy) != Some('^') by {
                        if 0 <= yy < h {
                        }
                    }
                }
                None
            },
        }
    }
}

/// The number of distinct positions that the walk reports within
/// `MAX_PATROL_STEPS` steps.
pub fn part_one(map: &PatrollingMap) -> (r: u64)
    ensures
        exists|v: Seq<Position>|
            v.no_duplicates() && v.len() == r && forall|p: Position| #[trigger]
                v.contains(p) <==> exists|k: nat| k < MAX_PATROL_STEPS && #[trigger] reports_at(*map, k, p),
{
    let visited = map.get_visiting_positions();
    visited.len() as u64
}

} // verus!
