//! Pure (UI-less) hex cell positioning logic for a flat-topped hex grid.
//!
//! Positions are cube coordinates `(x, y, z)`; a well-formed position
//! satisfies `x + y + z == 0`. `i32` is the base integer type because
//! positions often go negative even with a top-left origin.

use vstd::prelude::*;
use vstd::string::StringExecFns;

verus! {

/// Possible move directions in a flat-topped hex grid, in their fixed
/// cyclic order.
#[derive(Debug, Copy, Clone, PartialEq, Eq, Structural)]
pub enum Direction {
    North,
    NorthEast,
    SouthEast,
    South,
    SouthWest,
    NorthWest,
}

/// Index of a direction in the fixed cyclic order.
pub open spec fn dir_index(d: Direction) -> int {
    match d {
        Direction::North => 0,
        Direction::NorthEast => 1,
        Direction::SouthEast => 2,
        Direction::South => 3,
        Direction::SouthWest => 4,
        Direction::NorthWest => 5,
    }
}

/// Change of the cube `x` coordinate when moving one cell in `d`.
pub open spec fn dir_dx(d: Direction) -> int {
    match d {
        Direction::North => 0,
        Direction::NorthEast => 1,
        Direction::SouthEast => 1,
        Direction::South => 0,
        Direction::SouthWest => -1,
        Direction::NorthWest => -1,
    }
}

/// Change of the cube `y` coordinate when moving one cell in `d`.
pub open spec fn dir_dy(d: Direction) -> int {
    match d {
        Direction::North => 1,
        Direction::NorthEast => 0,
        Direction::SouthEast => -1,
        Direction::South => -1,
        Direction::SouthWest => 0,
        Direction::NorthWest => 1,
    }
}

/// Change of the cube `z` coordinate when moving one cell in `d`.
pub open spec fn dir_dz(d: Direction) -> int {
    match d {
        Direction::North => -1,
        Direction::NorthEast => -1,
        Direction::SouthEast => 0,
        Direction::South => 1,
        Direction::SouthWest => 1,
        Direction::NorthWest => 0,
    }
}

/// The six directions in their fixed order.
pub open spec fn all_directions() -> Seq<Direction> {
    seq![
        Direction::North,
        Direction::NorthEast,
        Direction::SouthEast,
        Direction::South,
        Direction::SouthWest,
        Direction::NorthWest,
    ]
}

impl Direction {
    /// All six directions, in the fixed cyclic order.
    pub fn all() -> (r: [Direction; 6])
        ensures
            r@ == all_directions(),
    {
        let r = [
            Direction::North,
            Direction::NorthEast,
            Direction::SouthEast,
            Direction::South,
            Direction::SouthWest,
            Direction::NorthWest,
        ];
        proof {
            assert(r@ =~= all_directions());
        }
        r
    }
}

/// "Cube"-type position. We simply call it `Pos` for conciseness because
/// that's our "official" pos.
#[derive(Debug, Copy, Clone, PartialEq, Eq, Hash, Structural)]
pub struct Pos {
    pub x: i32,
    pub y: i32,
    pub z: i32,
}

/// The neighbor of `p` one cell away in direction `d`, as unbounded
/// integer arithmetic (the cast truncates only outside `i32` range).
pub open spec fn spec_neighbor(p: Pos, d: Direction) -> Pos {
    Pos {
        x: (p.x + dir_dx(d)) as i32,
        y: (p.y + dir_dy(d)) as i32,
        z: (p.z + dir_dz(d)) as i32,
    }
}

/// Whether every coordinate of `p` lies within `margin` of the
/// corresponding coordinate of `c` and stays representable.
pub open spec fn in_box(p: Pos, c: Pos, margin: int) -> bool {
    &&& c.x - margin <= p.x <= c.x + margin
    &&& c.y - margin <= p.y <= c.y + margin
    &&& c.z - margin <= p.z <= c.z + margin
}

/// Whether a whole box of that margin around `c` is representable in `i32`.
pub open spec fn box_fits(c: Pos, margin: int) -> bool {
    &&& i32::MIN <= c.x - margin && c.x + margin <= i32::MAX
    &&& i32::MIN <= c.y - margin && c.y + margin <= i32::MAX
    &&& i32::MIN <= c.z - margin && c.z + margin <= i32::MAX
}

/// Truncating (toward zero) division by two, as Rust's `/` computes it.
pub open spec fn div2_trunc(a: int) -> int {
    if a >= 0 {
        a / 2
    } else {
        -((-a) / 2)
    }
}

/// Truncating remainder of division by two, as Rust's `%` computes it.
pub open spec fn rem2_trunc(a: int) -> int {
    a - 2 * div2_trunc(a)
}

/// The offset coordinates that `to_offset_pos` computes for a cube position.
pub open spec fn spec_to_offset(p: Pos) -> (int, int) {
    (p.x as int, p.z + div2_trunc(p.x as int))
}

/// The cube coordinates that `OffsetPos::to_pos` computes.
pub open spec fn spec_offset_to_cube(ox: int, oy: int) -> (int, int, int) {
    let halfx = div2_trunc(ox);
    let remx = rem2_trunc(ox);
    (ox, -oy - halfx - remx, oy - halfx)
}

impl Pos {
    pub fn new(x: i32, y: i32, z: i32) -> (r: Pos)
        ensures
            r == (Pos { x, y, z }),
    {
        Pos { x, y, z }
    }

    /// Returns pos `(0, 0, 0)`.
    pub fn origin() -> (r: Pos)
        ensures
            r == (Pos { x: 0, y: 0, z: 0 }),
    {
        Pos::new(0, 0, 0)
    }

    /// Returns a position of size `1` in the specified direction.
    pub fn vector(direction: Direction) -> (r: Pos)
        ensures
            r == spec_neighbor(Pos { x: 0, y: 0, z: 0 }, direction),
    {
        Pos::origin().neighbor(direction)
    }

    pub fn to_axialpos(&self) -> (r: AxialPos)
        ensures
            r.q == self.x,
            r.r == self.z,
    {
        AxialPos::new(self.x, self.z)
    }

    /// Converts to the "odd-q" offset system used for 2D array storage.
    pub fn to_offset_pos(&self) -> (r: OffsetPos)
        requires
            i32::MIN <= self.z + div2_trunc(self.x as int) <= i32::MAX,
        ensures
            (r.x as int, r.y as int) == spec_to_offset(*self),
    {
        // Each x means +1x, -half y, -half z. y goes first.
        // Each y means -1y, +1z.
        let x = self.x;
        let y = self.z + self.x / 2;
        OffsetPos::new(x, y)
    }

    /// Translates `self` by `other`.
    pub fn translate(&self, other: Pos) -> (r: Pos)
        requires
            i32::MIN <= self.x + other.x <= i32::MAX,
            i32::MIN <= self.y + other.y <= i32::MAX,
            i32::MIN <= self.z + other.z <= i32::MAX,
        ensures
            r.x == self.x + other.x,
            r.y == self.y + other.y,
            r.z == self.z + other.z,
    {
        Pos::new(self.x + other.x, self.y + other.y, self.z + other.z)
    }

    /// Multiplies `self` by `factor`; this increases the distance to the
    /// origin by that factor.
    pub fn amplify(&self, factor: i32) -> (r: Pos)
        requires
            i32::MIN <= self.x * factor <= i32::MAX,
            i32::MIN <= self.y * factor <= i32::MAX,
            i32::MIN <= self.z * factor <= i32::MAX,
        ensures
            r.x == self.x * factor,
            r.y == self.y * factor,
            r.z == self.z * factor,
    {
        Pos::new(self.x * factor, self.y * factor, self.z * factor)
    }

    /// Returns the cell at the opposite side of the origin.
    pub fn neg(&self) -> (r: Pos)
        requires
            self.x != i32::MIN,
            self.y != i32::MIN,
            self.z != i32::MIN,
        ensures
            r.x == -self.x,
            r.y == -self.y,
            r.z == -self.z,
    {
        Pos::new(-self.x, -self.y, -self.z)
    }

    /// Returns a pos relative to `self` when moving a single cell in the
    /// specified `direction`.
    pub fn neighbor(&self, direction: Direction) -> (r: Pos)
        requires
            i32::MIN <= self.x + dir_dx(direction) <= i32::MAX,
            i32::MIN <= self.y + dir_dy(direction) <= i32::MAX,
            i32::MIN <= self.z + dir_dz(direction) <= i32::MAX,
        ensures
            r == spec_neighbor(*self, direction),
            r.x == self.x + dir_dx(direction),
            r.y == self.y + dir_dy(direction),
            r.z == self.z + dir_dz(direction),
    {
        let mut p = *self;
        match direction {
            Direction::North => {
                p.y = p.y + 1;
                p.z = p.z - 1;
            }
            Direction::NorthEast => {
                p.x = p.x + 1;
                p.z = p.z - 1;
            }
            Direction::SouthEast => {
                p.x = p.x + 1;
                p.y = p.y - 1;
            }
            Direction::South => {
                p.z = p.z + 1;
                p.y = p.y - 1;
            }
            Direction::SouthWest => {
                p.z = p.z + 1;
                p.x = p.x - 1;
            }
            Direction::NorthWest => {
                p.y = p.y + 1;
                p.x = p.x - 1;
            }
        }
        p
    }

    /// Returns an array of all six neighbors around `self`, in direction
    /// order.
    pub fn around(&self) -> (r: [Pos; 6])
        requires
            box_fits(*self, 1),
        ensures
            forall|i: int|
                0 <= i < 6 ==> r@[i] == spec_neighbor(*self, all_directions()[i]),
    {
        let r = [
            self.neighbor(Direction::North),
            self.neighbor(Direction::NorthEast),
            self.neighbor(Direction::SouthEast),
            self.neighbor(Direction::South),
            self.neighbor(Direction::SouthWest),
            self.neighbor(Direction::NorthWest),
        ];
        r
    }

    /// A cube position is well formed when its coordinates sum to zero.
    pub open spec fn is_cube(&self) -> bool {
        self.x + self.y + self.z == 0
    }
}

/// Moving in any direction preserves the cube invariant `x + y + z == 0`.
pub proof fn lemma_neighbor_keeps_cube(p: Pos, d: Direction)
    requires
        p.is_cube(),
        box_fits(p, 1),
    ensures
        spec_neighbor(p, d).is_cube(),
{
    assert(dir_dx(d) + dir_dy(d) + dir_dz(d) == 0);
}

/// Round trip through the offset system: converting a well-formed cube
/// position to an offset position and back yields the original coordinates.
pub proof fn lemma_offset_round_trip(p: Pos)
    requires
        p.is_cube(),
    ensures
        spec_offset_to_cube(spec_to_offset(p).0, spec_to_offset(p).1) == (
            p.x as int,
            p.y as int,
            p.z as int,
        ),
{
    let ox = p.x as int;
    let oy = p.z + div2_trunc(ox);
    assert(2 * div2_trunc(ox) + rem2_trunc(ox) == ox);
}

#[derive(Debug, Copy, Clone, PartialEq, Eq, Structural)]
pub struct AxialPos {
    pub q: i32,
    pub r: i32,
}

impl AxialPos {
    pub fn new(q: i32, r: i32) -> (res: AxialPos)
        ensures
            res == (AxialPos { q, r }),
    {
        AxialPos { q, r }
    }

    /// The cube position of this axial position: the dropped middle
    /// coordinate is rebuilt as `-q - r`, so the result satisfies the cube
    /// invariant and the conversion inverts `Pos::to_axialpos`.
    pub fn to_pos(&self) -> (res: Pos)
        requires
            i32::MIN < self.q + self.r <= i32::MAX,
        ensures
            res.x == self.q,
            res.y == -self.q - self.r,
            res.z == self.r,
            res.is_cube(),
    {
        let s = self.q + self.r;
        Pos::new(self.q, -s, self.r)
    }
}

/// Round trip through the axial system: on a well-formed cube position
/// the middle coordinate rebuilt from the axial pair `(q, r) == (x, z)` is
/// the original `y`, so converting to axial coordinates and back is the
/// identity.
pub proof fn lemma_axial_round_trip(p: Pos)
    requires
        p.is_cube(),
    ensures
        -(p.x as int) - p.z == p.y,
{
}

/// "odd-q" type of offset position.
///
/// Origin is top-left. `(1, 0)` is SouthEast of origin. `(0, 1)` is South.
#[derive(Debug, Copy, Clone, PartialEq, Eq, Structural)]
pub struct OffsetPos {
    pub x: i32,
    pub y: i32,
}

impl OffsetPos {
    pub fn new(x: i32, y: i32) -> (r: OffsetPos)
        ensures
            r == (OffsetPos { x, y }),
    {
        OffsetPos { x, y }
    }

    pub fn to_pos(&self) -> (r: Pos)
        requires
            self.y != i32::MIN,
            i32::MIN <= -(self.y as int) - div2_trunc(self.x as int) - rem2_trunc(self.x as int)
                <= i32::MAX,
            i32::MIN <= self.y - div2_trunc(self.x as int) <= i32::MAX,
        ensures
            (r.x as int, r.y as int, r.z as int) == spec_offset_to_cube(
                self.x as int,
                self.y as int,
            ),
            r.is_cube(),
    {
        // Each x means +1x, -half y, -half z. y goes first.
        // Each y means -1y, +1z.
        let halfx = self.x / 2;
        let remx = self.x % 2;
        let x = self.x;
        let y = (-self.y) + (-halfx - remx);
        let z = self.y + (-halfx);
        proof {
            assert(halfx == div2_trunc(self.x as int));
            assert(remx == rem2_trunc(self.x as int));
        }
        Pos::new(x, y, z)
    }
}

} // verus!

verus! {

/// The sequence of positions walked from `origin` along `dirs`, origin
/// first.
pub open spec fn path_from(origin: Pos, dirs: Seq<Direction>) -> Seq<Pos>
    decreases dirs.len(),
{
    if dirs.len() == 0 {
        seq![origin]
    } else {
        let prefix = path_from(origin, dirs.drop_last());
        prefix.push(spec_neighbor(prefix.last(), dirs.last()))
    }
}

/// Walking `dirs` from `origin` yields one position per step plus the
/// origin, and while the whole box of radius `dirs.len()` around `origin`
/// is representable, the walk stays within it, step by step.
pub proof fn lemma_path_in_box(origin: Pos, dirs: Seq<Direction>)
    ensures
        path_from(origin, dirs).len() == dirs.len() + 1,
        path_from(origin, dirs)[0] == origin,
        box_fits(origin, dirs.len() as int) ==> forall|i: int|
            0 <= i <= dirs.len() ==> in_box(#[trigger] path_from(origin, dirs)[i], origin, i),
    decreases dirs.len(),
{
    if dirs.len() == 0 {
    } else {
        lemma_path_in_box(origin, dirs.drop_last());
        let p = path_from(origin, dirs);
        let prefix = path_from(origin, dirs.drop_last());
        assert(forall|i: int| 0 <= i < prefix.len() ==> p[i] == prefix[i]);
        if box_fits(origin, dirs.len() as int) {
            assert(box_fits(origin, dirs.len() - 1));
            let prev = prefix.last();
            let d = dirs.last();
            assert(in_box(prev, origin, dirs.len() - 1));
            assert(in_box(p[dirs.len() as int], origin, dirs.len() as int));
        }
    }
}


/// Each step of a walk moves to the hex neighbor in that step's
/// direction.
pub proof fn lemma_path_steps(origin: Pos, dirs: Seq<Direction>)
    ensures
        forall|i: int|
            0 <= i < dirs.len() ==> path_from(origin, dirs)[i + 1] == spec_neighbor(
                #[trigger] path_from(origin, dirs)[i],
                dirs[i],
            ),
    decreases dirs.len(),
{
    if dirs.len() > 0 {
        lemma_path_steps(origin, dirs.drop_last());
        lemma_path_in_box(origin, dirs);
        lemma_path_in_box(origin, dirs.drop_last());
        let p = path_from(origin, dirs);
        let q = path_from(origin, dirs.drop_last());
        assert(forall|i: int| 0 <= i < q.len() ==> p[i] == #[trigger] q[i]);
        assert(forall|i: int| 0 <= i < dirs.len() - 1 ==> dirs.drop_last()[i] == #[trigger] dirs[i]);
        assert(p[dirs.len() as int] == spec_neighbor(q.last(), dirs.last()));
    }
}

/// A prefix of a walk is the walk of the prefix of its directions.
pub proof fn lemma_path_from_take(origin: Pos, dirs: Seq<Direction>, n: int)
    requires
        0 <= n <= dirs.len(),
    ensures
        path_from(origin, dirs.take(n)) == path_from(origin, dirs).take(n + 1),
    decreases dirs.len(),
{
    lemma_path_in_box(origin, dirs);
    if dirs.len() == 0 {
        assert(path_from(origin, dirs.take(n)) =~= path_from(origin, dirs).take(n + 1));
    } else if n == dirs.len() {
        assert(dirs.take(n) =~= dirs);
        assert(path_from(origin, dirs).take(n + 1) =~= path_from(origin, dirs));
    } else {
        lemma_path_from_take(origin, dirs.drop_last(), n);
        lemma_path_in_box(origin, dirs.drop_last());
        assert(dirs.drop_last().take(n) =~= dirs.take(n));
        assert(path_from(origin, dirs.drop_last()).take(n + 1) =~= path_from(origin, dirs).take(
            n + 1,
        ));
    }
}

/// An ordered, non-empty sequence of positions; the first entry is the
/// path's origin (never removed), the last is its current endpoint.
#[derive(Debug)]
pub struct PosPath {
    stack: Vec<Pos>,
}

impl View for PosPath {
    type V = Seq<Pos>;

    closed spec fn view(&self) -> Seq<Pos> {
        self.stack@
    }
}

impl Clone for PosPath {
    fn clone(&self) -> (r: Self)
        ensures
            r@ == self@,
    {
        let mut v: Vec<Pos> = Vec::new();
        let mut i: usize = 0;
        while i < self.stack.len()
            invariant
                i <= self.stack.len(),
                v@ == self.stack@.take(i as int),
            decreases self.stack.len() - i,
        {
            v.push(self.stack[i]);
            proof {
                assert(self.stack@.take(i + 1) =~= self.stack@.take(i as int).push(
                    self.stack@[i as int],
                ));
            }
            i = i + 1;
        }
        proof {
            assert(self.stack@.take(self.stack@.len() as int) =~= self.stack@);
        }
        PosPath { stack: v }
    }
}

impl PosPath {
    /// A path is well formed when it still holds its origin.
    pub open spec fn wf(&self) -> bool {
        self@.len() >= 1
    }

    pub fn new(origin: Pos) -> (r: PosPath)
        ensures
            r@ == seq![origin],
            r.wf(),
    {
        let mut stack: Vec<Pos> = Vec::new();
        stack.push(origin);
        proof {
            assert(stack@ =~= seq![origin]);
        }
        PosPath { stack }
    }

    pub fn stack(&self) -> (r: &[Pos])
        ensures
            r@ == self@,
    {
        self.stack.as_slice()
    }

    pub fn from(&self) -> (r: Pos)
        requires
            self.wf(),
        ensures
            r == self@[0],
    {
        self.stack[0]
    }

    pub fn to(&self) -> (r: Pos)
        requires
            self.wf(),
        ensures
            r == self@.last(),
    {
        self.stack[self.stack.len() - 1]
    }

    /// Returns the position before the last in the path.
    pub fn before_last(&self) -> (r: Option<Pos>)
        ensures
            r == if self@.len() > 1 {
                Some(self@[self@.len() - 2])
            } else {
                None::<Pos>
            },
    {
        if self.stack.len() > 1 {
            Some(self.stack[self.stack.len() - 2])
        } else {
            None
        }
    }

    /// The number of steps: the origin does not count, we are already
    /// there.
    pub fn steps(&self) -> (r: usize)
        requires
            self.wf(),
        ensures
            r == self@.len() - 1,
    {
        self.stack.len() - 1
    }

    pub fn push(&mut self, pos: Pos)
        ensures
            final(self)@ == old(self)@.push(pos),
    {
        self.stack.push(pos);
    }

    pub fn go(&mut self, towards: Direction)
        requires
            old(self).wf(),
            box_fits(old(self)@.last(), 1),
        ensures
            final(self)@ == old(self)@.push(spec_neighbor(old(self)@.last(), towards)),
    {
        let pos = self.to().neighbor(towards);
        self.push(pos);
    }

    /// Removes and returns the last position, unless only the origin is
    /// left: the origin is never popped.
    pub fn pop(&mut self) -> (r: Option<Pos>)
        ensures
            if old(self)@.len() > 1 {
                final(self)@ == old(self)@.drop_last() && r == Some(old(self)@.last())
            } else {
                final(self)@ == old(self)@ && r is None
            },
    {
        if self.stack.len() > 1 {
            self.stack.pop()
        } else {
            None
        }
    }
}

/// The successor of a direction in the fixed enumeration order, if any.
pub open spec fn spec_dir_succ(d: Direction) -> Option<Direction> {
    match d {
        Direction::North => Some(Direction::NorthEast),
        Direction::NorthEast => Some(Direction::SouthEast),
        Direction::SouthEast => Some(Direction::South),
        Direction::South => Some(Direction::SouthWest),
        Direction::SouthWest => Some(Direction::NorthWest),
        Direction::NorthWest => None,
    }
}

/// DFS backtracking on a direction string: bump the last direction to its
/// successor, popping while the last direction has none. `None` when the
/// whole string is exhausted.
pub open spec fn spec_bump(s: Seq<Direction>) -> Option<Seq<Direction>>
    decreases s.len(),
{
    if s.len() == 0 {
        None
    } else {
        match spec_dir_succ(s.last()) {
            Some(d) => Some(s.drop_last().push(d)),
            None => spec_bump(s.drop_last()),
        }
    }
}

/// One advance of the enumerator from a direction string: descend to the
/// first child while allowed, otherwise backtrack.
pub open spec fn walker_step(s: Seq<Direction>, backing_off: bool, depth: nat) -> Option<
    Seq<Direction>,
> {
    if depth == 0 {
        None
    } else if !backing_off && s.len() < depth {
        Some(s.push(Direction::North))
    } else {
        spec_bump(s)
    }
}

/// Exhaustively generates every path rooted at an origin up to a maximum
/// step count, in deterministic depth-first pre-order, with a pruning hook
/// (`backoff`).
pub struct PathWalker {
    origin: Pos,
    max_depth: usize,
    backing_off: bool,
    current_path: Vec<Direction>,
}

impl PathWalker {
    pub closed spec fn spec_origin(&self) -> Pos {
        self.origin
    }

    pub closed spec fn spec_max_depth(&self) -> nat {
        self.max_depth as nat
    }

    pub closed spec fn dirs(&self) -> Seq<Direction> {
        self.current_path@
    }

    pub closed spec fn is_backing_off(&self) -> bool {
        self.backing_off
    }

    pub open spec fn wf(&self) -> bool {
        &&& self.dirs().len() <= self.spec_max_depth()
        &&& box_fits(self.spec_origin(), self.spec_max_depth() as int)
    }

    pub fn new(origin: Pos, max_depth: usize) -> (r: PathWalker)
        requires
            box_fits(origin, max_depth as int),
        ensures
            r.wf(),
            r.spec_origin() == origin,
            r.spec_max_depth() == max_depth as nat,
            r.dirs() == Seq::<Direction>::empty(),
            !r.is_backing_off(),
    {
        let r = PathWalker { origin, max_depth, backing_off: false, current_path: Vec::new() };
        proof {
            assert(r.dirs() =~= Seq::<Direction>::empty());
        }
        r
    }

    fn nextdir(dir: Direction) -> (r: Option<Direction>)
        ensures
            r == spec_dir_succ(dir),
    {
        match dir {
            Direction::North => Some(Direction::NorthEast),
            Direction::NorthEast => Some(Direction::SouthEast),
            Direction::SouthEast => Some(Direction::South),
            Direction::South => Some(Direction::SouthWest),
            Direction::SouthWest => Some(Direction::NorthWest),
            Direction::NorthWest => None,
        }
    }

    /// The path walked from the origin along the current direction string.
    pub fn get_current_path(&self) -> (r: PosPath)
        requires
            self.wf(),
        ensures
            r@ == path_from(self.spec_origin(), self.dirs()),
            r.wf(),
    {
        let mut result = PosPath::new(self.origin);
        let mut i: usize = 0;
        proof {
            assert(self.dirs().take(0) =~= Seq::<Direction>::empty());
        }
        while i < self.current_path.len()
            invariant
                self.wf(),
                i <= self.current_path.len(),
                result@ == path_from(self.spec_origin(), self.dirs().take(i as int)),
                result.wf(),
            decreases self.current_path.len() - i,
        {
            proof {
                lemma_path_in_box(self.spec_origin(), self.dirs().take(i as int));
                assert(in_box(result@.last(), self.spec_origin(), i as int));
            }
            result.go(self.current_path[i]);
            proof {
                let t1 = self.dirs().take(i + 1);
                assert(t1.drop_last() =~= self.dirs().take(i as int));
                assert(t1.last() == self.dirs()[i as int]);
            }
            i = i + 1;
        }
        proof {
            assert(self.dirs().take(self.dirs().len() as int) =~= self.dirs());
        }
        result
    }

    fn tick(&mut self) -> (r: Option<PosPath>)
        requires
            old(self).wf(),
        ensures
            final(self).wf(),
            final(self).spec_origin() == old(self).spec_origin(),
            final(self).spec_max_depth() == old(self).spec_max_depth(),
            final(self).is_backing_off() == old(self).is_backing_off(),
            old(self).dirs().len() == 0 ==> r is None && final(self).dirs() == old(self).dirs(),
            old(self).dirs().len() > 0 ==> match spec_dir_succ(old(self).dirs().last()) {
                Some(d) => {
                    &&& final(self).dirs() == old(self).dirs().drop_last().push(d)
                    &&& r matches Some(p) && p@ == path_from(
                        final(self).spec_origin(),
                        final(self).dirs(),
                    )
                },
                None => r is None && final(self).dirs() == old(self).dirs(),
            },
    {
        if self.current_path.len() == 0 {
            return None;
        }
        let current = self.current_path[self.current_path.len() - 1];
        match Self::nextdir(current) {
            Some(d) => {
                let idx = self.current_path.len() - 1;
                self.current_path.set(idx, d);
                proof {
                    assert(self.current_path@ =~= old(self).dirs().drop_last().push(d));
                }
                Some(self.get_current_path())
            }
            None => None,
        }
    }

    /// Returns the next path in the traversal, or `None` when none remain.
    ///
    /// Traversal is equivalent to incrementing a base-6 odometer of length
    /// at most `max_depth`: extend with the first direction while not
    /// pruning and depth budget remains; otherwise increment the last
    /// direction, backtracking to the parent when none exists.
    pub fn next(&mut self) -> (r: Option<PosPath>)
        requires
            old(self).wf(),
        ensures
            final(self).wf(),
            final(self).spec_origin() == old(self).spec_origin(),
            final(self).spec_max_depth() == old(self).spec_max_depth(),
            match walker_step(
                old(self).dirs(),
                old(self).is_backing_off(),
                old(self).spec_max_depth(),
            ) {
                Some(t) => {
                    &&& final(self).dirs() == t
                    &&& !final(self).is_backing_off()
                    &&& r matches Some(p) && p@ == path_from(final(self).spec_origin(), t)
                },
                None => {
                    &&& r is None
                    &&& if old(self).spec_max_depth() == 0 {
                        final(self).dirs() == old(self).dirs() && final(self).is_backing_off()
                            == old(self).is_backing_off()
                    } else {
                        final(self).dirs().len() == 0 && !final(self).is_backing_off()
                    }
                },
            },
        decreases old(self).dirs().len(),
    {
        if self.max_depth == 0 {
            None
        } else if !self.backing_off && self.current_path.len() < self.max_depth {
            self.current_path.push(Direction::North);
            Some(self.get_current_path())
        } else {
            self.backing_off = false;
            if self.current_path.len() == 0 {
                None
            } else {
                match self.tick() {
                    Some(p) => Some(p),
                    None => {
                        self.backoff();
                        let _ = self.current_path.pop();
                        proof {
                            assert(self.current_path@ =~= old(self).dirs().drop_last());
                        }
                        self.next()
                    }
                }
            }
        }
    }

    /// Instructs the enumerator not to descend below the node most
    /// recently returned by `next`; traversal continues with its siblings.
    pub fn backoff(&mut self)
        ensures
            final(self).wf() == old(self).wf(),
            final(self).spec_origin() == old(self).spec_origin(),
            final(self).spec_max_depth() == old(self).spec_max_depth(),
            final(self).dirs() == old(self).dirs(),
            final(self).is_backing_off(),
    {
        self.backing_off = true;
    }
}

} // verus!

verus! {

/// `"x,y,z"` in decimal: the display form of a cube position.
pub open spec fn spec_pos_fmt(x: int, y: int, z: int) -> Seq<char> {
    crate::numfmt::int_dec(x) + ","@ + crate::numfmt::int_dec(y) + ","@ + crate::numfmt::int_dec(
        z,
    )
}

/// `"a,b"` in decimal: the display form of a position pair.
pub open spec fn spec_pair_fmt(a: int, b: int) -> Seq<char> {
    crate::numfmt::int_dec(a) + ","@ + crate::numfmt::int_dec(b)
}

impl Pos {
    /// The position as the text `"x,y,z"`.
    pub fn fmt(&self) -> (r: String)
        ensures
            r@ == spec_pos_fmt(self.x as int, self.y as int, self.z as int),
    {
        let mut s = crate::numfmt::i64_to_string(self.x as i64);
        s.append(",");
        s.append(crate::numfmt::i64_to_string(self.y as i64).as_str());
        s.append(",");
        s.append(crate::numfmt::i64_to_string(self.z as i64).as_str());
        s
    }
}

impl AxialPos {
    /// The position as the text `"q,r"`.
    pub fn fmt(&self) -> (res: String)
        ensures
            res@ == spec_pair_fmt(self.q as int, self.r as int),
    {
        let mut s = crate::numfmt::i64_to_string(self.q as i64);
        s.append(",");
        s.append(crate::numfmt::i64_to_string(self.r as i64).as_str());
        s
    }
}

impl OffsetPos {
    /// The position as the text `"x,y"`.
    pub fn fmt(&self) -> (r: String)
        ensures
            r@ == spec_pair_fmt(self.x as int, self.y as int),
    {
        let mut s = crate::numfmt::i64_to_string(self.x as i64);
        s.append(",");
        s.append(crate::numfmt::i64_to_string(self.y as i64).as_str());
        s
    }
}

} // verus!

verus! {

/// Inside a representable box, the six neighbors of a position are
/// pairwise distinct, so a step's direction can be read back off the two
/// positions.
pub proof fn lemma_neighbor_injective(p: Pos, d1: Direction, d2: Direction)
    requires
        box_fits(p, 1),
        in_box(p, p, 0),
        spec_neighbor(p, d1) == spec_neighbor(p, d2),
    ensures
        d1 == d2,
{
    assert(p.x + dir_dx(d1) == p.x + dir_dx(d2));
    assert(p.y + dir_dy(d1) == p.y + dir_dy(d2));
    match d1 {
        Direction::North => {}
        Direction::NorthEast => {}
        Direction::SouthEast => {}
        Direction::South => {}
        Direction::SouthWest => {}
        Direction::NorthWest => {}
    }
    match d2 {
        Direction::North => {}
        Direction::NorthEast => {}
        Direction::SouthEast => {}
        Direction::South => {}
        Direction::SouthWest => {}
        Direction::NorthWest => {}
    }
}

/// Within a representable box around the origin, distinct direction
/// strings walk distinct position sequences: a path determines its
/// directions.
pub proof fn lemma_paths_determine_directions(origin: Pos, a: Seq<Direction>, b: Seq<Direction>)
    requires
        box_fits(origin, a.len() as int),
        box_fits(origin, b.len() as int),
        path_from(origin, a) == path_from(origin, b),
    ensures
        a == b,
    decreases a.len(),
{
    lemma_path_in_box(origin, a);
    lemma_path_in_box(origin, b);
    if a.len() == 0 {
        assert(a =~= b);
    } else {
        let pa = path_from(origin, a);
        let pb = path_from(origin, b);
        lemma_path_in_box(origin, a.drop_last());
        lemma_path_in_box(origin, b.drop_last());
        assert(pa.drop_last() =~= path_from(origin, a.drop_last()));
        assert(pb.drop_last() =~= path_from(origin, b.drop_last()));
        assert(path_from(origin, a.drop_last()) =~= path_from(origin, b.drop_last()));
        lemma_paths_determine_directions(origin, a.drop_last(), b.drop_last());
        let prev = path_from(origin, a.drop_last()).last();
        assert(in_box(prev, origin, a.len() - 1));
        assert(pa.last() == spec_neighbor(path_from(origin, a.drop_last()).last(), a.last()));
        assert(pb.last() == spec_neighbor(path_from(origin, b.drop_last()).last(), b.last()));
        assert(spec_neighbor(prev, a.last()) == spec_neighbor(prev, b.last()));
        lemma_neighbor_injective(prev, a.last(), b.last());
        assert(a =~= a.drop_last().push(a.last()));
        assert(b =~= b.drop_last().push(b.last()));
    }
}

} // verus!
