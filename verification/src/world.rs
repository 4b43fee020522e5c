//! The unbounded variant of the engine.
//!
//! Cells live on the whole plane of signed integer pairs. Neighbour
//! coordinates are computed with wrapping addition, so stepping a pattern at
//! the very edge of the representable range wraps around instead of failing;
//! this is a numeric-range accommodation, not a toroidal topology.

use vstd::prelude::*;

verus! {

/// One coordinate component.
pub type Num = isize;

/// A cell position: an ordered pair of signed integers.
pub type Coord = (Num, Num);

/// Wrapping addition of a small delta `d` (at most one in magnitude) to a
/// coordinate component, as `isize::wrapping_add` computes it.
pub open spec fn wadd1(a: Num, d: int) -> Num
    recommends
        -1 <= d <= 1,
{
    if a + d > isize::MAX {
        isize::MIN
    } else if a + d < isize::MIN {
        isize::MAX
    } else {
        (a + d) as Num
    }
}

/// The neighbour of `c` at offset `(dx, dy)`, with wrapping arithmetic.
pub open spec fn nbr(c: Coord, dx: int, dy: int) -> Coord
    recommends
        -1 <= dx <= 1,
        -1 <= dy <= 1,
{
    (wadd1(c.0, dx), wadd1(c.1, dy))
}

/// One if `c` is live in `s`, zero otherwise.
pub open spec fn occ(s: Set<Coord>, c: Coord) -> int {
    if s.contains(c) {
        1
    } else {
        0
    }
}

/// How many of the eight neighbours of `c` are live in `s`.
pub open spec fn live_neighbours(s: Set<Coord>, c: Coord) -> int {
    occ(s, nbr(c, -1, -1)) + occ(s, nbr(c, 0, -1)) + occ(s, nbr(c, 1, -1)) + occ(
        s,
        nbr(c, -1, 0),
    ) + occ(s, nbr(c, 1, 0)) + occ(s, nbr(c, -1, 1)) + occ(s, nbr(c, 0, 1)) + occ(s, nbr(c, 1, 1))
}

/// The standard rule: a cell is live in the next generation exactly when it
/// has three live neighbours, or it is live now and has two.
pub open spec fn next_alive(s: Set<Coord>, c: Coord) -> bool {
    live_neighbours(s, c) == 3 || (s.contains(c) && live_neighbours(s, c) == 2)
}

/// Strict lexicographic order on cell positions: the canonical iteration
/// order of the live-cell set.
pub open spec fn cell_lt(a: Coord, b: Coord) -> bool {
    a.0 < b.0 || (a.0 == b.0 && a.1 < b.1)
}

/// A sequence of cells in strictly ascending canonical order; such a
/// sequence holds no duplicates.
pub open spec fn strictly_sorted(s: Seq<Coord>) -> bool {
    forall|i: int, j: int| 0 <= i < j < s.len() ==> cell_lt(s[i], s[j])
}

/// Whether `c` lies in the three-by-three block centred on `l`, computed
/// with the same wrapping arithmetic as the neighbourhood itself.
pub open spec fn in_block(l: Coord, c: Coord) -> bool {
    c == nbr(l, -1, -1) || c == nbr(l, 0, -1) || c == nbr(l, 1, -1) || c == nbr(l, -1, 0) || c
        == nbr(l, 0, 0) || c == nbr(l, 1, 0) || c == nbr(l, -1, 1) || c == nbr(l, 0, 1) || c
        == nbr(l, 1, 1)
}

/// The cells the stepping loop has gathered after visiting the live cells
/// in `pre`: survivors found so far, and births in the blocks around them.
spec fn step_covered(s: Set<Coord>, pre: Seq<Coord>, c: Coord) -> bool {
    (pre.contains(c) && live_neighbours(s, c) == 2) || (exists|k: int|
        0 <= k < pre.len() && #[trigger] in_block(pre[k], c) && live_neighbours(s, c) == 3)
}

/// Adding a delta of at most one and then subtracting it again returns to
/// the starting component, also across the wrapping boundary.
pub proof fn lemma_wadd1_inverse(a: Num)
    ensures
        forall|d: int| -1 <= d <= 1 ==> #[trigger] wadd1(wadd1(a, d), -d) == a,
{
}

/// A cell with a live neighbour lies in the three-by-three block of some
/// live cell.
proof fn lemma_birth_witness(s: Set<Coord>, c: Coord)
    requires
        live_neighbours(s, c) >= 1,
    ensures
        exists|l: Coord| s.contains(l) && in_block(l, c),
{
    lemma_wadd1_inverse(c.0);
    lemma_wadd1_inverse(c.1);
    if s.contains(nbr(c, -1, -1)) {
        let l = nbr(c, -1, -1);
        assert(c == nbr(l, 1, 1));
        assert(s.contains(l) && in_block(l, c));
    } else if s.contains(nbr(c, 0, -1)) {
        let l = nbr(c, 0, -1);
        assert(c == nbr(l, 0, 1));
        assert(s.contains(l) && in_block(l, c));
    } else if s.contains(nbr(c, 1, -1)) {
        let l = nbr(c, 1, -1);
        assert(c == nbr(l, -1, 1));
        assert(s.contains(l) && in_block(l, c));
    } else if s.contains(nbr(c, -1, 0)) {
        let l = nbr(c, -1, 0);
        assert(c == nbr(l, 1, 0));
        assert(s.contains(l) && in_block(l, c));
    } else if s.contains(nbr(c, 1, 0)) {
        let l = nbr(c, 1, 0);
        assert(c == nbr(l, -1, 0));
        assert(s.contains(l) && in_block(l, c));
    } else if s.contains(nbr(c, -1, 1)) {
        let l = nbr(c, -1, 1);
        assert(c == nbr(l, 1, -1));
        assert(s.contains(l) && in_block(l, c));
    } else if s.contains(nbr(c, 0, 1)) {
        let l = nbr(c, 0, 1);
        assert(c == nbr(l, 0, -1));
        assert(s.contains(l) && in_block(l, c));
    } else if s.contains(nbr(c, 1, 1)) {
        let l = nbr(c, 1, 1);
        assert(c == nbr(l, -1, -1));
        assert(s.contains(l) && in_block(l, c));
    } else {
        assert(false);
    }
}

/// Adding two distinct deltas of at most one to the same component gives
/// two distinct results, also across the wrapping boundary.
pub proof fn lemma_wadd1_injective(a: Num)
    ensures
        forall|d1: int, d2: int|
            #![trigger wadd1(a, d1), wadd1(a, d2)]
            -1 <= d1 <= 1 && -1 <= d2 <= 1 && wadd1(a, d1) == wadd1(a, d2) ==> d1 == d2,
{
}

/// A single live cell with no live neighbours dies after one generation,
/// and nothing is born: no cell at all is live in the next generation.
pub proof fn lemma_lone_cell_dies(s: Set<Coord>, c: Coord)
    requires
        forall|d: Coord| s.contains(d) <==> d == c,
    ensures
        forall|d: Coord| !next_alive(s, d),
{
    assert forall|d: Coord| !next_alive(s, d) by {
        lemma_wadd1_injective(d.0);
        lemma_wadd1_injective(d.1);
        assert(live_neighbours(s, d) <= 1);
    }
}

/// A two-by-two block of live cells is a fixed point of the stepping rule:
/// exactly its own four cells are live in the next generation.
pub proof fn lemma_block_stable(s: Set<Coord>, x: Num, y: Num)
    requires
        isize::MIN < x < isize::MAX,
        isize::MIN < y < isize::MAX,
        forall|d: Coord|
            s.contains(d) <==> (d == (x, y) || d == ((x + 1) as Num, y) || d == (
                x,
                (y + 1) as Num,
            ) || d == ((x + 1) as Num, (y + 1) as Num)),
    ensures
        forall|d: Coord| next_alive(s, d) <==> s.contains(d),
{
    assert forall|d: Coord| next_alive(s, d) <==> s.contains(d) by {
        lemma_wadd1_injective(d.0);
        lemma_wadd1_injective(d.1);
        if s.contains(d) {
            assert(live_neighbours(s, d) == 3);
        } else {
            assert(live_neighbours(s, d) != 3);
        }
    }
}

/// The neighbourhood of a cell is exact: the eight neighbour positions are
/// pairwise distinct, and none of them is the cell itself.
pub proof fn lemma_neighbourhood_exact(c: Coord)
    ensures
        forall|dx: int, dy: int|
            -1 <= dx <= 1 && -1 <= dy <= 1 && !(dx == 0 && dy == 0) ==> #[trigger] nbr(c, dx, dy)
                != c,
        forall|dx1: int, dy1: int, dx2: int, dy2: int|
            #![trigger nbr(c, dx1, dy1), nbr(c, dx2, dy2)]
            -1 <= dx1 <= 1 && -1 <= dy1 <= 1 && -1 <= dx2 <= 1 && -1 <= dy2 <= 1 && (dx1 != dx2
                || dy1 != dy2) ==> nbr(c, dx1, dy1) != nbr(c, dx2, dy2),
{
    lemma_wadd1_injective(c.0);
    lemma_wadd1_injective(c.1);
    assert(wadd1(c.0, 0) == c.0);
    assert(wadd1(c.1, 0) == c.1);
}

/// The set of currently live cells of an unbounded board.
pub struct World {
    cells: Vec<Coord>,
}

impl View for World {
    type V = Set<Coord>;

    /// A `World` denotes the set of its live cells.
    closed spec fn view(&self) -> Set<Coord> {
        Set::new(|c: Coord| self.cells@.contains(c))
    }
}

impl World {
    /// The live cells in ascending canonical order.
    pub closed spec fn ordered(self) -> Seq<Coord> {
        self.cells@
    }

    /// Well-formedness: the cell vector is strictly ascending, which makes
    /// it a duplicate-free canonical listing of the live-cell set.
    pub closed spec fn wf(self) -> bool {
        strictly_sorted(self.cells@)
    }

    /// An empty board.
    pub fn new() -> (w: World)
        ensures
            w.wf(),
            w@ == Set::<Coord>::empty(),
            w.ordered() == Seq::<Coord>::empty(),
    {
        let w = World { cells: Vec::new() };
        proof {
            assert(w@ =~= Set::<Coord>::empty());
        }
        w
    }

    /// Clears all live cells.
    pub fn reset(&mut self)
        ensures
            final(self).wf(),
            final(self)@ == Set::<Coord>::empty(),
    {
        self.cells.clear();
        proof {
            assert(self@ =~= Set::<Coord>::empty());
        }
    }

    /// Whether the cell `(x, y)` is currently live.
    pub fn is_set(&self, x: Num, y: Num) -> (r: bool)
        ensures
            r == self@.contains((x, y)),
    {
        let n = self.cells.len();
        let mut i: usize = 0;
        while i < n
            invariant
                i <= n,
                n == self.cells.len(),
                forall|j: int| 0 <= j < i ==> self.cells@[j] != (x, y),
            decreases n - i,
        {
            let c = self.cells[i];
            if c.0 == x && c.1 == y {
                return true;
            }
            i = i + 1;
        }
        false
    }

    /// Marks the cell `(x, y)` live; a no-op if it already is.
    pub fn set(&mut self, x: Num, y: Num)
        requires
            old(self).wf(),
        ensures
            final(self).wf(),
            final(self)@ == old(self)@.insert((x, y)),
    {
        insert_cell(&mut self.cells, x, y);
        proof {
            assert(self@ =~= old(self)@.insert((x, y)));
        }
    }

    /// Marks the cell `(x, y)` dead; a no-op if it already is.
    pub fn unset(&mut self, x: Num, y: Num)
        requires
            old(self).wf(),
        ensures
            final(self).wf(),
            final(self)@ == old(self)@.remove((x, y)),
    {
        let i = find_lower(&self.cells, x, y);
        if i < self.cells.len() {
            let c = self.cells[i];
            if c.0 == x && c.1 == y {
                let ghost ov = self.cells@;
                self.cells.remove(i);
                proof {
                    ov.remove_ensures(i as int);
                    let nv = self.cells@;
                    assert forall|c: Coord| nv.contains(c) implies ov.contains(c) && c != (
                    x,
                    y,
                    ) by {
                        let k = choose|k: int| 0 <= k < nv.len() && nv[k] == c;
                        if k < i {
                            assert(ov[k] == c);
                            assert(cell_lt(ov[k], (x, y)));
                        } else {
                            assert(ov[k + 1] == c);
                            assert(cell_lt(ov[i as int], ov[k + 1]));
                        }
                    }
                    assert forall|c: Coord| ov.contains(c) && c != (x, y) implies nv.contains(
                        c,
                    ) by {
                        let k = choose|k: int| 0 <= k < ov.len() && ov[k] == c;
                        if k < i {
                            assert(nv[k] == c);
                        } else if k > i {
                            assert(nv[k - 1] == c);
                        }
                    }
                    assert forall|p: int, q: int| 0 <= p < q < nv.len() implies cell_lt(
                        nv[p],
                        nv[q],
                    ) by {
                        if q < i {
                            assert(nv[p] == ov[p] && nv[q] == ov[q]);
                        } else if p < i {
                            assert(nv[p] == ov[p] && nv[q] == ov[q + 1]);
                        } else {
                            assert(nv[p] == ov[p + 1] && nv[q] == ov[q + 1]);
                        }
                    }
                    assert(self@ =~= old(self)@.remove((x, y)));
                }
                return ;
            }
        }
        proof {
            assert(!self.cells@.contains((x, y))) by {
                if self.cells@.contains((x, y)) {
                    let k = choose|k: int|
                        0 <= k < self.cells@.len() && self.cells@[k] == (x, y);
                    if k < i {
                        assert(cell_lt(self.cells@[k], (x, y)));
                    } else if k > i {
                        assert(cell_lt(self.cells@[i as int], self.cells@[k]));
                    }
                }
            }
            assert(self@ =~= old(self)@.remove((x, y)));
        }
    }

    /// How many of the eight neighbours of `c` are currently live.
    pub fn count_neighbours(&self, c: Coord) -> (r: usize)
        ensures
            r == live_neighbours(self@, c),
    {
        let mut r: usize = 0;
        if self.is_set(wadd(c.0, -1), wadd(c.1, -1)) {
            r = r + 1;
        }
        if self.is_set(wadd(c.0, 0), wadd(c.1, -1)) {
            r = r + 1;
        }
        if self.is_set(wadd(c.0, 1), wadd(c.1, -1)) {
            r = r + 1;
        }
        if self.is_set(wadd(c.0, -1), wadd(c.1, 0)) {
            r = r + 1;
        }
        if self.is_set(wadd(c.0, 1), wadd(c.1, 0)) {
            r = r + 1;
        }
        if self.is_set(wadd(c.0, -1), wadd(c.1, 1)) {
            r = r + 1;
        }
        if self.is_set(wadd(c.0, 0), wadd(c.1, 1)) {
            r = r + 1;
        }
        if self.is_set(wadd(c.0, 1), wadd(c.1, 1)) {
            r = r + 1;
        }
        r
    }

    /// Advances the board by exactly one generation of the standard rule,
    /// computed entirely from the current generation.
    pub fn step(&mut self)
        requires
            old(self).wf(),
        ensures
            final(self).wf(),
            forall|c: Coord| final(self)@.contains(c) <==> next_alive(old(self)@, c),
    {
        let ghost s = self@;
        let mut nxt: Vec<Coord> = Vec::new();
        let n = self.cells.len();
        let mut i: usize = 0;
        while i < n
            invariant
                i <= n,
                self.wf(),
                self == old(self),
                n == self.cells.len(),
                s == self@,
                strictly_sorted(nxt@),
                forall|c: Coord|
                    nxt@.contains(c) <==> step_covered(s, self.cells@.take(i as int), c),
            decreases n - i,
        {
            let cur = self.cells[i];
            let ghost base = nxt@;
            if self.count_neighbours(cur) == 2 {
                insert_cell(&mut nxt, cur.0, cur.1);
            }
            let ghost mid = nxt@;
            nxt = self.birth_block(nxt, cur);
            proof {
                assert forall|c: Coord|
                    nxt@.contains(c) <==> (base.contains(c) || (c == cur && live_neighbours(
                        s,
                        c,
                    ) == 2) || (in_block(cur, c) && live_neighbours(s, c) == 3)) by {
                    assert(mid.contains(c) <==> base.contains(c) || (c == cur
                        && live_neighbours(s, c) == 2));
                    assert(nxt@.contains(c) <==> mid.contains(c) || (in_block(cur, c)
                        && live_neighbours(s, c) == 3));
                }
                let pre = self.cells@.take(i as int);
                let now = self.cells@.take(i + 1);
                assert(now =~= pre.push(cur));
                assert forall|c: Coord| nxt@.contains(c) implies step_covered(s, now, c) by {
                    if pre.contains(c) {
                        let k = choose|k: int| 0 <= k < pre.len() && pre[k] == c;
                        assert(now[k] == c);
                    }
                    if exists|k: int|
                        0 <= k < pre.len() && in_block(pre[k], c) && live_neighbours(s, c) == 3 {
                        let k = choose|k: int|
                            0 <= k < pre.len() && in_block(pre[k], c) && live_neighbours(s, c)
                                == 3;
                        assert(in_block(now[k], c));
                    }
                    if c == cur && live_neighbours(s, c) == 2 {
                        assert(now[i as int] == c);
                    }
                    if in_block(cur, c) && live_neighbours(s, c) == 3 {
                        assert(in_block(now[i as int], c));
                    }
                }
                assert forall|c: Coord| step_covered(s, now, c) implies nxt@.contains(c) by {
                    if now.contains(c) && live_neighbours(s, c) == 2 {
                        let k = choose|k: int| 0 <= k < now.len() && now[k] == c;
                        if k < i {
                            assert(pre[k] == c);
                        } else {
                            assert(c == cur);
                        }
                    }
                    if exists|k: int|
                        0 <= k < now.len() && in_block(now[k], c) && live_neighbours(s, c) == 3 {
                        let k = choose|k: int|
                            0 <= k < now.len() && in_block(now[k], c) && live_neighbours(s, c)
                                == 3;
                        if k < i {
                            assert(in_block(pre[k], c));
                        } else {
                            assert(in_block(cur, c));
                        }
                    }
                }
            }
            i = i + 1;
        }
        proof {
            assert(self.cells@.take(n as int) =~= self.cells@);
        }
        self.cells = nxt;
        proof {
            let full = old(self).cells@;
            assert forall|c: Coord| self@.contains(c) implies next_alive(s, c) by {
                assert(step_covered(s, full, c));
            }
            assert forall|c: Coord| next_alive(s, c) implies self@.contains(c) by {
                if live_neighbours(s, c) == 3 {
                    lemma_birth_witness(s, c);
                    let l = choose|l: Coord| s.contains(l) && in_block(l, c);
                    let k = choose|k: int| 0 <= k < full.len() && full[k] == l;
                    assert(in_block(full[k], c));
                    assert(step_covered(s, full, c));
                } else {
                    assert(full.contains(c));
                    assert(step_covered(s, full, c));
                }
            }
        }
    }

    /// Extends the next generation being built with every cell of the
    /// three-by-three block around `cur` that has exactly three live
    /// neighbours on the current board.
    fn birth_block(&self, nxt: Vec<Coord>, cur: Coord) -> (r: Vec<Coord>)
        requires
            strictly_sorted(nxt@),
        ensures
            strictly_sorted(r@),
            forall|c: Coord|
                #![trigger r@.contains(c)]
                #![trigger nxt@.contains(c)]
                r@.contains(c) <==> nxt@.contains(c) || (in_block(cur, c) && live_neighbours(
                    self@,
                    c,
                ) == 3),
    {
        let mut v = nxt;
        let ghost g0 = v@;
        self.try_birth(&mut v, wadd(cur.0, -1), wadd(cur.1, -1));
        let ghost g1 = v@;
        self.try_birth(&mut v, wadd(cur.0, 0), wadd(cur.1, -1));
        let ghost g2 = v@;
        self.try_birth(&mut v, wadd(cur.0, 1), wadd(cur.1, -1));
        let ghost g3 = v@;
        self.try_birth(&mut v, wadd(cur.0, -1), wadd(cur.1, 0));
        let ghost g4 = v@;
        self.try_birth(&mut v, wadd(cur.0, 0), wadd(cur.1, 0));
        let ghost g5 = v@;
        self.try_birth(&mut v, wadd(cur.0, 1), wadd(cur.1, 0));
        let ghost g6 = v@;
        self.try_birth(&mut v, wadd(cur.0, -1), wadd(cur.1, 1));
        let ghost g7 = v@;
        self.try_birth(&mut v, wadd(cur.0, 0), wadd(cur.1, 1));
        let ghost g8 = v@;
        self.try_birth(&mut v, wadd(cur.0, 1), wadd(cur.1, 1));
        proof {
            assert forall|c: Coord|
                v@.contains(c) <==> (g0.contains(c) || (in_block(cur, c) && live_neighbours(
                    self@,
                    c,
                ) == 3)) by {
                let born = live_neighbours(self@, c) == 3;
                assert(g1.contains(c) <==> g0.contains(c) || (c == nbr(cur, -1, -1) && born));
                assert(g2.contains(c) <==> g1.contains(c) || (c == nbr(cur, 0, -1) && born));
                assert(g3.contains(c) <==> g2.contains(c) || (c == nbr(cur, 1, -1) && born));
                assert(g4.contains(c) <==> g3.contains(c) || (c == nbr(cur, -1, 0) && born));
                assert(g5.contains(c) <==> g4.contains(c) || (c == nbr(cur, 0, 0) && born));
                assert(g6.contains(c) <==> g5.contains(c) || (c == nbr(cur, 1, 0) && born));
                assert(g7.contains(c) <==> g6.contains(c) || (c == nbr(cur, -1, 1) && born));
                assert(g8.contains(c) <==> g7.contains(c) || (c == nbr(cur, 0, 1) && born));
                assert(v@.contains(c) <==> g8.contains(c) || (c == nbr(cur, 1, 1) && born));
            }
        }
        v
    }

    /// Adds `(x, y)` to the next generation being built when it has exactly
    /// three live neighbours on the current board.
    fn try_birth(&self, nxt: &mut Vec<Coord>, x: Num, y: Num)
        requires
            strictly_sorted(old(nxt)@),
        ensures
            strictly_sorted(final(nxt)@),
            forall|c: Coord|
                final(nxt)@.contains(c) <==> old(nxt)@.contains(c) || (c == (x, y)
                    && live_neighbours(self@, c) == 3),
    {
        if self.count_neighbours((x, y)) == 3 {
            insert_cell(nxt, x, y);
        }
    }

    /// The live cells, in ascending canonical order.
    pub fn live_cells(&self) -> (r: Vec<Coord>)
        ensures
            r@ == self.ordered(),
    {
        let n = self.cells.len();
        let mut r: Vec<Coord> = Vec::new();
        let mut i: usize = 0;
        while i < n
            invariant
                i <= n,
                n == self.cells.len(),
                r@ == self.cells@.take(i as int),
            decreases n - i,
        {
            r.push(self.cells[i]);
            proof {
                assert(r@ =~= self.cells@.take(i + 1));
            }
            i = i + 1;
        }
        proof {
            assert(self.cells@.take(n as int) =~= self.cells@);
        }
        r
    }
}

impl Default for World {
    /// An empty board, as `World::new` gives one.
    fn default() -> (w: World)
        ensures
            w.wf(),
            w@ == Set::<Coord>::empty(),
            w.ordered() == Seq::<Coord>::empty(),
    {
        World::new()
    }
}

/// Wrapping addition of a delta of at most one in magnitude.
fn wadd(a: Num, d: isize) -> (r: Num)
    requires
        -1 <= d <= 1,
    ensures
        r == wadd1(a, d as int),
{
    if d == 1 {
        if a == isize::MAX {
            isize::MIN
        } else {
            a + 1
        }
    } else if d == -1 {
        if a == isize::MIN {
            isize::MAX
        } else {
            a - 1
        }
    } else {
        a
    }
}

/// Whether `c` comes strictly before `(x, y)` in canonical order.
fn below(c: Coord, x: Num, y: Num) -> (r: bool)
    ensures
        r == cell_lt(c, (x, y)),
{
    c.0 < x || (c.0 == x && c.1 < y)
}

/// The first index of a strictly ascending cell vector whose element is at
/// or above `(x, y)` in canonical order; the vector's length if every
/// element is below it.
fn find_lower(v: &Vec<Coord>, x: Num, y: Num) -> (i: usize)
    requires
        strictly_sorted(v@),
    ensures
        i <= v.len(),
        forall|j: int| 0 <= j < i ==> cell_lt(v@[j], (x, y)),
        i < v.len() ==> !cell_lt(v@[i as int], (x, y)),
{
    let n = v.len();
    let mut i: usize = 0;
    while i < n && below(v[i], x, y)
        invariant
            i <= n,
            n == v.len(),
            forall|j: int| 0 <= j < i ==> cell_lt(v@[j], (x, y)),
        decreases n - i,
    {
        i = i + 1;
    }
    i
}

/// Inserts `(x, y)` into a strictly ascending cell vector, keeping it
/// strictly ascending; a no-op if the cell is already present.
fn insert_cell(v: &mut Vec<Coord>, x: Num, y: Num)
    requires
        strictly_sorted(old(v)@),
    ensures
        strictly_sorted(final(v)@),
        forall|c: Coord| final(v)@.contains(c) <==> old(v)@.contains(c) || c == (x, y),
{
    let i = find_lower(v, x, y);
    if i < v.len() {
        let c = v[i];
        if c.0 == x && c.1 == y {
            // Already present; the vector is unchanged.
            proof {
                assert(v@.contains((x, y))) by {
                    assert(v@[i as int] == (x, y));
                }
            }
            return ;
        }
    }
    let ghost ov = v@;
    v.insert(i, (x, y));
    proof {
        ov.insert_ensures(i as int, (x, y));
        let nv = v@;
        // At the insertion point, everything after is strictly above (x, y).
        assert forall|q: int| i <= q < ov.len() implies cell_lt((x, y), ov[q]) by {
            if q > i {
                assert(cell_lt(ov[i as int], ov[q]));
            }
            assert(!cell_lt(ov[q], (x, y)) && ov[q] != (x, y));
        }
        assert forall|c: Coord| nv.contains(c) implies ov.contains(c) || c == (x, y) by {
            let k = choose|k: int| 0 <= k < nv.len() && nv[k] == c;
            if k < i {
                assert(ov[k] == c);
            } else if k > i {
                assert(ov[k - 1] == c);
            }
        }
        assert forall|c: Coord| ov.contains(c) || c == (x, y) implies nv.contains(c) by {
            if ov.contains(c) {
                let k = choose|k: int| 0 <= k < ov.len() && ov[k] == c;
                if k < i {
                    assert(nv[k] == c);
                } else {
                    assert(nv[k + 1] == c);
                }
            } else {
                assert(nv[i as int] == c);
            }
        }
        assert forall|p: int, q: int| 0 <= p < q < nv.len() implies cell_lt(nv[p], nv[q]) by {
            if q < i {
                assert(nv[p] == ov[p] && nv[q] == ov[q]);
            } else if p < i && q == i {
                assert(cell_lt(ov[p], (x, y)));
            } else if p < i && q > i {
                assert(nv[p] == ov[p] && nv[q] == ov[q - 1]);
                if q - 1 == i {
                    assert(cell_lt(ov[p], (x, y)) && cell_lt((x, y), ov[q - 1]));
                }
            } else if p == i {
                assert(nv[q] == ov[q - 1] && cell_lt((x, y), ov[q - 1]));
            } else {
                assert(nv[p] == ov[p - 1] && nv[q] == ov[q - 1]);
            }
        }
    }
}

} // verus!
