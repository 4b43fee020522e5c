//! The bounded variant of the engine.
//!
//! Cells live on a fixed `width x height` board; coordinates outside it can
//! never be set, and the neighbourhood of a cell is clamped at the edges
//! rather than wrapped.

use vstd::prelude::*;

verus! {

/// A cell position on the bounded board.
pub type Coord = (u16, u16);

/// Whether `c` lies on a board of the given dimensions.
pub open spec fn in_bounds(w: u16, h: u16, c: Coord) -> bool {
    c.0 < w && c.1 < h
}

/// One if the position `(cx, cy)` lies on the board and is live in `s`,
/// zero otherwise; positions off the board never count.
pub open spec fn bocc(s: Set<Coord>, w: u16, h: u16, cx: int, cy: int) -> int {
    if 0 <= cx < w && 0 <= cy < h && s.contains((cx as u16, cy as u16)) {
        1
    } else {
        0
    }
}

/// How many of the up-to-eight neighbours of `c` are live in `s`, the
/// neighbourhood being clamped at the board edges.
pub open spec fn live_neighbours(s: Set<Coord>, w: u16, h: u16, c: Coord) -> int {
    bocc(s, w, h, c.0 - 1, c.1 - 1) + bocc(s, w, h, c.0 as int, c.1 - 1) + bocc(
        s,
        w,
        h,
        c.0 + 1,
        c.1 - 1,
    ) + bocc(s, w, h, c.0 - 1, c.1 as int) + bocc(s, w, h, c.0 + 1, c.1 as int) + bocc(
        s,
        w,
        h,
        c.0 - 1,
        c.1 + 1,
    ) + bocc(s, w, h, c.0 as int, c.1 + 1) + bocc(s, w, h, c.0 + 1, c.1 + 1)
}

/// The standard rule on the bounded board: only on-board cells can be
/// live, and a cell is live in the next generation exactly when it has
/// three live neighbours, or it is live now and has two.
pub open spec fn next_alive(s: Set<Coord>, w: u16, h: u16, c: Coord) -> bool {
    in_bounds(w, h, c) && (live_neighbours(s, w, h, c) == 3 || (s.contains(c) && live_neighbours(
        s,
        w,
        h,
        c,
    ) == 2))
}

/// Whether `d` is a neighbour of `c` on a board of the given dimensions:
/// on the board, distinct from `c`, and at most one step away on each
/// axis.
pub open spec fn is_nbr(w: u16, h: u16, c: Coord, d: Coord) -> bool {
    in_bounds(w, h, d) && d != c && c.0 - 1 <= d.0 <= c.0 + 1 && c.1 - 1 <= d.1 <= c.1 + 1
}

/// Strict lexicographic order on cell positions: the canonical iteration
/// order of the live-cell set.
pub open spec fn cell_lt(a: Coord, b: Coord) -> bool {
    a.0 < b.0 || (a.0 == b.0 && a.1 < b.1)
}

/// A sequence of cells in strictly ascending canonical order; such a
/// sequence holds no duplicates.
pub open spec fn strictly_sorted(s: Seq<Coord>) -> bool {
    forall|i: int, j: int| 0 <= i < j < s.len() ==> cell_lt(s[i], s[j])
}

/// The cells the stepping loop has gathered after visiting the live cells
/// in `pre`: survivors found so far, and births next to them.
spec fn step_covered(s: Set<Coord>, w: u16, h: u16, pre: Seq<Coord>, c: Coord) -> bool {
    (pre.contains(c) && (live_neighbours(s, w, h, c) == 2 || live_neighbours(s, w, h, c) == 3))
        || (exists|k: int|
        0 <= k < pre.len() && #[trigger] is_nbr(w, h, pre[k], c) && live_neighbours(s, w, h, c)
            == 3)
}

/// A cell with a live neighbour on the board is the neighbour of some live
/// cell.
proof fn lemma_birth_witness(s: Set<Coord>, w: u16, h: u16, c: Coord)
    requires
        live_neighbours(s, w, h, c) >= 1,
        in_bounds(w, h, c),
    ensures
        exists|l: Coord| s.contains(l) && is_nbr(w, h, l, c),
{
    let x = c.0 as int;
    let y = c.1 as int;
    if bocc(s, w, h, x - 1, y - 1) == 1 {
        let l = ((x - 1) as u16, (y - 1) as u16);
        assert(s.contains(l) && is_nbr(w, h, l, c));
    } else if bocc(s, w, h, x, y - 1) == 1 {
        let l = (x as u16, (y - 1) as u16);
        assert(s.contains(l) && is_nbr(w, h, l, c));
    } else if bocc(s, w, h, x + 1, y - 1) == 1 {
        let l = ((x + 1) as u16, (y - 1) as u16);
        assert(s.contains(l) && is_nbr(w, h, l, c));
    } else if bocc(s, w, h, x - 1, y) == 1 {
        let l = ((x - 1) as u16, y as u16);
        assert(s.contains(l) && is_nbr(w, h, l, c));
    } else if bocc(s, w, h, x + 1, y) == 1 {
        let l = ((x + 1) as u16, y as u16);
        assert(s.contains(l) && is_nbr(w, h, l, c));
    } else if bocc(s, w, h, x - 1, y + 1) == 1 {
        let l = ((x - 1) as u16, (y + 1) as u16);
        assert(s.contains(l) && is_nbr(w, h, l, c));
    } else if bocc(s, w, h, x, y + 1) == 1 {
        let l = (x as u16, (y + 1) as u16);
        assert(s.contains(l) && is_nbr(w, h, l, c));
    } else if bocc(s, w, h, x + 1, y + 1) == 1 {
        let l = ((x + 1) as u16, (y + 1) as u16);
        assert(s.contains(l) && is_nbr(w, h, l, c));
    } else {
        assert(false);
    }
}

/// A single live cell with no live neighbours dies after one generation,
/// and nothing is born, whatever the board size.
pub proof fn lemma_lone_cell_dies(s: Set<Coord>, w: u16, h: u16, c: Coord)
    requires
        forall|d: Coord| s.contains(d) <==> d == c,
    ensures
        forall|d: Coord| !next_alive(s, w, h, d),
{
    assert forall|d: Coord| !next_alive(s, w, h, d) by {
        assert(live_neighbours(s, w, h, d) <= 1);
    }
}

/// A two-by-two block of live cells on the board is a fixed point of the
/// stepping rule: exactly its own four cells are live in the next
/// generation.
pub proof fn lemma_block_stable(s: Set<Coord>, w: u16, h: u16, x: u16, y: u16)
    requires
        x + 1 < w,
        y + 1 < h,
        forall|d: Coord|
            s.contains(d) <==> (d == (x, y) || d == ((x + 1) as u16, y) || d == (
                x,
                (y + 1) as u16,
            ) || d == ((x + 1) as u16, (y + 1) as u16)),
    ensures
        forall|d: Coord| next_alive(s, w, h, d) <==> s.contains(d),
{
    assert forall|d: Coord| next_alive(s, w, h, d) <==> s.contains(d) by {
        if s.contains(d) {
            assert(live_neighbours(s, w, h, d) == 3);
        } else {
            assert(live_neighbours(s, w, h, d) != 3);
        }
    }
}

/// A bounded Game of Life board.
pub struct Game {
    gen: usize,
    cells: Vec<Coord>,
    width: u16,
    height: u16,
}

impl View for Game {
    type V = Set<Coord>;

    /// A `Game` denotes the set of its live cells.
    closed spec fn view(&self) -> Set<Coord> {
        Set::new(|c: Coord| self.cells@.contains(c))
    }
}

impl Game {
    /// The board width, in cells.
    pub closed spec fn width(self) -> u16 {
        self.width
    }

    /// The board height, in cells.
    pub closed spec fn height(self) -> u16 {
        self.height
    }

    /// The number of generations stepped so far.
    pub closed spec fn generation(self) -> int {
        self.gen as int
    }

    /// The live cells in ascending canonical order.
    pub closed spec fn ordered(self) -> Seq<Coord> {
        self.cells@
    }

    /// Well-formedness: the cell vector is strictly ascending and every
    /// live cell lies on the board.
    pub closed spec fn wf(self) -> bool {
        strictly_sorted(self.cells@) && forall|k: int|
            0 <= k < self.cells@.len() ==> in_bounds(self.width, self.height, #[trigger] self.cells@[k])
    }

    /// An empty board of the given dimensions.
    pub fn new(width: u16, height: u16) -> (g: Game)
        ensures
            g.wf(),
            g@ == Set::<Coord>::empty(),
            g.ordered() == Seq::<Coord>::empty(),
            g.width() == width,
            g.height() == height,
            g.generation() == 0,
    {
        let g = Game { gen: 0, cells: Vec::new(), width, height };
        proof {
            assert(g@ =~= Set::<Coord>::empty());
        }
        g
    }

    /// Marks the cell `(x, y)` live. A call with a coordinate off the
    /// board is silently ignored.
    pub fn set(&mut self, x: u16, y: u16)
        requires
            old(self).wf(),
        ensures
            final(self).wf(),
            final(self).width() == old(self).width(),
            final(self).height() == old(self).height(),
            final(self).generation() == old(self).generation(),
            x < old(self).width() && y < old(self).height() ==> final(self)@ == old(
                self,
            )@.insert((x, y)),
            !(x < old(self).width() && y < old(self).height()) ==> final(self)@ == old(self)@,
    {
        if x < self.width && y < self.height {
            insert_cell(&mut self.cells, x, y);
            proof {
                assert forall|k: int|
                    0 <= k < self.cells@.len() implies in_bounds(
                    self.width,
                    self.height,
                    #[trigger] self.cells@[k],
                ) by {
                    assert(self.cells@.contains(self.cells@[k]));
                }
                assert(self@ =~= old(self)@.insert((x, y)));
            }
        }
    }

    /// Whether the cell `(x, y)` is currently live.
    fn has(&self, x: u16, y: u16) -> (r: bool)
        ensures
            r == self@.contains((x, y)),
    {
        let n = self.cells.len();
        let mut i: usize = 0;
        while i < n
            invariant
                i <= n,
                n == self.cells.len(),
                forall|j: int| 0 <= j < i ==> self.cells@[j] != (x, y),
            decreases n - i,
        {
            let c = self.cells[i];
            if c.0 == x && c.1 == y {
                return true;
            }
            i = i + 1;
        }
        false
    }

    /// How many of the up-to-eight neighbours of `c` are currently live.
    pub fn neighbours(&self, c: Coord) -> (r: usize)
        requires
            c.0 < self.width(),
            c.1 < self.height(),
        ensures
            r == live_neighbours(self@, self.width(), self.height(), c),
    {
        let x = c.0;
        let y = c.1;
        let mut r: usize = 0;
        if x > 0 && y > 0 && self.has(x - 1, y - 1) {
            r = r + 1;
        }
        if y > 0 && self.has(x, y - 1) {
            r = r + 1;
        }
        if x + 1 < self.width && y > 0 && self.has(x + 1, y - 1) {
            r = r + 1;
        }
        if x > 0 && self.has(x - 1, y) {
            r = r + 1;
        }
        if x + 1 < self.width && self.has(x + 1, y) {
            r = r + 1;
        }
        if x > 0 && y + 1 < self.height && self.has(x - 1, y + 1) {
            r = r + 1;
        }
        if y + 1 < self.height && self.has(x, y + 1) {
            r = r + 1;
        }
        if x + 1 < self.width && y + 1 < self.height && self.has(x + 1, y + 1) {
            r = r + 1;
        }
        r
    }

    /// The neighbours of `c` on the board, in ascending canonical order:
    /// exactly the on-board cells at most one step away on each axis,
    /// excluding `c` itself.
    pub fn iter(&self, c: Coord) -> (r: Vec<Coord>)
        requires
            c.0 < self.width(),
            c.1 < self.height(),
        ensures
            strictly_sorted(r@),
            forall|d: Coord| r@.contains(d) <==> is_nbr(self.width(), self.height(), c, d),
    {
        let x = c.0;
        let y = c.1;
        let i0: u16 = if x > 0 {
            x - 1
        } else {
            0
        };
        let j0: u16 = if y > 0 {
            y - 1
        } else {
            0
        };
        let i1: u16 = if x + 1 < self.width {
            x + 1
        } else {
            self.width - 1
        };
        let j1: u16 = if y + 1 < self.height {
            y + 1
        } else {
            self.height - 1
        };
        let mut r: Vec<Coord> = Vec::new();
        let mut i: u16 = i0;
        while i <= i1
            invariant
                x == c.0,
                y == c.1,
                i0 <= i <= i1 + 1,
                i1 < self.width(),
                j0 <= j1 < self.height(),
                strictly_sorted(r@),
                forall|d: Coord|
                    r@.contains(d) <==> (i0 <= d.0 < i && j0 <= d.1 <= j1 && d != c),
            decreases i1 + 1 - i,
        {
            let mut j: u16 = j0;
            while j <= j1
                invariant
                    x == c.0,
                    y == c.1,
                    i0 <= i <= i1,
                    i1 < self.width(),
                    j0 <= j <= j1 + 1,
                    j1 < self.height(),
                    strictly_sorted(r@),
                    forall|d: Coord|
                        r@.contains(d) <==> ((i0 <= d.0 < i && j0 <= d.1 <= j1 && d != c) || (
                        d.0 == i && j0 <= d.1 < j && d != c)),
                decreases j1 + 1 - j,
            {
                let ghost before = r@;
                if !(i == x && j == y) {
                    insert_cell(&mut r, i, j);
                }
                proof {
                    assert forall|d: Coord|
                        r@.contains(d) implies ((i0 <= d.0 < i && j0 <= d.1 <= j1 && d != c) || (
                        d.0 == i && j0 <= d.1 < j + 1 && d != c)) by {
                        if before.contains(d) {
                        } else {
                            assert(d == (i, j) && !(i == x && j == y));
                        }
                    }
                    assert forall|d: Coord|
                        ((i0 <= d.0 < i && j0 <= d.1 <= j1 && d != c) || (d.0 == i && j0 <= d.1
                            < j + 1 && d != c)) implies r@.contains(d) by {
                        if d.0 == i && d.1 == j as int && d != c {
                            assert(d == (i, j));
                            assert(!(i == x && j == y));
                        } else {
                            assert(before.contains(d));
                        }
                    }
                }
                j = j + 1;
            }
            i = i + 1;
        }
        r
    }

    /// Advances the board by exactly one generation of the standard rule,
    /// computed entirely from the current generation, and counts it.
    pub fn step(&mut self)
        requires
            old(self).wf(),
            old(self).generation() < usize::MAX,
        ensures
            final(self).wf(),
            final(self).width() == old(self).width(),
            final(self).height() == old(self).height(),
            final(self).generation() == old(self).generation() + 1,
            forall|c: Coord|
                final(self)@.contains(c) <==> next_alive(
                    old(self)@,
                    old(self).width(),
                    old(self).height(),
                    c,
                ),
    {
        let ghost s = self@;
        let ghost w = self.width();
        let ghost h = self.height();
        let mut nxt: Vec<Coord> = Vec::new();
        let n = self.cells.len();
        let mut i: usize = 0;
        while i < n
            invariant
                i <= n,
                self == old(self),
                self.wf(),
                n == self.cells.len(),
                s == self@,
                w == self.width(),
                h == self.height(),
                strictly_sorted(nxt@),
                forall|c: Coord|
                    nxt@.contains(c) <==> step_covered(s, w, h, self.cells@.take(i as int), c),
            decreases n - i,
        {
            let cur = self.cells[i];
            let cnt = self.neighbours(cur);
            if cnt == 2 || cnt == 3 {
                insert_cell(&mut nxt, cur.0, cur.1);
            }
            let nb = self.iter(cur);
            let m = nb.len();
            let mut k: usize = 0;
            while k < m
                invariant
                    k <= m,
                    self == old(self),
                    self.wf(),
                    s == self@,
                    w == self.width(),
                    h == self.height(),
                    m == nb.len(),
                    strictly_sorted(nb@),
                    forall|d: Coord| nb@.contains(d) <==> is_nbr(w, h, cur, d),
                    0 <= i < self.cells@.len() && self.cells@[i as int] == cur,
                    strictly_sorted(nxt@),
                    forall|c: Coord|
                        nxt@.contains(c) <==> (step_covered(
                            s,
                            w,
                            h,
                            self.cells@.take(i as int),
                            c,
                        ) || (c == cur && (live_neighbours(s, w, h, c) == 2 || live_neighbours(
                            s,
                            w,
                            h,
                            c,
                        ) == 3)) || (exists|j: int|
                            0 <= j < k && c == nb@[j] && live_neighbours(s, w, h, c) == 3)),
                decreases m - k,
            {
                let d = nb[k];
                proof {
                    assert(nb@.contains(nb@[k as int]));
                }
                let ghost before = nxt@;
                if self.neighbours(d) == 3 {
                    insert_cell(&mut nxt, d.0, d.1);
                }
                proof {
                    assert forall|c: Coord|
                        nxt@.contains(c) implies (step_covered(
                        s,
                        w,
                        h,
                        self.cells@.take(i as int),
                        c,
                    ) || (c == cur && (live_neighbours(s, w, h, c) == 2 || live_neighbours(
                        s,
                        w,
                        h,
                        c,
                    ) == 3)) || (exists|j: int|
                        0 <= j < k + 1 && c == nb@[j] && live_neighbours(s, w, h, c) == 3)) by {
                        if c == d && live_neighbours(s, w, h, c) == 3 {
                            assert(0 <= k < k + 1 && c == nb@[k as int] && live_neighbours(
                                s,
                                w,
                                h,
                                c,
                            ) == 3);
                        } else if !before.contains(c) {
                            assert(false);
                        }
                    }
                }
                k = k + 1;
            }
            proof {
                let pre = self.cells@.take(i as int);
                let now = self.cells@.take(i + 1);
                assert(now =~= pre.push(cur));
                assert forall|c: Coord| nxt@.contains(c) implies step_covered(s, w, h, now, c) by {
                    if pre.contains(c) {
                        let q = choose|q: int| 0 <= q < pre.len() && pre[q] == c;
                        assert(now[q] == c);
                    }
                    if exists|q: int|
                        0 <= q < pre.len() && #[trigger] is_nbr(w, h, pre[q], c)
                            && live_neighbours(s, w, h, c) == 3 {
                        let q = choose|q: int|
                            0 <= q < pre.len() && #[trigger] is_nbr(w, h, pre[q], c)
                                && live_neighbours(s, w, h, c) == 3;
                        assert(is_nbr(w, h, now[q], c));
                    }
                    if c == cur {
                        assert(now[i as int] == c);
                    }
                    if exists|j: int| 0 <= j < m && c == nb@[j] && live_neighbours(s, w, h, c)
                        == 3 {
                        let j = choose|j: int|
                            0 <= j < m && c == nb@[j] && live_neighbours(s, w, h, c) == 3;
                        assert(nb@.contains(nb@[j]));
                        assert(is_nbr(w, h, cur, c));
                        assert(is_nbr(w, h, now[i as int], c));
                    }
                }
                assert forall|c: Coord| step_covered(s, w, h, now, c) implies nxt@.contains(
                    c,
                ) by {
                    if now.contains(c) && (live_neighbours(s, w, h, c) == 2 || live_neighbours(
                        s,
                        w,
                        h,
                        c,
                    ) == 3) {
                        let q = choose|q: int| 0 <= q < now.len() && now[q] == c;
                        if q < i {
                            assert(pre[q] == c);
                        } else {
                            assert(c == cur);
                        }
                    }
                    if exists|q: int|
                        0 <= q < now.len() && #[trigger] is_nbr(w, h, now[q], c)
                            && live_neighbours(s, w, h, c) == 3 {
                        let q = choose|q: int|
                            0 <= q < now.len() && #[trigger] is_nbr(w, h, now[q], c)
                                && live_neighbours(s, w, h, c) == 3;
                        if q < i {
                            assert(is_nbr(w, h, pre[q], c));
                        } else {
                            assert(is_nbr(w, h, cur, c));
                            assert(nb@.contains(c));
                            let j = choose|j: int| 0 <= j < nb@.len() && nb@[j] == c;
                            assert(0 <= j < m && c == nb@[j]);
                        }
                    }
                }
            }
            i = i + 1;
        }
        proof {
            assert(self.cells@.take(n as int) =~= self.cells@);
        }
        self.cells = nxt;
        self.gen = self.gen + 1;
        proof {
            let full = old(self).cells@;
            assert forall|c: Coord| self@.contains(c) implies next_alive(s, w, h, c) by {
                assert(step_covered(s, w, h, full, c));
                if full.contains(c) {
                    let q = choose|q: int| 0 <= q < full.len() && full[q] == c;
                    assert(in_bounds(w, h, full[q]));
                }
            }
            assert forall|c: Coord| next_alive(s, w, h, c) implies self@.contains(c) by {
                if s.contains(c) {
                    assert(full.contains(c));
                    assert(step_covered(s, w, h, full, c));
                } else {
                    lemma_birth_witness(s, w, h, c);
                    let l = choose|l: Coord| s.contains(l) && is_nbr(w, h, l, c);
                    let q = choose|q: int| 0 <= q < full.len() && full[q] == l;
                    assert(is_nbr(w, h, full[q], c));
                    assert(step_covered(s, w, h, full, c));
                }
            }
            assert forall|k: int|
                0 <= k < self.cells@.len() implies in_bounds(
                self.width,
                self.height,
                #[trigger] self.cells@[k],
            ) by {
                assert(self.cells@.contains(self.cells@[k]));
                assert(next_alive(s, w, h, self.cells@[k]));
            }
        }
    }

    /// The live cells, in ascending canonical order.
    pub fn live_cells(&self) -> (r: Vec<Coord>)
        ensures
            r@ == self.ordered(),
    {
        let n = self.cells.len();
        let mut r: Vec<Coord> = Vec::new();
        let mut i: usize = 0;
        while i < n
            invariant
                i <= n,
                n == self.cells.len(),
                r@ == self.cells@.take(i as int),
            decreases n - i,
        {
            r.push(self.cells[i]);
            proof {
                assert(r@ =~= self.cells@.take(i + 1));
            }
            i = i + 1;
        }
        proof {
            assert(self.cells@.take(n as int) =~= self.cells@);
        }
        r
    }
}

/// Whether `c` comes strictly before `(x, y)` in canonical order.
fn below(c: Coord, x: u16, y: u16) -> (r: bool)
    ensures
        r == cell_lt(c, (x, y)),
{
    c.0 < x || (c.0 == x && c.1 < y)
}

/// The first index of a strictly ascending cell vector whose element is at
/// or above `(x, y)` in canonical order; the vector's length if every
/// element is below it.
fn find_lower(v: &Vec<Coord>, x: u16, y: u16) -> (i: usize)
    requires
        strictly_sorted(v@),
    ensures
        i <= v.len(),
        forall|j: int| 0 <= j < i ==> cell_lt(v@[j], (x, y)),
        i < v.len() ==> !cell_lt(v@[i as int], (x, y)),
{
    let n = v.len();
    let mut i: usize = 0;
    while i < n && below(v[i], x, y)
        invariant
            i <= n,
            n == v.len(),
            forall|j: int| 0 <= j < i ==> cell_lt(v@[j], (x, y)),
        decreases n - i,
    {
        i = i + 1;
    }
    i
}

/// Inserts `(x, y)` into a strictly ascending cell vector, keeping it
/// strictly ascending; a no-op if the cell is already present.
fn insert_cell(v: &mut Vec<Coord>, x: u16, y: u16)
    requires
        strictly_sorted(old(v)@),
    ensures
        strictly_sorted(final(v)@),
        forall|c: Coord| final(v)@.contains(c) <==> old(v)@.contains(c) || c == (x, y),
{
    let i = find_lower(v, x, y);
    if i < v.len() {
        let c = v[i];
        if c.0 == x && c.1 == y {
            // Already present; the vector is unchanged.
            proof {
                assert(v@.contains((x, y))) by {
                    assert(v@[i as int] == (x, y));
                }
            }
            return ;
        }
    }
    let ghost ov = v@;
    v.insert(i, (x, y));
    proof {
        ov.insert_ensures(i as int, (x, y));
        let nv = v@;
        // At the insertion point, everything after is strictly above (x, y).
        assert forall|q: int| i <= q < ov.len() implies cell_lt((x, y), ov[q]) by {
            if q > i {
                assert(cell_lt(ov[i as int], ov[q]));
            }
            assert(!cell_lt(ov[q], (x, y)) && ov[q] != (x, y));
        }
        assert forall|c: Coord| nv.contains(c) implies ov.contains(c) || c == (x, y) by {
            let k = choose|k: int| 0 <= k < nv.len() && nv[k] == c;
            if k < i {
                assert(ov[k] == c);
            } else if k > i {
                assert(ov[k - 1] == c);
            }
        }
        assert forall|c: Coord| ov.contains(c) || c == (x, y) implies nv.contains(c) by {
            if ov.contains(c) {
                let k = choose|k: int| 0 <= k < ov.len() && ov[k] == c;
                if k < i {
                    assert(nv[k] == c);
                } else {
                    assert(nv[k + 1] == c);
                }
            } else {
                assert(nv[i as int] == c);
            }
        }
        assert forall|p: int, q: int| 0 <= p < q < nv.len() implies cell_lt(nv[p], nv[q]) by {
            if q < i {
                assert(nv[p] == ov[p] && nv[q] == ov[q]);
            } else if p < i && q == i {
                assert(cell_lt(ov[p], (x, y)));
            } else if p < i && q > i {
                assert(nv[p] == ov[p] && nv[q] == ov[q - 1]);
                if q - 1 == i {
                    assert(cell_lt(ov[p], (x, y)) && cell_lt((x, y), ov[q - 1]));
                }
            } else if p == i {
                assert(nv[q] == ov[q - 1] && cell_lt((x, y), ov[q - 1]));
            } else {
                assert(nv[p] == ov[p - 1] && nv[q] == ov[q - 1]);
            }
        }
    }
}

} // verus!
