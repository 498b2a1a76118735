//! The board: a grid of cells inside a fixed-capacity backing store, with
//! the per-player tallies, region traversal and the move engine.
use vstd::prelude::*;
use crate::cell::{ActivationStatus, CellKind, SampleCell, ACTIVITY_MAX};

verus! {

/// Side of the backing store: boards are at most this wide and tall.
pub const CAPACITY: usize = 16;

/// Number of slots in the backing store.
pub const SLOTS: usize = 256;

/// Column offset of neighbor direction `d`, in the order
/// NW, N, NE, W, E, SW, S, SE.
pub open spec fn dx(d: int) -> int {
    if d == 0 || d == 3 || d == 5 {
        -1
    } else if d == 1 || d == 6 {
        0
    } else {
        1
    }
}

/// Row offset of neighbor direction `d`.
pub open spec fn dy(d: int) -> int {
    if d < 3 {
        -1
    } else if d < 5 {
        0
    } else {
        1
    }
}

/// `(a, b)` is one of the eight neighbors of `(x, y)`.
pub open spec fn is_adj(x: int, y: int, a: int, b: int) -> bool {
    -1 <= a - x <= 1 && -1 <= b - y <= 1 && !(a == x && b == y)
}

/// The direction whose offsets are `(i, j)`.
pub open spec fn dir_of(i: int, j: int) -> int {
    let k = (j + 1) * 3 + (i + 1);
    if k < 4 {
        k
    } else {
        k - 1
    }
}

/// The direction in which `n` lies from `e`.
pub open spec fn dir_from(e: (usize, usize), n: (usize, usize)) -> int {
    dir_of(n.0 - e.0, n.1 - e.1)
}

/// One step of `v` by `dv` in `usize`, wrapping around at the ends.
pub open spec fn step(v: usize, dv: int) -> usize {
    if dv < 0 {
        if v == 0 { usize::MAX } else { (v - 1) as usize }
    } else if dv > 0 {
        if v == usize::MAX { 0 } else { (v + 1) as usize }
    } else {
        v
    }
}

/// Tally plus one, held at the top of `i64`.
pub open spec fn inc(v: i64) -> i64 {
    if v < i64::MAX { (v + 1) as i64 } else { v }
}

/// Tally minus one, held at the bottom of `i64`.
pub open spec fn dec(v: i64) -> i64 {
    if v > i64::MIN { (v - 1) as i64 } else { v }
}

/// The pair `t` with slot `p` replaced by `v`.
pub open spec fn with_slot(t: [i64; 2], p: bool, v: i64) -> [i64; 2] {
    if p { [t[0], v] } else { [v, t[1]] }
}

/// The value at slot `p` of the pair `t`.
pub open spec fn slot_of(t: [i64; 2], p: bool) -> i64 {
    if p { t[1] } else { t[0] }
}

/// A neighbor after a claim of `p` next to it energized it: its counter
/// goes up, saturating, and a saturation marks it overheated.
pub open spec fn energized(c: SampleCell, p: bool) -> SampleCell {
    let hot = c.act(p) >= ACTIVITY_MAX - 1;
    SampleCell {
        overheated: c.overheated || hot,
        ..c.with_act(p, if hot { ACTIVITY_MAX } else { (c.act(p) + 1) as u8 })
    }
}

/// A neighbor after a claim of `p` next to it was withdrawn; `cool` (the
/// claim was important) clears its overheated flag.
pub open spec fn drained(c: SampleCell, p: bool, cool: bool) -> SampleCell {
    SampleCell {
        overheated: c.overheated && !cool,
        ..c.with_act(p, if c.act(p) <= 1 { 0 } else { (c.act(p) - 1) as u8 })
    }
}

/// A neighbor after the crosses of `p` around a cut-off capture were
/// marked important.
pub open spec fn marked(c: SampleCell, p: bool) -> SampleCell {
    if c.kind == CellKind::Cross && c.player == p {
        SampleCell { important: true, ..c }
    } else {
        c
    }
}

/// A cell of the board is well formed: counters in range, no border, not
/// left checked by a traversal, and an empty cell carries no owner or
/// importance.
pub open spec fn cell_ok(c: SampleCell) -> bool {
    &&& c.wf()
    &&& c.kind != CellKind::Border
    &&& !c.checked
    &&& (c.kind == CellKind::Empty ==> !c.player && !c.important)
}

/// Why a move or its cancellation was refused.
#[derive(Clone, Copy, PartialEq, Eq, Structural, Debug)]
pub enum BoardError {
    /// The cell is not active for the mover.
    OutOfReach,
    /// The mover tried to capture their own cross.
    SelfFill,
    /// The cell is already filled.
    DoubleFill,
    /// The coordinate lies outside the board.
    BorderHit,
    /// There is nothing to cancel on an empty cell.
    EmptyCancel,
}

fn tally_inc(t: [i64; 2], p: bool) -> (r: [i64; 2])
    ensures
        r == with_slot(t, p, inc(slot_of(t, p))),
{
    let v = if p { t[1] } else { t[0] };
    let v = if v < i64::MAX { v + 1 } else { v };
    if p { [t[0], v] } else { [v, t[1]] }
}

fn tally_dec(t: [i64; 2], p: bool) -> (r: [i64; 2])
    ensures
        r == with_slot(t, p, dec(slot_of(t, p))),
{
    let v = if p { t[1] } else { t[0] };
    let v = if v > i64::MIN { v - 1 } else { v };
    if p { [t[0], v] } else { [v, t[1]] }
}

/// What a traversal does at each cell it visits.
#[derive(Clone, Copy, PartialEq, Eq, Structural, Debug)]
pub enum Visit {
    /// Marks territory of the seed's owner alive.
    Revive,
    /// Marks territory of the seed's owner dead.
    Kill,
    /// Stops at the first cross of the seed's owner met.
    Search,
    /// Changes nothing; only the order of visits is of interest.
    Collect,
}

/// Whether the cell `c` is alive once a traversal for `p` visited it.
pub open spec fn visited_alive(c: SampleCell, visit: Visit, p: bool) -> bool {
    if c.kind == CellKind::Filled && c.player == p {
        match visit {
            Visit::Revive => true,
            Visit::Kill => false,
            _ => c.alive,
        }
    } else {
        c.alive
    }
}

/// Whether a traversal for `p` stops when it visits `c`.
pub open spec fn stops_at(c: SampleCell, visit: Visit, p: bool) -> bool {
    visit == Visit::Search && c.kind == CellKind::Cross && c.player == p
}

/// Number of slots not marked by a traversal.
pub open spec fn n_unchecked(s: Seq<SampleCell>) -> nat
    decreases s.len(),
{
    if s.len() == 0 {
        0
    } else {
        n_unchecked(s.drop_last()) + if s.last().checked {
            0nat
        } else {
            1nat
        }
    }
}

proof fn lemma_n_unchecked_update(s: Seq<SampleCell>, i: int, c: SampleCell)
    requires
        0 <= i < s.len(),
    ensures
        n_unchecked(s.update(i, c)) + (if s[i].checked { 0int } else { 1int }) == n_unchecked(s)
            + (if c.checked { 0int } else { 1int }),
    decreases s.len(),
{
    if i == s.len() - 1 {
        assert(s.update(i, c).drop_last() =~= s.drop_last());
    } else {
        lemma_n_unchecked_update(s.drop_last(), i, c);
        assert(s.update(i, c).drop_last() =~= s.drop_last().update(i, c));
    }
}

fn cell_is_ok(c: &SampleCell) -> (r: bool)
    ensures
        r == cell_ok(*c),
{
    c.activity[0] <= ACTIVITY_MAX && c.activity[1] <= ACTIVITY_MAX && c.kind != CellKind::Border
        && !c.checked && (c.kind != CellKind::Empty || (!c.player && !c.important))
}

/// What is done to each neighbor by one pass around a cell.
#[derive(Clone, Copy)]
enum Touch {
    Energize(bool),
    Drain(bool, bool),
    Mark(bool),
}

spec fn touched(c: SampleCell, t: Touch) -> SampleCell {
    match t {
        Touch::Energize(p) => energized(c, p),
        Touch::Drain(p, cool) => drained(c, p, cool),
        Touch::Mark(p) => marked(c, p),
    }
}

/// What a pass with `t` answers for one neighbor: whether energizing it
/// saturated it.
spec fn touch_hot(c: SampleCell, t: Touch) -> bool {
    match t {
        Touch::Energize(p) => c.act(p) >= ACTIVITY_MAX - 1,
        _ => false,
    }
}

/// Of the neighbors of `(x, y)`, those before direction `d` in the
/// enumeration order.
pub open spec fn adj_before(x: int, y: int, a: int, b: int, d: int) -> bool {
    is_adj(x, y, a, b) && dir_of(a - x, b - y) < d
}

/// Two boards whose neighbors of `(x, y)` hold the same counters of `p`
/// agree on whether energizing around `(x, y)` saturates one.
proof fn lemma_hot_same(b0: SampleBoardManager, b1: SampleBoardManager, x: int, y: int, p: bool)
    requires
        b1.max_x == b0.max_x,
        b1.max_y == b0.max_y,
        forall|a: int, b: int|
            b1.in_bounds(a, b) && is_adj(x, y, a, b) ==> #[trigger] b1.cell(a, b).act(p) == b0.cell(
                a,
                b,
            ).act(p),
    ensures
        (exists|a: int, b: int|
            b1.in_bounds(a, b) && is_adj(x, y, a, b) && touch_hot(
                #[trigger] b1.cell(a, b),
                Touch::Energize(p),
            )) == b0.hot_around(x, y, p),
{
    if exists|a: int, b: int|
        b1.in_bounds(a, b) && is_adj(x, y, a, b) && touch_hot(#[trigger] b1.cell(a, b), Touch::Energize(p)) {
        let (a, b) = choose|a: int, b: int|
            b1.in_bounds(a, b) && is_adj(x, y, a, b) && touch_hot(#[trigger] b1.cell(a, b), Touch::Energize(p));
        assert(b0.cell(a, b).act(p) >= ACTIVITY_MAX - 1);
    }
    if b0.hot_around(x, y, p) {
        let (a, b) = choose|a: int, b: int|
            b0.in_bounds(a, b) && is_adj(x, y, a, b) && (#[trigger] b0.cell(a, b)).act(p) >= ACTIVITY_MAX - 1;
        assert(touch_hot(b1.cell(a, b), Touch::Energize(p)));
    }
}

/// Queueing the neighbor `nb` of the entry `h` being expanded, met in
/// direction `d`, keeps the traversal breadth-first.
proof fn lemma_bfs_push(
    b0: SampleBoardManager,
    q: Seq<(usize, usize)>,
    par: Seq<int>,
    h: int,
    nb: (usize, usize),
    d: int,
)
    requires
        b0.bfs_steps(q, par, h),
        0 <= h < q.len(),
        b0.expands(
            q[0].0 as int,
            q[0].1 as int,
            b0.cell(q[0].0 as int, q[0].1 as int).player,
            q[h].0 as int,
            q[h].1 as int,
        ),
        is_adj(q[h].0 as int, q[h].1 as int, nb.0 as int, nb.1 as int),
        dir_from(q[h], nb) == d,
        forall|k: int|
            1 <= k < q.len() ==> #[trigger] par[k] < h || (par[k] == h && dir_from(q[h], q[k]) < d),
        forall|j: int|
            0 <= j < h && b0.expands(
                q[0].0 as int,
                q[0].1 as int,
                b0.cell(q[0].0 as int, q[0].1 as int).player,
                #[trigger] q[j].0 as int,
                q[j].1 as int,
            ) ==> !is_adj(q[j].0 as int, q[j].1 as int, nb.0 as int, nb.1 as int),
    ensures
        b0.bfs_steps(q.push(nb), par.push(h), h),
        forall|k: int|
            1 <= k < q.len() + 1 ==> #[trigger] par.push(h)[k] < h || (par.push(h)[k] == h
                && dir_from(q[h], q.push(nb)[k]) < d + 1),
{
    let q1 = q.push(nb);
    let p1 = par.push(h);
    assert forall|k: int| 0 <= k < q.len() implies q1[k] == q[k] && p1[k] == par[k] by {}
    assert(q1[0] == q[0]);
    let sx = q[0].0 as int;
    let sy = q[0].1 as int;
    let p = b0.cell(sx, sy).player;
    assert forall|i: int, j: int|
        1 <= i < j < q1.len() implies #[trigger] p1[i] < #[trigger] p1[j] || (p1[i] == p1[j]
            && dir_from(q1[p1[i]], q1[i]) < dir_from(q1[p1[j]], q1[j])) by {
        if j == q.len() {
            assert(par[i] < h || (par[i] == h && dir_from(q[h], q[i]) < d));
        }
    }
    assert forall|k: int, j: int|
        1 <= k < q1.len() && 0 <= j < #[trigger] p1[k] && b0.expands(
            sx,
            sy,
            p,
            #[trigger] q1[j].0 as int,
            q1[j].1 as int,
        ) implies !is_adj(q1[j].0 as int, q1[j].1 as int, q1[k].0 as int, q1[k].1 as int) by {
        if k < q.len() {
            assert(par[k] < k);
        }
    }
}

/// The neighbor in direction `d` is the one cell of the neighborhood with
/// that direction.
proof fn lemma_dir(x: int, y: int, a: int, b: int, d: int)
    requires
        0 <= d < 8,
    ensures
        (is_adj(x, y, a, b) && dir_of(a - x, b - y) == d) <==> (a == x + dx(d) && b == y + dy(
            d,
        )),
        is_adj(x, y, a, b) ==> 0 <= dir_of(a - x, b - y) < 8,
{
}

fn touch_cell(c: &mut SampleCell, t: Touch) -> (hot: bool)
    requires
        old(c).wf(),
    ensures
        *final(c) == touched(*old(c), t),
        hot == touch_hot(*old(c), t),
{
    match t {
        Touch::Energize(p) => {
            let r = c.activate(p);
            if r == ActivationStatus::Overheat {
                c.set_overheat(true);
                true
            } else {
                false
            }
        },
        Touch::Drain(p, cool) => {
            c.deactivate(p);
            if cool {
                c.set_overheat(false);
            }
            false
        },
        Touch::Mark(p) => {
            if c.kind == CellKind::Cross && c.player == p {
                c.set_important(true);
            }
            false
        },
    }
}

/// The live board `max_x` by `max_y`, stored column by column in `board`
/// (cell `(x, y)` at slot `x * CAPACITY + y`), and the tallies of the two
/// players.
pub struct SampleBoardManager {
    pub board: Vec<SampleCell>,
    pub max_x: usize,
    pub max_y: usize,
    pub moves_counter: [i64; 2],
    pub crosses_counter: [i64; 2],
}

impl SampleBoardManager {
    pub open spec fn in_bounds(self, a: int, b: int) -> bool {
        0 <= a < self.max_x && 0 <= b < self.max_y
    }

    /// The cell at `(a, b)`; a border cell outside the live rectangle.
    pub open spec fn cell(self, a: int, b: int) -> SampleCell {
        if self.in_bounds(a, b) {
            self.board@[a * 16 + b]
        } else {
            SampleCell::spec_border()
        }
    }

    pub open spec fn wf(self) -> bool {
        &&& self.board@.len() == SLOTS
        &&& 1 < self.max_x <= CAPACITY
        &&& 1 < self.max_y <= CAPACITY
        &&& forall|a: int, b: int| self.in_bounds(a, b) ==> cell_ok(#[trigger] self.cell(a, b))
    }

    /// Same dimensions and tallies.
    pub open spec fn same_frame(self, other: SampleBoardManager) -> bool {
        &&& other.board@.len() == self.board@.len()
        &&& other.max_x == self.max_x
        &&& other.max_y == self.max_y
        &&& other.moves_counter == self.moves_counter
        &&& other.crosses_counter == self.crosses_counter
    }

    /// Some neighbor of `(x, y)` has the counter of `p` at one below the
    /// maximum or more, so energizing around `(x, y)` saturates it.
    pub open spec fn hot_around(self, x: int, y: int, p: bool) -> bool {
        exists|a: int, b: int|
            self.in_bounds(a, b) && is_adj(x, y, a, b) && (#[trigger] self.cell(a, b)).act(p)
                >= ACTIVITY_MAX - 1
    }

    /// Some neighbor of `(x, y)` is alive territory of `p`.
    pub open spec fn alive_around(self, x: int, y: int, p: bool) -> bool {
        exists|a: int, b: int|
            self.in_bounds(a, b) && is_adj(x, y, a, b) && (#[trigger] self.cell(a, b)).kind
                == CellKind::Filled && self.cell(a, b).player == p && self.cell(a, b).alive
    }

    /// Why `make_move` of `p` at `(x, y)` is refused, if it is.
    pub open spec fn move_error(self, x: int, y: int, p: bool) -> Option<BoardError> {
        let c = self.cell(x, y);
        match c.kind {
            CellKind::Border => Some(BoardError::BorderHit),
            CellKind::Filled => Some(BoardError::DoubleFill),
            CellKind::Cross => if c.player == p {
                Some(BoardError::SelfFill)
            } else if !c.spec_active(p) {
                Some(BoardError::OutOfReach)
            } else {
                None
            },
            CellKind::Empty => if !c.spec_active(p) {
                Some(BoardError::OutOfReach)
            } else {
                None
            },
        }
    }

    /// The moved cell after `p` played on it: an empty cell becomes a cross
    /// of `p`, important when energizing around it saturates a neighbor; a
    /// cross is captured into alive territory of `p`, important when it is
    /// cut off from alive territory of `p` or energizing saturates.
    pub open spec fn cell_after_move(self, x: int, y: int, p: bool) -> SampleCell {
        let c = self.cell(x, y);
        if c.kind == CellKind::Empty {
            SampleCell { kind: CellKind::Cross, player: p, important: self.hot_around(x, y, p), ..c }
        } else {
            SampleCell {
                kind: CellKind::Filled,
                player: p,
                alive: true,
                important: !self.alive_around(x, y, p) || self.hot_around(x, y, p),
                cross_important: c.important,
                ..c
            }
        }
    }

    /// A neighbor `o` of the moved cell after `p` played at `(x, y)`: a new
    /// cross energizes it; a capture withdraws the old owner's energy, marks
    /// crosses of `p` important when the capture is cut off, and energizes
    /// it for `p`.
    pub open spec fn neighbor_after_move(self, x: int, y: int, p: bool, o: SampleCell) -> SampleCell {
        let c = self.cell(x, y);
        if c.kind == CellKind::Empty {
            energized(o, p)
        } else {
            let d = drained(o, c.player, c.important);
            energized(if !self.alive_around(x, y, p) { marked(d, p) } else { d }, p)
        }
    }

    /// `new` is this board after a successful move of `p` at `(x, y)`.
    pub open spec fn moved(self, new: SampleBoardManager, x: int, y: int, p: bool) -> bool {
        let c = self.cell(x, y);
        &&& new.board@.len() == self.board@.len()
        &&& new.max_x == self.max_x
        &&& new.max_y == self.max_y
        &&& new.cell(x, y) == self.cell_after_move(x, y, p)
        &&& forall|a: int, b: int|
            new.in_bounds(a, b) && !(a == x && b == y) ==> #[trigger] new.cell(a, b) == if is_adj(
                x,
                y,
                a,
                b,
            ) {
                self.neighbor_after_move(x, y, p, self.cell(a, b))
            } else {
                self.cell(a, b)
            }
        &&& if c.kind == CellKind::Empty {
            &&& new.crosses_counter == with_slot(
                self.crosses_counter,
                p,
                inc(slot_of(self.crosses_counter, p)),
            )
            &&& new.moves_counter == with_slot(
                self.moves_counter,
                p,
                dec(slot_of(self.moves_counter, p)),
            )
        } else {
            &&& new.crosses_counter == with_slot(
                self.crosses_counter,
                p,
                dec(slot_of(self.crosses_counter, p)),
            )
            &&& new.moves_counter == with_slot(
                self.moves_counter,
                c.player,
                dec(slot_of(self.moves_counter, c.player)),
            )
        }
    }

    /// Why `cancel_move` at `(x, y)` is refused, if it is.
    pub open spec fn cancel_error(self, x: int, y: int) -> Option<BoardError> {
        match self.cell(x, y).kind {
            CellKind::Border => Some(BoardError::BorderHit),
            CellKind::Empty => Some(BoardError::EmptyCancel),
            _ => None,
        }
    }

    /// `new` is this board after the move at `(x, y)` was cancelled, a
    /// capture giving the cross back to `restored`.
    pub open spec fn cancelled(self, new: SampleBoardManager, x: int, y: int, restored: bool) -> bool {
        let c = self.cell(x, y);
        &&& new.board@.len() == self.board@.len()
        &&& new.max_x == self.max_x
        &&& new.max_y == self.max_y
        &&& new.cell(x, y) == if c.kind == CellKind::Cross {
            SampleCell { kind: CellKind::Empty, player: false, important: false, ..c }
        } else {
            SampleCell {
                kind: CellKind::Cross,
                player: restored,
                alive: false,
                important: c.cross_important,
                ..c
            }
        }
        &&& forall|a: int, b: int|
            new.in_bounds(a, b) && !(a == x && b == y) ==> #[trigger] new.cell(a, b) == if is_adj(
                x,
                y,
                a,
                b,
            ) {
                if c.kind == CellKind::Cross {
                    drained(self.cell(a, b), c.player, c.important)
                } else {
                    energized(drained(self.cell(a, b), c.player, c.important), restored)
                }
            } else {
                self.cell(a, b)
            }
        &&& if c.kind == CellKind::Cross {
            &&& new.crosses_counter == with_slot(
                self.crosses_counter,
                c.player,
                dec(slot_of(self.crosses_counter, c.player)),
            )
            &&& new.moves_counter == with_slot(
                self.moves_counter,
                c.player,
                inc(slot_of(self.moves_counter, c.player)),
            )
        } else {
            &&& new.crosses_counter == with_slot(
                self.crosses_counter,
                c.player,
                inc(slot_of(self.crosses_counter, c.player)),
            )
            &&& new.moves_counter == with_slot(
                self.moves_counter,
                restored,
                inc(slot_of(self.moves_counter, restored)),
            )
        }
    }

    /// Crosses out the empty cell at `index` for `player`.
    fn claim(&mut self, index: (usize, usize), player: bool)
        requires
            old(self).wf(),
            old(self).cell(index.0 as int, index.1 as int).kind == CellKind::Empty,
        ensures
            final(self).wf(),
            old(self).moved(*final(self), index.0 as int, index.1 as int, player),
    {
        let ghost b0 = *self;
        let ghost x = index.0 as int;
        let ghost y = index.1 as int;
        let c = self.get(index);
        let mut n = c;
        n.cross_out(player);
        self.set(index, n);
        let ghost b1 = *self;
        let hot = self.touch_around(index.0, index.1, Touch::Energize(player));
        proof {
            assert forall|a: int, b: int|
                b1.in_bounds(a, b) && is_adj(x, y, a, b) implies #[trigger] b1.cell(a, b).act(player)
                == b0.cell(a, b).act(player) by {}
            lemma_hot_same(b0, b1, x, y, player);
        }
        let mut n = self.get(index);
        n.set_important(hot);
        self.set(index, n);
        self.set_tallies(
            tally_inc(self.crosses_counter, player),
            tally_dec(self.moves_counter, player),
        );
    }

    /// Captures the cross of the other player at `index` for `player`.
    #[verifier::rlimit(40)]
    fn capture(&mut self, index: (usize, usize), player: bool)
        requires
            old(self).wf(),
            old(self).cell(index.0 as int, index.1 as int).kind == CellKind::Cross,
            old(self).cell(index.0 as int, index.1 as int).player != player,
        ensures
            final(self).wf(),
            old(self).moved(*final(self), index.0 as int, index.1 as int, player),
    {
        let ghost b0 = *self;
        let ghost x = index.0 as int;
        let ghost y = index.1 as int;
        let c = self.get(index);
        let was_important = c.important;
        let previous = c.player;
        let mut n = c;
        n.fill(player);
        self.set(index, n);
        self.set_tallies(
            tally_dec(self.crosses_counter, player),
            tally_dec(self.moves_counter, previous),
        );
        let ghost b1 = *self;
        self.touch_around(index.0, index.1, Touch::Drain(previous, was_important));
        let ghost b2 = *self;
        let alive = self.is_alive_filled_around(index.0, index.1, player);
        proof {
            assert forall|a: int, b: int|
                b1.in_bounds(a, b) && is_adj(x, y, a, b) implies #[trigger] b1.cell(a, b)
                == b0.cell(a, b) by {}
            assert(alive == b0.alive_around(x, y, player)) by {
                if alive {
                    let (a, b) = choose|a: int, b: int|
                        b2.in_bounds(a, b) && is_adj(x, y, a, b) && (#[trigger] b2.cell(
                            a,
                            b,
                        )).kind == CellKind::Filled && b2.cell(a, b).player == player
                            && b2.cell(a, b).alive;
                    assert(b0.cell(a, b).kind == CellKind::Filled);
                }
                if b0.alive_around(x, y, player) {
                    let (a, b) = choose|a: int, b: int|
                        b0.in_bounds(a, b) && is_adj(x, y, a, b) && (#[trigger] b0.cell(
                            a,
                            b,
                        )).kind == CellKind::Filled && b0.cell(a, b).player == player
                            && b0.cell(a, b).alive;
                    assert(b2.cell(a, b).kind == CellKind::Filled);
                }
            }
        }
        if !alive {
            self.touch_around(index.0, index.1, Touch::Mark(player));
        }
        let ghost b3 = *self;
        let hot = self.touch_around(index.0, index.1, Touch::Energize(player));
        proof {
            assert forall|a: int, b: int|
                b3.in_bounds(a, b) && is_adj(x, y, a, b) implies #[trigger] b3.cell(a, b).act(
                player,
            ) == b0.cell(a, b).act(player) by {}
            lemma_hot_same(b0, b3, x, y, player);
        }
        let mut n = self.get(index);
        n.set_important(!alive || hot);
        self.set(index, n);
    }

    /// Plays `player` at `index`: claims an empty cell or captures an
    /// opponent's cross. A refused move changes nothing.
    pub fn make_move(&mut self, index: (usize, usize), player: bool) -> (r: Result<(), BoardError>)
        requires
            old(self).wf(),
        ensures
            final(self).wf(),
            match old(self).move_error(index.0 as int, index.1 as int, player) {
                Some(e) => r == Err::<(), BoardError>(e) && *final(self) == *old(self),
                None => r is Ok && old(self).moved(*final(self), index.0 as int, index.1 as int, player),
            },
    {
        let c = self.get(index);
        match c.kind {
            CellKind::Empty => {
                if !c.is_active(player) {
                    return Err(BoardError::OutOfReach);
                }
                self.claim(index, player);
                Ok(())
            },
            CellKind::Cross => {
                if c.player == player {
                    return Err(BoardError::SelfFill);
                }
                if !c.is_active(player) {
                    return Err(BoardError::OutOfReach);
                }
                self.capture(index, player);
                Ok(())
            },
            CellKind::Filled => Err(BoardError::DoubleFill),
            CellKind::Border => Err(BoardError::BorderHit),
        }
    }

    /// Takes back the cross at `index`.
    fn uncross(&mut self, index: (usize, usize))
        requires
            old(self).wf(),
            old(self).cell(index.0 as int, index.1 as int).kind == CellKind::Cross,
        ensures
            final(self).wf(),
            old(self).cancelled(*final(self), index.0 as int, index.1 as int, false),
    {
        let c = self.get(index);
        let was_important = c.important;
        let previous = c.player;
        let mut n = c;
        n.remove_cross();
        self.set(index, n);
        self.set_tallies(
            tally_dec(self.crosses_counter, previous),
            tally_inc(self.moves_counter, previous),
        );
        self.touch_around(index.0, index.1, Touch::Drain(previous, was_important));
    }

    /// Takes back the capture at `index`, giving the cross back to
    /// `restored`.
    fn unfill(&mut self, index: (usize, usize), restored: bool)
        requires
            old(self).wf(),
            old(self).cell(index.0 as int, index.1 as int).kind == CellKind::Filled,
            old(self).cell(index.0 as int, index.1 as int).player != restored,
        ensures
            final(self).wf(),
            old(self).cancelled(*final(self), index.0 as int, index.1 as int, restored),
    {
        let c = self.get(index);
        let was_important = c.important;
        let previous = c.player;
        let mut n = c;
        n.remove_fill(restored);
        self.set(index, n);
        self.set_tallies(
            tally_inc(self.crosses_counter, previous),
            tally_inc(self.moves_counter, restored),
        );
        self.touch_around(index.0, index.1, Touch::Drain(previous, was_important));
        self.touch_around(index.0, index.1, Touch::Energize(restored));
    }

    /// Cancels the move at `index`: a cross goes back to an empty cell, a
    /// capture back to a cross of `restored`, the player who owned it
    /// before. A refused cancellation changes nothing.
    pub fn cancel_move(&mut self, index: (usize, usize), restored: bool) -> (r: Result<(), BoardError>)
        requires
            old(self).wf(),
            old(self).cell(index.0 as int, index.1 as int).kind == CellKind::Filled ==> restored
                != old(self).cell(index.0 as int, index.1 as int).player,
        ensures
            final(self).wf(),
            match old(self).cancel_error(index.0 as int, index.1 as int) {
                Some(e) => r == Err::<(), BoardError>(e) && *final(self) == *old(self),
                None => r is Ok && old(self).cancelled(*final(self), index.0 as int, index.1 as int, restored),
            },
    {
        let c = self.get(index);
        match c.kind {
            CellKind::Empty => Err(BoardError::EmptyCancel),
            CellKind::Border => Err(BoardError::BorderHit),
            CellKind::Cross => {
                self.uncross(index);
                Ok(())
            },
            CellKind::Filled => {
                self.unfill(index, restored);
                Ok(())
            },
        }
    }

    /// This is the board that `new(max_x, max_y)` makes.
    pub open spec fn is_fresh(self, max_x: int, max_y: int) -> bool {
        &&& self.wf()
        &&& self.max_x == max_x
        &&& self.max_y == max_y
        &&& self.moves_counter == [0i64, 0i64]
        &&& self.crosses_counter == [1i64, 1i64]
        &&& self.cell(0, 0) == (SampleCell {
            kind: CellKind::Cross,
            activity: [0u8, if is_adj(max_x - 1, max_y - 1, 0, 0) { 1u8 } else { 0u8 }],
            ..SampleCell::spec_border()
        })
        &&& self.cell(max_x - 1, max_y - 1) == (SampleCell {
            kind: CellKind::Cross,
            player: true,
            ..SampleCell::spec_border()
        })
        &&& forall|a: int, b: int|
            self.in_bounds(a, b) && !(a == 0 && b == 0) && !(a == max_x - 1 && b == max_y - 1)
                ==> #[trigger] self.cell(a, b) == (SampleCell {
                kind: CellKind::Empty,
                activity: [
                    if is_adj(0, 0, a, b) { 1u8 } else { 0u8 },
                    if is_adj(max_x - 1, max_y - 1, a, b) { 1u8 } else { 0u8 },
                ],
                ..SampleCell::spec_border()
            })
    }

    /// A fresh `max_x` by `max_y` board: every cell empty but two seed
    /// crosses, of player 0 at `(0, 0)` and of player 1 at the opposite
    /// corner, each having energized its neighbors for its owner.
    pub fn new(max_x: usize, max_y: usize) -> (r: SampleBoardManager)
        requires
            1 < max_x <= CAPACITY,
            1 < max_y <= CAPACITY,
        ensures
            r.is_fresh(max_x as int, max_y as int),
    {
        let mut board: Vec<SampleCell> = Vec::new();
        let mut i: usize = 0;
        while i < SLOTS
            invariant
                i <= SLOTS,
                board@.len() == i,
                forall|j: int| 0 <= j < i ==> #[trigger] board@[j] == (SampleCell {
                    kind: CellKind::Empty,
                    ..SampleCell::spec_border()
                }),
            decreases SLOTS - i,
        {
            board.push(SampleCell::empty());
            i = i + 1;
        }
        let mut manager = SampleBoardManager {
            board,
            max_x,
            max_y,
            moves_counter: [0, 0],
            crosses_counter: [1, 1],
        };
        assert forall|a: int, b: int| manager.in_bounds(a, b) implies #[trigger] manager.cell(a, b)
            == (SampleCell { kind: CellKind::Empty, ..SampleCell::spec_border() }) by {
            assert(0 <= a * 16 + b < 256);
        }
        let mut seed = SampleCell::empty();
        seed.cross_out(false);
        manager.set((0, 0), seed);
        manager.touch_around(0, 0, Touch::Energize(false));
        let mut seed = SampleCell::empty();
        seed.cross_out(true);
        manager.set((max_x - 1, max_y - 1), seed);
        manager.touch_around(max_x - 1, max_y - 1, Touch::Energize(true));
        manager
    }

    /// Clears the traversal mark of every slot.
    pub fn clear_checked(&mut self)
        requires
            old(self).board@.len() == SLOTS,
            old(self).max_x <= CAPACITY && old(self).max_y <= CAPACITY,
        ensures
            old(self).same_frame(*final(self)),
            forall|a: int, b: int|
                final(self).in_bounds(a, b) ==> #[trigger] final(self).cell(a, b) == (SampleCell {
                    checked: false,
                    ..old(self).cell(a, b)
                }),
            forall|j: int|
                0 <= j < SLOTS ==> #[trigger] final(self).board@[j] == (SampleCell {
                    checked: false,
                    ..old(self).board@[j]
                }),
    {
        let ghost b0 = *self;
        let mut i: usize = 0;
        while i < SLOTS
            invariant
                i <= SLOTS,
                b0.same_frame(*self),
                self.board@.len() == SLOTS,
                forall|j: int| 0 <= j < i ==> #[trigger] self.board@[j] == (SampleCell {
                    checked: false,
                    ..b0.board@[j]
                }),
                forall|j: int| i <= j < SLOTS ==> #[trigger] self.board@[j] == b0.board@[j],
            decreases SLOTS - i,
        {
            let mut c = self.board[i];
            c.set_checked(false);
            self.board.set(i, c);
            i = i + 1;
        }
        assert forall|a: int, b: int| self.in_bounds(a, b) implies #[trigger] self.cell(a, b) == (
        SampleCell { checked: false, ..b0.cell(a, b) }) by {
            assert(0 <= a * 16 + b < 256);
        }
    }

    /// A region cell can pass the traversal on: the seed, or territory of
    /// the seed's owner `p`.
    pub open spec fn expands(self, sx: int, sy: int, p: bool, a: int, b: int) -> bool {
        (a == sx && b == sy) || (self.cell(a, b).kind == CellKind::Filled && self.cell(a, b).player
            == p)
    }

    /// `path` starts at the seed `(sx, sy)` and steps from neighbor to
    /// neighbor through territory of `p` only.
    pub open spec fn is_path(self, sx: int, sy: int, p: bool, path: Seq<(int, int)>) -> bool {
        &&& path.len() >= 1
        &&& path[0] == (sx, sy)
        &&& forall|i: int|
            1 <= i < path.len() ==> is_adj(path[i - 1].0, path[i - 1].1, #[trigger] path[i].0, path[i].1)
                && self.cell(path[i].0, path[i].1).kind == CellKind::Filled && self.cell(
                path[i].0,
                path[i].1,
            ).player == p
    }

    /// `(a, b)` belongs to the 8-connected region of territory of `p` grown
    /// from the seed `(sx, sy)`.
    pub open spec fn in_region(self, sx: int, sy: int, p: bool, a: int, b: int) -> bool {
        exists|path: Seq<(int, int)>| #[trigger] self.is_path(sx, sy, p, path) && path.last() == (a, b)
    }

    /// `(a, b)` is in the region or next to it.
    pub open spec fn near_region(self, sx: int, sy: int, p: bool, a: int, b: int) -> bool {
        self.in_region(sx, sy, p, a, b) || exists|c: int, d: int|
            is_adj(c, d, a, b) && #[trigger] self.in_region(sx, sy, p, c, d)
    }

    /// Invariant of a traversal of `b0` from `(sx, sy)` for `p`, standing at
    /// board `self` with the queue of visited cells `q`.
    spec fn walk_inv(
        self,
        b0: SampleBoardManager,
        q: Seq<(usize, usize)>,
        sx: int,
        sy: int,
        p: bool,
        visit: Visit,
        n0: nat,
    ) -> bool {
        &&& self.board@.len() == SLOTS
        &&& self.max_x == b0.max_x
        &&& self.max_y == b0.max_y
        &&& self.moves_counter == b0.moves_counter
        &&& self.crosses_counter == b0.crosses_counter
        &&& forall|a: int, b: int|
            self.in_bounds(a, b) ==> #[trigger] self.cell(a, b) == (SampleCell {
                alive: if self.cell(a, b).checked {
                    visited_alive(b0.cell(a, b), visit, p)
                } else {
                    b0.cell(a, b).alive
                },
                checked: self.cell(a, b).checked,
                ..b0.cell(a, b)
            })
        &&& q.len() >= 1
        &&& q[0] == (sx as usize, sy as usize)
        &&& forall|k: int|
            0 <= k < q.len() ==> b0.in_bounds(#[trigger] q[k].0 as int, q[k].1 as int)
                && self.cell(q[k].0 as int, q[k].1 as int).checked
        &&& forall|a: int, b: int|
            self.in_bounds(a, b) && (#[trigger] self.cell(a, b)).checked ==> exists|k: int|
                0 <= k < q.len() && #[trigger] q[k] == (a as usize, b as usize)
        &&& forall|i: int, j: int| 0 <= i < j < q.len() ==> q[i] != q[j]
        &&& forall|k: int|
            0 <= k < q.len() && b0.expands(sx, sy, p, #[trigger] q[k].0 as int, q[k].1 as int)
                ==> b0.in_region(sx, sy, p, q[k].0 as int, q[k].1 as int)
        &&& forall|k: int|
            0 <= k < q.len() ==> #[trigger] b0.near_region(sx, sy, p, q[k].0 as int, q[k].1 as int)
        &&& q.len() + n_unchecked(self.board@) == n0
    }

    /// Runs `visit` on the cell at `index` for `p`; answers whether the
    /// traversal stops there.
    fn visit_cell(&mut self, index: (usize, usize), p: bool, visit: Visit) -> (stop: bool)
        requires
            old(self).board@.len() == SLOTS,
            old(self).max_x <= CAPACITY && old(self).max_y <= CAPACITY,
            old(self).in_bounds(index.0 as int, index.1 as int),
        ensures
            old(self).same_frame(*final(self)),
            ({
                let c = old(self).cell(index.0 as int, index.1 as int);
                final(self).board@ == old(self).board@.update(
                    index.0 * 16 + index.1,
                    SampleCell { alive: visited_alive(c, visit, p), ..c },
                )
            }),
            forall|a: int, b: int|
                final(self).in_bounds(a, b) ==> #[trigger] final(self).cell(a, b) == if a == index.0
                    && b == index.1 {
                    SampleCell { alive: visited_alive(old(self).cell(a, b), visit, p), ..old(self).cell(a, b) }
                } else {
                    old(self).cell(a, b)
                },
            stop == stops_at(old(self).cell(index.0 as int, index.1 as int), visit, p),
    {
        let mut c = self.get(index);
        let stop = visit == Visit::Search && c.kind == CellKind::Cross && c.player == p;
        if c.kind == CellKind::Filled && c.player == p {
            match visit {
                Visit::Revive => c.set_alive(true),
                Visit::Kill => c.set_alive(false),
                _ => {},
            }
        }
        self.set(index, c);
        stop
    }

    /// One cell `nb` next to the region cell `e` was marked, queued and
    /// visited: the traversal's invariant still holds.
    proof fn lemma_walk_step(
        self,
        b0: SampleBoardManager,
        s0: SampleBoardManager,
        q0: Seq<(usize, usize)>,
        q: Seq<(usize, usize)>,
        sx: int,
        sy: int,
        p: bool,
        visit: Visit,
        n0: nat,
        e: (usize, usize),
        nb: (usize, usize),
    )
        requires
            s0.walk_inv(b0, q0, sx, sy, p, visit, n0),
            b0.in_region(sx, sy, p, e.0 as int, e.1 as int),
            s0.in_bounds(nb.0 as int, nb.1 as int),
            is_adj(e.0 as int, e.1 as int, nb.0 as int, nb.1 as int),
            !s0.cell(nb.0 as int, nb.1 as int).checked,
            q == q0.push(nb),
            self.board@.len() == SLOTS,
            self.max_x == s0.max_x,
            self.max_y == s0.max_y,
            self.moves_counter == s0.moves_counter,
            self.crosses_counter == s0.crosses_counter,
            n_unchecked(self.board@) + 1 == n_unchecked(s0.board@),
            forall|a: int, b: int|
                self.in_bounds(a, b) ==> #[trigger] self.cell(a, b) == if a == nb.0 && b == nb.1 {
                    SampleCell {
                        checked: true,
                        alive: visited_alive(s0.cell(a, b), visit, p),
                        ..s0.cell(a, b)
                    }
                } else {
                    s0.cell(a, b)
                },
        ensures
            self.walk_inv(b0, q, sx, sy, p, visit, n0),
    {
        let nx = nb.0 as int;
        let ny = nb.1 as int;
        assert forall|k: int|
            0 <= k < q.len() implies b0.in_bounds(#[trigger] q[k].0 as int, q[k].1 as int)
                && self.cell(q[k].0 as int, q[k].1 as int).checked by {
            if k < q0.len() {
                assert(q[k] == q0[k]);
                assert(s0.cell(q0[k].0 as int, q0[k].1 as int).checked);
            }
        }
        assert forall|a: int, b: int| self.in_bounds(a, b) && (#[trigger] self.cell(a, b)).checked implies exists|k: int|
            0 <= k < q.len() && #[trigger] q[k] == (a as usize, b as usize) by {
            if a == nx && b == ny {
                assert(q[q0.len() as int] == (a as usize, b as usize));
            } else {
                assert(s0.cell(a, b).checked);
                let k = choose|k: int| 0 <= k < q0.len() && #[trigger] q0[k] == (a as usize, b as usize);
                assert(q[k] == (a as usize, b as usize));
            }
        }
        assert forall|i: int, j: int| 0 <= i < j < q.len() implies q[i] != q[j] by {
            if j == q0.len() {
                assert(s0.cell(q0[i].0 as int, q0[i].1 as int).checked);
            } else {
                assert(q[i] == q0[i] && q[j] == q0[j]);
            }
        }
        let path = choose|path: Seq<(int, int)>| #[trigger] b0.is_path(sx, sy, p, path) && path.last() == (
            e.0 as int,
            e.1 as int,
        );
        assert(b0.near_region(sx, sy, p, nx, ny));
        if b0.expands(sx, sy, p, nx, ny) {
            if nx == sx && ny == sy {
                let single = seq![(sx, sy)];
                assert(b0.is_path(sx, sy, p, single));
            } else {
                let longer = path.push((nx, ny));
                assert forall|i: int| 1 <= i < longer.len() implies is_adj(
                    longer[i - 1].0,
                    longer[i - 1].1,
                    #[trigger] longer[i].0,
                    longer[i].1,
                ) && b0.cell(longer[i].0, longer[i].1).kind == CellKind::Filled && b0.cell(
                    longer[i].0,
                    longer[i].1,
                ).player == p by {
                    if i < path.len() {
                        assert(longer[i] == path[i] && longer[i - 1] == path[i - 1]);
                    }
                }
                assert(b0.is_path(sx, sy, p, longer));
                assert(longer.last() == (nx, ny));
            }
            assert(b0.in_region(sx, sy, p, nx, ny));
        }
        assert forall|k: int|
            0 <= k < q.len() && b0.expands(sx, sy, p, #[trigger] q[k].0 as int, q[k].1 as int)
                implies b0.in_region(sx, sy, p, q[k].0 as int, q[k].1 as int) by {
            if k < q0.len() {
                assert(q[k] == q0[k]);
            }
        }
        assert forall|k: int|
            0 <= k < q.len() implies #[trigger] b0.near_region(sx, sy, p, q[k].0 as int, q[k].1 as int) by {
            if k < q0.len() {
                assert(q[k] == q0[k]);
            }
        }
    }

    /// When no queued region cell has an unmarked neighbor left, every
    /// cell of a path from the seed is marked.
    proof fn lemma_path_marked(
        self,
        b0: SampleBoardManager,
        log: Seq<(usize, usize)>,
        sx: int,
        sy: int,
        p: bool,
        visit: Visit,
        n0: nat,
        path: Seq<(int, int)>,
        i: int,
    )
        requires
            self.walk_inv(b0, log, sx, sy, p, visit, n0),
            b0.in_bounds(sx, sy),
            forall|k: int, u: int, v: int|
                0 <= k < log.len() && b0.expands(sx, sy, p, log[k].0 as int, log[k].1 as int)
                    && self.in_bounds(u, v) && is_adj(#[trigger] log[k].0 as int, log[k].1 as int, u, v)
                    ==> (#[trigger] self.cell(u, v)).checked,
            b0.is_path(sx, sy, p, path),
            0 <= i < path.len(),
        ensures
            b0.in_bounds(path[i].0, path[i].1),
            self.cell(path[i].0, path[i].1).checked,
            b0.expands(sx, sy, p, path[i].0, path[i].1),
        decreases i,
    {
        if i == 0 {
            assert(b0.in_bounds(log[0].0 as int, log[0].1 as int));
        } else {
            self.lemma_path_marked(b0, log, sx, sy, p, visit, n0, path, i - 1);
            let (c, d) = path[i - 1];
            let k = choose|k: int| 0 <= k < log.len() && #[trigger] log[k] == (c as usize, d as usize);
            assert(b0.cell(path[i].0, path[i].1).kind == CellKind::Filled);
            assert(is_adj(log[k].0 as int, log[k].1 as int, path[i].0, path[i].1));
        }
    }

    /// A finished traversal has visited every cell in or next to the
    /// region.
    proof fn lemma_near_marked(
        self,
        b0: SampleBoardManager,
        log: Seq<(usize, usize)>,
        sx: int,
        sy: int,
        p: bool,
        visit: Visit,
        n0: nat,
        a: int,
        b: int,
    )
        requires
            self.walk_inv(b0, log, sx, sy, p, visit, n0),
            b0.in_bounds(sx, sy),
            forall|k: int, u: int, v: int|
                0 <= k < log.len() && b0.expands(sx, sy, p, log[k].0 as int, log[k].1 as int)
                    && self.in_bounds(u, v) && is_adj(#[trigger] log[k].0 as int, log[k].1 as int, u, v)
                    ==> (#[trigger] self.cell(u, v)).checked,
            self.in_bounds(a, b),
            b0.near_region(sx, sy, p, a, b),
        ensures
            log.contains((a as usize, b as usize)),
    {
        if b0.in_region(sx, sy, p, a, b) {
            let path = choose|path: Seq<(int, int)>| #[trigger] b0.is_path(sx, sy, p, path) && path.last() == (a, b);
            self.lemma_path_marked(b0, log, sx, sy, p, visit, n0, path, path.len() - 1);
        } else {
            let (c, d) = choose|c: int, d: int| is_adj(c, d, a, b) && #[trigger] b0.in_region(sx, sy, p, c, d);
            let path = choose|path: Seq<(int, int)>| #[trigger] b0.is_path(sx, sy, p, path) && path.last() == (c, d);
            self.lemma_path_marked(b0, log, sx, sy, p, visit, n0, path, path.len() - 1);
            let k = choose|k: int| 0 <= k < log.len() && #[trigger] log[k] == (c as usize, d as usize);
            assert(is_adj(log[k].0 as int, log[k].1 as int, a, b));
        }
        assert(self.cell(a, b).checked);
        let k = choose|k: int| 0 <= k < log.len() && #[trigger] log[k] == (a as usize, b as usize);
        assert(log[k] == (a as usize, b as usize));
    }

    /// The steps of a breadth-first traversal so far, with `h` the queue
    /// entry being expanded: `log[k]` was met as a neighbor of the region
    /// cell `log[par[k]]`; cells were met in queue order of their region
    /// cell and, around one cell, in direction order; and no cell was met
    /// late, next to a region cell expanded before.
    pub open spec fn bfs_steps(self, log: Seq<(usize, usize)>, par: Seq<int>, h: int) -> bool {
        let sx = log[0].0 as int;
        let sy = log[0].1 as int;
        let p = self.cell(sx, sy).player;
        &&& par.len() == log.len()
        &&& forall|k: int|
            1 <= k < log.len() ==> 0 <= #[trigger] par[k] < k && par[k] <= h && self.expands(
                sx,
                sy,
                p,
                log[par[k]].0 as int,
                log[par[k]].1 as int,
            ) && is_adj(log[par[k]].0 as int, log[par[k]].1 as int, log[k].0 as int, log[k].1 as int)
        &&& forall|i: int, j: int|
            1 <= i < j < log.len() ==> #[trigger] par[i] < #[trigger] par[j] || (par[i] == par[j]
                && dir_from(log[par[i]], log[i]) < dir_from(log[par[j]], log[j]))
        &&& forall|k: int, j: int|
            1 <= k < log.len() && 0 <= j < #[trigger] par[k] && self.expands(
                sx,
                sy,
                p,
                #[trigger] log[j].0 as int,
                log[j].1 as int,
            ) ==> !is_adj(log[j].0 as int, log[j].1 as int, log[k].0 as int, log[k].1 as int)
    }

    /// The neighbor `(a, b)` of `log[j]` was looked at before the traversal
    /// ended: always when it did not stop, else when it came before the
    /// cell it stopped at.
    pub open spec fn bfs_finished(
        self,
        log: Seq<(usize, usize)>,
        par: Seq<int>,
        found: Option<(usize, usize)>,
        j: int,
        a: int,
        b: int,
    ) -> bool {
        match found {
            None => true,
            Some(f) => j < par.last() || (j == par.last() && dir_of(a - log[j].0, b - log[j].1)
                <= dir_from(log[j], f)),
        }
    }

    /// `log` is the order of a breadth-first traversal from `(sx, sy)` that
    /// takes neighbors in direction order, up to where it stopped: its steps
    /// are breadth-first, and every neighbor of a region cell that was
    /// looked at is in the log.
    pub open spec fn bfs_order(
        self,
        sx: int,
        sy: int,
        p: bool,
        log: Seq<(usize, usize)>,
        par: Seq<int>,
        found: Option<(usize, usize)>,
    ) -> bool {
        &&& self.bfs_steps(log, par, log.len() as int)
        &&& forall|j: int, a: int, b: int|
            0 <= j < log.len() && self.expands(sx, sy, p, log[j].0 as int, log[j].1 as int)
                && self.in_bounds(a, b) && is_adj(log[j].0 as int, log[j].1 as int, a, b)
                && #[trigger] self.bfs_finished(log, par, found, j, a, b) ==> log.contains((a as usize, b as usize))
    }

    /// `new` is this board after a traversal from `(sx, sy)` with `visit`
    /// that visited the cells of `log` in that order and stopped at `found`,
    /// if anywhere: the cells of the log are distinct and lie in or next to
    /// the seed's region, and only they were visited. A traversal that did
    /// not stop visited the whole region and every cell next to it.
    pub open spec fn walked(
        self,
        new: SampleBoardManager,
        sx: int,
        sy: int,
        visit: Visit,
        log: Seq<(usize, usize)>,
        found: Option<(usize, usize)>,
    ) -> bool {
        let p = self.cell(sx, sy).player;
        &&& new.board@.len() == SLOTS
        &&& new.max_x == self.max_x
        &&& new.max_y == self.max_y
        &&& new.moves_counter == self.moves_counter
        &&& new.crosses_counter == self.crosses_counter
        &&& log.len() >= 1
        &&& log[0] == (sx as usize, sy as usize)
        &&& forall|k: int| 0 <= k < log.len() ==> self.in_bounds(#[trigger] log[k].0 as int, log[k].1 as int)
        &&& forall|i: int, j: int| 0 <= i < j < log.len() ==> log[i] != log[j]
        &&& exists|par: Seq<int>| #[trigger] self.bfs_order(sx, sy, p, log, par, found)
        &&& forall|k: int|
            0 <= k < log.len() ==> #[trigger] self.near_region(sx, sy, p, log[k].0 as int, log[k].1 as int)
        &&& forall|a: int, b: int|
            new.in_bounds(a, b) ==> #[trigger] new.cell(a, b) == (SampleCell {
                alive: if log.contains((a as usize, b as usize)) {
                    visited_alive(self.cell(a, b), visit, p)
                } else {
                    self.cell(a, b).alive
                },
                ..self.cell(a, b)
            })
        &&& match found {
            None => {
                &&& forall|a: int, b: int|
                    self.in_bounds(a, b) && #[trigger] self.near_region(sx, sy, p, a, b)
                        ==> log.contains((a as usize, b as usize))
                &&& forall|k: int| 0 < k < log.len() ==> !stops_at(self.cell(#[trigger] log[k].0 as int, log[k].1 as int), visit, p)
            },
            Some(f) => {
                &&& log.len() >= 2
                &&& log.last() == f
                &&& stops_at(self.cell(f.0 as int, f.1 as int), visit, p)
                &&& forall|k: int| 0 < k < log.len() - 1 ==> !stops_at(self.cell(#[trigger] log[k].0 as int, log[k].1 as int), visit, p)
            },
        }
    }

    /// Breadth-first traversal from the claimed cell `index` through the
    /// territory of its owner, running `visit` on every cell it meets;
    /// answers the visited cells in order and where it stopped, if it did.
    pub fn traverse(&mut self, index: (usize, usize), visit: Visit) -> (r: (Vec<(usize, usize)>, Option<(usize, usize)>))
        requires
            old(self).wf(),
            old(self).in_bounds(index.0 as int, index.1 as int),
            old(self).cell(index.0 as int, index.1 as int).is_claimed(),
        ensures
            final(self).wf(),
            old(self).walked(*final(self), index.0 as int, index.1 as int, visit, r.0@, r.1),
    {
        let ghost b0 = *self;
        let ghost sx = index.0 as int;
        let ghost sy = index.1 as int;
        self.clear_checked();
        assert forall|a: int, b: int| self.in_bounds(a, b) implies #[trigger] self.cell(a, b) == b0.cell(a, b) by {}
        let p = self.get(index).player;
        let ghost n0 = n_unchecked(self.board@);
        let mut q: Vec<(usize, usize)> = Vec::new();
        let mut c = self.get(index);
        c.set_checked(true);
        proof {
            lemma_n_unchecked_update(self.board@, index.0 * 16 + index.1, c);
        }
        self.set(index, c);
        q.push(index);
        let ghost s1 = *self;
        self.visit_cell(index, p, visit);
        proof {
            let c1 = s1.cell(sx, sy);
            lemma_n_unchecked_update(s1.board@, index.0 * 16 + index.1, SampleCell { alive: visited_alive(c1, visit, p), ..c1 });
            assert(s1.board@.update(index.0 * 16 + index.1, SampleCell { alive: visited_alive(c1, visit, p), ..c1 }) == self.board@);
            let single = seq![(sx, sy)];
            assert(b0.is_path(sx, sy, p, single));
            assert(b0.in_region(sx, sy, p, sx, sy));
            assert(b0.near_region(sx, sy, p, q@[0].0 as int, q@[0].1 as int));
            assert forall|a: int, b: int| self.in_bounds(a, b) && (#[trigger] self.cell(a, b)).checked implies exists|k: int|
                0 <= k < q@.len() && #[trigger] q@[k] == (a as usize, b as usize) by {
                assert(q@[0] == (a as usize, b as usize));
            }
        }
        let ghost mut par: Seq<int> = seq![0int];
        let mut found: Option<(usize, usize)> = None;
        let mut h: usize = 0;
        while h < q.len() && found.is_none()
            invariant
                self.walk_inv(b0, q@, sx, sy, p, visit, n0),
                b0.wf(),
                b0.in_bounds(sx, sy),
                sx == index.0 as int && sy == index.1 as int,
                p == b0.cell(sx, sy).player,
                h <= q@.len(),
                forall|k: int, a: int, b: int|
                    0 <= k < h && b0.expands(sx, sy, p, q@[k].0 as int, q@[k].1 as int)
                        && self.in_bounds(a, b) && is_adj(#[trigger] q@[k].0 as int, q@[k].1 as int, a, b)
                        ==> (#[trigger] self.cell(a, b)).checked,
                found is None ==> forall|k: int| 0 < k < q@.len() ==> !stops_at(b0.cell(#[trigger] q@[k].0 as int, q@[k].1 as int), visit, p),
                b0.bfs_steps(q@, par, h as int),
                found is None ==> forall|k: int| 1 <= k < q@.len() ==> #[trigger] par[k] < h,
                found matches Some(f) ==> h < q@.len() && par.last() == h && forall|a: int, b: int|
                    self.in_bounds(a, b) && is_adj(q@[h as int].0 as int, q@[h as int].1 as int, a, b)
                        && dir_of(a - q@[h as int].0, b - q@[h as int].1) <= dir_from(q@[h as int], f)
                        ==> (#[trigger] self.cell(a, b)).checked,
                found matches Some(f) ==> q@.len() >= 2 && q@.last() == f && stops_at(b0.cell(f.0 as int, f.1 as int), visit, p)
                    && forall|k: int| 0 < k < q@.len() - 1 ==> !stops_at(b0.cell(#[trigger] q@[k].0 as int, q@[k].1 as int), visit, p),
            decreases n0 - h, (if found is None { 1int } else { 0int }),
        {
            let e = q[h];
            proof {
                assert(b0.in_bounds(q@[h as int].0 as int, q@[h as int].1 as int));
                assert(self.cell(e.0 as int, e.1 as int).kind == b0.cell(e.0 as int, e.1 as int).kind);
                assert(self.cell(e.0 as int, e.1 as int).player == b0.cell(e.0 as int, e.1 as int).player);
            }
            let ec = self.get(e);
            let expand = (e.0 == index.0 && e.1 == index.1) || (ec.kind == CellKind::Filled && ec.player
                == p);
            assert(expand == b0.expands(sx, sy, p, e.0 as int, e.1 as int));
            if expand {
                let mut d: usize = 0;
                while d < 8 && found.is_none()
                    invariant
                        self.walk_inv(b0, q@, sx, sy, p, visit, n0),
                        b0.wf(),
                        b0.in_bounds(sx, sy),
                        sx == index.0 as int && sy == index.1 as int,
                        p == b0.cell(sx, sy).player,
                        h < q@.len(),
                        e == q@[h as int],
                        b0.expands(sx, sy, p, e.0 as int, e.1 as int),
                        d <= 8,
                        forall|k: int, a: int, b: int|
                            0 <= k < h && b0.expands(sx, sy, p, q@[k].0 as int, q@[k].1 as int)
                                && self.in_bounds(a, b) && is_adj(#[trigger] q@[k].0 as int, q@[k].1 as int, a, b)
                                ==> (#[trigger] self.cell(a, b)).checked,
                        forall|a: int, b: int|
                            self.in_bounds(a, b) && adj_before(e.0 as int, e.1 as int, a, b, d as int)
                                ==> (#[trigger] self.cell(a, b)).checked,
                        b0.bfs_steps(q@, par, h as int),
                        forall|k: int|
                            1 <= k < q@.len() ==> #[trigger] par[k] < h || (par[k] == h && dir_from(e, q@[k]) < d),
                        found matches Some(f) ==> par.last() == h && d == dir_from(e, f) + 1,
                        found is None ==> forall|k: int| 0 < k < q@.len() ==> !stops_at(b0.cell(#[trigger] q@[k].0 as int, q@[k].1 as int), visit, p),
                        found matches Some(f) ==> q@.len() >= 2 && q@.last() == f && stops_at(b0.cell(f.0 as int, f.1 as int), visit, p)
                            && forall|k: int| 0 < k < q@.len() - 1 ==> !stops_at(b0.cell(#[trigger] q@[k].0 as int, q@[k].1 as int), visit, p),
                    decreases 8 - d,
                {
                    let ghost nx = e.0 + dx(d as int);
                    let ghost ny = e.1 + dy(d as int);
                    proof {
                        assert forall|a: int, b: int| #[trigger] adj_before(e.0 as int, e.1 as int, a, b, d + 1)
                            <==> adj_before(e.0 as int, e.1 as int, a, b, d as int) || (a == nx && b == ny) by {
                            lemma_dir(e.0 as int, e.1 as int, a, b, d as int);
                        }
                    }
                    if let Some(nb) = self.neighbor(e.0, e.1, d) {
                        let mut nc = self.get(nb);
                        if !nc.checked {
                            let ghost s0 = *self;
                            let ghost q0 = q@;
                            proof {
                                lemma_dir(e.0 as int, e.1 as int, nx, ny, d as int);
                                lemma_n_unchecked_update(self.board@, nb.0 * 16 + nb.1, SampleCell { checked: true, ..nc });
                            }
                            nc.set_checked(true);
                            self.set(nb, nc);
                            q.push(nb);
                            let ghost s1 = *self;
                            let stop = self.visit_cell(nb, p, visit);
                            proof {
                                let c1 = s1.cell(nx, ny);
                                lemma_n_unchecked_update(s1.board@, nb.0 * 16 + nb.1, SampleCell { alive: visited_alive(c1, visit, p), ..c1 });
                                self.lemma_walk_step(b0, s0, q0, q@, sx, sy, p, visit, n0, e, nb);
                                assert(dir_from(e, nb) == d);
                                assert forall|j: int|
                                    0 <= j < h && b0.expands(sx, sy, p, q0[j].0 as int, q0[j].1 as int) implies !is_adj(
                                    q0[j].0 as int,
                                    q0[j].1 as int,
                                    nx,
                                    ny,
                                ) by {
                                    if is_adj(q0[j].0 as int, q0[j].1 as int, nx, ny) {
                                        assert(s0.cell(nx, ny).checked);
                                    }
                                }
                                lemma_bfs_push(b0, q0, par, h as int, nb, d as int);
                                par = par.push(h as int);
                            }
                            if stop {
                                found = Some(nb);
                            }
                        }
                    }
                    d = d + 1;
                }
                proof {
                    if found is None {
                        assert forall|a: int, b: int| is_adj(e.0 as int, e.1 as int, a, b) implies #[trigger] adj_before(
                            e.0 as int, e.1 as int, a, b, 8) by {
                            lemma_dir(e.0 as int, e.1 as int, a, b, 0);
                        }
                    }
                }
            }
            proof {
                if found is None {
                    assert forall|k: int, a: int, b: int|
                        0 <= k < h + 1 && b0.expands(sx, sy, p, q@[k].0 as int, q@[k].1 as int)
                            && self.in_bounds(a, b) && is_adj(#[trigger] q@[k].0 as int, q@[k].1 as int, a, b)
                            implies (#[trigger] self.cell(a, b)).checked by {
                        if k == h {
                            assert(q@[k] == e);
                            if expand {
                                assert(adj_before(e.0 as int, e.1 as int, a, b, 8));
                            }
                        }
                    }
                }
            }
            if found.is_none() {
                h = h + 1;
            }
        }
        let ghost s2 = *self;
        let ghost log = q@;
        proof {
            assert forall|a: int, b: int| s2.in_bounds(a, b) implies (#[trigger] s2.cell(a, b)).checked
                == log.contains((a as usize, b as usize)) by {
                if s2.cell(a, b).checked {
                    let k = choose|k: int| 0 <= k < log.len() && #[trigger] log[k] == (a as usize, b as usize);
                }
                if log.contains((a as usize, b as usize)) {
                    let k = choose|k: int| 0 <= k < log.len() && log[k] == (a as usize, b as usize);
                    assert(b0.in_bounds(log[k].0 as int, log[k].1 as int));
                }
            }
            assert forall|j: int, a: int, b: int|
                0 <= j < log.len() && b0.expands(sx, sy, p, log[j].0 as int, log[j].1 as int)
                    && b0.in_bounds(a, b) && is_adj(log[j].0 as int, log[j].1 as int, a, b)
                    && #[trigger] b0.bfs_finished(log, par, found, j, a, b) implies log.contains((a as usize, b as usize)) by {
                assert(s2.in_bounds(a, b));
                assert(s2.cell(a, b).checked);
            }
            assert(b0.bfs_order(sx, sy, p, log, par, found));
            if found is None {
                assert forall|a: int, b: int| s2.in_bounds(a, b) && #[trigger] b0.near_region(sx, sy, p, a, b)
                    implies log.contains((a as usize, b as usize)) by {
                    s2.lemma_near_marked(b0, log, sx, sy, p, visit, n0, a, b);
                }
            }
        }
        self.clear_checked();
        proof {
            assert forall|a: int, b: int| self.in_bounds(a, b) implies cell_ok(#[trigger] self.cell(a, b)) by {
                assert(s2.cell(a, b).checked == log.contains((a as usize, b as usize)));
                assert(cell_ok(b0.cell(a, b)));
            }
            assert forall|a: int, b: int| self.in_bounds(a, b) implies #[trigger] self.cell(a, b) == (SampleCell {
                alive: if log.contains((a as usize, b as usize)) {
                    visited_alive(b0.cell(a, b), visit, p)
                } else {
                    b0.cell(a, b).alive
                },
                ..b0.cell(a, b)
            }) by {
                assert(s2.cell(a, b).checked == log.contains((a as usize, b as usize)));
                assert(cell_ok(b0.cell(a, b)));
            }
        }
        (q, found)
    }

    /// `new` is this board after `visit` ran over the region of the seed
    /// `(sx, sy)` and every cell next to it.
    pub open spec fn region_visited(self, new: SampleBoardManager, sx: int, sy: int, visit: Visit) -> bool {
        let p = self.cell(sx, sy).player;
        &&& self.same_frame(new)
        &&& forall|a: int, b: int|
            new.in_bounds(a, b) ==> #[trigger] new.cell(a, b) == (SampleCell {
                alive: if self.near_region(sx, sy, p, a, b) {
                    visited_alive(self.cell(a, b), visit, p)
                } else {
                    self.cell(a, b).alive
                },
                ..self.cell(a, b)
            })
    }

    /// Runs `visit`, which never stops early, over the region of `index`.
    fn sweep(&mut self, index: (usize, usize), visit: Visit) -> (log: Vec<(usize, usize)>)
        requires
            old(self).wf(),
            old(self).in_bounds(index.0 as int, index.1 as int),
            old(self).cell(index.0 as int, index.1 as int).is_claimed(),
            visit != Visit::Search,
        ensures
            final(self).wf(),
            old(self).region_visited(*final(self), index.0 as int, index.1 as int, visit),
            log@.len() >= 1,
            log@[0] == index,
            forall|i: int, j: int| 0 <= i < j < log@.len() ==> log@[i] != log@[j],
            exists|par: Seq<int>|
                #[trigger] old(self).bfs_order(
                    index.0 as int,
                    index.1 as int,
                    old(self).cell(index.0 as int, index.1 as int).player,
                    log@,
                    par,
                    None,
                ),
            forall|a: int, b: int|
                old(self).in_bounds(a, b) ==> (log@.contains((a as usize, b as usize))
                    <==> #[trigger] old(self).near_region(
                    index.0 as int,
                    index.1 as int,
                    old(self).cell(index.0 as int, index.1 as int).player,
                    a,
                    b,
                )),
    {
        let ghost b0 = *self;
        let ghost p = b0.cell(index.0 as int, index.1 as int).player;
        let (log, found) = self.traverse(index, visit);
        proof {
            assert(found is None);
            assert forall|a: int, b: int| b0.in_bounds(a, b) implies (log@.contains((a as usize, b as usize))
                <==> #[trigger] b0.near_region(index.0 as int, index.1 as int, p, a, b)) by {
                if log@.contains((a as usize, b as usize)) {
                    let k = choose|k: int| 0 <= k < log@.len() && log@[k] == (a as usize, b as usize);
                    assert(b0.in_bounds(log@[k].0 as int, log@[k].1 as int));
                    assert(b0.near_region(index.0 as int, index.1 as int, p, log@[k].0 as int, log@[k].1 as int));
                }
            }
            assert forall|a: int, b: int| self.in_bounds(a, b) implies #[trigger] self.cell(a, b) == (SampleCell {
                alive: if b0.near_region(index.0 as int, index.1 as int, p, a, b) {
                    visited_alive(b0.cell(a, b), visit, p)
                } else {
                    b0.cell(a, b).alive
                },
                ..b0.cell(a, b)
            }) by {
                assert(log@.contains((a as usize, b as usize)) == b0.near_region(index.0 as int, index.1 as int, p, a, b));
            }
        }
        log
    }

    /// Marks alive all territory of the owner of `index` in its region.
    pub fn revive(&mut self, index: (usize, usize))
        requires
            old(self).wf(),
            old(self).in_bounds(index.0 as int, index.1 as int),
            old(self).cell(index.0 as int, index.1 as int).is_claimed(),
        ensures
            final(self).wf(),
            old(self).region_visited(*final(self), index.0 as int, index.1 as int, Visit::Revive),
    {
        self.sweep(index, Visit::Revive);
    }

    /// Marks dead all territory of the owner of `index` in its region.
    pub fn kill(&mut self, index: (usize, usize))
        requires
            old(self).wf(),
            old(self).in_bounds(index.0 as int, index.1 as int),
            old(self).cell(index.0 as int, index.1 as int).is_claimed(),
        ensures
            final(self).wf(),
            old(self).region_visited(*final(self), index.0 as int, index.1 as int, Visit::Kill),
    {
        self.sweep(index, Visit::Kill);
    }

    /// The cells of the region of `index` and next to it, each once, in the
    /// order of a breadth-first traversal that takes neighbors in direction
    /// order; the board is left as it was.
    pub fn region(&mut self, index: (usize, usize)) -> (log: Vec<(usize, usize)>)
        requires
            old(self).wf(),
            old(self).in_bounds(index.0 as int, index.1 as int),
            old(self).cell(index.0 as int, index.1 as int).is_claimed(),
        ensures
            final(self).wf(),
            old(self).same_frame(*final(self)),
            forall|a: int, b: int| #[trigger] final(self).cell(a, b) == old(self).cell(a, b),
            log@.len() >= 1,
            log@[0] == index,
            forall|i: int, j: int| 0 <= i < j < log@.len() ==> log@[i] != log@[j],
            exists|par: Seq<int>|
                #[trigger] old(self).bfs_order(
                    index.0 as int,
                    index.1 as int,
                    old(self).cell(index.0 as int, index.1 as int).player,
                    log@,
                    par,
                    None,
                ),
            forall|a: int, b: int|
                old(self).in_bounds(a, b) ==> (log@.contains((a as usize, b as usize))
                    <==> #[trigger] old(self).near_region(
                    index.0 as int,
                    index.1 as int,
                    old(self).cell(index.0 as int, index.1 as int).player,
                    a,
                    b,
                )),
    {
        let ghost b0 = *self;
        let log = self.sweep(index, Visit::Collect);
        assert forall|a: int, b: int| #[trigger] self.cell(a, b) == b0.cell(a, b) by {
            if self.in_bounds(a, b) {
            }
        }
        log
    }

    /// Looks for a cross of the owner of `index` in or next to its region,
    /// the seed aside; the traversal stops at the first one it meets, in
    /// breadth-first order, and answers it. The board is left as it was.
    pub fn search(&mut self, index: (usize, usize)) -> (r: Option<(usize, usize)>)
        requires
            old(self).wf(),
            old(self).in_bounds(index.0 as int, index.1 as int),
            old(self).cell(index.0 as int, index.1 as int).is_claimed(),
        ensures
            final(self).wf(),
            old(self).same_frame(*final(self)),
            forall|a: int, b: int| #[trigger] final(self).cell(a, b) == old(self).cell(a, b),
            ({
                let p = old(self).cell(index.0 as int, index.1 as int).player;
                match r {
                    Some(f) => {
                        &&& old(self).in_bounds(f.0 as int, f.1 as int)
                        &&& f != index
                        &&& old(self).near_region(index.0 as int, index.1 as int, p, f.0 as int, f.1 as int)
                        &&& old(self).cell(f.0 as int, f.1 as int).kind == CellKind::Cross
                        &&& old(self).cell(f.0 as int, f.1 as int).player == p
                        &&& exists|log: Seq<(usize, usize)>, par: Seq<int>|
                            #[trigger] old(self).bfs_order(index.0 as int, index.1 as int, p, log, par, r)
                                && log[0] == index && log.last() == f && (forall|i: int, j: int|
                                0 <= i < j < log.len() ==> log[i] != log[j]) && (forall|k: int|
                                0 < k < log.len() - 1 ==> !stops_at(
                                old(self).cell(#[trigger] log[k].0 as int, log[k].1 as int),
                                Visit::Search,
                                p,
                            ))
                    },
                    None => forall|a: int, b: int|
                        old(self).in_bounds(a, b) && !(a == index.0 && b == index.1)
                            && #[trigger] old(self).near_region(index.0 as int, index.1 as int, p, a, b)
                            ==> !(old(self).cell(a, b).kind == CellKind::Cross && old(self).cell(a, b).player == p),
                }
            }),
    {
        let ghost b0 = *self;
        let ghost p = b0.cell(index.0 as int, index.1 as int).player;
        let (log, found) = self.traverse(index, Visit::Search);
        proof {
            assert forall|a: int, b: int| #[trigger] self.cell(a, b) == b0.cell(a, b) by {
                if self.in_bounds(a, b) {
                }
            }
            match found {
                Some(f) => {
                    let k = log@.len() - 1;
                    assert(log@[k] == f);
                    let par = choose|par: Seq<int>| #[trigger] b0.bfs_order(index.0 as int, index.1 as int, p, log@, par, found);
                    assert(b0.bfs_order(index.0 as int, index.1 as int, p, log@, par, found));
                    assert(b0.in_bounds(log@[k].0 as int, log@[k].1 as int));
                    assert(b0.near_region(index.0 as int, index.1 as int, p, log@[k].0 as int, log@[k].1 as int));
                    assert(log@[0] != log@[k]);
                },
                None => {
                    assert forall|a: int, b: int|
                        b0.in_bounds(a, b) && !(a == index.0 && b == index.1)
                            && #[trigger] b0.near_region(index.0 as int, index.1 as int, p, a, b)
                            implies !(b0.cell(a, b).kind == CellKind::Cross && b0.cell(a, b).player == p) by {
                        assert(log@.contains((a as usize, b as usize)));
                        let k = choose|k: int| 0 <= k < log@.len() && log@[k] == (a as usize, b as usize);
                        assert(k != 0);
                        assert(!stops_at(b0.cell(log@[k].0 as int, log@[k].1 as int), Visit::Search, p));
                    }
                },
            }
        }
        found
    }

    /// Whether this board is well formed, for boards that come from outside
    /// (a saved game).
    pub fn is_well_formed(&self) -> (r: bool)
        ensures
            r == self.wf(),
    {
        if self.board.len() != SLOTS || !(1 < self.max_x && self.max_x <= CAPACITY && 1 < self.max_y
            && self.max_y <= CAPACITY) {
            return false;
        }
        let mut x: usize = 0;
        while x < self.max_x
            invariant
                x <= self.max_x,
                self.board@.len() == SLOTS,
                1 < self.max_x <= CAPACITY && 1 < self.max_y <= CAPACITY,
                forall|a: int, b: int|
                    0 <= a < x && 0 <= b < self.max_y ==> cell_ok(#[trigger] self.cell(a, b)),
            decreases self.max_x - x,
        {
            let mut y: usize = 0;
            while y < self.max_y
                invariant
                    y <= self.max_y,
                    x < self.max_x,
                    self.board@.len() == SLOTS,
                    1 < self.max_x <= CAPACITY && 1 < self.max_y <= CAPACITY,
                    forall|a: int, b: int|
                        0 <= a < x && 0 <= b < self.max_y ==> cell_ok(#[trigger] self.cell(a, b)),
                    forall|b: int| 0 <= b < y ==> cell_ok(#[trigger] self.cell(x as int, b)),
                decreases self.max_y - y,
            {
                let c = self.get((x, y));
                if !cell_is_ok(&c) {
                    return false;
                }
                y = y + 1;
            }
            x = x + 1;
        }
        true
    }

    /// Reads a cell; any coordinate outside the board reads as a border.
    pub fn get(&self, index: (usize, usize)) -> (r: SampleCell)
        requires
            self.board@.len() == SLOTS,
            self.max_x <= CAPACITY && self.max_y <= CAPACITY,
        ensures
            r == self.cell(index.0 as int, index.1 as int),
    {
        if index.0 < self.max_x && index.1 < self.max_y && index.0 < CAPACITY && index.1
            < CAPACITY {
            self.board[index.0 * CAPACITY + index.1]
        } else {
            SampleCell::border()
        }
    }

    /// Writes a cell of the board.
    pub fn set(&mut self, index: (usize, usize), cell: SampleCell)
        requires
            old(self).board@.len() == SLOTS,
            old(self).max_x <= CAPACITY && old(self).max_y <= CAPACITY,
            old(self).in_bounds(index.0 as int, index.1 as int),
        ensures
            old(self).same_frame(*final(self)),
            final(self).board@ == old(self).board@.update(index.0 * 16 + index.1, cell),
            old(self).wf() && cell_ok(cell) ==> final(self).wf(),
            forall|a: int, b: int|
                final(self).in_bounds(a, b) ==> #[trigger] final(self).cell(a, b) == if a
                    == index.0 && b == index.1 {
                    cell
                } else {
                    old(self).cell(a, b)
                },
    {
        let i = index.0 * CAPACITY + index.1;
        self.board.set(i, cell);
        assert forall|a: int, b: int| self.in_bounds(a, b) implies #[trigger] self.cell(a, b)
            == if a == index.0 && b == index.1 {
            cell
        } else {
            old(self).cell(a, b)
        } by {
            if !(a == index.0 && b == index.1) {
                assert(a * 16 + b != i);
            }
        }
    }

    /// Replaces both tallies, leaving every cell as it is.
    fn set_tallies(&mut self, crosses: [i64; 2], moves: [i64; 2])
        ensures
            final(self).board == old(self).board,
            final(self).max_x == old(self).max_x,
            final(self).max_y == old(self).max_y,
            final(self).crosses_counter == crosses,
            final(self).moves_counter == moves,
            forall|a: int, b: int| #[trigger] final(self).cell(a, b) == old(self).cell(a, b),
            old(self).wf() ==> final(self).wf(),
    {
        self.crosses_counter = crosses;
        self.moves_counter = moves;
        assert forall|a: int, b: int| #[trigger] self.cell(a, b) == old(self).cell(a, b) by {}
        proof {
            if old(self).wf() {
                assert forall|a: int, b: int| self.in_bounds(a, b) implies cell_ok(
                    #[trigger] self.cell(a, b),
                ) by {
                    assert(old(self).cell(a, b) == self.cell(a, b));
                }
            }
        }
    }

    /// The eight neighbors of `index` in the order NW, N, NE, W, E, SW, S,
    /// SE; they may lie outside the board.
    pub fn adjacent(index: (usize, usize)) -> (r: [(usize, usize); 8])
        ensures
            forall|d: int|
                0 <= d < 8 ==> #[trigger] r[d] == (
                step(index.0, dx(d)),
                step(index.1, dy(d)),
            ),
    {
        let (x, y) = index;
        let xm = if x == 0 { usize::MAX } else { x - 1 };
        let xp = if x == usize::MAX { 0 } else { x + 1 };
        let ym = if y == 0 { usize::MAX } else { y - 1 };
        let yp = if y == usize::MAX { 0 } else { y + 1 };
        let r = [(xm, ym), (x, ym), (xp, ym), (xm, y), (xp, y), (xm, yp), (x, yp), (xp, yp)];
        assert forall|d: int| 0 <= d < 8 implies #[trigger] r[d] == (
            step(index.0, dx(d)),
            step(index.1, dy(d)),
        ) by {
            if d == 0 {} else if d == 1 {} else if d == 2 {} else if d == 3 {} else if d == 4 {
            } else if d == 5 {} else if d == 6 {} else {}
        }
        r
    }

    /// Applies `t` to every neighbor of `(x, y)` on the board, in direction
    /// order; answers whether some neighbor saturated.
    fn touch_around(&mut self, x: usize, y: usize, t: Touch) -> (hot: bool)
        requires
            old(self).wf(),
            old(self).in_bounds(x as int, y as int),
        ensures
            final(self).wf(),
            old(self).same_frame(*final(self)),
            forall|a: int, b: int|
                final(self).in_bounds(a, b) ==> #[trigger] final(self).cell(a, b) == if is_adj(
                    x as int,
                    y as int,
                    a,
                    b,
                ) {
                    touched(old(self).cell(a, b), t)
                } else {
                    old(self).cell(a, b)
                },
            hot == exists|a: int, b: int|
                old(self).in_bounds(a, b) && is_adj(x as int, y as int, a, b) && touch_hot(
                    #[trigger] old(self).cell(a, b),
                    t,
                ),
    {
        let ghost b0 = *self;
        let mut hot = false;
        let mut d: usize = 0;
        while d < 8
            invariant
                d <= 8,
                self.wf(),
                b0.wf(),
                b0.in_bounds(x as int, y as int),
                b0.same_frame(*self),
                forall|a: int, b: int|
                    self.in_bounds(a, b) ==> #[trigger] self.cell(a, b) == if adj_before(
                        x as int,
                        y as int,
                        a,
                        b,
                        d as int,
                    ) {
                        touched(b0.cell(a, b), t)
                    } else {
                        b0.cell(a, b)
                    },
                hot == exists|a: int, b: int|
                    b0.in_bounds(a, b) && adj_before(x as int, y as int, a, b, d as int)
                        && touch_hot(#[trigger] b0.cell(a, b), t),
            decreases 8 - d,
        {
            let ghost prev = *self;
            let ghost nx = x + dx(d as int);
            let ghost ny = y + dy(d as int);
            proof {
                assert forall|a: int, b: int| #[trigger] adj_before(x as int, y as int, a, b, d + 1)
                    <==> adj_before(x as int, y as int, a, b, d as int) || (a == nx && b == ny) by {
                    lemma_dir(x as int, y as int, a, b, d as int);
                }
            }
            match self.neighbor(x, y, d) {
                Some(idx) => {
                    let mut c = self.get(idx);
                    let h = touch_cell(&mut c, t);
                    self.set(idx, c);
                    hot = hot || h;
                    proof {
                        if h {
                            assert(b0.in_bounds(nx, ny) && adj_before(x as int, y as int, nx, ny, d + 1)
                                && touch_hot(b0.cell(nx, ny), t));
                        }
                    }
                },
                None => {},
            }
            d = d + 1;
        }
        proof {
            assert forall|a: int, b: int| is_adj(x as int, y as int, a, b) implies #[trigger] adj_before(
                x as int,
                y as int,
                a,
                b,
                8,
            ) by {
                lemma_dir(x as int, y as int, a, b, 0);
            }
        }
        hot
    }

    /// Whether some neighbor of `(x, y)` is alive territory of `p`.
    fn is_alive_filled_around(&self, x: usize, y: usize, p: bool) -> (r: bool)
        requires
            self.wf(),
            self.in_bounds(x as int, y as int),
        ensures
            r == self.alive_around(x as int, y as int, p),
    {
        let mut d: usize = 0;
        while d < 8
            invariant
                d <= 8,
                self.wf(),
                self.in_bounds(x as int, y as int),
                forall|a: int, b: int|
                    self.in_bounds(a, b) && adj_before(x as int, y as int, a, b, d as int)
                        ==> !(#[trigger] self.cell(a, b).kind == CellKind::Filled
                        && self.cell(a, b).player == p && self.cell(a, b).alive),
            decreases 8 - d,
        {
            let ghost nx = x + dx(d as int);
            let ghost ny = y + dy(d as int);
            proof {
                assert forall|a: int, b: int| #[trigger] adj_before(x as int, y as int, a, b, d + 1)
                    <==> adj_before(x as int, y as int, a, b, d as int) || (a == nx && b == ny) by {
                    lemma_dir(x as int, y as int, a, b, d as int);
                }
            }
            if let Some(idx) = self.neighbor(x, y, d) {
                let c = self.get(idx);
                if c.kind == CellKind::Filled && c.player == p && c.alive {
                    proof {
                        lemma_dir(x as int, y as int, nx, ny, d as int);
                        assert(self.cell(nx, ny).kind == CellKind::Filled);
                    }
                    return true;
                }
            }
            d = d + 1;
        }
        proof {
            assert forall|a: int, b: int| is_adj(x as int, y as int, a, b) implies #[trigger] adj_before(
                x as int,
                y as int,
                a,
                b,
                8,
            ) by {
                lemma_dir(x as int, y as int, a, b, 0);
            }
        }
        false
    }

    /// The neighbor of `(x, y)` in direction `d`, when it lies on the board.
    fn neighbor(&self, x: usize, y: usize, d: usize) -> (r: Option<(usize, usize)>)
        requires
            d < 8,
            self.in_bounds(x as int, y as int),
        ensures
            self.in_bounds(x + dx(d as int), y + dy(d as int)) ==> r == Some(
                ((x + dx(d as int)) as usize, (y + dy(d as int)) as usize),
            ),
            !self.in_bounds(x + dx(d as int), y + dy(d as int)) ==> r.is_none(),
    {
        let nx: usize;
        let ny: usize;
        if d == 0 || d == 3 || d == 5 {
            if x == 0 {
                return None;
            }
            nx = x - 1;
        } else if d == 1 || d == 6 {
            nx = x;
        } else {
            if x + 1 >= self.max_x {
                return None;
            }
            nx = x + 1;
        }
        if d < 3 {
            if y == 0 {
                return None;
            }
            ny = y - 1;
        } else if d < 5 {
            ny = y;
        } else {
            if y + 1 >= self.max_y {
                return None;
            }
            ny = y + 1;
        }
        Some((nx, ny))
    }
}

impl Default for SampleBoardManager {
    /// A fresh 10 by 10 board.
    fn default() -> (r: SampleBoardManager)
        ensures
            r.is_fresh(10, 10),
    {
        SampleBoardManager::new(10, 10)
    }
}

/// A successful move only moves the played cell forward, from empty to
/// cross or from cross to filled, and re-types no other cell.
pub proof fn lemma_move_kinds(b0: SampleBoardManager, b1: SampleBoardManager, x: int, y: int, p: bool)
    requires
        b0.wf(),
        b0.move_error(x, y, p) is None,
        b0.moved(b1, x, y, p),
    ensures
        (b0.cell(x, y).kind == CellKind::Empty && b1.cell(x, y).kind == CellKind::Cross) || (b0.cell(
            x,
            y,
        ).kind == CellKind::Cross && b1.cell(x, y).kind == CellKind::Filled),
        forall|a: int, b: int|
            b0.in_bounds(a, b) && !(a == x && b == y) ==> #[trigger] b1.cell(a, b).kind == b0.cell(a, b).kind,
{
}

/// A successful cancellation only moves the cell back, from cross to
/// empty or from filled to cross, and re-types no other cell.
pub proof fn lemma_cancel_kinds(
    b0: SampleBoardManager,
    b1: SampleBoardManager,
    x: int,
    y: int,
    restored: bool,
)
    requires
        b0.wf(),
        b0.cancel_error(x, y) is None,
        b0.cancelled(b1, x, y, restored),
    ensures
        (b0.cell(x, y).kind == CellKind::Cross && b1.cell(x, y).kind == CellKind::Empty) || (b0.cell(
            x,
            y,
        ).kind == CellKind::Filled && b1.cell(x, y).kind == CellKind::Cross),
        forall|a: int, b: int|
            b0.in_bounds(a, b) && !(a == x && b == y) ==> #[trigger] b1.cell(a, b).kind == b0.cell(a, b).kind,
{
}

/// Cancelling a move, a capture handing the cell back to the other player,
/// restores the cell's kind, owner and importance, and the tallies where
/// none of them sat at an end of `i64`.
pub proof fn lemma_cancel_undoes_move(
    b0: SampleBoardManager,
    b1: SampleBoardManager,
    b2: SampleBoardManager,
    x: int,
    y: int,
    p: bool,
)
    requires
        b0.wf(),
        b0.move_error(x, y, p) is None,
        b0.moved(b1, x, y, p),
        b1.cancelled(b2, x, y, !p),
    ensures
        b2.cell(x, y).kind == b0.cell(x, y).kind,
        b2.cell(x, y).player == b0.cell(x, y).player,
        b2.cell(x, y).important == b0.cell(x, y).important,
        (forall|i: int| 0 <= i < 2 ==> i64::MIN < #[trigger] b0.moves_counter[i] < i64::MAX
            && i64::MIN < b0.crosses_counter[i] < i64::MAX) ==> b2.moves_counter == b0.moves_counter
            && b2.crosses_counter == b0.crosses_counter,
{
    assert(b0.in_bounds(x, y));
    assert(b1.in_bounds(x, y));
    assert(b2.in_bounds(x, y));
    if forall|i: int| 0 <= i < 2 ==> i64::MIN < #[trigger] b0.moves_counter[i] < i64::MAX
        && i64::MIN < b0.crosses_counter[i] < i64::MAX {
        assert(i64::MIN < b0.moves_counter[0] < i64::MAX && i64::MIN < b0.crosses_counter[0] < i64::MAX);
        assert(i64::MIN < b0.moves_counter[1] < i64::MAX && i64::MIN < b0.crosses_counter[1] < i64::MAX);
        assert(b2.moves_counter =~= b0.moves_counter);
        assert(b2.crosses_counter =~= b0.crosses_counter);
    }
}

} // verus!
