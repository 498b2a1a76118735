//! One cell of the board: its kind, owner, status flags and the two
//! per-player activation counters.
use vstd::prelude::*;

verus! {

/// Largest value of an activation counter: two bits per player.
pub const ACTIVITY_MAX: u8 = 3;

/// What a cell currently is.
#[derive(Clone, Copy, PartialEq, Eq, Structural, Debug)]
pub enum CellKind {
    Border,
    Empty,
    Cross,
    Filled,
}

/// What a change of an activation counter reports.
#[derive(Clone, Copy, PartialEq, Eq, Structural, Debug)]
pub enum ActivationStatus {
    /// The counter moved by one.
    Regular,
    /// The counter was forced to its maximum.
    Overheat,
    /// The counter was cleared.
    Zero,
}

/// A cell of the board. Players are `false` (player 0) and `true`
/// (player 1).
///
/// `player` and `important` mean something only for crosses and filled
/// cells, `alive` only for filled cells. A filled cell keeps in
/// `cross_important` the importance its cross had before the capture.
/// `activity[p]` is the number of adjacent claims energizing this cell for
/// player `p`, saturated at `ACTIVITY_MAX`.
#[derive(Clone, Copy, Debug)]
pub struct SampleCell {
    pub kind: CellKind,
    pub player: bool,
    pub important: bool,
    pub cross_important: bool,
    pub alive: bool,
    pub overheated: bool,
    pub checked: bool,
    pub activity: [u8; 2],
}

impl SampleCell {
    /// Both activation counters are within their two bits.
    pub open spec fn wf(self) -> bool {
        self.activity[0] <= ACTIVITY_MAX && self.activity[1] <= ACTIVITY_MAX
    }

    /// Activation counter of `player`.
    pub open spec fn act(self, player: bool) -> u8 {
        if player { self.activity[1] } else { self.activity[0] }
    }

    /// The cell with counter `player` replaced by `v`.
    pub open spec fn with_act(self, player: bool, v: u8) -> SampleCell {
        SampleCell {
            activity: if player { [self.activity[0], v] } else { [v, self.activity[1]] },
            ..self
        }
    }

    pub open spec fn is_claimed(self) -> bool {
        self.kind == CellKind::Cross || self.kind == CellKind::Filled
    }

    /// What `is_active` answers.
    pub open spec fn spec_active(self, player: bool) -> bool {
        !(self.kind == CellKind::Cross && self.player == player) && self.act(player) != 0
    }

    /// The value of `border()`.
    pub open spec fn spec_border() -> SampleCell {
        SampleCell {
            kind: CellKind::Border,
            player: false,
            important: false,
            cross_important: false,
            alive: false,
            overheated: false,
            checked: false,
            activity: [0, 0],
        }
    }

    /// The cell that stands for every coordinate outside the board.
    pub fn border() -> (r: SampleCell)
        ensures
            r == SampleCell::spec_border(),
            r.act(false) == 0 && r.act(true) == 0,
            r.wf(),
    {
        SampleCell {
            kind: CellKind::Border,
            player: false,
            important: false,
            cross_important: false,
            alive: false,
            overheated: false,
            checked: false,
            activity: [0, 0],
        }
    }

    /// A fresh empty cell of the board.
    pub fn empty() -> (r: SampleCell)
        ensures
            r == (SampleCell { kind: CellKind::Empty, ..SampleCell::spec_border() }),
            r.act(false) == 0 && r.act(true) == 0,
            r.wf(),
    {
        SampleCell { kind: CellKind::Empty, ..SampleCell::border() }
    }

    pub fn kind(self) -> (r: CellKind)
        ensures
            r == self.kind,
    {
        self.kind
    }

    /// Owner of a cross or a filled cell.
    pub fn player(self) -> (r: bool)
        requires
            self.is_claimed(),
        ensures
            r == self.player,
    {
        self.player
    }

    /// Whether `player` may act on this empty cell or cross: never on a
    /// cross of their own, otherwise when their counter is not zero.
    pub fn is_active(self, player: bool) -> (r: bool)
        requires
            self.kind == CellKind::Empty || self.kind == CellKind::Cross,
        ensures
            r == self.spec_active(player),
    {
        if self.kind == CellKind::Cross && self.player == player {
            return false;
        }
        self.activity(player) != 0
    }

    pub fn is_important(self) -> (r: bool)
        requires
            self.is_claimed(),
        ensures
            r == self.important,
    {
        self.important
    }

    pub fn set_important(&mut self, new: bool)
        requires
            old(self).is_claimed(),
        ensures
            *final(self) == (SampleCell { important: new, ..*old(self) }),
    {
        self.important = new;
    }

    pub fn is_alive(self) -> (r: bool)
        requires
            self.kind == CellKind::Filled,
        ensures
            r == self.alive,
    {
        self.alive
    }

    pub fn set_alive(&mut self, new: bool)
        requires
            old(self).kind == CellKind::Filled,
        ensures
            *final(self) == (SampleCell { alive: new, ..*old(self) }),
    {
        self.alive = new;
    }

    /// Claims an empty cell for `player`.
    pub fn cross_out(&mut self, player: bool)
        requires
            old(self).kind == CellKind::Empty,
        ensures
            *final(self) == (SampleCell { kind: CellKind::Cross, player, ..*old(self) }),
    {
        self.kind = CellKind::Cross;
        self.player = player;
    }

    /// Turns a cross into territory of `player`, alive, keeping the cross's
    /// importance for a later `remove_fill`.
    pub fn fill(&mut self, player: bool)
        requires
            old(self).kind == CellKind::Cross,
        ensures
            *final(self) == (SampleCell {
                kind: CellKind::Filled,
                player,
                alive: true,
                cross_important: old(self).important,
                ..*old(self)
            }),
    {
        self.cross_important = self.important;
        self.kind = CellKind::Filled;
        self.player = player;
        self.alive = true;
    }

    /// Turns a filled cell back into a cross of `player`, with the
    /// importance the cross had before it was captured.
    pub fn remove_fill(&mut self, player: bool)
        requires
            old(self).kind == CellKind::Filled,
        ensures
            *final(self) == (SampleCell {
                kind: CellKind::Cross,
                player,
                alive: false,
                important: old(self).cross_important,
                ..*old(self)
            }),
    {
        self.important = self.cross_important;
        self.kind = CellKind::Cross;
        self.player = player;
        self.alive = false;
    }

    /// Turns a cross back into an empty cell, dropping owner and importance.
    pub fn remove_cross(&mut self)
        requires
            old(self).kind == CellKind::Cross,
        ensures
            *final(self) == (SampleCell {
                kind: CellKind::Empty,
                player: false,
                important: false,
                ..*old(self)
            }),
    {
        self.kind = CellKind::Empty;
        self.player = false;
        self.important = false;
    }

    /// Adds one to the counter of `player`; from one below the maximum on,
    /// forces it to the maximum and reports `Overheat`.
    pub fn activate(&mut self, player: bool) -> (r: ActivationStatus)
        requires
            old(self).wf(),
        ensures
            final(self).wf(),
            old(self).act(player) >= ACTIVITY_MAX - 1 ==> r == ActivationStatus::Overheat
                && *final(self) == old(self).with_act(player, ACTIVITY_MAX),
            old(self).act(player) < ACTIVITY_MAX - 1 ==> r == ActivationStatus::Regular
                && *final(self) == old(self).with_act(player, (old(self).act(player) + 1) as u8),
    {
        let a = self.activity(player);
        let (v, r) = if a >= ACTIVITY_MAX - 1 {
            (ACTIVITY_MAX, ActivationStatus::Overheat)
        } else {
            (a + 1, ActivationStatus::Regular)
        };
        self.set_activity(player, v);
        r
    }

    /// Takes one from the counter of `player`; from one down, clears it and
    /// reports `Zero`.
    pub fn deactivate(&mut self, player: bool) -> (r: ActivationStatus)
        requires
            old(self).wf(),
        ensures
            final(self).wf(),
            old(self).act(player) <= 1 ==> r == ActivationStatus::Zero
                && *final(self) == old(self).with_act(player, 0),
            old(self).act(player) > 1 ==> r == ActivationStatus::Regular
                && *final(self) == old(self).with_act(player, (old(self).act(player) - 1) as u8),
    {
        let a = self.activity(player);
        let (v, r) = if a <= 1 {
            (0, ActivationStatus::Zero)
        } else {
            (a - 1, ActivationStatus::Regular)
        };
        self.set_activity(player, v);
        r
    }

    /// Clears both counters.
    pub fn reset_activity(&mut self)
        ensures
            *final(self) == (SampleCell { activity: [0, 0], ..*old(self) }),
            final(self).wf(),
    {
        self.activity = [0, 0];
    }

    pub fn is_overheated(self) -> (r: bool)
        ensures
            r == self.overheated,
    {
        self.overheated
    }

    pub fn set_overheat(&mut self, new: bool)
        ensures
            *final(self) == (SampleCell { overheated: new, ..*old(self) }),
    {
        self.overheated = new;
    }

    pub fn is_checked(self) -> (r: bool)
        ensures
            r == self.checked,
    {
        self.checked
    }

    pub fn set_checked(&mut self, new: bool)
        ensures
            *final(self) == (SampleCell { checked: new, ..*old(self) }),
    {
        self.checked = new;
    }

    /// Counter of `player`.
    pub fn activity(&self, player: bool) -> (r: u8)
        ensures
            r == self.act(player),
    {
        if player {
            self.activity[1]
        } else {
            self.activity[0]
        }
    }

    fn set_activity(&mut self, player: bool, v: u8)
        ensures
            *final(self) == old(self).with_act(player, v),
    {
        self.activity = if player {
            [self.activity[0], v]
        } else {
            [v, self.activity[1]]
        };
    }
}

} // verus!
