//! The interactive controller.
//!
//! One state, browsing, with self-transitions: a row cursor moved by
//! one and clamped (never cyclic), action keys that request a storage
//! action for the selected block, and confirm/quit keys that end the
//! session. Selection is positional: the snapshot's drives are
//! flattened into one ordered block sequence and the selected block
//! is re-derived from the cursor's row index on every draw, not
//! tracked by device identity across refreshes.

use vstd::prelude::*;

use crate::drives::{Block, BlockV, Drive, DriveV};

verus! {

/// A key of the keyboard surface, already decoded from the raw
/// terminal event by the caller.
#[derive(Clone, Copy)]
pub enum Key {
    Up,
    Down,
    Mount,
    Unmount,
    Eject,
    Confirm,
    Quit,
    Other,
}

/// What one handled key means for the session.
pub enum InputResult {
    /// Keep browsing.
    Continue,
    /// Terminate the session reporting no path.
    Quit,
    /// Terminate the session reporting the selected mount path.
    QuitChangeDirectory(String),
}

/// The storage actions a key can request of the dispatcher.
#[derive(Clone, Copy)]
pub enum ActionKind {
    Mount,
    Unmount,
    Eject,
}

/// The controller: the published snapshot it last consumed, the row
/// cursor, and the status line of the last dispatched action.
pub struct Tui {
    pub drv: Vec<Drive>,
    pub cursor: Option<usize>,
    pub last_status: String,
}

/// The snapshot flattened into one ordered block sequence: the rows
/// of the table, in drive order.
pub open spec fn spec_rows(drives: Seq<DriveV>) -> Seq<BlockV>
    decreases drives.len(),
{
    if drives.len() == 0 {
        Seq::empty()
    } else {
        spec_rows(drives.drop_last()) + drives.last().blocks
    }
}

/// The block the cursor points at, if the cursor is set and in range.
pub open spec fn spec_selected(drives: Seq<DriveV>, cursor: Option<usize>) -> Option<BlockV> {
    match cursor {
        Some(i) => if (i as int) < spec_rows(drives).len() {
            Some(spec_rows(drives)[i as int])
        } else {
            None
        },
        None => None,
    }
}

/// The cursor after navigate-up: one row up, clamped to the first
/// row; a no-op on an empty list.
pub open spec fn spec_nav_up(cursor: Option<usize>, rows: nat) -> Option<usize> {
    if rows == 0 {
        cursor
    } else {
        match cursor {
            None => Some(0usize),
            Some(i) => if i == 0 {
                Some(0usize)
            } else if i as nat >= rows {
                Some((rows - 1) as usize)
            } else {
                Some((i - 1) as usize)
            },
        }
    }
}

/// The cursor after navigate-down: one row down, clamped to the last
/// row; a no-op on an empty list.
pub open spec fn spec_nav_down(cursor: Option<usize>, rows: nat) -> Option<usize> {
    if rows == 0 {
        cursor
    } else {
        match cursor {
            None => Some(0usize),
            Some(i) => if i as nat + 1 >= rows {
                Some((rows - 1) as usize)
            } else {
                Some((i + 1) as usize)
            },
        }
    }
}

/// The storage action a key requests, if any.
pub open spec fn action_of_key(key: Key) -> Option<ActionKind> {
    match key {
        Key::Mount => Some(ActionKind::Mount),
        Key::Unmount => Some(ActionKind::Unmount),
        Key::Eject => Some(ActionKind::Eject),
        _ => None,
    }
}

/// The status line reporting one dispatched action's outcome:
/// the action's name, then `ok` or the reported failure. A failure is
/// never fatal.
pub open spec fn spec_status(kind: ActionKind, err: Option<Seq<char>>) -> Seq<char> {
    let name = match kind {
        ActionKind::Mount => "mount"@,
        ActionKind::Unmount => "unmount"@,
        ActionKind::Eject => "eject"@,
    };
    match err {
        None => name + ": ok"@,
        Some(e) => name + ": "@ + e,
    }
}

impl Default for Tui {
    /// A controller with an empty snapshot, no selection, and an
    /// empty status line.
    fn default() -> (r: Self)
        ensures
            r.drv.deep_view() == Seq::<DriveV>::empty(),
            r.cursor is None,
            r.last_status@ == Seq::<char>::empty(),
    {
        let r = Tui { drv: Vec::new(), cursor: None, last_status: String::new() };
        proof {
            assert(r.drv.deep_view() =~= Seq::<DriveV>::empty());
        }
        r
    }
}

impl Tui {
    /// Consumes the latest published snapshot. A controller that had
    /// no selection points at the first row once any drive exists.
    pub fn set_snapshot(&mut self, drives: Vec<Drive>)
        ensures
            final(self).drv == drives,
            final(self).last_status == old(self).last_status,
            final(self).cursor == (if old(self).cursor is None && drives@.len() > 0 {
                Some(0usize)
            } else {
                old(self).cursor
            }),
    {
        self.drv = drives;
        if self.cursor.is_none() && self.drv.len() > 0 {
            self.cursor = Some(0);
        }
    }

    /// The snapshot flattened into the ordered row sequence.
    pub fn rows(&self) -> (r: Vec<Block>)
        ensures
            r.deep_view() == spec_rows(self.drv.deep_view()),
    {
        let ghost dv = self.drv.deep_view();
        let mut r: Vec<Block> = Vec::new();
        let mut i: usize = 0;
        proof {
            assert(r.deep_view() =~= spec_rows(dv.take(0)));
        }
        while i < self.drv.len()
            invariant
                i <= self.drv.len(),
                dv == self.drv.deep_view(),
                r.deep_view() == spec_rows(dv.take(i as int)),
            decreases self.drv.len() - i,
        {
            proof {
                assert(dv.take(i + 1int).drop_last() =~= dv.take(i as int));
                assert(dv.take(i + 1int).last() == dv[i as int]);
            }
            let d = &self.drv[i];
            let mut j: usize = 0;
            proof {
                assert(r.deep_view() + dv[i as int].blocks.take(0) =~= r.deep_view());
            }
            let ghost r0 = r.deep_view();
            while j < d.blocks.len()
                invariant
                    j <= d.blocks.len(),
                    i < self.drv.len(),
                    dv == self.drv.deep_view(),
                    d@ == dv[i as int],
                    r.deep_view() == r0 + dv[i as int].blocks.take(j as int),
                decreases d.blocks.len() - j,
            {
                let b = d.blocks[j].clone();
                let ghost bv = b@;
                let ghost old_r = r.deep_view();
                proof {
                    assert(bv == dv[i as int].blocks[j as int]);
                }
                r.push(b);
                proof {
                    assert(r.deep_view() =~= old_r.push(bv));
                    assert(r0 + dv[i as int].blocks.take(j + 1int) =~= old_r.push(bv));
                }
                j = j + 1;
            }
            proof {
                assert(dv[i as int].blocks.take(dv[i as int].blocks.len() as int) =~= dv[
                    i as int
                ].blocks);
                assert(r.deep_view() == spec_rows(dv.take(i + 1int)));
            }
            i = i + 1;
        }
        proof {
            assert(dv.take(dv.len() as int) =~= dv);
        }
        r
    }

    /// The block the cursor currently selects: positional, re-derived
    /// from the row index into the flattened snapshot.
    pub fn selected_block(&self) -> (r: Option<Block>)
        ensures
            r.deep_view() == spec_selected(self.drv.deep_view(), self.cursor),
    {
        match self.cursor {
            Some(i) => {
                let rows = self.rows();
                if i < rows.len() {
                    let b = rows[i].clone();
                    proof {
                        assert(b@ == rows.deep_view()[i as int]);
                    }
                    Some(b)
                } else {
                    None
                }
            },
            None => None,
        }
    }

    /// Moves the cursor one row up, clamped at the first row.
    pub fn navigate_up(&mut self)
        ensures
            final(self).drv == old(self).drv,
            final(self).last_status == old(self).last_status,
            final(self).cursor == spec_nav_up(
                old(self).cursor,
                spec_rows(old(self).drv.deep_view()).len(),
            ),
    {
        let n = self.rows().len();
        if n == 0 {
            return;
        }
        match self.cursor {
            None => {
                self.cursor = Some(0);
            },
            Some(i) => {
                if i == 0 {
                    self.cursor = Some(0);
                } else if i >= n {
                    self.cursor = Some(n - 1);
                } else {
                    self.cursor = Some(i - 1);
                }
            },
        }
    }

    /// Moves the cursor one row down, clamped at the last row.
    pub fn navigate_down(&mut self)
        ensures
            final(self).drv == old(self).drv,
            final(self).last_status == old(self).last_status,
            final(self).cursor == spec_nav_down(
                old(self).cursor,
                spec_rows(old(self).drv.deep_view()).len(),
            ),
    {
        let n = self.rows().len();
        if n == 0 {
            return;
        }
        match self.cursor {
            None => {
                self.cursor = Some(0);
            },
            Some(i) => {
                if i >= n - 1 {
                    self.cursor = Some(n - 1);
                } else {
                    self.cursor = Some(i + 1);
                }
            },
        }
    }

    /// Handles one key press: navigation moves the cursor, quit ends
    /// the session with no path, and confirm ends it reporting the
    /// selected block's mount path — or no path when no block is
    /// selected or it has none. Action keys leave the state alone
    /// here; [`Tui::requested_action`] says what to dispatch.
    pub fn input(&mut self, key: Key) -> (r: InputResult)
        ensures
            final(self).drv == old(self).drv,
            final(self).last_status == old(self).last_status,
            match key {
                Key::Up => final(self).cursor == spec_nav_up(
                    old(self).cursor,
                    spec_rows(old(self).drv.deep_view()).len(),
                ) && r is Continue,
                Key::Down => final(self).cursor == spec_nav_down(
                    old(self).cursor,
                    spec_rows(old(self).drv.deep_view()).len(),
                ) && r is Continue,
                Key::Quit => *final(self) == *old(self) && r is Quit,
                Key::Confirm => *final(self) == *old(self) && match spec_selected(
                    old(self).drv.deep_view(),
                    old(self).cursor,
                ) {
                    Some(b) => match b.mount {
                        Some(p) => r matches InputResult::QuitChangeDirectory(s) && s@ == p,
                        None => r is Quit,
                    },
                    None => r is Quit,
                },
                _ => *final(self) == *old(self) && r is Continue,
            },
    {
        match key {
            Key::Up => {
                self.navigate_up();
                InputResult::Continue
            },
            Key::Down => {
                self.navigate_down();
                InputResult::Continue
            },
            Key::Quit => InputResult::Quit,
            Key::Confirm => {
                match self.selected_block() {
                    Some(b) => match b.mount {
                        Some(p) => InputResult::QuitChangeDirectory(p),
                        None => InputResult::Quit,
                    },
                    None => InputResult::Quit,
                }
            },
            _ => InputResult::Continue,
        }
    }

    /// The action a key requests: one of mount, unmount, eject, and
    /// the selected block it addresses — only when a block is
    /// selected.
    pub fn requested_action(&self, key: Key) -> (r: Option<(ActionKind, Block)>)
        ensures
            r is Some <==> (action_of_key(key) is Some && spec_selected(
                self.drv.deep_view(),
                self.cursor,
            ) is Some),
            r matches Some(p) ==> Some(p.0) == action_of_key(key) && Some(p.1@)
                == spec_selected(self.drv.deep_view(), self.cursor),
    {
        let kind = match key {
            Key::Mount => Some(ActionKind::Mount),
            Key::Unmount => Some(ActionKind::Unmount),
            Key::Eject => Some(ActionKind::Eject),
            _ => None,
        };
        match kind {
            Some(k) => match self.selected_block() {
                Some(b) => Some((k, b)),
                None => None,
            },
            None => None,
        }
    }

    /// Records one dispatched action's outcome on the status line:
    /// `None` for success, `Some` for the reported failure.
    pub fn set_status(&mut self, kind: ActionKind, err: Option<String>)
        ensures
            final(self).drv == old(self).drv,
            final(self).cursor == old(self).cursor,
            final(self).last_status@ == spec_status(kind, err.deep_view()),
    {
        let mut s = match kind {
            ActionKind::Mount => "mount".to_owned(),
            ActionKind::Unmount => "unmount".to_owned(),
            ActionKind::Eject => "eject".to_owned(),
        };
        match err {
            None => {
                s.append(": ok");
            },
            Some(e) => {
                s.append(": ");
                s.append(e.as_str());
            },
        }
        self.last_status = s;
    }
}

} // verus!
