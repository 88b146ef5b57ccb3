//! What an application has to do next.

use vstd::prelude::*;

use crate::terminal::Size;

verus! {

/// What the runtime has to do next, folded from every event that arrived
/// since the last draw.
#[derive(Clone, Copy, Debug, PartialEq, Eq, Structural)]
pub enum PollState {
    /// Nothing changed.
    Clean,
    /// A redraw is due, on a screen of the given size if the screen changed.
    Dirty(Option<Size>),
    /// The application asked to stop.
    Exit,
}

impl PollState {
    /// Whether a redraw is due.
    pub open spec fn is_dirty(self) -> bool {
        self is Dirty
    }

    /// Whether a redraw on a screen of another size is due.
    pub open spec fn is_resized(self) -> bool {
        self matches PollState::Dirty(Some(_))
    }

    /// Whether the application asked to stop.
    pub open spec fn is_exit(self) -> bool {
        self is Exit
    }

    /// The size that is kept of two that a screen is to take: the wider
    /// one, and of two that are as wide the higher one. Which of the two
    /// came first does not matter.
    pub open spec fn larger(a: Size, b: Size) -> Size {
        if a.width > b.width || (a.width == b.width && a.height >= b.height) {
            a
        } else {
            b
        }
    }

    /// The state that stands for this one and `other` together: `Exit` wins
    /// over everything, `Clean` yields to everything, a resize wins over a
    /// plain dirty state, and of two resizes the larger size is kept.
    pub open spec fn merged(self, other: PollState) -> PollState {
        match (self, other) {
            (PollState::Exit, _) => PollState::Exit,
            (_, PollState::Exit) => PollState::Exit,
            (PollState::Clean, other) => other,
            (other, PollState::Clean) => other,
            (PollState::Dirty(Some(a)), PollState::Dirty(Some(b))) => PollState::Dirty(
                Some(Self::larger(a, b)),
            ),
            (PollState::Dirty(Some(a)), PollState::Dirty(None)) => PollState::Dirty(Some(a)),
            (PollState::Dirty(None), PollState::Dirty(size)) => PollState::Dirty(size),
        }
    }

    pub fn dirty(&self) -> (yes: bool)
        ensures
            yes == self.is_dirty(),
    {
        match self {
            PollState::Dirty(_) => true,
            _ => false,
        }
    }

    pub fn resized(&self) -> (yes: bool)
        ensures
            yes == self.is_resized(),
    {
        match self {
            PollState::Dirty(Some(_)) => true,
            _ => false,
        }
    }

    pub fn exit(&self) -> (yes: bool)
        ensures
            yes == self.is_exit(),
    {
        match self {
            PollState::Exit => true,
            _ => false,
        }
    }

    /// Folds another state into this one.
    pub fn merge(&mut self, poll_state: PollState)
        ensures
            *final(self) == old(self).merged(poll_state),
    {
        let merged = match (*self, poll_state) {
            (PollState::Exit, _) => PollState::Exit,
            (_, PollState::Exit) => PollState::Exit,
            (PollState::Clean, other) => other,
            (other, PollState::Clean) => other,
            (PollState::Dirty(Some(a)), PollState::Dirty(Some(b))) => {
                if a.width > b.width || (a.width == b.width && a.height >= b.height) {
                    PollState::Dirty(Some(a))
                } else {
                    PollState::Dirty(Some(b))
                }
            },
            (PollState::Dirty(Some(a)), PollState::Dirty(None)) => PollState::Dirty(Some(a)),
            (PollState::Dirty(None), PollState::Dirty(size)) => PollState::Dirty(size),
        };
        *self = merged;
    }

    /// Merging is associative: events may be folded in any grouping.
    pub proof fn merge_is_associative(a: PollState, b: PollState, c: PollState)
        ensures
            a.merged(b).merged(c) == a.merged(b.merged(c)),
    {
    }

    /// Merging is commutative: the order in which events are folded does
    /// not matter.
    pub proof fn merge_is_commutative(a: PollState, b: PollState)
        ensures
            a.merged(b) == b.merged(a),
    {
    }

    /// `Exit` absorbs every other state, on either side.
    pub proof fn exit_absorbs(a: PollState)
        ensures
            a.merged(PollState::Exit) == PollState::Exit,
            PollState::Exit.merged(a) == PollState::Exit,
    {
    }

    /// `Clean` is the identity of merging.
    pub proof fn clean_is_identity(a: PollState)
        ensures
            a.merged(PollState::Clean) == a,
            PollState::Clean.merged(a) == a,
    {
    }

    /// A resize absorbs a plain dirty state, on either side.
    pub proof fn resize_absorbs_dirty(size: Size)
        ensures
            PollState::Dirty(Some(size)).merged(PollState::Dirty(None)) == PollState::Dirty(
                Some(size),
            ),
            PollState::Dirty(None).merged(PollState::Dirty(Some(size))) == PollState::Dirty(
                Some(size),
            ),
    {
    }

    /// No contribution is lost: once dirty, a state stays dirty or becomes
    /// `Exit`, whatever is merged into it.
    pub proof fn dirty_is_kept(a: PollState, b: PollState)
        requires
            a.is_dirty() || b.is_dirty(),
        ensures
            a.merged(b).is_dirty() || a.merged(b).is_exit(),
            a.merged(b).is_exit() <==> a.is_exit() || b.is_exit(),
            a.is_resized() || b.is_resized() ==> a.merged(b).is_resized() || a.merged(b).is_exit(),
    {
    }
}

} // verus!
