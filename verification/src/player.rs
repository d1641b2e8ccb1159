use vstd::prelude::*;
use crate::keys::KeyPress;

verus! {

/// What the playback loop must do after a key press.
#[derive(Clone, Copy, PartialEq, Eq, Structural, Debug)]
pub enum PlayerAction {
    /// Nothing changes.
    Nothing,
    /// Playback was paused: stop the sound.
    Pause,
    /// Playback resumed: restart the sound where the picture is.
    Resume,
    /// The viewer quit.
    Stop,
}

/// What the playback loop shows next.
#[derive(Clone, Copy, PartialEq, Eq, Structural, Debug)]
pub enum PlayerStep {
    /// Show the pause notice and wait.
    Paused,
    /// Show the cached frame with this index.
    Show(usize),
    /// Playback is over.
    Finished,
}

/// Playback state: how many frames there are, the next one to show,
/// whether playback is paused and whether the viewer quit.
pub struct Player {
    pub total: usize,
    pub next: usize,
    pub paused: bool,
    pub stopped: bool,
}

impl Player {
    /// Playback of `total` frames, from the first, running.
    pub fn new(total: usize) -> (p: Player)
        ensures
            p.total == total,
            p.next == 0,
            !p.paused,
            !p.stopped,
    {
        Player { total, next: 0, paused: false, stopped: false }
    }

    /// Applies a key press: the space bar toggles the pause, `q` (in either
    /// case) or Escape quits; other keys change nothing.
    pub fn on_key(&mut self, k: KeyPress) -> (a: PlayerAction)
        ensures
            final(self).total == old(self).total,
            final(self).next == old(self).next,
            k == KeyPress::Char(' ') ==> {
                &&& final(self).paused == !old(self).paused
                &&& final(self).stopped == old(self).stopped
                &&& a == if final(self).paused { PlayerAction::Pause } else { PlayerAction::Resume }
            },
            (k == KeyPress::Char('q') || k == KeyPress::Char('Q') || k == KeyPress::Esc) ==> {
                &&& final(self).paused == old(self).paused
                &&& final(self).stopped
                &&& a == PlayerAction::Stop
            },
            !(k == KeyPress::Char(' ') || k == KeyPress::Char('q') || k == KeyPress::Char('Q') || k == KeyPress::Esc) ==> {
                &&& final(self).paused == old(self).paused
                &&& final(self).stopped == old(self).stopped
                &&& a == PlayerAction::Nothing
            },
    {
        match k {
            KeyPress::Char(c) => {
                if c == ' ' {
                    self.paused = !self.paused;
                    if self.paused {
                        PlayerAction::Pause
                    } else {
                        PlayerAction::Resume
                    }
                } else if c == 'q' || c == 'Q' {
                    self.stopped = true;
                    PlayerAction::Stop
                } else {
                    PlayerAction::Nothing
                }
            },
            KeyPress::Esc => {
                self.stopped = true;
                PlayerAction::Stop
            },
            _ => PlayerAction::Nothing,
        }
    }

    /// Decides the next step: nothing more once the viewer quit or every
    /// frame was shown; the pause notice while paused; otherwise the next
    /// frame, which is then counted as shown.
    pub fn step(&mut self) -> (s: PlayerStep)
        ensures
            final(self).total == old(self).total,
            final(self).paused == old(self).paused,
            final(self).stopped == old(self).stopped,
            (old(self).stopped || old(self).next >= old(self).total) ==> s == PlayerStep::Finished
                && final(self).next == old(self).next,
            !(old(self).stopped || old(self).next >= old(self).total) && old(self).paused ==> s
                == PlayerStep::Paused && final(self).next == old(self).next,
            !(old(self).stopped || old(self).next >= old(self).total) && !old(self).paused ==> s
                == PlayerStep::Show(old(self).next) && final(self).next == old(self).next + 1,
            old(self).next <= old(self).total ==> final(self).next <= final(self).total,
            (*final(self), s) == spec_step(*old(self)),
    {
        if self.stopped || self.next >= self.total {
            PlayerStep::Finished
        } else if self.paused {
            PlayerStep::Paused
        } else {
            let i = self.next;
            self.next = i + 1;
            PlayerStep::Show(i)
        }
    }
}

/// One step of playback, as `Player::step` takes it: the state after the
/// step and what the step shows.
pub open spec fn spec_step(p: Player) -> (Player, PlayerStep) {
    if p.stopped || p.next >= p.total {
        (p, PlayerStep::Finished)
    } else if p.paused {
        (p, PlayerStep::Paused)
    } else {
        (
            Player { total: p.total, next: (p.next + 1) as usize, paused: p.paused, stopped: p.stopped },
            PlayerStep::Show(p.next),
        )
    }
}

/// What `k` successive steps from `p` show, in order.
pub open spec fn steps_shown(p: Player, k: nat) -> Seq<PlayerStep>
    decreases k,
{
    if k == 0 {
        Seq::empty()
    } else {
        let (q, s) = spec_step(p);
        seq![s] + steps_shown(q, (k - 1) as nat)
    }
}

/// Running playback that is neither paused nor stopped shows the remaining
/// frames one after another, each exactly once and in order, and then only
/// reports that playback is over.
pub proof fn lemma_steps_in_order(p: Player, k: nat)
    requires
        !p.paused,
        !p.stopped,
        p.next <= p.total,
    ensures
        steps_shown(p, k).len() == k,
        forall|i: int| 0 <= i < k ==> #[trigger] steps_shown(p, k)[i] == (if p.next + i < p.total {
            PlayerStep::Show((p.next + i) as usize)
        } else {
            PlayerStep::Finished
        }),
    decreases k,
{
    if k > 0 {
        let (q, s) = spec_step(p);
        lemma_steps_in_order(q, (k - 1) as nat);
        assert forall|i: int| 0 <= i < k implies #[trigger] steps_shown(p, k)[i] == (if p.next + i < p.total {
            PlayerStep::Show((p.next + i) as usize)
        } else {
            PlayerStep::Finished
        }) by {
            if i > 0 {
                assert(steps_shown(p, k)[i] == steps_shown(q, (k - 1) as nat)[i - 1]);
            }
        }
    }
}

/// From the start, `k` steps without a pause show frames `0, 1, 2, ...`,
/// each once and in order, up to the last frame, and nothing after it.
pub proof fn lemma_playback_from_start(total: usize, k: nat)
    ensures
        steps_shown(Player { total, next: 0, paused: false, stopped: false }, k).len() == k,
        forall|i: int| 0 <= i < k ==> #[trigger] steps_shown(
            Player { total, next: 0, paused: false, stopped: false },
            k,
        )[i] == (if i < total { PlayerStep::Show(i as usize) } else { PlayerStep::Finished }),
{
    lemma_steps_in_order(Player { total, next: 0, paused: false, stopped: false }, k);
}

} // verus!
