use vstd::prelude::*;

verus! {

/// The session count and the pending suspend deadline, as values.
pub struct Idle {
    pub active: nat,
    pub deadline: Option<nat>,
}

/// A deadline is pending only while no session is active.
pub open spec fn idle_wf(s: Idle) -> bool {
    s.deadline is Some ==> s.active == 0
}

/// A session began: count it and cancel any pending suspend.
pub open spec fn start_spec(s: Idle) -> Idle {
    Idle { active: s.active + 1, deadline: None }
}

/// A session ended at `now`: uncount it; when none is left, the backend is to
/// be suspended `timeout` later (the deadline saturates at `u64::MAX`).
pub open spec fn end_spec(s: Idle, now: nat, timeout: nat) -> Idle {
    let active = (s.active - 1) as nat;
    if active == 0 {
        Idle { active, deadline: Some(vstd::math::min((now + timeout) as int, u64::MAX as int) as nat) }
    } else {
        Idle { active, deadline: s.deadline }
    }
}

/// Whether the deadline has passed at `now`, so the suspend signal fires; once
/// fired the deadline is cleared.
pub open spec fn fires(s: Idle, now: nat) -> bool {
    s.deadline is Some && s.deadline->0 <= now && s.active == 0
}

pub open spec fn poll_spec(s: Idle, now: nat) -> Idle {
    if fires(s, now) {
        Idle { active: s.active, deadline: None }
    } else {
        s
    }
}

/// The single owner of the session count: it takes session events one at a
/// time and decides when the backend is to be suspended.
pub struct IdleState {
    active_count: u64,
    deadline: Option<u64>,
}

impl View for IdleState {
    type V = Idle;

    closed spec fn view(&self) -> Idle {
        Idle {
            active: self.active_count as nat,
            deadline: match self.deadline {
                Some(d) => Some(d as nat),
                None => None,
            },
        }
    }
}

impl IdleState {
    pub closed spec fn wf(&self) -> bool {
        idle_wf(self@)
    }

    pub fn new() -> (r: IdleState)
        ensures
            r.wf(),
            r@ == (Idle { active: 0, deadline: None }),
    {
        IdleState { active_count: 0, deadline: None }
    }

    pub fn active_count(&self) -> (r: u64)
        ensures
            r == self@.active,
    {
        self.active_count
    }

    /// The moment at which the backend is to be suspended, if one is pending.
    pub fn pending_deadline(&self) -> (r: Option<u64>)
        ensures
            r is Some <==> self@.deadline is Some,
            r is Some ==> r->0 == self@.deadline->0,
    {
        self.deadline
    }

    pub fn session_start(&mut self)
        requires
            old(self).wf(),
            old(self)@.active < u64::MAX,
        ensures
            final(self).wf(),
            final(self)@ == start_spec(old(self)@),
    {
        self.active_count = self.active_count + 1;
        self.deadline = None;
    }

    /// A session ended at time `now`. Every end follows its own start, so a
    /// session is active.
    pub fn session_end(&mut self, now: u64, timeout: u64)
        requires
            old(self).wf(),
            old(self)@.active > 0,
        ensures
            final(self).wf(),
            final(self)@ == end_spec(old(self)@, now as nat, timeout as nat),
    {
        self.active_count = self.active_count - 1;
        if self.active_count == 0 {
            self.deadline = Some(now.saturating_add(timeout));
        }
    }

    /// Called when time has moved on to `now`: returns whether the backend is
    /// to be suspended now.
    pub fn poll(&mut self, now: u64) -> (r: bool)
        requires
            old(self).wf(),
        ensures
            final(self).wf(),
            r == fires(old(self)@, now as nat),
            final(self)@ == poll_spec(old(self)@, now as nat),
    {
        match self.deadline {
            Some(d) => {
                if d <= now && self.active_count == 0 {
                    self.deadline = None;
                    true
                } else {
                    false
                }
            },
            None => false,
        }
    }
}

/// `k` session starts in a row.
pub open spec fn starts(s: Idle, k: nat) -> Idle
    decreases k,
{
    if k == 0 {
        s
    } else {
        start_spec(starts(s, (k - 1) as nat))
    }
}

/// `k` session ends in a row, all at time `now`.
pub open spec fn ends(s: Idle, k: nat, now: nat, timeout: nat) -> Idle
    decreases k,
{
    if k == 0 {
        s
    } else {
        end_spec(ends(s, (k - 1) as nat, now, timeout), now, timeout)
    }
}

proof fn lemma_starts(s: Idle, k: nat)
    requires
        k > 0,
    ensures
        starts(s, k) == (Idle { active: s.active + k, deadline: None }),
    decreases k,
{
    if k > 1 {
        lemma_starts(s, (k - 1) as nat);
    } else {
        assert(starts(s, 0) == s);
    }
}

proof fn lemma_ends(s: Idle, k: nat, j: nat, now: nat, timeout: nat)
    requires
        s.deadline is None,
        j < k,
        s.active == k,
    ensures
        ends(s, j, now, timeout) == (Idle { active: (k - j) as nat, deadline: None }),
    decreases j,
{
    if j > 0 {
        lemma_ends(s, k, (j - 1) as nat, now, timeout);
    }
}

/// Session accounting: from an idle backend, `k` sessions that start and then
/// all end take the count from 0 up to `k` and back to 0; no suspend is armed
/// while any of them is active, and exactly one, at the last end, is armed
/// after it.
pub proof fn lemma_sessions_balance(s: Idle, k: nat, now: nat, timeout: nat)
    requires
        k > 0,
        idle_wf(s),
        s.active == 0,
    ensures
        starts(s, k).active == k,
        forall|j: nat| j < k ==> (#[trigger] ends(starts(s, k), j, now, timeout)).deadline is None,
        ends(starts(s, k), k, now, timeout) == (Idle {
            active: 0,
            deadline: Some(vstd::math::min((now + timeout) as int, u64::MAX as int) as nat),
        }),
{
    lemma_starts(s, k);
    assert forall|j: nat| j < k implies (#[trigger] ends(starts(s, k), j, now, timeout)).deadline
        is None by {
        lemma_ends(starts(s, k), k, j, now, timeout);
    }
    lemma_ends(starts(s, k), k, (k - 1) as nat, now, timeout);
}

/// A session that starts before the suspend deadline has passed cancels it:
/// no suspend fires afterwards, at any time, until a later end arms a new one.
pub proof fn lemma_start_cancels_suspend(s: Idle, now: nat)
    ensures
        !fires(start_spec(s), now),
        poll_spec(start_spec(s), now) == start_spec(s),
{
}

} // verus!
