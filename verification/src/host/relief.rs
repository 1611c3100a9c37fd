//! The host's watch over the lanes: whether anything moves, and when the tool lane
//! is widened or narrowed again.

use crate::host::{
    DaemonHealth, Emitted, EmittedView, HostView, LaneSnapshot, ProviderCircuitState, WorldHost,
    HEALTHY_CYCLES_BEFORE_DECAY,
};
use crate::table::{lookup, modelled, NameTable};
use crate::text::same_text;
use vstd::prelude::*;

verus! {

/// Whether two reports say the same of the same runs, in whatever order.
pub open spec fn same_progress(
    a: Seq<(Seq<char>, EmittedView)>,
    b: Seq<(Seq<char>, EmittedView)>,
) -> bool {
    &&& a.len() == b.len()
    &&& forall|i: int| 0 <= i < a.len() ==> lookup(b, (#[trigger] a[i]).0) == Some(a[i].1)
}

/// Whether a whole interval went by with some lane full and no run moving.
pub open spec fn went_nowhere(h: HostView, s: LaneSnapshot) -> bool {
    &&& s.under_pressure
    &&& h.last_progress is Some
    &&& same_progress(h.emitted, h.last_progress->0)
}

/// A count with one more, as a machine word holds it.
pub open spec fn one_more(n: u32) -> u32 {
    if n == u32::MAX {
        n
    } else {
        (n + 1) as u32
    }
}

/// The host after it took stock of what moved.
pub open spec fn progress_observed(h: HostView, s: LaneSnapshot) -> HostView {
    HostView {
        last_progress: Some(h.emitted),
        dead_cycles: if went_nowhere(h, s) {
            one_more(h.dead_cycles)
        } else {
            0
        },
        ..h
    }
}

/// Whether the daemon has been going nowhere long enough for relief.
pub open spec fn wedged(h: HostView, s: LaneSnapshot) -> bool {
    &&& h.dead_cycles_before_relief != 0
    &&& h.dead_cycles >= h.dead_cycles_before_relief
    &&& s.tools_saturated
}

/// A difference that never goes below zero.
pub open spec fn minus(a: usize, b: usize) -> usize {
    if a >= b {
        (a - b) as usize
    } else {
        0
    }
}

/// The tool lane's own width: without what was granted.
pub open spec fn configured_width(h: HostView, s: LaneSnapshot) -> usize {
    minus(s.tools_workers, h.relief_granted)
}

/// How much relief is asked for: what the queue needs, within one extra lane's
/// worth in all.
pub open spec fn relief_wanted(h: HostView, s: LaneSnapshot) -> usize {
    let remaining = minus(configured_width(h, s), h.relief_granted);
    if remaining < s.tools_queued {
        remaining
    } else {
        s.tools_queued
    }
}

/// The host after relief was granted.
pub open spec fn relieved(h: HostView, granted: usize) -> HostView {
    HostView { relief_granted: (h.relief_granted + granted) as usize, dead_cycles: 0, ..h }
}

/// The host after it counted whether the lane was healthy.
pub open spec fn health_counted(h: HostView, s: LaneSnapshot) -> HostView {
    HostView {
        healthy_cycles: if h.relief_granted > 0 && h.dead_cycles == 0 && s.tools_queued == 0 {
            one_more(h.healthy_cycles)
        } else {
            0
        },
        ..h
    }
}

/// Whether the lane has been healthy long enough for a permit to be reclaimed.
pub open spec fn may_reclaim(h: HostView) -> bool {
    h.relief_granted > 0 && h.healthy_cycles >= HEALTHY_CYCLES_BEFORE_DECAY
}

/// The host after permits were reclaimed.
pub open spec fn reclaimed(h: HostView, narrowed: usize) -> HostView {
    HostView { relief_granted: (h.relief_granted - narrowed) as usize, ..h }
}

/// Whether two snapshots are the same.
fn same_emitted(a: &Emitted, b: &Emitted) -> (same: bool)
    ensures
        same == (a@ == b@),
{
    same_text(a.status, b.status) && same_text(a.stage.as_str(), b.stage.as_str()) && a.iteration
        == b.iteration && a.tool_calls == b.tool_calls && a.accepts_messages == b.accepts_messages
        && a.prompt_tokens == b.prompt_tokens && a.completion_tokens == b.completion_tokens
        && a.cached_tokens == b.cached_tokens && a.cache_write_tokens == b.cache_write_tokens
        && a.context_tokens == b.context_tokens && a.terminal == b.terminal
}

/// Whether two reports say the same of the same runs.
fn progress_same(a: &NameTable<Emitted>, b: &NameTable<Emitted>) -> (same: bool)
    ensures
        same == same_progress(modelled(a@), modelled(b@)),
{
    if a.entries.len() != b.entries.len() {
        return false;
    }
    let mut i: usize = 0;
    while i < a.entries.len()
        invariant
            i <= a.entries@.len(),
            forall|k: int|
                0 <= k < i ==> lookup(modelled(b@), (#[trigger] modelled(a@)[k]).0) == Some(
                    modelled(a@)[k].1,
                ),
        decreases a.entries.len() - i,
    {
        let entry = &a.entries[i];
        proof {
            crate::table::lemma_modelled(b@, entry.0@, entry.1);
            assert(modelled(a@)[i as int] == (entry.0@, entry.1@));
        }
        let same = match b.get(entry.0.as_str()) {
            Some(other) => same_emitted(&entry.1, other),
            None => false,
        };
        if !same {
            return false;
        }
        i = i + 1;
    }
    true
}

/// An equal report.
fn copy_progress(table: &NameTable<Emitted>) -> (copy: NameTable<Emitted>)
    ensures
        modelled(copy@) == modelled(table@),
{
    let mut entries: Vec<(String, Emitted)> = Vec::new();
    let mut i: usize = 0;
    while i < table.entries.len()
        invariant
            i <= table.entries@.len(),
            entries@.len() == i,
            forall|k: int|
                0 <= k < i ==> (#[trigger] entries@[k]).0@ == table.entries@[k].0@ && entries@[k].1@
                    == table.entries@[k].1@,
        decreases table.entries.len() - i,
    {
        entries.push((table.entries[i].0.clone(), table.entries[i].1.clone()));
        i = i + 1;
    }
    let copy = NameTable { entries };
    proof {
        assert(modelled(copy@) =~= modelled(table@));
    }
    copy
}

/// How loudly the lanes are reported.
#[derive(Clone, Copy, Debug, PartialEq, Eq, Structural)]
pub enum Heartbeat {
    /// Nothing moves while the lanes are full.
    Stuck,
    /// A lane is at capacity with work queued.
    Busy,
    Quiet,
}

/// One sample of the daemon's health, as observers take it.
#[derive(Clone, Copy, Debug, PartialEq, Eq, Structural)]
pub struct LaneHealth {
    pub agents_active: usize,
    pub agents_waiting: usize,
    pub tools_busy: usize,
    pub tools_queued: usize,
    pub tools_parked: usize,
    pub tools_workers: usize,
    pub dead_cycles: u32,
    /// The relief granted on this sample.
    pub relief_granted: usize,
}

impl WorldHost {
    /// Takes stock of what moved since the previous re-drive.
    pub fn observe_progress(&mut self, snapshot: &LaneSnapshot)
        ensures
            final(self)@ == progress_observed(old(self)@, *snapshot),
    {
        let still = match &self.last_progress {
            Some(last) => progress_same(&self.emitted, last),
            None => false,
        };
        self.last_progress = Some(copy_progress(&self.emitted));
        self.dead_cycles = if snapshot.under_pressure && still {
            self.dead_cycles.saturating_add(1)
        } else {
            0
        };
    }

    /// How much the tool lane is to be widened, if the daemon has been going nowhere
    /// long enough.
    pub fn relief_request(&self, snapshot: &LaneSnapshot) -> (wanted: Option<usize>)
        ensures
            wanted == if wedged(self@, *snapshot) {
                Some(relief_wanted(self@, *snapshot))
            } else {
                None
            },
    {
        let threshold: u32 = self.dead_cycles_before_relief;
        if threshold == 0 || self.dead_cycles < threshold || !snapshot.tools_saturated {
            return None;
        }
        let configured: usize = snapshot.tools_workers.saturating_sub(self.relief_granted);
        let remaining: usize = configured.saturating_sub(self.relief_granted);
        if remaining < snapshot.tools_queued {
            Some(remaining)
        } else {
            Some(snapshot.tools_queued)
        }
    }

    /// Takes note of relief that was granted, and gives the widened lane a fresh
    /// interval to show whether it helped.
    pub fn note_relief(&mut self, granted: usize)
        requires
            old(self)@.relief_granted + granted <= usize::MAX,
        ensures
            final(self)@ == relieved(old(self)@, granted),
    {
        self.relief_granted = self.relief_granted + granted;
        self.dead_cycles = 0;
    }

    /// Widens the tool lane if the daemon has been going nowhere long enough, and
    /// says by how much. `widen` adds up to so many permits and says how many.
    pub fn relieve_if_wedged<W: Fn(usize) -> usize>(&mut self, snapshot: &LaneSnapshot, widen: &W) -> (granted:
        usize)
        requires
            forall|n: usize| call_requires(*widen, (n,)),
            forall|n: usize, k: usize| call_ensures(*widen, (n,), k) ==> k <= n,
        ensures
            if wedged(old(self)@, *snapshot) {
                &&& call_ensures(*widen, (relief_wanted(old(self)@, *snapshot),), granted)
                &&& final(self)@ == relieved(old(self)@, granted)
            } else {
                granted == 0 && final(self)@ == old(self)@
            },
    {
        match self.relief_request(snapshot) {
            Some(wanted) => {
                let granted: usize = widen(wanted);
                self.note_relief(granted);
                granted
            },
            None => 0,
        }
    }

    /// Counts whether the lane was healthy, and says whether a permit is to be
    /// reclaimed.
    pub fn count_health(&mut self, snapshot: &LaneSnapshot) -> (reclaim: bool)
        ensures
            final(self)@ == health_counted(old(self)@, *snapshot),
            reclaim == may_reclaim(final(self)@),
    {
        if self.relief_granted == 0 {
            self.healthy_cycles = 0;
            return false;
        }
        self.healthy_cycles = if self.dead_cycles == 0 && snapshot.tools_queued == 0 {
            self.healthy_cycles.saturating_add(1)
        } else {
            0
        };
        self.healthy_cycles >= HEALTHY_CYCLES_BEFORE_DECAY
    }

    /// Gives relief back, one permit at a time, once the lane has been healthy long
    /// enough. `narrow` takes up to so many idle permits and says how many.
    pub fn decay_relief_if_healthy<N: Fn(usize) -> usize>(
        &mut self,
        snapshot: &LaneSnapshot,
        narrow: &N,
    )
        requires
            forall|n: usize| call_requires(*narrow, (n,)),
            forall|n: usize, k: usize| call_ensures(*narrow, (n,), k) ==> k <= n,
        ensures
            ({
                let counted = health_counted(old(self)@, *snapshot);
                if may_reclaim(counted) {
                    exists|narrowed: usize|
                        {
                            &&& #[trigger] call_ensures(*narrow, (1usize,), narrowed)
                            &&& final(self)@ == reclaimed(counted, narrowed)
                        }
                } else {
                    final(self)@ == counted
                }
            }),
    {
        if self.count_health(snapshot) {
            let narrowed: usize = narrow(1);
            self.relief_granted = self.relief_granted - narrowed;
        }
    }

    /// Takes stock once per safety re-drive, and widens or narrows the tool lane as
    /// it calls for. Says how much relief was granted.
    pub fn observe_redrive<W: Fn(usize) -> usize, N: Fn(usize) -> usize>(
        &mut self,
        snapshot: &LaneSnapshot,
        widen: &W,
        narrow: &N,
    ) -> (granted: usize)
        requires
            forall|n: usize| call_requires(*widen, (n,)),
            forall|n: usize, k: usize| call_ensures(*widen, (n,), k) ==> k <= n,
            forall|n: usize| call_requires(*narrow, (n,)),
            forall|n: usize, k: usize| call_ensures(*narrow, (n,), k) ==> k <= n,
        ensures
            ({
                let seen = progress_observed(old(self)@, *snapshot);
                let wide = if wedged(seen, *snapshot) {
                    relieved(seen, granted)
                } else {
                    seen
                };
                let counted = health_counted(wide, *snapshot);
                &&& if wedged(seen, *snapshot) {
                    call_ensures(*widen, (relief_wanted(seen, *snapshot),), granted)
                } else {
                    granted == 0
                }
                &&& if may_reclaim(counted) {
                    exists|narrowed: usize|
                        {
                            &&& #[trigger] call_ensures(*narrow, (1usize,), narrowed)
                            &&& final(self)@ == reclaimed(counted, narrowed)
                        }
                } else {
                    final(self)@ == counted
                }
            }),
    {
        self.observe_progress(snapshot);
        let granted: usize = self.relieve_if_wedged(snapshot, widen);
        self.decay_relief_if_healthy(snapshot, narrow);
        granted
    }

    /// How loudly the lanes are reported: a warning once the daemon has been going
    /// nowhere, a line while a lane is merely full, and next to nothing otherwise.
    pub fn heartbeat(&self, snapshot: &LaneSnapshot) -> (beat: Heartbeat)
        ensures
            beat == if self@.dead_cycles > 0 {
                Heartbeat::Stuck
            } else if snapshot.under_pressure {
                Heartbeat::Busy
            } else {
                Heartbeat::Quiet
            },
    {
        if self.dead_cycles > 0 {
            Heartbeat::Stuck
        } else if snapshot.under_pressure {
            Heartbeat::Busy
        } else {
            Heartbeat::Quiet
        }
    }

    /// One sample of the daemon's health, with the relief granted on it.
    pub fn lane_health(&self, snapshot: &LaneSnapshot, relief: usize) -> (sample: LaneHealth)
        ensures
            sample == (LaneHealth {
                agents_active: snapshot.agents.active,
                agents_waiting: snapshot.agents.waiting,
                tools_busy: snapshot.tools_busy,
                tools_queued: snapshot.tools_queued,
                tools_parked: snapshot.tools_parked,
                tools_workers: snapshot.tools_workers,
                dead_cycles: self@.dead_cycles,
                relief_granted: relief,
            }),
    {
        LaneHealth {
            agents_active: snapshot.agents.active,
            agents_waiting: snapshot.agents.waiting,
            tools_busy: snapshot.tools_busy,
            tools_queued: snapshot.tools_queued,
            tools_parked: snapshot.tools_parked,
            tools_workers: snapshot.tools_workers,
            dead_cycles: self.dead_cycles,
            relief_granted: relief,
        }
    }

    /// The daemon's own health: what the lanes hold, the dead-cycle count and the
    /// providers that are out of service.
    pub fn health(&self, snapshot: LaneSnapshot, providers_down: Vec<ProviderCircuitState>) -> (health:
        DaemonHealth)
        ensures
            health == (DaemonHealth {
                agents: snapshot.agents,
                inference: snapshot.inference,
                tools_busy: snapshot.tools_busy,
                tools_queued: snapshot.tools_queued,
                tools_parked: snapshot.tools_parked,
                tools_workers: snapshot.tools_workers,
                dead_cycles: self@.dead_cycles,
                relief_granted: self@.relief_granted,
                redrive_secs: self@.redrive.secs,
                providers_down,
            }),
    {
        DaemonHealth {
            agents: snapshot.agents,
            inference: snapshot.inference,
            tools_busy: snapshot.tools_busy,
            tools_queued: snapshot.tools_queued,
            tools_parked: snapshot.tools_parked,
            tools_workers: snapshot.tools_workers,
            dead_cycles: self.dead_cycles,
            relief_granted: self.relief_granted,
            redrive_secs: self.redrive.secs,
            providers_down,
        }
    }
}

/// Relief never exceeds one extra lane's worth: what was granted in all stays within
/// the lane's own width, and nothing is granted that the queue does not need.
pub proof fn law_relief_is_capped(h: HostView, s: LaneSnapshot, granted: usize)
    requires
        h.relief_granted <= s.tools_workers,
        h.relief_granted <= configured_width(h, s),
        granted <= relief_wanted(h, s),
    ensures
        relieved(h, granted).relief_granted == h.relief_granted + granted,
        relieved(h, granted).relief_granted <= configured_width(h, s),
        granted <= s.tools_queued,
{
}

/// A dead cycle needs both halves: pressure on its own is a busy daemon, and
/// stillness on its own an idle one. Any sign of progress clears the count.
pub proof fn law_dead_cycle_needs_pressure_and_stillness(h: HostView, s: LaneSnapshot)
    ensures
        progress_observed(h, s).dead_cycles > 0 <==> s.under_pressure && h.last_progress is Some
            && same_progress(h.emitted, h.last_progress->0),
{
}

/// Nothing is reclaimed while a wedge may be forming or work is queued, and the
/// width never drops below what was configured: only permits that were granted are
/// taken back.
pub proof fn law_reclaim_is_safe(h: HostView, s: LaneSnapshot, narrowed: usize)
    requires
        narrowed <= 1,
    ensures
        ({
            let counted = health_counted(h, s);
            &&& may_reclaim(counted) ==> h.dead_cycles == 0 && s.tools_queued == 0
                && h.relief_granted > 0
            &&& may_reclaim(counted) ==> reclaimed(counted, narrowed).relief_granted
                == h.relief_granted - narrowed
        }),
{
}

/// With a threshold of zero relief is never granted.
pub proof fn law_relief_can_be_disabled(h: HostView, s: LaneSnapshot)
    requires
        h.dead_cycles_before_relief == 0,
    ensures
        !wedged(h, s),
{
}

} // verus!
