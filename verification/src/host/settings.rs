//! The host's own limits that an operator can change while the daemon runs.
//!
//! Amounts of money are held as the bits of a double. Among positive finite doubles
//! the order of the amounts is the order of their bits.

use crate::host::{DEFAULT_DEAD_CYCLES_BEFORE_RELIEF, DEFAULT_FINISHED_RETENTION_SECS};
use vstd::prelude::*;

verus! {

/// The bits of the largest finite double.
pub const LARGEST_FINITE: u64 = 0x7FEF_FFFF_FFFF_FFFF;

/// Whether bits are those of a positive finite double.
pub open spec fn positive_finite(bits: u64) -> bool {
    0 < bits <= LARGEST_FINITE
}

/// Whether numbers ascend, none twice.
pub open spec fn ascending(v: Seq<u64>) -> bool {
    forall|i: int, j: int| 0 <= i < j < v.len() ==> #[trigger] v[i] < #[trigger] v[j]
}

/// Whether `out` is what is kept of some thresholds: the positive finite ones, once
/// each, in ascending order.
pub open spec fn kept_thresholds(given: Seq<u64>, out: Seq<u64>) -> bool {
    &&& ascending(out)
    &&& forall|b: u64| #[trigger]
        out.contains(b) <==> (given.contains(b) && positive_finite(b))
}

/// The settings of a host.
pub struct HostSettings {
    pub dead_cycles: u32,
    pub retention_secs: u64,
    /// The spend thresholds to announce, as bits of doubles.
    pub spend_notify: Vec<u64>,
}

impl HostSettings {
    /// Whether the thresholds are what thresholds can be.
    pub open spec fn wf(self) -> bool {
        &&& ascending(self.spend_notify@)
        &&& forall|i: int|
            0 <= i < self.spend_notify@.len() ==> positive_finite(
                #[trigger] self.spend_notify@[i],
            )
    }

    /// Dead cycles tolerated before the tool lane is widened.
    pub fn dead_cycles_before_relief(&self) -> (cycles: u32)
        ensures
            cycles == self.dead_cycles,
    {
        self.dead_cycles
    }

    /// Sets how many dead cycles are tolerated.
    pub fn set_dead_cycles_before_relief(&mut self, cycles: u32)
        ensures
            *final(self) == (HostSettings { dead_cycles: cycles, ..*old(self) }),
    {
        self.dead_cycles = cycles;
    }

    /// How long an unloaded run stays in the listing.
    pub fn finished_retention_secs(&self) -> (secs: u64)
        ensures
            secs == self.retention_secs,
    {
        self.retention_secs
    }

    /// Sets how long an unloaded run stays in the listing.
    pub fn set_finished_retention_secs(&mut self, secs: u64)
        ensures
            *final(self) == (HostSettings { retention_secs: secs, ..*old(self) }),
    {
        self.retention_secs = secs;
    }

    /// The spend thresholds to announce, ascending, as bits of doubles.
    pub fn spend_notify_usd(&self) -> (thresholds: &Vec<u64>)
        ensures
            thresholds@ == self.spend_notify@,
    {
        &self.spend_notify
    }

    /// Sets the spend thresholds, in any order. What is not a positive finite number is
    /// dropped, and nothing is kept twice.
    pub fn set_spend_notify_usd(&mut self, thresholds: Vec<u64>)
        ensures
            kept_thresholds(thresholds@, final(self).spend_notify@),
            final(self).wf(),
            final(self).dead_cycles == old(self).dead_cycles,
            final(self).retention_secs == old(self).retention_secs,
    {
        let mut kept: Vec<u64> = Vec::new();
        let mut i: usize = 0;
        while i < thresholds.len()
            invariant
                i <= thresholds@.len(),
                kept_thresholds(thresholds@.take(i as int), kept@),
            decreases thresholds.len() - i,
        {
            let b: u64 = thresholds[i];
            let ghost before = kept@;
            if b > 0 && b <= LARGEST_FINITE {
                insert_ascending(&mut kept, b);
            }
            proof {
                let upto = thresholds@.take(i + 1);
                assert(upto =~= thresholds@.take(i as int).push(b));
                assert forall|c: u64| #[trigger]
                    kept@.contains(c) <==> (upto.contains(c) && positive_finite(c)) by {
                    assert(before.contains(c) <==> (thresholds@.take(i as int).contains(c)
                        && positive_finite(c)));
                    assert(upto.last() == b);
                    if thresholds@.take(i as int).contains(c) {
                        let k = choose|k: int|
                            0 <= k < i && thresholds@.take(i as int)[k] == c;
                        assert(upto[k] == c);
                    }
                    if upto.contains(c) && c != b {
                        let k = choose|k: int| 0 <= k < upto.len() && upto[k] == c;
                        assert(thresholds@.take(i as int)[k] == c);
                    }
                }
            }
            i = i + 1;
        }
        proof {
            assert(thresholds@.take(i as int) =~= thresholds@);
            assert forall|k: int| 0 <= k < kept@.len() implies positive_finite(
                #[trigger] kept@[k],
            ) by {
                assert(kept@.contains(kept@[k]));
            }
        }
        self.spend_notify = kept;
    }
}

impl Default for HostSettings {
    fn default() -> (settings: Self)
        ensures
            settings.dead_cycles == DEFAULT_DEAD_CYCLES_BEFORE_RELIEF,
            settings.retention_secs == DEFAULT_FINISHED_RETENTION_SECS,
            settings.spend_notify@ == Seq::<u64>::empty(),
    {
        HostSettings {
            dead_cycles: DEFAULT_DEAD_CYCLES_BEFORE_RELIEF,
            retention_secs: DEFAULT_FINISHED_RETENTION_SECS,
            spend_notify: Vec::new(),
        }
    }
}

/// Puts a number into its place among ascending ones, unless it is there.
fn insert_ascending(v: &mut Vec<u64>, b: u64)
    requires
        ascending(old(v)@),
    ensures
        ascending(final(v)@),
        forall|c: u64| #[trigger] final(v)@.contains(c) <==> (old(v)@.contains(c) || c == b),
{
    let ghost before = v@;
    let mut at: usize = 0;
    while at < v.len() && v[at] < b
        invariant
            at <= v@.len(),
            v@ == before,
            forall|k: int| 0 <= k < at ==> #[trigger] v@[k] < b,
        decreases v.len() - at,
    {
        at = at + 1;
    }
    if at < v.len() && v[at] == b {
        proof {
            assert(before[at as int] == b);
        }
        return ;
    }
    v.insert(at, b);
    proof {
        assert(v@ =~= before.insert(at as int, b));
        assert forall|i: int, j: int| 0 <= i < j < v@.len() implies #[trigger] v@[i]
            < #[trigger] v@[j] by {
            if i < at && j > at {
                assert(before[i] < b);
            }
            if i > at {
                assert(before[i - 1] < before[j - 1]);
            } else if i == at {
                if at < before.len() {
                    assert(b < before[at as int]);
                    if j - 1 > at {
                        assert(before[at as int] < before[j - 1]);
                    }
                }
            } else if j < at {
                assert(before[i] < before[j]);
            } else if j > at {
                assert(before[i] < before[j - 1]);
            }
        }
        assert forall|c: u64| #[trigger] v@.contains(c) <==> (before.contains(c) || c == b) by {
            if before.contains(c) {
                let k = choose|k: int| 0 <= k < before.len() && before[k] == c;
                assert(v@[if k < at {
                    k
                } else {
                    k + 1
                }] == c);
            }
            assert(v@[at as int] == b);
            if v@.contains(c) && c != b {
                let k = choose|k: int| 0 <= k < v@.len() && v@[k] == c;
                assert(before[if k < at {
                    k
                } else {
                    k - 1
                }] == c);
            }
        }
    }
}

/// The thresholds that are kept are those of the given ones that are positive finite amounts,
/// each once and in ascending order.
pub proof fn law_thresholds_are_positive_and_ascending(given: Seq<u64>, out: Seq<u64>, b: u64, i: int)
    requires
        kept_thresholds(given, out),
    ensures
        out.contains(b) ==> given.contains(b),
        out.contains(b) ==> 0 < b <= 0x7FEF_FFFF_FFFF_FFFF,
        given.contains(b) && 0 < b <= 0x7FEF_FFFF_FFFF_FFFF ==> out.contains(b),
        0 <= i < out.len() - 1 ==> out[i] < out[i + 1],
{
}

} // verus!
