//! The trigger monitor: edge-triggered chord detection with debounce.
//!
//! Each poll cycle the driver samples the set of physical keys currently
//! down and hands it to [`Monitor::step`]. A trigger fires when every key of
//! its chord is down and its primary key is not yet armed; firing arms the
//! primary key, and releasing it re-arms the trigger. The monitor only
//! decides; playing the fired macros, sleeping between cycles and reading the
//! keyboard are the driver's job.

use vstd::prelude::*;
use crate::keys::{key_set, vec_contains, PhysKey};
use crate::trigger::{
    config_error_spec, primary, valid_configs, wf_trigger, ConfigError, TriggerDef,
};

verus! {

broadcast use vstd::seq_lib::lemma_seq_contains_after_push;

/// The chord of `d` is fully down in the sampled key state `s`.
pub open spec fn chord_down(d: TriggerDef, s: Set<PhysKey>) -> bool {
    forall|i: int| 0 <= i < d.trigger_keys@.len() ==> s.contains(#[trigger] d.trigger_keys@[i])
}

/// `d` fires on this cycle: its chord is down and its primary key is not
/// armed, so this is the transition into the satisfied state.
pub open spec fn trigger_fires(d: TriggerDef, armed: Set<PhysKey>, s: Set<PhysKey>) -> bool {
    chord_down(d, s) && !armed.contains(primary(d))
}

/// The primary keys of every trigger that fires on this cycle.
pub open spec fn fired_primaries(
    cfgs: Seq<TriggerDef>,
    armed: Set<PhysKey>,
    s: Set<PhysKey>,
) -> Set<PhysKey> {
    Set::new(|k: PhysKey|
        exists|i: int|
            0 <= i < cfgs.len() && trigger_fires(#[trigger] cfgs[i], armed, s) && k == primary(
                cfgs[i],
            ))
}

/// The keys the monitor tracks for debounce pruning: every chord key of
/// every trigger, plus the reserved exit key.
pub open spec fn interesting_keys(cfgs: Seq<TriggerDef>, exit_key: PhysKey) -> Set<PhysKey> {
    Set::new(|k: PhysKey|
        k == exit_key || exists|i: int|
            0 <= i < cfgs.len() && (#[trigger] cfgs[i]).trigger_keys@.contains(k))
}

/// The armed set after one poll cycle: the newly fired primaries join it,
/// and every token whose key is no longer down, or is not tracked at all,
/// is pruned.
pub open spec fn step_armed(
    cfgs: Seq<TriggerDef>,
    interesting: Set<PhysKey>,
    armed: Set<PhysKey>,
    s: Set<PhysKey>,
) -> Set<PhysKey> {
    armed.union(fired_primaries(cfgs, armed, s)).intersect(s).intersect(interesting)
}

/// The monitor: the configured triggers and the mutable debounce state.
pub struct Monitor {
    configs: Vec<TriggerDef>,
    exit_key: PhysKey,
    armed: Vec<PhysKey>,
}

impl Monitor {
    /// The configured trigger definitions, in order.
    pub closed spec fn defs(self) -> Seq<TriggerDef> {
        self.configs@
    }

    /// The reserved exit key.
    pub closed spec fn exit(self) -> PhysKey {
        self.exit_key
    }

    /// The debounce tokens currently armed.
    pub closed spec fn armed_set(self) -> Set<PhysKey> {
        key_set(self.armed@)
    }

    /// The keys the monitor tracks.
    pub open spec fn tracked_keys(self) -> Set<PhysKey> {
        interesting_keys(self.defs(), self.exit())
    }

    /// The monitor's invariant: its configuration set is valid.
    pub open spec fn wf(self) -> bool {
        valid_configs(self.defs())
    }

    /// Builds a monitor over a validated configuration set.
    ///
    /// Rejects, at load time rather than fire time, a set with an empty
    /// chord or with two triggers sharing a primary key; reports the first
    /// malformation in scan order. A fresh monitor has nothing armed.
    pub fn new(configs: Vec<TriggerDef>, exit_key: PhysKey) -> (r: Result<Monitor, ConfigError>)
        ensures
            r is Ok <==> valid_configs(configs@),
            r matches Ok(m) ==> {
                &&& m.wf()
                &&& m.defs() == configs@
                &&& m.exit() == exit_key
                &&& m.armed_set() == Set::<PhysKey>::empty()
            },
            r matches Err(e) ==> config_error_spec(configs@, e),
    {
        match crate::trigger::validate_configs(&configs) {
            Err(e) => Err(e),
            Ok(()) => {
                let m = Monitor { configs, exit_key, armed: Vec::new() };
                proof {
                    assert(m.armed_set() =~= Set::<PhysKey>::empty());
                }
                Ok(m)
            },
        }
    }

    /// How many triggers are configured.
    pub fn config_count(&self) -> (n: usize)
        ensures
            n == self.defs().len(),
    {
        self.configs.len()
    }

    /// The trigger definition at `i`.
    pub fn trigger_at(&self, i: usize) -> (d: &TriggerDef)
        requires
            i < self.defs().len(),
        ensures
            *d == self.defs()[i as int],
    {
        &self.configs[i]
    }

    /// The exit key is down in this sample.
    ///
    /// The monitor itself never breaks the poll loop; the driver decides
    /// whether to stop when this reports true.
    pub fn exit_requested(&self, sample: &Vec<PhysKey>) -> (b: bool)
        ensures
            b == key_set(sample@).contains(self.exit()),
    {
        vec_contains(sample, self.exit_key)
    }

    /// One poll cycle: evaluates every trigger against the sample, returns
    /// the indices of the triggers that fire, in configuration order, and
    /// advances the debounce state.
    ///
    /// A trigger fires exactly when its whole chord is down and its primary
    /// key was not armed at the start of the cycle; the returned indices are
    /// exactly those triggers, strictly increasing. Afterwards the armed set
    /// is the old one joined with the fired primaries, pruned to the keys
    /// that are both down in this sample and tracked by the monitor.
    pub fn step(&mut self, sample: &Vec<PhysKey>) -> (fired: Vec<usize>)
        requires
            old(self).wf(),
        ensures
            final(self).wf(),
            final(self).defs() == old(self).defs(),
            final(self).exit() == old(self).exit(),
            forall|t: int|
                0 <= t < fired@.len() ==> 0 <= #[trigger] fired@[t] < old(self).defs().len()
                    && trigger_fires(
                    old(self).defs()[fired@[t] as int],
                    old(self).armed_set(),
                    key_set(sample@),
                ),
            forall|i: int|
                0 <= i < old(self).defs().len() && trigger_fires(
                    #[trigger] old(self).defs()[i],
                    old(self).armed_set(),
                    key_set(sample@),
                ) ==> fired@.contains(i as usize),
            forall|t1: int, t2: int| 0 <= t1 < t2 < fired@.len() ==> fired@[t1] < fired@[t2],
            final(self).armed_set() == step_armed(
                old(self).defs(),
                old(self).tracked_keys(),
                old(self).armed_set(),
                key_set(sample@),
            ),
    {
        let ghost a0: Set<PhysKey> = key_set(self.armed@);
        let ghost sset: Set<PhysKey> = key_set(sample@);
        let mut fired: Vec<usize> = Vec::new();
        let mut idx: usize = 0;
        while idx < self.configs.len()
            invariant
                old(self).wf(),
                self.configs@ == old(self).configs@,
                self.exit_key == old(self).exit_key,
                a0 == old(self).armed_set(),
                sset == key_set(sample@),
                0 <= idx <= self.configs@.len(),
                forall|t: int|
                    0 <= t < fired@.len() ==> 0 <= #[trigger] fired@[t] < idx && trigger_fires(
                        self.configs@[fired@[t] as int],
                        a0,
                        sset,
                    ),
                forall|i: int|
                    0 <= i < idx && trigger_fires(#[trigger] self.configs@[i], a0, sset)
                        ==> fired@.contains(i as usize),
                forall|t1: int, t2: int| 0 <= t1 < t2 < fired@.len() ==> fired@[t1] < fired@[t2],
                forall|k: PhysKey|
                    self.armed@.contains(k) <==> a0.contains(k) || exists|t: int|
                        0 <= t < fired@.len() && k == primary(
                            self.configs@[#[trigger] fired@[t] as int],
                        ),
            decreases self.configs@.len() - idx,
        {
            let ghost d = self.configs@[idx as int];
            let all_down = chord_down_exec(&self.configs[idx].trigger_keys, sample);
            proof {
                assert(all_down == chord_down(d, sset));
            }
            if all_down {
                let prim = self.configs[idx].trigger_keys[0];
                let token_armed = vec_contains(&self.armed, prim);
                proof {
                    assert(prim == primary(d));
                    // Distinct primaries: no earlier firing armed this token,
                    // so its presence now equals its presence at cycle start.
                    assert forall|t: int| 0 <= t < fired@.len() implies primary(
                        self.configs@[#[trigger] fired@[t] as int],
                    ) != prim by {
                        assert(primary(self.configs@[fired@[t] as int]) != primary(
                            self.configs@[idx as int],
                        ));
                    }
                    assert(self.armed@.contains(prim) == a0.contains(prim));
                }
                if !token_armed {
                    let ghost fired0 = fired@;
                    let ghost armed0 = self.armed@;
                    fired.push(idx);
                    self.armed.push(prim);
                    proof {
                        assert(trigger_fires(d, a0, sset));
                        assert(fired@ == fired0.push(idx));
                        assert(self.armed@ == armed0.push(prim));
                        assert(fired@[fired0.len() as int] == idx);
                        assert forall|k: PhysKey| self.armed@.contains(k) implies a0.contains(k)
                            || exists|t: int|
                            0 <= t < fired@.len() && k == primary(
                                self.configs@[#[trigger] fired@[t] as int],
                            ) by {
                            if armed0.contains(k) {
                                if !a0.contains(k) {
                                    let t = choose|t: int|
                                        0 <= t < fired0.len() && k == primary(
                                            self.configs@[#[trigger] fired0[t] as int],
                                        );
                                    assert(fired@[t] == fired0[t]);
                                    assert(k == primary(self.configs@[fired@[t] as int]));
                                }
                            } else {
                                assert(k == prim);
                                assert(k == primary(
                                    self.configs@[fired@[fired0.len() as int] as int],
                                ));
                            }
                        }
                        assert forall|k: PhysKey|
                            a0.contains(k) || exists|t: int|
                                0 <= t < fired@.len() && k == primary(
                                    self.configs@[#[trigger] fired@[t] as int],
                                ) implies self.armed@.contains(k) by {
                            if a0.contains(k) {
                                assert(armed0.contains(k));
                            } else {
                                let t = choose|t: int|
                                    0 <= t < fired@.len() && k == primary(
                                        self.configs@[#[trigger] fired@[t] as int],
                                    );
                                if t < fired0.len() {
                                    assert(fired@[t] == fired0[t]);
                                    assert(armed0.contains(k));
                                } else {
                                    assert(k == prim);
                                    assert(self.armed@[armed0.len() as int] == prim);
                                }
                            }
                        }
                    }
                }
            }
            idx = idx + 1;
        }
        // Prune: keep a token only while its key is still down and tracked.
        let mut kept: Vec<PhysKey> = Vec::new();
        let mut p: usize = 0;
        while p < self.armed.len()
            invariant
                self.configs@ == old(self).configs@,
                self.exit_key == old(self).exit_key,
                sset == key_set(sample@),
                0 <= p <= self.armed@.len(),
                forall|k: PhysKey| #![trigger kept@.contains(k)]
                    kept@.contains(k) <==> self.armed@.take(p as int).contains(k) && sset.contains(
                        k,
                    ) && old(self).tracked_keys().contains(k),
            decreases self.armed@.len() - p,
        {
            let k = self.armed[p];
            let down = vec_contains(sample, k);
            let watched = key_interesting(&self.configs, self.exit_key, k);
            let ghost kept0 = kept@;
            if down && watched {
                kept.push(k);
            }
            proof {
                let prev = self.armed@.take(p as int);
                let cur = self.armed@.take(p + 1 as int);
                assert(cur =~= prev.push(self.armed@[p as int]));
                assert(down == sset.contains(k));
                assert(watched == old(self).tracked_keys().contains(k));
                assert forall|x: PhysKey| kept@.contains(x) implies cur.contains(x)
                    && sset.contains(x) && old(self).tracked_keys().contains(x) by {
                    if kept0.contains(x) {
                        assert(prev.contains(x));
                        assert(cur.contains(x));
                    } else {
                        assert(kept@ == kept0.push(k));
                        assert(x == k);
                        assert(cur.contains(x));
                    }
                }
                assert forall|x: PhysKey| cur.contains(x) && sset.contains(x) && old(
                    self,
                ).tracked_keys().contains(x) implies kept@.contains(x) by {
                    if prev.contains(x) {
                        assert(kept0.contains(x));
                        if down && watched {
                            assert(kept@ == kept0.push(k));
                        }
                        assert(kept@.contains(x));
                    } else {
                        assert(x == k);
                        assert(down && watched);
                        assert(kept@ == kept0.push(k));
                        assert(kept@.contains(x));
                    }
                }
            }
            p = p + 1;
        }
        proof {
            assert(self.armed@.take(self.armed@.len() as int) == self.armed@);
            // The tokens gathered while firing are exactly the fired primaries.
            let fp = fired_primaries(self.configs@, a0, sset);
            assert forall|k: PhysKey| key_set(self.armed@).contains(k) implies a0.union(
                fp,
            ).contains(k) by {
                if !a0.contains(k) {
                    let t = choose|t: int|
                        0 <= t < fired@.len() && k == primary(
                            self.configs@[#[trigger] fired@[t] as int],
                        );
                    assert(trigger_fires(self.configs@[fired@[t] as int], a0, sset));
                    assert(fp.contains(k));
                }
            }
            assert forall|k: PhysKey| a0.union(fp).contains(k) implies key_set(
                self.armed@,
            ).contains(k) by {
                if !a0.contains(k) {
                    let i = choose|i: int|
                        0 <= i < self.configs@.len() && trigger_fires(
                            #[trigger] self.configs@[i],
                            a0,
                            sset,
                        ) && k == primary(self.configs@[i]);
                    assert(fired@.contains(i as usize));
                    let t = choose|t: int| 0 <= t < fired@.len() && fired@[t] == i as usize;
                    assert(k == primary(self.configs@[fired@[t] as int]));
                }
            }
            assert(key_set(self.armed@) =~= a0.union(fp));
            assert(key_set(kept@) =~= step_armed(self.configs@, old(self).tracked_keys(), a0, sset));
        }
        self.armed = kept;
        fired
    }
}

/// The armed set after the monitor has consumed a whole sequence of sampled
/// key states, cycle by cycle.
pub open spec fn armed_after(
    cfgs: Seq<TriggerDef>,
    interesting: Set<PhysKey>,
    armed0: Set<PhysKey>,
    samples: Seq<Set<PhysKey>>,
) -> Set<PhysKey>
    decreases samples.len(),
{
    if samples.len() == 0 {
        armed0
    } else {
        armed_after(
            cfgs,
            interesting,
            step_armed(cfgs, interesting, armed0, samples[0]),
            samples.drop_first(),
        )
    }
}

/// How many of the sampled cycles fire the trigger at index `i`.
pub open spec fn fire_count(
    cfgs: Seq<TriggerDef>,
    interesting: Set<PhysKey>,
    armed0: Set<PhysKey>,
    samples: Seq<Set<PhysKey>>,
    i: int,
) -> nat
    decreases samples.len(),
{
    if samples.len() == 0 {
        0
    } else {
        (if trigger_fires(cfgs[i], armed0, samples[0]) {
            1nat
        } else {
            0nat
        }) + fire_count(
            cfgs,
            interesting,
            step_armed(cfgs, interesting, armed0, samples[0]),
            samples.drop_first(),
            i,
        )
    }
}

/// While a trigger's chord stays down and its token is armed, the token stays
/// armed and the trigger never fires again.
proof fn lemma_held_token_stays(
    cfgs: Seq<TriggerDef>,
    interesting: Set<PhysKey>,
    armed0: Set<PhysKey>,
    samples: Seq<Set<PhysKey>>,
    i: int,
)
    requires
        0 <= i < cfgs.len(),
        wf_trigger(cfgs[i]),
        interesting.contains(primary(cfgs[i])),
        armed0.contains(primary(cfgs[i])),
        forall|t: int| 0 <= t < samples.len() ==> chord_down(cfgs[i], #[trigger] samples[t]),
    ensures
        fire_count(cfgs, interesting, armed0, samples, i) == 0,
        armed_after(cfgs, interesting, armed0, samples).contains(primary(cfgs[i])),
    decreases samples.len(),
{
    if samples.len() > 0 {
        let p = primary(cfgs[i]);
        let s0 = samples[0];
        assert(chord_down(cfgs[i], s0));
        assert(s0.contains(cfgs[i].trigger_keys@[0]));
        assert(!trigger_fires(cfgs[i], armed0, s0));
        let a1 = step_armed(cfgs, interesting, armed0, s0);
        assert(a1.contains(p));
        assert forall|t: int|
            0 <= t < samples.drop_first().len() implies chord_down(
            cfgs[i],
            #[trigger] samples.drop_first()[t],
        ) by {
            assert(samples.drop_first()[t] == samples[t + 1]);
        }
        lemma_held_token_stays(cfgs, interesting, a1, samples.drop_first(), i);
    }
}

/// Edge-triggering: hold a trigger's full chord continuously across any
/// number of consecutive poll cycles, starting from a cycle where its token
/// is not armed, and the trigger fires exactly once — at the first cycle —
/// not once per cycle.
pub proof fn lemma_edge_trigger(
    cfgs: Seq<TriggerDef>,
    interesting: Set<PhysKey>,
    armed0: Set<PhysKey>,
    samples: Seq<Set<PhysKey>>,
    i: int,
)
    requires
        valid_configs(cfgs),
        0 <= i < cfgs.len(),
        interesting.contains(primary(cfgs[i])),
        samples.len() >= 1,
        forall|t: int| 0 <= t < samples.len() ==> chord_down(cfgs[i], #[trigger] samples[t]),
        !armed0.contains(primary(cfgs[i])),
    ensures
        trigger_fires(cfgs[i], armed0, samples[0]),
        fire_count(cfgs, interesting, armed0, samples, i) == 1,
{
    let p = primary(cfgs[i]);
    let s0 = samples[0];
    assert(wf_trigger(cfgs[i]));
    assert(chord_down(cfgs[i], s0));
    assert(s0.contains(cfgs[i].trigger_keys@[0]));
    assert(trigger_fires(cfgs[i], armed0, s0));
    let a1 = step_armed(cfgs, interesting, armed0, s0);
    // the fired primary joins the armed set: it is still down and tracked
    assert(fired_primaries(cfgs, armed0, s0).contains(p));
    assert(a1.contains(p));
    assert forall|t: int|
        0 <= t < samples.drop_first().len() implies chord_down(
        cfgs[i],
        #[trigger] samples.drop_first()[t],
    ) by {
        assert(samples.drop_first()[t] == samples[t + 1]);
    }
    lemma_held_token_stays(cfgs, interesting, a1, samples.drop_first(), i);
}

/// Re-arm: after a trigger has fired (its token is armed), one cycle with its
/// primary key released disarms the token, and holding the full chord again
/// fires the trigger exactly once more, at the first held cycle.
pub proof fn lemma_rearm(
    cfgs: Seq<TriggerDef>,
    interesting: Set<PhysKey>,
    armed0: Set<PhysKey>,
    s_release: Set<PhysKey>,
    held: Seq<Set<PhysKey>>,
    i: int,
)
    requires
        valid_configs(cfgs),
        0 <= i < cfgs.len(),
        interesting.contains(primary(cfgs[i])),
        armed0.contains(primary(cfgs[i])),
        !s_release.contains(primary(cfgs[i])),
        held.len() >= 1,
        forall|t: int| 0 <= t < held.len() ==> chord_down(cfgs[i], #[trigger] held[t]),
    ensures
        !trigger_fires(cfgs[i], armed0, s_release),
        trigger_fires(
            cfgs[i],
            armed_after(cfgs, interesting, armed0, seq![s_release]),
            held[0],
        ),
        fire_count(cfgs, interesting, armed0, seq![s_release] + held, i) == 1,
{
    let p = primary(cfgs[i]);
    let all = seq![s_release] + held;
    assert(all[0] == s_release);
    assert(all.drop_first() =~= held);
    assert(all.len() == 1 + held.len());
    // the chord cannot be down while the primary key is up
    assert(wf_trigger(cfgs[i]));
    assert(chord_down(cfgs[i], s_release) ==> s_release.contains(cfgs[i].trigger_keys@[0]));
    assert(!trigger_fires(cfgs[i], armed0, s_release));
    let a1 = step_armed(cfgs, interesting, armed0, s_release);
    assert(!a1.contains(p));
    lemma_edge_trigger(cfgs, interesting, a1, held, i);
    assert(seq![s_release].drop_first() =~= Seq::<Set<PhysKey>>::empty());
    assert(seq![s_release][0] == s_release);
    assert(armed_after(cfgs, interesting, a1, seq![s_release].drop_first()) == a1);
    assert(armed_after(cfgs, interesting, armed0, seq![s_release]) == a1);
    assert(fire_count(cfgs, interesting, armed0, all, i) == fire_count(
        cfgs,
        interesting,
        a1,
        held,
        i,
    ));
}

/// Independence: a trigger's firing and its debounce token depend only on its
/// own primary key. Because primaries are distinct across a valid
/// configuration set, running the whole set and running the one trigger alone
/// fire it the same number of times on the same samples, and leave its token
/// in the same state, whatever the other triggers do.
pub proof fn lemma_independence(
    cfgs: Seq<TriggerDef>,
    interesting: Set<PhysKey>,
    armed_full: Set<PhysKey>,
    armed_alone: Set<PhysKey>,
    samples: Seq<Set<PhysKey>>,
    j: int,
)
    requires
        valid_configs(cfgs),
        0 <= j < cfgs.len(),
        armed_full.contains(primary(cfgs[j])) == armed_alone.contains(primary(cfgs[j])),
    ensures
        fire_count(cfgs, interesting, armed_full, samples, j) == fire_count(
            seq![cfgs[j]],
            interesting,
            armed_alone,
            samples,
            0,
        ),
        armed_after(cfgs, interesting, armed_full, samples).contains(primary(cfgs[j]))
            == armed_after(seq![cfgs[j]], interesting, armed_alone, samples).contains(
            primary(cfgs[j]),
        ),
        samples.len() > 0 ==> trigger_fires(cfgs[j], armed_full, samples[0]) == trigger_fires(
            cfgs[j],
            armed_alone,
            samples[0],
        ),
    decreases samples.len(),
{
    let single = seq![cfgs[j]];
    let p = primary(cfgs[j]);
    if samples.len() > 0 {
        let s0 = samples[0];
        assert(single[0] == cfgs[j]);
        assert(trigger_fires(cfgs[j], armed_full, s0) == trigger_fires(cfgs[j], armed_alone, s0));
        let a1f = step_armed(cfgs, interesting, armed_full, s0);
        let a1a = step_armed(single, interesting, armed_alone, s0);
        // only trigger j itself can contribute its primary as a fired token
        assert(fired_primaries(cfgs, armed_full, s0).contains(p) == trigger_fires(
            cfgs[j],
            armed_full,
            s0,
        )) by {
            if fired_primaries(cfgs, armed_full, s0).contains(p) {
                let i = choose|i: int|
                    0 <= i < cfgs.len() && trigger_fires(#[trigger] cfgs[i], armed_full, s0)
                        && p == primary(cfgs[i]);
                if i != j {
                    assert(primary(cfgs[i]) != primary(cfgs[j]));
                }
            }
            if trigger_fires(cfgs[j], armed_full, s0) {
                assert(trigger_fires(cfgs[j], armed_full, s0) && p == primary(cfgs[j]));
            }
        }
        assert(fired_primaries(single, armed_alone, s0).contains(p) == trigger_fires(
            cfgs[j],
            armed_alone,
            s0,
        )) by {
            if fired_primaries(single, armed_alone, s0).contains(p) {
                let i = choose|i: int|
                    0 <= i < single.len() && trigger_fires(#[trigger] single[i], armed_alone, s0)
                        && p == primary(single[i]);
                assert(i == 0);
            }
            if trigger_fires(cfgs[j], armed_alone, s0) {
                assert(trigger_fires(single[0], armed_alone, s0) && p == primary(single[0]));
            }
        }
        assert(a1f.contains(p) == a1a.contains(p));
        lemma_independence(cfgs, interesting, a1f, a1a, samples.drop_first(), j);
    }
}

/// Every key of `keys` is down in the sample, decided by walking the chord.
fn chord_down_exec(keys: &Vec<PhysKey>, sample: &Vec<PhysKey>) -> (b: bool)
    ensures
        b == forall|i: int|
            0 <= i < keys@.len() ==> key_set(sample@).contains(#[trigger] keys@[i]),
{
    let mut i: usize = 0;
    while i < keys.len()
        invariant
            0 <= i <= keys@.len(),
            forall|j: int| 0 <= j < i ==> key_set(sample@).contains(#[trigger] keys@[j]),
        decreases keys@.len() - i,
    {
        if !vec_contains(sample, keys[i]) {
            return false;
        }
        i = i + 1;
    }
    true
}

/// `k` is one of the tracked keys: the exit key or some chord key.
fn key_interesting(configs: &Vec<TriggerDef>, exit_key: PhysKey, k: PhysKey) -> (b: bool)
    ensures
        b == interesting_keys(configs@, exit_key).contains(k),
{
    if k == exit_key {
        return true;
    }
    let mut i: usize = 0;
    while i < configs.len()
        invariant
            0 <= i <= configs@.len(),
            forall|a: int| 0 <= a < i ==> !(#[trigger] configs@[a]).trigger_keys@.contains(k),
        decreases configs@.len() - i,
    {
        if vec_contains(&configs[i].trigger_keys, k) {
            return true;
        }
        i = i + 1;
    }
    false
}

} // verus!
