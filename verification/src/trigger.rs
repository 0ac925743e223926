//! Trigger definitions and configuration validation.
//!
//! A trigger is a chord of physical keys; when every key of the chord is down
//! in one sample, the trigger fires and its macro is played. The first chord
//! key is the trigger's *primary* key: the debounce mechanism keys solely on
//! it, so a configuration set is valid only when every trigger has at least
//! one chord key and no two triggers share a primary key.

use vstd::prelude::*;
use crate::keys::{OutKey, PhysKey};

verus! {

/// One configured trigger: a chord to watch for and the macro to play.
pub struct TriggerDef {
    /// The physical keys that must all be simultaneously down. Element 0 is
    /// the primary key, the canonical debounce token.
    pub trigger_keys: Vec<PhysKey>,
    /// The output key held down for the whole playback.
    pub hold_key: OutKey,
    /// The output keys tapped in order while the hold key is down.
    pub tap_sequence: Vec<OutKey>,
    /// Human-readable name for log lines; no behavioral effect.
    pub label: String,
}

/// The trigger's primary key: the canonical debounce token.
pub open spec fn primary(d: TriggerDef) -> PhysKey {
    d.trigger_keys@[0]
}

/// A single trigger is well formed when its chord is non-empty.
pub open spec fn wf_trigger(d: TriggerDef) -> bool {
    d.trigger_keys@.len() > 0
}

/// No two triggers share a primary key.
pub open spec fn distinct_primaries(cfgs: Seq<TriggerDef>) -> bool {
    forall|i: int, j: int|
        0 <= i < j < cfgs.len() ==> primary(cfgs[i]) != primary(cfgs[j])
}

/// A valid configuration set: every chord non-empty, all primaries distinct.
pub open spec fn valid_configs(cfgs: Seq<TriggerDef>) -> bool {
    &&& forall|i: int| 0 <= i < cfgs.len() ==> wf_trigger(#[trigger] cfgs[i])
    &&& distinct_primaries(cfgs)
}

/// A malformed trigger configuration, rejected at load time.
#[derive(Clone, Copy, Debug, PartialEq, Eq, Structural)]
pub enum ConfigError {
    /// The trigger at `index` has an empty chord.
    EmptyTriggerKeys { index: usize },
    /// The triggers at `first` and `second` share a primary key, so their
    /// debounce tokens would collide.
    DuplicatePrimary { first: usize, second: usize },
}

/// Exactly which error `validate_configs` reports for a given set: the first
/// empty chord in order, else the first primary-key collision in scan order.
pub open spec fn config_error_spec(cfgs: Seq<TriggerDef>, e: ConfigError) -> bool {
    match e {
        ConfigError::EmptyTriggerKeys { index } => {
            &&& 0 <= index < cfgs.len()
            &&& !wf_trigger(cfgs[index as int])
            &&& forall|k: int| 0 <= k < index ==> wf_trigger(#[trigger] cfgs[k])
        },
        ConfigError::DuplicatePrimary { first, second } => {
            &&& forall|k: int| 0 <= k < cfgs.len() ==> wf_trigger(#[trigger] cfgs[k])
            &&& 0 <= first < second < cfgs.len()
            &&& primary(cfgs[first as int]) == primary(cfgs[second as int])
            &&& forall|i: int, j: int|
                0 <= i < j < cfgs.len() && (j < second || (j == second && i < first))
                    ==> primary(cfgs[i]) != primary(cfgs[j])
        },
    }
}

/// Checks a configuration set, reporting the first malformation in scan
/// order: an empty chord before any primary-key collision.
pub fn validate_configs(cfgs: &Vec<TriggerDef>) -> (r: Result<(), ConfigError>)
    ensures
        r is Ok <==> valid_configs(cfgs@),
        r matches Err(e) ==> config_error_spec(cfgs@, e),
{
    let mut i: usize = 0;
    while i < cfgs.len()
        invariant
            0 <= i <= cfgs@.len(),
            forall|k: int| 0 <= k < i ==> wf_trigger(#[trigger] cfgs@[k]),
        decreases cfgs@.len() - i,
    {
        if cfgs[i].trigger_keys.len() == 0 {
            return Err(ConfigError::EmptyTriggerKeys { index: i });
        }
        i = i + 1;
    }
    let mut j: usize = 0;
    while j < cfgs.len()
        invariant
            0 <= j <= cfgs@.len(),
            forall|k: int| 0 <= k < cfgs@.len() ==> wf_trigger(#[trigger] cfgs@[k]),
            forall|a: int, b: int|
                0 <= a < b < cfgs@.len() && b < j ==> primary(cfgs@[a]) != primary(cfgs@[b]),
        decreases cfgs@.len() - j,
    {
        let mut i2: usize = 0;
        while i2 < j
            invariant
                0 <= i2 <= j < cfgs@.len(),
                forall|k: int| 0 <= k < cfgs@.len() ==> wf_trigger(#[trigger] cfgs@[k]),
                forall|a: int, b: int|
                    0 <= a < b < cfgs@.len() && b < j ==> primary(cfgs@[a]) != primary(cfgs@[b]),
                forall|a: int| 0 <= a < i2 ==> primary(cfgs@[a]) != primary(cfgs@[j as int]),
            decreases j - i2,
        {
            if cfgs[i2].trigger_keys[0] == cfgs[j].trigger_keys[0] {
                return Err(ConfigError::DuplicatePrimary { first: i2, second: j });
            }
            i2 = i2 + 1;
        }
        j = j + 1;
    }
    Ok(())
}

} // verus!
