//! The macro player: turns a hold key and a tap sequence into the exact
//! ordered plan of injection steps that a driver must perform.
//!
//! The plan is pure data. Performing it — pressing and releasing keys through
//! an injection sink and sleeping through the waits — is the driver's job;
//! the library guarantees only the order and content of the steps.

use vstd::prelude::*;
use crate::keys::OutKey;
use crate::trigger::TriggerDef;

verus! {

/// The fixed pause between injection steps, in milliseconds.
///
/// The receiving application tells deliberate sequential taps apart from
/// simultaneous presses by timing, so the pause must be non-zero and
/// perceptible; its exact value is a tunable constant.
pub const STEP_PAUSE_MS: u64 = 100;

/// One step of a playback plan.
#[derive(Clone, Copy, Debug, PartialEq, Eq, Structural)]
pub enum Step {
    /// Sleep for the given number of milliseconds.
    Wait(u64),
    /// Press the key down and leave it down.
    Press(OutKey),
    /// Tap the key: one press immediately followed by one release.
    Tap(OutKey),
    /// Release the key.
    Release(OutKey),
}

/// The steps that tap each key of `taps` in order, each tap followed by the
/// fixed pause.
pub open spec fn tap_steps(taps: Seq<OutKey>) -> Seq<Step>
    decreases taps.len(),
{
    if taps.len() == 0 {
        Seq::empty()
    } else {
        tap_steps(taps.drop_last()) + seq![Step::Tap(taps.last()), Step::Wait(STEP_PAUSE_MS as u64)]
    }
}

/// The full playback plan for one macro invocation: a settling pause, the
/// hold key pressed and left down, a pause, each tap key tapped in order with
/// a pause after it, and finally the hold key released followed by a pause.
pub open spec fn playback_plan(hold: OutKey, taps: Seq<OutKey>) -> Seq<Step> {
    seq![
        Step::Wait(STEP_PAUSE_MS as u64),
        Step::Press(hold),
        Step::Wait(STEP_PAUSE_MS as u64),
    ] + tap_steps(taps) + seq![Step::Release(hold), Step::Wait(STEP_PAUSE_MS as u64)]
}

/// Builds the playback plan for one macro invocation.
///
/// An empty `taps` is legal and yields a pure hold-then-release plan.
pub fn playback_steps(hold: OutKey, taps: &Vec<OutKey>) -> (r: Vec<Step>)
    ensures
        r@ == playback_plan(hold, taps@),
{
    let mut r: Vec<Step> = Vec::new();
    r.push(Step::Wait(STEP_PAUSE_MS));
    r.push(Step::Press(hold));
    r.push(Step::Wait(STEP_PAUSE_MS));
    let mut i: usize = 0;
    while i < taps.len()
        invariant
            0 <= i <= taps@.len(),
            r@ == seq![
                Step::Wait(STEP_PAUSE_MS as u64),
                Step::Press(hold),
                Step::Wait(STEP_PAUSE_MS as u64),
            ] + tap_steps(taps@.take(i as int)),
        decreases taps@.len() - i,
    {
        r.push(Step::Tap(taps[i]));
        r.push(Step::Wait(STEP_PAUSE_MS));
        proof {
            assert(taps@.take(i + 1 as int).drop_last() =~= taps@.take(i as int));
            assert(r@ =~= seq![
                Step::Wait(STEP_PAUSE_MS as u64),
                Step::Press(hold),
                Step::Wait(STEP_PAUSE_MS as u64),
            ] + tap_steps(taps@.take(i + 1 as int)));
        }
        i = i + 1;
    }
    r.push(Step::Release(hold));
    r.push(Step::Wait(STEP_PAUSE_MS));
    proof {
        assert(taps@.take(taps@.len() as int) == taps@);
        assert(r@ =~= playback_plan(hold, taps@));
    }
    r
}


/// How many times the plan presses the key `k` (presses proper, not taps).
pub open spec fn press_count(s: Seq<Step>, k: OutKey) -> nat
    decreases s.len(),
{
    if s.len() == 0 {
        0
    } else {
        press_count(s.drop_last(), k) + (if s.last() == Step::Press(k) {
            1nat
        } else {
            0nat
        })
    }
}

/// How many times the plan releases the key `k`.
pub open spec fn release_count(s: Seq<Step>, k: OutKey) -> nat
    decreases s.len(),
{
    if s.len() == 0 {
        0
    } else {
        release_count(s.drop_last(), k) + (if s.last() == Step::Release(k) {
            1nat
        } else {
            0nat
        })
    }
}

/// The tap key of a single step, if it is a tap.
pub open spec fn tap_part(st: Step) -> Seq<OutKey> {
    match st {
        Step::Tap(k) => seq![k],
        _ => Seq::empty(),
    }
}

/// The keys the plan taps, in emission order.
pub open spec fn taps_of(s: Seq<Step>) -> Seq<OutKey>
    decreases s.len(),
{
    if s.len() == 0 {
        Seq::empty()
    } else {
        taps_of(s.drop_last()) + tap_part(s.last())
    }
}

/// Counts and tap projections distribute over concatenation of plans.
proof fn lemma_counts_concat(a: Seq<Step>, b: Seq<Step>, k: OutKey)
    ensures
        press_count(a + b, k) == press_count(a, k) + press_count(b, k),
        release_count(a + b, k) == release_count(a, k) + release_count(b, k),
        taps_of(a + b) == taps_of(a) + taps_of(b),
    decreases b.len(),
{
    if b.len() == 0 {
        assert(a + b =~= a);
        assert(taps_of(a) + taps_of(b) =~= taps_of(a));
    } else {
        lemma_counts_concat(a, b.drop_last(), k);
        assert((a + b).drop_last() =~= a + b.drop_last());
        assert((a + b).last() == b.last());
        assert(taps_of(a) + taps_of(b) =~= (taps_of(a) + taps_of(b.drop_last())) + tap_part(
            b.last(),
        ));
    }
}

/// The tap segment of a plan holds two steps per tap key, presses or
/// releases nothing, and taps exactly the given keys in order.
proof fn lemma_tap_steps_facts(taps: Seq<OutKey>, k: OutKey)
    ensures
        tap_steps(taps).len() == 2 * taps.len(),
        press_count(tap_steps(taps), k) == 0,
        release_count(tap_steps(taps), k) == 0,
        taps_of(tap_steps(taps)) == taps,
        forall|u: int|
            0 <= u < tap_steps(taps).len() ==> ((#[trigger] tap_steps(taps)[u]) is Tap
                || tap_steps(taps)[u] is Wait),
    decreases taps.len(),
{
    if taps.len() == 0 {
        assert(taps_of(tap_steps(taps)) =~= taps);
    } else {
        lemma_tap_steps_facts(taps.drop_last(), k);
        let pre = tap_steps(taps.drop_last());
        let pair = seq![Step::Tap(taps.last()), Step::Wait(STEP_PAUSE_MS as u64)];
        assert(tap_steps(taps) == pre + pair);
        lemma_counts_concat(pre, pair, k);
        assert(press_count(Seq::<Step>::empty(), k) == 0);
        assert(release_count(Seq::<Step>::empty(), k) == 0);
        assert(taps_of(Seq::<Step>::empty()) == Seq::<OutKey>::empty());
        let one = seq![Step::Tap(taps.last())];
        assert(pair.drop_last() =~= one);
        assert(one.drop_last() =~= Seq::<Step>::empty());
        assert(press_count(pair, k) == press_count(one, k));
        assert(press_count(one, k) == 0);
        assert(release_count(pair, k) == release_count(one, k));
        assert(release_count(one, k) == 0);
        assert(taps_of(one) =~= seq![taps.last()]);
        assert(taps_of(pair) =~= seq![taps.last()]);
        assert(taps_of(tap_steps(taps)) =~= taps);
    }
}

/// Hold/release balance: a playback plan presses the hold key exactly once
/// and releases it exactly once — for every tap sequence, the empty one
/// included — and the one release stands strictly after the one press: the
/// press is the plan's second step and the release its second-to-last.
pub proof fn lemma_hold_release_balance(hold: OutKey, taps: Seq<OutKey>)
    ensures
        press_count(playback_plan(hold, taps), hold) == 1,
        release_count(playback_plan(hold, taps), hold) == 1,
        playback_plan(hold, taps).len() == 5 + 2 * taps.len(),
        forall|u: int|
            0 <= u < playback_plan(hold, taps).len() ==> ((#[trigger] playback_plan(
                hold,
                taps,
            )[u] == Step::Press(hold)) <==> u == 1),
        forall|u: int|
            0 <= u < playback_plan(hold, taps).len() ==> ((#[trigger] playback_plan(
                hold,
                taps,
            )[u] == Step::Release(hold)) <==> u == playback_plan(hold, taps).len() - 2),
{
    let head = seq![
        Step::Wait(STEP_PAUSE_MS as u64),
        Step::Press(hold),
        Step::Wait(STEP_PAUSE_MS as u64),
    ];
    let mid = tap_steps(taps);
    let tail = seq![Step::Release(hold), Step::Wait(STEP_PAUSE_MS as u64)];
    let plan = playback_plan(hold, taps);
    assert(plan == (head + mid) + tail);
    lemma_tap_steps_facts(taps, hold);
    lemma_counts_concat(head, mid, hold);
    lemma_counts_concat(head + mid, tail, hold);
    let head2 = seq![Step::Wait(STEP_PAUSE_MS as u64), Step::Press(hold)];
    let head1 = seq![Step::Wait(STEP_PAUSE_MS as u64)];
    assert(head.drop_last() =~= head2);
    assert(head2.drop_last() =~= head1);
    assert(head1.drop_last() =~= Seq::<Step>::empty());
    assert(press_count(Seq::<Step>::empty(), hold) == 0);
    assert(release_count(Seq::<Step>::empty(), hold) == 0);
    assert(press_count(head1, hold) == 0);
    assert(press_count(head2, hold) == 1);
    assert(press_count(head, hold) == 1);
    assert(release_count(head1, hold) == 0);
    assert(release_count(head2, hold) == 0);
    assert(release_count(head, hold) == 0);
    let tail1 = seq![Step::Release(hold)];
    assert(tail.drop_last() =~= tail1);
    assert(tail1.drop_last() =~= Seq::<Step>::empty());
    assert(press_count(tail1, hold) == 0);
    assert(press_count(tail, hold) == 0);
    assert(release_count(tail1, hold) == 1);
    assert(release_count(tail, hold) == 1);
    assert(plan.len() == 5 + 2 * taps.len());
    assert forall|u: int| 0 <= u < plan.len() implies ((#[trigger] plan[u] == Step::Press(hold))
        <==> u == 1) by {
        if u < 3 {
            assert(plan[u] == head[u]);
        } else if u < 3 + mid.len() {
            assert(plan[u] == mid[u - 3]);
            assert(mid[u - 3] is Tap || mid[u - 3] is Wait);
        } else {
            assert(plan[u] == tail[u - 3 - mid.len()]);
        }
    }
    assert forall|u: int| 0 <= u < plan.len() implies ((#[trigger] plan[u] == Step::Release(hold))
        <==> u == plan.len() - 2) by {
        if u < 3 {
            assert(plan[u] == head[u]);
        } else if u < 3 + mid.len() {
            assert(plan[u] == mid[u - 3]);
            assert(mid[u - 3] is Tap || mid[u - 3] is Wait);
        } else {
            assert(plan[u] == tail[u - 3 - mid.len()]);
        }
    }
}

/// Sequence fidelity: the taps a playback plan emits are exactly the given
/// tap sequence — the same keys in the same order, none dropped, none added.
pub proof fn lemma_sequence_fidelity(hold: OutKey, taps: Seq<OutKey>)
    ensures
        taps_of(playback_plan(hold, taps)) == taps,
{
    let head = seq![
        Step::Wait(STEP_PAUSE_MS as u64),
        Step::Press(hold),
        Step::Wait(STEP_PAUSE_MS as u64),
    ];
    let mid = tap_steps(taps);
    let tail = seq![Step::Release(hold), Step::Wait(STEP_PAUSE_MS as u64)];
    let plan = playback_plan(hold, taps);
    assert(plan == (head + mid) + tail);
    lemma_tap_steps_facts(taps, hold);
    lemma_counts_concat(head, mid, hold);
    lemma_counts_concat(head + mid, tail, hold);
    let head2 = seq![Step::Wait(STEP_PAUSE_MS as u64), Step::Press(hold)];
    let head1 = seq![Step::Wait(STEP_PAUSE_MS as u64)];
    assert(head.drop_last() =~= head2);
    assert(head2.drop_last() =~= head1);
    assert(head1.drop_last() =~= Seq::<Step>::empty());
    assert(taps_of(Seq::<Step>::empty()) == Seq::<OutKey>::empty());
    assert(taps_of(head1) =~= Seq::<OutKey>::empty());
    assert(taps_of(head2) =~= Seq::<OutKey>::empty());
    assert(taps_of(head) =~= Seq::<OutKey>::empty());
    let tail1 = seq![Step::Release(hold)];
    assert(tail.drop_last() =~= tail1);
    assert(tail1.drop_last() =~= Seq::<Step>::empty());
    assert(taps_of(tail1) =~= Seq::<OutKey>::empty());
    assert(taps_of(tail) =~= Seq::<OutKey>::empty());
    assert(taps_of(plan) =~= taps);
}

/// The playback plan of the trigger at `idx` in a configuration set.
pub open spec fn plan_of(cfgs: Seq<TriggerDef>, idx: int) -> Seq<Step> {
    playback_plan(cfgs[idx].hold_key, cfgs[idx].tap_sequence@)
}

/// The steps one poll cycle emits: the plans of the fired triggers, played
/// one after another in firing order, never concurrently.
pub open spec fn cycle_plan(cfgs: Seq<TriggerDef>, fired: Seq<int>) -> Seq<Step>
    decreases fired.len(),
{
    if fired.len() == 0 {
        Seq::empty()
    } else {
        plan_of(cfgs, fired[0]) + cycle_plan(cfgs, fired.drop_first())
    }
}

/// Where invocation `t`'s plan begins inside the cycle's emitted steps.
pub open spec fn plan_offset(cfgs: Seq<TriggerDef>, fired: Seq<int>, t: int) -> int
    decreases t,
{
    if t <= 0 {
        0
    } else {
        plan_offset(cfgs, fired, t - 1) + plan_of(cfgs, fired[t - 1]).len()
    }
}

/// Dropping the first fired trigger shifts every later offset down by the
/// length of its plan.
proof fn lemma_offset_shift(cfgs: Seq<TriggerDef>, fired: Seq<int>, t: int)
    requires
        1 <= t <= fired.len(),
    ensures
        plan_offset(cfgs, fired, t) == plan_of(cfgs, fired[0]).len() + plan_offset(
            cfgs,
            fired.drop_first(),
            t - 1,
        ),
    decreases t,
{
    if t == 1 {
        assert(plan_offset(cfgs, fired, 0) == 0);
        assert(plan_offset(cfgs, fired.drop_first(), 0) == 0);
        assert(plan_offset(cfgs, fired, 1) == plan_offset(cfgs, fired, 0) + plan_of(
            cfgs,
            fired[0],
        ).len());
    } else {
        lemma_offset_shift(cfgs, fired, t - 1);
        assert(fired.drop_first()[t - 2] == fired[t - 1]);
        assert(plan_offset(cfgs, fired, t) == plan_offset(cfgs, fired, t - 1) + plan_of(
            cfgs,
            fired[t - 1],
        ).len());
        assert(plan_offset(cfgs, fired.drop_first(), t - 1) == plan_offset(
            cfgs,
            fired.drop_first(),
            t - 2,
        ) + plan_of(cfgs, fired.drop_first()[t - 2]).len());
    }
}

/// Offsets never decrease along the firing order.
proof fn lemma_offset_monotone(cfgs: Seq<TriggerDef>, fired: Seq<int>, t1: int, t2: int)
    requires
        0 <= t1 <= t2,
    ensures
        plan_offset(cfgs, fired, t1) <= plan_offset(cfgs, fired, t2),
    decreases t2 - t1,
{
    if t1 < t2 {
        lemma_offset_monotone(cfgs, fired, t1, t2 - 1);
    }
}

/// Invocation `t` occupies one contiguous segment of the cycle's steps,
/// beginning at its offset.
proof fn lemma_cycle_plan_segment(cfgs: Seq<TriggerDef>, fired: Seq<int>, t: int)
    requires
        0 <= t < fired.len(),
    ensures
        plan_offset(cfgs, fired, t) >= 0,
        plan_offset(cfgs, fired, t) + plan_of(cfgs, fired[t]).len() <= cycle_plan(
            cfgs,
            fired,
        ).len(),
        forall|u: int|
            0 <= u < plan_of(cfgs, fired[t]).len() ==> #[trigger] cycle_plan(cfgs, fired)[
                plan_offset(cfgs, fired, t) + u] == plan_of(cfgs, fired[t])[u],
    decreases t,
{
    lemma_offset_monotone(cfgs, fired, 0, t);
    if t == 0 {
        assert(cycle_plan(cfgs, fired) == plan_of(cfgs, fired[0]) + cycle_plan(
            cfgs,
            fired.drop_first(),
        ));
    } else {
        lemma_cycle_plan_segment(cfgs, fired.drop_first(), t - 1);
        lemma_offset_shift(cfgs, fired, t);
        assert(fired.drop_first()[t - 1] == fired[t]);
        let rest = cycle_plan(cfgs, fired.drop_first());
        let first = plan_of(cfgs, fired[0]);
        assert(cycle_plan(cfgs, fired) == first + rest);
        let off = plan_offset(cfgs, fired.drop_first(), t - 1);
        assert forall|u: int| 0 <= u < plan_of(cfgs, fired[t]).len() implies #[trigger] cycle_plan(
            cfgs,
            fired,
        )[plan_offset(cfgs, fired, t) + u] == plan_of(cfgs, fired[t])[u] by {
            assert(rest[off + u] == plan_of(cfgs, fired.drop_first()[t - 1])[u]);
            assert(cycle_plan(cfgs, fired)[first.len() + off + u] == rest[off + u]);
        }
    }
}

/// Serialization: when several triggers fire in the same poll cycle their
/// macro invocations never interleave. Each invocation is one contiguous
/// segment of the cycle's emitted steps, and for invocations `a` before `b`
/// the whole of `a`'s segment — its last step included — stands strictly
/// before `b`'s first step.
pub proof fn lemma_serialized(cfgs: Seq<TriggerDef>, fired: Seq<int>, a: int, b: int)
    requires
        0 <= a < b < fired.len(),
    ensures
        plan_of(cfgs, fired[a]).len() >= 5,
        plan_of(cfgs, fired[b]).len() >= 5,
        plan_offset(cfgs, fired, a) >= 0,
        plan_offset(cfgs, fired, a) + plan_of(cfgs, fired[a]).len() <= plan_offset(
            cfgs,
            fired,
            b,
        ),
        plan_offset(cfgs, fired, b) + plan_of(cfgs, fired[b]).len() <= cycle_plan(
            cfgs,
            fired,
        ).len(),
        forall|u: int|
            0 <= u < plan_of(cfgs, fired[a]).len() ==> #[trigger] cycle_plan(cfgs, fired)[
                plan_offset(cfgs, fired, a) + u] == plan_of(cfgs, fired[a])[u],
        forall|u: int|
            0 <= u < plan_of(cfgs, fired[b]).len() ==> #[trigger] cycle_plan(cfgs, fired)[
                plan_offset(cfgs, fired, b) + u] == plan_of(cfgs, fired[b])[u],
{
    lemma_cycle_plan_segment(cfgs, fired, a);
    lemma_cycle_plan_segment(cfgs, fired, b);
    lemma_offset_monotone(cfgs, fired, a + 1, b);
    lemma_tap_steps_facts(cfgs[fired[a]].tap_sequence@, cfgs[fired[a]].hold_key);
    lemma_tap_steps_facts(cfgs[fired[b]].tap_sequence@, cfgs[fired[b]].hold_key);
}

} // verus!
