use hotkey_macro::keys::{OutKey, PhysKey};
use hotkey_macro::monitor::Monitor;
use hotkey_macro::player::{playback_steps, Step, STEP_PAUSE_MS};
use hotkey_macro::trigger::TriggerDef;

const W: Step = Step::Wait(STEP_PAUSE_MS);

#[test]
fn empty_tap_sequence_is_pure_hold_then_release() {
    let steps = playback_steps(OutKey::Space, &vec![]);
    assert_eq!(
        steps,
        vec![W, Step::Press(OutKey::Space), W, Step::Release(OutKey::Space), W]
    );
}

#[test]
fn single_tap_plan() {
    let steps = playback_steps(OutKey::Control, &vec![OutKey::Char('w')]);
    assert_eq!(
        steps,
        vec![
            W,
            Step::Press(OutKey::Control),
            W,
            Step::Tap(OutKey::Char('w')),
            W,
            Step::Release(OutKey::Control),
            W,
        ]
    );
}

#[test]
fn long_tap_sequence_kept_in_order() {
    let taps = vec![OutKey::Up, OutKey::Right, OutKey::Down, OutKey::Down, OutKey::Right];
    let steps = playback_steps(OutKey::Space, &taps);
    assert_eq!(steps.len(), 5 + 2 * taps.len());
    // the taps appear in the emitted order, nothing dropped or reordered
    let emitted: Vec<OutKey> = steps
        .iter()
        .filter_map(|s| match s {
            Step::Tap(k) => Some(*k),
            _ => None,
        })
        .collect();
    assert_eq!(emitted, taps);
    // the hold key is pressed exactly once and released exactly once,
    // the release after the press
    let presses: Vec<usize> = steps
        .iter()
        .enumerate()
        .filter_map(|(i, s)| if *s == Step::Press(OutKey::Space) { Some(i) } else { None })
        .collect();
    let releases: Vec<usize> = steps
        .iter()
        .enumerate()
        .filter_map(|(i, s)| if *s == Step::Release(OutKey::Space) { Some(i) } else { None })
        .collect();
    assert_eq!(presses, vec![1]);
    assert_eq!(releases, vec![steps.len() - 2]);
}

#[test]
fn hold_key_tapped_as_tap_not_extra_press() {
    // a tap of the hold key itself stays a tap: the hold is still pressed and
    // released exactly once
    let steps = playback_steps(OutKey::Shift, &vec![OutKey::Shift]);
    let press_count = steps.iter().filter(|s| **s == Step::Press(OutKey::Shift)).count();
    let release_count = steps.iter().filter(|s| **s == Step::Release(OutKey::Shift)).count();
    assert_eq!(press_count, 1);
    assert_eq!(release_count, 1);
    assert_eq!(steps[3], Step::Tap(OutKey::Shift));
}

#[test]
fn example_scenario_single_playback() {
    // one trigger on Control+1 playing w,d,s,d while Control is held
    let configs = vec![TriggerDef {
        trigger_keys: vec![PhysKey::Control, PhysKey::Digit(1)],
        hold_key: OutKey::Control,
        tap_sequence: vec![
            OutKey::Char('w'),
            OutKey::Char('d'),
            OutKey::Char('s'),
            OutKey::Char('d'),
        ],
        label: "X".to_string(),
    }];
    let mut m = Monitor::new(configs, PhysKey::Escape).unwrap();
    let samples: Vec<Vec<PhysKey>> = vec![
        vec![],
        vec![PhysKey::Control, PhysKey::Digit(1)],
        vec![PhysKey::Control, PhysKey::Digit(1)],
        vec![],
    ];
    let mut playbacks: Vec<Vec<Step>> = Vec::new();
    for sample in &samples {
        for idx in m.step(sample) {
            let d = m.trigger_at(idx);
            playbacks.push(playback_steps(d.hold_key, &d.tap_sequence));
        }
    }
    // exactly one playback, and it is hold(Control) -> w,d,s,d -> release(Control)
    assert_eq!(playbacks.len(), 1);
    assert_eq!(
        playbacks[0],
        vec![
            W,
            Step::Press(OutKey::Control),
            W,
            Step::Tap(OutKey::Char('w')),
            W,
            Step::Tap(OutKey::Char('d')),
            W,
            Step::Tap(OutKey::Char('s')),
            W,
            Step::Tap(OutKey::Char('d')),
            W,
            Step::Release(OutKey::Control),
            W,
        ]
    );
}
