use hotkey_macro::keys::{OutKey, PhysKey};
use hotkey_macro::monitor::Monitor;
use hotkey_macro::trigger::{ConfigError, TriggerDef};

fn def(trigger_keys: Vec<PhysKey>, hold_key: OutKey, taps: Vec<OutKey>, label: &str) -> TriggerDef {
    TriggerDef { trigger_keys, hold_key, tap_sequence: taps, label: label.to_string() }
}

fn one_trigger_monitor() -> Monitor {
    let configs = vec![def(
        vec![PhysKey::Control, PhysKey::Digit(1)],
        OutKey::Space,
        vec![OutKey::Up, OutKey::Right],
        "first",
    )];
    Monitor::new(configs, PhysKey::Escape).unwrap()
}

#[test]
fn fires_once_at_first_satisfied_cycle() {
    let mut m = one_trigger_monitor();
    let chord = vec![PhysKey::Control, PhysKey::Digit(1)];
    // chord held across five consecutive cycles: exactly one firing, at the first
    assert_eq!(m.step(&chord), vec![0]);
    for _ in 0..4 {
        assert_eq!(m.step(&chord), Vec::<usize>::new());
    }
}

#[test]
fn partial_chord_does_not_fire() {
    let mut m = one_trigger_monitor();
    assert_eq!(m.step(&vec![PhysKey::Control]), Vec::<usize>::new());
    assert_eq!(m.step(&vec![PhysKey::Digit(1)]), Vec::<usize>::new());
    assert_eq!(m.step(&vec![]), Vec::<usize>::new());
}

#[test]
fn rearms_after_primary_release() {
    let mut m = one_trigger_monitor();
    let chord = vec![PhysKey::Control, PhysKey::Digit(1)];
    assert_eq!(m.step(&chord), vec![0]);
    assert_eq!(m.step(&chord), Vec::<usize>::new());
    // releasing the primary key re-arms the trigger
    assert_eq!(m.step(&vec![PhysKey::Digit(1)]), Vec::<usize>::new());
    // re-pressing the full chord fires exactly once more
    assert_eq!(m.step(&chord), vec![0]);
    assert_eq!(m.step(&chord), Vec::<usize>::new());
}

#[test]
fn still_armed_while_primary_held() {
    let mut m = one_trigger_monitor();
    let chord = vec![PhysKey::Control, PhysKey::Digit(1)];
    assert_eq!(m.step(&chord), vec![0]);
    // only the secondary key goes up: the primary stays held, so no re-fire
    assert_eq!(m.step(&vec![PhysKey::Control]), Vec::<usize>::new());
    assert_eq!(m.step(&chord), Vec::<usize>::new());
}

#[test]
fn disjoint_primaries_fire_independently() {
    let configs = vec![
        def(
            vec![PhysKey::Control, PhysKey::Digit(1)],
            OutKey::Space,
            vec![OutKey::Up],
            "a",
        ),
        def(
            vec![PhysKey::Shift, PhysKey::Digit(2)],
            OutKey::Space,
            vec![OutKey::Down],
            "b",
        ),
    ];
    let mut m = Monitor::new(configs, PhysKey::Escape).unwrap();
    // arm the first trigger; the second is untouched
    assert_eq!(m.step(&vec![PhysKey::Control, PhysKey::Digit(1)]), vec![0]);
    // fire the second while the first stays armed
    assert_eq!(
        m.step(&vec![PhysKey::Control, PhysKey::Digit(1), PhysKey::Shift, PhysKey::Digit(2)]),
        vec![1]
    );
    // release only the first primary: the first re-arms, the second stays armed
    assert_eq!(m.step(&vec![PhysKey::Shift, PhysKey::Digit(2)]), Vec::<usize>::new());
    assert_eq!(
        m.step(&vec![PhysKey::Control, PhysKey::Digit(1), PhysKey::Shift, PhysKey::Digit(2)]),
        vec![0]
    );
}

#[test]
fn both_fire_in_one_cycle_in_config_order() {
    let configs = vec![
        def(
            vec![PhysKey::Control, PhysKey::Digit(1)],
            OutKey::Space,
            vec![OutKey::Up],
            "a",
        ),
        def(
            vec![PhysKey::Shift, PhysKey::Digit(2)],
            OutKey::Space,
            vec![OutKey::Down],
            "b",
        ),
    ];
    let mut m = Monitor::new(configs, PhysKey::Escape).unwrap();
    let all = vec![PhysKey::Control, PhysKey::Digit(1), PhysKey::Shift, PhysKey::Digit(2)];
    assert_eq!(m.step(&all), vec![0, 1]);
    assert_eq!(m.step(&all), Vec::<usize>::new());
}

#[test]
fn empty_chord_rejected() {
    let configs = vec![
        def(vec![PhysKey::Control], OutKey::Space, vec![], "ok"),
        def(vec![], OutKey::Space, vec![], "broken"),
    ];
    let r = Monitor::new(configs, PhysKey::Escape);
    assert_eq!(r.err(), Some(ConfigError::EmptyTriggerKeys { index: 1 }));
}

#[test]
fn duplicate_primary_rejected() {
    let configs = vec![
        def(vec![PhysKey::Control, PhysKey::Digit(1)], OutKey::Space, vec![], "a"),
        def(vec![PhysKey::Shift, PhysKey::Digit(2)], OutKey::Space, vec![], "b"),
        def(vec![PhysKey::Control, PhysKey::Digit(3)], OutKey::Space, vec![], "c"),
    ];
    let r = Monitor::new(configs, PhysKey::Escape);
    assert_eq!(r.err(), Some(ConfigError::DuplicatePrimary { first: 0, second: 2 }));
}

#[test]
fn getters_report_configuration() {
    let m = one_trigger_monitor();
    assert_eq!(m.config_count(), 1);
    let d = m.trigger_at(0);
    assert_eq!(d.label, "first");
    assert_eq!(d.hold_key, OutKey::Space);
    assert_eq!(d.trigger_keys, vec![PhysKey::Control, PhysKey::Digit(1)]);
}

#[test]
fn exit_key_observed_in_sample() {
    let m = one_trigger_monitor();
    assert!(m.exit_requested(&vec![PhysKey::Control, PhysKey::Escape]));
    assert!(!m.exit_requested(&vec![PhysKey::Control]));
}
