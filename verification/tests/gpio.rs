use lpframe::config::Amp;
use lpframe::duration::Dur;
use lpframe::gpio::{action_for, choose_chip, Action, ChipCandidate, LineRequest, Worker};

fn candidates() -> Vec<ChipCandidate> {
    vec![
        ChipCandidate {
            path: "/dev/gpiochip0".into(),
            label: "pinctrl-rp1".into(),
            num_lines: 54,
        },
        ChipCandidate {
            path: "/dev/gpiochip1".into(),
            label: "rp1-gpio-aon".into(),
            num_lines: 8,
        },
    ]
}

#[test]
fn auto_prefers_the_header_controller_over_whatever_is_first() {
    // The Pi 5 exposes several chips; picking by index lands on the wrong
    // one as soon as enumeration order changes.
    let mut c = candidates();
    c.reverse();
    assert_eq!(choose_chip(&c, "auto", 17).unwrap(), "/dev/gpiochip0");
}

#[test]
fn auto_falls_back_to_any_chip_with_the_line_on_an_unknown_board() {
    let c = vec![ChipCandidate {
        path: "/dev/gpiochip0".into(),
        label: "some-future-soc".into(),
        num_lines: 32,
    }];
    assert_eq!(choose_chip(&c, "auto", 17).unwrap(), "/dev/gpiochip0");
}

#[test]
fn an_explicit_label_or_path_is_honoured() {
    let c = candidates();
    assert_eq!(choose_chip(&c, "rp1-gpio-aon", 4).unwrap(), "/dev/gpiochip1");
    assert_eq!(choose_chip(&c, "/dev/gpiochip1", 4).unwrap(), "/dev/gpiochip1");
}

#[test]
fn a_missing_chip_names_what_was_actually_found() {
    // The user is reading this over SSH with no other diagnostics.
    let err = choose_chip(&candidates(), "pinctrl-bcm2835", 17).unwrap_err();
    assert!(err.contains("pinctrl-rp1"), "{err}");
    assert!(err.contains("gpiochip0"), "{err}");
}

#[test]
fn a_line_beyond_the_chip_is_rejected_rather_than_silently_wrong() {
    let err = choose_chip(&candidates(), "rp1-gpio-aon", 40).unwrap_err();
    assert!(err.contains("does not exist"), "{err}");
}

#[test]
fn no_chips_at_all_suggests_the_way_out() {
    let err = choose_chip(&[], "auto", 17).unwrap_err();
    assert!(err.contains("power.amp.enabled = false"), "{err}");
}

#[test]
fn a_zero_pulse_holds_the_level_and_a_nonzero_one_pulses() {
    // Getting this backwards on a toggle-style amplifier means it ends up
    // in the opposite state to the one requested.
    let mut cfg = Amp::default();
    assert_eq!(action_for(&cfg, true), Action::Hold(true));
    assert_eq!(action_for(&cfg, false), Action::Hold(false));

    cfg.pulse = Dur::from_millis(120);
    assert_eq!(action_for(&cfg, true), Action::Pulse(Dur::from_millis(120)));
    // Both directions are the same momentary closure: the amplifier keeps
    // its own state, and sending a level would latch it.
    assert_eq!(action_for(&cfg, false), Action::Pulse(Dur::from_millis(120)));
}

#[test]
fn a_request_carries_what_the_settings_say() {
    let mut cfg = Amp::default();
    cfg.active_low = true;
    let r = LineRequest::for_amp(&cfg, &candidates()).unwrap();
    assert_eq!(r.chip, "/dev/gpiochip0");
    assert_eq!(r.line, 17);
    assert!(r.active_low);
    assert_eq!(r.describe(), "/dev/gpiochip0 line 17");
    assert!(r.refused().starts_with("requesting line 17 on /dev/gpiochip0. "));
    cfg.gpio_line = 60;
    assert!(LineRequest::for_amp(&cfg, &candidates()).is_err());
}

#[test]
fn a_change_waits_for_the_debounce() {
    let mut cfg = Amp::default();
    cfg.debounce = Dur::from_secs(2);
    let mut w = Worker::new(&cfg);
    // Nothing to do: the line is off.
    assert!(w.request(false, 0).is_none());
    let first = w.request(true, 5_000_000_000).unwrap();
    assert_eq!(first.wait, 0);
    assert_eq!(first.action, Action::Hold(true));
    w.done(true, 5_000_000_000);
    assert!(w.request(true, 5_100_000_000).is_none());
    let second = w.request(false, 5_500_000_000).unwrap();
    assert_eq!(second.wait, 1_500_000_000);
    assert_eq!(second.action, Action::Hold(false));
    assert_eq!(w.request(false, 9_000_000_000).unwrap().wait, 0);
    assert_eq!(w.release(), Action::Hold(false));
}
