use lpframe::hub::Hub;
use lpframe::ipc::{clear_the_way, greeting, is_blank, serve, Command, Event, Existing, Reply};
use lpframe::proto::{ClientMessage, DisplayPower, Playback, ServerMessage, State};

fn ts() -> String {
    "2026-01-01T00:00:00Z".into()
}

#[test]
fn sequence_numbers_increase_and_snapshots_are_current() {
    let mut hub = Hub::new(4);
    assert_eq!(hub.snapshot().0, 0);

    let mut s = State::default();
    s.playback = Playback::Playing;
    assert_eq!(hub.publish(ts(), s.clone()).0, 1);
    assert_eq!(hub.snapshot().0, 1);
    assert_eq!(hub.snapshot().1.playback, Playback::Playing);

    s.playback = Playback::Idle;
    assert_eq!(hub.publish(ts(), s).0, 2);
}

#[test]
fn notes_are_capped_newest_first() {
    let mut hub = Hub::new(3);
    for i in 0..6 {
        hub.push_note(ts(), "tick", format!("note {i}"));
    }
    let notes = hub.notes();
    assert_eq!(notes.len(), 3);
    assert_eq!(notes[0].text, "note 5");
    assert_eq!(notes[2].text, "note 3");
}

#[test]
fn published_snapshots_are_handed_out_and_kept() {
    let mut hub = Hub::new(4);
    let (seq, msg) = hub.publish(ts(), State::default());
    assert_eq!(seq, 1);
    assert!(matches!(&msg, ServerMessage::State { seq: 1, .. }));
    assert!(matches!(hub.current_message(ts()), ServerMessage::State { seq: 1, .. }));
    assert!(hub.can_publish());
}

#[test]
fn a_hub_keeps_at_least_one_note() {
    let mut hub = Hub::new(0);
    hub.push_note(ts(), "a", "first".into());
    hub.push_note(ts(), "b", "second".into());
    assert_eq!(hub.notes().len(), 1);
    assert_eq!(hub.notes()[0].input, "b");
}

#[test]
fn a_socket_path_is_only_cleared_of_a_socket() {
    assert!(!clear_the_way("/run/x.sock", Existing::Nothing).unwrap());
    assert!(clear_the_way("/run/x.sock", Existing::Ours).unwrap());
    let e = clear_the_way("/run/x.sock", Existing::Other).unwrap_err();
    assert!(e.contains("/run/x.sock"), "{e}");
}

#[test]
fn a_connection_is_greeted_then_answered() {
    let mut hub = Hub::new(4);
    hub.publish(ts(), State::default());
    let (hello, state) = greeting(&hub, ts());
    assert!(matches!(hello, ServerMessage::Hello { .. }));
    assert!(matches!(state, ServerMessage::State { seq: 1, .. }));

    assert!(is_blank("  \t"));
    assert!(!is_blank(" {"));
    let reply = serve(Event::Message(ClientMessage::Ping), &hub, ts(), false);
    assert!(matches!(reply, Reply::Write(ServerMessage::Pong { .. })));
    for event in [Event::Message(ClientMessage::GetState), Event::Lagged] {
        let reply = serve(event, &hub, ts(), false);
        assert!(matches!(reply, Reply::Write(ServerMessage::State { seq: 1, .. })));
    }
    let reply = serve(
        Event::Message(ClientMessage::SetDisplay { value: DisplayPower::Off }),
        &hub,
        ts(),
        false,
    );
    assert!(matches!(reply, Reply::Ask(Command::SetDisplay(DisplayPower::Off))));
    let reply = serve(Event::Message(ClientMessage::SetAmp { value: true }), &hub, ts(), false);
    assert!(matches!(reply, Reply::Ask(Command::SetAmp(true))));
}

#[test]
fn a_malformed_or_unknown_message_is_ignored() {
    let hub = Hub::new(4);
    assert!(matches!(serve(Event::Unparseable, &hub, ts(), false), Reply::Ignore));
    let unknown = Event::Message(ClientMessage::Unknown);
    assert!(matches!(serve(unknown, &hub, ts(), false), Reply::Ignore));
    let hello = ClientMessage::Hello { client: "lpctl".into(), proto: 1 };
    assert!(matches!(serve(Event::Message(hello), &hub, ts(), false), Reply::Ignore));
    assert!(matches!(serve(Event::Closed, &hub, ts(), false), Reply::Close));
    assert!(matches!(serve(Event::Ended, &hub, ts(), false), Reply::Close));
}

#[test]
fn artwork_is_only_injected_for_debugging() {
    let hub = Hub::new(4);
    let ask = || Event::Message(ClientMessage::InjectArtwork { path: "/tmp/x.png".into() });
    assert!(matches!(serve(ask(), &hub, ts(), false), Reply::Ignore));
    assert!(matches!(
        serve(ask(), &hub, ts(), true),
        Reply::Ask(Command::InjectArtwork(p)) if p == "/tmp/x.png"
    ));
}
