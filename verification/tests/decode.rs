use lpframe::capture::decode::{event_of, volume_text, Decoder};
use lpframe::capture::fixture::golden_from_result;
use lpframe::capture::items::{encode_item, Item, CORE, PICT, SSNC};
use lpframe::capture::reader::Flaw;
use lpframe::capture::synth::{
    all, ABEG, ASTM, COPL, MINM, MPER, PRGR, PVOL, SNAM,
};
use lpframe::meta::{CoreField, MetaEvent};
use lpframe::single::Single;

fn decibels(item: &Item) -> Option<Single> {
    let text = volume_text(item)?;
    let db: f32 = text.parse().ok()?;
    Some(Single { bits: db.to_bits() })
}

fn drain(decoder: &mut Decoder, out: &mut Vec<Result<MetaEvent, String>>) {
    while let Some(r) = decoder.next() {
        out.push(match r {
            Ok(item) => Ok(event_of(&item, decibels(&item))),
            Err(flaw) => Err(flaw.message().to_owned()),
        });
    }
}

fn render(results: &[Result<MetaEvent, String>]) -> Vec<String> {
    results
        .iter()
        .map(|r| {
            let db = match r {
                Ok(MetaEvent::Volume { airplay_db, .. }) => f32::from_bits(airplay_db.bits),
                _ => 0.0,
            };
            let line = golden_from_result(r, &format!("{db:.1}"));
            format!("{}: {}", line.event, line.detail.unwrap_or_default())
        })
        .collect()
}

fn event(kind: u32, code: u32, payload: &[u8]) -> MetaEvent {
    let item = Item { kind, code, payload: payload.to_vec() };
    let db = decibels(&item);
    event_of(&item, db)
}

#[test]
fn fixtures_decode_identically_at_any_chunk_size() {
    for session in all() {
        let mut whole = Decoder::new();
        whole.feed(&session.bytes);
        let mut expected = Vec::new();
        drain(&mut whole, &mut expected);
        assert!(expected.iter().all(|r| r.is_ok()));
        for chunk in [1usize, 3, 17, 256, 4096] {
            // Every feed searches what is pending, so the finest cuts are
            // tried on the beginning of a session only.
            let bytes = if chunk < 17 { &session.bytes[..2000] } else { &session.bytes[..] };
            let mut d = Decoder::new();
            let mut events = Vec::new();
            for part in bytes.chunks(chunk) {
                d.feed(part);
                drain(&mut d, &mut events);
            }
            let piecewise = render(&events);
            let same = render(&expected[..events.len()]);
            assert_eq!(same, piecewise, "{} differs at chunk size {chunk}", session.name);
            if chunk >= 17 {
                assert_eq!(events.len(), expected.len());
            } else {
                assert!(!events.is_empty());
            }
        }
    }
}

#[test]
fn an_album_reads_as_its_events() {
    let mut d = Decoder::new();
    d.feed(&all()[0].bytes);
    let mut events = Vec::new();
    drain(&mut d, &mut events);
    let lines = render(&events);
    assert!(lines.contains(&"core: artist=Massive Attack".to_string()));
    assert!(lines.contains(&"core: title=Angel".to_string()));
    assert!(lines.contains(&"core: track_number=1".to_string()));
    assert!(lines.contains(&"core: duration_ms=379000".to_string()));
    assert!(lines.contains(&"core: persistent_id=0102030405060701".to_string()));
    assert_eq!(lines.iter().filter(|l| l.starts_with("picture: ")).count(), 3);
    assert_eq!(lines.iter().filter(|l| l.starts_with("play_begin")).count(), 3);
}

#[test]
fn progress_counts_samples_across_the_wrap() {
    match event(SSNC, PRGR, b"1/44101/441001") {
        MetaEvent::Progress { position_ms, duration_ms } => {
            assert_eq!((position_ms, duration_ms), (1_000, 10_000));
        }
        other => panic!("{other:?}"),
    }
    match event(SSNC, PRGR, b"4294923196/44100/396900") {
        MetaEvent::Progress { position_ms, duration_ms } => {
            assert_eq!((position_ms, duration_ms), (2_000, 10_000));
        }
        other => panic!("{other:?}"),
    }
    assert!(matches!(event(SSNC, PRGR, b"1/2"), MetaEvent::Unknown { .. }));
    assert!(matches!(event(SSNC, PRGR, b"1/2/4294967296"), MetaEvent::Unknown { .. }));
}

#[test]
fn a_volume_is_muted_at_the_bottom_only() {
    match event(SSNC, PVOL, b"-20.500000,0.000000,-30.000000,0.000000") {
        MetaEvent::Volume { airplay_db, muted } => {
            assert_eq!(f32::from_bits(airplay_db.bits), -20.5);
            assert!(!muted);
        }
        other => panic!("{other:?}"),
    }
    assert!(matches!(
        event(SSNC, PVOL, b"-144.000000,0,0,0"),
        MetaEvent::Volume { muted: true, .. }
    ));
    assert!(matches!(event(SSNC, PVOL, b"loud"), MetaEvent::Unknown { .. }));
}

#[test]
fn items_say_what_their_codes_mean() {
    assert!(matches!(event(SSNC, ABEG, b""), MetaEvent::ActiveBegin));
    assert!(matches!(event(SSNC, PICT, b""), MetaEvent::PictureCleared));
    assert!(matches!(event(SSNC, PICT, b"x"), MetaEvent::Picture(p) if p == b"x"));
    assert!(matches!(event(SSNC, SNAM, "Küche".as_bytes()), MetaEvent::ClientName(s) if s == "Küche"));
    assert!(matches!(
        event(CORE, MPER, &[1, 2, 3, 4, 5, 6, 7, 8]),
        MetaEvent::Core(CoreField::PersistentId(0x0102_0304_0506_0708))
    ));
    assert!(matches!(
        event(CORE, ASTM, &[0, 5, 200, 120]),
        MetaEvent::Core(CoreField::DurationMs(379_000))
    ));
    // A number that is too long, and a text that is none, are kept as they are.
    assert!(matches!(
        event(CORE, ASTM, &[0; 9]),
        MetaEvent::Core(CoreField::Other { code, raw }) if code == "astm" && raw.len() == 9
    ));
    assert!(matches!(
        event(CORE, MINM, &[0xff]),
        MetaEvent::Core(CoreField::Other { code, raw }) if code == "minm" && raw == [0xff]
    ));
    assert!(matches!(
        event(SSNC, COPL, b"<plist>"),
        MetaEvent::Unknown { kind, code, len: 7 } if kind == "ssnc" && code == "copl"
    ));
}

#[test]
fn a_damaged_item_does_not_hide_the_next() {
    let mut d = Decoder::new();
    d.feed(b"<item><type>zz</type></item>");
    d.feed(&encode_item(SSNC, ABEG, b""));
    assert!(matches!(d.next(), Some(Err(Flaw::Kind))));
    assert!(matches!(d.next(), Some(Ok(i)) if i.code == ABEG));
    assert!(d.next().is_none());
}
