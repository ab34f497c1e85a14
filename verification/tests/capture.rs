use lpframe::capture::decode::Decoder;
use lpframe::capture::fifo::{even_chunks, timing_line, Capture, Fanout, Forward, Timing};
use lpframe::capture::fixture::{
    art_digest, art_dir_for, art_path, canonicalise, default_art_dir, golden_from_result,
    golden_path, pack, pack_items, rewrite, timing_path, trailing_partial_item, unpack, Art, GoldenEvent,
    UnpackError,
};
use lpframe::capture::items::{encode_item, encode_items, Item, CORE, PICT, SSNC};
use lpframe::capture::png::{adler32, crc32, fake_cover, rgb, zlib_stored};
use lpframe::capture::reader::{next_item, read_items, Flaw};
use lpframe::capture::search::{find, rfind};
use lpframe::capture::synth::{all, ABEG, AEND, MINM, PBEG, PEND, PRGR};
use lpframe::meta::{CoreField, MetaEvent};

#[test]
fn writes_a_structurally_valid_png() {
    let png = fake_cover(64, 40);
    assert_eq!(&png[..8], &[0x89, b'P', b'N', b'G', 0x0d, 0x0a, 0x1a, 0x0a]);
    assert_eq!(&png[12..16], b"IHDR");
    assert_eq!(&png[16..20], &64u32.to_be_bytes());
    assert!(png.ends_with(&[0xae, 0x42, 0x60, 0x82])); // IEND crc
}

#[test]
fn chunk_crcs_verify() {
    let png = fake_cover(32, 7);
    let mut i = 8;
    let mut seen = Vec::new();
    while i + 8 <= png.len() {
        let len = u32::from_be_bytes(png[i..i + 4].try_into().unwrap()) as usize;
        let tag = &png[i + 4..i + 8];
        let body_end = i + 8 + len;
        let expect = u32::from_be_bytes(png[body_end..body_end + 4].try_into().unwrap());
        assert_eq!(crc32(&png[i + 4..body_end]), expect, "crc for {tag:?}");
        seen.push(String::from_utf8_lossy(tag).to_string());
        i = body_end + 4;
    }
    assert_eq!(seen, ["IHDR", "IDAT", "IEND"]);
    assert_eq!(i, png.len());
}

#[test]
fn multi_block_images_stay_valid() {
    // Larger than one 65535-byte stored block, exercising the loop.
    let png = fake_cover(200, 3);
    assert!(png.len() > 65_535);
    assert_eq!(&png[12..16], b"IHDR");
}

#[test]
fn checksums_match_their_published_values() {
    assert_eq!(crc32(b"123456789"), 0xcbf4_3926);
    assert_eq!(adler32(b"Wikipedia"), 0x11e6_0398);
    assert_eq!(
        zlib_stored(b"ab"),
        [0x78, 0x01, 0x01, 0x02, 0x00, 0xfd, 0xff, b'a', b'b', 0x01, 0x26, 0x00, 0xc4]
    );
}

#[test]
fn a_generated_cover_is_an_image() {
    let picture = image::load_from_memory(&fake_cover(20, 30)).unwrap().to_rgb8();
    assert_eq!(picture.dimensions(), (20, 20));
    assert_eq!(picture.get_pixel(0, 0).0, [255, 255, 255]);
    assert_eq!(picture.get_pixel(5, 5).0, [30, 90, 225]);
    assert_eq!(picture.get_pixel(19, 19).0, [225, 210, 94]);
}

#[test]
fn items_are_written_as_the_receiver_writes_them() {
    assert_eq!(
        encode_item(SSNC, PBEG, b""),
        b"<item><type>73736e63</type><code>70626567</code><length>0</length></item>\n"
    );
    assert_eq!(
        encode_item(CORE, MINM, b"Angel"),
        b"<item><type>636f7265</type><code>6d696e6d</code><length>5</length>\n\
          <data encoding=\"base64\">\nQW5nZWw=</data></item>\n"
    );
    let two = vec![
        Item { kind: SSNC, code: ABEG, payload: vec![] },
        Item { kind: SSNC, code: AEND, payload: vec![1, 2] },
    ];
    let mut expected = encode_item(SSNC, ABEG, b"");
    expected.extend(encode_item(SSNC, AEND, &[1, 2]));
    assert_eq!(encode_items(&two), expected);
}

#[test]
fn searching_finds_the_first_and_the_last() {
    assert_eq!(find(b"abcabc", b"bc"), Some(1));
    assert_eq!(rfind(b"abcabc", b"bc"), Some(4));
    assert_eq!(find(b"abc", b"x"), None);
    assert_eq!(rfind(b"abc", b"abcd"), None);
    assert_eq!(find(b"abc", b""), None);
    assert_eq!(rfind(b"abc", b""), None);
}

fn session() -> Vec<Item> {
    vec![
        Item { kind: SSNC, code: PBEG, payload: vec![] },
        Item { kind: SSNC, code: PICT, payload: fake_cover(16, 9) },
        Item { kind: CORE, code: MINM, payload: b"Teardrop".to_vec() },
        Item { kind: SSNC, code: PICT, payload: vec![] },
        Item { kind: SSNC, code: PICT, payload: fake_cover(16, 9) },
        Item { kind: SSNC, code: PICT, payload: fake_cover(16, 200) },
        Item { kind: SSNC, code: PEND, payload: vec![] },
    ]
}

#[test]
fn packing_survives_the_round_trip() {
    let items = session();
    for tail in [&b"\n"[..], b"", b" \n<item><type>73736e63</type><code>7072"] {
        let packed = pack_items(&items, tail);
        // Two different pictures, the first of them twice.
        assert_eq!(packed.art.len(), 3);
        assert_eq!(packed.digests.len(), 2);
        assert!(packed.digests[0] < packed.digests[1]);
        let whole = rewrite(&items, tail);
        assert!(packed.bytes.len() < whole.len());
        assert_eq!(unpack(&packed.bytes, &packed.art).unwrap(), whole);
    }
}

#[test]
fn a_reference_names_its_picture() {
    let picture = vec![1u8, 2, 3];
    let packed = pack_items(&vec![Item { kind: SSNC, code: PICT, payload: picture.clone() }], b"\n");
    let digest = "039058c6f2c0cb492c533b0a4d14ef77cc0f78abccced5287d84a1a2011cfb81";
    assert_eq!(art_digest(&picture), digest);
    assert_eq!(
        String::from_utf8(packed.bytes).unwrap(),
        format!(
            "<item><type>73736e63</type><code>50494354</code><length>3</length>\n\
             <data encoding=\"lpcapture-ref\">\n{digest}</data></item>\n"
        )
    );
    assert_eq!(packed.digests, [digest]);
}

#[test]
fn a_file_without_references_passes_through() {
    let plain = b"anything at all, <item> or not";
    assert_eq!(unpack(plain, &vec![]).unwrap(), plain);
}

#[test]
fn separating_white_space_is_not_kept() {
    assert_eq!(trailing_partial_item(b" \r\n\t\x0c<it "), b"<it ");
    assert_eq!(trailing_partial_item(b"\n"), b"");
    // A vertical tab is no ASCII white space.
    assert_eq!(trailing_partial_item(b"\x0b\n"), b"\x0b\n");
}

fn reference(body: &[u8]) -> Vec<u8> {
    let mut v = b"<item><data encoding=\"lpcapture-ref\">".to_vec();
    v.extend_from_slice(body);
    v
}

#[test]
fn damaged_references_are_told_apart() {
    let none = vec![];
    let at = "art/x.bin";
    let bare = b"<data encoding=\"lpcapture-ref\">x</data></item>".to_vec();
    let e = unpack(&bare, &none).unwrap_err();
    assert!(matches!(e, UnpackError::NoItem));
    assert_eq!(e.message(at), "found an artwork reference with no enclosing <item>");

    let e = unpack(&reference(b"x</data>"), &none).unwrap_err();
    assert!(matches!(e, UnpackError::Unterminated));
    assert_eq!(e.message(at), "found an unterminated artwork reference");

    let e = unpack(&reference(b"x</item>"), &none).unwrap_err();
    assert!(matches!(e, UnpackError::NoData));
    assert_eq!(e.message(at), "artwork reference is missing </data>");

    let e = unpack(&reference(b"\xff\xfe</data></item>"), &none).unwrap_err();
    assert!(matches!(e, UnpackError::NotText));
    assert_eq!(e.message(at), "artwork reference is not utf-8");

    let e = unpack(&reference(b" nonsense </data></item>"), &none).unwrap_err();
    assert_eq!(
        e.message(at),
        "artwork reference \"nonsense\" is not a sha256 digest"
    );

    let digest = art_digest(b"picture");
    let body = format!("\n{digest}</data></item>\n");
    let e = unpack(&reference(body.as_bytes()), &none).unwrap_err();
    assert!(matches!(&e, UnpackError::Missing(d) if *d == digest));
    assert_eq!(e.message(at), "reading referenced artwork art/x.bin");

    let wrong = vec![Art { digest: digest.clone(), payload: b"another".to_vec() }];
    let e = unpack(&reference(body.as_bytes()), &wrong).unwrap_err();
    assert_eq!(
        e.message(at),
        format!("art/x.bin has digest {}, expected {digest}", art_digest(b"another"))
    );
}

#[test]
fn captures_have_their_files_beside_them() {
    assert_eq!(default_art_dir("fixtures/sessions/album.pipe"), "fixtures/art");
    assert_eq!(default_art_dir("album.pipe"), "./art");
    assert_eq!(art_dir_for(Some("elsewhere"), "fixtures/sessions/album.pipe"), "elsewhere");
    assert_eq!(art_dir_for(None, "fixtures/sessions/album.pipe"), "fixtures/art");
    assert_eq!(golden_path("fixtures/sessions/album.pipe"), "fixtures/sessions/album.events.json");
    assert_eq!(timing_path("a/b.pipe"), "a/b.timing");
    assert_eq!(art_path("fixtures/art", "abc"), "fixtures/art/abc.bin");
}

fn line(ev: MetaEvent) -> (String, Option<String>) {
    let g = GoldenEvent::from_event(&ev, "-14.5");
    (g.event, g.detail)
}

#[test]
fn event_logs_read_like_sentences() {
    assert_eq!(
        line(MetaEvent::Picture(vec![1, 2, 3])).1.unwrap(),
        "3 bytes sha256:039058c6f2c0cb49"
    );
    assert_eq!(
        line(MetaEvent::Progress { position_ms: 1500, duration_ms: 9000 }).1.unwrap(),
        "1500ms/9000ms"
    );
    assert_eq!(line(MetaEvent::ClientName("Ben's iPhone".into())).1.unwrap(), "Ben's iPhone");
    assert_eq!(
        line(MetaEvent::Unknown { kind: "ssnc".into(), code: "copl".into(), len: 18 }).1.unwrap(),
        "ssnc/copl 18 bytes"
    );
    assert_eq!(
        line(MetaEvent::Core(CoreField::Title("Angel".into()))).1.unwrap(),
        "title=Angel"
    );
    assert_eq!(
        line(MetaEvent::Core(CoreField::PersistentId(0x11))).1.unwrap(),
        "persistent_id=0000000000000011"
    );
    assert_eq!(
        line(MetaEvent::Core(CoreField::Other { code: "aeSP".into(), raw: vec![1] })).1.unwrap(),
        "aeSP (1 bytes)"
    );
    let g = golden_from_result(&Err("broken".into()), "");
    assert_eq!((g.event.as_str(), g.detail.as_deref()), ("parse_error", Some("broken")));
}

#[test]
fn a_capture_counts_writers_and_ends_when_idle() {
    let mut c = Capture::new(Some(2), 1000);
    assert!(!c.is_over(2999));
    assert!(c.is_over(3000));
    c.data(1500);
    c.data(1600);
    assert_eq!(c.sessions(), 1);
    c.end();
    c.data(1700);
    assert_eq!(c.sessions(), 2);
    assert!(!c.is_over(3600));
    assert!(c.is_over(3700));
    assert!(c.can_count());
    assert!(!Capture::new(None, 0).is_over(u64::MAX));
}

#[test]
fn a_copy_without_a_reader_warns_once() {
    let mut f = Fanout::new();
    assert!(f.must_open());
    assert_eq!(f.opened(false), Forward::Drop { warn: true });
    assert_eq!(f.opened(false), Forward::Drop { warn: false });
    assert_eq!(f.opened(true), Forward::Write);
    assert!(!f.must_open());
    f.failed();
    assert!(f.must_open());
    assert_eq!(f.opened(false), Forward::Drop { warn: true });
}

#[test]
fn a_recorded_pace_reads_back() {
    let mut text = timing_line(0, 10);
    assert_eq!(text, "{\"at_ms\":0,\"len\":10}\n");
    text.push_str("  \r\n");
    text.push_str(&timing_line(250, 20));
    text.push_str("{\"at_ms\":\"late\"}");
    let t = Timing::parse(&text).unwrap();
    assert_eq!(t.entries, [(0, 10), (250, 20), (0, 0)]);
    let e = Timing::parse("{\"at_ms\":1}\nnot json\n").unwrap_err();
    assert_eq!(e.message(), "parsing timing line: not json");
}

#[test]
fn a_replay_is_clipped_and_completed() {
    let t = Timing { entries: vec![(0, 10), (250, 20), (100, 5)] };
    assert_eq!(t.chunks(12), [(0, 10, 0), (10, 12, 250)]);
    assert_eq!(t.chunks(50), [(0, 10, 0), (10, 30, 250), (30, 35, 0), (35, 50, 0)]);
    assert_eq!(t.chunks(0), []);
    let huge = Timing { entries: vec![(5, u64::MAX)] };
    assert_eq!(huge.chunks(3), [(0, 3, 5)]);
    assert_eq!(even_chunks(Some(4), 10), [(0, 4, 0), (4, 8, 0), (8, 10, 0)]);
    assert_eq!(even_chunks(None, 10), [(0, 10, 0)]);
    assert_eq!(even_chunks(Some(0), 2), [(0, 1, 0), (1, 2, 0)]);
    assert_eq!(even_chunks(None, 0), []);
}

fn count(bytes: &[u8], needle: &[u8]) -> usize {
    bytes.windows(needle.len()).filter(|w| *w == needle).count()
}

fn code_tag(code: u32) -> Vec<u8> {
    format!("<code>{code:08x}</code>").into_bytes()
}

#[test]
fn synthetic_sessions_have_their_shapes() {
    let sessions = all();
    let names: Vec<&str> = sessions.iter().map(|s| s.name).collect();
    assert_eq!(
        names,
        [
            "album",
            "no-artwork",
            "pause-resume",
            "track-skip",
            "abrupt-disconnect",
            "airplay1-no-active",
            "client-handover",
            "unknown-codes"
        ]
    );
    let album = &sessions[0].bytes;
    assert_eq!(count(album, &code_tag(ABEG)), 1);
    assert_eq!(count(album, &code_tag(AEND)), 1);
    assert_eq!(count(album, &code_tag(PBEG)), 3);
    assert_eq!(count(album, &code_tag(PEND)), 3);
    assert_eq!(count(album, &code_tag(PRGR)), 6);
    assert_eq!(count(&sessions[5].bytes, &code_tag(ABEG)), 0);
    assert_eq!(count(&sessions[6].bytes, &code_tag(ABEG)), 2);
    // "1/1/6659101" in base64.
    assert_eq!(count(&sessions[2].bytes, b"MS8xLzY2NTkxMDE="), 1);
    // A zero-length picture has no data.
    let no_art = encode_item(SSNC, PICT, b"");
    assert_eq!(count(&sessions[1].bytes, &no_art), 1);
}

#[test]
fn the_abrupt_disconnect_fixture_ends_mid_item() {
    let sessions = all();
    let raw = &sessions[4].bytes;
    let tail = String::from_utf8_lossy(&raw[raw.len() - 40..]).to_string();
    assert!(
        tail.contains("<item>") && !tail.trim_end().ends_with("</item>"),
        "fixture no longer ends mid-item; tail was {tail:?}"
    );

    // And the parser must treat that tail as "waiting", not as damage.
    let mut d = Decoder::new();
    d.feed(raw);
    let mut items = 0;
    while let Some(r) = d.next() {
        assert!(r.is_ok(), "a truncated tail must not produce a parse error");
        items += 1;
    }
    assert!(items > 0);
}

#[test]
fn fixtures_round_trip_through_pack() {
    for session in all() {
        let packed = pack(&session.bytes).unwrap();
        let raw = unpack(&packed.bytes, &packed.art).unwrap();
        assert_eq!(raw, session.bytes, "{} did not round-trip", session.name);
        assert_eq!(canonicalise(&session.bytes).unwrap(), session.bytes);
        // And a packed capture packs to itself.
        let again = pack(&raw).unwrap();
        assert_eq!(again.bytes, packed.bytes);
    }
}

#[test]
fn fixtures_read_identically_at_any_chunk_size() {
    for session in all() {
        let whole = read_items(&session.bytes);
        assert!(whole.flaw.is_none());
        for chunk in [17usize, 256, 4096] {
            let mut buffer: Vec<u8> = Vec::new();
            let mut items = Vec::new();
            for part in session.bytes.chunks(chunk) {
                buffer.extend_from_slice(part);
                while let Some((item, end)) = next_item(&buffer) {
                    items.push(item.unwrap());
                    buffer.drain(..end);
                }
            }
            assert_eq!(items.len(), whole.items.len());
            assert_eq!(encode_items(&items), encode_items(&whole.items), "at {chunk}");
            assert_eq!(buffer, session.bytes[whole.consumed..]);
        }
    }
}

#[test]
fn a_truncated_tail_is_waited_for_and_damage_is_named() {
    assert!(next_item(b"<item><type>73736e63</type><code>7072").is_none());
    let read = |body: &str| read_items(format!("<item>{body}</item>").as_bytes());
    assert_eq!(read("<type>7373</type>").flaw, Some(Flaw::Kind));
    assert_eq!(read("<type>73736e63</type><code>zzzzzzzz</code>").flaw, Some(Flaw::Code));
    let head = "<type>73736e63</type><code>70626567</code>";
    assert_eq!(read(&format!("{head}<length>x</length>")).flaw, Some(Flaw::Length));
    let data = |d: &str| read(&format!("{head}<length>2</length>{d}"));
    assert_eq!(data("<data>").flaw, Some(Flaw::Data));
    assert_eq!(data("<data encoding=\"base64\">QW5</data>").flaw, Some(Flaw::Data));
    assert_eq!(data("<data encoding=\"base64\">QUFB</data>").flaw, Some(Flaw::Size));
    let good = data("\n<data encoding=\"base64\">\nQUE=</data>");
    assert!(good.flaw.is_none());
    assert_eq!(good.items[0].payload, b"AA");
    let e = pack(b"<item></item>").unwrap_err();
    assert_eq!(
        e,
        "capture contains unparseable data (an item has no readable type); pack it as raw instead"
    );
    let e = canonicalise(b"<item></item>").unwrap_err();
    assert_eq!(e, "capture contains unparseable data: an item has no readable type");
}

#[test]
fn a_painted_picture_reads_back() {
    // Taller than one stored block holds.
    let (w, h) = (150u32, 160u32);
    let file = rgb(w, h, |x, y| [x as u8, y as u8, (x ^ y) as u8]);
    assert_eq!(&file[16..24], [w.to_be_bytes(), h.to_be_bytes()].concat());
    assert_eq!(&file[24..29], &[8, 2, 0, 0, 0]);
    assert_eq!(&file[37..41], b"IDAT");
    let len = u32::from_be_bytes(file[33..37].try_into().unwrap()) as usize;
    let z = &file[41..41 + len];
    let mut raw = Vec::new();
    let mut at = 2;
    loop {
        let n = z[at + 1] as usize + 256 * z[at + 2] as usize;
        raw.extend_from_slice(&z[at + 5..at + 5 + n]);
        if z[at] == 1 {
            break;
        }
        at += 5 + n;
    }
    let row = 1 + 3 * w as usize;
    assert_eq!(raw.len(), row * h as usize);
    for y in 0..h as usize {
        assert_eq!(raw[y * row], 0);
        for x in 0..w as usize {
            let p = y * row + 1 + 3 * x;
            assert_eq!(&raw[p..p + 3], &[x as u8, y as u8, (x ^ y) as u8]);
        }
    }
}

#[test]
fn unpacking_makes_nothing_up() {
    let plain = b"no reference here\n".to_vec();
    assert_eq!(unpack(&plain, &Vec::new()).unwrap(), plain);

    let picture = Item { kind: SSNC, code: PICT, payload: vec![1u8; 4096] };
    let p = pack_items(&vec![picture], b"");
    let digest = art_digest(&[1u8; 4096]);
    let other = vec![Art { digest: digest.clone(), payload: vec![2u8; 4096] }];
    let e = unpack(&p.bytes, &other).unwrap_err();
    assert!(matches!(
        &e,
        UnpackError::Wrong { digest: d, actual }
            if *d == digest && *actual == art_digest(&[2u8; 4096])
    ));
    assert!(matches!(
        unpack(&p.bytes, &Vec::new()).unwrap_err(),
        UnpackError::Missing(d) if d == digest
    ));
}
