//! What the command-line client prints and sends.

use vstd::prelude::*;

use crate::artwork::{join_path, joined};
use crate::capture::fixture::{parent_of, parent_path};
use crate::proto::{
    opt_artwork, opt_track, Artwork, ArtworkSource, ArtworkView, DisplayPower, State, StateView,
    Track, TrackView,
};
use crate::strings::{concat, debug_quoted, decimal, quote, same, to_chars, to_decimal};
use crate::web::auth::PASSWORD_FILE_NAME;

verus! {

broadcast use vstd::seq::group_seq_axioms;

/// Spaces.
pub open spec fn blanks(n: nat) -> Seq<char> {
    Seq::new(n, |i: int| ' ')
}

/// A text with spaces behind it, up to a width. A longer one stays as it is.
pub open spec fn padded(s: Seq<char>, width: nat) -> Seq<char> {
    if s.len() < width {
        s + blanks((width - s.len()) as nat)
    } else {
        s
    }
}

/// A text with spaces in front of it, up to a width.
pub open spec fn right_aligned(s: Seq<char>, width: nat) -> Seq<char> {
    if s.len() < width {
        blanks((width - s.len()) as nat) + s
    } else {
        s
    }
}

fn spaces(n: usize) -> (r: String)
    ensures
        r@ == blanks(n as nat),
{
    let mut out = String::new();
    let mut i: usize = 0;
    assert(out@ == blanks(0));
    while i < n
        invariant
            i <= n,
            out@ == blanks(i as nat),
        decreases n - i,
    {
        out.push(' ');
        assert(out@ == blanks((i + 1) as nat));
        i = i + 1;
    }
    out
}

fn pad(s: &str, width: usize) -> (r: String)
    ensures
        r@ == padded(s@, width as nat),
{
    let n: usize = to_chars(s).len();
    if n < width {
        concat(s, spaces(width - n).as_str())
    } else {
        s.to_owned()
    }
}

fn align_right(s: &str, width: usize) -> (r: String)
    ensures
        r@ == right_aligned(s@, width as nat),
{
    let n: usize = to_chars(s).len();
    if n < width {
        concat(spaces(width - n).as_str(), s)
    } else {
        s.to_owned()
    }
}

/// A text, or a question mark.
pub open spec fn or_unknown(s: Option<Seq<char>>) -> Seq<char> {
    match s {
        Some(s) => s,
        None => "?"@,
    }
}

/// What is playing.
pub open spec fn now_text(t: Option<TrackView>) -> Seq<char> {
    match t {
        Some(t) => or_unknown(t.artist) + " — "@ + or_unknown(t.title),
        None => "—"@,
    }
}

/// Where a picture is from, in short.
pub open spec fn source_name(s: ArtworkSource) -> Seq<char> {
    match s {
        ArtworkSource::Airplay => "airplay"@,
        ArtworkSource::Itunes => "itunes"@,
        ArtworkSource::CoverArtArchive => "caa"@,
        ArtworkSource::Cache => "cache"@,
        ArtworkSource::Placeholder => "placeholder"@,
    }
}

/// Which picture is shown.
pub open spec fn art_text(a: Option<ArtworkView>) -> Seq<char> {
    match a {
        Some(a) => "art r"@ + decimal(a.revision as nat) + " "@ + (match (a.width, a.height) {
            (Some(w), Some(h)) => decimal(w as nat) + "×"@ + decimal(h as nat),
            _ => "?"@,
        }) + " "@ + source_name(a.source),
        None => "no art"@,
    }
}

/// Whether another track plays than before.
pub open spec fn track_changed(s: StateView, previous: Option<StateView>) -> bool {
    match previous {
        Some(p) => match (p.track, s.track) {
            (Some(a), Some(b)) => a.id != b.id,
            (None, None) => false,
            _ => true,
        },
        None => false,
    }
}

/// Whether another picture is shown than before.
pub open spec fn art_changed(s: StateView, previous: Option<StateView>) -> bool {
    match previous {
        Some(p) => match (p.artwork, s.artwork) {
            (Some(a), Some(b)) => a.revision != b.revision,
            (None, None) => false,
            _ => true,
        },
        None => false,
    }
}

/// How a change is marked.
pub open spec fn mark_text(changed: bool) -> Seq<char> {
    if changed {
        "*"@
    } else {
        " "@
    }
}

/// A state on one line.
pub open spec fn summary_text(seq: u64, s: StateView, previous: Option<StateView>) -> Seq<char> {
    "["@ + right_aligned(decimal(seq as nat), 4) + "] "@ + padded(s.playback.name(), 8) + " "@
        + mark_text(track_changed(s, previous)) + padded(now_text(s.track), 44) + " "@ + mark_text(
        art_changed(s, previous),
    ) + padded(art_text(s.artwork), 28) + " amp:"@ + (if s.power.amp {
        "on "@
    } else {
        "off"@
    }) + " display:"@ + s.power.display.name()
}

fn now_playing(t: &Option<Track>) -> (r: String)
    ensures
        r@ == now_text(opt_track(*t)),
{
    match t {
        Some(t) => {
            let mut out = match &t.artist {
                Some(a) => a.clone(),
                None => "?".to_owned(),
            };
            out.append(" — ");
            match &t.title {
                Some(s) => out.append(s.as_str()),
                None => out.append("?"),
            }
            out
        },
        None => "—".to_owned(),
    }
}

/// Where a picture is from, in short.
pub fn source_label(s: ArtworkSource) -> (r: &'static str)
    ensures
        r@ == source_name(s),
{
    match s {
        ArtworkSource::Airplay => "airplay",
        ArtworkSource::Itunes => "itunes",
        ArtworkSource::CoverArtArchive => "caa",
        ArtworkSource::Cache => "cache",
        ArtworkSource::Placeholder => "placeholder",
    }
}

fn shown(a: &Option<Artwork>) -> (r: String)
    ensures
        r@ == art_text(opt_artwork(*a)),
{
    match a {
        Some(a) => {
            let mut out = concat("art r", to_decimal(a.revision).as_str());
            out.append(" ");
            match (a.width, a.height) {
                (Some(w), Some(h)) => {
                    let mut size = to_decimal(w as u64);
                    size.append("×");
                    size.append(to_decimal(h as u64).as_str());
                    out.append(size.as_str());
                },
                _ => out.append("?"),
            }
            out.append(" ");
            out.append(source_label(a.source));
            out
        },
        None => "no art".to_owned(),
    }
}

fn mark(changed: bool) -> (r: &'static str)
    ensures
        r@ == mark_text(changed),
{
    if changed {
        "*"
    } else {
        " "
    }
}

fn is_other_track(s: &State, p: &State) -> (r: bool)
    ensures
        r == track_changed(s@, Some(p@)),
{
    match (&p.track, &s.track) {
        (Some(a), Some(b)) => !same(a.id.as_str(), b.id.as_str()),
        (None, None) => false,
        _ => true,
    }
}

fn is_other_art(s: &State, p: &State) -> (r: bool)
    ensures
        r == art_changed(s@, Some(p@)),
{
    match (&p.artwork, &s.artwork) {
        (Some(a), Some(b)) => a.revision != b.revision,
        (None, None) => false,
        _ => true,
    }
}

/// A state as it may be absent.
pub open spec fn opt_state(s: Option<&State>) -> Option<StateView> {
    match s {
        Some(s) => Some(s@),
        None => None,
    }
}

/// A state on one line. What changed is marked, so that a long watch is
/// readable.
pub fn summary(seq: u64, state: &State, previous: Option<&State>) -> (r: String)
    ensures
        r@ == summary_text(seq, state@, opt_state(previous)),
{
    let (other_track, other_art) = match previous {
        Some(p) => (is_other_track(state, p), is_other_art(state, p)),
        None => (false, false),
    };
    let mut out = concat("[", align_right(to_decimal(seq).as_str(), 4).as_str());
    out.append("] ");
    out.append(pad(state.playback.as_str(), 8).as_str());
    out.append(" ");
    out.append(mark(other_track));
    out.append(pad(now_playing(&state.track).as_str(), 44).as_str());
    out.append(" ");
    out.append(mark(other_art));
    out.append(pad(shown(&state.artwork).as_str(), 28).as_str());
    out.append(" amp:");
    out.append(if state.power.amp { "on " } else { "off" });
    out.append(" display:");
    out.append(state.power.display.as_str());
    out
}

/// The display state that a user names.
pub fn display_named(value: &str) -> (r: Result<DisplayPower, String>)
    ensures
        if value@ == "on"@ {
            r == Ok::<DisplayPower, String>(DisplayPower::On)
        } else if value@ == "ambient"@ {
            r == Ok::<DisplayPower, String>(DisplayPower::Ambient)
        } else if value@ == "off"@ {
            r == Ok::<DisplayPower, String>(DisplayPower::Off)
        } else {
            r matches Err(e) && e@ == "unknown display state "@ + debug_quoted(value@)
                + "; use on, ambient or off"@
        },
{
    if same(value, "on") {
        Ok(DisplayPower::On)
    } else if same(value, "ambient") {
        Ok(DisplayPower::Ambient)
    } else if same(value, "off") {
        Ok(DisplayPower::Off)
    } else {
        let mut m = concat("unknown display state ", quote(value).as_str());
        m.append("; use on, ambient or off");
        Err(m)
    }
}

/// Where the generated password is kept: beside the local override.
pub open spec fn beside(config_local: Seq<char>) -> Seq<char> {
    joined(
        match parent_path(config_local) {
            Some(p) => p,
            None => "."@,
        },
        PASSWORD_FILE_NAME@,
    )
}

/// Where the generated password is kept.
pub fn password_path(config_local: &str) -> (r: String)
    ensures
        r@ == beside(config_local@),
{
    let dir = match parent_of(config_local) {
        Some(p) => p,
        None => ".".to_owned(),
    };
    join_path(dir.as_str(), PASSWORD_FILE_NAME)
}

/// What a user is told whose password file is not there.
pub fn no_password(path: &str) -> (r: String)
    ensures
        r@ == "reading "@ + path@
            + ". It exists only once authentication has generated a password; if artd could not write it, the password is in the startup log instead."@,
{
    let mut m = concat("reading ", path);
    m.append(
        ". It exists only once authentication has generated a password; if artd could not write it, the password is in the startup log instead.",
    );
    m
}

} // verus!
