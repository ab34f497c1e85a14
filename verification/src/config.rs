//! Device configuration: schema, defaults, validation, and the layering of a
//! local override over the packaged file.
//!
//! Two files are merged, the second winning per key: the one that the package
//! owns, and the one that the web interface writes.

use vstd::prelude::*;

use crate::document::{read_value, toml_tree};
use crate::duration::{rendered, Dur, MaybeDuration};
use crate::proto::DEFAULT_SOCKET;
use crate::single::Single;
use crate::strings::{
    all_digits, ascii_lower, ascii_lowercase, concat, debug_quoted, decimal, decimal_value,
    from_chars, is_digit, list_contains, parse_digits, quote, same, slice_chars, texts, to_chars,
    to_decimal, trim, trim_chars, trimmed,
};
use crate::value::{
    collect_paths, insert_path, inserted, leaf_paths, merge, merged, remove_path, removed, segments,
    Node, Table, Tree,
};

verus! {

broadcast use vstd::seq::group_seq_axioms;

pub const DEFAULT_BASE_PATH: &'static str = "/etc/lpframe/config.toml";

pub const DEFAULT_LOCAL_PATH: &'static str = "/var/lib/lpframe/config.local.toml";

// --- schema ---------------------------------------------------------------

/// The whole configuration.
#[derive(Debug, Clone, PartialEq)]
pub struct Config {
    pub device: Device,
    pub audio: Audio,
    pub display: Display,
    pub render: Render,
    pub enrichment: Enrichment,
    pub cache: Cache,
    pub power: Power,
    pub timeouts: Timeouts,
    pub ipc: Ipc,
    pub web: Web,
    pub logging: Logging,
}

#[derive(Debug, Clone, PartialEq)]
pub struct Device {
    /// Advertised AirPlay name.
    pub name: String,
    /// The shairport-sync metadata pipe to read.
    pub metadata_pipe: String,
}

#[derive(Debug, Clone, PartialEq)]
pub struct Audio {
    pub alsa_device: String,
    pub mixer: String,
}

#[derive(Debug, Clone, PartialEq)]
pub struct Display {
    pub connector: String,
    pub mode: String,
    pub rotation: u32,
    pub card: String,
    pub margin_percent: Single,
}

#[derive(Debug, Clone, Copy, PartialEq, Eq, Structural)]
pub enum Fit {
    Cover,
    Contain,
}

/// What fills the panel outside the square art area. Only visible on
/// non-1:1 panels.
#[derive(Debug, Clone, Copy, PartialEq, Eq, Structural)]
pub enum Background {
    Black,
    Blur,
    Dominant,
    Gradient,
}

#[derive(Debug, Clone, PartialEq)]
pub struct Render {
    /// False drops the 1:1 constraint and fills the panel.
    pub square: bool,
    pub fit: Fit,
    pub background: Background,
    pub background_dim: Single,
    pub crossfade: Dur,
    /// Shorter, for the same album getting sharper rather than a new record.
    pub enrichment_crossfade: Dur,
    pub ken_burns: bool,
    pub ken_burns_period: Dur,
    pub ambient: bool,
    pub ambient_dim: Single,
    pub placeholder: String,
}

/// How much a better cover has to prove before it is shown.
#[derive(Debug, Clone, Copy, PartialEq, Eq, Structural)]
pub enum Strictness {
    Off,
    TextOnly,
    TextAndVisual,
    Strict,
}

#[derive(Debug, Clone, PartialEq)]
pub struct Enrichment {
    /// Sends artist and album to Apple and/or MusicBrainz.
    pub enabled: bool,
    pub strictness: Strictness,
    pub sources: Vec<String>,
    pub itunes_country: String,
    pub max_dimension: u32,
    /// Required by MusicBrainz; unused when only iTunes is enabled.
    pub contact: String,
    pub rate_limit_per_min: u32,
}

#[derive(Debug, Clone, PartialEq)]
pub struct Cache {
    pub dir: String,
    pub max_bytes: ByteSize,
    pub negative_ttl: Dur,
}

#[derive(Debug, Clone, PartialEq)]
pub struct Power {
    pub amp: Amp,
    pub display: DisplayPower,
}

/// When the amplifier trigger fires.
#[derive(Debug, Clone, Copy, PartialEq, Eq, Structural)]
pub enum AmpTrigger {
    /// One transition per listening session. The default.
    SessionBegin,
    /// Fires per track; only for genuinely momentary trigger inputs.
    PlayBegin,
}

#[derive(Debug, Clone, PartialEq)]
pub struct Amp {
    pub enabled: bool,
    /// Resolve by label, never by index: `gpiochipN` numbering has shifted
    /// between kernels.
    pub gpio_chip: String,
    pub gpio_line: u32,
    pub active_low: bool,
    /// 0 holds the level while on; >0 emits a momentary pulse.
    pub pulse: Dur,
    pub on_event: AmpTrigger,
    pub off_delay: Dur,
    pub debounce: Dur,
}

#[derive(Debug, Clone, PartialEq)]
pub struct DisplayPower {
    pub blank_after: Dur,
    pub ambient_after: MaybeDuration,
    pub fade_out: Dur,
}

#[derive(Debug, Clone, PartialEq)]
pub struct Timeouts {
    /// No pipe activity for this long while playing: paused.
    pub stall: Dur,
    /// No pipe activity for this long in any session state: idle.
    pub session: Dur,
}

#[derive(Debug, Clone, PartialEq)]
pub struct Ipc {
    pub socket: String,
    /// tmpfs directory for artwork the renderer reads by path.
    pub art_dir: String,
    /// Artwork revisions kept before unlinking, so a reader mid-decode never
    /// has the file pulled out from under it.
    pub art_retain: usize,
}

#[derive(Debug, Clone, PartialEq)]
pub struct Web {
    pub enabled: bool,
    pub bind: String,
    pub auth: bool,
    /// Argon2id PHC string for the web password, generated on first run and
    /// written to the local override. The plaintext is never stored here.
    pub password_hash: String,
    /// Advertise `_http._tcp` over Avahi.
    pub mdns: bool,
    /// Bind beyond loopback with `auth = false`. Off, and staying off unless
    /// somebody types it. The honest use is a reverse proxy that
    /// authenticates in front of us.
    pub insecure_no_auth: bool,
}

#[derive(Debug, Clone, PartialEq)]
pub struct Logging {
    pub level: String,
    /// Events retained for the diagnostics page.
    pub event_buffer: usize,
}

// --- defaults -------------------------------------------------------------

impl Default for Device {
    fn default() -> (r: Device)
        ensures
            r.name@ == "LP Frame"@,
            r.metadata_pipe@ == "/tmp/shairport-sync-metadata"@,
    {
        Device {
            name: "LP Frame".to_owned(),
            metadata_pipe: "/tmp/shairport-sync-metadata".to_owned(),
        }
    }
}

impl Default for Audio {
    fn default() -> (r: Audio)
        ensures
            r.alsa_device@ == "default"@,
            r.mixer@ == Seq::<char>::empty(),
    {
        Audio { alsa_device: "default".to_owned(), mixer: String::new() }
    }
}

impl Default for Display {
    fn default() -> (r: Display)
        ensures
            r.connector@ == "auto"@,
            r.mode@ == "auto"@,
            r.rotation == 0,
            r.card@ == "auto"@,
            r.margin_percent.is_zero(),
            r.margin_percent.bits == 0,
    {
        Display {
            connector: "auto".to_owned(),
            mode: "auto".to_owned(),
            rotation: 0,
            card: "auto".to_owned(),
            margin_percent: Single { bits: 0 },
        }
    }
}

/// The bits of 0.35.
pub const DEFAULT_BACKGROUND_DIM: u32 = 0x3eb3_3333;

/// The bits of 0.12.
pub const DEFAULT_AMBIENT_DIM: u32 = 0x3df5_c28f;

impl Default for Render {
    fn default() -> (r: Render)
        ensures
            r.square,
            r.fit == Fit::Cover,
            r.background == Background::Blur,
            r.background_dim.bits == DEFAULT_BACKGROUND_DIM,
            r.crossfade == Dur(600),
            r.enrichment_crossfade == Dur(250),
            !r.ken_burns,
            r.ken_burns_period == Dur(180_000),
            !r.ambient,
            r.ambient_dim.bits == DEFAULT_AMBIENT_DIM,
            r.placeholder@ == "/usr/share/lpframe/placeholder.png"@,
    {
        Render {
            square: true,
            fit: Fit::Cover,
            // Blurred fill by default so a non-1:1 panel looks deliberate
            // rather than broken; invisible on a square one.
            background: Background::Blur,
            background_dim: Single { bits: DEFAULT_BACKGROUND_DIM },
            crossfade: Dur::from_millis(600),
            enrichment_crossfade: Dur::from_millis(250),
            ken_burns: false,
            ken_burns_period: Dur::from_secs(180),
            ambient: false,
            ambient_dim: Single { bits: DEFAULT_AMBIENT_DIM },
            placeholder: "/usr/share/lpframe/placeholder.png".to_owned(),
        }
    }
}

impl Default for Enrichment {
    fn default() -> (r: Enrichment)
        ensures
            r.enabled,
            r.strictness == Strictness::TextAndVisual,
            texts(r.sources@) == seq!["itunes"@],
            r.itunes_country@ == "GB"@,
            r.max_dimension == 3000,
            r.contact@ == Seq::<char>::empty(),
            r.rate_limit_per_min == 15,
    {
        // MusicBrainz requires a contactable User-Agent, so it cannot be on
        // by default: enable it alongside `contact`.
        let mut sources: Vec<String> = Vec::new();
        sources.push("itunes".to_owned());
        assert(texts(sources@) == seq!["itunes"@]);
        Enrichment {
            enabled: true,
            strictness: Strictness::TextAndVisual,
            sources,
            itunes_country: "GB".to_owned(),
            max_dimension: 3000,
            contact: String::new(),
            rate_limit_per_min: 15,
        }
    }
}

impl Default for Cache {
    fn default() -> (r: Cache)
        ensures
            r.dir@ == "/var/lib/lpframe/cache"@,
            r.max_bytes == ByteSize(0x8000_0000),
            r.negative_ttl == Dur(604_800_000),
    {
        Cache {
            dir: "/var/lib/lpframe/cache".to_owned(),
            max_bytes: ByteSize(0x8000_0000),
            negative_ttl: Dur::from_secs(7 * 24 * 3600),
        }
    }
}

impl Default for Amp {
    fn default() -> (r: Amp)
        ensures
            r.enabled,
            r.gpio_chip@ == "auto"@,
            r.gpio_line == 17,
            !r.active_low,
            r.pulse == Dur(0),
            r.on_event == AmpTrigger::SessionBegin,
            r.off_delay == Dur(600_000),
            r.debounce == Dur(2000),
    {
        Amp {
            enabled: true,
            gpio_chip: "auto".to_owned(),
            gpio_line: 17,
            active_low: false,
            pulse: Dur::from_millis(0),
            on_event: AmpTrigger::SessionBegin,
            off_delay: Dur::from_secs(600),
            debounce: Dur::from_secs(2),
        }
    }
}

impl Default for DisplayPower {
    fn default() -> (r: DisplayPower)
        ensures
            r.blank_after == Dur(300_000),
            r.ambient_after == MaybeDuration(None),
            r.fade_out == Dur(1000),
    {
        DisplayPower {
            blank_after: Dur::from_secs(300),
            ambient_after: MaybeDuration::off(),
            fade_out: Dur::from_millis(1000),
        }
    }
}

impl Default for Power {
    fn default() -> (r: Power)
        ensures
            r.amp.enabled,
            r.amp.on_event == AmpTrigger::SessionBegin,
            r.amp.off_delay == Dur(600_000),
            r.display.blank_after == Dur(300_000),
            r.display.ambient_after == MaybeDuration(None),
            r.display.fade_out == Dur(1000),
    {
        Power { amp: Amp::default(), display: DisplayPower::default() }
    }
}

impl Default for Timeouts {
    fn default() -> (r: Timeouts)
        ensures
            r.stall == Dur(15_000),
            r.session == Dur(60_000),
    {
        Timeouts { stall: Dur::from_secs(15), session: Dur::from_secs(60) }
    }
}

impl Default for Ipc {
    fn default() -> (r: Ipc)
        ensures
            r.socket@ == DEFAULT_SOCKET@,
            r.art_dir@ == "/run/lpframe/art"@,
            r.art_retain == 4,
    {
        Ipc {
            socket: DEFAULT_SOCKET.to_owned(),
            art_dir: "/run/lpframe/art".to_owned(),
            art_retain: 4,
        }
    }
}

impl Default for Web {
    fn default() -> (r: Web)
        ensures
            r.enabled,
            r.bind@ == "0.0.0.0:8730"@,
            r.auth,
            r.password_hash@ == Seq::<char>::empty(),
            r.mdns,
            !r.insecure_no_auth,
    {
        Web {
            enabled: true,
            // LAN by default, because the interface is the only way to
            // configure a device with no buttons and no keyboard. Safe only
            // because `auth` below defaults on and `validate` refuses the
            // combination of a non-loopback bind and no authentication.
            bind: "0.0.0.0:8730".to_owned(),
            auth: true,
            password_hash: String::new(),
            mdns: true,
            insecure_no_auth: false,
        }
    }
}

impl Default for Logging {
    fn default() -> (r: Logging)
        ensures
            r.level@ == "info"@,
            r.event_buffer == 200,
    {
        Logging { level: "info".to_owned(), event_buffer: 200 }
    }
}

impl Default for Config {
    fn default() -> (r: Config)
        ensures
            call_ensures(Device::default, (), r.device),
            call_ensures(Audio::default, (), r.audio),
            call_ensures(Display::default, (), r.display),
            call_ensures(Render::default, (), r.render),
            call_ensures(Enrichment::default, (), r.enrichment),
            call_ensures(Cache::default, (), r.cache),
            call_ensures(Amp::default, (), r.power.amp),
            call_ensures(DisplayPower::default, (), r.power.display),
            call_ensures(Timeouts::default, (), r.timeouts),
            call_ensures(Ipc::default, (), r.ipc),
            call_ensures(Web::default, (), r.web),
            call_ensures(Logging::default, (), r.logging),
    {
        Config {
            device: Device::default(),
            audio: Audio::default(),
            display: Display::default(),
            render: Render::default(),
            enrichment: Enrichment::default(),
            cache: Cache::default(),
            power: Power { amp: Amp::default(), display: DisplayPower::default() },
            timeouts: Timeouts::default(),
            ipc: Ipc::default(),
            web: Web::default(),
            logging: Logging::default(),
        }
    }
}

// --- byte sizes -----------------------------------------------------------

/// A byte count written as `"2GiB"`, `"512MiB"` or a plain integer.
#[derive(Debug, Clone, Copy, PartialEq, Eq, Structural)]
pub struct ByteSize(pub u64);

pub const KIB: u64 = 0x400;

pub const MIB: u64 = 0x10_0000;

pub const GIB: u64 = 0x4000_0000;

impl ByteSize {
    /// The largest unit that divides the count, and how many of it there are.
    pub open spec fn text(self) -> Seq<char> {
        let n = self.0 as nat;
        if n >= GIB && n % (GIB as nat) == 0 {
            decimal(n / (GIB as nat)) + "GiB"@
        } else if n >= MIB && n % (MIB as nat) == 0 {
            decimal(n / (MIB as nat)) + "MiB"@
        } else if n >= KIB && n % (KIB as nat) == 0 {
            decimal(n / (KIB as nat)) + "KiB"@
        } else {
            decimal(n)
        }
    }

    /// The byte count as it is written in a file.
    pub fn to_string(&self) -> (r: String)
        ensures
            r@ == self.text(),
    {
        let n: u64 = self.0;
        if n >= GIB && n % GIB == 0 {
            concat(to_decimal(n / GIB).as_str(), "GiB")
        } else if n >= MIB && n % MIB == 0 {
            concat(to_decimal(n / MIB).as_str(), "MiB")
        } else if n >= KIB && n % KIB == 0 {
            concat(to_decimal(n / KIB).as_str(), "KiB")
        } else {
            to_decimal(n)
        }
    }
}

/// How many leading characters are digits.
pub open spec fn digits_len(s: Seq<char>) -> nat
    decreases s.len(),
{
    if s.len() > 0 && is_digit(s[0]) {
        1 + digits_len(s.drop_first())
    } else {
        0
    }
}

/// Bytes in a unit, written in any case.
pub open spec fn unit_bytes(unit: Seq<char>) -> Option<nat> {
    let u = ascii_lower(unit);
    if u == ""@ || u == "b"@ {
        Some(1)
    } else if u == "kib"@ || u == "k"@ {
        Some(KIB as nat)
    } else if u == "mib"@ || u == "m"@ {
        Some(MIB as nat)
    } else if u == "gib"@ || u == "g"@ {
        Some(GIB as nat)
    } else {
        None
    }
}

/// What a text means as a byte count, or why it is refused.
pub open spec fn parsed_bytes(s: Seq<char>) -> Result<u64, Seq<char>> {
    let t = trimmed(s);
    let split = digits_len(t) as int;
    let n = decimal_value(t.take(split));
    let unit = trimmed(t.skip(split));
    if split == 0 || n > u64::MAX {
        Err(debug_quoted(t) + " is not a byte size"@)
    } else {
        match unit_bytes(unit) {
            None => Err(
                "unknown unit "@ + debug_quoted(ascii_lower(unit)) + " in "@ + debug_quoted(t),
            ),
            Some(u) => if n * u > u64::MAX {
                Err(debug_quoted(t) + " overflows"@)
            } else {
                Ok((n * u) as u64)
            },
        }
    }
}

proof fn digits_len_digits(s: Seq<char>)
    ensures
        digits_len(s) <= s.len(),
        all_digits(s.take(digits_len(s) as int)),
    decreases s.len(),
{
    if s.len() > 0 && is_digit(s[0]) {
        digits_len_digits(s.drop_first());
        let n = digits_len(s) as int;
        assert forall|i: int| 0 <= i < n implies is_digit(#[trigger] s.take(n)[i]) by {
            if i > 0 {
                assert(is_digit(s.drop_first().take(n - 1)[i - 1]));
            }
        }
    }
}

/// Parse a byte count.
pub fn parse_bytes(s: &str) -> (r: Result<u64, String>)
    ensures
        match (r, parsed_bytes(s@)) {
            (Ok(n), Ok(m)) => n == m,
            (Err(a), Err(b)) => a@ == b,
            _ => false,
        },
{
    let all = to_chars(s);
    let t = trim_chars(&all);
    let text = from_chars(&t);
    let mut split: usize = 0;
    assert(t@.skip(0) == t@);
    while split < t.len() && '0' <= t[split] && t[split] <= '9'
        invariant
            split <= t.len(),
            split + digits_len(t@.skip(split as int)) == digits_len(t@),
        decreases t.len() - split,
    {
        assert(t@.skip(split as int).drop_first() == t@.skip(split + 1));
        split = split + 1;
    }
    let number = slice_chars(&t, 0, split);
    assert(number@ == t@.take(split as int));
    let rest = slice_chars(&t, split, t.len());
    assert(rest@ == t@.skip(split as int));
    proof {
        digits_len_digits(t@);
    }
    let n: u64 = match parse_digits(&number) {
        Some(n) => n,
        None => {
            return Err(concat(quote(text.as_str()).as_str(), " is not a byte size"));
        },
    };
    let unit = from_chars(&ascii_lowercase(&trim_chars(&rest)));
    let u: u64 = if same(unit.as_str(), "") || same(unit.as_str(), "b") {
        1
    } else if same(unit.as_str(), "kib") || same(unit.as_str(), "k") {
        KIB
    } else if same(unit.as_str(), "mib") || same(unit.as_str(), "m") {
        MIB
    } else if same(unit.as_str(), "gib") || same(unit.as_str(), "g") {
        GIB
    } else {
        let mut m = concat("unknown unit ", quote(unit.as_str()).as_str());
        m.append(" in ");
        m.append(quote(text.as_str()).as_str());
        return Err(m);
    };
    match n.checked_mul(u) {
        Some(total) => Ok(total),
        None => Err(concat(quote(text.as_str()).as_str(), " overflows")),
    }
}

// --- validation -----------------------------------------------------------

/// A socket address, as far as the configuration cares: how it reads, its
/// port, and whether it is on the loopback interface.
#[derive(Debug, Clone, PartialEq, Eq)]
pub struct SocketAddress {
    pub text: String,
    pub port: u16,
    pub loopback: bool,
}

/// A [`SocketAddress`] as values.
pub struct AddressView {
    pub text: Seq<char>,
    pub port: u16,
    pub loopback: bool,
}

impl View for SocketAddress {
    type V = AddressView;

    open spec fn view(&self) -> AddressView {
        AddressView { text: self.text@, port: self.port, loopback: self.loopback }
    }
}

/// The values behind an optional address.
pub open spec fn opt_address(a: Option<&SocketAddress>) -> Option<AddressView> {
    match a {
        Some(x) => Some(x@),
        None => None,
    }
}

/// What is wrong with a configuration.
#[derive(Debug)]
pub enum Problem {
    Rotation(u32),
    Margin,
    BackgroundDim(Single),
    AmbientDim(Single),
    StallNotShorter { stall: Dur, session: Dur },
    AmbientNotShorter { ambient: MaybeDuration, blank: Dur },
    TooFewRetained,
    UnknownSource(String),
    NoContact,
    UnreadableBind(String),
    OpenBind { address: String, port: u16 },
    /// The local override file holds something other than a table.
    NotATable(String),
    /// The override could not be written out, with the reason.
    Unserialisable(String),
}

/// A [`Problem`] as values.
pub enum ProblemView {
    Rotation(u32),
    Margin,
    BackgroundDim(Single),
    AmbientDim(Single),
    StallNotShorter { stall: Dur, session: Dur },
    AmbientNotShorter { ambient: MaybeDuration, blank: Dur },
    TooFewRetained,
    UnknownSource(Seq<char>),
    NoContact,
    UnreadableBind(Seq<char>),
    OpenBind { address: Seq<char>, port: u16 },
    NotATable(Seq<char>),
    Unserialisable(Seq<char>),
}

impl View for Problem {
    type V = ProblemView;

    open spec fn view(&self) -> ProblemView {
        match *self {
            Problem::Rotation(n) => ProblemView::Rotation(n),
            Problem::Margin => ProblemView::Margin,
            Problem::BackgroundDim(x) => ProblemView::BackgroundDim(x),
            Problem::AmbientDim(x) => ProblemView::AmbientDim(x),
            Problem::StallNotShorter { stall, session } => ProblemView::StallNotShorter {
                stall,
                session,
            },
            Problem::AmbientNotShorter { ambient, blank } => ProblemView::AmbientNotShorter {
                ambient,
                blank,
            },
            Problem::TooFewRetained => ProblemView::TooFewRetained,
            Problem::UnknownSource(s) => ProblemView::UnknownSource(s@),
            Problem::NoContact => ProblemView::NoContact,
            Problem::UnreadableBind(s) => ProblemView::UnreadableBind(s@),
            Problem::OpenBind { address, port } => ProblemView::OpenBind {
                address: address@,
                port,
            },
            Problem::NotATable(s) => ProblemView::NotATable(s@),
            Problem::Unserialisable(s) => ProblemView::Unserialisable(s@),
        }
    }
}

impl ProblemView {
    /// What the user is told. `number` is how the offending number reads.
    pub open spec fn text(self, number: Seq<char>) -> Seq<char> {
        match self {
            ProblemView::Rotation(n) => "display.rotation must be 0, 90, 180 or 270, not "@
                + decimal(n as nat),
            ProblemView::Margin => "display.margin_percent must be between 0 and 45"@,
            ProblemView::BackgroundDim(_) => "render.background_dim must be between 0 and 1, not "@
                + number,
            ProblemView::AmbientDim(_) => "render.ambient_dim must be between 0 and 1, not "@
                + number,
            ProblemView::StallNotShorter { stall, session } => "timeouts.stall ("@ + rendered(stall)
                + ") must be shorter than timeouts.session ("@ + rendered(session) + ")"@,
            ProblemView::AmbientNotShorter { ambient, blank } => "power.display.ambient_after ("@
                + ambient.text() + ") must be shorter than blank_after ("@ + rendered(blank)
                + ")"@,
            ProblemView::TooFewRetained => "ipc.art_retain must be at least 2"@,
            ProblemView::UnknownSource(s) => "enrichment.sources contains unknown source "@
                + debug_quoted(s) + "; known: [\"itunes\", \"musicbrainz\"]"@,
            ProblemView::NoContact =>
                "enrichment.contact must be set when musicbrainz is enabled"@,
            ProblemView::UnreadableBind(s) => "web.bind "@ + debug_quoted(s)
                + " is not a valid address:port"@,
            ProblemView::OpenBind { address, port } => "web.bind is "@ + address
                + " with web.auth = false, which would serve the listening history and every setting to anything on the network. Set web.auth = true, or web.bind = \"127.0.0.1:"@
                + decimal(port as nat)
                + "\", or — if something in front of this authenticates for you — web.insecure_no_auth = true."@,
            ProblemView::NotATable(path) => path + " is not a table"@,
            ProblemView::Unserialisable(why) => "the override could not be serialised: "@ + why,
        }
    }
}

impl Problem {
    /// What the user is told. `number` is how the offending number reads; it
    /// is used for the two dims only.
    pub fn message(&self, number: &str) -> (r: String)
        ensures
            r@ == self@.text(number@),
    {
        match self {
            Problem::Rotation(n) => concat(
                "display.rotation must be 0, 90, 180 or 270, not ",
                to_decimal(*n as u64).as_str(),
            ),
            Problem::Margin => "display.margin_percent must be between 0 and 45".to_owned(),
            Problem::BackgroundDim(_) => concat(
                "render.background_dim must be between 0 and 1, not ",
                number,
            ),
            Problem::AmbientDim(_) => concat(
                "render.ambient_dim must be between 0 and 1, not ",
                number,
            ),
            Problem::StallNotShorter { stall, session } => {
                let mut m = concat("timeouts.stall (", stall.to_string().as_str());
                m.append(") must be shorter than timeouts.session (");
                m.append(session.to_string().as_str());
                m.append(")");
                m
            },
            Problem::AmbientNotShorter { ambient, blank } => {
                let mut m = concat("power.display.ambient_after (", ambient.to_string().as_str());
                m.append(") must be shorter than blank_after (");
                m.append(blank.to_string().as_str());
                m.append(")");
                m
            },
            Problem::TooFewRetained => "ipc.art_retain must be at least 2".to_owned(),
            Problem::UnknownSource(s) => {
                let mut m = concat(
                    "enrichment.sources contains unknown source ",
                    quote(s.as_str()).as_str(),
                );
                m.append("; known: [\"itunes\", \"musicbrainz\"]");
                m
            },
            Problem::NoContact => "enrichment.contact must be set when musicbrainz is enabled".to_owned(),
            Problem::UnreadableBind(s) => {
                let mut m = concat("web.bind ", quote(s.as_str()).as_str());
                m.append(" is not a valid address:port");
                m
            },
            Problem::OpenBind { address, port } => {
                let mut m = concat("web.bind is ", address.as_str());
                m.append(
                    " with web.auth = false, which would serve the listening history and every setting to anything on the network. Set web.auth = true, or web.bind = \"127.0.0.1:",
                );
                m.append(to_decimal(*port as u64).as_str());
                m.append(
                    "\", or — if something in front of this authenticates for you — web.insecure_no_auth = true.",
                );
                m
            },
            Problem::NotATable(path) => concat(path.as_str(), " is not a table"),
            Problem::Unserialisable(why) => concat(
                "the override could not be serialised: ",
                why.as_str(),
            ),
        }
    }
}

/// The bits of 45.
pub const MAX_MARGIN: u32 = 0x4234_0000;

/// The bits of 1.
pub const FULL_DIM: u32 = 0x3f80_0000;

/// The catalogues that can be asked.
pub open spec fn known_source(s: Seq<char>) -> bool {
    s == "itunes"@ || s == "musicbrainz"@
}

/// The first source that is not known.
pub open spec fn first_unknown(sources: Seq<Seq<char>>) -> Option<Seq<char>>
    decreases sources.len(),
{
    if sources.len() == 0 {
        None
    } else if !known_source(sources[0]) {
        Some(sources[0])
    } else {
        first_unknown(sources.drop_first())
    }
}

impl Config {
    /// Whether the web interface would be open to the network without anyone
    /// having to authenticate.
    pub open spec fn serves_anyone(self, address: AddressView) -> bool {
        !address.loopback && !self.web.auth && !self.web.insecure_no_auth
    }

    /// The first thing that is wrong with the configuration. `bind` is what
    /// `web.bind` reads as, if it reads as an address at all.
    pub open spec fn problem(self, bind: Option<AddressView>) -> Option<ProblemView> {
        let sources = texts(self.enrichment.sources@);
        let rotation = self.display.rotation;
        if rotation != 0 && rotation != 90 && rotation != 180 && rotation != 270 {
            Some(ProblemView::Rotation(rotation))
        } else if !self.display.margin_percent.in_zero_to(Single { bits: MAX_MARGIN }) {
            Some(ProblemView::Margin)
        } else if !self.render.background_dim.in_zero_to(Single { bits: FULL_DIM }) {
            Some(ProblemView::BackgroundDim(self.render.background_dim))
        } else if !self.render.ambient_dim.in_zero_to(Single { bits: FULL_DIM }) {
            Some(ProblemView::AmbientDim(self.render.ambient_dim))
        } else if self.timeouts.stall.0 >= self.timeouts.session.0 {
            Some(
                ProblemView::StallNotShorter {
                    stall: self.timeouts.stall,
                    session: self.timeouts.session,
                },
            )
        } else if self.power.display.ambient_after.0 matches Some(a) && a.0
            >= self.power.display.blank_after.0 {
            Some(
                ProblemView::AmbientNotShorter {
                    ambient: self.power.display.ambient_after,
                    blank: self.power.display.blank_after,
                },
            )
        } else if self.ipc.art_retain < 2 {
            Some(ProblemView::TooFewRetained)
        } else if self.enrichment.enabled && first_unknown(sources) is Some {
            Some(ProblemView::UnknownSource(first_unknown(sources)->0))
        } else if self.enrichment.enabled && sources.contains("musicbrainz"@) && trimmed(
            self.enrichment.contact@,
        ).len() == 0 {
            Some(ProblemView::NoContact)
        } else if self.web.enabled && bind is None {
            Some(ProblemView::UnreadableBind(self.web.bind@))
        } else if self.web.enabled && self.serves_anyone(bind->0) {
            Some(ProblemView::OpenBind { address: bind->0.text, port: bind->0.port })
        } else {
            None
        }
    }

    fn unknown_source(sources: &Vec<String>) -> (r: Option<String>)
        ensures
            match r {
                Some(s) => first_unknown(texts(sources@)) == Some(s@),
                None => first_unknown(texts(sources@)) is None,
            },
    {
        let ghost all = texts(sources@);
        let mut i: usize = 0;
        assert(all.skip(0) == all);
        while i < sources.len()
            invariant
                i <= sources.len(),
                all == texts(sources@),
                first_unknown(all.skip(i as int)) == first_unknown(all),
            decreases sources.len() - i,
        {
            assert(all.skip(i as int)[0] == sources@[i as int]@);
            assert(all.skip(i as int).drop_first() == all.skip(i + 1));
            if !same(sources[i].as_str(), "itunes") && !same(sources[i].as_str(), "musicbrainz") {
                return Some(sources[i].clone());
            }
            i = i + 1;
        }
        None
    }

    /// Reject combinations that would produce confusing behaviour later.
    ///
    /// `bind` is what `web.bind` reads as, if it reads as an address at all.
    pub fn validate(&self, bind: Option<&SocketAddress>) -> (r: Result<(), Problem>)
        ensures
            match r {
                Ok(()) => self.problem(opt_address(bind)) is None,
                Err(p) => self.problem(opt_address(bind)) == Some(p@),
            },
    {
        let rotation: u32 = self.display.rotation;
        if rotation != 0 && rotation != 90 && rotation != 180 && rotation != 270 {
            return Err(Problem::Rotation(rotation));
        }
        if !self.display.margin_percent.within(Single { bits: MAX_MARGIN }) {
            return Err(Problem::Margin);
        }
        if !self.render.background_dim.within(Single { bits: FULL_DIM }) {
            return Err(Problem::BackgroundDim(self.render.background_dim));
        }
        if !self.render.ambient_dim.within(Single { bits: FULL_DIM }) {
            return Err(Problem::AmbientDim(self.render.ambient_dim));
        }
        if self.timeouts.stall.0 >= self.timeouts.session.0 {
            // Otherwise the session timeout fires first and the paused state
            // is unreachable, which reads as "it just goes dark".
            return Err(
                Problem::StallNotShorter {
                    stall: self.timeouts.stall,
                    session: self.timeouts.session,
                },
            );
        }
        if let Some(ambient) = self.power.display.ambient_after.0 {
            if ambient.0 >= self.power.display.blank_after.0 {
                return Err(
                    Problem::AmbientNotShorter {
                        ambient: self.power.display.ambient_after,
                        blank: self.power.display.blank_after,
                    },
                );
            }
        }
        if self.ipc.art_retain < 2 {
            return Err(Problem::TooFewRetained);
        }
        if self.enrichment.enabled {
            if let Some(s) = Config::unknown_source(&self.enrichment.sources) {
                return Err(Problem::UnknownSource(s));
            }
            if list_contains(&self.enrichment.sources, "musicbrainz") && trim(
                self.enrichment.contact.as_str(),
            ).as_str().is_empty() {
                // MusicBrainz requires a contactable User-Agent; sending
                // requests without one gets the device blocked.
                return Err(Problem::NoContact);
            }
        }
        if self.web.enabled {
            match bind {
                None => {
                    return Err(Problem::UnreadableBind(self.web.bind.clone()));
                },
                Some(address) => {
                    // Checked here rather than only at startup so the settings
                    // page cannot write the combination either.
                    if !address.loopback && !self.web.auth && !self.web.insecure_no_auth {
                        return Err(
                            Problem::OpenBind {
                                address: address.text.clone(),
                                port: address.port,
                            },
                        );
                    }
                },
            }
        }
        Ok(())
    }
}

// --- layers ---------------------------------------------------------------

/// Why a configuration could not be loaded or changed.
#[derive(Debug)]
pub enum ConfigError {
    Read { path: String, source: String },
    Parse { path: String, source: String },
    Invalid(Problem),
    Write { path: String, source: String },
    BadKey(String),
}

impl ConfigError {
    /// What the user is told. `number` is how an offending number reads.
    pub open spec fn text(self, number: Seq<char>) -> Seq<char> {
        match self {
            ConfigError::Read { path, source } => "reading "@ + path@ + ": "@ + source@,
            ConfigError::Parse { path, source } => path@ + " is not valid TOML: "@ + source@,
            ConfigError::Invalid(p) => "configuration is invalid: "@ + p@.text(number),
            ConfigError::Write { path, source } => "writing "@ + path@ + ": "@ + source@,
            ConfigError::BadKey(m) => m@,
        }
    }

    /// What the user is told. `number` is how an offending number reads.
    pub fn message(&self, number: &str) -> (r: String)
        ensures
            r@ == self.text(number@),
    {
        match self {
            ConfigError::Read { path, source } => {
                let mut m = concat("reading ", path.as_str());
                m.append(": ");
                m.append(source.as_str());
                m
            },
            ConfigError::Parse { path, source } => {
                let mut m = concat(path.as_str(), " is not valid TOML: ");
                m.append(source.as_str());
                m
            },
            ConfigError::Invalid(p) => concat(
                "configuration is invalid: ",
                p.message(number).as_str(),
            ),
            ConfigError::Write { path, source } => {
                let mut m = concat("writing ", path.as_str());
                m.append(": ");
                m.append(source.as_str());
                m
            },
            ConfigError::BadKey(m) => m.clone(),
        }
    }
}

/// The table that an override file holds, empty if there is no file.
pub fn local_table(read: Option<Node>, path: &str) -> (r: Result<Table, ConfigError>)
    ensures
        match read {
            None => r matches Ok(t) && t.map() == Map::<Seq<char>, Tree>::empty(),
            Some(v) => match v.tree() {
                Tree::Table(m) => r matches Ok(t) && t.map() == m,
                _ => r matches Err(ConfigError::Invalid(p)) && p@ == ProblemView::NotATable(path@),
            },
        },
{
    match read {
        Some(Node::Table(t)) => Ok(t),
        Some(_) => Err(ConfigError::Invalid(Problem::NotATable(path.to_owned()))),
        None => Ok(Table::new()),
    }
}

/// The packaged file as a tree, an empty table where there is none.
pub open spec fn base_tree(base: Option<Node>) -> Tree {
    match base {
        Some(v) => v.tree(),
        None => Tree::Table(Map::empty()),
    }
}

/// Lay an override over the packaged file. A missing file is not an error at
/// either layer: a fresh device has no local overrides, and an all-defaults
/// device needs no base file.
pub fn layer(base: Option<Node>, local: &Option<Node>) -> (r: (Node, Vec<String>))
    ensures
        match local {
            Some(l) => {
                &&& r.0.tree() == merged(base_tree(base), l.tree())
                &&& texts(r.1@).to_set() == leaf_paths(l.tree(), Seq::empty())
                &&& crate::strings::ascending(texts(r.1@))
            },
            None => r.0.tree() == base_tree(base) && r.1@.len() == 0,
        },
{
    let mut whole = match base {
        Some(v) => v,
        None => Node::Table(Table::new()),
    };
    match local {
        Some(l) => {
            merge(&mut whole, l);
            proof {
                reveal_strlit("");
                assert(""@ == Seq::<char>::empty());
            }
            let paths = collect_paths(l, "");
            (whole, paths)
        },
        None => (whole, Vec::new()),
    }
}

/// One change to an override: a value to set, or nothing to drop the key.
#[derive(Debug)]
pub struct Edit {
    pub key: String,
    pub value: Option<Node>,
}

/// What a bad key is answered with when it is not a setting.
pub open spec fn not_a_setting(key: Seq<char>) -> Seq<char> {
    debug_quoted(key) + " is not a setting. Dotted paths only, e.g. \"render.ambient\"."@
}

/// What a key is answered with that runs through something else than a table.
pub open spec fn runs_through(key: Seq<char>, part: Seq<char>) -> Seq<char> {
    debug_quoted(key) + " runs through "@ + debug_quoted(part) + ", which is not a table"@
}

/// Changes as values: each key, and the tree it is set to.
pub open spec fn changes(edits: Seq<Edit>) -> Seq<(Seq<char>, Option<Tree>)> {
    edits.map_values(
        |e: Edit|
            (
                e.key@,
                match e.value {
                    Some(v) => Some(v.tree()),
                    None => None,
                },
            ),
    )
}

/// The first key that is no setting.
pub open spec fn first_bad_key(
    edits: Seq<(Seq<char>, Option<Tree>)>,
    known: Seq<Seq<char>>,
) -> Option<Seq<char>>
    decreases edits.len(),
{
    if edits.len() == 0 {
        None
    } else if !known.contains(edits[0].0) {
        Some(edits[0].0)
    } else {
        first_bad_key(edits.drop_first(), known)
    }
}

/// An override after a list of changes, or the message for the first that
/// cannot be made.
pub open spec fn edited(
    m: Map<Seq<char>, Tree>,
    edits: Seq<(Seq<char>, Option<Tree>)>,
) -> Result<Map<Seq<char>, Tree>, Seq<char>>
    decreases edits.len(),
{
    if edits.len() == 0 {
        Ok(m)
    } else {
        let key = edits[0].0;
        match edits[0].1 {
            Some(v) => match inserted(m, segments(key), v) {
                Ok(next) => edited(next, edits.drop_first()),
                Err(part) => Err(runs_through(key, part)),
            },
            None => edited(removed(m, segments(key)).0, edits.drop_first()),
        }
    }
}

/// Refuse changes to what is no setting.
pub fn check_keys(edits: &Vec<Edit>, known: &Vec<String>) -> (r: Result<(), ConfigError>)
    ensures
        match first_bad_key(changes(edits@), texts(known@)) {
            Some(key) => r matches Err(ConfigError::BadKey(m)) && m@ == not_a_setting(key),
            None => r is Ok,
        },
{
    let ghost all = changes(edits@);
    let mut i: usize = 0;
    assert(all.skip(0) == all);
    while i < edits.len()
        invariant
            i <= edits.len(),
            all == changes(edits@),
            first_bad_key(all.skip(i as int), texts(known@)) == first_bad_key(all, texts(known@)),
        decreases edits.len() - i,
    {
        assert(all.skip(i as int)[0].0 == edits@[i as int].key@);
        assert(all.skip(i as int).drop_first() == all.skip(i + 1));
        if !list_contains(known, edits[i].key.as_str()) {
            return Err(
                ConfigError::BadKey(
                    concat(
                        quote(edits[i].key.as_str()).as_str(),
                        " is not a setting. Dotted paths only, e.g. \"render.ambient\".",
                    ),
                ),
            );
        }
        i = i + 1;
    }
    Ok(())
}

/// The override that a list of changes makes of the one on disk.
///
/// Both setting and dropping are one primitive because confirm-or-revert has
/// to restore a mixture: some of the keys it is undoing were overridden
/// before, and some were not.
pub fn edit_table(local: Table, edits: &Vec<Edit>) -> (r: Result<Table, ConfigError>)
    ensures
        match edited(local.map(), changes(edits@)) {
            Ok(m) => r matches Ok(t) && t.map() == m,
            Err(e) => r matches Err(ConfigError::BadKey(m)) && m@ == e,
        },
{
    let ghost all = changes(edits@);
    let ghost start = local.map();
    let mut table = local;
    let mut n: usize = 0;
    assert(all.skip(0) == all);
    while n < edits.len()
        invariant
            n <= edits.len(),
            all == changes(edits@),
            edited(table.map(), all.skip(n as int)) == edited(start, all),
            start == local.map(),
        decreases edits.len() - n,
    {
        assert(all.skip(n as int)[0] == all[n as int]);
        assert(all.skip(n as int).drop_first() == all.skip(n + 1));
        match &edits[n].value {
            Some(v) => {
                match insert_path(&mut table, edits[n].key.as_str(), v.copy()) {
                    Ok(()) => {},
                    Err(e) => {
                        let mut m = quote(edits[n].key.as_str());
                        m.append(" runs through ");
                        m.append(quote(e.part.as_str()).as_str());
                        m.append(", which is not a table");
                        return Err(ConfigError::BadKey(m));
                    },
                }
            },
            None => {
                let _ = remove_path(&mut table, edits[n].key.as_str());
            },
        }
        n = n + 1;
    }
    Ok(table)
}

/// A loaded configuration, plus which keys came from the local override.
#[derive(Debug)]
pub struct Loaded {
    pub config: Config,
    /// Dotted paths present in the local override, e.g. `render.ambient`, in
    /// order. The settings page marks these and offers a reset.
    pub overridden: Vec<String>,
}

/// What comes of what the layers read as: it is taken as it is, unless it could
/// not be read or is not valid.
pub open spec fn accepts(
    r: Result<Loaded, ConfigError>,
    read: Result<Config, String>,
    bind: Option<&SocketAddress>,
    path: Seq<char>,
    overridden: Vec<String>,
) -> bool {
    match read {
        Err(e) => r matches Err(ConfigError::Parse { path: p, source }) && p@ == path && source
            == e,
        Ok(c) => match c.problem(opt_address(bind)) {
            Some(p) => r matches Err(ConfigError::Invalid(q)) && q@ == p,
            None => r matches Ok(l) && l.config == c && l.overridden == overridden,
        },
    }
}

/// Accept what the layers read as, if it is a valid configuration.
///
/// `read` is the merged tree turned into a configuration, or why it could not
/// be; `path` is the file that is blamed then.
pub fn accept(
    read: Result<Config, String>,
    bind: Option<&SocketAddress>,
    path: &str,
    overridden: Vec<String>,
) -> (r: Result<Loaded, ConfigError>)
    ensures
        accepts(r, read, bind, path@, overridden),
{
    match read {
        Err(source) => Err(ConfigError::Parse { path: path.to_owned(), source }),
        Ok(config) => match config.validate(bind) {
            Err(p) => Err(ConfigError::Invalid(p)),
            Ok(()) => Ok(Loaded { config, overridden }),
        },
    }
}

/// Written at the top of every generated override file.
pub const HEADER: &'static str = "# LP Frame local overrides.\n#\n# Written by the web interface; only settings changed from\n# /etc/lpframe/config.toml appear here. Hand edits survive, but this file is\n# rewritten whole on the next change, so comments in it will not.\n";

/// The mode the override file is created with. It also holds
/// `web.password_hash`, and a hash is worth a little less exposure than
/// nothing.
pub const LOCAL_MODE: u32 = 0o640;

/// Why an override is refused whose text does not hold it.
pub const MISWRITTEN: &'static str = "it does not read back as what was to be written";

/// What an override file holds: the header, and under it the override, unless
/// there is nothing left in it.
pub open spec fn file_text(table: Tree, body: Result<String, String>) -> Result<
    Seq<char>,
    Seq<char>,
> {
    if table == Tree::Table(Map::empty()) {
        Ok(HEADER@)
    } else {
        match body {
            Err(why) => Err(why@),
            Ok(b) => Ok(HEADER@ + "\n"@ + b@),
        }
    }
}

/// A change to the override that may be written: the file's new contents, and
/// the configuration as it will then read.
#[derive(Debug)]
pub struct Commit {
    pub text: String,
    pub loaded: Loaded,
}

/// What comes of a change to the override, of what the two files then read as,
/// and of how the override is written out.
pub open spec fn commits(
    r: Result<Commit, ConfigError>,
    table: Tree,
    read: Result<Config, String>,
    bind: Option<&SocketAddress>,
    body: Result<String, String>,
    path: Seq<char>,
) -> bool {
    match read {
        Err(e) => r matches Err(ConfigError::Parse { path: p, source }) && p@ == path && source
            == e,
        Ok(c) => match c.problem(opt_address(bind)) {
            Some(p) => r matches Err(ConfigError::Invalid(q)) && q@ == p,
            None => match file_text(table, body) {
                Err(why) => r matches Err(ConfigError::Invalid(q)) && q@
                    == ProblemView::Unserialisable(why),
                Ok(text) => if toml_tree(text) == Ok::<Tree, Seq<char>>(table) {
                    &&& r matches Ok(done)
                    &&& done.text@ == text
                    &&& done.loaded.config == c
                    &&& texts(done.loaded.overridden@).to_set() == leaf_paths(table, Seq::empty())
                    &&& crate::strings::ascending(texts(done.loaded.overridden@))
                } else {
                    r matches Err(ConfigError::Invalid(q)) && q@ == ProblemView::Unserialisable(
                        MISWRITTEN@,
                    )
                },
            },
        },
    }
}

/// Decide whether a change to the override may be written.
///
/// The merged result is validated, not the override in isolation: the override
/// is sparse, so on its own it says nothing about whether, say,
/// `timeouts.stall` is still shorter than `timeouts.session`. Only an `Ok` is
/// ever written, so on any error the file stays exactly as it was.
///
/// `read` is the merged tree turned into a configuration, and `body` the
/// override written out, each or why it could not be. What is to be written is
/// read once more here, so that the file holds the override and nothing else.
pub fn commit(
    table: &Node,
    read: Result<Config, String>,
    bind: Option<&SocketAddress>,
    body: Result<String, String>,
    path: &str,
) -> (r: Result<Commit, ConfigError>)
    ensures
        commits(r, table.tree(), read, bind, body, path@),
        r matches Ok(done) ==> toml_tree(done.text@) == Ok::<Tree, Seq<char>>(table.tree()),
{
    proof {
        reveal_strlit("");
        assert(""@ == Seq::<char>::empty());
    }
    let overridden = collect_paths(table, "");
    let loaded = match accept(read, bind, path, overridden) {
        Ok(l) => l,
        Err(e) => {
            return Err(e);
        },
    };
    let empty: bool = match table {
        Node::Table(t) => t.is_empty(),
        _ => false,
    };
    let text: String = if empty {
        HEADER.to_owned()
    } else {
        match body {
            Err(why) => {
                return Err(ConfigError::Invalid(Problem::Unserialisable(why)));
            },
            Ok(b) => {
                let mut text = concat(HEADER, "\n");
                text.append(b.as_str());
                text
            },
        }
    };
    let faithful: bool = match read_value(text.as_str()) {
        Ok(v) => v.same_tree(table),
        Err(_) => false,
    };
    if faithful {
        Ok(Commit { text, loaded })
    } else {
        Err(ConfigError::Invalid(Problem::Unserialisable(MISWRITTEN.to_owned())))
    }
}

// --- laws -----------------------------------------------------------------

/// The default configuration is valid, whatever address its bind reads as.
pub proof fn defaults_are_valid(c: Config, bind: AddressView)
    requires
        call_ensures(Config::default, (), c),
    ensures
        c.problem(Some(bind)) is None,
{
    assert(call_ensures(Display::default, (), c.display));
    assert(call_ensures(Render::default, (), c.render));
    assert(call_ensures(Timeouts::default, (), c.timeouts));
    assert(call_ensures(DisplayPower::default, (), c.power.display));
    assert(call_ensures(Ipc::default, (), c.ipc));
    assert(call_ensures(Enrichment::default, (), c.enrichment));
    assert(call_ensures(Web::default, (), c.web));
    let sources = texts(c.enrichment.sources@);
    assert(sources == seq!["itunes"@]);
    assert(sources.drop_first() == Seq::<Seq<char>>::empty());
    assert(first_unknown(sources.drop_first()) is None);
    assert(first_unknown(sources) is None);
    reveal_strlit("itunes");
    reveal_strlit("musicbrainz");
    assert("itunes"@.len() != "musicbrainz"@.len());
    assert(!sources.contains("musicbrainz"@));
}

/// In a valid configuration the paused state can be reached, the ambient
/// picture comes before the blank one, and nobody is let in unasked.
pub proof fn valid_configurations_behave(c: Config, bind: Option<AddressView>)
    requires
        c.problem(bind) is None,
    ensures
        c.timeouts.stall.0 < c.timeouts.session.0,
        c.power.display.ambient_after.0 matches Some(a) ==> a.0 < c.power.display.blank_after.0,
        c.ipc.art_retain >= 2,
        c.web.enabled ==> bind is Some && (bind->0.loopback || c.web.auth
            || c.web.insecure_no_auth),
{
}

/// A run of digits is as long as its number.
proof fn digits_len_of_digits(d: Seq<char>, rest: Seq<char>)
    requires
        all_digits(d),
        rest.len() == 0 || !is_digit(rest[0]),
    ensures
        digits_len(d + rest) == d.len(),
    decreases d.len(),
{
    if d.len() > 0 {
        assert(is_digit(d[0]));
        assert((d + rest).drop_first() == d.drop_first() + rest);
        assert(all_digits(d.drop_first()));
        digits_len_of_digits(d.drop_first(), rest);
    } else {
        assert(d + rest == rest);
    }
}

proof fn whole_bytes_parse(n: nat, unit: Seq<char>, u: nat)
    requires
        unit == "GiB"@ && u == GIB || unit == "MiB"@ && u == MIB || unit == "KiB"@ && u == KIB
            || unit.len() == 0 && u == 1,
        n * u <= u64::MAX,
    ensures
        parsed_bytes(decimal(n) + unit) == Ok::<u64, Seq<char>>((n * u) as u64),
{
    reveal_strlit("GiB");
    reveal_strlit("MiB");
    reveal_strlit("KiB");
    reveal_strlit("gib");
    reveal_strlit("mib");
    reveal_strlit("kib");
    reveal_strlit("");
    reveal_strlit("b");
    reveal_strlit("k");
    reveal_strlit("m");
    reveal_strlit("g");
    let d = decimal(n);
    let t = d + unit;
    crate::strings::decimal_round_trip(n);
    assert(is_digit(d[0]));
    assert(is_digit(d.last()));
    assert(t.last() == if unit.len() == 0 {
        d.last()
    } else {
        unit.last()
    });
    assert(trimmed(t) == t);
    digits_len_of_digits(d, unit);
    assert(t.take(d.len() as int) == d);
    assert(t.skip(d.len() as int) == unit);
    assert(trimmed(unit) == unit);
    assert(n <= n * u) by (nonlinear_arith)
        requires
            u >= 1,
    ;
    let low = ascii_lower(unit);
    if unit == "GiB"@ {
        assert(low == "gib"@);
        assert(low[0] != "mib"@[0] && low[0] != "kib"@[0]);
    } else if unit == "MiB"@ {
        assert(low == "mib"@);
        assert(low[0] != "kib"@[0]);
    } else if unit == "KiB"@ {
        assert(low == "kib"@);
    } else {
        assert(low == ""@);
    }
}

/// Reading back a written byte count gives the count that was written.
pub proof fn byte_size_round_trip(b: ByteSize)
    ensures
        parsed_bytes(b.text()) == Ok::<u64, Seq<char>>(b.0),
{
    let n = b.0 as nat;
    if n >= GIB && n % (GIB as nat) == 0 {
        whole_bytes_parse(n / (GIB as nat), "GiB"@, GIB as nat);
    } else if n >= MIB && n % (MIB as nat) == 0 {
        whole_bytes_parse(n / (MIB as nat), "MiB"@, MIB as nat);
    } else if n >= KIB && n % (KIB as nat) == 0 {
        whole_bytes_parse(n / (KIB as nat), "KiB"@, KIB as nat);
    } else {
        assert(decimal(n) + Seq::<char>::empty() == decimal(n));
        whole_bytes_parse(n, Seq::empty(), 1);
    }
}

/// A configuration is accepted if and only if each of its parts is in order: a
/// panel is turned by quarters; the margin is at most 45 percent and each dimming
/// between nothing and everything; playback stalls before the session ends, and
/// the ambient picture comes before the blank one; a reader's file outlives the
/// next picture; every catalogue is known, and MusicBrainz is told whom to
/// contact; and the web interface has an address, and lets nobody in from the
/// network unasked unless told to.
pub proof fn configurations_are_judged_by_their_parts(c: Config, bind: Option<AddressView>)
    ensures
        c.problem(bind) is None <==> {
            let sources = texts(c.enrichment.sources@);
            let r = c.display.rotation;
            &&& r == 0 || r == 90 || r == 180 || r == 270
            &&& c.display.margin_percent.bits <= 0x4234_0000 || c.display.margin_percent.bits
                == 0x8000_0000
            &&& c.render.background_dim.bits <= 0x3f80_0000 || c.render.background_dim.bits
                == 0x8000_0000
            &&& c.render.ambient_dim.bits <= 0x3f80_0000 || c.render.ambient_dim.bits == 0x8000_0000
            &&& c.timeouts.stall.0 < c.timeouts.session.0
            &&& c.power.display.ambient_after.0 matches Some(a) ==> a.0
                < c.power.display.blank_after.0
            &&& c.ipc.art_retain >= 2
            &&& c.enrichment.enabled ==> {
                &&& forall|i: int|
                    0 <= i < sources.len() ==> #[trigger] sources[i] == "itunes"@ || sources[i]
                        == "musicbrainz"@
                &&& (exists|i: int| 0 <= i < sources.len() && #[trigger] sources[i]
                    == "musicbrainz"@) ==> trimmed(c.enrichment.contact@).len() > 0
            }
            &&& c.web.enabled ==> bind is Some && (bind->0.loopback || c.web.auth
                || c.web.insecure_no_auth)
        },
{
    all_are_known(texts(c.enrichment.sources@));
}

proof fn all_are_known(sources: Seq<Seq<char>>)
    ensures
        first_unknown(sources) is None <==> forall|i: int|
            0 <= i < sources.len() ==> #[trigger] sources[i] == "itunes"@ || sources[i]
                == "musicbrainz"@,
    decreases sources.len(),
{
    if sources.len() > 0 {
        let rest = sources.drop_first();
        all_are_known(rest);
        assert forall|i: int| 0 <= i < rest.len() implies #[trigger] rest[i] == sources[i + 1] by {}
        if first_unknown(sources) is None {
            assert forall|i: int| 0 <= i < sources.len() implies #[trigger] sources[i] == "itunes"@
                || sources[i] == "musicbrainz"@ by {
                if i > 0 {
                    assert(rest[i - 1] == sources[i]);
                }
            }
        }
    }
}

} // verus!
