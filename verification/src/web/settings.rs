//! The settings half of the interface: reading, writing and reverting
//! configuration.

use vstd::prelude::*;

use crate::config::{changes, edited, Edit};
use crate::overrides::{edits_are_undone_together, untouched};
use crate::strings::{
    ascending, before, begins_with, concat, is_before, order_is_total, order_is_transitive, same,
    stands_at, texts, to_chars, trim, trimmed,
};
use crate::value::{apart, get_path, inserted, removed, segments, value_at, Node, Table, Tree};

verus! {

broadcast use {vstd::seq::group_seq_axioms, vstd::map::group_map_axioms};

/// The one setting the interface neither reads out nor accepts.
///
/// The password hash is a setting as far as the schema is concerned. Handing
/// it to a browser would turn one authenticated session into an offline
/// cracking target that outlives the password change, and accepting one from
/// a browser would be a way to install a password nobody typed.
pub const SECRET_KEY: &'static str = "web.password_hash";

/// Changes that can leave a headless device showing nothing.
pub const CONFIRM_MODE: &'static str = "display.mode";

pub const CONFIRM_ROTATION: &'static str = "display.rotation";

/// How long a display change waits to be confirmed before it is undone, in
/// milliseconds.
pub const CONFIRM_WINDOW_MS: u64 = 15_000;

pub const RENDERER_UNIT: &'static str = "lpframe-lprender";

pub const DAEMON_UNIT: &'static str = "lpframe-artd";

/// What is there if systemd is running this device.
///
/// It is the only check that distinguishes a device systemd is running from a
/// container that merely has `systemctl` installed. Getting this wrong means
/// offering a restart button that cannot work.
pub const SYSTEMD_MARK: &'static str = "/run/systemd/system";

/// Whether a path is one the interface refuses to read out or write.
pub fn is_secret(key: &str) -> (r: bool)
    ensures
        r == (key@ == SECRET_KEY@),
{
    same(key, SECRET_KEY)
}

// --- tiers ----------------------------------------------------------------

/// What a setting needs before it takes effect.
#[derive(Debug, Clone, Copy, PartialEq, Eq, Structural)]
pub enum Tier {
    /// The daemon re-reads it on every evaluation; the change is already live.
    Live,
    /// The renderer reads its own copy of the config at startup.
    Renderer,
    /// The daemon opened something at startup that it cannot reopen in place.
    Daemon,
}

impl Tier {
    /// Its name.
    pub open spec fn name(self) -> Seq<char> {
        match self {
            Tier::Live => "live"@,
            Tier::Renderer => "renderer"@,
            Tier::Daemon => "daemon"@,
        }
    }

    pub fn as_str(self) -> (r: &'static str)
        ensures
            r@ == self.name(),
    {
        match self {
            Tier::Live => "live",
            Tier::Renderer => "renderer",
            Tier::Daemon => "daemon",
        }
    }
}

/// Whether a setting describes the amplifier's line itself, which is requested
/// once when the daemon starts.
pub open spec fn of_the_line(key: Seq<char>) -> bool {
    key == "power.amp.gpio_chip"@ || key == "power.amp.gpio_line"@ || key
        == "power.amp.active_low"@
}

/// Which restart a key needs.
pub open spec fn tier_of(key: Seq<char>) -> Tier {
    if begins_with(key, "timeouts."@) || begins_with(key, "power.display."@) {
        Tier::Live
    } else if of_the_line(key) {
        Tier::Daemon
    } else if begins_with(key, "power.amp."@) {
        Tier::Live
    } else if begins_with(key, "display."@) || begins_with(key, "render."@) {
        Tier::Renderer
    } else {
        Tier::Daemon
    }
}

fn starts_with(s: &Vec<char>, p: &str) -> (r: bool)
    ensures
        r == begins_with(s@, p@),
{
    stands_at(s, &to_chars(p), 0)
}

/// Which restart, if any, a key needs.
///
/// The render settings are not live: the renderer loads the configuration once
/// at startup and nothing in the snapshot protocol carries render policy.
/// Enrichment is the same story for a different reason: the pipeline owns an
/// open cache, and rebuilding it under a running daemon would leave the old
/// one sweeping the same database.
pub fn tier(key: &str) -> (r: Tier)
    ensures
        r == tier_of(key@),
{
    let c = to_chars(key);
    if starts_with(&c, "timeouts.") || starts_with(&c, "power.display.") {
        Tier::Live
    } else if same(key, "power.amp.gpio_chip") || same(key, "power.amp.gpio_line") || same(
        key,
        "power.amp.active_low",
    ) {
        Tier::Daemon
    } else if starts_with(&c, "power.amp.") {
        Tier::Live
    } else if starts_with(&c, "display.") || starts_with(&c, "render.") {
        Tier::Renderer
    } else {
        Tier::Daemon
    }
}

// --- what the page shows --------------------------------------------------

/// Texts as values.
pub open spec fn literals(s: Seq<&'static str>) -> Seq<Seq<char>> {
    s.map_values(|x: &'static str| x@)
}

/// The permitted values of a setting, where there is a fixed set.
pub open spec fn permitted(key: Seq<char>) -> Option<Seq<Seq<char>>> {
    if key == "display.rotation"@ {
        Some(seq!["0"@, "90"@, "180"@, "270"@])
    } else if key == "enrichment.strictness"@ {
        Some(seq!["off"@, "text_only"@, "text_and_visual"@, "strict"@])
    } else if key == "logging.level"@ {
        Some(seq!["error"@, "warn"@, "info"@, "debug"@, "trace"@])
    } else if key == "power.amp.on_event"@ {
        Some(seq!["session_begin"@, "play_begin"@])
    } else if key == "render.background"@ {
        Some(seq!["black"@, "blur"@, "dominant"@, "gradient"@])
    } else if key == "render.fit"@ {
        Some(seq!["cover"@, "contain"@])
    } else {
        None
    }
}

/// The permitted values of a setting, where there is a fixed set.
///
/// Only a hint for the interface: the schema is what actually rejects a bad
/// value, on the way in and again on reload.
pub fn choices(key: &str) -> (r: Option<Vec<&'static str>>)
    ensures
        match r {
            Some(v) => permitted(key@) == Some(literals(v@)),
            None => permitted(key@) is None,
        },
{
    let v: Vec<&'static str> = if same(key, "display.rotation") {
        vec!["0", "90", "180", "270"]
    } else if same(key, "enrichment.strictness") {
        vec!["off", "text_only", "text_and_visual", "strict"]
    } else if same(key, "logging.level") {
        vec!["error", "warn", "info", "debug", "trace"]
    } else if same(key, "power.amp.on_event") {
        vec!["session_begin", "play_begin"]
    } else if same(key, "render.background") {
        vec!["black", "blur", "dominant", "gradient"]
    } else if same(key, "render.fit") {
        vec!["cover", "contain"]
    } else {
        return None;
    };
    assert(permitted(key@) is Some);
    assert(permitted(key@)->0 == literals(v@));
    Some(v)
}

/// The explanation of a setting, where the name is not enough on its own.
pub open spec fn explanation(key: Seq<char>) -> Option<Seq<char>> {
    if key == "display.margin_percent"@ {
        Some("Inset, for televisions that overscan."@)
    } else if key == "display.mode"@ {
        Some("auto, highest, or an exact mode such as 1920x1920@60."@)
    } else if key == "enrichment.contact"@ {
        Some("An email address. Required by MusicBrainz; unused otherwise."@)
    } else if key == "enrichment.enabled"@ {
        Some(
            "Sends the artist and album name to the configured catalogues. Off leaves the device fully working, just softer-looking."@,
        )
    } else if key == "enrichment.sources"@ {
        Some("Add musicbrainz only alongside a contact address."@)
    } else if key == "ipc.art_retain"@ {
        Some("Artwork revisions kept, so a reader mid-decode keeps its file."@)
    } else if key == "power.amp.on_event"@ {
        Some("session_begin fires once per listening session; play_begin fires per track."@)
    } else if key == "power.amp.pulse"@ {
        Some("0ms holds the line; anything longer emits a momentary pulse."@)
    } else if key == "power.display.ambient_after"@ {
        Some("\"off\", or a delay before the blurred idle view."@)
    } else if key == "render.background"@ {
        Some("What fills a non-square panel outside the artwork."@)
    } else if key == "render.square"@ {
        Some("Off drops the 1:1 constraint and fills the panel."@)
    } else if key == "timeouts.stall"@ {
        Some("Must stay shorter than timeouts.session."@)
    } else if key == "web.bind"@ {
        Some("0.0.0.0:8730 for the network, 127.0.0.1:8730 for this device only."@)
    } else if key == "web.insecure_no_auth"@ {
        Some(
            "Allows a network bind with authentication off. Only for a device behind something else that authenticates."@,
        )
    } else if key == "web.mdns"@ {
        Some("Advertises an _http._tcp record over Avahi. The hostname resolves either way."@)
    } else {
        None
    }
}

/// A one-line explanation for the settings page, where the name is not enough
/// on its own.
pub fn hint(key: &str) -> (r: Option<&'static str>)
    ensures
        match r {
            Some(h) => explanation(key@) == Some(h@),
            None => explanation(key@) is None,
        },
{
    if same(key, "display.margin_percent") {
        Some("Inset, for televisions that overscan.")
    } else if same(key, "display.mode") {
        Some("auto, highest, or an exact mode such as 1920x1920@60.")
    } else if same(key, "enrichment.contact") {
        Some("An email address. Required by MusicBrainz; unused otherwise.")
    } else if same(key, "enrichment.enabled") {
        Some(
            "Sends the artist and album name to the configured catalogues. Off leaves the device fully working, just softer-looking.",
        )
    } else if same(key, "enrichment.sources") {
        Some("Add musicbrainz only alongside a contact address.")
    } else if same(key, "ipc.art_retain") {
        Some("Artwork revisions kept, so a reader mid-decode keeps its file.")
    } else if same(key, "power.amp.on_event") {
        Some("session_begin fires once per listening session; play_begin fires per track.")
    } else if same(key, "power.amp.pulse") {
        Some("0ms holds the line; anything longer emits a momentary pulse.")
    } else if same(key, "power.display.ambient_after") {
        Some("\"off\", or a delay before the blurred idle view.")
    } else if same(key, "render.background") {
        Some("What fills a non-square panel outside the artwork.")
    } else if same(key, "render.square") {
        Some("Off drops the 1:1 constraint and fills the panel.")
    } else if same(key, "timeouts.stall") {
        Some("Must stay shorter than timeouts.session.")
    } else if same(key, "web.bind") {
        Some("0.0.0.0:8730 for the network, 127.0.0.1:8730 for this device only.")
    } else if same(key, "web.insecure_no_auth") {
        Some(
            "Allows a network bind with authentication off. Only for a device behind something else that authenticates.",
        )
    } else if same(key, "web.mdns") {
        Some("Advertises an _http._tcp record over Avahi. The hostname resolves either way.")
    } else {
        None
    }
}

// --- values from and for a browser ----------------------------------------

/// A value of the browser's kind.
#[derive(Debug, PartialEq)]
pub enum Json {
    Null,
    Bool(bool),
    /// A number: as an integer if it is one that fits, and as the bits of a
    /// double-precision number if it has any.
    Number { whole: Option<i64>, bits: Option<u64> },
    Str(String),
    Array(Vec<Json>),
    Object(Vec<Member>),
}

/// One member of an object.
#[derive(Debug, PartialEq)]
pub struct Member {
    pub key: String,
    pub value: Json,
}

/// A [`Json`] as a mathematical tree.
pub enum JsonTree {
    Null,
    Bool(bool),
    Number { whole: Option<i64>, bits: Option<u64> },
    Str(Seq<char>),
    Array(Seq<JsonTree>),
    Object(Map<Seq<char>, JsonTree>),
}

/// The values of an array, as trees.
pub open spec fn json_trees(s: Seq<Json>) -> Seq<JsonTree>
    decreases s,
{
    if s.len() == 0 {
        Seq::empty()
    } else {
        json_trees(s.drop_last()).push(s.last().tree())
    }
}

/// The members of an object, as a map.
pub open spec fn member_map(s: Seq<Member>) -> Map<Seq<char>, JsonTree>
    decreases s,
{
    if s.len() == 0 {
        Map::empty()
    } else {
        member_map(s.drop_last()).insert(s.last().key@, s.last().value.tree())
    }
}

impl Json {
    /// The value as a mathematical tree.
    pub open spec fn tree(self) -> JsonTree
        decreases self,
    {
        match self {
            Json::Null => JsonTree::Null,
            Json::Bool(b) => JsonTree::Bool(b),
            Json::Number { whole, bits } => JsonTree::Number { whole, bits },
            Json::Str(s) => JsonTree::Str(s@),
            Json::Array(v) => JsonTree::Array(json_trees(v@)),
            Json::Object(m) => JsonTree::Object(member_map(m@)),
        }
    }
}

/// The setting that a browser's value stands for. Objects and nulls stand for
/// none: the interface takes dotted paths, so a nested object would be a
/// client sending something that is not meant here, and guessing at it is how
/// a typo becomes a silent no-op.
pub open spec fn as_setting(j: JsonTree) -> Option<Tree>
    decreases j,
{
    match j {
        JsonTree::Bool(b) => Some(Tree::Bool(b)),
        JsonTree::Str(s) => Some(Tree::Str(s)),
        JsonTree::Number { whole, bits } => match (whole, bits) {
            (Some(i), _) => Some(Tree::Int(i)),
            (None, Some(f)) => Some(Tree::Float(f)),
            (None, None) => None,
        },
        JsonTree::Array(items) => match as_settings(items) {
            Some(v) => Some(Tree::Array(v)),
            None => None,
        },
        JsonTree::Null | JsonTree::Object(_) => None,
    }
}

/// The settings that several values stand for, if all of them do.
pub open spec fn as_settings(items: Seq<JsonTree>) -> Option<Seq<Tree>>
    decreases items,
{
    if items.len() == 0 {
        Some(Seq::empty())
    } else {
        match (as_settings(items.drop_last()), as_setting(items.last())) {
            (Some(v), Some(t)) => Some(v.push(t)),
            _ => None,
        }
    }
}

proof fn one_bad_item(items: Seq<JsonTree>, i: int)
    requires
        0 <= i < items.len(),
        as_setting(items[i]) is None,
    ensures
        as_settings(items) is None,
    decreases items.len(),
{
    if i < items.len() - 1 {
        one_bad_item(items.drop_last(), i);
    }
}

proof fn json_trees_index(s: Seq<Json>, i: int)
    requires
        0 <= i < s.len(),
    ensures
        json_trees(s).len() == s.len(),
        json_trees(s)[i] == s[i].tree(),
        json_trees(s.take(i + 1)) == json_trees(s.take(i)).push(s[i].tree()),
        json_trees(s.take(i)) == json_trees(s).take(i),
    decreases s.len(),
{
    assert(s.take(i + 1).drop_last() == s.take(i));
    if i < s.len() - 1 {
        json_trees_index(s.drop_last(), i);
        assert(s.drop_last().take(i) == s.take(i));
        assert(json_trees(s).take(i) == json_trees(s.drop_last()).take(i));
    } else {
        if s.len() > 1 {
            json_trees_index(s.drop_last(), 0);
        }
        assert(s.take(i) == s.drop_last());
        assert(json_trees(s).take(i) == json_trees(s.drop_last()));
    }
}

fn json_items_to_toml(v: &Vec<Json>) -> (r: Option<Vec<Node>>)
    ensures
        match r {
            Some(out) => as_settings(json_trees(v@)) == Some(crate::value::trees(out@)),
            None => as_settings(json_trees(v@)) is None,
        },
    decreases v@,
{
    let ghost all = json_trees(v@);
    let mut out: Vec<Node> = Vec::new();
    let mut i: usize = 0;
    assert(json_trees(v@.take(0)) == Seq::<JsonTree>::empty());
    assert(crate::value::trees(out@) == Seq::<Tree>::empty());
    while i < v.len()
        invariant
            i <= v@.len(),
            all == json_trees(v@),
            as_settings(json_trees(v@.take(i as int))) == Some(crate::value::trees(out@)),
        decreases v.len() - i,
    {
        proof {
            json_trees_index(v@, i as int);
        }
        assert(decreases_to!(v@ => v@[i as int]));
        match json_to_toml(&v[i]) {
            Some(x) => {
                let ghost before_push = out@;
                let ghost before_items = json_trees(v@.take(i as int));
                out.push(x);
                assert(out@.drop_last() == before_push);
                assert(before_items.push(all[i as int]).drop_last() == before_items);
            },
            None => {
                proof {
                    one_bad_item(all, i as int);
                }
                return None;
            },
        }
        i = i + 1;
    }
    assert(v@.take(v.len() as int) == v@);
    Some(out)
}

/// Convert a value from the browser into what the configuration speaks.
pub fn json_to_toml(v: &Json) -> (r: Option<Node>)
    ensures
        match r {
            Some(x) => as_setting(v.tree()) == Some(x.tree()),
            None => as_setting(v.tree()) is None,
        },
    decreases *v,
{
    match v {
        Json::Bool(b) => Some(Node::Bool(*b)),
        Json::Str(s) => Some(Node::Str(s.clone())),
        Json::Number { whole, bits } => match (*whole, *bits) {
            (Some(i), _) => Some(Node::Int(i)),
            (None, Some(f)) => Some(Node::Float(f)),
            (None, None) => None,
        },
        Json::Array(items) => match json_items_to_toml(items) {
            Some(x) => Some(Node::Array(x)),
            None => None,
        },
        Json::Null | Json::Object(_) => None,
    }
}

/// Whether the bits of a double-precision number stand for a finite one.
pub open spec fn finite_double(bits: u64) -> bool {
    (bits as int / 0x10_0000_0000_0000) % 2048 != 2047
}

/// The browser's value for a setting. A number that is not finite has none.
pub open spec fn for_browser(t: Tree) -> JsonTree
    decreases t,
{
    match t {
        Tree::Str(s) => JsonTree::Str(s),
        Tree::Int(i) => JsonTree::Number { whole: Some(i), bits: None },
        Tree::Float(f) => if finite_double(f) {
            JsonTree::Number { whole: None, bits: Some(f) }
        } else {
            JsonTree::Null
        },
        Tree::Bool(b) => JsonTree::Bool(b),
        Tree::Datetime(s) => JsonTree::Str(s),
        Tree::Array(items) => JsonTree::Array(for_browsers(items)),
        Tree::Table(m) => JsonTree::Object(
            Map::new(
                |k: Seq<char>| m.dom().contains(k),
                |k: Seq<char>|
                    if m.dom().contains(k) {
                        for_browser(m[k])
                    } else {
                        JsonTree::Null
                    },
            ),
        ),
    }
}

/// The browser's values for several settings.
pub open spec fn for_browsers(items: Seq<Tree>) -> Seq<JsonTree>
    decreases items,
{
    if items.len() == 0 {
        Seq::empty()
    } else {
        for_browsers(items.drop_last()).push(for_browser(items.last()))
    }
}

fn values_to_json(v: &Vec<Node>) -> (r: Vec<Json>)
    ensures
        json_trees(r@) == for_browsers(crate::value::trees(v@)),
    decreases v@,
{
    let mut out: Vec<Json> = Vec::new();
    let mut i: usize = 0;
    assert(crate::value::trees(v@.take(0)) == Seq::<Tree>::empty());
    assert(json_trees(out@) == Seq::<JsonTree>::empty());
    while i < v.len()
        invariant
            i <= v@.len(),
            json_trees(out@) == for_browsers(crate::value::trees(v@.take(i as int))),
        decreases v.len() - i,
    {
        assert(decreases_to!(v@ => v@[i as int]));
        let x = toml_to_json(&v[i]);
        let ghost before_push = out@;
        out.push(x);
        proof {
            assert(out@.drop_last() == before_push);
            let head = v@.take(i as int);
            assert(v@.take(i + 1).drop_last() == head);
            let t = crate::value::trees(head);
            assert(t.push(v@[i as int].tree()).drop_last() == t);
        }
        i = i + 1;
    }
    assert(v@.take(v.len() as int) == v@);
    out
}

fn table_to_json(t: &Table) -> (r: Vec<Member>)
    ensures
        JsonTree::Object(member_map(r@)) == for_browser(Tree::Table(t.map())),
    decreases *t,
{
    let mut out: Vec<Member> = Vec::new();
    let n: usize = t.len();
    let mut i: usize = 0;
    assert(member_map(out@) == Map::<Seq<char>, JsonTree>::empty());
    while i < n
        invariant
            i <= n,
            n == t.order().len(),
            forall|j: int|
                0 <= j < i ==> member_map(out@).dom().contains(#[trigger] t.order()[j])
                    && member_map(out@)[t.order()[j]] == for_browser(t.map()[t.order()[j]]),
            forall|k: Seq<char>| #[trigger]
                member_map(out@).dom().contains(k) ==> t.map().dom().contains(k),
            t.order().no_duplicates(),
        decreases n - i,
    {
        let e = t.entry(i);
        let value = toml_to_json(&e.value);
        let ghost before_push = out@;
        out.push(Member { key: e.key.clone(), value });
        assert(out@.drop_last() == before_push);
        i = i + 1;
    }
    let ghost want = for_browser(Tree::Table(t.map()))->Object_0;
    proof {
        assert forall|k: Seq<char>| #[trigger] t.map().dom().contains(k) implies member_map(
            out@,
        ).dom().contains(k) && member_map(out@)[k] == for_browser(t.map()[k]) by {
            let j = choose|j: int| 0 <= j < t.order().len() && t.order()[j] == k;
            assert(t.order()[j] == k);
        }
        assert(member_map(out@) =~= want);
    }
    out
}

/// Convert a setting into the browser's kind of value.
pub fn toml_to_json(v: &Node) -> (r: Json)
    ensures
        r.tree() == for_browser(v.tree()),
    decreases *v,
{
    match v {
        Node::Str(s) => Json::Str(s.clone()),
        Node::Int(i) => Json::Number { whole: Some(*i), bits: None },
        Node::Float(f) => if (*f / 0x10_0000_0000_0000) % 2048 != 2047 {
            Json::Number { whole: None, bits: Some(*f) }
        } else {
            Json::Null
        },
        Node::Bool(b) => Json::Bool(*b),
        Node::Datetime(s) => Json::Str(s.clone()),
        Node::Array(items) => Json::Array(values_to_json(items)),
        Node::Table(t) => Json::Object(table_to_json(t)),
    }
}

// --- confirm or revert ----------------------------------------------------

/// What an override said about a key, or nothing.
pub open spec fn said(value: Option<Node>) -> Option<Tree> {
    match value {
        Some(v) => Some(v.tree()),
        None => None,
    }
}

/// The keys of some changes.
pub open spec fn keys(e: Seq<Edit>) -> Seq<Seq<char>> {
    e.map_values(|x: Edit| x.key@)
}

/// Some changes as a map from key to what is put back.
pub closed spec fn undo_map(e: Seq<Edit>) -> Map<Seq<char>, Option<Tree>> {
    Map::new(
        |k: Seq<char>| keys(e).contains(k),
        |k: Seq<char>| said(e[choose|i: int| is_at(e, k, i)].value),
    )
}

spec fn is_at(e: Seq<Edit>, k: Seq<char>, i: int) -> bool {
    0 <= i < e.len() && e[i].key@ == k
}

proof fn undo_holds(e: Seq<Edit>, i: int)
    requires
        ascending(keys(e)),
        0 <= i < e.len(),
    ensures
        undo_map(e).contains_key(e[i].key@),
        undo_map(e)[e[i].key@] == said(e[i].value),
{
    assert(keys(e)[i] == e[i].key@);
    assert(is_at(e, e[i].key@, i));
    let j = choose|j: int| is_at(e, e[i].key@, j);
    assert(keys(e)[j] == keys(e)[i]);
    order_is_total(keys(e)[i], keys(e)[j]);
}

proof fn undo_finds(e: Seq<Edit>, k: Seq<char>) -> (i: int)
    requires
        undo_map(e).contains_key(k),
    ensures
        0 <= i < e.len(),
        e[i].key@ == k,
{
    let i = choose|i: int| 0 <= i < keys(e).len() && keys(e)[i] == k;
    i
}

proof fn undo_is_empty(e: Seq<Edit>)
    requires
        e.len() == 0,
    ensures
        undo_map(e) == Map::<Seq<char>, Option<Tree>>::empty(),
        ascending(keys(e)),
{
    assert forall|k: Seq<char>| !(#[trigger] undo_map(e).contains_key(k)) by {
        if undo_map(e).contains_key(k) {
            let _ = undo_finds(e, k);
        }
    }
    assert(undo_map(e) =~= Map::<Seq<char>, Option<Tree>>::empty());
}

/// Note a change under its key, in place of an earlier one.
fn put(v: &mut Vec<Edit>, key: String, value: Option<Node>)
    requires
        ascending(keys(old(v)@)),
    ensures
        ascending(keys(final(v)@)),
        undo_map(final(v)@) == undo_map(old(v)@).insert(key@, said(value)),
{
    let ghost e = v@;
    let ghost k = key@;
    let ghost x = said(value);
    let mut i: usize = 0;
    while i < v.len() && is_before(v[i].key.as_str(), key.as_str())
        invariant
            i <= v@.len(),
            v@ == e,
            k == key@,
            forall|j: int| 0 <= j < i ==> before(#[trigger] keys(e)[j], k),
        decreases v.len() - i,
    {
        assert(keys(e)[i as int] == v@[i as int].key@);
        i = i + 1;
    }
    let mut there: bool = false;
    if i < v.len() {
        there = same(v[i].key.as_str(), key.as_str());
        proof {
            order_is_total(e[i as int].key@, k);
            assert(keys(e)[i as int] == e[i as int].key@);
        }
    }
    let change = Edit { key, value };
    if there {
        v.set(i, change);
        assert(v@ == e.update(i as int, change));
        assert(keys(v@) == keys(e));
    } else {
        v.insert(i, change);
        assert(keys(v@) == keys(e).insert(i as int, k));
    }
    proof {
        let f = v@;
        let a = keys(f);
        let b = keys(e);
        if !there {
            assert forall|p: int, q: int| 0 <= p < q < a.len() implies before(
                #[trigger] a[p],
                #[trigger] a[q],
            ) by {
                let p0 = if p < i {
                    p
                } else {
                    p - 1
                };
                let q0 = if q < i {
                    q
                } else {
                    q - 1
                };
                if p < i && q == i {
                    assert(before(b[p], k));
                } else if p == i {
                    if q0 > i {
                        order_is_transitive(k, b[i as int], b[q0]);
                    }
                } else {
                    assert(before(b[p0], b[q0]));
                }
            }
        }
        let want = undo_map(e).insert(k, x);
        assert(f[i as int] == change);
        undo_holds(f, i as int);
        assert forall|q: Seq<char>| #[trigger] undo_map(f).contains_key(q) implies
            want.contains_key(q) && undo_map(f)[q] == want[q] by {
            let n = undo_finds(f, q);
            undo_holds(f, n);
            if n != i {
                let n0 = if there || n < i {
                    n
                } else {
                    n - 1
                };
                assert(f[n] == e[n0]);
                undo_holds(e, n0);
                if q == k {
                    assert(a[n] == a[i as int]);
                    order_is_total(a[n], a[i as int]);
                }
            }
        }
        assert forall|q: Seq<char>| #[trigger] want.contains_key(q) implies undo_map(
            f,
        ).contains_key(q) by {
            if q != k {
                let n = undo_finds(e, q);
                let n0 = if there || n < i {
                    n
                } else {
                    n + 1
                };
                assert(f[n0] == e[n]);
                undo_holds(f, n0);
            }
        }
        assert(undo_map(f) =~= want);
    }
}

/// What the override says about some keys.
pub open spec fn snapshot(m: Map<Seq<char>, Tree>, wanted: Seq<Seq<char>>) -> Map<
    Seq<char>,
    Option<Tree>,
> {
    Map::new(
        |k: Seq<char>| wanted.contains(k),
        |k: Seq<char>| value_at(m, segments(k)),
    )
}

/// Record what the local override says about these keys, so the countdown has
/// something exact to put back.
pub fn snapshot_keys(table: &Table, wanted: &Vec<String>) -> (r: Vec<Edit>)
    ensures
        ascending(keys(r@)),
        undo_map(r@) == snapshot(table.map(), texts(wanted@)),
{
    let mut out: Vec<Edit> = Vec::new();
    let mut i: usize = 0;
    let ghost all = texts(wanted@);
    proof {
        undo_is_empty(out@);
        assert(snapshot(table.map(), all.take(0)) =~= Map::<Seq<char>, Option<Tree>>::empty());
    }
    while i < wanted.len()
        invariant
            i <= wanted@.len(),
            all == texts(wanted@),
            ascending(keys(out@)),
            undo_map(out@) == snapshot(table.map(), all.take(i as int)),
        decreases wanted.len() - i,
    {
        let value: Option<Node> = match get_path(table, wanted[i].as_str()) {
            Some(v) => Some(v.copy()),
            None => None,
        };
        let ghost before_put = undo_map(out@);
        put(&mut out, wanted[i].clone(), value);
        proof {
            let k = all[i as int];
            assert(k == wanted@[i as int]@);
            let now = snapshot(table.map(), all.take(i + 1));
            assert(all.take(i + 1) == all.take(i as int).push(k));
            let grown = before_put.insert(k, value_at(table.map(), segments(k)));
            assert forall|q: Seq<char>| #[trigger] grown.contains_key(q) == now.contains_key(q) by {
                let s = all.take(i as int);
                if s.contains(q) {
                    let n = choose|n: int| 0 <= n < s.len() && s[n] == q;
                    assert(s.push(k)[n] == q);
                }
                assert(s.push(k)[s.len() as int] == k);
                if s.push(k).contains(q) && q != k {
                    let n = choose|n: int| 0 <= n < s.push(k).len() && s.push(k)[n] == q;
                    assert(s[n] == q);
                }
            }
            assert(grown =~= now);
        }
        i = i + 1;
    }
    assert(all.take(wanted.len() as int) == all);
    out
}

/// A display change waiting to be confirmed.
#[derive(Debug)]
pub struct Pending {
    id: u64,
    /// The local override entries to put back.
    undo: Vec<Edit>,
}

/// The changes that wait to be confirmed.
#[derive(Debug)]
pub struct Settings {
    pending: Option<Pending>,
    next_id: u64,
}

/// A [`Settings`] as values.
pub struct SettingsView {
    pub pending: Option<(u64, Map<Seq<char>, Option<Tree>>)>,
    pub next_id: u64,
}

impl View for Settings {
    type V = SettingsView;

    closed spec fn view(&self) -> SettingsView {
        SettingsView {
            pending: match self.pending {
                Some(p) => Some((p.id, undo_map(p.undo@))),
                None => None,
            },
            next_id: self.next_id,
        }
    }
}

impl SettingsView {
    /// A countdown is armed for some changes. When two display changes
    /// overlap, the older undo wins per key: the state worth getting back to
    /// is the one the user could still see, not the intermediate one they have
    /// already failed to confirm.
    pub open spec fn armed(self, undo: Map<Seq<char>, Option<Tree>>) -> SettingsView {
        SettingsView {
            pending: Some(
                (
                    self.next_id,
                    match self.pending {
                        Some(p) => undo.union_prefer_right(p.1),
                        None => undo,
                    },
                ),
            ),
            next_id: (self.next_id + 1) as u64,
        }
    }

    /// Whether a countdown is the one that is running.
    pub open spec fn waits_for(self, id: u64) -> bool {
        self.pending matches Some(p) && p.0 == id
    }

    /// Nothing waits any more.
    pub open spec fn disarmed(self) -> SettingsView {
        SettingsView { pending: None, ..self }
    }

    /// Whether some edits are what a countdown puts back when it runs out: the
    /// recorded values, each key once, in order.
    pub open spec fn hands_back(self, id: u64, undo: Seq<Edit>) -> bool {
        self.pending == Some((id, undo_map(undo))) && ascending(keys(undo))
    }
}

impl Settings {
    /// What is put back is listed in order, each key once, and every countdown
    /// has an earlier number than the next.
    pub closed spec fn valid(self) -> bool {
        self.pending matches Some(p) ==> ascending(keys(p.undo@)) && p.id < self.next_id
    }

    /// Nothing waits.
    pub fn new() -> (r: Settings)
        ensures
            r.valid(),
            r@ == (SettingsView { pending: None, next_id: 1 }),
    {
        Settings { pending: None, next_id: 1 }
    }

    /// Whether another countdown can be numbered.
    pub fn can_arm(&self) -> (r: bool)
        ensures
            r == (self@.next_id < u64::MAX),
    {
        self.next_id < u64::MAX
    }

    /// Arm a confirm-or-revert countdown, superseding any earlier one.
    pub fn arm(&mut self, undo: Vec<Edit>) -> (r: u64)
        requires
            old(self).valid(),
            old(self)@.next_id < u64::MAX,
            ascending(keys(undo@)),
        ensures
            final(self).valid(),
            r == old(self)@.next_id,
            final(self)@ == old(self)@.armed(undo_map(undo@)),
    {
        let ghost new = undo_map(undo@);
        let id: u64 = self.next_id;
        self.next_id = id + 1;
        let mut merged = undo;
        match self.pending.take() {
            Some(previous) => {
                let ghost older = undo_map(previous.undo@);
                let ghost e = previous.undo@;
                let mut i: usize = 0;
                while i < previous.undo.len()
                    invariant
                        i <= e.len(),
                        e == previous.undo@,
                        ascending(keys(e)),
                        older == undo_map(e),
                        ascending(keys(merged@)),
                        forall|j: int|
                            0 <= j < i ==> undo_map(merged@).contains_key(
                                (#[trigger] e[j]).key@,
                            ) && undo_map(merged@)[e[j].key@] == said(e[j].value),
                        forall|k: Seq<char>| #[trigger]
                            undo_map(merged@).contains_key(k) ==> new.contains_key(k)
                                || older.contains_key(k),
                        forall|k: Seq<char>| #[trigger]
                            new.contains_key(k) ==> undo_map(merged@).contains_key(k) && (
                            !older.contains_key(k) ==> undo_map(merged@)[k] == new[k]),
                    decreases previous.undo.len() - i,
                {
                    let value: Option<Node> = match &previous.undo[i].value {
                        Some(v) => Some(v.copy()),
                        None => None,
                    };
                    let ghost was = undo_map(merged@);
                    put(&mut merged, previous.undo[i].key.clone(), value);
                    proof {
                        undo_holds(e, i as int);
                        assert forall|j: int| 0 <= j < i implies (#[trigger] e[j]).key@
                            != e[i as int].key@ by {
                            assert(keys(e)[j] == e[j].key@);
                            assert(keys(e)[i as int] == e[i as int].key@);
                            order_is_total(keys(e)[j], keys(e)[i as int]);
                        }
                    }
                    i = i + 1;
                }
                proof {
                    let want = new.union_prefer_right(older);
                    assert forall|k: Seq<char>| #[trigger] older.contains_key(k) implies undo_map(
                        merged@,
                    ).contains_key(k) && undo_map(merged@)[k] == older[k] by {
                        let j = undo_finds(e, k);
                        undo_holds(e, j);
                    }
                    assert(undo_map(merged@) =~= want);
                }
            },
            None => {},
        }
        self.pending = Some(Pending { id, undo: merged });
        id
    }

    /// Cancel a countdown. False if it had already fired or never existed,
    /// which the caller reports rather than pretending otherwise.
    pub fn confirm(&mut self, id: u64) -> (r: bool)
        requires
            old(self).valid(),
        ensures
            final(self).valid(),
            r == old(self)@.waits_for(id),
            final(self)@ == (if r {
                old(self)@.disarmed()
            } else {
                old(self)@
            }),
    {
        let current: bool = match &self.pending {
            Some(p) => p.id == id,
            None => false,
        };
        if current {
            self.pending = None;
        }
        current
    }

    /// What undoes an unconfirmed change, or nothing if the countdown was
    /// confirmed or superseded in the meantime.
    pub fn revert(&mut self, id: u64) -> (r: Option<Vec<Edit>>)
        requires
            old(self).valid(),
        ensures
            final(self).valid(),
            match r {
                Some(undo) => {
                    &&& old(self)@.hands_back(id, undo@)
                    &&& final(self)@ == old(self)@.disarmed()
                },
                None => !old(self)@.waits_for(id) && final(self)@ == old(self)@,
            },
    {
        let current: bool = match &self.pending {
            Some(p) => p.id == id,
            None => false,
        };
        if !current {
            return None;
        }
        match self.pending.take() {
            Some(p) => Some(p.undo),
            None => None,
        }
    }
}

// --- restarting -----------------------------------------------------------

/// What came of asking systemd.
#[derive(Debug)]
pub enum Asked {
    Done,
    /// It refused, and this is what it said.
    Refused(String),
    /// There is nobody to ask.
    Missing,
    /// It could not be asked, and this is why.
    Failed(String),
}

/// Whether a unit was restarted, or what to run by hand.
///
/// Systemd is how the device ships, but the daemon runs perfectly well started
/// from a shell, in which case there is nothing to ask, and saying so is more
/// use than a spinner that never resolves.
pub fn restarted(unit: &str, asked: Asked) -> (r: Result<(), String>)
    ensures
        match asked {
            Asked::Done => r is Ok,
            Asked::Refused(said) => r matches Err(e) && e@ == "systemctl restart "@ + unit@
                + " failed: "@ + trimmed(said@),
            Asked::Missing => r matches Err(e) && e@ == "systemd is not available here, so "@
                + unit@
                + " has to be restarted the way it was started — the change is written and will be picked up then."@,
            Asked::Failed(why) => r matches Err(e) && e@ == "could not run systemctl: "@ + why@,
        },
{
    match asked {
        Asked::Done => Ok(()),
        Asked::Refused(said) => {
            let mut e = concat("systemctl restart ", unit);
            e.append(" failed: ");
            e.append(trim(said.as_str()).as_str());
            Err(e)
        },
        Asked::Missing => {
            let mut e = concat("systemd is not available here, so ", unit);
            e.append(
                " has to be restarted the way it was started — the change is written and will be picked up then.",
            );
            Err(e)
        },
        Asked::Failed(why) => Err(concat("could not run systemctl: ", why.as_str())),
    }
}

// --- laws -----------------------------------------------------------------

/// A later change supersedes an earlier countdown: the old number neither
/// confirms nor reverts anything, and for every key the state that is put back
/// is the one from before the first of the two.
pub proof fn the_older_state_is_put_back(
    s: SettingsView,
    first: Map<Seq<char>, Option<Tree>>,
    second: Map<Seq<char>, Option<Tree>>,
    key: Seq<char>,
)
    requires
        s.pending is None,
        s.next_id < u64::MAX - 1,
    ensures
        ({
            let armed = s.armed(first).armed(second);
            &&& !armed.waits_for(s.next_id)
            &&& armed.waits_for((s.next_id + 1) as u64)
            &&& armed.pending matches Some(p) && (first.contains_key(key) ==> p.1[key]
                == first[key]) && (!first.contains_key(key) && second.contains_key(key) ==> p.1[key]
                == second[key])
        }),
{
}

/// Reverting restores: putting back what the override said about a key, after
/// the key was set to something else, makes the override say the same again,
/// whether it was set before or not.
pub proof fn reverting_restores(m: Map<Seq<char>, Tree>, key: Seq<char>, new: Tree)
    requires
        inserted(m, segments(key), new) is Ok,
    ensures
        ({
            let path = segments(key);
            let changed = inserted(m, path, new)->Ok_0;
            match value_at(m, path) {
                Some(old_value) => inserted(changed, path, old_value) matches Ok(back) && value_at(
                    back,
                    path,
                ) == Some(old_value),
                None => value_at(removed(changed, path).0, path) is None,
            }
        }),
{
    let path = segments(key);
    let changed = inserted(m, path, new)->Ok_0;
    crate::value::get_after_remove(changed, path);
    if let Some(old_value) = value_at(m, path) {
        inserting_again(m, path, new, old_value);
        crate::value::get_after_insert(changed, path, old_value);
    }
}

/// Reverting puts back several keys that were changed together: what the
/// snapshot of the changed keys holds undoes a whole list of changes. The
/// override then says the same again of each of these keys, and of every other.
pub proof fn reverting_restores_together(
    m: Map<Seq<char>, Tree>,
    edits: Seq<(Seq<char>, Option<Tree>)>,
    wanted: Seq<Seq<char>>,
    undo: Seq<Edit>,
)
    requires
        edited(m, edits) is Ok,
        forall|j: int| 0 <= j < edits.len() ==> wanted.contains((#[trigger] edits[j]).0),
        forall|a: Seq<char>, b: Seq<char>|
            wanted.contains(a) && wanted.contains(b) && a != b ==> apart(
                #[trigger] segments(a),
                #[trigger] segments(b),
            ),
        ascending(keys(undo)),
        undo_map(undo) == snapshot(m, wanted),
    ensures
        ({
            let back = edited(edited(m, edits)->Ok_0, changes(undo));
            &&& back is Ok
            &&& forall|k: Seq<char>|
                wanted.contains(k) ==> #[trigger] value_at(back->Ok_0, segments(k)) == value_at(
                    m,
                    segments(k),
                )
            &&& forall|path: Seq<Seq<char>>|
                untouched(changes(undo), path) ==> #[trigger] value_at(back->Ok_0, path)
                    == value_at(m, path)
        }),
{
    let u = changes(undo);
    assert forall|i: int| 0 <= i < u.len() implies (#[trigger] u[i]).1 == value_at(
        m,
        segments(u[i].0),
    ) && wanted.contains(u[i].0) by {
        undo_holds(undo, i);
        assert(snapshot(m, wanted).contains_key(undo[i].key@));
    }
    assert forall|i: int, j: int|
        0 <= i < u.len() && 0 <= j < u.len() && i != j implies apart(
        segments((#[trigger] u[i]).0),
        segments((#[trigger] u[j]).0),
    ) by {
        assert(keys(undo)[i] == u[i].0);
        assert(keys(undo)[j] == u[j].0);
        order_is_total(u[i].0, u[j].0);
        assert(wanted.contains(u[i].0) && wanted.contains(u[j].0));
    }
    assert forall|k: Seq<char>| wanted.contains(k) implies exists|i: int|
        0 <= i < u.len() && (#[trigger] u[i]).0 == k by {
        assert(snapshot(m, wanted).contains_key(k));
        let i = undo_finds(undo, k);
        assert(u[i].0 == k);
    }
    assert forall|j: int| 0 <= j < edits.len() implies exists|i: int|
        0 <= i < u.len() && u[i].0 == (#[trigger] edits[j]).0 by {
        assert(wanted.contains(edits[j].0));
    }
    edits_are_undone_together(m, edits, u);
    let back = edited(edited(m, edits)->Ok_0, u)->Ok_0;
    assert forall|k: Seq<char>| wanted.contains(k) implies #[trigger] value_at(back, segments(k))
        == value_at(m, segments(k)) by {
        let i = choose|i: int| 0 <= i < u.len() && (#[trigger] u[i]).0 == k;
        assert(segments(u[i].0) == segments(k));
    }
}

/// A change of settings that nobody confirms is undone, and once. The keys that
/// are edited are recorded, a countdown is armed for them, and the countdown
/// runs out: what it hands back makes the override say again what it said of
/// each of these keys, and of every other. After that, or after the change was
/// confirmed, or after a newer countdown was armed, the number undoes nothing.
pub proof fn a_change_is_undone_once(
    before: SettingsView,
    m: Map<Seq<char>, Tree>,
    edits: Seq<(Seq<char>, Option<Tree>)>,
    wanted: Seq<Seq<char>>,
    undo: Seq<Edit>,
    newer: Map<Seq<char>, Option<Tree>>,
)
    requires
        before.pending is None,
        before.next_id < u64::MAX,
        edited(m, edits) is Ok,
        forall|j: int| 0 <= j < edits.len() ==> wanted.contains((#[trigger] edits[j]).0),
        forall|a: Seq<char>, b: Seq<char>|
            wanted.contains(a) && wanted.contains(b) && a != b ==> apart(
                #[trigger] segments(a),
                #[trigger] segments(b),
            ),
        before.armed(snapshot(m, wanted)).hands_back(before.next_id, undo),
    ensures
        ({
            let id = before.next_id;
            let armed = before.armed(snapshot(m, wanted));
            let back = edited(edited(m, edits)->Ok_0, changes(undo));
            &&& armed.waits_for(id)
            &&& back is Ok
            &&& forall|k: Seq<char>|
                wanted.contains(k) ==> #[trigger] value_at(back->Ok_0, segments(k)) == value_at(
                    m,
                    segments(k),
                )
            &&& forall|path: Seq<Seq<char>>|
                untouched(changes(undo), path) ==> #[trigger] value_at(back->Ok_0, path)
                    == value_at(m, path)
            &&& !armed.disarmed().waits_for(id)
            &&& armed.next_id < u64::MAX ==> !armed.armed(newer).waits_for(id)
        }),
{
    reverting_restores_together(m, edits, wanted, undo);
}

proof fn inserting_again(m: Map<Seq<char>, Tree>, path: Seq<Seq<char>>, a: Tree, b: Tree)
    requires
        inserted(m, path, a) is Ok,
    ensures
        inserted(inserted(m, path, a)->Ok_0, path, b) is Ok,
    decreases path.len(),
{
    if path.len() > 1 {
        let child = if m.dom().contains(path[0]) {
            m[path[0]]
        } else {
            Tree::Table(Map::empty())
        };
        inserting_again(child->Table_0, path.drop_first(), a, b);
    }
}

/// Where a changed setting takes effect goes by the part it belongs to: timeouts
/// and the display's power at once, what is drawn with the renderer's restart,
/// the amplifier at once but for the line it is switched by, and the rest with
/// the daemon's restart.
pub proof fn restarts_go_by_the_part(rest: Seq<char>)
    ensures
        tier_of("timeouts."@ + rest) == Tier::Live,
        tier_of("power.display."@ + rest) == Tier::Live,
        tier_of("display."@ + rest) == Tier::Renderer,
        tier_of("render."@ + rest) == Tier::Renderer,
        tier_of("enrichment."@ + rest) == Tier::Daemon,
        tier_of("web."@ + rest) == Tier::Daemon,
        tier_of("power.amp."@ + rest) == if rest == "gpio_chip"@ || rest == "gpio_line"@ || rest
            == "active_low"@ {
            Tier::Daemon
        } else {
            Tier::Live
        },
{
    reveal_strlit("timeouts.");
    reveal_strlit("power.display.");
    reveal_strlit("display.");
    reveal_strlit("render.");
    reveal_strlit("enrichment.");
    reveal_strlit("web.");
    reveal_strlit("power.amp.");
    reveal_strlit("power.amp.gpio_chip");
    reveal_strlit("power.amp.gpio_line");
    reveal_strlit("power.amp.active_low");
    reveal_strlit("gpio_chip");
    reveal_strlit("gpio_line");
    reveal_strlit("active_low");
    let heads = seq![
        "timeouts."@,
        "power.display."@,
        "display."@,
        "render."@,
        "enrichment."@,
        "web."@,
        "power.amp."@,
    ];
    assert forall|i: int| 0 <= i < heads.len() implies #[trigger] begins_with(
        heads[i] + rest,
        heads[i],
    ) by {
        assert((heads[i] + rest).subrange(0, heads[i].len() as int) == heads[i]);
    }
    assert(begins_with(heads[0] + rest, "timeouts."@));
    assert(begins_with(heads[1] + rest, "power.display."@));
    assert(begins_with(heads[2] + rest, "display."@));
    assert(begins_with(heads[3] + rest, "render."@));
    assert(begins_with(heads[6] + rest, "power.amp."@));
    assert forall|i: int, p: Seq<char>|
        0 <= i < heads.len() && p.len() > 6 && heads[i].len() > 3 && #[trigger] begins_with(
            heads[i] + rest,
            p,
        ) implies p[0] == heads[i][0] && (heads[i].len() > 6 ==> p[6] == heads[i][6]) by {
        let k = heads[i] + rest;
        assert(k.subrange(0, p.len() as int)[0] == k[0]);
        assert(k.subrange(0, p.len() as int)[6] == k[6]);
    }
    let amp = "power.amp."@ + rest;
    assert(amp.skip(10) == rest);
    if rest == "gpio_chip"@ {
        assert(amp == "power.amp.gpio_chip"@);
    }
    if rest == "gpio_line"@ {
        assert(amp == "power.amp.gpio_line"@);
    }
    if rest == "active_low"@ {
        assert(amp == "power.amp.active_low"@);
    }
    if amp == "power.amp.gpio_chip"@ {
        assert("power.amp.gpio_chip"@.skip(10) == "gpio_chip"@);
    }
    if amp == "power.amp.gpio_line"@ {
        assert("power.amp.gpio_line"@.skip(10) == "gpio_line"@);
    }
    if amp == "power.amp.active_low"@ {
        assert("power.amp.active_low"@.skip(10) == "active_low"@);
    }
    assert(("power.display."@ + rest)[6] == 'd');
}

} // verus!
