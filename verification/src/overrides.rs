//! The packaged file and the local override, from their texts: loading both,
//! and changing the override.
//!
//! A change is validated before it is written. What is proposed here is only
//! written once the merged result has turned out to be a valid configuration,
//! see [`crate::config::commit`].

use vstd::prelude::*;

use crate::config::{
    accepts, changes, check_keys, commits, edit_table, edited, first_bad_key, layer, local_table,
    not_a_setting, Commit, Config, ConfigError, Edit, Loaded, ProblemView, SocketAddress,
};
use crate::document::{read_value, toml_tree};
use crate::strings::{ascending, ascending_lists_are_their_sets, texts};
use crate::value::{
    apart, get_after_insert, get_after_remove, insert_leaves_others, inserted, leaf_at, leaf_paths,
    merge, merged, overlay_leaf_wins, remove_leaves_others, removed, segments, silent,
    untouched_leaf_survives, value_at, Node, Table, Tree,
};

verus! {

broadcast use {vstd::seq::group_seq_axioms, vstd::map::group_map_axioms};

/// What a file reads as. A file that is not there reads as nothing.
pub open spec fn file_tree(text: Option<&str>) -> Result<Option<Tree>, Seq<char>> {
    match text {
        None => Ok(None),
        Some(t) => match toml_tree(t@) {
            Ok(v) => Ok(Some(v)),
            Err(e) => Err(e),
        },
    }
}

/// What a file holds, or an empty table.
pub open spec fn tree_or_empty(t: Option<Tree>) -> Tree {
    match t {
        Some(v) => v,
        None => Tree::Table(Map::empty()),
    }
}

/// Read a file's text, if there is a file.
pub fn read_toml(text: Option<&str>, path: &str) -> (r: Result<Option<Node>, ConfigError>)
    ensures
        match file_tree(text) {
            Ok(None) => r matches Ok(None),
            Ok(Some(t)) => r matches Ok(Some(v)) && v.tree() == t,
            Err(e) => r matches Err(ConfigError::Parse { path: p, source }) && p@ == path@
                && source@ == e,
        },
{
    match text {
        None => Ok(None),
        Some(t) => match read_value(t) {
            Ok(v) => Ok(Some(v)),
            Err(source) => Err(ConfigError::Parse { path: path.to_owned(), source }),
        },
    }
}

/// The local override as a table, empty if it does not exist.
///
/// Exposed so a caller can record exactly which keys were overridden and to
/// what, and put that back later.
pub fn read_local(text: Option<&str>, path: &str) -> (r: Result<Table, ConfigError>)
    ensures
        match file_tree(text) {
            Err(e) => r matches Err(ConfigError::Parse { path: p, source }) && p@ == path@
                && source@ == e,
            Ok(t) => match tree_or_empty(t) {
                Tree::Table(m) => r matches Ok(table) && table.map() == m,
                _ => r matches Err(ConfigError::Invalid(p)) && p@ == ProblemView::NotATable(path@),
            },
        },
{
    match read_toml(text, path) {
        Ok(read) => local_table(read, path),
        Err(e) => Err(e),
    }
}

/// The two files laid over each other.
#[derive(Debug)]
pub struct Layers {
    pub merged: Node,
    /// Which keys the override holds, in order.
    pub overridden: Vec<String>,
    /// The file that is blamed if the result is no configuration.
    pub blamed: String,
}

/// What two files come to, laid over each other.
pub open spec fn loads(
    r: Result<Layers, ConfigError>,
    base: Option<&str>,
    base_path: Seq<char>,
    local: Option<&str>,
    local_path: Seq<char>,
) -> bool {
    match file_tree(base) {
        Err(e) => r matches Err(ConfigError::Parse { path, source }) && path@ == base_path
            && source@ == e,
        Ok(b) => match file_tree(local) {
            Err(e) => r matches Err(ConfigError::Parse { path, source }) && path@ == local_path
                && source@ == e,
            Ok(None) => r matches Ok(l) && l.merged.tree() == tree_or_empty(b)
                && l.overridden@.len() == 0 && l.blamed@ == base_path,
            Ok(Some(o)) => {
                &&& r matches Ok(l)
                &&& l.merged.tree() == merged(tree_or_empty(b), o)
                &&& texts(l.overridden@).to_set() == leaf_paths(o, Seq::empty())
                &&& ascending(texts(l.overridden@))
                &&& l.blamed@ == local_path
            },
        },
    }
}

/// Lay the local override over the packaged file.
///
/// A missing file is not an error at either layer: a fresh device has no local
/// overrides, and an all-defaults device needs no base file.
pub fn load(base: Option<&str>, base_path: &str, local: Option<&str>, local_path: &str) -> (r:
    Result<Layers, ConfigError>)
    ensures
        loads(r, base, base_path@, local, local_path@),
{
    let b = match read_toml(base, base_path) {
        Ok(b) => b,
        Err(e) => {
            return Err(e);
        },
    };
    let l = match read_toml(local, local_path) {
        Ok(l) => l,
        Err(e) => {
            return Err(e);
        },
    };
    let blamed = match &l {
        Some(_) => local_path.to_owned(),
        None => base_path.to_owned(),
    };
    let (whole, overridden) = layer(b, &l);
    Ok(Layers { merged: whole, overridden, blamed })
}

/// A change to the override that has yet to be validated.
#[derive(Debug)]
pub struct Proposal {
    /// The override as it would be.
    pub local: Node,
    /// What the two files would then read as.
    pub merged: Node,
}

/// What a list of changes comes to.
pub open spec fn proposes(
    r: Result<Proposal, ConfigError>,
    base: Option<&str>,
    base_path: Seq<char>,
    local: Option<&str>,
    local_path: Seq<char>,
    edits: Seq<(Seq<char>, Option<Tree>)>,
    known: Seq<Seq<char>>,
) -> bool {
    match first_bad_key(edits, known) {
        Some(key) => r matches Err(ConfigError::BadKey(m)) && m@ == not_a_setting(key),
        None => match file_tree(local) {
            Err(e) => r matches Err(ConfigError::Parse { path, source }) && path@ == local_path
                && source@ == e,
            Ok(l) => match tree_or_empty(l) {
                Tree::Table(m) => match edited(m, edits) {
                    Err(why) => r matches Err(ConfigError::BadKey(said)) && said@ == why,
                    Ok(next) => match file_tree(base) {
                        Err(e) => r matches Err(ConfigError::Parse { path, source }) && path@
                            == base_path && source@ == e,
                        Ok(b) => r matches Ok(p) && p.local.tree() == Tree::Table(next)
                            && p.merged.tree() == merged(tree_or_empty(b), Tree::Table(next)),
                    },
                },
                _ => r matches Err(ConfigError::Invalid(p)) && p@ == ProblemView::NotATable(
                    local_path,
                ),
            },
        },
    }
}

/// Propose a set of edits to the local override.
///
/// An edit with a value sets a key, one without drops it.
pub fn edit_overrides(
    base: Option<&str>,
    base_path: &str,
    local: Option<&str>,
    local_path: &str,
    edits: &Vec<Edit>,
    known: &Vec<String>,
) -> (r: Result<Proposal, ConfigError>)
    ensures
        proposes(r, base, base_path@, local, local_path@, changes(edits@), texts(known@)),
{
    match check_keys(edits, known) {
        Ok(()) => {},
        Err(e) => {
            return Err(e);
        },
    }
    let current = match read_local(local, local_path) {
        Ok(t) => t,
        Err(e) => {
            return Err(e);
        },
    };
    let table = match edit_table(current, edits) {
        Ok(t) => t,
        Err(e) => {
            return Err(e);
        },
    };
    let b = match read_toml(base, base_path) {
        Ok(b) => b,
        Err(e) => {
            return Err(e);
        },
    };
    let mut whole = match b {
        Some(v) => v,
        None => Node::Table(Table::new()),
    };
    let next = Node::Table(table);
    merge(&mut whole, &next);
    Ok(Proposal { local: next, merged: whole })
}

/// A setting and its new value.
#[derive(Debug)]
pub struct Update {
    pub key: String,
    pub value: Node,
}

/// Updates as changes.
pub open spec fn sets(updates: Seq<Update>) -> Seq<(Seq<char>, Option<Tree>)> {
    updates.map_values(|u: Update| (u.key@, Some(u.value.tree())))
}

/// Propose to set dotted keys in the local override, merged into whatever is
/// there.
pub fn set_overrides(
    base: Option<&str>,
    base_path: &str,
    local: Option<&str>,
    local_path: &str,
    updates: &Vec<Update>,
    known: &Vec<String>,
) -> (r: Result<Proposal, ConfigError>)
    ensures
        proposes(r, base, base_path@, local, local_path@, sets(updates@), texts(known@)),
{
    let mut edits: Vec<Edit> = Vec::new();
    let mut i: usize = 0;
    while i < updates.len()
        invariant
            i <= updates@.len(),
            changes(edits@) == sets(updates@).take(i as int),
        decreases updates.len() - i,
    {
        let ghost before = edits@;
        edits.push(
            Edit { key: updates[i].key.clone(), value: Some(updates[i].value.copy()) },
        );
        proof {
            assert(changes(edits@) == changes(before).push(sets(updates@)[i as int]));
            assert(sets(updates@).take(i + 1) == sets(updates@).take(i as int).push(
                sets(updates@)[i as int],
            ));
        }
        i = i + 1;
    }
    assert(sets(updates@).take(updates@.len() as int) == sets(updates@));
    edit_overrides(base, base_path, local, local_path, &edits, known)
}

/// Keys to drop, as changes.
pub open spec fn drops(keys: Seq<Seq<char>>) -> Seq<(Seq<char>, Option<Tree>)> {
    keys.map_values(|k: Seq<char>| (k, None::<Tree>))
}

/// Propose to drop dotted keys from the local override, so they fall back to
/// the packaged file.
pub fn reset_overrides(
    base: Option<&str>,
    base_path: &str,
    local: Option<&str>,
    local_path: &str,
    keys: &Vec<String>,
    known: &Vec<String>,
) -> (r: Result<Proposal, ConfigError>)
    ensures
        proposes(r, base, base_path@, local, local_path@, drops(texts(keys@)), texts(known@)),
{
    let mut edits: Vec<Edit> = Vec::new();
    let mut i: usize = 0;
    while i < keys.len()
        invariant
            i <= keys@.len(),
            changes(edits@) == drops(texts(keys@)).take(i as int),
        decreases keys.len() - i,
    {
        let ghost before = edits@;
        edits.push(Edit { key: keys[i].clone(), value: None });
        proof {
            assert(changes(edits@) == changes(before).push(drops(texts(keys@))[i as int]));
            assert(drops(texts(keys@)).take(i + 1) == drops(texts(keys@)).take(i as int).push(
                drops(texts(keys@))[i as int],
            ));
        }
        i = i + 1;
    }
    assert(drops(texts(keys@)).take(keys@.len() as int) == drops(texts(keys@)));
    edit_overrides(base, base_path, local, local_path, &edits, known)
}

// --- laws -----------------------------------------------------------------

proof fn value_is_leaf(m: Map<Seq<char>, Tree>, path: Seq<Seq<char>>, v: Tree)
    requires
        value_at(m, path) == Some(v),
        !(v is Table),
    ensures
        leaf_at(Tree::Table(m), path) == Some(v),
    decreases path.len(),
{
    if path.len() > 1 {
        value_is_leaf(m[path[0]]->Table_0, path.drop_first(), v);
    } else {
        assert(path.drop_first().len() == 0);
        assert(leaf_at(v, path.drop_first()) == Some(v));
    }
}

/// A key that is set takes effect, whatever the packaged file says of it.
pub proof fn a_set_key_takes_effect(
    base: Tree,
    m: Map<Seq<char>, Tree>,
    key: Seq<char>,
    v: Tree,
)
    requires
        !(v is Table),
        edited(m, seq![(key, Some(v))]) is Ok,
    ensures
        leaf_at(
            merged(base, Tree::Table(edited(m, seq![(key, Some(v))])->Ok_0)),
            segments(key),
        ) == Some(v),
{
    let path = segments(key);
    let one: Seq<(Seq<char>, Option<Tree>)> = seq![(key, Some(v))];
    assert(one.drop_first().len() == 0);
    let next = inserted(m, path, v)->Ok_0;
    assert(edited(next, one.drop_first()) == Ok::<Map<Seq<char>, Tree>, Seq<char>>(next));
    assert(path.len() > 0);
    get_after_insert(m, path, v);
    value_is_leaf(next, path, v);
    overlay_leaf_wins(base, Tree::Table(next), path);
}

proof fn removed_is_silent(m: Map<Seq<char>, Tree>, path: Seq<Seq<char>>)
    requires
        path.len() > 0,
        along_tables(m, path),
    ensures
        silent(Tree::Table(removed(m, path).0), path),
    decreases path.len(),
{
    let r = removed(m, path).0;
    if path.len() > 1 && m.dom().contains(path[0]) {
        let c = m[path[0]]->Table_0;
        removed_is_silent(c, path.drop_first());
    }
}

/// Whether only tables stand on the way along a path.
pub open spec fn along_tables(m: Map<Seq<char>, Tree>, path: Seq<Seq<char>>) -> bool
    decreases path.len(),
{
    path.len() > 1 && m.dom().contains(path[0]) ==> match m[path[0]] {
        Tree::Table(c) => along_tables(c, path.drop_first()),
        _ => false,
    }
}

/// Whether none of some changes runs through a path, or the path through it.
pub open spec fn untouched(edits: Seq<(Seq<char>, Option<Tree>)>, path: Seq<Seq<char>>) -> bool {
    forall|j: int| 0 <= j < edits.len() ==> apart(segments((#[trigger] edits[j]).0), path)
}

/// A list of changes keeps every override that it does not name.
pub proof fn other_overrides_are_kept(
    m: Map<Seq<char>, Tree>,
    edits: Seq<(Seq<char>, Option<Tree>)>,
    path: Seq<Seq<char>>,
)
    requires
        edited(m, edits) is Ok,
        untouched(edits, path),
    ensures
        value_at(edited(m, edits)->Ok_0, path) == value_at(m, path),
    decreases edits.len(),
{
    if edits.len() > 0 {
        let rest = edits.drop_first();
        assert(apart(segments(edits[0].0), path));
        assert forall|j: int| 0 <= j < rest.len() implies apart(
            segments((#[trigger] rest[j]).0),
            path,
        ) by {
            assert(apart(segments(edits[j + 1].0), path));
        }
        match edits[0].1 {
            Some(v) => {
                insert_leaves_others(m, segments(edits[0].0), v, path);
                other_overrides_are_kept(inserted(m, segments(edits[0].0), v)->Ok_0, rest, path);
            },
            None => {
                remove_leaves_others(m, segments(edits[0].0), path);
                other_overrides_are_kept(removed(m, segments(edits[0].0)).0, rest, path);
            },
        }
    }
}

proof fn edit_stands(
    m: Map<Seq<char>, Tree>,
    edits: Seq<(Seq<char>, Option<Tree>)>,
    i: int,
)
    requires
        edited(m, edits) is Ok,
        0 <= i < edits.len(),
        untouched(edits.skip(i + 1), segments(edits[i].0)),
    ensures
        value_at(edited(m, edits)->Ok_0, segments(edits[i].0)) == edits[i].1,
    decreases edits.len(),
{
    let rest = edits.drop_first();
    let path = segments(edits[0].0);
    assert(path.len() > 0);
    if i == 0 {
        assert(edits.skip(1) == rest);
        match edits[0].1 {
            Some(v) => {
                get_after_insert(m, path, v);
                other_overrides_are_kept(inserted(m, path, v)->Ok_0, rest, path);
            },
            None => {
                get_after_remove(m, path);
                other_overrides_are_kept(removed(m, path).0, rest, path);
            },
        }
    } else {
        assert(rest.skip(i) == edits.skip(i + 1));
        match edits[0].1 {
            Some(v) => edit_stands(inserted(m, path, v)->Ok_0, rest, i - 1),
            None => edit_stands(removed(m, path).0, rest, i - 1),
        }
    }
}

proof fn no_value_is_silence(m: Map<Seq<char>, Tree>, path: Seq<Seq<char>>)
    requires
        path.len() > 0,
        value_at(m, path) is None,
        along_tables(m, path),
    ensures
        silent(Tree::Table(m), path),
    decreases path.len(),
{
    if path.len() > 1 && m.dom().contains(path[0]) {
        no_value_is_silence(m[path[0]]->Table_0, path.drop_first());
    }
}

proof fn no_value_is_no_leaf(m: Map<Seq<char>, Tree>, path: Seq<Seq<char>>)
    requires
        path.len() > 0,
        value_at(m, path) is None,
    ensures
        leaf_at(Tree::Table(m), path) is None,
    decreases path.len(),
{
    if path.len() > 1 && m.dom().contains(path[0]) {
        if let Tree::Table(c) = m[path[0]] {
            no_value_is_no_leaf(c, path.drop_first());
        }
        assert(leaf_at(m[path[0]], path.drop_first()) is None);
    }
}

/// Whether a change of one key took effect on an override. A key that is set has
/// its value there, and also when the override is laid over the packaged file;
/// one that is reset is overridden no more, and falls back to what the packaged
/// file says of it, unless the override holds something else than a table on
/// the way to it.
pub open spec fn takes_effect(
    base: Tree,
    next: Map<Seq<char>, Tree>,
    path: Seq<Seq<char>>,
    asked: Option<Tree>,
) -> bool {
    match asked {
        Some(v) => {
            &&& value_at(next, path) == Some(v)
            &&& !(v is Table) ==> leaf_at(Tree::Table(next), path) == Some(v) && leaf_at(
                merged(base, Tree::Table(next)),
                path,
            ) == Some(v)
        },
        None => {
            &&& value_at(next, path) is None
            &&& leaf_at(Tree::Table(next), path) is None
            &&& along_tables(next, path) && leaf_at(base, path) is Some ==> leaf_at(
                merged(base, Tree::Table(next)),
                path,
            ) == leaf_at(base, path)
        },
    }
}

/// A list of changes takes effect whole. Each key that is set, and not changed
/// again further down, is overridden with its value and has it; each that is
/// reset is overridden no more, and falls back to what the packaged file says
/// of it, unless the override holds something else than a table on the way to
/// it.
pub proof fn a_list_of_edits_takes_effect(
    base: Tree,
    m: Map<Seq<char>, Tree>,
    edits: Seq<(Seq<char>, Option<Tree>)>,
    i: int,
)
    requires
        edited(m, edits) is Ok,
        0 <= i < edits.len(),
        untouched(edits.skip(i + 1), segments(edits[i].0)),
    ensures
        takes_effect(base, edited(m, edits)->Ok_0, segments(edits[i].0), edits[i].1),
{
    let next = edited(m, edits)->Ok_0;
    let path = segments(edits[i].0);
    assert(path.len() > 0);
    edit_stands(m, edits, i);
    match edits[i].1 {
        Some(v) => if !(v is Table) {
            value_is_leaf(next, path, v);
            overlay_leaf_wins(base, Tree::Table(next), path);
        },
        None => {
            no_value_is_no_leaf(next, path);
            if along_tables(next, path) && leaf_at(base, path) is Some {
                no_value_is_silence(next, path);
                untouched_leaf_survives(base, Tree::Table(next), path);
            }
        },
    }
}

proof fn tables_let_insert(m: Map<Seq<char>, Tree>, path: Seq<Seq<char>>, v: Tree)
    requires
        path.len() > 0,
        along_tables(m, path),
    ensures
        inserted(m, path, v) is Ok,
    decreases path.len(),
{
    if path.len() > 1 {
        let c = if m.dom().contains(path[0]) {
            m[path[0]]->Table_0
        } else {
            Map::empty()
        };
        tables_let_insert(c, path.drop_first(), v);
    }
}

proof fn values_stand_in_tables(m: Map<Seq<char>, Tree>, path: Seq<Seq<char>>)
    requires
        value_at(m, path) is Some,
    ensures
        along_tables(m, path),
    decreases path.len(),
{
    if path.len() > 1 {
        values_stand_in_tables(m[path[0]]->Table_0, path.drop_first());
    }
}

proof fn inserting_keeps_the_way(
    m: Map<Seq<char>, Tree>,
    path: Seq<Seq<char>>,
    v: Tree,
    other: Seq<Seq<char>>,
)
    requires
        path.len() > 0,
        path == other || apart(path, other),
        inserted(m, path, v) is Ok,
        along_tables(m, other),
    ensures
        along_tables(inserted(m, path, v)->Ok_0, other),
    decreases path.len(),
{
    if path != other && path[0] == other[0] {
        assert(apart(path.drop_first(), other.drop_first()));
    }
    if path[0] == other[0] && path.len() > 1 && other.len() > 1 {
        let c = if m.dom().contains(path[0]) {
            m[path[0]]->Table_0
        } else {
            Map::empty()
        };
        inserting_keeps_the_way(c, path.drop_first(), v, other.drop_first());
    }
}

proof fn removing_keeps_the_way(
    m: Map<Seq<char>, Tree>,
    path: Seq<Seq<char>>,
    other: Seq<Seq<char>>,
)
    requires
        path.len() > 0,
        path == other || apart(path, other),
        along_tables(m, other),
    ensures
        along_tables(removed(m, path).0, other),
    decreases path.len(),
{
    if path != other && path[0] == other[0] {
        assert(apart(path.drop_first(), other.drop_first()));
    }
    if path[0] == other[0] && path.len() > 1 && other.len() > 1 && m.dom().contains(path[0]) {
        if let Tree::Table(c) = m[path[0]] {
            removing_keeps_the_way(c, path.drop_first(), other.drop_first());
        }
    }
}

proof fn edits_keep_the_way(
    m: Map<Seq<char>, Tree>,
    edits: Seq<(Seq<char>, Option<Tree>)>,
    path: Seq<Seq<char>>,
)
    requires
        edited(m, edits) is Ok,
        along_tables(m, path),
        forall|j: int|
            0 <= j < edits.len() ==> segments((#[trigger] edits[j]).0) == path || apart(
                segments(edits[j].0),
                path,
            ),
    ensures
        along_tables(edited(m, edits)->Ok_0, path),
    decreases edits.len(),
{
    if edits.len() > 0 {
        let rest = edits.drop_first();
        let p = segments(edits[0].0);
        assert(p == path || apart(p, path));
        assert forall|j: int| 0 <= j < rest.len() implies segments((#[trigger] rest[j]).0) == path
            || apart(segments(rest[j].0), path) by {
            assert(rest[j] == edits[j + 1]);
        }
        match edits[0].1 {
            Some(v) => {
                inserting_keeps_the_way(m, p, v, path);
                edits_keep_the_way(inserted(m, p, v)->Ok_0, rest, path);
            },
            None => {
                removing_keeps_the_way(m, p, path);
                edits_keep_the_way(removed(m, p).0, rest, path);
            },
        }
    }
}

/// Whether no two of some changes run through each other.
pub open spec fn all_apart(edits: Seq<(Seq<char>, Option<Tree>)>) -> bool {
    forall|i: int, j: int|
        0 <= i < edits.len() && 0 <= j < edits.len() && i != j ==> apart(
            segments((#[trigger] edits[i]).0),
            segments((#[trigger] edits[j]).0),
        )
}

proof fn edits_succeed(m: Map<Seq<char>, Tree>, edits: Seq<(Seq<char>, Option<Tree>)>)
    requires
        all_apart(edits),
        forall|j: int|
            0 <= j < edits.len() && (#[trigger] edits[j]).1 is Some ==> along_tables(
                m,
                segments(edits[j].0),
            ),
    ensures
        edited(m, edits) is Ok,
    decreases edits.len(),
{
    if edits.len() > 0 {
        let rest = edits.drop_first();
        let p = segments(edits[0].0);
        assert(p.len() > 0);
        assert forall|i: int, j: int|
            0 <= i < rest.len() && 0 <= j < rest.len() && i != j implies apart(
            segments((#[trigger] rest[i]).0),
            segments((#[trigger] rest[j]).0),
        ) by {
            assert(apart(segments(edits[i + 1].0), segments(edits[j + 1].0)));
        }
        let next = match edits[0].1 {
            Some(v) => {
                tables_let_insert(m, p, v);
                inserted(m, p, v)->Ok_0
            },
            None => removed(m, p).0,
        };
        assert forall|j: int| 0 <= j < rest.len() && (#[trigger] rest[j]).1 is Some implies
            along_tables(next, segments(rest[j].0)) by {
            let q = segments(edits[j + 1].0);
            assert(rest[j] == edits[j + 1]);
            assert(apart(segments(edits[0].0), q));
            match edits[0].1 {
                Some(v) => inserting_keeps_the_way(m, p, v, q),
                None => removing_keeps_the_way(m, p, q),
            }
        }
        edits_succeed(next, rest);
    }
}

/// A list of changes is undone by another that puts back, for each key that was
/// changed, what the override said of it before: the override then says the
/// same again of these keys, all of them together, and still the same of all
/// others.
pub proof fn edits_are_undone_together(
    m: Map<Seq<char>, Tree>,
    edits: Seq<(Seq<char>, Option<Tree>)>,
    undo: Seq<(Seq<char>, Option<Tree>)>,
)
    requires
        edited(m, edits) is Ok,
        all_apart(undo),
        forall|i: int|
            0 <= i < undo.len() ==> (#[trigger] undo[i]).1 == value_at(m, segments(undo[i].0)),
        forall|j: int|
            0 <= j < edits.len() ==> exists|i: int|
                0 <= i < undo.len() && undo[i].0 == (#[trigger] edits[j]).0,
    ensures
        edited(edited(m, edits)->Ok_0, undo) is Ok,
        forall|path: Seq<Seq<char>>|
            untouched(undo, path) || (exists|i: int|
                0 <= i < undo.len() && segments((#[trigger] undo[i]).0) == path) ==> #[trigger]
            value_at(edited(edited(m, edits)->Ok_0, undo)->Ok_0, path) == value_at(m, path),
{
    let changed = edited(m, edits)->Ok_0;
    assert forall|i: int| 0 <= i < undo.len() && (#[trigger] undo[i]).1 is Some implies
        along_tables(changed, segments(undo[i].0)) by {
        let q = segments(undo[i].0);
        values_stand_in_tables(m, q);
        assert forall|j: int| 0 <= j < edits.len() implies segments((#[trigger] edits[j]).0) == q
            || apart(segments(edits[j].0), q) by {
            let n = choose|n: int| 0 <= n < undo.len() && undo[n].0 == edits[j].0;
            if n != i {
                assert(apart(segments(undo[n].0), segments(undo[i].0)));
            }
        }
        edits_keep_the_way(m, edits, q);
    }
    edits_succeed(changed, undo);
    let back = edited(changed, undo)->Ok_0;
    assert forall|path: Seq<Seq<char>>|
        untouched(undo, path) || (exists|i: int|
            0 <= i < undo.len() && segments((#[trigger] undo[i]).0) == path) implies #[trigger]
    value_at(back, path) == value_at(m, path) by {
        if exists|i: int| 0 <= i < undo.len() && segments((#[trigger] undo[i]).0) == path {
            let i = choose|i: int|
                0 <= i < undo.len() && segments((#[trigger] undo[i]).0) == path;
            let later = undo.skip(i + 1);
            assert forall|j: int| 0 <= j < later.len() implies apart(
                segments((#[trigger] later[j]).0),
                path,
            ) by {
                assert(apart(segments(undo[j + i + 1].0), segments(undo[i].0)));
            }
            edit_stands(changed, undo, i);
        } else {
            assert forall|j: int| 0 <= j < edits.len() implies apart(
                segments((#[trigger] edits[j]).0),
                path,
            ) by {
                let n = choose|n: int| 0 <= n < undo.len() && undo[n].0 == edits[j].0;
                assert(apart(segments(undo[n].0), path));
            }
            other_overrides_are_kept(m, edits, path);
            other_overrides_are_kept(changed, undo, path);
        }
    }
}

/// What was committed is what is loaded, from the edits to the next start. Where
/// a list of changes was proposed for two files and committed, the override
/// file that is written, loaded over the same packaged file, reads as the tree
/// that was validated: so it is accepted, as the same configuration, with the
/// same keys overridden. Each key that was changed, and not changed again
/// further down, is as was asked. Every other override is kept.
///
/// `read` is what the merged tree turned into when the change was validated; a
/// tree that is the same reads the same.
pub proof fn a_committed_change_loads_again(
    base: Option<&str>,
    base_path: Seq<char>,
    local: Option<&str>,
    local_path: Seq<char>,
    edits: Seq<(Seq<char>, Option<Tree>)>,
    known: Seq<Seq<char>>,
    proposal: Proposal,
    read: Result<Config, String>,
    bind: Option<&SocketAddress>,
    body: Result<String, String>,
    done: Commit,
    text: &str,
    again: Result<Layers, ConfigError>,
    accepted: Result<Loaded, ConfigError>,
)
    requires
        proposes(Ok(proposal), base, base_path, local, local_path, edits, known),
        commits(Ok(done), proposal.local.tree(), read, bind, body, local_path),
        text@ == done.text@,
        loads(again, base, base_path, Some(text), local_path),
        again matches Ok(layers) ==> accepts(
            accepted,
            read,
            bind,
            layers.blamed@,
            layers.overridden,
        ),
    ensures
        again matches Ok(layers) && layers.merged.tree() == proposal.merged.tree(),
        accepted matches Ok(loaded) && loaded.config == done.loaded.config && texts(
            loaded.overridden@,
        ) == texts(done.loaded.overridden@),
        file_tree(Some(text)) matches Ok(Some(Tree::Table(next))) && tree_or_empty(
            file_tree(local)->Ok_0,
        ) matches Tree::Table(m) && {
            &&& forall|i: int|
                0 <= i < edits.len() && untouched(edits.skip(i + 1), segments(edits[i].0))
                    ==> #[trigger] takes_effect(
                    tree_or_empty(file_tree(base)->Ok_0),
                    next,
                    segments(edits[i].0),
                    edits[i].1,
                )
            &&& forall|path: Seq<Seq<char>>|
                untouched(edits, path) ==> #[trigger] value_at(next, path) == value_at(m, path)
        },
{
    ascending_lists_are_their_sets(
        texts(again->Ok_0.overridden@),
        texts(done.loaded.overridden@),
    );
    let m = tree_or_empty(file_tree(local)->Ok_0)->Table_0;
    let next = edited(m, edits)->Ok_0;
    let b = tree_or_empty(file_tree(base)->Ok_0);
    assert(file_tree(Some(text)) == Ok::<Option<Tree>, Seq<char>>(Some(Tree::Table(next))));
    assert forall|i: int|
        0 <= i < edits.len() && untouched(
            edits.skip(i + 1),
            segments(edits[i].0),
        ) implies #[trigger] takes_effect(b, next, segments(edits[i].0), edits[i].1) by {
        a_list_of_edits_takes_effect(b, m, edits, i);
    }
    assert forall|path: Seq<Seq<char>>| untouched(edits, path) implies #[trigger] value_at(
        next,
        path,
    ) == value_at(m, path) by {
        other_overrides_are_kept(m, edits, path);
    }
}

/// A key that is reset falls back to what the packaged file says of it, unless
/// the override holds something else than a table on the way to it.
pub proof fn a_reset_key_falls_back(base: Tree, m: Map<Seq<char>, Tree>, key: Seq<char>)
    requires
        leaf_at(base, segments(key)) is Some,
        along_tables(m, segments(key)),
    ensures
        edited(m, seq![(key, None::<Tree>)]) is Ok,
        leaf_at(
            merged(base, Tree::Table(edited(m, seq![(key, None::<Tree>)])->Ok_0)),
            segments(key),
        ) == leaf_at(base, segments(key)),
{
    let path = segments(key);
    let one: Seq<(Seq<char>, Option<Tree>)> = seq![(key, None::<Tree>)];
    assert(one.drop_first().len() == 0);
    let next = removed(m, path).0;
    assert(edited(next, one.drop_first()) == Ok::<Map<Seq<char>, Tree>, Seq<char>>(next));
    assert(path.len() > 0);
    removed_is_silent(m, path);
    untouched_leaf_survives(base, Tree::Table(next), path);
}

} // verus!
