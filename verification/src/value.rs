//! Configuration values as a tree, and what can be done to one: reading,
//! setting and removing a dotted path, layering one tree over another, and
//! listing the leaves.

use vstd::prelude::*;

use crate::strings::{ascending, insert_sorted, pieces, same, split, texts, to_chars};

verus! {

broadcast use {vstd::seq::group_seq_axioms, vstd::map::group_map_axioms};

/// One value of a configuration file.
#[derive(Debug, PartialEq)]
pub enum Node {
    Str(String),
    Int(i64),
    /// A double-precision number, as the bits that stand for it.
    Float(u64),
    Bool(bool),
    Datetime(String),
    Array(Vec<Node>),
    Table(Table),
}

/// One key of a table, with its value.
#[derive(Debug, PartialEq)]
pub struct Entry {
    pub key: String,
    pub value: Node,
}

/// A table: values by key. No key is there twice.
#[derive(Debug, PartialEq)]
pub struct Table {
    entries: Vec<Entry>,
}

/// A [`Node`] as a mathematical tree.
pub enum Tree {
    Str(Seq<char>),
    Int(i64),
    Float(u64),
    Bool(bool),
    Datetime(Seq<char>),
    Array(Seq<Tree>),
    Table(Map<Seq<char>, Tree>),
}

/// The values of an array, as trees.
pub open spec fn trees(s: Seq<Node>) -> Seq<Tree>
    decreases s,
{
    if s.len() == 0 {
        Seq::empty()
    } else {
        trees(s.drop_last()).push(s.last().tree())
    }
}

/// The entries of a table, as a map.
spec fn entry_map(s: Seq<Entry>) -> Map<Seq<char>, Tree>
    decreases s,
{
    if s.len() == 0 {
        Map::empty()
    } else {
        entry_map(s.drop_last()).insert(s.last().key@, s.last().value.tree())
    }
}

/// No two entries share a key.
spec fn distinct(s: Seq<Entry>) -> bool {
    forall|i: int, j: int| 0 <= i < j < s.len() ==> (#[trigger] s[i]).key@ != (#[trigger] s[j]).key@
}

impl Node {
    /// The value as a mathematical tree.
    pub open spec fn tree(self) -> Tree
        decreases self,
    {
        match self {
            Node::Str(s) => Tree::Str(s@),
            Node::Int(n) => Tree::Int(n),
            Node::Float(b) => Tree::Float(b),
            Node::Bool(b) => Tree::Bool(b),
            Node::Datetime(s) => Tree::Datetime(s@),
            Node::Array(v) => Tree::Array(trees(v@)),
            Node::Table(t) => Tree::Table(t.map()),
        }
    }
}

impl Table {
    /// The table as a map.
    pub closed spec fn map(self) -> Map<Seq<char>, Tree>
        decreases self,
    {
        entry_map(self.entries@)
    }

    #[verifier::type_invariant]
    spec fn keys_are_distinct(self) -> bool {
        distinct(self.entries@)
    }
}

proof fn entry_map_has(s: Seq<Entry>, i: int)
    requires
        distinct(s),
        0 <= i < s.len(),
    ensures
        entry_map(s).dom().contains(s[i].key@),
        entry_map(s)[s[i].key@] == s[i].value.tree(),
    decreases s.len(),
{
    if i < s.len() - 1 {
        assert(distinct(s.drop_last()));
        entry_map_has(s.drop_last(), i);
        assert(s[i].key@ != s.last().key@);
    }
}

proof fn entry_map_only(s: Seq<Entry>, k: Seq<char>)
    requires
        entry_map(s).dom().contains(k),
    ensures
        exists|i: int| 0 <= i < s.len() && (#[trigger] s[i]).key@ == k,
    decreases s.len(),
{
    if s.len() > 0 {
        if s.last().key@ == k {
            assert(s[s.len() - 1].key@ == k);
        } else {
            entry_map_only(s.drop_last(), k);
            let i = choose|i: int|
                0 <= i < s.drop_last().len() && (#[trigger] s.drop_last()[i]).key@ == k;
            assert(s[i].key@ == k);
        }
    }
}

proof fn entry_map_remove(s: Seq<Entry>, i: int)
    requires
        distinct(s),
        0 <= i < s.len(),
    ensures
        distinct(s.remove(i)),
        entry_map(s.remove(i)) == entry_map(s).remove(s[i].key@),
{
    let r = s.remove(i);
    let k = s[i].key@;
    assert(distinct(r)) by {
        assert forall|a: int, b: int| 0 <= a < b < r.len() implies (#[trigger] r[a]).key@ != (
        #[trigger] r[b]).key@ by {
            let a2 = if a < i { a } else { a + 1 };
            let b2 = if b < i { b } else { b + 1 };
            assert(r[a] == s[a2] && r[b] == s[b2]);
        }
    }
    let m = entry_map(s).remove(k);
    assert forall|q: Seq<char>| #[trigger] entry_map(r).dom().contains(q) == m.dom().contains(q)
        && (m.dom().contains(q) ==> entry_map(r)[q] == m[q]) by {
        if entry_map(r).dom().contains(q) {
            entry_map_only(r, q);
            let a = choose|a: int| 0 <= a < r.len() && (#[trigger] r[a]).key@ == q;
            let a2 = if a < i { a } else { a + 1 };
            assert(r[a] == s[a2]);
            entry_map_has(s, a2);
            entry_map_has(r, a);
        }
        if m.dom().contains(q) {
            entry_map_only(s, q);
            let a = choose|a: int| 0 <= a < s.len() && (#[trigger] s[a]).key@ == q;
            let a2 = if a < i { a } else { a - 1 };
            assert(r[a2] == s[a]);
            entry_map_has(r, a2);
            entry_map_has(s, a);
        }
    }
    assert(entry_map(r) =~= m);
}

impl Table {
    /// A table without entries.
    pub fn new() -> (r: Table)
        ensures
            r.map() == Map::<Seq<char>, Tree>::empty(),
    {
        Table { entries: Vec::new() }
    }

    /// How many entries there are. Their positions list every key, and each
    /// of them once.
    pub fn len(&self) -> (r: usize)
        ensures
            r == self.order().len(),
            forall|k: Seq<char>| #[trigger]
                self.map().dom().contains(k) ==> self.order().contains(k),
            self.order().no_duplicates(),
    {
        proof {
            use_type_invariant(self);
            self.order_lists_keys();
        }
        self.entries.len()
    }

    /// The keys, in the order in which [`Table::entry`] gives the entries.
    pub closed spec fn order(self) -> Seq<Seq<char>> {
        self.entries@.map_values(|e: Entry| e.key@)
    }

    /// The entry at position `i`.
    pub fn entry(&self, i: usize) -> (r: &Entry)
        requires
            i < self.order().len(),
        ensures
            r.key@ == self.order()[i as int],
            self.map().dom().contains(r.key@),
            r.value.tree() == self.map()[r.key@],
            decreases_to!(*self => r.value),
    {
        proof {
            use_type_invariant(self);
            entry_map_has(self.entries@, i as int);
        }
        let r = &self.entries[i];
        assert(decreases_to!(*self => self.entries));
        assert(decreases_to!(self.entries => self.entries@));
        assert(decreases_to!(self.entries@ => self.entries@[i as int]));
        assert(decreases_to!(*r => r.value));
        r
    }

    /// The positions list every key, and each of them once.
    proof fn order_lists_keys(&self)
        requires
            distinct(self.entries@),
        ensures
            forall|k: Seq<char>| #[trigger]
                self.map().dom().contains(k) ==> exists|i: int|
                    0 <= i < self.order().len() && self.order()[i] == k,
            forall|i: int, j: int|
                0 <= i < j < self.order().len() ==> self.order()[i] != self.order()[j],
    {
        assert forall|k: Seq<char>| #[trigger] self.map().dom().contains(k) implies exists|i: int|
            0 <= i < self.order().len() && self.order()[i] == k by {
            entry_map_only(self.entries@, k);
            let i = choose|i: int|
                0 <= i < self.entries@.len() && (#[trigger] self.entries@[i]).key@ == k;
            assert(self.order()[i] == k);
        }
        assert forall|i: int, j: int| 0 <= i < j < self.order().len() implies self.order()[i]
            != self.order()[j] by {
            assert(self.entries@[i].key@ != self.entries@[j].key@);
        }
    }

    /// Whether there is no entry.
    pub fn is_empty(&self) -> (r: bool)
        ensures
            r == (self.map() == Map::<Seq<char>, Tree>::empty()),
    {
        if self.entries.len() == 0 {
            true
        } else {
            proof {
                use_type_invariant(self);
                entry_map_has(self.entries@, 0);
                assert(!Map::<Seq<char>, Tree>::empty().dom().contains(self.entries@[0].key@));
            }
            false
        }
    }

    fn position(&self, key: &str) -> (r: Option<usize>)
        ensures
            match r {
                Some(i) => i < self.entries@.len() && self.entries@[i as int].key@ == key@,
                None => !self.map().dom().contains(key@),
            },
    {
        let mut i: usize = 0;
        while i < self.entries.len()
            invariant
                i <= self.entries.len(),
                forall|j: int| 0 <= j < i ==> (#[trigger] self.entries@[j]).key@ != key@,
            decreases self.entries.len() - i,
        {
            if same(self.entries[i].key.as_str(), key) {
                return Some(i);
            }
            i = i + 1;
        }
        proof {
            if self.map().dom().contains(key@) {
                entry_map_only(self.entries@, key@);
            }
        }
        None
    }

    /// The value under a key.
    pub fn get(&self, key: &str) -> (r: Option<&Node>)
        ensures
            match r {
                Some(v) => self.map().dom().contains(key@) && v.tree() == self.map()[key@],
                None => !self.map().dom().contains(key@),
            },
            r matches Some(v) ==> decreases_to!(*self => *v),
    {
        match self.position(key) {
            Some(i) => {
                proof {
                    use_type_invariant(self);
                    entry_map_has(self.entries@, i as int);
                }
                let r = &self.entries[i];
                assert(decreases_to!(*self => self.entries));
                assert(decreases_to!(self.entries => self.entries@));
                assert(decreases_to!(self.entries@ => self.entries@[i as int]));
                assert(decreases_to!(*r => r.value));
                Some(&r.value)
            },
            None => None,
        }
    }

    /// Take the value under a key out of the table.
    pub fn take(&mut self, key: &str) -> (r: Option<Node>)
        ensures
            final(self).map() == old(self).map().remove(key@),
            match r {
                Some(v) => old(self).map().dom().contains(key@) && v.tree() == old(
                    self,
                ).map()[key@],
                None => !old(self).map().dom().contains(key@),
            },
            r matches Some(v) ==> decreases_to!(*old(self) => v),
    {
        match self.position(key) {
            Some(i) => {
                proof {
                    use_type_invariant(&*self);
                    entry_map_has(self.entries@, i as int);
                    entry_map_remove(self.entries@, i as int);
                }
                let mut entries: Vec<Entry> = Vec::new();
                std::mem::swap(&mut entries, &mut self.entries);
                assert(decreases_to!(*old(self) => old(self).entries));
                assert(decreases_to!(old(self).entries => old(self).entries@));
                assert(decreases_to!(old(self).entries@ => old(self).entries@[i as int]));
                let e = entries.remove(i);
                assert(decreases_to!(e => e.value));
                self.entries = entries;
                Some(e.value)
            },
            None => {
                assert(self.map().remove(key@) =~= self.map());
                None
            },
        }
    }

    /// Put a value under a key, in place of what was there.
    pub fn insert(&mut self, key: String, value: Node)
        ensures
            final(self).map() == old(self).map().insert(key@, value.tree()),
    {
        let ghost m = self.map();
        let _ = self.take(key.as_str());
        let ghost k = key@;
        proof {
            use_type_invariant(&*self);
        }
        let mut entries: Vec<Entry> = Vec::new();
        std::mem::swap(&mut entries, &mut self.entries);
        let ghost before = entries@;
        assert(entry_map(before) == m.remove(k));
        entries.push(Entry { key, value });
        assert(entries@.drop_last() == before);
        assert(entries@.last().key@ == k);
        assert(distinct(entries@)) by {
            assert forall|a: int, b: int| 0 <= a < b < entries@.len() implies (
            #[trigger] entries@[a]).key@ != (#[trigger] entries@[b]).key@ by {
                if b == before.len() {
                    entry_map_has(before, a);
                } else {
                    assert(before[a].key@ != before[b].key@);
                }
            }
        }
        self.entries = entries;
        assert(m.remove(k).insert(k, value.tree()) =~= m.insert(k, value.tree()));
    }
}

/// An equal tree of values.
pub fn copy_values(v: &Vec<Node>) -> (r: Vec<Node>)
    ensures
        trees(r@) == trees(v@),
    decreases v@,
{
    let mut out: Vec<Node> = Vec::new();
    let mut i: usize = 0;
    while i < v.len()
        invariant
            i <= v.len(),
            trees(out@) == trees(v@.take(i as int)),
        decreases v.len() - i,
    {
        assert(decreases_to!(v@ => v@[i as int]));
        let c = v[i].copy();
        let ghost before = out@;
        out.push(c);
        i = i + 1;
        assert(out@.drop_last() == before);
        assert(v@.take(i as int).drop_last() == v@.take(i - 1));
    }
    assert(v@.take(v.len() as int) == v@);
    out
}

impl Node {
    /// An equal value.
    pub fn copy(&self) -> (r: Node)
        ensures
            r.tree() == self.tree(),
        decreases *self,
    {
        match self {
            Node::Str(s) => Node::Str(s.clone()),
            Node::Int(n) => Node::Int(*n),
            Node::Float(b) => Node::Float(*b),
            Node::Bool(b) => Node::Bool(*b),
            Node::Datetime(s) => Node::Datetime(s.clone()),
            Node::Array(v) => Node::Array(copy_values(v)),
            Node::Table(t) => Node::Table(t.copy()),
        }
    }
}

impl Table {
    /// An equal table.
    pub fn copy(&self) -> (r: Table)
        ensures
            r.map() == self.map(),
        decreases *self,
    {
        let mut out = Table::new();
        let mut i: usize = 0;
        proof {
            use_type_invariant(self);
            self.order_lists_keys();
        }
        while i < self.len()
            invariant
                i <= self.order().len(),
                forall|j: int|
                    0 <= j < i ==> out.map().dom().contains(#[trigger] self.order()[j])
                        && out.map()[self.order()[j]] == self.map()[self.order()[j]],
                forall|k: Seq<char>| #[trigger]
                    out.map().dom().contains(k) ==> self.map().dom().contains(k),
                forall|j: int, k: int|
                    0 <= j < k < self.order().len() ==> self.order()[j] != self.order()[k],
            decreases self.order().len() - i,
        {
            let e = self.entry(i);
            let v = e.value.copy();
            out.insert(e.key.clone(), v);
            i = i + 1;
        }
        assert(out.map() =~= self.map());
        out
    }
}

// --- equality -------------------------------------------------------------

proof fn trees_len(s: Seq<Node>)
    ensures
        trees(s).len() == s.len(),
        forall|i: int| 0 <= i < s.len() ==> #[trigger] trees(s)[i] == s[i].tree(),
    decreases s.len(),
{
    if s.len() > 0 {
        trees_len(s.drop_last());
    }
}

fn same_values(a: &Vec<Node>, b: &Vec<Node>) -> (r: bool)
    ensures
        r == (trees(a@) == trees(b@)),
    decreases a@,
{
    proof {
        trees_len(a@);
        trees_len(b@);
    }
    if a.len() != b.len() {
        return false;
    }
    let mut i: usize = 0;
    while i < a.len()
        invariant
            i <= a@.len(),
            a@.len() == b@.len(),
            trees(a@).len() == a@.len(),
            trees(b@).len() == b@.len(),
            forall|k: int| 0 <= k < a@.len() ==> #[trigger] trees(a@)[k] == a@[k].tree(),
            forall|k: int| 0 <= k < b@.len() ==> #[trigger] trees(b@)[k] == b@[k].tree(),
            forall|k: int| 0 <= k < i ==> #[trigger] trees(a@)[k] == trees(b@)[k],
        decreases a.len() - i,
    {
        assert(decreases_to!(a@ => a@[i as int]));
        if !a[i].same_tree(&b[i]) {
            assert(trees(a@)[i as int] != trees(b@)[i as int]);
            return false;
        }
        i = i + 1;
    }
    assert(trees(a@) =~= trees(b@));
    true
}

impl Node {
    /// Whether two values are the same tree: the order of the keys in a table
    /// does not matter.
    pub fn same_tree(&self, other: &Node) -> (r: bool)
        ensures
            r == (self.tree() == other.tree()),
        decreases *self,
    {
        match (self, other) {
            (Node::Str(a), Node::Str(b)) => same(a.as_str(), b.as_str()),
            (Node::Int(a), Node::Int(b)) => *a == *b,
            (Node::Float(a), Node::Float(b)) => *a == *b,
            (Node::Bool(a), Node::Bool(b)) => *a == *b,
            (Node::Datetime(a), Node::Datetime(b)) => same(a.as_str(), b.as_str()),
            (Node::Array(a), Node::Array(b)) => same_values(a, b),
            (Node::Table(a), Node::Table(b)) => a.same_map(b),
            _ => false,
        }
    }
}

impl Table {
    /// Whether each key of a table is one of another too.
    fn keys_within(&self, other: &Table) -> (r: bool)
        ensures
            r == (forall|k: Seq<char>| #[trigger]
                self.map().dom().contains(k) ==> other.map().dom().contains(k)),
    {
        let mut i: usize = 0;
        proof {
            use_type_invariant(self);
            self.order_lists_keys();
        }
        while i < self.len()
            invariant
                i <= self.order().len(),
                forall|j: int|
                    0 <= j < i ==> other.map().dom().contains(#[trigger] self.order()[j]),
                forall|k: Seq<char>| #[trigger]
                    self.map().dom().contains(k) ==> exists|j: int|
                        0 <= j < self.order().len() && self.order()[j] == k,
            decreases self.order().len() - i,
        {
            let e = self.entry(i);
            if other.get(e.key.as_str()).is_none() {
                return false;
            }
            i = i + 1;
        }
        true
    }

    /// Whether two tables hold the same values under the same keys.
    pub fn same_map(&self, other: &Table) -> (r: bool)
        ensures
            r == (self.map() == other.map()),
        decreases *self,
    {
        if !other.keys_within(self) {
            return false;
        }
        let mut i: usize = 0;
        proof {
            use_type_invariant(self);
            self.order_lists_keys();
        }
        while i < self.len()
            invariant
                i <= self.order().len(),
                forall|j: int|
                    0 <= j < i ==> other.map().dom().contains(#[trigger] self.order()[j])
                        && other.map()[self.order()[j]] == self.map()[self.order()[j]],
                forall|k: Seq<char>| #[trigger]
                    self.map().dom().contains(k) ==> exists|j: int|
                        0 <= j < self.order().len() && self.order()[j] == k,
            decreases self.order().len() - i,
        {
            let e = self.entry(i);
            let alike: bool = match other.get(e.key.as_str()) {
                Some(v) => e.value.same_tree(v),
                None => false,
            };
            if !alike {
                return false;
            }
            i = i + 1;
        }
        assert(self.map() =~= other.map());
        true
    }
}

// --- dotted paths ---------------------------------------------------------

/// The parts of a dotted path. There is always at least one.
pub open spec fn segments(s: Seq<char>) -> Seq<Seq<char>> {
    pieces(s, '.')
}

/// The parts of a dotted path.
pub fn split_path(path: &str) -> (r: Vec<String>)
    ensures
        texts(r@) == segments(path@),
        r@.len() > 0,
{
    split(&to_chars(path), '.')
}

/// The value at a path into a table.
pub open spec fn value_at(m: Map<Seq<char>, Tree>, path: Seq<Seq<char>>) -> Option<Tree>
    decreases path.len(),
{
    if path.len() == 0 || !m.dom().contains(path[0]) {
        None
    } else if path.len() == 1 {
        Some(m[path[0]])
    } else {
        match m[path[0]] {
            Tree::Table(c) => value_at(c, path.drop_first()),
            _ => None,
        }
    }
}

/// Read one dotted path out of a table.
pub fn get_path<'a>(table: &'a Table, path: &str) -> (r: Option<&'a Node>)
    ensures
        match r {
            Some(v) => value_at(table.map(), segments(path@)) == Some(v.tree()),
            None => value_at(table.map(), segments(path@)) is None,
        },
{
    let parts = split_path(path);
    let ghost all = texts(parts@);
    let mut cursor: &'a Table = table;
    let mut i: usize = 0;
    assert(all.skip(0) == all);
    while i < parts.len()
        invariant
            i < parts.len(),
            all == texts(parts@),
            value_at(table.map(), all) == value_at(cursor.map(), all.skip(i as int)),
            all == segments(path@),
        decreases parts.len() - i,
    {
        let ghost here = all.skip(i as int);
        assert(here[0] == parts@[i as int]@);
        assert(here.drop_first() == all.skip(i + 1));
        match cursor.get(parts[i].as_str()) {
            None => {
                return None;
            },
            Some(v) => {
                if i + 1 == parts.len() {
                    return Some(v);
                }
                match v {
                    Node::Table(t) => {
                        cursor = t;
                    },
                    _ => {
                        return None;
                    },
                }
            },
        }
        i = i + 1;
    }
    None
}

/// A table with `v` put at a path, making tables on the way. The part of the
/// path at which something other than a table stands is given back instead.
pub open spec fn inserted(
    m: Map<Seq<char>, Tree>,
    path: Seq<Seq<char>>,
    v: Tree,
) -> Result<Map<Seq<char>, Tree>, Seq<char>>
    decreases path.len(),
{
    if path.len() <= 1 {
        Ok(m.insert(path[0], v))
    } else {
        let child = if m.dom().contains(path[0]) {
            m[path[0]]
        } else {
            Tree::Table(Map::empty())
        };
        match child {
            Tree::Table(c) => match inserted(c, path.drop_first(), v) {
                Ok(c2) => Ok(m.insert(path[0], Tree::Table(c2))),
                Err(part) => Err(part),
            },
            _ => Err(path[0]),
        }
    }
}

fn insert_parts(table: &mut Table, parts: &Vec<String>, from: usize, value: Node) -> (r: Result<
    (),
    String,
>)
    requires
        from < parts.len(),
    ensures
        match inserted(
            old(table).map(),
            texts(parts@).skip(from as int),
            value.tree(),
        ) {
            Ok(m) => r is Ok && final(table).map() == m,
            Err(part) => r is Err && r->Err_0@ == part && final(table).map() == old(table).map(),
        },
    decreases parts.len() - from,
{
    let ghost path = texts(parts@).skip(from as int);
    let ghost m = table.map();
    assert(path[0] == parts@[from as int]@);
    assert(path.drop_first() == texts(parts@).skip(from + 1));
    let key: String = parts[from].clone();
    if from + 1 == parts.len() {
        table.insert(key, value);
        return Ok(());
    }
    let mut child: Table = match table.take(key.as_str()) {
        None => Table::new(),
        Some(Node::Table(t)) => t,
        Some(other) => {
            let part = key.clone();
            table.insert(key, other);
            assert(m.remove(part@).insert(part@, other.tree()) =~= m);
            return Err(part);
        },
    };
    let ghost had = m.dom().contains(key@);
    let ghost c = child.map();
    let r = insert_parts(&mut child, parts, from + 1, value);
    match r {
        Ok(()) => {
            let ghost c2 = child.map();
            table.insert(key, Node::Table(child));
            assert(m.remove(key@).insert(key@, Tree::Table(c2)) =~= m.insert(
                key@,
                Tree::Table(c2),
            ));
            Ok(())
        },
        Err(part) => {
            // Nothing below a table that was just made can be in the way.
            proof {
                if !had {
                    fresh_insert_succeeds(path.drop_first(), value.tree());
                }
            }
            table.insert(key, Node::Table(child));
            assert(m.remove(key@).insert(key@, Tree::Table(c)) =~= m);
            Err(part)
        },
    }
}

/// Nothing is in the way in an empty table.
proof fn fresh_insert_succeeds(path: Seq<Seq<char>>, v: Tree)
    ensures
        inserted(Map::empty(), path, v) is Ok,
    decreases path.len(),
{
    if path.len() > 1 {
        fresh_insert_succeeds(path.drop_first(), v);
    }
}

/// What cannot be inserted: the part of the path that is not a table.
#[derive(Debug)]
pub struct NotATable {
    pub part: String,
}

/// Put a value at a dotted path, making tables on the way.
pub fn insert_path(table: &mut Table, path: &str, value: Node) -> (r: Result<(), NotATable>)
    ensures
        match inserted(old(table).map(), segments(path@), value.tree()) {
            Ok(m) => r is Ok && final(table).map() == m,
            Err(part) => r is Err && r->Err_0.part@ == part && final(table).map() == old(
                table,
            ).map(),
        },
{
    let parts = split_path(path);
    assert(texts(parts@).skip(0) == texts(parts@));
    match insert_parts(table, &parts, 0, value) {
        Ok(()) => Ok(()),
        Err(part) => Err(NotATable { part }),
    }
}

/// A table with a path taken out, and with the tables on the way that are
/// left empty taken out too; and whether anything stood there.
pub open spec fn removed(m: Map<Seq<char>, Tree>, path: Seq<Seq<char>>) -> (
    Map<Seq<char>, Tree>,
    bool,
)
    decreases path.len(),
{
    if path.len() <= 1 {
        (m.remove(path[0]), m.dom().contains(path[0]))
    } else if !m.dom().contains(path[0]) {
        (m, false)
    } else {
        match m[path[0]] {
            Tree::Table(c) => {
                let (c2, hit) = removed(c, path.drop_first());
                if c2 == Map::<Seq<char>, Tree>::empty() {
                    (m.remove(path[0]), hit)
                } else {
                    (m.insert(path[0], Tree::Table(c2)), hit)
                }
            },
            _ => (m, false),
        }
    }
}

fn remove_parts(table: &mut Table, parts: &Vec<String>, from: usize) -> (r: bool)
    requires
        from < parts.len(),
    ensures
        (final(table).map(), r) == removed(
            old(table).map(),
            texts(parts@).skip(from as int),
        ),
    decreases parts.len() - from,
{
    let ghost path = texts(parts@).skip(from as int);
    let ghost m = table.map();
    assert(path[0] == parts@[from as int]@);
    assert(path.drop_first() == texts(parts@).skip(from + 1));
    let key: String = parts[from].clone();
    if from + 1 == parts.len() {
        let gone = table.take(key.as_str());
        return gone.is_some();
    }
    match table.take(key.as_str()) {
        None => {
            assert(m.remove(key@) =~= m);
            false
        },
        Some(Node::Table(mut child)) => {
            let hit = remove_parts(&mut child, parts, from + 1);
            if !child.is_empty() {
                let ghost k = key@;
                let ghost c2 = child.map();
                table.insert(key, Node::Table(child));
                assert(m.remove(k).insert(k, Tree::Table(c2)) =~= m.insert(k, Tree::Table(c2)));
            }
            hit
        },
        Some(other) => {
            let ghost k = key@;
            table.insert(key, other);
            assert(m.remove(k).insert(k, other.tree()) =~= m);
            false
        },
    }
}

/// Remove a dotted path, pruning tables the removal leaves empty.
///
/// Pruning matters because an empty `[render]` left behind still counts as a
/// hand-written section to anyone reading the file, and the whole point of a
/// sparse override is that its contents are exactly the user's changes.
pub fn remove_path(table: &mut Table, path: &str) -> (r: bool)
    ensures
        (final(table).map(), r) == removed(old(table).map(), segments(path@)),
{
    let parts = split_path(path);
    assert(texts(parts@).skip(0) == texts(parts@));
    remove_parts(table, &parts, 0)
}

// --- layering -------------------------------------------------------------

/// One value laid over another: tables key by key, everything else replaced.
pub open spec fn merged(base: Tree, overlay: Tree) -> Tree
    decreases overlay,
{
    match (base, overlay) {
        (Tree::Table(b), Tree::Table(o)) => Tree::Table(
            Map::new(
                |k: Seq<char>| b.dom().contains(k) || o.dom().contains(k),
                |k: Seq<char>|
                    if !o.dom().contains(k) {
                        b[k]
                    } else if b.dom().contains(k) {
                        merged(b[k], o[k])
                    } else {
                        o[k]
                    },
            ),
        ),
        _ => overlay,
    }
}

/// Deep-merge `overlay` over `base`, per key. Tables recurse; every other
/// value replaces wholesale, including arrays: a half-overridden source list
/// is never what anyone means.
pub fn merge(base: &mut Node, overlay: &Node)
    ensures
        final(base).tree() == merged(old(base).tree(), overlay.tree()),
    decreases *overlay,
{
    let mut taken = Node::Bool(false);
    std::mem::swap(&mut taken, base);
    match (taken, overlay) {
        (Node::Table(b), Node::Table(o)) => {
            let m = merge_tables(b, o);
            *base = Node::Table(m);
        },
        (_, o) => {
            *base = o.copy();
        },
    }
}

fn merge_tables(base: Table, overlay: &Table) -> (r: Table)
    ensures
        Tree::Table(r.map()) == merged(Tree::Table(base.map()), Tree::Table(overlay.map())),
    decreases *overlay,
{
    let ghost b = base.map();
    let ghost o = overlay.map();
    let mut out = base;
    let mut i: usize = 0;
    proof {
        use_type_invariant(overlay);
        overlay.order_lists_keys();
    }
    while i < overlay.len()
        invariant
            i <= overlay.order().len(),
            o == overlay.map(),
            forall|j: int|
                0 <= j < i ==> out.map().dom().contains(#[trigger] overlay.order()[j])
                    && out.map()[overlay.order()[j]] == merged_child(b, o, overlay.order()[j]),
            forall|j: int|
                i <= j < overlay.order().len() ==> out.map().dom().contains(
                    #[trigger] overlay.order()[j],
                ) == b.dom().contains(overlay.order()[j]) && (b.dom().contains(overlay.order()[j])
                    ==> out.map()[overlay.order()[j]] == b[overlay.order()[j]]),
            forall|k: Seq<char>|
                !o.dom().contains(k) ==> #[trigger] out.map().dom().contains(k)
                    == b.dom().contains(k) && (b.dom().contains(k) ==> out.map()[k] == b[k]),
            forall|j: int, k: int|
                0 <= j < k < overlay.order().len() ==> overlay.order()[j] != overlay.order()[k],
        decreases overlay.order().len() - i,
    {
        let e = overlay.entry(i);
        let merged_value: Node = match out.take(e.key.as_str()) {
            Some(existing) => {
                let mut v = existing;
                merge(&mut v, &e.value);
                v
            },
            None => e.value.copy(),
        };
        assert(merged_value.tree() == merged_child(b, o, e.key@));
        out.insert(e.key.clone(), merged_value);
        i = i + 1;
    }
    let ghost want = merged(Tree::Table(b), Tree::Table(o));
    proof {
        assert forall|k: Seq<char>| #[trigger] o.dom().contains(k) implies out.map().dom().contains(
            k,
        ) && out.map()[k] == merged_child(b, o, k) by {
            let j = choose|j: int| 0 <= j < overlay.order().len() && overlay.order()[j] == k;
            assert(overlay.order()[j] == k);
        }
        assert(out.map() =~= want->Table_0);
    }
    out
}

/// What stands under a key of the overlay after merging.
pub open spec fn merged_child(
    b: Map<Seq<char>, Tree>,
    o: Map<Seq<char>, Tree>,
    k: Seq<char>,
) -> Tree {
    if b.dom().contains(k) {
        merged(b[k], o[k])
    } else {
        o[k]
    }
}

// --- leaves ---------------------------------------------------------------

/// The leaf at a path: what stands there, if it is not a table.
pub open spec fn leaf_at(t: Tree, path: Seq<Seq<char>>) -> Option<Tree>
    decreases path.len(),
{
    match t {
        Tree::Table(m) => if path.len() > 0 && m.dom().contains(path[0]) {
            leaf_at(m[path[0]], path.drop_first())
        } else {
            None
        },
        _ => if path.len() == 0 {
            Some(t)
        } else {
            None
        },
    }
}

/// A key below a dotted prefix.
pub open spec fn join(prefix: Seq<char>, key: Seq<char>) -> Seq<char> {
    if prefix.len() == 0 {
        key
    } else {
        prefix + "."@ + key
    }
}

/// The dotted form of a path below a prefix.
pub open spec fn dotted(prefix: Seq<char>, path: Seq<Seq<char>>) -> Seq<char>
    decreases path.len(),
{
    if path.len() == 0 {
        prefix
    } else {
        dotted(join(prefix, path[0]), path.drop_first())
    }
}

/// A leaf of a tree with its dotted path.
#[derive(Debug)]
pub struct Leaf {
    pub path: String,
    pub value: Node,
}

/// Whether `found` lists every leaf of `t` under its dotted path, and nothing
/// else. A leaf with an empty path is not listed.
pub open spec fn lists_leaves(found: Seq<Leaf>, t: Tree, prefix: Seq<char>) -> bool {
    &&& forall|i: int|
        0 <= i < found.len() ==> is_leaf_of(#[trigger] found[i], t, prefix)
    &&& forall|p: Seq<Seq<char>>| #[trigger]
        leaf_at(t, p) is Some && dotted(prefix, p).len() > 0 ==> has_leaf(
            found,
            dotted(prefix, p),
            leaf_at(t, p)->0,
        )
}

/// Whether some path leads to this leaf.
pub open spec fn is_leaf_of(l: Leaf, t: Tree, prefix: Seq<char>) -> bool {
    l.path@.len() > 0 && exists|p: Seq<Seq<char>>| #[trigger]
        leaf_at(t, p) == Some(l.value.tree()) && dotted(prefix, p) == l.path@
}

/// Whether a list holds this value under this path.
pub open spec fn has_leaf(found: Seq<Leaf>, path: Seq<char>, t: Tree) -> bool {
    exists|i: int|
        0 <= i < found.len() && (#[trigger] found[i]).path@ == path && found[i].value.tree() == t
}

/// List the leaves of a tree under their dotted paths.
pub fn collect_leaves(v: &Node, prefix: &str) -> (r: Vec<Leaf>)
    ensures
        lists_leaves(r@, v.tree(), prefix@),
    decreases *v,
{
    match v {
        Node::Table(t) => collect_table(t, prefix),
        _ => {
            let mut out: Vec<Leaf> = Vec::new();
            if !prefix.is_empty() {
                out.push(Leaf { path: prefix.to_owned(), value: v.copy() });
                proof {
                    let none = Seq::<Seq<char>>::empty();
                    assert(leaf_at(v.tree(), none) == Some(out@[0].value.tree()));
                    assert(dotted(prefix@, none) == prefix@);
                    assert(is_leaf_of(out@[0], v.tree(), prefix@));
                }
            }
            assert forall|p: Seq<Seq<char>>| #[trigger]
                leaf_at(v.tree(), p) is Some && dotted(prefix@, p).len() > 0 implies has_leaf(
                out@,
                dotted(prefix@, p),
                leaf_at(v.tree(), p)->0,
            ) by {
                assert(out@[0].path@ == prefix@);
            }
            out
        },
    }
}

fn collect_table(t: &Table, prefix: &str) -> (r: Vec<Leaf>)
    ensures
        lists_leaves(r@, Tree::Table(t.map()), prefix@),
    decreases *t,
{
    let mut out: Vec<Leaf> = Vec::new();
    let ghost whole = Tree::Table(t.map());
    let mut i: usize = 0;
    proof {
        use_type_invariant(t);
        t.order_lists_keys();
    }
    while i < t.len()
        invariant
            i <= t.order().len(),
            whole == Tree::Table(t.map()),
            forall|j: int| 0 <= j < out@.len() ==> is_leaf_of(#[trigger] out@[j], whole, prefix@),
            forall|p: Seq<Seq<char>>, j: int|
                0 <= j < i && p.len() > 0 && p[0] == #[trigger] t.order()[j] && (#[trigger] leaf_at(
                    whole,
                    p,
                )) is Some && dotted(prefix@, p).len() > 0 ==> has_leaf(
                    out@,
                    dotted(prefix@, p),
                    leaf_at(whole, p)->0,
                ),
        decreases t.order().len() - i,
    {
        let e = t.entry(i);
        let ghost k = e.key@;
        let path: String = if prefix.is_empty() {
            e.key.clone()
        } else {
            let mut s: String = prefix.to_owned();
            s.append(".");
            s.append(e.key.as_str());
            s
        };
        assert(path@ == join(prefix@, k));
        let mut below = collect_leaves(&e.value, path.as_str());
        let ghost found = below@;
        let ghost before = out@;
        let ghost child = e.value.tree();
        out.append(&mut below);
        assert(out@ == before + found);
        proof {
            assert forall|j: int| 0 <= j < out@.len() implies is_leaf_of(
                #[trigger] out@[j],
                whole,
                prefix@,
            ) by {
                if j < before.len() {
                    assert(out@[j] == before[j]);
                } else {
                    let l = found[j - before.len()];
                    assert(out@[j] == l);
                    assert(is_leaf_of(l, child, path@));
                    let q = choose|q: Seq<Seq<char>>| #[trigger]
                        leaf_at(child, q) == Some(l.value.tree()) && dotted(path@, q) == l.path@;
                    let p = seq![k] + q;
                    assert(p.drop_first() == q);
                    assert(leaf_at(whole, p) == Some(l.value.tree()));
                    assert(dotted(prefix@, p) == l.path@);
                }
            }
            assert forall|p: Seq<Seq<char>>, j: int|
                0 <= j < i + 1 && p.len() > 0 && p[0] == #[trigger] t.order()[j]
                    && (#[trigger] leaf_at(whole, p)) is Some && dotted(prefix@, p).len()
                    > 0 implies has_leaf(out@, dotted(prefix@, p), leaf_at(whole, p)->0) by {
                if j < i {
                    assert(has_leaf(before, dotted(prefix@, p), leaf_at(whole, p)->0));
                    let n = choose|n: int|
                        0 <= n < before.len() && (#[trigger] before[n]).path@ == dotted(prefix@, p)
                            && before[n].value.tree() == leaf_at(whole, p)->0;
                    assert(out@[n] == before[n]);
                } else {
                    let q = p.drop_first();
                    assert(leaf_at(child, q) == leaf_at(whole, p));
                    assert(has_leaf(found, dotted(path@, q), leaf_at(child, q)->0));
                    let n = choose|n: int|
                        0 <= n < found.len() && (#[trigger] found[n]).path@ == dotted(path@, q)
                            && found[n].value.tree() == leaf_at(child, q)->0;
                    assert(out@[before.len() + n] == found[n]);
                }
            }
        }
        i = i + 1;
    }
    proof {
        assert forall|p: Seq<Seq<char>>| #[trigger]
            leaf_at(whole, p) is Some && dotted(prefix@, p).len() > 0 implies has_leaf(
            out@,
            dotted(prefix@, p),
            leaf_at(whole, p)->0,
        ) by {
            assert(t.map().dom().contains(p[0]));
            let j = choose|j: int| 0 <= j < t.order().len() && t.order()[j] == p[0];
            assert(t.order()[j] == p[0]);
        }
    }
    out
}

/// The dotted paths of the leaves of a tree.
pub open spec fn leaf_paths(t: Tree, prefix: Seq<char>) -> Set<Seq<char>> {
    Set::new(
        |s: Seq<char>|
            s.len() > 0 && exists|p: Seq<Seq<char>>| #[trigger]
                leaf_at(t, p) is Some && dotted(prefix, p) == s,
    )
}

/// List the dotted paths of the leaves of a tree, in order and each once.
pub fn collect_paths(v: &Node, prefix: &str) -> (r: Vec<String>)
    ensures
        texts(r@).to_set() == leaf_paths(v.tree(), prefix@),
        ascending(texts(r@)),
{
    let found = collect_leaves(v, prefix);
    let mut out: Vec<String> = Vec::new();
    let mut i: usize = 0;
    while i < found.len()
        invariant
            i <= found.len(),
            ascending(texts(out@)),
            forall|s: Seq<char>|
                texts(out@).contains(s) <==> exists|j: int|
                    0 <= j < i && (#[trigger] found@[j]).path@ == s,
        decreases found.len() - i,
    {
        let ghost before = texts(out@);
        insert_sorted(&mut out, found[i].path.clone());
        i = i + 1;
        proof {
            assert forall|s: Seq<char>|
                texts(out@).contains(s) <==> exists|j: int|
                    0 <= j < i && (#[trigger] found@[j]).path@ == s by {
                if texts(out@).contains(s) {
                    if s == found@[i - 1].path@ {
                    } else {
                        assert(before.contains(s));
                        let j = choose|j: int|
                            0 <= j < i - 1 && (#[trigger] found@[j]).path@ == s;
                        assert(found@[j].path@ == s);
                    }
                }
                if exists|j: int| 0 <= j < i && (#[trigger] found@[j]).path@ == s {
                    let j = choose|j: int| 0 <= j < i && (#[trigger] found@[j]).path@ == s;
                    if j < i - 1 {
                        assert(before.contains(s));
                    }
                }
            }
        }
    }
    proof {
        let t = v.tree();
        assert forall|s: Seq<char>| #[trigger]
            texts(out@).to_set().contains(s) == leaf_paths(t, prefix@).contains(
                s,
            ) by {
            if texts(out@).contains(s) {
                let j = choose|j: int| 0 <= j < found@.len() && (#[trigger] found@[j]).path@ == s;
                assert(is_leaf_of(found@[j], t, prefix@));
            }
            if leaf_paths(t, prefix@).contains(s) {
                let p = choose|p: Seq<Seq<char>>| #[trigger]
                    leaf_at(t, p) is Some && dotted(prefix@, p) == s;
                assert(has_leaf(found@, s, leaf_at(t, p)->0));
                let j = choose|j: int|
                    0 <= j < found@.len() && (#[trigger] found@[j]).path@ == s
                        && found@[j].value.tree() == leaf_at(t, p)->0;
                assert(found@[j].path@ == s);
            }
        }
        assert(texts(out@).to_set() =~= leaf_paths(t, prefix@));
    }
    out
}

// --- laws -----------------------------------------------------------------

/// What was put at a path is what is read there.
pub proof fn get_after_insert(m: Map<Seq<char>, Tree>, path: Seq<Seq<char>>, v: Tree)
    requires
        path.len() > 0,
        inserted(m, path, v) is Ok,
    ensures
        value_at(inserted(m, path, v)->Ok_0, path) == Some(v),
    decreases path.len(),
{
    if path.len() > 1 {
        let child = if m.dom().contains(path[0]) {
            m[path[0]]
        } else {
            Tree::Table(Map::empty())
        };
        get_after_insert(child->Table_0, path.drop_first(), v);
    }
}

/// Whether two paths part ways: neither runs through the other.
pub open spec fn apart(p: Seq<Seq<char>>, q: Seq<Seq<char>>) -> bool
    decreases p.len(),
{
    p.len() > 0 && q.len() > 0 && (p[0] != q[0] || apart(p.drop_first(), q.drop_first()))
}

/// Setting one path leaves what stands at every other as it was.
pub proof fn insert_leaves_others(
    m: Map<Seq<char>, Tree>,
    path: Seq<Seq<char>>,
    v: Tree,
    other: Seq<Seq<char>>,
)
    requires
        apart(path, other),
        inserted(m, path, v) is Ok,
    ensures
        value_at(inserted(m, path, v)->Ok_0, other) == value_at(m, other),
    decreases path.len(),
{
    if path[0] == other[0] {
        assert(apart(path.drop_first(), other.drop_first()));
    }
    if path.len() > 1 && path[0] == other[0] {
        let child = if m.dom().contains(path[0]) {
            m[path[0]]
        } else {
            Tree::Table(Map::empty())
        };
        insert_leaves_others(child->Table_0, path.drop_first(), v, other.drop_first());
    }
}

/// A removed path reads as nothing.
pub proof fn get_after_remove(m: Map<Seq<char>, Tree>, path: Seq<Seq<char>>)
    requires
        path.len() > 0,
    ensures
        value_at(removed(m, path).0, path) is None,
        removed(m, path).1 == (value_at(m, path) is Some),
    decreases path.len(),
{
    if path.len() > 1 && m.dom().contains(path[0]) {
        if let Tree::Table(c) = m[path[0]] {
            get_after_remove(c, path.drop_first());
        }
    }
}

/// Removing one path leaves what stands at every other as it was.
pub proof fn remove_leaves_others(
    m: Map<Seq<char>, Tree>,
    path: Seq<Seq<char>>,
    other: Seq<Seq<char>>,
)
    requires
        apart(path, other),
    ensures
        value_at(removed(m, path).0, other) == value_at(m, other),
    decreases path.len(),
{
    if path[0] == other[0] {
        assert(apart(path.drop_first(), other.drop_first()));
    }
    if path.len() > 1 && path[0] == other[0] && m.dom().contains(path[0]) {
        if let Tree::Table(c) = m[path[0]] {
            remove_leaves_others(c, path.drop_first(), other.drop_first());
            let c2 = removed(c, path.drop_first()).0;
            if c2 == Map::<Seq<char>, Tree>::empty() {
                assert(value_at(c2, other.drop_first()) is None);
            }
        }
    }
}

/// Whether no empty table stands on the way along a path.
pub open spec fn pruned_along(m: Map<Seq<char>, Tree>, path: Seq<Seq<char>>) -> bool
    decreases path.len(),
{
    path.len() > 1 && m.dom().contains(path[0]) ==> match m[path[0]] {
        Tree::Table(c) => c != Map::<Seq<char>, Tree>::empty() && pruned_along(
            c,
            path.drop_first(),
        ),
        _ => true,
    }
}

/// Resetting a key that was not set before undoes setting it, to the last
/// table that setting it made.
pub proof fn remove_undoes_insert(m: Map<Seq<char>, Tree>, path: Seq<Seq<char>>, v: Tree)
    requires
        path.len() > 0,
        inserted(m, path, v) is Ok,
        value_at(m, path) is None,
        pruned_along(m, path),
    ensures
        removed(inserted(m, path, v)->Ok_0, path).0 == m,
    decreases path.len(),
{
    let m2 = inserted(m, path, v)->Ok_0;
    if path.len() == 1 {
        assert(m.insert(path[0], v).remove(path[0]) =~= m);
    } else {
        let rest = path.drop_first();
        if m.dom().contains(path[0]) {
            let c = m[path[0]]->Table_0;
            remove_undoes_insert(c, rest, v);
            assert(m2.insert(path[0], Tree::Table(c)) =~= m);
        } else {
            let c = Map::<Seq<char>, Tree>::empty();
            fresh_insert_succeeds(rest, v);
            remove_undoes_insert(c, rest, v);
            assert(m2.remove(path[0]) =~= m);
        }
    }
}

/// Removing a path leaves no empty table on the way along it.
pub proof fn removing_prunes(m: Map<Seq<char>, Tree>, path: Seq<Seq<char>>)
    requires
        path.len() > 0,
    ensures
        pruned_along(removed(m, path).0, path),
    decreases path.len(),
{
    if path.len() > 1 && m.dom().contains(path[0]) {
        if let Tree::Table(c) = m[path[0]] {
            removing_prunes(c, path.drop_first());
        }
    }
}

/// A leaf of the overlay wins.
pub proof fn overlay_leaf_wins(base: Tree, overlay: Tree, path: Seq<Seq<char>>)
    requires
        leaf_at(overlay, path) is Some,
    ensures
        leaf_at(merged(base, overlay), path) == leaf_at(overlay, path),
    decreases path.len(),
{
    if let (Tree::Table(b), Tree::Table(o)) = (base, overlay) {
        let k = path[0];
        if b.dom().contains(k) {
            overlay_leaf_wins(b[k], o[k], path.drop_first());
        }
    }
}

/// Whether an overlay says nothing along a path: it is a table, and where it
/// has the next key, it is a table again, until it has the key no more.
pub open spec fn silent(overlay: Tree, path: Seq<Seq<char>>) -> bool
    decreases path.len(),
{
    match overlay {
        Tree::Table(o) => path.len() > 0 && (o.dom().contains(path[0]) ==> silent(
            o[path[0]],
            path.drop_first(),
        )),
        _ => false,
    }
}

/// A leaf of the base of which the overlay says nothing survives.
pub proof fn untouched_leaf_survives(base: Tree, overlay: Tree, path: Seq<Seq<char>>)
    requires
        leaf_at(base, path) is Some,
        silent(overlay, path),
    ensures
        leaf_at(merged(base, overlay), path) == leaf_at(base, path),
    decreases path.len(),
{
    if let (Tree::Table(b), Tree::Table(o)) = (base, overlay) {
        let k = path[0];
        if o.dom().contains(k) {
            untouched_leaf_survives(b[k], o[k], path.drop_first());
        }
    }
}

/// Laying nothing over a table changes nothing.
pub proof fn empty_overlay_changes_nothing(b: Map<Seq<char>, Tree>)
    ensures
        merged(Tree::Table(b), Tree::Table(Map::empty())) == Tree::Table(b),
{
    let m = merged(Tree::Table(b), Tree::Table(Map::empty()))->Table_0;
    assert(m =~= b);
}

} // verus!
