//! Reading TOML text into a tree of values.

use vstd::prelude::*;

use crate::value::{trees, Node, Table, Tree};

verus! {

broadcast use {vstd::seq::group_seq_axioms, vstd::map::group_map_axioms};

/// A value of the `toml` crate.
#[verifier::external_type_specification]
#[verifier::external_body]
pub struct ExTomlValue(toml::Value);

/// What a value of the `toml` crate holds.
pub uninterp spec fn toml_holds(v: toml::Value) -> Tree;

/// What a text reads as: a tree, or the words in which it is refused.
pub uninterp spec fn toml_tree(text: Seq<char>) -> Result<Tree, Seq<char>>;

/// One level of a value.
enum Level {
    Str(String),
    Int(i64),
    Float(u64),
    Bool(bool),
    Datetime(String),
    Array(Vec<toml::Value>),
    Table(Vec<(String, toml::Value)>),
}

/// What the values of an array hold.
spec fn held(s: Seq<toml::Value>) -> Seq<Tree> {
    s.map_values(|v: toml::Value| toml_holds(v))
}

/// What the entries of a table hold.
spec fn held_by_key(s: Seq<(String, toml::Value)>) -> Map<Seq<char>, Tree>
    decreases s.len(),
{
    if s.len() == 0 {
        Map::empty()
    } else {
        held_by_key(s.drop_last()).insert(s.last().0@, toml_holds(s.last().1))
    }
}

/// Whether no key is there twice.
spec fn keys_differ(s: Seq<(String, toml::Value)>) -> bool {
    forall|i: int, j: int| 0 <= i < j < s.len() ==> (#[trigger] s[i]).0@ != (#[trigger] s[j]).0@
}

/// Takes a `toml::Value` apart, one level deep. What it holds is named by
/// [`toml_holds`]; a table yields each of its keys once, and a number its bits.
#[verifier::external_body]
fn open(v: toml::Value) -> (r: Level)
    ensures
        match r {
            Level::Str(s) => toml_holds(v) == Tree::Str(s@),
            Level::Int(n) => toml_holds(v) == Tree::Int(n),
            Level::Float(b) => toml_holds(v) == Tree::Float(b),
            Level::Bool(b) => toml_holds(v) == Tree::Bool(b),
            Level::Datetime(s) => toml_holds(v) == Tree::Datetime(s@),
            Level::Array(a) => toml_holds(v) == Tree::Array(held(a@)),
            Level::Table(t) => toml_holds(v) == Tree::Table(held_by_key(t@)) && keys_differ(t@),
        },
{
    match v {
        toml::Value::String(s) => Level::Str(s),
        toml::Value::Integer(n) => Level::Int(n),
        toml::Value::Float(f) => Level::Float(f.to_bits()),
        toml::Value::Boolean(b) => Level::Bool(b),
        toml::Value::Datetime(d) => Level::Datetime(d.to_string()),
        toml::Value::Array(a) => Level::Array(a),
        toml::Value::Table(t) => Level::Table(t.into_iter().collect()),
    }
}

/// Calls `toml::from_str`. Whether a text is accepted, what it holds, and the
/// words in which it is refused are functions of the text, named by
/// [`toml_tree`].
#[verifier::external_body]
fn parse_text(text: &str) -> (r: Result<toml::Value, String>)
    ensures
        match r {
            Ok(v) => toml_tree(text@) == Ok::<Tree, Seq<char>>(toml_holds(v)),
            Err(e) => toml_tree(text@) == Err::<Tree, Seq<char>>(e@),
        },
{
    toml::from_str::<toml::Value>(text).map_err(|e| e.to_string())
}

proof fn held_entry(s: Seq<(String, toml::Value)>, i: int)
    requires
        keys_differ(s),
        0 <= i < s.len(),
    ensures
        held_by_key(s).dom().contains(s[i].0@),
        held_by_key(s)[s[i].0@] == toml_holds(s[i].1),
    decreases s.len(),
{
    if i < s.len() - 1 {
        let d = s.drop_last();
        assert forall|a: int, b: int| 0 <= a < b < d.len() implies (#[trigger] d[a]).0@ != (
        #[trigger] d[b]).0@ by {
            assert(s[a].0@ != s[b].0@);
        }
        held_entry(d, i);
        assert(s[i].0@ != s.last().0@);
    }
}

proof fn held_is_finite(s: Seq<(String, toml::Value)>)
    ensures
        held_by_key(s).dom().finite(),
    decreases s.len(),
{
    broadcast use vstd::set::group_set_axioms;

    if s.len() > 0 {
        held_is_finite(s.drop_last());
    }
}

fn convert(v: toml::Value) -> (r: Node)
    ensures
        r.tree() == toml_holds(v),
    decreases toml_holds(v),
{
    match open(v) {
        Level::Str(s) => Node::Str(s),
        Level::Int(n) => Node::Int(n),
        Level::Float(b) => Node::Float(b),
        Level::Bool(b) => Node::Bool(b),
        Level::Datetime(s) => Node::Datetime(s),
        Level::Array(a) => {
            let ghost all = held(a@);
            let n: usize = a.len();
            let mut rest = a;
            let mut out: Vec<Node> = Vec::new();
            while out.len() < n
                invariant
                    toml_holds(v) == Tree::Array(all),
                    all.len() == n,
                    out@.len() <= n,
                    rest@.len() == n - out@.len(),
                    held(rest@) == all.skip(out@.len() as int),
                    trees(out@) == all.take(out@.len() as int),
                decreases n - out@.len(),
            {
                let ghost k = out@.len() as int;
                let ghost left = rest@;
                let x = rest.remove(0);
                proof {
                    assert(all.skip(k)[0] == all[k]);
                    assert(held(left)[0] == toml_holds(x));
                    assert forall|i: int| 0 <= i < rest@.len() implies #[trigger] held(rest@)[i]
                        == all.skip(k + 1)[i] by {
                        assert(held(left)[i + 1] == all.skip(k)[i + 1]);
                    }
                    assert(held(rest@) == all.skip(k + 1));
                    assert(decreases_to!(toml_holds(v) => toml_holds(v)->Array_0));
                    assert(decreases_to!(all => all[k]));
                }
                let y = convert(x);
                let ghost before = out@;
                out.push(y);
                proof {
                    assert(out@.drop_last() == before);
                    assert(all.take(k + 1) == all.take(k).push(all[k]));
                }
            }
            assert(all.take(n as int) == all);
            Node::Array(out)
        },
        Level::Table(t) => {
            let ghost all = t@;
            let n: usize = t.len();
            let mut rest = t;
            let mut out = Table::new();
            let mut i: usize = 0;
            assert(all.take(0).len() == 0);
            while i < n
                invariant
                    toml_holds(v) == Tree::Table(held_by_key(all)),
                    keys_differ(all),
                    all.len() == n,
                    i <= n,
                    rest@ == all.skip(i as int),
                    out.map() == held_by_key(all.take(i as int)),
                decreases n - i,
            {
                let (key, x) = rest.remove(0);
                proof {
                    assert(all.skip(i as int)[0] == all[i as int]);
                    assert(rest@ == all.skip(i + 1));
                    held_entry(all, i as int);
                    held_is_finite(all);
                    assert(decreases_to!(toml_holds(v) => toml_holds(v)->Table_0));
                    assert(decreases_to!(held_by_key(all) => held_by_key(all)[key@]));
                    assert(all.take(i + 1).drop_last() == all.take(i as int));
                    assert(all.take(i + 1).last() == all[i as int]);
                }
                let y = convert(x);
                out.insert(key, y);
                i = i + 1;
            }
            assert(all.take(n as int) == all);
            Node::Table(out)
        },
    }
}

/// Read a text.
pub fn read_value(text: &str) -> (r: Result<Node, String>)
    ensures
        match r {
            Ok(v) => toml_tree(text@) == Ok::<Tree, Seq<char>>(v.tree()),
            Err(e) => toml_tree(text@) == Err::<Tree, Seq<char>>(e@),
        },
{
    match parse_text(text) {
        Ok(v) => Ok(convert(v)),
        Err(e) => Err(e),
    }
}

} // verus!
