//! JSON values.
use vstd::prelude::*;
use crate::order;
use crate::order::{compare_text, Order, Ordered};
use crate::string_map;
use crate::text::{copied, same_text};

verus! {

/// A JSON value as a mathematical object. A number is the text that spells
/// it; an object is its members in the order of their keys.
pub enum Json {
    Null,
    Bool(bool),
    Number(Seq<char>),
    Text(Seq<char>),
    Array(Seq<Json>),
    Object(Seq<(Seq<char>, Json)>),
}

/// A JSON value.
#[derive(Debug, PartialEq, Eq)]
pub enum Tree {
    Null,
    Bool(bool),
    /// A number, by the text that spells it.
    Number(String),
    Text(String),
    Array(Vec<Tree>),
    /// The members of an object, in the order of their keys.
    Object(Vec<(String, Tree)>),
}

impl View for Tree {
    type V = Json;

    open spec fn view(&self) -> Json
        decreases self,
    {
        match self {
            Tree::Null => Json::Null,
            Tree::Bool(b) => Json::Bool(*b),
            Tree::Number(n) => Json::Number(n@),
            Tree::Text(s) => Json::Text(s@),
            Tree::Array(items) => Json::Array(items_view(items@)),
            Tree::Object(entries) => Json::Object(entries_view(entries@)),
        }
    }
}

/// The contents of the items of an array.
pub open spec fn items_view(items: Seq<Tree>) -> Seq<Json>
    decreases items,
{
    Seq::new(
        items.len(),
        |i: int|
            if 0 <= i < items.len() {
                items[i].view()
            } else {
                Json::Null
            },
    )
}

/// The contents of the members of an object.
pub open spec fn entries_view(entries: Seq<(String, Tree)>) -> Seq<(Seq<char>, Json)>
    decreases entries,
{
    Seq::new(
        entries.len(),
        |i: int|
            if 0 <= i < entries.len() {
                (entries[i].0@, entries[i].1.view())
            } else {
                (Seq::empty(), Json::Null)
            },
    )
}

/// The member of an object with key `k`.
pub open spec fn member(j: Json, k: Seq<char>) -> Option<Json> {
    match j {
        Json::Object(entries) => string_map::lookup(entries, k),
        _ => None,
    }
}

/// Whether every object inside `j` has its keys in strictly increasing order.
pub open spec fn well_formed(j: Json) -> bool
    decreases j,
{
    match j {
        Json::Array(items) => forall|i: int|
            0 <= i < items.len() ==> well_formed(#[trigger] items[i]),
        Json::Object(entries) => {
            &&& order::sorted(string_map::keys_of(entries))
            &&& forall|i: int|
                0 <= i < entries.len() ==> well_formed((#[trigger] entries[i]).1)
        },
        _ => true,
    }
}

/// The first position of `key` among the members, or their number.
pub fn position_of(entries: &Vec<(String, Tree)>, key: &str) -> (n: usize)
    ensures
        n <= entries@.len(),
        forall|j: int| 0 <= j < n ==> (#[trigger] entries_view(entries@)[j]).0 != key@,
        n < entries@.len() ==> entries_view(entries@)[n as int].0 == key@,
        string_map::lookup(entries_view(entries@), key@) == (if n < entries@.len() {
            Some(entries@[n as int].1@)
        } else {
            None
        }),
{
    let ghost view = entries_view(entries@);
    let mut n: usize = 0;
    while n < entries.len()
        invariant
            n <= entries@.len(),
            view == entries_view(entries@),
            forall|j: int| 0 <= j < n ==> (#[trigger] view[j]).0 != key@,
        decreases entries@.len() - n,
    {
        if same_text(entries[n].0.as_str(), key) {
            proof {
                string_map::lemma_first_key(view, key@, n as int);
            }
            return n;
        }
        n += 1;
    }
    proof {
        string_map::lemma_first_key(view, key@, n as int);
    }
    n
}

/// Stores a member, in the place that the order of the keys gives it.
pub fn put_member(entries: &mut Vec<(String, Tree)>, key: String, value: Tree)
    ensures
        entries_view(final(entries)@) == string_map::put(
            entries_view(old(entries)@),
            key@,
            value@,
        ),
{
    let ghost before = entries_view(entries@);
    let mut n: usize = 0;
    while n < entries.len()
        invariant
            n <= entries@.len(),
            *entries == *old(entries),
            before == entries_view(entries@),
            forall|j: int| 0 <= j < n ==> (#[trigger] before[j]).0.before(key@),
        ensures
            n <= entries@.len(),
            n < entries@.len() ==> before[n as int].0 == key@ || key@.before(before[n as int].0),
        decreases entries@.len() - n,
    {
        match compare_text(entries[n].0.as_str(), key.as_str()) {
            Order::Less => {
                n += 1;
            },
            _ => {
                break;
            },
        }
    }
    let ghost kv = key@;
    let ghost wv = value@;
    proof {
        string_map::lemma_put_at(before, kv, wv, n as int);
    }
    if n < entries.len() && entries[n].0 == key {
        entries.set(n, (key, value));
        assert(entries_view(entries@) =~= before.update(n as int, (kv, wv)));
    } else {
        entries.insert(n, (key, value));
        assert(entries_view(entries@) =~= before.insert(n as int, (kv, wv)));
    }
}

impl Tree {
    /// The member of an object with key `key`.
    pub fn get(&self, key: &str) -> (r: Option<&Tree>)
        ensures
            match (r, member(self@, key@)) {
                (Some(v), Some(w)) => v@ == w,
                (None, None) => true,
                _ => false,
            },
    {
        match self {
            Tree::Object(entries) => {
                let n: usize = position_of(entries, key);
                if n < entries.len() {
                    Some(&entries[n].1)
                } else {
                    None
                }
            },
            _ => None,
        }
    }

    /// A copy of the value.
    pub fn copied(&self) -> (r: Tree)
        ensures
            r@ == self@,
        decreases self,
    {
        match self {
            Tree::Null => Tree::Null,
            Tree::Bool(b) => Tree::Bool(*b),
            Tree::Number(n) => Tree::Number(copied(n)),
            Tree::Text(s) => Tree::Text(copied(s)),
            Tree::Array(items) => {
                let mut out: Vec<Tree> = Vec::new();
                let mut i: usize = 0;
                while i < items.len()
                    invariant
                        i <= items@.len(),
                        self matches Tree::Array(v) && v == items,
                        out@.len() == i,
                        forall|k: int| 0 <= k < i ==> (#[trigger] out@[k])@ == items@[k]@,
                    decreases items@.len() - i,
                {
                    out.push(items[i].copied());
                    i += 1;
                }
                assert(items_view(out@) =~= items_view(items@));
                Tree::Array(out)
            },
            Tree::Object(entries) => {
                let mut out: Vec<(String, Tree)> = Vec::new();
                let mut i: usize = 0;
                while i < entries.len()
                    invariant
                        i <= entries@.len(),
                        self matches Tree::Object(v) && v == entries,
                        out@.len() == i,
                        forall|k: int|
                            0 <= k < i ==> (#[trigger] out@[k]).0@ == entries@[k].0@ && out@[k].1@
                                == entries@[k].1@,
                    decreases entries@.len() - i,
                {
                    out.push((copied(&entries[i].0), entries[i].1.copied()));
                    i += 1;
                }
                assert(entries_view(out@) =~= entries_view(entries@));
                Tree::Object(out)
            },
        }
    }
}

// ---------------------------------------------------------------------------
// Reading JSON
// ---------------------------------------------------------------------------

/// A value of `serde_json`.
#[verifier::external_type_specification]
#[verifier::external_body]
pub struct ExValue(serde_json::Value);

/// What a value of `serde_json` holds: its numbers by the text that
/// `serde_json` spells them with, the members of its objects in the order of
/// their keys.
pub uninterp spec fn held(value: serde_json::Value) -> Json;

/// What `serde_json` reads in a text: the value that the whole of it spells,
/// or nothing where it is no JSON.
pub uninterp spec fn parsed_json(text: Seq<char>) -> Option<Json>;

/// The outermost layer of a value of `serde_json`.
pub enum Layer {
    Null,
    Bool(bool),
    Number(String),
    Text(String),
    Array(Vec<serde_json::Value>),
    Object(Vec<(String, serde_json::Value)>),
}

/// What the value under a layer holds.
pub open spec fn layer_held(layer: Layer) -> Json {
    match layer {
        Layer::Null => Json::Null,
        Layer::Bool(b) => Json::Bool(b),
        Layer::Number(n) => Json::Number(n@),
        Layer::Text(s) => Json::Text(s@),
        Layer::Array(items) => Json::Array(
            items@.map_values(|v: serde_json::Value| held(v)),
        ),
        Layer::Object(entries) => Json::Object(
            entries@.map_values(|e: (String, serde_json::Value)| (e.0@, held(e.1))),
        ),
    }
}

/// What an optional value of `serde_json` holds.
pub open spec fn opt_held(value: Option<serde_json::Value>) -> Option<Json> {
    match value {
        Some(v) => Some(held(v)),
        None => None,
    }
}

/// The contents of an optional value.
pub open spec fn opt_view(value: Option<Tree>) -> Option<Json> {
    match value {
        Some(v) => Some(v@),
        None => None,
    }
}

/// `serde_json::from_str` into a `serde_json::Value`: the value that the whole
/// text spells, or `None` for any error. The result is named, not described.
#[verifier::external_body]
fn parse_value(text: &str) -> (r: Option<serde_json::Value>)
    ensures
        opt_held(r) == parsed_json(text@),
{
    serde_json::from_str::<serde_json::Value>(text).ok()
}

/// The variants of `serde_json::Value`, one for one: what a value holds is its
/// outermost layer and what the values inside that hold. A number is spelled
/// by `serde_json::Number::to_string`.
#[verifier::external_body]
fn layer_of(value: serde_json::Value) -> (r: Layer)
    ensures
        layer_held(r) == held(value),
{
    match value {
        serde_json::Value::Null => Layer::Null,
        serde_json::Value::Bool(b) => Layer::Bool(b),
        serde_json::Value::Number(n) => Layer::Number(n.to_string()),
        serde_json::Value::String(s) => Layer::Text(s),
        serde_json::Value::Array(items) => Layer::Array(items),
        serde_json::Value::Object(members) => Layer::Object(members.into_iter().collect()),
    }
}

/// The value that `value` holds.
fn tree_of(value: serde_json::Value) -> (r: Tree)
    ensures
        r@ == held(value),
    decreases held(value),
{
    let ghost whole = held(value);
    match layer_of(value) {
        Layer::Null => Tree::Null,
        Layer::Bool(b) => Tree::Bool(b),
        Layer::Number(n) => Tree::Number(n),
        Layer::Text(s) => Tree::Text(s),
        Layer::Array(items) => {
            let mut out: Vec<Tree> = Vec::new();
            for v in it: items
                invariant
                    it.seq() == items@,
                    whole == held(value),
                    whole == Json::Array(items@.map_values(|v: serde_json::Value| held(v))),
                    out@.len() == it.index(),
                    forall|k: int| 0 <= k < out@.len() ==> (#[trigger] out@[k])@ == held(items@[k]),
            {
                assert(whole->Array_0[it.index() as int] == held(v));
                assert(decreases_to!(whole => whole->Array_0[it.index() as int]));
                out.push(tree_of(v));
            }
            assert(items_view(out@) =~= whole->Array_0);
            Tree::Array(out)
        },
        Layer::Object(entries) => {
            let mut out: Vec<(String, Tree)> = Vec::new();
            for e in it: entries
                invariant
                    it.seq() == entries@,
                    whole == held(value),
                    whole == Json::Object(
                        entries@.map_values(|e: (String, serde_json::Value)| (e.0@, held(e.1))),
                    ),
                    out@.len() == it.index(),
                    forall|k: int|
                        0 <= k < out@.len() ==> (#[trigger] out@[k]).0@ == entries@[k].0@ && out@[k].1@
                            == held(entries@[k].1),
            {
                assert(whole->Object_0[it.index() as int].1 == held(e.1));
                assert(decreases_to!(whole => whole->Object_0[it.index() as int].1));
                out.push((e.0, tree_of(e.1)));
            }
            assert(entries_view(out@) =~= whole->Object_0);
            Tree::Object(out)
        },
    }
}

/// Reads the JSON value that the whole of `text` spells.
pub fn parse_json(text: &str) -> (r: Option<Tree>)
    ensures
        opt_view(r) == parsed_json(text@),
{
    match parse_value(text) {
        Some(value) => Some(tree_of(value)),
        None => None,
    }
}

/// A member of an object is found under its key; nothing else has members.
pub proof fn lemma_member(
    before: Seq<(Seq<char>, Json)>,
    k: Seq<char>,
    w: Json,
    after: Seq<(Seq<char>, Json)>,
    j: Json,
)
    requires
        forall|i: int| 0 <= i < before.len() ==> (#[trigger] before[i]).0 != k,
    ensures
        member(Json::Object(before + seq![(k, w)] + after), k) == Some(w),
        member(Json::Object(before), k) is None,
        !(j is Object) ==> member(j, k) is None,
{
    let s = before + seq![(k, w)] + after;
    let n = before.len() as int;
    assert forall|i: int| 0 <= i < n implies (#[trigger] s[i]).0 != k by {
        assert(s[i] == before[i]);
    }
    assert(s[n] == (k, w));
    string_map::lemma_first_key(s, k, n);
    string_map::lemma_first_key(before, k, n);
}

} // verus!
