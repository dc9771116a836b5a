//! JSON documents with comments, as `jsonc_parser` keeps them: edits leave the
//! comments and the layout of the rest alone.
//!
//! A document is known here by the value in it, with the members of every
//! object in the order of the text, and by its comments. A `CstRootNode` is a handle on shared
//! nodes, so every edit takes it by `&mut`, and no other handle on the same
//! nodes is ever handed out.
use vstd::prelude::*;
use crate::json::Json;
use crate::string_map;
use crate::text;

verus! {

/// A document of `jsonc_parser`.
#[verifier::external_type_specification]
#[verifier::external_body]
pub struct ExCstRootNode(jsonc_parser::cst::CstRootNode);

/// A value to put into a document of `jsonc_parser`.
#[verifier::external_type_specification]
#[verifier::external_body]
pub struct ExCstInputValue(jsonc_parser::cst::CstInputValue);

/// The value in a document; a document of comments and white space has none.
pub uninterp spec fn document_value(doc: jsonc_parser::cst::CstRootNode) -> Option<Json>;

/// The comments in a document, in the order of the text. Each has the keys of
/// the members whose values it stands in, from the outermost to the innermost.
pub uninterp spec fn document_comments(doc: jsonc_parser::cst::CstRootNode) -> Seq<
    (Seq<Seq<char>>, Seq<char>),
>;

/// Whether every two neighbouring members or items in a document have a comma
/// between them. `jsonc_parser` reads texts without those commas too.
pub uninterp spec fn document_commas(doc: jsonc_parser::cst::CstRootNode) -> bool;

/// The text of a document.
pub uninterp spec fn document_text(doc: jsonc_parser::cst::CstRootNode) -> Seq<char>;

/// The value that an input value stands for.
pub uninterp spec fn input_value(value: jsonc_parser::cst::CstInputValue) -> Json;

/// What `jsonc_parser` makes of a text: the value and the comments in it, and
/// whether every two neighbours have a comma between them; or the description of
/// what is wrong with it.
pub uninterp spec fn parsed_document(text: Seq<char>) -> Result<
    (Option<Json>, Seq<(Seq<Seq<char>>, Seq<char>)>, bool),
    Seq<char>,
>;

/// What is known of a document besides its text.
pub open spec fn contents(doc: jsonc_parser::cst::CstRootNode) -> (
    Option<Json>,
    Seq<(Seq<Seq<char>>, Seq<char>)>,
    bool,
) {
    (document_value(doc), document_comments(doc), document_commas(doc))
}

/// The comments that are in the value of a member other than `key` of the object
/// in a document.
pub open spec fn elsewhere(
    comments: Seq<(Seq<Seq<char>>, Seq<char>)>,
    key: Seq<char>,
) -> Seq<(Seq<Seq<char>>, Seq<char>)> {
    comments.filter(|c: (Seq<Seq<char>>, Seq<char>)| c.0.len() > 0 && c.0[0] != key)
}

/// The comments that are not in the value that `path` leads to.
pub open spec fn outside(
    comments: Seq<(Seq<Seq<char>>, Seq<char>)>,
    path: Seq<Seq<char>>,
) -> Seq<(Seq<Seq<char>>, Seq<char>)> {
    comments.filter(|c: (Seq<Seq<char>>, Seq<char>)| !path.is_prefix_of(c.0))
}

/// Whether a place is in the value of one of the members `keys` of the object
/// that `path` leads to.
pub open spec fn is_inside(
    place: Seq<Seq<char>>,
    path: Seq<Seq<char>>,
    keys: Seq<Seq<char>>,
) -> bool {
    exists|i: int| 0 <= i < keys.len() && path.push(#[trigger] keys[i]).is_prefix_of(place)
}

/// The comments that are in none of the values of the members `keys` of the
/// object that `path` leads to.
pub open spec fn beside(
    comments: Seq<(Seq<Seq<char>>, Seq<char>)>,
    path: Seq<Seq<char>>,
    keys: Seq<Seq<char>>,
) -> Seq<(Seq<Seq<char>>, Seq<char>)> {
    comments.filter(|c: (Seq<Seq<char>>, Seq<char>)| !is_inside(c.0, path, keys))
}

/// The contents of a list of named input values.
pub open spec fn property_values(
    list: Seq<(String, jsonc_parser::cst::CstInputValue)>,
) -> Seq<(Seq<char>, Json)> {
    list.map_values(|p: (String, jsonc_parser::cst::CstInputValue)| (p.0@, input_value(p.1)))
}

/// The contents of a list of input values.
pub open spec fn element_values(list: Seq<jsonc_parser::cst::CstInputValue>) -> Seq<Json> {
    list.map_values(|v: jsonc_parser::cst::CstInputValue| input_value(v))
}

/// The members of the object that `path` leads to, key by key.
pub open spec fn at_path(j: Option<Json>, path: Seq<Seq<char>>) -> Option<Seq<(Seq<char>, Json)>>
    decreases path.len(),
{
    match j {
        Some(Json::Object(entries)) => if path.len() == 0 {
            Some(entries)
        } else {
            at_path(string_map::lookup(entries, path[0]), path.drop_first())
        },
        _ => None,
    }
}

/// `j` with other members in the object that `path` leads to.
pub open spec fn with_path(
    j: Json,
    path: Seq<Seq<char>>,
    entries: Seq<(Seq<char>, Json)>,
) -> Json
    decreases path.len(),
{
    if path.len() == 0 {
        Json::Object(entries)
    } else {
        match j {
            Json::Object(all) => match string_map::lookup(all, path[0]) {
                Some(inner) => Json::Object(
                    string_map::with_value(
                        all,
                        path[0],
                        with_path(inner, path.drop_first(), entries),
                    ),
                ),
                None => j,
            },
            _ => j,
        }
    }
}

/// The contents of what parsing gives.
pub open spec fn outcome(
    r: Result<jsonc_parser::cst::CstRootNode, String>,
) -> Result<(Option<Json>, Seq<(Seq<Seq<char>>, Seq<char>)>, bool), Seq<char>> {
    match r {
        Ok(doc) => Ok(contents(doc)),
        Err(e) => Err(e@),
    }
}

/// Whether parsing gave a document that holds an empty object.
pub open spec fn holds_empty_object(r: Result<jsonc_parser::cst::CstRootNode, String>) -> bool {
    r matches Ok(doc) && document_value(doc) == Some(Json::Object(Seq::empty()))
}

/// Whether a document that parsing gave has this text.
pub open spec fn has_text(
    r: Result<jsonc_parser::cst::CstRootNode, String>,
    text: Seq<char>,
) -> bool {
    r matches Ok(doc) ==> document_text(doc) == text
}

/// How many arrays, members and objects `jsonc_parser` opens inside one another
/// when it reads a text, at most.
pub open spec fn nesting_limit() -> int {
    512
}

/// Whether `j` can be read where `n` more arrays, members and objects may be
/// opened.
pub open spec fn fits(j: Json, n: int) -> bool
    decreases j,
{
    &&& n >= 0
    &&& match j {
        Json::Array(items) => forall|i: int|
            0 <= i < items.len() ==> fits(#[trigger] items[i], n - 1),
        Json::Object(entries) => forall|i: int|
            0 <= i < entries.len() ==> fits((#[trigger] entries[i]).1, n - 2),
        _ => true,
    }
}

/// Whether a text alone is read as the number that it spells.
pub open spec fn is_number_text(s: Seq<char>) -> bool {
    parsed_document(s) matches Ok(p) && p.0 == Some(Json::Number(s))
}

/// Whether every number in `j` is read as it is spelled.
pub open spec fn is_spelled(j: Json) -> bool
    decreases j,
{
    match j {
        Json::Number(s) => is_number_text(s),
        Json::Array(items) => forall|i: int|
            0 <= i < items.len() ==> is_spelled(#[trigger] items[i]),
        Json::Object(entries) => forall|i: int|
            0 <= i < entries.len() ==> is_spelled((#[trigger] entries[i]).1),
        _ => true,
    }
}

/// Whether a value is written between quotation marks, brackets or braces, so
/// that it cannot run into what is next to it.
pub open spec fn is_delimited(j: Json) -> bool {
    j is Text || j is Array || j is Object
}

/// Whether the value in a document is not nested too deeply to be read.
pub open spec fn is_shallow(doc: jsonc_parser::cst::CstRootNode) -> bool {
    document_value(doc) matches Some(j) ==> fits(j, nesting_limit())
}

/// Whether a document that parsing gave is not nested too deeply to be read.
pub open spec fn gave_shallow(r: Result<jsonc_parser::cst::CstRootNode, String>) -> bool {
    r matches Ok(doc) ==> is_shallow(doc)
}

/// Whether reading the text of a document gives the value and the comments in it.
pub open spec fn reads_back(doc: jsonc_parser::cst::CstRootNode) -> bool {
    parsed_document(document_text(doc)) matches Ok(p) && p == contents(doc)
}

/// Whether an edit that led from one document to another took no comma from
/// between two neighbours and added no two without one.
pub open spec fn keeps_commas(
    before: jsonc_parser::cst::CstRootNode,
    after: jsonc_parser::cst::CstRootNode,
) -> bool {
    document_commas(before) ==> document_commas(after)
}

/// Whether the values of all members are delimited.
pub open spec fn all_delimited(entries: Seq<(Seq<char>, Json)>) -> bool {
    forall|i: int| 0 <= i < entries.len() ==> is_delimited((#[trigger] entries[i]).1)
}

/// Whether an edit that led from one document to another left a text that reads
/// back, where the text did before and the value is not nested too deeply.
pub open spec fn stays_readable(
    before: jsonc_parser::cst::CstRootNode,
    after: jsonc_parser::cst::CstRootNode,
) -> bool {
    reads_back(before) && is_shallow(after) ==> reads_back(after)
}

/// A document that holds an empty object.
pub const EMPTY_OBJECT: &'static str = "{}\n";

/// `CstInputValue::Null`.
#[verifier::external_body]
pub(crate) fn input_null() -> (r: jsonc_parser::cst::CstInputValue)
    ensures
        input_value(r) == Json::Null,
{
    jsonc_parser::cst::CstInputValue::Null
}

/// `CstInputValue::Bool`.
#[verifier::external_body]
pub(crate) fn input_bool(b: bool) -> (r: jsonc_parser::cst::CstInputValue)
    ensures
        input_value(r) == Json::Bool(b),
{
    jsonc_parser::cst::CstInputValue::Bool(b)
}

/// `CstInputValue::Number`, which takes the text that spells the number.
#[verifier::external_body]
pub(crate) fn input_number(spelled: String) -> (r: jsonc_parser::cst::CstInputValue)
    ensures
        input_value(r) == Json::Number(spelled@),
{
    jsonc_parser::cst::CstInputValue::Number(spelled)
}

/// `CstInputValue::String`.
#[verifier::external_body]
pub(crate) fn input_text(s: String) -> (r: jsonc_parser::cst::CstInputValue)
    ensures
        input_value(r) == Json::Text(s@),
{
    jsonc_parser::cst::CstInputValue::String(s)
}

/// `CstInputValue::Array`.
#[verifier::external_body]
pub(crate) fn input_array(items: Vec<jsonc_parser::cst::CstInputValue>) -> (r:
    jsonc_parser::cst::CstInputValue)
    ensures
        input_value(r) == Json::Array(element_values(items@)),
{
    jsonc_parser::cst::CstInputValue::Array(items)
}

/// `CstInputValue::Object`, with the members in the given order.
#[verifier::external_body]
pub(crate) fn input_object(members: Vec<(String, jsonc_parser::cst::CstInputValue)>) -> (r:
    jsonc_parser::cst::CstInputValue)
    ensures
        input_value(r) == Json::Object(property_values(members@)),
{
    jsonc_parser::cst::CstInputValue::Object(members)
}

/// `CstRootNode::parse` with the default options: the document in a text, or
/// the description of the error. Every part of the text becomes a part of the
/// document, white space and comments too, so that the document has the text
/// that it was read from. A text that is nested more deeply than the limit is an
/// error. An empty object on a line of its own is a document.
#[verifier::external_body]
pub(crate) fn parse_document(text: &str) -> (r: Result<jsonc_parser::cst::CstRootNode, String>)
    ensures
        outcome(r) == parsed_document(text@),
        has_text(r, text@),
        gave_shallow(r),
        text@ == EMPTY_OBJECT@ ==> holds_empty_object(r),
{
    jsonc_parser::cst::CstRootNode::parse(text, &jsonc_parser::ParseOptions::default())
        .map_err(|e| e.to_string())
}

/// `CstRootNode::object_value`: whether the value in the document is an
/// object.
#[verifier::external_body]
pub(crate) fn is_object(doc: &jsonc_parser::cst::CstRootNode) -> (r: bool)
    ensures
        r == (document_value(*doc) matches Some(Json::Object(_))),
{
    doc.object_value().is_some()
}

/// `CstRootNode::set_value`: puts a value in the place of the one in the
/// document. Only white space and comments are next to it, so that the text
/// still reads back when the numbers in the value do.
#[verifier::external_body]
pub(crate) fn set_document(
    doc: &mut jsonc_parser::cst::CstRootNode,
    value: jsonc_parser::cst::CstInputValue,
)
    ensures
        document_value(*final(doc)) == Some(input_value(value)),
        document_commas(*final(doc)),
        document_value(*old(doc)) is Some && is_spelled(input_value(value)) ==> stays_readable(
            *old(doc),
            *final(doc),
        ),
{
    doc.set_value(value);
}

/// `CstObject::get`: whether the object at `path` has a member with the key.
#[verifier::external_body]
pub(crate) fn has_property(
    doc: &jsonc_parser::cst::CstRootNode,
    path: &Vec<String>,
    key: &str,
) -> (r: bool)
    ensures
        r == (at_path(document_value(*doc), text::views(path@)) matches Some(entries)
            && string_map::lookup(entries, key@) is Some),
{
    path.iter()
        .fold(doc.object_value(), |o, k| o.and_then(|o| o.object_value(k)))
        .and_then(|o| o.get(key))
        .is_some()
}

/// `CstObjectProp::set_value`: puts a value in the place of that of the first
/// member with the key, in the object at `path`. Only comments in the value that
/// goes are lost. The value is written where the old one was, strings escaped and
/// members and items with commas between them, so that the text still reads back
/// when the numbers in the value do and it cannot run into the next key: a comma
/// is between them, or the value is delimited.
#[verifier::external_body]
pub(crate) fn set_property(
    doc: &mut jsonc_parser::cst::CstRootNode,
    path: &Vec<String>,
    key: &str,
    value: jsonc_parser::cst::CstInputValue,
)
    requires
        at_path(document_value(*old(doc)), text::views(path@)) matches Some(entries)
            && string_map::lookup(entries, key@) is Some,
    ensures
        document_value(*final(doc)) == Some(
            with_path(
                document_value(*old(doc))->0,
                text::views(path@),
                string_map::with_value(
                    at_path(document_value(*old(doc)), text::views(path@))->0,
                    key@,
                    input_value(value),
                ),
            ),
        ),
        outside(document_comments(*final(doc)), text::views(path@).push(key@)) == outside(
            document_comments(*old(doc)),
            text::views(path@).push(key@),
        ),
        keeps_commas(*old(doc), *final(doc)),
        is_spelled(input_value(value)) && (is_delimited(input_value(value)) || document_commas(
            *old(doc),
        )) ==> stays_readable(*old(doc), *final(doc)),
{
    path.iter()
        .fold(doc.object_value(), |o, k| o.and_then(|o| o.object_value(k)))
        .and_then(|o| o.get(key))
        .map(|p| p.set_value(value));
}

/// `CstObject::append`: adds a member at the end of the object at `path`. It
/// adds commas and arranges white space, and leaves the comments as they are.
/// The member has a comma and a line break before it, which ends a comment too,
/// and nothing but a comma, white space, comments and the closing brace after it,
/// so that the text still reads back when the numbers in the value do.
#[verifier::external_body]
pub(crate) fn append_property(
    doc: &mut jsonc_parser::cst::CstRootNode,
    path: &Vec<String>,
    key: &str,
    value: jsonc_parser::cst::CstInputValue,
)
    requires
        at_path(document_value(*old(doc)), text::views(path@)) is Some,
    ensures
        document_value(*final(doc)) == Some(
            with_path(
                document_value(*old(doc))->0,
                text::views(path@),
                at_path(document_value(*old(doc)), text::views(path@))->0.push(
                    (key@, input_value(value)),
                ),
            ),
        ),
        document_comments(*final(doc)) == document_comments(*old(doc)),
        keeps_commas(*old(doc), *final(doc)),
        is_spelled(input_value(value)) ==> stays_readable(*old(doc), *final(doc)),
{
    path.iter()
        .fold(doc.object_value(), |o, k| o.and_then(|o| o.object_value(k)))
        .map(|o| o.append(key, value));
}

/// `entries` with an object under `key`: the one that is there, or else an
/// empty one, in the place of another value or at the end.
pub open spec fn with_object(
    entries: Seq<(Seq<char>, Json)>,
    key: Seq<char>,
) -> Seq<(Seq<char>, Json)> {
    match string_map::lookup(entries, key) {
        Some(Json::Object(_)) => entries,
        Some(_) => string_map::with_value(entries, key, Json::Object(Seq::empty())),
        None => entries.push((key, Json::Object(Seq::empty()))),
    }
}

/// `CstObject::object_value_or_set`: makes sure that the object at `path` has
/// an object under the key. A value of another kind is replaced, and comments in
/// it are lost. What is written is a pair of braces, or a member that is appended
/// with one, so that the text still reads back.
#[verifier::external_body]
pub(crate) fn ensure_object_property(
    doc: &mut jsonc_parser::cst::CstRootNode,
    path: &Vec<String>,
    key: &str,
)
    requires
        at_path(document_value(*old(doc)), text::views(path@)) is Some,
    ensures
        document_value(*final(doc)) == Some(
            with_path(
                document_value(*old(doc))->0,
                text::views(path@),
                with_object(at_path(document_value(*old(doc)), text::views(path@))->0, key@),
            ),
        ),
        outside(document_comments(*final(doc)), text::views(path@).push(key@)) == outside(
            document_comments(*old(doc)),
            text::views(path@).push(key@),
        ),
        keeps_commas(*old(doc), *final(doc)),
        stays_readable(*old(doc), *final(doc)),
{
    path.iter()
        .fold(doc.object_value(), |o, k| o.and_then(|o| o.object_value(k)))
        .map(|o| o.object_value_or_set(key));
}

/// `CstObject::object_value_or_create` on the object in the document: makes
/// sure that it has an object under the key, and answers `false`, with nothing
/// changed, when there is a value of another kind. The comments stay, and the
/// text still reads back.
#[verifier::external_body]
pub(crate) fn open_object_property(
    doc: &mut jsonc_parser::cst::CstRootNode,
    key: &str,
) -> (r: bool)
    requires
        document_value(*old(doc)) matches Some(Json::Object(_)),
    ensures
        ({
            let entries = document_value(*old(doc))->0->Object_0;
            match string_map::lookup(entries, key@) {
                Some(Json::Object(_)) => r && document_value(*final(doc)) == document_value(
                    *old(doc),
                ),
                Some(_) => !r && document_value(*final(doc)) == document_value(*old(doc)),
                None => r && document_value(*final(doc)) == Some(
                    Json::Object(entries.push((key@, Json::Object(Seq::empty())))),
                ),
            }
        }),
        document_comments(*final(doc)) == document_comments(*old(doc)),
        keeps_commas(*old(doc), *final(doc)),
        stays_readable(*old(doc), *final(doc)),
{
    doc.object_value().and_then(|o| o.object_value_or_create(key)).is_some()
}

/// `CstObjectProp::remove`: takes the first member with the key out of the
/// object in the document, with its comma, or with the one before it when it is
/// the last. White space and comments on its line go too, but never the line
/// break before it, so that a comment on the line above still ends there; what is
/// in the values of other members stays. The text still reads back, since a comma
/// is between the neighbours or no value can run into the next key. Where a comma
/// is missing, `{a:1 b:2,c:3}` without `b` would have `1c` in it.
#[verifier::external_body]
pub(crate) fn remove_property(doc: &mut jsonc_parser::cst::CstRootNode, key: &str)
    requires
        document_value(*old(doc)) matches Some(Json::Object(entries)) && string_map::lookup(
            entries,
            key@,
        ) is Some,
    ensures
        document_value(*final(doc)) == Some(
            Json::Object(
                string_map::without_key(document_value(*old(doc))->0->Object_0, key@),
            ),
        ),
        elsewhere(document_comments(*final(doc)), key@) == elsewhere(
            document_comments(*old(doc)),
            key@,
        ),
        keeps_commas(*old(doc), *final(doc)),
        document_commas(*old(doc)) || all_delimited(
            string_map::without_key(document_value(*old(doc))->0->Object_0, key@),
        ) ==> stays_readable(*old(doc), *final(doc)),
{
    doc.object_value().and_then(|o| o.get(key)).map(|p| p.remove());
}

/// `CstRootNode`'s `to_string`: the text of the document.
#[verifier::external_body]
pub(crate) fn text_of(doc: &jsonc_parser::cst::CstRootNode) -> (r: String)
    ensures
        r@ == document_text(*doc),
{
    doc.to_string()
}

// ---------------------------------------------------------------------------
// Comments
// ---------------------------------------------------------------------------

proof fn lemma_filter_within<A>(s: Seq<A>, p: spec_fn(A) -> bool, q: spec_fn(A) -> bool)
    requires
        forall|a: A| q(a) ==> #[trigger] p(a),
    ensures
        s.filter(p).filter(q) == s.filter(q),
    decreases s.len(),
{
    reveal(Seq::filter);
    if s.len() > 0 {
        let d = s.drop_last();
        lemma_filter_within(d, p, q);
        if p(s.last()) {
            let t = d.filter(p).push(s.last());
            assert(t.drop_last() =~= d.filter(p));
        }
    }
}

/// Comments that stay outside of one member stay beside several, if it is one of
/// them.
pub proof fn lemma_beside(
    before: Seq<(Seq<Seq<char>>, Seq<char>)>,
    after: Seq<(Seq<Seq<char>>, Seq<char>)>,
    path: Seq<Seq<char>>,
    keys: Seq<Seq<char>>,
    i: int,
)
    requires
        0 <= i < keys.len(),
        outside(after, path.push(keys[i])) == outside(before, path.push(keys[i])),
    ensures
        beside(after, path, keys) == beside(before, path, keys),
{
    let one = path.push(keys[i]);
    let p = |c: (Seq<Seq<char>>, Seq<char>)| !one.is_prefix_of(c.0);
    let q = |c: (Seq<Seq<char>>, Seq<char>)| !is_inside(c.0, path, keys);
    assert forall|c: (Seq<Seq<char>>, Seq<char>)| q(c) implies #[trigger] p(c) by {
        if one.is_prefix_of(c.0) {
            assert(is_inside(c.0, path, keys));
        }
    }
    lemma_filter_within(before, p, q);
    lemma_filter_within(after, p, q);
}

// ---------------------------------------------------------------------------
// Editing along a path
// ---------------------------------------------------------------------------

/// An edit along a path is found along the path, and a later edit along the
/// same path takes its place.
pub proof fn lemma_with_path(
    j: Json,
    path: Seq<Seq<char>>,
    entries: Seq<(Seq<char>, Json)>,
    later: Seq<(Seq<char>, Json)>,
)
    requires
        at_path(Some(j), path) is Some,
    ensures
        at_path(Some(with_path(j, path, entries)), path) == Some(entries),
        with_path(with_path(j, path, entries), path, later) == with_path(j, path, later),
    decreases path.len(),
{
    if path.len() > 0 {
        let all = j->Object_0;
        let rest = path.drop_first();
        let inner = string_map::lookup(all, path[0])->0;
        assert(at_path(Some(j), path) == at_path(string_map::lookup(all, path[0]), rest));
        assert(at_path(None, rest) is None);
        lemma_with_path(inner, rest, entries, later);
        let edited = with_path(inner, rest, entries);
        let once = string_map::with_value(all, path[0], edited);
        string_map::lemma_with_value_lookup(all, path[0], edited, path[0]);
        assert(string_map::lookup(once, path[0]) == Some(edited));
        lemma_with_value_twice(all, path[0], edited, with_path(inner, rest, later));
    }
}

/// Putting back what is there changes nothing.
pub proof fn lemma_with_path_same(j: Json, path: Seq<Seq<char>>)
    requires
        at_path(Some(j), path) is Some,
    ensures
        with_path(j, path, at_path(Some(j), path)->0) == j,
    decreases path.len(),
{
    if path.len() > 0 {
        let all = j->Object_0;
        let rest = path.drop_first();
        assert(at_path(Some(j), path) == at_path(string_map::lookup(all, path[0]), rest));
        assert(at_path(None, rest) is None);
        lemma_with_path_same(string_map::lookup(all, path[0])->0, rest);
        string_map::lemma_with_value_same(all, path[0]);
    }
}

proof fn lemma_with_value_twice(
    entries: Seq<(Seq<char>, Json)>,
    k: Seq<char>,
    a: Json,
    b: Json,
)
    ensures
        string_map::with_value(string_map::with_value(entries, k, a), k, b)
            == string_map::with_value(entries, k, b),
    decreases entries.len(),
{
    if entries.len() > 0 {
        let t = entries.drop_first();
        let once = string_map::with_value(entries, k, a);
        lemma_with_value_twice(t, k, a, b);
        if entries[0].0 == k {
            assert(once.drop_first() =~= t);
        } else {
            assert(once.drop_first() =~= string_map::with_value(t, k, a));
            assert(once[0] == entries[0]);
        }
        assert(string_map::with_value(once, k, b) =~= string_map::with_value(entries, k, b));
    }
}

/// An edit one step further along the path is an edit of the member there.
pub proof fn lemma_with_longer_path(
    j: Json,
    path: Seq<Seq<char>>,
    key: Seq<char>,
    inside: Seq<(Seq<char>, Json)>,
)
    requires
        at_path(Some(j), path) matches Some(entries) && string_map::lookup(entries, key) matches
            Some(Json::Object(_)),
    ensures
        ({
            let entries = at_path(Some(j), path)->0;
            &&& at_path(Some(j), path.push(key)) == Some(
                string_map::lookup(entries, key)->0->Object_0,
            )
            &&& with_path(j, path.push(key), inside) == with_path(
                j,
                path,
                string_map::with_value(entries, key, Json::Object(inside)),
            )
        }),
    decreases path.len(),
{
    let longer = path.push(key);
    let all = j->Object_0;
    if path.len() == 0 {
        assert(longer[0] == key);
        assert(longer.drop_first() =~= Seq::empty());
        let held = string_map::lookup(all, key)->0;
        assert(at_path(Some(held), Seq::empty()) == Some(held->Object_0));
        assert(with_path(held, Seq::empty(), inside) == Json::Object(inside));
    } else {
        assert(longer[0] == path[0]);
        assert(longer.drop_first() =~= path.drop_first().push(key));
        let inner = string_map::lookup(all, path[0])->0;
        let rest = path.drop_first();
        assert(at_path(Some(j), path) == at_path(string_map::lookup(all, path[0]), rest));
        assert(at_path(None, rest) is None);
        assert(at_path(Some(j), longer) == at_path(Some(inner), rest.push(key)));
        lemma_with_longer_path(inner, path.drop_first(), key, inside);
    }
}

// ---------------------------------------------------------------------------
// Nesting
// ---------------------------------------------------------------------------

proof fn lemma_fits_member(entries: Seq<(Seq<char>, Json)>, i: int, n: int)
    requires
        fits(Json::Object(entries), n),
        0 <= i < entries.len(),
    ensures
        fits(entries[i].1, n - 2),
{
    let j = Json::Object(entries);
    assert(j->Object_0[i] == entries[i]);
}

/// The value under a key fits where its object does.
pub proof fn lemma_fits_lookup(entries: Seq<(Seq<char>, Json)>, key: Seq<char>, n: int)
    requires
        fits(Json::Object(entries), n),
    ensures
        string_map::lookup(entries, key) matches Some(v) ==> fits(v, n - 2),
{
    string_map::lemma_lookup(entries, key);
    match string_map::lookup(entries, key) {
        Some(v) => {
            let i = choose|i: int| 0 <= i < entries.len() && #[trigger] entries[i] == (key, v);
            lemma_fits_member(entries, i, n);
        },
        None => {},
    }
}

/// An object with one more member fits where the object and the member do.
pub proof fn lemma_fits_push(
    entries: Seq<(Seq<char>, Json)>,
    key: Seq<char>,
    v: Json,
    n: int,
)
    requires
        fits(Json::Object(entries), n),
        fits(v, n - 2),
    ensures
        fits(Json::Object(entries.push((key, v))), n),
{
    let more = entries.push((key, v));
    assert forall|i: int| 0 <= i < more.len() implies fits((#[trigger] more[i]).1, n - 2) by {
        if i < entries.len() {
            assert(more[i] == entries[i]);
            lemma_fits_member(entries, i, n);
        }
    }
}

/// An object with another value fits where the object and the value do.
pub proof fn lemma_fits_with_value(
    entries: Seq<(Seq<char>, Json)>,
    key: Seq<char>,
    v: Json,
    n: int,
)
    requires
        fits(Json::Object(entries), n),
        fits(v, n - 2),
    ensures
        fits(Json::Object(string_map::with_value(entries, key, v)), n),
    decreases entries.len(),
{
    if entries.len() > 0 {
        let t = entries.drop_first();
        assert forall|i: int| 0 <= i < t.len() implies fits((#[trigger] t[i]).1, n - 2) by {
            assert(t[i] == entries[i + 1]);
            lemma_fits_member(entries, i + 1, n);
        }
        lemma_fits_with_value(t, key, v, n);
        let changed = string_map::with_value(entries, key, v);
        let rest = if entries[0].0 == key {
            t
        } else {
            string_map::with_value(t, key, v)
        };
        assert(fits(Json::Object(rest), n));
        assert forall|i: int| 0 <= i < changed.len() implies fits(
            (#[trigger] changed[i]).1,
            n - 2,
        ) by {
            if i > 0 {
                assert(changed[i] == rest[i - 1]);
                lemma_fits_member(rest, i - 1, n);
            } else {
                lemma_fits_member(entries, 0, n);
            }
        }
    }
}

/// An object without a member fits where the object does.
pub proof fn lemma_fits_without_key(entries: Seq<(Seq<char>, Json)>, key: Seq<char>, n: int)
    requires
        fits(Json::Object(entries), n),
    ensures
        fits(Json::Object(string_map::without_key(entries, key)), n),
    decreases entries.len(),
{
    if entries.len() > 0 {
        let t = entries.drop_first();
        assert forall|i: int| 0 <= i < t.len() implies fits((#[trigger] t[i]).1, n - 2) by {
            assert(t[i] == entries[i + 1]);
            lemma_fits_member(entries, i + 1, n);
        }
        assert(fits(Json::Object(t), n));
        if entries[0].0 != key {
            lemma_fits_without_key(t, key, n);
            let rest = string_map::without_key(t, key);
            let left = string_map::without_key(entries, key);
            assert forall|i: int| 0 <= i < left.len() implies fits(
                (#[trigger] left[i]).1,
                n - 2,
            ) by {
                if i > 0 {
                    assert(left[i] == rest[i - 1]);
                    lemma_fits_member(rest, i - 1, n);
                } else {
                    lemma_fits_member(entries, 0, n);
                }
            }
        }
    }
}

/// An object inside a value fits where the value does.
pub proof fn lemma_fits_at_path(j: Json, path: Seq<Seq<char>>, n: int)
    requires
        fits(j, n),
    ensures
        at_path(Some(j), path) matches Some(entries) ==> fits(
            Json::Object(entries),
            n - 2 * path.len(),
        ),
    decreases path.len(),
{
    match j {
        Json::Object(all) => if path.len() > 0 {
            let t = path.drop_first();
            let next = string_map::lookup(all, path[0]);
            assert(at_path(Some(j), path) == at_path(next, t));
            lemma_fits_lookup(all, path[0], n);
            match next {
                Some(inner) => {
                    lemma_fits_at_path(inner, t, n - 2);
                    assert(n - 2 - 2 * t.len() == n - 2 * path.len());
                },
                None => {
                    assert(at_path(next, t) is None);
                },
            }
        },
        _ => {},
    }
}

/// A value with other members in an object inside it fits where the value does
/// and those members do.
pub proof fn lemma_fits_with_path(
    j: Json,
    path: Seq<Seq<char>>,
    entries: Seq<(Seq<char>, Json)>,
    n: int,
)
    requires
        fits(j, n),
        fits(Json::Object(entries), n - 2 * path.len()),
    ensures
        fits(with_path(j, path, entries), n),
    decreases path.len(),
{
    if path.len() > 0 {
        match j {
            Json::Object(all) => match string_map::lookup(all, path[0]) {
                Some(inner) => {
                    lemma_fits_lookup(all, path[0], n);
                    lemma_fits_with_path(inner, path.drop_first(), entries, n - 2);
                    lemma_fits_with_value(
                        all,
                        path[0],
                        with_path(inner, path.drop_first(), entries),
                        n,
                    );
                },
                None => {},
            },
            _ => {},
        }
    }
}

} // verus!
