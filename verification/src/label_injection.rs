//! Label injections: the apparent repository prefixes that annotations use,
//! and their replacement by canonical ones.
//!
//! Each annotation may carry a `label_injections` object that maps a canonical
//! repository prefix (such as `@@openssl+v3.5.5`) to the apparent prefix that
//! the annotation was written with (such as `@openssl`). Keys and values are
//! bare repository prefixes, without a `//pkg:target` suffix.
//!
//! `extract_global_mapping` removes the field from every annotation and merges
//! all of them into one map, so that what is kept of the configuration speaks
//! of apparent labels only. `apply_mapping_to_value` later rewrites every
//! string of a value with the mapping of the current session.
use vstd::prelude::*;
use crate::json;
use crate::json::{position_of, put_member, Json, Tree};
use crate::order;
use crate::string_map;
use crate::string_map::StringMap;
use crate::text;
use crate::text::{
    chars_of, copied, find_text_from, has_text, is_match_at, same_text, string_of,
    without_prefix,
};

verus! {

// ---------------------------------------------------------------------------
// Rewriting one string
// ---------------------------------------------------------------------------

/// The characters of a repository name: letters, digits, `_`, `-`, `.`, `+`
/// and `~`, all ASCII.
pub open spec fn is_repo_name_char(c: char) -> bool {
    ||| 'a' <= c <= 'z'
    ||| 'A' <= c <= 'Z'
    ||| '0' <= c <= '9'
    ||| c == '_'
    ||| c == '-'
    ||| c == '.'
    ||| c == '+'
    ||| c == '~'
}

/// Whether an occurrence of `apparent` at position `k` of `s` is a whole label
/// prefix: it is not preceded by `@`, and not followed by `@` or by another
/// character of a repository name.
pub open spec fn at_boundary(s: Seq<char>, apparent: Seq<char>, k: int) -> bool {
    let after = k + apparent.len();
    &&& !(k > 0 && s[k - 1] == '@')
    &&& !(after < s.len() && (s[after] == '@' || is_repo_name_char(s[after])))
}

/// The name that a bare apparent prefix stands for: the prefix without its
/// leading `@`.
pub open spec fn apparent_target(apparent: Seq<char>) -> Seq<char> {
    match text::after_prefix(apparent, seq!['@']) {
        Some(name) => name,
        None => apparent,
    }
}

/// What takes the place of `apparent` at position `k`: the canonical prefix,
/// and an explicit target where no `//` follows and the prefix has a name.
pub open spec fn substitute(
    s: Seq<char>,
    apparent: Seq<char>,
    canonical: Seq<char>,
    k: int,
) -> Seq<char> {
    let after = k + apparent.len();
    if !text::matches_at(s, seq!['/', '/'], after) && apparent_target(apparent).len() > 0 {
        canonical + seq!['/', '/', ':'] + apparent_target(apparent)
    } else {
        canonical
    }
}

/// `s[from..]` with the occurrences of `apparent` that are whole label
/// prefixes replaced. Occurrences are taken from left to right and do not
/// overlap.
pub open spec fn label_replaced_from(
    s: Seq<char>,
    apparent: Seq<char>,
    canonical: Seq<char>,
    from: int,
) -> Seq<char>
    decreases s.len() - from,
{
    match text::find_from(s, apparent, from) {
        Some(k) => if from <= k && apparent.len() > 0 && k + apparent.len() <= s.len() {
            s.subrange(from, k) + (if at_boundary(s, apparent, k) {
                substitute(s, apparent, canonical, k)
            } else {
                apparent
            }) + label_replaced_from(s, apparent, canonical, k + apparent.len())
        } else {
            s.skip(from)
        },
        None => s.skip(from),
    }
}

/// `s` with the occurrences of `apparent` that are whole label prefixes
/// replaced.
pub open spec fn label_replaced(
    s: Seq<char>,
    apparent: Seq<char>,
    canonical: Seq<char>,
) -> Seq<char> {
    label_replaced_from(s, apparent, canonical, 0)
}

/// Whether `c` can be part of a repository name.
pub fn is_repo_name_character(c: char) -> (r: bool)
    ensures
        r == is_repo_name_char(c),
{
    ('a' <= c && c <= 'z') || ('A' <= c && c <= 'Z') || ('0' <= c && c <= '9') || c == '_' || c
        == '-' || c == '.' || c == '+' || c == '~'
}

/// Replaces `apparent` by `canonical` in `input`, but only where it is a whole
/// label prefix. An occurrence that no `//` follows is the shorthand for the
/// target named like the repository; it is replaced by the canonical prefix
/// with that target spelled out, because the canonical repository has no
/// target of its own name.
pub fn replace_at_label_boundary(input: &str, apparent: &str, canonical: &str) -> (r: String)
    requires
        apparent@.len() > 0,
    ensures
        r@ == label_replaced(input@, apparent@, canonical@),
{
    if !has_text(input, apparent) {
        proof {
            text::lemma_contains_text(input@, apparent@);
            assert(input@.skip(0) =~= input@);
        }
        return input.to_owned();
    }
    let target = match without_prefix(apparent, "@") {
        Some(name) => name,
        None => apparent.to_owned(),
    };
    let sc = chars_of(input);
    let ac = chars_of(apparent);
    let slashes: Vec<char> = vec!['/', '/'];
    proof {
        reveal_strlit("@");
        assert("@"@ =~= seq!['@']);
        assert(slashes@ =~= seq!['/', '/']);
        reveal_strlit("//:");
        assert("//:"@ =~= seq!['/', '/', ':']);
    }
    let mut out = String::new();
    let mut from: usize = 0;
    loop
        invariant
            sc@ == input@,
            ac@ == apparent@,
            slashes@ == seq!['/', '/'],
            "//:"@ == seq!['/', '/', ':'],
            apparent@.len() > 0,
            target@ == apparent_target(apparent@),
            from <= input@.len(),
            label_replaced(input@, apparent@, canonical@) == out@ + label_replaced_from(
                input@,
                apparent@,
                canonical@,
                from as int,
            ),
        decreases input@.len() - from,
    {
        match find_text_from(sc.as_slice(), ac.as_slice(), from) {
            Some(k) => {
                let ghost before = out@;
                let after: usize = k + ac.len();
                let inside = k > 0 && sc[k - 1] == '@';
                let longer = after < sc.len() && (sc[after] == '@' || is_repo_name_character(
                    sc[after],
                ));
                out.append(string_of(sc.as_slice(), from, k).as_str());
                if inside || longer {
                    out.append(apparent);
                    assert(out@ =~= before + (input@.subrange(from as int, k as int) + apparent@));
                } else {
                    out.append(canonical);
                    if !is_match_at(sc.as_slice(), slashes.as_slice(), after) && !same_text(
                        target.as_str(),
                        "",
                    ) {
                        out.append("//:");
                        out.append(target.as_str());
                    }
                    proof {
                        reveal_strlit("");
                        assert(""@ =~= Seq::<char>::empty());
                        if target@.len() == 0 {
                            assert(target@ =~= Seq::<char>::empty());
                        }
                        assert(out@ =~= before + (input@.subrange(from as int, k as int)
                            + substitute(input@, apparent@, canonical@, k as int)));
                    }
                }
                from = after;
                assert(label_replaced(input@, apparent@, canonical@) =~= out@
                    + label_replaced_from(input@, apparent@, canonical@, from as int));
            },
            None => {
                out.append(string_of(sc.as_slice(), from, sc.len()).as_str());
                assert(input@.subrange(from as int, input@.len() as int) =~= input@.skip(
                    from as int,
                ));
                return out;
            },
        }
    }
}

/// `s` with the entries of `mapping` (canonical to apparent) applied one after
/// the other, in the order of the canonical prefixes.
pub open spec fn all_replaced(s: Seq<char>, mapping: Seq<(Seq<char>, Seq<char>)>) -> Seq<char>
    decreases mapping.len(),
{
    if mapping.len() == 0 {
        s
    } else {
        label_replaced(
            all_replaced(s, mapping.drop_last()),
            mapping.last().1,
            mapping.last().0,
        )
    }
}

/// Whether no apparent prefix of `mapping` is empty.
pub open spec fn names_apparents(mapping: Seq<(Seq<char>, Seq<char>)>) -> bool {
    forall|i: int| 0 <= i < mapping.len() ==> (#[trigger] mapping[i]).1.len() > 0
}

/// Applies every entry of `mapping` (canonical to apparent) to `input`, in the
/// order of the canonical prefixes.
pub fn replace_all(input: &str, mapping: &StringMap) -> (r: String)
    requires
        names_apparents(mapping@),
    ensures
        r@ == all_replaced(input@, mapping@),
{
    let mut out = input.to_owned();
    let mut i: usize = 0;
    while i < mapping.len()
        invariant
            i <= mapping@.len(),
            names_apparents(mapping@),
            out@ == all_replaced(input@, mapping@.take(i as int)),
        decreases mapping@.len() - i,
    {
        assert(mapping@[i as int].1.len() > 0);
        out = replace_at_label_boundary(
            out.as_str(),
            mapping.value_at(i).as_str(),
            mapping.key_at(i).as_str(),
        );
        assert(mapping@.take(i + 1).drop_last() =~= mapping@.take(i as int));
        i += 1;
    }
    assert(mapping@.take(i as int) =~= mapping@);
    out
}

// ---------------------------------------------------------------------------
// Rewriting a value
// ---------------------------------------------------------------------------

/// `j` with every string rewritten: texts, the items of arrays, and both the
/// keys and the members of objects. Members whose keys become equal are
/// merged, and the later one stays.
pub open spec fn rewritten(j: Json, mapping: Seq<(Seq<char>, Seq<char>)>) -> Json
    decreases j,
{
    match j {
        Json::Text(s) => Json::Text(all_replaced(s, mapping)),
        Json::Array(items) => Json::Array(
            Seq::new(
                items.len(),
                |i: int|
                    if 0 <= i < items.len() {
                        rewritten(items[i], mapping)
                    } else {
                        Json::Null
                    },
            ),
        ),
        Json::Object(entries) => Json::Object(
            string_map::gathered(rewritten_entries(entries, mapping)),
        ),
        _ => j,
    }
}

/// The members of an object with keys and values rewritten.
pub open spec fn rewritten_entries(
    entries: Seq<(Seq<char>, Json)>,
    mapping: Seq<(Seq<char>, Seq<char>)>,
) -> Seq<(Seq<char>, Json)>
    decreases entries,
{
    Seq::new(
        entries.len(),
        |i: int|
            if 0 <= i < entries.len() {
                (all_replaced(entries[i].0, mapping), rewritten(entries[i].1, mapping))
            } else {
                (Seq::empty(), Json::Null)
            },
    )
}

/// A rewritten copy of `value`.
fn rewritten_copy(value: &Tree, mapping: &StringMap) -> (r: Tree)
    requires
        names_apparents(mapping@),
    ensures
        r@ == rewritten(value@, mapping@),
    decreases value,
{
    match value {
        Tree::Text(s) => Tree::Text(replace_all(s.as_str(), mapping)),
        Tree::Array(items) => {
            let mut out: Vec<Tree> = Vec::new();
            let mut i: usize = 0;
            while i < items.len()
                invariant
                    i <= items@.len(),
                    names_apparents(mapping@),
                    value matches Tree::Array(v) && v == items,
                    out@.len() == i,
                    forall|k: int|
                        0 <= k < i ==> (#[trigger] out@[k])@ == rewritten(items@[k]@, mapping@),
                decreases items@.len() - i,
            {
                out.push(rewritten_copy(&items[i], mapping));
                i += 1;
            }
            let r = Tree::Array(out);
            assert(r@->Array_0 =~= rewritten(value@, mapping@)->Array_0);
            r
        },
        Tree::Object(entries) => {
            let mut out: Vec<(String, Tree)> = Vec::new();
            let mut i: usize = 0;
            let ghost view = json::entries_view(entries@);
            let ghost all = rewritten_entries(view, mapping@);
            assert(json::entries_view(out@) =~= Seq::empty());
            assert(all.take(0) =~= Seq::empty());
            while i < entries.len()
                invariant
                    i <= entries@.len(),
                    names_apparents(mapping@),
                    value matches Tree::Object(v) && v == entries,
                    view == json::entries_view(entries@),
                    all == rewritten_entries(view, mapping@),
                    json::entries_view(out@) == string_map::gathered(all.take(i as int)),
                decreases entries@.len() - i,
            {
                let key = replace_all(entries[i].0.as_str(), mapping);
                let member = rewritten_copy(&entries[i].1, mapping);
                assert(all.take(i + 1).drop_last() =~= all.take(i as int));
                assert(all.take(i + 1).last() == (key@, member@));
                put_member(&mut out, key, member);
                i += 1;
            }
            assert(all.take(i as int) =~= all);
            Tree::Object(out)
        },
        Tree::Null => Tree::Null,
        Tree::Bool(b) => Tree::Bool(*b),
        Tree::Number(n) => Tree::Number(copied(n)),
    }
}

/// Rewrites every string inside `value`.
pub fn rewrite(value: &mut Tree, mapping: &StringMap)
    requires
        names_apparents(mapping@),
    ensures
        final(value)@ == rewritten(old(value)@, mapping@),
{
    let r = rewritten_copy(&*value, mapping);
    *value = r;
}

/// Replaces every apparent label prefix inside `value` by its canonical form,
/// with `mapping` as `extract_global_mapping` returns it (canonical to
/// apparent). An empty mapping leaves the value alone.
pub fn apply_mapping_to_value(value: &mut Tree, mapping: &StringMap)
    requires
        names_apparents(mapping@),
    ensures
        final(value)@ == (if mapping@.len() == 0 {
            old(value)@
        } else {
            rewritten(old(value)@, mapping@)
        }),
{
    if mapping.is_empty() {
        return;
    }
    rewrite(value, mapping);
}

// ---------------------------------------------------------------------------
// Extracting the mapping
// ---------------------------------------------------------------------------

/// Whether a member of a `label_injections` object counts: an apparent text
/// under a canonical key, neither empty.
pub open spec fn is_injection(entry: (Seq<char>, Json)) -> bool {
    &&& entry.0.len() > 0
    &&& entry.1 matches Json::Text(apparent) && apparent.len() > 0
}

/// The pairs of canonical and apparent prefix that the members declare.
pub open spec fn injections(entries: Seq<(Seq<char>, Json)>) -> Seq<(Seq<char>, Seq<char>)>
    decreases entries.len(),
{
    if entries.len() == 0 {
        Seq::empty()
    } else if is_injection(entries.last()) {
        injections(entries.drop_last()).push((entries.last().0, entries.last().1->Text_0))
    } else {
        injections(entries.drop_last())
    }
}

/// The mapping that a `label_injections` value declares: canonical to
/// apparent, empty when it is no object.
pub open spec fn mapping_of(j: Json) -> Seq<(Seq<char>, Seq<char>)> {
    match j {
        Json::Object(entries) => string_map::gathered(injections(entries)),
        _ => Seq::empty(),
    }
}

/// The mapping that one annotation declares.
pub open spec fn annotation_mapping(annotation: Json) -> Seq<(Seq<char>, Seq<char>)> {
    match json::member(annotation, "label_injections"@) {
        Some(injected) => mapping_of(injected),
        None => Seq::empty(),
    }
}

/// All pairs that the annotations declare, annotation by annotation.
pub open spec fn declared(annotations: Seq<(Seq<char>, Json)>) -> Seq<(Seq<char>, Seq<char>)>
    decreases annotations.len(),
{
    if annotations.len() == 0 {
        Seq::empty()
    } else {
        declared(annotations.drop_last()) + annotation_mapping(annotations.last().1)
    }
}

/// Whether no apparent prefix is declared for two different canonical ones.
pub open spec fn consistent(pairs: Seq<(Seq<char>, Seq<char>)>) -> bool {
    forall|i: int, j: int|
        0 <= i < j < pairs.len() && (#[trigger] pairs[i]).1 == (#[trigger] pairs[j]).1
            ==> pairs[i].0 == pairs[j].0
}

/// An annotation without its `label_injections`.
pub open spec fn stripped(annotation: Json) -> Json {
    match annotation {
        Json::Object(entries) => Json::Object(
            string_map::without_key(entries, "label_injections"@),
        ),
        _ => annotation,
    }
}

/// The annotations with the first `n` stripped.
pub open spec fn stripped_to(
    annotations: Seq<(Seq<char>, Json)>,
    n: int,
) -> Seq<(Seq<char>, Json)> {
    Seq::new(
        annotations.len(),
        |i: int|
            if i < n {
                (annotations[i].0, stripped(annotations[i].1))
            } else {
                annotations[i]
            },
    )
}

/// The annotations of a configuration.
pub open spec fn annotations_of(config: Json) -> Option<Seq<(Seq<char>, Json)>> {
    match json::member(config, "annotations"@) {
        Some(Json::Object(annotations)) => Some(annotations),
        _ => None,
    }
}

/// A configuration with its annotations replaced.
pub open spec fn with_annotations(config: Json, annotations: Seq<(Seq<char>, Json)>) -> Json {
    match config {
        Json::Object(entries) => Json::Object(
            string_map::with_value(entries, "annotations"@, Json::Object(annotations)),
        ),
        _ => config,
    }
}

/// Two annotations give one apparent prefix different canonical ones.
#[derive(Debug, PartialEq, Eq)]
pub struct InjectionConflict {
    /// The apparent prefix.
    pub apparent: String,
    /// The canonical prefix that was declared first.
    pub existing: String,
    /// The canonical prefix that contradicts it.
    pub canonical: String,
}

impl InjectionConflict {
    /// The text of the error.
    pub open spec fn text(self) -> Seq<char> {
        "conflicting `label_injections` across annotations for apparent label `"@ + self.apparent@
            + "`: `"@ + self.existing@ + "` vs `"@ + self.canonical@
            + "`. This occurs when the root module pulls two versions of the same bazel_dep (e.g. via `multiple_version_override`) and crate_universe annotations from different modules each inject their own version. Move the conflicting crate into its own `crate.from_specs`/`crate.from_cargo` hub so each hub only sees one canonical."@
    }

    /// Describes the conflict and how to resolve it.
    pub fn message(&self) -> (r: String)
        ensures
            r@ == self.text(),
    {
        let mut r =
            "conflicting `label_injections` across annotations for apparent label `".to_owned();
        r.append(self.apparent.as_str());
        r.append("`: `");
        r.append(self.existing.as_str());
        r.append("` vs `");
        r.append(self.canonical.as_str());
        r.append(
            "`. This occurs when the root module pulls two versions of the same bazel_dep (e.g. via `multiple_version_override`) and crate_universe annotations from different modules each inject their own version. Move the conflicting crate into its own `crate.from_specs`/`crate.from_cargo` hub so each hub only sees one canonical.",
        );
        r
    }
}

/// Whether `c` names the first contradiction in `pairs`: everything before
/// position `i` agrees, and the pair there contradicts an earlier one.
pub open spec fn conflicts_at(
    pairs: Seq<(Seq<char>, Seq<char>)>,
    i: int,
    c: InjectionConflict,
) -> bool {
    &&& 0 <= i < pairs.len()
    &&& consistent(pairs.take(i))
    &&& pairs[i] == (c.canonical@, c.apparent@)
    &&& pairs.take(i).contains((c.existing@, c.apparent@))
    &&& c.existing@ != c.canonical@
}

/// The mapping that a `label_injections` value declares: canonical to
/// apparent, without members that are no text or have an empty side.
pub fn into_mapping(value: &Tree) -> (r: StringMap)
    ensures
        r@ == mapping_of(value@),
        names_apparents(r@),
{
    let mut r = StringMap::new();
    match value {
        Tree::Object(entries) => {
            let ghost view = json::entries_view(entries@);
            let mut i: usize = 0;
            assert(view.take(0) =~= Seq::empty());
            while i < entries.len()
                invariant
                    i <= entries@.len(),
                    view == json::entries_view(entries@),
                    r@ == string_map::gathered(injections(view.take(i as int))),
                    names_apparents(r@),
                decreases entries@.len() - i,
            {
                proof {
                    assert(view.take(i + 1).drop_last() =~= view.take(i as int));
                    assert(view.take(i + 1).last() == view[i as int]);
                    use_type_invariant(&r);
                }
                match &entries[i].1 {
                    Tree::Text(apparent) => {
                        let ghost so_far = injections(view.take(i as int));
                        let empty_side = same_text(apparent.as_str(), "") || same_text(
                            entries[i].0.as_str(),
                            "",
                        );
                        proof {
                            reveal_strlit("");
                            assert(""@ =~= Seq::<char>::empty());
                            if apparent@.len() == 0 {
                                assert(apparent@ =~= Seq::<char>::empty());
                            }
                            if entries@[i as int].0@.len() == 0 {
                                assert(entries@[i as int].0@ =~= Seq::<char>::empty());
                            }
                        }
                        if !empty_side {
                            proof {
                                let pair = (entries@[i as int].0@, apparent@);
                                assert(injections(view.take(i + 1)) == so_far.push(pair));
                                assert(so_far.push(pair).drop_last() =~= so_far);
                                string_map::lemma_put_sorted(r@, pair.0, pair.1);
                                let next = string_map::put(r@, pair.0, pair.1);
                                assert forall|j: int| 0 <= j < next.len() implies (
                                #[trigger] next[j]).1.len() > 0 by {
                                    if next[j] != pair {
                                        let m = choose|m: int|
                                            0 <= m < r@.len() && r@[m] == next[j];
                                        assert(r@[m].1.len() > 0);
                                    }
                                }
                            }
                            r.insert(copied(&entries[i].0), copied(apparent));
                        }
                    },
                    _ => {},
                }
                i += 1;
            }
            assert(view.take(i as int) =~= view);
        },
        _ => {},
    }
    r
}

/// Takes the `label_injections` out of an annotation.
fn strip_annotation(annotation: Tree) -> (r: (Tree, Option<Tree>))
    ensures
        r.0@ == stripped(annotation@),
        match (r.1, json::member(annotation@, "label_injections"@)) {
            (Some(v), Some(w)) => v@ == w,
            (None, None) => true,
            _ => false,
        },
{
    match annotation {
        Tree::Object(entries) => {
            let ghost view = json::entries_view(entries@);
            let n: usize = position_of(&entries, "label_injections");
            proof {
                string_map::lemma_first_key(view, "label_injections"@, n as int);
            }
            if n < entries.len() {
                let mut kept = entries;
                let removed = kept.remove(n);
                assert(json::entries_view(kept@) =~= view.remove(n as int));
                (Tree::Object(kept), Some(removed.1))
            } else {
                (Tree::Object(entries), None)
            }
        },
        other => (other, None),
    }
}

/// Whether `by_apparent` answers for exactly the apparent prefixes in `pairs`.
spec fn tracks(
    by_apparent: Seq<(Seq<char>, Seq<char>)>,
    pairs: Seq<(Seq<char>, Seq<char>)>,
) -> bool {
    forall|a: Seq<char>|
        match #[trigger] string_map::lookup(by_apparent, a) {
            Some(c) => pairs.contains((c, a)),
            None => forall|i: int| 0 <= i < pairs.len() ==> (#[trigger] pairs[i]).1 != a,
        }
}

proof fn lemma_tracks_push(
    by_apparent: Seq<(Seq<char>, Seq<char>)>,
    pairs: Seq<(Seq<char>, Seq<char>)>,
    canonical: Seq<char>,
    apparent: Seq<char>,
)
    requires
        order::sorted(string_map::keys_of(by_apparent)),
        tracks(by_apparent, pairs),
        consistent(pairs),
        string_map::lookup(by_apparent, apparent) matches Some(c) ==> c == canonical,
    ensures
        tracks(
            string_map::put(by_apparent, apparent, canonical),
            pairs.push((canonical, apparent)),
        ),
        consistent(pairs.push((canonical, apparent))),
{
    let next = string_map::put(by_apparent, apparent, canonical);
    let more = pairs.push((canonical, apparent));
    assert forall|a: Seq<char>|
        match #[trigger] string_map::lookup(next, a) {
            Some(c) => more.contains((c, a)),
            None => forall|i: int| 0 <= i < more.len() ==> (#[trigger] more[i]).1 != a,
        } by {
        string_map::lemma_put_lookup(by_apparent, apparent, canonical, a);
        if a == apparent {
            assert(more[pairs.len() as int] == (canonical, apparent));
        } else {
            match string_map::lookup(by_apparent, a) {
                Some(c) => {
                    let i = choose|i: int| 0 <= i < pairs.len() && pairs[i] == (c, a);
                    assert(more[i] == (c, a));
                },
                None => {
                    assert forall|i: int| 0 <= i < more.len() implies (#[trigger] more[i]).1
                        != a by {
                        if i < pairs.len() {
                            assert(pairs[i].1 != a);
                        }
                    }
                },
            }
        }
    }
    assert forall|i: int, j: int|
        0 <= i < j < more.len() && (#[trigger] more[i]).1 == (#[trigger] more[j]).1 implies more[i].0
        == more[j].0 by {
        if j == pairs.len() {
            assert(pairs[i] == more[i]);
            match string_map::lookup(by_apparent, apparent) {
                Some(c) => {
                    let m = choose|m: int| 0 <= m < pairs.len() && pairs[m] == (c, apparent);
                    if m < i {
                        assert(pairs[m].1 == pairs[i].1);
                    } else if i < m {
                        assert(pairs[i].1 == pairs[m].1);
                    }
                },
                None => {},
            }
        } else {
            assert(pairs[i] == more[i] && pairs[j] == more[j]);
        }
    }
}

proof fn lemma_declared_prefix(annotations: Seq<(Seq<char>, Json)>, n: int)
    requires
        0 <= n <= annotations.len(),
    ensures
        declared(annotations.take(n)).is_prefix_of(declared(annotations)),
    decreases annotations.len() - n,
{
    if n < annotations.len() {
        lemma_declared_prefix(annotations, n + 1);
        let a = declared(annotations.take(n));
        let b = declared(annotations.take(n + 1));
        let c = declared(annotations);
        assert(annotations.take(n + 1).drop_last() =~= annotations.take(n));
        assert(b.len() <= c.len());
        assert(b =~= c.take(b.len() as int));
        assert(a =~= c.take(a.len() as int)) by {
            assert forall|i: int| 0 <= i < a.len() implies a[i] == c[i] by {
                assert(b[i] == a[i]);
                assert(c.take(b.len() as int)[i] == c[i]);
            }
        }
    } else {
        assert(annotations.take(n) =~= annotations);
        assert(declared(annotations).take(declared(annotations).len() as int) =~= declared(
            annotations,
        ));
    }
}

/// Whether the extraction stops at annotation `n`, on the declared pair `i`,
/// with the conflict `c`.
pub open spec fn stops_at(
    annotations: Seq<(Seq<char>, Json)>,
    n: int,
    i: int,
    c: InjectionConflict,
) -> bool {
    &&& 0 <= n < annotations.len()
    &&& declared(annotations.take(n)).len() <= i < declared(annotations.take(n + 1)).len()
    &&& conflicts_at(declared(annotations), i, c)
}

/// What an extraction from `annotations` returns, and the annotations that it
/// leaves: on success every annotation is stripped, and on a conflict those up
/// to the one where it shows.
pub open spec fn is_extraction(
    annotations: Seq<(Seq<char>, Json)>,
    left: Seq<(Seq<char>, Json)>,
    r: Result<StringMap, InjectionConflict>,
) -> bool {
    match r {
        Ok(m) => {
            &&& consistent(declared(annotations))
            &&& m@ == string_map::gathered(declared(annotations))
            &&& left == stripped_to(annotations, annotations.len() as int)
        },
        Err(c) => {
            &&& !consistent(declared(annotations))
            &&& exists|n: int, i: int|
                #[trigger] stops_at(annotations, n, i, c) && left == stripped_to(
                    annotations,
                    n + 1,
                )
        },
    }
}

/// Takes the injections out of the annotations and merges them.
fn extract_from(annotations: &mut Vec<(String, Tree)>) -> (r: Result<StringMap, InjectionConflict>)
    ensures
        is_extraction(
            json::entries_view(old(annotations)@),
            json::entries_view(final(annotations)@),
            r,
        ),
        r matches Ok(m) ==> names_apparents(m@),
{
    let ghost ann = json::entries_view(annotations@);
    let mut by_apparent = StringMap::new();
    let mut by_canonical = StringMap::new();
    let mut i: usize = 0;
    proof {
        assert(ann.take(0) =~= Seq::empty());
        assert(json::entries_view(annotations@) =~= stripped_to(ann, 0));
    }
    while i < annotations.len()
        invariant
            i <= annotations@.len(),
            ann == json::entries_view(old(annotations)@),
            ann.len() == annotations@.len(),
            json::entries_view(annotations@) == stripped_to(ann, i as int),
            consistent(declared(ann.take(i as int))),
            by_canonical@ == string_map::gathered(declared(ann.take(i as int))),
            tracks(by_apparent@, declared(ann.take(i as int))),
            names_apparents(by_canonical@),
        decreases annotations@.len() - i,
    {
        let ghost left = json::entries_view(annotations@);
        let ghost listed = annotations@;
        let mut held = Tree::Null;
        std::mem::swap(&mut held, &mut annotations[i].1);
        assert(held@ == left[i as int].1);
        assert(held@ == ann[i as int].1);
        let (kept, injected) = strip_annotation(held);
        let ghost kept_view = kept@;
        annotations[i].1 = kept;
        proof {
            assert(annotations@.len() == listed.len());
            assert forall|k: int| 0 <= k < ann.len() implies json::entries_view(annotations@)[k]
                == stripped_to(ann, i + 1)[k] by {
                assert(left[k] == stripped_to(ann, i as int)[k]);
                if k != i {
                    assert(annotations@[k] == listed[k]);
                } else {
                    assert(annotations@[k].0 == listed[k].0);
                    assert(annotations@[k].1@ == kept_view);
                }
            }
            assert(json::entries_view(annotations@) =~= stripped_to(ann, i + 1));
            assert(ann.take(i + 1).drop_last() =~= ann.take(i as int));
            assert(ann.take(i + 1).last() == ann[i as int]);
        }
        let m = match &injected {
            Some(value) => into_mapping(value),
            None => StringMap::new(),
        };
        let ghost base = declared(ann.take(i as int));
        assert(declared(ann.take(i + 1)) == base + m@);
        let mut j: usize = 0;
        assert(base + m@.take(0) =~= base);
        while j < m.len()
            invariant
                i < annotations@.len(),
                ann == json::entries_view(old(annotations)@),
                ann.len() == annotations@.len(),
                json::entries_view(annotations@) == stripped_to(ann, i + 1),
                j <= m@.len(),
                names_apparents(m@),
                base == declared(ann.take(i as int)),
                declared(ann.take(i + 1)) == base + m@,
                consistent(base + m@.take(j as int)),
                by_canonical@ == string_map::gathered(base + m@.take(j as int)),
                tracks(by_apparent@, base + m@.take(j as int)),
                names_apparents(by_canonical@),
            decreases m@.len() - j,
        {
            let ghost done = base + m@.take(j as int);
            let ghost pair = m@[j as int];
            proof {
                use_type_invariant(&by_apparent);
                use_type_invariant(&by_canonical);
                assert(pair.1.len() > 0);
                assert(base + m@.take(j + 1) =~= done.push(pair));
                assert(done.push(pair).drop_last() =~= done);
            }
            match by_apparent.get(m.value_at(j).as_str()) {
                Some(existing) => {
                    if !same_text(existing.as_str(), m.key_at(j).as_str()) {
                        let conflict = InjectionConflict {
                            apparent: copied(m.value_at(j)),
                            existing: copied(existing),
                            canonical: copied(m.key_at(j)),
                        };
                        proof {
                            let all = declared(ann);
                            let upto = declared(ann.take(i + 1));
                            let at = done.len() as int;
                            lemma_declared_prefix(ann, i + 1);
                            assert(upto =~= all.take(upto.len() as int));
                            assert(all.take(at) =~= done) by {
                                assert forall|k: int| 0 <= k < at implies all[k] == done[k] by {
                                    assert(upto[k] == done[k]);
                                    assert(all.take(upto.len() as int)[k] == all[k]);
                                }
                            }
                            assert(upto[at] == pair);
                            assert(all.take(upto.len() as int)[at] == all[at]);
                            assert(conflicts_at(all, at, conflict));
                            assert(stops_at(ann, i as int, at, conflict));
                            let k = choose|k: int|
                                0 <= k < done.len() && done[k] == (
                                    conflict.existing@,
                                    conflict.apparent@,
                                );
                            assert(all[k] == all.take(at)[k]);
                            assert(all[k].1 == all[at].1 && all[k].0 != all[at].0);
                            assert(!consistent(all));
                        }
                        let ghost conflict_value = conflict;
                        let r: Result<StringMap, InjectionConflict> = Err(conflict);
                        let ghost left = json::entries_view(annotations@);
                        proof {
                            assert(r->Err_0 == conflict_value);
                            assert(left == stripped_to(ann, i + 1));
                            assert(exists|n: int, k: int|
                                #[trigger] stops_at(ann, n, k, conflict_value) && left
                                    == stripped_to(ann, n + 1));
                            assert(is_extraction(ann, left, r));
                        }
                        return r;
                    }
                },
                None => {},
            }
            proof {
                lemma_tracks_push(by_apparent@, done, pair.0, pair.1);
                string_map::lemma_put_sorted(by_canonical@, pair.0, pair.1);
                let next = string_map::put(by_canonical@, pair.0, pair.1);
                assert forall|k: int| 0 <= k < next.len() implies (#[trigger] next[k]).1.len()
                    > 0 by {
                    if next[k] != pair {
                        let q = choose|q: int|
                            0 <= q < by_canonical@.len() && by_canonical@[q] == next[k];
                        assert(by_canonical@[q].1.len() > 0);
                    }
                }
            }
            by_apparent.insert(copied(m.value_at(j)), copied(m.key_at(j)));
            by_canonical.insert(copied(m.key_at(j)), copied(m.value_at(j)));
            j += 1;
        }
        assert(m@.take(j as int) =~= m@);
        i += 1;
    }
    assert(ann.take(i as int) =~= ann);
    Ok(by_canonical)
}

/// What an extraction from `config` returns, and the configuration `after` that
/// it leaves.
pub open spec fn is_global_extraction(
    config: Json,
    after: Json,
    r: Result<StringMap, InjectionConflict>,
) -> bool {
    match annotations_of(config) {
        Some(annotations) => exists|left: Seq<(Seq<char>, Json)>|
            {
                &&& #[trigger] is_extraction(annotations, left, r)
                &&& after == with_annotations(config, left)
            },
        None => {
            &&& r matches Ok(m) && m@.len() == 0
            &&& after == config
        },
    }
}

/// Takes the `label_injections` out of every annotation of `config`, so that
/// nothing that reads the annotations later sees the field, and merges them
/// into one mapping (canonical to apparent). The mapping is empty when there
/// are no annotations or none declares an injection.
///
/// Fails when two declarations give one apparent prefix different canonical
/// ones: no single substitution could serve both. The annotations up to the
/// one that shows the conflict are stripped then.
pub fn extract_global_mapping(config: &mut Tree) -> (r: Result<StringMap, InjectionConflict>)
    ensures
        is_global_extraction(old(config)@, final(config)@, r),
        r matches Ok(m) ==> names_apparents(m@),
{
    let ghost before = config@;
    let mut whole = Tree::Null;
    std::mem::swap(config, &mut whole);
    assert(whole@ == before);
    match whole {
        Tree::Object(mut entries) => {
            let ghost view = json::entries_view(entries@);
            let n: usize = position_of(&entries, "annotations");
            if n < entries.len() {
                let mut held = Tree::Null;
                std::mem::swap(&mut held, &mut entries[n].1);
                assert(held@ == view[n as int].1);
                match held {
                    Tree::Object(mut annotations) => {
                        let ghost all = json::entries_view(annotations@);
                        let r = extract_from(&mut annotations);
                        let ghost left = json::entries_view(annotations@);
                        entries[n].1 = Tree::Object(annotations);
                        proof {
                            string_map::lemma_with_value(
                                view,
                                "annotations"@,
                                Json::Object(left),
                                n as int,
                            );
                            assert(json::entries_view(entries@) =~= view.update(
                                n as int,
                                ("annotations"@, Json::Object(left)),
                            ));
                        }
                        *config = Tree::Object(entries);
                        assert(config@ == with_annotations(before, left));
                        assert(annotations_of(before) == Some(all));
                        assert(is_extraction(annotations_of(before)->Some_0, left, r));
                        assert(is_global_extraction(before, config@, r));
                        return r;
                    },
                    other => {
                        entries[n].1 = other;
                        assert(json::entries_view(entries@) =~= view);
                    },
                }
            }
            *config = Tree::Object(entries);
        },
        other => {
            *config = other;
        },
    }
    Ok(StringMap::new())
}

/// A stripped annotation declares no injections and keeps its other members.
pub proof fn lemma_stripped(annotation: Json, k: Seq<char>)
    requires
        json::well_formed(annotation),
    ensures
        annotation_mapping(stripped(annotation)).len() == 0,
        k != "label_injections"@ ==> json::member(stripped(annotation), k) == json::member(
            annotation,
            k,
        ),
{
    match annotation {
        Json::Object(entries) => {
            string_map::lemma_without_key_lookup(
                entries,
                "label_injections"@,
                "label_injections"@,
            );
            string_map::lemma_without_key_lookup(entries, "label_injections"@, k);
        },
        _ => {},
    }
}

/// An extraction that succeeds leaves nothing for a second one to find.
pub proof fn lemma_extracted_once(annotations: Seq<(Seq<char>, Json)>)
    requires
        json::well_formed(Json::Object(annotations)),
    ensures
        declared(stripped_to(annotations, annotations.len() as int)).len() == 0,
    decreases annotations.len(),
{
    let n = annotations.len() as int;
    if n > 0 {
        let d = annotations.drop_last();
        let left = stripped_to(annotations, n);
        assert(json::well_formed(annotations[n - 1].1));
        assert(json::well_formed(Json::Object(d))) by {
            let ks = string_map::keys_of(annotations);
            let kd = string_map::keys_of(d);
            assert forall|i: int, j: int| 0 <= i < j < kd.len() implies order::Ordered::before(
                #[trigger] kd[i],
                #[trigger] kd[j],
            ) by {
                assert(order::Ordered::before(ks[i], ks[j]));
            }
            assert forall|i: int| 0 <= i < d.len() implies json::well_formed(
                (#[trigger] d[i]).1,
            ) by {
                assert(d[i] == annotations[i]);
            }
        }
        lemma_extracted_once(d);
        assert(left.drop_last() =~= stripped_to(d, d.len() as int));
        lemma_stripped(annotations[n - 1].1, Seq::empty());
        assert(left.last().1 == stripped(annotations[n - 1].1));
    }
}

// ---------------------------------------------------------------------------
// Applying a mapping twice
// ---------------------------------------------------------------------------

/// Whether `apparent` occurs nowhere in `s` as a whole label prefix.
pub open spec fn has_no_label(s: Seq<char>, apparent: Seq<char>) -> bool {
    forall|k: int|
        #[trigger] text::matches_at(s, apparent, k) ==> !at_boundary(s, apparent, k)
}

/// Whether no apparent prefix of `mapping` occurs in `s` as a whole label
/// prefix.
pub open spec fn is_settled(s: Seq<char>, mapping: Seq<(Seq<char>, Seq<char>)>) -> bool {
    forall|i: int| 0 <= i < mapping.len() ==> has_no_label(s, (#[trigger] mapping[i]).1)
}

/// Whether every string inside `j` is settled.
pub open spec fn is_settled_value(j: Json, mapping: Seq<(Seq<char>, Seq<char>)>) -> bool
    decreases j,
{
    match j {
        Json::Text(s) => is_settled(s, mapping),
        Json::Array(items) => forall|i: int|
            0 <= i < items.len() ==> is_settled_value(#[trigger] items[i], mapping),
        Json::Object(entries) => forall|i: int|
            0 <= i < entries.len() ==> {
                &&& is_settled((#[trigger] entries[i]).0, mapping)
                &&& is_settled_value(entries[i].1, mapping)
            },
        _ => true,
    }
}

proof fn lemma_has_no_label(s: Seq<char>, apparent: Seq<char>, canonical: Seq<char>, from: int)
    requires
        apparent.len() > 0,
        0 <= from <= s.len(),
        has_no_label(s, apparent),
    ensures
        label_replaced_from(s, apparent, canonical, from) == s.skip(from),
    decreases s.len() - from,
{
    text::lemma_find_from(s, apparent, from);
    match text::find_from(s, apparent, from) {
        Some(k) => {
            let after = k + apparent.len();
            assert(!at_boundary(s, apparent, k));
            lemma_has_no_label(s, apparent, canonical, after);
            assert(s.subrange(from, k) + apparent + s.skip(after) =~= s.skip(from)) by {
                assert(s.subrange(k, after) == apparent);
                assert forall|i: int| 0 <= i < apparent.len() implies apparent[i] == s[k + i] by {
                    assert(s.subrange(k, after)[i] == s[k + i]);
                }
            }
        },
        None => {},
    }
}

/// A mapping changes nothing in a string where no apparent prefix of it
/// occurs as a whole label prefix.
pub proof fn lemma_settled_unchanged(s: Seq<char>, mapping: Seq<(Seq<char>, Seq<char>)>)
    requires
        names_apparents(mapping),
        is_settled(s, mapping),
    ensures
        all_replaced(s, mapping) == s,
    decreases mapping.len(),
{
    if mapping.len() > 0 {
        let d = mapping.drop_last();
        assert forall|i: int| 0 <= i < d.len() implies has_no_label(s, (#[trigger] d[i]).1) by {
            assert(d[i] == mapping[i]);
        }
        assert forall|i: int| 0 <= i < d.len() implies (#[trigger] d[i]).1.len() > 0 by {
            assert(d[i] == mapping[i]);
        }
        lemma_settled_unchanged(s, d);
        assert(mapping[mapping.len() - 1].1.len() > 0);
        assert(has_no_label(s, mapping[mapping.len() - 1].1));
        lemma_has_no_label(s, mapping.last().1, mapping.last().0, 0);
        assert(s.skip(0) =~= s);
    }
}

/// What a rewrite gives has the keys of every object in order.
pub proof fn lemma_rewritten_well_formed(j: Json, mapping: Seq<(Seq<char>, Seq<char>)>)
    ensures
        json::well_formed(rewritten(j, mapping)),
    decreases j,
{
    match j {
        Json::Array(items) => {
            let out = rewritten(j, mapping)->Array_0;
            assert forall|i: int| 0 <= i < out.len() implies json::well_formed(
                #[trigger] out[i],
            ) by {
                lemma_rewritten_well_formed(items[i], mapping);
            }
        },
        Json::Object(entries) => {
            let all = rewritten_entries(entries, mapping);
            string_map::lemma_put_all_sorted(Seq::empty(), all);
            assert forall|i: int| 0 <= i < all.len() implies json::well_formed(
                (#[trigger] all[i]).1,
            ) by {
                lemma_rewritten_well_formed(entries[i].1, mapping);
            }
            lemma_gathered_all(all, |e: (Seq<char>, Json)| json::well_formed(e.1));
            let out = string_map::gathered(all);
            assert forall|i: int| 0 <= i < out.len() implies json::well_formed(
                (#[trigger] out[i]).1,
            ) by {
                let holds = |e: (Seq<char>, Json)| json::well_formed(e.1);
                assert(holds(out[i]));
            }
        },
        _ => {},
    }
}

/// What holds of every entry holds of every gathered entry.
proof fn lemma_gathered_all(
    entries: Seq<(Seq<char>, Json)>,
    holds: spec_fn((Seq<char>, Json)) -> bool,
)
    requires
        forall|i: int| 0 <= i < entries.len() ==> holds(#[trigger] entries[i]),
    ensures
        forall|i: int|
            0 <= i < string_map::gathered(entries).len() ==> holds(
                #[trigger] string_map::gathered(entries)[i],
            ),
    decreases entries.len(),
{
    if entries.len() > 0 {
        let d = entries.drop_last();
        let e = entries.last();
        assert forall|i: int| 0 <= i < d.len() implies holds(#[trigger] d[i]) by {
            assert(d[i] == entries[i]);
        }
        lemma_gathered_all(d, holds);
        let g = string_map::gathered(d);
        string_map::lemma_put_all_sorted(Seq::empty(), d);
        string_map::lemma_put_sorted(g, e.0, e.1);
        let r = string_map::gathered(entries);
        assert(r == string_map::put(g, e.0, e.1));
        assert(holds(entries[entries.len() - 1]));
        assert forall|i: int| 0 <= i < r.len() implies holds(#[trigger] r[i]) by {
            if r[i] != e {
                let k = choose|k: int| 0 <= k < g.len() && g[k] == r[i];
                assert(holds(g[k]));
            }
        }
    }
}

/// A mapping changes nothing in a settled value whose objects are in order.
pub proof fn lemma_settled_value_unchanged(j: Json, mapping: Seq<(Seq<char>, Seq<char>)>)
    requires
        names_apparents(mapping),
        json::well_formed(j),
        is_settled_value(j, mapping),
    ensures
        rewritten(j, mapping) == j,
    decreases j,
{
    match j {
        Json::Text(s) => {
            lemma_settled_unchanged(s, mapping);
        },
        Json::Array(items) => {
            let out = rewritten(j, mapping)->Array_0;
            assert forall|i: int| 0 <= i < out.len() implies out[i] == items[i] by {
                assert(json::well_formed(items[i]));
                lemma_settled_value_unchanged(items[i], mapping);
            }
            assert(out =~= items);
        },
        Json::Object(entries) => {
            let all = rewritten_entries(entries, mapping);
            assert forall|i: int| 0 <= i < all.len() implies all[i] == entries[i] by {
                assert(json::well_formed(entries[i].1));
                assert(is_settled(entries[i].0, mapping));
                lemma_settled_unchanged(entries[i].0, mapping);
                lemma_settled_value_unchanged(entries[i].1, mapping);
            }
            assert(all =~= entries);
            string_map::lemma_gathered_sorted(entries);
        },
        _ => {},
    }
}

/// Once no apparent prefix is left in what a mapping gave, applying the
/// mapping a second time changes nothing.
pub proof fn lemma_rewrite_idempotent_when_settled(
    j: Json,
    mapping: Seq<(Seq<char>, Seq<char>)>,
)
    requires
        names_apparents(mapping),
        is_settled_value(rewritten(j, mapping), mapping),
    ensures
        rewritten(rewritten(j, mapping), mapping) == rewritten(j, mapping),
{
    lemma_rewritten_well_formed(j, mapping);
    lemma_settled_value_unchanged(rewritten(j, mapping), mapping);
}

/// Whether `s` is an apparent prefix: a `@`, and no other `@` after it.
pub open spec fn is_apparent_prefix(s: Seq<char>) -> bool {
    &&& s.len() > 0
    &&& s[0] == '@'
    &&& forall|i: int| 1 <= i < s.len() ==> #[trigger] s[i] != '@'
}

/// Whether `s` is a canonical prefix: `@@`, and no other `@` after it.
pub open spec fn is_canonical_prefix(s: Seq<char>) -> bool {
    &&& s.len() > 1
    &&& s[0] == '@'
    &&& s[1] == '@'
    &&& forall|i: int| 2 <= i < s.len() ==> #[trigger] s[i] != '@'
}

/// Whether `mapping` takes canonical prefixes to apparent ones.
pub open spec fn is_prefix_mapping(mapping: Seq<(Seq<char>, Seq<char>)>) -> bool {
    forall|i: int|
        0 <= i < mapping.len() ==> is_canonical_prefix((#[trigger] mapping[i]).0)
            && is_apparent_prefix(mapping[i].1)
}

/// `at_boundary` inside a longer text, where `prev_at` tells whether the
/// character before `t` is `@`.
spec fn bounded(t: Seq<char>, b: Seq<char>, k: int, prev_at: bool) -> bool {
    let after = k + b.len();
    &&& !(k > 0 && t[k - 1] == '@')
    &&& !(k == 0 && prev_at)
    &&& !(after < t.len() && (t[after] == '@' || is_repo_name_char(t[after])))
}

spec fn no_bounded(t: Seq<char>, b: Seq<char>, prev_at: bool) -> bool {
    forall|k: int| #[trigger] text::matches_at(t, b, k) ==> !bounded(t, b, k, prev_at)
}

/// Whether `t` and `u` agree up to their first `@`, which comes at position
/// `n`, or end there.
spec fn aligned_at(t: Seq<char>, u: Seq<char>, n: int) -> bool {
    &&& 0 <= n <= t.len()
    &&& n <= u.len()
    &&& forall|i: int| 0 <= i < n ==> #[trigger] t[i] == u[i] && t[i] != '@'
    &&& (n == t.len() <==> n == u.len())
    &&& n < t.len() ==> t[n] == '@' && u[n] == '@'
}

proof fn lemma_first_at(u: Seq<char>, n: int) -> (r: int)
    requires
        0 <= n <= u.len(),
        forall|i: int| 0 <= i < n ==> #[trigger] u[i] != '@',
    ensures
        n <= r <= u.len(),
        forall|i: int| 0 <= i < r ==> #[trigger] u[i] != '@',
        r < u.len() ==> u[r] == '@',
    decreases u.len() - n,
{
    if n == u.len() || u[n] == '@' {
        n
    } else {
        lemma_first_at(u, n + 1)
    }
}

/// What stands at a position of an occurrence.
proof fn lemma_match_chars(s: Seq<char>, b: Seq<char>, k: int)
    requires
        text::matches_at(s, b, k),
    ensures
        forall|i: int| 0 <= i < b.len() ==> #[trigger] b[i] == s[k + i],
{
    assert forall|i: int| 0 <= i < b.len() implies #[trigger] b[i] == s[k + i] by {
        assert(s.subrange(k, k + b.len())[i] == s[k + i]);
    }
}

proof fn lemma_chars_match(s: Seq<char>, b: Seq<char>, k: int)
    requires
        0 <= k,
        k + b.len() <= s.len(),
        forall|i: int| 0 <= i < b.len() ==> #[trigger] b[i] == s[k + i],
    ensures
        text::matches_at(s, b, k),
{
    assert(s.subrange(k, k + b.len()) =~= b);
}

/// A replaced text and the text that it comes from agree up to their first
/// `@`.
proof fn lemma_aligned(s: Seq<char>, a: Seq<char>, c: Seq<char>, from: int) -> (n: int)
    requires
        is_apparent_prefix(a),
        is_canonical_prefix(c),
        0 <= from <= s.len(),
    ensures
        aligned_at(label_replaced_from(s, a, c, from), s.skip(from), n),
{
    let t = label_replaced_from(s, a, c, from);
    let u = s.skip(from);
    let n = lemma_first_at(u, 0);
    text::lemma_find_from(s, a, from);
    match text::find_from(s, a, from) {
        Some(k) => {
            lemma_match_chars(s, a, k);
            assert(a[0] == s[k + 0]);
            assert(u[k - from] == '@');
            assert(n <= k - from);
            assert forall|i: int| 0 <= i < n implies #[trigger] t[i] == u[i] && t[i] != '@' by {
                assert(u[i] != '@');
            }
        },
        None => {
            assert forall|i: int| 0 <= i < n implies #[trigger] t[i] == u[i] && t[i] != '@' by {
                assert(u[i] != '@');
            }
        },
    }
    n
}

/// An occurrence of `b` that begins at a `@` of `t` after which `t` agrees
/// with `s` is one of `s` as well, with the same right-hand boundary.
proof fn lemma_carry_back(
    t: Seq<char>,
    q: int,
    s: Seq<char>,
    p: int,
    b: Seq<char>,
    n: int,
)
    requires
        is_apparent_prefix(b),
        text::matches_at(t, b, q),
        0 <= p < s.len(),
        s[p] == '@',
        aligned_at(t.skip(q + 1), s.skip(p + 1), n),
    ensures
        text::matches_at(s, b, p),
        (q + b.len() < t.len() && (t[q + b.len()] == '@' || is_repo_name_char(t[q + b.len()])))
            == (p + b.len() < s.len() && (s[p + b.len()] == '@' || is_repo_name_char(
            s[p + b.len()],
        ))),
{
    lemma_match_chars(t, b, q);
    let tt = t.skip(q + 1);
    let ss = s.skip(p + 1);
    if n < b.len() - 1 {
        assert(tt[n] == t[q + 1 + n]);
        assert(b[n + 1] == t[q + (n + 1)]);
        assert(b[n + 1] != '@');
        assert(false);
    }
    assert forall|i: int| 0 <= i < b.len() implies #[trigger] b[i] == s[p + i] by {
        if i > 0 {
            assert(tt[i - 1] == ss[i - 1]);
            assert(b[i] == t[q + i]);
        } else {
            assert(b[0] == '@');
        }
    }
    lemma_chars_match(s, b, p);
    let m = b.len() - 1;
    if q + b.len() < t.len() {
        assert(tt[m] == t[q + b.len()]);
        if n > m {
            assert(tt[m] == ss[m]);
        }
        assert(ss[m] == s[p + b.len()]);
    }
}

/// An occurrence that begins in text that was left as it is, before the first
/// occurrence of `a` at `k`.
proof fn lemma_occurrence_before(
    s: Seq<char>,
    a: Seq<char>,
    b: Seq<char>,
    from: int,
    k: int,
    x: Seq<char>,
    rest: Seq<char>,
    q: int,
)
    requires
        is_apparent_prefix(b),
        b == a || has_no_label(s, b),
        0 <= from <= k < s.len(),
        s[k] == '@',
        x.len() > 0,
        x[0] == '@',
        forall|j: int| from <= j < k ==> !text::matches_at(s, a, j),
        text::matches_at(s.subrange(from, k) + x + rest, b, q),
        q < k - from,
    ensures
        !bounded(s.subrange(from, k) + x + rest, b, q, from > 0 && s[from - 1] == '@'),
{
    let v = s.subrange(from, k);
    let t = v + x + rest;
    let p = from + q;
    lemma_match_chars(t, b, q);
    assert(b[0] == t[q + 0]);
    assert(s[p] == '@');
    let tt = t.skip(q + 1);
    let ss = s.skip(p + 1);
    let w = s.subrange(p + 1, k);
    let n = lemma_first_at(w, 0);
    assert(aligned_at(tt, ss, n)) by {
        assert forall|i: int| 0 <= i < n implies #[trigger] tt[i] == ss[i] && tt[i] != '@' by {
            assert(w[i] != '@');
        }
        if n < w.len() {
            assert(w[n] == '@');
        } else {
            assert(tt[n] == x[0]);
            assert(ss[n] == s[k]);
        }
    }
    lemma_carry_back(t, q, s, p, b, n);
    if b == a {
        assert(!text::matches_at(s, a, p));
    } else {
        assert(!at_boundary(s, b, p));
        if q > 0 {
            assert(t[q - 1] == s[p - 1]);
        }
    }
}

/// An occurrence that begins where `a` was found and left.
proof fn lemma_occurrence_skipped(
    s: Seq<char>,
    a: Seq<char>,
    b: Seq<char>,
    from: int,
    k: int,
    rest: Seq<char>,
    m: int,
    q: int,
)
    requires
        is_apparent_prefix(a),
        is_apparent_prefix(b),
        b == a || has_no_label(s, b),
        0 <= from <= k,
        text::matches_at(s, a, k),
        !at_boundary(s, a, k),
        aligned_at(rest, s.skip(k + a.len()), m),
        text::matches_at(s.subrange(from, k) + a + rest, b, q),
        k - from <= q < k - from + a.len(),
    ensures
        !bounded(s.subrange(from, k) + a + rest, b, q, from > 0 && s[from - 1] == '@'),
{
    let v = s.subrange(from, k);
    let t = v + a + rest;
    let after = k + a.len();
    lemma_match_chars(t, b, q);
    lemma_match_chars(s, a, k);
    assert(b[0] == t[q + 0]);
    assert(t[q] == a[q - v.len()]);
    if q > v.len() {
        assert(a[q - v.len()] != '@');
    }
    assert(q == v.len());
    assert(a[0] == s[k + 0]);
    let tt = t.skip(q + 1);
    let ss = s.skip(k + 1);
    let r = s.skip(after);
    let n = a.len() - 1 + m;
    assert(aligned_at(tt, ss, n)) by {
        assert forall|z: int| 0 <= z < n implies #[trigger] tt[z] == ss[z] && tt[z] != '@' by {
            if z < a.len() - 1 {
                assert(tt[z] == a[z + 1]);
                assert(a[z + 1] == s[k + (z + 1)]);
            } else {
                assert(tt[z] == rest[z - (a.len() - 1)]);
                assert(rest[z - (a.len() - 1)] == r[z - (a.len() - 1)]);
            }
        }
        if n < tt.len() {
            assert(tt[n] == rest[m]);
            assert(ss[n] == r[m]);
        }
    }
    lemma_carry_back(t, q, s, k, b, n);
    assert(!at_boundary(s, b, k));
    if k > from {
        assert(t[q - 1] == v[k - from - 1]);
    }
}

/// An occurrence that begins inside a replacement.
proof fn lemma_occurrence_inside(
    s: Seq<char>,
    a: Seq<char>,
    c: Seq<char>,
    b: Seq<char>,
    from: int,
    k: int,
    rest: Seq<char>,
    q: int,
)
    requires
        is_apparent_prefix(a),
        is_apparent_prefix(b),
        is_canonical_prefix(c),
        0 <= from <= k <= s.len(),
        text::matches_at(s.subrange(from, k) + substitute(s, a, c, k) + rest, b, q),
        k - from <= q < k - from + substitute(s, a, c, k).len(),
    ensures
        !bounded(
            s.subrange(from, k) + substitute(s, a, c, k) + rest,
            b,
            q,
            from > 0 && s[from - 1] == '@',
        ),
{
    let v = s.subrange(from, k);
    let x = substitute(s, a, c, k);
    let t = v + x + rest;
    let i = q - v.len();
    lemma_substitute_ats(s, a, c, k);
    lemma_match_chars(t, b, q);
    assert(b[0] == t[q + 0]);
    assert(x[i] == '@');
    if i == 0 {
        assert(t[q + 1] == x[1]);
        if b.len() > 1 {
            assert(b[1] == t[q + 1]);
            assert(b[1] != '@');
        }
    } else {
        assert(i == 1);
        assert(t[q - 1] == x[0]);
    }
}

/// An occurrence that begins after the text `x` that stands for `a` at `k`.
proof fn lemma_occurrence_after(
    s: Seq<char>,
    a: Seq<char>,
    b: Seq<char>,
    from: int,
    k: int,
    x: Seq<char>,
    rest: Seq<char>,
    m: int,
    q: int,
)
    requires
        is_apparent_prefix(b),
        a.len() > 0,
        0 <= from <= k,
        text::matches_at(s, a, k),
        x == a || at_boundary(s, a, k),
        x.len() > 0,
        aligned_at(rest, s.skip(k + a.len()), m),
        no_bounded(rest, b, s[k + a.len() - 1] == '@'),
        text::matches_at(s.subrange(from, k) + x + rest, b, q),
        k - from + x.len() <= q,
    ensures
        !bounded(s.subrange(from, k) + x + rest, b, q, from > 0 && s[from - 1] == '@'),
{
    let v = s.subrange(from, k);
    let t = v + x + rest;
    let after = k + a.len();
    let z = q - v.len() - x.len();
    lemma_match_chars(t, b, q);
    lemma_match_chars(s, a, k);
    assert forall|i: int| 0 <= i < b.len() implies #[trigger] b[i] == rest[z + i] by {
        assert(b[i] == t[q + i]);
    }
    lemma_chars_match(rest, b, z);
    assert(!bounded(rest, b, z, s[after - 1] == '@'));
    if z == 0 {
        assert(b[0] == rest[z + 0]);
        assert(m == 0);
        assert(s.skip(after)[0] == s[after]);
        if x == a {
            assert(a[a.len() - 1] == s[k + (a.len() - 1)]);
            assert(t[q - 1] == x[x.len() - 1]);
        }
    } else {
        assert(t[q - 1] == rest[z - 1]);
    }
    if z + b.len() < rest.len() {
        assert(t[q + b.len()] == rest[z + b.len()]);
    }
}

/// No whole-label occurrence of `b` comes out of a replacement, when `b` is
/// what was replaced or occurred nowhere to begin with.
proof fn lemma_replacement_adds_nothing(
    s: Seq<char>,
    a: Seq<char>,
    c: Seq<char>,
    b: Seq<char>,
    from: int,
)
    requires
        is_apparent_prefix(a),
        is_apparent_prefix(b),
        is_canonical_prefix(c),
        b == a || has_no_label(s, b),
        0 <= from <= s.len(),
    ensures
        no_bounded(label_replaced_from(s, a, c, from), b, from > 0 && s[from - 1] == '@'),
    decreases s.len() - from,
{
    let prev_at = from > 0 && s[from - 1] == '@';
    let t = label_replaced_from(s, a, c, from);
    text::lemma_find_from(s, a, from);
    match text::find_from(s, a, from) {
        None => {
            assert forall|q: int| #[trigger] text::matches_at(t, b, q) implies !bounded(
                t,
                b,
                q,
                prev_at,
            ) by {
                lemma_match_chars(t, b, q);
                assert forall|i: int| 0 <= i < b.len() implies #[trigger] b[i] == s[from + q
                    + i] by {
                    assert(b[i] == t[q + i]);
                }
                lemma_chars_match(s, b, from + q);
                assert(!at_boundary(s, b, from + q));
            }
        },
        Some(k) => {
            let after = k + a.len();
            lemma_replacement_adds_nothing(s, a, c, b, after);
            lemma_match_chars(s, a, k);
            assert(a[0] == s[k + 0]);
            let v = s.subrange(from, k);
            let replaced = at_boundary(s, a, k);
            let x = if replaced {
                substitute(s, a, c, k)
            } else {
                a
            };
            let rest = label_replaced_from(s, a, c, after);
            assert(t == v + x + rest);
            lemma_substitute_ats(s, a, c, k);
            let m = lemma_aligned(s, a, c, after);
            assert forall|q: int| #[trigger] text::matches_at(t, b, q) implies !bounded(
                t,
                b,
                q,
                prev_at,
            ) by {
                if q < v.len() {
                    lemma_occurrence_before(s, a, b, from, k, x, rest, q);
                } else if q >= v.len() + x.len() {
                    lemma_occurrence_after(s, a, b, from, k, x, rest, m, q);
                } else if replaced {
                    lemma_occurrence_inside(s, a, c, b, from, k, rest, q);
                } else {
                    lemma_occurrence_skipped(s, a, b, from, k, rest, m, q);
                }
            }
        },
    }
}

/// The text that takes the place of a prefix has its `@`s at the front.
proof fn lemma_substitute_ats(s: Seq<char>, a: Seq<char>, c: Seq<char>, k: int)
    requires
        is_apparent_prefix(a),
        is_canonical_prefix(c),
    ensures
        substitute(s, a, c, k).len() > 1,
        substitute(s, a, c, k)[0] == '@',
        substitute(s, a, c, k)[1] == '@',
        forall|i: int|
            2 <= i < substitute(s, a, c, k).len() ==> #[trigger] substitute(s, a, c, k)[i] != '@',
{
    let x = substitute(s, a, c, k);
    let target = apparent_target(a);
    assert(seq!['@'].is_prefix_of(a)) by {
        assert(a.take(1) =~= seq!['@']);
    }
    assert(target == a.skip(1));
    assert forall|i: int| 2 <= i < x.len() implies #[trigger] x[i] != '@' by {
        if i < c.len() {
            assert(x[i] == c[i]);
        } else if i >= c.len() + 3 {
            assert(x[i] == target[i - c.len() - 3]);
            assert(target[i - c.len() - 3] == a[i - c.len() - 3 + 1]);
        }
    }
}

/// A mapping from canonical to apparent prefixes leaves none of its apparent
/// prefixes as a whole label prefix.
pub proof fn lemma_prefix_mapping_settles(s: Seq<char>, mapping: Seq<(Seq<char>, Seq<char>)>)
    requires
        is_prefix_mapping(mapping),
    ensures
        is_settled(all_replaced(s, mapping), mapping),
    decreases mapping.len(),
{
    if mapping.len() > 0 {
        let d = mapping.drop_last();
        assert forall|i: int| 0 <= i < d.len() implies is_canonical_prefix((#[trigger] d[i]).0)
            && is_apparent_prefix(d[i].1) by {
            assert(d[i] == mapping[i]);
        }
        lemma_prefix_mapping_settles(s, d);
        let before = all_replaced(s, d);
        let (c, a) = mapping[mapping.len() - 1];
        let after = label_replaced(before, a, c);
        assert forall|i: int| 0 <= i < mapping.len() implies has_no_label(
            after,
            (#[trigger] mapping[i]).1,
        ) by {
            let b = mapping[i].1;
            if i < d.len() {
                assert(d[i] == mapping[i]);
                assert(has_no_label(before, b));
            }
            lemma_replacement_adds_nothing(before, a, c, b, 0);
            assert forall|k: int| #[trigger] text::matches_at(after, b, k) implies !at_boundary(
                after,
                b,
                k,
            ) by {
                assert(!bounded(after, b, k, false));
            }
        }
    }
}

proof fn lemma_prefix_mapping_settles_value(j: Json, mapping: Seq<(Seq<char>, Seq<char>)>)
    requires
        is_prefix_mapping(mapping),
    ensures
        is_settled_value(rewritten(j, mapping), mapping),
    decreases j,
{
    match j {
        Json::Text(s) => {
            lemma_prefix_mapping_settles(s, mapping);
        },
        Json::Array(items) => {
            let out = rewritten(j, mapping)->Array_0;
            assert forall|i: int| 0 <= i < out.len() implies is_settled_value(
                #[trigger] out[i],
                mapping,
            ) by {
                lemma_prefix_mapping_settles_value(items[i], mapping);
            }
        },
        Json::Object(entries) => {
            let all = rewritten_entries(entries, mapping);
            let holds = |e: (Seq<char>, Json)|
                is_settled(e.0, mapping) && is_settled_value(e.1, mapping);
            assert forall|i: int| 0 <= i < all.len() implies holds(#[trigger] all[i]) by {
                lemma_prefix_mapping_settles(entries[i].0, mapping);
                lemma_prefix_mapping_settles_value(entries[i].1, mapping);
            }
            lemma_gathered_all(all, holds);
            let out = string_map::gathered(all);
            assert forall|i: int| 0 <= i < out.len() implies is_settled(
                (#[trigger] out[i]).0,
                mapping,
            ) && is_settled_value(out[i].1, mapping) by {
                assert(holds(out[i]));
            }
        },
        _ => {},
    }
}

/// Applying a mapping from canonical to apparent prefixes a second time
/// changes nothing, in any value.
pub proof fn lemma_rewrite_idempotent(j: Json, mapping: Seq<(Seq<char>, Seq<char>)>)
    requires
        is_prefix_mapping(mapping),
    ensures
        rewritten(rewritten(j, mapping), mapping) == rewritten(j, mapping),
{
    lemma_prefix_mapping_settles_value(j, mapping);
    assert forall|i: int| 0 <= i < mapping.len() implies (#[trigger] mapping[i]).1.len() > 0 by {
        assert(is_apparent_prefix(mapping[i].1));
    }
    lemma_rewrite_idempotent_when_settled(j, mapping);
}

// ---------------------------------------------------------------------------
// What becomes of a label
// ---------------------------------------------------------------------------

/// Whether a text begins with something that makes a name before it longer: a
/// `@`, or a letter, a digit, `_`, `-`, `.`, `+` or `~`.
pub open spec fn goes_on(q: Seq<char>) -> bool {
    q.len() > 0 && (q[0] == '@' || 'a' <= q[0] <= 'z' || 'A' <= q[0] <= 'Z' || '0' <= q[0] <= '9'
        || q[0] == '_' || q[0] == '-' || q[0] == '.' || q[0] == '+' || q[0] == '~')
}

/// Whether a text begins with two slashes.
pub open spec fn has_slashes(q: Seq<char>) -> bool {
    q.len() >= 2 && q[0] == '/' && q[1] == '/'
}

proof fn lemma_replaced_shift(
    p: Seq<char>,
    q: Seq<char>,
    a: Seq<char>,
    c: Seq<char>,
    from: int,
)
    requires
        a.len() > 0,
        p.len() <= from <= p.len() + q.len(),
        p.len() > 0 && p.last() == '@' ==> q.len() == 0 || q[0] != a[0],
    ensures
        label_replaced_from(p + q, a, c, from) == label_replaced_from(q, a, c, from - p.len()),
    decreases p.len() + q.len() - from,
{
    let s = p + q;
    let n = p.len() as int;
    text::lemma_find_shift(p, q, a, from);
    text::lemma_find_from(s, a, from);
    text::lemma_find_from(q, a, from - n);
    match text::find_from(s, a, from) {
        Some(k) => {
            assert(s.subrange(from, k) =~= q.subrange(from - n, k - n));
            let after = k + a.len();
            assert(at_boundary(s, a, k) == at_boundary(q, a, k - n)) by {
                if k == n {
                    assert(q.subrange(0, a.len() as int)[0] == a[0]);
                    assert(q[0] == a[0]);
                }
            }
            assert(text::matches_at(s, seq!['/', '/'], after) == text::matches_at(
                q,
                seq!['/', '/'],
                after - n,
            )) by {
                if after + 2 <= s.len() {
                    assert(s.subrange(after, after + 2) =~= q.subrange(after - n, after - n + 2));
                }
            }
            lemma_replaced_shift(p, q, a, c, after);
        },
        None => {
            assert(s.skip(from) =~= q.skip(from - n));
        },
    }
}

/// A text that the apparent prefix does not occur in stays as it is.
pub proof fn lemma_label_absent(s: Seq<char>, apparent: Seq<char>, canonical: Seq<char>)
    requires
        apparent.len() > 0,
        text::is_absent(s, apparent),
    ensures
        label_replaced(s, apparent, canonical) == s,
{
    text::lemma_find_from(s, apparent, 0);
    match text::find_from(s, apparent, 0) {
        Some(k) => {
            assert(s.subrange(k, k + apparent.len()) == apparent);
        },
        None => {
            assert(s.skip(0) =~= s);
        },
    }
}

proof fn lemma_label_step(
    p: Seq<char>,
    q: Seq<char>,
    apparent: Seq<char>,
    canonical: Seq<char>,
)
    requires
        apparent.len() > 0,
        text::is_first_at(p + apparent + q, apparent, p.len() as int),
        apparent.last() == '@' ==> q.len() == 0 || q[0] != apparent[0],
    ensures
        label_replaced(p + apparent + q, apparent, canonical) == p + (if at_boundary(
            p + apparent + q,
            apparent,
            p.len() as int,
        ) {
            substitute(p + apparent + q, apparent, canonical, p.len() as int)
        } else {
            apparent
        }) + label_replaced(q, apparent, canonical),
{
    let s = p + apparent + q;
    let n = p.len() as int;
    text::lemma_find_from(s, apparent, 0);
    assert(text::matches_at(s, apparent, n));
    match text::find_from(s, apparent, 0) {
        Some(k) => {
            if k < n {
                assert(s.subrange(k, k + apparent.len()) == apparent);
            }
            assert(k == n);
        },
        None => {},
    }
    assert(s.subrange(0, n) =~= p);
    assert((p + apparent) + q =~= s);
    assert((p + apparent).last() == apparent.last());
    lemma_replaced_shift(p + apparent, q, apparent, canonical, n + apparent.len());
}

/// The first label `@name` of a text is replaced by the canonical prefix where a
/// `//` follows it, and by the canonical prefix with the target of that name
/// where none does, whatever else follows; and the rest of the text is rewritten
/// by itself. A `@name` that is part of a longer name stays, and the rest is
/// rewritten too.
pub proof fn lemma_first_label(
    p: Seq<char>,
    name: Seq<char>,
    q: Seq<char>,
    canonical: Seq<char>,
)
    requires
        name.len() > 0,
        text::free_of(name, '@'),
        text::is_first_at(p + (seq!['@'] + name) + q, seq!['@'] + name, p.len() as int),
    ensures
        label_replaced(p + (seq!['@'] + name) + q, seq!['@'] + name, canonical) == p + (if (
        p.len() > 0 && p.last() == '@') || goes_on(q) {
            seq!['@'] + name
        } else if has_slashes(q) {
            canonical
        } else {
            canonical + seq!['/', '/', ':'] + name
        }) + label_replaced(q, seq!['@'] + name, canonical),
{
    let apparent = seq!['@'] + name;
    let s = p + apparent + q;
    let n = p.len() as int;
    let after = n + apparent.len();
    assert(apparent.last() == name[name.len() - 1]);
    lemma_label_step(p, q, apparent, canonical);
    assert(n > 0 ==> s[n - 1] == p.last());
    assert(after < s.len() ==> s[after] == q[0]);
    assert(at_boundary(s, apparent, n) == !((n > 0 && p.last() == '@') || goes_on(q)));
    assert(text::matches_at(s, seq!['/', '/'], after) == has_slashes(q)) by {
        if after + 2 <= s.len() {
            let two = s.subrange(after, after + 2);
            assert(two[0] == q[0] && two[1] == q[1]);
            if has_slashes(q) {
                assert(two =~= seq!['/', '/']);
            }
        }
    }
    assert(seq!['@'].is_prefix_of(apparent)) by {
        assert(apparent.take(1) =~= seq!['@']);
    }
    assert(apparent.skip(1) =~= name);
    assert(apparent_target(apparent) == name);
}

/// The prefix `@` alone, which has no name, is replaced by the canonical prefix
/// and nothing more, where it is not beside another `@` or before a name.
pub proof fn lemma_first_nameless_label(p: Seq<char>, q: Seq<char>, canonical: Seq<char>)
    requires
        text::free_of(p, '@'),
        !goes_on(q),
    ensures
        label_replaced(p + seq!['@'] + q, seq!['@'], canonical) == p + canonical + label_replaced(
            q,
            seq!['@'],
            canonical,
        ),
{
    let apparent = seq!['@'];
    let s = p + apparent + q;
    let n = p.len() as int;
    assert(s.subrange(n, n + 1) =~= apparent);
    assert forall|i: int| 0 <= i < n implies #[trigger] s.subrange(i, i + 1) != apparent by {
        assert(s.subrange(i, i + 1)[0] == p[i]);
        assert(apparent[0] == '@');
    }
    lemma_label_step(p, q, apparent, canonical);
    assert(n > 0 ==> s[n - 1] == p[n - 1]);
    assert(n + 1 < s.len() ==> s[n + 1] == q[0]);
    assert(at_boundary(s, apparent, n));
    assert(apparent.take(1) =~= apparent);
    assert(apparent.skip(1) =~= Seq::<char>::empty());
    assert(apparent_target(apparent).len() == 0);
}

/// The prefix `@` alone stays where a name follows it.
pub proof fn lemma_nameless_before_name(p: Seq<char>, q: Seq<char>, canonical: Seq<char>)
    requires
        text::free_of(p, '@'),
        goes_on(q),
        q[0] != '@',
    ensures
        label_replaced(p + seq!['@'] + q, seq!['@'], canonical) == p + seq!['@'] + label_replaced(
            q,
            seq!['@'],
            canonical,
        ),
{
    let apparent = seq!['@'];
    let s = p + apparent + q;
    let n = p.len() as int;
    assert(s.subrange(n, n + 1) =~= apparent);
    assert forall|i: int| 0 <= i < n implies #[trigger] s.subrange(i, i + 1) != apparent by {
        assert(s.subrange(i, i + 1)[0] == p[i]);
        assert(apparent[0] == '@');
    }
    lemma_label_step(p, q, apparent, canonical);
    assert(s[n + 1] == q[0]);
    assert(!at_boundary(s, apparent, n));
}

/// An apparent prefix that is written without `@` is replaced like one with it.
pub proof fn lemma_first_bare_label(
    p: Seq<char>,
    name: Seq<char>,
    q: Seq<char>,
    canonical: Seq<char>,
)
    requires
        name.len() > 0,
        text::free_of(name, '@'),
        text::is_first_at(p + name + q, name, p.len() as int),
    ensures
        label_replaced(p + name + q, name, canonical) == p + (if (p.len() > 0 && p.last() == '@')
            || goes_on(q) {
            name
        } else if has_slashes(q) {
            canonical
        } else {
            canonical + seq!['/', '/', ':'] + name
        }) + label_replaced(q, name, canonical),
{
    let s = p + name + q;
    let n = p.len() as int;
    let after = n + name.len();
    assert(name.last() == name[name.len() - 1]);
    lemma_label_step(p, q, name, canonical);
    assert(n > 0 ==> s[n - 1] == p.last());
    assert(after < s.len() ==> s[after] == q[0]);
    assert(at_boundary(s, name, n) == !((n > 0 && p.last() == '@') || goes_on(q)));
    assert(text::matches_at(s, seq!['/', '/'], after) == has_slashes(q)) by {
        if after + 2 <= s.len() {
            let two = s.subrange(after, after + 2);
            assert(two[0] == q[0] && two[1] == q[1]);
            if has_slashes(q) {
                assert(two =~= seq!['/', '/']);
            }
        }
    }
    assert(!seq!['@'].is_prefix_of(name)) by {
        if seq!['@'].is_prefix_of(name) {
            assert(name.subrange(0, 1)[0] == '@');
            assert(name[0] == '@');
        }
    }
    assert(apparent_target(name) == name);
}

/// A `@@` is the beginning of a label that is canonical already, and stays, when
/// the nameless prefix is replaced.
pub proof fn lemma_canonical_label_stays(p: Seq<char>, q: Seq<char>, canonical: Seq<char>)
    requires
        text::free_of(p, '@'),
        q.len() == 0 || q[0] != '@',
    ensures
        label_replaced(p + seq!['@', '@'] + q, seq!['@'], canonical) == p + seq!['@', '@']
            + label_replaced(q, seq!['@'], canonical),
{
    let apparent = seq!['@'];
    let s = p + seq!['@', '@'] + q;
    let n = p.len() as int;
    text::lemma_find_from(s, apparent, 0);
    assert(s.subrange(n, n + 1) =~= apparent);
    assert(text::matches_at(s, apparent, n));
    match text::find_from(s, apparent, 0) {
        Some(k) => {
            if k < n {
                assert(s.subrange(k, k + 1)[0] == p[k]);
                assert(apparent[0] == '@');
            }
            assert(k == n);
        },
        None => {},
    }
    assert(s[n + 1] == '@');
    assert(!at_boundary(s, apparent, n));
    assert(s.subrange(n + 1, n + 2) =~= apparent);
    assert(text::matches_at(s, apparent, n + 1));
    assert(text::find_from(s, apparent, n + 1) == Some(n + 1));
    assert(s[n] == '@');
    assert(!at_boundary(s, apparent, n + 1));
    assert((p + seq!['@', '@']) + q =~= s);
    lemma_replaced_shift(p + seq!['@', '@'], q, apparent, canonical, n + 2);
    assert(s.subrange(0, n) =~= p);
    assert(s.subrange(n + 1, n + 1) =~= Seq::<char>::empty());
    let rest = label_replaced(q, apparent, canonical);
    assert(label_replaced_from(s, apparent, canonical, n + 2) == rest);
    assert(label_replaced_from(s, apparent, canonical, n + 1) =~= apparent + rest);
    assert(label_replaced_from(s, apparent, canonical, 0) =~= p + apparent + (apparent + rest));
    assert(p + apparent + (apparent + rest) =~= p + seq!['@', '@'] + rest);
}

/// A mapping is applied entry by entry, in the order of its entries: with one
/// entry its apparent prefix is replaced by its canonical one, and what some
/// entries leave is what the others are applied to.
pub proof fn lemma_mapping_in_order(
    s: Seq<char>,
    first: Seq<(Seq<char>, Seq<char>)>,
    canonical: Seq<char>,
    apparent: Seq<char>,
    more: Seq<(Seq<char>, Seq<char>)>,
)
    ensures
        all_replaced(s, Seq::empty()) == s,
        all_replaced(s, seq![(canonical, apparent)]) == label_replaced(s, apparent, canonical),
        all_replaced(s, first + more) == all_replaced(all_replaced(s, first), more),
    decreases more.len(),
{
    let one = seq![(canonical, apparent)];
    assert(one.drop_last() =~= Seq::empty());
    assert(one.last() == (canonical, apparent));
    assert(all_replaced(s, one.drop_last()) == s);
    assert(all_replaced(s, one) == label_replaced(s, apparent, canonical));
    if more.len() == 0 {
        assert(first + more =~= first);
    } else {
        let d = more.drop_last();
        lemma_mapping_in_order(s, first, canonical, apparent, d);
        assert((first + more).drop_last() =~= first + d);
        assert((first + more).last() == more.last());
    }
}

/// Rewriting reaches every string of a value and nothing else: a text is
/// replaced, an array item by item, and a value without strings stays. The
/// members of an object are found under their rewritten keys, with their values
/// rewritten, and there are no others; where two keys become the same, the later
/// member counts.
pub proof fn lemma_every_string_rewritten(
    j: Json,
    mapping: Seq<(Seq<char>, Seq<char>)>,
    i: int,
    q: Seq<char>,
)
    ensures
        j matches Json::Text(s) ==> rewritten(j, mapping) == Json::Text(all_replaced(s, mapping)),
        j is Null || j is Bool || j is Number ==> rewritten(j, mapping) == j,
        j matches Json::Array(items) ==> (rewritten(j, mapping) matches Json::Array(out)
            && out.len() == items.len() && (0 <= i < items.len() ==> out[i] == rewritten(
            items[i],
            mapping,
        ))),
        j matches Json::Object(entries) ==> (rewritten(j, mapping) matches Json::Object(out) && {
            &&& (0 <= i < entries.len() && forall|k: int|
                i < k < entries.len() ==> all_replaced((#[trigger] entries[k]).0, mapping)
                    != all_replaced(entries[i].0, mapping)) ==> string_map::lookup(
                out,
                all_replaced(entries[i].0, mapping),
            ) == Some(rewritten(entries[i].1, mapping))
            &&& string_map::lookup(out, q) is Some ==> exists|k: int|
                0 <= k < entries.len() && q == all_replaced((#[trigger] entries[k]).0, mapping)
        }),
{
    match j {
        Json::Object(entries) => {
            let all = rewritten_entries(entries, mapping);
            string_map::lemma_gathered_lookup(all, q);
            if string_map::lookup(string_map::gathered(all), q) is Some {
                let w = string_map::lookup(string_map::gathered(all), q)->0;
                let k = choose|k: int| 0 <= k < all.len() && #[trigger] all[k] == (q, w);
                assert(q == all_replaced(entries[k].0, mapping));
            }
            if 0 <= i < entries.len() {
                let key = all_replaced(entries[i].0, mapping);
                string_map::lemma_gathered_lookup(all, key);
                assert(all[i] == (key, rewritten(entries[i].1, mapping)));
                if forall|k: int|
                    i < k < entries.len() ==> all_replaced((#[trigger] entries[k]).0, mapping)
                        != key {
                    match string_map::lookup(string_map::gathered(all), key) {
                        Some(w) => {
                            let k = choose|k: int|
                                0 <= k < all.len() && #[trigger] all[k] == (key, w) && forall|m: int|
                                    k < m < all.len() ==> (#[trigger] all[m]).0 != key;
                            if k > i {
                                assert(all_replaced(entries[k].0, mapping) == key);
                            } else if k < i {
                                assert(all[i].0 != key);
                            }
                        },
                        None => {
                            assert(all[i].0 != key);
                        },
                    }
                }
            }
        },
        _ => {},
    }
}

// ---------------------------------------------------------------------------
// What the annotations declare
// ---------------------------------------------------------------------------

/// Whether a `label_injections` value has a member `canonical` with the text
/// `apparent`, neither of them empty.
pub open spec fn injects(j: Json, canonical: Seq<char>, apparent: Seq<char>) -> bool {
    &&& canonical.len() > 0
    &&& apparent.len() > 0
    &&& j matches Json::Object(members)
    &&& exists|m: int|
        0 <= m < members.len() && #[trigger] members[m] == (canonical, Json::Text(apparent))
}

/// Whether an annotation has such a member in its `label_injections`.
pub open spec fn declares(annotation: Json, canonical: Seq<char>, apparent: Seq<char>) -> bool {
    &&& annotation matches Json::Object(fields)
    &&& exists|f: int|
        0 <= f < fields.len() && (#[trigger] fields[f]).0 == "label_injections"@ && injects(
            fields[f].1,
            canonical,
            apparent,
        )
}

proof fn lemma_injections(
    entries: Seq<(Seq<char>, Json)>,
    canonical: Seq<char>,
    apparent: Seq<char>,
)
    ensures
        injections(entries).contains((canonical, apparent)) <==> injects(
            Json::Object(entries),
            canonical,
            apparent,
        ),
    decreases entries.len(),
{
    let j = Json::Object(entries);
    let all = injections(entries);
    if entries.len() > 0 {
        let d = entries.drop_last();
        let e = entries.last();
        let n = entries.len() - 1;
        let rest = injections(d);
        lemma_injections(d, canonical, apparent);
        if injects(Json::Object(d), canonical, apparent) {
            let m = choose|m: int|
                0 <= m < d.len() && #[trigger] d[m] == (canonical, Json::Text(apparent));
            assert(j->Object_0[m] == (canonical, Json::Text(apparent)));
            let k = choose|k: int| 0 <= k < rest.len() && rest[k] == (canonical, apparent);
            assert(all[k] == (canonical, apparent));
        }
        if injects(j, canonical, apparent) {
            let m = choose|m: int|
                0 <= m < entries.len() && #[trigger] entries[m] == (
                    canonical,
                    Json::Text(apparent),
                );
            if m < n {
                assert(Json::Object(d)->Object_0[m] == (canonical, Json::Text(apparent)));
            } else {
                assert(all[all.len() - 1] == (canonical, apparent));
            }
        }
        if all.contains((canonical, apparent)) {
            let k = choose|k: int| 0 <= k < all.len() && all[k] == (canonical, apparent);
            if k < rest.len() {
                assert(rest[k] == all[k]);
            } else {
                assert(j->Object_0[n] == (canonical, Json::Text(apparent)));
            }
        }
    } else {
        assert(!injects(j, canonical, apparent));
    }
}

proof fn lemma_keys_distinct<W>(s: Seq<(Seq<char>, W)>, i: int, j: int)
    requires
        order::sorted(string_map::keys_of(s)),
        0 <= i < s.len(),
        0 <= j < s.len(),
        s[i].0 == s[j].0,
    ensures
        i == j,
{
    let ks = string_map::keys_of(s);
    order::lemma_sorted_distinct(ks);
    assert(ks[i] == ks[j]);
}

/// The mapping of a `label_injections` value holds every pair that a member
/// declares, and no other.
pub proof fn lemma_every_injection_kept(
    j: Json,
    canonical: Seq<char>,
    apparent: Seq<char>,
)
    requires
        json::well_formed(j),
    ensures
        string_map::lookup(mapping_of(j), canonical) == Some(apparent) <==> injects(
            j,
            canonical,
            apparent,
        ),
        mapping_of(j).contains((canonical, apparent)) <==> injects(j, canonical, apparent),
{
    match j {
        Json::Object(members) => {
            let all = injections(members);
            let m = mapping_of(j);
            lemma_injections(members, canonical, apparent);
            string_map::lemma_gathered_lookup(all, canonical);
            match string_map::lookup(m, canonical) {
                Some(w) => {
                    let k = choose|k: int| 0 <= k < all.len() && #[trigger] all[k] == (canonical, w);
                    assert(all.contains((canonical, w)));
                    lemma_injections(members, canonical, w);
                    let x = choose|x: int|
                        0 <= x < members.len() && #[trigger] members[x] == (
                            canonical,
                            Json::Text(w),
                        );
                    if injects(j, canonical, apparent) {
                        let y = choose|y: int|
                            0 <= y < members.len() && #[trigger] members[y] == (
                                canonical,
                                Json::Text(apparent),
                            );
                        lemma_keys_distinct(members, x, y);
                    }
                },
                None => {
                    if injects(j, canonical, apparent) {
                        let k = choose|k: int|
                            0 <= k < all.len() && all[k] == (canonical, apparent);
                        assert(all[k].0 != canonical);
                    }
                },
            }
            string_map::lemma_lookup(m, canonical);
            if m.contains((canonical, apparent)) {
                let k = choose|k: int| 0 <= k < m.len() && m[k] == (canonical, apparent);
                match string_map::lookup(m, canonical) {
                    Some(w) => {
                        let i = choose|i: int| 0 <= i < m.len() && #[trigger] m[i] == (canonical, w);
                        lemma_keys_distinct(m, i, k);
                    },
                    None => {
                        assert(m[k].0 != canonical);
                    },
                }
            }
            if string_map::lookup(m, canonical) == Some(apparent) {
                let i = choose|i: int|
                    0 <= i < m.len() && #[trigger] m[i] == (canonical, apparent);
                assert(m.contains((canonical, apparent)));
            }
        },
        _ => {},
    }
}

/// Where `annotations` stand in a configuration.
pub open spec fn holds_annotations(config: Json, annotations: Seq<(Seq<char>, Json)>) -> bool {
    &&& config matches Json::Object(top)
    &&& exists|t: int|
        0 <= t < top.len() && #[trigger] top[t] == ("annotations"@, Json::Object(annotations))
}

proof fn lemma_annotation_mapping(annotation: Json, canonical: Seq<char>, apparent: Seq<char>)
    requires
        json::well_formed(annotation),
    ensures
        annotation_mapping(annotation).contains((canonical, apparent)) <==> declares(
            annotation,
            canonical,
            apparent,
        ),
{
    match annotation {
        Json::Object(fields) => {
            string_map::lemma_lookup(fields, "label_injections"@);
            match string_map::lookup(fields, "label_injections"@) {
                Some(w) => {
                    let f = choose|f: int|
                        0 <= f < fields.len() && #[trigger] fields[f] == ("label_injections"@, w);
                    assert(json::well_formed(annotation->Object_0[f].1));
                    lemma_every_injection_kept(w, canonical, apparent);
                    if declares(annotation, canonical, apparent) {
                        let g = choose|g: int|
                            0 <= g < fields.len() && (#[trigger] fields[g]).0
                                == "label_injections"@ && injects(
                                fields[g].1,
                                canonical,
                                apparent,
                            );
                        lemma_keys_distinct(fields, f, g);
                    }
                    if injects(w, canonical, apparent) {
                        assert(annotation->Object_0[f].0 == "label_injections"@);
                    }
                },
                None => {
                    if declares(annotation, canonical, apparent) {
                        let g = choose|g: int|
                            0 <= g < fields.len() && (#[trigger] fields[g]).0
                                == "label_injections"@ && injects(
                                fields[g].1,
                                canonical,
                                apparent,
                            );
                        assert(fields[g].0 != "label_injections"@);
                    }
                },
            }
        },
        _ => {},
    }
}

/// Where the pairs of the `i`-th annotation begin among all that are declared.
spec fn start_of(annotations: Seq<(Seq<char>, Json)>, i: int) -> int {
    declared(annotations.take(i)).len() as int
}

proof fn lemma_declared_at(annotations: Seq<(Seq<char>, Json)>, i: int, k: int)
    requires
        0 <= i < annotations.len(),
        0 <= k < annotation_mapping(annotations[i].1).len(),
    ensures
        0 <= start_of(annotations, i) + k < start_of(annotations, i + 1),
        start_of(annotations, i + 1) <= declared(annotations).len(),
        declared(annotations)[start_of(annotations, i) + k] == annotation_mapping(
            annotations[i].1,
        )[k],
{
    let part = annotations.take(i + 1);
    assert(part.drop_last() =~= annotations.take(i));
    assert(part.last() == annotations[i]);
    lemma_declared_prefix(annotations, i + 1);
    let at = start_of(annotations, i) + k;
    assert(declared(part)[at] == annotation_mapping(annotations[i].1)[k]);
    assert(declared(annotations).take(declared(part).len() as int)[at] == declared(part)[at]);
}

proof fn lemma_declared_from(annotations: Seq<(Seq<char>, Json)>, at: int) -> (i: int)
    requires
        0 <= at < declared(annotations).len(),
    ensures
        0 <= i < annotations.len(),
        start_of(annotations, i) <= at < start_of(annotations, i + 1),
        at - start_of(annotations, i) < annotation_mapping(annotations[i].1).len(),
        declared(annotations)[at] == annotation_mapping(annotations[i].1)[at - start_of(
            annotations,
            i,
        )],
    decreases annotations.len(),
{
    let d = annotations.drop_last();
    let n = annotations.len() - 1;
    assert(annotations.take(n) =~= d);
    assert(annotations.take(n + 1) =~= annotations);
    if at < declared(d).len() {
        let i = lemma_declared_from(d, at);
        assert(d.take(i) =~= annotations.take(i));
        assert(d.take(i + 1) =~= annotations.take(i + 1));
        assert(d[i] == annotations[i]);
        i
    } else {
        n
    }
}

proof fn lemma_declared(
    annotations: Seq<(Seq<char>, Json)>,
    canonical: Seq<char>,
    apparent: Seq<char>,
)
    requires
        json::well_formed(Json::Object(annotations)),
    ensures
        declared(annotations).contains((canonical, apparent)) <==> exists|i: int|
            0 <= i < annotations.len() && declares(
                (#[trigger] annotations[i]).1,
                canonical,
                apparent,
            ),
{
    let all = declared(annotations);
    let j = Json::Object(annotations);
    if all.contains((canonical, apparent)) {
        let at = choose|at: int| 0 <= at < all.len() && all[at] == (canonical, apparent);
        let i = lemma_declared_from(annotations, at);
        assert(json::well_formed(j->Object_0[i].1));
        let m = annotation_mapping(annotations[i].1);
        assert(m[at - start_of(annotations, i)] == (canonical, apparent));
        lemma_annotation_mapping(annotations[i].1, canonical, apparent);
    }
    if exists|i: int|
        0 <= i < annotations.len() && declares(
            (#[trigger] annotations[i]).1,
            canonical,
            apparent,
        ) {
        let i = choose|i: int|
            0 <= i < annotations.len() && declares(
                (#[trigger] annotations[i]).1,
                canonical,
                apparent,
            );
        assert(json::well_formed(j->Object_0[i].1));
        lemma_annotation_mapping(annotations[i].1, canonical, apparent);
        let m = annotation_mapping(annotations[i].1);
        let k = choose|k: int| 0 <= k < m.len() && m[k] == (canonical, apparent);
        lemma_declared_at(annotations, i, k);
        assert(all[start_of(annotations, i) + k] == (canonical, apparent));
    }
}

proof fn lemma_starts_grow(annotations: Seq<(Seq<char>, Json)>, i: int, j: int)
    requires
        0 <= i <= j <= annotations.len(),
    ensures
        start_of(annotations, i) <= start_of(annotations, j),
    decreases j - i,
{
    if i < j {
        lemma_starts_grow(annotations, i, j - 1);
        assert(annotations.take(j).drop_last() =~= annotations.take(j - 1));
    }
}

/// What a successful extraction finds is what the annotations declare: nothing
/// that none of them declares, every canonical prefix that one of them does, and
/// for each the apparent prefix of the last annotation that declares it. No
/// apparent prefix was declared for two canonical ones.
pub proof fn lemma_extracted_mapping(
    before: Json,
    after: Json,
    r: Result<StringMap, InjectionConflict>,
    annotations: Seq<(Seq<char>, Json)>,
    i: int,
    canonical: Seq<char>,
    apparent: Seq<char>,
)
    requires
        json::well_formed(before),
        holds_annotations(before, annotations),
        is_global_extraction(before, after, r),
        r is Ok,
    ensures
        string_map::lookup(r->Ok_0@, canonical) == Some(apparent) ==> exists|k: int|
            0 <= k < annotations.len() && declares(
                (#[trigger] annotations[k]).1,
                canonical,
                apparent,
            ),
        0 <= i < annotations.len() && declares(annotations[i].1, canonical, apparent) && (forall|
            k: int,
            other: Seq<char>,
        |
            i < k < annotations.len() ==> !#[trigger] declares(
                annotations[k].1,
                canonical,
                other,
            )) ==> string_map::lookup(r->Ok_0@, canonical) == Some(apparent),
        forall|k: int, m: int, other: Seq<char>|
            0 <= k < annotations.len() && 0 <= m < annotations.len() && #[trigger] declares(
                annotations[k].1,
                canonical,
                apparent,
            ) && #[trigger] declares(annotations[m].1, other, apparent) ==> other == canonical,
{
    lemma_annotations_found(before, annotations);
    let all = declared(annotations);
    let j = Json::Object(annotations);
    string_map::lemma_gathered_lookup(all, canonical);
    match string_map::lookup(r->Ok_0@, canonical) {
        Some(w) => {
            let at = choose|at: int|
                0 <= at < all.len() && #[trigger] all[at] == (canonical, w) && forall|m: int|
                    at < m < all.len() ==> (#[trigger] all[m]).0 != canonical;
            assert(all.contains((canonical, w)));
            lemma_declared(annotations, canonical, w);
            if 0 <= i < annotations.len() && declares(annotations[i].1, canonical, apparent)
                && forall|k: int, other: Seq<char>|
                i < k < annotations.len() ==> !#[trigger] declares(
                    annotations[k].1,
                    canonical,
                    other,
                ) {
                assert(json::well_formed(j->Object_0[i].1));
                lemma_annotation_mapping(annotations[i].1, canonical, apparent);
                let m = annotation_mapping(annotations[i].1);
                let x = choose|x: int| 0 <= x < m.len() && m[x] == (canonical, apparent);
                lemma_declared_at(annotations, i, x);
                let here = start_of(annotations, i) + x;
                let k = lemma_declared_from(annotations, at);
                let mk = annotation_mapping(annotations[k].1);
                assert(json::well_formed(j->Object_0[k].1));
                assert(mk[at - start_of(annotations, k)] == (canonical, w));
                assert(mk.contains((canonical, w)));
                lemma_annotation_mapping(annotations[k].1, canonical, w);
                if k > i {
                    assert(!declares(annotations[k].1, canonical, w));
                } else if k < i {
                    lemma_starts_grow(annotations, k + 1, i);
                    assert(all[here].0 != canonical);
                } else {
                    lemma_annotation_keys(annotations[i].1, x, at - start_of(annotations, i));
                }
            }
        },
        None => {
            if 0 <= i < annotations.len() && declares(annotations[i].1, canonical, apparent) {
                lemma_declared(annotations, canonical, apparent);
                assert(declares(annotations[i].1, canonical, apparent));
                let at = choose|at: int|
                    0 <= at < all.len() && all[at] == (canonical, apparent);
                assert(all[at].0 != canonical);
            }
        },
    }
    assert forall|k: int, m: int, other: Seq<char>|
        0 <= k < annotations.len() && 0 <= m < annotations.len() && #[trigger] declares(
            annotations[k].1,
            canonical,
            apparent,
        ) && #[trigger] declares(annotations[m].1, other, apparent) implies other
        == canonical by {
        lemma_declared(annotations, canonical, apparent);
        lemma_declared(annotations, other, apparent);
        let x = choose|x: int| 0 <= x < all.len() && all[x] == (canonical, apparent);
        let y = choose|y: int| 0 <= y < all.len() && all[y] == (other, apparent);
        if x < y {
            assert(all[x].1 == all[y].1);
        } else if y < x {
            assert(all[y].1 == all[x].1);
        }
    }
}

proof fn lemma_annotation_keys(annotation: Json, x: int, y: int)
    requires
        0 <= x < annotation_mapping(annotation).len(),
        0 <= y < annotation_mapping(annotation).len(),
        annotation_mapping(annotation)[x].0 == annotation_mapping(annotation)[y].0,
    ensures
        x == y,
{
    match json::member(annotation, "label_injections"@) {
        Some(Json::Object(members)) => {
            string_map::lemma_put_all_sorted(Seq::empty(), injections(members));
            lemma_keys_distinct(annotation_mapping(annotation), x, y);
        },
        _ => {},
    }
}

proof fn lemma_annotations_found(config: Json, annotations: Seq<(Seq<char>, Json)>)
    requires
        json::well_formed(config),
        holds_annotations(config, annotations),
    ensures
        annotations_of(config) == Some(annotations),
        json::well_formed(Json::Object(annotations)),
{
    match config {
        Json::Object(top) => {
            let t = choose|t: int|
                0 <= t < top.len() && #[trigger] top[t] == (
                    "annotations"@,
                    Json::Object(annotations),
                );
            assert(json::well_formed(config->Object_0[t].1));
            string_map::lemma_lookup(top, "annotations"@);
            match string_map::lookup(top, "annotations"@) {
                Some(w) => {
                    let u = choose|u: int|
                        0 <= u < top.len() && #[trigger] top[u] == ("annotations"@, w);
                    lemma_keys_distinct(top, t, u);
                },
                None => {
                    assert(top[t].0 != "annotations"@);
                },
            }
        },
        _ => {},
    }
}

/// An extraction that fails names an apparent prefix that two annotations
/// declare for different canonical ones, which it names too.
pub proof fn lemma_extraction_conflict(
    before: Json,
    after: Json,
    r: Result<StringMap, InjectionConflict>,
    annotations: Seq<(Seq<char>, Json)>,
)
    requires
        json::well_formed(before),
        holds_annotations(before, annotations),
        is_global_extraction(before, after, r),
        r is Err,
    ensures
        r->Err_0.existing@ != r->Err_0.canonical@,
        exists|k: int|
            0 <= k < annotations.len() && declares(
                (#[trigger] annotations[k]).1,
                r->Err_0.existing@,
                r->Err_0.apparent@,
            ),
        exists|k: int|
            0 <= k < annotations.len() && declares(
                (#[trigger] annotations[k]).1,
                r->Err_0.canonical@,
                r->Err_0.apparent@,
            ),
{
    lemma_annotations_found(before, annotations);
    let c = r->Err_0;
    let all = declared(annotations);
    let left = choose|left: Seq<(Seq<char>, Json)>|
        #[trigger] is_extraction(annotations, left, r) && after == with_annotations(before, left);
    let (n, i) = choose|n: int, i: int|
        #[trigger] stops_at(annotations, n, i, c) && left == stripped_to(annotations, n + 1);
    assert(all[i] == (c.canonical@, c.apparent@));
    assert(all.contains((c.canonical@, c.apparent@)));
    lemma_declared(annotations, c.canonical@, c.apparent@);
    let k = choose|k: int|
        0 <= k < all.take(i).len() && all.take(i)[k] == (c.existing@, c.apparent@);
    assert(all[k] == (c.existing@, c.apparent@));
    assert(all.contains((c.existing@, c.apparent@)));
    lemma_declared(annotations, c.existing@, c.apparent@);
}

/// A successful extraction leaves the configuration as it was, but for the
/// `label_injections` of the annotations: every other key keeps its value, at the
/// top and in each annotation, and no annotation has the field.
pub proof fn lemma_extraction_leaves_the_rest(
    before: Json,
    after: Json,
    r: Result<StringMap, InjectionConflict>,
    annotations: Seq<(Seq<char>, Json)>,
    i: int,
    k: Seq<char>,
)
    requires
        json::well_formed(before),
        holds_annotations(before, annotations),
        is_global_extraction(before, after, r),
        r is Ok,
        0 <= i < annotations.len(),
    ensures
        k != "annotations"@ ==> json::member(after, k) == json::member(before, k),
        json::member(after, "annotations"@) matches Some(Json::Object(left)) && left.len()
            == annotations.len() && left[i].0 == annotations[i].0 && json::member(
            left[i].1,
            "label_injections"@,
        ) is None && (k != "label_injections"@ ==> json::member(left[i].1, k) == json::member(
            annotations[i].1,
            k,
        )),
{
    lemma_annotations_found(before, annotations);
    let left = choose|left: Seq<(Seq<char>, Json)>|
        #[trigger] is_extraction(annotations, left, r) && after == with_annotations(before, left);
    let top = before->Object_0;
    string_map::lemma_with_value_lookup(top, "annotations"@, Json::Object(left), "annotations"@);
    string_map::lemma_with_value_lookup(top, "annotations"@, Json::Object(left), k);
    assert(left[i] == (annotations[i].0, stripped(annotations[i].1)));
    assert(json::well_formed(Json::Object(annotations)->Object_0[i].1));
    lemma_stripped(annotations[i].1, k);
    match annotations[i].1 {
        Json::Object(fields) => {
            string_map::lemma_without_key_lookup(
                fields,
                "label_injections"@,
                "label_injections"@,
            );
        },
        _ => {},
    }
}

/// A configuration without annotations stays as it is and gives no mapping.
pub proof fn lemma_nothing_to_extract(
    before: Json,
    after: Json,
    r: Result<StringMap, InjectionConflict>,
)
    requires
        is_global_extraction(before, after, r),
        !(json::member(before, "annotations"@) matches Some(Json::Object(_))),
    ensures
        after == before,
        r matches Ok(m) && m@.len() == 0,
{
}

/// A conflict is told with the apparent prefix and both of the canonical ones, the
/// earlier one first.
pub proof fn lemma_conflict_told(c: InjectionConflict)
    ensures
        ("conflicting `label_injections` across annotations for apparent label `"@ + c.apparent@
            + "`: `"@ + c.existing@ + "` vs `"@ + c.canonical@ + "`. "@).is_prefix_of(c.text()),
{
    reveal_strlit("`. ");
    reveal_strlit(
        "`. This occurs when the root module pulls two versions of the same bazel_dep (e.g. via `multiple_version_override`) and crate_universe annotations from different modules each inject their own version. Move the conflicting crate into its own `crate.from_specs`/`crate.from_cargo` hub so each hub only sees one canonical.",
    );
    let head = "conflicting `label_injections` across annotations for apparent label `"@
        + c.apparent@ + "`: `"@ + c.existing@ + "` vs `"@ + c.canonical@;
    let whole = c.text();
    assert(whole.take(head.len() as int) =~= head);
    assert(whole.subrange(0, (head + "`. "@).len() as int) =~= head + "`. "@);
}

proof fn lemma_slashes_stay(q: Seq<char>, apparent: Seq<char>, canonical: Seq<char>)
    requires
        has_slashes(q),
        apparent.len() > 0,
        apparent[0] != '/',
    ensures
        seq!['/', '/'].is_prefix_of(label_replaced(q, apparent, canonical)),
{
    text::lemma_find_from(q, apparent, 0);
    let out = label_replaced(q, apparent, canonical);
    match text::find_from(q, apparent, 0) {
        Some(k) => {
            assert(q.subrange(k, k + apparent.len())[0] == apparent[0]);
            assert(q[k] == apparent[0]);
            assert(k >= 2);
            assert(out[0] == q.subrange(0, k)[0]);
            assert(out[1] == q.subrange(0, k)[1]);
        },
        None => {
            assert(out =~= q);
        },
    }
    assert(out.subrange(0, 2) =~= seq!['/', '/']);
}

/// Where the first `@name` of a text is a label, the answer has the canonical
/// prefix in its place: with the slashes that follow it, and otherwise with the
/// target of that name, whatever follows.
pub proof fn lemma_label_answer(
    input: &str,
    apparent: &str,
    canonical: &str,
    r: String,
    p: Seq<char>,
    name: Seq<char>,
    q: Seq<char>,
)
    requires
        call_ensures(replace_at_label_boundary, (input, apparent, canonical), r),
        name.len() > 0,
        text::free_of(name, '@'),
        apparent@ == seq!['@'] + name,
        input@ == p + (seq!['@'] + name) + q,
        text::is_first_at(input@, apparent@, p.len() as int),
        p.len() == 0 || p.last() != '@',
        !goes_on(q),
    ensures
        has_slashes(q) ==> (p + canonical@ + seq!['/', '/']).is_prefix_of(r@),
        !has_slashes(q) ==> (p + canonical@ + seq!['/', '/', ':'] + name).is_prefix_of(r@),
{
    lemma_first_label(p, name, q, canonical@);
    let rest = label_replaced(q, apparent@, canonical@);
    assert(r@ == label_replaced(input@, apparent@, canonical@));
    if has_slashes(q) {
        lemma_slashes_stay(q, apparent@, canonical@);
        let head = p + canonical@ + seq!['/', '/'];
        assert(rest.subrange(0, 2) == seq!['/', '/']);
        assert(rest[0] == rest.subrange(0, 2)[0] && rest[1] == rest.subrange(0, 2)[1]);
        assert(r@ =~= p + canonical@ + rest);
        assert(r@.subrange(0, head.len() as int) =~= head);
    } else {
        let head = p + canonical@ + seq!['/', '/', ':'] + name;
        assert(r@ =~= head + rest);
        assert(r@.subrange(0, head.len() as int) =~= head);
    }
}

/// Every pair that a `label_injections` value declares is in the answer, wherever
/// it stands among the others.
pub proof fn lemma_mapping_answer(
    value: &Tree,
    r: StringMap,
    members: Seq<(Seq<char>, Json)>,
    i: int,
    apparent: Seq<char>,
)
    requires
        call_ensures(into_mapping, (value,), r),
        json::well_formed(value@),
        value@ == Json::Object(members),
        0 <= i < members.len(),
        members[i].1 == Json::Text(apparent),
        members[i].0.len() > 0,
        apparent.len() > 0,
    ensures
        string_map::lookup(r@, members[i].0) == Some(apparent),
{
    let canonical = members[i].0;
    assert(members[i] == (canonical, Json::Text(apparent)));
    assert(injects(value@, canonical, apparent));
    lemma_every_injection_kept(value@, canonical, apparent);
}

} // verus!
