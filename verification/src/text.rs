//! Strings as sequences of characters: searching, splitting, replacing,
//! trimming and number formatting, each against a specification over
//! `Seq<char>`.
use vstd::prelude::*;

verus! {

/// `String::push` appends one character to the end of the string.
pub assume_specification[ String::push ](s: &mut String, c: char)
    ensures
        final(s)@ == old(s)@.push(c),
;

// ---------------------------------------------------------------------------
// Conversions
// ---------------------------------------------------------------------------

/// The contents of a list of strings.
pub open spec fn views(list: Seq<String>) -> Seq<Seq<char>> {
    list.map_values(|s: String| s@)
}

/// The characters of `s`, in order.
pub fn chars_of(s: &str) -> (chars: Vec<char>)
    ensures
        chars@ == s@,
{
    let mut chars: Vec<char> = Vec::new();
    for c in it: s.chars()
        invariant
            it.seq() == s@,
            chars@ == s@.take(it.index() as int),
    {
        chars.push(c);
    }
    chars
}

/// The string made of `chars[from..to]`.
pub fn string_of(chars: &[char], from: usize, to: usize) -> (s: String)
    requires
        from <= to <= chars@.len(),
    ensures
        s@ == chars@.subrange(from as int, to as int),
{
    let mut s = String::new();
    let mut i: usize = from;
    while i < to
        invariant
            from <= i <= to <= chars@.len(),
            s@ == chars@.subrange(from as int, i as int),
        decreases to - i,
    {
        s.push(chars[i]);
        i += 1;
    }
    s
}

/// A copy of `s`.
pub fn copied(s: &String) -> (r: String)
    ensures
        r@ == s@,
{
    s.clone()
}

/// A copy of a list of strings.
pub fn copied_list(list: &Vec<String>) -> (r: Vec<String>)
    ensures
        views(r@) == views(list@),
{
    let mut r: Vec<String> = Vec::new();
    let mut i: usize = 0;
    while i < list.len()
        invariant
            i <= list@.len(),
            r@.len() == i,
            forall|k: int| 0 <= k < i ==> (#[trigger] r@[k])@ == list@[k]@,
        decreases list@.len() - i,
    {
        r.push(list[i].clone());
        i += 1;
    }
    assert(views(r@) =~= views(list@));
    r
}

/// Whether two strings hold the same characters.
pub fn same_text(a: &str, b: &str) -> (r: bool)
    ensures
        r == (a@ == b@),
{
    a.to_owned() == b.to_owned()
}

// ---------------------------------------------------------------------------
// Searching
// ---------------------------------------------------------------------------

/// Whether `needle` occurs in `s` at position `i`.
pub open spec fn matches_at(s: Seq<char>, needle: Seq<char>, i: int) -> bool {
    &&& 0 <= i
    &&& i + needle.len() <= s.len()
    &&& s.subrange(i, i + needle.len()) == needle
}

/// The first position at or after `from` where `needle` occurs in `s`.
pub open spec fn find_from(s: Seq<char>, needle: Seq<char>, from: int) -> Option<int>
    decreases s.len() - from + 1,
{
    if from < 0 || from + needle.len() > s.len() {
        None
    } else if matches_at(s, needle, from) {
        Some(from)
    } else {
        find_from(s, needle, from + 1)
    }
}

/// Whether `needle` occurs anywhere in `s`.
pub open spec fn contains_text(s: Seq<char>, needle: Seq<char>) -> bool {
    exists|i: int| matches_at(s, needle, i)
}

/// `find_from` is the least position at or after `from` that matches.
pub proof fn lemma_find_from(s: Seq<char>, needle: Seq<char>, from: int)
    requires
        0 <= from,
    ensures
        match find_from(s, needle, from) {
            Some(k) => from <= k && matches_at(s, needle, k) && forall|j: int|
                from <= j < k ==> !matches_at(s, needle, j),
            None => forall|j: int| from <= j ==> !matches_at(s, needle, j),
        },
    decreases s.len() - from + 1,
{
    if from + needle.len() <= s.len() && !matches_at(s, needle, from) {
        lemma_find_from(s, needle, from + 1);
    }
}

/// Text is contained exactly when a search from the start finds it.
pub proof fn lemma_contains_text(s: Seq<char>, needle: Seq<char>)
    ensures
        contains_text(s, needle) == (find_from(s, needle, 0) is Some),
{
    lemma_find_from(s, needle, 0);
}

/// Whether `needle` occurs in `s` at position `i`.
pub fn is_match_at(s: &[char], needle: &[char], i: usize) -> (r: bool)
    requires
        i <= s@.len(),
    ensures
        r == matches_at(s@, needle@, i as int),
        s@.len() <= usize::MAX,
{
    let n: usize = s.len();
    if needle.len() > s.len() - i {
        return false;
    }
    let mut k: usize = 0;
    while k < needle.len()
        invariant
            k <= needle@.len(),
            n == s@.len(),
            i + needle@.len() <= n,
            forall|j: int| 0 <= j < k ==> s@[i + j] == needle@[j],
        decreases needle@.len() - k,
    {
        if s[i + k] != needle[k] {
            assert(s@.subrange(i as int, i + needle@.len())[k as int] != needle@[k as int]);
            return false;
        }
        k += 1;
    }
    assert(s@.subrange(i as int, i + needle@.len()) =~= needle@);
    true
}

/// The first position at or after `from` where `needle` occurs in `s`.
pub fn find_text_from(s: &[char], needle: &[char], from: usize) -> (r: Option<usize>)
    requires
        from <= s@.len(),
    ensures
        match (r, find_from(s@, needle@, from as int)) {
            (Some(k), Some(m)) => k == m,
            (None, None) => true,
            _ => false,
        },
        r matches Some(k) ==> from <= k && k + needle@.len() <= s@.len() <= usize::MAX,
{
    let mut i: usize = from;
    while needle.len() <= s.len() - i
        invariant
            from <= i <= s@.len(),
            find_from(s@, needle@, from as int) == find_from(s@, needle@, i as int),
        decreases s@.len() - i,
    {
        if is_match_at(s, needle, i) {
            return Some(i);
        }
        if i == s.len() {
            assert(s@.subrange(i as int, i + needle@.len()) =~= needle@);
            return None;
        }
        i += 1;
    }
    None
}

/// Whether `needle` occurs anywhere in `s`.
pub fn has_text(s: &str, needle: &str) -> (r: bool)
    ensures
        r == contains_text(s@, needle@),
{
    let sc = chars_of(s);
    let nc = chars_of(needle);
    proof {
        lemma_contains_text(s@, needle@);
    }
    find_text_from(sc.as_slice(), nc.as_slice(), 0).is_some()
}

/// Whether `s` begins with `prefix`.
pub fn begins_with(s: &str, prefix: &str) -> (r: bool)
    ensures
        r == prefix@.is_prefix_of(s@),
{
    let sc = chars_of(s);
    let pc = chars_of(prefix);
    let r = is_match_at(sc.as_slice(), pc.as_slice(), 0);
    assert(prefix@.len() <= s@.len() ==> s@.subrange(0, prefix@.len() as int) == s@.take(
        prefix@.len() as int,
    ));
    r
}

/// Whether `s` ends with `suffix`.
pub fn finishes_with(s: &str, suffix: &str) -> (r: bool)
    ensures
        r == suffix@.is_suffix_of(s@),
{
    let sc = chars_of(s);
    let pc = chars_of(suffix);
    if pc.len() > sc.len() {
        return false;
    }
    is_match_at(sc.as_slice(), pc.as_slice(), sc.len() - pc.len())
}

/// What follows `prefix` in `s`, when `s` begins with it.
pub open spec fn after_prefix(s: Seq<char>, prefix: Seq<char>) -> Option<Seq<char>> {
    if prefix.is_prefix_of(s) {
        Some(s.skip(prefix.len() as int))
    } else {
        None
    }
}

/// The contents of an optional string.
pub open spec fn opt_view(s: Option<String>) -> Option<Seq<char>> {
    match s {
        Some(t) => Some(t@),
        None => None,
    }
}

/// What follows `prefix` in `s`, when `s` begins with it.
pub fn without_prefix(s: &str, prefix: &str) -> (r: Option<String>)
    ensures
        opt_view(r) == after_prefix(s@, prefix@),
{
    if begins_with(s, prefix) {
        let sc = chars_of(s);
        let pc = chars_of(prefix);
        let r = string_of(sc.as_slice(), pc.len(), sc.len());
        assert(r@ =~= s@.skip(prefix@.len() as int));
        Some(r)
    } else {
        None
    }
}

// ---------------------------------------------------------------------------
// Replacing
// ---------------------------------------------------------------------------

/// `s[from..]` with every occurrence of `pat` replaced by `to`: occurrences
/// are taken from left to right and do not overlap.
pub open spec fn replaced_from(s: Seq<char>, pat: Seq<char>, to: Seq<char>, from: int) -> Seq<char>
    decreases s.len() - from,
{
    match find_from(s, pat, from) {
        Some(k) => if from <= k && pat.len() > 0 && k + pat.len() <= s.len() {
            s.subrange(from, k) + to + replaced_from(s, pat, to, k + pat.len())
        } else {
            s.skip(from)
        },
        None => s.skip(from),
    }
}

/// `s` with every occurrence of `pat` replaced by `to`.
pub open spec fn replaced(s: Seq<char>, pat: Seq<char>, to: Seq<char>) -> Seq<char> {
    replaced_from(s, pat, to, 0)
}

/// Whether `a` and `b` have no character in common.
pub open spec fn disjoint(a: Seq<char>, b: Seq<char>) -> bool {
    forall|i: int, j: int| 0 <= i < a.len() && 0 <= j < b.len() ==> #[trigger] a[i] != #[trigger] b[j]
}

/// A replacement keeps what occurs in the text and has no character in common
/// with what is replaced.
pub proof fn lemma_replaced_keeps(
    s: Seq<char>,
    pat: Seq<char>,
    to: Seq<char>,
    from: int,
    kept: Seq<char>,
    at: int,
)
    requires
        0 <= from <= at,
        pat.len() > 0,
        disjoint(pat, kept),
        matches_at(s, kept, at),
    ensures
        contains_text(replaced_from(s, pat, to, from), kept),
    decreases s.len() - from,
{
    lemma_find_from(s, pat, from);
    let r = replaced_from(s, pat, to, from);
    if kept.len() == 0 {
        assert(r.subrange(0, 0) =~= kept);
        assert(matches_at(r, kept, 0));
        return ;
    }
    match find_from(s, pat, from) {
        Some(k) => {
            assert forall|j: int| 0 <= j < pat.len() implies s[k + j] == #[trigger] pat[j] by {
                assert(s.subrange(k, k + pat.len())[j] == pat[j]);
            }
            assert forall|j: int| 0 <= j < kept.len() implies s[at + j] == #[trigger] kept[j] by {
                assert(s.subrange(at, at + kept.len())[j] == kept[j]);
            }
            let rest = replaced_from(s, pat, to, k + pat.len());
            if at + kept.len() <= k {
                assert(r.subrange(at - from, at - from + kept.len()) =~= kept);
                assert(matches_at(r, kept, at - from));
            } else if at >= k + pat.len() {
                lemma_replaced_keeps(s, pat, to, k + pat.len(), kept, at);
                let q = choose|q: int| matches_at(rest, kept, q);
                let p = k - from + to.len() + q;
                assert(r.subrange(p, p + kept.len()) =~= rest.subrange(q, q + kept.len()));
                assert(matches_at(r, kept, p));
            } else {
                let p = if at < k {
                    k
                } else {
                    at
                };
                assert(s[k + (p - k)] == pat[p - k]);
                assert(s[at + (p - at)] == kept[p - at]);
            }
        },
        None => {
            assert(r.subrange(at - from, at - from + kept.len()) =~= s.subrange(
                at,
                at + kept.len(),
            ));
            assert(matches_at(r, kept, at - from));
        },
    }
}

/// `s` with every occurrence of `pat` replaced by `to`.
pub fn replace_text(s: &str, pat: &str, to: &str) -> (r: String)
    requires
        pat@.len() > 0,
    ensures
        r@ == replaced(s@, pat@, to@),
{
    let sc = chars_of(s);
    let pc = chars_of(pat);
    let mut out = String::new();
    let mut from: usize = 0;
    loop
        invariant
            sc@ == s@,
            pc@ == pat@,
            pat@.len() > 0,
            from <= s@.len(),
            replaced(s@, pat@, to@) == out@ + replaced_from(s@, pat@, to@, from as int),
        decreases s@.len() - from,
    {
        match find_text_from(sc.as_slice(), pc.as_slice(), from) {
            Some(k) => {
                let piece = string_of(sc.as_slice(), from, k);
                out.append(piece.as_str());
                out.append(to);
                from = k + pc.len();
                assert(replaced(s@, pat@, to@) =~= out@ + replaced_from(
                    s@,
                    pat@,
                    to@,
                    from as int,
                ));
            },
            None => {
                let piece = string_of(sc.as_slice(), from, sc.len());
                out.append(piece.as_str());
                assert(replaced(s@, pat@, to@) =~= out@);
                return out;
            },
        }
    }
}

// ---------------------------------------------------------------------------
// Splitting
// ---------------------------------------------------------------------------

/// `s[from..]` split around every `sep`; there is always a last piece.
pub open spec fn split_on_from(s: Seq<char>, sep: char, from: int) -> Seq<Seq<char>>
    decreases s.len() - from,
{
    match find_from(s, seq![sep], from) {
        Some(k) => if from <= k < s.len() {
            seq![s.subrange(from, k)] + split_on_from(s, sep, k + 1)
        } else {
            seq![s.skip(from)]
        },
        None => seq![s.skip(from)],
    }
}

/// `s` split around every `sep`.
pub open spec fn split_on(s: Seq<char>, sep: char) -> Seq<Seq<char>> {
    split_on_from(s, sep, 0)
}

/// `s` split around every `sep`.
pub fn split_text(s: &str, sep: char) -> (r: Vec<String>)
    ensures
        views(r@) == split_on(s@, sep),
{
    let sc = chars_of(s);
    let sepc: Vec<char> = vec![sep];
    assert(sepc@ =~= seq![sep]);
    let mut out: Vec<String> = Vec::new();
    let mut from: usize = 0;
    loop
        invariant
            sc@ == s@,
            sepc@ == seq![sep],
            from <= s@.len(),
            split_on(s@, sep) == views(out@) + split_on_from(s@, sep, from as int),
        decreases s@.len() - from,
    {
        match find_text_from(sc.as_slice(), sepc.as_slice(), from) {
            Some(k) => {
                let ghost before = out@;
                out.push(string_of(sc.as_slice(), from, k));
                assert(views(out@) =~= views(before).push(s@.subrange(from as int, k as int)));
                from = k + 1;
                assert(split_on(s@, sep) =~= views(out@) + split_on_from(s@, sep, from as int));
            },
            None => {
                let ghost before = out@;
                out.push(string_of(sc.as_slice(), from, sc.len()));
                assert(s@.subrange(from as int, s@.len() as int) =~= s@.skip(from as int));
                assert(views(out@) =~= views(before).push(s@.skip(from as int)));
                assert(split_on(s@, sep) =~= views(out@));
                return out;
            },
        }
    }
}

/// The text before and after the first occurrence of `pat`.
pub open spec fn split_at_first(s: Seq<char>, pat: Seq<char>) -> Option<(Seq<char>, Seq<char>)> {
    match find_from(s, pat, 0) {
        Some(k) => Some((s.take(k), s.skip(k + pat.len()))),
        None => None,
    }
}

/// The last position at or before `upto` where `needle` occurs in `s`.
pub open spec fn find_back(s: Seq<char>, needle: Seq<char>, upto: int) -> Option<int>
    decreases upto + 1,
{
    if upto < 0 {
        None
    } else if matches_at(s, needle, upto) {
        Some(upto)
    } else {
        find_back(s, needle, upto - 1)
    }
}

/// `find_back` is the greatest position at or before `upto` that matches.
pub proof fn lemma_find_back(s: Seq<char>, needle: Seq<char>, upto: int)
    ensures
        match find_back(s, needle, upto) {
            Some(k) => k <= upto && matches_at(s, needle, k) && forall|j: int|
                k < j <= upto ==> !matches_at(s, needle, j),
            None => forall|j: int| j <= upto ==> !matches_at(s, needle, j),
        },
    decreases upto + 1,
{
    if upto >= 0 && !matches_at(s, needle, upto) {
        lemma_find_back(s, needle, upto - 1);
    }
}

/// The text before and after the last occurrence of `pat`.
pub open spec fn split_at_last(s: Seq<char>, pat: Seq<char>) -> Option<(Seq<char>, Seq<char>)> {
    match find_back(s, pat, s.len() as int) {
        Some(k) => Some((s.take(k), s.skip(k + pat.len()))),
        None => None,
    }
}

/// The contents of an optional pair of strings.
pub open spec fn opt_pair_view(p: Option<(String, String)>) -> Option<(Seq<char>, Seq<char>)> {
    match p {
        Some(t) => Some((t.0@, t.1@)),
        None => None,
    }
}

/// The text before and after the first occurrence of `pat`.
pub fn split_first(s: &str, pat: &str) -> (r: Option<(String, String)>)
    ensures
        opt_pair_view(r) == split_at_first(s@, pat@),
{
    let sc = chars_of(s);
    let pc = chars_of(pat);
    match find_text_from(sc.as_slice(), pc.as_slice(), 0) {
        Some(k) => {
            let head = string_of(sc.as_slice(), 0, k);
            let tail = string_of(sc.as_slice(), k + pc.len(), sc.len());
            assert(head@ =~= s@.take(k as int));
            assert(tail@ =~= s@.skip(k + pat@.len()));
            Some((head, tail))
        },
        None => None,
    }
}

/// The text before and after the last occurrence of `pat`.
pub fn split_last(s: &str, pat: &str) -> (r: Option<(String, String)>)
    ensures
        opt_pair_view(r) == split_at_last(s@, pat@),
{
    let sc = chars_of(s);
    let pc = chars_of(pat);
    let mut k: usize = sc.len();
    loop
        invariant
            sc@ == s@,
            pc@ == pat@,
            k <= s@.len(),
            find_back(s@, pat@, s@.len() as int) == find_back(s@, pat@, k as int),
        decreases k,
    {
        if is_match_at(sc.as_slice(), pc.as_slice(), k) {
            let head = string_of(sc.as_slice(), 0, k);
            let tail = string_of(sc.as_slice(), k + pc.len(), sc.len());
            assert(head@ =~= s@.take(k as int));
            assert(tail@ =~= s@.skip(k + pat@.len()));
            return Some((head, tail));
        }
        if k == 0 {
            assert(find_back(s@, pat@, -1) is None);
            return None;
        }
        k -= 1;
    }
}

/// A line without the carriage return that ends it.
pub open spec fn without_cr(line: Seq<char>) -> Seq<char> {
    if line.len() > 0 && line.last() == '\r' {
        line.drop_last()
    } else {
        line
    }
}

/// The lines of `s[from..]`: every line feed ends a line, together with a
/// carriage return right before it, and a last line without one counts when
/// it is not empty.
pub open spec fn lines_from(s: Seq<char>, from: int) -> Seq<Seq<char>>
    decreases s.len() - from,
{
    if from >= s.len() {
        Seq::empty()
    } else {
        match find_from(s, seq!['\n'], from) {
            Some(k) => if from <= k < s.len() {
                seq![without_cr(s.subrange(from, k))] + lines_from(s, k + 1)
            } else {
                Seq::empty()
            },
            None => seq![s.skip(from)],
        }
    }
}

/// The lines of `s`.
pub open spec fn lines(s: Seq<char>) -> Seq<Seq<char>> {
    lines_from(s, 0)
}

/// The lines of `s`.
pub fn lines_of(s: &str) -> (r: Vec<String>)
    ensures
        views(r@) == lines(s@),
{
    let sc = chars_of(s);
    let nl: Vec<char> = vec!['\n'];
    assert(nl@ =~= seq!['\n']);
    let mut out: Vec<String> = Vec::new();
    let mut from: usize = 0;
    while from < sc.len()
        invariant
            sc@ == s@,
            nl@ == seq!['\n'],
            from <= s@.len(),
            lines(s@) == views(out@) + lines_from(s@, from as int),
        decreases s@.len() - from,
    {
        let ghost before = out@;
        match find_text_from(sc.as_slice(), nl.as_slice(), from) {
            Some(k) => {
                let end: usize = if k > from && sc[k - 1] == '\r' {
                    k - 1
                } else {
                    k
                };
                out.push(string_of(sc.as_slice(), from, end));
                let ghost line = s@.subrange(from as int, k as int);
                assert(s@.subrange(from as int, end as int) =~= without_cr(line));
                assert(views(out@) =~= views(before).push(without_cr(line)));
                from = k + 1;
                assert(lines(s@) =~= views(out@) + lines_from(s@, from as int));
            },
            None => {
                out.push(string_of(sc.as_slice(), from, sc.len()));
                assert(s@.subrange(from as int, s@.len() as int) =~= s@.skip(from as int));
                assert(views(out@) =~= views(before).push(s@.skip(from as int)));
                assert(lines(s@) =~= views(out@));
                from = sc.len();
                assert(lines_from(s@, from as int) =~= Seq::empty());
                assert(lines(s@) =~= views(out@) + lines_from(s@, from as int));
            },
        }
    }
    assert(lines(s@) =~= views(out@));
    out
}

/// Whether `c` does not occur in `s`.
pub open spec fn free_of(s: Seq<char>, c: char) -> bool {
    forall|i: int| 0 <= i < s.len() ==> #[trigger] s[i] != c
}

/// One character occurs where it stands.
pub proof fn lemma_one_char(s: Seq<char>, c: char, i: int)
    ensures
        matches_at(s, seq![c], i) == (0 <= i < s.len() && s[i] == c),
{
    if 0 <= i < s.len() {
        let one = s.subrange(i, i + 1);
        assert(one[0] == s[i]);
        assert(s[i] == c ==> one =~= seq![c]);
        assert(seq![c][0] == c);
    }
}

/// The first occurrence of a character is at `k` when it stands there and not
/// before.
pub proof fn lemma_find_char(s: Seq<char>, c: char, from: int, k: int)
    requires
        0 <= from <= k < s.len(),
        s[k] == c,
        forall|j: int| from <= j < k ==> #[trigger] s[j] != c,
    ensures
        find_from(s, seq![c], from) == Some(k),
{
    lemma_find_from(s, seq![c], from);
    lemma_one_char(s, c, k);
    match find_from(s, seq![c], from) {
        Some(m) => {
            lemma_one_char(s, c, m);
            if m < k {
                assert(s[m] != c);
            }
        },
        None => {},
    }
}

/// A line that is added at the end, with a line feed after it, is the last
/// line.
pub proof fn lemma_lines_push(s: Seq<char>, line: Seq<char>, from: int)
    requires
        0 <= from <= s.len(),
        s.len() > 0 ==> s.last() == '\n',
        free_of(line, '\n'),
        without_cr(line) == line,
    ensures
        lines_from(s + line.push('\n'), from) == lines_from(s, from).push(line),
    decreases s.len() - from,
{
    let t = s + line.push('\n');
    if from == s.len() {
        let k = (s.len() + line.len()) as int;
        assert forall|j: int| from <= j < k implies #[trigger] t[j] != '\n' by {
            assert(t[j] == line[j - s.len()]);
        }
        lemma_find_char(t, '\n', from, k);
        assert(t.subrange(from, k) =~= line);
        assert(lines_from(t, k + 1) =~= Seq::empty());
        assert(lines_from(t, from) =~= seq![line]);
        assert(lines_from(s, from).push(line) =~= seq![line]);
    } else {
        lemma_find_from(s, seq!['\n'], from);
        lemma_one_char(s, '\n', s.len() - 1);
        let k = find_from(s, seq!['\n'], from)->Some_0;
        lemma_one_char(s, '\n', k);
        assert forall|j: int| from <= j < k implies #[trigger] t[j] != '\n' by {
            lemma_one_char(s, '\n', j);
        }
        lemma_find_char(t, '\n', from, k);
        assert(t.subrange(from, k) =~= s.subrange(from, k));
        lemma_lines_push(s, line, k + 1);
        let first = seq![without_cr(s.subrange(from, k))];
        assert(lines_from(t, from) =~= first + lines_from(s, k + 1).push(line));
        assert(lines_from(s, from).push(line) =~= first + lines_from(s, k + 1).push(line));
    }
}

/// No line has a line feed in it.
pub proof fn lemma_lines_free(s: Seq<char>, from: int, i: int)
    requires
        0 <= from,
        0 <= i < lines_from(s, from).len(),
    ensures
        free_of(lines_from(s, from)[i], '\n'),
    decreases s.len() - from,
{
    lemma_find_from(s, seq!['\n'], from);
    match find_from(s, seq!['\n'], from) {
        Some(k) => {
            lemma_one_char(s, '\n', k);
            if i == 0 {
                assert forall|j: int| from <= j < k implies #[trigger] s[j] != '\n' by {
                    lemma_one_char(s, '\n', j);
                }
            } else {
                lemma_lines_free(s, k + 1, i - 1);
            }
        },
        None => {
            assert forall|j: int| from <= j < s.len() implies #[trigger] s[j] != '\n' by {
                lemma_one_char(s, '\n', j);
            }
        },
    }
}

// ---------------------------------------------------------------------------
// Joining
// ---------------------------------------------------------------------------

/// The texts of `list` with `sep` between neighbours.
pub open spec fn joined_with(list: Seq<Seq<char>>, sep: Seq<char>) -> Seq<char>
    decreases list.len(),
{
    if list.len() == 0 {
        Seq::empty()
    } else if list.len() == 1 {
        list[0]
    } else {
        joined_with(list.drop_last(), sep) + sep + list.last()
    }
}

/// The texts of `list` with `sep` between neighbours.
pub fn join_texts(list: &Vec<String>, sep: &str) -> (r: String)
    ensures
        r@ == joined_with(views(list@), sep@),
{
    let ghost all = views(list@);
    let mut r = String::new();
    let mut i: usize = 0;
    assert(r@ =~= joined_with(all.take(0), sep@));
    while i < list.len()
        invariant
            i <= list@.len(),
            all == views(list@),
            r@ == joined_with(all.take(i as int), sep@),
        decreases list@.len() - i,
    {
        if i > 0 {
            r.append(sep);
        }
        r.append(list[i].as_str());
        assert(all.take(i + 1).drop_last() =~= all.take(i as int));
        assert(all.take(i + 1).last() == all[i as int]);
        assert(r@ =~= joined_with(all.take(i + 1), sep@));
        i += 1;
    }
    assert(all.take(i as int) =~= all);
    r
}

// ---------------------------------------------------------------------------
// Trimming
// ---------------------------------------------------------------------------

/// The characters with the Unicode `White_Space` property.
pub open spec fn is_white(c: char) -> bool {
    ||| '\u{9}' <= c <= '\u{d}'
    ||| c == ' '
    ||| c == '\u{85}'
    ||| c == '\u{a0}'
    ||| c == '\u{1680}'
    ||| '\u{2000}' <= c <= '\u{200a}'
    ||| c == '\u{2028}'
    ||| c == '\u{2029}'
    ||| c == '\u{202f}'
    ||| c == '\u{205f}'
    ||| c == '\u{3000}'
}

/// Whether `c` has the Unicode `White_Space` property.
pub fn is_white_char(c: char) -> (r: bool)
    ensures
        r == is_white(c),
{
    ('\u{9}' <= c && c <= '\u{d}') || c == ' ' || c == '\u{85}' || c == '\u{a0}' || c
        == '\u{1680}' || ('\u{2000}' <= c && c <= '\u{200a}') || c == '\u{2028}' || c == '\u{2029}'
        || c == '\u{202f}' || c == '\u{205f}' || c == '\u{3000}'
}

/// `s` without the white space that leads it.
pub open spec fn trimmed_start(s: Seq<char>) -> Seq<char>
    decreases s.len(),
{
    if s.len() > 0 && is_white(s[0]) {
        trimmed_start(s.drop_first())
    } else {
        s
    }
}

/// `s` without the white space that trails it.
pub open spec fn trimmed_end(s: Seq<char>) -> Seq<char>
    decreases s.len(),
{
    if s.len() > 0 && is_white(s.last()) {
        trimmed_end(s.drop_last())
    } else {
        s
    }
}

/// `s` without the white space around it.
pub open spec fn trimmed(s: Seq<char>) -> Seq<char> {
    trimmed_end(trimmed_start(s))
}

/// How many characters of white space lead `s`.
fn leading_white(s: &[char]) -> (n: usize)
    ensures
        n <= s@.len(),
        s@.skip(n as int) == trimmed_start(s@),
{
    let mut n: usize = 0;
    assert(s@.skip(0) =~= s@);
    while n < s.len() && is_white_char(s[n])
        invariant
            n <= s@.len(),
            trimmed_start(s@) == trimmed_start(s@.skip(n as int)),
        decreases s@.len() - n,
    {
        assert(s@.skip(n as int).drop_first() =~= s@.skip(n + 1));
        n += 1;
    }
    n
}

/// `s` without the white space that leads it.
pub fn trim_start_of(s: &str) -> (r: String)
    ensures
        r@ == trimmed_start(s@),
{
    let sc = chars_of(s);
    let n: usize = leading_white(sc.as_slice());
    let r = string_of(sc.as_slice(), n, sc.len());
    assert(r@ =~= s@.skip(n as int));
    r
}

/// `s` without the white space around it.
pub fn trim_of(s: &str) -> (r: String)
    ensures
        r@ == trimmed(s@),
{
    let sc = chars_of(s);
    let n: usize = leading_white(sc.as_slice());
    let mut end: usize = sc.len();
    assert(s@.subrange(n as int, end as int) =~= s@.skip(n as int));
    while end > n && is_white_char(sc[end - 1])
        invariant
            sc@ == s@,
            n <= end <= s@.len(),
            trimmed(s@) == trimmed_end(s@.subrange(n as int, end as int)),
        decreases end,
    {
        assert(s@.subrange(n as int, end as int).drop_last() =~= s@.subrange(n as int, end - 1));
        end -= 1;
    }
    string_of(sc.as_slice(), n, end)
}

// ---------------------------------------------------------------------------
// Numbers
// ---------------------------------------------------------------------------

/// The digit `d` as a character.
pub open spec fn digit(d: int) -> char {
    if d < 10 {
        ('0' as int + d) as char
    } else {
        ('a' as int + (d - 10)) as char
    }
}

/// The digit `d` as a character: decimal below ten, lower-case hexadecimal
/// above.
pub fn digit_char(d: u8) -> (c: char)
    requires
        d < 16,
    ensures
        c == digit(d as int),
{
    if d < 10 {
        (48u8 + d) as char
    } else {
        (87u8 + d) as char
    }
}

/// `n` in decimal.
pub open spec fn decimal(n: nat) -> Seq<char>
    decreases n,
{
    if n < 10 {
        seq![digit(n as int)]
    } else {
        decimal(n / 10).push(digit((n % 10) as int))
    }
}

/// A number in decimal is made of digits.
pub proof fn lemma_decimal_digits(n: nat)
    ensures
        decimal(n).len() > 0,
        forall|i: int| 0 <= i < decimal(n).len() ==> '0' <= #[trigger] decimal(n)[i] <= '9',
    decreases n,
{
    if n >= 10 {
        lemma_decimal_digits(n / 10);
    }
}

/// Different numbers are different in decimal.
pub proof fn lemma_decimal_injective(m: nat, n: nat)
    requires
        decimal(m) == decimal(n),
    ensures
        m == n,
    decreases m,
{
    lemma_decimal_digits(m / 10);
    lemma_decimal_digits(n / 10);
    let a = decimal(m);
    let b = decimal(n);
    assert(a.last() == digit((m % 10) as int));
    assert(b.last() == digit((n % 10) as int));
    assert(m % 10 == n % 10);
    assert(m >= 10 <==> a.len() > 1);
    assert(n >= 10 <==> b.len() > 1);
    if m >= 10 && n >= 10 {
        assert(a.drop_last() =~= decimal(m / 10));
        assert(b.drop_last() =~= decimal(n / 10));
        lemma_decimal_injective(m / 10, n / 10);
    }
}

/// `n` in decimal.
pub fn decimal_of(n: u64) -> (r: String)
    ensures
        r@ == decimal(n as nat),
    decreases n,
{
    let mut r = if n < 10 {
        String::new()
    } else {
        decimal_of(n / 10)
    };
    r.push(digit_char((n % 10) as u8));
    assert(n < 10 ==> r@ =~= seq![digit(n as int)]);
    r
}

/// `n` in decimal, with a leading minus sign when it is negative.
pub open spec fn signed_decimal(n: int) -> Seq<char> {
    if n < 0 {
        seq!['-'] + decimal((-n) as nat)
    } else {
        decimal(n as nat)
    }
}

/// `n` in decimal, with a leading minus sign when it is negative.
pub fn signed_decimal_of(n: i32) -> (r: String)
    ensures
        r@ == signed_decimal(n as int),
{
    if n < 0 {
        let mut r = String::new();
        r.push('-');
        let magnitude: u64 = (-(n as i64)) as u64;
        r.append(decimal_of(magnitude).as_str());
        assert(r@ =~= seq!['-'] + decimal(magnitude as nat));
        r
    } else {
        decimal_of(n as u64)
    }
}

/// The lowest `width` hexadecimal digits of `n`.
pub open spec fn hex(n: nat, width: nat) -> Seq<char>
    decreases width,
{
    if width == 0 {
        Seq::empty()
    } else {
        hex(n / 16, (width - 1) as nat).push(digit((n % 16) as int))
    }
}

/// The lowest `width` hexadecimal digits of `n`.
pub fn hex_of(n: u64, width: u8) -> (r: String)
    ensures
        r@ == hex(n as nat, width as nat),
    decreases width,
{
    if width == 0 {
        String::new()
    } else {
        let mut r = hex_of(n / 16, width - 1);
        r.push(digit_char((n % 16) as u8));
        r
    }
}

/// Whether every character of `s` is a decimal digit.
pub open spec fn all_digits(s: Seq<char>) -> bool {
    forall|i: int| 0 <= i < s.len() ==> '0' <= #[trigger] s[i] <= '9'
}

/// The number that the decimal digits `s` spell.
pub open spec fn decimal_value(s: Seq<char>) -> int
    decreases s.len(),
{
    if s.len() == 0 {
        0
    } else {
        decimal_value(s.drop_last()) * 10 + (s.last() as int - '0' as int)
    }
}

/// `s` as an unsigned 32-bit number: decimal digits after an optional plus
/// sign.
pub open spec fn as_u32(s: Seq<char>) -> Option<int> {
    let digits = if s.len() > 0 && s[0] == '+' {
        s.drop_first()
    } else {
        s
    };
    if digits.len() > 0 && all_digits(digits) && decimal_value(digits) <= u32::MAX {
        Some(decimal_value(digits))
    } else {
        None
    }
}

proof fn lemma_decimal_value_grows(s: Seq<char>, n: int)
    requires
        all_digits(s),
        0 <= n <= s.len(),
    ensures
        0 <= decimal_value(s.take(n)) <= decimal_value(s),
    decreases s.len() - n,
{
    lemma_decimal_value_nonneg(s.take(n));
    if n < s.len() {
        lemma_decimal_value_grows(s, n + 1);
        assert(s.take(n + 1).drop_last() =~= s.take(n));
        assert('0' <= s[n] <= '9');
    } else {
        assert(s.take(n) =~= s);
    }
}

proof fn lemma_decimal_value_nonneg(s: Seq<char>)
    requires
        all_digits(s),
    ensures
        0 <= decimal_value(s),
    decreases s.len(),
{
    if s.len() > 0 {
        lemma_decimal_value_nonneg(s.drop_last());
        assert('0' <= s[s.len() - 1] <= '9');
    }
}

/// `s` as an unsigned 32-bit number.
pub fn parse_u32(s: &str) -> (r: Option<u32>)
    ensures
        match (r, as_u32(s@)) {
            (Some(n), Some(m)) => n == m,
            (None, None) => true,
            _ => false,
        },
{
    let sc = chars_of(s);
    let start: usize = if sc.len() > 0 && sc[0] == '+' {
        1
    } else {
        0
    };
    if start == sc.len() {
        return None;
    }
    let ghost digits = s@.skip(start as int);
    proof {
        assert(start == 1 ==> digits =~= s@.drop_first());
        assert(start == 0 ==> digits =~= s@);
    }
    let mut i: usize = start;
    let mut value: u32 = 0;
    while i < sc.len()
        invariant
            sc@ == s@,
            start <= i <= s@.len(),
            start < s@.len(),
            digits == s@.skip(start as int),
            all_digits(digits.take(i - start)),
            value == decimal_value(digits.take(i - start)),
            as_u32(s@) == (if digits.len() > 0 && all_digits(digits) && decimal_value(digits)
                <= u32::MAX {
                Some(decimal_value(digits))
            } else {
                None
            }),
        decreases s@.len() - i,
    {
        let c: char = sc[i];
        assert(digits[i - start] == c);
        if c < '0' || c > '9' {
            return None;
        }
        let d: u32 = (c as u32) - 48;
        let ghost next = digits.take(i + 1 - start);
        proof {
            assert(next.drop_last() =~= digits.take(i - start));
            assert(next.last() == c);
            assert(decimal_value(next) == value * 10 + d);
            assert forall|j: int| 0 <= j < next.len() implies '0' <= #[trigger] next[j] <= '9' by {
                if j < i - start {
                    assert(digits.take(i - start)[j] == next[j]);
                }
            }
        }
        if (value as u64) * 10 + (d as u64) > 0xffff_ffff {
            proof {
                if all_digits(digits) {
                    lemma_decimal_value_grows(digits, i + 1 - start);
                }
            }
            return None;
        }
        value = value * 10 + d;
        i += 1;
    }
    assert(digits.take(i - start) =~= digits);
    Some(value)
}

// ---------------------------------------------------------------------------
// What searching, splitting and trimming give
// ---------------------------------------------------------------------------

/// Whether `a` occurs nowhere in `s`.
pub open spec fn is_absent(s: Seq<char>, a: Seq<char>) -> bool {
    forall|i: int| 0 <= i && i + a.len() <= s.len() ==> #[trigger] s.subrange(i, i + a.len()) != a
}

/// Whether `a` occurs in `s` first at position `k`.
pub open spec fn is_first_at(s: Seq<char>, a: Seq<char>, k: int) -> bool {
    &&& 0 <= k && k + a.len() <= s.len()
    &&& s.subrange(k, k + a.len()) == a
    &&& forall|i: int| 0 <= i < k ==> #[trigger] s.subrange(i, i + a.len()) != a
}

/// Whether `a` occurs in `s` last at position `k`.
pub open spec fn is_last_at(s: Seq<char>, a: Seq<char>, k: int) -> bool {
    &&& 0 <= k && k + a.len() <= s.len()
    &&& s.subrange(k, k + a.len()) == a
    &&& forall|i: int|
        k < i && i + a.len() <= s.len() ==> #[trigger] s.subrange(i, i + a.len()) != a
}

/// A search finds the first occurrence, and nothing where there is none.
pub proof fn lemma_search(s: Seq<char>, a: Seq<char>, k: int)
    ensures
        is_absent(s, a) <==> find_from(s, a, 0) is None,
        is_absent(s, a) <==> !contains_text(s, a),
        is_first_at(s, a, k) ==> find_from(s, a, 0) == Some(k),
{
    lemma_find_from(s, a, 0);
    match find_from(s, a, 0) {
        Some(m) => {
            assert(s.subrange(m, m + a.len()) == a);
            if is_first_at(s, a, k) {
                assert(matches_at(s, a, k));
                if m < k {
                    assert(s.subrange(m, m + a.len()) == a);
                }
            }
            assert(matches_at(s, a, m));
        },
        None => {
            assert forall|i: int| 0 <= i && i + a.len() <= s.len() implies #[trigger] s.subrange(
                i,
                i + a.len(),
            ) != a by {
                assert(!matches_at(s, a, i));
            }
            if is_first_at(s, a, k) {
                assert(matches_at(s, a, k));
            }
        },
    }
}

/// A search in the tail of a text finds what a search in the tail alone finds.
pub proof fn lemma_find_shift(p: Seq<char>, q: Seq<char>, a: Seq<char>, from: int)
    requires
        p.len() <= from <= p.len() + q.len(),
    ensures
        match (find_from(p + q, a, from), find_from(q, a, from - p.len())) {
            (Some(k), Some(m)) => k == m + p.len(),
            (None, None) => true,
            _ => false,
        },
    decreases p.len() + q.len() - from + 1,
{
    let s = p + q;
    if from + a.len() <= s.len() {
        assert(s.subrange(from, from + a.len()) =~= q.subrange(
            from - p.len(),
            from - p.len() + a.len(),
        ));
        if !matches_at(s, a, from) && from < s.len() {
            lemma_find_shift(p, q, a, from + 1);
        } else if !matches_at(s, a, from) {
            assert(a.len() == 0);
            assert(s.subrange(from, from + a.len()) =~= a);
        }
    }
}

/// Around the first occurrence of a pattern a text falls into what is before it
/// and what is after it; a text without one does not fall apart.
pub proof fn lemma_split_at_first(p: Seq<char>, pat: Seq<char>, q: Seq<char>, s: Seq<char>)
    ensures
        is_first_at(p + pat + q, pat, p.len() as int) ==> split_at_first(p + pat + q, pat) == Some(
            (p, q),
        ),
        is_absent(s, pat) ==> split_at_first(s, pat) is None,
{
    let t = p + pat + q;
    lemma_search(t, pat, p.len() as int);
    lemma_search(s, pat, 0);
    assert(t.take(p.len() as int) =~= p);
    assert(t.skip(p.len() as int + pat.len()) =~= q);
}

/// Around the last occurrence of a pattern a text falls into what is before it
/// and what is after it; a text without one does not fall apart.
pub proof fn lemma_split_at_last(p: Seq<char>, pat: Seq<char>, q: Seq<char>, s: Seq<char>)
    ensures
        is_last_at(p + pat + q, pat, p.len() as int) ==> split_at_last(p + pat + q, pat) == Some(
            (p, q),
        ),
        is_absent(s, pat) ==> split_at_last(s, pat) is None,
{
    let t = p + pat + q;
    let n = p.len() as int;
    lemma_find_back(t, pat, t.len() as int);
    lemma_find_back(s, pat, s.len() as int);
    if is_last_at(t, pat, n) {
        assert(matches_at(t, pat, n));
        match find_back(t, pat, t.len() as int) {
            Some(k) => {
                if k > n {
                    assert(t.subrange(k, k + pat.len()) == pat);
                }
            },
            None => {},
        }
    }
    if is_absent(s, pat) {
        match find_back(s, pat, s.len() as int) {
            Some(k) => {
                assert(s.subrange(k, k + pat.len()) == pat);
            },
            None => {},
        }
    }
    assert(t.take(n) =~= p);
    assert(t.skip(n + pat.len()) =~= q);
}

proof fn lemma_split_shift(p: Seq<char>, q: Seq<char>, sep: char, from: int)
    requires
        p.len() <= from <= p.len() + q.len(),
    ensures
        split_on_from(p + q, sep, from) == split_on_from(q, sep, from - p.len()),
    decreases p.len() + q.len() - from,
{
    let s = p + q;
    let n = p.len() as int;
    lemma_find_shift(p, q, seq![sep], from);
    lemma_find_from(s, seq![sep], from);
    match find_from(s, seq![sep], from) {
        Some(k) => {
            lemma_one_char(s, sep, k);
            assert(s.subrange(from, k) =~= q.subrange(from - n, k - n));
            lemma_split_shift(p, q, sep, k + 1);
        },
        None => {
            assert(s.skip(from) =~= q.skip(from - n));
        },
    }
}

/// A text without the separator is one piece, and the pieces of a text that has
/// it are what is before the first one and the pieces of what is after it.
pub proof fn lemma_split_on(p: Seq<char>, sep: char, q: Seq<char>)
    requires
        free_of(p, sep),
    ensures
        split_on(p, sep) == seq![p],
        split_on(p + seq![sep] + q, sep) == seq![p] + split_on(q, sep),
{
    let s = p + seq![sep] + q;
    let n = p.len() as int;
    lemma_find_from(p, seq![sep], 0);
    match find_from(p, seq![sep], 0) {
        Some(k) => {
            lemma_one_char(p, sep, k);
        },
        None => {
            assert(p.skip(0) =~= p);
        },
    }
    assert forall|j: int| 0 <= j < n implies #[trigger] s[j] != sep by {
        assert(s[j] == p[j]);
    }
    assert(s[n] == sep);
    lemma_find_char(s, sep, 0, n);
    assert(s.subrange(0, n) =~= p);
    assert((p + seq![sep]) + q =~= s);
    lemma_split_shift(p + seq![sep], q, sep, n + 1);
}

proof fn lemma_lines_shift(p: Seq<char>, q: Seq<char>, from: int)
    requires
        p.len() <= from <= p.len() + q.len(),
    ensures
        lines_from(p + q, from) == lines_from(q, from - p.len()),
    decreases p.len() + q.len() - from,
{
    let s = p + q;
    let n = p.len() as int;
    if from < s.len() {
        lemma_find_shift(p, q, seq!['\n'], from);
        lemma_find_from(s, seq!['\n'], from);
        match find_from(s, seq!['\n'], from) {
            Some(k) => {
                lemma_one_char(s, '\n', k);
                assert(s.subrange(from, k) =~= q.subrange(from - n, k - n));
                lemma_lines_shift(p, q, k + 1);
            },
            None => {
                assert(s.skip(from) =~= q.skip(from - n));
            },
        }
    }
}

/// The lines of a text are what is before the first line feed, without the
/// carriage return that ends it, and the lines of what is after it. What has no
/// line feed is one line, unless there is nothing.
pub proof fn lemma_first_line(p: Seq<char>, q: Seq<char>)
    requires
        free_of(p, '\n'),
    ensures
        lines(Seq::empty()) == Seq::<Seq<char>>::empty(),
        p.len() > 0 ==> lines(p) == seq![p],
        lines(p + seq!['\n'] + q) == seq![
            if p.len() > 0 && p.last() == '\r' {
                p.drop_last()
            } else {
                p
            },
        ] + lines(q),
{
    let s = p + seq!['\n'] + q;
    let n = p.len() as int;
    lemma_find_from(p, seq!['\n'], 0);
    match find_from(p, seq!['\n'], 0) {
        Some(k) => {
            lemma_one_char(p, '\n', k);
        },
        None => {
            assert(p.skip(0) =~= p);
        },
    }
    assert forall|j: int| 0 <= j < n implies #[trigger] s[j] != '\n' by {
        assert(s[j] == p[j]);
    }
    assert(s[n] == '\n');
    lemma_find_char(s, '\n', 0, n);
    assert(s.subrange(0, n) =~= p);
    assert((p + seq!['\n']) + q =~= s);
    lemma_lines_shift(p + seq!['\n'], q, n + 1);
}

proof fn lemma_replaced_shift(p: Seq<char>, q: Seq<char>, pat: Seq<char>, to: Seq<char>, from: int)
    requires
        pat.len() > 0,
        p.len() <= from <= p.len() + q.len(),
    ensures
        replaced_from(p + q, pat, to, from) == replaced_from(q, pat, to, from - p.len()),
    decreases p.len() + q.len() - from,
{
    let s = p + q;
    let n = p.len() as int;
    lemma_find_shift(p, q, pat, from);
    lemma_find_from(s, pat, from);
    match find_from(s, pat, from) {
        Some(k) => {
            assert(s.subrange(from, k) =~= q.subrange(from - n, k - n));
            lemma_replaced_shift(p, q, pat, to, k + pat.len());
        },
        None => {
            assert(s.skip(from) =~= q.skip(from - n));
        },
    }
}

/// Replacing leaves a text without the pattern alone, and puts the replacement in
/// the place of the first occurrence and goes on behind it.
pub proof fn lemma_replaced(p: Seq<char>, pat: Seq<char>, q: Seq<char>, to: Seq<char>, s: Seq<char>)
    requires
        pat.len() > 0,
    ensures
        is_absent(s, pat) ==> replaced(s, pat, to) == s,
        is_first_at(p + pat + q, pat, p.len() as int) ==> replaced(p + pat + q, pat, to) == p + to
            + replaced(q, pat, to),
{
    let t = p + pat + q;
    let n = p.len() as int;
    lemma_search(s, pat, 0);
    lemma_search(t, pat, n);
    assert(s.skip(0) =~= s);
    assert(t.subrange(0, n) =~= p);
    assert((p + pat) + q =~= t);
    lemma_replaced_shift(p + pat, q, pat, to, n + pat.len());
}

/// Texts are joined with the separator between neighbours and nowhere else.
pub proof fn lemma_joined(a: Seq<Seq<char>>, b: Seq<Seq<char>>, one: Seq<char>, sep: Seq<char>)
    ensures
        joined_with(Seq::empty(), sep) == Seq::<char>::empty(),
        joined_with(seq![one], sep) == one,
        a.len() > 0 && b.len() > 0 ==> joined_with(a + b, sep) == joined_with(a, sep) + sep
            + joined_with(b, sep),
    decreases b.len(),
{
    if a.len() > 0 && b.len() > 0 {
        let all = a + b;
        let d = b.drop_last();
        assert(all.drop_last() =~= a + d);
        assert(all.last() == b.last());
        if b.len() == 1 {
            assert(a + d =~= a);
            assert(b[0] == b.last());
        } else {
            lemma_joined(a, d, one, sep);
            assert(joined_with(all, sep) =~= joined_with(a, sep) + sep + joined_with(b, sep));
        }
    }
}

/// White space below the letters of ASCII is the space, the tabulators and what
/// ends lines and pages; no sign, digit or letter of ASCII is white space.
pub proof fn lemma_white(c: char)
    requires
        c <= '\u{7f}',
    ensures
        is_white(c) <==> c == ' ' || c == '\t' || c == '\n' || c == '\u{b}' || c == '\u{c}' || c
            == '\r',
{
}

/// Trimming the start takes white space off and stops at the first other
/// character.
pub proof fn lemma_trimmed_start(s: Seq<char>) -> (n: int)
    ensures
        0 <= n <= s.len(),
        trimmed_start(s) == s.skip(n),
        forall|i: int| 0 <= i < n ==> is_white(#[trigger] s[i]),
        n < s.len() ==> !is_white(s[n]),
    decreases s.len(),
{
    if s.len() > 0 && is_white(s[0]) {
        let t = s.drop_first();
        let m = lemma_trimmed_start(t);
        assert(t.skip(m) =~= s.skip(m + 1));
        assert forall|i: int| 0 <= i < m + 1 implies is_white(#[trigger] s[i]) by {
            if i > 0 {
                assert(t[i - 1] == s[i]);
            }
        }
        if m + 1 < s.len() {
            assert(t[m] == s[m + 1]);
        }
        m + 1
    } else {
        assert(s.skip(0) =~= s);
        0
    }
}

proof fn lemma_trimmed_end(s: Seq<char>) -> (n: int)
    ensures
        0 <= n <= s.len(),
        trimmed_end(s) == s.take(n),
        forall|i: int| n <= i < s.len() ==> is_white(#[trigger] s[i]),
        n > 0 ==> !is_white(s[n - 1]),
    decreases s.len(),
{
    if s.len() > 0 && is_white(s.last()) {
        let t = s.drop_last();
        let m = lemma_trimmed_end(t);
        assert(t.take(m) =~= s.take(m));
        assert forall|i: int| m <= i < s.len() implies is_white(#[trigger] s[i]) by {
            if i < t.len() {
                assert(t[i] == s[i]);
            }
        }
        m
    } else {
        assert(s.take(s.len() as int) =~= s);
        s.len() as int
    }
}

/// Trimming takes white space off both ends and nothing else: what is left
/// neither begins nor ends with white space.
pub proof fn lemma_trimmed(s: Seq<char>) -> (r: (int, int))
    ensures
        0 <= r.0 <= r.1 <= s.len(),
        trimmed(s) == s.subrange(r.0, r.1),
        forall|i: int| 0 <= i < r.0 || r.1 <= i < s.len() ==> is_white(#[trigger] s[i]),
        r.0 < r.1 ==> !is_white(s[r.0]) && !is_white(s[r.1 - 1]),
{
    let n = lemma_trimmed_start(s);
    let t = s.skip(n);
    let m = lemma_trimmed_end(t);
    assert(t.take(m) =~= s.subrange(n, n + m));
    assert forall|i: int| 0 <= i < n || n + m <= i < s.len() implies is_white(#[trigger] s[i]) by {
        if i >= n {
            assert(t[i - n] == s[i]);
        }
    }
    if m > 0 {
        assert(t[m - 1] == s[n + m - 1]);
        assert(t[0] == s[n]);
    }
    (n, n + m)
}

/// Reading the decimal form of a number gives the number, and a longer form than
/// the number needs is never written.
pub proof fn lemma_decimal_read_back(n: nat)
    ensures
        decimal_value(decimal(n)) == n,
        n <= u32::MAX ==> as_u32(decimal(n)) == Some(n as int),
        n > 0 ==> decimal(n)[0] != '0',
    decreases n,
{
    lemma_decimal_digits(n);
    let d = decimal(n);
    if n >= 10 {
        lemma_decimal_read_back(n / 10);
        lemma_decimal_digits(n / 10);
        assert(d.drop_last() =~= decimal(n / 10));
        assert(d.last() as int - '0' as int == n % 10);
    } else {
        assert(d.drop_last() =~= Seq::<char>::empty());
        assert(decimal_value(d.drop_last()) == 0);
        assert(d.last() as int - '0' as int == n);
    }
    assert('0' <= d[0] <= '9');
}

/// A text that is no number is not read as one: digits, after at most one plus
/// sign, are all that a number is written with.
pub proof fn lemma_no_number(s: Seq<char>)
    ensures
        s.len() == 0 ==> as_u32(s) is None,
        (exists|i: int| 0 <= i < s.len() && !('0' <= #[trigger] s[i] <= '9') && !(i == 0 && s[i]
            == '+')) ==> as_u32(s) is None,
{
    if exists|i: int| 0 <= i < s.len() && !('0' <= #[trigger] s[i] <= '9') && !(i == 0 && s[i]
        == '+') {
        let i = choose|i: int| 0 <= i < s.len() && !('0' <= #[trigger] s[i] <= '9') && !(i == 0
            && s[i] == '+');
        if s[0] == '+' {
            assert(s.drop_first()[i - 1] == s[i]);
        }
    }
}

/// Whether two lists hold the same texts.
pub open spec fn same_texts(a: Seq<String>, b: Seq<String>) -> bool {
    a.len() == b.len() && forall|k: int| 0 <= k < a.len() ==> (#[trigger] a[k])@ == b[k]@
}

/// Lists with the same contents hold the same texts.
pub proof fn lemma_same_texts(a: Seq<String>, b: Seq<String>)
    requires
        views(a) == views(b),
    ensures
        same_texts(a, b),
{
    assert(views(a).len() == a.len() && views(b).len() == b.len());
    assert forall|k: int| 0 <= k < a.len() implies (#[trigger] a[k])@ == b[k]@ by {
        assert(views(a)[k] == a[k]@);
        assert(views(b)[k] == b[k]@);
    }
}

/// The value that hexadecimal digits spell.
pub open spec fn hex_value(s: Seq<char>) -> nat
    decreases s.len(),
{
    if s.len() == 0 {
        0
    } else {
        hex_value(s.drop_last()) * 16 + (if s.last() <= '9' {
            (s.last() as int - '0' as int) as nat
        } else {
            (s.last() as int - 'a' as int + 10) as nat
        })
    }
}

/// Hexadecimal digits read back as the number, as far as they reach.
pub proof fn lemma_hex_read_back(n: nat, width: nat)
    ensures
        hex(n, width).len() == width,
        forall|i: int|
            0 <= i < width ==> '0' <= #[trigger] hex(n, width)[i] <= '9' || 'a' <= hex(
                n,
                width,
            )[i] <= 'f',
        n < vstd::arithmetic::power::pow(16, width) ==> hex_value(hex(n, width)) == n,
    decreases width,
{
    if width > 0 {
        let less = (width - 1) as nat;
        lemma_hex_read_back(n / 16, less);
        let s = hex(n, width);
        assert(s.drop_last() =~= hex(n / 16, less));
        assert(s.last() == digit((n % 16) as int));
        vstd::arithmetic::power::lemma_pow1(16);
        vstd::arithmetic::power::lemma_pow_adds(16, 1, less);
        let p = vstd::arithmetic::power::pow(16, less);
        assert(vstd::arithmetic::power::pow(16, width) == 16 * p);
        assert forall|i: int| 0 <= i < width implies '0' <= #[trigger] s[i] <= '9' || 'a' <= s[i]
            <= 'f' by {
            if i < less {
                assert(s[i] == hex(n / 16, less)[i]);
            }
        }
    } else {
        vstd::arithmetic::power::lemma_pow0(16);
    }
}

proof fn lemma_first_or_absent(s: Seq<char>, a: Seq<char>) -> (k: int)
    ensures
        is_first_at(s, a, k) || (k < 0 && is_absent(s, a)),
{
    lemma_find_from(s, a, 0);
    lemma_search(s, a, 0);
    match find_from(s, a, 0) {
        Some(k) => {
            assert forall|i: int| 0 <= i < k implies #[trigger] s.subrange(i, i + a.len()) != a by {
                assert(!matches_at(s, a, i));
            }
            k
        },
        None => -1,
    }
}

proof fn lemma_replaced_behind(p: Seq<char>, c: char, y: Seq<char>, pat: Seq<char>, to: Seq<char>)
    requires
        pat.len() > 0,
        free_of(pat, c),
        is_absent(p, pat),
    ensures
        replaced(p + seq![c] + y, pat, to) == p + seq![c] + replaced(y, pat, to),
{
    let s = p + seq![c] + y;
    let n = p.len() as int;
    assert(s[n] == c);
    assert forall|i: int| 0 <= i <= n && i + pat.len() <= s.len() implies #[trigger] s.subrange(
        i,
        i + pat.len(),
    ) != pat by {
        let w = s.subrange(i, i + pat.len());
        if i + pat.len() <= n {
            assert(w =~= p.subrange(i, i + pat.len()));
        } else {
            assert(w[n - i] == c);
        }
    }
    let k = lemma_first_or_absent(y, pat);
    if k < 0 {
        assert forall|i: int| 0 <= i && i + pat.len() <= s.len() implies #[trigger] s.subrange(
            i,
            i + pat.len(),
        ) != pat by {
            if i > n {
                assert(s.subrange(i, i + pat.len()) =~= y.subrange(
                    i - n - 1,
                    i - n - 1 + pat.len(),
                ));
            }
        }
        lemma_replaced(p, pat, y, to, s);
        lemma_replaced(p, pat, y, to, y);
    } else {
        let y1 = y.take(k);
        let y2 = y.skip(k + pat.len());
        assert(y =~= y1 + pat + y2);
        let head = p + seq![c] + y1;
        assert(s =~= head + pat + y2);
        let m = n + 1 + k;
        assert(s.subrange(m, m + pat.len()) =~= y.subrange(k, k + pat.len()));
        assert forall|i: int| 0 <= i < m implies #[trigger] s.subrange(i, i + pat.len())
            != pat by {
            if i > n {
                assert(s.subrange(i, i + pat.len()) =~= y.subrange(
                    i - n - 1,
                    i - n - 1 + pat.len(),
                ));
            }
        }
        lemma_replaced(head, pat, y2, to, y2);
        lemma_replaced(y1, pat, y2, to, y2);
        assert(replaced(s, pat, to) =~= p + seq![c] + replaced(y, pat, to));
    }
}

/// A character that is not part of the pattern keeps what is before it and what
/// is after it apart: both are replaced by themselves.
pub proof fn lemma_replaced_apart(
    x: Seq<char>,
    c: char,
    y: Seq<char>,
    pat: Seq<char>,
    to: Seq<char>,
)
    requires
        pat.len() > 0,
        free_of(pat, c),
    ensures
        replaced(x + seq![c] + y, pat, to) == replaced(x, pat, to) + seq![c] + replaced(
            y,
            pat,
            to,
        ),
    decreases x.len(),
{
    let s = x + seq![c] + y;
    let k = lemma_first_or_absent(x, pat);
    if k < 0 {
        lemma_replaced_behind(x, c, y, pat, to);
        lemma_replaced(x, pat, y, to, x);
    } else {
        let x1 = x.take(k);
        let x2 = x.skip(k + pat.len());
        assert(x =~= x1 + pat + x2);
        let rest = x2 + seq![c] + y;
        assert(s =~= x1 + pat + rest);
        assert(s.subrange(k, k + pat.len()) =~= x.subrange(k, k + pat.len()));
        assert forall|i: int| 0 <= i < k implies #[trigger] s.subrange(i, i + pat.len())
            != pat by {
            assert(s.subrange(i, i + pat.len()) =~= x.subrange(i, i + pat.len()));
        }
        lemma_replaced(x1, pat, rest, to, rest);
        lemma_replaced(x1, pat, x2, to, x2);
        lemma_replaced_apart(x2, c, y, pat, to);
        assert(replaced(s, pat, to) =~= replaced(x, pat, to) + seq![c] + replaced(y, pat, to));
    }
}

/// White space is what Unicode counts as such.
pub proof fn lemma_white_everywhere(c: char)
    ensures
        is_white(c) <==> 0x9 <= c as int <= 0xd || c as int == 0x20 || c as int == 0x85 || c as int
            == 0xa0 || c as int == 0x1680 || 0x2000 <= c as int <= 0x200a || c as int == 0x2028
            || c as int == 0x2029 || c as int == 0x202f || c as int == 0x205f || c as int
            == 0x3000,
{
}

/// What is behind a prefix, where the text has it.
pub proof fn lemma_after_prefix(prefix: Seq<char>, v: Seq<char>, s: Seq<char>)
    ensures
        after_prefix(prefix + v, prefix) == Some(v),
        after_prefix(s, prefix) matches Some(rest) ==> s == prefix + rest,
{
    let t = prefix + v;
    assert(t.subrange(0, prefix.len() as int) =~= prefix);
    assert(t.skip(prefix.len() as int) =~= v);
    if let Some(rest) = after_prefix(s, prefix) {
        assert(s =~= prefix + rest);
    }
}

/// A negative number has a minus sign before its digits, and no other has one.
pub proof fn lemma_signed_decimal(n: int)
    ensures
        n < 0 ==> signed_decimal(n) == seq!['-'] + decimal((-n) as nat),
        n >= 0 ==> signed_decimal(n) == decimal(n as nat) && signed_decimal(n)[0] != '-',
{
    if n >= 0 {
        lemma_decimal_digits(n as nat);
        assert('0' <= decimal(n as nat)[0]);
    }
}

proof fn lemma_zero_first(s: Seq<char>)
    ensures
        decimal_value(seq!['0'] + s) == decimal_value(s),
    decreases s.len(),
{
    let t = seq!['0'] + s;
    if s.len() == 0 {
        assert(t.drop_last() =~= Seq::empty());
        assert(decimal_value(t.drop_last()) == 0);
    } else {
        lemma_zero_first(s.drop_last());
        assert(t.drop_last() =~= seq!['0'] + s.drop_last());
        assert(t.last() == s.last());
    }
}

/// A plus sign and zeros before a number change nothing, and a number that is too
/// large is none.
pub proof fn lemma_number_forms(n: nat)
    ensures
        n <= u32::MAX ==> as_u32(seq!['+'] + decimal(n)) == Some(n as int),
        n <= u32::MAX ==> as_u32(seq!['0'] + decimal(n)) == Some(n as int),
        n > u32::MAX ==> as_u32(decimal(n)) is None,
{
    lemma_decimal_digits(n);
    lemma_decimal_read_back(n);
    let d = decimal(n);
    let plus = seq!['+'] + d;
    assert(plus.drop_first() =~= d);
    let zero = seq!['0'] + d;
    lemma_zero_first(d);
    assert forall|i: int| 0 <= i < zero.len() implies '0' <= #[trigger] zero[i] <= '9' by {
        if i > 0 {
            assert(zero[i] == d[i - 1]);
        }
    }
    assert(d[0] != '+');
}

} // verus!
