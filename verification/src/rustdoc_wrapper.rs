//! What happens around a compilation of doc tests: the command line of the
//! wrapper, the names of the tests that rustdoc prints, and the names of the
//! directories that it keeps the tests in.
use vstd::prelude::*;
use crate::order;
use crate::order::SortedSet;
use crate::string_map;
use crate::text;
use crate::text::{
    copied, decimal_of, finishes_with, lines_of, same_text, split_first, split_last,
    without_prefix,
};

verus! {

// ---------------------------------------------------------------------------
// The command line
// ---------------------------------------------------------------------------

/// The command line of the wrapper.
#[derive(Debug, PartialEq, Eq)]
pub struct WrapperArgs {
    /// Where to write the names of the tests.
    pub test_metadata_path: Option<String>,
    /// The command to run, with its arguments.
    pub child_args: Vec<String>,
}

/// What is wrong with a command line.
#[derive(Debug, PartialEq, Eq)]
pub enum WrapperError {
    /// An argument before the command that is not known.
    UnknownFlag(String),
    /// There is no command.
    NoCommand,
}

impl WrapperError {
    /// The text of the error.
    pub open spec fn text(self) -> Seq<char> {
        match self {
            WrapperError::UnknownFlag(flag) => "Unknown wrapper flag: "@ + flag@,
            WrapperError::NoCommand =>
                "Usage: rustdoc_compile_wrapper [--test-metadata FILE] -- <command> [args...]"@,
        }
    }

    /// Describes the error.
    pub fn message(&self) -> (r: String)
        ensures
            r@ == self.text(),
    {
        match self {
            WrapperError::UnknownFlag(flag) => {
                let mut r = "Unknown wrapper flag: ".to_owned();
                r.append(flag.as_str());
                r
            },
            WrapperError::NoCommand =>
                "Usage: rustdoc_compile_wrapper [--test-metadata FILE] -- <command> [args...]".to_owned(),
        }
    }
}

/// What a command line says after `path` was given: the path for the names and
/// the command, or the argument that is not known. The last path counts, and
/// one that is missing at the end takes back those before it.
pub open spec fn parsed_args(args: Seq<Seq<char>>, path: Option<Seq<char>>) -> Result<
    (Option<Seq<char>>, Seq<Seq<char>>),
    Seq<char>,
>
    decreases args.len(),
{
    if args.len() == 0 {
        Ok((path, Seq::empty()))
    } else if args[0] == "--"@ {
        Ok((path, args.skip(1)))
    } else if args[0] == "--test-metadata"@ {
        if args.len() == 1 {
            Ok((None, Seq::empty()))
        } else {
            parsed_args(args.skip(2), Some(args[1]))
        }
    } else {
        Err(args[0])
    }
}

impl WrapperArgs {
    /// Reads a command line, without the name of the program.
    pub fn parse(args: &Vec<String>) -> (r: Result<WrapperArgs, WrapperError>)
        ensures
            match (r, parsed_args(text::views(args@), None)) {
                (Ok(a), Ok(p)) => text::opt_view(a.test_metadata_path) == p.0 && text::views(
                    a.child_args@,
                ) == p.1,
                (Err(WrapperError::UnknownFlag(flag)), Err(e)) => flag@ == e,
                _ => false,
            },
    {
        let ghost all = text::views(args@);
        let mut test_metadata_path: Option<String> = None;
        let mut child_args: Vec<String> = Vec::new();
        let mut i: usize = 0;
        assert(all.skip(0) =~= all);
        while i < args.len()
            invariant
                i <= args@.len(),
                all == text::views(args@),
                child_args@.len() == 0,
                parsed_args(all, None) == parsed_args(
                    all.skip(i as int),
                    text::opt_view(test_metadata_path),
                ),
            decreases args@.len() - i,
        {
            let ghost rest = all.skip(i as int);
            assert(rest[0] == args@[i as int]@);
            if same_text(args[i].as_str(), "--") {
                i += 1;
                assert(rest.skip(1) =~= all.skip(i as int));
                assert(text::views(child_args@) =~= all.subrange(i as int, i as int));
                let ghost start = i as int;
                while i < args.len()
                    invariant
                        0 <= start <= i <= args@.len(),
                        all == text::views(args@),
                        text::views(child_args@) == all.subrange(start, i as int),
                    decreases args@.len() - i,
                {
                    let ghost before = child_args@;
                    child_args.push(copied(&args[i]));
                    assert(text::views(child_args@) =~= text::views(before).push(
                        args@[i as int]@,
                    ));
                    i += 1;
                    assert(text::views(child_args@) =~= all.subrange(start, i as int));
                }
                assert(text::views(child_args@) =~= all.skip(start));
                return Ok(WrapperArgs { test_metadata_path, child_args });
            } else if same_text(args[i].as_str(), "--test-metadata") {
                if i + 1 < args.len() {
                    test_metadata_path = Some(copied(&args[i + 1]));
                    assert(rest[1] == args@[i + 1]@);
                    assert(rest.skip(2) =~= all.skip(i + 2));
                    i += 2;
                } else {
                    assert(text::views(child_args@) =~= Seq::empty());
                    return Ok(WrapperArgs { test_metadata_path: None, child_args });
                }
            } else {
                return Err(WrapperError::UnknownFlag(copied(&args[i])));
            }
        }
        assert(all.skip(i as int) =~= Seq::empty());
        assert(text::views(child_args@) =~= Seq::empty());
        Ok(WrapperArgs { test_metadata_path, child_args })
    }

    /// The program to run and its arguments.
    pub fn command(&self) -> (r: Result<(String, Vec<String>), WrapperError>)
        ensures
            match r {
                Ok((program, args)) => self.child_args@.len() > 0 && program@
                    == self.child_args@[0]@ && text::views(args@) == text::views(
                    self.child_args@,
                ).skip(1),
                Err(e) => self.child_args@.len() == 0 && e == WrapperError::NoCommand,
            },
    {
        if self.child_args.len() == 0 {
            return Err(WrapperError::NoCommand);
        }
        let program = copied(&self.child_args[0]);
        let ghost all = text::views(self.child_args@);
        let mut args: Vec<String> = Vec::new();
        let mut i: usize = 1;
        assert(text::views(args@) =~= all.subrange(1, 1));
        while i < self.child_args.len()
            invariant
                1 <= i <= self.child_args@.len(),
                all == text::views(self.child_args@),
                text::views(args@) == all.subrange(1, i as int),
            decreases self.child_args@.len() - i,
        {
            let ghost before = args@;
            args.push(copied(&self.child_args[i]));
            assert(text::views(args@) =~= text::views(before).push(all[i as int]));
            i += 1;
            assert(text::views(args@) =~= all.subrange(1, i as int));
        }
        assert(text::views(args@) =~= all.skip(1));
        Ok((program, args))
    }
}

// ---------------------------------------------------------------------------
// The names of the tests
// ---------------------------------------------------------------------------

/// The name in a line `test <name> ... <status>`, or `None` for another line.
pub open spec fn name_in_line(line: Seq<char>) -> Option<Seq<char>> {
    match text::after_prefix(line, "test "@) {
        Some(rest) => match text::split_at_last(rest, " ... "@) {
            Some(p) => Some(p.0),
            None => None,
        },
        None => None,
    }
}

/// The names in `lines`, in their order.
pub open spec fn names_in_lines(lines: Seq<Seq<char>>) -> Seq<Seq<char>>
    decreases lines.len(),
{
    if lines.len() == 0 {
        Seq::empty()
    } else {
        let before = names_in_lines(lines.drop_last());
        match name_in_line(lines.last()) {
            Some(name) => before.push(name),
            None => before,
        }
    }
}

/// The names of the tests that rustdoc printed, in their order.
pub open spec fn test_names(stdout: Seq<char>) -> Seq<Seq<char>> {
    names_in_lines(text::lines(stdout))
}

/// The names of the tests that rustdoc printed, in the order in which it
/// printed them, which is the order that the directories are numbered in.
pub fn parse_test_names(stdout: &str) -> (r: Vec<String>)
    ensures
        text::views(r@) == test_names(stdout@),
{
    let lines = lines_of(stdout);
    let ghost all = text::views(lines@);
    let mut names: Vec<String> = Vec::new();
    let mut i: usize = 0;
    assert(all.take(0) =~= Seq::empty());
    assert(text::views(names@) =~= Seq::empty());
    while i < lines.len()
        invariant
            i <= lines@.len(),
            all == text::views(lines@),
            text::views(names@) == names_in_lines(all.take(i as int)),
        decreases lines@.len() - i,
    {
        let ghost before = names@;
        assert(all.take(i + 1).drop_last() =~= all.take(i as int));
        assert(all.take(i + 1).last() == lines@[i as int]@);
        match without_prefix(lines[i].as_str(), "test ") {
            Some(rest) => match split_last(rest.as_str(), " ... ") {
                Some(p) => {
                    names.push(p.0);
                    assert(text::views(names@) =~= text::views(before).push(p.0@));
                },
                None => {},
            },
            None => {},
        }
        i += 1;
    }
    assert(all.take(i as int) =~= all);
    names
}

// ---------------------------------------------------------------------------
// The names of the directories
// ---------------------------------------------------------------------------

/// Whether `c` is a letter or a digit of ASCII.
pub open spec fn is_alphanumeric(c: char) -> bool {
    ('a' <= c <= 'z') || ('A' <= c <= 'Z') || ('0' <= c <= '9')
}

/// `s` with every character that is no letter or digit of ASCII turned into an
/// underscore.
pub open spec fn sanitized(s: Seq<char>) -> Seq<char> {
    s.map_values(
        |c: char|
            if is_alphanumeric(c) {
                c
            } else {
                '_'
            },
    )
}

/// `s` with every character that is no letter or digit of ASCII turned into an
/// underscore.
pub fn sanitize(s: &str) -> (r: String)
    ensures
        r@ == sanitized(s@),
{
    let mut r = String::new();
    let ghost whole = sanitized(s@);
    for c in it: s.chars()
        invariant
            it.seq() == s@,
            whole == sanitized(s@),
            r@ == whole.take(it.index() as int),
    {
        let ghost k = it.index() as int;
        assert(whole.take(k + 1) =~= whole.take(k).push(whole[k]));
        if ('a' <= c && c <= 'z') || ('A' <= c && c <= 'Z') || ('0' <= c && c <= '9') {
            r.push(c);
        } else {
            r.push('_');
        }
    }
    assert(whole.take(whole.len() as int) =~= whole);
    r
}

/// Where a test is, by its name `<file> - <item> (line <n>)`: the file, with
/// underscores, and the line; or `None` for a name of another shape.
pub open spec fn place_of(human: Seq<char>) -> Option<(Seq<char>, Seq<char>)> {
    match text::split_at_last(human, " (line "@) {
        Some((file_and_item, line_part)) => if ")"@.is_suffix_of(line_part) {
            match text::split_at_first(file_and_item, " - "@) {
                Some((file, _)) => Some((sanitized(file), line_part.drop_last())),
                None => None,
            }
        } else {
            None
        },
        None => None,
    }
}

/// Where a test is, by its name.
pub fn locate(human: &str) -> (r: Option<(String, String)>)
    ensures
        text::opt_pair_view(r) == place_of(human@),
{
    match split_last(human, " (line ") {
        Some((file_and_item, line_part)) => {
            if finishes_with(line_part.as_str(), ")") {
                match split_first(file_and_item.as_str(), " - ") {
                    Some((file, _)) => {
                        proof {
                            reveal_strlit(")");
                        }
                        let chars = text::chars_of(line_part.as_str());
                        let line = text::string_of(chars.as_slice(), 0, chars.len() - 1);
                        assert(line@ =~= line_part@.drop_last());
                        Some((sanitize(file.as_str()), line))
                    },
                    None => None,
                }
            } else {
                None
            }
        },
        None => None,
    }
}

/// The directory of the `n`-th test with this name's place.
pub open spec fn mangled(human: Seq<char>, n: nat) -> Seq<char> {
    match place_of(human) {
        Some((file, line)) => file + "_"@ + line + "_"@ + text::decimal(n),
        None => sanitized(human),
    }
}

/// How many tests there were at each place so far.
#[derive(Debug)]
pub struct Counts {
    entries: Vec<((String, String), usize)>,
}

impl Counts {
    /// No place occurs twice.
    #[verifier::type_invariant]
    closed spec fn wf(self) -> bool {
        forall|i: int, j: int|
            0 <= i < j < self.entries@.len() ==> place_view((#[trigger] self.entries@[i]).0)
                != place_view((#[trigger] self.entries@[j]).0)
    }

    /// How many tests there were at a place.
    pub closed spec fn at(self, place: (Seq<char>, Seq<char>)) -> nat {
        if exists|i: int|
            0 <= i < self.entries@.len() && place_view((#[trigger] self.entries@[i]).0) == place {
            let i = choose|i: int|
                0 <= i < self.entries@.len() && place_view((#[trigger] self.entries@[i]).0)
                    == place;
            self.entries@[i].1 as nat
        } else {
            0
        }
    }

    /// No test anywhere.
    pub fn new() -> (r: Self)
        ensures
            forall|place: (Seq<char>, Seq<char>)| #[trigger] r.at(place) == 0,
    {
        Counts { entries: Vec::new() }
    }

    proof fn lemma_at(self, i: int)
        requires
            self.wf(),
            0 <= i < self.entries@.len(),
        ensures
            self.at(place_view(self.entries@[i].0)) == self.entries@[i].1,
    {
        let place = place_view(self.entries@[i].0);
        let k = choose|k: int|
            0 <= k < self.entries@.len() && place_view((#[trigger] self.entries@[k]).0) == place;
        assert(k == i);
    }

    /// Counts a test at a place, and gives the number of those before it.
    pub fn count(&mut self, place: (String, String)) -> (n: usize)
        requires
            old(self).at(place_view(place)) < usize::MAX,
        ensures
            n == old(self).at(place_view(place)),
            final(self).at(place_view(place)) == n + 1,
            forall|other: (Seq<char>, Seq<char>)|
                other != place_view(place) ==> #[trigger] final(self).at(other) == old(self).at(
                    other,
                ),
    {
        proof {
            use_type_invariant(&*self);
        }
        let ghost before = *self;
        let mut entries: Vec<((String, String), usize)> = Vec::new();
        std::mem::swap(&mut entries, &mut self.entries);
        let mut i: usize = 0;
        while i < entries.len()
            invariant
                i <= entries@.len(),
                entries@ == before.entries@,
                before == *old(self),
                before.wf(),
                before.at(place_view(place)) < usize::MAX,
                forall|k: int| 0 <= k < i ==> place_view((#[trigger] entries@[k]).0) != place_view(
                    place,
                ),
            decreases entries@.len() - i,
        {
            if same_text(entries[i].0.0.as_str(), place.0.as_str()) && same_text(
                entries[i].0.1.as_str(),
                place.1.as_str(),
            ) {
                proof {
                    before.lemma_at(i as int);
                }
                let n: usize = entries[i].1;
                entries[i].1 = n + 1;
                *self = Counts { entries };
                proof {
                    assert forall|k: int| 0 <= k < before.entries@.len() implies place_view(
                        (#[trigger] self.entries@[k]).0,
                    ) == place_view(before.entries@[k].0) by {}
                    self.lemma_at(i as int);
                    assert forall|other: (Seq<char>, Seq<char>)|
                        other != place_view(place) implies #[trigger] self.at(other) == before.at(
                        other,
                    ) by {
                        self.lemma_elsewhere(before, i as int, other);
                    }
                }
                return n;
            }
            i += 1;
        }
        let ghost key = place_view(place);
        entries.push((place, 1));
        assert(forall|k: int|
            0 <= k < before.entries@.len() ==> entries@[k] == before.entries@[k]);
        *self = Counts { entries };
        proof {
            let last = before.entries@.len() as int;
            assert(place_view(self.entries@[last].0) == key);
            self.lemma_at(last);
            assert(before.at(key) == 0);
            assert forall|other: (Seq<char>, Seq<char>)| other != key implies #[trigger] self.at(
                other,
            ) == before.at(other) by {
                self.lemma_elsewhere(before, last, other);
            }
        }
        0
    }

    proof fn lemma_elsewhere(self, before: Self, i: int, other: (Seq<char>, Seq<char>))
        requires
            self.wf(),
            before.wf(),
            0 <= i < self.entries@.len(),
            before.entries@.len() <= self.entries@.len() <= before.entries@.len() + 1,
            self.entries@.len() > before.entries@.len() ==> i == before.entries@.len(),
            forall|k: int|
                0 <= k < before.entries@.len() && k != i ==> #[trigger] self.entries@[k]
                    == before.entries@[k],
            i < before.entries@.len() ==> place_view(self.entries@[i].0) == place_view(
                before.entries@[i].0,
            ),
            place_view(self.entries@[i].0) != other,
        ensures
            self.at(other) == before.at(other),
    {
        if exists|k: int|
            0 <= k < before.entries@.len() && place_view((#[trigger] before.entries@[k]).0)
                == other {
            let k = choose|k: int|
                0 <= k < before.entries@.len() && place_view((#[trigger] before.entries@[k]).0)
                    == other;
            assert(self.entries@[k] == before.entries@[k]);
            before.lemma_at(k);
            self.lemma_at(k);
        } else {
            assert forall|k: int| 0 <= k < self.entries@.len() implies place_view(
                (#[trigger] self.entries@[k]).0,
            ) != other by {
                if k != i {
                    assert(place_view(before.entries@[k].0) != other);
                }
            }
        }
    }
}

/// The contents of a place.
pub open spec fn place_view(place: (String, String)) -> (Seq<char>, Seq<char>) {
    (place.0@, place.1@)
}

/// The directory that rustdoc keeps the test with this name in: one for each
/// test at a place, numbered in the order in which rustdoc prints them. A name
/// without a place gives a directory without a number.
pub fn mangle_test_name(human_name: &str, counts: &mut Counts) -> (r: String)
    requires
        place_of(human_name@) matches Some(place) ==> old(counts).at(place) < usize::MAX,
    ensures
        match place_of(human_name@) {
            Some(place) => {
                &&& r@ == mangled(human_name@, old(counts).at(place))
                &&& final(counts).at(place) == old(counts).at(place) + 1
                &&& forall|other: (Seq<char>, Seq<char>)|
                    other != place ==> #[trigger] final(counts).at(other) == old(counts).at(other)
            },
            None => r@ == sanitized(human_name@) && *final(counts) == *old(counts),
        },
{
    match locate(human_name) {
        Some((file, line)) => {
            let mut r = copied(&file);
            r.append("_");
            r.append(line.as_str());
            r.append("_");
            let n: usize = counts.count((file, line));
            r.append(decimal_of(n as u64).as_str());
            r
        },
        None => sanitize(human_name),
    }
}

/// How many of `names` have a place.
pub open spec fn count_at(names: Seq<Seq<char>>, place: (Seq<char>, Seq<char>)) -> nat
    decreases names.len(),
{
    if names.len() == 0 {
        0
    } else {
        count_at(names.drop_last(), place) + if place_of(names.last()) == Some(place) {
            1nat
        } else {
            0nat
        }
    }
}

/// The directory of the `i`-th of `names`.
pub open spec fn directory(names: Seq<Seq<char>>, i: int) -> Seq<char> {
    match place_of(names[i]) {
        Some(place) => mangled(names[i], count_at(names.take(i), place)),
        None => sanitized(names[i]),
    }
}

/// The directories of `names`, each with the name.
pub open spec fn labelled(names: Seq<Seq<char>>) -> Seq<(Seq<char>, Seq<char>)> {
    Seq::new(names.len(), |i: int| (directory(names, i), names[i]))
}

/// The text that says which directory has which name, one line for each.
pub open spec fn metadata_text(entries: Seq<(Seq<char>, Seq<char>)>) -> Seq<char>
    decreases entries.len(),
{
    if entries.len() == 0 {
        Seq::empty()
    } else {
        metadata_text(entries.drop_last()) + entries.last().0 + "="@ + entries.last().1 + "\n"@
    }
}

/// The text that says which directory has which name, for what rustdoc
/// printed.
pub open spec fn metadata_of(stdout: Seq<char>) -> Seq<char> {
    metadata_text(order::collected(labelled(test_names(stdout))))
}

proof fn lemma_count_grows(
    names: Seq<Seq<char>>,
    place: (Seq<char>, Seq<char>),
    i: int,
    j: int,
)
    requires
        0 <= i <= j <= names.len(),
    ensures
        count_at(names.take(i), place) <= count_at(names.take(j), place),
    decreases j - i,
{
    if i < j {
        assert(names.take(j).drop_last() =~= names.take(j - 1));
        lemma_count_grows(names, place, i, j - 1);
    }
}

/// The last part after an underscore, and what is before it, can be told from
/// the whole when the part has no underscore in it.
proof fn lemma_last_part(a: Seq<char>, x: Seq<char>, b: Seq<char>, y: Seq<char>)
    requires
        text::free_of(x, '_'),
        text::free_of(y, '_'),
        a + "_"@ + x == b + "_"@ + y,
    ensures
        a == b,
        x == y,
{
    reveal_strlit("_");
    let s = a + "_"@ + x;
    let t = b + "_"@ + y;
    if x.len() < y.len() {
        let i = s.len() - 1 - x.len();
        assert(s[i] == '_');
        assert(t[i] == y[i - b.len() - 1]);
    } else if y.len() < x.len() {
        let i = t.len() - 1 - y.len();
        assert(t[i] == '_');
        assert(s[i] == x[i - a.len() - 1]);
    }
    assert(a =~= s.take(a.len() as int));
    assert(b =~= t.take(b.len() as int));
    assert(x =~= s.skip(a.len() as int + 1));
    assert(y =~= t.skip(b.len() as int + 1));
}

proof fn lemma_mangled_apart(
    first: (Seq<char>, Seq<char>),
    m: nat,
    second: (Seq<char>, Seq<char>),
    n: nat,
)
    requires
        text::free_of(first.1, '_'),
        text::free_of(second.1, '_'),
        first.0 + "_"@ + first.1 + "_"@ + text::decimal(m) == second.0 + "_"@ + second.1 + "_"@
            + text::decimal(n),
    ensures
        first == second,
        m == n,
{
    text::lemma_decimal_digits(m);
    text::lemma_decimal_digits(n);
    lemma_last_part(
        first.0 + "_"@ + first.1,
        text::decimal(m),
        second.0 + "_"@ + second.1,
        text::decimal(n),
    );
    text::lemma_decimal_injective(m, n);
    lemma_last_part(first.0, first.1, second.0, second.1);
}

/// Whether a name has a place whose line has no underscore in it, as every
/// number has none.
pub open spec fn is_placed(human: Seq<char>) -> bool {
    place_of(human) matches Some(place) && text::free_of(place.1, '_')
}

/// No two tests that have a place share a directory, not even at the same
/// place.
pub proof fn lemma_directories_apart(names: Seq<Seq<char>>, i: int, j: int)
    requires
        0 <= i < names.len(),
        0 <= j < names.len(),
        i != j,
        is_placed(names[i]),
        is_placed(names[j]),
    ensures
        directory(names, i) != directory(names, j),
{
    let p = place_of(names[i])->Some_0;
    let q = place_of(names[j])->Some_0;
    let m = count_at(names.take(i), p);
    let n = count_at(names.take(j), q);
    if directory(names, i) == directory(names, j) {
        lemma_mangled_apart(p, m, q, n);
        let (a, b) = if i < j {
            (i, j)
        } else {
            (j, i)
        };
        assert(names.take(a + 1).drop_last() =~= names.take(a));
        assert(names.take(a + 1).last() == names[a]);
        lemma_count_grows(names, p, a + 1, b);
    }
}

/// The directories of `names`, each with the name.
pub fn label_names(names: Vec<String>) -> (r: Vec<(String, String)>)
    ensures
        string_map::pair_views(r@) == labelled(text::views(names@)),
{
    let ghost all = text::views(names@);
    let mut counts = Counts::new();
    let mut r: Vec<(String, String)> = Vec::new();
    let mut i: usize = 0;
    while i < names.len()
        invariant
            i <= names@.len(),
            all == text::views(names@),
            r@.len() == i,
            forall|place: (Seq<char>, Seq<char>)|
                #![trigger counts.at(place)]
                counts.at(place) == count_at(all.take(i as int), place) && counts.at(place) <= i,
            forall|k: int|
                0 <= k < i ==> #[trigger] string_map::pair_views(r@)[k] == labelled(all)[k],
        decreases names@.len() - i,
    {
        let ghost before = r@;
        assert(all.take(i + 1).drop_last() =~= all.take(i as int));
        assert(all.take(i + 1).last() == names@[i as int]@);
        let ghost old_counts = counts;
        let dir = mangle_test_name(names[i].as_str(), &mut counts);
        proof {
            assert forall|place: (Seq<char>, Seq<char>)|
                #![trigger counts.at(place)]
                counts.at(place) == count_at(all.take(i + 1), place) && counts.at(place) <= i
                    + 1 by {
                assert(old_counts.at(place) == count_at(all.take(i as int), place));
            }
        }
        r.push((dir, copied(&names[i])));
        proof {
            assert forall|k: int| 0 <= k < i + 1 implies #[trigger] string_map::pair_views(r@)[k]
                == labelled(all)[k] by {
                if k < i {
                    assert(string_map::pair_views(before)[k] == labelled(all)[k]);
                }
            }
        }
        i += 1;
    }
    assert(string_map::pair_views(r@) =~= labelled(all));
    r
}

/// The text that says which directory has which name, for what rustdoc
/// printed: sorted by the directories, so that it does not change from one
/// build to the next.
pub fn test_metadata(stdout: &str) -> (r: String)
    ensures
        r@ == metadata_of(stdout@),
{
    let names = parse_test_names(stdout);
    let list = label_names(names);
    assert(order::keys(list@) =~= string_map::pair_views(list@));
    let entries = SortedSet::from_list(list).into_list();
    let ghost all = order::keys(entries@);
    let mut content = String::new();
    let mut i: usize = 0;
    assert(all.take(0) =~= Seq::empty());
    assert(content@ =~= Seq::empty());
    while i < entries.len()
        invariant
            i <= entries@.len(),
            all == order::keys(entries@),
            content@ == metadata_text(all.take(i as int)),
        decreases entries@.len() - i,
    {
        content.append(entries[i].0.as_str());
        content.append("=");
        content.append(entries[i].1.as_str());
        content.append("\n");
        assert(all.take(i + 1).drop_last() =~= all.take(i as int));
        assert(all.take(i + 1).last() == (entries@[i as int].0@, entries@[i as int].1@));
        i += 1;
    }
    assert(all.take(i as int) =~= all);
    content
}

// ---------------------------------------------------------------------------
// What is printed
// ---------------------------------------------------------------------------

/// Whether `needle` occurs in `haystack` at position `i`.
pub open spec fn occurs_at(haystack: Seq<u8>, needle: Seq<u8>, i: int) -> bool {
    &&& 0 <= i
    &&& i + needle.len() <= haystack.len()
    &&& forall|j: int| 0 <= j < needle.len() ==> haystack[i + j] == #[trigger] needle[j]
}

/// Whether `needle` occurs in `haystack`.
pub fn contains_subslice(haystack: &[u8], needle: &[u8]) -> (r: bool)
    requires
        needle@.len() > 0,
    ensures
        r == exists|i: int| occurs_at(haystack@, needle@, i),
{
    let n: usize = haystack.len();
    if needle.len() > n {
        return false;
    }
    let mut i: usize = 0;
    while i <= n - needle.len()
        invariant
            n == haystack@.len(),
            0 < needle@.len() <= haystack@.len(),
            i <= haystack@.len() - needle@.len() + 1,
            forall|k: int| 0 <= k < i ==> !occurs_at(haystack@, needle@, k),
        decreases haystack@.len() - i,
    {
        let mut j: usize = 0;
        while j < needle.len() && haystack[i + j] == needle[j]
            invariant
                j <= needle@.len(),
                n == haystack@.len(),
                i + needle@.len() <= n,
                forall|k: int| 0 <= k < j ==> haystack@[i + k] == #[trigger] needle@[k],
            decreases needle@.len() - j,
        {
            j += 1;
        }
        if j == needle.len() {
            assert(occurs_at(haystack@, needle@, i as int));
            return true;
        }
        assert(haystack@[i + j] != needle@[j as int]);
        i += 1;
    }
    false
}

/// The bytes of `warning:`.
pub open spec fn warning_bytes() -> Seq<u8> {
    seq![0x77, 0x61, 0x72, 0x6e, 0x69, 0x6e, 0x67, 0x3a]
}

/// Whether a line has a warning in it.
pub fn line_has_warning(line: &[u8]) -> (r: bool)
    ensures
        r == exists|i: int| occurs_at(line@, warning_bytes(), i),
{
    let needle: Vec<u8> = vec![0x77, 0x61, 0x72, 0x6e, 0x69, 0x6e, 0x67, 0x3a];
    assert(needle@ =~= warning_bytes());
    contains_subslice(line, needle.as_slice())
}

/// What the wrapper ends with: its status, which is that of the command or 1
/// when it has none, and whether it prints what the command printed. It does
/// when the command failed or warned, unless that was printed right away.
pub fn conclude(debug: bool, code: Option<i32>, has_warning: bool, printed: &Vec<u8>) -> (r: (
    i32,
    bool,
))
    ensures
        r.0 == (match code {
            Some(c) => c,
            None => 1i32,
        }),
        r.1 == (!debug && (r.0 != 0 || has_warning) && printed@.len() > 0),
{
    let code: i32 = match code {
        Some(c) => c,
        None => 1,
    };
    (code, !debug && (code != 0 || has_warning) && printed.len() > 0)
}

// ---------------------------------------------------------------------------
// What is read and written
// ---------------------------------------------------------------------------

/// Everything behind the first `--` is the command, a path counts until another
/// one follows, and an argument that is neither is refused.
pub proof fn lemma_wrapper_args(
    rest: Seq<Seq<char>>,
    path: Option<Seq<char>>,
    file: Seq<char>,
    other: Seq<char>,
)
    requires
        other != "--"@,
        other != "--test-metadata"@,
    ensures
        parsed_args(seq!["--"@] + rest, path) == Ok::<
            (Option<Seq<char>>, Seq<Seq<char>>),
            Seq<char>,
        >((path, rest)),
        parsed_args(seq!["--test-metadata"@, file] + rest, path) == parsed_args(rest, Some(file)),
        parsed_args(seq!["--test-metadata"@], path) == Ok::<
            (Option<Seq<char>>, Seq<Seq<char>>),
            Seq<char>,
        >((None, Seq::empty())),
        parsed_args(seq![other] + rest, path) == Err::<
            (Option<Seq<char>>, Seq<Seq<char>>),
            Seq<char>,
        >(other),
        parsed_args(Seq::empty(), path) == Ok::<(Option<Seq<char>>, Seq<Seq<char>>), Seq<char>>(
            (path, Seq::empty()),
        ),
{
    reveal_strlit("--");
    reveal_strlit("--test-metadata");
    assert("--"@.len() != "--test-metadata"@.len());
    let dashes = seq!["--"@] + rest;
    assert(dashes[0] == "--"@);
    assert(dashes.skip(1) =~= rest);
    let meta = seq!["--test-metadata"@, file] + rest;
    assert(meta[0] == "--test-metadata"@);
    assert(meta[1] == file);
    assert(meta.skip(2) =~= rest);
    assert((seq![other] + rest)[0] == other);
}

/// A test that rustdoc tells of by a line `test <name> ... <status>` is found by
/// its name, also where the name has dots in it.
pub proof fn lemma_printed_name(name: Seq<char>, status: Seq<char>)
    requires
        text::is_last_at(name + " ... "@ + status, " ... "@, name.len() as int),
    ensures
        name_in_line("test "@ + name + " ... "@ + status) == Some(name),
{
    let line = "test "@ + name + " ... "@ + status;
    let rest = name + " ... "@ + status;
    text::lemma_split_at_last(name, " ... "@, status, rest);
    assert(line =~= "test "@ + rest);
    assert(line.take("test "@.len() as int) =~= "test "@);
    assert(line.skip("test "@.len() as int) =~= rest);
}

/// A line without the word `test` at its start, or without the dots, has no name.
pub proof fn lemma_no_name(line: Seq<char>, rest: Seq<char>)
    ensures
        !"test "@.is_prefix_of(line) ==> name_in_line(line) is None,
        text::is_absent(rest, " ... "@) ==> name_in_line("test "@ + rest) is None,
{
    text::lemma_split_at_last(rest, " ... "@, rest, rest);
    let whole = "test "@ + rest;
    assert(whole.skip("test "@.len() as int) =~= rest);
    assert(whole.take("test "@.len() as int) =~= "test "@);
}

/// The names come in the order of their lines, and none of them is lost.
pub proof fn lemma_names_in_order(a: Seq<Seq<char>>, b: Seq<Seq<char>>, line: Seq<char>)
    ensures
        names_in_lines(a + b) == names_in_lines(a) + names_in_lines(b),
        name_in_line(line) matches Some(name) ==> names_in_lines(seq![line]) == seq![name],
        name_in_line(line) is None ==> names_in_lines(seq![line]).len() == 0,
    decreases b.len(),
{
    assert(seq![line].drop_last() =~= Seq::empty());
    assert(names_in_lines(Seq::empty()) =~= Seq::empty());
    if let Some(name) = name_in_line(line) {
        assert(names_in_lines(seq![line]) =~= seq![name]);
    }
    if b.len() == 0 {
        assert(a + b =~= a);
        assert(names_in_lines(a) + names_in_lines(b) =~= names_in_lines(a));
    } else {
        assert((a + b).drop_last() =~= a + b.drop_last());
        assert((a + b).last() == b.last());
        lemma_names_in_order(a, b.drop_last(), line);
        assert(names_in_lines(a + b) =~= names_in_lines(a) + names_in_lines(b));
    }
}

/// Letters and digits stay as they are in a directory, and everything else
/// becomes an underscore.
pub proof fn lemma_sanitized(s: Seq<char>, i: int)
    requires
        0 <= i < s.len(),
    ensures
        sanitized(s).len() == s.len(),
        'a' <= s[i] <= 'z' || 'A' <= s[i] <= 'Z' || '0' <= s[i] <= '9' ==> sanitized(s)[i] == s[i],
        !('a' <= s[i] <= 'z' || 'A' <= s[i] <= 'Z' || '0' <= s[i] <= '9') ==> sanitized(s)[i]
            == '_',
{
}

/// The name `<file> - <item> (line <n>)` gives the file and the line.
pub proof fn lemma_place(file: Seq<char>, item: Seq<char>, line: Seq<char>)
    requires
        text::is_first_at(file + " - "@ + item, " - "@, file.len() as int),
        text::is_last_at(
            (file + " - "@ + item) + " (line "@ + (line + ")"@),
            " (line "@,
            (file + " - "@ + item).len() as int,
        ),
    ensures
        place_of(file + " - "@ + item + " (line "@ + line + ")"@) == Some((sanitized(file), line)),
{
    reveal_strlit(")");
    let human = file + " - "@ + item + " (line "@ + line + ")"@;
    let place = file + " - "@ + item;
    let tail = line + ")"@;
    assert(human =~= place + " (line "@ + tail);
    text::lemma_split_at_last(place, " (line "@, tail, tail);
    text::lemma_split_at_first(file, " - "@, item, item);
    assert(tail.drop_last() =~= line);
    assert(tail.subrange(tail.len() - 1, tail.len() as int) =~= ")"@);
}

/// A name without a line, or without a file, has no place.
pub proof fn lemma_no_place(human: Seq<char>, before: Seq<char>, line: Seq<char>)
    ensures
        text::is_absent(human, " (line "@) ==> place_of(human) is None,
        text::is_absent(before, " - "@) && text::is_last_at(
            before + " (line "@ + line,
            " (line "@,
            before.len() as int,
        ) ==> place_of(before + " (line "@ + line) is None,
        !")"@.is_suffix_of(line) && text::is_last_at(
            before + " (line "@ + line,
            " (line "@,
            before.len() as int,
        ) ==> place_of(before + " (line "@ + line) is None,
{
    text::lemma_split_at_last(before, " (line "@, line, human);
    text::lemma_split_at_first(before, " - "@, before, before);
}

proof fn lemma_count_at(names: Seq<Seq<char>>, place: (Seq<char>, Seq<char>))
    ensures
        count_at(names, place) == names.filter(|n: Seq<char>| place_of(n) == Some(place)).len(),
    decreases names.len(),
{
    reveal(Seq::filter);
    if names.len() > 0 {
        lemma_count_at(names.drop_last(), place);
    }
}

/// A test is kept in a directory with the name of its file, its line and the
/// number of tests before it at the same place; a test without a place in one
/// with its whole name.
pub proof fn lemma_directory_name(names: Seq<Seq<char>>, i: int, file: Seq<char>, line: Seq<char>)
    requires
        0 <= i < names.len(),
    ensures
        place_of(names[i]) == Some((file, line)) ==> directory(names, i) == file + "_"@ + line
            + "_"@ + text::decimal(
            names.take(i).filter(|n: Seq<char>| place_of(n) == Some((file, line))).len(),
        ),
        place_of(names[i]) is None ==> directory(names, i) == sanitized(names[i]),
        labelled(names).len() == names.len(),
        labelled(names)[i] == (directory(names, i), names[i]),
{
    lemma_count_at(names.take(i), (file, line));
}

/// Every directory has a line with its name in the text.
pub proof fn lemma_metadata_line(
    before: Seq<(Seq<char>, Seq<char>)>,
    entry: (Seq<char>, Seq<char>),
    after: Seq<(Seq<char>, Seq<char>)>,
)
    ensures
        metadata_text(Seq::empty()) == Seq::<char>::empty(),
        metadata_text(before + seq![entry] + after) == metadata_text(before) + entry.0 + "="@
            + entry.1 + "\n"@ + metadata_text(after),
    decreases after.len(),
{
    let all = before + seq![entry] + after;
    if after.len() == 0 {
        assert(all.drop_last() =~= before);
        assert(all.last() == entry);
        assert(metadata_text(all) =~= metadata_text(before) + entry.0 + "="@ + entry.1 + "\n"@
            + metadata_text(after));
    } else {
        let d = after.drop_last();
        assert(all.drop_last() =~= before + seq![entry] + d);
        assert(all.last() == after.last());
        lemma_metadata_line(before, entry, d);
        assert(metadata_text(all) =~= metadata_text(before) + entry.0 + "="@ + entry.1 + "\n"@
            + metadata_text(after));
    }
}

/// A run of bytes occurs in every text around it, and nowhere but where the text
/// has these bytes.
pub proof fn lemma_occurrence(p: Seq<u8>, needle: Seq<u8>, q: Seq<u8>, haystack: Seq<u8>, i: int)
    ensures
        occurs_at(p + needle + q, needle, p.len() as int),
        occurs_at(haystack, needle, i) ==> 0 <= i && i + needle.len() <= haystack.len()
            && haystack.subrange(i, i + needle.len()) == needle,
{
    if occurs_at(haystack, needle, i) {
        assert(haystack.subrange(i, i + needle.len()) =~= needle) by {
            assert forall|j: int| 0 <= j < needle.len() implies haystack.subrange(
                i,
                i + needle.len(),
            )[j] == needle[j] by {
                assert(haystack[i + j] == needle[j]);
            }
        }
    }
}

/// The bytes that tell of a warning are those of the text `warning:`.
pub proof fn lemma_warning_bytes(i: int)
    requires
        0 <= i < "warning:"@.len(),
    ensures
        warning_bytes().len() == "warning:"@.len(),
        warning_bytes()[i] as int == "warning:"@[i] as int,
{
    reveal_strlit("warning:");
    assert(i == 0 || i == 1 || i == 2 || i == 3 || i == 4 || i == 5 || i == 6 || i == 7);
}

/// An unknown argument is named, and without a command the usage is told.
pub proof fn lemma_error_texts(flag: String)
    ensures
        WrapperError::UnknownFlag(flag).text() == "Unknown wrapper flag: "@ + flag@,
        WrapperError::NoCommand.text()
            == "Usage: rustdoc_compile_wrapper [--test-metadata FILE] -- <command> [args...]"@,
{
}

/// The wrapper ends with the status of the command, or with 1 where the command
/// has none. What was printed is shown where the command failed or warned, but
/// not where there is nothing to show or where it was shown right away.
pub proof fn lemma_conclusion(
    debug: bool,
    code: Option<i32>,
    has_warning: bool,
    printed: &Vec<u8>,
    r: (i32, bool),
)
    requires
        call_ensures(conclude, (debug, code, has_warning, printed), r),
    ensures
        code matches Some(c) ==> r.0 == c,
        code is None ==> r.0 == 1,
        debug || printed@.len() == 0 ==> !r.1,
        code == Some(0i32) && !has_warning ==> !r.1,
        !debug && printed@.len() > 0 && (has_warning || code != Some(0i32)) ==> r.1,
{
}

/// The command is the first of the arguments behind the dashes, and the others
/// are its own.
pub proof fn lemma_command(
    args: &WrapperArgs,
    r: Result<(String, Vec<String>), WrapperError>,
)
    requires
        call_ensures(WrapperArgs::command, (args,), r),
    ensures
        r is Err <==> args.child_args@.len() == 0,
        r matches Ok(p) ==> text::views(args.child_args@) == seq![p.0@] + text::views(p.1@),
        r matches Err(e) ==> e == WrapperError::NoCommand,
{
    if let Ok(p) = r {
        assert(text::views(args.child_args@) =~= seq![p.0@] + text::views(p.1@)) by {
            let all = text::views(args.child_args@);
            assert(all[0] == args.child_args@[0]@);
            assert(all =~= seq![all[0]] + all.skip(1));
        }
    }
}

} // verus!
