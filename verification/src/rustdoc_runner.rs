//! What happens around a run of compiled doc tests: which files are tests, what
//! they are called, and the report of the run.
use vstd::prelude::*;
use crate::order;
use crate::order::{sort_list, Ordered};
use crate::paths;
use crate::rustdoc_wrapper;
use crate::string_map;
use crate::string_map::StringMap;
use crate::text;
use crate::text::{
    copied, copied_list, decimal_of, lines_of, same_text, signed_decimal_of, split_first, trim_of,
};

verus! {

// ---------------------------------------------------------------------------
// The tests
// ---------------------------------------------------------------------------

/// What is in a directory.
#[derive(Debug)]
pub enum Entry {
    /// A file, with its name.
    File(String),
    /// A directory, with its name and what is in it. One that cannot be read
    /// is empty.
    Directory(String, Vec<Entry>),
}

/// Whether a file with this name is a test.
pub open spec fn is_test_name(name: Seq<char>) -> bool {
    name == "rust_out"@ || name == "rust_out.exe"@
}

/// The tests in what is at `at`: itself, or what is in the directory. Each is
/// given by the names on the way to it.
pub open spec fn tests_at(at: Seq<Seq<char>>, entry: Entry) -> Seq<Seq<Seq<char>>>
    decreases entry,
{
    match entry {
        Entry::File(name) => if is_test_name(name@) {
            seq![at.push(name@)]
        } else {
            Seq::empty()
        },
        Entry::Directory(name, entries) => tests_in(at.push(name@), entries@),
    }
}

/// The tests in a directory that is reached by the names `at`.
pub open spec fn tests_in(at: Seq<Seq<char>>, entries: Seq<Entry>) -> Seq<Seq<Seq<char>>>
    decreases entries,
{
    if entries.len() == 0 {
        Seq::empty()
    } else {
        tests_in(at, entries.drop_last()) + tests_at(at, entries.last())
    }
}

/// Adds the tests in a directory that is reached by the names `at`.
pub fn collect_rust_out(at: &Vec<String>, entries: &Vec<Entry>, bins: &mut Vec<Vec<String>>)
    ensures
        order::keys(final(bins)@) == order::keys(old(bins)@) + tests_in(
            text::views(at@),
            entries@,
        ),
    decreases entries,
{
    let ghost before = order::keys(bins@);
    let ghost here = text::views(at@);
    let mut i: usize = 0;
    assert(entries@.take(0) =~= Seq::empty());
    assert(before + tests_in(here, entries@.take(0)) =~= before);
    while i < entries.len()
        invariant
            i <= entries@.len(),
            here == text::views(at@),
            before == order::keys(old(bins)@),
            order::keys(bins@) == before + tests_in(here, entries@.take(i as int)),
        decreases entries@.len() - i,
    {
        let ghost so_far = order::keys(bins@);
        assert(entries@.take(i + 1).drop_last() =~= entries@.take(i as int));
        assert(entries@.take(i + 1).last() == entries@[i as int]);
        match &entries[i] {
            Entry::Directory(name, inner) => {
                let mut below = copied_list(at);
                below.push(copied(name));
                assert(text::views(below@) =~= here.push(name@));
                collect_rust_out(&below, inner, bins);
            },
            Entry::File(name) => {
                if same_text(name.as_str(), "rust_out") || same_text(
                    name.as_str(),
                    "rust_out.exe",
                ) {
                    let mut bin = copied_list(at);
                    bin.push(copied(name));
                    assert(order::keys(bin@) =~= here.push(name@));
                    let ghost all = bins@;
                    let ghost one = bin@;
                    bins.push(bin);
                    assert(order::keys(bins@) =~= order::keys(all).push(order::keys(one)));
                } else {
                    assert(order::keys(bins@) =~= so_far + Seq::empty());
                }
            },
        }
        assert(order::keys(bins@) =~= so_far + tests_at(here, entries@[i as int]));
        i += 1;
        assert(order::keys(bins@) =~= before + tests_in(here, entries@.take(i as int)));
    }
    assert(entries@.take(i as int) =~= entries@);
}

/// The tests in a directory, in the order of their paths.
pub fn find_test_binaries(entries: &Vec<Entry>) -> (r: Vec<Vec<String>>)
    ensures
        order::is_sorting(order::keys(r@), tests_in(Seq::empty(), entries@)),
{
    let mut bins: Vec<Vec<String>> = Vec::new();
    let at: Vec<String> = Vec::new();
    assert(text::views(at@) =~= Seq::empty());
    assert(order::keys(bins@) =~= Seq::empty());
    collect_rust_out(&at, entries, &mut bins);
    assert(order::keys(bins@) =~= tests_in(Seq::empty(), entries@));
    sort_list(bins)
}

// ---------------------------------------------------------------------------
// The names of the tests
// ---------------------------------------------------------------------------

/// The directory and the name in every line that has an equals sign.
pub open spec fn name_entries(lines: Seq<Seq<char>>) -> Seq<(Seq<char>, Seq<char>)>
    decreases lines.len(),
{
    if lines.len() == 0 {
        Seq::empty()
    } else {
        let before = name_entries(lines.drop_last());
        match text::split_at_first(lines.last(), "="@) {
            Some(p) => before.push(p),
            None => before,
        }
    }
}

/// The names of the tests by their directories.
pub open spec fn name_map(content: Seq<char>) -> Seq<(Seq<char>, Seq<char>)> {
    string_map::gathered(name_entries(text::lines(content)))
}

/// The names of the tests by their directories, where `content` is the text
/// that says which directory has which name. There are none without it.
pub fn load_test_name_map(content: &Option<String>) -> (r: StringMap)
    ensures
        r@ == (match content {
            Some(c) => name_map(c@),
            None => Seq::empty(),
        }),
{
    match content {
        Some(c) => {
            let lines = lines_of(c.as_str());
            let ghost all = text::views(lines@);
            let mut pairs: Vec<(String, String)> = Vec::new();
            let mut i: usize = 0;
            assert(all.take(0) =~= Seq::empty());
            assert(string_map::pair_views(pairs@) =~= Seq::empty());
            while i < lines.len()
                invariant
                    i <= lines@.len(),
                    all == text::views(lines@),
                    string_map::pair_views(pairs@) == name_entries(all.take(i as int)),
                decreases lines@.len() - i,
            {
                let ghost before = pairs@;
                assert(all.take(i + 1).drop_last() =~= all.take(i as int));
                assert(all.take(i + 1).last() == lines@[i as int]@);
                match split_first(lines[i].as_str(), "=") {
                    Some(p) => {
                        pairs.push(p);
                        assert(string_map::pair_views(pairs@) =~= string_map::pair_views(
                            before,
                        ).push((p.0@, p.1@)));
                    },
                    None => {},
                }
                i += 1;
            }
            assert(all.take(i as int) =~= all);
            StringMap::from_pairs(pairs)
        },
        None => StringMap::new(),
    }
}

/// Whether a directory and its name can be told from their line: the
/// directory has no equals sign in it, and the name does not end with a
/// carriage return.
pub open spec fn is_writable(entry: (Seq<char>, Seq<char>)) -> bool {
    &&& text::free_of(entry.0, '=')
    &&& entry.1.len() > 0 ==> entry.1.last() != '\r'
}

/// Whether a directory and its name fit into a line.
spec fn is_one_line(entry: (Seq<char>, Seq<char>)) -> bool {
    text::free_of(entry.0, '\n') && text::free_of(entry.1, '\n')
}

proof fn lemma_lines_of_metadata(entries: Seq<(Seq<char>, Seq<char>)>)
    requires
        forall|i: int|
            0 <= i < entries.len() ==> is_writable(#[trigger] entries[i]) && is_one_line(
                entries[i],
            ),
    ensures
        text::lines(rustdoc_wrapper::metadata_text(entries)).len() == entries.len(),
        name_entries(text::lines(rustdoc_wrapper::metadata_text(entries))) == entries,
        rustdoc_wrapper::metadata_text(entries).len() > 0 ==> rustdoc_wrapper::metadata_text(
            entries,
        ).last() == '\n',
    decreases entries.len(),
{
    reveal_strlit("=");
    reveal_strlit("\n");
    let s = rustdoc_wrapper::metadata_text(entries);
    if entries.len() == 0 {
        assert(text::lines(s) =~= Seq::empty());
        assert(name_entries(text::lines(s)) =~= entries);
    } else {
        let before = entries.drop_last();
        let e = entries.last();
        assert forall|i: int| 0 <= i < before.len() implies is_writable(#[trigger] before[i])
            && is_one_line(before[i]) by {
            assert(is_writable(entries[i]));
        }
        lemma_lines_of_metadata(before);
        let head = rustdoc_wrapper::metadata_text(before);
        let line = e.0 + "="@ + e.1;
        assert(is_writable(entries[entries.len() - 1]));
        assert(text::free_of(line, '\n'));
        assert(line.last() != '\r');
        assert(s =~= head + line.push('\n'));
        text::lemma_lines_push(head, line, 0);
        let lines = text::lines(s);
        assert(lines.drop_last() =~= text::lines(head));
        assert("="@ =~= seq!['=']);
        assert forall|j: int| 0 <= j < e.0.len() implies #[trigger] line[j] != '=' by {
            assert(line[j] == e.0[j]);
        }
        text::lemma_find_char(line, '=', 0, e.0.len() as int);
        assert(line.take(e.0.len() as int) =~= e.0);
        assert(line.skip(e.0.len() as int + 1) =~= e.1);
        assert(name_entries(lines) =~= before.push(e));
        assert(before.push(e) =~= entries);
    }
}

proof fn lemma_names_free(lines: Seq<Seq<char>>, stdout: Seq<char>, i: int)
    requires
        lines.is_prefix_of(text::lines(stdout)),
        0 <= i < rustdoc_wrapper::names_in_lines(lines).len(),
    ensures
        text::free_of(rustdoc_wrapper::names_in_lines(lines)[i], '\n'),
    decreases lines.len(),
{
    if lines.len() > 0 {
        let before = rustdoc_wrapper::names_in_lines(lines.drop_last());
        if i < before.len() {
            lemma_names_free(lines.drop_last(), stdout, i);
        } else {
            let k = lines.len() - 1;
            assert(lines[k] == text::lines(stdout)[k]);
            text::lemma_lines_free(stdout, 0, k);
            let rest = text::after_prefix(lines.last(), "test "@)->Some_0;
            text::lemma_find_back(rest, " ... "@, rest.len() as int);
        }
    }
}

proof fn lemma_directory_free(names: Seq<Seq<char>>, i: int)
    requires
        0 <= i < names.len(),
        text::free_of(names[i], '\n'),
    ensures
        text::free_of(rustdoc_wrapper::directory(names, i), '\n'),
{
    let human = names[i];
    match rustdoc_wrapper::place_of(human) {
        Some(place) => {
            reveal_strlit("_");
            reveal_strlit(")");
            text::lemma_find_back(human, " (line "@, human.len() as int);
            let n = rustdoc_wrapper::count_at(names.take(i), place);
            text::lemma_decimal_digits(n);
            let line_part = text::split_at_last(human, " (line "@)->Some_0.1;
            assert(text::free_of(line_part, '\n'));
            assert(text::free_of(place.0, '\n'));
            assert(text::free_of(place.1, '\n'));
            let d = text::decimal(n);
            assert(text::free_of(d, '\n'));
            assert(text::free_of(place.0 + "_"@, '\n'));
            assert(text::free_of(place.0 + "_"@ + place.1, '\n'));
            assert(text::free_of(place.0 + "_"@ + place.1 + "_"@, '\n'));
        },
        None => {},
    }
}

/// Whether every directory of `names` belongs to one name only, and its line
/// can be told apart.
pub open spec fn are_tellable(names: Seq<Seq<char>>) -> bool {
    &&& forall|j: int, k: int|
        0 <= j < names.len() && 0 <= k < names.len() && #[trigger] rustdoc_wrapper::directory(
            names,
            j,
        ) == #[trigger] rustdoc_wrapper::directory(names, k) ==> names[j] == names[k]
    &&& forall|j: int|
        0 <= j < names.len() ==> is_writable(#[trigger] rustdoc_wrapper::labelled(names)[j])
}

proof fn lemma_map_read_back(stdout: Seq<char>)
    requires
        are_tellable(rustdoc_wrapper::test_names(stdout)),
    ensures
        name_map(rustdoc_wrapper::metadata_of(stdout)) == order::collected(
            rustdoc_wrapper::labelled(rustdoc_wrapper::test_names(stdout)),
        ),
        order::sorted(string_map::keys_of(name_map(rustdoc_wrapper::metadata_of(stdout)))),
{
    let names = rustdoc_wrapper::test_names(stdout);
    let all = rustdoc_wrapper::labelled(names);
    let entries = order::collected(all);
    order::lemma_collected(all);
    order::lemma_sorted_distinct(entries);
    assert forall|a: int| 0 <= a < entries.len() implies is_writable(#[trigger] entries[a])
        && is_one_line(entries[a]) by {
        assert(entries.contains(entries[a]));
        assert(all.contains(entries[a]));
        let j = choose|j: int| 0 <= j < all.len() && all[j] == entries[a];
        assert(is_writable(all[j]));
        lemma_names_free(text::lines(stdout), stdout, j);
        lemma_directory_free(names, j);
    }
    lemma_lines_of_metadata(entries);
    let ks = string_map::keys_of(entries);
    assert forall|a: int, b: int| 0 <= a < b < ks.len() implies (#[trigger] ks[a]).before(
        #[trigger] ks[b],
    ) by {
        assert(entries[a].before(entries[b]));
        assert(entries.contains(entries[a]) && entries.contains(entries[b]));
        assert(all.contains(entries[a]) && all.contains(entries[b]));
        let j = choose|j: int| 0 <= j < all.len() && all[j] == entries[a];
        let k = choose|k: int| 0 <= k < all.len() && all[k] == entries[b];
        assert(all[j] == (rustdoc_wrapper::directory(names, j), names[j]));
        assert(all[k] == (rustdoc_wrapper::directory(names, k), names[k]));
        if entries[a].0 == entries[b].0 {
            assert(entries[a] == entries[b]);
        }
    }
    string_map::lemma_gathered_sorted(entries);
}

/// The runner finds the name of every test under its directory in the text
/// that the wrapper wrote, unless two tests of different names share a
/// directory or a line cannot be told apart.
pub proof fn lemma_names_read_back(stdout: Seq<char>, i: int)
    requires
        0 <= i < rustdoc_wrapper::test_names(stdout).len(),
        are_tellable(rustdoc_wrapper::test_names(stdout)),
    ensures
        string_map::lookup(
            name_map(rustdoc_wrapper::metadata_of(stdout)),
            rustdoc_wrapper::directory(rustdoc_wrapper::test_names(stdout), i),
        ) == Some(rustdoc_wrapper::test_names(stdout)[i]),
{
    let names = rustdoc_wrapper::test_names(stdout);
    let all = rustdoc_wrapper::labelled(names);
    let entries = order::collected(all);
    lemma_map_read_back(stdout);
    order::lemma_collected(all);
    let ks = string_map::keys_of(entries);
    let dir = rustdoc_wrapper::directory(names, i);
    assert(all[i] == (dir, names[i]));
    assert(all.contains(all[i]));
    assert(entries.contains(all[i]));
    let a = choose|a: int| 0 <= a < entries.len() && entries[a] == all[i];
    string_map::lemma_lookup(entries, dir);
    match string_map::lookup(entries, dir) {
        Some(w) => {
            let b = choose|b: int|
                0 <= b < entries.len() && #[trigger] entries[b] == (dir, w) && forall|j: int|
                    0 <= j < b ==> (#[trigger] entries[j]).0 != dir;
            if b < a {
                assert(ks[b].before(ks[a]));
                Ordered::irreflexive(dir);
            } else if a < b {
                assert(entries[a].0 != dir);
            }
        },
        None => {
            assert(entries[a].0 != dir);
        },
    }
}

/// The runner finds nothing else in that text: what it finds under some
/// directory is the name of a test with that directory.
pub proof fn lemma_no_other_name(stdout: Seq<char>, dir: Seq<char>)
    requires
        are_tellable(rustdoc_wrapper::test_names(stdout)),
    ensures
        string_map::lookup(name_map(rustdoc_wrapper::metadata_of(stdout)), dir) matches Some(w)
            ==> exists|i: int|
            0 <= i < rustdoc_wrapper::test_names(stdout).len()
                && #[trigger] rustdoc_wrapper::directory(rustdoc_wrapper::test_names(stdout), i)
                == dir && rustdoc_wrapper::test_names(stdout)[i] == w,
{
    let names = rustdoc_wrapper::test_names(stdout);
    let all = rustdoc_wrapper::labelled(names);
    let entries = order::collected(all);
    lemma_map_read_back(stdout);
    order::lemma_collected(all);
    string_map::lemma_lookup(entries, dir);
    match string_map::lookup(entries, dir) {
        Some(w) => {
            let b = choose|b: int| 0 <= b < entries.len() && #[trigger] entries[b] == (dir, w);
            assert(entries.contains(entries[b]));
            assert(all.contains(entries[b]));
            let i = choose|i: int| 0 <= i < all.len() && all[i] == entries[b];
            assert(rustdoc_wrapper::directory(names, i) == dir);
        },
        None => {},
    }
}

/// Whether a name has the shape `<file> - <item> (line <digits>)`.
pub open spec fn is_numbered(human: Seq<char>) -> bool {
    rustdoc_wrapper::place_of(human) matches Some(place) && forall|i: int|
        0 <= i < place.1.len() ==> '0' <= #[trigger] place.1[i] <= '9'
}

proof fn lemma_numbered_tellable(names: Seq<Seq<char>>)
    requires
        forall|i: int| 0 <= i < names.len() ==> is_numbered(#[trigger] names[i]),
    ensures
        are_tellable(names),
        rustdoc_wrapper::labelled(names).no_duplicates(),
{
    assert forall|j: int, k: int|
        0 <= j < names.len() && 0 <= k < names.len()
            && j != k implies #[trigger] rustdoc_wrapper::directory(names, j)
        != #[trigger] rustdoc_wrapper::directory(names, k) by {
        assert(is_numbered(names[j]) && is_numbered(names[k]));
        rustdoc_wrapper::lemma_directories_apart(names, j, k);
    }
    let all = rustdoc_wrapper::labelled(names);
    assert forall|j: int, k: int| 0 <= j < all.len() && 0 <= k < all.len() && j != k implies all[j]
        != all[k] by {
        assert(all[j].0 == rustdoc_wrapper::directory(names, j));
        assert(all[k].0 == rustdoc_wrapper::directory(names, k));
    }
    assert forall|j: int| 0 <= j < names.len() implies is_writable(#[trigger] all[j]) by {
        let human = names[j];
        assert(is_numbered(human));
        let place = rustdoc_wrapper::place_of(human)->Some_0;
        reveal_strlit("_");
        reveal_strlit(")");
        text::lemma_find_back(human, " (line "@, human.len() as int);
        let parts = text::split_at_last(human, " (line "@)->Some_0;
        assert(")"@.is_suffix_of(parts.1));
        assert(parts.1.subrange(parts.1.len() - 1, parts.1.len() as int)[0] == ')');
        assert(human.last() == parts.1.last());
        let n = rustdoc_wrapper::count_at(names.take(j), place);
        text::lemma_decimal_digits(n);
        assert(text::free_of(place.0, '='));
        assert(text::free_of(place.0 + "_"@ + place.1 + "_"@ + text::decimal(n), '='));
    }
}

/// Where every test has a name of the usual shape, the runner finds each test
/// under a directory of its own and nothing else: no name is lost, and none is
/// added.
pub proof fn lemma_numbered_names_read_back(stdout: Seq<char>)
    requires
        forall|i: int|
            0 <= i < rustdoc_wrapper::test_names(stdout).len() ==> is_numbered(
                #[trigger] rustdoc_wrapper::test_names(stdout)[i],
            ),
    ensures
        name_map(rustdoc_wrapper::metadata_of(stdout)).len() == rustdoc_wrapper::test_names(
            stdout,
        ).len(),
        forall|i: int|
            0 <= i < rustdoc_wrapper::test_names(stdout).len() ==> string_map::lookup(
                name_map(rustdoc_wrapper::metadata_of(stdout)),
                #[trigger] rustdoc_wrapper::directory(rustdoc_wrapper::test_names(stdout), i),
            ) == Some(rustdoc_wrapper::test_names(stdout)[i]),
{
    let names = rustdoc_wrapper::test_names(stdout);
    let all = rustdoc_wrapper::labelled(names);
    let entries = order::collected(all);
    lemma_numbered_tellable(names);
    lemma_map_read_back(stdout);
    order::lemma_collected(all);
    order::lemma_sorted_distinct(entries);
    assert(entries.to_set() =~= all.to_set()) by {
        assert forall|e: (Seq<char>, Seq<char>)| entries.to_set().contains(e)
            == all.to_set().contains(e) by {
            assert(entries.contains(e) == all.contains(e));
        }
    }
    entries.unique_seq_to_set();
    all.unique_seq_to_set();
    assert forall|i: int| 0 <= i < names.len() implies string_map::lookup(
        name_map(rustdoc_wrapper::metadata_of(stdout)),
        #[trigger] rustdoc_wrapper::directory(names, i),
    ) == Some(names[i]) by {
        lemma_names_read_back(stdout, i);
    }
}

/// The directory that a test is in, as far as it has a name.
pub open spec fn directory_of(bin: Seq<char>) -> Option<Seq<char>> {
    match paths::parent_of(bin) {
        Some(parent) => paths::name_of(parent),
        None => None,
    }
}

/// What a test in `directory` is called: the name that the map gives for it,
/// and otherwise the directory.
pub open spec fn called(
    directory: Option<Seq<char>>,
    names: Seq<(Seq<char>, Seq<char>)>,
) -> Seq<char> {
    let directory = match directory {
        Some(d) => d,
        None => "unknown"@,
    };
    match string_map::lookup(names, directory) {
        Some(name) => name,
        None => directory,
    }
}

/// What a test in `directory` is called.
pub fn test_name_in(directory: &Option<String>, name_map: &StringMap) -> (r: String)
    ensures
        r@ == called(text::opt_view(*directory), name_map@),
{
    let dir_name = match directory {
        Some(d) => copied(d),
        None => "unknown".to_owned(),
    };
    match name_map.get(dir_name.as_str()) {
        Some(name) => copied(name),
        None => dir_name,
    }
}

/// What the test at `bin` is called.
pub fn test_name_for_bin(bin: &str, name_map: &StringMap) -> (r: String)
    ensures
        r@ == called(directory_of(bin@), name_map@),
{
    let directory = match paths::parent(bin) {
        Some(parent) => paths::file_name(parent.as_str()),
        None => None,
    };
    test_name_in(&directory, name_map)
}

// ---------------------------------------------------------------------------
// The report
// ---------------------------------------------------------------------------

/// What came of a test.
#[derive(Debug, PartialEq, Eq)]
pub struct TestResult {
    pub name: String,
    pub passed: bool,
    pub exit_code: i32,
    pub stdout: String,
    pub stderr: String,
}

/// What came of a test that ended with `code`, if with any, and printed these.
pub fn test_result(
    name: String,
    success: bool,
    code: Option<i32>,
    stdout: String,
    stderr: String,
) -> (r: TestResult)
    ensures
        r == (TestResult {
            name,
            passed: success,
            exit_code: match code {
                Some(c) => c,
                None => 1i32,
            },
            stdout,
            stderr,
        }),
{
    let exit_code: i32 = match code {
        Some(c) => c,
        None => 1,
    };
    TestResult { name, passed: success, exit_code, stdout, stderr }
}

/// The results of the tests that failed.
pub open spec fn failures(results: Seq<TestResult>) -> Seq<TestResult> {
    results.filter(|r: TestResult| !r.passed)
}

/// The names of tests.
pub open spec fn result_names(results: Seq<TestResult>) -> Seq<Seq<char>> {
    results.map_values(|r: TestResult| r.name@)
}

/// One line for each test.
pub open spec fn status_lines(results: Seq<TestResult>) -> Seq<char>
    decreases results.len(),
{
    if results.len() == 0 {
        Seq::empty()
    } else {
        status_lines(results.drop_last()) + "test "@ + results.last().name@ + " ... "@ + (
        if results.last().passed {
            "ok"@
        } else {
            "FAILED"@
        }) + "\n"@
    }
}

/// What is told of a test that failed.
pub open spec fn failure_text(result: TestResult) -> Seq<char> {
    let stdout = text::trimmed(result.stdout@);
    let stderr = text::trimmed(result.stderr@);
    "\n---- "@ + result.name@ + " stdout ----\n"@ + (if stdout.len() > 0 {
        stdout + "\n\n"@
    } else {
        Seq::empty()
    }) + "Test executable failed (exit status: "@ + text::signed_decimal(result.exit_code as int)
        + ").\n\nstderr:\n\n"@ + (if stderr.len() > 0 {
        stderr + "\n"@
    } else {
        Seq::empty()
    }) + "\n"@
}

/// What is told of the tests that failed.
pub open spec fn failure_texts(failed: Seq<TestResult>) -> Seq<char>
    decreases failed.len(),
{
    if failed.len() == 0 {
        Seq::empty()
    } else {
        failure_texts(failed.drop_last()) + failure_text(failed.last())
    }
}

/// The names, one in each line.
pub open spec fn name_lines(names: Seq<Seq<char>>) -> Seq<char>
    decreases names.len(),
{
    if names.len() == 0 {
        Seq::empty()
    } else {
        name_lines(names.drop_last()) + "    "@ + names.last() + "\n"@
    }
}

/// The line before those of the tests.
pub open spec fn header(total: nat) -> Seq<char> {
    "\nrunning "@ + text::decimal(total) + " test"@ + (if total == 1 {
        ""@
    } else {
        "s"@
    }) + "\n"@
}

/// The last line.
pub open spec fn summary(passed: nat, failed: nat, elapsed: Seq<char>) -> Seq<char> {
    (if failed > 0 {
        "\ntest result: FAILED. "@ + text::decimal(passed) + " passed; "@ + text::decimal(failed)
    } else {
        "\ntest result: ok. "@ + text::decimal(passed) + " passed; "@ + "0"@
    }) + " failed; 0 ignored; 0 measured; 0 filtered out; finished in "@ + elapsed + "s\n"@
}

/// The report of a run that took `elapsed` seconds, where `names` are the names
/// of the tests that failed, sorted.
pub open spec fn report_text(
    results: Seq<TestResult>,
    elapsed: Seq<char>,
    names: Seq<Seq<char>>,
) -> Seq<char> {
    let failed = failures(results);
    header(results.len()) + status_lines(results) + (if failed.len() > 0 {
        "\nfailures:\n"@ + failure_texts(failed) + "\nfailures:\n"@ + name_lines(names)
    } else {
        Seq::empty()
    }) + summary((results.len() - failed.len()) as nat, failed.len(), elapsed)
}

/// Whether `report` is the report of a run.
pub open spec fn is_report(
    report: Seq<char>,
    results: Seq<TestResult>,
    elapsed: Seq<char>,
) -> bool {
    exists|names: Seq<Seq<char>>|
        #[trigger] order::is_sorting(names, result_names(failures(results))) && report
            == report_text(results, elapsed, names)
}

fn append_failure(r: &mut String, result: &TestResult)
    ensures
        final(r)@ == old(r)@ + failure_text(*result),
{
    let ghost before = r@;
    r.append("\n---- ");
    r.append(result.name.as_str());
    r.append(" stdout ----\n");
    let stdout = trim_of(result.stdout.as_str());
    if !stdout.as_str().is_empty() {
        r.append(stdout.as_str());
        r.append("\n\n");
    }
    r.append("Test executable failed (exit status: ");
    r.append(signed_decimal_of(result.exit_code).as_str());
    r.append(").\n\nstderr:\n\n");
    let stderr = trim_of(result.stderr.as_str());
    if !stderr.as_str().is_empty() {
        r.append(stderr.as_str());
        r.append("\n");
    }
    r.append("\n");
    assert(r@ =~= before + failure_text(*result));
}

proof fn lemma_failures_push(results: Seq<TestResult>, i: int)
    requires
        0 <= i < results.len(),
    ensures
        failures(results.take(i + 1)) == if results[i].passed {
            failures(results.take(i))
        } else {
            failures(results.take(i)).push(results[i])
        },
        failures(results.take(i)).len() <= i,
{
    reveal(Seq::filter);
    assert(results.take(i + 1).drop_last() =~= results.take(i));
    assert(results.take(i + 1).last() == results[i]);
    lemma_filter_len(results.take(i));
}

proof fn lemma_filter_len(results: Seq<TestResult>)
    ensures
        failures(results).len() <= results.len(),
    decreases results.len(),
{
    reveal(Seq::filter);
    if results.len() > 0 {
        lemma_filter_len(results.drop_last());
    }
}

fn header_of(total: usize) -> (r: String)
    ensures
        r@ == header(total as nat),
{
    let mut r = "\nrunning ".to_owned();
    r.append(decimal_of(total as u64).as_str());
    r.append(" test");
    r.append(
        if total == 1 {
            ""
        } else {
            "s"
        },
    );
    r.append("\n");
    r
}

fn append_names(out: &mut String, names: &Vec<String>)
    ensures
        final(out)@ == old(out)@ + name_lines(text::views(names@)),
{
    let ghost all = text::views(names@);
    let ghost start = out@;
    let mut k: usize = 0;
    assert(all.take(0) =~= Seq::empty());
    assert(out@ =~= start + name_lines(all.take(0)));
    while k < names.len()
        invariant
            k <= names@.len(),
            all == text::views(names@),
            start == old(out)@,
            out@ == start + name_lines(all.take(k as int)),
        decreases names@.len() - k,
    {
        out.append("    ");
        out.append(names[k].as_str());
        out.append("\n");
        assert(all.take(k + 1).drop_last() =~= all.take(k as int));
        assert(all.take(k + 1).last() == names@[k as int]@);
        k += 1;
        assert(out@ =~= start + name_lines(all.take(k as int)));
    }
    assert(all.take(k as int) =~= all);
}

fn summary_of(passed: usize, failed: usize, elapsed: &str) -> (r: String)
    ensures
        r@ == summary(passed as nat, failed as nat, elapsed@),
{
    let mut r = if failed > 0 {
        "\ntest result: FAILED. ".to_owned()
    } else {
        "\ntest result: ok. ".to_owned()
    };
    r.append(decimal_of(passed as u64).as_str());
    r.append(" passed; ");
    if failed > 0 {
        r.append(decimal_of(failed as u64).as_str());
    } else {
        r.append("0");
    }
    r.append(" failed; 0 ignored; 0 measured; 0 filtered out; finished in ");
    r.append(elapsed);
    r.append("s\n");
    r
}

fn append_status(out: &mut String, result: &TestResult)
    ensures
        final(out)@ == old(out)@ + "test "@ + result.name@ + " ... "@ + (if result.passed {
            "ok"@
        } else {
            "FAILED"@
        }) + "\n"@,
{
    out.append("test ");
    out.append(result.name.as_str());
    out.append(" ... ");
    out.append(
        if result.passed {
            "ok"
        } else {
            "FAILED"
        },
    );
    out.append("\n");
}

/// The report of a run that took `elapsed` seconds, in the form that rustdoc
/// gives it, and whether every test passed.
pub fn report(results: &Vec<TestResult>, elapsed: &str) -> (r: (String, bool))
    ensures
        is_report(r.0@, results@, elapsed@),
        r.1 == (failures(results@).len() == 0),
{
    let mut statuses = String::new();
    let mut details = String::new();
    let mut names: Vec<String> = Vec::new();
    let mut failed: usize = 0;
    let mut i: usize = 0;
    assert(results@.take(0) =~= Seq::empty());
    assert(failures(results@.take(0)) =~= Seq::empty()) by {
        reveal(Seq::filter);
    }
    assert(text::views(names@) =~= result_names(Seq::empty()));
    assert(statuses@ =~= status_lines(results@.take(0)));
    assert(details@ =~= failure_texts(Seq::empty()));
    while i < results.len()
        invariant
            i <= results@.len(),
            failed <= i,
            failed == failures(results@.take(i as int)).len(),
            statuses@ == status_lines(results@.take(i as int)),
            details@ == failure_texts(failures(results@.take(i as int))),
            text::views(names@) == result_names(failures(results@.take(i as int))),
        decreases results@.len() - i,
    {
        let ghost before = names@;
        let ghost failed_before = failures(results@.take(i as int));
        assert(results@.take(i + 1).drop_last() =~= results@.take(i as int));
        assert(results@.take(i + 1).last() == results@[i as int]);
        proof {
            lemma_failures_push(results@, i as int);
        }
        let result = &results[i];
        append_status(&mut statuses, result);
        if !result.passed {
            append_failure(&mut details, result);
            names.push(copied(&result.name));
            failed += 1;
            proof {
                let now = failed_before.push(*result);
                assert(now.drop_last() =~= failed_before);
                assert(text::views(names@) =~= text::views(before).push(result.name@));
                assert(result_names(now) =~= result_names(failed_before).push(result.name@));
            }
        }
        i += 1;
    }
    assert(results@.take(i as int) =~= results@);

    let ghost unsorted = names@;
    let names = sort_list(names);
    assert(order::keys(names@) =~= text::views(names@));
    assert(order::keys(unsorted) =~= text::views(unsorted));
    let ghost all = text::views(names@);
    let mut told = String::new();
    if failed > 0 {
        told.append("\nfailures:\n");
        told.append(details.as_str());
        told.append("\nfailures:\n");
        append_names(&mut told, &names);
        assert(told@ =~= "\nfailures:\n"@ + failure_texts(failures(results@))
            + "\nfailures:\n"@ + name_lines(all));
    } else {
        assert(told@ =~= Seq::empty());
    }
    let mut out = header_of(results.len());
    out.append(statuses.as_str());
    out.append(told.as_str());
    out.append(summary_of(results.len() - failed, failed, elapsed).as_str());
    assert(out@ == report_text(results@, elapsed@, all));
    assert(order::is_sorting(all, result_names(failures(results@))));
    (out, failed == 0)
}

// ---------------------------------------------------------------------------
// What a report shows
// ---------------------------------------------------------------------------

/// Whether `part` stands somewhere in `whole`.
pub open spec fn shows(whole: Seq<char>, part: Seq<char>) -> bool {
    exists|before: Seq<char>, after: Seq<char>| whole == #[trigger] (before + part + after)
}

proof fn lemma_shows(whole: Seq<char>, before: Seq<char>, part: Seq<char>, after: Seq<char>)
    requires
        whole == before + part + after,
    ensures
        shows(whole, part),
{
}

/// What stands in a part stands in the whole.
proof fn lemma_shows_more(head: Seq<char>, whole: Seq<char>, tail: Seq<char>, part: Seq<char>)
    requires
        shows(whole, part),
    ensures
        shows(head + whole + tail, part),
{
    let (before, after) = choose|before: Seq<char>, after: Seq<char>|
        whole == #[trigger] (before + part + after);
    assert(head + whole + tail =~= (head + before) + part + (after + tail));
}

/// What stands in a part stands in what the part is followed by others in.
proof fn lemma_shows_amid(
    a: Seq<char>,
    b: Seq<char>,
    c: Seq<char>,
    d: Seq<char>,
    part: Seq<char>,
)
    requires
        shows(b, part),
    ensures
        shows(a + b + c + d, part),
        shows(a + b, part),
{
    lemma_shows_more(a, b, c, part);
    lemma_shows_more(Seq::empty(), a + b + c, d, part);
    assert(Seq::<char>::empty() + (a + b + c) + d =~= a + b + c + d);
    lemma_shows_more(a, b, Seq::empty(), part);
    assert(a + b + Seq::<char>::empty() =~= a + b);
}

/// A part of what stands in a text stands in it.
proof fn lemma_shows_part(
    whole: Seq<char>,
    shown: Seq<char>,
    head: Seq<char>,
    part: Seq<char>,
    tail: Seq<char>,
)
    requires
        shows(whole, shown),
        shown == head + part + tail,
    ensures
        shows(whole, part),
{
    let (before, after) = choose|before: Seq<char>, after: Seq<char>|
        whole == #[trigger] (before + shown + after);
    assert(whole =~= (before + head) + part + (tail + after));
}

proof fn lemma_status_shown(results: Seq<TestResult>, i: int)
    requires
        0 <= i < results.len(),
    ensures
        shows(
            status_lines(results),
            "test "@ + results[i].name@ + " ... "@ + (if results[i].passed {
                "ok"@
            } else {
                "FAILED"@
            }) + "\n"@,
        ),
    decreases results.len(),
{
    let d = results.drop_last();
    let rest = status_lines(d);
    let e = results.last();
    let line = "test "@ + e.name@ + " ... "@ + (if e.passed {
        "ok"@
    } else {
        "FAILED"@
    }) + "\n"@;
    assert(status_lines(results) =~= rest + line);
    if i < d.len() {
        lemma_status_shown(d, i);
        lemma_shows_more(
            Seq::empty(),
            rest,
            line,
            "test "@ + results[i].name@ + " ... "@ + (if results[i].passed {
                "ok"@
            } else {
                "FAILED"@
            }) + "\n"@,
        );
        assert(Seq::<char>::empty() + rest + line =~= rest + line);
    } else {
        lemma_shows(status_lines(results), rest, line, Seq::empty());
        assert(status_lines(results) =~= rest + line + Seq::<char>::empty());
    }
}

proof fn lemma_failure_shown(failed: Seq<TestResult>, i: int)
    requires
        0 <= i < failed.len(),
    ensures
        shows(failure_texts(failed), failure_text(failed[i])),
    decreases failed.len(),
{
    let d = failed.drop_last();
    let rest = failure_texts(d);
    let last = failure_text(failed.last());
    assert(failure_texts(failed) =~= rest + last);
    if i < d.len() {
        lemma_failure_shown(d, i);
        lemma_shows_more(Seq::empty(), rest, last, failure_text(failed[i]));
        assert(Seq::<char>::empty() + rest + last =~= rest + last);
    } else {
        assert(failure_texts(failed) =~= rest + last + Seq::<char>::empty());
        lemma_shows(failure_texts(failed), rest, last, Seq::empty());
    }
}

proof fn lemma_failures_hold(results: Seq<TestResult>, i: int) -> (k: int)
    requires
        0 <= i < results.len(),
        !results[i].passed,
    ensures
        0 <= k < failures(results).len(),
        failures(results)[k] == results[i],
    decreases results.len(),
{
    reveal(Seq::filter);
    let d = results.drop_last();
    if i < d.len() {
        assert(d[i] == results[i]);
        lemma_failures_hold(d, i)
    } else {
        failures(d).len() as int
    }
}

proof fn lemma_report_has_failures(
    report: Seq<char>,
    results: Seq<TestResult>,
    elapsed: Seq<char>,
    part: Seq<char>,
)
    requires
        is_report(report, results, elapsed),
        failures(results).len() > 0,
        shows(failure_texts(failures(results)), part),
    ensures
        shows(report, part),
{
    let failed = failures(results);
    let names = choose|names: Seq<Seq<char>>|
        #[trigger] order::is_sorting(names, result_names(failed)) && report == report_text(
            results,
            elapsed,
            names,
        );
    let told = "\nfailures:\n"@ + failure_texts(failed) + "\nfailures:\n"@ + name_lines(names);
    let last = summary((results.len() - failed.len()) as nat, failed.len(), elapsed);
    assert(report == header(results.len()) + status_lines(results) + told + last);
    lemma_shows_amid(
        "\nfailures:\n"@,
        failure_texts(failed),
        "\nfailures:\n"@,
        name_lines(names),
        part,
    );
    lemma_shows_more(header(results.len()) + status_lines(results), told, last, part);
}

/// A report shows what every failed test wrote to its error output, trimmed, on
/// lines of its own behind the name of the test and the line that announces it,
/// whatever the test wrote to its standard output.
pub proof fn lemma_error_output_shown(
    report: Seq<char>,
    results: Seq<TestResult>,
    elapsed: Seq<char>,
    i: int,
)
    requires
        is_report(report, results, elapsed),
        0 <= i < results.len(),
        !results[i].passed,
        text::trimmed(results[i].stderr@).len() > 0,
    ensures
        shows(
            report,
            "\n---- "@ + results[i].name@ + " stdout ----\n"@ + (if text::trimmed(
                results[i].stdout@,
            ).len() > 0 {
                text::trimmed(results[i].stdout@) + "\n\n"@
            } else {
                Seq::empty()
            }) + "Test executable failed (exit status: "@ + text::signed_decimal(
                results[i].exit_code as int,
            ) + ").\n\nstderr:\n\n"@ + text::trimmed(results[i].stderr@) + "\n"@ + "\n"@,
        ),
{
    let failed = failures(results);
    let k = lemma_failures_hold(results, i);
    let result = results[i];
    lemma_failure_shown(failed, k);
    lemma_report_has_failures(report, results, elapsed, failure_text(result));
    let stdout = text::trimmed(result.stdout@);
    let shown = "\n---- "@ + result.name@ + " stdout ----\n"@ + (if stdout.len() > 0 {
        stdout + "\n\n"@
    } else {
        Seq::empty()
    }) + "Test executable failed (exit status: "@ + text::signed_decimal(result.exit_code as int)
        + ").\n\nstderr:\n\n"@ + text::trimmed(result.stderr@) + "\n"@ + "\n"@;
    assert(failure_text(result) == shown);
}

/// A report shows what every failed test wrote to its standard output, trimmed,
/// under the name of the test, whatever the test wrote to its error output; and
/// the exit status of the test under it.
pub proof fn lemma_standard_output_shown(
    report: Seq<char>,
    results: Seq<TestResult>,
    elapsed: Seq<char>,
    i: int,
)
    requires
        is_report(report, results, elapsed),
        0 <= i < results.len(),
        !results[i].passed,
    ensures
        shows(
            report,
            "\n---- "@ + results[i].name@ + " stdout ----\n"@ + (if text::trimmed(
                results[i].stdout@,
            ).len() > 0 {
                text::trimmed(results[i].stdout@) + "\n\n"@
            } else {
                Seq::empty()
            }) + "Test executable failed (exit status: "@ + text::signed_decimal(
                results[i].exit_code as int,
            ) + ").\n\nstderr:\n\n"@,
        ),
{
    let failed = failures(results);
    let k = lemma_failures_hold(results, i);
    let result = results[i];
    lemma_failure_shown(failed, k);
    lemma_report_has_failures(report, results, elapsed, failure_text(result));
    let stdout = text::trimmed(result.stdout@);
    let stderr = text::trimmed(result.stderr@);
    let shown = "\n---- "@ + result.name@ + " stdout ----\n"@ + (if stdout.len() > 0 {
        stdout + "\n\n"@
    } else {
        Seq::empty()
    }) + "Test executable failed (exit status: "@ + text::signed_decimal(result.exit_code as int)
        + ").\n\nstderr:\n\n"@;
    let tail = (if stderr.len() > 0 {
        stderr + "\n"@
    } else {
        Seq::empty()
    }) + "\n"@;
    assert(failure_text(result) == Seq::empty() + shown + tail);
    lemma_shows_part(report, failure_text(result), Seq::empty(), shown, tail);
}

/// A report has a line for every test, with its name and whether it passed.
pub proof fn lemma_every_test_listed(
    report: Seq<char>,
    results: Seq<TestResult>,
    elapsed: Seq<char>,
    i: int,
)
    requires
        is_report(report, results, elapsed),
        0 <= i < results.len(),
    ensures
        shows(
            report,
            "test "@ + results[i].name@ + " ... "@ + (if results[i].passed {
                "ok"@
            } else {
                "FAILED"@
            }) + "\n"@,
        ),
{
    let failed = failures(results);
    let names = choose|names: Seq<Seq<char>>|
        #[trigger] order::is_sorting(names, result_names(failed)) && report == report_text(
            results,
            elapsed,
            names,
        );
    let line = "test "@ + results[i].name@ + " ... "@ + (if results[i].passed {
        "ok"@
    } else {
        "FAILED"@
    }) + "\n"@;
    lemma_status_shown(results, i);
    let head = header(results.len());
    let told = if failed.len() > 0 {
        "\nfailures:\n"@ + failure_texts(failed) + "\nfailures:\n"@ + name_lines(names)
    } else {
        Seq::empty()
    };
    let last = summary((results.len() - failed.len()) as nat, failed.len(), elapsed);
    assert(report == head + status_lines(results) + told + last);
    lemma_shows_amid(head, status_lines(results), told, last, line);
}

/// Whether two parts stand in `whole`, one behind the other.
pub open spec fn shows_in_turn(whole: Seq<char>, first: Seq<char>, second: Seq<char>) -> bool {
    exists|before: Seq<char>, between: Seq<char>, after: Seq<char>|
        whole == #[trigger] (before + first + between + second + after)
}

proof fn lemma_status_order(results: Seq<TestResult>, i: int, j: int)
    requires
        0 <= i < j < results.len(),
    ensures
        shows_in_turn(
            status_lines(results),
            "test "@ + results[i].name@ + " ... "@,
            "test "@ + results[j].name@ + " ... "@,
        ),
    decreases results.len(),
{
    let d = results.drop_last();
    let rest = status_lines(d);
    let e = results.last();
    let p = "test "@ + results[i].name@ + " ... "@;
    let q = "test "@ + results[j].name@ + " ... "@;
    let outcome = (if e.passed {
        "ok"@
    } else {
        "FAILED"@
    }) + "\n"@;
    assert(status_lines(results) =~= rest + ("test "@ + e.name@ + " ... "@ + outcome));
    if j < d.len() {
        lemma_status_order(d, i, j);
        let (a, b, c) = choose|a: Seq<char>, b: Seq<char>, c: Seq<char>|
            rest == #[trigger] (a + p + b + q + c);
        let tail = c + ("test "@ + e.name@ + " ... "@ + outcome);
        assert(status_lines(results) =~= a + p + b + q + tail);
    } else {
        lemma_status_shown(d, i);
        let told = (if d[i].passed {
            "ok"@
        } else {
            "FAILED"@
        }) + "\n"@;
        assert("test "@ + d[i].name@ + " ... "@ + (if d[i].passed {
            "ok"@
        } else {
            "FAILED"@
        }) + "\n"@ =~= Seq::empty() + p + told);
        lemma_shows_part(rest, Seq::empty() + p + told, Seq::empty(), p, told);
        let (a, b) = choose|a: Seq<char>, b: Seq<char>| rest == #[trigger] (a + p + b);
        assert(status_lines(results) =~= a + p + b + q + outcome);
    }
}

proof fn lemma_turns(
    head: Seq<char>,
    a: Seq<char>,
    p: Seq<char>,
    b: Seq<char>,
    q: Seq<char>,
    c: Seq<char>,
    told: Seq<char>,
    last: Seq<char>,
)
    ensures
        shows_in_turn(head + (a + p + b + q + c) + told + last, p, q),
{
    let whole = head + (a + p + b + q + c) + told + last;
    assert(whole =~= (head + a) + p + b + q + (c + told + last));
}

/// A report lists the tests in the order of their results.
pub proof fn lemma_tests_listed_in_order(
    report: Seq<char>,
    results: Seq<TestResult>,
    elapsed: Seq<char>,
    i: int,
    j: int,
)
    requires
        is_report(report, results, elapsed),
        0 <= i < j < results.len(),
    ensures
        shows_in_turn(
            report,
            "test "@ + results[i].name@ + " ... "@,
            "test "@ + results[j].name@ + " ... "@,
        ),
{
    let failed = failures(results);
    let names = choose|names: Seq<Seq<char>>|
        #[trigger] order::is_sorting(names, result_names(failed)) && report == report_text(
            results,
            elapsed,
            names,
        );
    lemma_status_order(results, i, j);
    let p = "test "@ + results[i].name@ + " ... "@;
    let q = "test "@ + results[j].name@ + " ... "@;
    let (a, b, c) = choose|a: Seq<char>, b: Seq<char>, c: Seq<char>|
        status_lines(results) == #[trigger] (a + p + b + q + c);
    let head = header(results.len());
    let told = if failed.len() > 0 {
        "\nfailures:\n"@ + failure_texts(failed) + "\nfailures:\n"@ + name_lines(names)
    } else {
        Seq::empty()
    };
    let last = summary((results.len() - failed.len()) as nat, failed.len(), elapsed);
    assert(report == head + status_lines(results) + told + last);
    lemma_turns(head, a, p, b, q, c, told, last);
}

proof fn lemma_counts(results: Seq<TestResult>)
    ensures
        failures(results).len() + results.filter(|r: TestResult| r.passed).len() == results.len(),
    decreases results.len(),
{
    reveal(Seq::filter);
    if results.len() > 0 {
        lemma_counts(results.drop_last());
    }
}

proof fn lemma_ends(a: Seq<char>, b: Seq<char>, c: Seq<char>)
    ensures
        a.is_prefix_of(a + b + c),
        c.is_suffix_of(a + b + c),
{
    let s = a + b + c;
    assert(s.subrange(0, a.len() as int) =~= a);
    assert(s.subrange(s.len() - c.len(), s.len() as int) =~= c);
}

proof fn lemma_report_ends(report: Seq<char>, results: Seq<TestResult>, elapsed: Seq<char>)
    requires
        is_report(report, results, elapsed),
    ensures
        header(results.len()).is_prefix_of(report),
        summary(
            results.filter(|r: TestResult| r.passed).len(),
            results.filter(|r: TestResult| !r.passed).len(),
            elapsed,
        ).is_suffix_of(report),
{
    let failed = failures(results);
    lemma_counts(results);
    let names = choose|names: Seq<Seq<char>>|
        #[trigger] order::is_sorting(names, result_names(failed)) && report == report_text(
            results,
            elapsed,
            names,
        );
    let first = header(results.len());
    let last = summary(results.filter(|r: TestResult| r.passed).len(), failed.len(), elapsed);
    let told = if failed.len() > 0 {
        "\nfailures:\n"@ + failure_texts(failed) + "\nfailures:\n"@ + name_lines(names)
    } else {
        Seq::empty()
    };
    assert(report == first + status_lines(results) + told + last);
    let mid = status_lines(results) + told;
    assert(first + status_lines(results) + told + last =~= first + mid + last);
    lemma_ends(first, mid, last);
}

/// A report begins with the number of tests and ends with how many passed and how
/// many failed, and says that the run failed exactly when a test did.
pub proof fn lemma_report_counts(
    report: Seq<char>,
    results: Seq<TestResult>,
    elapsed: Seq<char>,
)
    requires
        is_report(report, results, elapsed),
    ensures
        ("\nrunning "@ + text::decimal(results.len()) + " test"@ + (if results.len() == 1 {
            ""@
        } else {
            "s"@
        }) + "\n"@).is_prefix_of(report),
        results.filter(|r: TestResult| !r.passed).len() > 0 ==> ("\ntest result: FAILED. "@
            + text::decimal(results.filter(|r: TestResult| r.passed).len()) + " passed; "@
            + text::decimal(results.filter(|r: TestResult| !r.passed).len())
            + " failed; 0 ignored; 0 measured; 0 filtered out; finished in "@ + elapsed
            + "s\n"@).is_suffix_of(report),
        results.filter(|r: TestResult| !r.passed).len() == 0 ==> ("\ntest result: ok. "@
            + text::decimal(results.len()) + " passed; "@ + "0"@
            + " failed; 0 ignored; 0 measured; 0 filtered out; finished in "@ + elapsed
            + "s\n"@).is_suffix_of(report),
{
    lemma_counts(results);
    lemma_report_ends(report, results, elapsed);
}

proof fn lemma_name_line_shown(names: Seq<Seq<char>>, i: int)
    requires
        0 <= i < names.len(),
    ensures
        shows(name_lines(names), "    "@ + names[i] + "\n"@),
    decreases names.len(),
{
    let d = names.drop_last();
    let rest = name_lines(d);
    let line = "    "@ + names.last() + "\n"@;
    assert(name_lines(names) =~= rest + line);
    if i < d.len() {
        lemma_name_line_shown(d, i);
        lemma_shows_more(Seq::empty(), rest, line, "    "@ + names[i] + "\n"@);
        assert(Seq::<char>::empty() + rest + line =~= rest + line);
    } else {
        assert(name_lines(names) =~= rest + line + Seq::<char>::empty());
        lemma_shows(name_lines(names), rest, line, Seq::empty());
    }
}

/// The name of every failed test is in the list at the end of a report.
pub proof fn lemma_failed_names_listed(
    report: Seq<char>,
    results: Seq<TestResult>,
    elapsed: Seq<char>,
    i: int,
)
    requires
        is_report(report, results, elapsed),
        0 <= i < results.len(),
        !results[i].passed,
    ensures
        shows(report, "    "@ + results[i].name@ + "\n"@),
{
    let failed = failures(results);
    let k = lemma_failures_hold(results, i);
    let all = result_names(failed);
    let names = choose|names: Seq<Seq<char>>|
        #[trigger] order::is_sorting(names, all) && report == report_text(
            results,
            elapsed,
            names,
        );
    assert(all[k] == results[i].name@);
    assert(all.contains(results[i].name@));
    broadcast use vstd::seq_lib::group_to_multiset_ensures;

    assert(all.to_multiset().count(results[i].name@) > 0);
    assert(names.contains(results[i].name@));
    let m = choose|m: int| 0 <= m < names.len() && names[m] == results[i].name@;
    lemma_name_line_shown(names, m);
    let line = "    "@ + results[i].name@ + "\n"@;
    let before = "\nfailures:\n"@ + failure_texts(failed) + "\nfailures:\n"@;
    let told = before + name_lines(names);
    let last = summary((results.len() - failed.len()) as nat, failed.len(), elapsed);
    assert(report == header(results.len()) + status_lines(results) + told + last);
    lemma_shows_amid(before, name_lines(names), Seq::empty(), Seq::empty(), line);
    lemma_shows_more(header(results.len()) + status_lines(results), told, last, line);
}

/// The tests in a directory are the files called `rust_out` or `rust_out.exe` in
/// it, and the tests in the directories in it.
pub proof fn lemma_tests_found(at: Seq<Seq<char>>, entries: Seq<Entry>, path: Seq<Seq<char>>)
    ensures
        tests_in(at, entries).contains(path) <==> exists|i: int|
            0 <= i < entries.len() && match #[trigger] entries[i] {
                Entry::File(name) => (name@ == "rust_out"@ || name@ == "rust_out.exe"@) && path
                    == at.push(name@),
                Entry::Directory(name, inner) => tests_in(at.push(name@), inner@).contains(path),
            },
    decreases entries.len(),
{
    if entries.len() > 0 {
        let d = entries.drop_last();
        let n = entries.len() - 1;
        let rest = tests_in(at, d);
        let last = tests_at(at, entries.last());
        let all = tests_in(at, entries);
        lemma_tests_found(at, d, path);
        assert(last.contains(path) <==> match entries[n] {
            Entry::File(name) => (name@ == "rust_out"@ || name@ == "rust_out.exe"@) && path
                == at.push(name@),
            Entry::Directory(name, inner) => tests_in(at.push(name@), inner@).contains(path),
        }) by {
            match entries[n] {
                Entry::File(name) => {
                    if last.contains(path) {
                        let k = choose|k: int| 0 <= k < last.len() && last[k] == path;
                        assert(last[0] == at.push(name@));
                    }
                    if (name@ == "rust_out"@ || name@ == "rust_out.exe"@) && path == at.push(
                        name@,
                    ) {
                        assert(last[0] == path);
                    }
                },
                Entry::Directory(name, inner) => {},
            }
        }
        assert(all.contains(path) <==> rest.contains(path) || last.contains(path)) by {
            if rest.contains(path) {
                let k = choose|k: int| 0 <= k < rest.len() && rest[k] == path;
                assert(all[k] == path);
            }
            if last.contains(path) {
                let k = choose|k: int| 0 <= k < last.len() && last[k] == path;
                assert(all[rest.len() + k] == path);
            }
            if all.contains(path) {
                let k = choose|k: int| 0 <= k < all.len() && all[k] == path;
                if k < rest.len() {
                    assert(rest[k] == path);
                } else {
                    assert(last[k - rest.len()] == path);
                }
            }
        }
        if rest.contains(path) {
            let i = choose|i: int|
                0 <= i < d.len() && match #[trigger] d[i] {
                    Entry::File(name) => (name@ == "rust_out"@ || name@ == "rust_out.exe"@) && path
                        == at.push(name@),
                    Entry::Directory(name, inner) => tests_in(at.push(name@), inner@).contains(
                        path,
                    ),
                };
            assert(entries[i] == d[i]);
        }
        if exists|i: int|
            0 <= i < entries.len() && match #[trigger] entries[i] {
                Entry::File(name) => (name@ == "rust_out"@ || name@ == "rust_out.exe"@) && path
                    == at.push(name@),
                Entry::Directory(name, inner) => tests_in(at.push(name@), inner@).contains(path),
            } {
            let i = choose|i: int|
                0 <= i < entries.len() && match #[trigger] entries[i] {
                    Entry::File(name) => (name@ == "rust_out"@ || name@ == "rust_out.exe"@) && path
                        == at.push(name@),
                    Entry::Directory(name, inner) => tests_in(at.push(name@), inner@).contains(
                        path,
                    ),
                };
            if i < n {
                assert(d[i] == entries[i]);
            }
        }
    }
}

/// A test is called by the name that is known for its directory, or else by the
/// directory; one without a directory is unknown.
pub proof fn lemma_test_called(
    directory: Seq<char>,
    name: Seq<char>,
    names: Seq<(Seq<char>, Seq<char>)>,
)
    ensures
        string_map::lookup(names, directory) == Some(name) ==> called(Some(directory), names)
            == name,
        string_map::lookup(names, directory) is None ==> called(Some(directory), names)
            == directory,
        string_map::lookup(names, "unknown"@) is None ==> called(None, names) == "unknown"@,
{
}

/// A test is called after the directory that it is in.
pub proof fn lemma_directory_of(bin: Seq<char>, parent: Seq<char>)
    ensures
        paths::parent_of(bin) == Some(parent) ==> directory_of(bin) == paths::name_of(parent),
        paths::parent_of(bin) is None ==> directory_of(bin) is None,
{
}

/// Every line `<directory>=<name>` gives an entry, in the order of the lines, and
/// a line without an equals sign gives none. The name may have equals signs.
pub proof fn lemma_name_lines_read(
    a: Seq<Seq<char>>,
    b: Seq<Seq<char>>,
    directory: Seq<char>,
    name: Seq<char>,
    other: Seq<char>,
)
    requires
        text::free_of(directory, '='),
        text::free_of(other, '='),
    ensures
        name_entries(a + b) == name_entries(a) + name_entries(b),
        name_entries(seq![directory + "="@ + name]) == seq![(directory, name)],
        name_entries(seq![other]).len() == 0,
    decreases b.len(),
{
    reveal_strlit("=");
    let line = directory + "="@ + name;
    let n = directory.len() as int;
    assert(line.subrange(n, n + 1) =~= "="@);
    assert forall|i: int| 0 <= i < n implies #[trigger] line.subrange(i, i + "="@.len())
        != "="@ by {
        assert(line.subrange(i, i + "="@.len())[0] == directory[i]);
    }
    assert forall|i: int|
        0 <= i && i + "="@.len() <= other.len() implies #[trigger] other.subrange(
        i,
        i + "="@.len(),
    ) != "="@ by {
        assert(other.subrange(i, i + "="@.len())[0] == other[i]);
    }
    text::lemma_split_at_first(directory, "="@, name, other);
    assert(seq![line].drop_last() =~= Seq::empty());
    assert(seq![other].drop_last() =~= Seq::empty());
    assert(name_entries(Seq::empty()) =~= Seq::empty());
    assert(name_entries(seq![line]) =~= seq![(directory, name)]);
    if b.len() == 0 {
        assert(a + b =~= a);
        assert(name_entries(a) + name_entries(b) =~= name_entries(a));
    } else {
        assert((a + b).drop_last() =~= a + b.drop_last());
        assert((a + b).last() == b.last());
        lemma_name_lines_read(a, b.drop_last(), directory, name, other);
        assert(name_entries(a + b) =~= name_entries(a) + name_entries(b));
    }
}

/// The report that is made shows the error output of every failed test, whatever
/// is in its standard output, and a run passes exactly when every test did.
pub proof fn lemma_report_answer(
    results: &Vec<TestResult>,
    elapsed: &str,
    r: (String, bool),
    i: int,
)
    requires
        call_ensures(report, (results, elapsed), r),
        0 <= i < results@.len(),
    ensures
        r.1 ==> results@[i].passed,
        (forall|k: int| 0 <= k < results@.len() ==> (#[trigger] results@[k]).passed) ==> r.1,
        shows(
            r.0@,
            "test "@ + results@[i].name@ + " ... "@ + (if results@[i].passed {
                "ok"@
            } else {
                "FAILED"@
            }) + "\n"@,
        ),
        !results@[i].passed && text::trimmed(results@[i].stderr@).len() > 0 ==> shows(
            r.0@,
            ").\n\nstderr:\n\n"@ + text::trimmed(results@[i].stderr@) + "\n"@,
        ),
{
    lemma_every_test_listed(r.0@, results@, elapsed@, i);
    if !results@[i].passed {
        let k = lemma_failures_hold(results@, i);
        if text::trimmed(results@[i].stderr@).len() > 0 {
            lemma_error_output_tail(r.0@, results@, elapsed@, i);
        }
    }
    if forall|k: int| 0 <= k < results@.len() ==> (#[trigger] results@[k]).passed {
        lemma_none_failed(results@);
    }
}

proof fn lemma_none_failed(results: Seq<TestResult>)
    requires
        forall|k: int| 0 <= k < results.len() ==> (#[trigger] results[k]).passed,
    ensures
        failures(results).len() == 0,
    decreases results.len(),
{
    reveal(Seq::filter);
    if results.len() > 0 {
        let d = results.drop_last();
        assert forall|k: int| 0 <= k < d.len() implies (#[trigger] d[k]).passed by {
            assert(d[k] == results[k]);
        }
        lemma_none_failed(d);
        assert(results.last().passed);
    }
}

proof fn lemma_error_output_tail(
    report: Seq<char>,
    results: Seq<TestResult>,
    elapsed: Seq<char>,
    i: int,
)
    requires
        is_report(report, results, elapsed),
        0 <= i < results.len(),
        !results[i].passed,
        text::trimmed(results[i].stderr@).len() > 0,
    ensures
        shows(report, ").\n\nstderr:\n\n"@ + text::trimmed(results[i].stderr@) + "\n"@),
{
    lemma_error_output_shown(report, results, elapsed, i);
    let stdout = text::trimmed(results[i].stdout@);
    let head = "\n---- "@ + results[i].name@ + " stdout ----\n"@ + (if stdout.len() > 0 {
        stdout + "\n\n"@
    } else {
        Seq::empty()
    }) + "Test executable failed (exit status: "@ + text::signed_decimal(
        results[i].exit_code as int,
    );
    let mid = ").\n\nstderr:\n\n"@;
    let err = text::trimmed(results[i].stderr@);
    lemma_grouped(head, mid, err, "\n"@);
    lemma_shows_part(
        report,
        head + mid + err + "\n"@ + "\n"@,
        head,
        mid + err + "\n"@,
        "\n"@,
    );
}

proof fn lemma_grouped(head: Seq<char>, mid: Seq<char>, err: Seq<char>, end: Seq<char>)
    ensures
        head + mid + err + end + end == head + (mid + err + end) + end,
{
    assert(head + mid + err + end + end =~= head + (mid + err + end) + end);
}

/// A test that ran has the status of its program, or 1 where that has none, and
/// keeps what it wrote.
pub proof fn lemma_test_result(
    name: String,
    success: bool,
    code: Option<i32>,
    stdout: String,
    stderr: String,
    r: TestResult,
)
    requires
        call_ensures(test_result, (name, success, code, stdout, stderr), r),
    ensures
        r.passed == success,
        code matches Some(c) ==> r.exit_code == c,
        code is None ==> r.exit_code == 1,
        r.name@ == name@,
        r.stdout@ == stdout@,
        r.stderr@ == stderr@,
{
}

/// The tests that are found are the files of that name anywhere in the tree, in
/// the order of their paths.
pub proof fn lemma_tests_answer(entries: &Vec<Entry>, r: Vec<Vec<String>>, i: int, j: int)
    requires
        call_ensures(find_test_binaries, (entries,), r),
    ensures
        r@.len() == tests_in(Seq::empty(), entries@).len(),
        0 <= i < r@.len() ==> tests_in(Seq::empty(), entries@).contains(text::views(r@[i]@)),
        0 <= i < j < r@.len() ==> !order::Ordered::before(
            text::views(r@[j]@),
            text::views(r@[i]@),
        ),
        0 <= i < tests_in(Seq::empty(), entries@).len() ==> exists|k: int|
            0 <= k < r@.len() && text::views((#[trigger] r@[k])@) == tests_in(
                Seq::empty(),
                entries@,
            )[i],
{
    let all = tests_in(Seq::empty(), entries@);
    let out = order::keys(r@);
    order::lemma_sorting_elements(out, all, i, j);
    assert(out.len() == r@.len());
    if 0 <= i < r@.len() {
        assert(out[i] =~= text::views(r@[i]@));
        if i < j < r@.len() {
            assert(out[j] =~= text::views(r@[j]@));
        }
    }
    if 0 <= i < all.len() {
        let k = choose|k: int| 0 <= k < out.len() && out[k] == all[i];
        assert(out[k] =~= text::views(r@[k]@));
    }
}

} // verus!
