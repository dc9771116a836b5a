//! The settings that setup manages in the files of an editor, and how they are
//! merged into what the user keeps there.
use vstd::prelude::*;
use crate::discovery::{DISCOVER_BINARY_FILENAME, FLYCHECK_BINARY_FILENAME};
use crate::json;
use crate::json::{Json, Tree};
use crate::jsonc;
use crate::string_map;
use crate::text;
use crate::text::{copied, trim_of};

verus! {

pub const DISCOVER_CONFIG_KEY: &'static str = "rust-analyzer.workspace.discoverConfig";

pub const SERVER_PATH_KEY: &'static str = "rust-analyzer.server.path";

pub const PROC_MACRO_SRV_KEY: &'static str = "rust-analyzer.procMacro.server";

pub const RUSTFMT_OVERRIDE_KEY: &'static str = "rust-analyzer.rustfmt.overrideCommand";

/// Without this one, rust-analyzer runs `cargo check` for every `Cargo.toml`
/// that it comes across.
pub const CHECK_OVERRIDE_KEY: &'static str = "rust-analyzer.check.overrideCommand";

pub const FILES_WATCHER_EXCLUDE_KEY: &'static str = "files.watcherExclude";

pub const FILES_EXCLUDE_KEY: &'static str = "files.exclude";

pub const SEARCH_EXCLUDE_KEY: &'static str = "search.exclude";

/// The links that Bazel puts into the workspace. Watching them would use up
/// the file watches of the system.
pub const BAZEL_OUTPUTS_GLOB: &'static str = "**/bazel-*/**";

/// The directory of the launchers, inside that of the editor.
pub const LAUNCHER_SUBDIR: &'static str = ".rules_rust_analyzer";

/// The directory of VS Code in the workspace. The launchers are there wherever
/// the settings are, so that what is committed stays the same.
pub const VSCODE_LAUNCHER_REL: &'static str = ".vscode";

// ---------------------------------------------------------------------------
// The managed settings
// ---------------------------------------------------------------------------

/// What becomes of a managed key.
#[derive(Debug, PartialEq, Eq)]
pub enum ManagedValue {
    /// The value takes the place of what is there.
    Replace(Tree),
    /// The entries are added to the object that is there, except those whose
    /// key it has already: a user can turn one off.
    InsertEntries(Vec<(String, Tree)>),
}

/// The contents of a managed value.
pub enum ManagedView {
    Replace(Json),
    InsertEntries(Seq<(Seq<char>, Json)>),
}

impl View for ManagedValue {
    type V = ManagedView;

    open spec fn view(&self) -> ManagedView {
        match self {
            ManagedValue::Replace(v) => ManagedView::Replace(v@),
            ManagedValue::InsertEntries(list) => ManagedView::InsertEntries(
                json::entries_view(list@),
            ),
        }
    }
}

/// The contents of a list of managed keys.
pub open spec fn managed_views(
    list: Seq<(String, ManagedValue)>,
) -> Seq<(Seq<char>, ManagedView)> {
    list.map_values(|p: (String, ManagedValue)| (p.0@, p.1@))
}

/// A file of the launcher directory as the settings name it.
pub open spec fn launcher_reference(filename: Seq<char>) -> Seq<char> {
    "${workspaceFolder}/"@ + VSCODE_LAUNCHER_REL@ + "/"@ + LAUNCHER_SUBDIR@ + "/"@ + filename
}

/// A file of the launcher directory as the settings name it: relative to the
/// workspace, so that the settings can be committed.
pub fn workspace_relative(filename: &str) -> (r: String)
    ensures
        r@ == launcher_reference(filename@),
{
    let mut r = "${workspaceFolder}/".to_owned();
    r.append(VSCODE_LAUNCHER_REL);
    r.append("/");
    r.append(LAUNCHER_SUBDIR);
    r.append("/");
    r.append(filename);
    r
}

/// How discovery is run. The command is the same for everybody: what a user
/// prefers is in the file of their own settings.
pub open spec fn discover_config() -> Json {
    Json::Object(
        seq![
            (
                "command"@,
                Json::Array(
                    seq![
                        Json::Text(launcher_reference(DISCOVER_BINARY_FILENAME@)),
                        Json::Text("{arg}"@),
                    ],
                ),
            ),
            (
                "filesToWatch"@,
                Json::Array(
                    seq![
                        Json::Text("BUILD"@),
                        Json::Text("BUILD.bazel"@),
                        Json::Text("MODULE.bazel"@),
                        Json::Text("WORKSPACE"@),
                        Json::Text("WORKSPACE.bazel"@),
                    ],
                ),
            ),
            ("progressLabel"@, Json::Text("rules_rust"@)),
        ],
    )
}

/// The managed keys, in the order in which they are written.
pub open spec fn managed_keys(
    skip_proc_macro_server: bool,
    skip_rustfmt: bool,
) -> Seq<(Seq<char>, ManagedView)> {
    let base = seq![
        (DISCOVER_CONFIG_KEY@, ManagedView::Replace(discover_config())),
        (
            SERVER_PATH_KEY@,
            ManagedView::Replace(Json::Text(launcher_reference("rust_analyzer.exe"@))),
        ),
    ];
    let with_server = if skip_proc_macro_server {
        base
    } else {
        base.push(
            (
                PROC_MACRO_SRV_KEY@,
                ManagedView::Replace(
                    Json::Text(launcher_reference("rust_analyzer_proc_macro_srv.exe"@)),
                ),
            ),
        )
    };
    let with_rustfmt = if skip_rustfmt {
        with_server
    } else {
        with_server.push(
            (
                RUSTFMT_OVERRIDE_KEY@,
                ManagedView::Replace(
                    Json::Array(seq![Json::Text(launcher_reference("rustfmt.exe"@))]),
                ),
            ),
        )
    };
    let excluded = ManagedView::InsertEntries(seq![(BAZEL_OUTPUTS_GLOB@, Json::Bool(true))]);
    with_rustfmt + seq![
        (
            CHECK_OVERRIDE_KEY@,
            ManagedView::Replace(
                Json::Array(
                    seq![
                        Json::Text(launcher_reference(FLYCHECK_BINARY_FILENAME@)),
                        Json::Text("--saved-file"@),
                        Json::Text("$saved_file"@),
                    ],
                ),
            ),
        ),
        (FILES_WATCHER_EXCLUDE_KEY@, excluded),
        (FILES_EXCLUDE_KEY@, excluded),
        (SEARCH_EXCLUDE_KEY@, excluded),
    ]
}

/// A text as a value.
fn text_value(s: &str) -> (r: Tree)
    ensures
        r@ == Json::Text(s@),
{
    Tree::Text(s.to_owned())
}

/// The glob for what Bazel puts into the workspace, as the entry of a map of
/// exclusions.
fn bazel_outputs() -> (r: ManagedValue)
    ensures
        r@ == ManagedView::InsertEntries(seq![(BAZEL_OUTPUTS_GLOB@, Json::Bool(true))]),
{
    let list: Vec<(String, Tree)> = vec![(BAZEL_OUTPUTS_GLOB.to_owned(), Tree::Bool(true))];
    assert(json::entries_view(list@) =~= seq![(BAZEL_OUTPUTS_GLOB@, Json::Bool(true))]);
    ManagedValue::InsertEntries(list)
}

/// How discovery is run.
fn discover_config_value() -> (r: Tree)
    ensures
        r@ == discover_config(),
{
    let discover = workspace_relative(DISCOVER_BINARY_FILENAME);
    let command: Vec<Tree> = vec![text_value(discover.as_str()), text_value("{arg}")];
    assert(json::items_view(command@) =~= seq![Json::Text(discover@), Json::Text("{arg}"@)]);
    let files: Vec<Tree> = vec![
        text_value("BUILD"),
        text_value("BUILD.bazel"),
        text_value("MODULE.bazel"),
        text_value("WORKSPACE"),
        text_value("WORKSPACE.bazel"),
    ];
    assert(json::items_view(files@) =~= seq![
        Json::Text("BUILD"@),
        Json::Text("BUILD.bazel"@),
        Json::Text("MODULE.bazel"@),
        Json::Text("WORKSPACE"@),
        Json::Text("WORKSPACE.bazel"@),
    ]);
    let members: Vec<(String, Tree)> = vec![
        ("command".to_owned(), Tree::Array(command)),
        ("filesToWatch".to_owned(), Tree::Array(files)),
        ("progressLabel".to_owned(), text_value("rules_rust")),
    ];
    assert(json::entries_view(members@) =~= discover_config()->Object_0);
    Tree::Object(members)
}

/// Adds a managed key to the list.
fn push_managed(list: &mut Vec<(String, ManagedValue)>, key: &str, value: ManagedValue)
    ensures
        managed_views(final(list)@) == managed_views(old(list)@).push((key@, value@)),
{
    let ghost before = list@;
    list.push((key.to_owned(), value));
    assert(managed_views(list@) =~= managed_views(before).push((key@, value@)));
}

/// The managed keys of VS Code. They name files relative to the workspace and
/// are the same for every developer. The proc-macro server and the formatter
/// can be left to the editor.
pub fn vscode_managed_keys(skip_proc_macro_server: bool, skip_rustfmt: bool) -> (r: Vec<
    (String, ManagedValue),
>)
    ensures
        managed_views(r@) == managed_keys(skip_proc_macro_server, skip_rustfmt),
{
    let ra_path = workspace_relative("rust_analyzer.exe");
    let mut out: Vec<(String, ManagedValue)> = Vec::new();
    assert(managed_views(out@) =~= Seq::empty());
    push_managed(&mut out, DISCOVER_CONFIG_KEY, ManagedValue::Replace(discover_config_value()));
    push_managed(&mut out, SERVER_PATH_KEY, ManagedValue::Replace(Tree::Text(ra_path)));
    if !skip_proc_macro_server {
        let pms_path = workspace_relative("rust_analyzer_proc_macro_srv.exe");
        push_managed(&mut out, PROC_MACRO_SRV_KEY, ManagedValue::Replace(Tree::Text(pms_path)));
    }
    if !skip_rustfmt {
        let rustfmt_path = workspace_relative("rustfmt.exe");
        let command: Vec<Tree> = vec![text_value(rustfmt_path.as_str())];
        assert(json::items_view(command@) =~= seq![Json::Text(rustfmt_path@)]);
        push_managed(&mut out, RUSTFMT_OVERRIDE_KEY, ManagedValue::Replace(Tree::Array(command)));
    }
    let flycheck_path = workspace_relative(FLYCHECK_BINARY_FILENAME);
    let check: Vec<Tree> = vec![
        text_value(flycheck_path.as_str()),
        text_value("--saved-file"),
        text_value("$saved_file"),
    ];
    assert(json::items_view(check@) =~= seq![
        Json::Text(flycheck_path@),
        Json::Text("--saved-file"@),
        Json::Text("$saved_file"@),
    ]);
    push_managed(&mut out, CHECK_OVERRIDE_KEY, ManagedValue::Replace(Tree::Array(check)));
    push_managed(&mut out, FILES_WATCHER_EXCLUDE_KEY, bazel_outputs());
    push_managed(&mut out, FILES_EXCLUDE_KEY, bazel_outputs());
    push_managed(&mut out, SEARCH_EXCLUDE_KEY, bazel_outputs());
    assert(managed_views(out@) =~= managed_keys(skip_proc_macro_server, skip_rustfmt));
    out
}

// ---------------------------------------------------------------------------
// Values for a document
// ---------------------------------------------------------------------------

/// A value in the form in which a document takes it.
pub fn to_cst_input(v: &Tree) -> (r: jsonc_parser::cst::CstInputValue)
    ensures
        jsonc::input_value(r) == v@,
    decreases v,
{
    match v {
        Tree::Null => jsonc::input_null(),
        Tree::Bool(b) => jsonc::input_bool(*b),
        Tree::Number(n) => jsonc::input_number(copied(n)),
        Tree::Text(s) => jsonc::input_text(copied(s)),
        Tree::Array(items) => {
            let mut out: Vec<jsonc_parser::cst::CstInputValue> = Vec::new();
            let mut i: usize = 0;
            while i < items.len()
                invariant
                    i <= items@.len(),
                    v matches Tree::Array(w) && w == items,
                    out@.len() == i,
                    forall|k: int|
                        0 <= k < i ==> jsonc::input_value(#[trigger] out@[k]) == items@[k]@,
                decreases items@.len() - i,
            {
                out.push(to_cst_input(&items[i]));
                i += 1;
            }
            assert(jsonc::element_values(out@) =~= json::items_view(items@));
            jsonc::input_array(out)
        },
        Tree::Object(entries) => {
            let mut out: Vec<(String, jsonc_parser::cst::CstInputValue)> = Vec::new();
            let mut i: usize = 0;
            while i < entries.len()
                invariant
                    i <= entries@.len(),
                    v matches Tree::Object(w) && w == entries,
                    out@.len() == i,
                    forall|k: int|
                        0 <= k < i ==> (#[trigger] out@[k]).0@ == entries@[k].0@
                            && jsonc::input_value(out@[k].1) == entries@[k].1@,
                decreases entries@.len() - i,
            {
                out.push((copied(&entries[i].0), to_cst_input(&entries[i].1)));
                i += 1;
            }
            assert(jsonc::property_values(out@) =~= json::entries_view(entries@));
            jsonc::input_object(out)
        },
    }
}

/// The value of a managed key where nothing is there yet.
pub open spec fn realized(value: ManagedView) -> Json {
    match value {
        ManagedView::Replace(v) => v,
        ManagedView::InsertEntries(list) => Json::Object(list),
    }
}

/// The value of a managed key where nothing is there yet, in the form in which
/// a document takes it.
pub fn realize_managed_cst(value: &ManagedValue) -> (r: jsonc_parser::cst::CstInputValue)
    ensures
        jsonc::input_value(r) == realized(value@),
{
    match value {
        ManagedValue::Replace(v) => to_cst_input(v),
        ManagedValue::InsertEntries(entries) => {
            let mut out: Vec<(String, jsonc_parser::cst::CstInputValue)> = Vec::new();
            let mut i: usize = 0;
            while i < entries.len()
                invariant
                    i <= entries@.len(),
                    out@.len() == i,
                    forall|k: int|
                        0 <= k < i ==> (#[trigger] out@[k]).0@ == entries@[k].0@
                            && jsonc::input_value(out@[k].1) == entries@[k].1@,
                decreases entries@.len() - i,
            {
                out.push((copied(&entries[i].0), to_cst_input(&entries[i].1)));
                i += 1;
            }
            assert(jsonc::property_values(out@) =~= json::entries_view(entries@));
            jsonc::input_object(out)
        },
    }
}

// ---------------------------------------------------------------------------
// Merging
// ---------------------------------------------------------------------------

/// `entries` with the ones of `list` whose key it lacks added at the end.
pub open spec fn inserted(
    entries: Seq<(Seq<char>, Json)>,
    list: Seq<(Seq<char>, Json)>,
) -> Seq<(Seq<char>, Json)>
    decreases list.len(),
{
    if list.len() == 0 {
        entries
    } else {
        let rest = inserted(entries, list.drop_last());
        if string_map::lookup(rest, list.last().0) is Some {
            rest
        } else {
            rest.push(list.last())
        }
    }
}

/// `entries` with a managed key applied.
pub open spec fn applied(
    entries: Seq<(Seq<char>, Json)>,
    key: Seq<char>,
    value: ManagedView,
) -> Seq<(Seq<char>, Json)> {
    match value {
        ManagedView::Replace(v) => if string_map::lookup(entries, key) is Some {
            string_map::with_value(entries, key, v)
        } else {
            entries.push((key, v))
        },
        ManagedView::InsertEntries(list) => {
            let opened = jsonc::with_object(entries, key);
            string_map::with_value(
                opened,
                key,
                Json::Object(inserted(string_map::lookup(opened, key)->0->Object_0, list)),
            )
        },
    }
}

/// `entries` with the managed keys applied, one after the other.
pub open spec fn merged(
    entries: Seq<(Seq<char>, Json)>,
    managed: Seq<(Seq<char>, ManagedView)>,
) -> Seq<(Seq<char>, Json)>
    decreases managed.len(),
{
    if managed.len() == 0 {
        entries
    } else {
        applied(merged(entries, managed.drop_last()), managed.last().0, managed.last().1)
    }
}

proof fn lemma_with_object(entries: Seq<(Seq<char>, Json)>, key: Seq<char>, q: Seq<char>)
    ensures
        string_map::lookup(jsonc::with_object(entries, key), key) matches Some(Json::Object(_)),
        q != key ==> string_map::lookup(jsonc::with_object(entries, key), q)
            == string_map::lookup(entries, q),
        string_map::lookup(entries, key) matches Some(Json::Object(inner))
            ==> jsonc::with_object(entries, key) == entries,
{
    string_map::lemma_with_value_lookup(entries, key, Json::Object(Seq::empty()), key);
    string_map::lemma_with_value_lookup(entries, key, Json::Object(Seq::empty()), q);
    string_map::lemma_push_lookup(entries, key, Json::Object(Seq::empty()), key);
    string_map::lemma_push_lookup(entries, key, Json::Object(Seq::empty()), q);
}

/// Whether a managed value can be written into an object, inside which `n` more
/// arrays, members and objects may be opened, so that the text reads back: its
/// numbers are read as they are spelled, and it is not nested too deeply.
pub open spec fn is_writable(value: ManagedView, n: int) -> bool {
    match value {
        ManagedView::Replace(v) => jsonc::is_spelled(v) && jsonc::fits(v, n - 2),
        ManagedView::InsertEntries(list) => n >= 2 && forall|i: int|
            0 <= i < list.len() ==> jsonc::is_spelled((#[trigger] list[i]).1) && jsonc::fits(
                list[i].1,
                n - 4,
            ),
    }
}

/// Whether all managed values can be written into the object that `target` leads
/// to, so that the text reads back.
pub open spec fn are_writable(
    managed: Seq<(Seq<char>, ManagedView)>,
    target: Seq<Seq<char>>,
) -> bool {
    &&& jsonc::nesting_limit() >= 2 * target.len()
    &&& forall|i: int|
        0 <= i < managed.len() ==> is_writable(
            (#[trigger] managed[i]).1,
            jsonc::nesting_limit() - 2 * target.len(),
        )
}

/// Whether a managed value cannot run into the key after it: there are commas
/// between neighbours, it is delimited, or it is added at the end, since its key
/// is not there yet.
pub open spec fn is_apart(value: ManagedView, there: bool, commas: bool) -> bool {
    value matches ManagedView::Replace(v) ==> commas || jsonc::is_delimited(v) || !there
}

/// Whether none of the managed values that go among `entries`, one after the
/// other, can run into the key after it.
pub open spec fn are_apart(
    entries: Seq<(Seq<char>, Json)>,
    managed: Seq<(Seq<char>, ManagedView)>,
    commas: bool,
) -> bool {
    forall|i: int|
        0 <= i < managed.len() ==> is_apart(
            (#[trigger] managed[i]).1,
            string_map::lookup(entries, managed[i].0) is Some || manages(
                managed.take(i),
                managed[i].0,
            ),
            commas,
        )
}

proof fn lemma_fits_inserted(
    entries: Seq<(Seq<char>, Json)>,
    list: Seq<(Seq<char>, Json)>,
    n: int,
)
    requires
        jsonc::fits(Json::Object(entries), n),
        forall|i: int| 0 <= i < list.len() ==> jsonc::fits((#[trigger] list[i]).1, n - 2),
    ensures
        jsonc::fits(Json::Object(inserted(entries, list)), n),
    decreases list.len(),
{
    if list.len() > 0 {
        let d = list.drop_last();
        assert forall|i: int| 0 <= i < d.len() implies jsonc::fits((#[trigger] d[i]).1, n - 2) by {
            assert(d[i] == list[i]);
        }
        lemma_fits_inserted(entries, d, n);
        assert(jsonc::fits(list[list.len() - 1].1, n - 2));
        jsonc::lemma_fits_push(inserted(entries, d), list.last().0, list.last().1, n);
        assert(list.last() == (list.last().0, list.last().1));
    }
}

proof fn lemma_fits_opened(entries: Seq<(Seq<char>, Json)>, key: Seq<char>, n: int)
    requires
        jsonc::fits(Json::Object(entries), n),
        n >= 2,
    ensures
        jsonc::fits(Json::Object(jsonc::with_object(entries, key)), n),
{
    let none = Json::Object(Seq::empty());
    assert(jsonc::fits(none, n - 2));
    jsonc::lemma_fits_with_value(entries, key, none, n);
    jsonc::lemma_fits_push(entries, key, none, n);
}

/// Applies a managed key to the object at `path` of a document.
fn apply_managed_cst(
    doc: &mut jsonc_parser::cst::CstRootNode,
    path: &Vec<String>,
    key: &str,
    value: &ManagedValue,
)
    requires
        jsonc::at_path(jsonc::document_value(*old(doc)), text::views(path@)) is Some,
    ensures
        jsonc::document_value(*final(doc)) == Some(
            jsonc::with_path(
                jsonc::document_value(*old(doc))->0,
                text::views(path@),
                applied(
                    jsonc::at_path(jsonc::document_value(*old(doc)), text::views(path@))->0,
                    key@,
                    value@,
                ),
            ),
        ),
        jsonc::outside(jsonc::document_comments(*final(doc)), text::views(path@).push(key@))
            == jsonc::outside(
            jsonc::document_comments(*old(doc)),
            text::views(path@).push(key@),
        ),
        jsonc::keeps_commas(*old(doc), *final(doc)),
        is_writable(value@, jsonc::nesting_limit() - 2 * path@.len()) && is_apart(
            value@,
            string_map::lookup(
                jsonc::at_path(jsonc::document_value(*old(doc)), text::views(path@))->0,
                key@,
            ) is Some,
            jsonc::document_commas(*old(doc)),
        ) && jsonc::is_shallow(*old(doc)) && jsonc::reads_back(*old(doc)) ==> jsonc::is_shallow(
            *final(doc),
        ) && jsonc::reads_back(*final(doc)),
{
    let ghost j = jsonc::document_value(*doc)->0;
    let ghost p = text::views(path@);
    let ghost entries = jsonc::at_path(Some(j), p)->0;
    let ghost room = jsonc::nesting_limit() - 2 * path@.len();
    let ghost sound = is_writable(value@, room) && is_apart(
        value@,
        string_map::lookup(entries, key@) is Some,
        jsonc::document_commas(*doc),
    ) && jsonc::is_shallow(*doc) && jsonc::reads_back(*doc);
    proof {
        if sound {
            jsonc::lemma_fits_at_path(j, p, jsonc::nesting_limit());
        }
    }
    match value {
        ManagedValue::Replace(v) => {
            proof {
                if sound {
                    jsonc::lemma_fits_with_value(entries, key@, v@, room);
                    jsonc::lemma_fits_push(entries, key@, v@, room);
                    jsonc::lemma_fits_with_path(
                        j,
                        p,
                        applied(entries, key@, value@),
                        jsonc::nesting_limit(),
                    );
                }
            }
            let input = to_cst_input(v);
            if jsonc::has_property(doc, path, key) {
                jsonc::set_property(doc, path, key, input);
            } else {
                jsonc::append_property(doc, path, key, input);
            }
        },
        ManagedValue::InsertEntries(list) => {
            let ghost opened = jsonc::with_object(entries, key@);
            let ghost j1 = jsonc::with_path(j, p, opened);
            proof {
                if sound {
                    lemma_fits_opened(entries, key@, room);
                    jsonc::lemma_fits_with_path(j, p, opened, jsonc::nesting_limit());
                }
            }
            jsonc::ensure_object_property(doc, path, key);
            let ghost first = string_map::lookup(opened, key@)->0->Object_0;
            let ghost all = json::entries_view(list@);
            let mut inner = text::copied_list(path);
            let ghost copied_path = inner@;
            inner.push(key.to_owned());
            let ghost longer = p.push(key@);
            proof {
                assert(text::views(inner@) =~= longer) by {
                    assert(text::views(copied_path) == p);
                    assert forall|k: int| 0 <= k < longer.len() implies text::views(inner@)[k]
                        == longer[k] by {
                        if k < p.len() {
                            assert(inner@[k] == copied_path[k]);
                            assert(text::views(copied_path)[k] == p[k]);
                        }
                    }
                }
                jsonc::lemma_with_path(j, p, opened, Seq::empty());
                lemma_with_object(entries, key@, key@);
                jsonc::lemma_with_longer_path(j1, p, key@, first);
                string_map::lemma_with_value_same(opened, key@);
                assert(all.take(0) =~= Seq::empty());
                assert(jsonc::with_path(j1, longer, first) == j1) by {
                    jsonc::lemma_with_path(j, p, opened, opened);
                }
                if sound {
                    jsonc::lemma_fits_lookup(opened, key@, room);
                    assert forall|k: int| 0 <= k < all.len() implies jsonc::is_spelled(
                        (#[trigger] all[k]).1,
                    ) && jsonc::fits(all[k].1, room - 4) by {
                        assert(value@->InsertEntries_0[k] == all[k]);
                    }
                }
            }
            let mut i: usize = 0;
            while i < list.len()
                invariant
                    i <= list@.len(),
                    all == json::entries_view(list@),
                    text::views(inner@) == longer,
                    jsonc::at_path(Some(j1), longer) == Some(first),
                    jsonc::outside(jsonc::document_comments(*doc), longer) == jsonc::outside(
                        jsonc::document_comments(*old(doc)),
                        longer,
                    ),
                    jsonc::document_value(*doc) == Some(
                        jsonc::with_path(j1, longer, inserted(first, all.take(i as int))),
                    ),
                    jsonc::keeps_commas(*old(doc), *doc),
                    longer.len() == path@.len() + 1,
                    room == jsonc::nesting_limit() - 2 * path@.len(),
                    sound ==> jsonc::fits(j1, jsonc::nesting_limit()) && jsonc::fits(
                        Json::Object(first),
                        room - 2,
                    ) && jsonc::is_shallow(*doc) && jsonc::reads_back(*doc),
                    sound ==> forall|k: int|
                        0 <= k < all.len() ==> jsonc::is_spelled((#[trigger] all[k]).1)
                            && jsonc::fits(all[k].1, room - 4),
                decreases list@.len() - i,
            {
                let ghost so_far = inserted(first, all.take(i as int));
                proof {
                    if sound {
                        assert forall|k: int| 0 <= k < i + 1 implies jsonc::fits(
                            (#[trigger] all.take(i + 1)[k]).1,
                            room - 4,
                        ) by {
                            assert(all.take(i + 1)[k] == all[k]);
                        }
                        lemma_fits_inserted(first, all.take(i + 1), room - 2);
                        jsonc::lemma_fits_with_path(
                            j1,
                            longer,
                            inserted(first, all.take(i + 1)),
                            jsonc::nesting_limit(),
                        );
                        assert(jsonc::is_spelled(all[i as int].1));
                    }
                    assert(all.take(i + 1).drop_last() =~= all.take(i as int));
                    assert(all.take(i + 1).last() == all[i as int]);
                    jsonc::lemma_with_path(j1, longer, so_far, so_far.push(all[i as int]));
                }
                if !jsonc::has_property(doc, &inner, list[i].0.as_str()) {
                    jsonc::append_property(
                        doc,
                        &inner,
                        list[i].0.as_str(),
                        to_cst_input(&list[i].1),
                    );
                }
                i += 1;
            }
            proof {
                assert(all.take(i as int) =~= all);
                let done = inserted(first, all);
                let put = string_map::with_value(opened, key@, Json::Object(done));
                jsonc::lemma_with_longer_path(j1, p, key@, done);
                jsonc::lemma_with_path(j, p, opened, put);
            }
        },
    }
}

/// Why a settings file is left alone.
#[derive(Debug, PartialEq, Eq)]
pub enum SettingsError {
    /// The file is not JSON; holds its path and what is wrong.
    NotJson(String, String),
    /// The file holds no object.
    RootNotObject(String),
    /// The file holds something other than an object under the key.
    KeyNotObject(String, String),
}

impl SettingsError {
    /// The text of the error.
    pub open spec fn text(self) -> Seq<char> {
        match self {
            SettingsError::NotJson(path, reason) => path@ + " is not valid JSON ("@ + reason@
                + ")"@,
            SettingsError::RootNotObject(path) => path@
                + "'s root is not a JSON object; refusing to merge. Use --replace to overwrite."@,
            SettingsError::KeyNotObject(path, key) => path@ + "'s `"@ + key@
                + "` is not an object; refusing to merge. Use --replace to overwrite."@,
        }
    }

    /// Describes the error.
    pub fn message(&self) -> (r: String)
        ensures
            r@ == self.text(),
    {
        match self {
            SettingsError::NotJson(path, reason) => {
                let mut r = copied(path);
                r.append(" is not valid JSON (");
                r.append(reason.as_str());
                r.append(")");
                r
            },
            SettingsError::RootNotObject(path) => {
                let mut r = copied(path);
                r.append(
                    "'s root is not a JSON object; refusing to merge. Use --replace to overwrite.",
                );
                r
            },
            SettingsError::KeyNotObject(path, key) => {
                let mut r = copied(path);
                r.append("'s `");
                r.append(key.as_str());
                r.append("` is not an object; refusing to merge. Use --replace to overwrite.");
                r
            },
        }
    }
}

/// The text that a file is taken to hold: an empty object, when it is missing
/// or blank.
pub open spec fn effective_text(existing: Option<Seq<char>>) -> Seq<char> {
    match existing {
        Some(t) => if text::trimmed(t).len() == 0 {
            jsonc::EMPTY_OBJECT@
        } else {
            t
        },
        None => jsonc::EMPTY_OBJECT@,
    }
}

/// The document that a file holds, where `existing` is its text. It has that
/// text, unless the text is blank.
pub fn parse_root(path: &str, existing: &Option<String>) -> (r: Result<
    jsonc_parser::cst::CstRootNode,
    SettingsError,
>)
    ensures
        match (r, jsonc::parsed_document(effective_text(text::opt_view(*existing)))) {
            (Ok(doc), Ok(p)) => {
                &&& jsonc::document_value(doc) == p.0
                &&& jsonc::document_comments(doc) == p.1
                &&& jsonc::document_commas(doc) == p.2
                &&& jsonc::document_text(doc) == effective_text(text::opt_view(*existing))
                &&& jsonc::is_shallow(doc)
            },
            (Err(SettingsError::NotJson(p, reason)), Err(wrong)) => p@ == path@ && reason@ == wrong,
            _ => false,
        },
{
    let text = match existing {
        Some(t) => if trim_of(t.as_str()).as_str().is_empty() {
            jsonc::EMPTY_OBJECT.to_owned()
        } else {
            copied(t)
        },
        None => jsonc::EMPTY_OBJECT.to_owned(),
    };
    match jsonc::parse_document(text.as_str()) {
        Ok(doc) => Ok(doc),
        Err(reason) => Err(SettingsError::NotJson(path.to_owned(), reason)),
    }
}

/// The members of the object in a file, or the error that keeps from merging.
pub open spec fn file_members(path: Seq<char>, existing: Option<Seq<char>>) -> Result<
    Seq<(Seq<char>, Json)>,
    Seq<char>,
> {
    match jsonc::parsed_document(effective_text(existing)) {
        Ok((Some(Json::Object(entries)), _, _)) => Ok(entries),
        Ok(_) => Err(
            path + "'s root is not a JSON object; refusing to merge. Use --replace to overwrite."@,
        ),
        Err(reason) => Err(path + " is not valid JSON ("@ + reason + ")"@),
    }
}

/// The members of a file after a merge, or the error.
pub open spec fn merge_outcome(
    path: Seq<char>,
    existing: Option<Seq<char>>,
    managed: Seq<(Seq<char>, ManagedView)>,
    settings_key: Option<Seq<char>>,
) -> Result<Seq<(Seq<char>, Json)>, Seq<char>> {
    match file_members(path, existing) {
        Ok(entries) => match settings_key {
            None => Ok(merged(entries, managed)),
            Some(k) => match string_map::lookup(entries, k) {
                Some(Json::Object(inner)) => Ok(
                    string_map::with_value(entries, k, Json::Object(merged(inner, managed))),
                ),
                Some(_) => Err(
                    path + "'s `"@ + k
                        + "` is not an object; refusing to merge. Use --replace to overwrite."@,
                ),
                None => Ok(entries.push((k, Json::Object(merged(Seq::empty(), managed))))),
            },
        },
        Err(e) => Err(e),
    }
}

/// The comments in a file.
pub open spec fn file_comments(existing: Option<Seq<char>>) -> Seq<
    (Seq<Seq<char>>, Seq<char>),
> {
    match jsonc::parsed_document(effective_text(existing)) {
        Ok(p) => p.1,
        Err(_) => Seq::empty(),
    }
}

/// The path to the object that is merged into.
pub open spec fn target_path(settings_key: Option<Seq<char>>) -> Seq<Seq<char>> {
    match settings_key {
        Some(k) => seq![k],
        None => Seq::empty(),
    }
}

/// Whether `r` is the text of a document with these members, with every one of
/// `comments` that is not in the value of a managed key, or an error with this
/// text.
pub open spec fn is_merge(
    r: Result<String, SettingsError>,
    members: Result<Seq<(Seq<char>, Json)>, Seq<char>>,
    comments: Seq<(Seq<Seq<char>>, Seq<char>)>,
    target: Seq<Seq<char>>,
    managed: Seq<(Seq<char>, ManagedView)>,
) -> bool {
    match (r, members) {
        (Ok(t), Ok(entries)) => exists|doc: jsonc_parser::cst::CstRootNode|
            {
                &&& #[trigger] jsonc::document_value(doc) == Some(Json::Object(entries))
                &&& jsonc::beside(
                    jsonc::document_comments(doc),
                    target,
                    string_map::keys_of(managed),
                ) == jsonc::beside(comments, target, string_map::keys_of(managed))
                &&& t@ == jsonc::document_text(doc)
            },
        (Err(e), Err(reason)) => e.text() == reason,
        _ => false,
    }
}

/// The members of the object that a file's managed keys are merged into.
pub open spec fn target_members(
    existing: Option<Seq<char>>,
    settings_key: Option<Seq<char>>,
) -> Seq<(Seq<char>, Json)> {
    match (jsonc::parsed_document(effective_text(existing)), settings_key) {
        (Ok((Some(Json::Object(entries)), _, _)), None) => entries,
        (Ok((Some(Json::Object(entries)), _, _)), Some(k)) => match string_map::lookup(
            entries,
            k,
        ) {
            Some(Json::Object(inner)) => inner,
            _ => Seq::empty(),
        },
        _ => Seq::empty(),
    }
}

/// Whether every two neighbours in a file have a comma between them.
pub open spec fn file_commas(existing: Option<Seq<char>>) -> bool {
    jsonc::parsed_document(effective_text(existing)) matches Ok(p) && p.2
}

/// Whether reading a text gives an object with these members, and every one of
/// `comments` that is not in the value of a managed key.
pub open spec fn reads_as_merge(
    t: Seq<char>,
    entries: Seq<(Seq<char>, Json)>,
    comments: Seq<(Seq<Seq<char>>, Seq<char>)>,
    target: Seq<Seq<char>>,
    managed: Seq<(Seq<char>, ManagedView)>,
) -> bool {
    jsonc::parsed_document(t) matches Ok(p) && p.0 == Some(Json::Object(entries)) && jsonc::beside(
        p.1,
        target,
        string_map::keys_of(managed),
    ) == jsonc::beside(comments, target, string_map::keys_of(managed))
}

/// Applies the managed keys to the object at `path` of a document.
fn merge_into(
    doc: &mut jsonc_parser::cst::CstRootNode,
    path: &Vec<String>,
    managed: &Vec<(String, ManagedValue)>,
)
    requires
        jsonc::at_path(jsonc::document_value(*old(doc)), text::views(path@)) is Some,
    ensures
        jsonc::document_value(*final(doc)) == Some(
            jsonc::with_path(
                jsonc::document_value(*old(doc))->0,
                text::views(path@),
                merged(
                    jsonc::at_path(jsonc::document_value(*old(doc)), text::views(path@))->0,
                    managed_views(managed@),
                ),
            ),
        ),
        jsonc::beside(
            jsonc::document_comments(*final(doc)),
            text::views(path@),
            string_map::keys_of(managed_views(managed@)),
        ) == jsonc::beside(
            jsonc::document_comments(*old(doc)),
            text::views(path@),
            string_map::keys_of(managed_views(managed@)),
        ),
        managed@.len() == 0 ==> *final(doc) == *old(doc),
        are_writable(managed_views(managed@), text::views(path@)) && are_apart(
            jsonc::at_path(jsonc::document_value(*old(doc)), text::views(path@))->0,
            managed_views(managed@),
            jsonc::document_commas(*old(doc)),
        ) && jsonc::is_shallow(*old(doc)) && jsonc::reads_back(*old(doc)) ==> jsonc::reads_back(
            *final(doc),
        ),
{
    let ghost commas = jsonc::document_commas(*doc);
    let ghost sound = are_writable(managed_views(managed@), text::views(path@)) && are_apart(
        jsonc::at_path(jsonc::document_value(*doc), text::views(path@))->0,
        managed_views(managed@),
        commas,
    ) && jsonc::is_shallow(*doc) && jsonc::reads_back(*doc);
    let ghost j = jsonc::document_value(*doc)->0;
    let ghost p = text::views(path@);
    let ghost entries = jsonc::at_path(Some(j), p)->0;
    let ghost all = managed_views(managed@);
    let ghost keys = string_map::keys_of(all);
    let mut i: usize = 0;
    proof {
        assert(all.take(0) =~= Seq::empty());
        jsonc::lemma_with_path_same(j, p);
    }
    while i < managed.len()
        invariant
            i <= managed@.len(),
            all == managed_views(managed@),
            p == text::views(path@),
            jsonc::at_path(Some(j), p) == Some(entries),
            keys == string_map::keys_of(all),
            jsonc::document_value(*doc) == Some(
                jsonc::with_path(j, p, merged(entries, all.take(i as int))),
            ),
            jsonc::beside(jsonc::document_comments(*doc), p, keys) == jsonc::beside(
                jsonc::document_comments(*old(doc)),
                p,
                keys,
            ),
            i == 0 ==> *doc == *old(doc),
            p.len() == path@.len(),
            commas ==> jsonc::document_commas(*doc),
            sound ==> are_writable(all, p) && are_apart(entries, all, commas) && jsonc::is_shallow(
                *doc,
            ) && jsonc::reads_back(*doc),
        decreases managed@.len() - i,
    {
        let ghost before = jsonc::document_comments(*doc);
        proof {
            assert(all[i as int] == (managed@[i as int].0@, managed@[i as int].1@));
            let so_far = merged(entries, all.take(i as int));
            assert(all.take(i + 1).drop_last() =~= all.take(i as int));
            assert(all.take(i + 1).last() == all[i as int]);
            jsonc::lemma_with_path(j, p, so_far, merged(entries, all.take(i + 1)));
            if !manages(all.take(i as int), all[i as int].0) {
                lemma_merge_keeps_user_keys(entries, all.take(i as int), all[i as int].0);
            }
        }
        apply_managed_cst(doc, path, managed[i].0.as_str(), &managed[i].1);
        proof {
            assert(keys[i as int] == managed@[i as int].0@);
            jsonc::lemma_beside(before, jsonc::document_comments(*doc), p, keys, i as int);
        }
        i += 1;
    }
    assert(all.take(i as int) =~= all);
}

/// Merges the managed keys into the file at `path`, whose text is `existing`:
/// into the object that it holds, or into the one under `settings_key`, which
/// is made when it is missing. Comments stay, except those in the values of
/// managed keys, and with nothing to merge the text stays as it is. Returns the
/// new text.
pub fn merge_file(
    path: &str,
    existing: &Option<String>,
    managed: &Vec<(String, ManagedValue)>,
    settings_key: &Option<String>,
) -> (r: Result<String, SettingsError>)
    ensures
        is_merge(
            r,
            merge_outcome(
                path@,
                text::opt_view(*existing),
                managed_views(managed@),
                text::opt_view(*settings_key),
            ),
            file_comments(text::opt_view(*existing)),
            target_path(text::opt_view(*settings_key)),
            managed_views(managed@),
        ),
        managed@.len() == 0 && settings_key is None ==> (r matches Ok(t) ==> t@ == effective_text(
            text::opt_view(*existing),
        )),
        are_writable(managed_views(managed@), target_path(text::opt_view(*settings_key)))
            && are_apart(
            target_members(text::opt_view(*existing), text::opt_view(*settings_key)),
            managed_views(managed@),
            file_commas(text::opt_view(*existing)),
        ) ==> (r matches Ok(t) ==> reads_as_merge(
            t@,
            merge_outcome(
                path@,
                text::opt_view(*existing),
                managed_views(managed@),
                text::opt_view(*settings_key),
            )->Ok_0,
            file_comments(text::opt_view(*existing)),
            target_path(text::opt_view(*settings_key)),
            managed_views(managed@),
        )),
{
    let mut doc = match parse_root(path, existing) {
        Ok(doc) => doc,
        Err(e) => return Err(e),
    };
    if !jsonc::is_object(&doc) {
        return Err(SettingsError::RootNotObject(path.to_owned()));
    }
    let ghost entries = jsonc::document_value(doc)->0->Object_0;
    assert(jsonc::reads_back(doc));
    let mut target: Vec<String> = Vec::new();
    match settings_key {
        None => {
            assert(text::views(target@) =~= Seq::empty());
            merge_into(&mut doc, &target, managed);
        },
        Some(k) => {
            proof {
                let none = Json::Object(Seq::empty());
                assert(jsonc::fits(none, jsonc::nesting_limit() - 2));
                jsonc::lemma_fits_push(entries, k@, none, jsonc::nesting_limit());
            }
            if !jsonc::open_object_property(&mut doc, k.as_str()) {
                return Err(SettingsError::KeyNotObject(path.to_owned(), copied(k)));
            }
            target.push(copied(k));
            let ghost opened = jsonc::document_value(doc)->0->Object_0;
            proof {
                assert(text::views(target@) =~= seq![k@]);
                assert(Seq::<Seq<char>>::empty().push(k@) =~= seq![k@]);
                string_map::lemma_push_lookup(
                    entries,
                    k@,
                    Json::Object(Seq::empty()),
                    k@,
                );
                let inner = string_map::lookup(opened, k@)->0->Object_0;
                jsonc::lemma_with_longer_path(
                    Json::Object(opened),
                    Seq::empty(),
                    k@,
                    merged(inner, managed_views(managed@)),
                );
                if string_map::lookup(entries, k@) is None {
                    string_map::lemma_push_with_value(
                        entries,
                        k@,
                        Json::Object(Seq::empty()),
                        Json::Object(merged(inner, managed_views(managed@))),
                    );
                }
            }
            merge_into(&mut doc, &target, managed);
        },
    }
    let t = jsonc::text_of(&doc);
    assert(jsonc::document_value(doc) is Some);
    Ok(t)
}

/// The managed keys where nothing is there yet.
pub open spec fn realized_all(managed: Seq<(Seq<char>, ManagedView)>) -> Seq<(Seq<char>, Json)> {
    managed.map_values(|p: (Seq<char>, ManagedView)| (p.0, realized(p.1)))
}

/// The members of a file after a replacement, or the error: only the managed
/// keys, or, under a key, everything else as it was and the managed keys
/// there.
pub open spec fn replace_outcome(
    path: Seq<char>,
    existing: Option<Seq<char>>,
    managed: Seq<(Seq<char>, ManagedView)>,
    settings_key: Option<Seq<char>>,
) -> Result<Seq<(Seq<char>, Json)>, Seq<char>> {
    match settings_key {
        None => Ok(realized_all(managed)),
        Some(k) => match file_members(path, existing) {
            Ok(entries) => Ok(
                string_map::without_key(entries, k).push((k, Json::Object(realized_all(managed)))),
            ),
            Err(e) => Err(e),
        },
    }
}

/// The managed keys where nothing is there yet, in the form in which a
/// document takes them.
fn realize_all(managed: &Vec<(String, ManagedValue)>) -> (r: jsonc_parser::cst::CstInputValue)
    ensures
        jsonc::input_value(r) == Json::Object(realized_all(managed_views(managed@))),
{
    let mut props: Vec<(String, jsonc_parser::cst::CstInputValue)> = Vec::new();
    let mut i: usize = 0;
    while i < managed.len()
        invariant
            i <= managed@.len(),
            props@.len() == i,
            forall|k: int|
                0 <= k < i ==> (#[trigger] props@[k]).0@ == managed@[k].0@ && jsonc::input_value(
                    props@[k].1,
                ) == realized(managed@[k].1@),
        decreases managed@.len() - i,
    {
        props.push((copied(&managed[i].0), realize_managed_cst(&managed[i].1)));
        i += 1;
    }
    assert(jsonc::property_values(props@) =~= realized_all(managed_views(managed@)));
    jsonc::input_object(props)
}

/// Whether nothing runs together when what is under the key is taken out of a
/// file: there is nothing, commas are between neighbours, or the values of all
/// other members are delimited.
pub open spec fn parts_cleanly(
    existing: Option<Seq<char>>,
    settings_key: Option<Seq<char>>,
) -> bool {
    match (jsonc::parsed_document(effective_text(existing)), settings_key) {
        (Ok((Some(Json::Object(entries)), _, commas)), Some(k)) => {
            ||| string_map::lookup(entries, k) is None
            ||| commas
            ||| jsonc::all_delimited(string_map::without_key(entries, k))
        },
        _ => true,
    }
}

/// Whether the comments in the values of the members beside the key are there as
/// before.
pub open spec fn keeps_comments(
    after: Seq<(Seq<Seq<char>>, Seq<char>)>,
    before: Seq<(Seq<Seq<char>>, Seq<char>)>,
    settings_key: Option<Seq<char>>,
) -> bool {
    settings_key matches Some(k) ==> jsonc::elsewhere(after, k) == jsonc::elsewhere(before, k)
}

/// Whether `r` is the text of a document with these members and the comments
/// beside the key, or an error with this text.
pub open spec fn is_replacement(
    r: Result<String, SettingsError>,
    members: Result<Seq<(Seq<char>, Json)>, Seq<char>>,
    comments: Seq<(Seq<Seq<char>>, Seq<char>)>,
    settings_key: Option<Seq<char>>,
) -> bool {
    match (r, members) {
        (Ok(t), Ok(entries)) => exists|doc: jsonc_parser::cst::CstRootNode|
            {
                &&& #[trigger] jsonc::document_value(doc) == Some(Json::Object(entries))
                &&& keeps_comments(jsonc::document_comments(doc), comments, settings_key)
                &&& t@ == jsonc::document_text(doc)
            },
        (Err(e), Err(reason)) => e.text() == reason,
        _ => false,
    }
}

/// Whether reading a text gives an object with these members and the comments
/// beside the key.
pub open spec fn reads_as_replacement(
    t: Seq<char>,
    entries: Seq<(Seq<char>, Json)>,
    comments: Seq<(Seq<Seq<char>>, Seq<char>)>,
    settings_key: Option<Seq<char>>,
) -> bool {
    jsonc::parsed_document(t) matches Ok(p) && p.0 == Some(Json::Object(entries))
        && keeps_comments(p.1, comments, settings_key)
}

proof fn lemma_realized_writable(
    managed: Seq<(Seq<char>, ManagedView)>,
    target: Seq<Seq<char>>,
)
    requires
        are_writable(managed, target),
    ensures
        jsonc::is_spelled(Json::Object(realized_all(managed))),
        jsonc::fits(
            Json::Object(realized_all(managed)),
            jsonc::nesting_limit() - 2 * target.len(),
        ),
{
    let n = jsonc::nesting_limit() - 2 * target.len();
    let all = realized_all(managed);
    assert forall|i: int| 0 <= i < all.len() implies jsonc::is_spelled((#[trigger] all[i]).1)
        && jsonc::fits(all[i].1, n - 2) by {
        assert(is_writable(managed[i].1, n));
        match managed[i].1 {
            ManagedView::Replace(v) => {},
            ManagedView::InsertEntries(list) => {
                let inner = managed[i].1->InsertEntries_0;
                assert forall|k: int| 0 <= k < inner.len() implies jsonc::is_spelled(
                    (#[trigger] inner[k]).1,
                ) && jsonc::fits(inner[k].1, n - 4) by {}
            },
        }
    }
}

/// Replaces what is managed in the file at `path`, whose text is `existing`.
/// Without a key the whole file becomes the managed keys, whatever it held.
/// With one only what is under the key is replaced, since the rest of such a
/// file is not ours. Returns the new text.
pub fn replace_managed_file(
    path: &str,
    existing: &Option<String>,
    managed: &Vec<(String, ManagedValue)>,
    settings_key: &Option<String>,
) -> (r: Result<String, SettingsError>)
    ensures
        is_replacement(
            r,
            replace_outcome(
                path@,
                text::opt_view(*existing),
                managed_views(managed@),
                text::opt_view(*settings_key),
            ),
            file_comments(text::opt_view(*existing)),
            text::opt_view(*settings_key),
        ),
        are_writable(managed_views(managed@), target_path(text::opt_view(*settings_key)))
            && parts_cleanly(text::opt_view(*existing), text::opt_view(*settings_key)) ==> (
        r matches Ok(t) ==> reads_as_replacement(
            t@,
            replace_outcome(
                path@,
                text::opt_view(*existing),
                managed_views(managed@),
                text::opt_view(*settings_key),
            )->Ok_0,
            file_comments(text::opt_view(*existing)),
            text::opt_view(*settings_key),
        )),
{
    let ghost all = managed_views(managed@);
    let ghost target = target_path(text::opt_view(*settings_key));
    proof {
        if are_writable(all, target) {
            lemma_realized_writable(all, target);
        }
    }
    let props = realize_all(managed);
    match settings_key {
        None => {
            let mut doc = match jsonc::parse_document(jsonc::EMPTY_OBJECT) {
                Ok(doc) => doc,
                Err(reason) => return Err(SettingsError::NotJson(path.to_owned(), reason)),
            };
            jsonc::set_document(&mut doc, props);
            let t = jsonc::text_of(&doc);
            assert(jsonc::document_value(doc) is Some);
            Ok(t)
        },
        Some(k) => {
            let mut doc = match parse_root(path, existing) {
                Ok(doc) => doc,
                Err(e) => return Err(e),
            };
            if !jsonc::is_object(&doc) {
                return Err(SettingsError::RootNotObject(path.to_owned()));
            }
            let ghost entries = jsonc::document_value(doc)->0->Object_0;
            let root: Vec<String> = Vec::new();
            proof {
                assert(text::views(root@) =~= Seq::empty());
                string_map::lemma_without_absent_key(entries, k@);
            }
            assert(jsonc::reads_back(doc));
            proof {
                jsonc::lemma_fits_without_key(entries, k@, jsonc::nesting_limit());
            }
            if jsonc::has_property(&doc, &root, k.as_str()) {
                jsonc::remove_property(&mut doc, k.as_str());
            }
            assert(jsonc::at_path(jsonc::document_value(doc), Seq::empty()) == Some(
                string_map::without_key(entries, k@),
            ));
            proof {
                if are_writable(all, target) {
                    jsonc::lemma_fits_push(
                        string_map::without_key(entries, k@),
                        k@,
                        Json::Object(realized_all(all)),
                        jsonc::nesting_limit(),
                    );
                }
            }
            jsonc::append_property(&mut doc, &root, k.as_str(), props);
            let t = jsonc::text_of(&doc);
            assert(jsonc::document_value(doc) is Some);
            Ok(t)
        },
    }
}

/// The new text of the file at `path`: with the managed part replaced, or with
/// the managed keys merged in.
pub fn updated_file(
    path: &str,
    existing: &Option<String>,
    managed: &Vec<(String, ManagedValue)>,
    settings_key: &Option<String>,
    replace: bool,
) -> (r: Result<String, SettingsError>)
    ensures
        if replace {
            is_replacement(
                r,
                replace_outcome(
                    path@,
                    text::opt_view(*existing),
                    managed_views(managed@),
                    text::opt_view(*settings_key),
                ),
                file_comments(text::opt_view(*existing)),
                text::opt_view(*settings_key),
            )
        } else {
            is_merge(
                r,
                merge_outcome(
                    path@,
                    text::opt_view(*existing),
                    managed_views(managed@),
                    text::opt_view(*settings_key),
                ),
                file_comments(text::opt_view(*existing)),
                target_path(text::opt_view(*settings_key)),
                managed_views(managed@),
            )
        },
        are_writable(managed_views(managed@), target_path(text::opt_view(*settings_key)))
            && replace && parts_cleanly(
            text::opt_view(*existing),
            text::opt_view(*settings_key),
        ) ==> (r matches Ok(t) ==> reads_as_replacement(
            t@,
            replace_outcome(
                path@,
                text::opt_view(*existing),
                managed_views(managed@),
                text::opt_view(*settings_key),
            )->Ok_0,
            file_comments(text::opt_view(*existing)),
            text::opt_view(*settings_key),
        )),
        are_writable(managed_views(managed@), target_path(text::opt_view(*settings_key)))
            && !replace && are_apart(
            target_members(text::opt_view(*existing), text::opt_view(*settings_key)),
            managed_views(managed@),
            file_commas(text::opt_view(*existing)),
        ) ==> (r matches Ok(t) ==> reads_as_merge(
            t@,
            merge_outcome(
                path@,
                text::opt_view(*existing),
                managed_views(managed@),
                text::opt_view(*settings_key),
            )->Ok_0,
            file_comments(text::opt_view(*existing)),
            target_path(text::opt_view(*settings_key)),
            managed_views(managed@),
        )),
{
    if replace {
        replace_managed_file(path, existing, managed, settings_key)
    } else {
        merge_file(path, existing, managed, settings_key)
    }
}

// ---------------------------------------------------------------------------
// What a merge keeps
// ---------------------------------------------------------------------------

proof fn lemma_inserted(
    entries: Seq<(Seq<char>, Json)>,
    list: Seq<(Seq<char>, Json)>,
    q: Seq<char>,
)
    ensures
        string_map::lookup(entries, q) is Some ==> string_map::lookup(inserted(entries, list), q)
            == string_map::lookup(entries, q),
        string_map::lookup(entries, q) is None ==> string_map::lookup(inserted(entries, list), q)
            == string_map::lookup(list, q),
    decreases list.len(),
{
    if list.len() == 0 {
        assert(string_map::lookup(list, q) is None);
    } else {
        let d = list.drop_last();
        let e = list.last();
        let rest = inserted(entries, d);
        lemma_inserted(entries, d, q);
        assert(list =~= d.push(e));
        string_map::lemma_push_lookup(d, e.0, e.1, q);
        string_map::lemma_push_lookup(rest, e.0, e.1, q);
        if e.0 == q {
            assert(e == (q, e.1));
        }
    }
}

/// A managed key is given its value: the one that replaces, or an object in
/// which what the user has stays and the entries that were missing are there.
/// Every other key keeps its value.
pub proof fn lemma_applied(
    entries: Seq<(Seq<char>, Json)>,
    key: Seq<char>,
    value: ManagedView,
    q: Seq<char>,
)
    ensures
        q != key ==> string_map::lookup(applied(entries, key, value), q) == string_map::lookup(
            entries,
            q,
        ),
        match value {
            ManagedView::Replace(v) => string_map::lookup(applied(entries, key, value), key)
                == Some(v),
            ManagedView::InsertEntries(list) => {
                let before = match string_map::lookup(entries, key) {
                    Some(Json::Object(inner)) => inner,
                    _ => Seq::empty(),
                };
                &&& string_map::lookup(applied(entries, key, value), key) == Some(
                    Json::Object(inserted(before, list)),
                )
                &&& string_map::lookup(inserted(before, list), q) == (if string_map::lookup(
                    before,
                    q,
                ) is Some {
                    string_map::lookup(before, q)
                } else {
                    string_map::lookup(list, q)
                })
            },
        },
{
    match value {
        ManagedView::Replace(v) => {
            string_map::lemma_with_value_lookup(entries, key, v, key);
            string_map::lemma_with_value_lookup(entries, key, v, q);
            string_map::lemma_push_lookup(entries, key, v, key);
            string_map::lemma_push_lookup(entries, key, v, q);
        },
        ManagedView::InsertEntries(list) => {
            let before = match string_map::lookup(entries, key) {
                Some(Json::Object(inner)) => inner,
                _ => Seq::empty(),
            };
            let opened = jsonc::with_object(entries, key);
            lemma_with_object(entries, key, q);
            string_map::lemma_with_value_lookup(
                entries,
                key,
                Json::Object(Seq::empty()),
                key,
            );
            string_map::lemma_push_lookup(entries, key, Json::Object(Seq::empty()), key);
            assert(string_map::lookup(opened, key) == Some(Json::Object(before)));
            let done = Json::Object(inserted(before, list));
            string_map::lemma_with_value_lookup(opened, key, done, key);
            string_map::lemma_with_value_lookup(opened, key, done, q);
            lemma_inserted(before, list, q);
        },
    }
}

/// Whether `key` is one of the managed keys.
pub open spec fn manages(managed: Seq<(Seq<char>, ManagedView)>, key: Seq<char>) -> bool {
    exists|i: int| 0 <= i < managed.len() && (#[trigger] managed[i]).0 == key
}

/// A merge leaves every key that is not managed as the user has it.
pub proof fn lemma_merge_keeps_user_keys(
    entries: Seq<(Seq<char>, Json)>,
    managed: Seq<(Seq<char>, ManagedView)>,
    q: Seq<char>,
)
    requires
        !manages(managed, q),
    ensures
        string_map::lookup(merged(entries, managed), q) == string_map::lookup(entries, q),
    decreases managed.len(),
{
    if managed.len() > 0 {
        let d = managed.drop_last();
        assert forall|i: int| 0 <= i < d.len() implies (#[trigger] d[i]).0 != q by {
            assert(managed[i].0 != q);
        }
        lemma_merge_keeps_user_keys(entries, d, q);
        assert(managed[managed.len() - 1].0 != q);
        lemma_applied(merged(entries, d), managed.last().0, managed.last().1, q);
    }
}

/// Whether a managed key has nothing more to do.
spec fn is_applied(
    entries: Seq<(Seq<char>, Json)>,
    key: Seq<char>,
    value: ManagedView,
) -> bool {
    match value {
        ManagedView::Replace(v) => string_map::lookup(entries, key) == Some(v),
        ManagedView::InsertEntries(list) => string_map::lookup(entries, key) matches Some(
            Json::Object(inner),
        ) && inserted(inner, list) == inner,
    }
}

proof fn lemma_inserted_twice(
    entries: Seq<(Seq<char>, Json)>,
    list: Seq<(Seq<char>, Json)>,
    upto: Seq<(Seq<char>, Json)>,
)
    requires
        forall|i: int|
            0 <= i < upto.len() ==> string_map::lookup(
                inserted(entries, list),
                (#[trigger] upto[i]).0,
            ) is Some,
    ensures
        inserted(inserted(entries, list), upto) == inserted(entries, list),
    decreases upto.len(),
{
    if upto.len() > 0 {
        let d = upto.drop_last();
        assert forall|i: int| 0 <= i < d.len() implies string_map::lookup(
            inserted(entries, list),
            (#[trigger] d[i]).0,
        ) is Some by {
            assert(d[i] == upto[i]);
        }
        lemma_inserted_twice(entries, list, d);
        assert(string_map::lookup(inserted(entries, list), upto[upto.len() - 1].0) is Some);
    }
}

proof fn lemma_applied_stays(
    entries: Seq<(Seq<char>, Json)>,
    key: Seq<char>,
    value: ManagedView,
)
    ensures
        is_applied(applied(entries, key, value), key, value),
{
    lemma_applied(entries, key, value, key);
    match value {
        ManagedView::Replace(v) => {},
        ManagedView::InsertEntries(list) => {
            let before = match string_map::lookup(entries, key) {
                Some(Json::Object(inner)) => inner,
                _ => Seq::empty(),
            };
            assert forall|i: int| 0 <= i < list.len() implies string_map::lookup(
                inserted(before, list),
                (#[trigger] list[i]).0,
            ) is Some by {
                lemma_inserted(before, list, list[i].0);
                string_map::lemma_lookup(list, list[i].0);
            }
            lemma_inserted_twice(before, list, list);
        },
    }
}

proof fn lemma_applied_again(
    entries: Seq<(Seq<char>, Json)>,
    key: Seq<char>,
    value: ManagedView,
)
    requires
        is_applied(entries, key, value),
    ensures
        applied(entries, key, value) == entries,
{
    string_map::lemma_with_value_same(entries, key);
}

proof fn lemma_merged_applied(
    entries: Seq<(Seq<char>, Json)>,
    managed: Seq<(Seq<char>, ManagedView)>,
    i: int,
)
    requires
        string_map::keys_of(managed).no_duplicates(),
        0 <= i < managed.len(),
    ensures
        is_applied(merged(entries, managed), managed[i].0, managed[i].1),
    decreases managed.len(),
{
    let d = managed.drop_last();
    let n = managed.len() - 1;
    let before = merged(entries, d);
    let ks = string_map::keys_of(managed);
    if i == n {
        lemma_applied_stays(before, managed[n].0, managed[n].1);
    } else {
        assert(string_map::keys_of(d).no_duplicates()) by {
            let kd = string_map::keys_of(d);
            assert forall|a: int, b: int|
                0 <= a < kd.len() && 0 <= b < kd.len() && a != b implies kd[a] != kd[b] by {
                assert(ks[a] != ks[b]);
            }
        }
        lemma_merged_applied(entries, d, i);
        assert(ks[i] != ks[n]);
        lemma_applied(before, managed[n].0, managed[n].1, managed[i].0);
    }
}

proof fn lemma_merge_of_applied(
    entries: Seq<(Seq<char>, Json)>,
    managed: Seq<(Seq<char>, ManagedView)>,
)
    requires
        forall|i: int|
            0 <= i < managed.len() ==> is_applied(
                entries,
                (#[trigger] managed[i]).0,
                managed[i].1,
            ),
    ensures
        merged(entries, managed) == entries,
    decreases managed.len(),
{
    if managed.len() > 0 {
        let d = managed.drop_last();
        assert forall|i: int| 0 <= i < d.len() implies is_applied(
            entries,
            (#[trigger] d[i]).0,
            d[i].1,
        ) by {
            assert(d[i] == managed[i]);
        }
        lemma_merge_of_applied(entries, d);
        let n = managed.len() - 1;
        assert(is_applied(entries, managed[n].0, managed[n].1));
        lemma_applied_again(entries, managed[n].0, managed[n].1);
    }
}

/// Merging the same keys a second time changes nothing.
pub proof fn lemma_merge_twice(
    entries: Seq<(Seq<char>, Json)>,
    managed: Seq<(Seq<char>, ManagedView)>,
)
    requires
        string_map::keys_of(managed).no_duplicates(),
    ensures
        merged(merged(entries, managed), managed) == merged(entries, managed),
{
    let once = merged(entries, managed);
    assert forall|i: int| 0 <= i < managed.len() implies is_applied(
        once,
        (#[trigger] managed[i]).0,
        managed[i].1,
    ) by {
        lemma_merged_applied(entries, managed, i);
    }
    lemma_merge_of_applied(once, managed);
}

/// No key is managed twice.
pub proof fn lemma_managed_keys_distinct(skip_proc_macro_server: bool, skip_rustfmt: bool)
    ensures
        string_map::keys_of(managed_keys(skip_proc_macro_server, skip_rustfmt)).no_duplicates(),
{
    reveal_strlit("rust-analyzer.workspace.discoverConfig");
    reveal_strlit("rust-analyzer.server.path");
    reveal_strlit("rust-analyzer.procMacro.server");
    reveal_strlit("rust-analyzer.rustfmt.overrideCommand");
    reveal_strlit("rust-analyzer.check.overrideCommand");
    reveal_strlit("files.watcherExclude");
    reveal_strlit("files.exclude");
    reveal_strlit("search.exclude");
    let ks = string_map::keys_of(managed_keys(skip_proc_macro_server, skip_rustfmt));
    assert forall|i: int, j: int|
        0 <= i < ks.len() && 0 <= j < ks.len() && i != j implies ks[i] != ks[j] by {
        assert(ks[i].len() != ks[j].len());
    }
}

/// What setup writes reads back, whether it goes into the settings themselves or
/// under a key.
pub proof fn lemma_managed_keys_writable(
    skip_proc_macro_server: bool,
    skip_rustfmt: bool,
    target: Seq<Seq<char>>,
)
    requires
        target.len() <= 1,
    ensures
        are_writable(managed_keys(skip_proc_macro_server, skip_rustfmt), target),
        forall|entries: Seq<(Seq<char>, Json)>, commas: bool| #[trigger]
            are_apart(entries, managed_keys(skip_proc_macro_server, skip_rustfmt), commas),
{
    reveal_with_fuel(jsonc::fits, 3);
    reveal_with_fuel(jsonc::is_spelled, 3);
    let managed = managed_keys(skip_proc_macro_server, skip_rustfmt);
    let n = jsonc::nesting_limit() - 2 * target.len();
    let config = discover_config()->Object_0;
    assert forall|i: int| 0 <= i < config.len() implies jsonc::is_spelled((#[trigger] config[i]).1)
        && jsonc::fits(config[i].1, n - 4) by {}
    assert(is_writable(ManagedView::Replace(discover_config()), n));
    assert forall|i: int| 0 <= i < managed.len() implies is_writable(
        (#[trigger] managed[i]).1,
        n,
    ) by {}
}

/// A replacement under a key leaves what is beside the key as it was.
pub proof fn lemma_replace_keeps_siblings(
    entries: Seq<(Seq<char>, Json)>,
    managed: Seq<(Seq<char>, ManagedView)>,
    k: Seq<char>,
    q: Seq<char>,
)
    requires
        q != k,
    ensures
        string_map::lookup(
            string_map::without_key(entries, k).push((k, Json::Object(realized_all(managed)))),
            q,
        ) == string_map::lookup(entries, q),
{
    string_map::lemma_without_other_key(entries, k, q);
    string_map::lemma_push_lookup(
        string_map::without_key(entries, k),
        k,
        Json::Object(realized_all(managed)),
        q,
    );
}

/// After a merge every managed key has its value: the one that replaces, or an
/// object with the entries that were missing, in which everything that the user
/// had there is as it was.
pub proof fn lemma_merge_sets_managed_keys(
    entries: Seq<(Seq<char>, Json)>,
    managed: Seq<(Seq<char>, ManagedView)>,
    i: int,
    q: Seq<char>,
)
    requires
        string_map::keys_of(managed).no_duplicates(),
        0 <= i < managed.len(),
    ensures
        match managed[i].1 {
            ManagedView::Replace(v) => string_map::lookup(merged(entries, managed), managed[i].0)
                == Some(v),
            ManagedView::InsertEntries(list) => string_map::lookup(
                merged(entries, managed),
                managed[i].0,
            ) matches Some(Json::Object(inner)) && {
                let user = match string_map::lookup(entries, managed[i].0) {
                    Some(Json::Object(own)) => string_map::lookup(own, q),
                    _ => None,
                };
                string_map::lookup(inner, q) == if user is Some {
                    user
                } else {
                    string_map::lookup(list, q)
                }
            },
        },
    decreases managed.len(),
{
    let d = managed.drop_last();
    let n = managed.len() - 1;
    let before = merged(entries, d);
    let ks = string_map::keys_of(managed);
    let kd = string_map::keys_of(d);
    assert forall|a: int, b: int|
        0 <= a < kd.len() && 0 <= b < kd.len() && a != b implies kd[a] != kd[b] by {
        assert(ks[a] != ks[b]);
    }
    if i == n {
        assert forall|a: int| 0 <= a < d.len() implies (#[trigger] d[a]).0 != managed[n].0 by {
            assert(ks[a] != ks[n]);
        }
        lemma_merge_keeps_user_keys(entries, d, managed[n].0);
        lemma_applied(before, managed[n].0, managed[n].1, q);
    } else {
        lemma_merge_sets_managed_keys(entries, d, i, q);
        assert(ks[i] != ks[n]);
        lemma_applied(before, managed[n].0, managed[n].1, managed[i].0);
    }
}

proof fn lemma_applied_keys(
    entries: Seq<(Seq<char>, Json)>,
    key: Seq<char>,
    value: ManagedView,
)
    ensures
        string_map::keys_of(entries).is_prefix_of(
            string_map::keys_of(applied(entries, key, value)),
        ),
{
    let ks = string_map::keys_of(entries);
    let opened = jsonc::with_object(entries, key);
    let empty = Json::Object(Seq::empty());
    string_map::lemma_with_value_keys(entries, key, empty);
    let n = entries.len() as int;
    assert(string_map::keys_of(entries.push((key, empty))).subrange(0, n) =~= ks);
    assert(ks.subrange(0, n) =~= ks);
    match value {
        ManagedView::Replace(v) => {
            string_map::lemma_with_value_keys(entries, key, v);
            assert(string_map::keys_of(entries.push((key, v))).subrange(0, n) =~= ks);
        },
        ManagedView::InsertEntries(list) => {
            string_map::lemma_with_value_keys(
                opened,
                key,
                Json::Object(inserted(string_map::lookup(opened, key)->0->Object_0, list)),
            );
        },
    }
}

/// A merge leaves the keys that were there in their order; new ones come after
/// them.
pub proof fn lemma_merge_keeps_order(
    entries: Seq<(Seq<char>, Json)>,
    managed: Seq<(Seq<char>, ManagedView)>,
)
    ensures
        string_map::keys_of(entries).is_prefix_of(string_map::keys_of(merged(entries, managed))),
    decreases managed.len(),
{
    let ks = string_map::keys_of(entries);
    if managed.len() == 0 {
        assert(ks.subrange(0, ks.len() as int) =~= ks);
    } else {
        let d = managed.drop_last();
        lemma_merge_keeps_order(entries, d);
        lemma_applied_keys(merged(entries, d), managed.last().0, managed.last().1);
        let mid = string_map::keys_of(merged(entries, d));
        let out = string_map::keys_of(merged(entries, managed));
        assert(out.subrange(0, ks.len() as int) =~= out.subrange(0, mid.len() as int).subrange(
            0,
            ks.len() as int,
        ));
    }
}

/// A merge without a key goes into the object of the file. With one it goes into
/// the object under the key, which is made where it is missing, and everything
/// beside the key stays.
pub proof fn lemma_merge_place(
    path: Seq<char>,
    existing: Option<Seq<char>>,
    managed: Seq<(Seq<char>, ManagedView)>,
    k: Seq<char>,
    q: Seq<char>,
    entries: Seq<(Seq<char>, Json)>,
)
    requires
        file_members(path, existing) == Ok::<Seq<(Seq<char>, Json)>, Seq<char>>(entries),
    ensures
        merge_outcome(path, existing, managed, None) matches Ok(after) && after == merged(
            entries,
            managed,
        ),
        string_map::lookup(entries, k) matches Some(Json::Object(inner)) ==> (merge_outcome(
            path,
            existing,
            managed,
            Some(k),
        ) matches Ok(after) && string_map::lookup(after, k) == Some(
            Json::Object(merged(inner, managed)),
        ) && (q != k ==> string_map::lookup(after, q) == string_map::lookup(entries, q))
            && string_map::keys_of(after) == string_map::keys_of(entries)),
        string_map::lookup(entries, k) is None ==> (merge_outcome(
            path,
            existing,
            managed,
            Some(k),
        ) matches Ok(after) && string_map::lookup(after, k) == Some(
            Json::Object(merged(Seq::empty(), managed)),
        ) && (q != k ==> string_map::lookup(after, q) == string_map::lookup(entries, q))),
        string_map::lookup(entries, k) matches Some(v) ==> (!(v is Object) ==> (merge_outcome(
            path,
            existing,
            managed,
            Some(k),
        ) matches Err(e) && e == path + "'s `"@ + k
            + "` is not an object; refusing to merge. Use --replace to overwrite."@)),
{
    match string_map::lookup(entries, k) {
        Some(Json::Object(inner)) => {
            let done = Json::Object(merged(inner, managed));
            string_map::lemma_with_value_lookup(entries, k, done, k);
            string_map::lemma_with_value_lookup(entries, k, done, q);
            string_map::lemma_with_value_keys(entries, k, done);
        },
        None => {
            let done = Json::Object(merged(Seq::empty(), managed));
            string_map::lemma_push_lookup(entries, k, done, k);
            string_map::lemma_push_lookup(entries, k, done, q);
        },
        _ => {},
    }
}

/// A file that is missing or blank counts as an empty object; any other text is
/// taken as it is. One that is no JSON, or holds no object, is left alone, and
/// the error says which.
pub proof fn lemma_file_taken(path: Seq<char>, existing: Option<Seq<char>>, t: Seq<char>)
    ensures
        effective_text(None) == "{}\n"@,
        (forall|i: int| 0 <= i < t.len() ==> text::is_white(#[trigger] t[i])) ==> effective_text(
            Some(t),
        ) == "{}\n"@,
        (exists|i: int| 0 <= i < t.len() && !text::is_white(#[trigger] t[i])) ==> effective_text(
            Some(t),
        ) == t,
        match jsonc::parsed_document(effective_text(existing)) {
            Ok((Some(Json::Object(entries)), _, _)) => file_members(path, existing) matches Ok(m)
                && m == entries,
            Ok(_) => file_members(path, existing) matches Err(e) && e == path
                + "'s root is not a JSON object; refusing to merge. Use --replace to overwrite."@,
            Err(reason) => file_members(path, existing) matches Err(e) && e == path
                + " is not valid JSON ("@ + reason + ")"@,
        },
{
    let r = text::lemma_trimmed(t);
    if forall|i: int| 0 <= i < t.len() ==> text::is_white(#[trigger] t[i]) {
        if r.0 < r.1 {
            assert(text::is_white(t[r.0]));
        }
    }
    if exists|i: int| 0 <= i < t.len() && !text::is_white(#[trigger] t[i]) {
        let i = choose|i: int| 0 <= i < t.len() && !text::is_white(#[trigger] t[i]);
        if r.0 == r.1 {
            assert(text::is_white(t[i]));
        }
    }
}

/// A replacement without a key leaves the managed keys and nothing else, whatever
/// was there. With a key it leaves everything beside the key.
pub proof fn lemma_replacement(
    path: Seq<char>,
    existing: Option<Seq<char>>,
    managed: Seq<(Seq<char>, ManagedView)>,
    k: Seq<char>,
    q: Seq<char>,
    i: int,
)
    ensures
        replace_outcome(path, existing, managed, None) matches Ok(after) && after.len()
            == managed.len() && (0 <= i < managed.len() ==> after[i].0 == managed[i].0
            && match managed[i].1 {
            ManagedView::Replace(v) => after[i].1 == v,
            ManagedView::InsertEntries(list) => after[i].1 == Json::Object(list),
        }),
        file_members(path, existing) matches Ok(entries) ==> (replace_outcome(
            path,
            existing,
            managed,
            Some(k),
        ) matches Ok(after) && (q != k ==> string_map::lookup(after, q) == string_map::lookup(
            entries,
            q,
        )) && after.len() > 0 && after.last().0 == k && (after.last().1 matches Json::Object(own)
            && own.len() == managed.len() && (0 <= i < managed.len() ==> own[i].0 == managed[i].0
            && match managed[i].1 {
            ManagedView::Replace(v) => own[i].1 == v,
            ManagedView::InsertEntries(list) => own[i].1 == Json::Object(list),
        }))),
        file_members(path, existing) is Err ==> replace_outcome(
            path,
            existing,
            managed,
            Some(k),
        ) == file_members(path, existing),
{
    if let Ok(entries) = file_members(path, existing) {
        if q != k {
            lemma_replace_keeps_siblings(entries, managed, k, q);
        }
    }
}

/// The settings name the programs in the launcher directory of the workspace.
pub proof fn lemma_launcher_reference(filename: Seq<char>)
    ensures
        launcher_reference(filename) == "${workspaceFolder}/.vscode/.rules_rust_analyzer/"@
            + filename,
{
    reveal_strlit("${workspaceFolder}/");
    reveal_strlit(".vscode");
    reveal_strlit("/");
    reveal_strlit(".rules_rust_analyzer");
    reveal_strlit("${workspaceFolder}/.vscode/.rules_rust_analyzer/");
    assert(launcher_reference(filename)
        =~= "${workspaceFolder}/.vscode/.rules_rust_analyzer/"@ + filename);
}

/// Whichever parts are left out, discovery, the server and the check run the
/// programs in the launcher directory and the links of Bazel are excluded. The
/// proc-macro server and the formatter are managed exactly where they are not
/// left out.
pub proof fn lemma_managed_values(skip_proc_macro_server: bool, skip_rustfmt: bool)
    ensures
        ({
            let m = managed_keys(skip_proc_macro_server, skip_rustfmt);
            let excluded = ManagedView::InsertEntries(seq![("**/bazel-*/**"@, Json::Bool(true))]);
            &&& m.contains(
                ("rust-analyzer.workspace.discoverConfig"@, ManagedView::Replace(discover_config())),
            )
            &&& m.contains(
                (
                    "rust-analyzer.server.path"@,
                    ManagedView::Replace(Json::Text(launcher_reference("rust_analyzer.exe"@))),
                ),
            )
            &&& m.contains(
                (
                    "rust-analyzer.check.overrideCommand"@,
                    ManagedView::Replace(
                        Json::Array(
                            seq![
                                Json::Text(launcher_reference(FLYCHECK_BINARY_FILENAME@)),
                                Json::Text("--saved-file"@),
                                Json::Text("$saved_file"@),
                            ],
                        ),
                    ),
                ),
            )
            &&& m.contains(("files.watcherExclude"@, excluded))
            &&& m.contains(("files.exclude"@, excluded))
            &&& m.contains(("search.exclude"@, excluded))
            &&& !skip_proc_macro_server ==> m.contains(
                (
                    "rust-analyzer.procMacro.server"@,
                    ManagedView::Replace(
                        Json::Text(launcher_reference("rust_analyzer_proc_macro_srv.exe"@)),
                    ),
                ),
            )
            &&& !skip_rustfmt ==> m.contains(
                (
                    "rust-analyzer.rustfmt.overrideCommand"@,
                    ManagedView::Replace(
                        Json::Array(seq![Json::Text(launcher_reference("rustfmt.exe"@))]),
                    ),
                ),
            )
            &&& m.len() == 6 + (if skip_proc_macro_server {
                0int
            } else {
                1
            }) + (if skip_rustfmt {
                0int
            } else {
                1
            })
            &&& skip_proc_macro_server ==> !manages(m, "rust-analyzer.procMacro.server"@)
            &&& skip_rustfmt ==> !manages(m, "rust-analyzer.rustfmt.overrideCommand"@)
        }),
{
    let m = managed_keys(skip_proc_macro_server, skip_rustfmt);
    let n = m.len() as int;
    reveal_strlit("rust-analyzer.workspace.discoverConfig");
    reveal_strlit("rust-analyzer.server.path");
    reveal_strlit("rust-analyzer.procMacro.server");
    reveal_strlit("rust-analyzer.rustfmt.overrideCommand");
    reveal_strlit("rust-analyzer.check.overrideCommand");
    reveal_strlit("files.watcherExclude");
    reveal_strlit("files.exclude");
    reveal_strlit("search.exclude");
    assert(m[0].0 == "rust-analyzer.workspace.discoverConfig"@);
    assert(m[1].0 == "rust-analyzer.server.path"@);
    assert(m[n - 4].0 == "rust-analyzer.check.overrideCommand"@);
    assert(m[n - 3].0 == "files.watcherExclude"@);
    assert(m[n - 2].0 == "files.exclude"@);
    assert(m[n - 1].0 == "search.exclude"@);
    if !skip_proc_macro_server {
        assert(m[2].0 == "rust-analyzer.procMacro.server"@);
    }
    if !skip_rustfmt {
        assert(m[n - 5].0 == "rust-analyzer.rustfmt.overrideCommand"@);
    }
    if skip_proc_macro_server {
        assert forall|i: int| 0 <= i < m.len() implies (#[trigger] m[i]).0
            != "rust-analyzer.procMacro.server"@ by {
            assert(m[i].0.len() != "rust-analyzer.procMacro.server"@.len());
        }
    }
    if skip_rustfmt {
        assert forall|i: int| 0 <= i < m.len() implies (#[trigger] m[i]).0
            != "rust-analyzer.rustfmt.overrideCommand"@ by {
            assert(m[i].0.len() != "rust-analyzer.rustfmt.overrideCommand"@.len());
        }
    }
}

/// Discovery runs with the argument that rust-analyzer fills in, and again
/// whenever a file that describes a build changes.
pub proof fn lemma_discovery_settings(file: Seq<char>)
    ensures
        json::member(discover_config(), "command"@) matches Some(Json::Array(command))
            && command.len() == 2 && command[0] == Json::Text(
            launcher_reference(DISCOVER_BINARY_FILENAME@),
        ) && command[1] == Json::Text("{arg}"@),
        json::member(discover_config(), "filesToWatch"@) matches Some(Json::Array(files)) && (
        files.contains(Json::Text(file)) <==> file == "BUILD"@ || file == "BUILD.bazel"@ || file
            == "MODULE.bazel"@ || file == "WORKSPACE"@ || file == "WORKSPACE.bazel"@),
        json::member(discover_config(), "progressLabel"@) == Some(Json::Text("rules_rust"@)),
{
    reveal_strlit("command");
    reveal_strlit("filesToWatch");
    reveal_strlit("progressLabel");
    let entries = discover_config()->Object_0;
    assert("command"@.len() != "filesToWatch"@.len());
    assert("command"@.len() != "progressLabel"@.len());
    assert("filesToWatch"@.len() != "progressLabel"@.len());
    string_map::lemma_first_key(entries, "command"@, 0);
    string_map::lemma_first_key(entries, "filesToWatch"@, 1);
    string_map::lemma_first_key(entries, "progressLabel"@, 2);
    let files = entries[1].1->Array_0;
    assert(files[0] == Json::Text("BUILD"@));
    assert(files[1] == Json::Text("BUILD.bazel"@));
    assert(files[2] == Json::Text("MODULE.bazel"@));
    assert(files[3] == Json::Text("WORKSPACE"@));
    assert(files[4] == Json::Text("WORKSPACE.bazel"@));
    if files.contains(Json::Text(file)) {
        let i = choose|i: int| 0 <= i < files.len() && files[i] == Json::Text(file);
        assert(i == 0 || i == 1 || i == 2 || i == 3 || i == 4);
    }
}

/// An error names the file and what is wrong with it.
pub proof fn lemma_error_texts(path: String, what: String)
    ensures
        SettingsError::NotJson(path, what).text() == path@ + " is not valid JSON ("@ + what@
            + ")"@,
        SettingsError::RootNotObject(path).text() == path@
            + "'s root is not a JSON object; refusing to merge. Use --replace to overwrite."@,
        SettingsError::KeyNotObject(path, what).text() == path@ + "'s `"@ + what@
            + "` is not an object; refusing to merge. Use --replace to overwrite."@,
{
}

} // verus!
