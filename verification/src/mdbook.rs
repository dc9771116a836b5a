//! The documentation server: its command line, the files that it stages, and
//! the command that it runs.
use vstd::prelude::*;
use crate::paths;
use crate::text;
use crate::text::{
    begins_with, copied, decimal_of, finishes_with, join_texts, same_text,
    split_first, trim_of, without_prefix,
};

verus! {

/// The directory, in that for temporary files, that holds what is staged.
pub const RULES_MDBOOK_TMP_NAME: &'static str = "rules_mdbook_server";

// ---------------------------------------------------------------------------
// The command line
// ---------------------------------------------------------------------------

/// What one argument says.
#[derive(Debug, PartialEq, Eq)]
pub enum ServeArg {
    /// Where mdbook is in the runfiles.
    Mdbook(String),
    /// Where a plugin is in the runfiles.
    Plugin(String),
    /// The configuration, in the directory that is served.
    Config(String),
    Hostname(String),
    Port(String),
    /// Where a file is in the runfiles, and where it is staged.
    Src(String, String),
    /// A file without a place to stage it; holds the text of the argument.
    MalformedSrc(String),
    /// Something else, which is ignored.
    Other,
}

/// The contents of what one argument says.
pub enum ServeArgView {
    Mdbook(Seq<char>),
    Plugin(Seq<char>),
    Config(Seq<char>),
    Hostname(Seq<char>),
    Port(Seq<char>),
    Src(Seq<char>, Seq<char>),
    MalformedSrc(Seq<char>),
    Other,
}

impl View for ServeArg {
    type V = ServeArgView;

    open spec fn view(&self) -> ServeArgView {
        match self {
            ServeArg::Mdbook(v) => ServeArgView::Mdbook(v@),
            ServeArg::Plugin(v) => ServeArgView::Plugin(v@),
            ServeArg::Config(v) => ServeArgView::Config(v@),
            ServeArg::Hostname(v) => ServeArgView::Hostname(v@),
            ServeArg::Port(v) => ServeArgView::Port(v@),
            ServeArg::Src(r, d) => ServeArgView::Src(r@, d@),
            ServeArg::MalformedSrc(v) => ServeArgView::MalformedSrc(v@),
            ServeArg::Other => ServeArgView::Other,
        }
    }
}

/// What one argument says.
pub open spec fn meaning(arg: Seq<char>) -> ServeArgView {
    match text::after_prefix(arg, "--mdbook="@) {
        Some(v) => ServeArgView::Mdbook(v),
        None => match text::after_prefix(arg, "--plugin="@) {
            Some(v) => ServeArgView::Plugin(v),
            None => match text::after_prefix(arg, "--config="@) {
                Some(v) => ServeArgView::Config(v),
                None => match text::after_prefix(arg, "--hostname="@) {
                    Some(v) => ServeArgView::Hostname(v),
                    None => match text::after_prefix(arg, "--port="@) {
                        Some(v) => ServeArgView::Port(v),
                        None => match text::after_prefix(arg, "--src="@) {
                            Some(v) => match text::split_at_first(v, "="@) {
                                Some(p) => ServeArgView::Src(p.0, p.1),
                                None => ServeArgView::MalformedSrc(v),
                            },
                            None => ServeArgView::Other,
                        },
                    },
                },
            },
        },
    }
}

/// What one argument says.
pub fn parse_serve_arg(arg: &str) -> (r: ServeArg)
    ensures
        r@ == meaning(arg@),
{
    match without_prefix(arg, "--mdbook=") {
        Some(v) => return ServeArg::Mdbook(v),
        None => {},
    }
    match without_prefix(arg, "--plugin=") {
        Some(v) => return ServeArg::Plugin(v),
        None => {},
    }
    match without_prefix(arg, "--config=") {
        Some(v) => return ServeArg::Config(v),
        None => {},
    }
    match without_prefix(arg, "--hostname=") {
        Some(v) => return ServeArg::Hostname(v),
        None => {},
    }
    match without_prefix(arg, "--port=") {
        Some(v) => return ServeArg::Port(v),
        None => {},
    }
    match without_prefix(arg, "--src=") {
        Some(v) => match split_first(v.as_str(), "=") {
            Some((rlocation, dest)) => ServeArg::Src(rlocation, dest),
            None => ServeArg::MalformedSrc(v),
        },
        None => ServeArg::Other,
    }
}

/// What has to be looked up in the runfiles for an argument.
pub open spec fn wanted(arg: Seq<char>) -> Option<Seq<char>> {
    match meaning(arg) {
        ServeArgView::Mdbook(v) => Some(v),
        ServeArgView::Plugin(v) => Some(v),
        ServeArgView::Src(r, _) => Some(r),
        _ => None,
    }
}

/// What has to be looked up in the runfiles for an argument.
pub fn rlocation_of(arg: &str) -> (r: Option<String>)
    ensures
        text::opt_view(r) == wanted(arg@),
{
    match parse_serve_arg(arg) {
        ServeArg::Mdbook(v) => Some(v),
        ServeArg::Plugin(v) => Some(v),
        ServeArg::Src(rlocation, _) => Some(rlocation),
        _ => None,
    }
}

/// What is wrong with a command line.
#[derive(Debug, PartialEq, Eq)]
pub enum ServeError {
    /// A program is not in the runfiles; holds where it should be.
    MissingProgram(String),
    /// A file has no place to stage it; holds the text of the argument.
    MalformedSrc(String),
    /// A file is not in the runfiles; holds where it should be.
    MissingSrc(String),
    /// There is no mdbook, configuration, host name or port.
    MissingArgument,
    /// A file would be staged outside of the directory that is served; holds
    /// it and the place.
    OutsideWorkdir(String, String),
    /// A plugin is not in any directory.
    NoDirectory(String),
}

impl ServeError {
    /// The text of the error.
    pub open spec fn text(self) -> Seq<char> {
        match self {
            ServeError::MissingProgram(rlocation) => "Failed to resolve runfile: "@ + rlocation@,
            ServeError::MalformedSrc(value) =>
                "Malformed --src arg (expected `rlocation=dest`): "@ + value@,
            ServeError::MissingSrc(rlocation) => "Failed to resolve src runfile: "@ + rlocation@,
            ServeError::MissingArgument =>
                "--mdbook, --config, --hostname and --port are required"@,
            ServeError::OutsideWorkdir(src, dest) => "Refusing to stage outside workdir: "@ + src@
                + " -> "@ + dest@,
            ServeError::NoDirectory(plugin) => "plugin has no parent: "@ + plugin@,
        }
    }

    /// Describes the error.
    pub fn message(&self) -> (r: String)
        ensures
            r@ == self.text(),
    {
        match self {
            ServeError::MissingProgram(rlocation) => {
                let mut r = "Failed to resolve runfile: ".to_owned();
                r.append(rlocation.as_str());
                r
            },
            ServeError::MalformedSrc(value) => {
                let mut r = "Malformed --src arg (expected `rlocation=dest`): ".to_owned();
                r.append(value.as_str());
                r
            },
            ServeError::MissingSrc(rlocation) => {
                let mut r = "Failed to resolve src runfile: ".to_owned();
                r.append(rlocation.as_str());
                r
            },
            ServeError::MissingArgument =>
                "--mdbook, --config, --hostname and --port are required".to_owned(),
            ServeError::OutsideWorkdir(src, dest) => {
                let mut r = "Refusing to stage outside workdir: ".to_owned();
                r.append(src.as_str());
                r.append(" -> ");
                r.append(dest.as_str());
                r
            },
            ServeError::NoDirectory(plugin) => {
                let mut r = "plugin has no parent: ".to_owned();
                r.append(plugin.as_str());
                r
            },
        }
    }
}

/// The command line, with everything found.
#[derive(Debug, PartialEq, Eq)]
pub struct Args {
    pub mdbook: String,
    /// The configuration, in the directory that is served.
    pub config_dest: String,
    pub hostname: String,
    pub port: String,
    pub plugins: Vec<String>,
    /// The files to stage: the place of each in the directory that is served,
    /// and where it comes from, in the order of the places. No place occurs
    /// twice.
    pub srcs: Vec<(String, String)>,
    /// What is handed on to mdbook.
    pub mdbook_args: Vec<String>,
}

/// What the arguments so far say. The last one of a kind counts.
pub struct Found {
    pub mdbook: Option<Seq<char>>,
    pub config_dest: Option<Seq<char>>,
    pub hostname: Option<Seq<char>>,
    pub port: Option<Seq<char>>,
    pub plugins: Seq<Seq<char>>,
    pub srcs: Seq<(Seq<char>, Seq<char>)>,
}

/// Before any argument.
pub open spec fn nothing_found() -> Found {
    Found {
        mdbook: None,
        config_dest: None,
        hostname: None,
        port: None,
        plugins: Seq::empty(),
        srcs: Seq::empty(),
    }
}

/// The first of `srcs` at the place `dest`, or their number.
pub open spec fn place_in(srcs: Seq<(Seq<char>, Seq<char>)>, dest: Seq<char>) -> int
    decreases srcs.len(),
{
    if srcs.len() == 0 {
        0
    } else if paths::same_path(srcs[0].0, dest) {
        0
    } else {
        1 + place_in(srcs.drop_first(), dest)
    }
}

/// How many of `srcs`, from the first on, are at places before `dest`.
pub open spec fn earlier_in(srcs: Seq<(Seq<char>, Seq<char>)>, dest: Seq<char>) -> int
    decreases srcs.len(),
{
    if srcs.len() == 0 {
        0
    } else if paths::precedes(srcs[0].0, dest) {
        1 + earlier_in(srcs.drop_first(), dest)
    } else {
        0
    }
}

/// `srcs` with what is at the place `dest` replaced by `src`, or with it added
/// where the order of the places wants it.
pub open spec fn staged(
    srcs: Seq<(Seq<char>, Seq<char>)>,
    dest: Seq<char>,
    src: Seq<char>,
) -> Seq<(Seq<char>, Seq<char>)> {
    let i = place_in(srcs, dest);
    if 0 <= i < srcs.len() {
        srcs.update(i, (srcs[i].0, src))
    } else {
        srcs.insert(earlier_in(srcs, dest), (dest, src))
    }
}

/// What is found after one more argument, where `location` is what the
/// runfiles gave for what it wants; or the error that it is.
pub open spec fn after_arg(found: Found, arg: Seq<char>, location: Option<Seq<char>>) -> Result<
    Found,
    ServeErrorView,
> {
    match (meaning(arg), location) {
        (ServeArgView::Mdbook(_), Some(p)) => Ok(Found { mdbook: Some(p), ..found }),
        (ServeArgView::Mdbook(v), None) => Err(ServeErrorView::MissingProgram(v)),
        (ServeArgView::Plugin(_), Some(p)) => Ok(
            Found { plugins: found.plugins.push(p), ..found },
        ),
        (ServeArgView::Plugin(v), None) => Err(ServeErrorView::MissingProgram(v)),
        (ServeArgView::Config(v), _) => Ok(Found { config_dest: Some(v), ..found }),
        (ServeArgView::Hostname(v), _) => Ok(Found { hostname: Some(v), ..found }),
        (ServeArgView::Port(v), _) => Ok(Found { port: Some(v), ..found }),
        (ServeArgView::Src(_, d), Some(p)) => Ok(
            Found { srcs: staged(found.srcs, d, p), ..found },
        ),
        (ServeArgView::Src(r, _), None) => Err(ServeErrorView::MissingSrc(r)),
        (ServeArgView::MalformedSrc(v), _) => Err(ServeErrorView::MalformedSrc(v)),
        (ServeArgView::Other, _) => Ok(found),
    }
}

/// The contents of an error.
pub enum ServeErrorView {
    MissingProgram(Seq<char>),
    MalformedSrc(Seq<char>),
    MissingSrc(Seq<char>),
    MissingArgument,
    OutsideWorkdir(Seq<char>, Seq<char>),
    NoDirectory(Seq<char>),
}

impl View for ServeError {
    type V = ServeErrorView;

    open spec fn view(&self) -> ServeErrorView {
        match self {
            ServeError::MissingProgram(v) => ServeErrorView::MissingProgram(v@),
            ServeError::MalformedSrc(v) => ServeErrorView::MalformedSrc(v@),
            ServeError::MissingSrc(v) => ServeErrorView::MissingSrc(v@),
            ServeError::MissingArgument => ServeErrorView::MissingArgument,
            ServeError::OutsideWorkdir(s, d) => ServeErrorView::OutsideWorkdir(s@, d@),
            ServeError::NoDirectory(v) => ServeErrorView::NoDirectory(v@),
        }
    }
}

/// What all arguments say, or the first error.
pub open spec fn after_args(args: Seq<Seq<char>>, locations: Seq<Option<Seq<char>>>) -> Result<
    Found,
    ServeErrorView,
>
    decreases args.len(),
{
    if args.len() == 0 {
        Ok(nothing_found())
    } else {
        match after_args(args.drop_last(), locations.drop_last()) {
            Ok(found) => after_arg(found, args.last(), locations.last()),
            Err(e) => Err(e),
        }
    }
}

/// The contents of optional strings.
pub open spec fn opt_views(list: Seq<Option<String>>) -> Seq<Option<Seq<char>>> {
    list.map_values(|s: Option<String>| text::opt_view(s))
}

/// The contents of the files to stage.
pub open spec fn src_views(list: Seq<(String, String)>) -> Seq<(Seq<char>, Seq<char>)> {
    list.map_values(|p: (String, String)| (p.0@, p.1@))
}

/// Whether `args` is what was found, when all that is needed was.
pub open spec fn is_complete(args: Args, found: Found) -> bool {
    &&& found.mdbook == Some(args.mdbook@)
    &&& found.config_dest == Some(args.config_dest@)
    &&& found.hostname == Some(args.hostname@)
    &&& found.port == Some(args.port@)
    &&& text::views(args.plugins@) == found.plugins
    &&& src_views(args.srcs@) == found.srcs
}

/// Whether something that is needed was not found.
pub open spec fn is_lacking(found: Found) -> bool {
    found.mdbook is None || found.config_dest is None || found.hostname is None || found.port
        is None
}

/// Whether no place occurs twice.
pub open spec fn places_distinct(srcs: Seq<(Seq<char>, Seq<char>)>) -> bool {
    forall|i: int, j: int|
        0 <= i < srcs.len() && 0 <= j < srcs.len() && i != j ==> !paths::same_path(
            (#[trigger] srcs[i]).0,
            (#[trigger] srcs[j]).0,
        )
}

/// Whether every place is before the next.
pub open spec fn places_in_order(srcs: Seq<(Seq<char>, Seq<char>)>) -> bool {
    forall|i: int, j: int|
        0 <= i && j == i + 1 && j < srcs.len() ==> paths::precedes(
            (#[trigger] srcs[i]).0,
            (#[trigger] srcs[j]).0,
        )
}

proof fn lemma_place_in(srcs: Seq<(Seq<char>, Seq<char>)>, dest: Seq<char>, n: int)
    requires
        0 <= n <= srcs.len(),
        forall|k: int| 0 <= k < n ==> !paths::same_path((#[trigger] srcs[k]).0, dest),
        n < srcs.len() ==> paths::same_path(srcs[n].0, dest),
    ensures
        place_in(srcs, dest) == n,
    decreases srcs.len(),
{
    if srcs.len() > 0 && n > 0 {
        assert(!paths::same_path(srcs[0].0, dest));
        let t = srcs.drop_first();
        assert forall|k: int| 0 <= k < n - 1 implies !paths::same_path(
            (#[trigger] t[k]).0,
            dest,
        ) by {
            assert(t[k] == srcs[k + 1]);
        }
        lemma_place_in(t, dest, n - 1);
    }
}

proof fn lemma_earlier_in(srcs: Seq<(Seq<char>, Seq<char>)>, dest: Seq<char>, n: int)
    requires
        0 <= n <= srcs.len(),
        forall|k: int| 0 <= k < n ==> paths::precedes((#[trigger] srcs[k]).0, dest),
        n < srcs.len() ==> !paths::precedes(srcs[n].0, dest),
    ensures
        earlier_in(srcs, dest) == n,
    decreases srcs.len(),
{
    if srcs.len() > 0 && n > 0 {
        assert(paths::precedes(srcs[0].0, dest));
        let t = srcs.drop_first();
        assert forall|k: int| 0 <= k < n - 1 implies paths::precedes(
            (#[trigger] t[k]).0,
            dest,
        ) by {
            assert(t[k] == srcs[k + 1]);
        }
        lemma_earlier_in(t, dest, n - 1);
    }
}

/// Stages `src` at `dest`, in place of what was there, or else where the order
/// of the places wants it.
fn stage_src(srcs: &mut Vec<(String, String)>, dest: String, src: String)
    requires
        places_distinct(src_views(old(srcs)@)),
        places_in_order(src_views(old(srcs)@)),
    ensures
        src_views(final(srcs)@) == staged(src_views(old(srcs)@), dest@, src@),
        places_distinct(src_views(final(srcs)@)),
        places_in_order(src_views(final(srcs)@)),
{
    let ghost all = src_views(srcs@);
    let mut i: usize = 0;
    while i < srcs.len()
        invariant
            i <= srcs@.len(),
            srcs@ == old(srcs)@,
            all == src_views(srcs@),
            places_distinct(all),
            places_in_order(all),
            forall|k: int|
                0 <= k < i ==> !paths::same_path((#[trigger] all[k]).0, dest@)
                    && !paths::same_path(dest@, all[k].0),
        decreases srcs@.len() - i,
    {
        if paths::is_same(srcs[i].0.as_str(), dest.as_str()) {
            proof {
                lemma_place_in(all, dest@, i as int);
            }
            srcs[i].1 = src;
            let ghost after = src_views(srcs@);
            assert(after =~= all.update(i as int, (all[i as int].0, src@)));
            assert forall|k: int| 0 <= k < all.len() implies (#[trigger] after[k]).0
                == all[k].0 by {}
            return;
        }
        i += 1;
    }
    proof {
        lemma_place_in(all, dest@, i as int);
    }
    let mut n: usize = 0;
    while n < srcs.len() && paths::is_before(srcs[n].0.as_str(), dest.as_str())
        invariant
            n <= srcs@.len(),
            srcs@ == old(srcs)@,
            all == src_views(srcs@),
            forall|k: int|
                0 <= k < srcs@.len() ==> !paths::same_path((#[trigger] all[k]).0, dest@),
            forall|k: int| 0 <= k < n ==> paths::precedes((#[trigger] all[k]).0, dest@),
        ensures
            n <= srcs@.len(),
            n < srcs@.len() ==> !paths::precedes(all[n as int].0, dest@) && paths::precedes(
                dest@,
                all[n as int].0,
            ),
        decreases srcs@.len() - n,
    {
        n += 1;
    }
    proof {
        lemma_earlier_in(all, dest@, n as int);
    }
    let ghost added = (dest@, src@);
    srcs.insert(n, (dest, src));
    proof {
        let after = src_views(srcs@);
        assert(after =~= all.insert(n as int, added));
        assert forall|k: int| 0 <= k < after.len() implies #[trigger] after[k] == (if k < n {
            all[k]
        } else if k == n {
            added
        } else {
            all[k - 1]
        }) by {}
    }
}

impl Args {
    /// Reads a command line, where `locations` are what the runfiles gave for
    /// what each of the arguments wants, and `mdbook_args` is what is handed
    /// on. The first argument that is wrong is the error. However often a place
    /// is named, one file is staged there: the one that was named last.
    pub fn parse(
        raw_args: &Vec<String>,
        locations: &Vec<Option<String>>,
        mdbook_args: Vec<String>,
    ) -> (r: Result<Args, ServeError>)
        requires
            raw_args@.len() == locations@.len(),
        ensures
            match after_args(text::views(raw_args@), opt_views(locations@)) {
                Ok(found) => match r {
                    Ok(args) => {
                        &&& is_complete(args, found)
                        &&& args.mdbook_args == mdbook_args
                        &&& places_distinct(src_views(args.srcs@))
                        &&& places_in_order(src_views(args.srcs@))
                    },
                    Err(e) => is_lacking(found) && e@ == ServeErrorView::MissingArgument,
                },
                Err(e) => r matches Err(f) && f@ == e,
            },
    {
        let ghost args = text::views(raw_args@);
        let ghost found_at = opt_views(locations@);
        let mut mdbook: Option<String> = None;
        let mut config_dest: Option<String> = None;
        let mut hostname: Option<String> = None;
        let mut port: Option<String> = None;
        let mut plugins: Vec<String> = Vec::new();
        let mut srcs: Vec<(String, String)> = Vec::new();
        let mut i: usize = 0;
        let ghost mut found = nothing_found();
        assert(text::views(plugins@) =~= Seq::empty());
        assert(src_views(srcs@) =~= Seq::empty());
        assert(args.take(0) =~= Seq::empty());
        while i < raw_args.len()
            invariant
                i <= raw_args@.len(),
                raw_args@.len() == locations@.len(),
                args == text::views(raw_args@),
                found_at == opt_views(locations@),
                after_args(args.take(i as int), found_at.take(i as int)) == Ok::<
                    Found,
                    ServeErrorView,
                >(found),
                found.mdbook == text::opt_view(mdbook),
                found.config_dest == text::opt_view(config_dest),
                found.hostname == text::opt_view(hostname),
                found.port == text::opt_view(port),
                found.plugins == text::views(plugins@),
                found.srcs == src_views(srcs@),
                places_distinct(src_views(srcs@)),
                places_in_order(src_views(srcs@)),
            decreases raw_args@.len() - i,
        {
            let ghost before = found;
            let ghost plugins_before = plugins@;
            let ghost step = after_arg(before, args[i as int], found_at[i as int]);
            proof {
                assert(args.take(i + 1).drop_last() =~= args.take(i as int));
                assert(found_at.take(i + 1).drop_last() =~= found_at.take(i as int));
                assert(after_args(args.take(i + 1), found_at.take(i + 1)) == step);
                if step is Err {
                    lemma_error_stays(args, found_at, i + 1);
                    assert(args.take(args.len() as int) =~= args);
                    assert(found_at.take(args.len() as int) =~= found_at);
                }
            }
            match parse_serve_arg(raw_args[i].as_str()) {
                ServeArg::Mdbook(v) => match &locations[i] {
                    Some(p) => {
                        mdbook = Some(copied(p));
                    },
                    None => return Err(ServeError::MissingProgram(v)),
                },
                ServeArg::Plugin(v) => match &locations[i] {
                    Some(p) => {
                        plugins.push(copied(p));
                        assert(text::views(plugins@) =~= text::views(plugins_before).push(p@));
                    },
                    None => return Err(ServeError::MissingProgram(v)),
                },
                ServeArg::Config(v) => {
                    config_dest = Some(v);
                },
                ServeArg::Hostname(v) => {
                    hostname = Some(v);
                },
                ServeArg::Port(v) => {
                    port = Some(v);
                },
                ServeArg::Src(rlocation, dest) => match &locations[i] {
                    Some(p) => {
                        stage_src(&mut srcs, dest, copied(p));
                    },
                    None => return Err(ServeError::MissingSrc(rlocation)),
                },
                ServeArg::MalformedSrc(v) => return Err(ServeError::MalformedSrc(v)),
                ServeArg::Other => {},
            }
            proof {
                found = step->Ok_0;
            }
            i += 1;
        }
        assert(args.take(i as int) =~= args);
        assert(found_at.take(i as int) =~= found_at);
        match (mdbook, config_dest, hostname, port) {
            (Some(mdbook), Some(config_dest), Some(hostname), Some(port)) => Ok(
                Args { mdbook, config_dest, hostname, port, plugins, srcs, mdbook_args },
            ),
            _ => Err(ServeError::MissingArgument),
        }
    }
}

proof fn lemma_error_stays(args: Seq<Seq<char>>, locations: Seq<Option<Seq<char>>>, n: int)
    requires
        0 <= n <= args.len(),
        args.len() == locations.len(),
        after_args(args.take(n), locations.take(n)) is Err,
    ensures
        after_args(args, locations) == after_args(args.take(n), locations.take(n)),
    decreases args.len() - n,
{
    if n == args.len() {
        assert(args.take(n) =~= args);
        assert(locations.take(n) =~= locations);
    } else {
        assert(args.take(n + 1).drop_last() =~= args.take(n));
        assert(locations.take(n + 1).drop_last() =~= locations.take(n));
        lemma_error_stays(args, locations, n + 1);
    }
}

// ---------------------------------------------------------------------------
// The files
// ---------------------------------------------------------------------------

/// The directory for temporary files of a user with this profile.
pub open spec fn profile_tmp_path(profile: Seq<char>) -> Seq<char> {
    paths::joined(paths::joined(paths::joined(profile, "AppData"@), "Local"@), "Temp"@)
}

/// The directory for temporary files of a user with this profile.
pub fn profile_tmp(profile: &str) -> (r: String)
    ensures
        r@ == profile_tmp_path(profile@),
{
    paths::join(
        paths::join(paths::join(profile, "AppData").as_str(), "Local").as_str(),
        "Temp",
    )
}

/// The names of the variables that can say where temporary files go.
pub fn tmp_variables() -> (r: Vec<String>)
    ensures
        text::views(r@) == seq!["TMP"@, "TEMP"@, "TMPDIR"@, "TEMPDIR"@],
{
    let r: Vec<String> = vec![
        "TMP".to_owned(),
        "TEMP".to_owned(),
        "TMPDIR".to_owned(),
        "TEMPDIR".to_owned(),
    ];
    assert(text::views(r@) =~= seq!["TMP"@, "TEMP"@, "TMPDIR"@, "TEMPDIR"@]);
    r
}

/// The first of `values` that is set.
pub open spec fn first_set(values: Seq<Option<Seq<char>>>) -> Option<Seq<char>>
    decreases values.len(),
{
    if values.len() == 0 {
        None
    } else if values[0] is Some {
        values[0]
    } else {
        first_set(values.drop_first())
    }
}

/// The directory for temporary files: what the first of the variables says, or
/// `/tmp` if there is one, or that of the user's profile if there is one.
pub fn tmp_root(
    values: &Vec<Option<String>>,
    tmp_exists: bool,
    profile: &Option<String>,
    profile_tmp_exists: bool,
) -> (r: Option<String>)
    ensures
        text::opt_view(r) == (match first_set(opt_views(values@)) {
            Some(v) => Some(v),
            None => if tmp_exists {
                Some("/tmp"@)
            } else {
                match profile {
                    Some(p) => if profile_tmp_exists {
                        Some(profile_tmp_path(p@))
                    } else {
                        None
                    },
                    None => None,
                }
            },
        }),
{
    let ghost all = opt_views(values@);
    let mut i: usize = 0;
    assert(all.skip(0) =~= all);
    while i < values.len()
        invariant
            i <= values@.len(),
            all == opt_views(values@),
            first_set(all) == first_set(all.skip(i as int)),
        decreases values@.len() - i,
    {
        assert(all.skip(i as int)[0] == text::opt_view(values@[i as int]));
        match &values[i] {
            Some(v) => return Some(copied(v)),
            None => {},
        }
        assert(all.skip(i as int).drop_first() =~= all.skip(i + 1));
        i += 1;
    }
    if tmp_exists {
        return Some("/tmp".to_owned());
    }
    match profile {
        Some(p) => if profile_tmp_exists {
            Some(profile_tmp(p.as_str()))
        } else {
            None
        },
        None => None,
    }
}

/// A directory of a process of its own, in that for temporary files.
pub fn scratch_dir(tmp_root: &str, pid: u32, suffix: &str) -> (r: String)
    ensures
        r@ == paths::joined(
            paths::joined(tmp_root@, RULES_MDBOOK_TMP_NAME@),
            text::decimal(pid as nat) + "-"@ + suffix@,
        ),
{
    let mut name = decimal_of(pid as u64);
    name.append("-");
    name.append(suffix);
    paths::join(paths::join(tmp_root, RULES_MDBOOK_TMP_NAME).as_str(), name.as_str())
}

/// A file to write: where, and the directory to make for it.
#[derive(Debug, PartialEq, Eq)]
pub struct StagedFile {
    pub path: String,
    pub parent: Option<String>,
}

/// Where to write the file `src`, whose place is `dest` in the directory
/// `workdir`. It is never outside of it.
pub fn stage_input(workdir: &str, dest: &str, src: &str) -> (r: Result<StagedFile, ServeError>)
    ensures
        ({
            let path = paths::joined(workdir@, dest@);
            match r {
                Ok(file) => {
                    &&& paths::below(path, workdir@) is Some
                    &&& file.path@ == path
                    &&& text::opt_view(file.parent) == paths::parent_of(path)
                },
                Err(e) => paths::below(path, workdir@) is None && e@
                    == ServeErrorView::OutsideWorkdir(src@, path),
            }
        }),
{
    let path = paths::join(workdir, dest);
    match paths::strip_prefix(path.as_str(), workdir) {
        Some(_) => {
            let parent = paths::parent(path.as_str());
            Ok(StagedFile { path, parent })
        },
        None => Err(ServeError::OutsideWorkdir(src.to_owned(), path)),
    }
}

/// What to tell when a file could not be copied.
pub fn copy_error(src: &str, dest: &str, reason: &str) -> (r: String)
    ensures
        r@ == "copy `"@ + src@ + "` -> `"@ + dest@ + "`: "@ + reason@,
{
    let mut r = "copy `".to_owned();
    r.append(src);
    r.append("` -> `");
    r.append(dest);
    r.append("`: ");
    r.append(reason);
    r
}

/// The directory that the book is in: that of its configuration.
pub fn book_dir(workdir: &str, config_dest: &str) -> (r: Option<String>)
    ensures
        text::opt_view(r) == paths::parent_of(paths::joined(workdir@, config_dest@)),
{
    paths::parent(paths::join(workdir, config_dest).as_str())
}

// ---------------------------------------------------------------------------
// Builds
// ---------------------------------------------------------------------------

/// Whether to listen for builds, by the variable that asks for it.
pub fn watches_builds(notify_changes: &Option<String>) -> (r: bool)
    ensures
        r == (text::opt_view(*notify_changes) == Some("y"@)),
{
    match notify_changes {
        Some(v) => same_text(v.as_str(), "y"),
        None => false,
    }
}

/// Whether a line says that a build succeeded.
pub open spec fn is_success(line: Seq<char>) -> bool {
    let trimmed = text::trimmed(line);
    "IBAZEL_BUILD_COMPLETED"@.is_prefix_of(trimmed) && "SUCCESS"@.is_suffix_of(trimmed)
}

/// Whether a line says that a build succeeded, so that the files are to be
/// staged again.
pub fn is_build_success(line: &str) -> (r: bool)
    ensures
        r == is_success(line@),
{
    let trimmed = trim_of(line);
    begins_with(trimmed.as_str(), "IBAZEL_BUILD_COMPLETED") && finishes_with(
        trimmed.as_str(),
        "SUCCESS",
    )
}

/// What to tell after the files were staged again, for the `n`-th time.
pub fn restaged_message(n: u64) -> (r: String)
    ensures
        r@ == "[mdbook_server] re-staged sources (#"@ + text::decimal(n as nat)
            + ") after ibazel build"@,
{
    let mut r = "[mdbook_server] re-staged sources (#".to_owned();
    r.append(decimal_of(n).as_str());
    r.append(") after ibazel build");
    r
}

/// What to tell when the files could not be staged again.
pub fn restage_failed_message(reason: &str) -> (r: String)
    ensures
        r@ == "[mdbook_server] re-stage failed: "@ + reason@,
{
    let mut r = "[mdbook_server] re-stage failed: ".to_owned();
    r.append(reason);
    r
}

// ---------------------------------------------------------------------------
// The command
// ---------------------------------------------------------------------------

/// What separates the directories in `PATH`.
pub fn path_separator(windows: bool) -> (r: String)
    ensures
        r@ == (if windows {
            ";"@
        } else {
            ":"@
        }),
{
    if windows {
        ";".to_owned()
    } else {
        ":".to_owned()
    }
}

/// The directory that a plugin is in.
pub open spec fn plugin_dir(plugin: Seq<char>, pwd: Seq<char>) -> Option<Seq<char>> {
    paths::parent_of(
        if paths::absolute(plugin) {
            plugin
        } else {
            paths::joined(pwd, plugin)
        },
    )
}

/// The directories that the plugins are in, or the first plugin that is in
/// none.
pub open spec fn plugin_dirs(plugins: Seq<Seq<char>>, pwd: Seq<char>) -> Result<
    Seq<Seq<char>>,
    Seq<char>,
>
    decreases plugins.len(),
{
    if plugins.len() == 0 {
        Ok(Seq::empty())
    } else {
        match (plugin_dirs(plugins.drop_last(), pwd), plugin_dir(plugins.last(), pwd)) {
            (Ok(dirs), Some(dir)) => Ok(dirs.push(dir)),
            (Ok(_), None) => Err(plugins.last()),
            (Err(e), _) => Err(e),
        }
    }
}

proof fn lemma_plugin_error_stays(plugins: Seq<Seq<char>>, pwd: Seq<char>, n: int)
    requires
        0 <= n <= plugins.len(),
        plugin_dirs(plugins.take(n), pwd) is Err,
    ensures
        plugin_dirs(plugins, pwd) == plugin_dirs(plugins.take(n), pwd),
    decreases plugins.len() - n,
{
    if n == plugins.len() {
        assert(plugins.take(n) =~= plugins);
    } else {
        assert(plugins.take(n + 1).drop_last() =~= plugins.take(n));
        lemma_plugin_error_stays(plugins, pwd, n + 1);
    }
}

/// The new value of `PATH`: the directories that the plugins are in, before
/// those of `path`. It stays as it is when there are no plugins.
pub fn plugin_path(plugins: &Vec<String>, pwd: &str, path: &str, separator: &str) -> (r: Result<
    Option<String>,
    ServeError,
>)
    ensures
        match plugin_dirs(text::views(plugins@), pwd@) {
            Ok(dirs) => r matches Ok(value) && text::opt_view(value) == (if dirs.len() == 0 {
                None::<Seq<char>>
            } else {
                Some(text::joined_with(dirs, separator@) + separator@ + path@)
            }),
            Err(plugin) => r matches Err(e) && e@ == ServeErrorView::NoDirectory(plugin),
        },
{
    let ghost all = text::views(plugins@);
    let mut dirs: Vec<String> = Vec::new();
    let mut i: usize = 0;
    assert(all.take(0) =~= Seq::empty());
    assert(text::views(dirs@) =~= Seq::empty());
    while i < plugins.len()
        invariant
            i <= plugins@.len(),
            dirs@.len() == i,
            all == text::views(plugins@),
            plugin_dirs(all.take(i as int), pwd@) == Ok::<Seq<Seq<char>>, Seq<char>>(
                text::views(dirs@),
            ),
        decreases plugins@.len() - i,
    {
        let ghost before = dirs@;
        assert(all.take(i + 1).drop_last() =~= all.take(i as int));
        assert(all.take(i + 1).last() == plugins@[i as int]@);
        let whole = if paths::is_absolute(plugins[i].as_str()) {
            copied(&plugins[i])
        } else {
            paths::join(pwd, plugins[i].as_str())
        };
        match paths::parent(whole.as_str()) {
            Some(dir) => {
                let ghost d = dir@;
                dirs.push(dir);
                assert(text::views(dirs@) =~= text::views(before).push(d));
            },
            None => {
                proof {
                    lemma_plugin_error_stays(all, pwd@, i + 1);
                }
                return Err(ServeError::NoDirectory(copied(&plugins[i])));
            },
        }
        i += 1;
    }
    assert(all.take(i as int) =~= all);
    if dirs.len() == 0 {
        return Ok(None);
    }
    let mut value = join_texts(&dirs, separator);
    value.append(separator);
    value.append(path);
    Ok(Some(value))
}

/// Whether an argument is the option, by one of its names, alone or with its
/// value.
pub open spec fn is_option(arg: Seq<char>, short: Seq<char>, long: Seq<char>) -> bool {
    arg == short || arg == long || (short + "="@).is_prefix_of(arg) || (long
        + "="@).is_prefix_of(arg)
}

/// Whether an option is among the arguments.
pub open spec fn has_option(args: Seq<Seq<char>>, short: Seq<char>, long: Seq<char>) -> bool {
    exists|i: int| 0 <= i < args.len() && is_option(#[trigger] args[i], short, long)
}

/// Whether an option is among the arguments.
pub fn gives_option(args: &Vec<String>, short: &str, long: &str) -> (r: bool)
    ensures
        r == has_option(text::views(args@), short@, long@),
{
    let mut short_value = short.to_owned();
    short_value.append("=");
    let mut long_value = long.to_owned();
    long_value.append("=");
    let ghost all = text::views(args@);
    let mut i: usize = 0;
    while i < args.len()
        invariant
            i <= args@.len(),
            all == text::views(args@),
            short_value@ == short@ + "="@,
            long_value@ == long@ + "="@,
            forall|k: int| 0 <= k < i ==> !is_option(#[trigger] all[k], short@, long@),
        decreases args@.len() - i,
    {
        let arg = args[i].as_str();
        if same_text(arg, short) || same_text(arg, long) || begins_with(arg, short_value.as_str())
            || begins_with(arg, long_value.as_str()) {
            assert(is_option(all[i as int], short@, long@));
            return true;
        }
        assert(!is_option(all[i as int], short@, long@));
        i += 1;
    }
    false
}

/// An option with its value, unless it is among the arguments.
pub open spec fn unless_given(
    args: Seq<Seq<char>>,
    short: Seq<char>,
    long: Seq<char>,
    value: Seq<char>,
) -> Seq<Seq<char>> {
    if has_option(args, short, long) {
        Seq::empty()
    } else {
        seq![long, value]
    }
}

/// The arguments of mdbook.
pub open spec fn serve_arguments(
    book_dir: Seq<char>,
    args: Seq<Seq<char>>,
    hostname: Seq<char>,
    port: Seq<char>,
    dest_dir: Seq<char>,
) -> Seq<Seq<char>> {
    seq!["serve"@, book_dir] + args + unless_given(args, "-n"@, "--hostname"@, hostname)
        + unless_given(args, "-p"@, "--port"@, port) + unless_given(
        args,
        "-d"@,
        "--dest-dir"@,
        dest_dir,
    )
}

fn append_option(list: &mut Vec<String>, long: &str, value: &str)
    ensures
        text::views(final(list)@) == text::views(old(list)@) + seq![long@, value@],
{
    let ghost before = list@;
    list.push(long.to_owned());
    list.push(value.to_owned());
    assert(text::views(list@) =~= text::views(before) + seq![long@, value@]);
}

/// The arguments of mdbook: what the user hands on, and a host name, a port and
/// a directory for the result where the user gives none. Tells also whether the
/// user gives such a directory.
pub fn serve_args(
    book_dir: &str,
    mdbook_args: &Vec<String>,
    hostname: &str,
    port: &str,
    dest_dir: &str,
) -> (r: (Vec<String>, bool))
    ensures
        text::views(r.0@) == serve_arguments(
            book_dir@,
            text::views(mdbook_args@),
            hostname@,
            port@,
            dest_dir@,
        ),
        r.1 == has_option(text::views(mdbook_args@), "-d"@, "--dest-dir"@),
{
    let ghost args = text::views(mdbook_args@);
    let mut list: Vec<String> = vec!["serve".to_owned(), book_dir.to_owned()];
    assert(text::views(list@) =~= seq!["serve"@, book_dir@] + args.take(0));
    let mut i: usize = 0;
    while i < mdbook_args.len()
        invariant
            i <= mdbook_args@.len(),
            args == text::views(mdbook_args@),
            text::views(list@) == seq!["serve"@, book_dir@] + args.take(i as int),
        decreases mdbook_args@.len() - i,
    {
        let ghost before = list@;
        list.push(copied(&mdbook_args[i]));
        assert(text::views(list@) =~= text::views(before).push(args[i as int]));
        assert(args.take(i + 1) =~= args.take(i as int).push(args[i as int]));
        i += 1;
        assert(text::views(list@) =~= seq!["serve"@, book_dir@] + args.take(i as int));
    }
    assert(args.take(i as int) =~= args);
    let ghost first = text::views(list@);
    if !gives_option(mdbook_args, "-n", "--hostname") {
        append_option(&mut list, "--hostname", hostname);
    }
    let ghost second = first + unless_given(args, "-n"@, "--hostname"@, hostname@);
    assert(text::views(list@) =~= second);
    if !gives_option(mdbook_args, "-p", "--port") {
        append_option(&mut list, "--port", port);
    }
    let ghost third = second + unless_given(args, "-p"@, "--port"@, port@);
    assert(text::views(list@) =~= third);
    let user_dest_dir = gives_option(mdbook_args, "-d", "--dest-dir");
    if !user_dest_dir {
        append_option(&mut list, "--dest-dir", dest_dir);
    }
    assert(text::views(list@) =~= third + unless_given(args, "-d"@, "--dest-dir"@, dest_dir@));
    (list, user_dest_dir)
}

proof fn lemma_option_there(
    whole: Seq<Seq<char>>,
    args: Seq<Seq<char>>,
    at: int,
    short: Seq<char>,
    long: Seq<char>,
    value: Seq<char>,
    from: int,
)
    requires
        0 <= at,
        0 <= from,
        at + args.len() <= whole.len(),
        whole.subrange(at, at + args.len()) == args,
        from + unless_given(args, short, long, value).len() <= whole.len(),
        whole.subrange(from, from + unless_given(args, short, long, value).len()) == unless_given(
            args,
            short,
            long,
            value,
        ),
    ensures
        has_option(whole, short, long),
{
    if has_option(args, short, long) {
        let i = choose|i: int| 0 <= i < args.len() && is_option(#[trigger] args[i], short, long);
        assert(whole[at + i] == args[i]) by {
            assert(whole.subrange(at, at + args.len())[i] == args[i]);
        }
        assert(is_option(whole[at + i], short, long));
    } else {
        let given = unless_given(args, short, long, value);
        assert(whole[from] == long) by {
            assert(whole.subrange(from, from + given.len())[0] == given[0]);
        }
        assert(is_option(whole[from], short, long));
    }
}

/// mdbook is always told a host name, a port and a directory for the result.
pub proof fn lemma_options_always_given(
    book_dir: Seq<char>,
    args: Seq<Seq<char>>,
    hostname: Seq<char>,
    port: Seq<char>,
    dest_dir: Seq<char>,
)
    ensures
        has_option(
            serve_arguments(book_dir, args, hostname, port, dest_dir),
            "-n"@,
            "--hostname"@,
        ),
        has_option(serve_arguments(book_dir, args, hostname, port, dest_dir), "-p"@, "--port"@),
        has_option(
            serve_arguments(book_dir, args, hostname, port, dest_dir),
            "-d"@,
            "--dest-dir"@,
        ),
{
    let whole = serve_arguments(book_dir, args, hostname, port, dest_dir);
    let h = unless_given(args, "-n"@, "--hostname"@, hostname);
    let p = unless_given(args, "-p"@, "--port"@, port);
    let d = unless_given(args, "-d"@, "--dest-dir"@, dest_dir);
    let n = (2 + args.len()) as int;
    assert(whole.subrange(2, n) =~= args);
    assert(whole.subrange(n, n + h.len()) =~= h);
    assert(whole.subrange(n + h.len(), n + h.len() + p.len()) =~= p);
    assert(whole.subrange(n + h.len() + p.len(), n + h.len() + p.len() + d.len()) =~= d);
    lemma_option_there(whole, args, 2, "-n"@, "--hostname"@, hostname, n);
    lemma_option_there(whole, args, 2, "-p"@, "--port"@, port, n + h.len());
    lemma_option_there(whole, args, 2, "-d"@, "--dest-dir"@, dest_dir, n + h.len() + p.len());
}

/// The status that the server ends with: none of its own when mdbook succeeded,
/// and otherwise that of mdbook, or 1 when it has none.
pub fn exit_status(success: bool, code: Option<i32>) -> (r: Option<i32>)
    ensures
        r == (if success {
            None
        } else {
            match code {
                Some(c) => Some(c),
                None => Some(1i32),
            }
        }),
{
    if success {
        None
    } else {
        match code {
            Some(c) => Some(c),
            None => Some(1),
        }
    }
}

// ---------------------------------------------------------------------------
// What the command line comes to
// ---------------------------------------------------------------------------

proof fn lemma_behind(prefix: Seq<char>, v: Seq<char>)
    ensures
        text::after_prefix(prefix + v, prefix) == Some(v),
{
    let s = prefix + v;
    assert(s.take(prefix.len() as int) =~= prefix);
    assert(s.subrange(0, prefix.len() as int) =~= prefix);
    assert(s.skip(prefix.len() as int) =~= v);
}

proof fn lemma_other_prefix(s: Seq<char>, prefix: Seq<char>, i: int)
    requires
        0 <= i < prefix.len(),
        i < s.len(),
        s[i] != prefix[i],
    ensures
        text::after_prefix(s, prefix) is None,
{
    if prefix.is_prefix_of(s) {
        assert(s.subrange(0, prefix.len() as int)[i] == prefix[i]);
    }
}

/// Every argument is known by the name before its first equals sign, and says
/// what is behind it.
pub proof fn lemma_argument_meanings(v: Seq<char>, src: Seq<char>, dest: Seq<char>)
    requires
        text::free_of(src, '='),
    ensures
        meaning("--mdbook="@ + v) == ServeArgView::Mdbook(v),
        meaning("--plugin="@ + v) == ServeArgView::Plugin(v),
        meaning("--config="@ + v) == ServeArgView::Config(v),
        meaning("--hostname="@ + v) == ServeArgView::Hostname(v),
        meaning("--port="@ + v) == ServeArgView::Port(v),
        meaning("--src="@ + (src + "="@ + dest)) == ServeArgView::Src(src, dest),
        meaning("--src="@ + src) == ServeArgView::MalformedSrc(src),
{
    reveal_strlit("--mdbook=");
    reveal_strlit("--plugin=");
    reveal_strlit("--config=");
    reveal_strlit("--hostname=");
    reveal_strlit("--port=");
    reveal_strlit("--src=");
    reveal_strlit("=");
    lemma_behind("--mdbook="@, v);
    lemma_behind("--plugin="@, v);
    lemma_behind("--config="@, v);
    lemma_behind("--hostname="@, v);
    lemma_behind("--port="@, v);
    let named = src + "="@ + dest;
    lemma_behind("--src="@, named);
    lemma_behind("--src="@, src);
    let p = "--plugin="@ + v;
    lemma_other_prefix(p, "--mdbook="@, 2);
    let c = "--config="@ + v;
    lemma_other_prefix(c, "--mdbook="@, 2);
    lemma_other_prefix(c, "--plugin="@, 2);
    let h = "--hostname="@ + v;
    lemma_other_prefix(h, "--mdbook="@, 2);
    lemma_other_prefix(h, "--plugin="@, 2);
    lemma_other_prefix(h, "--config="@, 2);
    let o = "--port="@ + v;
    lemma_other_prefix(o, "--mdbook="@, 2);
    lemma_other_prefix(o, "--plugin="@, 3);
    lemma_other_prefix(o, "--config="@, 2);
    lemma_other_prefix(o, "--hostname="@, 2);
    let s = "--src="@ + named;
    lemma_other_prefix(s, "--mdbook="@, 2);
    lemma_other_prefix(s, "--plugin="@, 2);
    lemma_other_prefix(s, "--config="@, 2);
    lemma_other_prefix(s, "--hostname="@, 2);
    lemma_other_prefix(s, "--port="@, 2);
    let t = "--src="@ + src;
    lemma_other_prefix(t, "--mdbook="@, 2);
    lemma_other_prefix(t, "--plugin="@, 2);
    lemma_other_prefix(t, "--config="@, 2);
    lemma_other_prefix(t, "--hostname="@, 2);
    lemma_other_prefix(t, "--port="@, 2);
    let n = src.len() as int;
    assert(named.subrange(n, n + "="@.len()) =~= "="@);
    assert forall|i: int| 0 <= i < n implies #[trigger] named.subrange(i, i + "="@.len())
        != "="@ by {
        assert(named.subrange(i, i + "="@.len())[0] == src[i]);
    }
    assert forall|i: int| 0 <= i && i + "="@.len() <= src.len() implies #[trigger] src.subrange(
        i,
        i + "="@.len(),
    ) != "="@ by {
        assert(src.subrange(i, i + "="@.len())[0] == src[i]);
    }
    text::lemma_split_at_first(src, "="@, dest, src);
}

/// An argument that begins like none of the known ones says nothing.
pub proof fn lemma_other_argument(arg: Seq<char>)
    requires
        !"--mdbook="@.is_prefix_of(arg),
        !"--plugin="@.is_prefix_of(arg),
        !"--config="@.is_prefix_of(arg),
        !"--hostname="@.is_prefix_of(arg),
        !"--port="@.is_prefix_of(arg),
        !"--src="@.is_prefix_of(arg),
    ensures
        meaning(arg) == ServeArgView::Other,
        wanted(arg) is None,
{
}

/// Programs and files are looked up in the runfiles, and nothing else is.
pub proof fn lemma_wanted(arg: Seq<char>)
    ensures
        meaning(arg) matches ServeArgView::Mdbook(v) ==> wanted(arg) == Some(v),
        meaning(arg) matches ServeArgView::Plugin(v) ==> wanted(arg) == Some(v),
        meaning(arg) matches ServeArgView::Src(src, dest) ==> wanted(arg) == Some(src),
        meaning(arg) is Config || meaning(arg) is Hostname || meaning(arg) is Port || meaning(
            arg,
        ) is MalformedSrc || meaning(arg) is Other ==> wanted(arg) is None,
{
}

/// One more argument sets what it names and leaves all else as it was; the last
/// one of a kind counts, and plugins add up in their order.
pub proof fn lemma_one_more_argument(
    args: Seq<Seq<char>>,
    locations: Seq<Option<Seq<char>>>,
    arg: Seq<char>,
    location: Option<Seq<char>>,
    found: Found,
)
    requires
        args.len() == locations.len(),
        after_args(args, locations) == Ok::<Found, ServeErrorView>(found),
    ensures
        ({
            let r = after_args(args.push(arg), locations.push(location));
            match (meaning(arg), location) {
                (ServeArgView::Mdbook(_), Some(p)) => r matches Ok(g) && g.mdbook == Some(p)
                    && g.config_dest == found.config_dest && g.hostname == found.hostname && g.port
                    == found.port && g.plugins == found.plugins && g.srcs == found.srcs,
                (ServeArgView::Plugin(_), Some(p)) => r matches Ok(g) && g.plugins
                    == found.plugins.push(p) && g.mdbook == found.mdbook && g.config_dest
                    == found.config_dest && g.hostname == found.hostname && g.port == found.port
                    && g.srcs == found.srcs,
                (ServeArgView::Config(v), _) => r matches Ok(g) && g.config_dest == Some(v)
                    && g.mdbook == found.mdbook && g.hostname == found.hostname && g.port
                    == found.port && g.plugins == found.plugins && g.srcs == found.srcs,
                (ServeArgView::Hostname(v), _) => r matches Ok(g) && g.hostname == Some(v)
                    && g.mdbook == found.mdbook && g.config_dest == found.config_dest && g.port
                    == found.port && g.plugins == found.plugins && g.srcs == found.srcs,
                (ServeArgView::Port(v), _) => r matches Ok(g) && g.port == Some(v) && g.mdbook
                    == found.mdbook && g.config_dest == found.config_dest && g.hostname
                    == found.hostname && g.plugins == found.plugins && g.srcs == found.srcs,
                (ServeArgView::Src(_, d), Some(p)) => r matches Ok(g) && g.srcs == staged(
                    found.srcs,
                    d,
                    p,
                ) && g.mdbook == found.mdbook && g.config_dest == found.config_dest && g.hostname
                    == found.hostname && g.port == found.port && g.plugins == found.plugins,
                (ServeArgView::Other, _) => r == Ok::<Found, ServeErrorView>(found),
                (ServeArgView::Mdbook(v), None) => r matches Err(
                    ServeErrorView::MissingProgram(w),
                ) && w == v,
                (ServeArgView::Plugin(v), None) => r matches Err(
                    ServeErrorView::MissingProgram(w),
                ) && w == v,
                (ServeArgView::Src(s, _), None) => r matches Err(ServeErrorView::MissingSrc(w))
                    && w == s,
                (ServeArgView::MalformedSrc(v), _) => r matches Err(
                    ServeErrorView::MalformedSrc(w),
                ) && w == v,
            }
        }),
{
    assert(args.push(arg).drop_last() =~= args);
    assert(locations.push(location).drop_last() =~= locations);
}

/// Without arguments nothing is known, and after a wrong argument no other one
/// changes the error.
pub proof fn lemma_first_error_counts(
    args: Seq<Seq<char>>,
    locations: Seq<Option<Seq<char>>>,
    arg: Seq<char>,
    location: Option<Seq<char>>,
)
    requires
        args.len() == locations.len(),
    ensures
        after_args(args, locations) is Err ==> after_args(
            args.push(arg),
            locations.push(location),
        ) == after_args(args, locations),
        after_args(Seq::empty(), Seq::empty()) matches Ok(g) && g.mdbook is None
            && g.config_dest is None && g.hostname is None && g.port is None && g.plugins.len()
            == 0 && g.srcs.len() == 0,
{
    assert(args.push(arg).drop_last() =~= args);
    assert(locations.push(location).drop_last() =~= locations);
}

/// What is read is what was found, and nothing that is needed may be missing.
pub proof fn lemma_complete(args: Args, found: Found, i: int)
    ensures
        is_complete(args, found) ==> {
            &&& found.mdbook matches Some(v) && v == args.mdbook@
            &&& found.config_dest matches Some(v) && v == args.config_dest@
            &&& found.hostname matches Some(v) && v == args.hostname@
            &&& found.port matches Some(v) && v == args.port@
            &&& args.plugins@.len() == found.plugins.len()
            &&& 0 <= i < found.plugins.len() ==> args.plugins@[i]@ == found.plugins[i]
            &&& args.srcs@.len() == found.srcs.len()
            &&& 0 <= i < found.srcs.len() ==> args.srcs@[i].0@ == found.srcs[i].0
                && args.srcs@[i].1@ == found.srcs[i].1
        },
        is_lacking(found) <==> found.mdbook is None || found.config_dest is None
            || found.hostname is None || found.port is None,
{
    if is_complete(args, found) {
        let plugins = text::views(args.plugins@);
        let srcs = src_views(args.srcs@);
        assert(plugins.len() == args.plugins@.len());
        assert(srcs.len() == args.srcs@.len());
        if 0 <= i < found.plugins.len() {
            assert(plugins[i] == args.plugins@[i]@);
        }
        if 0 <= i < found.srcs.len() {
            assert(srcs[i] == (args.srcs@[i].0@, args.srcs@[i].1@));
        }
    }
}

proof fn lemma_place_bounds(srcs: Seq<(Seq<char>, Seq<char>)>, dest: Seq<char>)
    ensures
        0 <= place_in(srcs, dest) <= srcs.len(),
        place_in(srcs, dest) < srcs.len() ==> paths::same_path(
            srcs[place_in(srcs, dest)].0,
            dest,
        ),
        forall|i: int|
            0 <= i < place_in(srcs, dest) ==> !paths::same_path((#[trigger] srcs[i]).0, dest),
        0 <= earlier_in(srcs, dest) <= srcs.len(),
        forall|i: int|
            0 <= i < earlier_in(srcs, dest) ==> paths::precedes((#[trigger] srcs[i]).0, dest),
        earlier_in(srcs, dest) < srcs.len() ==> !paths::precedes(
            srcs[earlier_in(srcs, dest)].0,
            dest,
        ),
    decreases srcs.len(),
{
    if srcs.len() > 0 {
        let rest = srcs.drop_first();
        lemma_place_bounds(rest, dest);
        assert forall|i: int| 0 <= i < place_in(srcs, dest) implies !paths::same_path(
            (#[trigger] srcs[i]).0,
            dest,
        ) by {
            if i > 0 {
                assert(rest[i - 1] == srcs[i]);
            }
        }
        assert forall|i: int| 0 <= i < earlier_in(srcs, dest) implies paths::precedes(
            (#[trigger] srcs[i]).0,
            dest,
        ) by {
            if i > 0 {
                assert(rest[i - 1] == srcs[i]);
            }
        }
    }
}

/// Staging a file puts it at its place: in the stead of what was there, and
/// otherwise as one more. What is at other places stays.
pub proof fn lemma_staged(
    srcs: Seq<(Seq<char>, Seq<char>)>,
    dest: Seq<char>,
    src: Seq<char>,
    i: int,
)
    ensures
        (exists|k: int| 0 <= k < srcs.len() && paths::same_path((#[trigger] srcs[k]).0, dest))
            ==> staged(srcs, dest, src).len() == srcs.len() && exists|k: int|
            0 <= k < srcs.len() && paths::same_path((#[trigger] srcs[k]).0, dest) && staged(
                srcs,
                dest,
                src,
            )[k] == (srcs[k].0, src),
        !(exists|k: int| 0 <= k < srcs.len() && paths::same_path((#[trigger] srcs[k]).0, dest))
            ==> staged(srcs, dest, src).len() == srcs.len() + 1 && staged(
            srcs,
            dest,
            src,
        ).contains((dest, src)),
        0 <= i < srcs.len() && !paths::same_path(srcs[i].0, dest) ==> staged(
            srcs,
            dest,
            src,
        ).contains(srcs[i]),
{
    lemma_place_bounds(srcs, dest);
    let p = place_in(srcs, dest);
    let n = earlier_in(srcs, dest);
    let out = staged(srcs, dest, src);
    if p < srcs.len() {
        assert(paths::same_path(srcs[p].0, dest));
        assert(out[p] == (srcs[p].0, src));
        if 0 <= i < srcs.len() && !paths::same_path(srcs[i].0, dest) {
            assert(out[i] == srcs[i]);
        }
    } else {
        assert(out[n] == (dest, src));
        if 0 <= i < srcs.len() {
            if i < n {
                assert(out[i] == srcs[i]);
            } else {
                assert(out[i + 1] == srcs[i]);
            }
        }
    }
}

/// The first variable that is set counts.
pub proof fn lemma_first_set(values: Seq<Option<Seq<char>>>, k: int)
    ensures
        0 <= k < values.len() && values[k] is Some && (forall|i: int|
            0 <= i < k ==> (#[trigger] values[i]) is None) ==> first_set(values) == values[k],
        (forall|i: int| 0 <= i < values.len() ==> (#[trigger] values[i]) is None) ==> first_set(
            values,
        ) is None,
    decreases values.len(),
{
    if values.len() > 0 {
        let rest = values.drop_first();
        lemma_first_set(rest, k - 1);
        if values[0] is None {
            if 0 <= k < values.len() && values[k] is Some && (forall|i: int|
                0 <= i < k ==> (#[trigger] values[i]) is None) {
                assert(rest[k - 1] == values[k]);
                assert forall|i: int| 0 <= i < k - 1 implies (#[trigger] rest[i]) is None by {
                    assert(rest[i] == values[i + 1]);
                }
            }
        }
        if forall|i: int| 0 <= i < values.len() ==> (#[trigger] values[i]) is None {
            assert(values[0] is None);
            assert forall|i: int| 0 <= i < rest.len() implies (#[trigger] rest[i]) is None by {
                assert(rest[i] == values[i + 1]);
            }
        }
    }
}

/// Temporary files of a user are where the system keeps them.
pub proof fn lemma_profile_tmp(profile: Seq<char>)
    ensures
        profile_tmp_path(profile) == paths::joined(
            paths::joined(paths::joined(profile, "AppData"@), "Local"@),
            "Temp"@,
        ),
{
}

/// A build succeeded where a line, but for white space around it, begins with the
/// event and ends with the word for success.
pub proof fn lemma_success_line(before: Seq<char>, mid: Seq<char>, after: Seq<char>)
    requires
        forall|i: int| 0 <= i < before.len() ==> text::is_white(#[trigger] before[i]),
        forall|i: int| 0 <= i < after.len() ==> text::is_white(#[trigger] after[i]),
    ensures
        is_success(before + "IBAZEL_BUILD_COMPLETED"@ + mid + "SUCCESS"@ + after),
{
    reveal_strlit("IBAZEL_BUILD_COMPLETED");
    reveal_strlit("SUCCESS");
    text::lemma_white('I');
    text::lemma_white('S');
    let core = "IBAZEL_BUILD_COMPLETED"@ + mid + "SUCCESS"@;
    let line = before + "IBAZEL_BUILD_COMPLETED"@ + mid + "SUCCESS"@ + after;
    assert(line =~= before + core + after);
    let r = text::lemma_trimmed(line);
    let n = before.len() as int;
    let m = n + core.len();
    assert(line[n] == 'I');
    assert(line[m - 1] == 'S');
    assert(r.0 <= n && m <= r.1);
    if r.0 < n {
        assert(line[r.0] == before[r.0]);
    }
    if r.1 > m {
        assert(line[r.1 - 1] == after[r.1 - 1 - m]);
    }
    let t = text::trimmed(line);
    assert(t =~= core);
    let k = "IBAZEL_BUILD_COMPLETED"@.len() as int;
    assert(t.subrange(0, k) =~= "IBAZEL_BUILD_COMPLETED"@);
    assert(t.subrange(t.len() - "SUCCESS"@.len(), t.len() as int) =~= "SUCCESS"@);
}

/// A line without the event or without the word for success tells of no success.
pub proof fn lemma_no_success_line(line: Seq<char>)
    requires
        text::is_absent(line, "SUCCESS"@) || text::is_absent(line, "IBAZEL_BUILD_COMPLETED"@),
    ensures
        !is_success(line),
{
    let r = text::lemma_trimmed(line);
    let t = text::trimmed(line);
    if is_success(line) {
        let n = "SUCCESS"@.len() as int;
        let k = "IBAZEL_BUILD_COMPLETED"@.len() as int;
        assert(t.subrange(t.len() - n, t.len() as int) =~= line.subrange(r.1 - n, r.1 - n + n));
        assert(t.subrange(0, k) =~= line.subrange(r.0, r.0 + k));
        assert(line.subrange(r.1 - n, r.1 - n + "SUCCESS"@.len()) == "SUCCESS"@);
        assert(line.subrange(r.0, r.0 + "IBAZEL_BUILD_COMPLETED"@.len())
            == "IBAZEL_BUILD_COMPLETED"@);
    }
}

/// Every plugin has its directory in the list, in the order of the plugins; one
/// that is in none is an error, and the first such one is it.
pub proof fn lemma_plugin_dirs(plugins: Seq<Seq<char>>, pwd: Seq<char>)
    ensures
        match plugin_dirs(plugins, pwd) {
            Ok(dirs) => dirs.len() == plugins.len() && forall|i: int|
                0 <= i < dirs.len() ==> paths::parent_of(
                    if paths::absolute(plugins[i]) {
                        plugins[i]
                    } else {
                        paths::joined(pwd, plugins[i])
                    },
                ) == Some(#[trigger] dirs[i]),
            Err(plugin) => exists|n: int|
                0 <= n < plugins.len() && #[trigger] plugins[n] == plugin && paths::parent_of(
                    if paths::absolute(plugin) {
                        plugin
                    } else {
                        paths::joined(pwd, plugin)
                    },
                ) is None && plugin_dirs(plugins.take(n), pwd) is Ok,
        },
    decreases plugins.len(),
{
    if plugins.len() > 0 {
        let d = plugins.drop_last();
        let n = plugins.len() - 1;
        lemma_plugin_dirs(d, pwd);
        assert(plugins.take(n) =~= d);
        match plugin_dirs(d, pwd) {
            Ok(before) => {
                match plugin_dirs(plugins, pwd) {
                    Ok(dirs) => {
                        assert forall|i: int| 0 <= i < dirs.len() implies paths::parent_of(
                            if paths::absolute(plugins[i]) {
                                plugins[i]
                            } else {
                                paths::joined(pwd, plugins[i])
                            },
                        ) == Some(#[trigger] dirs[i]) by {
                            if i < n {
                                assert(dirs[i] == before[i]);
                                assert(d[i] == plugins[i]);
                            }
                        }
                    },
                    Err(plugin) => {
                        assert(plugins[n] == plugin);
                    },
                }
            },
            Err(plugin) => {
                let k = choose|k: int|
                    0 <= k < d.len() && #[trigger] d[k] == plugin && paths::parent_of(
                        if paths::absolute(plugin) {
                            plugin
                        } else {
                            paths::joined(pwd, plugin)
                        },
                    ) is None && plugin_dirs(d.take(k), pwd) is Ok;
                assert(plugins[k] == plugin);
                assert(plugins.take(k) =~= d.take(k));
            },
        }
    }
}

/// An option is given by either of its names, alone or with a value behind an
/// equals sign.
pub proof fn lemma_option_names(short: Seq<char>, long: Seq<char>, v: Seq<char>, arg: Seq<char>)
    ensures
        is_option(short, short, long),
        is_option(long, short, long),
        is_option(short + "="@ + v, short, long),
        is_option(long + "="@ + v, short, long),
        is_option(arg, short, long) ==> short.is_prefix_of(arg) || long.is_prefix_of(arg),
{
    let a = short + "="@ + v;
    let b = long + "="@ + v;
    assert(a.subrange(0, (short + "="@).len() as int) =~= short + "="@);
    assert(b.subrange(0, (long + "="@).len() as int) =~= long + "="@);
    assert(short.subrange(0, short.len() as int) =~= short);
    assert(long.subrange(0, long.len() as int) =~= long);
    if (short + "="@).is_prefix_of(arg) {
        assert(arg.subrange(0, short.len() as int) =~= (short + "="@).subrange(
            0,
            short.len() as int,
        ));
        assert((short + "="@).subrange(0, short.len() as int) =~= short);
    }
    if (long + "="@).is_prefix_of(arg) {
        assert(arg.subrange(0, long.len() as int) =~= (long + "="@).subrange(
            0,
            long.len() as int,
        ));
        assert((long + "="@).subrange(0, long.len() as int) =~= long);
    }
}

/// mdbook serves the book with what the user hands on, unchanged. A host name, a
/// port and a directory are added exactly where the user gives none.
pub proof fn lemma_served_as_asked(
    book_dir: Seq<char>,
    args: Seq<Seq<char>>,
    hostname: Seq<char>,
    port: Seq<char>,
    dest_dir: Seq<char>,
)
    ensures
        ({
            let whole = serve_arguments(book_dir, args, hostname, port, dest_dir);
            let own = seq!["serve"@, book_dir] + args;
            let h = has_option(args, "-n"@, "--hostname"@);
            let p = has_option(args, "-p"@, "--port"@);
            let d = has_option(args, "-d"@, "--dest-dir"@);
            &&& own.is_prefix_of(whole)
            &&& whole.len() == own.len() + (if h {
                0int
            } else {
                2
            }) + (if p {
                0int
            } else {
                2
            }) + (if d {
                0int
            } else {
                2
            })
            &&& !h ==> whole[own.len() as int] == "--hostname"@ && whole[own.len() as int + 1] == hostname
            &&& !p ==> exists|i: int|
                own.len() <= i < whole.len() - 1 && #[trigger] whole[i] == "--port"@ && whole[i + 1]
                    == port
            &&& !d ==> whole[whole.len() - 2] == "--dest-dir"@ && whole[whole.len() - 1]
                == dest_dir
        }),
{
    let whole = serve_arguments(book_dir, args, hostname, port, dest_dir);
    let own = seq!["serve"@, book_dir] + args;
    let h = unless_given(args, "-n"@, "--hostname"@, hostname);
    let p = unless_given(args, "-p"@, "--port"@, port);
    assert(whole.subrange(0, own.len() as int) =~= own);
    if !has_option(args, "-p"@, "--port"@) {
        let i = (own.len() + h.len()) as int;
        assert(p == seq!["--port"@, port]);
        assert(whole[i] == "--port"@);
        assert(whole[i + 1] == port);
    }
}

/// Errors name what is wrong.
pub proof fn lemma_error_texts(a: String, b: String)
    ensures
        ServeError::MissingProgram(a).text() == "Failed to resolve runfile: "@ + a@,
        ServeError::MalformedSrc(a).text() == "Malformed --src arg (expected `rlocation=dest`): "@
            + a@,
        ServeError::MissingSrc(a).text() == "Failed to resolve src runfile: "@ + a@,
        ServeError::MissingArgument.text()
            == "--mdbook, --config, --hostname and --port are required"@,
        ServeError::OutsideWorkdir(a, b).text() == "Refusing to stage outside workdir: "@ + a@
            + " -> "@ + b@,
        ServeError::NoDirectory(a).text() == "plugin has no parent: "@ + a@,
{
}

/// The server ends like mdbook: quietly after a success, and otherwise with its
/// status, or with 1 where it has none.
pub proof fn lemma_exit_answer(success: bool, code: Option<i32>, r: Option<i32>)
    requires
        call_ensures(exit_status, (success, code), r),
    ensures
        success <==> r is None,
        !success ==> (code matches Some(c) ==> r == Some(c)),
        !success && code is None ==> r == Some(1i32),
{
}

/// A variable that is set says where temporary files go, the first one first;
/// then `/tmp` does, and then the profile of the user.
pub proof fn lemma_tmp_answer(
    values: &Vec<Option<String>>,
    tmp_exists: bool,
    profile: &Option<String>,
    profile_tmp_exists: bool,
    r: Option<String>,
    k: int,
)
    requires
        call_ensures(tmp_root, (values, tmp_exists, profile, profile_tmp_exists), r),
    ensures
        0 <= k < values@.len() && values@[k] is Some && (forall|i: int|
            0 <= i < k ==> (#[trigger] values@[i]) is None) ==> (r matches Some(dir) && dir@
            == values@[k]->0@),
        (forall|i: int| 0 <= i < values@.len() ==> (#[trigger] values@[i]) is None) ==> {
            &&& tmp_exists ==> (r matches Some(dir) && dir@ == "/tmp"@)
            &&& !tmp_exists && profile_tmp_exists && profile is Some ==> (r matches Some(dir)
                && dir@ == paths::joined(
                paths::joined(paths::joined(profile->0@, "AppData"@), "Local"@),
                "Temp"@,
            ))
            &&& !tmp_exists && !(profile_tmp_exists && profile is Some) ==> r is None
        },
{
    let all = opt_views(values@);
    lemma_first_set(all, k);
    if 0 <= k < values@.len() && values@[k] is Some && (forall|i: int|
        0 <= i < k ==> (#[trigger] values@[i]) is None) {
        assert(all[k] == text::opt_view(values@[k]));
        assert forall|i: int| 0 <= i < k implies (#[trigger] all[i]) is None by {
            assert(values@[i] is None);
        }
    }
    if forall|i: int| 0 <= i < values@.len() ==> (#[trigger] values@[i]) is None {
        assert forall|i: int| 0 <= i < all.len() implies (#[trigger] all[i]) is None by {
            assert(values@[i] is None);
        }
    }
}

/// A file is staged at its place in the directory that is served, and refused
/// exactly where that place is not in the directory.
pub proof fn lemma_stage_answer(
    workdir: &str,
    dest: &str,
    src: &str,
    r: Result<StagedFile, ServeError>,
)
    requires
        call_ensures(stage_input, (workdir, dest, src), r),
    ensures
        r is Ok <==> paths::below(paths::joined(workdir@, dest@), workdir@) is Some,
        r matches Ok(file) ==> file.path@ == paths::joined(workdir@, dest@) && text::opt_view(
            file.parent,
        ) == paths::parent_of(paths::joined(workdir@, dest@)),
        r matches Err(e) ==> e@ == ServeErrorView::OutsideWorkdir(
            src@,
            paths::joined(workdir@, dest@),
        ),
{
}

} // verus!
