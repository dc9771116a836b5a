//! Paths as UTF-8 text. What joining, splitting and comparing paths gives
//! follows the rules of the platform that the crate is built for; `camino`
//! knows them.
use vstd::prelude::*;
use crate::text;

verus! {

/// What `camino::Utf8Path::join` gives for `base` and `path`.
pub uninterp spec fn joined(base: Seq<char>, path: Seq<char>) -> Seq<char>;

/// What `camino::Utf8Path::is_absolute` answers for `path`.
pub uninterp spec fn absolute(path: Seq<char>) -> bool;

/// `camino::Utf8Path::join`: `path` adjoined to `base`. The result is named,
/// since how two paths are put together is the platform's affair; an absolute
/// `path` takes the place of `base` on every platform.
#[verifier::external_body]
pub(crate) fn join(base: &str, path: &str) -> (r: String)
    ensures
        r@ == joined(base@, path@),
        absolute(path@) ==> r@ == path@,
{
    camino::Utf8Path::new(base).join(path).into_string()
}

/// `camino::Utf8Path::is_absolute`: whether the path does not depend on the
/// current directory.
#[verifier::external_body]
pub(crate) fn is_absolute(path: &str) -> (r: bool)
    ensures
        r == absolute(path@),
{
    camino::Utf8Path::new(path).is_absolute()
}

/// What `camino::Utf8Path::strip_prefix` leaves of `path` after `base`, where
/// it succeeds.
pub uninterp spec fn below(path: Seq<char>, base: Seq<char>) -> Option<Seq<char>>;

/// What `camino::Utf8Path::parent` gives for `path`.
pub uninterp spec fn parent_of(path: Seq<char>) -> Option<Seq<char>>;

/// What `camino::Utf8Path::ancestors` walks through: `path` itself, its
/// parent, the parent of that, and so on.
pub uninterp spec fn lineage(path: Seq<char>) -> Seq<Seq<char>>;

/// Whether two texts are the same path for `camino::Utf8Path`'s `==`, which
/// compares them component by component.
pub uninterp spec fn same_path(a: Seq<char>, b: Seq<char>) -> bool;

/// `camino::Utf8Path::strip_prefix`: the path that leads from `base` to
/// `path`, and `None` where `base` is no prefix of it.
#[verifier::external_body]
pub(crate) fn strip_prefix(path: &str, base: &str) -> (r: Option<String>)
    ensures
        text::opt_view(r) == below(path@, base@),
{
    camino::Utf8Path::new(path).strip_prefix(base).ok().map(|p| p.as_str().to_owned())
}

/// `camino::Utf8Path::parent`: the path without its last component, and `None`
/// for a root or an empty path.
#[verifier::external_body]
pub(crate) fn parent(path: &str) -> (r: Option<String>)
    ensures
        text::opt_view(r) == parent_of(path@),
{
    camino::Utf8Path::new(path).parent().map(|p| p.as_str().to_owned())
}

/// `camino::Utf8Path::ancestors`: the path and everything above it. The first
/// of them is always the path itself.
#[verifier::external_body]
pub(crate) fn ancestors(path: &str) -> (r: Vec<String>)
    ensures
        text::views(r@) == lineage(path@),
        r@.len() > 0,
        r@[0]@ == path@,
{
    camino::Utf8Path::new(path).ancestors().map(|p| p.as_str().to_owned()).collect()
}

/// `camino::Utf8Path`'s `==`: whether two texts are the same path. It does not
/// matter which of them comes first.
#[verifier::external_body]
pub(crate) fn is_same(a: &str, b: &str) -> (r: bool)
    ensures
        r == same_path(a@, b@),
        r == same_path(b@, a@),
{
    camino::Utf8Path::new(a) == camino::Utf8Path::new(b)
}

/// Whether `a` is before `b` in the order of `camino::Utf8Path`, which compares
/// paths component by component.
pub uninterp spec fn precedes(a: Seq<char>, b: Seq<char>) -> bool;

/// `camino::Utf8Path`'s `<`: whether one path is before another. Of two paths
/// that are not the same, one is before the other.
#[verifier::external_body]
pub(crate) fn is_before(a: &str, b: &str) -> (r: bool)
    ensures
        r == precedes(a@, b@),
        r || precedes(b@, a@) || same_path(a@, b@),
{
    camino::Utf8Path::new(a) < camino::Utf8Path::new(b)
}

/// What `camino::Utf8Path::with_extension` gives for `path` and `extension`.
pub uninterp spec fn extended(path: Seq<char>, extension: Seq<char>) -> Seq<char>;

/// `camino::Utf8Path::with_extension`: the path with its extension replaced,
/// or added where there is none. It panics on an extension with a separator
/// in it.
#[verifier::external_body]
pub(crate) fn with_extension(path: &str, extension: &str) -> (r: String)
    requires
        forall|i: int|
            0 <= i < extension@.len() ==> #[trigger] extension@[i] != '/' && extension@[i] != '\\',
    ensures
        r@ == extended(path@, extension@),
{
    camino::Utf8Path::new(path).with_extension(extension).into_string()
}

/// What `camino::Utf8Path::file_stem` gives for `path`.
pub uninterp spec fn stem_of(path: Seq<char>) -> Option<Seq<char>>;

/// `camino::Utf8Path::file_stem`: the last component without its extension,
/// and `None` where there is no last component.
#[verifier::external_body]
pub(crate) fn file_stem(path: &str) -> (r: Option<String>)
    ensures
        text::opt_view(r) == stem_of(path@),
{
    camino::Utf8Path::new(path).file_stem().map(|s| s.to_owned())
}

/// What `camino::Utf8Path::file_name` gives for `path`.
pub uninterp spec fn name_of(path: Seq<char>) -> Option<Seq<char>>;

/// `camino::Utf8Path::file_name`: the last component, and `None` where there is
/// none or it is `..`.
#[verifier::external_body]
pub(crate) fn file_name(path: &str) -> (r: Option<String>)
    ensures
        text::opt_view(r) == name_of(path@),
{
    camino::Utf8Path::new(path).file_name().map(|s| s.to_owned())
}

} // verus!
