//! What the build says of a crate, and the order of such descriptions.
use vstd::prelude::*;
use crate::order;
use crate::order::{then_by, Comparable, Order, SortedSet};
use crate::string_map::StringMap;

verus! {

/// The kind of artifact that a crate is compiled to.
#[derive(Clone, Copy, Debug, PartialEq, Eq, Structural)]
pub enum CrateType {
    Bin,
    Rlib,
    Lib,
    Dylib,
    Cdylib,
    Staticlib,
    ProcMacro,
}

/// The directories that make up a crate's sources.
#[derive(Debug, PartialEq, Eq)]
pub struct CrateSpecSource {
    pub exclude_dirs: Vec<String>,
    pub include_dirs: Vec<String>,
}

/// The target that builds a crate.
#[derive(Debug, PartialEq, Eq)]
pub struct CrateSpecBuild {
    pub label: String,
    pub build_file: String,
}

/// The description of a crate that the build emits.
#[derive(Debug, PartialEq, Eq)]
pub struct CrateSpec {
    /// Names that the crate uses for dependencies, by dependency id.
    pub aliases: StringMap,
    pub crate_id: String,
    pub display_name: String,
    pub edition: String,
    pub root_module: String,
    pub is_workspace_member: bool,
    /// The ids of the crates that this one depends on.
    pub deps: SortedSet<String>,
    pub proc_macro_dylib_path: Option<String>,
    pub source: Option<CrateSpecSource>,
    pub cfg: Vec<String>,
    pub env: StringMap,
    pub target: String,
    pub crate_type: CrateType,
    pub is_test: bool,
    pub build: Option<CrateSpecBuild>,
}

impl CrateType {
    /// The place of the type in the order of types.
    pub open spec fn rank(self) -> int {
        match self {
            CrateType::Bin => 0,
            CrateType::Rlib => 1,
            CrateType::Lib => 2,
            CrateType::Dylib => 3,
            CrateType::Cdylib => 4,
            CrateType::Staticlib => 5,
            CrateType::ProcMacro => 6,
        }
    }

    fn place(&self) -> (r: usize)
        ensures
            r == self.rank(),
    {
        match self {
            CrateType::Bin => 0,
            CrateType::Rlib => 1,
            CrateType::Lib => 2,
            CrateType::Dylib => 3,
            CrateType::Cdylib => 4,
            CrateType::Staticlib => 5,
            CrateType::ProcMacro => 6,
        }
    }
}

/// Types are ordered as they are listed.
impl Comparable for CrateType {
    type Key = int;

    open spec fn key(&self) -> int {
        self.rank()
    }

    fn compare(&self, other: &Self) -> (r: Order) {
        let r = self.place().compare(&other.place());
        assert(order::tells::<int>(r, self.key(), other.key()));
        r
    }
}

impl Comparable for CrateSpecSource {
    type Key = (Seq<Seq<char>>, Seq<Seq<char>>);

    open spec fn key(&self) -> (Seq<Seq<char>>, Seq<Seq<char>>) {
        (self.exclude_dirs.key(), self.include_dirs.key())
    }

    fn compare(&self, other: &Self) -> (r: Order) {
        let exclude = self.exclude_dirs.compare(&other.exclude_dirs);
        let within = self.include_dirs.compare(&other.include_dirs);
        let r = then_by(exclude, within);
        proof {
            order::lemma_pair(
                exclude,
                within,
                self.exclude_dirs.key(),
                other.exclude_dirs.key(),
                self.include_dirs.key(),
                other.include_dirs.key(),
            );
            assert(order::tells::<(Seq<Seq<char>>, Seq<Seq<char>>)>(r, self.key(), other.key()));
        }
        r
    }
}

impl Comparable for CrateSpecBuild {
    type Key = (Seq<char>, Seq<char>);

    open spec fn key(&self) -> (Seq<char>, Seq<char>) {
        (self.label.key(), self.build_file.key())
    }

    fn compare(&self, other: &Self) -> (r: Order) {
        let label = self.label.compare(&other.label);
        let build_file = self.build_file.compare(&other.build_file);
        let r = then_by(label, build_file);
        proof {
            order::lemma_pair(
                label,
                build_file,
                self.label@,
                other.label@,
                self.build_file@,
                other.build_file@,
            );
            assert(order::tells::<(Seq<char>, Seq<char>)>(r, self.key(), other.key()));
        }
        r
    }
}

/// Descriptions are ordered field by field, as the fields are listed.
impl Comparable for CrateSpec {
    type Key = (
        Seq<(Seq<char>, Seq<char>)>,
        (
            Seq<char>,
            (
                Seq<char>,
                (
                    Seq<char>,
                    (
                        Seq<char>,
                        (
                            int,
                            (
                                Seq<Seq<char>>,
                                (
                                    Option<Seq<char>>,
                                    (
                                        Option<(Seq<Seq<char>>, Seq<Seq<char>>)>,
                                        (
                                            Seq<Seq<char>>,
                                            (
                                                Seq<(Seq<char>, Seq<char>)>,
                                                (
                                                    Seq<char>,
                                                    (
                                                        int,
                                                        (int, Option<(Seq<char>, Seq<char>)>),
                                                    ),
                                                ),
                                            ),
                                        ),
                                    ),
                                ),
                            ),
                        ),
                    ),
                ),
            ),
        ),
    );

    open spec fn key(&self) -> Self::Key {
        (
            self.aliases.key(),
            (
                self.crate_id.key(),
                (
                    self.display_name.key(),
                    (
                        self.edition.key(),
                        (
                            self.root_module.key(),
                            (
                                self.is_workspace_member.key(),
                                (
                                    self.deps.key(),
                                    (
                                        self.proc_macro_dylib_path.key(),
                                        (
                                            self.source.key(),
                                            (
                                                self.cfg.key(),
                                                (
                                                    self.env.key(),
                                                    (
                                                        self.target.key(),
                                                        (
                                                            self.crate_type.key(),
                                                            (self.is_test.key(), self.build.key()),
                                                        ),
                                                    ),
                                                ),
                                            ),
                                        ),
                                    ),
                                ),
                            ),
                        ),
                    ),
                ),
            ),
        )
    }

    fn compare(&self, other: &Self) -> (r: Order) {
        let of_build = self.build.compare(&other.build);
        let ghost tail = (self.build.key(), other.build.key());
        let of_is_test = self.is_test.compare(&other.is_test);
        let from_is_test = then_by(of_is_test, of_build);
        proof {
            order::lemma_pair(
                of_is_test,
                of_build,
                self.is_test.key(),
                other.is_test.key(),
                tail.0,
                tail.1,
            );
        }
        let ghost tail = ((self.is_test.key(), tail.0), (other.is_test.key(), tail.1));
        let of_crate_type = self.crate_type.compare(&other.crate_type);
        let from_crate_type = then_by(of_crate_type, from_is_test);
        proof {
            order::lemma_pair(
                of_crate_type,
                from_is_test,
                self.crate_type.key(),
                other.crate_type.key(),
                tail.0,
                tail.1,
            );
        }
        let ghost tail = ((self.crate_type.key(), tail.0), (other.crate_type.key(), tail.1));
        let of_target = self.target.compare(&other.target);
        let from_target = then_by(of_target, from_crate_type);
        proof {
            order::lemma_pair(
                of_target,
                from_crate_type,
                self.target.key(),
                other.target.key(),
                tail.0,
                tail.1,
            );
        }
        let ghost tail = ((self.target.key(), tail.0), (other.target.key(), tail.1));
        let of_env = self.env.compare(&other.env);
        let from_env = then_by(of_env, from_target);
        proof {
            order::lemma_pair(
                of_env,
                from_target,
                self.env.key(),
                other.env.key(),
                tail.0,
                tail.1,
            );
        }
        let ghost tail = ((self.env.key(), tail.0), (other.env.key(), tail.1));
        let of_cfg = self.cfg.compare(&other.cfg);
        let from_cfg = then_by(of_cfg, from_env);
        proof {
            order::lemma_pair(
                of_cfg,
                from_env,
                self.cfg.key(),
                other.cfg.key(),
                tail.0,
                tail.1,
            );
        }
        let ghost tail = ((self.cfg.key(), tail.0), (other.cfg.key(), tail.1));
        let of_source = self.source.compare(&other.source);
        let from_source = then_by(of_source, from_cfg);
        proof {
            order::lemma_pair(
                of_source,
                from_cfg,
                self.source.key(),
                other.source.key(),
                tail.0,
                tail.1,
            );
        }
        let ghost tail = ((self.source.key(), tail.0), (other.source.key(), tail.1));
        let of_proc_macro_dylib_path = self.proc_macro_dylib_path.compare(&other.proc_macro_dylib_path);
        let from_proc_macro_dylib_path = then_by(of_proc_macro_dylib_path, from_source);
        proof {
            order::lemma_pair(
                of_proc_macro_dylib_path,
                from_source,
                self.proc_macro_dylib_path.key(),
                other.proc_macro_dylib_path.key(),
                tail.0,
                tail.1,
            );
        }
        let ghost tail = ((self.proc_macro_dylib_path.key(), tail.0), (other.proc_macro_dylib_path.key(), tail.1));
        let of_deps = self.deps.compare(&other.deps);
        let from_deps = then_by(of_deps, from_proc_macro_dylib_path);
        proof {
            order::lemma_pair(
                of_deps,
                from_proc_macro_dylib_path,
                self.deps.key(),
                other.deps.key(),
                tail.0,
                tail.1,
            );
        }
        let ghost tail = ((self.deps.key(), tail.0), (other.deps.key(), tail.1));
        let of_is_workspace_member = self.is_workspace_member.compare(&other.is_workspace_member);
        let from_is_workspace_member = then_by(of_is_workspace_member, from_deps);
        proof {
            order::lemma_pair(
                of_is_workspace_member,
                from_deps,
                self.is_workspace_member.key(),
                other.is_workspace_member.key(),
                tail.0,
                tail.1,
            );
        }
        let ghost tail = ((self.is_workspace_member.key(), tail.0), (other.is_workspace_member.key(), tail.1));
        let of_root_module = self.root_module.compare(&other.root_module);
        let from_root_module = then_by(of_root_module, from_is_workspace_member);
        proof {
            order::lemma_pair(
                of_root_module,
                from_is_workspace_member,
                self.root_module.key(),
                other.root_module.key(),
                tail.0,
                tail.1,
            );
        }
        let ghost tail = ((self.root_module.key(), tail.0), (other.root_module.key(), tail.1));
        let of_edition = self.edition.compare(&other.edition);
        let from_edition = then_by(of_edition, from_root_module);
        proof {
            order::lemma_pair(
                of_edition,
                from_root_module,
                self.edition.key(),
                other.edition.key(),
                tail.0,
                tail.1,
            );
        }
        let ghost tail = ((self.edition.key(), tail.0), (other.edition.key(), tail.1));
        let of_display_name = self.display_name.compare(&other.display_name);
        let from_display_name = then_by(of_display_name, from_edition);
        proof {
            order::lemma_pair(
                of_display_name,
                from_edition,
                self.display_name.key(),
                other.display_name.key(),
                tail.0,
                tail.1,
            );
        }
        let ghost tail = ((self.display_name.key(), tail.0), (other.display_name.key(), tail.1));
        let of_crate_id = self.crate_id.compare(&other.crate_id);
        let from_crate_id = then_by(of_crate_id, from_display_name);
        proof {
            order::lemma_pair(
                of_crate_id,
                from_display_name,
                self.crate_id.key(),
                other.crate_id.key(),
                tail.0,
                tail.1,
            );
        }
        let ghost tail = ((self.crate_id.key(), tail.0), (other.crate_id.key(), tail.1));
        let of_aliases = self.aliases.compare(&other.aliases);
        let from_aliases = then_by(of_aliases, from_crate_id);
        proof {
            order::lemma_pair(
                of_aliases,
                from_crate_id,
                self.aliases.key(),
                other.aliases.key(),
                tail.0,
                tail.1,
            );
        }
        let ghost tail = ((self.aliases.key(), tail.0), (other.aliases.key(), tail.1));
        assert(tail == (self.key(), other.key()));
        from_aliases
    }
}

/// A set of crate descriptions.
pub type CrateSpecs = SortedSet<CrateSpec>;

/// Types come in the order of their list, and no two of them are the same.
pub proof fn lemma_type_order(a: CrateType, b: CrateType)
    ensures
        CrateType::Bin.rank() < CrateType::Rlib.rank() < CrateType::Lib.rank()
            < CrateType::Dylib.rank() < CrateType::Cdylib.rank() < CrateType::Staticlib.rank()
            < CrateType::ProcMacro.rank(),
        a.key() == b.key() <==> a == b,
{
}

/// Two descriptions are taken for the same only where every field of them is the
/// same, so that no description of its own is lost in a set.
pub proof fn lemma_same_description(a: CrateSpec, b: CrateSpec)
    requires
        a.key() == b.key(),
    ensures
        a.aliases@ == b.aliases@,
        a.crate_id@ == b.crate_id@,
        a.display_name@ == b.display_name@,
        a.edition@ == b.edition@,
        a.root_module@ == b.root_module@,
        a.is_workspace_member == b.is_workspace_member,
        a.deps@ == b.deps@,
        crate::text::opt_view(a.proc_macro_dylib_path) == crate::text::opt_view(
            b.proc_macro_dylib_path,
        ),
        a.source is Some <==> b.source is Some,
        a.source matches Some(s) ==> crate::text::views(s.include_dirs@) == crate::text::views(
            b.source->0.include_dirs@,
        ) && crate::text::views(s.exclude_dirs@) == crate::text::views(b.source->0.exclude_dirs@),
        crate::text::views(a.cfg@) == crate::text::views(b.cfg@),
        a.env@ == b.env@,
        a.target@ == b.target@,
        a.crate_type == b.crate_type,
        a.is_test == b.is_test,
        a.build is Some <==> b.build is Some,
        a.build matches Some(s) ==> s.label@ == b.build->0.label@ && s.build_file@
            == b.build->0.build_file@,
{
    assert(crate::text::views(a.cfg@) =~= order::keys(a.cfg@));
    assert(crate::text::views(b.cfg@) =~= order::keys(b.cfg@));
    if let Some(s) = a.source {
        let t = b.source->0;
        assert(s.key() == t.key());
        assert(crate::text::views(s.include_dirs@) =~= order::keys(s.include_dirs@));
        assert(crate::text::views(t.include_dirs@) =~= order::keys(t.include_dirs@));
        assert(crate::text::views(s.exclude_dirs@) =~= order::keys(s.exclude_dirs@));
        assert(crate::text::views(t.exclude_dirs@) =~= order::keys(t.exclude_dirs@));
    }
    if let Some(s) = a.build {
        assert(s.key() == b.build->0.key());
    }
}

/// The aliases decide between two descriptions first, and the ids where the
/// aliases are the same.
pub proof fn lemma_description_order(a: CrateSpec, b: CrateSpec)
    ensures
        order::Ordered::before(a.aliases@, b.aliases@) ==> order::Ordered::before(
            a.key(),
            b.key(),
        ),
        a.aliases@ == b.aliases@ && order::Ordered::before(a.crate_id@, b.crate_id@)
            ==> order::Ordered::before(a.key(), b.key()),
{
}

} // verus!
