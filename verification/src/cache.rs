//! The cache of assembled projects. The key of an entry is a hash of
//! everything that the project is assembled from, so that an entry is served
//! only when all of it is the same.
use vstd::prelude::*;
use core::hash::Hasher;
use std::collections::hash_map::DefaultHasher;
use vstd::std_specs::hash::DefaultHasherAdditionalSpecFns;
use crate::paths;
use crate::string_map;
use crate::text;
use crate::text::{copied, hex_of};

verus! {

/// The directory of the cache inside the launcher directory.
pub const CACHE_SUBDIR: &'static str = "cache";

/// The directory in the workspace that holds the cache when no other place is
/// named.
pub const CACHE_DIR_REL_PREFIX: &'static str = ".rules_rust_analyzer";

/// The version of the assembled form. A change of the form takes a new number,
/// and so leaves the older entries unused.
pub const CACHE_SCHEMA_VERSION: u32 = 1;

/// The environment variable that names the launcher directory.
pub const LAUNCHER_DIR_ENV_VAR: &'static str = "RULES_RUST_RA_LAUNCHER_DIR";

/// The environment variable that names the directory of the cache.
pub const CACHE_DIR_ENV_VAR: &'static str = "RULES_RUST_RA_CACHE_DIR";

/// The writes that hash a text: its bytes, and one byte that no text holds.
pub open spec fn text_writes(s: Seq<char>) -> Seq<Seq<u8>> {
    seq![vstd::utf8::encode_utf8(s), seq![0xffu8]]
}

/// The writes that hash the pairs of path and content.
pub open spec fn spec_writes(specs: Seq<(Seq<char>, Seq<char>)>) -> Seq<Seq<u8>>
    decreases specs.len(),
{
    if specs.len() == 0 {
        Seq::empty()
    } else {
        spec_writes(specs.drop_last()) + text_writes(specs.last().0) + text_writes(specs.last().1)
    }
}

/// Everything that is hashed: the version of the form, the paths that the
/// project is assembled with, the toolchain and the description of every
/// crate.
pub open spec fn key_writes(
    specs: Seq<(Seq<char>, Seq<char>)>,
    toolchain_info: Seq<char>,
    bazel: Seq<char>,
    workspace: Seq<char>,
    execution_root: Seq<char>,
    launcher_dir: Seq<char>,
) -> Seq<Seq<u8>> {
    seq![seq![1u8, 0u8, 0u8, 0u8]] + text_writes(bazel) + text_writes(workspace) + text_writes(
        execution_root,
    ) + text_writes(toolchain_info) + text_writes(launcher_dir) + spec_writes(specs)
}

/// Hashes a text.
fn hash_text(hasher: &mut DefaultHasher, s: &str)
    ensures
        final(hasher)@ == old(hasher)@ + text_writes(s@),
{
    let ghost before = hasher@;
    hasher.write(s.as_bytes());
    let end: Vec<u8> = vec![0xffu8];
    assert(end@ =~= seq![0xffu8]);
    hasher.write(end.as_slice());
    assert(hasher@ =~= before + text_writes(s@));
}

/// The key of the project that is assembled from the given descriptions,
/// toolchain and paths. The descriptions are pairs of path and content, in the
/// order of their paths. The launcher directory counts because the project
/// holds a path in it.
pub fn compute_key(
    spec_contents: &Vec<(String, String)>,
    toolchain_info: &str,
    bazel: &str,
    workspace: &str,
    execution_root: &str,
    launcher_dir: &str,
) -> (r: String)
    ensures
        r@ == text::hex(
            DefaultHasher::spec_finish(
                key_writes(
                    string_map::pair_views(spec_contents@),
                    toolchain_info@,
                    bazel@,
                    workspace@,
                    execution_root@,
                    launcher_dir@,
                ),
            ) as nat,
            16,
        ),
{
    let ghost specs = string_map::pair_views(spec_contents@);
    let mut hasher = DefaultHasher::new();
    let version: Vec<u8> = vec![1u8, 0u8, 0u8, 0u8];
    assert(version@ =~= seq![1u8, 0u8, 0u8, 0u8]);
    hasher.write(version.as_slice());
    hash_text(&mut hasher, bazel);
    hash_text(&mut hasher, workspace);
    hash_text(&mut hasher, execution_root);
    hash_text(&mut hasher, toolchain_info);
    hash_text(&mut hasher, launcher_dir);
    let ghost head = hasher@;
    let mut i: usize = 0;
    assert(head + spec_writes(specs.take(0)) =~= head);
    while i < spec_contents.len()
        invariant
            i <= spec_contents@.len(),
            specs == string_map::pair_views(spec_contents@),
            hasher@ == head + spec_writes(specs.take(i as int)),
        decreases spec_contents@.len() - i,
    {
        hash_text(&mut hasher, spec_contents[i].0.as_str());
        hash_text(&mut hasher, spec_contents[i].1.as_str());
        proof {
            assert(specs.take(i + 1).drop_last() =~= specs.take(i as int));
            assert(specs.take(i + 1).last() == specs[i as int]);
            assert(hasher@ =~= head + spec_writes(specs.take(i + 1)));
        }
        i += 1;
    }
    assert(specs.take(i as int) =~= specs);
    assert(hasher@ =~= key_writes(
        specs,
        toolchain_info@,
        bazel@,
        workspace@,
        execution_root@,
        launcher_dir@,
    ));
    hex_of(hasher.finish(), 16)
}

proof fn lemma_text_writes(a: Seq<char>, b: Seq<char>)
    requires
        vstd::utf8::encode_utf8(a) == vstd::utf8::encode_utf8(b),
    ensures
        a == b,
{
    vstd::utf8::encode_utf8_decode_utf8(a);
    vstd::utf8::encode_utf8_decode_utf8(b);
}

proof fn lemma_spec_writes_len(s: Seq<(Seq<char>, Seq<char>)>)
    ensures
        spec_writes(s).len() == 4 * s.len(),
    decreases s.len(),
{
    if s.len() > 0 {
        lemma_spec_writes_len(s.drop_last());
    }
}

proof fn lemma_spec_writes(s: Seq<(Seq<char>, Seq<char>)>, t: Seq<(Seq<char>, Seq<char>)>)
    requires
        spec_writes(s) == spec_writes(t),
    ensures
        s == t,
    decreases s.len(),
{
    lemma_spec_writes_len(s);
    lemma_spec_writes_len(t);
    if s.len() == 0 {
        assert(s =~= t);
    } else {
        let n = 4 * (s.len() - 1);
        let a = s.drop_last();
        let b = t.drop_last();
        lemma_spec_writes_len(a);
        lemma_spec_writes_len(b);
        let w = spec_writes(s);
        let v = spec_writes(t);
        assert(w[n] == vstd::utf8::encode_utf8(s.last().0));
        assert(v[n] == vstd::utf8::encode_utf8(t.last().0));
        assert(w[n + 2] == vstd::utf8::encode_utf8(s.last().1));
        assert(v[n + 2] == vstd::utf8::encode_utf8(t.last().1));
        lemma_text_writes(s.last().0, t.last().0);
        lemma_text_writes(s.last().1, t.last().1);
        assert(spec_writes(a) =~= w.take(n));
        assert(spec_writes(b) =~= v.take(n));
        lemma_spec_writes(a, b);
        assert(s =~= a.push(s.last()));
        assert(t =~= b.push(t.last()));
    }
}

/// What is hashed tells every input: two sets of inputs that hash the same
/// writes are the same.
pub proof fn lemma_key_covers_inputs(
    specs: Seq<(Seq<char>, Seq<char>)>,
    toolchain_info: Seq<char>,
    bazel: Seq<char>,
    workspace: Seq<char>,
    execution_root: Seq<char>,
    launcher_dir: Seq<char>,
    specs2: Seq<(Seq<char>, Seq<char>)>,
    toolchain_info2: Seq<char>,
    bazel2: Seq<char>,
    workspace2: Seq<char>,
    execution_root2: Seq<char>,
    launcher_dir2: Seq<char>,
)
    requires
        key_writes(specs, toolchain_info, bazel, workspace, execution_root, launcher_dir)
            == key_writes(
            specs2,
            toolchain_info2,
            bazel2,
            workspace2,
            execution_root2,
            launcher_dir2,
        ),
    ensures
        specs == specs2,
        toolchain_info == toolchain_info2,
        bazel == bazel2,
        workspace == workspace2,
        execution_root == execution_root2,
        launcher_dir == launcher_dir2,
{
    let w = key_writes(specs, toolchain_info, bazel, workspace, execution_root, launcher_dir);
    let v = key_writes(
        specs2,
        toolchain_info2,
        bazel2,
        workspace2,
        execution_root2,
        launcher_dir2,
    );
    assert(w[1] == vstd::utf8::encode_utf8(bazel) && v[1] == vstd::utf8::encode_utf8(bazel2));
    assert(w[3] == vstd::utf8::encode_utf8(workspace) && v[3] == vstd::utf8::encode_utf8(
        workspace2,
    ));
    assert(w[5] == vstd::utf8::encode_utf8(execution_root) && v[5] == vstd::utf8::encode_utf8(
        execution_root2,
    ));
    assert(w[7] == vstd::utf8::encode_utf8(toolchain_info) && v[7] == vstd::utf8::encode_utf8(
        toolchain_info2,
    ));
    assert(w[9] == vstd::utf8::encode_utf8(launcher_dir) && v[9] == vstd::utf8::encode_utf8(
        launcher_dir2,
    ));
    lemma_text_writes(bazel, bazel2);
    lemma_text_writes(workspace, workspace2);
    lemma_text_writes(execution_root, execution_root2);
    lemma_text_writes(toolchain_info, toolchain_info2);
    lemma_text_writes(launcher_dir, launcher_dir2);
    assert(spec_writes(specs) =~= w.skip(11));
    assert(spec_writes(specs2) =~= v.skip(11));
    lemma_spec_writes(specs, specs2);
}

/// The directory of the cache: what the environment names, unless that is
/// empty, or else a directory in the workspace.
pub open spec fn cache_dir_of(workspace: Seq<char>, named: Option<Seq<char>>) -> Seq<char> {
    match named {
        Some(dir) => if dir.len() > 0 {
            dir
        } else {
            paths::joined(paths::joined(workspace, CACHE_DIR_REL_PREFIX@), CACHE_SUBDIR@)
        },
        None => paths::joined(paths::joined(workspace, CACHE_DIR_REL_PREFIX@), CACHE_SUBDIR@),
    }
}

/// The directory of the cache, where `named` is the one that the environment
/// names.
pub fn cache_dir(workspace: &str, named: &Option<String>) -> (r: String)
    ensures
        r@ == cache_dir_of(workspace@, text::opt_view(*named)),
{
    match named {
        Some(dir) => if !dir.as_str().is_empty() {
            return copied(dir);
        },
        None => {},
    }
    paths::join(paths::join(workspace, CACHE_DIR_REL_PREFIX).as_str(), CACHE_SUBDIR)
}

/// The file of the entry with the given key, inside the directory of the
/// cache.
pub open spec fn cache_file_of(dir: Seq<char>, key: Seq<char>) -> Seq<char> {
    paths::joined(dir, key + ".json"@)
}

/// The file of the entry with the given key.
pub fn cache_file(workspace: &str, named: &Option<String>, key: &str) -> (r: String)
    ensures
        r@ == cache_file_of(cache_dir_of(workspace@, text::opt_view(*named)), key@),
{
    let mut name = key.to_owned();
    name.append(".json");
    paths::join(cache_dir(workspace, named).as_str(), name.as_str())
}

/// Where an entry is written before it is moved to `file`, so that nobody sees
/// half of one.
pub fn staging_file(file: &str) -> (r: String)
    ensures
        r@ == paths::extended(file@, "json.tmp"@),
{
    proof {
        reveal_strlit("json.tmp");
    }
    paths::with_extension(file, "json.tmp")
}

/// The environment names the directory of the cache, and a directory inside the
/// workspace takes its place where the environment names none.
pub proof fn lemma_cache_place(workspace: Seq<char>, dir: Seq<char>, key: Seq<char>)
    ensures
        dir.len() > 0 ==> cache_dir_of(workspace, Some(dir)) == dir,
        dir.len() == 0 ==> cache_dir_of(workspace, Some(dir)) == paths::joined(
            paths::joined(workspace, ".rules_rust_analyzer"@),
            "cache"@,
        ),
        cache_dir_of(workspace, None) == paths::joined(
            paths::joined(workspace, ".rules_rust_analyzer"@),
            "cache"@,
        ),
        cache_file_of(dir, key) == paths::joined(dir, key + ".json"@),
{
}

/// The first thing that is hashed is the version of the form, so that an entry
/// of another version is never served.
pub proof fn lemma_version_hashed(
    specs: Seq<(Seq<char>, Seq<char>)>,
    toolchain_info: Seq<char>,
    bazel: Seq<char>,
    workspace: Seq<char>,
    execution_root: Seq<char>,
    launcher_dir: Seq<char>,
)
    ensures
        ({
            let w = key_writes(
                specs,
                toolchain_info,
                bazel,
                workspace,
                execution_root,
                launcher_dir,
            );
            &&& w.len() == 11 + 4 * specs.len()
            &&& w[0].len() == 4
            &&& w[0][0] as int + 256 * (w[0][1] as int + 256 * (w[0][2] as int + 256 * (w[0][3]
                as int))) == CACHE_SCHEMA_VERSION
        }),
{
    lemma_spec_writes_len(specs);
}

} // verus!
