//! The settings that setup prints for the editors whose files it does not
//! write: one template for each, with slots for the paths and for the parts
//! that can be left out.
use vstd::prelude::*;
use crate::discovery::DISCOVER_BINARY_FILENAME;
use crate::paths;
use crate::setup::ToolchainBinaries;
use crate::text;
use crate::text::replace_text;

verus! {

/// The slot for the path of rust-analyzer.
pub const TPL_RA_LAUNCHER: &'static str = "__RA_LAUNCHER__";

/// The slot for the path of the discovery program.
pub const TPL_DISCOVER_LAUNCHER: &'static str = "__DISCOVER_LAUNCHER__";

/// The slot for the path of the proc-macro server.
pub const TPL_PMS_LAUNCHER: &'static str = "__PMS_LAUNCHER__";

/// The slot for the path of rustfmt.
pub const TPL_RUSTFMT_LAUNCHER: &'static str = "__RUSTFMT_LAUNCHER__";

/// The slot for the part about the proc-macro server.
pub const TPL_OPT_PROC_MACRO: &'static str = "__OPT_PROC_MACRO__";

/// The slot for the part about rustfmt.
pub const TPL_OPT_RUSTFMT: &'static str = "__OPT_RUSTFMT__";

/// For Neovim, with `nvim-lspconfig`. The `"{arg}"` here and in the other
/// templates is no slot: rust-analyzer fills it in.
pub const NEOVIM_LUA_TEMPLATE: &'static str = r#"require("lspconfig").rust_analyzer.setup({
  cmd = { "__RA_LAUNCHER__" },
  settings = {
    ["rust-analyzer"] = {
      workspace = {
        discoverConfig = {
          command = { "__DISCOVER_LAUNCHER__", "{arg}" },
          progressLabel = "rules_rust",
          filesToWatch = { "BUILD", "BUILD.bazel", "MODULE.bazel", "WORKSPACE", "WORKSPACE.bazel" },
        },
      },
__OPT_PROC_MACRO____OPT_RUSTFMT__      lens = { enable = true },
    },
  },
})
"#;

/// The part about the proc-macro server for Neovim.
pub const NEOVIM_LUA_PROC_MACRO: &'static str = r#"      procMacro = {
        server = "__PMS_LAUNCHER__",
      },
"#;

/// The part about rustfmt for Neovim.
pub const NEOVIM_LUA_RUSTFMT: &'static str = r#"      rustfmt = {
        overrideCommand = { "__RUSTFMT_LAUNCHER__" },
      },
"#;

/// For `languages.toml` of Helix.
pub const HELIX_TOML_TEMPLATE: &'static str = r#"[language-server.rust-analyzer]
command = "__RA_LAUNCHER__"

[language-server.rust-analyzer.config.rust-analyzer.workspace.discoverConfig]
command = ["__DISCOVER_LAUNCHER__", "{arg}"]
progressLabel = "rules_rust"
filesToWatch = ["BUILD", "BUILD.bazel", "MODULE.bazel", "WORKSPACE", "WORKSPACE.bazel"]
__OPT_PROC_MACRO____OPT_RUSTFMT__
[language-server.rust-analyzer.config.rust-analyzer.lens]
enable = true
"#;

/// The part about the proc-macro server for Helix.
pub const HELIX_TOML_PROC_MACRO: &'static str = r#"
[language-server.rust-analyzer.config.rust-analyzer.procMacro]
server = "__PMS_LAUNCHER__"
"#;

/// The part about rustfmt for Helix.
pub const HELIX_TOML_RUSTFMT: &'static str = r#"
[language-server.rust-analyzer.config.rust-analyzer.rustfmt]
overrideCommand = ["__RUSTFMT_LAUNCHER__"]
"#;

/// For editors that take JSON. JSON allows no comma after the last entry, so
/// that the parts that can be left out come before the last one and bring their
/// comma along.
pub const SETTINGS_JSON_TEMPLATE: &'static str = r#"{
  "rust-analyzer.server.path": "__RA_LAUNCHER__",
  "rust-analyzer.workspace.discoverConfig": {
    "command": ["__DISCOVER_LAUNCHER__", "{arg}"],
    "progressLabel": "rules_rust",
    "filesToWatch": ["BUILD", "BUILD.bazel", "MODULE.bazel", "WORKSPACE", "WORKSPACE.bazel"]
  },
  __OPT_PROC_MACRO____OPT_RUSTFMT__"rust-analyzer.lens.enable": true
}
"#;

/// The part about the proc-macro server as JSON.
pub const SETTINGS_JSON_PROC_MACRO: &'static str = r#""rust-analyzer.procMacro.server": "__PMS_LAUNCHER__",
  "#;

/// The part about rustfmt as JSON.
pub const SETTINGS_JSON_RUSTFMT: &'static str = r#""rust-analyzer.rustfmt.overrideCommand": ["__RUSTFMT_LAUNCHER__"],
  "#;

/// The argument that rust-analyzer fills in, as it stands in every template.
pub open spec fn quoted_arg() -> Seq<char> {
    "\"{arg}\""@
}

/// What setup knows when it writes settings or prints them.
#[derive(Debug, PartialEq, Eq)]
pub struct SetupCtx {
    /// The directory of the launchers.
    pub launcher_dir: String,
    /// Whether to leave the proc-macro server out.
    pub skip_proc_macro_server: bool,
    /// Whether to leave rustfmt out.
    pub skip_rustfmt: bool,
    /// The programs of the toolchain.
    pub toolchain: ToolchainBinaries,
    /// Whether paths are written with backslashes here.
    pub windows: bool,
}

/// A path with slashes only, where it is written with backslashes: JSON, Lua
/// and TOML all read a backslash as the start of an escape.
pub open spec fn forward_slashes(path: Seq<char>, windows: bool) -> Seq<char> {
    if windows {
        path.map_values(
            |c: char|
                if c == '\\' {
                    '/'
                } else {
                    c
                },
        )
    } else {
        path
    }
}

/// A path with slashes only, where it is written with backslashes.
pub fn to_forward_slashes(path: &str, windows: bool) -> (r: String)
    ensures
        r@ == forward_slashes(path@, windows),
{
    if !windows {
        return path.to_owned();
    }
    let mut r = String::new();
    let ghost whole = forward_slashes(path@, windows);
    for c in it: path.chars()
        invariant
            windows,
            it.seq() == path@,
            whole == forward_slashes(path@, windows),
            r@ == whole.take(it.index() as int),
    {
        let ghost k = it.index() as int;
        assert(whole.take(k + 1) =~= whole.take(k).push(whole[k]));
        if c == '\\' {
            r.push('/');
        } else {
            r.push(c);
        }
    }
    assert(whole.take(whole.len() as int) =~= whole);
    r
}

/// A part that can be left out: what `substitute` makes of `block`, or nothing.
pub fn opt_block<F: FnOnce(&str) -> String>(enabled: bool, block: &str, substitute: F) -> (r:
    String)
    requires
        enabled ==> substitute.requires((block,)),
    ensures
        enabled ==> substitute.ensures((block,), r),
        !enabled ==> r@.len() == 0,
{
    if enabled {
        substitute(block)
    } else {
        String::new()
    }
}

/// The paths that the templates have slots for, with slashes only.
#[derive(Debug, PartialEq, Eq)]
pub struct SnippetPaths {
    pub ra: String,
    pub pms: String,
    pub rustfmt: String,
    pub discover: String,
}

impl SnippetPaths {
    /// The paths: those of the toolchain, and that of the discovery program,
    /// which is with the launchers.
    pub fn for_ctx(ctx: &SetupCtx, launcher_dir: &str) -> (r: Self)
        ensures
            r.ra@ == forward_slashes(ctx.toolchain.rust_analyzer@, ctx.windows),
            r.pms@ == forward_slashes(ctx.toolchain.proc_macro_srv@, ctx.windows),
            r.rustfmt@ == forward_slashes(ctx.toolchain.rustfmt@, ctx.windows),
            r.discover@ == forward_slashes(
                paths::joined(launcher_dir@, DISCOVER_BINARY_FILENAME@),
                ctx.windows,
            ),
    {
        SnippetPaths {
            ra: to_forward_slashes(ctx.toolchain.rust_analyzer.as_str(), ctx.windows),
            pms: to_forward_slashes(ctx.toolchain.proc_macro_srv.as_str(), ctx.windows),
            rustfmt: to_forward_slashes(ctx.toolchain.rustfmt.as_str(), ctx.windows),
            discover: to_forward_slashes(
                paths::join(launcher_dir, DISCOVER_BINARY_FILENAME).as_str(),
                ctx.windows,
            ),
        }
    }
}

/// A part that can be left out, with its slot filled.
pub open spec fn filled_part(skip: bool, part: Seq<char>, slot: Seq<char>, path: Seq<char>) -> Seq<
    char,
> {
    if skip {
        Seq::empty()
    } else {
        text::replaced(part, slot, path)
    }
}

/// The main template with its four slots filled, one after the other.
pub open spec fn filled(
    main: Seq<char>,
    ra: Seq<char>,
    discover: Seq<char>,
    proc_macro: Seq<char>,
    rustfmt: Seq<char>,
) -> Seq<char> {
    text::replaced(
        text::replaced(
            text::replaced(
                text::replaced(main, TPL_RA_LAUNCHER@, ra),
                TPL_DISCOVER_LAUNCHER@,
                discover,
            ),
            TPL_OPT_PROC_MACRO@,
            proc_macro,
        ),
        TPL_OPT_RUSTFMT@,
        rustfmt,
    )
}

/// The settings that a template gives.
pub open spec fn rendered(
    ctx: SetupCtx,
    ra: Seq<char>,
    pms: Seq<char>,
    fmt: Seq<char>,
    discover: Seq<char>,
    main: Seq<char>,
    proc_macro: Seq<char>,
    rustfmt: Seq<char>,
) -> Seq<char> {
    filled(
        main,
        ra,
        discover,
        filled_part(ctx.skip_proc_macro_server, proc_macro, TPL_PMS_LAUNCHER@, pms),
        filled_part(ctx.skip_rustfmt, rustfmt, TPL_RUSTFMT_LAUNCHER@, fmt),
    )
}

/// Fills in a template and its two parts.
pub fn render_snippet(
    ctx: &SetupCtx,
    paths: &SnippetPaths,
    main_template: &str,
    proc_macro_template: &str,
    rustfmt_template: &str,
) -> (r: String)
    ensures
        r@ == rendered(
            *ctx,
            paths.ra@,
            paths.pms@,
            paths.rustfmt@,
            paths.discover@,
            main_template@,
            proc_macro_template@,
            rustfmt_template@,
        ),
{
    let fill_proc_macro = |t: &str| -> (s: String)
        ensures
            s@ == text::replaced(t@, TPL_PMS_LAUNCHER@, paths.pms@),
    {
        proof {
            reveal_strlit("__PMS_LAUNCHER__");
        }
        replace_text(t, TPL_PMS_LAUNCHER, paths.pms.as_str())
    };
    let fill_rustfmt = |t: &str| -> (s: String)
        ensures
            s@ == text::replaced(t@, TPL_RUSTFMT_LAUNCHER@, paths.rustfmt@),
    {
        proof {
            reveal_strlit("__RUSTFMT_LAUNCHER__");
        }
        replace_text(t, TPL_RUSTFMT_LAUNCHER, paths.rustfmt.as_str())
    };
    let proc_macro = opt_block(
        !ctx.skip_proc_macro_server,
        proc_macro_template,
        fill_proc_macro,
    );
    let rustfmt = opt_block(!ctx.skip_rustfmt, rustfmt_template, fill_rustfmt);
    assert(ctx.skip_proc_macro_server ==> proc_macro@ =~= Seq::empty());
    assert(ctx.skip_rustfmt ==> rustfmt@ =~= Seq::empty());
    proof {
        reveal_strlit("__RA_LAUNCHER__");
        reveal_strlit("__DISCOVER_LAUNCHER__");
        reveal_strlit("__OPT_PROC_MACRO__");
        reveal_strlit("__OPT_RUSTFMT__");
    }
    let a = replace_text(main_template, TPL_RA_LAUNCHER, paths.ra.as_str());
    let b = replace_text(a.as_str(), TPL_DISCOVER_LAUNCHER, paths.discover.as_str());
    let c = replace_text(b.as_str(), TPL_OPT_PROC_MACRO, proc_macro.as_str());
    replace_text(c.as_str(), TPL_OPT_RUSTFMT, rustfmt.as_str())
}

/// The settings that a template gives, with the paths in place.
pub open spec fn snippet(
    ctx: SetupCtx,
    launcher_dir: Seq<char>,
    main: Seq<char>,
    proc_macro: Seq<char>,
    rustfmt: Seq<char>,
) -> Seq<char> {
    rendered(
        ctx,
        forward_slashes(ctx.toolchain.rust_analyzer@, ctx.windows),
        forward_slashes(ctx.toolchain.proc_macro_srv@, ctx.windows),
        forward_slashes(ctx.toolchain.rustfmt@, ctx.windows),
        forward_slashes(paths::joined(launcher_dir, DISCOVER_BINARY_FILENAME@), ctx.windows),
        main,
        proc_macro,
        rustfmt,
    )
}

/// The settings for Neovim.
pub fn generate_neovim_lua(ctx: &SetupCtx, launcher_dir: &str) -> (r: String)
    ensures
        r@ == snippet(
            *ctx,
            launcher_dir@,
            NEOVIM_LUA_TEMPLATE@,
            NEOVIM_LUA_PROC_MACRO@,
            NEOVIM_LUA_RUSTFMT@,
        ),
{
    let paths = SnippetPaths::for_ctx(ctx, launcher_dir);
    render_snippet(ctx, &paths, NEOVIM_LUA_TEMPLATE, NEOVIM_LUA_PROC_MACRO, NEOVIM_LUA_RUSTFMT)
}

/// The settings for Helix.
pub fn generate_helix_toml(ctx: &SetupCtx, launcher_dir: &str) -> (r: String)
    ensures
        r@ == snippet(
            *ctx,
            launcher_dir@,
            HELIX_TOML_TEMPLATE@,
            HELIX_TOML_PROC_MACRO@,
            HELIX_TOML_RUSTFMT@,
        ),
{
    let paths = SnippetPaths::for_ctx(ctx, launcher_dir);
    render_snippet(ctx, &paths, HELIX_TOML_TEMPLATE, HELIX_TOML_PROC_MACRO, HELIX_TOML_RUSTFMT)
}

/// The settings for editors that take JSON.
pub fn generate_settings_json(ctx: &SetupCtx, launcher_dir: &str) -> (r: String)
    ensures
        r@ == snippet(
            *ctx,
            launcher_dir@,
            SETTINGS_JSON_TEMPLATE@,
            SETTINGS_JSON_PROC_MACRO@,
            SETTINGS_JSON_RUSTFMT@,
        ),
{
    let paths = SnippetPaths::for_ctx(ctx, launcher_dir);
    render_snippet(ctx, &paths, SETTINGS_JSON_TEMPLATE, SETTINGS_JSON_PROC_MACRO, SETTINGS_JSON_RUSTFMT)
}

/// Filling in a template keeps the argument that rust-analyzer fills in,
/// whatever the paths and whatever is left out.
proof fn lemma_argument_kept(
    main: Seq<char>,
    ra: Seq<char>,
    discover: Seq<char>,
    proc_macro: Seq<char>,
    rustfmt: Seq<char>,
    at: int,
)
    requires
        text::matches_at(main, quoted_arg(), at),
    ensures
        text::contains_text(filled(main, ra, discover, proc_macro, rustfmt), quoted_arg()),
{
    reveal_strlit("\"{arg}\"");
    reveal_strlit("__RA_LAUNCHER__");
    reveal_strlit("__DISCOVER_LAUNCHER__");
    reveal_strlit("__OPT_PROC_MACRO__");
    reveal_strlit("__OPT_RUSTFMT__");
    let a = text::replaced(main, TPL_RA_LAUNCHER@, ra);
    text::lemma_replaced_keeps(main, TPL_RA_LAUNCHER@, ra, 0, quoted_arg(), at);
    let i = choose|i: int| text::matches_at(a, quoted_arg(), i);
    let b = text::replaced(a, TPL_DISCOVER_LAUNCHER@, discover);
    text::lemma_replaced_keeps(a, TPL_DISCOVER_LAUNCHER@, discover, 0, quoted_arg(), i);
    let j = choose|j: int| text::matches_at(b, quoted_arg(), j);
    let c = text::replaced(b, TPL_OPT_PROC_MACRO@, proc_macro);
    text::lemma_replaced_keeps(b, TPL_OPT_PROC_MACRO@, proc_macro, 0, quoted_arg(), j);
    let k = choose|k: int| text::matches_at(c, quoted_arg(), k);
    text::lemma_replaced_keeps(c, TPL_OPT_RUSTFMT@, rustfmt, 0, quoted_arg(), k);
}

proof fn lemma_neovim_template()
    ensures
        text::matches_at(NEOVIM_LUA_TEMPLATE@, quoted_arg(), 209),
{
    reveal_strlit("\"{arg}\"");
    reveal_strlit(
        r#"require("lspconfig").rust_analyzer.setup({
  cmd = { "__RA_LAUNCHER__" },
  settings = {
    ["rust-analyzer"] = {
      workspace = {
        discoverConfig = {
          command = { "__DISCOVER_LAUNCHER__", "{arg}" },
          progressLabel = "rules_rust",
          filesToWatch = { "BUILD", "BUILD.bazel", "MODULE.bazel", "WORKSPACE", "WORKSPACE.bazel" },
        },
      },
__OPT_PROC_MACRO____OPT_RUSTFMT__      lens = { enable = true },
    },
  },
})
"#,
    );
    assert(NEOVIM_LUA_TEMPLATE@.subrange(209, 216) =~= quoted_arg());
}

proof fn lemma_helix_template()
    ensures
        text::matches_at(HELIX_TOML_TEMPLATE@, quoted_arg(), 175),
{
    reveal_strlit("\"{arg}\"");
    reveal_strlit(
        r#"[language-server.rust-analyzer]
command = "__RA_LAUNCHER__"

[language-server.rust-analyzer.config.rust-analyzer.workspace.discoverConfig]
command = ["__DISCOVER_LAUNCHER__", "{arg}"]
progressLabel = "rules_rust"
filesToWatch = ["BUILD", "BUILD.bazel", "MODULE.bazel", "WORKSPACE", "WORKSPACE.bazel"]
__OPT_PROC_MACRO____OPT_RUSTFMT__
[language-server.rust-analyzer.config.rust-analyzer.lens]
enable = true
"#,
    );
    assert(HELIX_TOML_TEMPLATE@.subrange(175, 182) =~= quoted_arg());
}

proof fn lemma_json_template()
    ensures
        text::matches_at(SETTINGS_JSON_TEMPLATE@, quoted_arg(), 139),
{
    reveal_strlit("\"{arg}\"");
    reveal_strlit(
        r#"{
  "rust-analyzer.server.path": "__RA_LAUNCHER__",
  "rust-analyzer.workspace.discoverConfig": {
    "command": ["__DISCOVER_LAUNCHER__", "{arg}"],
    "progressLabel": "rules_rust",
    "filesToWatch": ["BUILD", "BUILD.bazel", "MODULE.bazel", "WORKSPACE", "WORKSPACE.bazel"]
  },
  __OPT_PROC_MACRO____OPT_RUSTFMT__"rust-analyzer.lens.enable": true
}
"#,
    );
    assert(SETTINGS_JSON_TEMPLATE@.subrange(139, 146) =~= quoted_arg());
}

/// The settings for every editor hold the argument that rust-analyzer fills
/// in, whatever the user prefers.
pub proof fn lemma_argument_always_there(ctx: SetupCtx, launcher_dir: Seq<char>)
    ensures
        text::contains_text(
            snippet(
                ctx,
                launcher_dir,
                NEOVIM_LUA_TEMPLATE@,
                NEOVIM_LUA_PROC_MACRO@,
                NEOVIM_LUA_RUSTFMT@,
            ),
            quoted_arg(),
        ),
        text::contains_text(
            snippet(
                ctx,
                launcher_dir,
                HELIX_TOML_TEMPLATE@,
                HELIX_TOML_PROC_MACRO@,
                HELIX_TOML_RUSTFMT@,
            ),
            quoted_arg(),
        ),
        text::contains_text(
            snippet(
                ctx,
                launcher_dir,
                SETTINGS_JSON_TEMPLATE@,
                SETTINGS_JSON_PROC_MACRO@,
                SETTINGS_JSON_RUSTFMT@,
            ),
            quoted_arg(),
        ),
{
    let ra = forward_slashes(ctx.toolchain.rust_analyzer@, ctx.windows);
    let pms = forward_slashes(ctx.toolchain.proc_macro_srv@, ctx.windows);
    let fmt = forward_slashes(ctx.toolchain.rustfmt@, ctx.windows);
    let discover = forward_slashes(
        paths::joined(launcher_dir, DISCOVER_BINARY_FILENAME@),
        ctx.windows,
    );
    lemma_neovim_template();
    lemma_argument_kept(
        NEOVIM_LUA_TEMPLATE@,
        ra,
        discover,
        filled_part(ctx.skip_proc_macro_server, NEOVIM_LUA_PROC_MACRO@, TPL_PMS_LAUNCHER@, pms),
        filled_part(ctx.skip_rustfmt, NEOVIM_LUA_RUSTFMT@, TPL_RUSTFMT_LAUNCHER@, fmt),
        209,
    );
    lemma_helix_template();
    lemma_argument_kept(
        HELIX_TOML_TEMPLATE@,
        ra,
        discover,
        filled_part(ctx.skip_proc_macro_server, HELIX_TOML_PROC_MACRO@, TPL_PMS_LAUNCHER@, pms),
        filled_part(ctx.skip_rustfmt, HELIX_TOML_RUSTFMT@, TPL_RUSTFMT_LAUNCHER@, fmt),
        175,
    );
    lemma_json_template();
    lemma_argument_kept(
        SETTINGS_JSON_TEMPLATE@,
        ra,
        discover,
        filled_part(ctx.skip_proc_macro_server, SETTINGS_JSON_PROC_MACRO@, TPL_PMS_LAUNCHER@, pms),
        filled_part(ctx.skip_rustfmt, SETTINGS_JSON_RUSTFMT@, TPL_RUSTFMT_LAUNCHER@, fmt),
        139,
    );
}

/// Backslashes become slashes where paths are written with them, and nothing else
/// changes.
pub proof fn lemma_slashes(path: Seq<char>, i: int)
    requires
        0 <= i < path.len(),
    ensures
        forward_slashes(path, false) == path,
        forward_slashes(path, true).len() == path.len(),
        path[i] == '\\' ==> forward_slashes(path, true)[i] == '/',
        path[i] != '\\' ==> forward_slashes(path, true)[i] == path[i],
{
}

/// Whether `s` is `before`, the slot and `after`, and has the slot nowhere else.
pub open spec fn has_slot(
    s: Seq<char>,
    before: Seq<char>,
    slot: Seq<char>,
    after: Seq<char>,
) -> bool {
    &&& s == before + slot + after
    &&& text::is_first_at(s, slot, before.len() as int)
    &&& text::is_absent(after, slot)
}

proof fn lemma_slot_filled(
    s: Seq<char>,
    before: Seq<char>,
    slot: Seq<char>,
    after: Seq<char>,
    to: Seq<char>,
)
    requires
        slot.len() > 0,
        has_slot(s, before, slot, after),
    ensures
        text::replaced(s, slot, to) == before + to + after,
{
    text::lemma_replaced(before, slot, after, to, after);
}

/// A part that can be left out is its template with the path in the slot, and
/// nothing at all where it is left out.
pub proof fn lemma_part_filled(
    part: Seq<char>,
    before: Seq<char>,
    slot: Seq<char>,
    after: Seq<char>,
    path: Seq<char>,
)
    requires
        slot.len() > 0,
        has_slot(part, before, slot, after),
    ensures
        filled_part(false, part, slot, path) == before + path + after,
        filled_part(true, part, slot, path).len() == 0,
{
    lemma_slot_filled(part, before, slot, after, path);
}

/// The slots of a template are filled one after the other: first the path of
/// rust-analyzer, then that of the discovery program, then the part about the
/// proc-macro server and at last the part about rustfmt. What is around them
/// stays.
pub proof fn lemma_template_filled(
    ctx: SetupCtx,
    launcher_dir: Seq<char>,
    main: Seq<char>,
    proc_macro: Seq<char>,
    rustfmt: Seq<char>,
    p: (Seq<char>, Seq<char>),
    q: (Seq<char>, Seq<char>),
    r: (Seq<char>, Seq<char>),
    s: (Seq<char>, Seq<char>),
)
    requires
        has_slot(main, p.0, "__RA_LAUNCHER__"@, p.1),
        has_slot(
            p.0 + forward_slashes(ctx.toolchain.rust_analyzer@, ctx.windows) + p.1,
            q.0,
            "__DISCOVER_LAUNCHER__"@,
            q.1,
        ),
        has_slot(
            q.0 + forward_slashes(
                paths::joined(launcher_dir, DISCOVER_BINARY_FILENAME@),
                ctx.windows,
            ) + q.1,
            r.0,
            "__OPT_PROC_MACRO__"@,
            r.1,
        ),
        has_slot(
            r.0 + filled_part(
                ctx.skip_proc_macro_server,
                proc_macro,
                "__PMS_LAUNCHER__"@,
                forward_slashes(ctx.toolchain.proc_macro_srv@, ctx.windows),
            ) + r.1,
            s.0,
            "__OPT_RUSTFMT__"@,
            s.1,
        ),
    ensures
        snippet(ctx, launcher_dir, main, proc_macro, rustfmt) == s.0 + filled_part(
            ctx.skip_rustfmt,
            rustfmt,
            "__RUSTFMT_LAUNCHER__"@,
            forward_slashes(ctx.toolchain.rustfmt@, ctx.windows),
        ) + s.1,
{
    reveal_strlit("__RA_LAUNCHER__");
    reveal_strlit("__DISCOVER_LAUNCHER__");
    reveal_strlit("__OPT_PROC_MACRO__");
    reveal_strlit("__OPT_RUSTFMT__");
    let ra = forward_slashes(ctx.toolchain.rust_analyzer@, ctx.windows);
    let discover = forward_slashes(
        paths::joined(launcher_dir, DISCOVER_BINARY_FILENAME@),
        ctx.windows,
    );
    let pms = filled_part(
        ctx.skip_proc_macro_server,
        proc_macro,
        "__PMS_LAUNCHER__"@,
        forward_slashes(ctx.toolchain.proc_macro_srv@, ctx.windows),
    );
    let fmt = filled_part(
        ctx.skip_rustfmt,
        rustfmt,
        "__RUSTFMT_LAUNCHER__"@,
        forward_slashes(ctx.toolchain.rustfmt@, ctx.windows),
    );
    lemma_slot_filled(main, p.0, "__RA_LAUNCHER__"@, p.1, ra);
    lemma_slot_filled(p.0 + ra + p.1, q.0, "__DISCOVER_LAUNCHER__"@, q.1, discover);
    lemma_slot_filled(q.0 + discover + q.1, r.0, "__OPT_PROC_MACRO__"@, r.1, pms);
    lemma_slot_filled(r.0 + pms + r.1, s.0, "__OPT_RUSTFMT__"@, s.1, fmt);
}

} // verus!
