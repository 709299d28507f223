use vstd::prelude::*;

use crate::error::EnvsyncError;
use crate::paths::{join_path, parent_of, path_joined, path_parent};
use crate::text::{
    append_chars, chars_of, copy_range, lines, split_lines, starts_with_at, string_from_chars, trim,
    trim_range, vviews,
};

verus! {

broadcast use vstd::string::group_string_axioms;

// ---------------------------------------------------------------------------
// Texts that envsync writes
// ---------------------------------------------------------------------------

/// The `post-checkout` hook that envsync installs where there is none.
pub fn hook_script() -> (r: String)
    ensures
        r@ == "#!/bin/sh\n# envsync post-checkout hook - auto-sync .env files\nenvsync sync 2>/dev/null || true\n"@,
{
    "#!/bin/sh\n# envsync post-checkout hook - auto-sync .env files\nenvsync sync 2>/dev/null || true\n".to_string()
}

/// What envsync adds to a `post-checkout` hook that is already there.
pub fn hook_addition() -> (r: String)
    ensures
        r@ == "\n# envsync auto-sync\nenvsync sync 2>/dev/null || true\n"@,
{
    "\n# envsync auto-sync\nenvsync sync 2>/dev/null || true\n".to_string()
}

/// The `.envsync.toml` that `envsync init` writes.
pub fn default_config_text() -> (r: String)
    ensures
        r@ == "# envsync configuration\n# Docs: https://github.com/dukeetheprogrammer/envsync\n\n[envsync]\n# Files to sync (glob patterns)\ninclude = [\".env\", \".env.local\", \".env.*\"]\n\n# Files to never sync (gitignore-style)\nignore = []\n\n# Per-worktree variable overrides\n# [envsync.overrides]\n# PORT = { base = 3000, increment = 1 }\n# DB_NAME = { base = \"myapp_dev\", suffix = \"_wt{N}\" }\n"@,
{
    "# envsync configuration\n# Docs: https://github.com/dukeetheprogrammer/envsync\n\n[envsync]\n# Files to sync (glob patterns)\ninclude = [\".env\", \".env.local\", \".env.*\"]\n\n# Files to never sync (gitignore-style)\nignore = []\n\n# Per-worktree variable overrides\n# [envsync.overrides]\n# PORT = { base = 3000, increment = 1 }\n# DB_NAME = { base = \"myapp_dev\", suffix = \"_wt{N}\" }\n".to_string()
}

// ---------------------------------------------------------------------------
// Searching a text
// ---------------------------------------------------------------------------

/// Whether `needle` occurs in `hay`.
pub open spec fn has_text(hay: Seq<char>, needle: Seq<char>) -> bool {
    exists|i: int| 0 <= i && i + needle.len() <= hay.len() && #[trigger] hay.subrange(i, i + needle.len()) == needle
}

fn contains_text(hay: &Vec<char>, needle: &Vec<char>) -> (r: bool)
    ensures
        r == has_text(hay@, needle@),
{
    if needle.len() > hay.len() {
        return false;
    }
    let mut i: usize = 0;
    while i <= hay.len() - needle.len()
        invariant
            needle.len() <= hay.len(),
            0 <= i <= hay.len() - needle.len() + 1,
            forall|j: int| 0 <= j < i ==> #[trigger] hay@.subrange(j, j + needle@.len()) != needle@,
        decreases hay.len() - needle.len() + 1 - i,
    {
        if starts_with_at(hay, i, hay.len(), needle) {
            assert(hay@.subrange(i as int, hay.len() as int).subrange(0, needle@.len() as int) =~= hay@.subrange(
                i as int,
                i + needle@.len(),
            ));
            return true;
        }
        assert(hay@.subrange(i as int, hay.len() as int).subrange(0, needle@.len() as int) =~= hay@.subrange(
            i as int,
            i + needle@.len(),
        ));
        i = i + 1;
    }
    false
}

/// Whether a hook mentions envsync.
pub fn mentions_envsync(text: &str) -> (r: bool)
    ensures
        r == has_text(text@, "envsync"@),
{
    let hay = chars_of(text);
    let needle = chars_of("envsync");
    contains_text(&hay, &needle)
}

// ---------------------------------------------------------------------------
// Installing and removing the hook
// ---------------------------------------------------------------------------

/// What installing the hook does.
#[derive(Debug)]
pub enum HookInstall {
    /// The hook already runs envsync; nothing is written.
    AlreadyInstalled,
    /// Write this text as the hook.
    Write(String),
}

/// A text with a `'\n'` added unless it ends with one, and then `tail`.
pub open spec fn appended_to(text: Seq<char>, tail: Seq<char>) -> Seq<char> {
    (if text.len() > 0 && text.last() == '\n' {
        text
    } else {
        text.push('\n')
    }) + tail
}

/// Installing the hook, given the hook that is there (`None` where there is
/// none): a new hook gets the envsync script; a hook that mentions envsync
/// is left alone; any other hook gets the envsync lines appended.
pub fn plan_hook_install(existing: Option<String>) -> (r: HookInstall)
    ensures
        match existing {
            None => r matches HookInstall::Write(t) && t@ == "#!/bin/sh\n# envsync post-checkout hook - auto-sync .env files\nenvsync sync 2>/dev/null || true\n"@,
            Some(e) => if has_text(e@, "envsync"@) {
                r is AlreadyInstalled
            } else {
                r matches HookInstall::Write(t) && t@ == appended_to(e@, "\n# envsync auto-sync\nenvsync sync 2>/dev/null || true\n"@)
            },
        },
{
    match existing {
        None => HookInstall::Write(hook_script()),
        Some(e) => {
            if mentions_envsync(e.as_str()) {
                HookInstall::AlreadyInstalled
            } else {
                let mut out = chars_of(e.as_str());
                let n = out.len();
                if !(n > 0 && out[n - 1] == '\n') {
                    out.push('\n');
                }
                let add = hook_addition();
                let tail = chars_of(add.as_str());
                append_chars(&mut out, &tail);
                HookInstall::Write(string_from_chars(&out))
            }
        },
    }
}

/// What uninstalling the hook does.
#[derive(Debug, Clone, Copy, PartialEq, Eq, Structural)]
pub enum HookRemoval {
    /// There is no hook.
    NoHook,
    /// The hook mentions envsync and is removed.
    Remove,
    /// The hook does not mention envsync and is kept.
    KeepForeign,
}

/// Uninstalling the hook, given the hook that is there (`None` where there
/// is none): only a hook that mentions envsync is removed.
pub fn plan_hook_removal(existing: Option<String>) -> (r: HookRemoval)
    ensures
        r == match existing {
            None => HookRemoval::NoHook,
            Some(e) => if has_text(e@, "envsync"@) {
                HookRemoval::Remove
            } else {
                HookRemoval::KeepForeign
            },
        },
{
    match existing {
        None => HookRemoval::NoHook,
        Some(e) => if mentions_envsync(e.as_str()) {
            HookRemoval::Remove
        } else {
            HookRemoval::KeepForeign
        },
    }
}

// ---------------------------------------------------------------------------
// Where the hooks are
// ---------------------------------------------------------------------------

/// Position of the first line that starts with `"gitdir:"`, or `ls.len()`.
pub open spec fn gitdir_line_index(ls: Seq<Seq<char>>) -> int
    decreases ls.len(),
{
    if ls.len() == 0 {
        0
    } else if "gitdir:"@.is_prefix_of(ls[0]) {
        0
    } else {
        1 + gitdir_line_index(ls.drop_first())
    }
}

/// The git directory that a linked worktree's `.git` file names: the first
/// line that starts with `gitdir:` must go on `gitdir: `, and the rest of it,
/// trimmed, is the directory.
pub open spec fn gitdir_of(content: Seq<char>) -> Option<Seq<char>> {
    let ls = lines(content);
    let i = gitdir_line_index(ls);
    if 0 <= i < ls.len() && "gitdir: "@.is_prefix_of(ls[i]) {
        Some(trim(ls[i].skip("gitdir: "@.len() as int)))
    } else {
        None
    }
}

proof fn lemma_gitdir_line_index(ls: Seq<Seq<char>>, k: int)
    requires
        0 <= k <= ls.len(),
        forall|j: int| 0 <= j < k ==> !"gitdir:"@.is_prefix_of(#[trigger] ls[j]),
        k == ls.len() || "gitdir:"@.is_prefix_of(ls[k]),
    ensures
        gitdir_line_index(ls) == k,
    decreases k,
{
    if k > 0 {
        assert forall|j: int| 0 <= j < k - 1 implies !"gitdir:"@.is_prefix_of(#[trigger] ls.drop_first()[j]) by {
            assert(ls.drop_first()[j] == ls[j + 1]);
        }
        lemma_gitdir_line_index(ls.drop_first(), k - 1);
    }
}

/// The git directory named by the contents of a linked worktree's `.git`
/// file; an error where it names none.
pub fn gitdir_from_git_file(content: &str) -> (r: Result<String, EnvsyncError>)
    ensures
        match gitdir_of(content@) {
            Some(d) => r matches Ok(s) && s@ == d,
            None => r matches Err(EnvsyncError::GitFileUnreadable),
        },
{
    let cs = chars_of(content);
    let ls = split_lines(&cs);
    let ghost lv = lines(content@);
    let key = chars_of("gitdir:");
    let keyed = chars_of("gitdir: ");
    let mut i: usize = 0;
    while i < ls.len()
        invariant
            0 <= i <= ls.len(),
            vviews(ls@) == lv,
            lv == lines(content@),
            key@ == "gitdir:"@,
            keyed@ == "gitdir: "@,
            forall|j: int| 0 <= j < i ==> !"gitdir:"@.is_prefix_of(#[trigger] lv[j]),
        decreases ls.len() - i,
    {
        let line = &ls[i];
        assert(line@ == lv[i as int]);
        assert(line@.subrange(0, line.len() as int) =~= line@);
        if starts_with_at(line, 0, line.len(), &key) {
            proof {
                lemma_gitdir_line_index(lv, i as int);
            }
            assert(lines(content@) == lv);
            assert(gitdir_line_index(lines(content@)) == i);
            if starts_with_at(line, 0, line.len(), &keyed) {
                let n = keyed.len();
                let (a, b) = trim_range(line, n, line.len());
                assert(line@.subrange(n as int, line.len() as int) =~= line@.skip("gitdir: "@.len() as int));
                let dir = copy_range(line, a, b);
                assert(gitdir_of(content@) == Some(dir@));
                return Ok(string_from_chars(&dir));
            } else {
                assert(!"gitdir: "@.is_prefix_of(lv[i as int]));
                assert(gitdir_of(content@) is None);
                return Err(EnvsyncError::GitFileUnreadable);
            }
        }
        i = i + 1;
    }
    proof {
        lemma_gitdir_line_index(lv, lv.len() as int);
    }
    Err(EnvsyncError::GitFileUnreadable)
}

/// The hooks directory of a repository, from a linked worktree's git
/// directory `.git/worktrees/<name>`: two levels up, then `hooks`.
pub open spec fn hooks_dir_of(git_dir: Seq<char>) -> Result<Seq<char>, EnvsyncError> {
    match path_parent(git_dir) {
        None => Err(EnvsyncError::GitDirParentMissing),
        Some(p) => match path_parent(p) {
            None => Err(EnvsyncError::HooksDirMissing),
            Some(q) => Ok(path_joined(q, "hooks"@)),
        },
    }
}

/// The hooks directory for a linked worktree's git directory.
pub fn hooks_dir_from_gitdir(git_dir: &str) -> (r: Result<String, EnvsyncError>)
    ensures
        match hooks_dir_of(git_dir@) {
            Ok(d) => r matches Ok(s) && s@ == d,
            Err(e) => r == Err::<String, EnvsyncError>(e),
        },
{
    match parent_of(git_dir) {
        None => Err(EnvsyncError::GitDirParentMissing),
        Some(p) => match parent_of(p.as_str()) {
            None => Err(EnvsyncError::HooksDirMissing),
            Some(q) => Ok(join_path(q.as_str(), "hooks")),
        },
    }
}

/// Whatever installing writes runs envsync, so installing a second time
/// finds the hook installed and writes nothing.
pub proof fn law_install_hook_twice()
    ensures
        has_text(
            "#!/bin/sh\n# envsync post-checkout hook - auto-sync .env files\nenvsync sync 2>/dev/null || true\n"@,
            "envsync"@,
        ),
        forall|e: Seq<char>| has_text(#[trigger] appended_to(e, "\n# envsync auto-sync\nenvsync sync 2>/dev/null || true\n"@), "envsync"@),
{
    let script = "#!/bin/sh\n# envsync post-checkout hook - auto-sync .env files\nenvsync sync 2>/dev/null || true\n"@;
    let tail = "\n# envsync auto-sync\nenvsync sync 2>/dev/null || true\n"@;
    let needle = "envsync"@;
    reveal_strlit("#!/bin/sh\n# envsync post-checkout hook - auto-sync .env files\nenvsync sync 2>/dev/null || true\n");
    reveal_strlit("\n# envsync auto-sync\nenvsync sync 2>/dev/null || true\n");
    reveal_strlit("envsync");
    assert(script.subrange(12, 12 + needle.len() as int) =~= needle);
    assert(tail.subrange(3, 10) =~= needle);
    assert forall|e: Seq<char>| has_text(#[trigger] appended_to(e, tail), needle) by {
        let head = if e.len() > 0 && e.last() == '\n' { e } else { e.push('\n') };
        let all = appended_to(e, tail);
        assert(all == head + tail);
        let i: int = head.len() as int + 3;
        assert(all.subrange(i, i + 7) =~= tail.subrange(3, 10));
    }
}

/// Installing into a hook that is already there keeps that hook whole: the
/// written hook starts with the existing text, ends with the envsync lines,
/// and between the two holds at most one added `'\n'`, added exactly where
/// the existing text does not end in one, so that the envsync lines start
/// on a line of their own.
pub proof fn law_install_keeps_existing_hook(e: Seq<char>, tail: Seq<char>)
    ensures
        e.is_prefix_of(appended_to(e, tail)),
        appended_to(e, tail).skip(appended_to(e, tail).len() - tail.len()) == tail,
        appended_to(e, tail).len() == e.len() + tail.len() + if e.len() > 0 && e.last() == '\n' {
            0int
        } else {
            1int
        },
        appended_to(e, tail)[appended_to(e, tail).len() - tail.len() - 1] == '\n',
{
    let t = appended_to(e, tail);
    let head = if e.len() > 0 && e.last() == '\n' { e } else { e.push('\n') };
    assert(t == head + tail);
    assert(t.take(e.len() as int) =~= e);
    assert(t.skip(t.len() - tail.len()) =~= tail);
    assert(t[head.len() - 1] == head.last());
}

} // verus!
