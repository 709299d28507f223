use vstd::prelude::*;

use colored::Colorize;

use crate::envfile::{
    diff_at, diff_env, is_diff_of, merge_env, merged_text, DiffKind, EnvDiff, EnvFile,
};
use crate::error::EnvsyncError;
use crate::text::{append_chars, append_str, chars_of, decimal, push_decimal, string_from_chars};

verus! {

broadcast use vstd::string::group_string_axioms;

// ---------------------------------------------------------------------------
// Colored markers
// ---------------------------------------------------------------------------

/// The escape codes with which the terminal shows `s` in bold and the
/// foreground color `code` (such as `"32"` for green).
pub open spec fn ansi_bold(code: Seq<char>, s: Seq<char>) -> Seq<char> {
    seq!['\u{1B}', '[', '1', ';'] + code + seq!['m'] + s + seq!['\u{1B}', '[', '0', 'm']
}

pub open spec fn green_code() -> Seq<char> {
    seq!['3', '2']
}

pub open spec fn red_code() -> Seq<char> {
    seq!['3', '1']
}

pub open spec fn yellow_code() -> Seq<char> {
    seq!['3', '3']
}

/// Whether `p` is `s` as `colored` may write it in bold and color `code`:
/// plain, where it does not colorize, or wrapped in the escape codes.
pub open spec fn painted(s: Seq<char>, code: Seq<char>, p: Seq<char>) -> bool {
    p == s || p == ansi_bold(code, s)
}

/// `colored`'s `s.green().bold()` written out (`ToString`). Whether it
/// colorizes depends on the process (its `CLICOLOR`, `CLICOLOR_FORCE` and
/// `NO_COLOR` settings, or an override), so only the two outcomes are stated;
/// a text with an escape character in it is left out, since colored rewrites
/// reset codes inside it.
#[verifier::external_body]
fn bold_green(s: &str) -> (r: String)
    requires
        !s@.contains('\u{1B}'),
    ensures
        painted(s@, green_code(), r@),
{
    s.green().bold().to_string()
}

/// `colored`'s `s.red().bold()` written out; as `bold_green`, in red.
#[verifier::external_body]
fn bold_red(s: &str) -> (r: String)
    requires
        !s@.contains('\u{1B}'),
    ensures
        painted(s@, red_code(), r@),
{
    s.red().bold().to_string()
}

/// `colored`'s `s.yellow().bold()` written out; as `bold_green`, in yellow.
#[verifier::external_body]
fn bold_yellow(s: &str) -> (r: String)
    requires
        !s@.contains('\u{1B}'),
    ensures
        painted(s@, yellow_code(), r@),
{
    s.yellow().bold().to_string()
}

// ---------------------------------------------------------------------------
// Showing differences
// ---------------------------------------------------------------------------

pub open spec fn or_empty(o: Option<String>) -> Seq<char> {
    match o {
        Some(s) => s@,
        None => seq![],
    }
}

/// The line that shows one difference: `+ KEY=new`, `- KEY=old`, or
/// `~ KEY=old -> new`, each marker as given.
pub open spec fn diff_line(d: EnvDiff, added: Seq<char>, removed: Seq<char>, changed: Seq<char>) -> Seq<char> {
    match d.kind {
        DiffKind::Added => added + seq![' '] + d.key@ + seq!['='] + or_empty(d.new_value) + seq!['\n'],
        DiffKind::Removed => removed + seq![' '] + d.key@ + seq!['='] + or_empty(d.old_value) + seq!['\n'],
        DiffKind::Changed => changed + seq![' '] + d.key@ + seq!['='] + or_empty(d.old_value)
            + seq![' ', '-', '>', ' '] + or_empty(d.new_value) + seq!['\n'],
    }
}

/// The lines of all differences, in order.
pub open spec fn diff_text(ds: Seq<EnvDiff>, added: Seq<char>, removed: Seq<char>, changed: Seq<char>) -> Seq<char>
    decreases ds.len(),
{
    if ds.len() == 0 {
        seq![]
    } else {
        diff_text(ds.drop_last(), added, removed, changed) + diff_line(ds.last(), added, removed, changed)
    }
}

fn append_opt(out: &mut Vec<char>, o: &Option<String>)
    ensures
        final(out)@ == old(out)@ + or_empty(*o),
{
    match o {
        Some(s) => {
            let cs = chars_of(s.as_str());
            append_chars(out, &cs);
        },
        None => {
            assert(old(out)@ + Seq::<char>::empty() =~= old(out)@);
        },
    }
}

/// Shows differences one per line, with the given markers for added,
/// removed and changed keys.
pub fn format_diff_with(diffs: &[EnvDiff], added: &str, removed: &str, changed: &str) -> (r: String)
    ensures
        r@ == diff_text(diffs@, added@, removed@, changed@),
{
    let a = chars_of(added);
    let rm = chars_of(removed);
    let c = chars_of(changed);
    let mut out: Vec<char> = Vec::new();
    let mut i: usize = 0;
    while i < diffs.len()
        invariant
            0 <= i <= diffs@.len(),
            a@ == added@,
            rm@ == removed@,
            c@ == changed@,
            out@ == diff_text(diffs@.take(i as int), added@, removed@, changed@),
        decreases diffs@.len() - i,
    {
        let d = &diffs[i];
        let ghost before = out@;
        assert(diffs@.take(i + 1).drop_last() =~= diffs@.take(i as int));
        assert(diffs@.take(i + 1).last() == *d);
        match d.kind {
            DiffKind::Added => {
                append_chars(&mut out, &a);
            },
            DiffKind::Removed => {
                append_chars(&mut out, &rm);
            },
            DiffKind::Changed => {
                append_chars(&mut out, &c);
            },
        }
        out.push(' ');
        let key = chars_of(d.key.as_str());
        append_chars(&mut out, &key);
        out.push('=');
        match d.kind {
            DiffKind::Added => {
                append_opt(&mut out, &d.new_value);
            },
            DiffKind::Removed => {
                append_opt(&mut out, &d.old_value);
            },
            DiffKind::Changed => {
                append_opt(&mut out, &d.old_value);
                out.push(' ');
                out.push('-');
                out.push('>');
                out.push(' ');
                append_opt(&mut out, &d.new_value);
            },
        }
        out.push('\n');
        i = i + 1;
        assert(out@ =~= before + diff_line(*d, added@, removed@, changed@));
    }
    assert(diffs@.take(i as int) =~= diffs@);
    string_from_chars(&out)
}

/// The differences as `format_diff` may show them, whichever way `colored`
/// decides to paint the markers `+`, `-` and `~`.
pub open spec fn shows_diffs(ds: Seq<EnvDiff>, text: Seq<char>) -> bool {
    exists|a: Seq<char>, r: Seq<char>, c: Seq<char>|
        painted(seq!['+'], green_code(), a) && painted(seq!['-'], red_code(), r) && painted(
            seq!['~'],
            yellow_code(),
            c,
        ) && text == #[trigger] diff_text(ds, a, r, c)
}

fn marker(c: char) -> (r: String)
    ensures
        r@ == seq![c],
{
    let v = vec![c];
    assert(v@ =~= seq![c]);
    string_from_chars(&v)
}

/// Shows differences one per line: `+ KEY=new` (green marker), `- KEY=old`
/// (red), `~ KEY=old -> new` (yellow).
pub fn format_diff(diffs: &[EnvDiff]) -> (r: String)
    ensures
        shows_diffs(diffs@, r@),
{
    let plus = marker('+');
    let minus = marker('-');
    let tilde = marker('~');
    let a = bold_green(plus.as_str());
    let rm = bold_red(minus.as_str());
    let c = bold_yellow(tilde.as_str());
    let r = format_diff_with(diffs, a.as_str(), rm.as_str(), c.as_str());
    assert(painted(seq!['+'], green_code(), a@));
    r
}

// ---------------------------------------------------------------------------
// Deciding a sync
// ---------------------------------------------------------------------------

/// What syncing did, or would do, to a target file.
#[derive(Debug)]
pub enum SyncAction {
    /// The target was missing and gets a copy of the source.
    Copied,
    /// The source's additions were merged into the target.
    Merged,
    /// The target binds what the source binds.
    Unchanged,
    /// Some key has different values; the differences as shown.
    Conflict(String),
}

/// The outcome of syncing one file.
pub struct SyncResult {
    pub file: String,
    pub action: SyncAction,
    pub diff_output: Option<String>,
}

/// The file operation that carries out a sync.
#[derive(Debug)]
pub enum SyncEffect {
    /// Touch nothing.
    Keep,
    /// Copy the source file over the target path.
    CopySource,
    /// Write this text to the target.
    WriteTarget(String),
}

/// A sync decided: its outcome, and the operation that carries it out.
pub struct SyncPlan {
    pub result: SyncResult,
    pub effect: SyncEffect,
}

/// `text` shows the differences between `m` and `l`.
pub open spec fn shows_diffs_of(text: Seq<char>, m: Map<Seq<char>, Seq<char>>, l: Map<Seq<char>, Seq<char>>) -> bool {
    exists|ds: Seq<EnvDiff>| is_diff_of(ds, m, l) && #[trigger] shows_diffs(ds, text)
}

/// Some key has different values in the two maps.
pub open spec fn has_conflict(m: Map<Seq<char>, Seq<char>>, l: Map<Seq<char>, Seq<char>>) -> bool {
    exists|k: Seq<char>| #[trigger] diff_at(m, l, k) matches Some((DiffKind::Changed, _, _))
}

/// There is a difference for some key.
pub open spec fn out_of_sync(m: Map<Seq<char>, Seq<char>>, l: Map<Seq<char>, Seq<char>>) -> bool {
    exists|k: Seq<char>| #[trigger] diff_at(m, l, k) is Some
}

/// Differences exist exactly where the maps differ.
pub proof fn law_out_of_sync_iff_maps_differ(m: Map<Seq<char>, Seq<char>>, l: Map<Seq<char>, Seq<char>>)
    ensures
        out_of_sync(m, l) <==> m != l,
{
    if !out_of_sync(m, l) {
        assert(m =~= l) by {
            assert forall|k: Seq<char>| m.contains_key(k) <==> l.contains_key(k) by {
                if m.contains_key(k) != l.contains_key(k) {
                    assert(diff_at(m, l, k) is Some);
                }
            }
            assert forall|k: Seq<char>| m.contains_key(k) implies m[k] == l[k] by {
                if m[k] != l[k] {
                    assert(diff_at(m, l, k) is Some);
                }
            }
        }
    } else {
        let k = choose|k: Seq<char>| #[trigger] diff_at(m, l, k) is Some;
        if m == l {
            assert(diff_at(m, l, k) is None);
        }
    }
}

/// The list of differences is empty exactly when the two maps are equal.
pub proof fn law_no_diffs_iff_in_sync(ds: Seq<EnvDiff>, m: Map<Seq<char>, Seq<char>>, l: Map<Seq<char>, Seq<char>>)
    requires
        is_diff_of(ds, m, l),
    ensures
        ds.len() == 0 <==> m == l,
{
    law_out_of_sync_iff_maps_differ(m, l);
    if ds.len() > 0 {
        assert(diff_at(m, l, ds[0].key@) is Some);
    }
    if out_of_sync(m, l) {
        let k = choose|k: Seq<char>| #[trigger] diff_at(m, l, k) is Some;
        assert(exists|i: int| 0 <= i < ds.len() && ds[i].key@ == k);
    }
}

fn any_changed(ds: &Vec<EnvDiff>) -> (r: bool)
    ensures
        r == exists|i: int| 0 <= i < ds@.len() && #[trigger] ds@[i].kind == DiffKind::Changed,
{
    let mut i: usize = 0;
    while i < ds.len()
        invariant
            0 <= i <= ds@.len(),
            forall|j: int| 0 <= j < i ==> ds@[j].kind != DiffKind::Changed,
        decreases ds@.len() - i,
    {
        if ds[i].kind == DiffKind::Changed {
            return true;
        }
        i = i + 1;
    }
    false
}

/// What syncing decides for a target, given the parsed source and the
/// parsed target (`None` where the target does not exist):
/// - a missing target is `Copied` (the source file is copied unless `dry_run`);
/// - a target that binds what the source binds is `Unchanged`;
/// - where some key has different values, a `Conflict` showing the differences;
/// - otherwise `Merged`, showing the differences, and unless `dry_run` the
///   merged text is written to the target.
pub fn plan_sync(source: &EnvFile, target: Option<&EnvFile>, target_path: String, dry_run: bool) -> (r: SyncPlan)
    ensures
        r.result.file == target_path,
        match target {
            None => {
                &&& r.result.action is Copied
                &&& r.result.diff_output is None
                &&& if dry_run { r.effect is Keep } else { r.effect is CopySource }
            },
            Some(t) => {
                let m = source.map_view();
                let l = t.map_view();
                if m == l {
                    &&& r.result.action is Unchanged
                    &&& r.result.diff_output is None
                    &&& r.effect is Keep
                } else if has_conflict(m, l) {
                    &&& r.result.action matches SyncAction::Conflict(text) && shows_diffs_of(text@, m, l)
                    &&& r.result.diff_output is None
                    &&& r.effect is Keep
                } else {
                    &&& r.result.action is Merged
                    &&& r.result.diff_output matches Some(text) && shows_diffs_of(text@, m, l)
                    &&& if dry_run {
                        r.effect is Keep
                    } else {
                        r.effect matches SyncEffect::WriteTarget(text) && text@ == merged_text(*source, *t)
                    }
                }
            },
        },
{
    match target {
        None => {
            let effect = if dry_run {
                SyncEffect::Keep
            } else {
                SyncEffect::CopySource
            };
            SyncPlan {
                result: SyncResult { file: target_path, action: SyncAction::Copied, diff_output: None },
                effect,
            }
        },
        Some(t) => {
            let diffs = diff_env(source, t);
            let ghost m = source.map_view();
            let ghost l = t.map_view();
            proof {
                law_no_diffs_iff_in_sync(diffs@, m, l);
            }
            if diffs.len() == 0 {
                return SyncPlan {
                    result: SyncResult { file: target_path, action: SyncAction::Unchanged, diff_output: None },
                    effect: SyncEffect::Keep,
                };
            }
            let conflict = any_changed(&diffs);
            proof {
                if conflict {
                    let i = choose|i: int| 0 <= i < diffs@.len() && #[trigger] diffs@[i].kind == DiffKind::Changed;
                    assert(diff_at(m, l, diffs@[i].key@) == Some(
                        (diffs@[i].kind, crate::envfile::opt_view(diffs@[i].old_value), crate::envfile::opt_view(diffs@[i].new_value)),
                    ));
                } else if has_conflict(m, l) {
                    let k = choose|k: Seq<char>| #[trigger] diff_at(m, l, k) matches Some((DiffKind::Changed, _, _));
                    let i = choose|i: int| 0 <= i < diffs@.len() && diffs@[i].key@ == k;
                    assert(diff_at(m, l, diffs@[i].key@) == Some(
                        (diffs@[i].kind, crate::envfile::opt_view(diffs@[i].old_value), crate::envfile::opt_view(diffs@[i].new_value)),
                    ));
                }
            }
            let slice = diffs.as_slice();
            let shown = format_diff(slice);
            assert(slice@ == diffs@);
            assert(is_diff_of(diffs@, m, l));
            assert(shows_diffs(diffs@, shown@));
            assert(shows_diffs_of(shown@, m, l));
            if conflict {
                return SyncPlan {
                    result: SyncResult {
                        file: target_path,
                        action: SyncAction::Conflict(shown),
                        diff_output: None,
                    },
                    effect: SyncEffect::Keep,
                };
            }
            if dry_run {
                return SyncPlan {
                    result: SyncResult {
                        file: target_path,
                        action: SyncAction::Merged,
                        diff_output: Some(shown),
                    },
                    effect: SyncEffect::Keep,
                };
            }
            let merged = merge_env(source, t).unwrap();
            SyncPlan {
                result: SyncResult { file: target_path, action: SyncAction::Merged, diff_output: Some(shown) },
                effect: SyncEffect::WriteTarget(merged),
            }
        },
    }
}

// ---------------------------------------------------------------------------
// Resolving a conflict
// ---------------------------------------------------------------------------

/// How a conflict is resolved.
#[derive(Debug, Clone, Copy, PartialEq, Eq, Structural)]
pub enum Resolution {
    /// Overwrite the target with the source file.
    UseSource,
    /// Write the merge of the source and the target to the target.
    Merge,
}

/// The resolution a strategy names: `"source"` or `"merge"`; any other name
/// is refused.
pub fn conflict_resolution(strategy: &str) -> (r: Result<Resolution, EnvsyncError>)
    ensures
        strategy@ == "source"@ ==> r == Ok::<Resolution, EnvsyncError>(Resolution::UseSource),
        strategy@ == "merge"@ ==> r == Ok::<Resolution, EnvsyncError>(Resolution::Merge),
        strategy@ != "source"@ && strategy@ != "merge"@ ==> (r matches Err(EnvsyncError::UnknownStrategy(s)) && s@ == strategy@),
{
    proof {
        reveal_strlit("source");
        reveal_strlit("merge");
        assert("merge"@.len() != "source"@.len());
    }
    let given = chars_of(strategy);
    let source = chars_of("source");
    let merge = chars_of("merge");
    if crate::envfile::same_chars(&given, &source) {
        Ok(Resolution::UseSource)
    } else if crate::envfile::same_chars(&given, &merge) {
        Ok(Resolution::Merge)
    } else {
        Err(EnvsyncError::UnknownStrategy(string_from_chars(&given)))
    }
}

// ---------------------------------------------------------------------------
// Where `.env` files are looked for
// ---------------------------------------------------------------------------

/// Where `.env` files are looked for in a worktree: names at its root, a
/// glob at its root, and names one level inside the monorepo directories.
pub struct EnvSearch {
    pub root_names: Vec<String>,
    pub root_glob: String,
    pub monorepo_dirs: Vec<String>,
    pub monorepo_names: Vec<String>,
}

/// The places `find_env_files` looks: `.env`, `.env.local`,
/// `.env.development`, `.env.staging`, `.env.production` and `.env.*` at
/// the root, and `.env`, `.env.local` in each directory under `apps`,
/// `packages`, `libs` and `services`.
pub fn env_search() -> (r: EnvSearch)
    ensures
        r.root_names@.len() == 5,
        r.root_names@[0]@ == ".env"@,
        r.root_names@[1]@ == ".env.local"@,
        r.root_names@[2]@ == ".env.development"@,
        r.root_names@[3]@ == ".env.staging"@,
        r.root_names@[4]@ == ".env.production"@,
        r.root_glob@ == ".env.*"@,
        r.monorepo_dirs@.len() == 4,
        r.monorepo_dirs@[0]@ == "apps"@,
        r.monorepo_dirs@[1]@ == "packages"@,
        r.monorepo_dirs@[2]@ == "libs"@,
        r.monorepo_dirs@[3]@ == "services"@,
        r.monorepo_names@.len() == 2,
        r.monorepo_names@[0]@ == ".env"@,
        r.monorepo_names@[1]@ == ".env.local"@,
{
    let mut root_names: Vec<String> = Vec::new();
    root_names.push(".env".to_string());
    root_names.push(".env.local".to_string());
    root_names.push(".env.development".to_string());
    root_names.push(".env.staging".to_string());
    root_names.push(".env.production".to_string());
    let mut monorepo_dirs: Vec<String> = Vec::new();
    monorepo_dirs.push("apps".to_string());
    monorepo_dirs.push("packages".to_string());
    monorepo_dirs.push("libs".to_string());
    monorepo_dirs.push("services".to_string());
    let mut monorepo_names: Vec<String> = Vec::new();
    monorepo_names.push(".env".to_string());
    monorepo_names.push(".env.local".to_string());
    EnvSearch { root_names, root_glob: ".env.*".to_string(), monorepo_dirs, monorepo_names }
}

// ---------------------------------------------------------------------------
// Comparing a file in place
// ---------------------------------------------------------------------------

/// How a worktree's copy of a file stands against main's.
pub enum FileStatus {
    /// It binds what main's binds.
    InSync,
    /// It differs; the differences, sorted by key.
    OutOfSync(Vec<EnvDiff>),
}

/// Compares main's file with a worktree's copy, for `status` and `diff`.
pub fn compare_files(source: &EnvFile, target: &EnvFile) -> (r: FileStatus)
    ensures
        source.map_view() == target.map_view() ==> r is InSync,
        source.map_view() != target.map_view() ==> (r matches FileStatus::OutOfSync(ds) && ds@.len() > 0
            && is_diff_of(ds@, source.map_view(), target.map_view())),
{
    let diffs = diff_env(source, target);
    proof {
        law_no_diffs_iff_in_sync(diffs@, source.map_view(), target.map_view());
    }
    if diffs.len() == 0 {
        FileStatus::InSync
    } else {
        FileStatus::OutOfSync(diffs)
    }
}

// ---------------------------------------------------------------------------
// The sync command's run
// ---------------------------------------------------------------------------

/// Whether the sync command syncs a worktree: never the main one; the
/// current one always; the others with `--all`.
pub fn worktree_selected(is_main: bool, all: bool, is_current: bool) -> (r: bool)
    ensures
        r == (!is_main && (all || is_current)),
{
    !is_main && (all || is_current)
}

/// What the sync command does after syncing one file.
#[derive(Debug, Clone, Copy, PartialEq, Eq, Structural)]
pub enum Followup {
    /// The file was synced: count it.
    Count,
    /// Nothing to do or count.
    Nothing,
    /// A conflict, counted and resolved by this strategy.
    Resolve(Resolution),
    /// A conflict, counted and shown.
    ReportConflict,
}

/// What follows a file's sync: copies and merges count as synced; a
/// conflict is resolved where `--use-source` (which wins) or `--merge` asks
/// for it, except in a dry run, which writes nothing; otherwise it is shown.
pub fn after_sync(action: &SyncAction, dry_run: bool, use_source: bool, merge: bool) -> (r: Followup)
    ensures
        r == match action {
            SyncAction::Copied => Followup::Count,
            SyncAction::Merged => Followup::Count,
            SyncAction::Unchanged => Followup::Nothing,
            SyncAction::Conflict(_) => if (use_source || merge) && !dry_run {
                Followup::Resolve(if use_source { Resolution::UseSource } else { Resolution::Merge })
            } else {
                Followup::ReportConflict
            },
        },
{
    match action {
        SyncAction::Copied => Followup::Count,
        SyncAction::Merged => Followup::Count,
        SyncAction::Unchanged => Followup::Nothing,
        SyncAction::Conflict(_) => {
            if (use_source || merge) && !dry_run {
                if use_source {
                    Followup::Resolve(Resolution::UseSource)
                } else {
                    Followup::Resolve(Resolution::Merge)
                }
            } else {
                Followup::ReportConflict
            }
        },
    }
}

/// Whether a sync leaves this file as it was: the target already binds
/// what the source binds.
pub open spec fn in_sync(a: SyncAction) -> bool {
    a is Unchanged
}

/// Whether some file is out of sync: a sync would copy, merge or report a
/// conflict for it. A dry run that finds this fails.
pub fn needs_sync(actions: &Vec<SyncAction>) -> (r: bool)
    ensures
        r == exists|i: int| 0 <= i < actions@.len() && !in_sync(#[trigger] actions@[i]),
{
    let mut i: usize = 0;
    while i < actions.len()
        invariant
            0 <= i <= actions.len(),
            forall|j: int| 0 <= j < i ==> in_sync(#[trigger] actions@[j]),
        decreases actions.len() - i,
    {
        match &actions[i] {
            SyncAction::Unchanged => {},
            _ => {
                assert(!in_sync(actions@[i as int]));
                return true;
            },
        }
        i = i + 1;
    }
    false
}

/// The closing line of a sync run, and whether it is a warning.
pub struct SyncSummary {
    pub warning: bool,
    pub text: String,
}

/// The closing line of a sync run: how many files were synced and, where
/// there were conflicts, how many and the flags that resolve them (as given,
/// for instance colored).
pub fn sync_summary(synced: usize, conflicts: usize, use_source_flag: &str, merge_flag: &str) -> (r: SyncSummary)
    ensures
        r.warning == (conflicts > 0),
        r.text@ == if conflicts == 0 {
            "Synced "@ + decimal(synced as nat) + " file(s)."@
        } else {
            "Synced "@ + decimal(synced as nat) + " file(s), "@ + decimal(conflicts as nat)
                + " conflict(s). Use "@ + use_source_flag@ + " or "@ + merge_flag@ + " to resolve."@
        },
{
    let mut out: Vec<char> = Vec::new();
    append_str(&mut out, "Synced ");
    push_decimal(&mut out, synced as u64);
    if conflicts == 0 {
        append_str(&mut out, " file(s).");
        assert(out@ =~= "Synced "@ + decimal(synced as nat) + " file(s)."@);
    } else {
        append_str(&mut out, " file(s), ");
        push_decimal(&mut out, conflicts as u64);
        append_str(&mut out, " conflict(s). Use ");
        append_str(&mut out, use_source_flag);
        append_str(&mut out, " or ");
        append_str(&mut out, merge_flag);
        append_str(&mut out, " to resolve.");
        assert(out@ =~= "Synced "@ + decimal(synced as nat) + " file(s), "@ + decimal(conflicts as nat)
            + " conflict(s). Use "@ + use_source_flag@ + " or "@ + merge_flag@ + " to resolve."@);
    }
    SyncSummary { warning: conflicts > 0, text: string_from_chars(&out) }
}

} // verus!
