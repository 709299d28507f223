use envsync::envfile::{diff_env, EnvFile};
use envsync::error::EnvsyncError;
use envsync::sync::{
    after_sync, compare_files, conflict_resolution, env_search, format_diff, format_diff_with,
    plan_sync, sync_summary, worktree_selected, FileStatus, Followup, Resolution, SyncAction,
    SyncEffect,
};

fn parse(text: &str) -> EnvFile {
    EnvFile::parse_content("f".to_string(), text)
}

#[test]
fn format_diff_with_plain_markers() {
    let main = parse("A=1\nB=2\nC=new\n");
    let linked = parse("B=3\nC=new\nD=4\n");
    let diffs = diff_env(&main, &linked);
    let shown = format_diff_with(&diffs, "+", "-", "~");
    assert_eq!(shown, "+ A=1\n~ B=3 -> 2\n- D=4\n");
}

#[test]
fn format_diff_shows_each_difference() {
    let main = parse("NEW_API_KEY=abc123\nPORT=3000\n");
    let linked = parse("PORT=3001\n");
    let diffs = diff_env(&main, &linked);
    let shown = format_diff(&diffs);
    assert!(shown.contains("NEW_API_KEY=abc123\n"));
    assert!(shown.contains("PORT=3001 -> 3000\n"));
    assert!(shown.contains('+'));
    assert!(shown.contains('~'));
    assert_eq!(shown.lines().count(), 2);
}

#[test]
fn format_diff_of_nothing_is_empty() {
    assert_eq!(format_diff(&[]), "");
}

#[test]
fn test_sync_copies_env_files() {
    let source = parse("PORT=3000\nDB_HOST=localhost\n");
    let plan = plan_sync(&source, None, "linked/.env".to_string(), false);
    assert_eq!(plan.result.file, "linked/.env");
    assert!(matches!(plan.result.action, SyncAction::Copied));
    assert!(plan.result.diff_output.is_none());
    assert!(matches!(plan.effect, SyncEffect::CopySource));
    assert_eq!(after_sync(&plan.result.action, false, false, false), Followup::Count);
    assert!(source.lines.contains(&"PORT=3000".to_string()));
    assert!(source.lines.contains(&"DB_HOST=localhost".to_string()));
}

#[test]
fn test_sync_dry_run_does_not_write() {
    let source = parse("PORT=3000\n");
    let plan = plan_sync(&source, None, "t".to_string(), true);
    assert!(matches!(plan.result.action, SyncAction::Copied));
    assert!(matches!(plan.effect, SyncEffect::Keep));
    let conflict = SyncAction::Conflict("x".to_string());
    assert_eq!(after_sync(&conflict, true, true, true), Followup::ReportConflict);
    let target = parse("");
    let plan = plan_sync(&source, Some(&target), "t".to_string(), true);
    assert!(matches!(plan.result.action, SyncAction::Merged));
    assert!(matches!(plan.effect, SyncEffect::Keep));
}

#[test]
fn sync_of_a_file_in_sync_is_unchanged() {
    let source = parse("A=1\n");
    let target = parse("# kept\nA=1\n");
    let plan = plan_sync(&source, Some(&target), "t".to_string(), false);
    assert!(matches!(plan.result.action, SyncAction::Unchanged));
    assert!(matches!(plan.effect, SyncEffect::Keep));
}

#[test]
fn sync_merges_additions_into_the_target() {
    let source = parse("A=1\nB=2\n");
    let target = parse("A=1\nLOCAL=x\n");
    let plan = plan_sync(&source, Some(&target), "t".to_string(), false);
    assert!(matches!(plan.result.action, SyncAction::Merged));
    let shown = plan.result.diff_output.unwrap();
    assert!(shown.contains("B=2"));
    assert!(shown.contains("LOCAL=x"));
    match plan.effect {
        SyncEffect::WriteTarget(text) => assert_eq!(text, "A=1\nB=2\nLOCAL=x\n"),
        _ => panic!("expected a write"),
    }
}

#[test]
fn test_diff_shows_differences() {
    let source = parse("PORT=3000\nDB_HOST=localhost\n");
    let target = parse("PORT=4000\nDB_HOST=localhost\n");
    match compare_files(&source, &target) {
        FileStatus::OutOfSync(diffs) => {
            assert_eq!(diffs.len(), 1);
            assert_eq!(diffs[0].key, "PORT");
        }
        FileStatus::InSync => panic!("expected a difference"),
    }
}

#[test]
fn conflicting_values_are_a_conflict() {
    let source = parse("PORT=3000\nDB_HOST=localhost\n");
    let target = parse("PORT=4000\nDB_HOST=localhost\n");
    let plan = plan_sync(&source, Some(&target), "t".to_string(), false);
    match plan.result.action {
        SyncAction::Conflict(shown) => assert!(shown.contains("PORT=4000 -> 3000")),
        _ => panic!("expected a conflict"),
    }
    assert!(plan.result.diff_output.is_none());
    assert!(matches!(plan.effect, SyncEffect::Keep));
}

#[test]
fn test_sync_use_source_resolves_conflicts() {
    let main = parse("PORT=3000\nDB_HOST=newhost\n");
    let linked = parse("PORT=4000\nDB_HOST=localhost\n");
    let plan = plan_sync(&main, Some(&linked), "linked/.env".to_string(), false);
    assert!(matches!(plan.result.action, SyncAction::Conflict(_)));
    assert_eq!(
        after_sync(&plan.result.action, false, true, false),
        Followup::Resolve(Resolution::UseSource)
    );
    assert_eq!(conflict_resolution("source").unwrap(), Resolution::UseSource);
    assert_eq!(conflict_resolution("merge").unwrap(), Resolution::Merge);
}

#[test]
fn after_sync_follows_the_flags() {
    let conflict = SyncAction::Conflict("x".to_string());
    assert_eq!(after_sync(&SyncAction::Merged, true, true, true), Followup::Count);
    assert_eq!(after_sync(&SyncAction::Unchanged, false, true, false), Followup::Nothing);
    assert_eq!(after_sync(&conflict, false, false, true), Followup::Resolve(Resolution::Merge));
    assert_eq!(after_sync(&conflict, false, true, true), Followup::Resolve(Resolution::UseSource));
    assert_eq!(after_sync(&conflict, true, true, false), Followup::ReportConflict);
    assert_eq!(after_sync(&conflict, false, false, false), Followup::ReportConflict);
}

#[test]
fn worktree_selection_follows_all() {
    assert!(!worktree_selected(true, true, true));
    assert!(worktree_selected(false, false, true));
    assert!(!worktree_selected(false, false, false));
    assert!(worktree_selected(false, true, false));
}

#[test]
fn sync_summary_texts() {
    let ok = sync_summary(2, 0, "--use-source", "--merge");
    assert!(!ok.warning);
    assert_eq!(ok.text, "Synced 2 file(s).");
    let warn = sync_summary(10, 3, "--use-source", "--merge");
    assert!(warn.warning);
    assert_eq!(
        warn.text,
        "Synced 10 file(s), 3 conflict(s). Use --use-source or --merge to resolve."
    );
    assert_eq!(sync_summary(1234567, 0, "a", "b").text, "Synced 1234567 file(s).");
}

#[test]
fn compare_files_in_sync() {
    let a = parse("A=1\n");
    let b = parse("# x\nA=1\n");
    assert!(matches!(compare_files(&a, &b), FileStatus::InSync));
}

#[test]
fn unknown_strategy_is_refused() {
    match conflict_resolution("theirs") {
        Err(e) => {
            assert!(matches!(e, EnvsyncError::UnknownStrategy(ref s) if s == "theirs"));
            assert_eq!(e.message(), "Unknown strategy: theirs. Use 'source' or 'merge'");
        }
        Ok(_) => panic!("expected an error"),
    }
}

#[test]
fn env_search_lists_the_places() {
    let s = env_search();
    assert_eq!(
        s.root_names,
        vec![".env", ".env.local", ".env.development", ".env.staging", ".env.production"]
    );
    assert_eq!(s.root_glob, ".env.*");
    assert_eq!(s.monorepo_dirs, vec!["apps", "packages", "libs", "services"]);
    assert_eq!(s.monorepo_names, vec![".env", ".env.local"]);
}
