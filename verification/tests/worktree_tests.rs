use envsync::config::{default_include, ignore_decision, Config};
use envsync::error::EnvsyncError;
use envsync::worktree::{
    find_main_worktree, get_current_worktree_root, is_main_worktree, list_worktrees,
};

#[test]
fn list_worktrees_reads_porcelain_output() {
    let out = "worktree /repo/main\nHEAD abc\nbranch refs/heads/main\n\nworktree /repo/linked\nHEAD def\nbranch refs/heads/feature\n\n";
    let wts = list_worktrees(out);
    assert_eq!(wts.len(), 2);
    assert_eq!(wts[0].path, "/repo/main");
    assert_eq!(wts[0].name, "main");
    assert!(wts[0].is_main);
    assert_eq!(wts[1].path, "/repo/linked");
    assert_eq!(wts[1].name, "linked");
    assert!(!wts[1].is_main);
}

#[test]
fn list_worktrees_skips_metadata_lines() {
    let out = "worktree /a\nhead x\nbare \nlocked reason\nprunable gone\nworktree /b/c\n";
    let wts = list_worktrees(out);
    let paths: Vec<&str> = wts.iter().map(|w| w.path.as_str()).collect();
    assert_eq!(paths, vec!["/a", "/b/c"]);
    assert_eq!(wts[1].name, "c");
}

#[test]
fn list_worktrees_of_nothing_is_empty() {
    assert!(list_worktrees("").is_empty());
}

#[test]
fn list_worktrees_takes_a_bare_path_line() {
    let wts = list_worktrees("  /plain/path  \nHEAD abc\n");
    assert_eq!(wts.len(), 1);
    assert_eq!(wts[0].path, "/plain/path");
    assert!(wts[0].is_main);
}

#[test]
fn main_worktree_from_an_absolute_common_dir() {
    let w = find_main_worktree("/repo/linked", "/repo/main/.git\n").unwrap();
    assert_eq!(w.path, "/repo/main");
    assert_eq!(w.name, "main");
    assert!(w.is_main);
}

#[test]
fn main_worktree_from_a_relative_common_dir() {
    let w = find_main_worktree("/repo/main", ".git\n").unwrap();
    assert_eq!(w.path, "/repo/main");
    let w = find_main_worktree("/repo/main/sub/", "../.git\n").unwrap();
    assert_eq!(w.path, "/repo/main/sub/..");
}

#[test]
fn main_worktree_without_a_parent_is_an_error() {
    let r = find_main_worktree("/x", "/\n");
    assert!(matches!(r, Err(EnvsyncError::MainRootUnknown)));
    assert_eq!(
        EnvsyncError::MainRootUnknown.message(),
        "Failed to determine main worktree root"
    );
}

#[test]
fn current_root_and_main_check() {
    assert_eq!(get_current_worktree_root("  /repo/x \n"), "/repo/x");
    assert!(is_main_worktree(".\n"));
    assert!(!is_main_worktree("../.git\n"));
}

#[test]
fn test_init_creates_config() {
    assert!(default_config_text().contains("[envsync]"));
}

#[test]
fn default_configuration_includes_nothing() {
    assert_eq!(default_include(), vec![".env", ".env.local", ".env.*"]);
    let c = Config::default();
    assert!(c.envsync.include_files.is_empty());
    assert!(c.envsync.ignore.is_empty());
    assert!(c.envsync.overrides.is_empty());
}

#[test]
fn should_ignore_by_name_path_and_glob() {
    let mut c = Config::default();
    c.envsync.ignore = vec![
        ".env.production".to_string(),
        "apps/web/.env".to_string(),
        ".env.*.bak".to_string(),
        "[".to_string(),
        "[*".to_string(),
        "***".to_string(),
    ];
    assert!(c.should_ignore("/repo/.env.production"));
    assert!(c.should_ignore("apps/web/.env"));
    assert!(c.should_ignore("/repo/.env.local.bak"));
    assert!(!c.should_ignore("/repo/.env"));
    assert!(!c.should_ignore("/repo/.env.local"));
}

#[test]
fn ignore_decision_cases() {
    assert!(ignore_decision("a", "a", "/x/a", None));
    assert!(ignore_decision("/x/a", "a", "/x/a", None));
    assert!(ignore_decision("*.b", "a.b", "/x/a.b", Some(true)));
    assert!(!ignore_decision("*.b", "a.c", "/x/a.c", Some(false)));
    assert!(!ignore_decision("b", "a", "/x/a", Some(true)));
}

use envsync::hook::{
    default_config_text, gitdir_from_git_file, hooks_dir_from_gitdir, mentions_envsync,
    plan_hook_install, plan_hook_removal, HookInstall, HookRemoval,
};

#[test]
fn hook_install_on_a_fresh_repository_writes_the_script() {
    match plan_hook_install(None) {
        HookInstall::Write(t) => {
            assert!(t.starts_with("#!/bin/sh\n"));
            assert!(t.contains("envsync sync 2>/dev/null || true\n"));
        }
        HookInstall::AlreadyInstalled => panic!("expected a write"),
    }
}

#[test]
fn hook_install_appends_to_a_foreign_hook() {
    match plan_hook_install(Some("#!/bin/sh\necho hi".to_string())) {
        HookInstall::Write(t) => assert_eq!(
            t,
            "#!/bin/sh\necho hi\n\n# envsync auto-sync\nenvsync sync 2>/dev/null || true\n"
        ),
        HookInstall::AlreadyInstalled => panic!("expected a write"),
    }
    assert!(matches!(
        plan_hook_install(Some("x\nenvsync sync\n".to_string())),
        HookInstall::AlreadyInstalled
    ));
}

#[test]
fn hook_removal_only_removes_envsync_hooks() {
    assert_eq!(plan_hook_removal(None), HookRemoval::NoHook);
    assert_eq!(plan_hook_removal(Some("run envsync".to_string())), HookRemoval::Remove);
    assert_eq!(plan_hook_removal(Some("echo".to_string())), HookRemoval::KeepForeign);
    assert!(mentions_envsync("xxenvsyncxx"));
    assert!(!mentions_envsync("envsyn"));
}

#[test]
fn gitdir_is_read_from_a_linked_worktree_git_file() {
    assert_eq!(
        gitdir_from_git_file("gitdir: /repo/.git/worktrees/feature\n").unwrap(),
        "/repo/.git/worktrees/feature"
    );
    assert!(matches!(
        gitdir_from_git_file("other\ngitdir:/x\n"),
        Err(EnvsyncError::GitFileUnreadable)
    ));
    assert!(matches!(
        gitdir_from_git_file("nothing here"),
        Err(EnvsyncError::GitFileUnreadable)
    ));
    assert_eq!(
        EnvsyncError::GitFileUnreadable.message(),
        "Failed to parse .git file"
    );
    assert_eq!(
        EnvsyncError::GitDirParentMissing.message(),
        "Failed to find git dir parent"
    );
    assert_eq!(EnvsyncError::HooksDirMissing.message(), "Failed to find hooks dir");
    assert_eq!(
        hooks_dir_from_gitdir("/repo/.git/worktrees/feature").unwrap(),
        "/repo/.git/hooks"
    );
    assert!(matches!(
        hooks_dir_from_gitdir("/"),
        Err(EnvsyncError::GitDirParentMissing)
    ));
    assert!(matches!(
        hooks_dir_from_gitdir("/a"),
        Err(EnvsyncError::HooksDirMissing)
    ));
}

#[test]
fn default_config_has_an_envsync_table() {
    assert!(default_config_text().contains("[envsync]"));
    assert!(default_config_text().contains("include = [\".env\", \".env.local\", \".env.*\"]"));
}
