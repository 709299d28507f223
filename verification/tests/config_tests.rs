use envsync::config::{files_to_sync, override_value, parse_decimal, Config, OverrideConfig};
use envsync::envfile::{apply_overrides, EnvFile};
use envsync::paths::order_env_files;
use envsync::sync::{needs_sync, SyncAction};

fn strings(xs: &[&str]) -> Vec<String> {
    xs.iter().map(|s| s.to_string()).collect()
}

#[test]
fn order_env_files_sorts_and_drops_repeats() {
    let found = strings(&["/p/.env.local", "/p/.env", "/p/apps/web/.env", "/p/.env"]);
    assert_eq!(
        order_env_files(found),
        strings(&["/p/.env", "/p/.env.local", "/p/apps/web/.env"])
    );
}

#[test]
fn order_env_files_orders_by_components() {
    // A separator sorts before every other character, as paths compare.
    let found = strings(&["/a/x-y/.env", "/a/x/.env"]);
    assert_eq!(order_env_files(found), strings(&["/a/x/.env", "/a/x-y/.env"]));
}

#[test]
fn order_env_files_of_nothing() {
    assert!(order_env_files(Vec::new()).is_empty());
}

#[test]
fn files_to_sync_leaves_out_ignored_files() {
    let mut c = Config::default();
    c.envsync.ignore = strings(&[".env.production", "/p/apps/api/.env"]);
    let cands = strings(&["/p/.env", "/p/.env.production", "/p/apps/api/.env", "/p/apps/web/.env"]);
    assert_eq!(files_to_sync(&cands, &c), strings(&["/p/.env", "/p/apps/web/.env"]));
}

#[test]
fn files_to_sync_with_glob_patterns() {
    let mut c = Config::default();
    c.envsync.ignore = strings(&[".env.*"]);
    let cands = strings(&["/p/.env", "/p/.env.local", "/p/.env.test"]);
    assert_eq!(files_to_sync(&cands, &c), strings(&["/p/.env"]));
}

#[test]
fn files_to_sync_without_ignores_keeps_all() {
    let c = Config::default();
    let cands = strings(&["/p/.env", "/p/.env.local"]);
    assert_eq!(files_to_sync(&cands, &c), cands);
}

#[test]
fn override_simple_value_is_the_same_everywhere() {
    let ov = OverrideConfig::Simple("shared".to_string());
    assert_eq!(override_value(&ov, 0), Some("shared".to_string()));
    assert_eq!(override_value(&ov, 4), Some("shared".to_string()));
}

#[test]
fn override_increment_counts_from_the_base() {
    let ov = OverrideConfig::Detailed { base: "3000".to_string(), increment: Some(1), suffix: None };
    assert_eq!(override_value(&ov, 0), Some("3000".to_string()));
    assert_eq!(override_value(&ov, 2), Some("3002".to_string()));
    let ov = OverrideConfig::Detailed { base: "5432".to_string(), increment: Some(10), suffix: None };
    assert_eq!(override_value(&ov, 3), Some("5462".to_string()));
}

#[test]
fn override_suffix_writes_the_index() {
    let ov = OverrideConfig::Detailed {
        base: "myapp_dev".to_string(),
        increment: None,
        suffix: Some("_wt{N}".to_string()),
    };
    assert_eq!(override_value(&ov, 3), Some("myapp_dev_wt3".to_string()));
    assert_eq!(override_value(&ov, 0), Some("myapp_dev_wt0".to_string()));
}

#[test]
fn override_increment_and_suffix_together() {
    let ov = OverrideConfig::Detailed {
        base: "8000".to_string(),
        increment: Some(2),
        suffix: Some("-{N}-{N}".to_string()),
    };
    assert_eq!(override_value(&ov, 12), Some("8024-12-12".to_string()));
}

#[test]
fn override_increment_needs_a_number() {
    let ov = OverrideConfig::Detailed { base: "abc".to_string(), increment: Some(1), suffix: None };
    assert_eq!(override_value(&ov, 1), None);
    let ov = OverrideConfig::Detailed { base: "".to_string(), increment: Some(1), suffix: None };
    assert_eq!(override_value(&ov, 1), None);
    let ov = OverrideConfig::Detailed {
        base: "18446744073709551615".to_string(),
        increment: Some(1),
        suffix: None,
    };
    assert_eq!(override_value(&ov, 1), None);
    assert_eq!(override_value(&ov, 0), Some("18446744073709551615".to_string()));
}

#[test]
fn parse_decimal_reads_digits() {
    assert_eq!(parse_decimal(&"3000".chars().collect()), Some(3000));
    assert_eq!(parse_decimal(&"007".chars().collect()), Some(7));
    assert_eq!(parse_decimal(&"".chars().collect()), None);
    assert_eq!(parse_decimal(&"12a".chars().collect()), None);
    assert_eq!(parse_decimal(&"18446744073709551616".chars().collect()), None);
}

#[test]
fn apply_overrides_replaces_assigned_values() {
    let values = vec![("PORT".to_string(), "3001".to_string()), ("MISSING".to_string(), "x".to_string())];
    let text = "# app\nPORT=3000\nexport PORT=3000\nDB_HOST=localhost";
    assert_eq!(
        apply_overrides(text, &values),
        "# app\nPORT=3001\nexport PORT=3001\nDB_HOST=localhost\n"
    );
}

#[test]
fn apply_overrides_quotes_values_that_need_it() {
    let values = vec![("NAME".to_string(), "my app".to_string())];
    assert_eq!(apply_overrides("NAME=x\n", &values), "NAME=\"my app\"\n");
}

#[test]
fn apply_overrides_first_value_wins() {
    let values = vec![("A".to_string(), "1".to_string()), ("A".to_string(), "2".to_string())];
    assert_eq!(apply_overrides("A=0\n", &values), "A=1\n");
}

#[test]
fn needs_sync_when_some_file_differs() {
    assert!(!needs_sync(&vec![]));
    assert!(!needs_sync(&vec![SyncAction::Unchanged, SyncAction::Unchanged]));
    assert!(needs_sync(&vec![SyncAction::Unchanged, SyncAction::Copied]));
    assert!(needs_sync(&vec![SyncAction::Merged]));
    assert!(needs_sync(&vec![SyncAction::Conflict("x".to_string())]));
}

#[test]
fn overrides_differ_between_worktrees() {
    let ov = OverrideConfig::Detailed {
        base: "db".to_string(),
        increment: None,
        suffix: Some("_{N}".to_string()),
    };
    let values: Vec<String> = (0..12).map(|n| override_value(&ov, n).unwrap()).collect();
    for i in 0..values.len() {
        for j in 0..i {
            assert_ne!(values[i], values[j]);
        }
    }
}

#[test]
fn overridden_text_reads_back() {
    let values = vec![("PORT".to_string(), "3002".to_string()), ("NAME".to_string(), "my app".to_string())];
    let text = apply_overrides("PORT=3000\nNAME=x\nHOST=localhost\n", &values);
    assert!(EnvFile::content_parses(&text));
    let f = EnvFile::parse_content("t".to_string(), &text);
    assert_eq!(
        f.to_map(),
        vec![
            ("PORT".to_string(), "3002".to_string()),
            ("NAME".to_string(), "my app".to_string()),
            ("HOST".to_string(), "localhost".to_string()),
        ]
    );
}
