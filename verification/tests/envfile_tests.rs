use envsync::envfile::{diff_env, format_value, merge_env, remove_quotes, DiffKind, EnvFile};

fn parse(text: &str) -> EnvFile {
    assert!(EnvFile::content_parses(text));
    EnvFile::parse_content("test.env".to_string(), text)
}

fn map_of(f: &EnvFile) -> Vec<(String, String)> {
    f.to_map()
}

#[test]
fn parse_reads_assignments_and_skips_the_rest() {
    let f = parse("# comment\n\nPORT=3000\nexport DB_HOST = localhost \nNOEQUALS\n  # indented comment\n");
    assert_eq!(f.path, "test.env");
    assert_eq!(f.lines.len(), 6);
    assert_eq!(f.entries.len(), 2);
    assert_eq!(f.entries[0].key, "PORT");
    assert_eq!(f.entries[0].value, "3000");
    assert_eq!(f.entries[0].raw_line, "PORT=3000");
    assert_eq!(f.entries[1].key, "DB_HOST");
    assert_eq!(f.entries[1].value, "localhost");
    assert_eq!(f.entries[1].raw_line, "export DB_HOST = localhost ");
}

#[test]
fn parse_removes_one_pair_of_quotes() {
    let f = parse("A=\"hello world\"\nB='single'\nC=\"unbalanced\nD=''\nE=\"a=b\"\n");
    let values: Vec<&str> = f.entries.iter().map(|e| e.value.as_str()).collect();
    assert_eq!(values, vec!["hello world", "single", "\"unbalanced", "", "a=b"]);
}

#[test]
fn parse_splits_on_the_first_equals_sign() {
    let f = parse("URL=postgres://u:p@h/db?x=1\n=empty_key\n");
    assert_eq!(f.entries[0].key, "URL");
    assert_eq!(f.entries[0].value, "postgres://u:p@h/db?x=1");
    assert_eq!(f.entries[1].key, "");
    assert_eq!(f.entries[1].value, "empty_key");
}

#[test]
fn parse_handles_crlf_and_missing_final_newline() {
    let f = parse("A=1\r\nB=2");
    assert_eq!(f.lines, vec!["A=1".to_string(), "B=2".to_string()]);
    assert_eq!(f.entries.len(), 2);
    assert_eq!(f.entries[1].value, "2");
    let empty = parse("");
    assert!(empty.lines.is_empty());
    assert!(empty.entries.is_empty());
}

#[test]
fn content_with_a_lone_quote_value_cannot_be_parsed() {
    assert!(!EnvFile::content_parses("A=\"\n"));
    assert!(!EnvFile::content_parses("OK=1\nB = ' \n"));
    assert!(EnvFile::content_parses("A=\"\"\nB=x\n"));
}

#[test]
fn to_map_keeps_first_order_and_last_value() {
    let f = parse("A=1\nB=2\nA=3\n");
    assert_eq!(
        map_of(&f),
        vec![("A".to_string(), "3".to_string()), ("B".to_string(), "2".to_string())]
    );
}

#[test]
fn diff_reports_added_removed_changed_sorted_by_key() {
    let main = parse("PORT=3000\nZED=1\nAPI=new\nSAME=x\n");
    let linked = parse("PORT=4000\nOLD=gone\nSAME=x\n");
    let diffs = diff_env(&main, &linked);
    let keys: Vec<&str> = diffs.iter().map(|d| d.key.as_str()).collect();
    assert_eq!(keys, vec!["API", "OLD", "PORT", "ZED"]);
    assert_eq!(diffs[0].kind, DiffKind::Added);
    assert_eq!(diffs[0].old_value, None);
    assert_eq!(diffs[0].new_value.as_deref(), Some("new"));
    assert_eq!(diffs[1].kind, DiffKind::Removed);
    assert_eq!(diffs[1].old_value.as_deref(), Some("gone"));
    assert_eq!(diffs[1].new_value, None);
    assert_eq!(diffs[2].kind, DiffKind::Changed);
    assert_eq!(diffs[2].old_value.as_deref(), Some("4000"));
    assert_eq!(diffs[2].new_value.as_deref(), Some("3000"));
    assert_eq!(diffs[3].kind, DiffKind::Added);
}

#[test]
fn diff_of_files_in_sync_is_empty() {
    let main = parse("A=1\nB=2\n");
    let linked = parse("# other layout\nB=2\nA=0\nA=1\n");
    assert!(diff_env(&main, &linked).is_empty());
}

#[test]
fn diff_orders_keys_by_code_point() {
    let main = parse("b=1\nB=1\na=1\n_x=1\n");
    let linked = parse("");
    let keys: Vec<String> = diff_env(&main, &linked).into_iter().map(|d| d.key).collect();
    assert_eq!(keys, vec!["B", "_x", "a", "b"]);
}

#[test]
fn merge_puts_linked_values_in_and_appends_new_keys() {
    let main = parse("# main\nexport PORT=3000\nHOST=localhost\nplain line\n");
    let linked = parse("PORT=4000\nEXTRA=has space\nQUOTE=say \"hi\"\n");
    let merged = merge_env(&main, &linked).unwrap();
    assert_eq!(
        merged,
        "# main\nexport PORT=4000\nHOST=localhost\nplain line\nEXTRA=\"has space\"\nQUOTE=\"say \\\"hi\\\"\"\n"
    );
}

#[test]
fn merge_of_empty_files_is_one_newline() {
    let main = parse("");
    let linked = parse("");
    assert_eq!(merge_env(&main, &linked).unwrap(), "\n");
}

#[test]
fn merge_does_not_double_a_final_blank_line() {
    let main = parse("A=1\n\n");
    let linked = parse("");
    assert_eq!(merge_env(&main, &linked).unwrap(), "A=1\n");
}

#[test]
fn merged_text_reads_back_with_linked_values_winning() {
    let main = parse("A=1\nB=2\n# note\n");
    let linked = parse("B=20\nC=hello world\nC=last\nD=#hash\n");
    let merged = merge_env(&main, &linked).unwrap();
    assert!(EnvFile::content_parses(&merged));
    let back = parse(&merged);
    assert_eq!(
        map_of(&back),
        vec![
            ("A".to_string(), "1".to_string()),
            ("B".to_string(), "20".to_string()),
            ("C".to_string(), "last".to_string()),
            ("D".to_string(), "#hash".to_string()),
        ]
    );
}

#[test]
fn merged_value_with_a_quote_does_not_read_back() {
    let main = parse("");
    let linked = parse("Q=a\"b\n");
    let merged = merge_env(&main, &linked).unwrap();
    assert_eq!(merged, "Q=\"a\\\"b\"\n");
    let back = parse(&merged);
    assert_eq!(back.entries[0].value, "a\\\"b");
}

#[test]
fn after_merge_no_key_of_main_is_missing() {
    let main = parse("A=1\nB=2\nC=3\n");
    let linked = parse("B=9\nX=0\n");
    let merged = parse(&merge_env(&main, &linked).unwrap());
    let diffs = diff_env(&main, &merged);
    assert!(diffs.iter().all(|d| d.kind != DiffKind::Added));
    let keys: Vec<&str> = diffs.iter().map(|d| d.key.as_str()).collect();
    assert_eq!(keys, vec!["B", "X"]);
}

#[test]
fn diff_the_other_way_round_swaps_sides() {
    let a = parse("A=1\nB=2\n");
    let b = parse("B=3\nC=4\n");
    let ab = diff_env(&a, &b);
    let ba = diff_env(&b, &a);
    assert_eq!(ab.len(), ba.len());
    assert_eq!(ab[0].kind, DiffKind::Added);
    assert_eq!(ba[0].kind, DiffKind::Removed);
    assert_eq!(ab[1].old_value, ba[1].new_value);
    assert_eq!(ab[1].new_value, ba[1].old_value);
    assert_eq!(ab[2].kind, DiffKind::Removed);
    assert_eq!(ba[2].kind, DiffKind::Added);
}

#[test]
fn formatted_values_unquote_to_themselves() {
    for v in ["plain", "has space", "has#hash", "", "'open", "x'"] {
        let chars: Vec<char> = v.chars().collect();
        assert_eq!(remove_quotes(&format_value(&chars)), chars);
    }
    let spaced: Vec<char> = "a b".chars().collect();
    assert_eq!(format_value(&spaced), "\"a b\"".chars().collect::<Vec<char>>());
}
