use azkaban_monitor::config::InitConfig;
use azkaban_monitor::flow::parse_flow;
use azkaban_monitor::index::{plan_directory, FlowIndex};
use azkaban_monitor::mapping::{parse_owner_mapping, OwnerMapping};
use azkaban_monitor::paths::{is_project_file, stem_name};
use azkaban_monitor::walk::{check_root, WalkError};

#[test]
fn mapping_columns() {
    let text = "alice,U123\n  bob , robert,U456  \n\nsolo\na,b,c,d,e\ncarol,U1\ncarol,U2\r\n";
    let m = parse_owner_mapping(text);
    assert_eq!(m.get("alice").map(|s| s.as_str()), Some("U123"));
    assert_eq!(m.get("bob ").map(|s| s.as_str()), Some("U456"));
    assert_eq!(m.get(" robert").map(|s| s.as_str()), Some("U456"));
    assert_eq!(m.get("a").map(|s| s.as_str()), Some("d,e"));
    assert_eq!(m.get("c").map(|s| s.as_str()), Some("d,e"));
    assert_eq!(m.get("carol").map(|s| s.as_str()), Some("U2"));
    assert!(m.get("solo").is_none());
    assert_eq!(m.len(), 7);
}

#[test]
fn mapping_insert_replaces() {
    let mut m = OwnerMapping::new();
    m.insert("x".to_string(), "1".to_string());
    m.insert("x".to_string(), "2".to_string());
    assert_eq!(m.len(), 1);
    assert_eq!(m.get("x").map(|s| s.as_str()), Some("2"));
}

#[test]
fn index_last_writer_wins() {
    let mut idx = FlowIndex::new();
    let mut jobs = parse_flow("flow", "/p/flow.flow", "- name: a\n- name: b\n");
    jobs[0].owner = "first".to_string();
    let mut again = parse_flow("flow", "/p/flow.flow", "- name: a\n");
    again[0].owner = "second".to_string();
    idx.add_flow("proj", jobs);
    idx.add_flow("proj", again);
    assert_eq!(idx.len(), 2);
    assert_eq!(idx.get("proj", "flow", "a").unwrap().owner, "second");
    assert!(idx.get("proj", "flow", "c").is_none());
    assert!(idx.get("other", "flow", "a").is_none());
}

#[test]
fn directory_with_anchor() {
    let files = vec![
        "/cron/p/a.flow".to_string(),
        "/cron/p/billing.project".to_string(),
        "/cron/p/b.flow".to_string(),
        "/cron/p/other.project".to_string(),
    ];
    let (project, flows) = plan_directory(&files).unwrap();
    assert_eq!(project, "billing");
    assert_eq!(flows, vec!["/cron/p/a.flow", "/cron/p/b.flow", "/cron/p/other.project"]);
}

#[test]
fn directory_without_anchor_is_skipped() {
    let files = vec!["/cron/q/a.flow".to_string(), "/cron/q/readme.md".to_string()];
    assert!(plan_directory(&files).is_none());
    assert!(plan_directory(&Vec::new()).is_none());
}

#[test]
fn file_names() {
    assert_eq!(stem_name("/cron/p/nightly.flow"), "nightly");
    assert_eq!(stem_name("/"), "unknown");
    assert!(is_project_file("/cron/p/x.project"));
    assert!(!is_project_file("/cron/p/x.flow"));
    assert!(!is_project_file("/cron/p/project"));
}

#[test]
fn walk_root_must_be_a_directory() {
    assert_eq!(check_root(true, false), Err(WalkError::NotADirectory));
    assert_eq!(check_root(false, false), Err(WalkError::NotFound));
    assert_eq!(check_root(true, true), Ok(()));
}

#[test]
fn config_comments_are_dropped() {
    let text = "{\n  // where to send\n  \"mapping_file\": \"m.csv\",\n   //\n  \"db_full_url\": \"mysql://x\"\n}\n";
    assert_eq!(
        InitConfig::do_parse(text),
        "{  \"mapping_file\": \"m.csv\",  \"db_full_url\": \"mysql://x\"}"
    );
}
