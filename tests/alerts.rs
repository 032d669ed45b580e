use azkaban_monitor::alert::{
    group_alerts, merge_alerts, merge_git_and_azkaban, resolve_recipient, MergeWarning, Task,
};
use azkaban_monitor::blame::resolve_owner;
use azkaban_monitor::flow::parse_flow_file;
use azkaban_monitor::index::{plan_directory, FlowIndex};
use azkaban_monitor::mapping::parse_owner_mapping;

fn task(project: &str, flow: &str, job: &str, exec: &str) -> Task {
    Task {
        exec_id: exec.to_string(),
        project_name: project.to_string(),
        flow_id: flow.to_string(),
        job_id: job.to_string(),
        attempt: 1,
        owner: String::new(),
        input_params: String::new(),
        output_params: String::new(),
        start_time: 1_700_000_000_000,
        end_time: 1_700_000_060_000,
        duration: 60_000,
        desc: String::new(),
    }
}

fn summary(t: &Task) -> (String, String, String, String, String) {
    (t.exec_id.clone(), t.project_name.clone(), t.flow_id.clone(), t.job_id.clone(), t.owner.clone())
}

fn sample_index() -> FlowIndex {
    let files = vec![
        "/cron/shop/orders.flow".to_string(),
        "/cron/shop/shop.project".to_string(),
        "/cron/shop/stock.flow".to_string(),
    ];
    let (project, flows) = plan_directory(&files).unwrap();
    let contents = ["- name: load_orders\n  command: a\n", "- name: load_stock\n  command: b\n"];
    let blame = "abc (alice 2024-05-01 08:00:00 +0000 1) - name: x\n";
    let mut idx = FlowIndex::new();
    for (path, content) in flows.iter().zip(contents.iter()) {
        let (_flow, mut jobs) = parse_flow_file(path, content);
        for j in jobs.iter_mut() {
            j.owner = resolve_owner(true, blame);
        }
        idx.add_flow(&project, jobs);
    }
    idx
}

#[test]
fn one_matching_record_reaches_its_recipient() {
    let idx = sample_index();
    assert_eq!(idx.len(), 2);
    let mapping = parse_owner_mapping("alice,U123\n");
    let (group, warnings) = merge_alerts(&idx, &mapping, vec![task("shop", "orders", "load_orders", "e1")]);
    assert!(warnings.is_empty());
    assert_eq!(group.leaves.len(), 1);
    let leaf = &group.leaves[0];
    assert_eq!((leaf.owner.as_str(), leaf.project.as_str(), leaf.flow.as_str()), ("U123", "shop", "orders"));
    assert_eq!(leaf.tasks.len(), 1);
    assert_eq!(summary(&leaf.tasks[0]), ("e1".into(), "shop".into(), "orders".into(), "load_orders".into(), "U123".into()));
    assert!(group.unaddressed.is_empty());
    assert_eq!(group.get("U123", "shop", "orders").map(|v| v.len()), Some(1));
    assert!(group.get("U123", "shop", "stock").is_none());
}

#[test]
fn unmatched_record_is_kept_out_and_reported() {
    let idx = sample_index();
    let mapping = parse_owner_mapping("alice,U123\n");
    let (group, warnings) = merge_alerts(&idx, &mapping, vec![task("shop", "orders", "ghost", "e9")]);
    assert!(group.is_empty());
    assert_eq!(group.unaddressed.len(), 1);
    assert_eq!(group.unaddressed[0].job_id, "ghost");
    assert_eq!(warnings, vec![(0, MergeWarning::MergeUnmatched)]);
}

#[test]
fn owner_without_mapping_is_reported() {
    let idx = sample_index();
    let mapping = parse_owner_mapping("bob,U9\n");
    let t = task("shop", "stock", "load_stock", "e2");
    assert_eq!(resolve_recipient(&idx, &mapping, &t), Err(MergeWarning::MappingMissing));
    let (merged, warnings) = merge_git_and_azkaban(&idx, &mapping, vec![t]);
    assert_eq!(merged[0].owner, "");
    assert_eq!(warnings, vec![(0, MergeWarning::MappingMissing)]);
}

#[test]
fn grouping_keeps_order_within_groups() {
    let mut a = task("p", "f", "j1", "1");
    a.owner = "U1".into();
    let mut b = task("p", "g", "j2", "2");
    b.owner = "U1".into();
    let mut c = task("p", "f", "j3", "3");
    c.owner = "U1".into();
    let d = task("p", "f", "j4", "4");
    let mut e = task("q", "f", "j5", "5");
    e.owner = "U2".into();
    let g = group_alerts(vec![a, b, c, d, e]);
    let keys: Vec<(String, String, String, Vec<String>)> = g
        .leaves
        .iter()
        .map(|l| (l.owner.clone(), l.project.clone(), l.flow.clone(), l.tasks.iter().map(|t| t.exec_id.clone()).collect()))
        .collect();
    assert_eq!(
        keys,
        vec![
            ("U1".into(), "p".into(), "f".into(), vec!["1".to_string(), "3".to_string()]),
            ("U1".into(), "p".into(), "g".into(), vec!["2".to_string()]),
            ("U2".into(), "q".into(), "f".into(), vec!["5".to_string()]),
        ]
    );
    assert_eq!(g.unaddressed.len(), 1);
    assert_eq!(g.unaddressed[0].exec_id, "4");
}

#[test]
fn merging_twice_gives_the_same_groups() {
    let idx = sample_index();
    let mapping = parse_owner_mapping("alice,U123\n");
    let records = || {
        vec![
            task("shop", "orders", "load_orders", "e1"),
            task("shop", "stock", "load_stock", "e2"),
            task("shop", "orders", "ghost", "e3"),
        ]
    };
    let (first, w1) = merge_git_and_azkaban(&idx, &mapping, records());
    let (second, w2) = merge_git_and_azkaban(&idx, &mapping, records());
    let (again, _) = merge_git_and_azkaban(&idx, &mapping, first);
    let a: Vec<_> = second.iter().map(summary).collect();
    let b: Vec<_> = again.iter().map(summary).collect();
    assert_eq!(a, b);
    assert_eq!(w1, w2);
    let g1 = group_alerts(second);
    let g2 = group_alerts(again);
    let flat = |g: &azkaban_monitor::alert::AlertGroup| -> Vec<(String, String, String, usize)> {
        g.leaves.iter().map(|l| (l.owner.clone(), l.project.clone(), l.flow.clone(), l.tasks.len())).collect()
    };
    assert_eq!(flat(&g1), flat(&g2));
    assert_eq!(flat(&g1).len(), 2);
}
