use azkaban_monitor::flow::{parse_flow, parse_flow_file, Job};

fn spans(jobs: &[Job]) -> Vec<(String, usize, usize)> {
    jobs.iter().map(|j| (j.job.clone(), j.start, j.end)).collect()
}

#[test]
fn description_before_next_job() {
    let content = "config:\n  retries: 1\nnodes:\n  - name: first\n    type: command\n    config:\n      command: echo first\n  - name: foo\n  # does a thing\n  - name: bar\n    type: command\n";
    let jobs = parse_flow("daily", "/cron/proj/daily.flow", content);
    assert_eq!(jobs.len(), 3);
    assert_eq!(jobs[1].job, "foo");
    assert_eq!(jobs[1].desc, "does a thing");
    assert_eq!(jobs[1].start, 8);
    assert_eq!(jobs[1].end, 8);
    assert_eq!(jobs[2].job, "bar");
    assert_eq!(jobs[2].start, 10);
    assert_eq!(jobs[2].end, 11);
    assert_eq!(jobs[0].start, 4);
    assert_eq!(jobs[0].end, 7);
    assert_eq!(jobs[0].desc, "");
    assert!(jobs.iter().all(|j| j.owner.is_empty() && j.flow == "daily"));
}

#[test]
fn no_job_lines_give_no_jobs() {
    assert!(parse_flow("f", "f.flow", "").is_empty());
    assert!(parse_flow("f", "f.flow", "nodes:\n  # nothing here\n").is_empty());
}

#[test]
fn trailing_blank_lines_are_left_out() {
    let content = "- name: a\n  command: x\n\n\n- name: b\n  command: y\n\n";
    let jobs = parse_flow("f", "f.flow", content);
    assert_eq!(spans(&jobs), vec![("a".to_string(), 1, 2), ("b".to_string(), 5, 6)]);
}

#[test]
fn blank_line_inside_a_job_does_not_end_it() {
    let content = "- name: a\n  one: 1\n\n  two: 2\n- name: b\n";
    let jobs = parse_flow("f", "f.flow", content);
    assert_eq!(spans(&jobs), vec![("a".to_string(), 1, 4), ("b".to_string(), 5, 5)]);
}

#[test]
fn consecutive_job_lines_give_one_line_jobs() {
    let content = "- name: a\n-name:b\n   -   name:   c   trailing\n";
    let jobs = parse_flow("f", "f.flow", content);
    assert_eq!(
        spans(&jobs),
        vec![("a".to_string(), 1, 1), ("b".to_string(), 2, 2), ("c".to_string(), 3, 3)]
    );
}

#[test]
fn last_job_ends_at_last_line() {
    let content = "- name: only\n  type: command\r\n  command: run";
    let jobs = parse_flow("f", "f.flow", content);
    assert_eq!(spans(&jobs), vec![("only".to_string(), 1, 3)]);
}

#[test]
fn first_comment_with_text_is_the_description() {
    let content = "- name: a\n  ##\n  #   first words  \n  # second\n- name: b\n  # =not a description\n  #=kept\n";
    let jobs = parse_flow("f", "f.flow", content);
    assert_eq!(jobs[0].desc, "first words");
    assert_eq!(jobs[1].desc, "=kept");
}

#[test]
fn lines_that_are_not_job_lines() {
    let content = "- name:\n- names: x\nname: y\n- name: real\n";
    let jobs = parse_flow("f", "f.flow", content);
    assert_eq!(spans(&jobs), vec![("real".to_string(), 4, 4)]);
}

#[test]
fn job_ranges_do_not_overlap_and_cover_job_lines() {
    let content = "pre\n- name: a\n# x\n\n- name: b\n- name: c\n  body\n  # note\n- name: d\n\n";
    let jobs = parse_flow("f", "f.flow", content);
    let job_lines: Vec<usize> = content
        .lines()
        .enumerate()
        .filter(|(_, l)| l.trim_start().starts_with("- name:"))
        .map(|(i, _)| i + 1)
        .collect();
    assert_eq!(jobs.iter().map(|j| j.start).collect::<Vec<_>>(), job_lines);
    for w in jobs.windows(2) {
        assert!(w[0].start <= w[0].end);
        assert!(w[0].end < w[1].start);
    }
    assert_eq!(spans(&jobs)[2], ("c".to_string(), 6, 7));
}

#[test]
fn flow_name_is_file_stem() {
    let (name, jobs) = parse_flow_file("/cron/proj/nightly.flow", "- name: j\n");
    assert_eq!(name, "nightly");
    assert_eq!(jobs[0].flow, "nightly");
    assert_eq!(jobs[0].flow_file, "/cron/proj/nightly.flow");
}

#[test]
fn job_clone_keeps_fields() {
    let jobs = parse_flow("f", "f.flow", "- name: a\n# d\n");
    let c = jobs[0].clone();
    assert_eq!((c.start, c.end, c.job.as_str(), c.desc.as_str()), (1, 2, "a", "d"));
}
