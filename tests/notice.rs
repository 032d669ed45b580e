use azkaban_monitor::alert::group_alerts;

#[test]
fn test_send_normal() {
    let url = "ha?";
    let user_id = "";
    let message = "failed: job1 ---- 07260008601384";
    let _ = (url, user_id, message);
}

#[test]
fn test_send_empty_params() {
    let url = "";
    let user_id = "";
    let message = "";
    let _ = (url, user_id, message);
    assert!(group_alerts(Vec::new()).is_empty());
}
