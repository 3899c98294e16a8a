use backup_core::upid::UPID;
use backup_core::worker::{
    assemble_task_list, parse_worker_status_line, render_status_line, render_task_list,
    task_log_status, task_status_from_log_line, TaskListInfo, WorkerError,
};

fn upid(node: &str, starttime: i64, task_id: usize) -> UPID {
    UPID {
        pid: 0x100,
        pstart: 0x200,
        starttime,
        task_id,
        worker_type: String::from("backup"),
        worker_id: Some(String::from("store1")),
        username: String::from("root@pam"),
        node: String::from(node),
    }
}

#[test]
fn parse_running_task_line() {
    let line = "UPID:pve:00000100:00000200:00000001:00000003:backup:store1:root@pam:";
    let (upid_str, upid, state) = parse_worker_status_line(line).unwrap();
    assert_eq!(upid_str, line);
    assert_eq!(upid.node, "pve");
    assert_eq!(upid.task_id, 1);
    assert_eq!(state, None);
}

#[test]
fn parse_finished_task_line() {
    let line = "UPID:pve:00000100:00000200:00000001:00000003:backup:store1:root@pam: 5E0C40FF TASK OK";
    let (upid_str, _upid, state) = parse_worker_status_line(line).unwrap();
    assert_eq!(
        upid_str,
        "UPID:pve:00000100:00000200:00000001:00000003:backup:store1:root@pam:"
    );
    assert_eq!(state, Some((0x5E0C40FF, String::from("TASK OK"))));
}

#[test]
fn parse_status_with_spaces_in_status() {
    let line = "UPID:pve:00000100:00000200:00000001:00000003:backup:store1:root@pam: 0000000A TASK ERROR: it broke";
    let (_s, _u, state) = parse_worker_status_line(line).unwrap();
    assert_eq!(state, Some((10, String::from("TASK ERROR: it broke"))));
}

#[test]
fn parse_rejects_two_fields() {
    let line = "UPID:pve:00000100:00000200:00000001:00000003:backup:store1:root@pam: 5E0C40FF";
    assert_eq!(
        parse_worker_status_line(line).unwrap_err(),
        WorkerError::WrongComponentCount
    );
}

#[test]
fn parse_rejects_bad_upid_and_endtime() {
    assert_eq!(
        parse_worker_status_line("not a upid at all").unwrap_err(),
        WorkerError::InvalidUpid
    );
    let line = "UPID:pve:00000100:00000200:00000001:00000003:backup:store1:root@pam: zz TASK OK";
    assert_eq!(
        parse_worker_status_line(line).unwrap_err(),
        WorkerError::InvalidEndtime
    );
}

#[test]
fn render_matches_parse() {
    let running = TaskListInfo { upid: upid("pve", 0x10, 1), state: None };
    let line = render_status_line(&running);
    assert_eq!(
        line,
        "UPID:pve:00000100:00000200:00000001:00000010:backup:store1:root@pam:\n"
    );

    let finished = TaskListInfo {
        upid: upid("pve", 0x10, 2),
        state: Some((0xBEEF, String::from("TASK OK"))),
    };
    let line = render_status_line(&finished);
    assert_eq!(
        line,
        "UPID:pve:00000100:00000200:00000002:00000010:backup:store1:root@pam: 0000BEEF TASK OK\n"
    );

    // and the rendered line parses back
    let (_s, u, state) = parse_worker_status_line(line.trim_end()).unwrap();
    assert_eq!(u.task_id, 2);
    assert_eq!(state, Some((0xBEEF, String::from("TASK OK"))));
}

/// Reconciliation sorts active tasks first by start time, then the
/// finished ones by end time, and never repeats a tag.
#[test]
fn assemble_sorts_and_dedups() {
    let active = vec![
        TaskListInfo { upid: upid("pve", 0x30, 1), state: None },
        TaskListInfo { upid: upid("pve", 0x10, 2), state: None },
        // duplicate tag of the first row
        TaskListInfo { upid: upid("pve", 0x30, 1), state: None },
    ];
    let finish = vec![
        TaskListInfo {
            upid: upid("pve", 0x05, 3),
            state: Some((0x60, String::from("TASK OK"))),
        },
        TaskListInfo {
            upid: upid("pve", 0x06, 4),
            state: Some((0x50, String::from("TASK ERROR: x"))),
        },
    ];
    let merged = assemble_task_list(active, finish);
    assert_eq!(merged.len(), 4);
    // active first, ordered by start time
    assert_eq!(merged[0].upid.task_id, 2);
    assert_eq!(merged[1].upid.task_id, 1);
    // then finished, ordered by end time
    assert_eq!(merged[2].upid.task_id, 4);
    assert_eq!(merged[3].upid.task_id, 3);
}

#[test]
fn render_task_list_text() {
    let list = vec![
        TaskListInfo {
            upid: upid("pve", 0x10, 1),
            state: Some((0x20, String::from("TASK OK"))),
        },
        TaskListInfo { upid: upid("pve", 0x11, 2), state: None },
    ];
    let text = render_task_list(&list);
    assert_eq!(
        text,
        "UPID:pve:00000100:00000200:00000001:00000010:backup:store1:root@pam: 00000020 TASK OK\n\
         UPID:pve:00000100:00000200:00000002:00000011:backup:store1:root@pam:\n"
    );
}

#[test]
fn task_log_verdict_classification() {
    assert_eq!(
        task_status_from_log_line("2024-01-01T00:00:00Z: TASK OK"),
        Some(String::from("OK"))
    );
    assert_eq!(
        task_status_from_log_line("stamp: TASK ERROR: something broke"),
        Some(String::from("ERROR: something broke"))
    );
    // a warning verdict is not a final status
    assert_eq!(task_status_from_log_line("stamp: TASK WARNINGS: 2"), None);
    // ordinary log lines carry no verdict
    assert_eq!(task_status_from_log_line("progress 42%"), None);
    assert_eq!(task_status_from_log_line(""), None);
    // the separator must match exactly
    assert_eq!(task_status_from_log_line("TASK OK"), None);
}

/// Finished tasks are retained with their state while the list stays
/// within the cap.
#[test]
fn assemble_keeps_history() {
    let active = vec![TaskListInfo { upid: upid("pve", 0x10, 1), state: None }];
    let finish = vec![
        TaskListInfo {
            upid: upid("pve", 0x05, 2),
            state: Some((0x50, String::from("TASK OK"))),
        },
        TaskListInfo {
            upid: upid("pve", 0x06, 3),
            state: Some((0x60, String::from("TASK ERROR: x"))),
        },
    ];
    let merged = assemble_task_list(active, finish);
    assert_eq!(merged.len(), 3);
    let ok_row = merged.iter().find(|r| r.upid.task_id == 2).unwrap();
    assert_eq!(ok_row.state, Some((0x50, String::from("TASK OK"))));
    let err_row = merged.iter().find(|r| r.upid.task_id == 3).unwrap();
    assert_eq!(err_row.state, Some((0x60, String::from("TASK ERROR: x"))));
}

/// The history fill stops once the list outgrows a thousand rows.
#[test]
fn assemble_caps_history() {
    let mut finish = Vec::new();
    for k in 0..1100usize {
        finish.push(TaskListInfo {
            upid: upid("pve", k as i64, k),
            state: Some((k as i64, String::from("TASK OK"))),
        });
    }
    let merged = assemble_task_list(Vec::new(), finish);
    assert_eq!(merged.len(), 1001);
}

/// A whole log folds to its last verdict; without one it is unknown.
#[test]
fn task_log_status_fold() {
    let lines = vec![
        String::from("starting up"),
        String::from("10:00: TASK ERROR: first try"),
        String::from("retrying"),
        String::from("10:05: TASK OK"),
    ];
    assert_eq!(task_log_status(&lines), "OK");
    let lines = vec![String::from("nothing conclusive")];
    assert_eq!(task_log_status(&lines), "unknown");
    assert_eq!(task_log_status(&Vec::new()), "unknown");
}
