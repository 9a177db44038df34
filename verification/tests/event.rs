use logcatdigest::{GroupedEventList, IndexedLogLine, LogLine};

fn line(index: usize, pid: u32, tag: &str, message: &str) -> IndexedLogLine {
    IndexedLogLine {
        index,
        pid,
        level: 'E',
        tag: tag.to_string(),
        message: message.to_string(),
    }
}

#[test]
fn single_error_is_one_event() {
    let events = GroupedEventList::group_from_indexed_log_lines(&[line(0, 1, "OkHttp", "boom")]);
    assert_eq!(events.len(), 1);
    assert_eq!(events[0].headline, "boom");
    assert_eq!(events[0].samples.len(), 1);
}

#[test]
fn fatal_stack_folds_to_one_event() {
    let events = GroupedEventList::group_from_indexed_log_lines(&[
        line(0, 3178, "AndroidRuntime", "FATAL EXCEPTION: main"),
        line(1, 3178, "AndroidRuntime", "Process: com.android.settings, PID: 3178"),
        line(
            2,
            3178,
            "AndroidRuntime",
            "android.app.RemoteServiceException$CrashedByAdbException: shell-induced crash",
        ),
        line(
            3,
            3178,
            "AndroidRuntime",
            "at android.app.ActivityThread.throwRemoteServiceException(ActivityThread.java:2257)",
        ),
        line(4, 99, "OkHttp", "other error"),
    ]);
    assert_eq!(events.len(), 2);
    assert_eq!(events[0].headline, "FATAL EXCEPTION: main");
    assert_eq!(events[0].samples.len(), 4);
    assert!(events[0].samples.iter().any(|s| s.contains("shell-induced")));
    assert_eq!(events[1].headline, "other error");
}

#[test]
fn anr_head_folds_activity_manager_followups() {
    let events = GroupedEventList::group_from_indexed_log_lines(&[
        line(
            0,
            14205,
            "ActivityManager",
            "ANR in com.example.myapp (com.example.myapp/.MainActivity)",
        ),
        line(1, 14205, "ActivityManager", "PID: 14205"),
        line(2, 14205, "ActivityManager", "Reason: Input dispatching timed out"),
        line(3, 1, "OkHttp", "unrelated"),
    ]);
    assert_eq!(events.len(), 2);
    assert!(events[0].headline.contains("ANR in"));
    assert_eq!(events[1].tag, "OkHttp");
}

#[test]
fn different_pid_does_not_fold() {
    let events = GroupedEventList::group_from_indexed_log_lines(&[
        line(0, 1, "AndroidRuntime", "FATAL EXCEPTION: main"),
        line(1, 2, "AndroidRuntime", "at other.Process.main"),
    ]);
    assert_eq!(events.len(), 2);
}

#[test]
fn stack_is_capped_at_thirty_two_lines() {
    let mut lines = vec![line(0, 7, "AndroidRuntime", "FATAL EXCEPTION: main")];
    for i in 1..40 {
        lines.push(line(i, 7, "AndroidRuntime", "at a.b.C.d(C.java:1)"));
    }
    let events = GroupedEventList::group_from_indexed_log_lines(&lines);
    assert_eq!(events.len(), 1 + 8);
    assert_eq!(events[0].samples.len(), 32);
    assert_eq!(events[1].index, 32);
    let total: usize = events.iter().map(|e| e.samples.len()).sum();
    assert_eq!(total, lines.len());
}

#[test]
fn new_head_closes_open_stack() {
    let events = GroupedEventList::group_from_indexed_log_lines(&[
        line(0, 1, "AndroidRuntime", "FATAL EXCEPTION: main"),
        line(1, 1, "AndroidRuntime", "FATAL EXCEPTION: worker"),
        line(2, 1, "AndroidRuntime", "at x.Y.z"),
    ]);
    assert_eq!(events.len(), 2);
    assert_eq!(events[0].samples.len(), 1);
    assert_eq!(events[1].samples.len(), 2);
    assert_eq!(events[1].index, 1);
    assert!(events[1].is_high_severity());
    assert!(!events.is_empty());
    assert_eq!(events.as_slice().len(), 2);
}

#[test]
fn anr_stack_takes_lines_of_its_own_tag() {
    let events = GroupedEventList::group_from_indexed_log_lines(&[
        line(0, 5, "Input", "ANR in com.app"),
        line(1, 5, "Input", "waiting"),
        line(2, 5, "Other", "waiting"),
    ]);
    assert_eq!(events.len(), 2);
    assert_eq!(events[0].samples.len(), 2);
}

#[test]
fn indexed_line_from_parsed_line() {
    let parsed = LogLine {
        timestamp: "09-17 12:00:00.000".into(),
        pid: 42,
        tid: 43,
        level: 'W',
        tag: "T".into(),
        message: "m".into(),
    };
    let indexed = IndexedLogLine::from((3, &parsed));
    assert_eq!(indexed.index, 3);
    assert_eq!(indexed.pid, 42);
    assert_eq!(indexed.level, 'W');
    assert_eq!(indexed.tag, "T");
    assert_eq!(indexed.message, "m");
}

#[test]
fn event_list_iterates_in_order() {
    let events = GroupedEventList::group_from_indexed_log_lines(&[
        line(0, 1, "A", "one"),
        line(1, 2, "B", "two"),
    ]);
    let borrowed: Vec<&str> = (&events).into_iter().map(|e| e.headline.as_str()).collect();
    assert_eq!(borrowed, ["one", "two"]);
    let owned: Vec<String> = events.into_iter().map(|e| e.headline).collect();
    assert_eq!(owned, ["one", "two"]);
}
