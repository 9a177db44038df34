use logcatdigest::{
    parse_threadtime, Cluster, DeviceLabel, DeviceModel, GroupedEventList, IndexedLogLine, LogLine,
    Snapshot, SnapshotOpts,
};

fn line(level: char, tag: &str, message: &str) -> LogLine {
    LogLine {
        timestamp: "09-17 12:00:00.000".into(),
        pid: 1,
        tid: 1,
        level,
        tag: tag.into(),
        message: message.into(),
    }
}

fn line_pid(pid: u32, level: char, tag: &str, message: &str) -> LogLine {
    LogLine {
        pid,
        ..line(level, tag, message)
    }
}

#[test]
fn empty_snapshot() {
    let snap = Snapshot::from_lines(&[], SnapshotOpts::default());
    assert!(snap.clusters.is_empty());
    assert_eq!(snap.levels, ["E", "F"]);
}

#[test]
fn clusters_same_fingerprint() {
    let lines = [
        line('E', "OkHttp", "failed host 1"),
        line('E', "OkHttp", "failed host 2"),
        line('E', "OkHttp", "failed host 3"),
        line('E', "System", "disk full"),
    ];
    let snap = Snapshot::from_lines(&lines, SnapshotOpts::default());
    assert_eq!(snap.clusters.len(), 2);
    assert_eq!(snap.clusters[0].tag, "OkHttp");
    assert_eq!(snap.clusters[0].count, 3);
    assert_eq!(snap.clusters[1].tag, "System");
    assert_eq!(snap.clusters[1].count, 1);
}

#[test]
fn ignores_info_when_errors_only() {
    let lines = [
        line('I', "OkHttp", "ok"),
        line('F', "AndroidRuntime", "FATAL EXCEPTION"),
    ];
    let snap = Snapshot::from_lines(&lines, SnapshotOpts::default());
    assert_eq!(snap.clusters.len(), 1);
    assert_eq!(snap.clusters[0].tag, "AndroidRuntime");
}

#[test]
fn samples_are_redacted() {
    let lines = [line(
        'E',
        "AndroidRuntime",
        "token Bearer secret.jwt password=s3cret",
    )];
    let snap = Snapshot::from_lines(&lines, SnapshotOpts::default());
    assert!(!snap.clusters[0].samples[0].contains("secret.jwt"));
    assert!(!snap.clusters[0].samples[0].contains("s3cret"));
}

#[test]
fn digest_key_stable_for_same_count_bucket() {
    let a = [
        line('E', "OkHttp", "failed host 1"),
        line('E', "OkHttp", "failed host 2"),
        line('E', "OkHttp", "failed host 3"),
    ];
    let b = [
        line('E', "OkHttp", "failed host 1"),
        line('E', "OkHttp", "failed host 2"),
        line('E', "OkHttp", "failed host 3"),
        line('E', "OkHttp", "failed host 4"),
    ];
    let snap_a = Snapshot::from_lines(&a, SnapshotOpts::default());
    let snap_b = Snapshot::from_lines(&b, SnapshotOpts::default());
    assert_eq!(snap_a.digest_key(), snap_b.digest_key());
}

#[test]
fn digest_key_changes_for_new_fingerprint() {
    let a = [line('E', "OkHttp", "failed host")];
    let b = [
        line('E', "OkHttp", "failed host"),
        line('F', "AndroidRuntime", "FATAL EXCEPTION"),
    ];
    let snap_a = Snapshot::from_lines(&a, SnapshotOpts::default());
    let snap_b = Snapshot::from_lines(&b, SnapshotOpts::default());
    assert_ne!(snap_a.digest_key(), snap_b.digest_key());
    assert!(snap_b.has_new_high_severity(&snap_a.digest_key()));
}

#[test]
fn fatal_stack_is_one_cluster_beside_other_errors() {
    let mut lines = Vec::new();
    for i in 0..8 {
        for _ in 0..3 {
            lines.push(line('E', "OkHttp", &format!("failed host {i}")));
        }
    }
    let pid = 3178;
    lines.push(line_pid(pid, 'E', "AndroidRuntime", "FATAL EXCEPTION: main"));
    lines.push(line_pid(
        pid,
        'E',
        "AndroidRuntime",
        "Process: com.android.settings, PID: 3178",
    ));
    lines.push(line_pid(
        pid,
        'E',
        "AndroidRuntime",
        "at android.app.ActivityThread.main(ActivityThread.java:1)",
    ));
    let snap = Snapshot::from_lines(&lines, SnapshotOpts::default());
    let runtime = snap
        .clusters
        .iter()
        .filter(|c| c.tag == "AndroidRuntime")
        .count();
    assert_eq!(runtime, 1, "stack should fold to one cluster");
    assert!(snap.clusters.iter().any(|c| c.tag == "OkHttp"));
    assert!(snap.clusters.len() <= 8);
}

#[test]
fn parse_then_build_roundtrip() {
    let raw = "09-17 12:01:04.001  2144  2201 E OkHttp: failed 3 times at /data/app/foo";
    let parsed = parse_threadtime(raw).unwrap();
    let snap = Snapshot::from_lines(&[parsed], SnapshotOpts::default());
    assert_eq!(snap.clusters.len(), 1);
    assert_eq!(snap.clusters[0].tag, "OkHttp");
}

#[test]
fn builder_requires_label_and_model() {
    let opts = SnapshotOpts::builder()
        .label(DeviceLabel::new("Pixel 8", "emulator-5554"))
        .model(DeviceModel::new("Pixel 8"))
        .build();
    assert!(opts.device_label.starts_with("Pixel_8:"));
    assert_eq!(opts.device_model.as_ref(), "Pixel 8");
    assert!(opts.errors_only);
    assert_eq!(opts.max_clusters, 8);
}

#[test]
fn builder_in_either_order_with_options() {
    let opts = SnapshotOpts::builder()
        .errors_only(false)
        .model(DeviceModel::new("M"))
        .max_clusters(3)
        .label(DeviceLabel::new("M", "s"))
        .build();
    assert!(!opts.errors_only);
    assert_eq!(opts.max_clusters, 3);
    assert_eq!(opts.device_model.as_str(), "M");
    let snap = Snapshot::from_lines(&[line('I', "A", "info")], opts);
    assert_eq!(snap.levels, ["V", "D", "I", "W", "E", "F"]);
    assert_eq!(snap.clusters.len(), 1);
    assert_eq!(snap.device_model.as_str(), "M");
}

#[test]
fn own_digest_key_has_nothing_new() {
    let lines = [
        line('F', "AndroidRuntime", "FATAL EXCEPTION: main"),
        line('E', "OkHttp", "failed"),
    ];
    let snap = Snapshot::from_lines(&lines, SnapshotOpts::default());
    assert!(!snap.has_new_high_severity(&snap.digest_key()));
    assert!(snap.has_new_high_severity(""));
}

#[test]
fn digest_key_format() {
    let lines: Vec<LogLine> = (0..12).map(|_| line('E', "OkHttp", "boom")).collect();
    let snap = Snapshot::from_lines(&lines, SnapshotOpts::default());
    let fp = snap.clusters[0].fingerprint.clone();
    assert_eq!(snap.clusters[0].count, 12);
    assert_eq!(snap.digest_key(), format!("{fp}:2"));
    let empty = Snapshot::from_lines(&[], SnapshotOpts::default());
    assert_eq!(empty.digest_key(), "");
}

#[test]
fn high_severity_pinned_before_higher_counts() {
    let mut lines = Vec::new();
    for i in 0..5 {
        for _ in 0..(10 - i) {
            lines.push(line('E', &format!("Tag{i}"), "plain failure"));
        }
    }
    lines.push(line_pid(9, 'E', "Zed", "ANR in com.app"));
    let opts = SnapshotOpts::builder()
        .label(DeviceLabel::default())
        .model(DeviceModel::default())
        .max_clusters(3)
        .build();
    let snap = Snapshot::from_lines(&lines, opts);
    assert_eq!(snap.clusters.len(), 3);
    assert_eq!(snap.clusters[0].tag, "Zed");
    assert_eq!(snap.clusters[1].tag, "Tag0");
    assert_eq!(snap.clusters[2].tag, "Tag1");
}

#[test]
fn ties_sort_by_tag() {
    let lines = [
        line('E', "b", "x"),
        line('E', "a", "y"),
        line('E', "c", "z"),
    ];
    let snap = Snapshot::from_lines(&lines, SnapshotOpts::default());
    let tags: Vec<&str> = snap.clusters.iter().map(|c| c.tag.as_str()).collect();
    assert_eq!(tags, ["a", "b", "c"]);
}

#[test]
fn json_budget_drops_trailing_clusters() {
    let big = "x".repeat(2000);
    let lines: Vec<LogLine> = (0..6)
        .map(|i| line('E', &format!("T{i}"), &format!("{big} {i}")))
        .collect();
    let snap = Snapshot::from_lines(&lines, SnapshotOpts::default());
    // Each cluster's JSON is a little over 2 KB, so only two fit in 6 KB.
    assert_eq!(snap.clusters.len(), 2);
    assert_eq!(snap.clusters[0].tag, "T0");
    assert_eq!(snap.clusters[1].tag, "T1");
}

#[test]
fn merges_unique_samples_of_same_fingerprint() {
    let lines = [
        line('E', "T", "failed 1"),
        line('E', "T", "failed 2"),
        line('E', "T", "failed 1"),
    ];
    let snap = Snapshot::from_lines(&lines, SnapshotOpts::default());
    assert_eq!(snap.clusters.len(), 1);
    assert_eq!(snap.clusters[0].count, 3);
    assert_eq!(snap.clusters[0].samples, vec!["failed 1".to_string(), "failed 2".to_string()]);
}

fn same_clusters(a: &[Cluster], b: &[Cluster]) {
    assert_eq!(a.len(), b.len());
    for (x, y) in a.iter().zip(b.iter()) {
        assert_eq!(x.fingerprint, y.fingerprint);
        assert_eq!(x.tag, y.tag);
        assert_eq!(x.level, y.level);
        assert_eq!(x.count, y.count);
        assert_eq!(x.samples, y.samples);
    }
}

fn mixed_log() -> Vec<LogLine> {
    let pid = 3178;
    vec![
        line('I', "OkHttp", "connected"),
        line_pid(pid, 'E', "AndroidRuntime", "FATAL EXCEPTION: main"),
        line_pid(pid, 'W', "AndroidRuntime", "slow frame"),
        line_pid(pid, 'E', "AndroidRuntime", "at com.app.Main.run(Main.java:1)"),
        line('D', "System", "gc"),
        line('E', "OkHttp", "failed host 1"),
        line('V', "OkHttp", "retry"),
        line('E', "OkHttp", "failed host 2"),
    ]
}

#[test]
fn errors_only_same_as_prefiltered_lines() {
    let lines = mixed_log();
    let filtered: Vec<LogLine> = lines.iter().filter(|l| l.is_error_level()).cloned().collect();
    let all = Snapshot::from_lines(&lines, SnapshotOpts::default());
    let pre = Snapshot::from_lines(&filtered, SnapshotOpts::default());
    same_clusters(&all.clusters, &pre.clusters);
    assert_eq!(all.digest_key(), pre.digest_key());
    assert_eq!(all.clusters.len(), 2);
    let stack = all.clusters.iter().find(|c| c.tag == "AndroidRuntime").unwrap();
    assert_eq!(stack.samples.len(), 2, "the warn line does not break the stack");
    let okhttp = all.clusters.iter().find(|c| c.tag == "OkHttp").unwrap();
    assert_eq!(okhttp.count, 2);
}

#[test]
fn from_lines_matches_from_grouped_events() {
    let lines = mixed_log();
    let indexed: Vec<IndexedLogLine> = lines
        .iter()
        .enumerate()
        .filter(|(_, l)| l.is_error_level())
        .map(|(i, l)| IndexedLogLine::from((i, l)))
        .collect();
    let events = GroupedEventList::group_from_indexed_log_lines(&indexed);
    assert_eq!(events.as_slice()[0].index, 1);
    let from_lines = Snapshot::from_lines(&lines, SnapshotOpts::default());
    let from_events = Snapshot::from_events(events.as_slice(), SnapshotOpts::default());
    same_clusters(&from_lines.clusters, &from_events.clusters);
    assert_eq!(from_lines.digest_key(), from_events.digest_key());
}

#[test]
fn from_events_twice_gives_same_snapshot() {
    let lines = mixed_log();
    let indexed: Vec<IndexedLogLine> = lines
        .iter()
        .enumerate()
        .filter(|(_, l)| l.is_error_level())
        .map(|(i, l)| IndexedLogLine::from((i, l)))
        .collect();
    let events = GroupedEventList::group_from_indexed_log_lines(&indexed).into_vec();
    let first = Snapshot::from_events(&events, SnapshotOpts::default());
    let second = Snapshot::from_events(&events, SnapshotOpts::default());
    same_clusters(&first.clusters, &second.clusters);
    assert_eq!(first.digest_key(), second.digest_key());
    // The same events read at other positions and pids cluster the same way.
    let moved: Vec<_> = events
        .iter()
        .cloned()
        .map(|mut e| {
            e.index += 100;
            e.pid += 7;
            e
        })
        .collect();
    let third = Snapshot::from_events(&moved, SnapshotOpts::default());
    same_clusters(&first.clusters, &third.clusters);
    assert_eq!(first.digest_key(), third.digest_key());
}
