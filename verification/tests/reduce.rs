use logcatdigest::reduce::compact_json_len;
use logcatdigest::{absorb, retain_clusters, trim_to_json_budget, Cluster, GroupedEvent};
use serde_json::{Number, Value};

fn cluster(fp: &str, tag: &str, level: char, count: u32, samples: &[&str]) -> Cluster {
    Cluster {
        fingerprint: fp.to_string(),
        tag: tag.to_string(),
        level,
        count,
        samples: samples.iter().map(|s| s.to_string()).collect(),
    }
}

fn serde_len(clusters: &[Cluster]) -> usize {
    let arr: Vec<Value> = clusters
        .iter()
        .map(|c| {
            let mut m = serde_json::Map::new();
            m.insert("fingerprint".into(), Value::String(c.fingerprint.clone()));
            m.insert("tag".into(), Value::String(c.tag.clone()));
            m.insert("level".into(), Value::String(c.level.to_string()));
            m.insert("count".into(), Value::Number(Number::from(c.count)));
            m.insert(
                "samples".into(),
                Value::Array(c.samples.iter().map(|s| Value::String(s.clone())).collect()),
            );
            Value::Object(m)
        })
        .collect();
    let mut top = serde_json::Map::new();
    top.insert("clusters".into(), Value::Array(arr));
    serde_json::to_string(&Value::Object(top)).unwrap().len()
}

#[test]
fn compact_json_len_matches_serde_json() {
    let cases = vec![
        vec![],
        vec![cluster("abc", "T", 'E', 0, &[])],
        vec![
            cluster("0123456789abcdef", "Ok\"Http", 'F', 4294967295, &["a\\b", "tab\there", "nl\n"]),
            cluster("x", "ünïcödé ✓ 𝄞", '\u{1}', 10, &["\u{7f}\u{1f}\u{8}\u{c}\r", ""]),
        ],
    ];
    for cs in cases {
        assert_eq!(compact_json_len(&cs) as usize, serde_len(&cs));
    }
}

fn event(tag: &str, level: char, headline: &str, samples: &[&str]) -> GroupedEvent {
    GroupedEvent {
        index: 0,
        pid: 1,
        level,
        tag: tag.to_string(),
        headline: headline.to_string(),
        samples: samples.iter().map(|s| s.to_string()).collect(),
    }
}

#[test]
fn absorb_counts_and_keeps_fullest_stack() {
    let events = [
        event("T", 'E', "boom 1", &["s1"]),
        event("U", 'E', "other", &["o"]),
        event("T", 'F', "boom 2", &["a", "b", "c"]),
        event("T", 'E', "boom 3", &["b", "d"]),
    ];
    let clusters = absorb(&events);
    assert_eq!(clusters.len(), 2);
    assert_eq!(clusters[0].tag, "T");
    assert_eq!(clusters[0].level, 'E');
    assert_eq!(clusters[0].count, 3);
    assert_eq!(clusters[0].samples, ["a", "b", "c", "d"]);
    assert_eq!(clusters[1].count, 1);
    let total: u32 = clusters.iter().map(|c| c.count).sum();
    assert_eq!(total as usize, events.len());
}

#[test]
fn retain_pins_at_most_two_high_severity() {
    let mut cs = vec![
        cluster("1", "A", 'E', 9, &["plain"]),
        cluster("2", "AndroidRuntime", 'E', 1, &["boom"]),
        cluster("3", "B", 'F', 2, &["x"]),
        cluster("4", "DEBUG", 'E', 3, &["y"]),
        cluster("5", "C", 'E', 5, &["plain"]),
    ];
    retain_clusters(&mut cs, 0);
    let fps: Vec<&str> = cs.iter().map(|c| c.fingerprint.as_str()).collect();
    assert_eq!(fps, ["4", "3"]);

    let mut cs = vec![
        cluster("1", "A", 'E', 9, &["plain"]),
        cluster("2", "AndroidRuntime", 'E', 1, &["boom"]),
        cluster("5", "C", 'E', 5, &["plain"]),
    ];
    retain_clusters(&mut cs, 8);
    let fps: Vec<&str> = cs.iter().map(|c| c.fingerprint.as_str()).collect();
    assert_eq!(fps, ["2", "1", "5"]);
}

#[test]
fn trim_keeps_at_least_one_cluster() {
    let big = "y".repeat(7000);
    let mut cs = vec![
        cluster("1", "A", 'E', 1, &[big.as_str()]),
        cluster("2", "B", 'E', 1, &["small"]),
    ];
    trim_to_json_budget(&mut cs);
    assert_eq!(cs.len(), 1);
    assert_eq!(cs[0].fingerprint, "1");
    let mut small = vec![cluster("1", "A", 'E', 1, &["a"]), cluster("2", "B", 'E', 1, &["b"])];
    trim_to_json_budget(&mut small);
    assert_eq!(small.len(), 2);
}
