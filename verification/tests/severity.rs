use logcatdigest::{is_high_severity, ContentType};

#[test]
fn matches_fatal_level() {
    assert!(is_high_severity('F', "Tag", "something died"));
}

#[test]
fn matches_android_runtime_fatal_exception() {
    assert!(is_high_severity('E', "AndroidRuntime", "FATAL EXCEPTION: main"));
}

#[test]
fn matches_anr_in_activity_manager() {
    assert!(is_high_severity(
        'E',
        "ActivityManager",
        "ANR in com.example.myapp (com.example.myapp/.MainActivity)"
    ));
}

#[test]
fn rejects_ordinary_error() {
    assert!(!is_high_severity('E', "OkHttp", "unexpected end of stream"));
}

#[test]
fn crash_tag_alone_is_high_severity() {
    assert!(is_high_severity('W', "DEBUG", "backtrace:"));
    assert!(!is_high_severity('W', "debug", "backtrace:"));
}

#[test]
fn high_severity_is_any_content_type() {
    let cases = [
        ('F', "T", "x"),
        ('E', "T", "Fatal signal 6"),
        ('E', "T", "anr in app"),
        ('E', "libc", "abort"),
        ('E', "T", "panic!"),
        ('E', "T", "nothing"),
        ('W', "OkHttp", "timeout"),
    ];
    for (level, tag, msg) in cases {
        let any = [ContentType::Fatal, ContentType::Anr, ContentType::Crash]
            .iter()
            .any(|k| k.matches(level, tag, msg));
        assert_eq!(is_high_severity(level, tag, msg), any);
    }
}
