use logcatdigest::{ContentType, LogLevel};

#[test]
fn content_type_fatal_and_anr() {
    assert!(ContentType::Fatal.matches('F', "Tag", "x"));
    assert!(ContentType::Fatal.matches('E', "T", "FATAL EXCEPTION: main"));
    assert!(ContentType::Anr.matches('E', "ActivityManager", "ANR in com.app"));
    assert!(!ContentType::Anr.matches('E', "OkHttp", "timeout"));
}

#[test]
fn content_type_crash() {
    assert!(ContentType::Crash.matches('E', "AndroidRuntime", "boom"));
    assert!(ContentType::Crash.matches('E', "System", "tombstone written"));
    assert!(!ContentType::Crash.matches('E', "OkHttp", "stream reset"));
}

#[test]
fn log_level_roundtrip() {
    for level in [
        LogLevel::Verbose,
        LogLevel::Debug,
        LogLevel::Info,
        LogLevel::Warn,
        LogLevel::Error,
        LogLevel::Fatal,
    ] {
        assert_eq!(LogLevel::from_char(level.as_char()), Some(level));
    }
}

#[test]
fn log_level_letters_and_labels() {
    assert_eq!(LogLevel::Warn.as_char(), 'W');
    assert_eq!(LogLevel::Verbose.as_str(), "V");
    assert_eq!(LogLevel::Fatal.as_str(), "F");
    assert_eq!(LogLevel::from_char('e'), Some(LogLevel::Error));
    assert_eq!(LogLevel::from_char('x'), None);
}

#[test]
fn content_type_needles_ignore_ascii_case() {
    assert!(ContentType::Fatal.matches('E', "T", "Fatal Signal 11 (SIGSEGV)"));
    assert!(ContentType::Crash.matches('I', "Go", "PANIC: runtime error"));
    assert!(ContentType::Crash.matches('E', "libc", "abort"));
    assert!(ContentType::Crash.matches('E', "x", "CheckJNI detected error"));
    assert!(!ContentType::Fatal.matches('E', "T", "fatal"));
}
