use logcatdigest::parse::parse_checked_timestamp;
use logcatdigest::parse_threadtime;

#[test]
fn parse_standard_line() {
    let line = parse_threadtime("03-15 10:23:45.123  1234  5678 I MyTag: Hello world").unwrap();
    assert_eq!(line.timestamp, "03-15 10:23:45.123");
    assert_eq!(line.pid, 1234);
    assert_eq!(line.tid, 5678);
    assert_eq!(line.level, 'I');
    assert_eq!(line.tag, "MyTag");
    assert_eq!(line.message, "Hello world");
}

#[test]
fn parse_error_line() {
    let line =
        parse_threadtime("09-01 17:00:01.456  9999  9999 E AndroidRuntime: FATAL EXCEPTION")
            .unwrap();
    assert_eq!(line.level, 'E');
    assert!(line.is_error_level());
    assert_eq!(line.tag, "AndroidRuntime");
    assert_eq!(line.message, "FATAL EXCEPTION");
}

#[test]
fn skip_unrecognized() {
    assert!(parse_threadtime("--------- beginning of main").is_none());
}

#[test]
fn trims_tag_padding() {
    let line =
        parse_threadtime("09-02 11:05:45.782  1959  1959 I artd    : GetBestInfo checking vdex")
            .unwrap();
    assert_eq!(line.tag, "artd");
}

#[test]
fn message_whitespace_is_collapsed_and_trimmed() {
    let line = parse_threadtime("09-17 12:01:03.120  2144  2144 E Tag:   a \t b   c   \r\n").unwrap();
    assert_eq!(line.message, "a b c");
    assert!(line.is_error_level());
}

#[test]
fn empty_message_and_no_space_after_colon() {
    let line = parse_threadtime("09-17 12:01:03.120 1 2 W Tag:").unwrap();
    assert_eq!(line.message, "");
    assert_eq!(line.pid, 1);
    assert_eq!(line.tid, 2);
    let line = parse_threadtime("09-17 12:01:03.120 1 2 W Tag:x: y").unwrap();
    assert_eq!(line.tag, "Tag");
    assert_eq!(line.message, "x: y");
}

#[test]
fn rejects_bad_fields() {
    // pid too large for u32
    assert!(parse_threadtime("09-17 12:01:03.120 4294967296 2 E Tag: m").is_none());
    assert!(parse_threadtime("09-17 12:01:03.120 4294967295 2 E Tag: m").is_some());
    // unknown level letter
    assert!(parse_threadtime("09-17 12:01:03.120 1 2 X Tag: m").is_none());
    // no colon after the tag
    assert!(parse_threadtime("09-17 12:01:03.120 1 2 E Tag m").is_none());
    // no whitespace between timestamp and pid
    assert!(parse_threadtime("09-17 12:01:03.1201 2 E Tag: m").is_none());
    // line feed inside the message
    assert!(parse_threadtime("09-17 12:01:03.120 1 2 E Tag: a\nb").is_none());
    // lower-case level letter
    assert!(parse_threadtime("09-17 12:01:03.120 1 2 e Tag: m").is_none());
}

#[test]
fn timestamp_digits_are_unicode_decimal_digits() {
    let line = parse_threadtime("٠٣-15 10:23:45.123 7 8 W Tag: m").unwrap();
    assert_eq!(line.timestamp, "٠٣-15 10:23:45.123");
    assert_eq!(line.pid, 7);
    // pid digits must be ASCII: u32 parsing refuses others
    assert!(parse_threadtime("03-15 10:23:45.123 ٧ 8 W Tag: m").is_none());
    assert!(parse_threadtime("03-15 10:23:45.12 7 8 W Tag: m").is_none());
    assert!(parse_threadtime("03/15 10:23:45.123 7 8 W Tag: m").is_none());
}

#[test]
fn unicode_whitespace_separates_fields() {
    let line = parse_threadtime("03-15 10:23:45.123\u{3000}7\u{a0}8\tW\u{2003}Tag\u{85}:\u{2028}m  n").unwrap();
    assert_eq!(line.pid, 7);
    assert_eq!(line.tid, 8);
    assert_eq!(line.level, 'W');
    assert_eq!(line.tag, "Tag");
    assert_eq!(line.message, "m n");
}

#[test]
fn fields_parse_given_the_timestamp_verdict() {
    let line = "xx-15 10:23:45.123 7 8 W Tag: m  ";
    assert!(parse_threadtime(line).is_none());
    let parsed = parse_checked_timestamp(line, true).unwrap();
    assert_eq!(parsed.timestamp, "xx-15 10:23:45.123");
    assert_eq!(parsed.message, "m");
    assert!(parse_checked_timestamp("03-15 10:23:45.123 7 8 W Tag: m", false).is_none());
    assert!(parse_checked_timestamp("short", true).is_none());
}
