use logcatdigest::fingerprint::{
    collapse_noise, fingerprint_from_digest, fingerprint_of_collapsed, redaction_from,
};
use logcatdigest::{fingerprint, redact, DeviceLabel, DeviceModel};

#[test]
fn collapse_numbers_and_paths() {
    let left = fingerprint("OkHttp", "failed 3 times at /data/app/foo");
    let right = fingerprint("OkHttp", "failed 9 times at /data/app/bar");
    assert_eq!(left, right);
}

#[test]
fn different_tags_differ() {
    assert_ne!(fingerprint("OkHttp", "boom"), fingerprint("System", "boom"));
}

#[test]
fn redact_email_bearer_and_mac() {
    let text = redact("user a@b.com Bearer abc.def aa:bb:cc:dd:ee:ff");
    assert!(!text.contains("a@b.com"));
    assert!(!text.contains("abc.def"));
    assert!(!text.contains("aa:bb:cc:dd:ee:ff"));
    assert!(text.contains('#'));
}

#[test]
fn redact_keeps_status_codes_and_paths() {
    let text = redact("HTTP 500 from /data/user/0/com.app/cache");
    assert!(text.contains("500"));
    assert!(text.contains("/data/user/0/com.app/cache"));
}

#[test]
fn redact_assignment_secrets() {
    let text = redact(
        "password=s3cret token=abc123 api_key=key-99 api-key=key-88 authorization: Bearer.xyz",
    );
    assert!(!text.contains("s3cret"));
    assert!(!text.contains("abc123"));
    assert!(!text.contains("key-99"));
    assert!(!text.contains("key-88"));
    assert!(!text.contains("Bearer.xyz"));
    assert!(text.contains('#'));
}

#[test]
fn redact_ipv4() {
    let text = redact("connect failed to 10.0.0.1 port 443");
    assert!(!text.contains("10.0.0.1"));
    assert!(text.contains("port 443"));
    assert!(text.contains('#'));
}

#[test]
fn redact_long_digit_runs() {
    let text = redact("call 5551234567 or pid 12345 code 500");
    assert!(!text.contains("5551234567"));
    assert!(text.contains("12345"));
    assert!(text.contains("500"));
    assert!(text.contains('#'));
}

#[test]
fn device_label_hides_serial() {
    let label = DeviceLabel::new("Pixel 8", "emulator-5554");
    assert!(label.starts_with("Pixel_8:"));
    assert!(!label.contains("emulator-5554"));
    assert_eq!(label, DeviceLabel::new("Pixel 8", "emulator-5554"));
    assert_ne!(label, DeviceLabel::new("Pixel 8", "emulator-5556"));
}

#[test]
fn device_label_is_model_then_eight_hex_digits() {
    // sha256("emulator-5554") starts with these four bytes.
    let label = DeviceLabel::new("Pixel 8", "emulator-5554");
    assert_eq!(label.len(), "Pixel_8:".len() + 8);
    assert!(label[8..].chars().all(|c| c.is_ascii_hexdigit() && !c.is_ascii_uppercase()));
    let digest = [0xde, 0xad, 0xbe, 0xef, 0x01, 0x02];
    let label = DeviceLabel::from_digest("a-b c", &digest.to_vec());
    assert_eq!(label.as_str(), "a_b_c:deadbeef");
}

#[test]
fn fingerprint_is_sixteen_lower_hex_digits() {
    let fp = fingerprint("OkHttp", "boom");
    assert_eq!(fp.len(), 16);
    assert!(fp.chars().all(|c| c.is_ascii_hexdigit() && !c.is_ascii_uppercase()));
    let digest: Vec<u8> = (0u8..32).collect();
    assert_eq!(fingerprint_from_digest(&digest), "0001020304050607");
}

#[test]
fn fingerprint_hashes_tag_bar_and_collapsed_message() {
    // Noise collapse replaces hex, paths and numbers with `#`.
    assert_eq!(
        fingerprint("T", "x 0x1F at /a/b 42"),
        fingerprint("T", "x 0xff at /c 7")
    );
    assert_ne!(fingerprint("T", "x 1"), fingerprint("T", "y 1"));
}

#[test]
fn redaction_outcomes() {
    assert_eq!(redaction_from(Some("a # b".to_string())), "a # b");
    assert_eq!(redaction_from(None), "#");
    assert_eq!(redact("nothing secret here"), "nothing secret here");
}

#[test]
fn device_model_wraps_text() {
    let model = DeviceModel::new("Pixel 8");
    assert_eq!(model.as_str(), "Pixel 8");
    assert_eq!(&*model, "Pixel 8");
    assert_eq!(DeviceModel::default().as_str(), "");
}

#[test]
fn noise_collapse_and_fingerprint_of_collapsed() {
    assert_eq!(
        collapse_noise("x 0x1F at /a/b 42 abc42"),
        "x # at # # abc42"
    );
    assert_eq!(
        fingerprint_of_collapsed("T", "x # at # #"),
        fingerprint("T", "x 0xff at /c 7")
    );
}

#[test]
fn device_label_from_model_and_serial() {
    let label: DeviceLabel = ("Pixel 8", "emulator-5554").into();
    assert_eq!(label, DeviceLabel::new("Pixel 8", "emulator-5554"));
    assert_eq!(label.len(), "Pixel_8:".len() + 8);
    assert!(!label.contains("emulator-5554"));
}

#[test]
fn device_model_from_str() {
    let model: DeviceModel = "Pixel 8".into();
    assert_eq!(model.as_str(), "Pixel 8");
    assert_eq!(model, DeviceModel::new("Pixel 8"));
}

#[test]
fn device_label_has_one_colon_then_lower_hex() {
    let label = DeviceLabel::new("Pixel:8 Pro", "R58M123ABC");
    assert_eq!(label.matches(':').count(), 1);
    let (model, hash) = label.split_once(':').unwrap();
    assert_eq!(model, "Pixel_8_Pro");
    assert_eq!(hash.len(), 8);
    assert!(hash.chars().all(|c| c.is_ascii_digit() || ('a'..='f').contains(&c)));
}
