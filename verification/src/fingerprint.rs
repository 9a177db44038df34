//! Noise-stable fingerprints, device labels and best-effort secret redaction.
//!
//! Matching the noise and secret patterns is the `regex` crate's work and
//! hashing is `sha2`'s; both stand behind the trusted items at the end of this
//! file. Everything around them (the bytes that are hashed, the hex encoding,
//! the truncation, the label format, the model sanitising) is verified here.

use vstd::prelude::*;

use vstd::utf8::encode_utf8;

use crate::pattern::{regex_replace_all, replace_all_matches};
use crate::text::{chars_of, is_ascii_alphanumeric, string_of};

verus! {

/// Noise that changes between copies of the same bug (hex, paths, numbers).
pub const NOISE_PATTERN: &'static str = r"(?x)
            0x[0-9a-fA-F]+
          | /[^\s]+
          | \b\d+\b
        ";

/// Secrets and real-world identifiers (MAC, Bearer, JWT-like, email, assignments,
/// IPv4, long digits).
pub const SECRET_PATTERN: &'static str = r"(?x)
            (?:[0-9a-fA-F]{2}:){5}[0-9a-fA-F]{2}
          | Bearer\s+\S+
          | eyJ[A-Za-z0-9_-]+\.[A-Za-z0-9_-]+
          | [A-Za-z0-9._%+-]+@[A-Za-z0-9.-]+\.[A-Za-z]{2,}
          | (?i:\b(?:password|passwd|pwd|token|api[_-]?key|authorization)\s*[=:]\s*\S+)
          | \b(?:(?:25[0-5]|2[0-4]\d|[01]?\d\d?)\.){3}(?:25[0-5]|2[0-4]\d|[01]?\d\d?)\b
          | \b\d{10,15}\b
        ";

/// What each match of a pattern is replaced with.
pub const MASK: &'static str = "#";

/// Number of hex digits of the serial's digest kept in a device label.
pub const DEVICE_LABEL_HASH_LEN: usize = 8;

/// Number of hex digits of a fingerprint.
pub const FINGERPRINT_HEX_LEN: usize = 16;

/// Lower-case hex digit of a value below 16.
pub open spec fn hex_digit(n: u8) -> char {
    if n < 10 {
        (('0' as u8) + n) as char
    } else {
        (('a' as u8) + n - 10) as char
    }
}

/// Lower-case hex encoding, two digits per byte, high nibble first (`{:x}`).
pub open spec fn hex_lower(bytes: Seq<u8>) -> Seq<char>
    decreases bytes.len(),
{
    if bytes.len() == 0 {
        Seq::empty()
    } else {
        hex_lower(bytes.drop_last()) + seq![
            hex_digit(bytes.last() / 16),
            hex_digit(bytes.last() % 16),
        ]
    }
}

/// What the secret redaction yields for one outcome of the regex replacement:
/// the replaced text, or a single mask when the pattern could not be compiled.
pub open spec fn redaction_outcome(replaced: Option<Seq<char>>) -> Seq<char> {
    match replaced {
        Some(s) => s,
        None => MASK@,
    }
}

/// Redacted text of a message: every match of [`SECRET_PATTERN`] becomes `#`.
pub open spec fn redacted(message: Seq<char>) -> Seq<char> {
    redaction_outcome(regex_replace_all(SECRET_PATTERN@, message, MASK@))
}

/// What the noise collapse yields for one outcome of the regex replacement: the
/// replaced text, or the message itself when the pattern could not be compiled.
pub open spec fn noise_outcome(message: Seq<char>, replaced: Option<Seq<char>>) -> Seq<char> {
    match replaced {
        Some(s) => s,
        None => message,
    }
}

/// A message with every match of [`NOISE_PATTERN`] replaced by `#`.
pub open spec fn noise_collapsed(message: Seq<char>) -> Seq<char> {
    noise_outcome(message, regex_replace_all(NOISE_PATTERN@, message, MASK@))
}

/// The bytes that are hashed for a fingerprint: UTF-8 of the tag, `|`, and the
/// UTF-8 of the noise-collapsed message.
pub open spec fn fingerprint_input(tag: Seq<char>, collapsed: Seq<char>) -> Seq<u8> {
    encode_utf8(tag) + encode_utf8("|"@) + encode_utf8(collapsed)
}

/// The fingerprint a digest stands for: its first 16 lower-case hex digits.
pub open spec fn fingerprint_of_digest(digest: Seq<u8>) -> Seq<char> {
    hex_lower(digest).take(FINGERPRINT_HEX_LEN as int)
}

/// Fingerprint of a tag and message.
pub open spec fn fingerprint_spec(tag: Seq<char>, message: Seq<char>) -> Seq<char> {
    fingerprint_of_digest(sha256(fingerprint_input(tag, noise_collapsed(message))))
}

/// One model character as it appears in a label.
pub open spec fn sanitized_char(c: char) -> char {
    if is_ascii_alphanumeric(c) {
        c
    } else {
        '_'
    }
}

/// The model name with every character that is not an ASCII letter or digit
/// replaced by `_`.
pub open spec fn sanitized_model(model: Seq<char>) -> Seq<char> {
    Seq::new(model.len(), |i: int| sanitized_char(model[i]))
}

/// The label for a model and the digest of a serial.
pub open spec fn label_of_digest(model: Seq<char>, digest: Seq<u8>) -> Seq<char> {
    sanitized_model(model) + ":"@ + hex_lower(digest).take(DEVICE_LABEL_HASH_LEN as int)
}

/// The label of a model and serial: `{sanitized_model}:{sha256(serial)[..8]}`.
pub open spec fn device_label_spec(model: Seq<char>, serial: Seq<char>) -> Seq<char> {
    label_of_digest(model, sha256(encode_utf8(serial)))
}

/// A lower-case hex digit: `0`..=`9` or `a`..=`f`.
pub open spec fn is_lower_hex(c: char) -> bool {
    ('0' <= c && c <= '9') || ('a' <= c && c <= 'f')
}

/// The shape of a label for `model`: the model's characters, each a letter,
/// digit or `_`, then the one `:` of the label, then lower-case hex digits.
pub open spec fn label_layout(model: Seq<char>, label: Seq<char>) -> bool {
    &&& model.len() < label.len()
    &&& forall|i: int| 0 <= i < model.len() ==> #[trigger] label[i] == sanitized_char(model[i])
    &&& label[model.len() as int] == ':'
    &&& forall|i: int| model.len() < i < label.len() ==> is_lower_hex(#[trigger] label[i])
    &&& forall|i: int| 0 <= i < label.len() ==> (#[trigger] label[i] == ':' <==> i == model.len())
}

/// Hex encoding yields two lower-case hex digits per byte, so fingerprints and
/// the hash part of device labels are lower-case hex.
pub proof fn lemma_hex_lower_digits(bytes: Seq<u8>)
    ensures
        hex_lower(bytes).len() == 2 * bytes.len(),
        forall|i: int| 0 <= i < hex_lower(bytes).len() ==> is_lower_hex(#[trigger] hex_lower(bytes)[i]),
    decreases bytes.len(),
{
    if bytes.len() > 0 {
        let pre = bytes.drop_last();
        lemma_hex_lower_digits(pre);
        let b = bytes.last();
        assert(is_lower_hex(hex_digit(b / 16)) && is_lower_hex(hex_digit(b % 16)));
        let h = hex_lower(bytes);
        assert forall|i: int| 0 <= i < h.len() implies is_lower_hex(#[trigger] h[i]) by {
            if i < hex_lower(pre).len() {
                assert(h[i] == hex_lower(pre)[i]);
            }
        }
    }
}

/// Lower-case hex digit of a value below 16.
fn hex_digit_exec(n: u8) -> (res: char)
    requires
        n < 16,
    ensures
        res == hex_digit(n),
{
    if n < 10 {
        (48u8 + n) as char
    } else {
        (97u8 + n - 10) as char
    }
}

/// Lower-case hex encoding of `bytes`.
pub fn hex_lower_exec(bytes: &Vec<u8>) -> (res: Vec<char>)
    ensures
        res@ == hex_lower(bytes@),
{
    let mut res: Vec<char> = Vec::new();
    let mut i: usize = 0;
    while i < bytes.len()
        invariant
            i <= bytes.len(),
            res@ == hex_lower(bytes@.take(i as int)),
        decreases bytes.len() - i,
    {
        let b = bytes[i];
        let ghost pre = bytes@.take(i + 1);
        assert(pre.drop_last() == bytes@.take(i as int));
        assert(pre.last() == b);
        res.push(hex_digit_exec(b / 16));
        res.push(hex_digit_exec(b % 16));
        i = i + 1;
        assert(res@ == hex_lower(pre));
    }
    assert(bytes@.take(bytes.len() as int) == bytes@);
    res
}

/// The first `n` hex digits of `digest`.
fn hex_prefix(digest: &Vec<u8>, n: usize) -> (res: Vec<char>)
    requires
        n <= 2 * digest.len(),
    ensures
        res@ == hex_lower(digest@).take(n as int),
{
    let hex = hex_lower_exec(digest);
    proof {
        lemma_hex_lower_digits(digest@);
    }
    crate::text::slice_chars(&hex, 0, n)
}

/// The fingerprint a digest stands for: its first 16 lower-case hex digits.
pub fn fingerprint_from_digest(digest: &Vec<u8>) -> (res: String)
    requires
        digest.len() >= 8,
    ensures
        res@ == fingerprint_of_digest(digest@),
        res@.len() == FINGERPRINT_HEX_LEN,
        forall|i: int| 0 <= i < res@.len() ==> is_lower_hex(#[trigger] res@[i]),
{
    proof {
        lemma_hex_lower_digits(digest@);
    }
    string_of(&hex_prefix(digest, FINGERPRINT_HEX_LEN))
}

/// `message` with every match of [`NOISE_PATTERN`] (hex literals, paths,
/// standalone numbers) replaced by `#`; the message itself if the pattern does
/// not compile.
pub fn collapse_noise(message: &str) -> (res: String)
    ensures
        res@ == noise_collapsed(message@),
{
    match replace_all_matches(NOISE_PATTERN, message, MASK) {
        Some(s) => s,
        None => String::from_str(message),
    }
}

/// Fingerprint of a tag and an already noise-collapsed message: the first 16
/// hex digits of the SHA-256 of the tag, `|` and the collapsed message.
pub fn fingerprint_of_collapsed(tag: &str, collapsed: &str) -> (res: String)
    ensures
        res@ == fingerprint_of_digest(sha256(fingerprint_input(tag@, collapsed@))),
        res@.len() == FINGERPRINT_HEX_LEN,
        forall|i: int| 0 <= i < res@.len() ==> is_lower_hex(#[trigger] res@[i]),
{
    let mut data = tag.as_bytes_vec();
    let mut bar = "|".as_bytes_vec();
    let mut rest = collapsed.as_bytes_vec();
    data.append(&mut bar);
    data.append(&mut rest);
    let digest = sha256_digest(data.as_slice());
    fingerprint_from_digest(&digest)
}

/// Hex fingerprint of length 16 from tag + noise-stripped message.
pub fn fingerprint(tag: &str, message: &str) -> (res: String)
    ensures
        res@ == fingerprint_spec(tag@, message@),
        res@.len() == FINGERPRINT_HEX_LEN,
        forall|i: int| 0 <= i < res@.len() ==> is_lower_hex(#[trigger] res@[i]),
{
    let collapsed = collapse_noise(message);
    fingerprint_of_collapsed(tag, collapsed.as_str())
}

/// The redacted text for one outcome of the secret-pattern replacement.
pub fn redaction_from(replaced: Option<String>) -> (res: String)
    ensures
        res@ == redaction_outcome(replaced.deep_view()),
{
    match replaced {
        Some(s) => s,
        None => String::from_str(MASK),
    }
}

/// Best-effort redaction of secrets and real-world identifiers.
///
/// Replaces MACs, Bearer tokens, JWT-like blobs, emails, `password=`/`token=`/
/// `api_key=`/`authorization:` assignments, IPv4 addresses, and 10–15 digit runs.
/// Leaves paths and short numbers unchanged. Not a guarantee of PII safety.
pub fn redact(message: &str) -> (res: String)
    ensures
        res@ == redacted(message@),
{
    redaction_from(replace_all_matches(SECRET_PATTERN, message, MASK))
}

/// Non-reversible device id: `{sanitized_model}:{sha256(serial)[..8]}`.
#[derive(Debug, Clone, PartialEq, Eq, Hash)]
pub struct DeviceLabel(String);

impl Default for DeviceLabel {
    /// The empty label.
    fn default() -> (res: Self)
        ensures
            res@ == Seq::<char>::empty(),
    {
        DeviceLabel(String::new())
    }
}

impl View for DeviceLabel {
    type V = Seq<char>;

    closed spec fn view(&self) -> Seq<char> {
        self.0@
    }
}

/// The model name with every non-alphanumeric ASCII character replaced by `_`.
fn sanitize_model(model: &str) -> (res: Vec<char>)
    ensures
        res@ == sanitized_model(model@),
{
    let chars = chars_of(model);
    let mut res: Vec<char> = Vec::new();
    let mut i: usize = 0;
    while i < chars.len()
        invariant
            i <= chars.len(),
            chars@ == model@,
            res@ == sanitized_model(model@).take(i as int),
        decreases chars.len() - i,
    {
        let c = chars[i];
        let alnum = ('0' <= c && c <= '9') || ('A' <= c && c <= 'Z') || ('a' <= c && c <= 'z');
        res.push(if alnum { c } else { '_' });
        i = i + 1;
        assert(res@ == sanitized_model(model@).take(i as int));
    }
    assert(sanitized_model(model@).take(chars.len() as int) == sanitized_model(model@));
    res
}

impl DeviceLabel {
    /// The label for `model` and an already computed digest of the serial.
    pub fn from_digest(model: &str, digest: &Vec<u8>) -> (res: Self)
        requires
            digest.len() >= 4,
        ensures
            res@ == label_of_digest(model@, digest@),
            res@.len() == model@.len() + 1 + DEVICE_LABEL_HASH_LEN,
            label_layout(model@, res@),
    {
        proof {
            lemma_hex_lower_digits(digest@);
        }
        let mut out = sanitize_model(model);
        out.push(':');
        let mut hex = hex_prefix(digest, DEVICE_LABEL_HASH_LEN);
        out.append(&mut hex);
        proof {
            reveal_strlit(":");
        }
        DeviceLabel(string_of(&out))
    }

    /// Build a stable, non-reversible label from model name and device serial.
    pub fn new(model: &str, serial: &str) -> (res: Self)
        ensures
            res@ == device_label_spec(model@, serial@),
            res@.len() == model@.len() + 1 + DEVICE_LABEL_HASH_LEN,
            label_layout(model@, res@),
    {
        let digest = sha256_digest(serial.as_bytes());
        Self::from_digest(model, &digest)
    }

    /// The label text.
    pub fn as_str(&self) -> (res: &str)
        ensures
            res@ == self@,
    {
        self.0.as_str()
    }
}

impl core::ops::Deref for DeviceLabel {
    type Target = str;

    fn deref(&self) -> (res: &str)
        ensures
            res@ == self@,
    {
        self.0.as_str()
    }
}

impl AsRef<str> for DeviceLabel {
    fn as_ref(&self) -> (res: &str)
        ensures
            res@ == self@,
    {
        self.0.as_str()
    }
}

/// Human-readable Android device model (e.g. `Pixel 8`).
#[derive(Debug, Clone, PartialEq, Eq, Hash)]
pub struct DeviceModel(String);

impl Default for DeviceModel {
    /// The empty model name.
    fn default() -> (res: Self)
        ensures
            res@ == Seq::<char>::empty(),
    {
        DeviceModel(String::new())
    }
}

impl View for DeviceModel {
    type V = Seq<char>;

    closed spec fn view(&self) -> Seq<char> {
        self.0@
    }
}

impl DeviceModel {
    /// Wrap a human-readable model string.
    pub fn new(model: &str) -> (res: Self)
        ensures
            res@ == model@,
    {
        DeviceModel(String::from_str(model))
    }

    /// The model text.
    pub fn as_str(&self) -> (res: &str)
        ensures
            res@ == self@,
    {
        self.0.as_str()
    }
}

impl core::ops::Deref for DeviceModel {
    type Target = str;

    fn deref(&self) -> (res: &str)
        ensures
            res@ == self@,
    {
        self.0.as_str()
    }
}

impl AsRef<str> for DeviceModel {
    fn as_ref(&self) -> (res: &str)
        ensures
            res@ == self@,
    {
        self.0.as_str()
    }
}

impl From<String> for DeviceModel {
    fn from(model: String) -> (res: Self) {
        DeviceModel(model)
    }
}

impl vstd::std_specs::convert::FromSpecImpl<String> for DeviceModel {
    open spec fn obeys_from_spec() -> bool {
        true
    }

    closed spec fn from_spec(model: String) -> Self {
        DeviceModel(model)
    }
}

impl<'a> From<&'a str> for DeviceModel {
    fn from(model: &'a str) -> (res: Self)
        ensures
            res@ == model@,
    {
        DeviceModel::new(model)
    }
}

/// The conversion is stated by its view in the `ensures` of `from`; equal views
/// do not make equal `String` values in the spec world, so no value-level
/// `from_spec` is claimed.
impl<'a> vstd::std_specs::convert::FromSpecImpl<&'a str> for DeviceModel {
    open spec fn obeys_from_spec() -> bool {
        false
    }

    open spec fn from_spec(model: &'a str) -> Self {
        arbitrary()
    }
}

impl<'a, 'b> From<(&'a str, &'b str)> for DeviceLabel {
    fn from(pair: (&'a str, &'b str)) -> (res: Self)
        ensures
            res@ == device_label_spec(pair.0@, pair.1@),
            res@.len() == pair.0@.len() + 1 + DEVICE_LABEL_HASH_LEN,
            label_layout(pair.0@, res@),
    {
        DeviceLabel::new(pair.0, pair.1)
    }
}

/// The conversion is stated by its view in the `ensures` of `from`; equal views
/// do not make equal `String` values in the spec world, so no value-level
/// `from_spec` is claimed.
impl<'a, 'b> vstd::std_specs::convert::FromSpecImpl<(&'a str, &'b str)> for DeviceLabel {
    open spec fn obeys_from_spec() -> bool {
        false
    }

    open spec fn from_spec(pair: (&'a str, &'b str)) -> Self {
        arbitrary()
    }
}

/// The SHA-256 digest of `data` as `sha2::Sha256` computes it.
pub uninterp spec fn sha256(data: Seq<u8>) -> Seq<u8>;

/// `sha2::Sha256::digest`: the SHA-256 digest of `data`, which is 32 bytes long.
#[verifier::external_body]
fn sha256_digest(data: &[u8]) -> (res: Vec<u8>)
    ensures
        res@ == sha256(data@),
        res@.len() == 32,
{
    <sha2::Sha256 as sha2::Digest>::digest(data).to_vec()
}

} // verus!
