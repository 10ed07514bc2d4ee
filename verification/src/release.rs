//! Release images, the manifest that describes one, and the keys that sign
//! manifests.
use crate::bytes;
use crate::crypto;
use crate::decimal;
use crate::text;
use vstd::prelude::*;

verus! {

pub const PARTITION_TABLE_OFFSET: usize = 0x8000;

pub const APP_OFFSET: usize = 0x10000;

pub const FORMAT: &'static str = "kassigner-release-v1";

pub const REPOSITORY: &'static str = "kas-builder/KasSigner-M5Stack-fork-brt";

pub const BOARD: &'static str = "m5stack-cores3";

pub const PROFILE: &'static str = "production";

pub const IMAGE_LAYOUT: &'static str = "merged-full-flash";

pub const FLASH_SIZE: &'static str = "16mb";

pub const FLASH_OFFSET: &'static str = "0x0";

/// The name of the release image.
pub const ARTIFACT: &'static str = "kassigner-m5stack.bin";

/// Why a release cannot be made or is not accepted.
pub enum ReleaseError {
    /// The image is not a merged image.
    Image(&'static str),
    /// A key is not written as two hexadecimal digits per byte.
    NotHex(String),
    /// Commit and version are not non-empty single lines.
    NotSingleLine,
    /// The manifest has carriage returns, or no line feed at its end.
    NotCanonical,
    /// The manifest does not have the fields that it should have.
    Identity(String),
    /// The manifest does not describe the image.
    ManifestMismatch,
    InvalidPrivateKey,
    /// The private key does not belong to the public key.
    KeyMismatch,
    /// There is no signature for this manifest and key.
    NotSigned,
    /// The public key is not the one that is trusted.
    AnchorMismatch,
    ZeroPublicKey,
    InvalidPublicKey,
    /// The signature does not have 64 bytes.
    SignatureLength(String),
    InvalidSignature,
    /// The signature is not one of this manifest under this key.
    SignatureRejected,
}

/// A hexadecimal digit.
pub open spec fn is_hex(c: char) -> bool {
    '0' <= c <= '9' || 'a' <= c <= 'f' || 'A' <= c <= 'F'
}

/// The value of a hexadecimal digit.
pub open spec fn hex_value(c: char) -> int {
    if '0' <= c <= '9' {
        c as int - 48
    } else if 'a' <= c <= 'f' {
        c as int - 87
    } else {
        c as int - 55
    }
}

/// `s` is `n` bytes in hexadecimal.
pub open spec fn is_hex_text(s: Seq<char>, n: nat) -> bool {
    s.len() == 2 * n && forall|i: int| 0 <= i < s.len() ==> is_hex(#[trigger] s[i])
}

/// The bytes that a hexadecimal text stands for.
pub open spec fn hex_bytes(s: Seq<char>) -> Seq<u8> {
    Seq::new(s.len() / 2, |i: int| (16 * hex_value(s[2 * i]) + hex_value(s[2 * i + 1])) as u8)
}

/// Bytes in hexadecimal.
pub open spec fn hex_text(b: Seq<u8>) -> Seq<char> {
    Seq::new(
        2 * b.len(),
        |i: int|
            text::digit(
                if i % 2 == 0 {
                    b[i / 2] / 16
                } else {
                    b[i / 2] % 16
                },
            ),
    )
}

fn hex_digit_value(c: char) -> (r: Option<u8>)
    ensures
        match r {
            Some(v) => is_hex(c) && v == hex_value(c) && v < 16,
            None => !is_hex(c),
        },
{
    if '0' <= c && c <= '9' {
        Some((c as u32 - 48) as u8)
    } else if 'a' <= c && c <= 'f' {
        Some((c as u32 - 87) as u8)
    } else if 'A' <= c && c <= 'F' {
        Some((c as u32 - 55) as u8)
    } else {
        None
    }
}

/// What is said of a text that is not `n` bytes in hexadecimal.
pub open spec fn hex_message(label: Seq<char>, n: nat) -> Seq<char> {
    label + " must be exactly "@ + text::ascii(decimal::decimal(2 * n))
        + " hexadecimal characters"@
}

fn not_hex(label: &str, digits: usize) -> (r: String)
    ensures
        r@ == label@ + " must be exactly "@ + text::ascii(decimal::decimal(digits as nat))
            + " hexadecimal characters"@,
{
    let mut m = String::from_str(label);
    m.append(" must be exactly ");
    text::append_decimal(&mut m, digits as u64);
    m.append(" hexadecimal characters");
    m
}

/// Reads `N` bytes written in hexadecimal, with white space around them or
/// not.
pub fn decode_hex<const N: usize>(text: &str, label: &str) -> (r: Result<[u8; N], String>)
    requires
        2 * N <= usize::MAX,
    ensures
        match r {
            Ok(b) => is_hex_text(text::trimmed(text@), N as nat) && b@ == hex_bytes(
                text::trimmed(text@),
            ),
            Err(m) => !is_hex_text(text::trimmed(text@), N as nat) && m@ == hex_message(
                label@,
                N as nat,
            ),
        },
{
    let c = text::chars_of(text);
    let (a, b) = text::trim_range(&c);
    let ghost s = text::trimmed(text@);
    if b - a != 2 * N {
        return Err(not_hex(label, 2 * N));
    }
    let mut out: [u8; N] = [0u8; N];
    let mut i: usize = 0;
    while i < N
        invariant
            i <= N,
            2 * N <= usize::MAX,
            a <= b <= c@.len(),
            s == c@.subrange(a as int, b as int),
            s == text::trimmed(text@),
            s.len() == 2 * N,
            forall|j: int| 0 <= j < 2 * i ==> is_hex(#[trigger] s[j]),
            forall|j: int| 0 <= j < i ==> #[trigger] out@[j] == hex_bytes(s)[j],
        decreases N - i,
    {
        let high = hex_digit_value(c[a + 2 * i]);
        let low = hex_digit_value(c[a + 2 * i + 1]);
        assert(c@[a + 2 * i] == s[2 * i]);
        assert(c@[a + 2 * i + 1] == s[2 * i + 1]);
        match (high, low) {
            (Some(h), Some(l)) => {
                out[i] = 16 * h + l;
            },
            _ => {
                return Err(not_hex(label, 2 * N));
            },
        }
        i += 1;
    }
    assert(out@ =~= hex_bytes(s));
    Ok(out)
}

/// Bytes in hexadecimal.
pub fn encode_hex(data: &[u8]) -> (r: String)
    ensures
        r@ == hex_text(data@),
{
    let mut out = String::new();
    let mut i: usize = 0;
    assert(out@ =~= hex_text(data@.take(0)));
    while i < data.len()
        invariant
            i <= data.len(),
            out@ == hex_text(data@.take(i as int)),
        decreases data.len() - i,
    {
        out.append(text::digit_text(data[i] / 16));
        out.append(text::digit_text(data[i] % 16));
        i += 1;
        assert(out@ =~= hex_text(data@.take(i as int)));
    }
    assert(data@.take(i as int) =~= data@);
    out
}

/// What is said of a file that does not hold `n` bytes.
pub open spec fn length_message(label: Seq<char>, n: nat, got: nat) -> Seq<char> {
    label + " must be exactly "@ + text::ascii(decimal::decimal(n)) + " bytes; got "@ + text::ascii(
        decimal::decimal(got),
    )
}

/// Takes exactly `N` bytes.
pub fn read_exact<const N: usize>(data: &[u8], label: &str) -> (r: Result<[u8; N], String>)
    ensures
        match r {
            Ok(b) => b@ == data@,
            Err(m) => data@.len() != N && m@ == length_message(label@, N as nat, data@.len()),
        },
{
    if data.len() != N {
        let mut m = String::from_str(label);
        m.append(" must be exactly ");
        text::append_decimal(&mut m, N as u64);
        m.append(" bytes; got ");
        text::append_decimal(&mut m, data.len() as u64);
        return Err(m);
    }
    Ok(bytes::to_array(data))
}

/// The hash and the size of an image.
pub fn artifact_hash(data: &[u8]) -> (r: ([u8; 32], u64))
    ensures
        r.0@ == crypto::sha256(data@),
        r.1 == data@.len(),
{
    (crypto::sha256_digest(data), data.len() as u64)
}

/// A bootloader at the start, a partition table and an application.
pub open spec fn is_merged_image(data: Seq<u8>) -> bool {
    &&& data.len() > APP_OFFSET
    &&& data[0] == 0xE9
    &&& data[PARTITION_TABLE_OFFSET as int] == 0xAA
    &&& data[PARTITION_TABLE_OFFSET + 1] == 0x50
    &&& data[APP_OFFSET as int] == 0xE9
}

/// What is wrong with an image, if anything.
pub open spec fn image_message(data: Seq<u8>) -> Option<Seq<char>> {
    if data.len() <= APP_OFFSET {
        Some("artifact is too small to be a merged full-flash image"@)
    } else if data[0] != 0xE9 {
        Some("artifact is missing the ESP32-S3 bootloader image at offset 0x0"@)
    } else if data[PARTITION_TABLE_OFFSET as int] != 0xAA || data[PARTITION_TABLE_OFFSET + 1]
        != 0x50 {
        Some("artifact is missing the ESP partition table at offset 0x8000"@)
    } else if data[APP_OFFSET as int] != 0xE9 {
        Some("artifact is missing the application image at offset 0x10000"@)
    } else {
        None
    }
}

/// What is wrong with an image, if anything.
pub fn merged_image_error(data: &[u8]) -> (r: Option<&'static str>)
    ensures
        match r {
            Some(m) => image_message(data@) == Some(m@),
            None => image_message(data@) is None,
        },
        r is None <==> is_merged_image(data@),
{
    if data.len() <= APP_OFFSET {
        return Some("artifact is too small to be a merged full-flash image");
    }
    if data[0] != 0xE9 {
        return Some("artifact is missing the ESP32-S3 bootloader image at offset 0x0");
    }
    if data[PARTITION_TABLE_OFFSET] != 0xAA || data[PARTITION_TABLE_OFFSET + 1] != 0x50 {
        return Some("artifact is missing the ESP partition table at offset 0x8000");
    }
    if data[APP_OFFSET] != 0xE9 {
        return Some("artifact is missing the application image at offset 0x10000");
    }
    None
}

/// How many fields a manifest has.
pub const FIELDS: usize = 12;

/// The key of field `k`.
pub open spec fn field_key(k: int) -> Seq<char> {
    if k == 0 {
        "format"@
    } else if k == 1 {
        "repository"@
    } else if k == 2 {
        "board"@
    } else if k == 3 {
        "profile"@
    } else if k == 4 {
        "commit"@
    } else if k == 5 {
        "version"@
    } else if k == 6 {
        "artifact"@
    } else if k == 7 {
        "image_layout"@
    } else if k == 8 {
        "flash_size"@
    } else if k == 9 {
        "size"@
    } else if k == 10 {
        "sha256"@
    } else {
        "flash_offset"@
    }
}

/// The value of field `k`, where it is the same in every release.
pub open spec fn fixed_value(k: int) -> Option<Seq<char>> {
    if k == 0 {
        Some(FORMAT@)
    } else if k == 1 {
        Some(REPOSITORY@)
    } else if k == 2 {
        Some(BOARD@)
    } else if k == 3 {
        Some(PROFILE@)
    } else if k == 6 {
        Some(ARTIFACT@)
    } else if k == 7 {
        Some(IMAGE_LAYOUT@)
    } else if k == 8 {
        Some(FLASH_SIZE@)
    } else if k == 11 {
        Some(FLASH_OFFSET@)
    } else {
        None
    }
}

/// A field of a manifest.
pub open spec fn field(key: Seq<char>, value: Seq<char>) -> Seq<char> {
    key.push('=') + value
}

/// The value of field `k` of the manifest of an image.
pub open spec fn field_value(
    k: int,
    commit: Seq<char>,
    version: Seq<char>,
    size: nat,
    hash: Seq<u8>,
) -> Seq<char> {
    if k == 4 {
        commit
    } else if k == 5 {
        version
    } else if k == 9 {
        text::ascii(decimal::decimal(size))
    } else if k == 10 {
        hex_text(hash)
    } else {
        fixed_value(k).unwrap()
    }
}

/// The fields of the manifest of an image.
pub open spec fn manifest_lines(
    commit: Seq<char>,
    version: Seq<char>,
    size: nat,
    hash: Seq<u8>,
) -> Seq<Seq<char>> {
    Seq::new(
        FIELDS as nat,
        |k: int| field(field_key(k), field_value(k, commit, version, size, hash)),
    )
}

/// The manifest of an image.
pub open spec fn manifest_text(
    commit: Seq<char>,
    version: Seq<char>,
    size: nat,
    hash: Seq<u8>,
) -> Seq<char> {
    text::unlines(manifest_lines(commit, version, size, hash))
}

/// Text that can stand for a commit or a version.
pub open spec fn is_name(s: Seq<char>) -> bool {
    s.len() > 0 && text::is_single_line(s)
}

fn is_name_text(s: &str) -> (r: bool)
    ensures
        r == is_name(s@),
{
    let c = text::chars_of(s);
    let mut i: usize = 0;
    while i < c.len()
        invariant
            i <= c.len(),
            c@ == s@,
            forall|j: int| 0 <= j < i ==> #[trigger] c@[j] != '\n',
        decreases c.len() - i,
    {
        if c[i] == '\n' {
            assert(s@[i as int] == '\n');
            return false;
        }
        i += 1;
    }
    c.len() > 0
}

/// The key of field `k`.
fn key_text(k: usize) -> (r: &'static str)
    requires
        k < FIELDS,
    ensures
        r@ == field_key(k as int),
{
    match k {
        0 => "format",
        1 => "repository",
        2 => "board",
        3 => "profile",
        4 => "commit",
        5 => "version",
        6 => "artifact",
        7 => "image_layout",
        8 => "flash_size",
        9 => "size",
        10 => "sha256",
        _ => "flash_offset",
    }
}

/// The value of field `k`, where it is the same in every release.
fn value_text(k: usize) -> (r: Option<&'static str>)
    requires
        k < FIELDS,
    ensures
        match r {
            Some(v) => fixed_value(k as int) == Some(v@),
            None => fixed_value(k as int) is None,
        },
{
    match k {
        0 => Some(FORMAT),
        1 => Some(REPOSITORY),
        2 => Some(BOARD),
        3 => Some(PROFILE),
        6 => Some(ARTIFACT),
        7 => Some(IMAGE_LAYOUT),
        8 => Some(FLASH_SIZE),
        11 => Some(FLASH_OFFSET),
        _ => None,
    }
}

/// The manifest of an image with this size and hash.
pub fn expected_manifest(commit: &str, version: &str, size: u64, hash: &[u8; 32]) -> (r: Result<
    String,
    ReleaseError,
>)
    ensures
        match r {
            Ok(m) => {
                &&& is_name(commit@) && is_name(version@)
                &&& m@ == manifest_text(commit@, version@, size as nat, hash@)
            },
            Err(e) => !(is_name(commit@) && is_name(version@)) && e is NotSingleLine,
        },
{
    if !is_name_text(commit) || !is_name_text(version) {
        return Err(ReleaseError::NotSingleLine);
    }
    let hex = encode_hex(hash.as_slice());
    let mut size_text = String::new();
    text::append_decimal(&mut size_text, size);
    assert(size_text@ =~= text::ascii(decimal::decimal(size as nat)));
    let ghost want = manifest_lines(commit@, version@, size as nat, hash@);
    let mut out = String::new();
    let mut k: usize = 0;
    assert(out@ =~= text::unlines(want.take(0)));
    while k < FIELDS
        invariant
            k <= FIELDS,
            hex@ == hex_text(hash@),
            size_text@ == text::ascii(decimal::decimal(size as nat)),
            want == manifest_lines(commit@, version@, size as nat, hash@),
            out@ == text::unlines(want.take(k as int)),
        decreases FIELDS - k,
    {
        let ghost before = out@;
        let key = key_text(k);
        out.append(key);
        out.append("=");
        let value = if k == 4 {
            commit
        } else if k == 5 {
            version
        } else if k == 9 {
            size_text.as_str()
        } else if k == 10 {
            hex.as_str()
        } else {
            value_text(k).unwrap()
        };
        out.append(value);
        out.append("\n");
        proof {
            reveal_strlit("=");
            reveal_strlit("\n");
            assert(value@ == field_value(k as int, commit@, version@, size as nat, hash@));
            assert(out@ =~= before + want[k as int].push('\n'));
            assert(want.take(k + 1).drop_last() =~= want.take(k as int));
            assert(want.take(k + 1).last() == want[k as int]);
        }
        k += 1;
    }
    assert(want.take(k as int) =~= want);
    Ok(out)
}

/// The first line from `i` on with this key, or the number of lines.
pub open spec fn find_key(ls: Seq<Seq<char>>, key: Seq<char>, i: int) -> int
    decreases ls.len() - i,
{
    if i >= ls.len() {
        ls.len() as int
    } else if text::has_key(ls[i], key) {
        i
    } else {
        find_key(ls, key, i + 1)
    }
}

/// What is wrong with the fixed fields from `k` on: the first line with the
/// key of such a field must hold the field.
pub open spec fn fixed_message(ls: Seq<Seq<char>>, k: int) -> Option<Seq<char>>
    decreases FIELDS - k,
{
    if k >= FIELDS {
        None
    } else if fixed_value(k) is None {
        fixed_message(ls, k + 1)
    } else {
        let key = field_key(k);
        let value = fixed_value(k).unwrap();
        let at = find_key(ls, key, 0);
        if at == ls.len() {
            Some("manifest is missing "@ + key)
        } else if ls[at] != field(key, value) {
            Some("manifest "@ + key + " is not "@ + value)
        } else {
            fixed_message(ls, k + 1)
        }
    }
}

/// What is wrong with the order of the fields from `k` on: line `k` must hold
/// field `k`, and not be empty.
pub open spec fn order_message(ls: Seq<Seq<char>>, k: int) -> Option<Seq<char>>
    decreases FIELDS - k,
{
    if k >= FIELDS {
        None
    } else {
        let key = field_key(k);
        if !text::has_key(ls[k], key) || ls[k].len() == key.len() + 1 {
            Some(
                "manifest field "@ + key + " is missing, empty, duplicated, or out of order"@,
            )
        } else {
            order_message(ls, k + 1)
        }
    }
}

/// What is wrong with the fields of a manifest, if anything.
pub open spec fn identity_message(manifest: Seq<char>) -> Option<Seq<char>> {
    let ls = text::lines(manifest);
    if ls.len() != FIELDS {
        Some("manifest must contain exactly twelve ordered fields"@)
    } else if fixed_message(ls, 0) is Some {
        fixed_message(ls, 0)
    } else {
        order_message(ls, 0)
    }
}

/// The commit that a manifest names.
pub open spec fn commit_of(manifest: Seq<char>) -> Seq<char> {
    text::lines(manifest)[4].skip(7)
}

/// The version that a manifest names.
pub open spec fn version_of(manifest: Seq<char>) -> Seq<char> {
    text::lines(manifest)[5].skip(8)
}

/// `r` says where the lines of `s` are.
pub open spec fn are_ranges(s: Seq<char>, r: Seq<(usize, usize)>) -> bool {
    &&& r.len() == text::lines(s).len()
    &&& forall|i: int|
        #![trigger r[i]]
        0 <= i < r.len() ==> {
            &&& r[i].0 <= r[i].1 <= s.len()
            &&& text::lines(s)[i] == s.subrange(r[i].0 as int, r[i].1 as int)
        }
}

/// Looks for the first line with this key.
fn find_line(s: &Vec<char>, r: &Vec<(usize, usize)>, key: &str) -> (at: usize)
    requires
        are_ranges(s@, r@),
    ensures
        at <= r.len(),
        at == find_key(text::lines(s@), key@, 0),
{
    let mut i: usize = 0;
    while i < r.len()
        invariant
            i <= r.len(),
            are_ranges(s@, r@),
            find_key(text::lines(s@), key@, 0) == find_key(text::lines(s@), key@, i as int),
        decreases r.len() - i,
    {
        if text::starts_with_key(s, r[i].0, r[i].1, key) {
            return i;
        }
        i += 1;
    }
    i
}

/// Checks the fields that are the same in every release.
fn check_fixed(s: &Vec<char>, r: &Vec<(usize, usize)>) -> (m: Option<String>)
    requires
        are_ranges(s@, r@),
    ensures
        match m {
            Some(m) => fixed_message(text::lines(s@), 0) == Some(m@),
            None => fixed_message(text::lines(s@), 0) is None,
        },
{
    let mut k: usize = 0;
    while k < FIELDS
        invariant
            k <= FIELDS,
            are_ranges(s@, r@),
            fixed_message(text::lines(s@), 0) == fixed_message(text::lines(s@), k as int),
        decreases FIELDS - k,
    {
        if let Some(value) = value_text(k) {
            let key = key_text(k);
            let at = find_line(s, r, key);
            if at == r.len() {
                let mut m = String::from_str("manifest is missing ");
                m.append(key);
                return Some(m);
            }
            let mut want = String::from_str(key);
            want.append("=");
            want.append(value);
            proof {
                reveal_strlit("=");
                assert(want@ =~= field(key@, value@));
            }
            if !text::range_is(s, r[at].0, r[at].1, want.as_str()) {
                let mut m = String::from_str("manifest ");
                m.append(key);
                m.append(" is not ");
                m.append(value);
                return Some(m);
            }
        }
        k += 1;
    }
    None
}

/// Checks that every field is where it should be, and not empty.
fn check_order(s: &Vec<char>, r: &Vec<(usize, usize)>) -> (m: Option<String>)
    requires
        are_ranges(s@, r@),
        r@.len() == FIELDS,
    ensures
        match m {
            Some(m) => order_message(text::lines(s@), 0) == Some(m@),
            None => order_message(text::lines(s@), 0) is None,
        },
{
    let mut k: usize = 0;
    while k < FIELDS
        invariant
            k <= FIELDS,
            are_ranges(s@, r@),
            r@.len() == FIELDS,
            order_message(text::lines(s@), 0) == order_message(text::lines(s@), k as int),
        decreases FIELDS - k,
    {
        let key = key_text(k);
        let (from, to) = r[k];
        if !text::starts_with_key(s, from, to, key) || to - from == key.unicode_len() + 1 {
            let mut m = String::from_str("manifest field ");
            m.append(key);
            m.append(" is missing, empty, duplicated, or out of order");
            return Some(m);
        }
        k += 1;
    }
    None
}

/// What the order of the fields says of the first fields.
proof fn lemma_ordered(ls: Seq<Seq<char>>, from: int, k: int)
    requires
        0 <= from <= k < FIELDS,
        order_message(ls, from) is None,
    ensures
        text::has_key(ls[k], field_key(k)),
        ls[k].len() > field_key(k).len() + 1,
    decreases k - from,
{
    if from < k {
        lemma_ordered(ls, from + 1, k);
    }
}

/// The commit and the version of a manifest whose fields are in order.
pub fn parse_identity(manifest: &str) -> (r: Result<(String, String), String>)
    ensures
        match r {
            Ok((commit, version)) => {
                &&& identity_message(manifest@) is None
                &&& commit@ == commit_of(manifest@) && is_name(commit@)
                &&& version@ == version_of(manifest@) && is_name(version@)
            },
            Err(m) => identity_message(manifest@) == Some(m@),
        },
{
    let s = text::chars_of(manifest);
    let r = text::line_ranges(&s);
    if r.len() != FIELDS {
        return Err(String::from_str("manifest must contain exactly twelve ordered fields"));
    }
    if let Some(m) = check_fixed(&s, &r) {
        return Err(m);
    }
    if let Some(m) = check_order(&s, &r) {
        return Err(m);
    }
    let ghost ls = text::lines(manifest@);
    proof {
        reveal_strlit("commit");
        reveal_strlit("version");
        lemma_ordered(ls, 0, 4);
        lemma_ordered(ls, 0, 5);
        text::lemma_lines_are_single(manifest@, 0);
        assert(text::is_single_line(ls[4]));
        assert(text::is_single_line(ls[5]));
    }
    let commit = manifest.substring_char(r[4].0 + 7, r[4].1).to_owned();
    let version = manifest.substring_char(r[5].0 + 8, r[5].1).to_owned();
    assert(commit@ =~= ls[4].skip(7));
    assert(version@ =~= ls[5].skip(8));
    Ok((commit, version))
}

/// Line feeds only, and one at the end.
pub open spec fn is_canonical(s: Seq<char>) -> bool {
    &&& s.len() > 0 && s.last() == '\n'
    &&& forall|i: int| 0 <= i < s.len() ==> #[trigger] s[i] != '\r'
}

fn is_canonical_text(s: &str) -> (r: bool)
    ensures
        r == is_canonical(s@),
{
    let c = text::chars_of(s);
    if c.len() == 0 || c[c.len() - 1] != '\n' {
        return false;
    }
    let mut i: usize = 0;
    while i < c.len()
        invariant
            i <= c.len(),
            c@ == s@,
            forall|j: int| 0 <= j < i ==> #[trigger] c@[j] != '\r',
        decreases c.len() - i,
    {
        if c[i] == '\r' {
            assert(s@[i as int] == '\r');
            return false;
        }
        i += 1;
    }
    true
}

/// `manifest` is the manifest of this image, for the commit and the version
/// that it names.
pub open spec fn describes(manifest: Seq<char>, data: Seq<u8>) -> bool {
    manifest == manifest_text(
        commit_of(manifest),
        version_of(manifest),
        data.len(),
        crypto::sha256(data),
    )
}

/// Checks that a manifest is well formed and describes an image. Returns the
/// hash and the size of the image.
pub fn check_manifest(manifest: &str, data: &[u8]) -> (r: Result<([u8; 32], u64), ReleaseError>)
    ensures
        match r {
            Ok((hash, size)) => {
                &&& is_canonical(manifest@)
                &&& identity_message(manifest@) is None
                &&& describes(manifest@, data@)
                &&& hash@ == crypto::sha256(data@)
                &&& size == data@.len()
            },
            Err(ReleaseError::NotCanonical) => !is_canonical(manifest@),
            Err(ReleaseError::Identity(m)) => is_canonical(manifest@) && identity_message(manifest@)
                == Some(m@),
            Err(ReleaseError::ManifestMismatch) => is_canonical(manifest@) && identity_message(
                manifest@,
            ) is None && !describes(manifest@, data@),
            Err(_) => false,
        },
{
    if !is_canonical_text(manifest) {
        return Err(ReleaseError::NotCanonical);
    }
    let (commit, version) = match parse_identity(manifest) {
        Ok(names) => names,
        Err(m) => {
            return Err(ReleaseError::Identity(m));
        },
    };
    let (hash, size) = artifact_hash(data);
    let want = match expected_manifest(commit.as_str(), version.as_str(), size, &hash) {
        Ok(want) => want,
        Err(e) => {
            return Err(e);
        },
    };
    let have = text::chars_of(manifest);
    let same = text::range_is(&have, 0, have.len(), want.as_str());
    assert(have@.subrange(0, have@.len() as int) =~= manifest@);
    if !same {
        return Err(ReleaseError::ManifestMismatch);
    }
    Ok((hash, size))
}

/// `s` is a public key in hexadecimal.
pub open spec fn is_key_text(s: Seq<char>) -> bool {
    is_hex_text(text::trimmed(s), 32)
}

/// The key that a text in hexadecimal stands for.
pub open spec fn key_bytes(s: Seq<char>) -> Seq<u8> {
    hex_bytes(text::trimmed(s))
}

/// Checks a public key: it is the trusted one, and not all zeros.
pub fn check_public_key(public: &str, trusted: &str) -> (r: Result<[u8; 32], ReleaseError>)
    ensures
        match r {
            Ok(key) => {
                &&& is_key_text(public@) && is_key_text(trusted@)
                &&& key@ == key_bytes(public@)
                &&& key@ == key_bytes(trusted@)
                &&& key@ != bytes::zeros(32)
            },
            Err(ReleaseError::NotHex(m)) => if is_key_text(public@) {
                !is_key_text(trusted@) && m@ == hex_message("compiled release public key"@, 32)
            } else {
                m@ == hex_message("release public key"@, 32)
            },
            Err(ReleaseError::AnchorMismatch) => is_key_text(public@) && is_key_text(trusted@)
                && key_bytes(public@) != key_bytes(trusted@),
            Err(ReleaseError::ZeroPublicKey) => is_key_text(public@) && is_key_text(trusted@)
                && key_bytes(public@) == key_bytes(trusted@) && key_bytes(public@) == bytes::zeros(32),
            Err(_) => false,
        },
{
    let key: [u8; 32] = match decode_hex(public, "release public key") {
        Ok(key) => key,
        Err(m) => {
            return Err(ReleaseError::NotHex(m));
        },
    };
    let anchor: [u8; 32] = match decode_hex(trusted, "compiled release public key") {
        Ok(key) => key,
        Err(m) => {
            return Err(ReleaseError::NotHex(m));
        },
    };
    if !bytes::slice_eq(key.as_slice(), anchor.as_slice()) {
        return Err(ReleaseError::AnchorMismatch);
    }
    let zero: [u8; 32] = [0u8; 32];
    assert(zero@ =~= bytes::zeros(32));
    if bytes::slice_eq(key.as_slice(), zero.as_slice()) {
        return Err(ReleaseError::ZeroPublicKey);
    }
    Ok(key)
}

/// What is signed: the hash of the manifest as UTF-8.
pub open spec fn manifest_digest(manifest: Seq<char>) -> Seq<u8> {
    crypto::sha256(vstd::utf8::encode_utf8(manifest))
}

/// Why a signature is not accepted, if it is not.
pub open spec fn signature_error(manifest: Seq<char>, key: Seq<u8>, signature: Seq<u8>) -> Option<
    ReleaseError,
> {
    if !crypto::is_signature(signature) {
        Some(ReleaseError::InvalidSignature)
    } else if !crypto::is_xonly_key(key) {
        Some(ReleaseError::InvalidPublicKey)
    } else if !crypto::schnorr_accepts(key, manifest_digest(manifest), signature) {
        Some(ReleaseError::SignatureRejected)
    } else {
        None
    }
}

/// Checks the signature of a manifest.
pub fn check_signature(manifest: &str, key: &[u8; 32], signature: &[u8; 64]) -> (r: Result<
    (),
    ReleaseError,
>)
    ensures
        match r {
            Ok(_) => signature_error(manifest@, key@, signature@) is None,
            Err(e) => signature_error(manifest@, key@, signature@) == Some(e),
        },
{
    if !crypto::signature_decodes(signature) {
        return Err(ReleaseError::InvalidSignature);
    }
    if !crypto::xonly_key_decodes(key) {
        return Err(ReleaseError::InvalidPublicKey);
    }
    let digest = crypto::sha256_digest(manifest.as_bytes());
    if !crypto::schnorr_verify(key, digest.as_slice(), signature) {
        return Err(ReleaseError::SignatureRejected);
    }
    Ok(())
}

/// A manifest is well formed and describes an image.
pub open spec fn manifest_ok(manifest: Seq<char>, image: Seq<u8>) -> bool {
    is_canonical(manifest) && identity_message(manifest) is None && describes(manifest, image)
}

/// A public key is the trusted one, and not all zeros.
pub open spec fn key_ok(public: Seq<char>, trusted: Seq<char>) -> bool {
    &&& is_key_text(public) && is_key_text(trusted)
    &&& key_bytes(public) == key_bytes(trusted)
    &&& key_bytes(public) != bytes::zeros(32)
}

/// Checks a release: the image, its manifest, the public key and the
/// signature, in that order. Returns the hash and the size of the image.
pub fn verify_release(
    image: &[u8],
    manifest: &str,
    signature: &[u8],
    public: &str,
    trusted: &str,
) -> (r: Result<([u8; 32], u64), ReleaseError>)
    ensures
        r is Ok <==> {
            &&& image_message(image@) is None
            &&& manifest_ok(manifest@, image@)
            &&& key_ok(public@, trusted@)
            &&& signature@.len() == 64
            &&& signature_error(manifest@, key_bytes(public@), signature@) is None
        },
        match r {
            Ok((hash, size)) => hash@ == crypto::sha256(image@) && size == image@.len(),
            Err(ReleaseError::Image(m)) => image_message(image@) == Some(m@),
            Err(ReleaseError::NotCanonical) => image_message(image@) is None && !is_canonical(
                manifest@,
            ),
            Err(ReleaseError::Identity(m)) => {
                &&& image_message(image@) is None
                &&& is_canonical(manifest@)
                &&& identity_message(manifest@) == Some(m@)
            },
            Err(ReleaseError::ManifestMismatch) => {
                &&& image_message(image@) is None
                &&& is_canonical(manifest@)
                &&& identity_message(manifest@) is None
                &&& !describes(manifest@, image@)
            },
            Err(ReleaseError::NotHex(m)) => {
                &&& image_message(image@) is None
                &&& manifest_ok(manifest@, image@)
                &&& if is_key_text(public@) {
                    !is_key_text(trusted@) && m@ == hex_message("compiled release public key"@, 32)
                } else {
                    m@ == hex_message("release public key"@, 32)
                }
            },
            Err(ReleaseError::AnchorMismatch) => {
                &&& image_message(image@) is None
                &&& manifest_ok(manifest@, image@)
                &&& is_key_text(public@) && is_key_text(trusted@)
                &&& key_bytes(public@) != key_bytes(trusted@)
            },
            Err(ReleaseError::ZeroPublicKey) => {
                &&& image_message(image@) is None
                &&& manifest_ok(manifest@, image@)
                &&& is_key_text(public@) && is_key_text(trusted@)
                &&& key_bytes(public@) == key_bytes(trusted@)
                &&& key_bytes(public@) == bytes::zeros(32)
            },
            Err(ReleaseError::SignatureLength(m)) => {
                &&& image_message(image@) is None
                &&& manifest_ok(manifest@, image@)
                &&& key_ok(public@, trusted@)
                &&& signature@.len() != 64
                &&& m@ == length_message("manifest signature"@, 64, signature@.len())
            },
            Err(e) => {
                &&& image_message(image@) is None
                &&& manifest_ok(manifest@, image@)
                &&& key_ok(public@, trusted@)
                &&& signature@.len() == 64
                &&& signature_error(manifest@, key_bytes(public@), signature@) == Some(e)
            },
        },
{
    if let Some(m) = merged_image_error(image) {
        return Err(ReleaseError::Image(m));
    }
    let (hash, size) = match check_manifest(manifest, image) {
        Ok(found) => found,
        Err(e) => {
            return Err(e);
        },
    };
    let key = match check_public_key(public, trusted) {
        Ok(key) => key,
        Err(e) => {
            return Err(e);
        },
    };
    let signature: [u8; 64] = match read_exact(signature, "manifest signature") {
        Ok(signature) => signature,
        Err(m) => {
            return Err(ReleaseError::SignatureLength(m));
        },
    };
    match check_signature(manifest, &key, &signature) {
        Ok(_) => Ok((hash, size)),
        Err(e) => Err(e),
    }
}

/// Whether a key file denies all access to group and others.
pub fn is_private_mode(mode: u32) -> (r: bool)
    ensures
        r == (mode % 64 == 0),
{
    assert((mode & 0o077 == 0) == (mode % 64 == 0)) by (bit_vector);
    mode & 0o077 == 0
}

/// Checks that a private key is one, and that it belongs to the configured
/// public key.
pub fn check_signing_key(private_key: &[u8; 32], configured: &str) -> (r: Result<(), ReleaseError>)
    ensures
        match r {
            Ok(_) => crypto::is_secret_key(private_key@) && is_key_text(configured@) && key_bytes(
                configured@,
            ) == crypto::xonly_public_key(private_key@),
            Err(ReleaseError::InvalidPrivateKey) => !crypto::is_secret_key(private_key@),
            Err(ReleaseError::NotHex(m)) => crypto::is_secret_key(private_key@) && !is_key_text(
                configured@,
            ) && m@ == hex_message("release public key"@, 32),
            Err(ReleaseError::KeyMismatch) => crypto::is_secret_key(private_key@) && is_key_text(
                configured@,
            ) && key_bytes(configured@) != crypto::xonly_public_key(private_key@),
            Err(_) => false,
        },
{
    let derived = match crypto::schnorr_public_key(private_key) {
        Some(key) => key,
        None => {
            return Err(ReleaseError::InvalidPrivateKey);
        },
    };
    let expected: [u8; 32] = match decode_hex(configured, "release public key") {
        Ok(key) => key,
        Err(m) => {
            return Err(ReleaseError::NotHex(m));
        },
    };
    if !bytes::slice_eq(derived.as_slice(), expected.as_slice()) {
        return Err(ReleaseError::KeyMismatch);
    }
    Ok(())
}

/// Signs a manifest. The signature is accepted under the public key of the
/// private key.
pub fn sign_manifest(manifest: &str, private_key: &[u8; 32]) -> (r: Result<[u8; 64], ReleaseError>)
    ensures
        match r {
            Ok(signature) => {
                &&& crypto::is_secret_key(private_key@)
                &&& crypto::schnorr_signature(
                    private_key@,
                    manifest_digest(manifest@),
                    bytes::zeros(32),
                ) == Some(signature@)
                &&& signature_error(
                    manifest@,
                    crypto::xonly_public_key(private_key@),
                    signature@,
                ) is None
            },
            Err(ReleaseError::InvalidPrivateKey) => !crypto::is_secret_key(private_key@),
            Err(ReleaseError::NotSigned) => crypto::is_secret_key(private_key@)
                && crypto::schnorr_signature(
                private_key@,
                manifest_digest(manifest@),
                bytes::zeros(32),
            ) is None,
            Err(_) => false,
        },
{
    if crypto::schnorr_public_key(private_key).is_none() {
        return Err(ReleaseError::InvalidPrivateKey);
    }
    let digest = crypto::sha256_digest(manifest.as_bytes());
    let aux: [u8; 32] = [0u8; 32];
    assert(aux@ =~= bytes::zeros(32));
    match crypto::schnorr_sign(private_key, digest.as_slice(), &aux) {
        Some(signature) => Ok(signature),
        None => Err(ReleaseError::NotSigned),
    }
}

/// A new private key and its public key.
pub fn new_keypair() -> (r: ([u8; 32], [u8; 32]))
    ensures
        crypto::is_secret_key(r.0@),
        r.1@ == crypto::xonly_public_key(r.0@),
{
    let secret = crypto::random_secret_key();
    let point = crypto::generator_times(&secret);
    let public: [u8; 32] = bytes::to_array(vstd::slice::slice_subrange(point.as_slice(), 1, 33));
    (secret, public)
}

/// Bytes written in hexadecimal read back as they were, with white space
/// around them or not.
pub proof fn law_hex_round_trip(b: Seq<u8>, before: Seq<char>, behind: Seq<char>)
    requires
        forall|i: int| 0 <= i < before.len() ==> text::is_white(#[trigger] before[i]),
        forall|i: int| 0 <= i < behind.len() ==> text::is_white(#[trigger] behind[i]),
    ensures
        is_hex_text(text::trimmed(before + hex_text(b) + behind), b.len()),
        hex_bytes(text::trimmed(before + hex_text(b) + behind)) == b,
{
    let s = hex_text(b);
    assert forall|i: int| 0 <= i < s.len() implies is_hex(#[trigger] s[i]) && !text::is_white(
        s[i],
    ) by {
        let d = if i % 2 == 0 {
            b[i / 2] / 16
        } else {
            b[i / 2] % 16
        };
        assert(d < 16);
        assert(s[i] == text::digit(d));
    }
    text::lemma_trimmed(before, s, behind);
    assert forall|i: int| 0 <= i < b.len() implies #[trigger] hex_bytes(s)[i] == b[i] by {
        assert(s[2 * i] == text::digit(b[i] / 16));
        assert(s[2 * i + 1] == text::digit(b[i] % 16));
        assert(hex_value(text::digit(b[i] / 16)) == b[i] / 16);
        assert(hex_value(text::digit(b[i] % 16)) == b[i] % 16);
    }
    assert(hex_bytes(s) =~= b);
}

/// No character that ends a field or a line.
pub open spec fn is_plain(s: Seq<char>) -> bool {
    forall|i: int|
        0 <= i < s.len() ==> #[trigger] s[i] != '=' && s[i] != '\n' && s[i] != '\r'
}

/// Keys are plain and not empty.
proof fn lemma_key(k: int)
    requires
        0 <= k < FIELDS,
    ensures
        field_key(k).len() > 0,
        is_plain(field_key(k)),
{
    if k == 0 {
        reveal_strlit("format");
        assert(field_key(k) =~= seq!['f', 'o', 'r', 'm', 'a', 't']);
    }
    if k == 1 {
        reveal_strlit("repository");
        assert(field_key(k) =~= seq!['r', 'e', 'p', 'o', 's', 'i', 't', 'o', 'r', 'y']);
    }
    if k == 2 {
        reveal_strlit("board");
        assert(field_key(k) =~= seq!['b', 'o', 'a', 'r', 'd']);
    }
    if k == 3 {
        reveal_strlit("profile");
        assert(field_key(k) =~= seq!['p', 'r', 'o', 'f', 'i', 'l', 'e']);
    }
    if k == 4 {
        reveal_strlit("commit");
        assert(field_key(k) =~= seq!['c', 'o', 'm', 'm', 'i', 't']);
    }
    if k == 5 {
        reveal_strlit("version");
        assert(field_key(k) =~= seq!['v', 'e', 'r', 's', 'i', 'o', 'n']);
    }
    if k == 6 {
        reveal_strlit("artifact");
        assert(field_key(k) =~= seq!['a', 'r', 't', 'i', 'f', 'a', 'c', 't']);
    }
    if k == 7 {
        reveal_strlit("image_layout");
        assert(field_key(k) =~= seq!['i', 'm', 'a', 'g', 'e', '_', 'l', 'a', 'y', 'o', 'u', 't']);
    }
    if k == 8 {
        reveal_strlit("flash_size");
        assert(field_key(k) =~= seq!['f', 'l', 'a', 's', 'h', '_', 's', 'i', 'z', 'e']);
    }
    if k == 9 {
        reveal_strlit("size");
        assert(field_key(k) =~= seq!['s', 'i', 'z', 'e']);
    }
    if k == 10 {
        reveal_strlit("sha256");
        assert(field_key(k) =~= seq!['s', 'h', 'a', '2', '5', '6']);
    }
    if k == 11 {
        reveal_strlit("flash_offset");
        assert(field_key(k) =~= seq!['f', 'l', 'a', 's', 'h', '_', 'o', 'f', 'f', 's', 'e', 't']);
    }
}

/// Fixed values are plain.
proof fn lemma_fixed_value(k: int)
    requires
        0 <= k < FIELDS,
        fixed_value(k) is Some,
    ensures
        fixed_value(k).unwrap().len() > 0,
        is_plain(fixed_value(k).unwrap()),
{
    if k == 0 {
        reveal_strlit("kassigner-release-v1");
        assert(fixed_value(k).unwrap() =~= seq!['k', 'a', 's', 's', 'i', 'g', 'n', 'e', 'r', '-', 'r', 'e', 'l', 'e', 'a', 's', 'e', '-', 'v', '1']);
    }
    if k == 1 {
        reveal_strlit("kas-builder/KasSigner-M5Stack-fork-brt");
        assert(fixed_value(k).unwrap() =~= seq!['k', 'a', 's', '-', 'b', 'u', 'i', 'l', 'd', 'e', 'r', '/', 'K', 'a', 's', 'S', 'i', 'g', 'n', 'e', 'r', '-', 'M', '5', 'S', 't', 'a', 'c', 'k', '-', 'f', 'o', 'r', 'k', '-', 'b', 'r', 't']);
    }
    if k == 2 {
        reveal_strlit("m5stack-cores3");
        assert(fixed_value(k).unwrap() =~= seq!['m', '5', 's', 't', 'a', 'c', 'k', '-', 'c', 'o', 'r', 'e', 's', '3']);
    }
    if k == 3 {
        reveal_strlit("production");
        assert(fixed_value(k).unwrap() =~= seq!['p', 'r', 'o', 'd', 'u', 'c', 't', 'i', 'o', 'n']);
    }
    if k == 6 {
        reveal_strlit("kassigner-m5stack.bin");
        assert(fixed_value(k).unwrap() =~= seq!['k', 'a', 's', 's', 'i', 'g', 'n', 'e', 'r', '-', 'm', '5', 's', 't', 'a', 'c', 'k', '.', 'b', 'i', 'n']);
    }
    if k == 7 {
        reveal_strlit("merged-full-flash");
        assert(fixed_value(k).unwrap() =~= seq!['m', 'e', 'r', 'g', 'e', 'd', '-', 'f', 'u', 'l', 'l', '-', 'f', 'l', 'a', 's', 'h']);
    }
    if k == 8 {
        reveal_strlit("16mb");
        assert(fixed_value(k).unwrap() =~= seq!['1', '6', 'm', 'b']);
    }
    if k == 11 {
        reveal_strlit("0x0");
        assert(fixed_value(k).unwrap() =~= seq!['0', 'x', '0']);
    }
}

/// Keys of different fields differ in their length or in their first
/// character.
proof fn lemma_keys_differ(j: int, k: int)
    requires
        0 <= j < FIELDS,
        0 <= k < FIELDS,
        j != k,
    ensures
        field_key(j).len() != field_key(k).len() || field_key(j)[0] != field_key(k)[0],
{
    reveal_strlit("format");
    reveal_strlit("repository");
    reveal_strlit("board");
    reveal_strlit("profile");
    reveal_strlit("commit");
    reveal_strlit("version");
    reveal_strlit("artifact");
    reveal_strlit("image_layout");
    reveal_strlit("flash_size");
    reveal_strlit("size");
    reveal_strlit("sha256");
    reveal_strlit("flash_offset");
}

/// A line holds the key of its own field and of no other.
proof fn lemma_field_key(j: int, k: int, value: Seq<char>)
    requires
        0 <= j < FIELDS,
        0 <= k < FIELDS,
    ensures
        text::has_key(field(field_key(j), value), field_key(k)) == (j == k),
        field(field_key(j), value).skip(field_key(j).len() as int + 1) == value,
{
    let a = field_key(j);
    let b = field_key(k);
    let line = field(a, value);
    lemma_key(j);
    lemma_key(k);
    assert(line[a.len() as int] == '=');
    assert(line.take(a.len() as int) =~= a);
    assert(line.skip(a.len() as int + 1) =~= value);
    if j != k {
        lemma_keys_differ(j, k);
        if text::has_key(line, b) {
            assert(b[0] == line.take(b.len() as int)[0]);
            assert(a[0] == line[0]);
            if b.len() < a.len() {
                assert(line[b.len() as int] == a[b.len() as int]);
            } else if a.len() < b.len() {
                assert(b[a.len() as int] == line.take(b.len() as int)[a.len() as int]);
            }
            assert(false);
        }
    }
}

/// Numbers and bytes are written with plain characters.
proof fn lemma_digits_plain(size: nat, hash: Seq<u8>)
    ensures
        is_plain(text::ascii(decimal::decimal(size))),
        text::ascii(decimal::decimal(size)).len() > 0,
        is_plain(hex_text(hash)),
{
    decimal::lemma_decimal_value(size);
    let d = decimal::decimal(size);
    assert forall|i: int| 0 <= i < d.len() implies {
        let c = #[trigger] text::ascii(d)[i];
        c != '=' && c != '\n' && c != '\r'
    } by {
        assert(48 <= d[i] <= 57);
    }
    assert forall|i: int| 0 <= i < hex_text(hash).len() implies {
        let c = #[trigger] hex_text(hash)[i];
        c != '=' && c != '\n' && c != '\r'
    } by {
        let v = if i % 2 == 0 {
            hash[i / 2] / 16
        } else {
            hash[i / 2] % 16
        };
        assert(hex_text(hash)[i] == text::digit(v));
        assert(v < 16);
    }
}

/// Every field of a manifest is a single line; one that does not end in the
/// commit or the version has no carriage return either.
proof fn lemma_manifest_line(
    k: int,
    commit: Seq<char>,
    version: Seq<char>,
    size: nat,
    hash: Seq<u8>,
)
    requires
        0 <= k < FIELDS,
        is_name(commit),
        is_name(version),
    ensures
        text::is_single_line(manifest_lines(commit, version, size, hash)[k]),
        k != 4 && k != 5 ==> forall|i: int|
            0 <= i < manifest_lines(commit, version, size, hash)[k].len()
                ==> #[trigger] manifest_lines(commit, version, size, hash)[k][i] != '\r',
        k == 4 || k == 5 ==> forall|i: int|
            0 <= i <= field_key(k).len() ==> #[trigger] manifest_lines(
                commit,
                version,
                size,
                hash,
            )[k][i] != '\r',
        k != 10 ==> field_value(k, commit, version, size, hash).len() > 0,
{
    let line = manifest_lines(commit, version, size, hash)[k];
    let key = field_key(k);
    let value = field_value(k, commit, version, size, hash);
    lemma_key(k);
    lemma_digits_plain(size, hash);
    if fixed_value(k) is Some {
        lemma_fixed_value(k);
    }
    assert(line == field(key, value));
    assert forall|i: int| 0 <= i < line.len() implies #[trigger] line[i] != '\n' by {
        if i < key.len() {
            assert(line[i] == key[i]);
        } else if i > key.len() {
            assert(line[i] == value[i - key.len() - 1]);
        }
    }
    assert forall|i: int|
        0 <= i < line.len() && (i <= key.len() || (k != 4 && k
            != 5)) implies #[trigger] line[i] != '\r' by {
        if i < key.len() {
            assert(line[i] == key[i]);
        } else if i > key.len() {
            assert(line[i] == value[i - key.len() - 1]);
        }
    }
}

/// The only line with a key is that of its field.
proof fn lemma_find_field(
    ls: Seq<Seq<char>>,
    k: int,
    i: int,
    commit: Seq<char>,
    version: Seq<char>,
    size: nat,
    hash: Seq<u8>,
)
    requires
        0 <= i <= k < FIELDS,
        ls == manifest_lines(commit, version, size, hash),
    ensures
        find_key(ls, field_key(k), i) == k,
    decreases k - i,
{
    lemma_field_key(i, k, field_value(i, commit, version, size, hash));
    if i < k {
        lemma_find_field(ls, k, i + 1, commit, version, size, hash);
    }
}

proof fn lemma_fixed_fields(
    ls: Seq<Seq<char>>,
    k: int,
    commit: Seq<char>,
    version: Seq<char>,
    size: nat,
    hash: Seq<u8>,
)
    requires
        0 <= k <= FIELDS,
        ls == manifest_lines(commit, version, size, hash),
    ensures
        fixed_message(ls, k) is None,
    decreases FIELDS - k,
{
    if k < FIELDS {
        lemma_fixed_fields(ls, k + 1, commit, version, size, hash);
        lemma_find_field(ls, k, 0, commit, version, size, hash);
    }
}

proof fn lemma_field_order(
    ls: Seq<Seq<char>>,
    k: int,
    commit: Seq<char>,
    version: Seq<char>,
    size: nat,
    hash: Seq<u8>,
)
    requires
        0 <= k <= FIELDS,
        is_name(commit),
        is_name(version),
        hash.len() > 0,
        ls == manifest_lines(commit, version, size, hash),
    ensures
        order_message(ls, k) is None,
    decreases FIELDS - k,
{
    if k < FIELDS {
        lemma_field_order(ls, k + 1, commit, version, size, hash);
        lemma_field_key(k, k, field_value(k, commit, version, size, hash));
        lemma_manifest_line(k, commit, version, size, hash);
    }
}

/// A manifest names the commit and the version that it was made for. (A line
/// drops a carriage return at its end, so names must not end in one.)
pub proof fn law_manifest_names_its_release(
    commit: Seq<char>,
    version: Seq<char>,
    size: nat,
    hash: Seq<u8>,
)
    requires
        is_name(commit) && commit.last() != '\r',
        is_name(version) && version.last() != '\r',
        hash.len() == 32,
    ensures
        identity_message(manifest_text(commit, version, size, hash)) is None,
        commit_of(manifest_text(commit, version, size, hash)) == commit,
        version_of(manifest_text(commit, version, size, hash)) == version,
{
    let ls = manifest_lines(commit, version, size, hash);
    assert forall|k: int| 0 <= k < ls.len() implies text::is_line(#[trigger] ls[k]) by {
        lemma_manifest_line(k, commit, version, size, hash);
        if k == 4 {
            assert(ls[k].last() == commit.last());
        } else if k == 5 {
            assert(ls[k].last() == version.last());
        }
    }
    text::lemma_lines_of_unlines(ls);
    lemma_fixed_fields(ls, 0, commit, version, size, hash);
    lemma_field_order(ls, 0, commit, version, size, hash);
    lemma_field_key(4, 4, commit);
    lemma_field_key(5, 5, version);
    reveal_strlit("commit");
    reveal_strlit("version");
}

/// No two releases have the same manifest: it binds the commit, the version,
/// the size and the hash.
pub proof fn law_manifest_binds_release(
    c1: Seq<char>,
    v1: Seq<char>,
    s1: nat,
    h1: Seq<u8>,
    c2: Seq<char>,
    v2: Seq<char>,
    s2: nat,
    h2: Seq<u8>,
)
    requires
        is_name(c1) && is_name(v1),
        is_name(c2) && is_name(v2),
        manifest_text(c1, v1, s1, h1) == manifest_text(c2, v2, s2, h2),
    ensures
        c1 == c2,
        v1 == v2,
        s1 == s2,
        h1 == h2,
{
    let a = manifest_lines(c1, v1, s1, h1);
    let b = manifest_lines(c2, v2, s2, h2);
    assert forall|k: int| 0 <= k < a.len() implies text::is_single_line(#[trigger] a[k]) by {
        lemma_manifest_line(k, c1, v1, s1, h1);
    }
    assert forall|k: int| 0 <= k < b.len() implies text::is_single_line(#[trigger] b[k]) by {
        lemma_manifest_line(k, c2, v2, s2, h2);
    }
    text::lemma_unlines_injective(a, b);
    lemma_same_value(4, c1, v1, s1, h1, c2, v2, s2, h2);
    lemma_same_value(5, c1, v1, s1, h1, c2, v2, s2, h2);
    lemma_same_value(9, c1, v1, s1, h1, c2, v2, s2, h2);
    lemma_same_value(10, c1, v1, s1, h1, c2, v2, s2, h2);
    decimal::lemma_decimal_value(s1);
    decimal::lemma_decimal_value(s2);
    let d1 = decimal::decimal(s1);
    let d2 = decimal::decimal(s2);
    assert(text::ascii(d1).len() == text::ascii(d2).len());
    assert forall|i: int| 0 <= i < d1.len() implies d1[i] == d2[i] by {
        assert(text::ascii(d1)[i] == text::ascii(d2)[i]);
    }
    assert(d1 =~= d2);
    let e = Seq::<char>::empty();
    law_hex_round_trip(h1, e, e);
    law_hex_round_trip(h2, e, e);
}

proof fn lemma_same_value(
    k: int,
    c1: Seq<char>,
    v1: Seq<char>,
    s1: nat,
    h1: Seq<u8>,
    c2: Seq<char>,
    v2: Seq<char>,
    s2: nat,
    h2: Seq<u8>,
)
    requires
        0 <= k < FIELDS,
        manifest_lines(c1, v1, s1, h1) == manifest_lines(c2, v2, s2, h2),
    ensures
        field_value(k, c1, v1, s1, h1) == field_value(k, c2, v2, s2, h2),
{
    lemma_field_key(k, k, field_value(k, c1, v1, s1, h1));
    lemma_field_key(k, k, field_value(k, c2, v2, s2, h2));
    assert(manifest_lines(c1, v1, s1, h1)[k] == field(
        field_key(k),
        field_value(k, c1, v1, s1, h1),
    ));
    assert(manifest_lines(c2, v2, s2, h2)[k] == field(
        field_key(k),
        field_value(k, c2, v2, s2, h2),
    ));
}

/// The manifest made for an image is accepted for that image. (One whose
/// commit or version has a carriage return is not canonical.)
pub proof fn law_made_manifest_is_accepted(
    commit: Seq<char>,
    version: Seq<char>,
    data: Seq<u8>,
    hash: Seq<u8>,
)
    requires
        is_name(commit) && (forall|i: int| 0 <= i < commit.len() ==> #[trigger] commit[i] != '\r'),
        is_name(version) && (forall|i: int|
            0 <= i < version.len() ==> #[trigger] version[i] != '\r'),
        hash == crypto::sha256(data),
        hash.len() == 32,
    ensures
        is_canonical(manifest_text(commit, version, data.len(), hash)),
        identity_message(manifest_text(commit, version, data.len(), hash)) is None,
        describes(manifest_text(commit, version, data.len(), hash), data),
{
    law_manifest_names_its_release(commit, version, data.len(), hash);
    let ls = manifest_lines(commit, version, data.len(), hash);
    assert forall|k: int, i: int|
        0 <= k < ls.len() && 0 <= i < ls[k].len() implies #[trigger] ls[k][i] != '\r' by {
        lemma_manifest_line(k, commit, version, data.len(), hash);
        if (k == 4 || k == 5) && i > field_key(k).len() {
            let value = field_value(k, commit, version, data.len(), hash);
            assert(ls[k][i] == value[i - field_key(k).len() - 1]);
        }
    }
    text::lemma_unlines_without(ls, '\r');
}

/// A release that is made is verified: with its manifest, a signature that is
/// accepted for it, and the public key as it is written to a file, on a line
/// of its own. (The key of all zeros is never accepted.)
pub proof fn law_made_release_is_verified(
    commit: Seq<char>,
    version: Seq<char>,
    image: Seq<u8>,
    hash: Seq<u8>,
    key: Seq<u8>,
    signature: Seq<u8>,
)
    requires
        image_message(image) is None,
        is_name(commit) && (forall|i: int| 0 <= i < commit.len() ==> #[trigger] commit[i] != '\r'),
        is_name(version) && (forall|i: int|
            0 <= i < version.len() ==> #[trigger] version[i] != '\r'),
        hash == crypto::sha256(image),
        hash.len() == 32,
        key.len() == 32,
        key != bytes::zeros(32),
        signature_error(
            manifest_text(commit, version, image.len(), hash),
            key,
            signature,
        ) is None,
    ensures
        ({
            let manifest = manifest_text(commit, version, image.len(), hash);
            let file = hex_text(key).push('\n');
            &&& manifest_ok(manifest, image)
            &&& key_ok(file, file)
            &&& signature_error(manifest, key_bytes(file), signature) is None
        }),
{
    law_made_manifest_is_accepted(commit, version, image, hash);
    law_hex_round_trip(key, Seq::empty(), seq!['\n']);
    assert(Seq::<char>::empty() + hex_text(key) + seq!['\n'] =~= hex_text(key).push('\n'));
}

/// A hexadecimal digit by its code, in either case, and what it stands for.
pub open spec fn nibble(code: int) -> Option<int> {
    if 0x30 <= code <= 0x39 {
        Some(code - 0x30)
    } else if 0x41 <= code <= 0x46 {
        Some(code - 0x41 + 10)
    } else if 0x61 <= code <= 0x66 {
        Some(code - 0x61 + 10)
    } else {
        None
    }
}

/// A text is `n` bytes in hexadecimal exactly where it has `2 * n` digits of
/// either case. Byte `i` has its high half at `2 * i` and its low half behind
/// it. Bytes are written so, in lower case.
pub proof fn law_hex_has_two_digits_for_each_byte(s: Seq<char>, n: nat, b: Seq<u8>)
    ensures
        is_hex_text(s, n) <==> s.len() == 2 * n && forall|i: int|
            0 <= i < 2 * n ==> nibble(#[trigger] s[i] as int) is Some,
        is_hex_text(s, n) ==> hex_bytes(s).len() == n && forall|i: int|
            0 <= i < n ==> #[trigger] hex_bytes(s)[i] == 16 * nibble(s[2 * i] as int).unwrap()
                + nibble(s[2 * i + 1] as int).unwrap(),
        hex_text(b).len() == 2 * b.len(),
        forall|i: int|
            #![trigger b[i]]
            0 <= i < b.len() ==> {
                &&& nibble(hex_text(b)[2 * i] as int) == Some(b[i] as int / 16)
                &&& nibble(hex_text(b)[2 * i + 1] as int) == Some(b[i] as int % 16)
            },
        forall|i: int| 0 <= i < 2 * b.len() ==> !('A' <= #[trigger] hex_text(b)[i] <= 'F'),
{
    assert forall|i: int| is_hex_text(s, n) && 0 <= i < n implies #[trigger] hex_bytes(s)[i] == 16
        * nibble(s[2 * i] as int).unwrap() + nibble(s[2 * i + 1] as int).unwrap() by {
        assert(is_hex(s[2 * i]) && is_hex(s[2 * i + 1]));
    }
    if s.len() == 2 * n && forall|i: int| 0 <= i < 2 * n ==> nibble(#[trigger] s[i] as int) is Some {
        assert forall|i: int| 0 <= i < s.len() implies is_hex(#[trigger] s[i]) by {
            assert(nibble(s[i] as int) is Some);
        }
    }
    assert forall|i: int|
        #![trigger b[i]]
        0 <= i < b.len() implies {
        &&& nibble(hex_text(b)[2 * i] as int) == Some(b[i] as int / 16)
        &&& nibble(hex_text(b)[2 * i + 1] as int) == Some(b[i] as int % 16)
    } by {
        assert(hex_text(b)[2 * i] == text::digit(b[i] / 16));
        assert(hex_text(b)[2 * i + 1] == text::digit(b[i] % 16));
    }
    assert forall|i: int| 0 <= i < 2 * b.len() implies !('A' <= #[trigger] hex_text(b)[i] <= 'F') by {
        assert(b[i / 2] / 16 < 16 && b[i / 2] % 16 < 16);
    }
}

/// An image is accepted exactly where it has more than 65536 bytes, with a
/// bootloader at 0, a partition table at 0x8000 and an application at 0x10000.
pub proof fn law_merged_image(data: Seq<u8>)
    ensures
        image_message(data) is None <==> data.len() > 65536 && data[0] == 0xE9 && data[0x8000]
            == 0xAA && data[0x8001] == 0x50 && data[0x10000] == 0xE9,
{
}

/// A signature is accepted exactly where it is one, the key is a public key,
/// and it is a signature under that key of the SHA-256 hash of the manifest.
pub proof fn law_signature_is_of_the_manifest(
    manifest: Seq<char>,
    key: Seq<u8>,
    signature: Seq<u8>,
)
    ensures
        signature_error(manifest, key, signature) is None <==> {
            &&& crypto::is_signature(signature)
            &&& crypto::is_xonly_key(key)
            &&& crypto::schnorr_accepts(
                key,
                crypto::sha256(vstd::utf8::encode_utf8(manifest)),
                signature,
            )
        },
{
}

/// A public key is accepted exactly where it and the trusted one are the same
/// 32 bytes in hexadecimal, not all of them zero.
pub proof fn law_key_is_the_trusted_one(public: Seq<char>, trusted: Seq<char>)
    ensures
        key_ok(public, trusted) <==> {
            let (p, t) = (text::trimmed(public), text::trimmed(trusted));
            &&& is_hex_text(p, 32) && is_hex_text(t, 32)
            &&& forall|i: int| 0 <= i < 32 ==> #[trigger] hex_bytes(p)[i] == hex_bytes(t)[i]
            &&& exists|i: int| 0 <= i < 32 && #[trigger] hex_bytes(p)[i] != 0
        },
{
    let (p, t) = (hex_bytes(text::trimmed(public)), hex_bytes(text::trimmed(trusted)));
    if is_key_text(public) && is_key_text(trusted) {
        if forall|i: int| 0 <= i < 32 ==> #[trigger] p[i] == t[i] {
            assert(p =~= t);
        }
        if p != bytes::zeros(32) {
            if forall|i: int| 0 <= i < 32 ==> #[trigger] p[i] == 0 {
                assert(p =~= bytes::zeros(32));
            }
        } else {
            assert forall|i: int| 0 <= i < 32 implies #[trigger] p[i] == 0 by {
                assert(p[i] == bytes::zeros(32)[i]);
            }
        }
    }
}

/// The twelve lines of a manifest.
pub open spec fn twelve_lines(
    commit: Seq<char>,
    version: Seq<char>,
    size: Seq<char>,
    hash: Seq<char>,
) -> Seq<Seq<char>> {
    seq![
        "format=kassigner-release-v1"@,
        "repository=kas-builder/KasSigner-M5Stack-fork-brt"@,
        "board=m5stack-cores3"@,
        "profile=production"@,
        "commit="@ + commit,
        "version="@ + version,
        "artifact=kassigner-m5stack.bin"@,
        "image_layout=merged-full-flash"@,
        "flash_size=16mb"@,
        "size="@ + size,
        "sha256="@ + hash,
        "flash_offset=0x0"@,
    ]
}

/// Each of the twelve lines is a key, an equals sign and a value.
proof fn lemma_twelve_lines(
    commit: Seq<char>,
    version: Seq<char>,
    size: Seq<char>,
    hash: Seq<char>,
    k: int,
)
    requires
        0 <= k < FIELDS,
    ensures
        twelve_lines(commit, version, size, hash)[k] == field(
            field_key(k),
            if k == 4 {
                commit
            } else if k == 5 {
                version
            } else if k == 9 {
                size
            } else if k == 10 {
                hash
            } else {
                fixed_value(k).unwrap()
            },
        ),
{
    assert("format"@.push('=') + "kassigner-release-v1"@ =~= "format=kassigner-release-v1"@) by {
        reveal_strlit("format");
        reveal_strlit("kassigner-release-v1");
        reveal_strlit("format=kassigner-release-v1");
    }
    assert("repository"@.push('=') + "kas-builder/KasSigner-M5Stack-fork-brt"@ =~= "repository=kas-builder/KasSigner-M5Stack-fork-brt"@) by {
        reveal_strlit("repository");
        reveal_strlit("kas-builder/KasSigner-M5Stack-fork-brt");
        reveal_strlit("repository=kas-builder/KasSigner-M5Stack-fork-brt");
    }
    assert("board"@.push('=') + "m5stack-cores3"@ =~= "board=m5stack-cores3"@) by {
        reveal_strlit("board");
        reveal_strlit("m5stack-cores3");
        reveal_strlit("board=m5stack-cores3");
    }
    assert("profile"@.push('=') + "production"@ =~= "profile=production"@) by {
        reveal_strlit("profile");
        reveal_strlit("production");
        reveal_strlit("profile=production");
    }
    assert("artifact"@.push('=') + "kassigner-m5stack.bin"@ =~= "artifact=kassigner-m5stack.bin"@) by {
        reveal_strlit("artifact");
        reveal_strlit("kassigner-m5stack.bin");
        reveal_strlit("artifact=kassigner-m5stack.bin");
    }
    assert("image_layout"@.push('=') + "merged-full-flash"@ =~= "image_layout=merged-full-flash"@) by {
        reveal_strlit("image_layout");
        reveal_strlit("merged-full-flash");
        reveal_strlit("image_layout=merged-full-flash");
    }
    assert("flash_size"@.push('=') + "16mb"@ =~= "flash_size=16mb"@) by {
        reveal_strlit("flash_size");
        reveal_strlit("16mb");
        reveal_strlit("flash_size=16mb");
    }
    assert("flash_offset"@.push('=') + "0x0"@ =~= "flash_offset=0x0"@) by {
        reveal_strlit("flash_offset");
        reveal_strlit("0x0");
        reveal_strlit("flash_offset=0x0");
    }
    assert("commit"@.push('=') =~= "commit="@) by {
        reveal_strlit("commit");
        reveal_strlit("commit=");
    }
    assert("version"@.push('=') =~= "version="@) by {
        reveal_strlit("version");
        reveal_strlit("version=");
    }
    assert("size"@.push('=') =~= "size="@) by {
        reveal_strlit("size");
        reveal_strlit("size=");
    }
    assert("sha256"@.push('=') =~= "sha256="@) by {
        reveal_strlit("sha256");
        reveal_strlit("sha256=");
    }
}

/// The lines of a manifest, word for word.
pub proof fn law_manifest_has_twelve_lines(
    commit: Seq<char>,
    version: Seq<char>,
    size: nat,
    hash: Seq<u8>,
)
    ensures
        manifest_lines(commit, version, size, hash) == twelve_lines(
            commit,
            version,
            text::ascii(decimal::decimal(size)),
            hex_text(hash),
        ),
        manifest_text(commit, version, size, hash) == text::unlines(
            twelve_lines(
                commit,
                version,
                text::ascii(decimal::decimal(size)),
                hex_text(hash),
            ),
        ),
{
    let (n, h) = (text::ascii(decimal::decimal(size)), hex_text(hash));
    let a = manifest_lines(commit, version, size, hash);
    let b = twelve_lines(commit, version, n, h);
    assert forall|k: int| 0 <= k < 12 implies a[k] == b[k] by {
        assert(a[k] == field(field_key(k), field_value(k, commit, version, size, hash)));
        lemma_twelve_lines(commit, version, n, h, k);
    }
    assert(a =~= b);
}

proof fn lemma_find(ls: Seq<Seq<char>>, values: Seq<Seq<char>>, k: int, i: int)
    requires
        0 <= i <= k < FIELDS == ls.len(),
        forall|j: int| 0 <= j < FIELDS ==> #[trigger] ls[j] == field(field_key(j), values[j]),
    ensures
        find_key(ls, field_key(k), i) == k,
    decreases k - i,
{
    lemma_field_key(i, k, values[i]);
    assert(ls[i] == field(field_key(i), values[i]));
    if i < k {
        lemma_find(ls, values, k, i + 1);
    }
}

proof fn lemma_fixed(ls: Seq<Seq<char>>, values: Seq<Seq<char>>, from: int)
    requires
        0 <= from <= FIELDS == ls.len(),
        forall|j: int| 0 <= j < FIELDS ==> #[trigger] ls[j] == field(field_key(j), values[j]),
    ensures
        fixed_message(ls, from) is None <==> forall|k: int|
            from <= k < FIELDS && fixed_value(k) is Some ==> #[trigger] ls[k] == field(
                field_key(k),
                fixed_value(k).unwrap(),
            ),
    decreases FIELDS - from,
{
    if from < FIELDS {
        lemma_fixed(ls, values, from + 1);
        lemma_find(ls, values, from, 0);
        if fixed_message(ls, from) is Some && fixed_message(ls, from + 1) is None {
            assert(ls[from] != field(field_key(from), fixed_value(from).unwrap()));
        }
    }
}

proof fn lemma_order(ls: Seq<Seq<char>>, values: Seq<Seq<char>>, from: int)
    requires
        0 <= from <= FIELDS == ls.len(),
        forall|j: int| 0 <= j < FIELDS ==> #[trigger] ls[j] == field(field_key(j), values[j]),
        forall|j: int| 0 <= j < FIELDS ==> (#[trigger] values[j]).len() > 0,
    ensures
        order_message(ls, from) is None,
    decreases FIELDS - from,
{
    if from < FIELDS {
        lemma_order(ls, values, from + 1);
        lemma_field_key(from, from, values[from]);
        assert(ls[from] == field(field_key(from), values[from]));
        assert(values[from].len() > 0);
    }
}

/// The fields of a manifest are accepted exactly where its lines are, word for
/// word and in this order, the twelve lines for some commit, version, size and
/// hash, none of them empty. Commit and version are those.
pub proof fn law_identity_is_twelve_ordered_lines(manifest: Seq<char>)
    ensures
        identity_message(manifest) is None <==> exists|
            commit: Seq<char>,
            version: Seq<char>,
            size: Seq<char>,
            hash: Seq<char>,
        |
            {
                &&& text::lines(manifest) == #[trigger] twelve_lines(commit, version, size, hash)
                &&& commit.len() > 0 && version.len() > 0 && size.len() > 0 && hash.len() > 0
                &&& commit_of(manifest) == commit && version_of(manifest) == version
            },
{
    let ls = text::lines(manifest);
    if identity_message(manifest) is None {
        let values = Seq::new(12, |k: int| ls[k].skip(field_key(k).len() as int + 1));
        assert forall|k: int| 0 <= k < FIELDS implies #[trigger] ls[k] == field(
            field_key(k),
            values[k],
        ) && values[k].len() > 0 by {
            lemma_ordered(ls, 0, k);
            assert(ls[k] =~= ls[k].take(field_key(k).len() as int).push('=') + values[k]);
        }
        lemma_fixed(ls, values, 0);
        let want = twelve_lines(values[4], values[5], values[9], values[10]);
        assert forall|k: int| 0 <= k < 12 implies ls[k] == want[k] by {
            lemma_twelve_lines(values[4], values[5], values[9], values[10], k);
            assert(ls[k] == field(field_key(k), values[k]));
        }
        assert(ls =~= want);
        assert(ls[4].len() > 0 && ls[5].len() > 0 && ls[9].len() > 0 && ls[10].len() > 0);
        reveal_strlit("commit");
        reveal_strlit("version");
        assert(commit_of(manifest) == values[4] && version_of(manifest) == values[5]);
    }
    if exists|commit: Seq<char>, version: Seq<char>, size: Seq<char>, hash: Seq<char>|
        {
            &&& text::lines(manifest) == #[trigger] twelve_lines(commit, version, size, hash)
            &&& commit.len() > 0 && version.len() > 0 && size.len() > 0 && hash.len() > 0
            &&& commit_of(manifest) == commit && version_of(manifest) == version
        } {
        let (commit, version, size, hash) = choose|
            commit: Seq<char>,
            version: Seq<char>,
            size: Seq<char>,
            hash: Seq<char>,
        |
            {
                &&& text::lines(manifest) == #[trigger] twelve_lines(commit, version, size, hash)
                &&& commit.len() > 0 && version.len() > 0 && size.len() > 0 && hash.len() > 0
                &&& commit_of(manifest) == commit && version_of(manifest) == version
            };
        let values = Seq::new(
            12,
            |k: int|
                if k == 4 {
                    commit
                } else if k == 5 {
                    version
                } else if k == 9 {
                    size
                } else if k == 10 {
                    hash
                } else {
                    fixed_value(k).unwrap()
                },
        );
        assert forall|k: int| 0 <= k < FIELDS implies #[trigger] ls[k] == field(
            field_key(k),
            values[k],
        ) by {
            lemma_twelve_lines(commit, version, size, hash, k);
        }
        assert forall|k: int| 0 <= k < FIELDS implies (#[trigger] values[k]).len() > 0 by {
            if fixed_value(k) is Some {
                lemma_fixed_value(k);
            }
        }
        lemma_fixed(ls, values, 0);
        lemma_order(ls, values, 0);
    }
}

/// An accepted manifest is, for some commit and some version that are not
/// empty and have no line feed, word for word the manifest with the size and
/// the hash of the image. It has no carriage return.
pub proof fn law_accepted_manifest_is_that_of_the_image(manifest: Seq<char>, image: Seq<u8>)
    requires
        manifest_ok(manifest, image),
    ensures
        forall|i: int| 0 <= i < manifest.len() ==> #[trigger] manifest[i] != '\r',
        exists|commit: Seq<char>, version: Seq<char>|
            {
                &&& commit.len() > 0 && version.len() > 0
                &&& !commit.contains('\n') && !version.contains('\n')
                &&& manifest == text::unlines(
                    #[trigger] twelve_lines(
                        commit,
                        version,
                        text::ascii(decimal::decimal(image.len())),
                        hex_text(crypto::sha256(image)),
                    ),
                )
            },
{
    let (commit, version) = (commit_of(manifest), version_of(manifest));
    let ls = text::lines(manifest);
    reveal_strlit("commit");
    reveal_strlit("version");
    lemma_ordered(ls, 0, 4);
    lemma_ordered(ls, 0, 5);
    text::lemma_lines_are_single(manifest, 0);
    assert(text::is_single_line(ls[4]) && text::is_single_line(ls[5]));
    assert forall|i: int| 0 <= i < commit.len() implies #[trigger] commit[i] != '\n' by {
        assert(commit[i] == ls[4][i + 7]);
    }
    assert forall|i: int| 0 <= i < version.len() implies #[trigger] version[i] != '\n' by {
        assert(version[i] == ls[5][i + 8]);
    }
    law_manifest_has_twelve_lines(commit, version, image.len(), crypto::sha256(image));
}

/// A text made of lines is these lines, in their order, with a line feed
/// behind each.
pub proof fn law_lines_are_joined(ls: Seq<Seq<char>>, last: Seq<char>)
    ensures
        text::unlines(Seq::empty()) == Seq::<char>::empty(),
        text::unlines(ls.push(last)) == text::unlines(ls) + last.push('\n'),
{
    assert(ls.push(last).drop_last() =~= ls);
}

} // verus!
