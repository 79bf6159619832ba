//! Sidecar stamp of an exported AlphaZero model: the fields must match the
//! frozen tensor contract (5×5 pad, channels, plane, policy length, features
//! version), the build's source stamp and the SHA-256 of the model bytes.
use vstd::prelude::*;

use sha2::{Digest, Sha256};
use vstd::string::StrSliceExecFns;

use crate::cli::str_equals;
use crate::features::{
    AZ_CHANNELS, AZ_FEATURES_VERSION, AZ_HUD_COLS, AZ_HUD_ROWS, AZ_PLANE, AZ_POLICY,
};

verus! {

/// Sidecar schema identifier.
pub const SCHEMA: &'static str = "dab-az-model/1";

/// Fields of a model sidecar. `board_rows` / `board_cols` are the pad size
/// (5×5), not the live game.
#[derive(Debug, Clone, PartialEq)]
pub struct Sidecar {
    pub schema: String,
    pub name: String,
    pub board_rows: u8,
    pub board_cols: u8,
    pub channels: usize,
    pub plane: usize,
    pub policy_length: usize,
    pub features_version: u32,
    pub source_stamp: String,
    pub onnx_sha256: String,
}

/// Why a sidecar was rejected.
#[derive(Clone, Copy, Debug, PartialEq, Eq, Structural)]
pub enum StampError {
    Json,
    Schema,
    Name,
    PadSize,
    Shape,
    FeaturesVersion,
    SourceStamp,
    Sha256,
}

impl StampError {
    /// Human-readable reason.
    pub fn as_str(self) -> (r: &'static str)
        ensures
            r@ == match self {
                StampError::Json => "invalid sidecar JSON"@,
                StampError::Schema => "unknown sidecar schema"@,
                StampError::Name => "sidecar name missing or malformed"@,
                StampError::PadSize => "sidecar boardRows/boardCols must be the 5×5 pad"@,
                StampError::Shape => "sidecar channels/plane/policyLength mismatch"@,
                StampError::FeaturesVersion => "sidecar featuresVersion mismatch"@,
                StampError::SourceStamp => "sidecar sourceStamp mismatch"@,
                StampError::Sha256 => "sidecar onnxSha256 mismatch"@,
            },
    {
        match self {
            StampError::Json => "invalid sidecar JSON",
            StampError::Schema => "unknown sidecar schema",
            StampError::Name => "sidecar name missing or malformed",
            StampError::PadSize => "sidecar boardRows/boardCols must be the 5×5 pad",
            StampError::Shape => "sidecar channels/plane/policyLength mismatch",
            StampError::FeaturesVersion => "sidecar featuresVersion mismatch",
            StampError::SourceStamp => "sidecar sourceStamp mismatch",
            StampError::Sha256 => "sidecar onnxSha256 mismatch",
        }
    }
}

/// The SHA-256 digest of `bytes`.
pub uninterp spec fn sha256_of(bytes: Seq<u8>) -> Seq<u8>;

/// `sha2::Sha256::digest`: the digest is 32 bytes (its output type is a
/// 32-byte array) and a function of the input bytes alone.
#[verifier::external_body]
fn sha256_digest(bytes: &[u8]) -> (r: Vec<u8>)
    ensures
        r@ == sha256_of(bytes@),
        r.len() == 32,
{
    Sha256::digest(bytes).to_vec()
}

/// Hex digit `d` (below sixteen), lower case.
pub open spec fn hex_digit_text(d: int) -> Seq<char> {
    if d == 0 {
        "0"@
    } else if d == 1 {
        "1"@
    } else if d == 2 {
        "2"@
    } else if d == 3 {
        "3"@
    } else if d == 4 {
        "4"@
    } else if d == 5 {
        "5"@
    } else if d == 6 {
        "6"@
    } else if d == 7 {
        "7"@
    } else if d == 8 {
        "8"@
    } else if d == 9 {
        "9"@
    } else if d == 10 {
        "a"@
    } else if d == 11 {
        "b"@
    } else if d == 12 {
        "c"@
    } else if d == 13 {
        "d"@
    } else if d == 14 {
        "e"@
    } else {
        "f"@
    }
}

/// A lower-case hex digit.
pub open spec fn is_hex_char(c: char) -> bool {
    ('0' <= c <= '9') || ('a' <= c <= 'f')
}

/// Every hex digit is one lower-case hex character.
proof fn lemma_hex_digit_text(d: int)
    ensures
        hex_digit_text(d).len() == 1,
        is_hex_char(hex_digit_text(d)[0]),
{
    reveal_strlit("0");
    reveal_strlit("1");
    reveal_strlit("2");
    reveal_strlit("3");
    reveal_strlit("4");
    reveal_strlit("5");
    reveal_strlit("6");
    reveal_strlit("7");
    reveal_strlit("8");
    reveal_strlit("9");
    reveal_strlit("a");
    reveal_strlit("b");
    reveal_strlit("c");
    reveal_strlit("d");
    reveal_strlit("e");
    reveal_strlit("f");
}

/// `bytes` in lower-case hex, two digits per byte, high digit first.
pub open spec fn hex_text(bytes: Seq<u8>) -> Seq<char>
    decreases bytes.len(),
{
    if bytes.len() == 0 {
        Seq::empty()
    } else {
        let b = bytes.last();
        hex_text(bytes.drop_last()) + hex_digit_text((b / 16) as int) + hex_digit_text((b % 16) as int)
    }
}

/// Hex text has two lower-case hex characters per byte.
proof fn lemma_hex_text(bytes: Seq<u8>)
    ensures
        hex_text(bytes).len() == 2 * bytes.len(),
        forall|i: int| 0 <= i < hex_text(bytes).len() ==> is_hex_char(#[trigger] hex_text(bytes)[i]),
    decreases bytes.len(),
{
    if bytes.len() > 0 {
        let b = bytes.last();
        lemma_hex_text(bytes.drop_last());
        lemma_hex_digit_text((b / 16) as int);
        lemma_hex_digit_text((b % 16) as int);
        let a = hex_text(bytes.drop_last());
        let t = hex_text(bytes);
        assert forall|i: int| 0 <= i < t.len() implies is_hex_char(#[trigger] t[i]) by {
            if i < a.len() {
                assert(t[i] == a[i]);
            } else if i == a.len() {
                assert(t[i] == hex_digit_text((b / 16) as int)[0]);
            } else {
                assert(t[i] == hex_digit_text((b % 16) as int)[0]);
            }
        }
    }
}

/// The lower-case hex SHA-256 digest of `bytes`.
pub open spec fn sha256_hex_of(bytes: Seq<u8>) -> Seq<char> {
    hex_text(sha256_of(bytes))
}

/// Append hex digit `d`.
fn push_hex_digit(out: &mut String, d: u8)
    requires
        d < 16,
    ensures
        final(out)@ == old(out)@ + hex_digit_text(d as int),
{
    if d == 0 {
        out.append("0");
    } else if d == 1 {
        out.append("1");
    } else if d == 2 {
        out.append("2");
    } else if d == 3 {
        out.append("3");
    } else if d == 4 {
        out.append("4");
    } else if d == 5 {
        out.append("5");
    } else if d == 6 {
        out.append("6");
    } else if d == 7 {
        out.append("7");
    } else if d == 8 {
        out.append("8");
    } else if d == 9 {
        out.append("9");
    } else if d == 10 {
        out.append("a");
    } else if d == 11 {
        out.append("b");
    } else if d == 12 {
        out.append("c");
    } else if d == 13 {
        out.append("d");
    } else if d == 14 {
        out.append("e");
    } else {
        out.append("f");
    }
}

/// `bytes` in lower-case hex, two digits per byte, high digit first.
pub fn hex_lower(bytes: &[u8]) -> (r: String)
    ensures
        r@ == hex_text(bytes@),
        r@.len() == 2 * bytes@.len(),
        forall|i: int| 0 <= i < r@.len() ==> is_hex_char(#[trigger] r@[i]),
{
    let mut out = String::new();
    let mut i: usize = 0;
    while i < bytes.len()
        invariant
            i <= bytes.len(),
            out@ == hex_text(bytes@.take(i as int)),
        decreases bytes.len() - i,
    {
        let b = bytes[i];
        push_hex_digit(&mut out, b / 16);
        push_hex_digit(&mut out, b % 16);
        proof {
            assert(bytes@.take(i + 1).drop_last() =~= bytes@.take(i as int));
            assert(bytes@.take(i + 1).last() == b);
        }
        i += 1;
    }
    proof {
        assert(bytes@.take(bytes.len() as int) =~= bytes@);
        lemma_hex_text(bytes@);
    }
    out
}

/// The SHA-256 digest of `bytes` in lower-case hex: 64 characters from
/// `0-9a-f`.
pub fn sha256_hex(bytes: &[u8]) -> (r: String)
    ensures
        r@ == sha256_hex_of(bytes@),
        r@.len() == 64,
        forall|i: int| 0 <= i < r@.len() ==> is_hex_char(#[trigger] r@[i]),
{
    let digest = sha256_digest(bytes);
    hex_lower(digest.as_slice())
}

/// A character allowed in a model name.
pub open spec fn name_char(c: char) -> bool {
    ('a' <= c <= 'z') || ('0' <= c <= '9') || c == '-'
}

/// A valid model name: 1 to 64 bytes of `a-z`, `0-9` and `-`, not starting or
/// ending with `-`.
pub open spec fn valid_name(name: Seq<char>) -> bool {
    &&& name.len() > 0
    &&& vstd::utf8::encode_utf8(name).len() <= 64
    &&& forall|i: int| 0 <= i < name.len() ==> name_char(#[trigger] name[i])
    &&& name[0] != '-'
    &&& name.last() != '-'
}

/// UTF-8 takes one to four bytes per character.
proof fn lemma_utf8_len(chars: Seq<char>)
    ensures
        chars.len() <= vstd::utf8::encode_utf8(chars).len() <= 4 * chars.len(),
    decreases chars.len(),
{
    if chars.len() > 0 {
        lemma_utf8_len(chars.drop_first());
    }
}

/// Whether `name` is a valid model name.
pub fn name_ok(name: &str) -> (r: bool)
    ensures
        r == valid_name(name@),
{
    let n = name.unicode_len();
    proof {
        lemma_utf8_len(name@);
    }
    // A name of more than 64 characters has more than 64 bytes.
    if n == 0 || n > 64 || name.len() > 64 {
        return false;
    }
    let mut i: usize = 0;
    while i < n
        invariant
            n == name@.len(),
            i <= n,
            forall|k: int| 0 <= k < i ==> name_char(#[trigger] name@[k]),
        decreases n - i,
    {
        let c = name.get_char(i);
        if !(('a' <= c && c <= 'z') || ('0' <= c && c <= '9') || c == '-') {
            return false;
        }
        i += 1;
    }
    name.get_char(0) != '-' && name.get_char(n - 1) != '-'
}

/// The first contract check `s` fails, given the model digest and the expected
/// source stamp; `None` when every check passes.
pub open spec fn sidecar_fault(s: Sidecar, digest: Seq<char>, expected: Seq<char>) -> Option<
    StampError,
> {
    if s.schema@ != SCHEMA@ {
        Some(StampError::Schema)
    } else if !valid_name(s.name@) {
        Some(StampError::Name)
    } else if s.board_rows != AZ_HUD_ROWS || s.board_cols != AZ_HUD_COLS {
        Some(StampError::PadSize)
    } else if s.channels != AZ_CHANNELS || s.plane != AZ_PLANE || s.policy_length != AZ_POLICY {
        Some(StampError::Shape)
    } else if s.features_version != AZ_FEATURES_VERSION {
        Some(StampError::FeaturesVersion)
    } else if s.source_stamp@ != expected {
        Some(StampError::SourceStamp)
    } else if s.onnx_sha256@ != digest {
        Some(StampError::Sha256)
    } else {
        None
    }
}

/// Validate parsed sidecar fields against the frozen tensor contract, the
/// expected source stamp and the model bytes; gives the sidecar back when valid.
pub fn check_sidecar(parsed: Sidecar, onnx: &[u8], expected_source_stamp: &str) -> (r: Result<
    Sidecar,
    StampError,
>)
    ensures
        match sidecar_fault(parsed, sha256_hex_of(onnx@), expected_source_stamp@) {
            Some(e) => r == Err::<Sidecar, StampError>(e),
            None => r matches Ok(s) && s == parsed,
        },
{
    if !str_equals(parsed.schema.as_str(), SCHEMA) {
        return Err(StampError::Schema);
    }
    if !name_ok(parsed.name.as_str()) {
        return Err(StampError::Name);
    }
    if parsed.board_rows != AZ_HUD_ROWS || parsed.board_cols != AZ_HUD_COLS {
        return Err(StampError::PadSize);
    }
    if parsed.channels != AZ_CHANNELS || parsed.plane != AZ_PLANE || parsed.policy_length
        != AZ_POLICY {
        return Err(StampError::Shape);
    }
    if parsed.features_version != AZ_FEATURES_VERSION {
        return Err(StampError::FeaturesVersion);
    }
    if !str_equals(parsed.source_stamp.as_str(), expected_source_stamp) {
        return Err(StampError::SourceStamp);
    }
    let digest = sha256_hex(onnx);
    if !str_equals(parsed.onnx_sha256.as_str(), digest.as_str()) {
        return Err(StampError::Sha256);
    }
    Ok(parsed)
}

} // verus!
