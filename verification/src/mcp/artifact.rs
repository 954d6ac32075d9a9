//! Rendered artifacts kept for the tool server: identifiers, encodings and
//! the limits and decisions around storing and reading them.

use vstd::prelude::*;
use crate::errors::CoreError;
use crate::text::{chars_of, hex_char, hex_digit_to_char, push_decimal, push_str, push_zero_padded, string_from_chars, dec_chars, zero_padded};

verus! {

/// How long an artifact is kept, in seconds.
pub const ARTIFACT_TTL_SECS: u64 = 86_400;

/// Largest artifact that may be rendered.
pub const ARTIFACT_MAX_BYTES: u64 = 16_777_216;

/// Largest artifact returned inline, and largest chunk read at once.
pub const ARTIFACT_INLINE_MAX_BYTES: u64 = 262_144;

// ---------------------------------------------------------------------------
// Identifiers.

/// An ASCII hexadecimal digit.
pub open spec fn is_hex_digit(c: char) -> bool {
    ('0' <= c <= '9') || ('a' <= c <= 'f') || ('A' <= c <= 'F')
}

/// An artifact id: sixty-four hexadecimal digits.
pub open spec fn valid_id_spec(id: Seq<char>) -> bool {
    id.len() == 64 && forall|i: int| 0 <= i < id.len() ==> is_hex_digit(#[trigger] id[i])
}

/// Whether `id` is a well-formed artifact id.
pub fn valid_id(id: &str) -> (b: bool)
    ensures
        b == valid_id_spec(id@),
{
    let cs = chars_of(id);
    if cs.len() != 64 {
        return false;
    }
    let mut i: usize = 0;
    while i < cs.len()
        invariant
            i <= cs@.len(),
            cs@ == id@,
            forall|j: int| 0 <= j < i ==> is_hex_digit(#[trigger] cs@[j]),
        decreases cs.len() - i,
    {
        let c = cs[i];
        if !(('0' <= c && c <= '9') || ('a' <= c && c <= 'f') || ('A' <= c && c <= 'F')) {
            proof {
                assert(!is_hex_digit(id@[i as int]));
            }
            return false;
        }
        i = i + 1;
    }
    true
}

/// Bytes as lower-case hexadecimal, two digits each.
pub open spec fn hex_text(bytes: Seq<u8>) -> Seq<char>
    decreases bytes.len(),
{
    if bytes.len() == 0 {
        Seq::empty()
    } else {
        hex_text(bytes.drop_last()) + seq![
            hex_char((bytes.last() / 16) as nat, false),
            hex_char((bytes.last() % 16) as nat, false),
        ]
    }
}

/// Bytes as lower-case hexadecimal.
pub fn hex(bytes: &[u8]) -> (s: String)
    ensures
        s@ == hex_text(bytes@),
{
    let mut out: Vec<char> = Vec::new();
    let mut i: usize = 0;
    while i < bytes.len()
        invariant
            i <= bytes@.len(),
            out@ == hex_text(bytes@.take(i as int)),
        decreases bytes.len() - i,
    {
        let b = bytes[i];
        proof {
            assert(bytes@.take(i + 1).drop_last() =~= bytes@.take(i as int));
            assert(bytes@.take(i + 1).last() == b);
        }
        let ghost before = out@;
        out.push(hex_digit_to_char((b / 16) as u64, false));
        out.push(hex_digit_to_char((b % 16) as u64, false));
        proof {
            assert(out@ =~= before + seq![hex_char((b / 16) as nat, false), hex_char((b % 16) as nat, false)]);
        }
        i = i + 1;
    }
    proof {
        assert(bytes@.take(i as int) =~= bytes@);
    }
    string_from_chars(&out)
}

// ---------------------------------------------------------------------------
// Base64.

/// The standard Base64 alphabet.
pub open spec fn b64_char(v: nat) -> char {
    if v < 26 {
        (65 + v) as char
    } else if v < 52 {
        (97 + v - 26) as char
    } else if v < 62 {
        (48 + v - 52) as char
    } else if v == 62 {
        '+'
    } else {
        '/'
    }
}

/// One group of up to three bytes as four characters, `=` padded.
pub open spec fn b64_group(a: u8, b: u8, c: u8, len: nat) -> Seq<char> {
    let n = a as nat * 65536 + b as nat * 256 + c as nat;
    seq![
        b64_char(n / 262144),
        b64_char((n / 4096) % 64),
        if len > 1 { b64_char((n / 64) % 64) } else { '=' },
        if len > 2 { b64_char(n % 64) } else { '=' },
    ]
}

/// Standard padded Base64 of bytes, three at a time.
pub open spec fn base64_spec(bytes: Seq<u8>) -> Seq<char>
    decreases bytes.len(),
{
    if bytes.len() == 0 {
        Seq::empty()
    } else if bytes.len() >= 3 {
        b64_group(bytes[0], bytes[1], bytes[2], 3) + base64_spec(bytes.skip(3))
    } else if bytes.len() == 2 {
        b64_group(bytes[0], bytes[1], 0, 2)
    } else {
        b64_group(bytes[0], 0, 0, 1)
    }
}

fn b64_char_exec(v: u32) -> (c: char)
    requires
        v < 64,
    ensures
        c == b64_char(v as nat),
{
    if v < 26 {
        ((65 + v) as u8) as char
    } else if v < 52 {
        ((97 + v - 26) as u8) as char
    } else if v < 62 {
        ((48 + v - 52) as u8) as char
    } else if v == 62 {
        '+'
    } else {
        '/'
    }
}

/// Standard padded Base64.
pub fn base64_encode(bytes: &[u8]) -> (s: String)
    ensures
        s@ == base64_spec(bytes@),
{
    let mut out: Vec<char> = Vec::new();
    let mut i: usize = 0;
    proof {
        assert(bytes@.skip(0) =~= bytes@);
        assert(out@ + base64_spec(bytes@) =~= base64_spec(bytes@));
    }
    while i < bytes.len()
        invariant
            i <= bytes@.len(),
            out@ + base64_spec(bytes@.skip(i as int)) == base64_spec(bytes@),
        decreases bytes.len() - i,
    {
        let rest_len = bytes.len() - i;
        let a = bytes[i];
        let b = if rest_len > 1 { bytes[i + 1] } else { 0 };
        let c = if rest_len > 2 { bytes[i + 2] } else { 0 };
        let n: u32 = a as u32 * 65536 + b as u32 * 256 + c as u32;
        let len: u32 = if rest_len >= 3 { 3 } else { rest_len as u32 };
        let ghost before = out@;
        proof {
            assert(n / 262144 < 64) by (nonlinear_arith)
                requires
                    n == a as u32 * 65536 + b as u32 * 256 + c as u32,
                    a < 256,
                    b < 256,
                    c < 256,
            ;
        }
        out.push(b64_char_exec(n / 262144));
        out.push(b64_char_exec((n / 4096) % 64));
        out.push(if len > 1 { b64_char_exec((n / 64) % 64) } else { '=' });
        out.push(if len > 2 { b64_char_exec(n % 64) } else { '=' });
        proof {
            let rest = bytes@.skip(i as int);
            assert(rest[0] == a);
            if rest_len > 1 {
                assert(rest[1] == b);
            }
            if rest_len > 2 {
                assert(rest[2] == c);
            }
            assert(out@ =~= before + b64_group(a, b, c, len as nat));
            if rest_len >= 3 {
                assert(rest.skip(3) =~= bytes@.skip(i + 3));
                assert(base64_spec(rest) == b64_group(rest[0], rest[1], rest[2], 3) + base64_spec(rest.skip(3)));
            } else {
                assert(bytes@.skip(bytes@.len() as int) =~= Seq::<u8>::empty());
            }
        }
        i = if rest_len >= 3 { i + 3 } else { bytes.len() };
    }
    proof {
        assert(bytes@.skip(i as int) =~= Seq::<u8>::empty());
        assert(out@ + Seq::<char>::empty() =~= out@);
    }
    string_from_chars(&out)
}

// ---------------------------------------------------------------------------
// Decisions around storing and reading.

/// The error for a render that went over the size limit.
pub open spec fn size_limit_message(observed: u64, format: Seq<char>) -> Seq<char> {
    "artifact_size_limit_exceeded: exceeded render limit (limit_bytes=16777216, observed_bytes="@
        + dec_chars(observed as nat) + ", format="@ + format + ")"@
}

/// Accepts a finished render of `observed` bytes unless it went over the
/// limit (or the writer reported going over it).
pub fn check_render_size(observed: u64, writer_exceeded: bool, format: &str) -> (r: Result<(), CoreError>)
    ensures
        r is Ok <==> (observed <= ARTIFACT_MAX_BYTES && !writer_exceeded),
        r matches Err(e) ==> e matches CoreError::Unsupported(m) && m@ == size_limit_message(observed, format@),
{
    if observed > ARTIFACT_MAX_BYTES || writer_exceeded {
        let mut m = chars_of(
            "artifact_size_limit_exceeded: exceeded render limit (limit_bytes=16777216, observed_bytes=",
        );
        push_decimal(&mut m, observed);
        push_str(&mut m, ", format=");
        push_str(&mut m, format);
        push_str(&mut m, ")");
        return Err(CoreError::Unsupported(string_from_chars(&m)));
    }
    Ok(())
}

/// Whether an artifact of this size is returned inline.
pub fn delivers_inline(byte_length: u64) -> (b: bool)
    ensures
        b == (byte_length <= ARTIFACT_INLINE_MAX_BYTES),
{
    byte_length <= ARTIFACT_INLINE_MAX_BYTES
}

/// The expiry time of an artifact created at `created_secs`, if it fits.
pub fn expiry_secs(created_secs: u64) -> (e: Option<u64>)
    ensures
        e == (if created_secs + ARTIFACT_TTL_SECS <= u64::MAX {
            Some((created_secs + ARTIFACT_TTL_SECS) as u64)
        } else {
            None::<u64>
        }),
{
    created_secs.checked_add(ARTIFACT_TTL_SECS)
}

/// What a chunk read returns: where it starts, how many bytes, where the
/// next one starts and whether it reaches the end.
#[derive(Debug, Clone, Copy, PartialEq, Eq, Structural)]
pub struct ChunkPlan {
    pub offset: u64,
    pub amount: u64,
    pub next: u64,
    pub eof: bool,
}

/// Plans a read of up to `max_bytes` from `offset` of an artifact of
/// `byte_length` bytes that expires at `expires_secs`, at time `now_secs`:
/// expired artifacts, over-long chunks and offsets past the end are
/// refused, in that order.
pub fn plan_chunk(byte_length: u64, expires_secs: u64, now_secs: u64, offset: u64, max_bytes: u64) -> (r: Result<ChunkPlan, CoreError>)
    ensures
        expires_secs <= now_secs ==> (r matches Err(CoreError::Unsupported(m)) && m@ == "artifact_expired"@),
        expires_secs > now_secs && max_bytes > ARTIFACT_INLINE_MAX_BYTES ==> (r matches Err(CoreError::InvalidInput(m))
            && m@ == "max_bytes may not exceed 262144"@),
        expires_secs > now_secs && max_bytes <= ARTIFACT_INLINE_MAX_BYTES && offset > byte_length ==> (r matches Err(
            CoreError::InvalidInput(m),
        ) && m@ == "offset_bytes must not exceed artifact length"@),
        expires_secs > now_secs && max_bytes <= ARTIFACT_INLINE_MAX_BYTES && offset <= byte_length ==> (r matches Ok(p) && {
            &&& p.offset == offset
            &&& p.amount == (if max_bytes < byte_length - offset { max_bytes as int } else { byte_length - offset })
            &&& p.next == offset + p.amount
            &&& p.eof == (p.next == byte_length)
        }),
{
    if expires_secs <= now_secs {
        return Err(CoreError::Unsupported("artifact_expired".to_string()));
    }
    if max_bytes > ARTIFACT_INLINE_MAX_BYTES {
        return Err(CoreError::InvalidInput("max_bytes may not exceed 262144".to_string()));
    }
    if offset > byte_length {
        return Err(CoreError::InvalidInput("offset_bytes must not exceed artifact length".to_string()));
    }
    let left = byte_length - offset;
    let amount = if max_bytes < left { max_bytes } else { left };
    let next = offset + amount;
    Ok(ChunkPlan { offset, amount, next, eof: next == byte_length })
}


// ---------------------------------------------------------------------------
// Timestamps.

/// The civil date (year, month, day) of a day count since 1970-01-01, by
/// the days-to-civil algorithm over 400-year eras.
pub open spec fn civil_from_days(days: int) -> (int, int, int) {
    let z = days + 719_468;
    let era = z / 146_097;
    let doe = z - era * 146_097;
    let yoe = (doe - doe / 1_460 + doe / 36_524 - doe / 146_096) / 365;
    let y = yoe + era * 400;
    let doy = doe - (365 * yoe + yoe / 4 - yoe / 100);
    let mp = (5 * doy + 2) / 153;
    let d = doy - (153 * mp + 2) / 5 + 1;
    let m = if mp < 10 { mp + 3 } else { mp - 9 };
    (if m <= 2 { y + 1 } else { y }, m, d)
}

proof fn lemma_era_day_bounds(doe: int)
    requires
        0 <= doe <= 146_096,
    ensures
        ({
            let yoe = (doe - doe / 1_460 + doe / 36_524 - doe / 146_096) / 365;
            let doy = doe - (365 * yoe + yoe / 4 - yoe / 100);
            let mp = (5 * doy + 2) / 153;
            let d = doy - (153 * mp + 2) / 5 + 1;
            &&& 0 <= yoe <= 399
            &&& 0 <= doy <= 365
            &&& 0 <= mp <= 11
            &&& 1 <= d <= 31
        }),
{
}


/// A number in decimal, zero-padded to `width` digits.
pub open spec fn padded(n: nat, width: nat) -> Seq<char> {
    zero_padded(dec_chars(n), width)
}

/// `YYYY-MM-DDTHH:MM:SSZ` (UTC) for seconds since 1970-01-01.
pub open spec fn rfc3339_spec(secs: u64) -> Seq<char> {
    let date = civil_from_days((secs / 86_400) as int);
    let rem = secs % 86_400;
    padded(date.0 as nat, 4) + "-"@ + padded(date.1 as nat, 2) + "-"@ + padded(date.2 as nat, 2) + "T"@
        + padded((rem / 3600) as nat, 2) + ":"@ + padded(((rem % 3600) / 60) as nat, 2) + ":"@ + padded(
        (rem % 60) as nat,
        2,
    ) + "Z"@
}

fn push_padded(out: &mut Vec<char>, n: u64, width: usize)
    ensures
        final(out)@ == old(out)@ + padded(n as nat, width as nat),
{
    let mut digits: Vec<char> = Vec::new();
    push_decimal(&mut digits, n);
    proof {
        assert(digits@ =~= dec_chars(n as nat));
    }
    push_zero_padded(out, &digits, width);
}

/// Formats seconds since 1970-01-01 as an RFC 3339 UTC timestamp.
pub fn rfc3339(secs: u64) -> (s: String)
    ensures
        s@ == rfc3339_spec(secs),
{
    let days = secs / 86_400;
    let rem = secs % 86_400;
    let z = days + 719_468;
    let era = z / 146_097;
    let doe = z - era * 146_097;
    proof {
        lemma_era_day_bounds(doe as int);
    }
    let yoe = (doe - doe / 1_460 + doe / 36_524 - doe / 146_096) / 365;
    let y = yoe + era * 400;
    let doy = doe - (365 * yoe + yoe / 4 - yoe / 100);
    let mp = (5 * doy + 2) / 153;
    let d = doy - (153 * mp + 2) / 5 + 1;
    let m = if mp < 10 { mp + 3 } else { mp - 9 };
    let year = if m <= 2 { y + 1 } else { y };
    let mut out: Vec<char> = Vec::new();
    push_padded(&mut out, year, 4);
    push_str(&mut out, "-");
    push_padded(&mut out, m, 2);
    push_str(&mut out, "-");
    push_padded(&mut out, d, 2);
    push_str(&mut out, "T");
    push_padded(&mut out, rem / 3600, 2);
    push_str(&mut out, ":");
    push_padded(&mut out, (rem % 3600) / 60, 2);
    push_str(&mut out, ":");
    push_padded(&mut out, rem % 60, 2);
    push_str(&mut out, "Z");
    proof {
        let date = civil_from_days((secs / 86_400) as int);
        assert(date.0 == year as int && date.1 == m as int && date.2 == d as int);
        assert(out@ =~= rfc3339_spec(secs));
    }
    string_from_chars(&out)
}


// ---------------------------------------------------------------------------
// Records.

/// What is stored beside an artifact's bytes.
#[derive(Debug, Clone, PartialEq, Eq)]
pub struct ArtifactManifest {
    pub artifact_id: String,
    pub format: String,
    pub media_type: String,
    pub byte_length: u64,
    pub sha256: String,
    pub created_secs: u64,
    pub expires_secs: u64,
}

/// The answer to creating an artifact.
#[derive(Debug, Clone, PartialEq, Eq)]
pub struct ArtifactResponse {
    pub artifact_id: String,
    pub format: String,
    pub media_type: String,
    pub byte_length: u64,
    pub sha256: String,
    pub created_at: String,
    pub expires_at: String,
    pub delivery: String,
    pub content_base64: Option<String>,
}

/// One chunk read from an artifact.
#[derive(Debug, Clone, PartialEq, Eq)]
pub struct ArtifactChunk {
    pub artifact_id: String,
    pub offset_bytes: u64,
    pub next_offset_bytes: u64,
    pub eof: bool,
    pub content_base64: String,
}

/// The answer for a stored artifact: its record with timestamps in RFC
/// 3339, delivered inline when its content comes along, else managed.
pub fn response_from_manifest(m: ArtifactManifest, content_base64: Option<String>) -> (r: ArtifactResponse)
    ensures
        r.artifact_id == m.artifact_id,
        r.format == m.format,
        r.media_type == m.media_type,
        r.byte_length == m.byte_length,
        r.sha256 == m.sha256,
        r.created_at@ == rfc3339_spec(m.created_secs),
        r.expires_at@ == rfc3339_spec(m.expires_secs),
        r.delivery@ == (if content_base64 is Some { "inline"@ } else { "managed"@ }),
        r.content_base64 == content_base64,
{
    let delivery = if content_base64.is_some() { "inline".to_string() } else { "managed".to_string() };
    ArtifactResponse {
        created_at: rfc3339(m.created_secs),
        expires_at: rfc3339(m.expires_secs),
        artifact_id: m.artifact_id,
        format: m.format,
        media_type: m.media_type,
        byte_length: m.byte_length,
        sha256: m.sha256,
        delivery,
        content_base64,
    }
}

/// The chunk for planned bytes read from an artifact.
pub fn chunk_from_plan(artifact_id: &str, plan: ChunkPlan, bytes: &[u8]) -> (c: ArtifactChunk)
    ensures
        c.artifact_id@ == artifact_id@,
        c.offset_bytes == plan.offset,
        c.next_offset_bytes == plan.next,
        c.eof == plan.eof,
        c.content_base64@ == base64_spec(bytes@),
{
    ArtifactChunk {
        artifact_id: artifact_id.to_string(),
        offset_bytes: plan.offset,
        next_offset_bytes: plan.next,
        eof: plan.eof,
        content_base64: base64_encode(bytes),
    }
}


// ---------------------------------------------------------------------------
// Laws.

proof fn lemma_hex_text_shape(bytes: Seq<u8>)
    ensures
        hex_text(bytes).len() == 2 * bytes.len(),
        forall|i: int| 0 <= i < hex_text(bytes).len() ==> is_hex_digit(#[trigger] hex_text(bytes)[i]),
    decreases bytes.len(),
{
    if bytes.len() > 0 {
        lemma_hex_text_shape(bytes.drop_last());
        let b = bytes.last();
        let hi = (b / 16) as nat;
        let lo = (b % 16) as nat;
        assert(is_hex_digit(hex_char(hi, false))) by {
            reveal_hex_char_range(hi);
        }
        assert(is_hex_digit(hex_char(lo, false))) by {
            reveal_hex_char_range(lo);
        }
        let prev = hex_text(bytes.drop_last());
        assert forall|i: int| 0 <= i < hex_text(bytes).len() implies is_hex_digit(#[trigger] hex_text(bytes)[i]) by {
            if i < prev.len() {
                assert(hex_text(bytes)[i] == prev[i]);
            }
        }
    }
}

proof fn reveal_hex_char_range(d: nat)
    requires
        d < 16,
    ensures
        is_hex_digit(hex_char(d, false)),
{
}

/// The hexadecimal text of thirty-two random bytes, as new artifact ids
/// are made, is always a valid artifact id.
pub proof fn lemma_random_ids_are_valid(bytes: Seq<u8>)
    requires
        bytes.len() == 32,
    ensures
        valid_id_spec(hex_text(bytes)),
{
    lemma_hex_text_shape(bytes);
}

/// Base64 turns every started group of three bytes into four characters.
pub proof fn lemma_base64_length(bytes: Seq<u8>)
    ensures
        base64_spec(bytes).len() == 4 * ((bytes.len() + 2) / 3),
    decreases bytes.len(),
{
    if bytes.len() >= 3 {
        lemma_base64_length(bytes.skip(3));
    }
}

/// Successive chunk reads cover an artifact: each starts where the last
/// ended, never passes the end, and reports the end exactly when reached.
pub proof fn lemma_chunks_cover(byte_length: u64, offset: u64, max_bytes: u64, p: ChunkPlan)
    requires
        offset <= byte_length,
        0 < max_bytes <= ARTIFACT_INLINE_MAX_BYTES,
        p.offset == offset,
        p.amount == (if max_bytes < byte_length - offset { max_bytes as int } else { byte_length - offset }),
        p.next == offset + p.amount,
        p.eof == (p.next == byte_length),
    ensures
        p.next <= byte_length,
        p.eof || p.next > offset,
        p.eof <==> p.amount == byte_length - offset,
{
}

} // verus!
