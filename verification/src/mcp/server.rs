//! The structured error envelope that the tool server answers a failed
//! request with: a stable code per failure kind, the message, and the
//! failure's details as key-value pairs.

use vstd::prelude::*;
use crate::errors::CoreError;
use crate::query::parser::{digits_value, is_whitespace, is_whitespace_char};
use crate::text::{chars_of, contains_text, find_text, string_from_chars};

verus! {

/// A detail value: text, a non-negative number, or null.
#[derive(Debug, Clone, PartialEq, Eq)]
pub enum DetailValue {
    Text(String),
    Number(u64),
    Null,
}

/// The error envelope of a failed request.
#[derive(Debug, Clone, PartialEq, Eq)]
pub struct RpcErrorDetails {
    pub code: String,
    pub message: String,
    pub details: Option<Vec<(String, DetailValue)>>,
}

/// A detail value as a mathematical value.
pub enum DetailView {
    Text(Seq<char>),
    Number(nat),
    Null,
}

/// The view of a detail value.
pub open spec fn detail_view(v: DetailValue) -> DetailView {
    match v {
        DetailValue::Text(s) => DetailView::Text(s@),
        DetailValue::Number(n) => DetailView::Number(n as nat),
        DetailValue::Null => DetailView::Null,
    }
}

/// The view of a list of details.
pub open spec fn details_view(d: Seq<(String, DetailValue)>) -> Seq<(Seq<char>, DetailView)> {
    d.map_values(|p: (String, DetailValue)| (p.0@, detail_view(p.1)))
}

/// A text detail, or null.
pub open spec fn opt_text(o: Option<String>) -> DetailView {
    match o {
        Some(s) => DetailView::Text(s@),
        None => DetailView::Null,
    }
}

// ---------------------------------------------------------------------------
// Text helpers.

/// `s` starts with `p`.
pub open spec fn starts_with(s: Seq<char>, p: Seq<char>) -> bool {
    p.len() <= s.len() && s.take(p.len() as int) == p
}

/// First index at or after `i` that is not whitespace (or the end).
pub open spec fn lead(s: Seq<char>, i: int) -> int
    decreases s.len() - i,
{
    if 0 <= i < s.len() && is_whitespace_char(s[i]) { lead(s, i + 1) } else { i }
}

/// Index after the last non-whitespace character of `s[lo..j]`
/// (or `lo`).
pub open spec fn trail(s: Seq<char>, lo: int, j: int) -> int
    decreases j - lo,
{
    if lo < j && j <= s.len() && is_whitespace_char(s[j - 1]) { trail(s, lo, j - 1) } else { j }
}

/// `s` without surrounding whitespace.
pub open spec fn trim(s: Seq<char>) -> Seq<char> {
    let a = lead(s, 0);
    s.subrange(a, trail(s, a, s.len() as int))
}

/// Index of the last ` (` in `s[..j]`.
pub open spec fn last_open_before(s: Seq<char>, j: int) -> Option<int>
    decreases j,
{
    if j < 2 || j > s.len() {
        None
    } else if s[j - 2] == ' ' && s[j - 1] == '(' {
        Some(j - 2)
    } else {
        last_open_before(s, j - 1)
    }
}

/// Index of the first `, ` at or after `i`.
pub open spec fn sep_from(s: Seq<char>, i: int) -> Option<int>
    decreases s.len() - i,
{
    if i < 0 || i + 1 >= s.len() {
        None
    } else if s[i] == ',' && s[i + 1] == ' ' {
        Some(i)
    } else {
        sep_from(s, i + 1)
    }
}

/// The pieces of `s[start..]` between occurrences of `, `.
pub open spec fn split_from(s: Seq<char>, start: int) -> Seq<Seq<char>>
    decreases s.len() - start,
{
    match sep_from(s, start) {
        Some(i) => if start <= i && i + 2 <= s.len() {
            seq![s.subrange(start, i)] + split_from(s, i + 2)
        } else {
            seq![s.subrange(start, s.len() as int)]
        },
        None => seq![s.subrange(start, s.len() as int)],
    }
}

/// Index of the first `=` at or after `i`.
pub open spec fn eq_from(s: Seq<char>, i: int) -> Option<int>
    decreases s.len() - i,
{
    if i < 0 || i >= s.len() {
        None
    } else if s[i] == '=' {
        Some(i)
    } else {
        eq_from(s, i + 1)
    }
}

/// All characters are ASCII digits.
pub open spec fn all_digits(s: Seq<char>) -> bool {
    forall|i: int| 0 <= i < s.len() ==> '0' <= #[trigger] s[i] <= '9'
}

/// What `str::parse::<u64>` accepts: an optional `+` and one or more
/// digits whose value fits.
pub open spec fn parse_u64_spec(v: Seq<char>) -> Option<nat> {
    let d = if v.len() > 0 && v[0] == '+' { v.drop_first() } else { v };
    if d.len() > 0 && all_digits(d) && digits_value(d) <= u64::MAX {
        Some(digits_value(d))
    } else {
        None
    }
}

/// Index of the pair with key `key`.
pub open spec fn key_index(m: Seq<(Seq<char>, DetailView)>, key: Seq<char>, i: int) -> Option<int>
    decreases m.len() - i,
{
    if i < 0 || i >= m.len() {
        None
    } else if m[i].0 == key {
        Some(i)
    } else {
        key_index(m, key, i + 1)
    }
}

/// `key` set to `value`: replaced where present, else appended.
pub open spec fn insert_kv(m: Seq<(Seq<char>, DetailView)>, key: Seq<char>, value: DetailView) -> Seq<(Seq<char>, DetailView)> {
    match key_index(m, key, 0) {
        Some(i) => m.update(i, (key, value)),
        None => m.push((key, value)),
    }
}

/// A `key=value` piece set into the details, as a number where it parses;
/// a piece without `=` changes nothing.
pub open spec fn kv_step(m: Seq<(Seq<char>, DetailView)>, p: Seq<char>) -> Seq<(Seq<char>, DetailView)> {
    match eq_from(p, 0) {
        None => m,
        Some(i) => {
            let v = p.skip(i + 1);
            insert_kv(
                m,
                p.take(i),
                match parse_u64_spec(v) {
                    Some(n) => DetailView::Number(n),
                    None => DetailView::Text(v),
                },
            )
        },
    }
}

/// The pieces set into the details in turn.
pub open spec fn kv_fold(m: Seq<(Seq<char>, DetailView)>, pieces: Seq<Seq<char>>) -> Seq<(Seq<char>, DetailView)>
    decreases pieces.len(),
{
    if pieces.len() == 0 {
        m
    } else {
        kv_step(kv_fold(m, pieces.drop_last()), pieces.last())
    }
}

/// The details of a `message (k=v, …)` text: the trimmed message first
/// under `detail`, then each pair; without a final parenthesis, the whole
/// text is the message.
pub open spec fn split_message(s: Seq<char>) -> (Seq<char>, Seq<(Seq<char>, DetailView)>) {
    match last_open_before(s, s.len() as int) {
        Some(k) => if s.len() > 0 && s.last() == ')' {
            let message = trim(s.take(k));
            (message, kv_fold(seq![("detail"@, DetailView::Text(message))], split_from(s.subrange(k + 2, s.len() - 1), 0)))
        } else {
            (s, seq![("detail"@, DetailView::Text(s))])
        },
        None => (s, seq![("detail"@, DetailView::Text(s))]),
    }
}

/// The message and details of a `<code>: message (k=v, …)` error.
pub open spec fn feature_details(code: Seq<char>, raw: Seq<char>) -> (Seq<char>, Seq<(Seq<char>, DetailView)>) {
    let body = if starts_with(raw, code) && raw.len() > code.len() && raw[code.len() as int] == ':' {
        trim(raw.skip(code.len() as int + 1))
    } else {
        raw
    };
    split_message(body)
}


// ---------------------------------------------------------------------------
// The envelope.

/// A single `detail` entry.
pub open spec fn just_detail(d: Seq<char>) -> Seq<(Seq<char>, DetailView)> {
    seq![("detail"@, DetailView::Text(d))]
}

/// The hint a snapshot error comes with.
pub open spec fn snapshot_hint(code: Seq<char>) -> Seq<char> {
    if code == "snapshot_not_found"@ {
        "run `mnemosyne snapshot save <heap>` first, or `mnemosyne snapshot list`"@
    } else if code == "snapshot_schema_mismatch"@ {
        "run with --refresh, or `mnemosyne snapshot rm <hash>`"@
    } else if code == "snapshot_stale_source"@ {
        "run with --refresh to re-parse and update the cache"@
    } else {
        "run `mnemosyne snapshot rm <hash>` and re-run without --snapshot"@
    }
}

/// The codes carried as `<code>: …` prefixes of an `Unsupported` detail,
/// whose envelope parses `message (k=v, …)` out of the rest.
pub open spec fn is_feature_code(c: Seq<char>) -> bool {
    c == "feature_unavailable_in_overview_mode"@ || c == "feature_unavailable_object_diff_too_large"@ || c
        == "feature_unavailable_without_field_data"@
}

/// The codes carried as `<code>: …` prefixes that keep the detail as is.
pub open spec fn is_plain_code(c: Seq<char>) -> bool {
    c == "workflow_not_found"@ || c == "workflow_corrupt"@ || c == "workflow_step_input_mismatch"@ || c
        == "workflow_already_complete"@
}

/// The codes of snapshot errors.
pub open spec fn is_snapshot_code(c: Seq<char>) -> bool {
    c == "snapshot_not_found"@ || c == "snapshot_schema_mismatch"@ || c == "snapshot_stale_source"@ || c
        == "snapshot_corrupt"@
}

/// The prefixes an `Unsupported` detail is classified by, in order.
pub open spec fn unsupported_prefixes() -> Seq<Seq<char>> {
    seq![
        "feature_unavailable_in_overview_mode"@,
        "feature_unavailable_object_diff_too_large"@,
        "feature_unavailable_without_field_data"@,
        "inspect_object_id_not_found"@,
        "snapshot_not_found"@,
        "snapshot_schema_mismatch"@,
        "snapshot_stale_source"@,
        "snapshot_corrupt"@,
        "workflow_not_found"@,
        "workflow_corrupt"@,
        "workflow_step_input_mismatch"@,
        "workflow_already_complete"@,
    ]
}

/// The first listed prefix `p` with `d` starting with `p:`, from index `k`.
pub open spec fn first_prefix(d: Seq<char>, k: int) -> Option<Seq<char>>
    decreases unsupported_prefixes().len() - k,
{
    if k < 0 || k >= unsupported_prefixes().len() {
        None
    } else if starts_with(d, unsupported_prefixes()[k] + ":"@) {
        Some(unsupported_prefixes()[k])
    } else {
        first_prefix(d, k + 1)
    }
}

/// Code, message and details for an `Unsupported` error.
pub open spec fn unsupported_envelope(d: Seq<char>, message: Seq<char>) -> (Seq<char>, Seq<char>, Seq<(Seq<char>, DetailView)>) {
    match first_prefix(d, 0) {
        Some(p) => if is_feature_code(p) {
            (p, feature_details(p, d).0, feature_details(p, d).1)
        } else if p == "inspect_object_id_not_found"@ {
            ("object_id_not_found"@, message, just_detail(d))
        } else if is_snapshot_code(p) {
            (p, message, seq![("detail"@, DetailView::Text(d)), ("hint"@, DetailView::Text(snapshot_hint(p)))])
        } else {
            (p, message, just_detail(d))
        },
        None => if contains_text(d, "session_version"@) {
            ("session_version_unsupported"@, message, just_detail(d))
        } else {
            ("unsupported"@, message, just_detail(d))
        },
    }
}

/// Code, message and details of the envelope for an error whose display
/// text is `message`.
pub open spec fn envelope(e: CoreError, message: Seq<char>) -> (Seq<char>, Seq<char>, Seq<(Seq<char>, DetailView)>) {
    match e {
        CoreError::Io(s) => ("io_error"@, message, just_detail(s@)),
        CoreError::UnexpectedEof => ("io_error"@, message, just_detail("unexpected end of file"@)),
        CoreError::InvalidInput(d) => if starts_with(d@, "session not found:"@) {
            ("session_not_found"@, message, just_detail(d@))
        } else if starts_with(d@, "session load failed:"@) {
            ("session_load_failed"@, message, just_detail(d@))
        } else {
            ("invalid_input"@, message, just_detail(d@))
        },
        CoreError::FileNotFound { path, suggestion } => ("file_not_found"@, message, seq![
            ("path"@, DetailView::Text(path@)),
            ("suggestion"@, opt_text(suggestion)),
        ]),
        CoreError::NotAnHprof { path, detail } => ("not_hprof"@, message, seq![
            ("path"@, DetailView::Text(path@)),
            ("detail"@, DetailView::Text(detail@)),
        ]),
        CoreError::HprofParseError { phase, detail } => ("hprof_parse_error"@, message, seq![
            ("phase"@, DetailView::Text(phase@)),
            ("detail"@, DetailView::Text(detail@)),
        ]),
        CoreError::ConfigError { detail, suggestion } => ("config_error"@, message, seq![
            ("detail"@, DetailView::Text(detail@)),
            ("suggestion"@, opt_text(suggestion)),
        ]),
        CoreError::AiProviderError { detail, status } => ("provider_error"@, message, seq![
            ("detail"@, DetailView::Text(detail@)),
            ("status"@, match status { Some(n) => DetailView::Number(n as nat), None => DetailView::Null }),
        ]),
        CoreError::AiProviderTimeout { detail } => ("provider_timeout"@, message, just_detail(detail@)),
        CoreError::NotImplemented(d) => ("not_implemented"@, message, just_detail(d@)),
        CoreError::FeatureUnavailableInOverviewMode { feature, hint } => (
            "feature_unavailable_in_overview_mode"@,
            message,
            seq![("feature"@, DetailView::Text(feature@)), ("hint"@, DetailView::Text(hint@))],
        ),
        CoreError::Unsupported(d) => unsupported_envelope(d@, message),
        CoreError::SerdeJson(s) => ("invalid_params"@, message, just_detail(s@)),
        CoreError::Other(s) => if starts_with(s@, "session persist failed:"@) {
            ("session_persist_failed"@, message, just_detail(s@))
        } else {
            ("internal_error"@, message, just_detail(s@))
        },
    }
}

// ---------------------------------------------------------------------------
// Executable text helpers.

fn starts_with_chars(s: &Vec<char>, p: &Vec<char>) -> (b: bool)
    ensures
        b == starts_with(s@, p@),
{
    if p.len() > s.len() {
        return false;
    }
    let mut i: usize = 0;
    while i < p.len()
        invariant
            i <= p@.len() <= s@.len(),
            s@.take(i as int) == p@.take(i as int),
        decreases p.len() - i,
    {
        if s[i] != p[i] {
            proof {
                assert(s@.take(p@.len() as int)[i as int] != p@[i as int]);
            }
            return false;
        }
        proof {
            assert(s@.take(i + 1) =~= s@.take(i as int).push(s@[i as int]));
            assert(p@.take(i + 1) =~= p@.take(i as int).push(p@[i as int]));
        }
        i = i + 1;
    }
    proof {
        assert(p@.take(p@.len() as int) =~= p@);
    }
    true
}

fn starts_with_str(s: &str, p: &str) -> (b: bool)
    ensures
        b == starts_with(s@, p@),
{
    starts_with_chars(&chars_of(s), &chars_of(p))
}

/// `s` without surrounding whitespace.
pub(crate) fn trim_chars(s: &Vec<char>) -> (out: Vec<char>)
    ensures
        out@ == trim(s@),
{
    let mut a: usize = 0;
    while a < s.len() && is_whitespace(s[a])
        invariant
            a <= s@.len(),
            lead(s@, 0) == lead(s@, a as int),
        decreases s.len() - a,
    {
        a = a + 1;
    }
    let mut b: usize = s.len();
    while b > a && is_whitespace(s[b - 1])
        invariant
            a <= b <= s@.len(),
            trail(s@, a as int, s@.len() as int) == trail(s@, a as int, b as int),
        decreases b - a,
    {
        b = b - 1;
    }
    let mut out: Vec<char> = Vec::new();
    let mut k = a;
    while k < b
        invariant
            a <= k <= b <= s@.len(),
            out@ == s@.subrange(a as int, k as int),
        decreases b - k,
    {
        out.push(s[k]);
        k = k + 1;
        proof {
            assert(out@ =~= s@.subrange(a as int, k as int));
        }
    }
    out
}

/// The elements `start..end`.
pub(crate) fn sub_chars(s: &Vec<char>, start: usize, end: usize) -> (out: Vec<char>)
    requires
        start <= end <= s@.len(),
    ensures
        out@ == s@.subrange(start as int, end as int),
{
    let mut out: Vec<char> = Vec::new();
    let mut k = start;
    while k < end
        invariant
            start <= k <= end <= s@.len(),
            out@ == s@.subrange(start as int, k as int),
        decreases end - k,
    {
        out.push(s[k]);
        k = k + 1;
        proof {
            assert(out@ =~= s@.subrange(start as int, k as int));
        }
    }
    out
}

/// `str::parse::<u64>`.
fn parse_u64_chars(v: &Vec<char>) -> (n: Option<u64>)
    ensures
        match n {
            Some(x) => parse_u64_spec(v@) == Some(x as nat),
            None => parse_u64_spec(v@) is None,
        },
{
    let start: usize = if v.len() > 0 && v[0] == '+' { 1 } else { 0 };
    let ghost d = if v@.len() > 0 && v@[0] == '+' { v@.drop_first() } else { v@ };
    proof {
        assert(d =~= v@.skip(start as int));
    }
    if start >= v.len() {
        return None;
    }
    let mut acc: u64 = 0;
    let mut i = start;
    while i < v.len()
        invariant
            start <= i <= v@.len(),
            start < v@.len(),
            d == v@.skip(start as int),
            d == (if v@.len() > 0 && v@[0] == '+' { v@.drop_first() } else { v@ }),
            all_digits(v@.subrange(start as int, i as int)),
            acc as nat == digits_value(v@.subrange(start as int, i as int)),
        decreases v.len() - i,
    {
        let c = v[i];
        proof {
            assert(v@.subrange(start as int, i + 1).drop_last() =~= v@.subrange(start as int, i as int));
        }
        if c < '0' || c > '9' {
            proof {
                assert(v@.skip(start as int)[i - start] == v@[i as int]);
                assert(d[i - start] == c);
                assert(!('0' <= d[i - start] <= '9'));
                assert(!all_digits(d));
            }
            return None;
        }
        let digit = (c as u32 - '0' as u32) as u64;
        proof {
            let t = v@.subrange(start as int, i + 1);
            assert(t.last() == c);
            assert(t.drop_last() =~= v@.subrange(start as int, i as int));
            assert forall|q: int| 0 <= q < t.len() implies '0' <= #[trigger] t[q] <= '9' by {
                if q < t.len() - 1 {
                    assert(t[q] == v@.subrange(start as int, i as int)[q]);
                }
            }
            assert(all_digits(t));
            assert(digits_value(t) == digits_value(t.drop_last()) * 10 + digit);
        }
        if acc > (u64::MAX - digit) / 10 {
            proof {
                assert(d.take(i - start + 1) =~= v@.subrange(start as int, i + 1));
                lemma_digits_prefix_bound(d, (i - start) as int);
                assert(acc * 10 + digit > u64::MAX) by (nonlinear_arith)
                    requires
                        acc > (u64::MAX - digit) / 10,
                        digit <= 9,
                ;
            }
            return None;
        }
        acc = acc * 10 + digit;
        i = i + 1;
        proof {
            assert(all_digits(v@.subrange(start as int, i as int)));
        }
    }
    proof {
        assert(v@.subrange(start as int, i as int) =~= d);
    }
    Some(acc)
}

/// A digit prefix never has a larger value than the whole run.
proof fn lemma_digits_prefix_bound(d: Seq<char>, k: int)
    requires
        0 <= k < d.len(),
        all_digits(d.take(k + 1)),
    ensures
        all_digits(d) ==> digits_value(d.take(k + 1)) <= digits_value(d),
    decreases d.len() - k,
{
    if all_digits(d) {
        if k + 1 < d.len() {
            assert(all_digits(d.take(k + 2))) by {
                assert forall|i: int| 0 <= i < d.take(k + 2).len() implies '0' <= #[trigger] d.take(k + 2)[i] <= '9' by {
                    assert(d.take(k + 2)[i] == d[i]);
                }
            }
            lemma_digits_prefix_bound(d, k + 1);
            assert(d.take(k + 2).drop_last() =~= d.take(k + 1));
        } else {
            assert(d.take(k + 1) =~= d);
        }
    }
}

/// Sets `key` to `value` in a detail list.
fn insert_detail(m: &mut Vec<(String, DetailValue)>, key: String, value: DetailValue)
    ensures
        details_view(final(m)@) == insert_kv(details_view(old(m)@), key@, detail_view(value)),
{
    let ghost mv = details_view(m@);
    let mut i: usize = 0;
    while i < m.len()
        invariant
            i <= m@.len(),
            m@ == old(m)@,
            mv == details_view(m@),
            key_index(mv, key@, 0) == key_index(mv, key@, i as int),
        decreases m.len() - i,
    {
        if crate::text::str_eq(m[i].0.as_str(), key.as_str()) {
            proof {
                assert(mv[i as int].0 == key@);
                assert(key_index(mv, key@, i as int) == Some(i as int));
            }
            m.set(i, (key, value));
            proof {
                assert(details_view(m@) =~= mv.update(i as int, (key@, detail_view(value))));
            }
            return;
        }
        i = i + 1;
    }
    m.push((key, value));
    proof {
        assert(details_view(m@) =~= mv.push((key@, detail_view(value))));
    }
}

/// A detail list with one `detail` entry.
fn detail_only(d: String) -> (m: Vec<(String, DetailValue)>)
    ensures
        details_view(m@) == just_detail(d@),
{
    let mut m: Vec<(String, DetailValue)> = Vec::new();
    m.push(("detail".to_string(), DetailValue::Text(d)));
    proof {
        assert(details_view(m@) =~= just_detail(d@));
    }
    m
}

/// A detail list with two text entries.
fn two_details(k1: &str, v1: DetailValue, k2: &str, v2: DetailValue) -> (m: Vec<(String, DetailValue)>)
    ensures
        details_view(m@) == seq![(k1@, detail_view(v1)), (k2@, detail_view(v2))],
{
    let mut m: Vec<(String, DetailValue)> = Vec::new();
    m.push((k1.to_string(), v1));
    m.push((k2.to_string(), v2));
    proof {
        assert(details_view(m@) =~= seq![(k1@, detail_view(v1)), (k2@, detail_view(v2))]);
    }
    m
}

/// A text detail, or null.
fn opt_detail(o: &Option<String>) -> (v: DetailValue)
    ensures
        detail_view(v) == opt_text(*o),
{
    match o {
        Some(s) => DetailValue::Text(s.clone()),
        None => DetailValue::Null,
    }
}

/// The `k=v` pieces of a text set into a detail list in turn.
fn fold_pairs(m: &mut Vec<(String, DetailValue)>, raw: &Vec<char>)
    ensures
        details_view(final(m)@) == kv_fold(details_view(old(m)@), split_from(raw@, 0)),
{
    let ghost m0 = details_view(m@);
    let ghost mut pieces: Seq<Seq<char>> = Seq::empty();
    let mut start: usize = 0;
    loop
        invariant_except_break
            split_from(raw@, 0) == pieces + split_from(raw@, start as int),
        invariant
            start <= raw@.len(),
            details_view(m@) == kv_fold(m0, pieces),
        ensures
            split_from(raw@, 0) == pieces,
            details_view(m@) == kv_fold(m0, pieces),
        decreases raw@.len() - start,
    {
        let mut j = start;
        while raw.len() > 0 && j < raw.len() - 1 && !(raw[j] == ',' && raw[j + 1] == ' ')
            invariant
                start <= j <= raw@.len(),
                sep_from(raw@, start as int) == sep_from(raw@, j as int),
            decreases raw@.len() - j,
        {
            j = j + 1;
        }
        let found = raw.len() > 0 && j < raw.len() - 1;
        let end = if found { j } else { raw.len() };
        let piece = sub_chars(raw, start, end);
        proof {
            let rest = split_from(raw@, start as int);
            if found {
                assert(sep_from(raw@, start as int) == Some(j as int));
                assert(rest == seq![piece@] + split_from(raw@, j + 2));
            } else {
                assert(sep_from(raw@, j as int) is None);
                assert(rest == seq![piece@]);
            }
        }
        // apply the piece
        let mut e: usize = 0;
        while e < piece.len() && piece[e] != '='
            invariant
                e <= piece@.len(),
                eq_from(piece@, 0) == eq_from(piece@, e as int),
            decreases piece.len() - e,
        {
            e = e + 1;
        }
        if e < piece.len() {
            let key = string_from_chars(&sub_chars(&piece, 0, e));
            let vchars = sub_chars(&piece, e + 1, piece.len());
            proof {
                assert(key@ == piece@.take(e as int));
                assert(vchars@ == piece@.skip(e + 1));
            }
            let value = match parse_u64_chars(&vchars) {
                Some(n) => DetailValue::Number(n),
                None => DetailValue::Text(string_from_chars(&vchars)),
            };
            insert_detail(m, key, value);
        }
        proof {
            assert((pieces.push(piece@)).drop_last() =~= pieces);
            pieces = pieces.push(piece@);
        }
        if found {
            start = j + 2;
            proof {
                assert(split_from(raw@, 0) =~= pieces + split_from(raw@, start as int));
            }
        } else {
            proof {
                assert(split_from(raw@, 0) =~= pieces);
            }
            break;
        }
    }
}

/// The message and details of a `<code>: message (k=v, …)` error.
fn feature_error_details(code: &str, raw_detail: &str) -> (r: (String, Vec<(String, DetailValue)>))
    ensures
        r.0@ == feature_details(code@, raw_detail@).0,
        details_view(r.1@) == feature_details(code@, raw_detail@).1,
{
    let raw = chars_of(raw_detail);
    let c = chars_of(code);
    let body = if starts_with_chars(&raw, &c) && raw.len() > c.len() && raw[c.len()] == ':' {
        let rest = sub_chars(&raw, c.len() + 1, raw.len());
        proof {
            assert(rest@ =~= raw@.skip(c@.len() as int + 1));
        }
        trim_chars(&rest)
    } else {
        raw
    };
    // the last " (" in the body
    let mut j: usize = body.len();
    while j >= 2 && !(body[j - 2] == ' ' && body[j - 1] == '(')
        invariant
            j <= body@.len(),
            last_open_before(body@, body@.len() as int) == last_open_before(body@, j as int),
        decreases j,
    {
        j = j - 1;
    }
    if j >= 2 && body.len() > 0 && body[body.len() - 1] == ')' {
        let k = j - 2;
        proof {
            assert(last_open_before(body@, body@.len() as int) == Some(k as int));
        }
        let message = trim_chars(&sub_chars(&body, 0, k));
        proof {
            assert(body@.subrange(0, k as int) =~= body@.take(k as int));
        }
        let message_text = string_from_chars(&message);
        let mut details = detail_only(message_text.clone());
        let inner = sub_chars(&body, k + 2, body.len() - 1);
        fold_pairs(&mut details, &inner);
        (message_text, details)
    } else {
        let text = string_from_chars(&body);
        (text.clone(), detail_only(text))
    }
}

/// The structured error envelope for a failure whose display text is
/// `message`: a stable code per kind of failure (and per `<code>:` prefix
/// of its detail), and the failure's fields as details.
pub fn rpc_error_details(error: &CoreError, message: String) -> (r: RpcErrorDetails)
    ensures
        r.details is Some,
        (r.code@, r.message@, details_view(r.details->0@)) == envelope(*error, message@),
{
    let (code, msg, details): (String, String, Vec<(String, DetailValue)>) = match error {
        CoreError::Io(s) => ("io_error".to_string(), message, detail_only(s.clone())),
        CoreError::UnexpectedEof => ("io_error".to_string(), message, detail_only("unexpected end of file".to_string())),
        CoreError::InvalidInput(d) => {
            let code = if starts_with_str(d.as_str(), "session not found:") {
                "session_not_found"
            } else if starts_with_str(d.as_str(), "session load failed:") {
                "session_load_failed"
            } else {
                "invalid_input"
            };
            (code.to_string(), message, detail_only(d.clone()))
        },
        CoreError::FileNotFound { path, suggestion } => (
            "file_not_found".to_string(),
            message,
            two_details("path", DetailValue::Text(path.clone()), "suggestion", opt_detail(suggestion)),
        ),
        CoreError::NotAnHprof { path, detail } => (
            "not_hprof".to_string(),
            message,
            two_details("path", DetailValue::Text(path.clone()), "detail", DetailValue::Text(detail.clone())),
        ),
        CoreError::HprofParseError { phase, detail } => (
            "hprof_parse_error".to_string(),
            message,
            two_details("phase", DetailValue::Text(phase.clone()), "detail", DetailValue::Text(detail.clone())),
        ),
        CoreError::ConfigError { detail, suggestion } => (
            "config_error".to_string(),
            message,
            two_details("detail", DetailValue::Text(detail.clone()), "suggestion", opt_detail(suggestion)),
        ),
        CoreError::AiProviderError { detail, status } => {
            let st = match status {
                Some(n) => DetailValue::Number(*n as u64),
                None => DetailValue::Null,
            };
            ("provider_error".to_string(), message, two_details("detail", DetailValue::Text(detail.clone()), "status", st))
        },
        CoreError::AiProviderTimeout { detail } => ("provider_timeout".to_string(), message, detail_only(detail.clone())),
        CoreError::NotImplemented(d) => ("not_implemented".to_string(), message, detail_only(d.clone())),
        CoreError::FeatureUnavailableInOverviewMode { feature, hint } => (
            "feature_unavailable_in_overview_mode".to_string(),
            message,
            two_details("feature", DetailValue::Text(feature.clone()), "hint", DetailValue::Text(hint.clone())),
        ),
        CoreError::Unsupported(d) => unsupported_details(d, message),
        CoreError::SerdeJson(s) => ("invalid_params".to_string(), message, detail_only(s.clone())),
        CoreError::Other(s) => {
            let code = if starts_with_str(s.as_str(), "session persist failed:") {
                "session_persist_failed"
            } else {
                "internal_error"
            };
            (code.to_string(), message, detail_only(s.clone()))
        },
    };
    RpcErrorDetails { code, message: msg, details: Some(details) }
}

/// The listed prefix that an `Unsupported` detail starts with (and `:`).
fn find_prefix(d: &str) -> (p: Option<&'static str>)
    ensures
        match p {
            Some(s) => first_prefix(d@, 0) == Some(s@),
            None => first_prefix(d@, 0) is None,
        },
{
    let prefixes: [&'static str; 12] = [
        "feature_unavailable_in_overview_mode",
        "feature_unavailable_object_diff_too_large",
        "feature_unavailable_without_field_data",
        "inspect_object_id_not_found",
        "snapshot_not_found",
        "snapshot_schema_mismatch",
        "snapshot_stale_source",
        "snapshot_corrupt",
        "workflow_not_found",
        "workflow_corrupt",
        "workflow_step_input_mismatch",
        "workflow_already_complete",
    ];
    let with_colon: [&'static str; 12] = [
        "feature_unavailable_in_overview_mode:",
        "feature_unavailable_object_diff_too_large:",
        "feature_unavailable_without_field_data:",
        "inspect_object_id_not_found:",
        "snapshot_not_found:",
        "snapshot_schema_mismatch:",
        "snapshot_stale_source:",
        "snapshot_corrupt:",
        "workflow_not_found:",
        "workflow_corrupt:",
        "workflow_step_input_mismatch:",
        "workflow_already_complete:",
    ];
    proof {
        assert forall|k: int| 0 <= k < 12 implies #[trigger] with_colon@[k]@ == prefixes@[k]@ + ":"@ by {
            reveal_strlit("feature_unavailable_in_overview_mode:");
            reveal_strlit("feature_unavailable_in_overview_mode");
            reveal_strlit("feature_unavailable_object_diff_too_large:");
            reveal_strlit("feature_unavailable_object_diff_too_large");
            reveal_strlit("feature_unavailable_without_field_data:");
            reveal_strlit("feature_unavailable_without_field_data");
            reveal_strlit("inspect_object_id_not_found:");
            reveal_strlit("inspect_object_id_not_found");
            reveal_strlit("snapshot_not_found:");
            reveal_strlit("snapshot_not_found");
            reveal_strlit("snapshot_schema_mismatch:");
            reveal_strlit("snapshot_schema_mismatch");
            reveal_strlit("snapshot_stale_source:");
            reveal_strlit("snapshot_stale_source");
            reveal_strlit("snapshot_corrupt:");
            reveal_strlit("snapshot_corrupt");
            reveal_strlit("workflow_not_found:");
            reveal_strlit("workflow_not_found");
            reveal_strlit("workflow_corrupt:");
            reveal_strlit("workflow_corrupt");
            reveal_strlit("workflow_step_input_mismatch:");
            reveal_strlit("workflow_step_input_mismatch");
            reveal_strlit("workflow_already_complete:");
            reveal_strlit("workflow_already_complete");
            reveal_strlit(":");
            assert(with_colon@[k]@ =~= prefixes@[k]@ + ":"@);
        }
        assert(prefixes@.map_values(|s: &str| s@) =~= unsupported_prefixes());
    }
    let mut k: usize = 0;
    while k < 12
        invariant
            k <= 12,
            prefixes@.map_values(|s: &str| s@) == unsupported_prefixes(),
            forall|i: int| 0 <= i < 12 ==> #[trigger] with_colon@[i]@ == prefixes@[i]@ + ":"@,
            first_prefix(d@, 0) == first_prefix(d@, k as int),
        decreases 12 - k,
    {
        proof {
            assert(unsupported_prefixes()[k as int] == prefixes@[k as int]@);
        }
        if starts_with_str(d, with_colon[k]) {
            return Some(prefixes[k]);
        }
        k = k + 1;
    }
    None
}

/// The envelope parts for an `Unsupported` error.
fn unsupported_details(d: &String, message: String) -> (r: (String, String, Vec<(String, DetailValue)>))
    ensures
        (r.0@, r.1@, details_view(r.2@)) == unsupported_envelope(d@, message@),
{
    match find_prefix(d.as_str()) {
        Some(p) => {
            if crate::text::str_eq(p, "feature_unavailable_in_overview_mode") || crate::text::str_eq(
                p,
                "feature_unavailable_object_diff_too_large",
            ) || crate::text::str_eq(p, "feature_unavailable_without_field_data") {
                let (m, details) = feature_error_details(p, d.as_str());
                (p.to_string(), m, details)
            } else if crate::text::str_eq(p, "inspect_object_id_not_found") {
                ("object_id_not_found".to_string(), message, detail_only(d.clone()))
            } else if crate::text::str_eq(p, "snapshot_not_found") {
                (p.to_string(), message, two_details("detail", DetailValue::Text(d.clone()), "hint", DetailValue::Text(
                    "run `mnemosyne snapshot save <heap>` first, or `mnemosyne snapshot list`".to_string(),
                )))
            } else if crate::text::str_eq(p, "snapshot_schema_mismatch") {
                (p.to_string(), message, two_details("detail", DetailValue::Text(d.clone()), "hint", DetailValue::Text(
                    "run with --refresh, or `mnemosyne snapshot rm <hash>`".to_string(),
                )))
            } else if crate::text::str_eq(p, "snapshot_stale_source") {
                (p.to_string(), message, two_details("detail", DetailValue::Text(d.clone()), "hint", DetailValue::Text(
                    "run with --refresh to re-parse and update the cache".to_string(),
                )))
            } else if crate::text::str_eq(p, "snapshot_corrupt") {
                (p.to_string(), message, two_details("detail", DetailValue::Text(d.clone()), "hint", DetailValue::Text(
                    "run `mnemosyne snapshot rm <hash>` and re-run without --snapshot".to_string(),
                )))
            } else {
                (p.to_string(), message, detail_only(d.clone()))
            }
        },
        None => {
            let code = if find_text(&chars_of(d.as_str()), &chars_of("session_version")) {
                "session_version_unsupported"
            } else {
                "unsupported"
            };
            (code.to_string(), message, detail_only(d.clone()))
        },
    }
}


// ---------------------------------------------------------------------------
// Object ids given to the `inspect_object` tool.

/// The error for an object id that is not in the heap.
pub fn inspect_object_id_not_found(object_id: &str, heap_path: &str) -> (e: CoreError)
    ensures
        e matches CoreError::Unsupported(m) && m@ == "inspect_object_id_not_found: object id '"@ + object_id@
            + "' was not found in heap dump '"@ + heap_path@ + "'"@,
{
    let mut out = chars_of("inspect_object_id_not_found: object id '");
    crate::text::push_str(&mut out, object_id);
    crate::text::push_str(&mut out, "' was not found in heap dump '");
    crate::text::push_str(&mut out, heap_path);
    crate::text::push_str(&mut out, "'");
    CoreError::Unsupported(string_from_chars(&out))
}

/// The value of a hexadecimal digit.
pub open spec fn hex_digit_value(c: char) -> Option<nat> {
    if '0' <= c <= '9' {
        Some((c as u32 - '0' as u32) as nat)
    } else if 'a' <= c <= 'f' {
        Some((c as u32 - 'a' as u32 + 10) as nat)
    } else if 'A' <= c <= 'F' {
        Some((c as u32 - 'A' as u32 + 10) as nat)
    } else {
        None
    }
}

/// The value of a run of hexadecimal digits, `None` at a non-digit.
pub open spec fn hex_value(s: Seq<char>) -> Option<nat>
    decreases s.len(),
{
    if s.len() == 0 {
        Some(0)
    } else {
        match (hex_value(s.drop_last()), hex_digit_value(s.last())) {
            (Some(v), Some(d)) => Some(v * 16 + d),
            _ => None,
        }
    }
}

/// What `u64::from_str_radix(s, 16)` accepts: an optional `+` and one or
/// more hexadecimal digits whose value fits.
pub open spec fn parse_hex_spec(s: Seq<char>) -> Option<nat> {
    let d = if s.len() > 0 && s[0] == '+' { s.drop_first() } else { s };
    match hex_value(d) {
        Some(v) => if d.len() > 0 && v <= u64::MAX { Some(v) } else { None },
        None => None,
    }
}

/// Some character is a hexadecimal letter.
pub open spec fn has_hex_letter(s: Seq<char>) -> bool {
    exists|i: int| 0 <= i < s.len() && (('A' <= #[trigger] s[i] <= 'F') || ('a' <= s[i] <= 'f'))
}

/// An object id as the tool takes it: surrounding whitespace ignored;
/// `0x`/`0X` and hexadecimal digits; bare hexadecimal when any letter
/// `a`-`f` occurs; else decimal.
pub open spec fn object_id_spec(input: Seq<char>) -> Option<nat> {
    let t = trim(input);
    if t.len() == 0 {
        None
    } else if starts_with(t, "0x"@) || starts_with(t, "0X"@) {
        parse_hex_spec(t.skip(2))
    } else if has_hex_letter(t) {
        parse_hex_spec(t)
    } else {
        parse_u64_spec(t)
    }
}

/// `u64::from_str_radix(s, 16)`.
fn parse_hex_chars(s: &Vec<char>) -> (n: Option<u64>)
    ensures
        match n {
            Some(x) => parse_hex_spec(s@) == Some(x as nat),
            None => parse_hex_spec(s@) is None,
        },
{
    let start: usize = if s.len() > 0 && s[0] == '+' { 1 } else { 0 };
    let ghost d = if s@.len() > 0 && s@[0] == '+' { s@.drop_first() } else { s@ };
    proof {
        assert(d =~= s@.skip(start as int));
    }
    if start >= s.len() {
        return None;
    }
    let mut acc: u64 = 0;
    let mut i = start;
    while i < s.len()
        invariant
            start <= i <= s@.len(),
            start < s@.len(),
            d == s@.skip(start as int),
            d == (if s@.len() > 0 && s@[0] == '+' { s@.drop_first() } else { s@ }),
            hex_value(s@.subrange(start as int, i as int)) == Some(acc as nat),
        decreases s.len() - i,
    {
        let c = s[i];
        let ghost t = s@.subrange(start as int, i + 1);
        proof {
            assert(t.drop_last() =~= s@.subrange(start as int, i as int));
            assert(t.last() == c);
        }
        let digit: u64 = if '0' <= c && c <= '9' {
            (c as u32 - '0' as u32) as u64
        } else if 'a' <= c && c <= 'f' {
            (c as u32 - 'a' as u32 + 10) as u64
        } else if 'A' <= c && c <= 'F' {
            (c as u32 - 'A' as u32 + 10) as u64
        } else {
            proof {
                assert(hex_value(t) is None);
                lemma_hex_prefix_none(d, (i - start) as int);
                assert(d.take(i - start + 1) =~= t);
            }
            return None;
        };
        if acc > (u64::MAX - digit) / 16 {
            proof {
                assert(acc * 16 + digit > u64::MAX) by (nonlinear_arith)
                    requires
                        acc > (u64::MAX - digit) / 16,
                        digit <= 15,
                ;
                assert(d.take(i - start + 1) =~= t);
                lemma_hex_prefix_bound(d, (i - start) as int);
            }
            return None;
        }
        acc = acc * 16 + digit;
        i = i + 1;
    }
    proof {
        assert(s@.subrange(start as int, i as int) =~= d);
    }
    Some(acc)
}

/// A prefix with a non-digit makes the whole run invalid.
proof fn lemma_hex_prefix_none(d: Seq<char>, k: int)
    requires
        0 <= k < d.len(),
        hex_value(d.take(k + 1)) is None,
    ensures
        hex_value(d) is None,
    decreases d.len() - k,
{
    if k + 1 < d.len() {
        assert(d.take(k + 2).drop_last() =~= d.take(k + 1));
        lemma_hex_prefix_none(d, k + 1);
    } else {
        assert(d.take(k + 1) =~= d);
    }
}

/// A hexadecimal prefix never has a larger value than the whole run.
proof fn lemma_hex_prefix_bound(d: Seq<char>, k: int)
    requires
        0 <= k < d.len(),
        hex_value(d.take(k + 1)) is Some,
    ensures
        hex_value(d) matches Some(v) ==> hex_value(d.take(k + 1))->0 <= v,
    decreases d.len() - k,
{
    if k + 1 < d.len() {
        assert(d.take(k + 2).drop_last() =~= d.take(k + 1));
        if hex_value(d.take(k + 2)) is Some {
            lemma_hex_prefix_bound(d, k + 1);
        } else {
            lemma_hex_prefix_none(d, k + 1);
        }
    } else {
        assert(d.take(k + 1) =~= d);
    }
}

/// Parses an object id given to the `inspect_object` tool.
pub fn parse_inspect_object_id(input: &str) -> (id: Option<u64>)
    ensures
        match id {
            Some(x) => object_id_spec(input@) == Some(x as nat),
            None => object_id_spec(input@) is None,
        },
{
    let t = trim_chars(&chars_of(input));
    if t.len() == 0 {
        return None;
    }
    if starts_with_chars(&t, &chars_of("0x")) || starts_with_chars(&t, &chars_of("0X")) {
        proof {
            reveal_strlit("0x");
            reveal_strlit("0X");
        }
        let hex = sub_chars(&t, 2, t.len());
        proof {
            assert(hex@ =~= t@.skip(2));
        }
        return parse_hex_chars(&hex);
    }
    let mut k: usize = 0;
    let mut letter = false;
    while k < t.len()
        invariant
            k <= t@.len(),
            letter == exists|i: int| 0 <= i < k && (('A' <= #[trigger] t@[i] <= 'F') || ('a' <= t@[i] <= 'f')),
        decreases t.len() - k,
    {
        let c = t[k];
        if ('A' <= c && c <= 'F') || ('a' <= c && c <= 'f') {
            letter = true;
        }
        k = k + 1;
    }
    if letter {
        parse_hex_chars(&t)
    } else {
        parse_u64_chars(&t)
    }
}

} // verus!
