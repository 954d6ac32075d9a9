//! A recursive-descent parser for the object query language.
//!
//! The parser walks the input character by character and keeps, beside the
//! character index, the UTF-8 byte offset of that index: error messages
//! report the byte offset (`"<message> at byte <n>"`).

use vstd::prelude::*;
use crate::query::types::{
    BuiltInField, ClassPattern, ComparisonOp, Condition, FieldRef, FromClause, LogicalOp, Query,
    QueryParseError, QueryStatement, SelectClause, TraversalFunction, Value, WhereClause,
    MAX_MULTI_CLASS_FROM_LIST_SIZE, MAX_OBJECTS_FIELD_HOPS,
};
use crate::pattern::{regex_compile_error, regex_check};
use crate::text::{chars_of, dec_chars, push_decimal, push_str, push_chars, string_from_chars};

verus! {

/// How many `OBJECTS (<query>)` levels may nest below a top-level query.
pub const MAX_SUBQUERY_NESTING_DEPTH: usize = 1;

// ---------------------------------------------------------------------------
// Characters
// ---------------------------------------------------------------------------

/// Number of bytes of a character in UTF-8.
pub open spec fn char_utf8_len(c: char) -> nat {
    let v = c as u32;
    if v < 0x80 { 1 } else if v < 0x800 { 2 } else if v < 0x10000 { 3 } else { 4 }
}

/// Number of bytes of a character sequence in UTF-8.
pub open spec fn utf8_len(s: Seq<char>) -> nat
    decreases s.len(),
{
    if s.len() == 0 { 0 } else { utf8_len(s.drop_last()) + char_utf8_len(s.last()) }
}

/// The Unicode `White_Space` property (what `char::is_whitespace` tests).
pub open spec fn is_whitespace_char(c: char) -> bool {
    let v = c as u32;
    ||| 0x9 <= v <= 0xD
    ||| v == 0x20
    ||| v == 0x85
    ||| v == 0xA0
    ||| v == 0x1680
    ||| 0x2000 <= v <= 0x200A
    ||| v == 0x2028
    ||| v == 0x2029
    ||| v == 0x202F
    ||| v == 0x205F
    ||| v == 0x3000
}

pub open spec fn is_ascii_digit_char(c: char) -> bool {
    '0' <= c <= '9'
}

pub open spec fn is_ascii_alnum_char(c: char) -> bool {
    ||| '0' <= c <= '9'
    ||| 'a' <= c <= 'z'
    ||| 'A' <= c <= 'Z'
}

/// Characters that may continue a keyword (a keyword must not be followed by one).
pub open spec fn is_word_char(c: char) -> bool {
    is_ascii_alnum_char(c) || c == '_'
}

/// Characters of an identifier.
pub open spec fn is_ident_char(c: char) -> bool {
    is_ascii_alnum_char(c) || c == '_' || c == '.'
}

/// The code of a character with ASCII upper case folded to lower case.
pub open spec fn ascii_fold(c: char) -> u32 {
    if 'A' <= c <= 'Z' { ((c as u32) + 32) as u32 } else { c as u32 }
}

fn ch_len(c: char) -> (n: usize)
    ensures
        n == char_utf8_len(c),
{
    let v = c as u32;
    if v < 0x80 {
        1
    } else if v < 0x800 {
        2
    } else if v < 0x10000 {
        3
    } else {
        4
    }
}

pub fn is_whitespace(c: char) -> (b: bool)
    ensures
        b == is_whitespace_char(c),
{
    let v = c as u32;
    (0x9 <= v && v <= 0xD) || v == 0x20 || v == 0x85 || v == 0xA0 || v == 0x1680 || (0x2000 <= v
        && v <= 0x200A) || v == 0x2028 || v == 0x2029 || v == 0x202F || v == 0x205F || v == 0x3000
}

fn is_ascii_digit(c: char) -> (b: bool)
    ensures
        b == is_ascii_digit_char(c),
{
    '0' <= c && c <= '9'
}

fn is_word(c: char) -> (b: bool)
    ensures
        b == is_word_char(c),
{
    ('0' <= c && c <= '9') || ('a' <= c && c <= 'z') || ('A' <= c && c <= 'Z') || c == '_'
}

fn is_ident(c: char) -> (b: bool)
    ensures
        b == is_ident_char(c),
{
    is_word(c) || c == '.'
}

fn fold(c: char) -> (v: u32)
    ensures
        v == ascii_fold(c),
{
    if 'A' <= c && c <= 'Z' {
        (c as u32) + 32
    } else {
        c as u32
    }
}

proof fn lemma_utf8_len_step(s: Seq<char>, p: int)
    requires
        0 <= p < s.len(),
    ensures
        utf8_len(s.take(p + 1)) == utf8_len(s.take(p)) + char_utf8_len(s[p]),
{
    assert(s.take(p + 1).drop_last() =~= s.take(p));
}

proof fn lemma_utf8_len_prefix(s: Seq<char>, p: int, q: int)
    requires
        0 <= p <= q <= s.len(),
    ensures
        utf8_len(s.take(p)) <= utf8_len(s.take(q)),
    decreases q - p,
{
    if p < q {
        lemma_utf8_len_prefix(s, p, q - 1);
        lemma_utf8_len_step(s, q - 1);
    }
}

// ---------------------------------------------------------------------------
// Positions
// ---------------------------------------------------------------------------

/// The first position at or after `p` that does not hold whitespace.
pub open spec fn after_ws(s: Seq<char>, p: int) -> int
    decreases s.len() - p,
{
    if 0 <= p < s.len() && is_whitespace_char(s[p]) { after_ws(s, p + 1) } else { p }
}

/// The end of the run of characters satisfying `f` that starts at `p`.
pub open spec fn run_end(s: Seq<char>, p: int, f: spec_fn(char) -> bool) -> int
    decreases s.len() - p,
{
    if 0 <= p < s.len() && f(s[p]) { run_end(s, p + 1, f) } else { p }
}

proof fn lemma_run_end(s: Seq<char>, p: int, f: spec_fn(char) -> bool)
    requires
        0 <= p <= s.len(),
    ensures
        p <= run_end(s, p, f) <= s.len(),
        forall|i: int| p <= i < run_end(s, p, f) ==> #[trigger] f(s[i]),
        run_end(s, p, f) < s.len() ==> !f(s[run_end(s, p, f)]),
    decreases s.len() - p,
{
    if p < s.len() && f(s[p]) {
        lemma_run_end(s, p + 1, f);
    }
}

proof fn lemma_after_ws(s: Seq<char>, p: int)
    requires
        0 <= p <= s.len(),
    ensures
        p <= after_ws(s, p) <= s.len(),
        after_ws(s, p) < s.len() ==> !is_whitespace_char(s[after_ws(s, p)]),
    decreases s.len() - p,
{
    if p < s.len() && is_whitespace_char(s[p]) {
        lemma_after_ws(s, p + 1);
    }
}

/// Whether keyword `k` stands at position `q`: its characters, ASCII case
/// ignored, not followed by a letter, digit or underscore.
pub open spec fn keyword_at(s: Seq<char>, q: int, k: Seq<char>) -> bool {
    &&& q + k.len() <= s.len()
    &&& forall|i: int| 0 <= i < k.len() ==> ascii_fold(#[trigger] s[q + i]) == ascii_fold(k[i])
    &&& !(q + k.len() < s.len() && is_word_char(s[q + k.len()]))
}

/// Whether `t` stands verbatim at position `q`.
pub open spec fn token_at(s: Seq<char>, q: int, t: Seq<char>) -> bool {
    q + t.len() <= s.len() && s.subrange(q, q + t.len()) == t
}

/// The text of an error noticed at byte offset `byte`.
pub open spec fn error_text(message: Seq<char>, byte: nat) -> Seq<char> {
    message + " at byte "@ + dec_chars(byte)
}

// ---------------------------------------------------------------------------
// The parser state
// ---------------------------------------------------------------------------

/// Parser state: the input's characters, a character index into them and
/// the UTF-8 byte offset of that index.
pub struct Parser {
    input: Vec<char>,
    pos: usize,
    byte_pos: usize,
}

/// Byte length of a string slice (std `str::len`), which is the length of
/// its UTF-8 encoding.
#[verifier::external_body]
fn str_byte_len(s: &str) -> (n: usize)
    ensures
        n == utf8_len(s@),
{
    s.len()
}

impl Parser {
    /// The input characters.
    pub closed spec fn text(&self) -> Seq<char> {
        self.input@
    }

    /// The current character index.
    pub closed spec fn at(&self) -> int {
        self.pos as int
    }

    /// The byte offset of the current position.
    pub open spec fn byte_at(&self) -> nat {
        utf8_len(self.text().take(self.at()))
    }

    pub closed spec fn wf(&self) -> bool {
        &&& self.pos <= self.input@.len()
        &&& self.input@.len() <= usize::MAX
        &&& self.byte_pos == utf8_len(self.input@.take(self.pos as int))
        &&& utf8_len(self.input@) <= usize::MAX
    }

    /// A parser at the start of `input`.
    pub fn new(input: &str) -> (p: Parser)
        ensures
            p.wf(),
            p.text() == input@,
            p.at() == 0,
    {
        let n = str_byte_len(input);
        let chars = chars_of(input);
        let _len = chars.len();
        let p = Parser { input: chars, pos: 0, byte_pos: 0 };
        proof {
            assert(p.input@.take(0) =~= Seq::<char>::empty());
        }
        p
    }

    /// Whether the whole input has been consumed.
    pub fn is_eof(&self) -> (b: bool)
        requires
            self.wf(),
        ensures
            b == (self.at() >= self.text().len()),
    {
        self.pos >= self.input.len()
    }

    /// The character at the current position.
    fn peek_char(&self) -> (c: Option<char>)
        requires
            self.wf(),
        ensures
            c == (if self.at() < self.text().len() { Some(self.text()[self.at()]) } else { None }),
    {
        if self.pos < self.input.len() {
            Some(self.input[self.pos])
        } else {
            None
        }
    }

    /// Moves past the current character.
    fn advance(&mut self)
        requires
            old(self).wf(),
            old(self).at() < old(self).text().len(),
        ensures
            final(self).wf(),
            final(self).text() == old(self).text(),
            old(self).at() <= final(self).at(),
            final(self).at() == old(self).at() + 1,
    {
        proof {
            lemma_utf8_len_step(self.input@, self.pos as int);
            lemma_utf8_len_prefix(self.input@, self.pos + 1, self.input@.len() as int);
            assert(self.input@.take(self.input@.len() as int) =~= self.input@);
        }
        let c = self.input[self.pos];
        self.byte_pos = self.byte_pos + ch_len(c);
        self.pos = self.pos + 1;
    }

    /// Skips whitespace.
    pub fn skip_ws(&mut self)
        requires
            old(self).wf(),
        ensures
            final(self).wf(),
            final(self).text() == old(self).text(),
            old(self).at() <= final(self).at(),
            final(self).at() == after_ws(old(self).text(), old(self).at()),
    {
        let ghost s = self.input@;
        let ghost start = self.pos as int;
        while self.pos < self.input.len() && is_whitespace(self.input[self.pos])
            invariant
                self.wf(),
                self.input@ == s,
                after_ws(s, self.at()) == after_ws(s, start),
                start <= self.at(),
            decreases self.input@.len() - self.pos,
        {
            self.advance();
        }
    }

    /// The error for `message` at the current byte offset.
    fn error(&self, message: &Vec<char>) -> (e: QueryParseError)
        requires
            self.wf(),
        ensures
            e.message_view() == error_text(message@, self.byte_at()),
    {
        let mut out = message.clone();
        push_str(&mut out, " at byte ");
        push_decimal(&mut out, self.byte_pos as u64);
        proof {
            assert(out@ =~= error_text(message@, self.byte_at()));
        }
        QueryParseError::new(string_from_chars(&out))
    }

    /// The error for a message given as a string slice.
    fn error_str(&self, message: &str) -> (e: QueryParseError)
        requires
            self.wf(),
        ensures
            e.message_view() == error_text(message@, self.byte_at()),
    {
        self.error(&chars_of(message))
    }

    /// Skips whitespace, then consumes `expected` if it comes next.
    pub fn consume_char(&mut self, expected: char) -> (b: bool)
        requires
            old(self).wf(),
        ensures
            final(self).wf(),
            final(self).text() == old(self).text(),
            old(self).at() <= final(self).at(),
            ({
                let q = after_ws(old(self).text(), old(self).at());
                &&& b == (q < old(self).text().len() && old(self).text()[q] == expected)
                &&& final(self).at() == (if b { q + 1 } else { q })
            }),
    {
        self.skip_ws();
        if self.pos < self.input.len() && self.input[self.pos] == expected {
            self.advance();
            true
        } else {
            false
        }
    }

    /// Skips whitespace, then consumes `token` if it comes next verbatim.
    pub fn consume_token(&mut self, token: &str) -> (b: bool)
        requires
            old(self).wf(),
        ensures
            final(self).wf(),
            final(self).text() == old(self).text(),
            old(self).at() <= final(self).at(),
            ({
                let q = after_ws(old(self).text(), old(self).at());
                &&& b == token_at(old(self).text(), q, token@)
                &&& final(self).at() == (if b { q + token@.len() } else { q })
            }),
    {
        self.skip_ws();
        let t = chars_of(token);
        let ghost s = self.input@;
        let ghost q = self.pos as int;
        proof {
            lemma_after_ws(s, old(self).at());
        }
        if self.input.len() - self.pos < t.len() {
            return false;
        }
        let mut i: usize = 0;
        while i < t.len()
            invariant
                self.wf(),
                self.input@ == s,
                s == old(self).text(),
                q == after_ws(s, old(self).at()),
                old(self).at() <= q,
                self.pos == q,
                q + t@.len() <= s.len(),
                t@ == token@,
                i <= t@.len(),
                forall|j: int| 0 <= j < i ==> s[q + j] == t@[j],
            decreases t.len() - i,
        {
            if self.input[self.pos + i] != t[i] {
                proof {
                    assert(s.subrange(q, q + t@.len())[i as int] != t@[i as int]);
                }
                return false;
            }
            i = i + 1;
        }
        proof {
            assert(s.subrange(q, q + t@.len()) =~= t@);
        }
        let mut k: usize = 0;
        while k < t.len()
            invariant
                self.wf(),
                self.input@ == s,
                s == old(self).text(),
                q == after_ws(s, old(self).at()),
                old(self).at() <= q,
                q + t@.len() <= s.len(),
                t@ == token@,
                k <= t@.len(),
                self.at() == q + k,
            decreases t.len() - k,
        {
            self.advance();
            k = k + 1;
        }
        true
    }

    /// Skips whitespace, then consumes keyword `keyword` (ASCII case
    /// ignored) if it comes next and is not followed by a letter, digit or
    /// underscore.
    pub fn consume_keyword(&mut self, keyword: &str) -> (b: bool)
        requires
            old(self).wf(),
        ensures
            final(self).wf(),
            final(self).text() == old(self).text(),
            old(self).at() <= final(self).at(),
            ({
                let q = after_ws(old(self).text(), old(self).at());
                &&& b == keyword_at(old(self).text(), q, keyword@)
                &&& final(self).at() == (if b { q + keyword@.len() } else { q })
            }),
    {
        self.skip_ws();
        let k = chars_of(keyword);
        let ghost s = self.input@;
        let ghost q = self.pos as int;
        proof {
            lemma_after_ws(s, old(self).at());
        }
        if self.input.len() - self.pos < k.len() {
            return false;
        }
        let mut i: usize = 0;
        while i < k.len()
            invariant
                self.wf(),
                self.input@ == s,
                s == old(self).text(),
                q == after_ws(s, old(self).at()),
                old(self).at() <= q,
                self.pos == q,
                q + k@.len() <= s.len(),
                k@ == keyword@,
                i <= k@.len(),
                forall|j: int| 0 <= j < i ==> ascii_fold(#[trigger] s[q + j]) == ascii_fold(k@[j]),
            decreases k.len() - i,
        {
            if fold(self.input[self.pos + i]) != fold(k[i]) {
                return false;
            }
            i = i + 1;
        }
        let end = self.pos + k.len();
        if end < self.input.len() && is_word(self.input[end]) {
            return false;
        }
        let mut j: usize = 0;
        while j < k.len()
            invariant
                self.wf(),
                self.input@ == s,
                s == old(self).text(),
                q == after_ws(s, old(self).at()),
                old(self).at() <= q,
                q + k@.len() <= s.len(),
                k@ == keyword@,
                j <= k@.len(),
                self.at() == q + j,
            decreases k.len() - j,
        {
            self.advance();
            j = j + 1;
        }
        true
    }
}


// ---------------------------------------------------------------------------
// Tokens
// ---------------------------------------------------------------------------

pub open spec fn digit_pred() -> spec_fn(char) -> bool {
    |c: char| is_ascii_digit_char(c)
}

pub open spec fn ident_pred() -> spec_fn(char) -> bool {
    |c: char| is_ident_char(c)
}

pub open spec fn not_char(d: char) -> spec_fn(char) -> bool {
    |c: char| c != d
}

/// The byte offset of character index `q`.
pub open spec fn byte_of(s: Seq<char>, q: int) -> nat {
    utf8_len(s.take(q))
}

/// The value of a run of decimal digits.
pub open spec fn digits_value(s: Seq<char>) -> nat
    decreases s.len(),
{
    if s.len() == 0 {
        0
    } else {
        digits_value(s.drop_last()) * 10 + ((s.last() as u32) - ('0' as u32)) as nat
    }
}

/// Whether a quoted string opens at `q`.
pub open spec fn opens_quote(s: Seq<char>, q: int) -> bool {
    0 <= q < s.len() && (s[q] == '"' || s[q] == '\'')
}

/// The index of the delimiter that closes the string opened at `q`
/// (the input length if there is none).
pub open spec fn quote_close(s: Seq<char>, q: int) -> int {
    run_end(s, q + 1, not_char(s[q]))
}

/// The built-in field named by an identifier written after `@`.
pub open spec fn builtin_named(name: Seq<char>) -> Option<BuiltInField> {
    if name == "objectId"@ {
        Some(BuiltInField::ObjectId)
    } else if name == "className"@ {
        Some(BuiltInField::ClassName)
    } else if name == "shallowSize"@ {
        Some(BuiltInField::ShallowSize)
    } else if name == "retainedSize"@ {
        Some(BuiltInField::RetainedSize)
    } else if name == "objectAddress"@ {
        Some(BuiltInField::ObjectAddress)
    } else if name == "toString"@ {
        Some(BuiltInField::ToString)
    } else if name == "gcRootPath"@ {
        Some(BuiltInField::GcRootPath)
    } else {
        None
    }
}

/// The comparison operator at `q` and the position after it: the
/// two-character tokens first, `=~` before `=`, then the word operators.
pub open spec fn comparison_at(s: Seq<char>, q: int) -> Option<(ComparisonOp, int)> {
    if token_at(s, q, "!="@) {
        Some((ComparisonOp::Ne, q + 2))
    } else if token_at(s, q, ">="@) {
        Some((ComparisonOp::Ge, q + 2))
    } else if token_at(s, q, "<="@) {
        Some((ComparisonOp::Le, q + 2))
    } else if token_at(s, q, "=~"@) {
        Some((ComparisonOp::RegexMatch, q + 2))
    } else if token_at(s, q, "="@) {
        Some((ComparisonOp::Eq, q + 1))
    } else if token_at(s, q, ">"@) {
        Some((ComparisonOp::Gt, q + 1))
    } else if token_at(s, q, "<"@) {
        Some((ComparisonOp::Lt, q + 1))
    } else if keyword_at(s, q, "LIKE"@) {
        Some((ComparisonOp::Like, q + 4))
    } else if keyword_at(s, q, "CONTAINS"@) {
        Some((ComparisonOp::Contains, q + 8))
    } else if keyword_at(s, q, "INSTANCEOF"@) {
        Some((ComparisonOp::InstanceOf, q + 10))
    } else {
        None
    }
}

proof fn lemma_after_ws_idem(s: Seq<char>, p: int)
    requires
        0 <= p <= s.len(),
    ensures
        after_ws(s, after_ws(s, p)) == after_ws(s, p),
{
    lemma_after_ws(s, p);
}

proof fn lemma_digits_value_step(s: Seq<char>, i: int)
    requires
        0 <= i < s.len(),
    ensures
        digits_value(s.take(i + 1)) == digits_value(s.take(i)) * 10 + ((s[i] as u32) - ('0' as u32)) as nat,
{
    assert(s.take(i + 1).drop_last() =~= s.take(i));
}

/// The value of a run of digits, or `None` past `u64::MAX`.
fn digits_to_u64(v: &Vec<char>) -> (r: Option<u64>)
    requires
        forall|i: int| 0 <= i < v@.len() ==> is_ascii_digit_char(#[trigger] v@[i]),
    ensures
        match r {
            Some(x) => x == digits_value(v@),
            None => digits_value(v@) > u64::MAX,
        },
{
    let mut acc: u64 = 0;
    let mut over = false;
    let mut i: usize = 0;
    while i < v.len()
        invariant
            i <= v@.len(),
            forall|j: int| 0 <= j < v@.len() ==> is_ascii_digit_char(#[trigger] v@[j]),
            !over ==> acc == digits_value(v@.take(i as int)),
            over ==> digits_value(v@.take(i as int)) > u64::MAX,
        decreases v.len() - i,
    {
        proof {
            lemma_digits_value_step(v@, i as int);
        }
        let d = (v[i] as u32) - ('0' as u32);
        if !over {
            match acc.checked_mul(10) {
                Some(m) => match m.checked_add(d as u64) {
                    Some(t) => {
                        acc = t;
                    },
                    None => {
                        over = true;
                    },
                },
                None => {
                    over = true;
                },
            }
        } else {
            proof {
                let a = digits_value(v@.take(i as int));
                assert(a * 10 + d >= a) by (nonlinear_arith)
                    requires
                        a >= 0,
                        d >= 0,
                ;
            }
        }
        i = i + 1;
    }
    proof {
        assert(v@.take(v@.len() as int) =~= v@);
    }
    if over {
        None
    } else {
        Some(acc)
    }
}

impl Parser {
    /// The characters between two positions.
    fn chars_between(&self, a: usize, b: usize) -> (v: Vec<char>)
        requires
            self.wf(),
            a <= b <= self.text().len(),
        ensures
            v@ == self.text().subrange(a as int, b as int),
    {
        let mut v: Vec<char> = Vec::new();
        let mut i = a;
        while i < b
            invariant
                a <= i <= b,
                b <= self.input@.len(),
                v@ == self.input@.subrange(a as int, i as int),
            decreases b - i,
        {
            v.push(self.input[i]);
            i = i + 1;
            proof {
                assert(v@ =~= self.input@.subrange(a as int, i as int));
            }
        }
        v
    }

    /// Moves past the run of ASCII digits at the current position.
    fn skip_digits(&mut self)
        requires
            old(self).wf(),
        ensures
            final(self).wf(),
            final(self).text() == old(self).text(),
            old(self).at() <= final(self).at(),
            final(self).at() == run_end(old(self).text(), old(self).at(), digit_pred()),
    {
        let ghost s = self.input@;
        let ghost start = self.pos as int;
        while self.pos < self.input.len() && is_ascii_digit(self.input[self.pos])
            invariant
                self.wf(),
                self.input@ == s,
                run_end(s, self.at(), digit_pred()) == run_end(s, start, digit_pred()),
                start <= self.at(),
            decreases self.input@.len() - self.pos,
        {
            self.advance();
        }
    }

    /// Moves past the run of identifier characters at the current position.
    fn skip_ident(&mut self)
        requires
            old(self).wf(),
        ensures
            final(self).wf(),
            final(self).text() == old(self).text(),
            old(self).at() <= final(self).at(),
            final(self).at() == run_end(old(self).text(), old(self).at(), ident_pred()),
    {
        let ghost s = self.input@;
        let ghost start = self.pos as int;
        while self.pos < self.input.len() && is_ident(self.input[self.pos])
            invariant
                self.wf(),
                self.input@ == s,
                run_end(s, self.at(), ident_pred()) == run_end(s, start, ident_pred()),
                start <= self.at(),
            decreases self.input@.len() - self.pos,
        {
            self.advance();
        }
    }

    /// Skips whitespace, then reads an identifier: a non-empty run of ASCII
    /// letters, digits, `_` and `.`.
    pub fn parse_identifier(&mut self) -> (r: Result<String, QueryParseError>)
        requires
            old(self).wf(),
        ensures
            final(self).wf(),
            final(self).text() == old(self).text(),
            old(self).at() <= final(self).at(),
            ({
                let s = old(self).text();
                let q = after_ws(s, old(self).at());
                let e = run_end(s, q, ident_pred());
                &&& final(self).at() == e
                &&& match r {
                    Ok(name) => q < e && name@ == s.subrange(q, e),
                    Err(err) => q == e && err.message_view() == error_text("expected identifier"@, byte_of(s, q)),
                }
            }),
    {
        self.skip_ws();
        proof {
            lemma_after_ws(self.input@, old(self).at());
            lemma_run_end(self.input@, self.pos as int, ident_pred());
        }
        let start = self.pos;
        self.skip_ident();
        if self.pos == start {
            return Err(self.error_str("expected identifier"));
        }
        let v = self.chars_between(start, self.pos);
        Ok(string_from_chars(&v))
    }

    /// Skips whitespace, then reads a string in double or single quotes; the
    /// content runs to the next occurrence of the opening delimiter.
    pub fn parse_quoted_string(&mut self) -> (r: Result<String, QueryParseError>)
        requires
            old(self).wf(),
        ensures
            final(self).wf(),
            final(self).text() == old(self).text(),
            old(self).at() <= final(self).at(),
            ({
                let s = old(self).text();
                let q = after_ws(s, old(self).at());
                if !opens_quote(s, q) {
                    &&& final(self).at() == q
                    &&& r matches Err(err) && err.message_view() == error_text("expected quoted string"@, byte_of(s, q))
                } else if quote_close(s, q) < s.len() {
                    &&& final(self).at() == quote_close(s, q) + 1
                    &&& r matches Ok(t) && t@ == s.subrange(q + 1, quote_close(s, q))
                } else {
                    &&& final(self).at() == s.len()
                    &&& r matches Err(err) && err.message_view() == error_text("unterminated quoted string"@, byte_of(s, s.len() as int))
                }
            }),
    {
        self.skip_ws();
        let ghost s = self.input@;
        proof {
            lemma_after_ws(s, old(self).at());
        }
        if !(self.pos < self.input.len() && (self.input[self.pos] == '"' || self.input[self.pos] == '\'')) {
            return Err(self.error_str("expected quoted string"));
        }
        let q = self.pos;
        let delimiter = self.input[q];
        self.advance();
        let start = self.pos;
        proof {
            lemma_run_end(s, start as int, not_char(delimiter));
        }
        while self.pos < self.input.len() && self.input[self.pos] != delimiter
            invariant
                self.wf(),
                self.input@ == s,
                start <= self.pos,
                run_end(s, self.at(), not_char(delimiter)) == run_end(s, start as int, not_char(delimiter)),
            decreases self.input@.len() - self.pos,
        {
            self.advance();
        }
        if self.pos < self.input.len() {
            let v = self.chars_between(start, self.pos);
            self.advance();
            Ok(string_from_chars(&v))
        } else {
            Err(self.error_str("unterminated quoted string"))
        }
    }
}


/// The value of an integer literal with the given sign and magnitude, if it
/// fits in `i64`.
pub open spec fn int_literal_value(negative: bool, magnitude: nat) -> Option<int> {
    if negative {
        if magnitude <= 0x8000_0000_0000_0000 { Some(-magnitude) } else { None }
    } else {
        if magnitude <= 0x7fff_ffff_ffff_ffff { Some(magnitude as int) } else { None }
    }
}

/// Looks up a built-in field by name.
fn builtin_from_name(name: &str) -> (f: Option<BuiltInField>)
    ensures
        f == builtin_named(name@),
{
    if crate::text::str_eq(name, "objectId") {
        Some(BuiltInField::ObjectId)
    } else if crate::text::str_eq(name, "className") {
        Some(BuiltInField::ClassName)
    } else if crate::text::str_eq(name, "shallowSize") {
        Some(BuiltInField::ShallowSize)
    } else if crate::text::str_eq(name, "retainedSize") {
        Some(BuiltInField::RetainedSize)
    } else if crate::text::str_eq(name, "objectAddress") {
        Some(BuiltInField::ObjectAddress)
    } else if crate::text::str_eq(name, "toString") {
        Some(BuiltInField::ToString)
    } else if crate::text::str_eq(name, "gcRootPath") {
        Some(BuiltInField::GcRootPath)
    } else {
        None
    }
}

impl Parser {
    /// Skips whitespace, then reads an unsigned decimal integer.
    pub fn parse_usize(&mut self) -> (r: Result<usize, QueryParseError>)
        requires
            old(self).wf(),
        ensures
            final(self).wf(),
            final(self).text() == old(self).text(),
            old(self).at() <= final(self).at(),
            ({
                let s = old(self).text();
                let q = after_ws(s, old(self).at());
                let e = run_end(s, q, digit_pred());
                &&& final(self).at() == e
                &&& if e == q {
                    r matches Err(err) && err.message_view() == error_text("expected integer"@, byte_of(s, q))
                } else if digits_value(s.subrange(q, e)) <= usize::MAX {
                    r matches Ok(n) && n == digits_value(s.subrange(q, e))
                } else {
                    r matches Err(err) && err.message_view() == error_text("invalid integer"@, byte_of(s, e))
                }
            }),
    {
        self.skip_ws();
        let ghost s = self.input@;
        proof {
            lemma_after_ws(s, old(self).at());
            lemma_run_end(s, self.pos as int, digit_pred());
        }
        let start = self.pos;
        self.skip_digits();
        if self.pos == start {
            return Err(self.error_str("expected integer"));
        }
        let digits = self.chars_between(start, self.pos);
        proof {
            assert forall|i: int| 0 <= i < digits@.len() implies is_ascii_digit_char(#[trigger] digits@[i]) by {
                assert(digits@[i] == s[start + i]);
                assert(digit_pred()(s[start + i]));
            }
        }
        match digits_to_u64(&digits) {
            Some(x) => {
                if x <= usize::MAX as u64 {
                    Ok(x as usize)
                } else {
                    Err(self.error_str("invalid integer"))
                }
            },
            None => Err(self.error_str("invalid integer")),
        }
    }

    /// Skips whitespace, then reads an object id: an unsigned decimal
    /// integer that fits in `u64`.
    pub fn parse_object_id(&mut self) -> (r: Result<u64, QueryParseError>)
        requires
            old(self).wf(),
        ensures
            final(self).wf(),
            final(self).text() == old(self).text(),
            old(self).at() <= final(self).at(),
            ({
                let s = old(self).text();
                let q = after_ws(s, old(self).at());
                let e = run_end(s, q, digit_pred());
                &&& final(self).at() == e
                &&& if e == q {
                    r matches Err(err) && err.message_view() == error_text("expected object id"@, byte_of(s, q))
                } else if digits_value(s.subrange(q, e)) <= u64::MAX {
                    r matches Ok(n) && n == digits_value(s.subrange(q, e))
                } else {
                    r matches Err(err) && err.message_view() == error_text(
                        "invalid object id '"@ + s.subrange(q, e) + "'"@,
                        byte_of(s, e),
                    )
                }
            }),
    {
        self.skip_ws();
        let ghost s = self.input@;
        proof {
            lemma_after_ws(s, old(self).at());
            lemma_run_end(s, self.pos as int, digit_pred());
        }
        let start = self.pos;
        self.skip_digits();
        if self.pos == start {
            return Err(self.error_str("expected object id"));
        }
        let digits = self.chars_between(start, self.pos);
        proof {
            assert forall|i: int| 0 <= i < digits@.len() implies is_ascii_digit_char(#[trigger] digits@[i]) by {
                assert(digits@[i] == s[start + i]);
                assert(digit_pred()(s[start + i]));
            }
        }
        match digits_to_u64(&digits) {
            Some(x) => Ok(x),
            None => {
                let mut m: Vec<char> = Vec::new();
                push_str(&mut m, "invalid object id '");
                push_chars(&mut m, &digits);
                push_str(&mut m, "'");
                Err(self.error(&m))
            },
        }
    }

    /// Skips whitespace, then reads a literal: a quoted string, `null`,
    /// `true`, `false`, or a decimal integer with an optional `-` that fits
    /// in `i64`.
    pub fn parse_value(&mut self) -> (r: Result<Value, QueryParseError>)
        requires
            old(self).wf(),
        ensures
            final(self).wf(),
            final(self).text() == old(self).text(),
            old(self).at() <= final(self).at(),
            ({
                let s = old(self).text();
                let q = after_ws(s, old(self).at());
                if opens_quote(s, q) {
                    if quote_close(s, q) < s.len() {
                        &&& final(self).at() == quote_close(s, q) + 1
                        &&& r matches Ok(Value::Str(t)) && t@ == s.subrange(q + 1, quote_close(s, q))
                    } else {
                        &&& final(self).at() == s.len()
                        &&& r matches Err(err) && err.message_view() == error_text("unterminated quoted string"@, byte_of(s, s.len() as int))
                    }
                } else if keyword_at(s, q, "null"@) {
                    final(self).at() == q + "null"@.len() && r == Ok::<Value, QueryParseError>(Value::Null)
                } else if keyword_at(s, q, "true"@) {
                    final(self).at() == q + "true"@.len() && r == Ok::<Value, QueryParseError>(Value::Bool(true))
                } else if keyword_at(s, q, "false"@) {
                    final(self).at() == q + "false"@.len() && r == Ok::<Value, QueryParseError>(Value::Bool(false))
                } else {
                    let negative = q < s.len() && s[q] == '-';
                    let d = if negative { q + 1 } else { q };
                    let e = run_end(s, d, digit_pred());
                    &&& final(self).at() == e
                    &&& if e == d {
                        r matches Err(err) && err.message_view() == error_text("expected value"@, byte_of(s, e))
                    } else {
                        match int_literal_value(negative, digits_value(s.subrange(d, e))) {
                            Some(v) => r matches Ok(Value::Int(x)) && x == v,
                            None => r matches Err(err) && err.message_view() == error_text(
                                "invalid integer literal '"@ + s.subrange(q, e) + "'"@,
                                byte_of(s, e),
                            ),
                        }
                    }
                }
            }),
    {
        self.skip_ws();
        let ghost s = self.input@;
        let ghost q = self.pos as int;
        proof {
            lemma_after_ws(s, old(self).at());
            lemma_after_ws_idem(s, old(self).at());
        }
        if self.pos < self.input.len() && (self.input[self.pos] == '"' || self.input[self.pos] == '\'') {
            return match self.parse_quoted_string() {
                Ok(t) => Ok(Value::Str(t)),
                Err(e) => Err(e),
            };
        }
        if self.consume_keyword("null") {
            return Ok(Value::Null);
        }
        if self.consume_keyword("true") {
            return Ok(Value::Bool(true));
        }
        if self.consume_keyword("false") {
            return Ok(Value::Bool(false));
        }
        let start = self.pos;
        let negative = self.pos < self.input.len() && self.input[self.pos] == '-';
        if negative {
            self.advance();
        }
        let d = self.pos;
        proof {
            lemma_run_end(s, d as int, digit_pred());
        }
        self.skip_digits();
        if self.pos == d {
            return Err(self.error_str("expected value"));
        }
        let digits = self.chars_between(d, self.pos);
        proof {
            assert forall|i: int| 0 <= i < digits@.len() implies is_ascii_digit_char(#[trigger] digits@[i]) by {
                assert(digits@[i] == s[d + i]);
                assert(digit_pred()(s[d + i]));
            }
        }
        let magnitude = digits_to_u64(&digits);
        let value: Option<i64> = match magnitude {
            Some(x) => {
                if negative {
                    if x == 0x8000_0000_0000_0000u64 {
                        Some(i64::MIN)
                    } else if x < 0x8000_0000_0000_0000u64 {
                        Some(-(x as i64))
                    } else {
                        None
                    }
                } else if x <= 0x7fff_ffff_ffff_ffffu64 {
                    Some(x as i64)
                } else {
                    None
                }
            },
            None => None,
        };
        match value {
            Some(v) => Ok(Value::Int(v)),
            None => {
                let raw = self.chars_between(start, self.pos);
                let mut m: Vec<char> = Vec::new();
                push_str(&mut m, "invalid integer literal '");
                push_chars(&mut m, &raw);
                push_str(&mut m, "'");
                Err(self.error(&m))
            },
        }
    }

    /// Skips whitespace, then reads a field reference: `@` and the name of a
    /// built-in field, or an instance field path.
    pub fn parse_field_ref(&mut self) -> (r: Result<FieldRef, QueryParseError>)
        requires
            old(self).wf(),
        ensures
            final(self).wf(),
            final(self).text() == old(self).text(),
            old(self).at() <= final(self).at(),
            ({
                let s = old(self).text();
                let q = after_ws(s, old(self).at());
                if q < s.len() && s[q] == '@' {
                    let a = after_ws(s, q + 1);
                    let e = run_end(s, a, ident_pred());
                    &&& final(self).at() == e
                    &&& if e == a {
                        r matches Err(err) && err.message_view() == error_text("expected identifier"@, byte_of(s, a))
                    } else {
                        match builtin_named(s.subrange(a, e)) {
                            Some(f) => r == Ok::<FieldRef, QueryParseError>(FieldRef::BuiltIn(f)),
                            None => r matches Err(err) && err.message_view() == error_text(
                                "invalid built-in field '@"@ + s.subrange(a, e) + "'"@,
                                byte_of(s, e),
                            ),
                        }
                    }
                } else {
                    let e = run_end(s, q, ident_pred());
                    &&& final(self).at() == e
                    &&& if e == q {
                        r matches Err(err) && err.message_view() == error_text("expected identifier"@, byte_of(s, q))
                    } else {
                        r matches Ok(FieldRef::InstanceField(n)) && n@ == s.subrange(q, e)
                    }
                }
            }),
    {
        let ghost s = self.input@;
        proof {
            lemma_after_ws(s, old(self).at());
            lemma_after_ws_idem(s, old(self).at());
        }
        if self.consume_char('@') {
            let ident = self.parse_identifier()?;
            match builtin_from_name(ident.as_str()) {
                Some(f) => Ok(FieldRef::BuiltIn(f)),
                None => {
                    let mut m: Vec<char> = Vec::new();
                    push_str(&mut m, "invalid built-in field '@");
                    push_str(&mut m, ident.as_str());
                    push_str(&mut m, "'");
                    Err(self.error(&m))
                },
            }
        } else {
            let ident = self.parse_identifier()?;
            Ok(FieldRef::InstanceField(ident))
        }
    }

    /// Skips whitespace, then reads a comparison operator.
    pub fn parse_comparison_op(&mut self) -> (r: Result<ComparisonOp, QueryParseError>)
        requires
            old(self).wf(),
        ensures
            final(self).wf(),
            final(self).text() == old(self).text(),
            old(self).at() <= final(self).at(),
            ({
                let s = old(self).text();
                let q = after_ws(s, old(self).at());
                match comparison_at(s, q) {
                    Some((op, e)) => r == Ok::<ComparisonOp, QueryParseError>(op) && final(self).at() == e,
                    None => {
                        &&& final(self).at() == q
                        &&& r matches Err(err) && err.message_view() == error_text("expected comparison operator"@, byte_of(s, q))
                    },
                }
            }),
    {
        self.skip_ws();
        proof {
            lemma_after_ws(self.input@, old(self).at());
            lemma_after_ws_idem(self.input@, old(self).at());
            reveal_strlit("!=");
            reveal_strlit(">=");
            reveal_strlit("<=");
            reveal_strlit("=~");
            reveal_strlit("=");
            reveal_strlit(">");
            reveal_strlit("<");
            reveal_strlit("LIKE");
            reveal_strlit("CONTAINS");
            reveal_strlit("INSTANCEOF");
        }
        if self.consume_token("!=") {
            return Ok(ComparisonOp::Ne);
        }
        if self.consume_token(">=") {
            return Ok(ComparisonOp::Ge);
        }
        if self.consume_token("<=") {
            return Ok(ComparisonOp::Le);
        }
        if self.consume_token("=~") {
            return Ok(ComparisonOp::RegexMatch);
        }
        if self.consume_token("=") {
            return Ok(ComparisonOp::Eq);
        }
        if self.consume_token(">") {
            return Ok(ComparisonOp::Gt);
        }
        if self.consume_token("<") {
            return Ok(ComparisonOp::Lt);
        }
        if self.consume_keyword("LIKE") {
            return Ok(ComparisonOp::Like);
        }
        if self.consume_keyword("CONTAINS") {
            return Ok(ComparisonOp::Contains);
        }
        if self.consume_keyword("INSTANCEOF") {
            return Ok(ComparisonOp::InstanceOf);
        }
        Err(self.error_str("expected comparison operator"))
    }

    /// Consumes keyword `keyword`, or fails naming it.
    pub fn expect_keyword(&mut self, keyword: &str) -> (r: Result<(), QueryParseError>)
        requires
            old(self).wf(),
        ensures
            final(self).wf(),
            final(self).text() == old(self).text(),
            old(self).at() <= final(self).at(),
            ({
                let s = old(self).text();
                let q = after_ws(s, old(self).at());
                if keyword_at(s, q, keyword@) {
                    r is Ok && final(self).at() == q + keyword@.len()
                } else {
                    &&& final(self).at() == q
                    &&& r matches Err(err) && err.message_view() == error_text("expected keyword '"@ + keyword@ + "'"@, byte_of(s, q))
                }
            }),
    {
        if self.consume_keyword(keyword) {
            Ok(())
        } else {
            let mut m: Vec<char> = Vec::new();
            push_str(&mut m, "expected keyword '");
            push_str(&mut m, keyword);
            push_str(&mut m, "'");
            Err(self.error(&m))
        }
    }
}


// ---------------------------------------------------------------------------
// Validation
// ---------------------------------------------------------------------------

/// Number of non-empty `.`-separated segments of a path.
pub open spec fn segment_count(p: Seq<char>) -> nat
    decreases p.len(),
{
    if p.len() == 0 {
        0
    } else {
        let starts = p.last() != '.' && (p.len() == 1 || p[p.len() - 2] == '.');
        segment_count(p.drop_last()) + if starts { 1nat } else { 0nat }
    }
}

/// Reference hops of a `SELECT OBJECTS` field path: a single segment is one
/// hop; of several, the first names the object itself and each other one is
/// a hop.
pub open spec fn objects_hops(path: Seq<char>) -> nat {
    let n = segment_count(path);
    if n <= 1 { n } else { (n - 1) as nat }
}

/// A `SELECT OBJECTS` field within the hop limit.
pub open spec fn objects_field_ok(f: FieldRef) -> bool {
    match f {
        FieldRef::InstanceField(p) => objects_hops(p@) <= MAX_OBJECTS_FIELD_HOPS,
        FieldRef::BuiltIn(_) => true,
    }
}

/// The message for a `SELECT OBJECTS` path over the hop limit.
pub open spec fn too_many_hops_message(path: Seq<char>) -> Seq<char> {
    "multi-hop OBJECTS exceeds limit of "@ + dec_chars(MAX_OBJECTS_FIELD_HOPS as nat) + " field hops: '"@
        + path + "'"@
}

fn count_segments(path: &Vec<char>) -> (n: usize)
    ensures
        n == segment_count(path@),
{
    let mut n: usize = 0;
    let mut i: usize = 0;
    while i < path.len()
        invariant
            i <= path@.len(),
            n == segment_count(path@.take(i as int)),
            n <= i,
        decreases path.len() - i,
    {
        proof {
            let t = path@.take(i as int + 1);
            assert(t.drop_last() =~= path@.take(i as int));
            if i > 0 {
                assert(t[t.len() - 2] == path@[i - 1]);
            }
        }
        if path[i] != '.' && (i == 0 || path[i - 1] == '.') {
            n = n + 1;
        }
        i = i + 1;
    }
    proof {
        assert(path@.take(path@.len() as int) =~= path@);
    }
    n
}

/// Rejects `SELECT OBJECTS` field paths with more than
/// `MAX_OBJECTS_FIELD_HOPS` reference hops.
pub fn validate_objects_field_hops(field: &FieldRef) -> (r: Result<(), QueryParseError>)
    ensures
        r is Ok <==> objects_field_ok(*field),
        r matches Err(e) ==> (field matches FieldRef::InstanceField(p) && e.message_view() == too_many_hops_message(p@)),
{
    match field {
        FieldRef::BuiltIn(_) => Ok(()),
        FieldRef::InstanceField(path) => {
            let cs = chars_of(path.as_str());
            let n = count_segments(&cs);
            let hops = if n <= 1 { n } else { n - 1 };
            if hops > MAX_OBJECTS_FIELD_HOPS {
                let mut m: Vec<char> = Vec::new();
                push_str(&mut m, "multi-hop OBJECTS exceeds limit of ");
                push_decimal(&mut m, MAX_OBJECTS_FIELD_HOPS as u64);
                push_str(&mut m, " field hops: '");
                push_chars(&mut m, &cs);
                push_str(&mut m, "'");
                proof {
                    assert(m@ =~= too_many_hops_message(path@));
                }
                Err(QueryParseError::new(string_from_chars(&m)))
            } else {
                Ok(())
            }
        },
    }
}

// ---------------------------------------------------------------------------
// Well-formed queries
// ---------------------------------------------------------------------------

/// `IS [NOT] NULL` compares with `null`; `=~` carries a pattern that
/// compiles.
pub open spec fn condition_ok(c: Condition) -> bool {
    &&& (c.op == ComparisonOp::IsNull || c.op == ComparisonOp::IsNotNull) ==> c.value == Value::Null
    &&& c.op == ComparisonOp::RegexMatch ==> (c.value matches Value::Str(p) && regex_compile_error(p@) is None)
}

/// One more condition than connectives, each condition well formed.
pub open spec fn where_ok(w: WhereClause) -> bool {
    &&& w.conditions@.len() == w.operators@.len() + 1
    &&& forall|i: int| 0 <= i < w.conditions@.len() ==> condition_ok(#[trigger] w.conditions@[i])
}

pub open spec fn select_ok(s: SelectClause) -> bool {
    match s {
        SelectClause::All => true,
        SelectClause::Fields(v) => v@.len() >= 1,
        SelectClause::Objects(f) => objects_field_ok(f),
        SelectClause::DistinctObjects(f) => objects_field_ok(f),
    }
}

/// A single quoted class pattern: non-empty, a glob exactly when it holds `*`.
pub open spec fn single_pattern_ok(p: ClassPattern) -> bool {
    match p {
        ClassPattern::Exact(t) => t@.len() > 0 && !t@.contains('*'),
        ClassPattern::Glob(t) => t@.len() > 0 && t@.contains('*'),
        _ => false,
    }
}

/// One class pattern, or a list of two up to `MAX_MULTI_CLASS_FROM_LIST_SIZE`.
pub open spec fn pattern_list_ok(p: ClassPattern) -> bool {
    ||| single_pattern_ok(p)
    ||| p matches ClassPattern::Multi(v) && (2 <= v@.len() <= MAX_MULTI_CLASS_FROM_LIST_SIZE
        && forall|i: int| 0 <= i < v@.len() ==> single_pattern_ok(#[trigger] v@[i]))
}

/// A `FROM` source other than a subquery.
pub open spec fn from_flat_ok(f: FromClause) -> bool {
    ||| pattern_list_ok(f.class_pattern)
    ||| !f.instanceof && f.class_pattern is Traversal
}

pub open spec fn query_flat_ok(q: Query) -> bool {
    &&& select_ok(q.select)
    &&& from_flat_ok(q.from)
    &&& q.filter matches Some(w) ==> where_ok(w)
}

/// A `FROM` source at subquery depth `depth`: a subquery only above the
/// nesting limit, and then one without a subquery of its own.
pub open spec fn from_ok(f: FromClause, depth: nat) -> bool {
    ||| from_flat_ok(f)
    ||| {
        &&& depth < MAX_SUBQUERY_NESTING_DEPTH
        &&& !f.instanceof
        &&& f.class_pattern matches ClassPattern::Subquery(inner) && query_flat_ok(*inner)
    }
}

/// A query as the parser builds it at subquery depth `depth`.
pub open spec fn query_ok(q: Query, depth: nat) -> bool {
    &&& select_ok(q.select)
    &&& from_ok(q.from, depth)
    &&& q.filter matches Some(w) ==> where_ok(w)
}

/// Where a quoted, non-empty class pattern read from `p` ends.
pub open spec fn class_pattern_end(s: Seq<char>, p: int) -> Option<int> {
    let q = after_ws(s, p);
    if opens_quote(s, q) && quote_close(s, q) < s.len() && s.subrange(q + 1, quote_close(s, q)).len() > 0 {
        Some(quote_close(s, q) + 1)
    } else {
        None
    }
}

/// Where the rest of a class pattern list ends, `count` patterns having
/// been read up to `e`: a comma brings one more, up to the list limit.
pub open spec fn pattern_list_rest(s: Seq<char>, e: int, count: nat) -> Option<int>
    decreases s.len() - e,
{
    let c = after_ws(s, e);
    if c < s.len() && s[c] == ',' {
        match class_pattern_end(s, c + 1) {
            Some(e2) => if count + 1 > MAX_MULTI_CLASS_FROM_LIST_SIZE {
                None
            } else if e < e2 <= s.len() {
                pattern_list_rest(s, e2, count + 1)
            } else {
                None
            },
            None => None,
        }
    } else {
        Some(c)
    }
}

/// Where a comma-separated list of class patterns read from `p` ends.
pub open spec fn pattern_list_end(s: Seq<char>, p: int) -> Option<int> {
    match class_pattern_end(s, p) {
        Some(e1) => pattern_list_rest(s, e1, 1),
        None => None,
    }
}

/// Where a field reference read from `p` ends: `@` and a known built-in
/// name, or an identifier.
pub open spec fn field_ref_end(s: Seq<char>, p: int) -> Option<int> {
    let q = after_ws(s, p);
    if q < s.len() && s[q] == '@' {
        let a = after_ws(s, q + 1);
        let e = run_end(s, a, ident_pred());
        if e != a && builtin_named(s.subrange(a, e)) is Some { Some(e) } else { None }
    } else {
        let e = run_end(s, q, ident_pred());
        if e != q { Some(e) } else { None }
    }
}

/// Where a value read from `p` ends: a closed quoted string, `null`,
/// `true`, `false`, or an integer literal in range.
pub open spec fn value_end(s: Seq<char>, p: int) -> Option<int> {
    let q = after_ws(s, p);
    if opens_quote(s, q) {
        if quote_close(s, q) < s.len() { Some(quote_close(s, q) + 1) } else { None }
    } else if keyword_at(s, q, "null"@) {
        Some(q + "null"@.len())
    } else if keyword_at(s, q, "true"@) {
        Some(q + "true"@.len())
    } else if keyword_at(s, q, "false"@) {
        Some(q + "false"@.len())
    } else {
        let negative = q < s.len() && s[q] == '-';
        let d = if negative { q + 1 } else { q };
        let e = run_end(s, d, digit_pred());
        if e != d && int_literal_value(negative, digits_value(s.subrange(d, e))) is Some { Some(e) } else { None }
    }
}

/// The text of a quoted string value read from `p`, if the value is one.
pub open spec fn value_text(s: Seq<char>, p: int) -> Option<Seq<char>> {
    let q = after_ws(s, p);
    if opens_quote(s, q) && quote_close(s, q) < s.len() {
        Some(s.subrange(q + 1, quote_close(s, q)))
    } else {
        None
    }
}

/// Where a condition read from `p` ends: a field, then `IS [NOT] NULL`, or
/// an operator and a value (a `=~` value being a pattern that compiles).
pub open spec fn condition_end(s: Seq<char>, p: int) -> Option<int> {
    match field_ref_end(s, p) {
        Some(e1) => {
            let k = after_ws(s, e1);
            if keyword_at(s, k, "IS"@) {
                let k2 = after_ws(s, k + "IS"@.len());
                let k3 = if keyword_at(s, k2, "NOT"@) { after_ws(s, k2 + "NOT"@.len()) } else { k2 };
                if keyword_at(s, k3, "NULL"@) { Some(k3 + "NULL"@.len()) } else { None }
            } else {
                match comparison_at(s, k) {
                    Some((op, e2)) => match value_end(s, e2) {
                        Some(e3) => if op == ComparisonOp::RegexMatch {
                            match value_text(s, e2) {
                                Some(t) => if regex_compile_error(t) is None { Some(e3) } else { None },
                                None => None,
                            }
                        } else {
                            Some(e3)
                        },
                        None => None,
                    },
                    None => None,
                }
            }
        },
        None => None,
    }
}

/// Where the rest of a WHERE clause, read up to `e`, ends: each `AND` or
/// `OR` brings one more condition.
pub open spec fn where_rest(s: Seq<char>, e: int) -> Option<int>
    decreases s.len() - e,
{
    let k = after_ws(s, e);
    if keyword_at(s, k, "AND"@) || keyword_at(s, k, "OR"@) {
        let k2 = if keyword_at(s, k, "AND"@) { k + "AND"@.len() } else { k + "OR"@.len() };
        match condition_end(s, k2) {
            Some(e2) => if e < e2 <= s.len() { where_rest(s, e2) } else { None },
            None => None,
        }
    } else {
        Some(k)
    }
}

/// Where a WHERE clause read from `p` ends.
pub open spec fn where_end(s: Seq<char>, p: int) -> Option<int> {
    match condition_end(s, p) {
        Some(e1) => where_rest(s, e1),
        None => None,
    }
}

/// Where a `SELECT OBJECTS` field read from `p` ends, when it is within
/// the hop limit.
pub open spec fn objects_field_end(s: Seq<char>, p: int) -> Option<int> {
    match field_ref_end(s, p) {
        Some(e) => {
            let q = after_ws(s, p);
            if q < s.len() && s[q] == '@' {
                Some(e)
            } else if objects_hops(s.subrange(q, e)) <= MAX_OBJECTS_FIELD_HOPS {
                Some(e)
            } else {
                None
            }
        },
        None => None,
    }
}

/// Where the rest of a projected field list, read up to `e`, ends.
pub open spec fn field_list_rest(s: Seq<char>, e: int) -> Option<int>
    decreases s.len() - e,
{
    let k = after_ws(s, e);
    if k < s.len() && s[k] == ',' {
        match field_ref_end(s, k + 1) {
            Some(e2) => if e < e2 <= s.len() { field_list_rest(s, e2) } else { None },
            None => None,
        }
    } else {
        Some(k)
    }
}

/// Where a SELECT projection read from `p` ends.
pub open spec fn select_end(s: Seq<char>, p: int) -> Option<int> {
    let q = after_ws(s, p);
    if keyword_at(s, q, "DISTINCT"@) {
        let k = after_ws(s, q + "DISTINCT"@.len());
        if keyword_at(s, k, "OBJECTS"@) { objects_field_end(s, k + "OBJECTS"@.len()) } else { None }
    } else if q < s.len() && s[q] == '*' {
        Some(q + 1)
    } else if keyword_at(s, q, "OBJECTS"@) {
        objects_field_end(s, q + "OBJECTS"@.len())
    } else {
        match field_ref_end(s, q) {
            Some(e1) => field_list_rest(s, e1),
            None => None,
        }
    }
}

/// Where an unsigned integer read from `p` ends, when it fits in `usize`.
pub open spec fn usize_end(s: Seq<char>, p: int) -> Option<int> {
    let q = after_ws(s, p);
    let e = run_end(s, q, digit_pred());
    if e != q && digits_value(s.subrange(q, e)) <= usize::MAX { Some(e) } else { None }
}

/// A traversal function read from `p`: `Some(None)` when none of its
/// keywords comes next, `Some(Some(e))` when one is read whole up to `e`,
/// `None` when it is malformed.
pub open spec fn traversal_end(s: Seq<char>, p: int) -> Option<Option<int>> {
    let q = after_ws(s, p);
    let kw = if keyword_at(s, q, "outbounds"@) {
        Some("outbounds"@.len())
    } else if keyword_at(s, q, "inbounds"@) {
        Some("inbounds"@.len())
    } else if keyword_at(s, q, "dominators"@) {
        Some("dominators"@.len())
    } else {
        None
    };
    match kw {
        None => Some(None),
        Some(len) => {
            let k = after_ws(s, q + len);
            if !(k < s.len() && s[k] == '(') {
                None
            } else {
                let a = after_ws(s, k + 1);
                let e = run_end(s, a, digit_pred());
                if e == a || digits_value(s.subrange(a, e)) > u64::MAX {
                    None
                } else {
                    let c = after_ws(s, e);
                    if c < s.len() && s[c] == ')' { Some(Some(c + 1)) } else { None }
                }
            }
        },
    }
}

/// A subquery source read from `p` at nesting depth `depth`: `Some(None)`
/// when `OBJECTS` does not come next, `Some(Some(e))` when
/// `OBJECTS (<query>)` is read whole up to `e`, `None` otherwise.
pub open spec fn subquery_end(s: Seq<char>, p: int, depth: int) -> Option<Option<int>>
    decreases MAX_SUBQUERY_NESTING_DEPTH - depth, 0int,
{
    let q = after_ws(s, p);
    if !keyword_at(s, q, "OBJECTS"@) {
        Some(None)
    } else {
        let k = after_ws(s, q + "OBJECTS"@.len());
        if !(k < s.len() && s[k] == '(') || depth >= MAX_SUBQUERY_NESTING_DEPTH {
            None
        } else {
            match query_body_end(s, k + 1, depth + 1) {
                Some(e) => {
                    let c = after_ws(s, e);
                    if c < s.len() && s[c] == ')' { Some(Some(c + 1)) } else { None }
                },
                None => None,
            }
        }
    }
}

/// Where a FROM source read from `p` ends.
pub open spec fn from_end(s: Seq<char>, p: int, depth: int) -> Option<int>
    decreases MAX_SUBQUERY_NESTING_DEPTH - depth, 1int,
{
    let q = after_ws(s, p);
    if keyword_at(s, q, "INSTANCEOF"@) {
        pattern_list_end(s, q + "INSTANCEOF"@.len())
    } else {
        match traversal_end(s, q) {
            None => None,
            Some(Some(e)) => Some(e),
            Some(None) => match subquery_end(s, q, depth) {
                None => None,
                Some(Some(e)) => Some(e),
                Some(None) => pattern_list_end(s, q),
            },
        }
    }
}

/// Where `SELECT … FROM … [WHERE …] [LIMIT n]` read from `p` ends.
pub open spec fn query_body_end(s: Seq<char>, p: int, depth: int) -> Option<int>
    decreases MAX_SUBQUERY_NESTING_DEPTH - depth, 2int,
{
    let q = after_ws(s, p);
    if !keyword_at(s, q, "SELECT"@) {
        None
    } else {
        match select_end(s, q + "SELECT"@.len()) {
            Some(e1) => {
                let k = after_ws(s, e1);
                if !keyword_at(s, k, "FROM"@) {
                    None
                } else {
                    match from_end(s, k + "FROM"@.len(), depth) {
                        Some(e2) => {
                            let w = after_ws(s, e2);
                            let e3 = if keyword_at(s, w, "WHERE"@) { where_end(s, w + "WHERE"@.len()) } else { Some(w) };
                            match e3 {
                                Some(e3) => {
                                    let l = after_ws(s, e3);
                                    if keyword_at(s, l, "LIMIT"@) { usize_end(s, l + "LIMIT"@.len()) } else { Some(l) }
                                },
                                None => None,
                            }
                        },
                        None => None,
                    }
                }
            },
            None => None,
        }
    }
}

/// The error a field reference read from `p` reports when it is malformed:
/// no identifier, or an unknown built-in name.
pub open spec fn field_ref_error(s: Seq<char>, p: int) -> Seq<char> {
    let q = after_ws(s, p);
    if q < s.len() && s[q] == '@' {
        let a = after_ws(s, q + 1);
        let e = run_end(s, a, ident_pred());
        if e == a {
            error_text("expected identifier"@, byte_of(s, a))
        } else {
            error_text("invalid built-in field '@"@ + s.subrange(a, e) + "'"@, byte_of(s, e))
        }
    } else {
        error_text("expected identifier"@, byte_of(s, q))
    }
}

/// The error a `SELECT OBJECTS` field read from `p` reports: that of a
/// malformed field, or the hop limit.
pub open spec fn objects_field_error(s: Seq<char>, p: int) -> Seq<char> {
    match field_ref_end(s, p) {
        Some(e) => too_many_hops_message(s.subrange(after_ws(s, p), e)),
        None => field_ref_error(s, p),
    }
}

/// The error the rest of a projected field list, read up to `e`, reports:
/// that of the first malformed field after a comma.
pub open spec fn field_list_error(s: Seq<char>, e: int) -> Seq<char>
    decreases s.len() - e,
{
    let k = after_ws(s, e);
    match field_ref_end(s, k + 1) {
        Some(e2) => if e < e2 <= s.len() { field_list_error(s, e2) } else { Seq::empty() },
        None => field_ref_error(s, k + 1),
    }
}

/// The error a malformed SELECT projection read from `p` reports.
pub open spec fn select_error(s: Seq<char>, p: int) -> Seq<char> {
    let q = after_ws(s, p);
    if keyword_at(s, q, "DISTINCT"@) {
        let k = after_ws(s, q + "DISTINCT"@.len());
        if keyword_at(s, k, "OBJECTS"@) {
            objects_field_error(s, k + "OBJECTS"@.len())
        } else {
            error_text(
                "DISTINCT is only supported with OBJECTS projection (SELECT DISTINCT OBJECTS ...); SELECT DISTINCT * / field lists are unsupported"@,
                byte_of(s, k),
            )
        }
    } else if keyword_at(s, q, "OBJECTS"@) {
        objects_field_error(s, q + "OBJECTS"@.len())
    } else {
        match field_ref_end(s, q) {
            Some(e1) => field_list_error(s, e1),
            None => field_ref_error(s, q),
        }
    }
}

/// The error a malformed value read from `p` reports: an unterminated
/// string, a missing value, or an integer literal out of range.
pub open spec fn value_error(s: Seq<char>, p: int) -> Seq<char> {
    let q = after_ws(s, p);
    if opens_quote(s, q) {
        error_text("unterminated quoted string"@, byte_of(s, s.len() as int))
    } else {
        let negative = q < s.len() && s[q] == '-';
        let d = if negative { q + 1 } else { q };
        let e = run_end(s, d, digit_pred());
        if e == d {
            error_text("expected value"@, byte_of(s, e))
        } else {
            error_text("invalid integer literal '"@ + s.subrange(q, e) + "'"@, byte_of(s, e))
        }
    }
}

/// The error a malformed condition read from `p` reports.
pub open spec fn condition_error(s: Seq<char>, p: int) -> Seq<char> {
    match field_ref_end(s, p) {
        None => field_ref_error(s, p),
        Some(e1) => {
            let k = after_ws(s, e1);
            if keyword_at(s, k, "IS"@) {
                let k2 = after_ws(s, k + "IS"@.len());
                let k3 = if keyword_at(s, k2, "NOT"@) { after_ws(s, k2 + "NOT"@.len()) } else { k2 };
                error_text("expected keyword '"@ + "NULL"@ + "'"@, byte_of(s, k3))
            } else {
                match comparison_at(s, k) {
                    None => error_text("expected comparison operator"@, byte_of(s, k)),
                    Some((op, e2)) => match value_end(s, e2) {
                        None => value_error(s, e2),
                        Some(e3) => match value_text(s, e2) {
                            Some(t) => error_text(
                                "invalid regex pattern '"@ + t + "': "@ + regex_compile_error(t)->0,
                                byte_of(s, e3),
                            ),
                            None => error_text("=~ requires a quoted regex pattern"@, byte_of(s, e3)),
                        },
                    },
                }
            }
        },
    }
}

/// The error the rest of a WHERE clause, read up to `e`, reports: that of
/// the first malformed condition after an `AND` or `OR`.
pub open spec fn where_rest_error(s: Seq<char>, e: int) -> Seq<char>
    decreases s.len() - e,
{
    let k = after_ws(s, e);
    let k2 = if keyword_at(s, k, "AND"@) { k + "AND"@.len() } else { k + "OR"@.len() };
    match condition_end(s, k2) {
        Some(e2) => if e < e2 <= s.len() { where_rest_error(s, e2) } else { Seq::empty() },
        None => condition_error(s, k2),
    }
}

/// The error a malformed WHERE clause read from `p` reports.
pub open spec fn where_error(s: Seq<char>, p: int) -> Seq<char> {
    match condition_end(s, p) {
        Some(e1) => where_rest_error(s, e1),
        None => condition_error(s, p),
    }
}

/// The error a malformed unsigned integer read from `p` reports.
pub open spec fn usize_error(s: Seq<char>, p: int) -> Seq<char> {
    let q = after_ws(s, p);
    let e = run_end(s, q, digit_pred());
    if e == q {
        error_text("expected integer"@, byte_of(s, q))
    } else {
        error_text("invalid integer"@, byte_of(s, e))
    }
}

/// The error a query reports when its FROM source, read whole up to `e`,
/// is followed by a malformed WHERE clause or LIMIT.
pub open spec fn query_tail_error(s: Seq<char>, e: int) -> Seq<char> {
    let w = after_ws(s, e);
    let e3 = if keyword_at(s, w, "WHERE"@) { where_end(s, w + "WHERE"@.len()) } else { Some(w) };
    match e3 {
        None => where_error(s, w + "WHERE"@.len()),
        Some(e3) => usize_error(s, after_ws(s, e3) + "LIMIT"@.len()),
    }
}

/// The error a malformed class pattern read from `p` reports: no quoted
/// string, an unterminated one, or an empty one.
pub open spec fn class_pattern_error(s: Seq<char>, p: int) -> Seq<char> {
    let q = after_ws(s, p);
    if !opens_quote(s, q) {
        error_text("expected quoted string"@, byte_of(s, q))
    } else if quote_close(s, q) >= s.len() {
        error_text("unterminated quoted string"@, byte_of(s, s.len() as int))
    } else {
        error_text("expected non-empty quoted class pattern"@, byte_of(s, quote_close(s, q) + 1))
    }
}

/// The error the rest of a class pattern list reports, `count` patterns
/// having been read up to `e`: that of a malformed pattern after a comma,
/// or the list limit.
pub open spec fn pattern_list_rest_error(s: Seq<char>, e: int, count: nat) -> Seq<char>
    decreases s.len() - e,
{
    let c = after_ws(s, e);
    match class_pattern_end(s, c + 1) {
        None => class_pattern_error(s, c + 1),
        Some(e2) => if count + 1 > MAX_MULTI_CLASS_FROM_LIST_SIZE {
            error_text(
                "multi-class FROM list exceeds limit of "@ + dec_chars(MAX_MULTI_CLASS_FROM_LIST_SIZE as nat)
                    + " class patterns"@,
                byte_of(s, e2),
            )
        } else if e < e2 <= s.len() {
            pattern_list_rest_error(s, e2, count + 1)
        } else {
            Seq::empty()
        },
    }
}

/// The error a malformed class pattern list read from `p` reports.
pub open spec fn pattern_list_error(s: Seq<char>, p: int) -> Seq<char> {
    match class_pattern_end(s, p) {
        Some(e1) => pattern_list_rest_error(s, e1, 1),
        None => class_pattern_error(s, p),
    }
}

/// The error a malformed traversal function read from `p` reports: the
/// missing `(`, the missing or out-of-range object id, or the missing `)`.
pub open spec fn traversal_error(s: Seq<char>, p: int) -> Seq<char> {
    let q = after_ws(s, p);
    let name = if keyword_at(s, q, "outbounds"@) {
        "outbounds"@
    } else if keyword_at(s, q, "inbounds"@) {
        "inbounds"@
    } else {
        "dominators"@
    };
    let k = after_ws(s, q + name.len());
    if !(k < s.len() && s[k] == '(') {
        error_text("expected '(' after '"@ + name + "'"@, byte_of(s, k))
    } else {
        let a = after_ws(s, k + 1);
        let e = run_end(s, a, digit_pred());
        if e == a {
            error_text("expected object id"@, byte_of(s, a))
        } else if digits_value(s.subrange(a, e)) > u64::MAX {
            error_text("invalid object id '"@ + s.subrange(a, e) + "'"@, byte_of(s, e))
        } else {
            error_text("expected ')' to close '"@ + name + "(...)'"@, byte_of(s, after_ws(s, e)))
        }
    }
}

/// The error a malformed subquery source read from `p` at nesting depth
/// `depth` reports: the missing `(`, the nesting limit, the inner query's
/// own error, or the missing `)`.
pub open spec fn subquery_error(s: Seq<char>, p: int, depth: int) -> Seq<char>
    decreases MAX_SUBQUERY_NESTING_DEPTH - depth, 0int,
{
    let q = after_ws(s, p);
    let k = after_ws(s, q + "OBJECTS"@.len());
    if !(k < s.len() && s[k] == '(') {
        error_text("expected '(' after 'OBJECTS'"@, byte_of(s, k))
    } else if depth >= MAX_SUBQUERY_NESTING_DEPTH {
        error_text(
            "subquery nesting depth exceeded: OQL subqueries support only one level of nesting"@,
            byte_of(s, k + 1),
        )
    } else {
        match query_body_end(s, k + 1, depth + 1) {
            None => query_body_error(s, k + 1, depth + 1),
            Some(e) => error_text("expected ')' to close 'OBJECTS(...)' subquery"@, byte_of(s, after_ws(s, e))),
        }
    }
}

/// The error a malformed FROM source read from `p` reports.
pub open spec fn from_error(s: Seq<char>, p: int, depth: int) -> Seq<char>
    decreases MAX_SUBQUERY_NESTING_DEPTH - depth, 1int,
{
    let q = after_ws(s, p);
    if keyword_at(s, q, "INSTANCEOF"@) {
        pattern_list_error(s, q + "INSTANCEOF"@.len())
    } else {
        match traversal_end(s, q) {
            None => traversal_error(s, q),
            Some(Some(_)) => Seq::empty(),
            Some(None) => match subquery_end(s, q, depth) {
                None => subquery_error(s, q, depth),
                Some(Some(_)) => Seq::empty(),
                Some(None) => pattern_list_error(s, q),
            },
        }
    }
}

/// The error a malformed query read from `p` at nesting depth `depth`
/// reports: that of the first part that does not read whole.
pub open spec fn query_body_error(s: Seq<char>, p: int, depth: int) -> Seq<char>
    decreases MAX_SUBQUERY_NESTING_DEPTH - depth, 2int,
{
    let q = after_ws(s, p);
    if !keyword_at(s, q, "SELECT"@) {
        error_text("expected keyword '"@ + "SELECT"@ + "'"@, byte_of(s, q))
    } else {
        match select_end(s, q + "SELECT"@.len()) {
            None => select_error(s, q + "SELECT"@.len()),
            Some(e1) => {
                let k = after_ws(s, e1);
                if !keyword_at(s, k, "FROM"@) {
                    error_text("expected keyword '"@ + "FROM"@ + "'"@, byte_of(s, k))
                } else {
                    match from_end(s, k + "FROM"@.len(), depth) {
                        None => from_error(s, k + "FROM"@.len(), depth),
                        Some(e2) => query_tail_error(s, e2),
                    }
                }
            },
        }
    }
}

/// `f` is the field reference written at `p`.
pub open spec fn field_ref_is(f: FieldRef, s: Seq<char>, p: int) -> bool {
    let q = after_ws(s, p);
    if q < s.len() && s[q] == '@' {
        let a = after_ws(s, q + 1);
        let e = run_end(s, a, ident_pred());
        e != a && (builtin_named(s.subrange(a, e)) matches Some(b) && f == FieldRef::BuiltIn(b))
    } else {
        let e = run_end(s, q, ident_pred());
        e != q && (f matches FieldRef::InstanceField(n) && n@ == s.subrange(q, e))
    }
}

/// `v` is the value written at `p`.
pub open spec fn value_is(v: Value, s: Seq<char>, p: int) -> bool {
    let q = after_ws(s, p);
    if opens_quote(s, q) {
        quote_close(s, q) < s.len() && (v matches Value::Str(t) && t@ == s.subrange(q + 1, quote_close(s, q)))
    } else if keyword_at(s, q, "null"@) {
        v == Value::Null
    } else if keyword_at(s, q, "true"@) {
        v == Value::Bool(true)
    } else if keyword_at(s, q, "false"@) {
        v == Value::Bool(false)
    } else {
        let negative = q < s.len() && s[q] == '-';
        let d = if negative { q + 1 } else { q };
        let e = run_end(s, d, digit_pred());
        e != d && (int_literal_value(negative, digits_value(s.subrange(d, e))) matches Some(x) && v matches Value::Int(y) && y == x)
    }
}

/// `c` is the condition written at `p`.
pub open spec fn condition_is(c: Condition, s: Seq<char>, p: int) -> bool {
    &&& field_ref_is(c.field, s, p)
    &&& field_ref_end(s, p) matches Some(e1)
    &&& {
        let k = after_ws(s, e1);
        if keyword_at(s, k, "IS"@) {
            let k2 = after_ws(s, k + "IS"@.len());
            &&& c.op == (if keyword_at(s, k2, "NOT"@) { ComparisonOp::IsNotNull } else { ComparisonOp::IsNull })
            &&& c.value == Value::Null
        } else {
            comparison_at(s, k) matches Some((op, e2)) && c.op == op && value_is(c.value, s, e2)
        }
    }
}

/// Where conditions `conds` joined by `ops`, written from `p`, end.
pub open spec fn where_prefix(s: Seq<char>, p: int, conds: Seq<Condition>, ops: Seq<LogicalOp>) -> Option<int>
    decreases conds.len(),
{
    if conds.len() == 0 || ops.len() + 1 != conds.len() {
        None
    } else if conds.len() == 1 {
        if condition_is(conds[0], s, p) { condition_end(s, p) } else { None }
    } else {
        match where_prefix(s, p, conds.drop_last(), ops.drop_last()) {
            Some(e) => {
                let k = after_ws(s, e);
                let k2 = if ops.last() == LogicalOp::And { k + "AND"@.len() } else { k + "OR"@.len() };
                let joined = if ops.last() == LogicalOp::And { keyword_at(s, k, "AND"@) } else { keyword_at(s, k, "OR"@) };
                if joined && condition_is(conds.last(), s, k2) { condition_end(s, k2) } else { None }
            },
            None => None,
        }
    }
}

/// `w` is the WHERE clause written at `p`: its conditions and connectives,
/// and no further connective after them.
pub open spec fn where_is(w: WhereClause, s: Seq<char>, p: int) -> bool {
    where_prefix(s, p, w.conditions@, w.operators@) matches Some(e) && !keyword_at(s, after_ws(s, e), "AND"@)
        && !keyword_at(s, after_ws(s, e), "OR"@)
}

/// A comma comes next after `e` (past whitespace).
pub open spec fn comma_after(s: Seq<char>, e: int) -> bool {
    after_ws(s, e) < s.len() && s[after_ws(s, e)] == ','
}

/// Where the comma-separated field references `fs`, written from `p`, end.
pub open spec fn field_prefix(s: Seq<char>, p: int, fs: Seq<FieldRef>) -> Option<int>
    decreases fs.len(),
{
    if fs.len() == 0 {
        None
    } else if fs.len() == 1 {
        if field_ref_is(fs[0], s, p) { field_ref_end(s, p) } else { None }
    } else {
        match field_prefix(s, p, fs.drop_last()) {
            Some(e) => {
                let k = after_ws(s, e);
                if comma_after(s, e) && field_ref_is(fs.last(), s, k + 1) { field_ref_end(s, k + 1) } else { None }
            },
            None => None,
        }
    }
}

/// `sel` is the projection written at `p`.
pub open spec fn select_is(sel: SelectClause, s: Seq<char>, p: int) -> bool {
    let q = after_ws(s, p);
    if keyword_at(s, q, "DISTINCT"@) {
        let k = after_ws(s, q + "DISTINCT"@.len());
        sel matches SelectClause::DistinctObjects(f) && field_ref_is(f, s, k + "OBJECTS"@.len())
    } else if q < s.len() && s[q] == '*' {
        sel is All
    } else if keyword_at(s, q, "OBJECTS"@) {
        sel matches SelectClause::Objects(f) && field_ref_is(f, s, q + "OBJECTS"@.len())
    } else {
        sel matches SelectClause::Fields(fs) && (field_prefix(s, q, fs@) matches Some(e) && !comma_after(s, e))
    }
}

/// `pat` is the single quoted class pattern written at `p`.
pub open spec fn single_pattern_is(pat: ClassPattern, s: Seq<char>, p: int) -> bool {
    let q = after_ws(s, p);
    &&& opens_quote(s, q)
    &&& quote_close(s, q) < s.len()
    &&& {
        let t = s.subrange(q + 1, quote_close(s, q));
        &&& t.len() > 0
        &&& if t.contains('*') { pat matches ClassPattern::Glob(g) && g@ == t } else { pat matches ClassPattern::Exact(x) && x@ == t }
    }
}

/// Where the comma-separated class patterns `ps`, written from `p`, end.
pub open spec fn pattern_prefix(s: Seq<char>, p: int, ps: Seq<ClassPattern>) -> Option<int>
    decreases ps.len(),
{
    if ps.len() == 0 {
        None
    } else if ps.len() == 1 {
        if single_pattern_is(ps[0], s, p) { class_pattern_end(s, p) } else { None }
    } else {
        match pattern_prefix(s, p, ps.drop_last()) {
            Some(e) => {
                let k = after_ws(s, e);
                if comma_after(s, e) && single_pattern_is(ps.last(), s, k + 1) { class_pattern_end(s, k + 1) } else { None }
            },
            None => None,
        }
    }
}

/// `pat` is the class pattern list written at `p`: one pattern, or all of
/// two or more.
pub open spec fn pattern_list_is(pat: ClassPattern, s: Seq<char>, p: int) -> bool {
    match pat {
        ClassPattern::Multi(ps) => ps@.len() >= 2 && (pattern_prefix(s, p, ps@) matches Some(e) && !comma_after(s, e)),
        _ => pattern_prefix(s, p, seq![pat]) matches Some(e) && !comma_after(s, e),
    }
}

/// The object id in `( <id>` written from `k0`.
pub open spec fn traversal_arg(s: Seq<char>, k0: int) -> Option<u64> {
    let k = after_ws(s, k0);
    let a = after_ws(s, k + 1);
    let e = run_end(s, a, digit_pred());
    if k < s.len() && s[k] == '(' && e != a && digits_value(s.subrange(a, e)) <= u64::MAX {
        Some(digits_value(s.subrange(a, e)) as u64)
    } else {
        None
    }
}

/// `t` is the traversal function written at `p`.
pub open spec fn traversal_is(t: TraversalFunction, s: Seq<char>, p: int) -> bool {
    let q = after_ws(s, p);
    if keyword_at(s, q, "outbounds"@) {
        traversal_arg(s, q + "outbounds"@.len()) matches Some(id) && t == TraversalFunction::Outbounds(id)
    } else if keyword_at(s, q, "inbounds"@) {
        traversal_arg(s, q + "inbounds"@.len()) matches Some(id) && t == TraversalFunction::Inbounds(id)
    } else if keyword_at(s, q, "dominators"@) {
        traversal_arg(s, q + "dominators"@.len()) matches Some(id) && t == TraversalFunction::Dominators(id)
    } else {
        false
    }
}

/// `inner` is the query of `OBJECTS (<query>)` written at `q`.
pub open spec fn subquery_is(inner: Query, s: Seq<char>, q: int, depth: int) -> bool
    decreases MAX_SUBQUERY_NESTING_DEPTH - depth, 0int,
{
    if 0 <= depth < MAX_SUBQUERY_NESTING_DEPTH {
        let k = after_ws(s, q + "OBJECTS"@.len());
        query_is(inner, s, k + 1, depth + 1)
    } else {
        false
    }
}

/// `f` is the FROM source written at `p`.
pub open spec fn from_is(f: FromClause, s: Seq<char>, p: int, depth: int) -> bool
    decreases MAX_SUBQUERY_NESTING_DEPTH - depth, 1int,
{
    let q = after_ws(s, p);
    if keyword_at(s, q, "INSTANCEOF"@) {
        f.instanceof && pattern_list_is(f.class_pattern, s, q + "INSTANCEOF"@.len())
    } else {
        &&& !f.instanceof
        &&& match traversal_end(s, q) {
            Some(Some(_)) => f.class_pattern matches ClassPattern::Traversal(t) && traversal_is(t, s, q),
            Some(None) => match subquery_end(s, q, depth) {
                Some(Some(_)) => f.class_pattern matches ClassPattern::Subquery(inner) && subquery_is(*inner, s, after_ws(s, q), depth),
                _ => pattern_list_is(f.class_pattern, s, q),
            },
            None => false,
        }
    }
}

/// `qy` is the query `SELECT … FROM … [WHERE …] [LIMIT n]` written at `p`
/// at subquery depth `depth`.
pub open spec fn query_is(qy: Query, s: Seq<char>, p: int, depth: int) -> bool
    decreases MAX_SUBQUERY_NESTING_DEPTH - depth, 2int,
{
    let q = after_ws(s, p);
    &&& keyword_at(s, q, "SELECT"@)
    &&& select_is(qy.select, s, q + "SELECT"@.len())
    &&& select_end(s, q + "SELECT"@.len()) matches Some(e1)
    &&& {
        let k = after_ws(s, e1);
        &&& keyword_at(s, k, "FROM"@)
        &&& from_is(qy.from, s, k + "FROM"@.len(), depth)
        &&& from_end(s, k + "FROM"@.len(), depth) matches Some(e2)
        &&& {
            let w = after_ws(s, e2);
            let has_where = keyword_at(s, w, "WHERE"@);
            &&& if has_where { qy.filter matches Some(wc) && where_is(wc, s, w + "WHERE"@.len()) } else { qy.filter is None }
            &&& (if has_where { where_end(s, w + "WHERE"@.len()) } else { Some(w) }) matches Some(e3)
            &&& {
                let l = after_ws(s, e3);
                if keyword_at(s, l, "LIMIT"@) {
                    let a = after_ws(s, l + "LIMIT"@.len());
                    let e = run_end(s, a, digit_pred());
                    qy.limit matches Some(n) && n == digits_value(s.subrange(a, e))
                } else {
                    qy.limit is None
                }
            }
        }
    }
}

/// The whole text is one query, then only whitespace.
pub open spec fn query_text_ok(s: Seq<char>) -> bool {
    query_body_end(s, 0, 0) matches Some(e) && after_ws(s, e) == s.len()
}

/// The whole text is one query, or two joined by `UNION`, then only
/// whitespace.
pub open spec fn statement_text_ok(s: Seq<char>) -> bool {
    match query_body_end(s, 0, 0) {
        Some(e) => {
            let w = after_ws(s, e);
            if keyword_at(s, w, "UNION"@) {
                query_body_end(s, w + "UNION"@.len(), 0) matches Some(e2) && after_ws(s, e2) == s.len()
            } else {
                w == s.len()
            }
        },
        None => false,
    }
}

/// A text that reads as one query also reads as a statement of one query
/// (no `UNION` follows it), so `parse_query_statement` gives a `Single`
/// statement written at the same place as `parse_query`'s query.
pub proof fn lemma_query_text_is_single_statement(s: Seq<char>)
    requires
        query_text_ok(s),
    ensures
        statement_text_ok(s),
        !keyword_at(s, after_ws(s, query_body_end(s, 0, 0)->0), "UNION"@),
{
    reveal_strlit("UNION");
}

fn contains_star(v: &Vec<char>) -> (b: bool)
    ensures
        b == v@.contains('*'),
{
    let mut i: usize = 0;
    while i < v.len()
        invariant
            i <= v@.len(),
            forall|j: int| 0 <= j < i ==> v@[j] != '*',
        decreases v.len() - i,
    {
        if v[i] == '*' {
            return true;
        }
        i = i + 1;
    }
    false
}

impl Parser {
    /// Checks the pattern of a `=~` condition.
    fn validate_regex_pattern(&self, value: &Value) -> (r: Result<(), QueryParseError>)
        requires
            self.wf(),
        ensures
            match *value {
                Value::Str(p) => match regex_compile_error(p@) {
                    None => r is Ok,
                    Some(m) => r matches Err(e) && e.message_view() == error_text(
                        "invalid regex pattern '"@ + p@ + "': "@ + m,
                        self.byte_at(),
                    ),
                },
                _ => r matches Err(e) && e.message_view() == error_text("=~ requires a quoted regex pattern"@, self.byte_at()),
            },
    {
        match value {
            Value::Str(pattern) => match regex_check(pattern.as_str()) {
                None => Ok(()),
                Some(m) => {
                    let mut msg: Vec<char> = Vec::new();
                    push_str(&mut msg, "invalid regex pattern '");
                    push_str(&mut msg, pattern.as_str());
                    push_str(&mut msg, "': ");
                    push_str(&mut msg, m.as_str());
                    Err(self.error(&msg))
                },
            },
            _ => Err(self.error_str("=~ requires a quoted regex pattern")),
        }
    }

    /// Reads one quoted class pattern: `Glob` when it holds `*`, else `Exact`.
    fn parse_single_quoted_class_pattern(&mut self) -> (r: Result<ClassPattern, QueryParseError>)
        requires
            old(self).wf(),
        ensures
            final(self).wf(),
            final(self).text() == old(self).text(),
            old(self).at() <= final(self).at(),
            r matches Ok(p) ==> single_pattern_ok(p),
            ({
                let s = old(self).text();
                let q = after_ws(s, old(self).at());
                if opens_quote(s, q) && quote_close(s, q) < s.len() {
                    let t = s.subrange(q + 1, quote_close(s, q));
                    &&& final(self).at() == quote_close(s, q) + 1
                    &&& if t.len() == 0 {
                        r matches Err(err) && err.message_view()
                            == error_text("expected non-empty quoted class pattern"@, byte_of(s, final(self).at()))
                    } else if t.contains('*') {
                        r matches Ok(ClassPattern::Glob(g)) && g@ == t
                    } else {
                        r matches Ok(ClassPattern::Exact(e)) && e@ == t
                    }
                } else {
                    r is Err
                }
            }),
            r matches Err(err) ==> err.message_view() == class_pattern_error(old(self).text(), old(self).at()),
    {
        let pattern = self.parse_quoted_string()?;
        let cs = chars_of(pattern.as_str());
        if cs.len() == 0 {
            return Err(self.error_str("expected non-empty quoted class pattern"));
        }
        if contains_star(&cs) {
            Ok(ClassPattern::Glob(pattern))
        } else {
            Ok(ClassPattern::Exact(pattern))
        }
    }

    /// Reads one quoted class pattern and any comma-separated others; two or
    /// more become `Multi`. It succeeds exactly where `pattern_list_end`
    /// finds the list whole.
    fn parse_class_pattern_list(&mut self) -> (r: Result<ClassPattern, QueryParseError>)
        requires
            old(self).wf(),
        ensures
            final(self).wf(),
            final(self).text() == old(self).text(),
            old(self).at() <= final(self).at(),
            r matches Ok(p) ==> pattern_list_ok(p),
            r matches Ok(p) ==> pattern_list_is(p, old(self).text(), old(self).at()),
            r is Ok <==> pattern_list_end(old(self).text(), old(self).at()) is Some,
            r is Ok ==> final(self).at() == pattern_list_end(old(self).text(), old(self).at())->0,
            r matches Err(err) ==> err.message_view() == pattern_list_error(old(self).text(), old(self).at()),
    {
        let first = self.parse_single_quoted_class_pattern()?;
        let mut patterns: Vec<ClassPattern> = Vec::new();
        patterns.push(first);
        let ghost s = self.input@;
        proof {
            assert(class_pattern_end(s, old(self).at()) == Some(self.at()));
            assert(pattern_list_end(s, old(self).at()) == pattern_list_rest(s, self.at(), 1));
            assert(patterns@ =~= seq![first]);
        }
        let ghost p0 = old(self).at();
        let ghost mut end = self.at();
        loop
            invariant_except_break
                self.at() == end,
                pattern_list_error(s, old(self).at()) == pattern_list_rest_error(s, self.at(), patterns@.len()),
            invariant
                self.wf(),
                self.input@ == s,
                s == old(self).text(),
                p0 == old(self).at(),
                1 <= patterns@.len() <= MAX_MULTI_CLASS_FROM_LIST_SIZE,
                old(self).at() <= self.at(),
                forall|i: int| 0 <= i < patterns@.len() ==> single_pattern_ok(#[trigger] patterns@[i]),
                pattern_list_end(s, old(self).at()) == pattern_list_rest(s, self.at(), patterns@.len()),
                pattern_prefix(s, p0, patterns@) == Some(end),
            ensures
                self.wf(),
                self.input@ == s,
                1 <= patterns@.len() <= MAX_MULTI_CLASS_FROM_LIST_SIZE,
                old(self).at() <= self.at(),
                forall|i: int| 0 <= i < patterns@.len() ==> single_pattern_ok(#[trigger] patterns@[i]),
                pattern_list_end(s, old(self).at()) == Some(self.at()),
                pattern_prefix(s, p0, patterns@) == Some(end),
                !comma_after(s, end),
            decreases self.input@.len() - self.pos,
        {
            let ghost e = self.at();
            let ghost before = patterns@;
            proof {
                lemma_after_ws(s, e);
                lemma_after_ws_idem(s, e);
            }
            self.skip_ws();
            if !self.consume_char(',') {
                break;
            }
            let ghost c1 = self.at();
            proof {
                lemma_after_ws(s, c1);
                lemma_after_ws_idem(s, c1);
            }
            self.skip_ws();
            let next = self.parse_single_quoted_class_pattern()?;
            proof {
                let q1 = after_ws(s, c1);
                lemma_run_end(s, q1 + 1, not_char(s[q1]));
                assert(class_pattern_end(s, c1) == Some(self.at()));
                assert(e < self.at() <= s.len());
                assert(after_ws(s, e) + 1 == c1);
            }
            patterns.push(next);
            proof {
                assert(patterns@.drop_last() =~= before);
                end = self.at();
            }
            if patterns.len() > MAX_MULTI_CLASS_FROM_LIST_SIZE {
                let mut m: Vec<char> = Vec::new();
                push_str(&mut m, "multi-class FROM list exceeds limit of ");
                push_decimal(&mut m, MAX_MULTI_CLASS_FROM_LIST_SIZE as u64);
                push_str(&mut m, " class patterns");
                return Err(self.error(&m));
            }
        }
        if patterns.len() == 1 {
            let ghost all = patterns@;
            let only = patterns.pop().unwrap();
            proof {
                assert(all =~= seq![only]);
                assert(single_pattern_ok(all[0]));
            }
            Ok(only)
        } else {
            Ok(ClassPattern::Multi(patterns))
        }
    }
}


impl Parser {
    /// Reads `outbounds(<id>)`, `inbounds(<id>)` or `dominators(<id>)`;
    /// `Ok(None)`, consuming only whitespace, when none of the three
    /// keywords comes next.
    fn try_parse_traversal_function(&mut self) -> (r: Result<Option<TraversalFunction>, QueryParseError>)
        requires
            old(self).wf(),
        ensures
            final(self).wf(),
            final(self).text() == old(self).text(),
            old(self).at() <= final(self).at(),
            ({
                let s = old(self).text();
                let q = after_ws(s, old(self).at());
                (r == Ok::<Option<TraversalFunction>, QueryParseError>(None)) <==> !(keyword_at(s, q, "outbounds"@)
                    || keyword_at(s, q, "inbounds"@) || keyword_at(s, q, "dominators"@))
            }),
            r is Ok <==> traversal_end(old(self).text(), old(self).at()) is Some,
            r matches Ok(None) ==> traversal_end(old(self).text(), old(self).at()) == Some(None::<int>)
                && final(self).at() == after_ws(old(self).text(), old(self).at()),
            r matches Ok(Some(_)) ==> traversal_end(old(self).text(), old(self).at()) == Some(Some(final(self).at())),
            r matches Ok(Some(t)) ==> traversal_is(t, old(self).text(), old(self).at()),
            r matches Err(err) ==> err.message_view() == traversal_error(old(self).text(), old(self).at()),
    {
        let ghost s = self.input@;
        proof {
            lemma_after_ws(s, old(self).at());
            lemma_after_ws_idem(s, old(self).at());
        }
        let kind: u8 = if self.consume_keyword("outbounds") {
            0
        } else if self.consume_keyword("inbounds") {
            1
        } else if self.consume_keyword("dominators") {
            2
        } else {
            return Ok(None);
        };
        let keyword = if kind == 0 {
            "outbounds"
        } else if kind == 1 {
            "inbounds"
        } else {
            "dominators"
        };
        proof {
            lemma_after_ws(s, self.at());
            lemma_after_ws_idem(s, self.at());
        }
        self.skip_ws();
        if !self.consume_char('(') {
            let mut m: Vec<char> = Vec::new();
            push_str(&mut m, "expected '(' after '");
            push_str(&mut m, keyword);
            push_str(&mut m, "'");
            return Err(self.error(&m));
        }
        proof {
            lemma_after_ws(s, self.at());
            lemma_after_ws_idem(s, self.at());
        }
        let object_id = self.parse_object_id()?;
        proof {
            lemma_after_ws(s, self.at());
            lemma_after_ws_idem(s, self.at());
        }
        self.skip_ws();
        if !self.consume_char(')') {
            let mut m: Vec<char> = Vec::new();
            push_str(&mut m, "expected ')' to close '");
            push_str(&mut m, keyword);
            push_str(&mut m, "(...)'");
            return Err(self.error(&m));
        }
        if kind == 0 {
            Ok(Some(TraversalFunction::Outbounds(object_id)))
        } else if kind == 1 {
            Ok(Some(TraversalFunction::Inbounds(object_id)))
        } else {
            Ok(Some(TraversalFunction::Dominators(object_id)))
        }
    }

    /// Reads `OBJECTS (<query>)`; `Ok(None)`, consuming only whitespace,
    /// when the keyword does not come next. A subquery inside a subquery is
    /// refused.
    fn try_parse_subquery_from_source(&mut self, depth: usize) -> (r: Result<Option<Query>, QueryParseError>)
        requires
            old(self).wf(),
            depth <= MAX_SUBQUERY_NESTING_DEPTH,
        ensures
            final(self).wf(),
            final(self).text() == old(self).text(),
            old(self).at() <= final(self).at(),
            r matches Ok(Some(q)) ==> depth < MAX_SUBQUERY_NESTING_DEPTH && query_ok(q, (depth + 1) as nat),
            r is Ok <==> subquery_end(old(self).text(), old(self).at(), depth as int) is Some,
            r matches Ok(None) ==> subquery_end(old(self).text(), old(self).at(), depth as int) == Some(None::<int>)
                && final(self).at() == after_ws(old(self).text(), old(self).at()),
            r matches Ok(Some(_)) ==> subquery_end(old(self).text(), old(self).at(), depth as int)
                == Some(Some(final(self).at())),
            r matches Ok(Some(q)) ==> subquery_is(q, old(self).text(), after_ws(old(self).text(), old(self).at()), depth as int),
            r matches Err(err) ==> err.message_view() == subquery_error(old(self).text(), old(self).at(), depth as int),
        decreases MAX_SUBQUERY_NESTING_DEPTH - depth, 0int,
    {
        let ghost s = self.input@;
        proof {
            lemma_after_ws(s, self.at());
            lemma_after_ws_idem(s, self.at());
        }
        if !self.consume_keyword("OBJECTS") {
            return Ok(None);
        }
        proof {
            lemma_after_ws(s, self.at());
            lemma_after_ws_idem(s, self.at());
        }
        self.skip_ws();
        if !self.consume_char('(') {
            return Err(self.error_str("expected '(' after 'OBJECTS'"));
        }
        if depth >= MAX_SUBQUERY_NESTING_DEPTH {
            return Err(
                self.error_str(
                    "subquery nesting depth exceeded: OQL subqueries support only one level of nesting",
                ),
            );
        }
        let inner = self.parse_query_body(depth + 1)?;
        proof {
            lemma_after_ws(s, self.at());
            lemma_after_ws_idem(s, self.at());
        }
        self.skip_ws();
        if !self.consume_char(')') {
            return Err(self.error_str("expected ')' to close 'OBJECTS(...)' subquery"));
        }
        Ok(Some(inner))
    }

    /// Reads the `FROM` source: `[INSTANCEOF]` and quoted class patterns, a
    /// traversal function, or a subquery.
    #[verifier::spinoff_prover]
    fn parse_from_clause(&mut self, depth: usize) -> (r: Result<FromClause, QueryParseError>)
        requires
            old(self).wf(),
            depth <= MAX_SUBQUERY_NESTING_DEPTH,
        ensures
            final(self).wf(),
            final(self).text() == old(self).text(),
            old(self).at() <= final(self).at(),
            r matches Ok(f) ==> from_ok(f, depth as nat),
            r matches Ok(f) ==> from_is(f, old(self).text(), old(self).at(), depth as int),
            r is Ok <==> from_end(old(self).text(), old(self).at(), depth as int) is Some,
            r is Ok ==> final(self).at() == from_end(old(self).text(), old(self).at(), depth as int)->0,
            r matches Err(err) ==> err.message_view() == from_error(old(self).text(), old(self).at(), depth as int),
        decreases MAX_SUBQUERY_NESTING_DEPTH - depth, 1int,
    {
        let ghost s = self.input@;
        proof {
            lemma_after_ws(s, self.at());
            lemma_after_ws_idem(s, self.at());
        }
        self.skip_ws();
        proof {
            lemma_after_ws(s, self.at());
            lemma_after_ws_idem(s, self.at());
        }
        let instanceof = self.consume_keyword("INSTANCEOF");
        if !instanceof {
            if let Some(traversal) = self.try_parse_traversal_function()? {
                return Ok(FromClause { class_pattern: ClassPattern::Traversal(traversal), instanceof: false });
            }
            if let Some(subquery) = self.try_parse_subquery_from_source(depth)? {
                return Ok(
                    FromClause { class_pattern: ClassPattern::Subquery(Box::new(subquery)), instanceof: false },
                );
            }
        }
        let class_pattern = self.parse_class_pattern_list()?;
        Ok(FromClause { class_pattern, instanceof })
    }

    /// Reads what `SELECT` projects: `DISTINCT OBJECTS <field>`, `*`,
    /// `OBJECTS <field>`, or a comma-separated list of fields.
    #[verifier::spinoff_prover]
    fn parse_select_clause(&mut self) -> (r: Result<SelectClause, QueryParseError>)
        requires
            old(self).wf(),
        ensures
            final(self).wf(),
            final(self).text() == old(self).text(),
            old(self).at() <= final(self).at(),
            r matches Ok(sel) ==> select_ok(sel),
            r matches Ok(sel) ==> select_is(sel, old(self).text(), old(self).at()),
            r is Ok <==> select_end(old(self).text(), old(self).at()) is Some,
            r is Ok ==> final(self).at() == select_end(old(self).text(), old(self).at())->0,
            r matches Err(err) ==> err.message_view() == select_error(old(self).text(), old(self).at()),
    {
        let ghost s = self.input@;
        proof {
            lemma_after_ws(s, old(self).at());
            lemma_after_ws_idem(s, old(self).at());
        }
        self.skip_ws();
        let ghost q = self.at();
        if self.consume_keyword("DISTINCT") {
            proof {
                lemma_after_ws(s, self.at());
                lemma_after_ws_idem(s, self.at());
            }
            if !self.consume_keyword("OBJECTS") {
                return Err(
                    self.error_str(
                        "DISTINCT is only supported with OBJECTS projection (SELECT DISTINCT OBJECTS ...); SELECT DISTINCT * / field lists are unsupported",
                    ),
                );
            }
            let field = self.parse_field_ref()?;
            validate_objects_field_hops(&field)?;
            return Ok(SelectClause::DistinctObjects(field));
        }
        if self.consume_char('*') {
            return Ok(SelectClause::All);
        }
        if self.consume_keyword("OBJECTS") {
            proof {
                lemma_after_ws(s, self.at());
                lemma_after_ws_idem(s, self.at());
            }
            let field = self.parse_field_ref()?;
            validate_objects_field_hops(&field)?;
            return Ok(SelectClause::Objects(field));
        }
        let first = self.parse_field_ref()?;
        let mut fields: Vec<FieldRef> = Vec::new();
        fields.push(first);
        let ghost mut end = self.at();
        proof {
            assert(fields@ =~= seq![first]);
            assert(field_prefix(s, q, fields@) == Some(end));
        }
        loop
            invariant_except_break
                self.at() == end,
                select_error(s, old(self).at()) == field_list_error(s, self.at()),
            invariant
                self.wf(),
                self.input@ == s,
                s == old(self).text(),
                q == after_ws(s, old(self).at()),
                old(self).at() <= self.at(),
                fields@.len() >= 1,
                select_end(s, old(self).at()) == field_list_rest(s, self.at()),
                field_prefix(s, q, fields@) == Some(end),
            ensures
                self.wf(),
                self.input@ == s,
                s == old(self).text(),
                old(self).at() <= self.at(),
                fields@.len() >= 1,
                select_end(s, old(self).at()) == Some(self.at()),
                field_prefix(s, q, fields@) == Some(end),
                !comma_after(s, end),
            decreases self.input@.len() - self.pos,
        {
            let ghost e = self.at();
            let ghost before = fields@;
            proof {
                lemma_after_ws(s, e);
                lemma_after_ws_idem(s, e);
            }
            self.skip_ws();
            if !self.consume_char(',') {
                break;
            }
            let next = self.parse_field_ref()?;
            fields.push(next);
            proof {
                assert(fields@.drop_last() =~= before);
                end = self.at();
            }
        }
        Ok(SelectClause::Fields(fields))
    }

    /// Reads `field IS [NOT] NULL` or `field <op> <value>`; a `=~` pattern
    /// must compile.
    #[verifier::spinoff_prover]
    fn parse_condition(&mut self) -> (r: Result<Condition, QueryParseError>)
        requires
            old(self).wf(),
        ensures
            final(self).wf(),
            final(self).text() == old(self).text(),
            old(self).at() <= final(self).at(),
            r matches Ok(c) ==> condition_ok(c),
            r matches Ok(c) ==> condition_is(c, old(self).text(), old(self).at()),
            r is Ok <==> condition_end(old(self).text(), old(self).at()) is Some,
            r is Ok ==> final(self).at() == condition_end(old(self).text(), old(self).at())->0,
            r matches Err(err) ==> err.message_view() == condition_error(old(self).text(), old(self).at()),
    {
        let ghost s = self.input@;
        proof {
            lemma_after_ws(s, old(self).at());
            lemma_after_ws_idem(s, old(self).at());
        }
        let field = self.parse_field_ref()?;
        let ghost e1 = self.at();
        proof {
            lemma_after_ws(s, e1);
            lemma_after_ws_idem(s, e1);
        }
        if self.consume_keyword("IS") {
            proof {
                lemma_after_ws(s, self.at());
                lemma_after_ws_idem(s, self.at());
            }
            let op = if self.consume_keyword("NOT") {
                ComparisonOp::IsNotNull
            } else {
                ComparisonOp::IsNull
            };
            proof {
                lemma_after_ws(s, self.at());
                lemma_after_ws_idem(s, self.at());
            }
            self.expect_keyword("NULL")?;
            return Ok(Condition { field, op, value: Value::Null });
        }
        let op = self.parse_comparison_op()?;
        let ghost e2 = self.at();
        proof {
            lemma_after_ws(s, e2);
            lemma_after_ws_idem(s, e2);
        }
        let value = self.parse_value()?;
        if op == ComparisonOp::RegexMatch {
            self.validate_regex_pattern(&value)?;
        }
        Ok(Condition { field, op, value })
    }

    /// Reads conditions joined by `AND` / `OR`.
    fn parse_where_clause(&mut self) -> (r: Result<WhereClause, QueryParseError>)
        requires
            old(self).wf(),
        ensures
            final(self).wf(),
            final(self).text() == old(self).text(),
            old(self).at() <= final(self).at(),
            r matches Ok(w) ==> where_ok(w),
            r matches Ok(w) ==> where_is(w, old(self).text(), old(self).at()),
            r is Ok <==> where_end(old(self).text(), old(self).at()) is Some,
            r is Ok ==> final(self).at() == where_end(old(self).text(), old(self).at())->0,
            r matches Err(err) ==> err.message_view() == where_error(old(self).text(), old(self).at()),
    {
        let first = self.parse_condition()?;
        let mut conditions: Vec<Condition> = Vec::new();
        conditions.push(first);
        let mut operators: Vec<LogicalOp> = Vec::new();
        let ghost s = self.input@;
        let ghost p0 = old(self).at();
        let ghost mut end = self.at();
        proof {
            assert(conditions@ =~= seq![first]);
            assert(where_prefix(s, p0, conditions@, operators@) == Some(self.at()));
        }
        loop
            invariant_except_break
                self.at() == end,
                where_error(s, old(self).at()) == where_rest_error(s, self.at()),
            invariant
                self.wf(),
                self.input@ == s,
                s == old(self).text(),
                p0 == old(self).at(),
                old(self).at() <= self.at(),
                conditions@.len() == operators@.len() + 1,
                forall|i: int| 0 <= i < conditions@.len() ==> condition_ok(#[trigger] conditions@[i]),
                where_end(s, old(self).at()) == where_rest(s, self.at()),
                where_prefix(s, p0, conditions@, operators@) == Some(end),
            ensures
                self.wf(),
                self.input@ == s,
                s == old(self).text(),
                old(self).at() <= self.at(),
                conditions@.len() == operators@.len() + 1,
                forall|i: int| 0 <= i < conditions@.len() ==> condition_ok(#[trigger] conditions@[i]),
                where_end(s, old(self).at()) == Some(self.at()),
                where_prefix(s, p0, conditions@, operators@) == Some(end),
                !keyword_at(s, after_ws(s, end), "AND"@),
                !keyword_at(s, after_ws(s, end), "OR"@),
            decreases self.input@.len() - self.pos,
        {
            let ghost before_at = self.at();
            let ghost before_conds = conditions@;
            let ghost before_ops = operators@;
            let ghost e = self.at();
            proof {
                lemma_after_ws(s, e);
                lemma_after_ws_idem(s, e);
            }
            proof {
                reveal_strlit("AND");
                reveal_strlit("OR");
                lemma_after_ws(self.input@, self.pos as int);
            }
            if self.consume_keyword("AND") {
                operators.push(LogicalOp::And);
            } else if self.consume_keyword("OR") {
                operators.push(LogicalOp::Or);
            } else {
                break;
            }
            let next = self.parse_condition()?;
            conditions.push(next);
            proof {
                assert(conditions@.drop_last() =~= before_conds);
                assert(operators@.drop_last() =~= before_ops);
                end = self.at();
            }
        }
        Ok(WhereClause { conditions, operators })
    }

    /// Reads `SELECT … FROM … [WHERE …] [LIMIT n]` at subquery depth `depth`,
    /// leaving what follows.
    #[verifier::spinoff_prover]
    fn parse_query_body(&mut self, depth: usize) -> (r: Result<Query, QueryParseError>)
        requires
            old(self).wf(),
            depth <= MAX_SUBQUERY_NESTING_DEPTH,
        ensures
            final(self).wf(),
            final(self).text() == old(self).text(),
            old(self).at() <= final(self).at(),
            r matches Ok(q) ==> query_ok(q, depth as nat),
            r matches Ok(q) ==> query_is(q, old(self).text(), old(self).at(), depth as int),
            r is Ok <==> query_body_end(old(self).text(), old(self).at(), depth as int) is Some,
            r is Ok ==> final(self).at() == query_body_end(old(self).text(), old(self).at(), depth as int)->0,
            r matches Err(err) ==> err.message_view() == query_body_error(old(self).text(), old(self).at(), depth as int),
        decreases MAX_SUBQUERY_NESTING_DEPTH - depth, 2int,
    {
        let ghost s = self.input@;
        proof {
            lemma_after_ws(s, self.at());
            lemma_after_ws_idem(s, self.at());
        }
        self.expect_keyword("SELECT")?;
        let select = self.parse_select_clause()?;
        proof {
            lemma_after_ws(s, self.at());
            lemma_after_ws_idem(s, self.at());
        }
        self.expect_keyword("FROM")?;
        let from = self.parse_from_clause(depth)?;
        proof {
            lemma_after_ws(s, self.at());
            lemma_after_ws_idem(s, self.at());
        }
        let filter = if self.consume_keyword("WHERE") {
            Some(self.parse_where_clause()?)
        } else {
            None
        };
        proof {
            lemma_after_ws(s, self.at());
            lemma_after_ws_idem(s, self.at());
        }
        let limit = if self.consume_keyword("LIMIT") {
            Some(self.parse_usize()?)
        } else {
            None
        };
        Ok(Query { select, from, filter, limit })
    }
}

/// Parses one query; only whitespace may follow it. A malformed query is
/// refused with the error of the first part that does not read whole, which
/// names the byte offset where reading stopped.
pub fn parse_query(input: &str) -> (r: Result<Query, QueryParseError>)
    ensures
        r matches Ok(q) ==> query_ok(q, 0),
        r matches Ok(q) ==> query_is(q, input@, 0, 0),
        r is Ok <==> query_text_ok(input@),
        query_body_end(input@, 0, 0) is None ==> (r matches Err(err) && err.message_view() == query_body_error(
            input@,
            0,
            0,
        )),
        (query_body_end(input@, 0, 0) matches Some(e) && after_ws(input@, e) < input@.len()) ==> (r matches Err(err)
            && err.message_view() == error_text("expected end of query"@, byte_of(input@, after_ws(input@, query_body_end(input@, 0, 0)->0)))),
{
    let mut parser = Parser::new(input);
    let query = parser.parse_query_body(0)?;
    proof {
        lemma_after_ws(input@, parser.at());
    }
    parser.skip_ws();
    if !parser.is_eof() {
        return Err(parser.error_str("expected end of query"));
    }
    Ok(query)
}

/// Parses one query, or two joined by `UNION`; only whitespace may follow.
pub fn parse_query_statement(input: &str) -> (r: Result<QueryStatement, QueryParseError>)
    ensures
        r matches Ok(QueryStatement::Single(q)) ==> query_ok(q, 0),
        r matches Ok(QueryStatement::Union(a, b)) ==> query_ok(a, 0) && query_ok(b, 0),
        r matches Ok(QueryStatement::Single(q)) ==> query_is(q, input@, 0, 0),
        (query_body_end(input@, 0, 0) matches Some(e) && !keyword_at(input@, after_ws(input@, e), "UNION"@)
            && after_ws(input@, e) < input@.len()) ==> (r matches Err(err) && err.message_view() == error_text(
            "expected end of query"@,
            byte_of(input@, after_ws(input@, query_body_end(input@, 0, 0)->0)),
        )),
        r matches Ok(QueryStatement::Union(a, b)) ==> query_is(a, input@, 0, 0) && query_is(
            b,
            input@,
            after_ws(input@, query_body_end(input@, 0, 0)->0) + "UNION"@.len(),
            0,
        ),
        r is Ok <==> statement_text_ok(input@),
        query_body_end(input@, 0, 0) is None ==> (r matches Err(err) && err.message_view() == query_body_error(
            input@,
            0,
            0,
        )),
        ({
            let s = input@;
            let u = after_ws(s, query_body_end(s, 0, 0)->0);
            (query_body_end(s, 0, 0) is Some && keyword_at(s, u, "UNION"@) && query_body_end(s, u + "UNION"@.len(), 0) is None)
                ==> (r matches Err(err) && err.message_view() == query_body_error(s, u + "UNION"@.len(), 0))
        }),
        ({
            let s = input@;
            let u = after_ws(s, query_body_end(s, 0, 0)->0);
            let v = query_body_end(s, u + "UNION"@.len(), 0);
            (query_body_end(s, 0, 0) is Some && keyword_at(s, u, "UNION"@) && v is Some
                && after_ws(s, v->0) < s.len()) ==> (r matches Err(err) && err.message_view() == error_text(
                "expected end of query"@,
                byte_of(s, after_ws(s, query_body_end(s, u + "UNION"@.len(), 0)->0)),
            ))
        }),
{
    let mut parser = Parser::new(input);
    let left = parser.parse_query_body(0)?;
    proof {
        lemma_after_ws(input@, parser.at());
        lemma_after_ws_idem(input@, parser.at());
    }
    parser.skip_ws();
    if parser.consume_keyword("UNION") {
        let right = parser.parse_query_body(0)?;
        proof {
            lemma_after_ws(input@, parser.at());
        }
        parser.skip_ws();
        if !parser.is_eof() {
            return Err(parser.error_str("expected end of query"));
        }
        return Ok(QueryStatement::Union(left, right));
    }
    if !parser.is_eof() {
        return Err(parser.error_str("expected end of query"));
    }
    Ok(QueryStatement::Single(left))
}

} // verus!
