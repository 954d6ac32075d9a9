//! Text helpers: std string conversions and decimal / hexadecimal rendering.

use vstd::prelude::*;

verus! {

/// Compares two string slices with std's `==` on `str`, which compares the
/// character sequences.
#[verifier::external_body]
pub fn str_eq(a: &str, b: &str) -> (res: bool)
    ensures
        res == (a@ == b@),
{
    a == b
}

/// The characters of a string slice, in order.
pub fn chars_of(s: &str) -> (res: Vec<char>)
    ensures
        res@ == s@,
{
    broadcast use vstd::string::axiom_spec_iter;
    let mut out: Vec<char> = Vec::new();
    for c in it: s.chars()
        invariant
            it.seq() == s@,
            out@.len() == it.index(),
            out@ == s@.take(out@.len() as int),
    {
        out.push(c);
        proof {
            assert(s@.take(out@.len() as int) =~= s@.take(out@.len() - 1).push(c));
        }
    }
    proof {
        assert(s@.take(out@.len() as int) =~= s@);
    }
    out
}

/// The character with a given scalar value (std `char::from_u32`, which
/// the standard library documents to return `None` exactly for surrogate
/// code points and values above `0x10FFFF`).
#[verifier::external_body]
pub fn char_from_scalar(v: u32) -> (c: Option<char>)
    ensures
        c == (if (0xD800 <= v <= 0xDFFF) || v > 0x10FFFF { None } else { Some(v as char) }),
{
    char::from_u32(v)
}

/// A `String` holding the given characters (std `FromIterator<char>`).
#[verifier::external_body]
pub fn string_from_chars(v: &[char]) -> (res: String)
    ensures
        res@ == v@,
{
    v.iter().collect()
}

/// The character of a decimal digit.
pub open spec fn digit_char(d: nat) -> char {
    if d == 0 { '0' } else if d == 1 { '1' } else if d == 2 { '2' } else if d == 3 { '3' }
    else if d == 4 { '4' } else if d == 5 { '5' } else if d == 6 { '6' } else if d == 7 { '7' }
    else if d == 8 { '8' } else { '9' }
}

/// Decimal digits of a natural number, most significant first, no leading zeros.
pub open spec fn dec_chars(n: nat) -> Seq<char>
    decreases n,
{
    if n < 10 {
        seq![digit_char(n)]
    } else {
        dec_chars(n / 10).push(digit_char(n % 10))
    }
}

/// A lowercase or uppercase hexadecimal digit character.
pub open spec fn hex_char(d: nat, upper: bool) -> char {
    if d < 10 {
        digit_char(d)
    } else if upper {
        if d == 10 { 'A' } else if d == 11 { 'B' } else if d == 12 { 'C' } else if d == 13 { 'D' }
        else if d == 14 { 'E' } else { 'F' }
    } else {
        if d == 10 { 'a' } else if d == 11 { 'b' } else if d == 12 { 'c' } else if d == 13 { 'd' }
        else if d == 14 { 'e' } else { 'f' }
    }
}

pub fn digit_to_char(d: u64) -> (c: char)
    requires
        d < 10,
    ensures
        c == digit_char(d as nat),
{
    match d {
        0 => '0',
        1 => '1',
        2 => '2',
        3 => '3',
        4 => '4',
        5 => '5',
        6 => '6',
        7 => '7',
        8 => '8',
        _ => '9',
    }
}

pub fn hex_digit_to_char(d: u64, upper: bool) -> (c: char)
    requires
        d < 16,
    ensures
        c == hex_char(d as nat, upper),
{
    if d < 10 {
        digit_to_char(d)
    } else if upper {
        match d {
            10 => 'A',
            11 => 'B',
            12 => 'C',
            13 => 'D',
            14 => 'E',
            _ => 'F',
        }
    } else {
        match d {
            10 => 'a',
            11 => 'b',
            12 => 'c',
            13 => 'd',
            14 => 'e',
            _ => 'f',
        }
    }
}

/// Appends the decimal digits of `n` to `out`.
pub fn push_decimal(out: &mut Vec<char>, n: u64)
    ensures
        final(out)@ == old(out)@ + dec_chars(n as nat),
    decreases n,
{
    if n < 10 {
        out.push(digit_to_char(n));
        proof {
            assert(dec_chars(n as nat) == seq![digit_char(n as nat)]);
        }
    } else {
        push_decimal(out, n / 10);
        out.push(digit_to_char(n % 10));
        proof {
            assert(dec_chars(n as nat) == dec_chars((n / 10) as nat).push(digit_char((n % 10) as nat)));
        }
    }
    proof {
        assert(final(out)@ =~= old(out)@ + dec_chars(n as nat));
    }
}

/// Appends the characters of a string slice.
pub fn push_str(out: &mut Vec<char>, s: &str)
    ensures
        final(out)@ == old(out)@ + s@,
{
    let cs = chars_of(s);
    push_chars(out, &cs);
}

/// Appends a run of characters.
pub fn push_chars(out: &mut Vec<char>, cs: &[char])
    ensures
        final(out)@ == old(out)@ + cs@,
{
    let mut i: usize = 0;
    while i < cs.len()
        invariant
            i <= cs@.len(),
            out@ == old(out)@ + cs@.take(i as int),
        decreases cs.len() - i,
    {
        out.push(cs[i]);
        i = i + 1;
        proof {
            assert(cs@.take(i as int) =~= cs@.take(i - 1).push(cs@[i - 1]));
        }
    }
    proof {
        assert(cs@.take(i as int) =~= cs@);
    }
}

/// Decimal rendering of an unsigned number.
pub fn decimal_string(n: u64) -> (s: String)
    ensures
        s@ == dec_chars(n as nat),
{
    let mut v: Vec<char> = Vec::new();
    push_decimal(&mut v, n);
    proof {
        assert(v@ =~= dec_chars(n as nat));
    }
    string_from_chars(&v)
}


/// Hexadecimal digits of a natural number, most significant first, no
/// leading zeros.
pub open spec fn hex_chars(n: nat, upper: bool) -> Seq<char>
    decreases n,
{
    if n < 16 {
        seq![hex_char(n, upper)]
    } else {
        hex_chars(n / 16, upper).push(hex_char(n % 16, upper))
    }
}

/// `s` with `'0'` characters in front, up to `width` characters in all.
pub open spec fn zero_padded(s: Seq<char>, width: nat) -> Seq<char> {
    if s.len() < width {
        Seq::new((width - s.len()) as nat, |i: int| '0') + s
    } else {
        s
    }
}

/// Appends the hexadecimal digits of `n` to `out`.
pub fn push_hex(out: &mut Vec<char>, n: u64, upper: bool)
    ensures
        final(out)@ == old(out)@ + hex_chars(n as nat, upper),
    decreases n,
{
    if n < 16 {
        out.push(hex_digit_to_char(n, upper));
        proof {
            assert(hex_chars(n as nat, upper) == seq![hex_char(n as nat, upper)]);
        }
    } else {
        push_hex(out, n / 16, upper);
        out.push(hex_digit_to_char(n % 16, upper));
        proof {
            assert(hex_chars(n as nat, upper) == hex_chars((n / 16) as nat, upper).push(hex_char((n % 16) as nat, upper)));
        }
    }
    proof {
        assert(final(out)@ =~= old(out)@ + hex_chars(n as nat, upper));
    }
}

/// Appends `cs` after enough `'0'` characters to make `width` in all.
pub fn push_zero_padded(out: &mut Vec<char>, cs: &Vec<char>, width: usize)
    ensures
        final(out)@ == old(out)@ + zero_padded(cs@, width as nat),
{
    let mut k: usize = cs.len();
    while k < width
        invariant
            cs@.len() <= k <= width || (k == cs@.len() && k >= width),
            out@ == old(out)@ + Seq::new((k - cs@.len()) as nat, |i: int| '0'),
        decreases width - k,
    {
        out.push('0');
        k = k + 1;
        proof {
            assert(Seq::new((k - cs@.len()) as nat, |i: int| '0') =~= Seq::new((k - 1 - cs@.len()) as nat, |i: int| '0').push('0'));
        }
    }
    let ghost pad = out@;
    push_chars(out, cs.as_slice());
    proof {
        if cs@.len() < width {
            assert(k == width);
        } else {
            assert(Seq::new((k - cs@.len()) as nat, |i: int| '0') =~= Seq::<char>::empty());
        }
        assert(final(out)@ =~= old(out)@ + zero_padded(cs@, width as nat));
    }
}

/// `a` sorts strictly before `b`, comparing characters by code point.
pub open spec fn chars_lt(a: Seq<char>, b: Seq<char>) -> bool
    decreases a.len(),
{
    if b.len() == 0 {
        false
    } else if a.len() == 0 {
        true
    } else if a[0] != b[0] {
        (a[0] as int) < (b[0] as int)
    } else {
        chars_lt(a.drop_first(), b.drop_first())
    }
}

/// Whether `a` sorts strictly before `b`, character by character.
pub fn chars_less(a: &Vec<char>, b: &Vec<char>) -> (res: bool)
    ensures
        res == chars_lt(a@, b@),
{
    let mut i: usize = 0;
    proof {
        assert(a@.skip(0) =~= a@);
        assert(b@.skip(0) =~= b@);
    }
    while i < a.len() && i < b.len()
        invariant
            i <= a@.len(),
            i <= b@.len(),
            a@.take(i as int) == b@.take(i as int),
            chars_lt(a@, b@) == chars_lt(a@.skip(i as int), b@.skip(i as int)),
        decreases a@.len() - i,
    {
        if a[i] != b[i] {
            proof {
                assert(a@.skip(i as int)[0] == a@[i as int]);
                assert(b@.skip(i as int)[0] == b@[i as int]);
            }
            return a[i] < b[i];
        }
        proof {
            assert(a@.skip(i as int).drop_first() =~= a@.skip(i + 1));
            assert(b@.skip(i as int).drop_first() =~= b@.skip(i + 1));
            assert(a@.take(i + 1) =~= a@.take(i as int).push(a@[i as int]));
            assert(b@.take(i + 1) =~= b@.take(i as int).push(b@[i as int]));
        }
        i = i + 1;
    }
    b.len() > i
}


/// The character order is irreflexive.
pub proof fn lemma_chars_lt_irreflexive(a: Seq<char>)
    ensures
        !chars_lt(a, a),
    decreases a.len(),
{
    if a.len() > 0 {
        lemma_chars_lt_irreflexive(a.drop_first());
    }
}

/// The character order is transitive.
pub proof fn lemma_chars_lt_transitive(a: Seq<char>, b: Seq<char>, c: Seq<char>)
    requires
        chars_lt(a, b),
        chars_lt(b, c),
    ensures
        chars_lt(a, c),
    decreases a.len(),
{
    if a.len() > 0 && b.len() > 0 && c.len() > 0 {
        if a[0] == b[0] && b[0] == c[0] {
            lemma_chars_lt_transitive(a.drop_first(), b.drop_first(), c.drop_first());
        }
    }
}

/// Two different character sequences are ordered one way or the other.
pub proof fn lemma_chars_lt_total(a: Seq<char>, b: Seq<char>)
    requires
        a != b,
    ensures
        chars_lt(a, b) || chars_lt(b, a),
    decreases a.len(),
{
    if a.len() == 0 {
        if b.len() == 0 {
            assert(a =~= b);
        }
    } else if b.len() > 0 && a[0] == b[0] {
        if a.drop_first() == b.drop_first() {
            assert(a =~= seq![a[0]] + a.drop_first());
            assert(b =~= seq![b[0]] + b.drop_first());
        }
        lemma_chars_lt_total(a.drop_first(), b.drop_first());
    } else if b.len() > 0 {
        assert((a[0] as int) != (b[0] as int));
    }
}

/// The character order is asymmetric.
pub proof fn lemma_chars_lt_asymmetric(a: Seq<char>, b: Seq<char>)
    requires
        chars_lt(a, b),
    ensures
        !chars_lt(b, a),
    decreases a.len(),
{
    if a.len() > 0 && b.len() > 0 && a[0] == b[0] {
        lemma_chars_lt_asymmetric(a.drop_first(), b.drop_first());
    }
}

/// Whether `t` occurs in `s`.
pub open spec fn contains_text(s: Seq<char>, t: Seq<char>) -> bool {
    exists|i: int| 0 <= i && i + t.len() <= s.len() && #[trigger] s.subrange(i, i + t.len()) == t
}

pub fn find_text(s: &Vec<char>, t: &Vec<char>) -> (b: bool)
    ensures
        b == contains_text(s@, t@),
{
    if t.len() > s.len() {
        proof {
            assert forall|i: int| 0 <= i && i + t@.len() <= s@.len() implies #[trigger] s@.subrange(i, i + t@.len()) != t@ by {}
        }
        return false;
    }
    let mut i: usize = 0;
    while i <= s.len() - t.len()
        invariant
            t@.len() <= s@.len(),
            i <= s@.len() - t@.len() + 1,
            forall|k: int| 0 <= k < i && k + t@.len() <= s@.len() ==> #[trigger] s@.subrange(k, k + t@.len()) != t@,
        decreases s.len() - i,
    {
        let _n = s.len();
        let mut j: usize = 0;
        let mut same = true;
        while j < t.len()
            invariant
                i + t@.len() <= s@.len(),
                s@.len() <= usize::MAX,
                j <= t@.len(),
                same == forall|m: int| 0 <= m < j ==> s@[i + m] == t@[m],
            decreases t.len() - j,
        {
            if s[i + j] != t[j] {
                same = false;
            }
            j = j + 1;
        }
        if same {
            proof {
                assert(s@.subrange(i as int, i + t@.len()) =~= t@);
            }
            return true;
        }
        proof {
            let m = choose|m: int| 0 <= m < t@.len() && s@[i + m] != t@[m];
            assert(s@.subrange(i as int, i + t@.len())[m] != t@[m]);
        }
        i = i + 1;
    }
    false
}

} // verus!
