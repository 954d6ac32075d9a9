//! Prompt instructions for language-model providers: templates with
//! `{{placeholders}}` filled from the analysis at hand.

use vstd::prelude::*;
use crate::errors::CoreError;
use crate::text::{chars_of, dec_chars, push_chars, push_decimal, push_str, string_from_chars};

verus! {

/// What the placeholders of a provider prompt stand for.
#[derive(Debug, Clone)]
pub struct ProviderPromptContext<'a> {
    pub model: &'a str,
    pub provider: &'a str,
    pub heap_path: &'a str,
    pub total_bytes: u64,
    pub total_objects: u64,
    pub leak_sampled: usize,
}

/// Every occurrence of `pat` in `s`, left to right and not overlapping,
/// replaced by `rep` (what `str::replace` does for a non-empty pattern).
pub open spec fn replace_all(s: Seq<char>, pat: Seq<char>, rep: Seq<char>) -> Seq<char>
    decreases s.len(),
{
    if s.len() == 0 || pat.len() == 0 {
        s
    } else if pat.len() <= s.len() && s.take(pat.len() as int) == pat {
        rep + replace_all(s.skip(pat.len() as int), pat, rep)
    } else {
        seq![s[0]] + replace_all(s.drop_first(), pat, rep)
    }
}

/// A template value with the six placeholders filled in, in turn.
pub open spec fn render_value_spec(value: Seq<char>, ctx: ProviderPromptContext) -> Seq<char> {
    let a = replace_all(value, "{{model}}"@, ctx.model@);
    let b = replace_all(a, "{{provider}}"@, ctx.provider@);
    let c = replace_all(b, "{{heap_path}}"@, ctx.heap_path@);
    let d = replace_all(c, "{{total_bytes}}"@, dec_chars(ctx.total_bytes as nat));
    let e = replace_all(d, "{{total_objects}}"@, dec_chars(ctx.total_objects as nat));
    replace_all(e, "{{leak_sampled}}"@, dec_chars(ctx.leak_sampled as nat))
}

/// `s[i..i + p.len()]` equals `p`.
fn matches_at(s: &Vec<char>, i: usize, p: &Vec<char>) -> (b: bool)
    requires
        i <= s@.len(),
    ensures
        b == (p@.len() <= s@.len() - i && s@.skip(i as int).take(p@.len() as int) == p@),
{
    if p.len() > s.len() - i {
        return false;
    }
    let mut j: usize = 0;
    while j < p.len()
        invariant
            j <= p@.len(),
            i + p@.len() <= s.len(),
            s@.skip(i as int).take(j as int) == p@.take(j as int),
        decreases p.len() - j,
    {
        if s[i + j] != p[j] {
            proof {
                assert(s@.skip(i as int).take(p@.len() as int)[j as int] != p@[j as int]);
            }
            return false;
        }
        proof {
            assert(s@.skip(i as int).take(j + 1) =~= s@.skip(i as int).take(j as int).push(s@[i + j]));
            assert(p@.take(j + 1) =~= p@.take(j as int).push(p@[j as int]));
        }
        j = j + 1;
    }
    proof {
        assert(p@.take(p@.len() as int) =~= p@);
    }
    true
}

/// `str::replace` of a non-empty pattern.
fn replace_chars(s: &Vec<char>, pat: &Vec<char>, rep: &Vec<char>) -> (out: Vec<char>)
    ensures
        out@ == replace_all(s@, pat@, rep@),
{
    if pat.len() == 0 {
        let mut out: Vec<char> = Vec::new();
        push_chars(&mut out, s.as_slice());
        return out;
    }
    let mut out: Vec<char> = Vec::new();
    let mut i: usize = 0;
    proof {
        assert(s@.skip(0) =~= s@);
        assert(out@ + replace_all(s@, pat@, rep@) =~= replace_all(s@, pat@, rep@));
    }
    while i < s.len()
        invariant
            i <= s@.len(),
            pat@.len() > 0,
            out@ + replace_all(s@.skip(i as int), pat@, rep@) == replace_all(s@, pat@, rep@),
        decreases s.len() - i,
    {
        let ghost rest = s@.skip(i as int);
        if matches_at(s, i, pat) {
            let ghost before = out@;
            push_chars(&mut out, rep.as_slice());
            proof {
                assert(rest.skip(pat@.len() as int) =~= s@.skip(i + pat@.len()));
                assert(before + replace_all(rest, pat@, rep@) =~= out@ + replace_all(
                    s@.skip(i + pat@.len()),
                    pat@,
                    rep@,
                ));
            }
            i = i + pat.len();
        } else {
            let ghost before = out@;
            out.push(s[i]);
            proof {
                assert(rest.drop_first() =~= s@.skip(i + 1));
                assert(rest[0] == s@[i as int]);
                assert(before + replace_all(rest, pat@, rep@) =~= out@ + replace_all(s@.skip(i + 1), pat@, rep@));
            }
            i = i + 1;
        }
    }
    proof {
        assert(s@.skip(i as int) =~= Seq::<char>::empty());
        assert(out@ + Seq::<char>::empty() =~= out@);
    }
    out
}

/// The decimal text of a number.
fn decimal_chars(n: u64) -> (out: Vec<char>)
    ensures
        out@ == dec_chars(n as nat),
{
    let mut out: Vec<char> = Vec::new();
    push_decimal(&mut out, n);
    proof {
        assert(out@ =~= dec_chars(n as nat));
    }
    out
}

/// Fills the placeholders `{{model}}`, `{{provider}}`, `{{heap_path}}`,
/// `{{total_bytes}}`, `{{total_objects}}` and `{{leak_sampled}}` of a
/// template value.
pub fn render_value(value: &str, context: &ProviderPromptContext) -> (s: String)
    ensures
        s@ == render_value_spec(value@, *context),
{
    let a = replace_chars(&chars_of(value), &chars_of("{{model}}"), &chars_of(context.model));
    let b = replace_chars(&a, &chars_of("{{provider}}"), &chars_of(context.provider));
    let c = replace_chars(&b, &chars_of("{{heap_path}}"), &chars_of(context.heap_path));
    let d = replace_chars(&c, &chars_of("{{total_bytes}}"), &decimal_chars(context.total_bytes));
    let e = replace_chars(&d, &chars_of("{{total_objects}}"), &decimal_chars(context.total_objects));
    let f = replace_chars(&e, &chars_of("{{leak_sampled}}"), &decimal_chars(context.leak_sampled as u64));
    string_from_chars(&f)
}

/// Renders the instructions of a provider prompt template: only version 1
/// templates are accepted; each value has its placeholders filled.
pub fn render_template_instructions(
    version: u32,
    instructions: Vec<(String, String)>,
    context: &ProviderPromptContext,
) -> (r: Result<Vec<(String, String)>, CoreError>)
    ensures
        version != 1 ==> (r matches Err(CoreError::ConfigError { detail, suggestion }) && detail@
            == "unsupported provider prompt template version '"@ + dec_chars(version as nat) + "'"@
            && (suggestion matches Some(s) && s@ == "Use a version 1 provider-insights.yaml template."@)),
        version == 1 ==> (r matches Ok(out) && out@.len() == instructions@.len() && forall|i: int|
            0 <= i < out@.len() ==> (#[trigger] out@[i]).0 == instructions@[i].0 && out@[i].1@
                == render_value_spec(instructions@[i].1@, *context)),
{
    if version != 1 {
        let mut d = chars_of("unsupported provider prompt template version '");
        push_decimal(&mut d, version as u64);
        push_str(&mut d, "'");
        return Err(CoreError::ConfigError {
            detail: string_from_chars(&d),
            suggestion: Some("Use a version 1 provider-insights.yaml template.".to_string()),
        });
    }
    let mut out: Vec<(String, String)> = Vec::new();
    let mut rest = instructions;
    let ghost all = rest@;
    let n = rest.len();
    proof {
        assert(all.subrange(0, n as int) =~= all);
    }
    let mut k: usize = 0;
    while k < n
        invariant
            k <= n,
            n == all.len(),
            rest@ == all.subrange(k as int, n as int),
            out@.len() == k,
            forall|i: int| 0 <= i < k ==> (#[trigger] out@[i]).0 == all[i].0 && out@[i].1@ == render_value_spec(
                all[i].1@,
                *context,
            ),
        decreases n - k,
    {
        let (key, value) = rest.remove(0);
        proof {
            assert(rest@ =~= all.subrange(k + 1, n as int));
        }
        let rendered = render_value(value.as_str(), context);
        out.push((key, rendered));
        k = k + 1;
    }
    Ok(out)
}

} // verus!
