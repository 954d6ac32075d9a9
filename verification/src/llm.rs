//! Completion requests to AI providers: the endpoint and API key a provider
//! is reached with, and how a provider's reply becomes completion text.

use vstd::prelude::*;
use crate::errors::CoreError;
use crate::mcp::dispatch::invalid_input_is;
use crate::query::parser::{is_whitespace, is_whitespace_char};
use crate::text::{chars_of, push_chars, push_str, string_from_chars};

verus! {

/// The AI service a completion is sent to.
#[derive(Debug, Clone, Copy, PartialEq, Eq, Structural)]
pub enum AiProvider {
    /// OpenAI's chat-completions API.
    OpenAi,
    /// Anthropic's messages API.
    Anthropic,
    /// A self-hosted server speaking the OpenAI chat-completions API.
    Local,
}

/// The text a provider completed.
#[derive(Debug, Clone, PartialEq, Eq)]
pub struct LlmCompletionResponse {
    pub text: String,
}

/// The output limit sent to Anthropic when none is configured.
pub const ANTHROPIC_DEFAULT_MAX_TOKENS: u32 = 2000;

/// Every character is whitespace (so the text trims to nothing).
pub open spec fn is_blank(s: Seq<char>) -> bool {
    forall|i: int| 0 <= i < s.len() ==> is_whitespace_char(#[trigger] s[i])
}

fn blank(s: &Vec<char>) -> (b: bool)
    ensures
        b == is_blank(s@),
{
    let mut i: usize = 0;
    while i < s.len()
        invariant
            i <= s@.len(),
            forall|k: int| 0 <= k < i ==> is_whitespace_char(#[trigger] s@[k]),
        decreases s.len() - i,
    {
        if !is_whitespace(s[i]) {
            return false;
        }
        i = i + 1;
    }
    true
}

fn owned(s: &str) -> (o: String)
    ensures
        o@ == s@,
{
    string_from_chars(&chars_of(s))
}

/// The endpoint a provider is reached at: the configured one, else OpenAI's
/// and Anthropic's public APIs; a local provider has no default.
pub fn resolved_endpoint(provider: AiProvider, endpoint: &Option<String>) -> (r: Result<String, CoreError>)
    ensures
        match (provider, endpoint) {
            (_, Some(e)) => r matches Ok(s) && s@ == e@,
            (AiProvider::OpenAi, None) => r matches Ok(s) && s@ == "https://api.openai.com/v1"@,
            (AiProvider::Anthropic, None) => r matches Ok(s) && s@ == "https://api.anthropic.com/v1"@,
            (AiProvider::Local, None) => r matches Err(e) && invalid_input_is(
                e,
                "local provider mode requires `ai.endpoint` to be configured"@,
            ),
        },
{
    match endpoint {
        Some(e) => Ok(string_from_chars(&chars_of(e.as_str()))),
        None => match provider {
            AiProvider::OpenAi => Ok(owned("https://api.openai.com/v1")),
            AiProvider::Anthropic => Ok(owned("https://api.anthropic.com/v1")),
            AiProvider::Local => Err(CoreError::InvalidInput(
                owned("local provider mode requires `ai.endpoint` to be configured"),
            )),
        },
    }
}

/// The environment variable that holds the API key: the configured one,
/// else the provider's customary name; a local provider needs none.
pub fn api_key_env_name(provider: AiProvider, configured: &Option<String>) -> (r: Option<String>)
    ensures
        match (provider, configured) {
            (_, Some(c)) => r matches Some(n) && n@ == c@,
            (AiProvider::OpenAi, None) => r matches Some(n) && n@ == "OPENAI_API_KEY"@,
            (AiProvider::Anthropic, None) => r matches Some(n) && n@ == "ANTHROPIC_API_KEY"@,
            (AiProvider::Local, None) => r is None,
        },
{
    match configured {
        Some(c) => Some(string_from_chars(&chars_of(c.as_str()))),
        None => match provider {
            AiProvider::OpenAi => Some(owned("OPENAI_API_KEY")),
            AiProvider::Anthropic => Some(owned("ANTHROPIC_API_KEY")),
            AiProvider::Local => None,
        },
    }
}

/// The API key read from the variable `env_name` (whose value, where it is
/// set, is `env_value`): none is needed without a variable; an unset or
/// blank value is refused, naming the variable.
pub fn resolved_api_key(env_name: Option<String>, env_value: Option<String>) -> (r: Result<Option<String>, CoreError>)
    ensures
        match env_name {
            None => r == Ok::<Option<String>, CoreError>(None),
            Some(n) => match env_value {
                Some(v) if !is_blank(v@) => r == Ok::<Option<String>, CoreError>(Some(v)),
                _ => r matches Err(e) && invalid_input_is(
                    e,
                    "missing AI provider API key in environment variable `"@ + n@ + "`"@,
                ),
            },
        },
{
    match env_name {
        None => Ok(None),
        Some(n) => {
            if let Some(v) = env_value {
                if !blank(&chars_of(v.as_str())) {
                    return Ok(Some(v));
                }
            }
            let mut text: Vec<char> = Vec::new();
            push_str(&mut text, "missing AI provider API key in environment variable `");
            push_str(&mut text, n.as_str());
            push_str(&mut text, "`");
            Err(CoreError::InvalidInput(string_from_chars(&text)))
        },
    }
}

/// `s` without the slashes at its end.
pub open spec fn without_trailing_slashes(s: Seq<char>) -> Seq<char>
    decreases s.len(),
{
    if s.len() > 0 && s.last() == '/' { without_trailing_slashes(s.drop_last()) } else { s }
}

/// The address of a provider operation: the endpoint without its trailing
/// slashes, then the operation's path.
pub fn completion_url(endpoint: &str, path: &str) -> (url: String)
    ensures
        url@ == without_trailing_slashes(endpoint@) + path@,
{
    let cs = chars_of(endpoint);
    let mut end: usize = cs.len();
    proof {
        assert(cs@.take(end as int) =~= cs@);
    }
    while end > 0 && cs[end - 1] == '/'
        invariant
            end <= cs@.len(),
            without_trailing_slashes(cs@) == without_trailing_slashes(cs@.take(end as int)),
        decreases end,
    {
        proof {
            assert(cs@.take(end as int).drop_last() =~= cs@.take(end - 1));
        }
        end = end - 1;
    }
    let mut out: Vec<char> = Vec::new();
    let mut i: usize = 0;
    while i < end
        invariant
            i <= end <= cs@.len(),
            out@ == cs@.take(i as int),
        decreases end - i,
    {
        out.push(cs[i]);
        i = i + 1;
        proof {
            assert(out@ =~= cs@.take(i as int));
        }
    }
    push_str(&mut out, path);
    string_from_chars(&out)
}

/// An error saying the provider sent no text.
pub open spec fn is_no_content(e: CoreError) -> bool {
    invalid_input_is(e, "provider returned no completion content"@)
}

fn no_content() -> (e: CoreError)
    ensures
        is_no_content(e),
{
    CoreError::InvalidInput(owned("provider returned no completion content"))
}

/// An OpenAI-style reply: the content of its first choice, which must not
/// be blank.
pub fn openai_completion(first_content: Option<String>) -> (r: Result<LlmCompletionResponse, CoreError>)
    ensures
        match first_content {
            Some(c) if !is_blank(c@) => r == Ok::<LlmCompletionResponse, CoreError>(
                LlmCompletionResponse { text: c },
            ),
            _ => r matches Err(e) && is_no_content(e),
        },
{
    match first_content {
        Some(c) => {
            if blank(&chars_of(c.as_str())) {
                Err(no_content())
            } else {
                Ok(LlmCompletionResponse { text: c })
            }
        },
        None => Err(no_content()),
    }
}

/// The texts of the blocks of kind `text` that carry one, in order.
pub open spec fn text_parts(blocks: Seq<(Seq<char>, Option<Seq<char>>)>) -> Seq<Seq<char>>
    decreases blocks.len(),
{
    if blocks.len() == 0 {
        Seq::empty()
    } else {
        let rest = text_parts(blocks.drop_last());
        let (kind, text) = blocks.last();
        if kind == "text"@ && text is Some { rest.push(text->0) } else { rest }
    }
}

/// The parts joined by newlines.
pub open spec fn join_lines(parts: Seq<Seq<char>>) -> Seq<char>
    decreases parts.len(),
{
    if parts.len() == 0 {
        Seq::empty()
    } else if parts.len() == 1 {
        parts[0]
    } else {
        join_lines(parts.drop_last()) + "\n"@ + parts.last()
    }
}

/// The content blocks of a reply as plain values.
pub open spec fn blocks_view(blocks: Seq<(String, Option<String>)>) -> Seq<(Seq<char>, Option<Seq<char>>)> {
    blocks.map_values(|b: (String, Option<String>)| (b.0@, match b.1 { Some(t) => Some(t@), None => None }))
}

/// An Anthropic-style reply, given as (kind, text) content blocks: the texts
/// of its `text` blocks joined by newlines, which must not be blank.
pub fn anthropic_completion(blocks: &Vec<(String, Option<String>)>) -> (r: Result<LlmCompletionResponse, CoreError>)
    ensures
        ({
            let joined = join_lines(text_parts(blocks_view(blocks@)));
            if is_blank(joined) {
                r matches Err(e) && is_no_content(e)
            } else {
                r matches Ok(resp) && resp.text@ == joined
            }
        }),
{
    let mut out: Vec<char> = Vec::new();
    let mut count: usize = 0;
    let mut i: usize = 0;
    while i < blocks.len()
        invariant
            i <= blocks@.len(),
            count == text_parts(blocks_view(blocks@.take(i as int))).len(),
            count <= i,
            out@ == join_lines(text_parts(blocks_view(blocks@.take(i as int)))),
        decreases blocks.len() - i,
    {
        let ghost prev = text_parts(blocks_view(blocks@.take(i as int)));
        proof {
            assert(blocks_view(blocks@.take(i + 1)).drop_last() =~= blocks_view(blocks@.take(i as int)));
        }
        let kind_chars = chars_of(blocks[i].0.as_str());
        let is_text = kind_chars.len() == 4 && kind_chars[0] == 't' && kind_chars[1] == 'e'
            && kind_chars[2] == 'x' && kind_chars[3] == 't';
        proof {
            reveal_strlit("text");
            if is_text {
                assert(kind_chars@ =~= "text"@);
            }
        }
        if is_text {
            match &blocks[i].1 {
                Some(t) => {
                    if count > 0 {
                        push_str(&mut out, "\n");
                    }
                    let tc = chars_of(t.as_str());
                    push_chars(&mut out, &tc);
                    count = count + 1;
                    proof {
                        let parts = prev.push(t@);
                        assert(text_parts(blocks_view(blocks@.take(i + 1))) == parts);
                        assert(parts.drop_last() =~= prev);
                        if prev.len() == 0 {
                            assert(out@ =~= t@);
                        }
                    }
                },
                None => {
                    proof {
                        assert(text_parts(blocks_view(blocks@.take(i + 1))) == prev);
                    }
                },
            }
        } else {
            proof {
                assert(text_parts(blocks_view(blocks@.take(i + 1))) == prev);
            }
        }
        i = i + 1;
    }
    proof {
        assert(blocks@.take(blocks@.len() as int) =~= blocks@);
    }
    if blank(&out) {
        Err(no_content())
    } else {
        Ok(LlmCompletionResponse { text: string_from_chars(&out) })
    }
}

/// Anthropic is only reached with an API key.
pub fn anthropic_api_key(key: Option<String>) -> (r: Result<String, CoreError>)
    ensures
        match key {
            Some(k) => r == Ok::<String, CoreError>(k),
            None => r matches Err(e) && invalid_input_is(e, "Anthropic provider requires an API key"@),
        },
{
    match key {
        Some(k) => Ok(k),
        None => Err(CoreError::InvalidInput(owned("Anthropic provider requires an API key"))),
    }
}

} // verus!
