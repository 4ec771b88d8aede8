//! The text-batch layer over the transport: builds the per-batch prompt,
//! strips the optional Markdown code fences off the remote reply, parses it
//! as an ordered list of strings, and validates that the list's length
//! equals the request's — a mismatch is an error, never padded or truncated.

use vstd::prelude::*;
use crate::text::{chars_of, replace_spec, string_of, strip_suffix_all, trimmed};
use crate::text::{replace_chars, strip_prefix_all_chars, strip_suffix_all_chars, trim_chars};

verus! {

/// The reply text after dropping surrounding white space and any Markdown
/// code-fence wrapping (```json ... ``` or ``` ... ```), the preparation
/// every raw reply goes through before parsing.
pub open spec fn clean_fences(s: Seq<char>) -> Seq<char> {
    trimmed(
        strip_suffix_all(
            crate::text::strip_prefix_all(
                crate::text::strip_prefix_all(trimmed(s), "```json"@),
                "```"@,
            ),
            "```"@,
        ),
    )
}

/// Strips white space and code fences from a remote reply.
pub fn clean_response_text(s: &str) -> (r: Vec<char>)
    ensures
        r@ == clean_fences(s@),
{
    let v = chars_of(s);
    let v = trim_chars(&v);
    let fence_json = chars_of("```json");
    let fence = chars_of("```");
    let v = strip_prefix_all_chars(&v, &fence_json);
    let v = strip_prefix_all_chars(&v, &fence);
    let v = strip_suffix_all_chars(&v, &fence);
    trim_chars(&v)
}

/// What `serde_json::from_str::<Vec<String>>` makes of a given text: `Some`
/// of the parsed list when the text is a JSON array of strings, `None`
/// otherwise. The parse depends on the text alone.
pub uninterp spec fn parsed_text_list(s: Seq<char>) -> Option<Seq<Seq<char>>>;

/// Relies on `serde_json::from_str::<Vec<String>>`: whether the text parses,
/// and what it parses into, is named by [`parsed_text_list`].
#[verifier::external_body]
fn parse_text_list(s: &str) -> (r: Option<Vec<String>>)
    ensures
        r is Some <==> parsed_text_list(s@) is Some,
        r matches Some(v) ==> Some(v.deep_view()) == parsed_text_list(s@),
{
    match serde_json::from_str::<Vec<String>>(s) {
        Ok(v) => Some(v),
        Err(_) => None,
    }
}

/// Why a batch reply was rejected.
#[derive(Debug, Clone, Copy, PartialEq, Eq, Structural)]
pub enum BatchError {
    /// The cleaned reply is not a JSON list of strings.
    Unparseable,
    /// The list's length differs from the request's.
    LengthMismatch,
}

/// Decodes one batch reply: cleans fences, parses the list, and checks its
/// length against the request. `Ok` exactly when the cleaned reply parses
/// and its length equals `expected_len`; each failure class is told apart.
pub fn decode_batch_response(body: &str, expected_len: usize) -> (r: Result<
    Vec<String>,
    BatchError,
>)
    ensures
        match r {
            Ok(v) => {
                &&& parsed_text_list(clean_fences(body@)) matches Some(l)
                &&& v.deep_view() == parsed_text_list(clean_fences(body@))->Some_0
                &&& v.deep_view().len() == expected_len
            },
            Err(BatchError::Unparseable) => parsed_text_list(clean_fences(body@)) is None,
            Err(BatchError::LengthMismatch) => {
                &&& parsed_text_list(clean_fences(body@)) matches Some(l)
                &&& l.len() != expected_len
            },
        },
{
    let cleaned = clean_response_text(body);
    let cs = string_of(&cleaned);
    let parsed = parse_text_list(cs.as_str());
    match parsed {
        Some(v) => {
            proof {
                assert(v.deep_view().len() == v@.len());
            }
            if v.len() == expected_len {
                Ok(v)
            } else {
                Err(BatchError::LengthMismatch)
            }
        },
        None => Err(BatchError::Unparseable),
    }
}

/// The system prompt for one batch: the configured template with every
/// `{MOD_ID}` placeholder replaced by the artifact's context identifier.
pub fn render_prompt(template: &str, context_id: &str) -> (r: String)
    ensures
        r@ == replace_spec(template@, "{MOD_ID}"@, context_id@),
{
    let t = chars_of(template);
    let pat = chars_of("{MOD_ID}");
    let rep = chars_of(context_id);
    let out = replace_chars(&t, &pat, &rep);
    string_of(&out)
}

/// The configured base URL with every trailing `'/'` dropped, as the client
/// normalises it once at construction.
pub fn normalize_base_url(url: &str) -> (r: String)
    ensures
        r@ == strip_suffix_all(url@, "/"@),
{
    let v = chars_of(url);
    let slash = chars_of("/");
    let out = strip_suffix_all_chars(&v, &slash);
    string_of(&out)
}

} // verus!
