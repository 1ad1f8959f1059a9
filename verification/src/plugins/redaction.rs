//! Outbound scrubbing of secrets and personal data.
//!
//! A [`RedactionPlugin`] rewrites the text of a request before it leaves: every match of one of
//! its rules becomes `[REDACTED:{kind}]`. Matches are taken leftmost first; at one start the
//! longest counts, and of two equally long ones the rule that comes first in the policy. A
//! replacement of the policy that is in the text already stays: what touches it is no match, so
//! that scrubbing a second time changes nothing.
//!
//! Scrubbed are message texts, reasoning, tool results, message names, the string leaves of
//! tool-call arguments, and (where the policy says so) tool descriptions. All else stays as it
//! is: signatures, ids, names of tools, schemas, images, and the keys of JSON objects.

use crate::bytes::{
    byte_slice, find_byte, find_bytes, lemma_ascii_boundaries, lemma_encode_concat,
    lemma_occurrence_boundaries, occurs_at,
};
use crate::error::PluginError;
use crate::json::{array_view, lemma_json_view, object_view, Json, JsonView};
use crate::request::{RequestView, UnifiedRequest};
use crate::string_map::StringMap;
use crate::types::{
    block_views, message_views, tool_views, BlockView, MessageContentBlock, MessageView,
    ToolDefinition, ToolView, UnifiedMessage,
};
use crate::text::{debug_text, decimal, decimal_text, has_substring, quote, str_contains};
use std::borrow::Cow;
use vstd::prelude::*;
use vstd::slice::slice_subrange;
use vstd::string::*;
use vstd::utf8::{
    decode_utf8, encode_utf8, encode_utf8_decode_utf8, encode_utf8_valid_utf8, is_char_boundary,
    is_ascii_chars_encode_utf8, is_char_boundary_start_end_of_seq, valid_utf8,
};

verus! {

/// The plugin's name.
pub const NAME: &'static str = "redaction";

/// The schema that every refused policy names.
pub const CONFIG_SCHEMA: &'static str = "redaction-config";

/// The label of a message's text.
pub const FIELD_MESSAGE_TEXT: &'static str = "message_text";

/// The label of a message's reasoning.
pub const FIELD_MESSAGE_THINKING: &'static str = "message_thinking";

/// The label of a string in the arguments of a tool call.
pub const FIELD_TOOL_CALL_ARGUMENTS: &'static str = "tool_call_arguments";

/// The label of a tool's result.
pub const FIELD_TOOL_RESULT_OUTPUT: &'static str = "tool_result_output";

/// The label of a message's name.
pub const FIELD_MESSAGE_NAME: &'static str = "message_name";

/// The label of a tool's description.
pub const FIELD_TOOL_DESCRIPTION: &'static str = "tool_description";

/// What to look for. `kind` names the class of secret; it is never the secret.
#[derive(Clone, Debug, PartialEq, Eq)]
pub enum RedactionRule {
    /// A known value.
    Literal {
        /// The class of secret.
        kind: String,
        /// The value.
        value: String,
    },
    /// A prefix, followed by letters, digits, `-` and `_`.
    Prefixed {
        /// The class of secret.
        kind: String,
        /// The prefix.
        prefix: String,
        /// How many of these must follow.
        min_len: usize,
        /// How many of these are taken.
        max_len: usize,
    },
    /// Something like `local@domain.tld`.
    EmailLike {
        /// The class of secret.
        kind: String,
    },
    /// A run of digits, with single `-` or ` ` between them.
    DigitRun {
        /// The class of secret.
        kind: String,
        /// How many digits there must be.
        min_digits: usize,
        /// How many digits are taken.
        max_digits: usize,
    },
}

impl RedactionRule {
    /// The class of secret.
    pub open spec fn kind_view(&self) -> Seq<char> {
        match *self {
            RedactionRule::Literal { kind, .. } => kind@,
            RedactionRule::Prefixed { kind, .. } => kind@,
            RedactionRule::EmailLike { kind } => kind@,
            RedactionRule::DigitRun { kind, .. } => kind@,
        }
    }

    /// The class of secret.
    fn kind(&self) -> (r: &String)
        ensures
            r@ == self.kind_view(),
    {
        match self {
            RedactionRule::Literal { kind, .. } => kind,
            RedactionRule::Prefixed { kind, .. } => kind,
            RedactionRule::EmailLike { kind } => kind,
            RedactionRule::DigitRun { kind, .. } => kind,
        }
    }
}

/// A redaction policy.
#[derive(Clone, Debug, PartialEq)]
pub struct RedactionConfig {
    /// The rules.
    pub rules: Vec<RedactionRule>,
    /// How many matches one text may hold.
    pub max_matches_per_text: usize,
    /// Whether tool descriptions are scrubbed.
    pub scrub_tool_definitions: bool,
}

/// The field `field` of rule `i`, in a message.
pub open spec fn rule_field(i: int, field: Seq<char>) -> Seq<char> {
    "rules["@ + decimal(i as nat) + "]."@ + field
}

/// A lower-case letter, a digit, `-` or `_`.
pub open spec fn is_slug_char(c: char) -> bool {
    ||| 'a' <= c <= 'z'
    ||| '0' <= c <= '9'
    ||| c == '-'
    ||| c == '_'
}

/// What is wrong with the class of secret of rule `i`.
pub open spec fn kind_refusal(i: int, kind: Seq<char>) -> Option<Seq<char>> {
    if kind.len() == 0 {
        Some(rule_field(i, "kind"@) + " must not be empty"@)
    } else if encode_utf8(kind).len() > RedactionConfig::MAX_KIND_BYTES {
        Some(
            rule_field(i, "kind"@) + " is "@ + decimal(encode_utf8(kind).len())
                + " bytes, over MAX_KIND_BYTES ("@ + decimal(
                RedactionConfig::MAX_KIND_BYTES as nat,
            ) + ")"@,
        )
    } else if !(forall|k: int| 0 <= k < kind.len() ==> is_slug_char(#[trigger] kind[k])) {
        Some(
            rule_field(i, "kind"@) + " must be an ASCII slug of [a-z0-9_-]; got "@ + debug_text(
                kind,
            ),
        )
    } else {
        None
    }
}

/// What is wrong with a pattern of rule `i`.
pub open spec fn pattern_refusal(
    i: int,
    field: Seq<char>,
    pattern: Seq<char>,
) -> Option<Seq<char>> {
    if pattern.len() == 0 {
        Some(rule_field(i, field) + " must not be empty"@)
    } else if encode_utf8(pattern).len() > RedactionConfig::MAX_PATTERN_BYTES {
        Some(
            rule_field(i, field) + " is "@ + decimal(encode_utf8(pattern).len())
                + " bytes, over MAX_PATTERN_BYTES ("@ + decimal(
                RedactionConfig::MAX_PATTERN_BYTES as nat,
            ) + ")"@,
        )
    } else {
        None
    }
}

/// A lower bound of rule `i` that is over its upper bound, in a message.
pub open spec fn bounds_message(
    i: int,
    low_field: Seq<char>,
    low: nat,
    high_field: Seq<char>,
    high: nat,
) -> Seq<char> {
    rule_field(i, low_field) + " ("@ + decimal(low) + ") is over "@ + rule_field(i, high_field)
        + " ("@ + decimal(high) + ")"@
}

/// What is wrong with what rule `i` looks for.
pub open spec fn matcher_refusal(i: int, rule: RedactionRule) -> Option<Seq<char>> {
    match rule {
        RedactionRule::Literal { value, .. } => if pattern_refusal(i, "value"@, value@) is Some {
            pattern_refusal(i, "value"@, value@)
        } else if has_substring(value@, RedactionConfig::REDACTION_MARKER@) {
            Some(
                rule_field(i, "value"@) + " contains the replacement marker "@ + debug_text(
                    RedactionConfig::REDACTION_MARKER@,
                ) + ", which would make scrubbing non-idempotent"@,
            )
        } else {
            None
        },
        RedactionRule::Prefixed { prefix, min_len, max_len, .. } => if pattern_refusal(
            i,
            "prefix"@,
            prefix@,
        ) is Some {
            pattern_refusal(i, "prefix"@, prefix@)
        } else if min_len > max_len {
            Some(bounds_message(i, "min_len"@, min_len as nat, "max_len"@, max_len as nat))
        } else {
            None
        },
        RedactionRule::EmailLike { .. } => None,
        RedactionRule::DigitRun { min_digits, max_digits, .. } => if min_digits == 0 {
            Some(
                rule_field(i, "min_digits"@)
                    + " must be non-zero: a zero-digit run matches everywhere"@,
            )
        } else if min_digits > max_digits {
            Some(
                bounds_message(
                    i,
                    "min_digits"@,
                    min_digits as nat,
                    "max_digits"@,
                    max_digits as nat,
                ),
            )
        } else {
            None
        },
    }
}

/// What is wrong with rule `i`.
pub open spec fn rule_refusal(i: int, rule: RedactionRule) -> Option<Seq<char>> {
    if kind_refusal(i, rule.kind_view()) is Some {
        kind_refusal(i, rule.kind_view())
    } else {
        matcher_refusal(i, rule)
    }
}

/// What is wrong with the rules from `k` on.
pub open spec fn rules_refusal(rules: Seq<RedactionRule>, k: int) -> Option<Seq<char>>
    decreases rules.len() - k,
{
    if k < 0 || k >= rules.len() {
        None
    } else if rule_refusal(k, rules[k]) is Some {
        rule_refusal(k, rules[k])
    } else {
        rules_refusal(rules, k + 1)
    }
}

/// Why a policy is refused.
pub open spec fn config_refusal(c: RedactionConfig) -> Option<Seq<char>> {
    if c.rules@.len() == 0 {
        Some(
            "rules must not be empty: an empty policy is an inert no-op, not a redaction policy"@,
        )
    } else if c.rules@.len() > RedactionConfig::MAX_RULES {
        Some(
            "rules holds "@ + decimal(c.rules@.len()) + " entries, over MAX_RULES ("@ + decimal(
                RedactionConfig::MAX_RULES as nat,
            ) + ")"@,
        )
    } else if rules_refusal(c.rules@, 0) is Some {
        rules_refusal(c.rules@, 0)
    } else if c.max_matches_per_text == 0 {
        Some("max_matches_per_text must be non-zero: a zero cap refuses every dirty string"@)
    } else if c.max_matches_per_text > RedactionConfig::MAX_MATCHES_PER_TEXT {
        Some(
            "max_matches_per_text ("@ + decimal(c.max_matches_per_text as nat)
                + ") is over MAX_MATCHES_PER_TEXT ("@ + decimal(
                RedactionConfig::MAX_MATCHES_PER_TEXT as nat,
            ) + ")"@,
        )
    } else {
        None
    }
}

/// The field `field` of rule `i`, in a message.
fn rule_field_text(i: usize, field: &str) -> (r: String)
    ensures
        r@ == rule_field(i as int, field@),
{
    "rules[".to_owned().concat(decimal_text(i as u128).as_str()).concat("].").concat(field)
}

/// Checks the class of secret of rule `i`.
fn validate_kind(i: usize, kind: &str) -> (r: Result<(), String>)
    ensures
        match kind_refusal(i as int, kind@) {
            Some(m) => r matches Err(e) && e@ == m,
            None => r is Ok,
        },
{
    if kind.unicode_len() == 0 {
        return Err(rule_field_text(i, "kind").concat(" must not be empty"));
    }
    let length: usize = kind.as_bytes().len();
    if length > RedactionConfig::MAX_KIND_BYTES {
        return Err(
            rule_field_text(i, "kind").concat(" is ").concat(
                decimal_text(length as u128).as_str(),
            ).concat(" bytes, over MAX_KIND_BYTES (").concat(
                decimal_text(RedactionConfig::MAX_KIND_BYTES as u128).as_str(),
            ).concat(")"),
        );
    }
    for c in it: kind.chars()
        invariant
            it.seq() == kind@,
            kind@.len() > 0,
            encode_utf8(kind@).len() <= RedactionConfig::MAX_KIND_BYTES,
            forall|k: int| 0 <= k < it.index() ==> is_slug_char(#[trigger] kind@[k]),
    {
        if !(('a' <= c && c <= 'z') || ('0' <= c && c <= '9') || c == '-' || c == '_') {
            assert(!is_slug_char(kind@[it.index() as int]));
            return Err(
                rule_field_text(i, "kind").concat(
                    " must be an ASCII slug of [a-z0-9_-]; got ",
                ).concat(quote(kind).as_str()),
            );
        }
    }
    Ok(())
}

/// Checks a pattern of rule `i`.
fn validate_pattern(i: usize, field: &str, pattern: &str) -> (r: Result<(), String>)
    ensures
        match pattern_refusal(i as int, field@, pattern@) {
            Some(m) => r matches Err(e) && e@ == m,
            None => r is Ok,
        },
{
    if pattern.unicode_len() == 0 {
        return Err(rule_field_text(i, field).concat(" must not be empty"));
    }
    let length: usize = pattern.as_bytes().len();
    if length > RedactionConfig::MAX_PATTERN_BYTES {
        return Err(
            rule_field_text(i, field).concat(" is ").concat(
                decimal_text(length as u128).as_str(),
            ).concat(" bytes, over MAX_PATTERN_BYTES (").concat(
                decimal_text(RedactionConfig::MAX_PATTERN_BYTES as u128).as_str(),
            ).concat(")"),
        );
    }
    Ok(())
}

/// A lower bound of rule `i` that is over its upper bound, in a message.
fn bounds_text(i: usize, low_field: &str, low: usize, high_field: &str, high: usize) -> (r: String)
    ensures
        r@ == bounds_message(i as int, low_field@, low as nat, high_field@, high as nat),
{
    rule_field_text(i, low_field).concat(" (").concat(decimal_text(low as u128).as_str()).concat(
        ") is over ",
    ).concat(rule_field_text(i, high_field).as_str()).concat(" (").concat(
        decimal_text(high as u128).as_str(),
    ).concat(")")
}

/// Checks what rule `i` looks for.
fn validate_matcher(i: usize, rule: &RedactionRule) -> (r: Result<(), String>)
    ensures
        match matcher_refusal(i as int, *rule) {
            Some(m) => r matches Err(e) && e@ == m,
            None => r is Ok,
        },
{
    match rule {
        RedactionRule::Literal { value, .. } => {
            validate_pattern(i, "value", value.as_str())?;
            if str_contains(value.as_str(), RedactionConfig::REDACTION_MARKER) {
                return Err(
                    rule_field_text(i, "value").concat(
                        " contains the replacement marker ",
                    ).concat(quote(RedactionConfig::REDACTION_MARKER).as_str()).concat(
                        ", which would make scrubbing non-idempotent",
                    ),
                );
            }
        },
        RedactionRule::Prefixed { prefix, min_len, max_len, .. } => {
            validate_pattern(i, "prefix", prefix.as_str())?;
            if *min_len > *max_len {
                return Err(bounds_text(i, "min_len", *min_len, "max_len", *max_len));
            }
        },
        RedactionRule::EmailLike { .. } => {},
        RedactionRule::DigitRun { min_digits, max_digits, .. } => {
            if *min_digits == 0 {
                return Err(
                    rule_field_text(i, "min_digits").concat(
                        " must be non-zero: a zero-digit run matches everywhere",
                    ),
                );
            }
            if *min_digits > *max_digits {
                return Err(bounds_text(i, "min_digits", *min_digits, "max_digits", *max_digits));
            }
        },
    }
    Ok(())
}

/// The refusal of a policy.
fn invalid(message: String) -> (r: PluginError)
    ensures
        r matches PluginError::Validation { schema, message: m } && schema@ == CONFIG_SCHEMA@ && m
            == message,
{
    PluginError::Validation { schema: CONFIG_SCHEMA.to_owned(), message }
}

impl Default for RedactionConfig {
    fn default() -> (r: RedactionConfig)
        ensures
            r.rules@ == Seq::<RedactionRule>::empty(),
            r.max_matches_per_text == 1024,
            r.scrub_tool_definitions,
    {
        RedactionConfig {
            rules: Vec::new(),
            max_matches_per_text: 1024,
            scrub_tool_definitions: true,
        }
    }
}

impl RedactionConfig {
    /// How many rules a policy may hold.
    pub const MAX_RULES: usize = 256;

    /// How many bytes a value or a prefix may have.
    pub const MAX_PATTERN_BYTES: usize = 512;

    /// How many bytes the name of a class of secrets may have.
    pub const MAX_KIND_BYTES: usize = 32;

    /// The most that `max_matches_per_text` may be.
    pub const MAX_MATCHES_PER_TEXT: usize = 4096;

    /// How deep the arguments of a tool call may nest.
    pub const MAX_JSON_DEPTH: usize = 64;

    /// The start of every replacement.
    pub const REDACTION_MARKER: &'static str = "[REDACTED:";

    /// A policy with these rules and defaults for the rest, or its refusal.
    pub fn new(rules: Vec<RedactionRule>) -> (r: Result<RedactionConfig, PluginError>)
        ensures
            ({
                let c = RedactionConfig {
                    rules,
                    max_matches_per_text: 1024,
                    scrub_tool_definitions: true,
                };
                match config_refusal(c) {
                    Some(m) => r matches Err(PluginError::Validation { schema, message })
                        && schema@ == CONFIG_SCHEMA@ && message@ == m,
                    None => r == Ok::<_, PluginError>(c),
                }
            }),
    {
        let config = RedactionConfig {
            rules,
            max_matches_per_text: 1024,
            scrub_tool_definitions: true,
        };
        match config.validate() {
            Ok(()) => Ok(config),
            Err(e) => Err(e),
        }
    }

    /// Refuses a policy that cannot be honoured.
    pub fn validate(&self) -> (r: Result<(), PluginError>)
        ensures
            match config_refusal(*self) {
                Some(m) => r matches Err(PluginError::Validation { schema, message }) && schema@
                    == CONFIG_SCHEMA@ && message@ == m,
                None => r is Ok,
            },
    {
        if self.rules.len() == 0 {
            return Err(
                invalid(
                    "rules must not be empty: an empty policy is an inert no-op, not a redaction policy".to_owned(),
                ),
            );
        }
        if self.rules.len() > RedactionConfig::MAX_RULES {
            return Err(
                invalid(
                    "rules holds ".to_owned().concat(
                        decimal_text(self.rules.len() as u128).as_str(),
                    ).concat(" entries, over MAX_RULES (").concat(
                        decimal_text(RedactionConfig::MAX_RULES as u128).as_str(),
                    ).concat(")"),
                ),
            );
        }
        let mut i: usize = 0;
        while i < self.rules.len()
            invariant
                i <= self.rules@.len(),
                0 < self.rules@.len() <= RedactionConfig::MAX_RULES,
                rules_refusal(self.rules@, 0) == rules_refusal(self.rules@, i as int),
            decreases self.rules@.len() - i,
        {
            if let Err(message) = validate_kind(i, self.rules[i].kind().as_str()) {
                return Err(invalid(message));
            }
            if let Err(message) = validate_matcher(i, &self.rules[i]) {
                return Err(invalid(message));
            }
            i = i + 1;
        }
        if self.max_matches_per_text == 0 {
            return Err(
                invalid(
                    "max_matches_per_text must be non-zero: a zero cap refuses every dirty string".to_owned(),
                ),
            );
        }
        if self.max_matches_per_text > RedactionConfig::MAX_MATCHES_PER_TEXT {
            return Err(
                invalid(
                    "max_matches_per_text (".to_owned().concat(
                        decimal_text(self.max_matches_per_text as u128).as_str(),
                    ).concat(") is over MAX_MATCHES_PER_TEXT (").concat(
                        decimal_text(RedactionConfig::MAX_MATCHES_PER_TEXT as u128).as_str(),
                    ).concat(")"),
                ),
            );
        }
        Ok(())
    }
}

/// A decimal digit.
pub open spec fn is_digit(b: u8) -> bool {
    0x30 <= b <= 0x39
}

/// An ASCII letter or digit.
pub open spec fn is_alphanumeric(b: u8) -> bool {
    is_digit(b) || 0x41 <= b <= 0x5a || 0x61 <= b <= 0x7a
}

/// A byte of a token: a letter, a digit, `-` or `_`.
pub open spec fn is_token(b: u8) -> bool {
    is_alphanumeric(b) || b == 0x2d || b == 0x5f
}

/// A byte of the local part of an email address.
pub open spec fn is_email_local(b: u8) -> bool {
    is_alphanumeric(b) || b == 0x2e || b == 0x5f || b == 0x25 || b == 0x2b || b == 0x2d
}

/// A byte of the domain of an email address.
pub open spec fn is_email_domain(b: u8) -> bool {
    is_alphanumeric(b) || b == 0x2e || b == 0x2d
}

/// Where the run of at most `limit` token bytes from `i` on ends.
pub open spec fn token_end(b: Seq<u8>, i: int, limit: int) -> int
    decreases limit,
{
    if limit > 0 && 0 <= i < b.len() && is_token(b[i]) {
        token_end(b, i + 1, limit - 1)
    } else {
        i
    }
}

/// Where the run of local-part bytes from `i` on ends.
pub open spec fn local_end(b: Seq<u8>, i: int) -> int
    decreases b.len() - i,
{
    if 0 <= i < b.len() && is_email_local(b[i]) {
        local_end(b, i + 1)
    } else {
        i
    }
}

/// Where the run of domain bytes from `i` on ends.
pub open spec fn domain_end(b: Seq<u8>, i: int) -> int
    decreases b.len() - i,
{
    if 0 <= i < b.len() && is_email_domain(b[i]) {
        domain_end(b, i + 1)
    } else {
        i
    }
}

/// `end` moved back, not below `low`, to just after a letter or a digit.
pub open spec fn trimmed_end(b: Seq<u8>, low: int, end: int) -> int
    decreases end - low,
{
    if low < end <= b.len() && !is_alphanumeric(b[end - 1]) {
        trimmed_end(b, low, end - 1)
    } else {
        end
    }
}

/// The domain that starts at `i` has three bytes, does not start with a dot, and holds one.
pub open spec fn is_domain(b: Seq<u8>, i: int, end: int) -> bool {
    end - i >= 3 && b[i] != 0x2e && exists|k: int| i <= k < end && #[trigger] b[k] == 0x2e
}

/// Where the email address that starts at `s` ends: a letter or digit and further local-part
/// bytes, an `@`, and a domain, which ends with a letter or digit.
pub open spec fn email_end(b: Seq<u8>, s: int) -> Option<int> {
    let at = local_end(b, s);
    let end = trimmed_end(b, at + 1, domain_end(b, at + 1));
    if 0 <= s < b.len() && is_alphanumeric(b[s]) && at < b.len() && b[at] == 0x40 && is_domain(
        b,
        at + 1,
        end,
    ) {
        Some(end)
    } else {
        None
    }
}

/// The digit after the digit at `i`: the next byte, or the one after a single `-` or ` `.
pub open spec fn next_digit(b: Seq<u8>, i: int) -> Option<int> {
    if i + 1 < b.len() && is_digit(b[i + 1]) {
        Some(i + 1)
    } else if i + 2 < b.len() && (b[i + 1] == 0x2d || b[i + 1] == 0x20) && is_digit(b[i + 2]) {
        Some(i + 2)
    } else {
        None
    }
}

/// How many digits the run of at most `limit` digits from the digit at `i` on has.
pub open spec fn digit_count(b: Seq<u8>, i: int, limit: nat) -> nat
    decreases limit,
{
    if limit == 0 {
        0
    } else {
        match next_digit(b, i) {
            Some(j) => 1 + digit_count(b, j, (limit - 1) as nat),
            None => 1,
        }
    }
}

/// Where the run of at most `limit` digits from the digit at `i` on ends.
pub open spec fn digit_end(b: Seq<u8>, i: int, limit: nat) -> int
    decreases limit,
{
    if limit <= 1 {
        i + 1
    } else {
        match next_digit(b, i) {
            Some(j) => digit_end(b, j, (limit - 1) as nat),
            None => i + 1,
        }
    }
}

/// Where the match of a rule that starts at `s` ends, where there is one.
pub open spec fn rule_span(rule: RedactionRule, b: Seq<u8>, s: int) -> Option<int> {
    match rule {
        RedactionRule::Literal { value, .. } => if occurs_at(b, encode_utf8(value@), s) {
            Some(s + encode_utf8(value@).len())
        } else {
            None
        },
        RedactionRule::Prefixed { prefix, min_len, max_len, .. } => {
            let body = (s + encode_utf8(prefix@).len()) as int;
            if occurs_at(b, encode_utf8(prefix@), s) && token_end(b, body, max_len as int) - body
                >= min_len {
                Some(token_end(b, body, max_len as int))
            } else {
                None
            }
        },
        RedactionRule::EmailLike { .. } => email_end(b, s),
        RedactionRule::DigitRun { min_digits, max_digits, .. } => if 0 <= s < b.len() && is_digit(
            b[s],
        ) && digit_count(b, s, max_digits as nat) >= min_digits {
            Some(digit_end(b, s, max_digits as nat))
        } else {
            None
        },
    }
}

/// The first match of a rule that starts at `from` or later.
pub open spec fn rule_find(rule: RedactionRule, b: Seq<u8>, from: int) -> Option<(int, int)>
    decreases b.len() - from,
{
    match rule_span(rule, b, from) {
        Some(end) => Some((from, end)),
        None => if 0 <= from < b.len() {
            rule_find(rule, b, from + 1)
        } else {
            None
        },
    }
}

/// The replacement of rule `k` stands in the bytes at `x`.
pub open spec fn token_at(rules: Seq<RedactionRule>, b: Seq<u8>, k: int, x: int) -> bool {
    0 <= k < rules.len() && occurs_at(b, encode_utf8(replacement(rules[k])), x)
}

/// The bytes from `s` to `e` touch a replacement that stands there already.
pub open spec fn touches(rules: Seq<RedactionRule>, b: Seq<u8>, s: int, e: int) -> bool {
    exists|k: int, x: int| #[trigger]
        token_at(rules, b, k, x) && x < e && s < x + encode_utf8(replacement(rules[k])).len()
}

/// Where the match of rule `i` that starts at `s` ends, where there is one that touches no
/// replacement.
pub open spec fn free_span(rules: Seq<RedactionRule>, i: int, b: Seq<u8>, s: int) -> Option<int> {
    match rule_span(rules[i], b, s) {
        Some(e) => if touches(rules, b, s, e) {
            None
        } else {
            Some(e)
        },
        None => None,
    }
}

/// The first match of rule `i` that starts at `from` or later and touches no replacement.
pub open spec fn free_find(rules: Seq<RedactionRule>, i: int, b: Seq<u8>, from: int) -> Option<
    (int, int),
>
    decreases b.len() - from,
{
    match free_span(rules, i, b, from) {
        Some(end) => Some((from, end)),
        None => if 0 <= from < b.len() {
            free_find(rules, i, b, from + 1)
        } else {
            None
        },
    }
}

/// A match: where it starts and ends, and the rule.
pub struct MatchView {
    pub start: int,
    pub end: int,
    pub rule: int,
}

/// The better of two matches: the one that starts first, or at one start the longer one, or of
/// two equal ones the first.
pub open spec fn preferred(best: Option<MatchView>, m: MatchView) -> MatchView {
    match best {
        Some(b) => if b.start < m.start || (b.start == m.start && b.end >= m.end) {
            b
        } else {
            m
        },
        None => m,
    }
}

/// The best match of the first `k` rules that starts at `from` or later.
pub open spec fn best_match(
    rules: Seq<RedactionRule>,
    b: Seq<u8>,
    from: int,
    k: int,
) -> Option<MatchView>
    decreases k,
{
    if k <= 0 {
        None
    } else {
        let before = best_match(rules, b, from, k - 1);
        match free_find(rules, k - 1, b, from) {
            Some((start, end)) => Some(preferred(before, MatchView { start, end, rule: k - 1 })),
            None => before,
        }
    }
}

/// The matches from `from` on: the best one, and then those from its end on.
pub open spec fn matches_from(
    rules: Seq<RedactionRule>,
    b: Seq<u8>,
    from: int,
) -> Seq<MatchView>
    decreases b.len() - from,
{
    match best_match(rules, b, from, rules.len() as int) {
        None => Seq::empty(),
        Some(m) => if from < m.end <= b.len() {
            seq![m] + matches_from(rules, b, m.end)
        } else {
            seq![m]
        },
    }
}

/// What stands in place of a match of a rule.
pub open spec fn replacement(rule: RedactionRule) -> Seq<char> {
    RedactionConfig::REDACTION_MARKER@ + rule.kind_view() + "]"@
}

/// The bytes from `cursor` on with the matches replaced.
pub open spec fn rewritten(
    rules: Seq<RedactionRule>,
    b: Seq<u8>,
    ms: Seq<MatchView>,
    cursor: int,
) -> Seq<u8>
    decreases ms.len(),
{
    if ms.len() == 0 {
        b.subrange(cursor, b.len() as int)
    } else {
        b.subrange(cursor, ms[0].start) + encode_utf8(replacement(rules[ms[0].rule])) + rewritten(
            rules,
            b,
            ms.drop_first(),
            ms[0].end,
        )
    }
}

/// The matches in a text.
pub open spec fn text_matches(rules: Seq<RedactionRule>, text: Seq<char>) -> Seq<MatchView> {
    matches_from(rules, encode_utf8(text), 0)
}

/// A text with all matches replaced.
pub open spec fn scrubbed(rules: Seq<RedactionRule>, text: Seq<char>) -> Seq<char> {
    decode_utf8(rewritten(rules, encode_utf8(text), text_matches(rules, text), 0))
}

/// A rule that matches no empty text.
pub open spec fn sound_rule(rule: RedactionRule) -> bool {
    match rule {
        RedactionRule::Literal { value, .. } => value@.len() > 0,
        RedactionRule::Prefixed { prefix, min_len, max_len, .. } => prefix@.len() > 0 && min_len
            <= max_len,
        RedactionRule::EmailLike { .. } => true,
        RedactionRule::DigitRun { min_digits, max_digits, .. } => 0 < min_digits <= max_digits,
    }
}

/// Rules that match no empty text.
pub open spec fn sound_rules(rules: Seq<RedactionRule>) -> bool {
    forall|i: int| 0 <= i < rules.len() ==> sound_rule(#[trigger] rules[i])
}

/// A text that is not empty has bytes.
proof fn lemma_encode_nonempty(t: Seq<char>)
    requires
        t.len() > 0,
    ensures
        encode_utf8(t).len() > 0,
{
}

/// A run of token bytes is one, within its limit.
pub(crate) proof fn lemma_token_end(b: Seq<u8>, i: int, limit: int)
    requires
        0 <= i <= b.len(),
    ensures
        i <= token_end(b, i, limit) <= b.len(),
        limit >= 0 ==> token_end(b, i, limit) <= i + limit,
        forall|k: int| i <= k < token_end(b, i, limit) ==> is_token(#[trigger] b[k]),
    decreases limit,
{
    if limit > 0 && i < b.len() && is_token(b[i]) {
        lemma_token_end(b, i + 1, limit - 1);
    }
}

proof fn lemma_local_end(b: Seq<u8>, i: int)
    requires
        0 <= i <= b.len(),
    ensures
        i <= local_end(b, i) <= b.len(),
        forall|k: int| i <= k < local_end(b, i) ==> is_email_local(#[trigger] b[k]),
        local_end(b, i) < b.len() ==> !is_email_local(b[local_end(b, i)]),
    decreases b.len() - i,
{
    if i < b.len() && is_email_local(b[i]) {
        lemma_local_end(b, i + 1);
    }
}

/// A run of domain bytes is one.
proof fn lemma_domain_end(b: Seq<u8>, i: int)
    requires
        0 <= i <= b.len(),
    ensures
        i <= domain_end(b, i) <= b.len(),
        forall|k: int| i <= k < domain_end(b, i) ==> is_email_domain(#[trigger] b[k]),
    decreases b.len() - i,
{
    if i < b.len() && is_email_domain(b[i]) {
        lemma_domain_end(b, i + 1);
    }
}

proof fn lemma_trimmed_end(b: Seq<u8>, low: int, end: int)
    requires
        0 <= low <= end <= b.len(),
    ensures
        low <= trimmed_end(b, low, end) <= end,
        trimmed_end(b, low, end) > low ==> is_alphanumeric(b[trimmed_end(b, low, end) - 1]),
    decreases end - low,
{
    if low < end && !is_alphanumeric(b[end - 1]) {
        lemma_trimmed_end(b, low, end - 1);
    }
}

proof fn lemma_digit_end(b: Seq<u8>, i: int, limit: nat)
    requires
        0 <= i < b.len(),
        is_digit(b[i]),
    ensures
        i < digit_end(b, i, limit) <= b.len(),
        is_digit(b[digit_end(b, i, limit) - 1]),
        digit_count(b, i, limit) <= limit,
    decreases limit,
{
    if limit > 1 {
        if let Some(j) = next_digit(b, i) {
            lemma_digit_end(b, j, (limit - 1) as nat);
        }
    } else if limit == 1 {
        assert(digit_count(b, i, 1) == 1) by {
            reveal_with_fuel(digit_count, 2);
        }
    }
}

/// A match is not empty, and stands between characters.
pub proof fn lemma_span(rule: RedactionRule, b: Seq<u8>, s: int)
    requires
        valid_utf8(b),
        sound_rule(rule),
        0 <= s <= b.len(),
        rule_span(rule, b, s) is Some,
    ensures
        s < rule_span(rule, b, s)->0 <= b.len(),
        is_char_boundary(b, s),
        is_char_boundary(b, rule_span(rule, b, s)->0),
{
    let e = rule_span(rule, b, s)->0;
    match rule {
        RedactionRule::Literal { value, .. } => {
            encode_utf8_valid_utf8(value@);
            lemma_encode_nonempty(value@);
            lemma_occurrence_boundaries(b, encode_utf8(value@), s);
        },
        RedactionRule::Prefixed { prefix, min_len, max_len, .. } => {
            encode_utf8_valid_utf8(prefix@);
            lemma_encode_nonempty(prefix@);
            lemma_occurrence_boundaries(b, encode_utf8(prefix@), s);
            let body = (s + encode_utf8(prefix@).len()) as int;
            lemma_token_end(b, body, max_len as int);
            if e > body {
                assert(is_token(b[e - 1]));
                lemma_ascii_boundaries(b, e - 1);
            }
        },
        RedactionRule::EmailLike { .. } => {
            lemma_local_end(b, s);
            let at = local_end(b, s);
            lemma_domain_end(b, at + 1);
            lemma_trimmed_end(b, at + 1, domain_end(b, at + 1));
            lemma_ascii_boundaries(b, s);
            lemma_ascii_boundaries(b, e - 1);
        },
        RedactionRule::DigitRun { min_digits, max_digits, .. } => {
            lemma_digit_end(b, s, max_digits as nat);
            lemma_ascii_boundaries(b, s);
            lemma_ascii_boundaries(b, e - 1);
        },
    }
}

/// Positions without a match are passed over.
proof fn lemma_find_skip(rule: RedactionRule, b: Seq<u8>, from: int, to: int)
    requires
        0 <= from <= to <= b.len(),
        forall|s: int| from <= s < to ==> #[trigger] rule_span(rule, b, s) is None,
    ensures
        rule_find(rule, b, from) == rule_find(rule, b, to),
    decreases to - from,
{
    if from < to {
        lemma_find_skip(rule, b, from + 1, to);
    }
}

/// What is found is a match, and none starts before it.
pub proof fn lemma_find(rule: RedactionRule, b: Seq<u8>, from: int)
    requires
        0 <= from <= b.len(),
    ensures
        match rule_find(rule, b, from) {
            Some((start, end)) => from <= start <= b.len() && rule_span(rule, b, start) == Some(end)
                && forall|s: int| from <= s < start ==> #[trigger] rule_span(rule, b, s) is None,
            None => forall|s: int|
                from <= s <= b.len() ==> #[trigger] rule_span(rule, b, s) is None,
        },
    decreases b.len() - from,
{
    if rule_span(rule, b, from) is None && from < b.len() {
        lemma_find(rule, b, from + 1);
    }
}

/// Positions without a match that touches no replacement are passed over.
proof fn lemma_free_skip(rules: Seq<RedactionRule>, i: int, b: Seq<u8>, from: int, to: int)
    requires
        0 <= from <= to <= b.len(),
        forall|s: int| from <= s < to ==> #[trigger] free_span(rules, i, b, s) is None,
    ensures
        free_find(rules, i, b, from) == free_find(rules, i, b, to),
    decreases to - from,
{
    if from < to {
        lemma_free_skip(rules, i, b, from + 1, to);
    }
}

/// What is found is a match that touches no replacement, and none such starts before it.
pub proof fn lemma_free_find(rules: Seq<RedactionRule>, i: int, b: Seq<u8>, from: int)
    requires
        0 <= from <= b.len(),
    ensures
        match free_find(rules, i, b, from) {
            Some((start, end)) => from <= start <= b.len() && free_span(rules, i, b, start) == Some(
                end,
            ) && forall|s: int|
                from <= s < start ==> #[trigger] free_span(rules, i, b, s) is None,
            None => forall|s: int|
                from <= s <= b.len() ==> #[trigger] free_span(rules, i, b, s) is None,
        },
    decreases b.len() - from,
{
    if free_span(rules, i, b, from) is None && from < b.len() {
        lemma_free_find(rules, i, b, from + 1);
    }
}

/// A later search that starts at or before what was found finds the same.
proof fn lemma_find_again(rules: Seq<RedactionRule>, i: int, b: Seq<u8>, from: int, cursor: int)
    requires
        0 <= from <= cursor <= b.len(),
        match free_find(rules, i, b, from) {
            Some((start, _)) => cursor <= start,
            None => true,
        },
    ensures
        free_find(rules, i, b, cursor) == free_find(rules, i, b, from),
{
    lemma_free_find(rules, i, b, from);
    lemma_free_skip(rules, i, b, from, cursor);
}

/// Whether a byte is an ASCII letter or digit.
fn byte_is_alphanumeric(b: u8) -> (r: bool)
    ensures
        r == is_alphanumeric(b),
{
    (0x30 <= b && b <= 0x39) || (0x41 <= b && b <= 0x5a) || (0x61 <= b && b <= 0x7a)
}

/// Whether a byte is a decimal digit.
fn byte_is_digit(b: u8) -> (r: bool)
    ensures
        r == is_digit(b),
{
    0x30 <= b && b <= 0x39
}

/// Whether a byte is a byte of a token.
fn is_token_byte(b: u8) -> (r: bool)
    ensures
        r == is_token(b),
{
    byte_is_alphanumeric(b) || b == 0x2d || b == 0x5f
}

/// Whether a byte may stand in the local part of an email address.
fn is_email_local_byte(b: u8) -> (r: bool)
    ensures
        r == is_email_local(b),
{
    byte_is_alphanumeric(b) || b == 0x2e || b == 0x5f || b == 0x25 || b == 0x2b || b == 0x2d
}

/// Whether a byte may stand in the domain of an email address.
fn is_email_domain_byte(b: u8) -> (r: bool)
    ensures
        r == is_email_domain(b),
{
    byte_is_alphanumeric(b) || b == 0x2e || b == 0x2d
}

/// Occurrences in a tail are occurrences in the whole.
proof fn lemma_occurs_in_tail(b: Seq<u8>, needle: Seq<u8>, from: int, k: int)
    requires
        0 <= from <= b.len(),
        0 <= k,
    ensures
        occurs_at(b.subrange(from, b.len() as int), needle, k) <==> occurs_at(b, needle, from + k),
{
    let tail = b.subrange(from, b.len() as int);
    if k + needle.len() <= tail.len() {
        assert(tail.subrange(k, k + needle.len()) =~= b.subrange(
            from + k,
            from + k + needle.len(),
        ));
    }
}

/// The first position from `from` on at which `needle` stands.
fn find_needle(bytes: &[u8], needle: &[u8], from: usize) -> (r: Option<usize>)
    requires
        from <= bytes@.len(),
    ensures
        match r {
            Some(i) => from <= i && occurs_at(bytes@, needle@, i as int) && forall|k: int|
                from <= k < i ==> !#[trigger] occurs_at(bytes@, needle@, k),
            None => forall|k: int| from <= k ==> !#[trigger] occurs_at(bytes@, needle@, k),
        },
{
    let tail = slice_subrange(bytes, from, bytes.len());
    let found = find_bytes(tail, needle);
    proof {
        assert forall|k: int| from <= k implies (#[trigger] occurs_at(bytes@, needle@, k)
            <==> occurs_at(tail@, needle@, k - from)) by {
            lemma_occurs_in_tail(bytes@, needle@, from as int, k - from);
        }
    }
    match found {
        Some(hit) => {
            assert(occurs_at(bytes@, needle@, from + hit));
            Some(from + hit)
        },
        None => None,
    }
}

/// The end of the run of at most `limit` token bytes from `from` on.
fn find_token_end(bytes: &[u8], from: usize, limit: usize) -> (r: usize)
    requires
        from <= bytes@.len(),
    ensures
        r == token_end(bytes@, from as int, limit as int),
        from <= r <= bytes@.len(),
{
    let mut end: usize = from;
    let mut left: usize = limit;
    while left > 0 && end < bytes.len() && is_token_byte(bytes[end])
        invariant
            from <= end <= bytes@.len(),
            token_end(bytes@, from as int, limit as int) == token_end(
                bytes@,
                end as int,
                left as int,
            ),
        decreases left,
    {
        end = end + 1;
        left = left - 1;
    }
    end
}

/// The first email address from `from` on.
fn find_email(bytes: &[u8], from: usize, Ghost(rule): Ghost<RedactionRule>) -> (r: Option<
    (usize, usize),
>)
    requires
        from <= bytes@.len(),
        rule is EmailLike,
    ensures
        match rule_find(rule, bytes@, from as int) {
            Some((s, e)) => r matches Some((x, y)) && x == s && y == e,
            None => r is None,
        },
{
    let ghost b = bytes@;
    let mut cursor: usize = from;
    proof {
        assert forall|p: int|
            from <= p < b.len() && (#[trigger] email_end(b, p)) is Some implies local_end(b, p)
            >= cursor by {
            lemma_local_end(b, p);
        }
    }
    loop
        invariant
            b == bytes@,
            rule is EmailLike,
            from <= cursor <= b.len(),
            forall|p: int|
                from <= p < b.len() && (#[trigger] email_end(b, p)) is Some ==> local_end(b, p)
                    >= cursor,
        decreases b.len() - cursor,
    {
        let tail = slice_subrange(bytes, cursor, bytes.len());
        let hit: usize = match find_byte(0x40, tail) {
            Some(hit) => hit,
            None => {
                proof {
                    assert forall|p: int| from <= p < b.len() implies #[trigger] rule_span(
                        rule,
                        b,
                        p,
                    ) is None by {
                        if email_end(b, p) is Some {
                            let q = local_end(b, p);
                            lemma_local_end(b, p);
                            assert(tail@[q - cursor] == b[q]);
                        }
                    }
                    lemma_find_skip(rule, b, from as int, b.len() as int);
                }
                return None;
            },
        };
        let at: usize = cursor + hit;
        assert(b[at as int] == tail@[hit as int]);
        assert forall|q: int| cursor <= q < at implies b[q] != 0x40 by {
            assert(tail@[q - cursor] == b[q]);
        }
        let mut start: usize = at;
        while start > from && is_email_local_byte(bytes[start - 1])
            invariant
                b == bytes@,
                from <= start <= at < b.len(),
                forall|k: int| start <= k < at ==> is_email_local(#[trigger] b[k]),
            decreases start,
        {
            start = start - 1;
        }
        let ghost run = start as int;
        while start < at && !byte_is_alphanumeric(bytes[start])
            invariant
                b == bytes@,
                run <= start <= at < b.len(),
                forall|k: int| run <= k < start ==> !is_alphanumeric(#[trigger] b[k]),
            decreases at - start,
        {
            start = start + 1;
        }
        let mut end: usize = at + 1;
        while end < bytes.len() && is_email_domain_byte(bytes[end])
            invariant
                b == bytes@,
                at < end <= b.len(),
                domain_end(b, at + 1) == domain_end(b, end as int),
            decreases b.len() - end,
        {
            end = end + 1;
        }
        let ghost full = end as int;
        let mut dotted = false;
        while end > at + 1 && !byte_is_alphanumeric(bytes[end - 1])
            invariant
                b == bytes@,
                at < end <= b.len(),
                full <= b.len(),
                trimmed_end(b, at + 1, full) == trimmed_end(b, at + 1, end as int),
            decreases end,
        {
            end = end - 1;
        }
        let mut k: usize = at + 1;
        while k < end
            invariant
                b == bytes@,
                at < k <= end <= b.len(),
                dotted == exists|q: int| at + 1 <= q < k && #[trigger] b[q] == 0x2e,
            decreases end - k,
        {
            if bytes[k] == 0x2e {
                dotted = true;
                assert(b[k as int] == 0x2e);
            }
            k = k + 1;
        }
        let valid = start < at && end - (at + 1) >= 3 && bytes[at + 1] != 0x2e && dotted;
        proof {
            assert(end == trimmed_end(b, at + 1, domain_end(b, at + 1)));
            assert forall|p: int| from <= p < b.len() && (#[trigger] email_end(b, p)) is Some
                && local_end(b, p) <= at implies local_end(b, p) == at && p >= run && p >= start
                && is_domain(b, at + 1, end as int) && start < at by {
                lemma_local_end(b, p);
                let q = local_end(b, p);
                assert(b[q] == 0x40);
                assert(q == at);
                if p < run {
                    assert(is_email_local(b[run - 1]));
                }
            }
        }
        if valid {
            proof {
                assert(is_domain(b, at + 1, end as int));
                lemma_local_end_is(b, start as int, at as int);
                assert(email_end(b, start as int) == Some(end as int));
                assert forall|p: int| from <= p < start implies #[trigger] rule_span(
                    rule,
                    b,
                    p,
                ) is None by {
                    if email_end(b, p) is Some {
                        lemma_local_end(b, p);
                        let q = local_end(b, p);
                        if q > at {
                            assert(is_email_local(b[at as int]));
                        }
                    }
                }
                lemma_find_skip(rule, b, from as int, start as int);
            }
            return Some((start, end));
        }
        cursor = at + 1;
    }
}

/// The run of local-part bytes from `i` on ends at `j`, if it has all bytes before and not that
/// one.
proof fn lemma_local_end_is(b: Seq<u8>, i: int, j: int)
    requires
        0 <= i <= j < b.len(),
        forall|k: int| i <= k < j ==> is_email_local(#[trigger] b[k]),
        !is_email_local(b[j]),
    ensures
        local_end(b, i) == j,
    decreases j - i,
{
    if i < j {
        lemma_local_end_is(b, i + 1, j);
    }
}

/// A run that is shorter than the limit is as long under any higher limit.
proof fn lemma_uncapped(b: Seq<u8>, i: int, n: nat, m: nat)
    requires
        digit_count(b, i, n) < n <= m,
    ensures
        digit_count(b, i, m) == digit_count(b, i, n),
    decreases n,
{
    if let Some(j) = next_digit(b, i) {
        lemma_uncapped(b, j, (n - 1) as nat, (m - 1) as nat);
    }
}

/// No run that starts within a short run is longer.
proof fn lemma_short_run(b: Seq<u8>, i: int, n: nat, max: nat, s: int)
    requires
        0 <= i < b.len(),
        is_digit(b[i]),
        digit_count(b, i, n) < n <= max,
        i <= s < digit_end(b, i, n),
        is_digit(b[s]),
    ensures
        digit_count(b, s, max) <= digit_count(b, i, n),
    decreases n,
{
    if s == i {
        lemma_uncapped(b, i, n, max);
    } else {
        match next_digit(b, i) {
            Some(j) => {
                assert(n > 1);
                assert(j <= s);
                lemma_short_run(b, j, (n - 1) as nat, max, s);
            },
            None => {},
        }
    }
}

/// The first run of digits from `from` on.
fn find_digit_run(
    bytes: &[u8],
    from: usize,
    min_digits: usize,
    max_digits: usize,
    Ghost(rule): Ghost<RedactionRule>,
) -> (r: Option<(usize, usize)>)
    requires
        from <= bytes@.len(),
        0 < min_digits <= max_digits,
        rule matches RedactionRule::DigitRun { min_digits: a, max_digits: c, .. } && a == min_digits
            && c == max_digits,
    ensures
        match rule_find(rule, bytes@, from as int) {
            Some((s, e)) => r matches Some((x, y)) && x == s && y == e,
            None => r is None,
        },
{
    let ghost b = bytes@;
    let mut start: usize = from;
    while start < bytes.len()
        invariant
            b == bytes@,
            from <= start <= b.len(),
            0 < min_digits <= max_digits,
            rule matches RedactionRule::DigitRun { min_digits: a, max_digits: c, .. } && a
                == min_digits && c == max_digits,
            forall|p: int| from <= p < start ==> #[trigger] rule_span(rule, b, p) is None,
        decreases b.len() - start,
    {
        if !byte_is_digit(bytes[start]) {
            start = start + 1;
            continue;
        }
        let mut pos: usize = start;
        let mut digits: usize = 1;
        let mut more = true;
        while more && digits < max_digits
            invariant
                b == bytes@,
                start <= pos < b.len(),
                is_digit(b[pos as int]),
                1 <= digits <= max_digits,
                digit_count(b, start as int, max_digits as nat) == (digits - 1) + digit_count(
                    b,
                    pos as int,
                    (max_digits - digits + 1) as nat,
                ),
                digit_end(b, start as int, max_digits as nat) == digit_end(
                    b,
                    pos as int,
                    (max_digits - digits + 1) as nat,
                ),
                !more ==> next_digit(b, pos as int) is None,
            decreases max_digits - digits, (if more { 1int } else { 0int }),
        {
            if bytes.len() - pos > 1 && byte_is_digit(bytes[pos + 1]) {
                pos = pos + 1;
                digits = digits + 1;
            } else if bytes.len() - pos > 2 && (bytes[pos + 1] == 0x2d || bytes[pos + 1] == 0x20)
                && byte_is_digit(bytes[pos + 2]) {
                pos = pos + 2;
                digits = digits + 1;
            } else {
                more = false;
            }
        }
        let end: usize = pos + 1;
        proof {
            if digits == max_digits {
                assert(digit_count(b, pos as int, 1) == 1) by {
                    reveal_with_fuel(digit_count, 2);
                }
            }
            assert(digit_count(b, start as int, max_digits as nat) == digits);
            assert(digit_end(b, start as int, max_digits as nat) == end);
        }
        if digits >= min_digits {
            proof {
                lemma_find_skip(rule, b, from as int, start as int);
            }
            return Some((start, end));
        }
        proof {
            assert forall|p: int| from <= p < end implies #[trigger] rule_span(
                rule,
                b,
                p,
            ) is None by {
                if p >= start && is_digit(b[p]) {
                    lemma_short_run(b, start as int, max_digits as nat, max_digits as nat, p);
                }
            }
        }
        start = end;
    }
    proof {
        lemma_find_skip(rule, b, from as int, b.len() as int);
    }
    None
}

impl RedactionRule {
    /// The first match that starts at `from` or later.
    fn find_from(&self, text: &str, from: usize) -> (r: Option<(usize, usize)>)
        requires
            sound_rule(*self),
            from <= encode_utf8(text@).len(),
        ensures
            match rule_find(*self, encode_utf8(text@), from as int) {
                Some((s, e)) => r matches Some((x, y)) && x == s && y == e,
                None => r is None,
            },
    {
        let bytes = text.as_bytes();
        let total: usize = bytes.len();
        let ghost b = bytes@;
        match self {
            RedactionRule::Literal { value, .. } => {
                let needle = value.as_str().as_bytes();
                match find_needle(bytes, needle, from) {
                    Some(hit) => {
                        proof {
                            lemma_find_skip(*self, b, from as int, hit as int);
                        }
                        Some((hit, hit + needle.len()))
                    },
                    None => {
                        proof {
                            lemma_find_skip(*self, b, from as int, b.len() as int);
                        }
                        None
                    },
                }
            },
            RedactionRule::Prefixed { prefix, min_len, max_len, .. } => {
                let needle = prefix.as_str().as_bytes();
                proof {
                    lemma_encode_nonempty(prefix@);
                }
                let mut cursor: usize = from;
                loop
                    invariant
                        b == bytes@,
                        total == b.len(),
                        needle@ == encode_utf8(prefix@),
                        needle@.len() > 0,
                        from <= cursor <= b.len(),
                        b == encode_utf8(text@),
                        self matches RedactionRule::Prefixed {
                            prefix: p,
                            min_len: x,
                            max_len: y,
                            ..
                        } && p == prefix && x == min_len && y == max_len,
                        forall|s: int|
                            from <= s < cursor ==> #[trigger] rule_span(*self, b, s) is None,
                    decreases b.len() - cursor,
                {
                    match find_needle(bytes, needle, cursor) {
                        None => {
                            proof {
                                lemma_find_skip(*self, b, from as int, b.len() as int);
                            }
                            return None;
                        },
                        Some(start) => {
                            let body: usize = start + needle.len();
                            let end: usize = find_token_end(bytes, body, *max_len);
                            proof {
                                lemma_find_skip(*self, b, from as int, start as int);
                            }
                            if end - body >= *min_len {
                                return Some((start, end));
                            }
                            cursor = start + 1;
                        },
                    }
                }
            },
            RedactionRule::EmailLike { .. } => find_email(bytes, from, Ghost(*self)),
            RedactionRule::DigitRun { min_digits, max_digits, .. } => find_digit_run(
                bytes,
                from,
                *min_digits,
                *max_digits,
                Ghost(*self),
            ),
        }
    }
}

/// Matches one after the other from `from` on, each between characters.
pub open spec fn placed(
    rules: Seq<RedactionRule>,
    b: Seq<u8>,
    ms: Seq<MatchView>,
    from: int,
) -> bool
    decreases ms.len(),
{
    ms.len() > 0 ==> {
        &&& from <= ms[0].start < ms[0].end <= b.len()
        &&& is_char_boundary(b, ms[0].start)
        &&& is_char_boundary(b, ms[0].end)
        &&& 0 <= ms[0].rule < rules.len()
        &&& placed(rules, b, ms.drop_first(), ms[0].end)
    }
}

/// What the best match is: a match of its rule that touches no replacement, the leftmost of all
/// such, the longest at its start, and of the longest the one of the first rule.
pub proof fn lemma_best_match(rules: Seq<RedactionRule>, b: Seq<u8>, from: int, k: int)
    requires
        0 <= from <= b.len(),
        0 <= k <= rules.len(),
    ensures
        match best_match(rules, b, from, k) {
            Some(m) => {
                &&& 0 <= m.rule < k
                &&& free_find(rules, m.rule, b, from) == Some((m.start, m.end))
                &&& free_span(rules, m.rule, b, m.start) == Some(m.end)
                &&& rule_span(rules[m.rule], b, m.start) == Some(m.end)
                &&& from <= m.start <= b.len()
                &&& forall|i: int, s: int|
                    0 <= i < k && from <= s < m.start ==> #[trigger] free_span(
                        rules,
                        i,
                        b,
                        s,
                    ) is None
                &&& forall|i: int|
                    0 <= i < k ==> match #[trigger] free_span(rules, i, b, m.start) {
                        Some(e) => e < m.end || (e == m.end && m.rule <= i),
                        None => true,
                    }
            },
            None => forall|i: int, s: int|
                0 <= i < k && from <= s <= b.len() ==> #[trigger] free_span(
                    rules,
                    i,
                    b,
                    s,
                ) is None,
        },
    decreases k,
{
    if k > 0 {
        lemma_best_match(rules, b, from, k - 1);
        lemma_free_find(rules, k - 1, b, from);
    }
}

/// Matches are taken one after the other, and stand between characters.
pub proof fn lemma_matches_placed(rules: Seq<RedactionRule>, b: Seq<u8>, from: int)
    requires
        sound_rules(rules),
        valid_utf8(b),
        0 <= from <= b.len(),
    ensures
        placed(rules, b, matches_from(rules, b, from), from),
    decreases b.len() - from,
{
    lemma_best_match(rules, b, from, rules.len() as int);
    if let Some(m) = best_match(rules, b, from, rules.len() as int) {
        lemma_span(rules[m.rule], b, m.start);
        lemma_matches_placed(rules, b, m.end);
        let ms = matches_from(rules, b, from);
        assert(ms.drop_first() =~= matches_from(rules, b, m.end));
    }
}

/// One match, by byte offsets.
#[derive(Debug, Clone, Copy, PartialEq, Eq, Structural)]
struct Match {
    start: usize,
    end: usize,
    rule: usize,
}

impl View for Match {
    type V = MatchView;

    closed spec fn view(&self) -> MatchView {
        MatchView { start: self.start as int, end: self.end as int, rule: self.rule as int }
    }
}

/// The views of a sequence of matches.
spec fn match_views(v: Seq<Match>) -> Seq<MatchView> {
    Seq::new(v.len(), |i: int| v[i]@)
}

/// The view of an optional match.
spec fn optional_match(o: Option<Match>) -> Option<MatchView> {
    match o {
        Some(m) => Some(m@),
        None => None,
    }
}

/// The better of two matches.
fn better(best: Option<Match>, m: Match) -> (r: Match)
    ensures
        r@ == preferred(optional_match(best), m@),
{
    match best {
        Some(b) => {
            if b.start < m.start || (b.start == m.start && b.end >= m.end) {
                b
            } else {
                m
            }
        },
        None => m,
    }
}

/// A rule with its replacement.
#[derive(Debug, PartialEq)]
struct CompiledRule {
    rule: RedactionRule,
    replacement: String,
}

/// The rules without their replacements.
spec fn plain_rules(v: Seq<CompiledRule>) -> Seq<RedactionRule> {
    Seq::new(v.len(), |i: int| v[i].rule)
}

/// A scrubbed text: borrowed where nothing matched.
#[derive(Debug, PartialEq, Eq)]
pub struct Redacted<'a> {
    /// The text.
    pub text: Cow<'a, str>,
    /// How many matches were replaced.
    pub count: usize,
}

/// One replacement: of what class, in which field, and where. It never holds what was replaced.
#[derive(Clone, Debug, PartialEq, Eq)]
pub struct RedactionEvent {
    /// The class of the rule.
    pub kind: String,
    /// The label of the field.
    pub field: &'static str,
    /// The place of the message among the messages, or, for a tool's description, that of the
    /// tool among the tools.
    pub message_index: usize,
}

/// What a [`RedactionEvent`] is.
pub struct EventView {
    pub kind: Seq<char>,
    pub field: Seq<char>,
    pub index: nat,
}

impl View for RedactionEvent {
    type V = EventView;

    open spec fn view(&self) -> EventView {
        EventView {
            kind: self.kind@,
            field: self.field@,
            index: self.message_index as nat,
        }
    }
}

/// The views of a sequence of replacements.
pub open spec fn event_views(v: Seq<RedactionEvent>) -> Seq<EventView> {
    Seq::new(v.len(), |i: int| v[i]@)
}

/// What a plugin has counted: the last request, all requests, the last field with a match, and
/// the replacements of the last request, which take the place of those of the one before.
#[derive(Debug, PartialEq)]
struct RedactionStats {
    last_request: u64,
    total: u64,
    last_event: Option<(String, &'static str, usize)>,
    events: Vec<RedactionEvent>,
}

/// A text with its matches replaced.
struct ScrubHit {
    text: String,
    matches: Vec<Match>,
}

/// Scrubbing under one policy.
#[derive(Debug, PartialEq)]
pub struct RedactionPlugin {
    rules: Vec<CompiledRule>,
    max_matches_per_text: usize,
    scrub_tool_definitions: bool,
    stats: RedactionStats,
}

/// The refusal of a text with too many matches.
pub open spec fn cap_message(cap: nat) -> Seq<char> {
    "a single value holds more than max_matches_per_text ("@ + decimal(cap)
        + ") matches; the request is refused rather than partially scrubbed"@
}

/// A hook failure of this plugin with a given message.
pub open spec fn is_hook_failure(e: PluginError, message: Seq<char>) -> bool {
    e matches PluginError::HookFailure { plugin, stage, message: m } && plugin@ == NAME@ && stage@
        == "request"@ && m@ == message
}

impl RedactionPlugin {
    /// The rules.
    pub closed spec fn policy(&self) -> Seq<RedactionRule> {
        plain_rules(self.rules@)
    }

    /// How many matches one text may hold.
    pub closed spec fn cap(&self) -> usize {
        self.max_matches_per_text
    }

    /// Whether tool descriptions are scrubbed.
    pub closed spec fn scrubs_tools(&self) -> bool {
        self.scrub_tool_definitions
    }

    /// How many matches the last request had.
    pub closed spec fn last_count(&self) -> u64 {
        self.stats.last_request
    }

    /// How many matches all requests had.
    pub closed spec fn total_count(&self) -> u64 {
        self.stats.total
    }

    /// The last field with a match: the class of its last match, the label, and the matches.
    pub closed spec fn last_event(&self) -> Option<(Seq<char>, Seq<char>, usize)> {
        match self.stats.last_event {
            Some((kind, field, n)) => Some((kind@, field@, n)),
            None => None,
        }
    }

    /// The replacements in the last request, in order.
    pub closed spec fn last_events(&self) -> Seq<EventView> {
        event_views(self.stats.events@)
    }

    /// The counts and the last field with a match are those of another.
    pub open spec fn same_counts(&self, other: &RedactionPlugin) -> bool {
        &&& self.last_count() == other.last_count()
        &&& self.total_count() == other.total_count()
        &&& self.last_event() == other.last_event()
    }

    /// A plugin holds rules that match no empty text, each with its replacement, and a cap.
    #[verifier::type_invariant]
    closed spec fn wf(&self) -> bool {
        &&& sound_rules(plain_rules(self.rules@))
        &&& forall|i: int|
            0 <= i < self.rules@.len() ==> (#[trigger] self.rules@[i]).replacement@ == replacement(
                self.rules@[i].rule,
            )
    }

    /// Compiles a policy, or refuses it.
    pub fn new(config: RedactionConfig) -> (r: Result<RedactionPlugin, PluginError>)
        ensures
            match config_refusal(config) {
                Some(m) => r matches Err(PluginError::Validation { schema, message }) && schema@
                    == CONFIG_SCHEMA@ && message@ == m,
                None => r matches Ok(p) && p.policy() == config.rules@ && p.cap()
                    == config.max_matches_per_text && p.scrubs_tools()
                    == config.scrub_tool_definitions && p.last_count() == 0 && p.total_count() == 0
                    && p.last_event() is None && p.last_events() == Seq::<EventView>::empty(),
            },
    {
        if let Err(e) = config.validate() {
            return Err(e);
        }
        let max_matches_per_text: usize = config.max_matches_per_text;
        let scrub_tool_definitions = config.scrub_tool_definitions;
        let ghost policy = config.rules@;
        let rules = config.rules;
        let mut compiled: Vec<CompiledRule> = Vec::new();
        proof {
            assert forall|i: int| 0 <= i < policy.len() implies sound_rule(#[trigger] policy[i]) by {
                lemma_accepted_rule(policy, 0, i);
            }
        }
        for rule in it: rules
            invariant
                it.seq() == policy,
                compiled@.len() == it.index(),
                forall|i: int| 0 <= i < it.index() ==> (#[trigger] compiled@[i]).rule == policy[i],
                forall|i: int|
                    0 <= i < compiled@.len() ==> (#[trigger] compiled@[i]).replacement@
                        == replacement(compiled@[i].rule),
        {
            let replacement = RedactionConfig::REDACTION_MARKER.to_owned().concat(
                rule.kind().as_str(),
            ).concat("]");
            compiled.push(CompiledRule { rule, replacement });
        }
        assert(plain_rules(compiled@) =~= policy);
        Ok(
            RedactionPlugin {
                rules: compiled,
                max_matches_per_text,
                scrub_tool_definitions,
                stats: RedactionStats {
                    last_request: 0,
                    total: 0,
                    last_event: None,
                    events: Vec::new(),
                },
            },
        )
    }

    /// Whether the bytes from `s` to `e` touch a replacement that stands in the text already.
    fn is_touched(&self, text: &str, s: usize, e: usize) -> (r: bool)
        requires
            self.wf(),
            s <= encode_utf8(text@).len(),
        ensures
            r == touches(self.policy(), encode_utf8(text@), s as int, e as int),
    {
        let bytes = text.as_bytes();
        let ghost b = bytes@;
        let ghost policy = self.policy();
        let mut k: usize = 0;
        while k < self.rules.len()
            invariant
                self.wf(),
                policy == self.policy(),
                policy.len() == self.rules@.len(),
                b == bytes@,
                b == encode_utf8(text@),
                s <= b.len(),
                k <= policy.len(),
                forall|j: int, x: int|
                    0 <= j < k && #[trigger] token_at(policy, b, j, x) ==> !(x < e && s < x
                        + encode_utf8(replacement(policy[j])).len()),
            decreases policy.len() - k,
        {
            let needle = self.rules[k].replacement.as_str().as_bytes();
            assert(self.rules@[k as int].rule == policy[k as int]);
            assert(needle@ == encode_utf8(replacement(policy[k as int])));
            proof {
                lemma_replacement_bytes(policy[k as int]);
            }
            let low: usize = if s >= needle.len() {
                s - needle.len() + 1
            } else {
                0
            };
            match find_needle(bytes, needle, low) {
                Some(x) => {
                    if x < e {
                        assert(token_at(policy, b, k as int, x as int));
                        return true;
                    }
                },
                None => {},
            }
            proof {
                assert forall|x: int| #[trigger] token_at(policy, b, k as int, x) implies !(x < e
                    && s < x + needle@.len()) by {
                    if x < e && s < x + needle@.len() {
                        assert(low <= x);
                        assert(occurs_at(b, needle@, x));
                    }
                }
            }
            k = k + 1;
        }
        false
    }

    /// The first match of rule `i` that starts at `from` or later and touches no replacement.
    fn find_free(&self, text: &str, i: usize, from: usize) -> (r: Option<(usize, usize)>)
        requires
            self.wf(),
            i < self.policy().len(),
            from <= encode_utf8(text@).len(),
        ensures
            same_span(r, free_find(self.policy(), i as int, encode_utf8(text@), from as int)),
    {
        let ghost b = encode_utf8(text@);
        let ghost policy = self.policy();
        let mut cursor: usize = from;
        proof {
            encode_utf8_valid_utf8(text@);
        }
        loop
            invariant
                self.wf(),
                policy == self.policy(),
                policy.len() == self.rules@.len(),
                i < policy.len(),
                b == encode_utf8(text@),
                valid_utf8(b),
                from <= cursor <= b.len(),
                forall|s: int|
                    from <= s < cursor ==> #[trigger] free_span(policy, i as int, b, s) is None,
            decreases b.len() - cursor,
        {
            assert(self.rules@[i as int].rule == policy[i as int]);
            let found = self.rules[i].rule.find_from(text, cursor);
            proof {
                lemma_find(policy[i as int], b, cursor as int);
            }
            match found {
                None => {
                    proof {
                        lemma_free_skip(policy, i as int, b, from as int, b.len() as int);
                    }
                    return None;
                },
                Some((start, end)) => {
                    proof {
                        lemma_span(policy[i as int], b, start as int);
                        assert forall|s: int| from <= s < start implies #[trigger] free_span(
                            policy,
                            i as int,
                            b,
                            s,
                        ) is None by {
                            if s >= cursor {
                                assert(rule_span(policy[i as int], b, s) is None);
                            }
                        }
                    }
                    if !self.is_touched(text, start, end) {
                        proof {
                            lemma_free_skip(policy, i as int, b, from as int, start as int);
                        }
                        return Some((start, end));
                    }
                    cursor = start + 1;
                },
            }
        }
    }

    /// The first match of each rule, from `cursor` on: `pending` holds the first matches from
    /// `before` on, and those that start before `cursor` are searched again.
    fn refresh(&self, text: &str, pending: &mut Vec<Option<(usize, usize)>>, cursor: usize, Ghost(
        before,
    ): Ghost<int>) -> (best: Option<Match>)
        requires
            self.wf(),
            0 <= before <= cursor <= encode_utf8(text@).len(),
            old(pending)@.len() == self.policy().len(),
            forall|i: int|
                0 <= i < old(pending)@.len() ==> same_span(
                    #[trigger] old(pending)@[i],
                    free_find(self.policy(), i, encode_utf8(text@), before),
                ),
        ensures
            final(pending)@.len() == self.policy().len(),
            forall|i: int|
                0 <= i < final(pending)@.len() ==> same_span(
                    #[trigger] final(pending)@[i],
                    free_find(self.policy(), i, encode_utf8(text@), cursor as int),
                ),
            optional_match(best) == best_match(
                self.policy(),
                encode_utf8(text@),
                cursor as int,
                self.policy().len() as int,
            ),
    {
        let ghost b = encode_utf8(text@);
        let ghost policy = self.policy();
        let mut best: Option<Match> = None;
        let mut i: usize = 0;
        while i < self.rules.len()
            invariant
                self.wf(),
                policy == self.policy(),
                b == encode_utf8(text@),
                0 <= before <= cursor <= b.len(),
                i <= policy.len(),
                policy.len() == self.rules@.len(),
                pending@.len() == policy.len(),
                forall|k: int|
                    i <= k < pending@.len() ==> same_span(
                        #[trigger] pending@[k],
                        free_find(policy, k, b, before),
                    ),
                forall|k: int|
                    0 <= k < i ==> same_span(
                        #[trigger] pending@[k],
                        free_find(policy, k, b, cursor as int),
                    ),
                optional_match(best) == best_match(policy, b, cursor as int, i as int),
            decreases policy.len() - i,
        {
            let known = pending[i];
            let stale = match known {
                Some((start, _)) => start < cursor,
                None => false,
            };
            assert(self.rules@[i as int].rule == policy[i as int]);
            let span = if stale {
                self.find_free(text, i, cursor)
            } else {
                proof {
                    lemma_find_again(policy, i as int, b, before, cursor as int);
                }
                known
            };
            pending.set(i, span);
            if let Some((start, end)) = span {
                best = Some(better(best, Match { start, end, rule: i }));
            }
            i = i + 1;
        }
        best
    }

    /// The matches in a text, or `None` where there are more than the cap allows.
    fn find_matches(&self, text: &str) -> (r: Option<Vec<Match>>)
        requires
            self.wf(),
        ensures
            r is None <==> text_matches(self.policy(), text@).len() > self.cap(),
            r matches Some(ms) ==> match_views(ms@) == text_matches(self.policy(), text@),
    {
        let ghost b = encode_utf8(text@);
        let ghost policy = self.policy();
        proof {
            encode_utf8_valid_utf8(text@);
        }
        let mut pending: Vec<Option<(usize, usize)>> = Vec::new();
        let mut i: usize = 0;
        while i < self.rules.len()
            invariant
                self.wf(),
                policy == self.policy(),
                b == encode_utf8(text@),
                i <= policy.len(),
                policy.len() == self.rules@.len(),
                pending@.len() == i,
                forall|k: int|
                    0 <= k < i ==> same_span(
                        #[trigger] pending@[k],
                        free_find(policy, k, b, 0),
                    ),
            decreases policy.len() - i,
        {
            assert(self.rules@[i as int].rule == policy[i as int]);
            let span = self.find_free(text, i, 0);
            pending.push(span);
            i = i + 1;
        }
        let mut matches: Vec<Match> = Vec::new();
        let mut best = self.refresh(text, &mut pending, 0, Ghost(0));
        let ghost mut cursor: int = 0;
        assert(matches_from(policy, b, 0) =~= match_views(matches@) + matches_from(policy, b, 0));
        loop
            invariant
                self.wf(),
                policy == self.policy(),
                b == encode_utf8(text@),
                valid_utf8(b),
                0 <= cursor <= b.len(),
                pending@.len() == policy.len(),
                forall|k: int|
                    0 <= k < pending@.len() ==> same_span(
                        #[trigger] pending@[k],
                        free_find(policy, k, b, cursor),
                    ),
                optional_match(best) == best_match(policy, b, cursor, policy.len() as int),
                matches_from(policy, b, 0) == match_views(matches@) + matches_from(
                    policy,
                    b,
                    cursor,
                ),
                matches@.len() <= self.max_matches_per_text,
            decreases b.len() - cursor,
        {
            let selected: Match = match best {
                Some(selected) => selected,
                None => {
                    assert(matches_from(policy, b, 0) =~= match_views(matches@));
                    return Some(matches);
                },
            };
            proof {
                lemma_best_match(policy, b, cursor, policy.len() as int);
                lemma_span(policy[selected@.rule], b, selected@.start);
            }
            if matches.len() == self.max_matches_per_text {
                return None;
            }
            let ghost earlier = match_views(matches@);
            matches.push(selected);
            proof {
                let rest = matches_from(policy, b, selected@.end);
                assert(matches_from(policy, b, cursor) == seq![selected@] + rest);
                assert(match_views(matches@) =~= earlier.push(selected@));
                assert(matches_from(policy, b, 0) =~= match_views(matches@) + rest);
            }
            best = self.refresh(text, &mut pending, selected.end, Ghost(cursor));
            proof {
                cursor = selected.end as int;
            }
        }
    }

    /// A text with its matches replaced.
    fn rewrite(&self, text: &str, matches: &Vec<Match>) -> (r: String)
        requires
            self.wf(),
            placed(self.policy(), encode_utf8(text@), match_views(matches@), 0),
        ensures
            encode_utf8(r@) == rewritten(
                self.policy(),
                encode_utf8(text@),
                match_views(matches@),
                0,
            ),
    {
        let ghost b = encode_utf8(text@);
        let ghost policy = self.policy();
        let ghost ms = match_views(matches@);
        proof {
            encode_utf8_valid_utf8(text@);
            is_char_boundary_start_end_of_seq(b);
            assert(ms.skip(0) =~= ms);
        }
        let mut out = String::new();
        let mut cursor: usize = 0;
        let mut i: usize = 0;
        assert(encode_utf8(out@) + rewritten(policy, b, ms, 0) =~= rewritten(policy, b, ms, 0));
        while i < matches.len()
            invariant
                self.wf(),
                policy == self.policy(),
                b == encode_utf8(text@),
                valid_utf8(b),
                ms == match_views(matches@),
                i <= ms.len(),
                ms.len() == matches@.len(),
                cursor <= b.len(),
                is_char_boundary(b, cursor as int),
                placed(policy, b, ms.skip(i as int), cursor as int),
                encode_utf8(out@) + rewritten(policy, b, ms.skip(i as int), cursor as int)
                    == rewritten(policy, b, ms, 0),
            decreases ms.len() - i,
        {
            let hit = matches[i];
            let ghost left = ms.skip(i as int);
            proof {
                assert(left[0] == hit@);
                assert(left.drop_first() =~= ms.skip(i + 1));
            }
            let kept = byte_slice(text, cursor, hit.start);
            let token = &self.rules[hit.rule].replacement;
            let ghost before = out@;
            out.append(kept);
            out.append(token.as_str());
            proof {
                assert(token@ == replacement(policy[hit.rule as int]));
                lemma_encode_concat(before, kept@);
                lemma_encode_concat(before + kept@, token@);
                assert(encode_utf8(out@) + rewritten(policy, b, ms.skip(i + 1), hit.end as int)
                    =~= encode_utf8(before) + rewritten(policy, b, left, cursor as int));
            }
            cursor = hit.end;
            i = i + 1;
        }
        let total: usize = text.as_bytes().len();
        let kept = byte_slice(text, cursor, total);
        let ghost before = out@;
        out.append(kept);
        proof {
            lemma_encode_concat(before, kept@);
        }
        out
    }

    /// The replaced text with its matches; nothing where there is none; the refusal where there
    /// are too many.
    fn scrub(&self, text: &str) -> (r: Result<Option<ScrubHit>, PluginError>)
        requires
            self.wf(),
        ensures
            ({
                let ms = text_matches(self.policy(), text@);
                if ms.len() > self.cap() {
                    r matches Err(e) && is_hook_failure(e, cap_message(self.cap() as nat))
                } else if ms.len() == 0 {
                    r matches Ok(None) && scrubbed(self.policy(), text@) == text@
                } else {
                    r matches Ok(Some(hit)) && hit.text@ == scrubbed(self.policy(), text@)
                        && match_views(hit.matches@) == ms
                }
            }),
    {
        let ghost b = encode_utf8(text@);
        proof {
            encode_utf8_valid_utf8(text@);
            lemma_matches_placed(self.policy(), b, 0);
        }
        match self.find_matches(text) {
            None => Err(
                PluginError::hook(
                    NAME,
                    "request",
                    "a single value holds more than max_matches_per_text (".to_owned().concat(
                        decimal_text(self.max_matches_per_text as u128).as_str(),
                    ).concat(
                        ") matches; the request is refused rather than partially scrubbed",
                    ),
                ),
            ),
            Some(matches) => {
                assert(match_views(matches@).len() == matches@.len());
                if matches.len() == 0 {
                    proof {
                        assert(b.subrange(0, b.len() as int) =~= b);
                        encode_utf8_decode_utf8(text@);
                    }
                    Ok(None)
                } else {
                    let rewritten_text = self.rewrite(text, &matches);
                    proof {
                        encode_utf8_decode_utf8(rewritten_text@);
                    }
                    Ok(Some(ScrubHit { text: rewritten_text, matches }))
                }
            },
        }
    }

    /// Scrubs one text.
    pub fn scrub_str<'a>(&self, text: &'a str) -> (r: Result<Redacted<'a>, PluginError>)
        ensures
            ({
                let ms = text_matches(self.policy(), text@);
                if ms.len() > self.cap() {
                    r matches Err(e) && is_hook_failure(e, cap_message(self.cap() as nat))
                } else {
                    r matches Ok(x) && x.text@ == scrubbed(self.policy(), text@) && x.count
                        == ms.len() && (x.text is Borrowed <==> ms.len() == 0)
                }
            }),
    {
        proof {
            use_type_invariant(self);
        }
        match self.scrub(text) {
            Err(e) => Err(e),
            Ok(None) => Ok(Redacted { text: Cow::Borrowed(text), count: 0 }),
            Ok(Some(hit)) => {
                assert(match_views(hit.matches@).len() == hit.matches@.len());
                Ok(Redacted { count: hit.matches.len(), text: Cow::Owned(hit.text) })
            },
        }
    }

    /// The number of rules.
    pub fn rule_count(&self) -> (r: usize)
        ensures
            r == self.policy().len(),
    {
        self.rules.len()
    }

    /// How many matches one text may hold.
    pub fn match_cap(&self) -> (r: usize)
        ensures
            r == self.cap(),
    {
        self.max_matches_per_text
    }

    /// How many matches the last request had.
    pub fn last_request_redactions(&self) -> (r: u64)
        ensures
            r == self.last_count(),
    {
        self.stats.last_request
    }

    /// How many matches all requests had.
    pub fn total_redactions(&self) -> (r: u64)
        ensures
            r == self.total_count(),
    {
        self.stats.total
    }

    /// The last field with a match: the class of its last match, the label, and the matches.
    pub fn last_redaction_event(&self) -> (r: Option<(String, &'static str, usize)>)
        ensures
            match self.last_event() {
                Some((kind, field, n)) => r matches Some((k, f, m)) && k@ == kind && f@ == field
                    && m == n,
                None => r is None,
            },
    {
        match &self.stats.last_event {
            Some((kind, field, n)) => Some((kind.clone(), *field, *n)),
            None => None,
        }
    }

    /// The replacements in the last request, in order: message by message and field by field,
    /// from left to right. Those of a request that was refused are the ones up to the refusal.
    pub fn last_request_events(&self) -> (r: &Vec<RedactionEvent>)
        ensures
            event_views(r@) == self.last_events(),
    {
        &self.stats.events
    }

    /// The plugin's name.
    pub fn name(&self) -> (r: &'static str)
        ensures
            r@ == NAME@,
    {
        NAME
    }
}

/// An optional span of offsets is a given span.
spec fn same_span(o: Option<(usize, usize)>, v: Option<(int, int)>) -> bool {
    match (o, v) {
        (Some((a, b)), Some((c, d))) => a == c && b == d,
        (None, None) => true,
        _ => false,
    }
}

/// A replacement has bytes, of which the first is an opening bracket.
pub proof fn lemma_replacement_bytes(rule: RedactionRule)
    ensures
        encode_utf8(replacement(rule)).len() > 0,
        encode_utf8(replacement(rule))[0] == 0x5b,
{
    let text = replacement(rule);
    reveal_strlit("[REDACTED:");
    assert(text[0] == '[');
    let first = seq!['['];
    assert(text =~= first + text.drop_first());
    lemma_encode_concat(first, text.drop_first());
    is_ascii_chars_encode_utf8(first);
    assert(encode_utf8(first)[0] == 0x5b);
}

/// An accepted rule matches no empty text.
pub(crate) proof fn lemma_accepted_rule(rules: Seq<RedactionRule>, k: int, i: int)
    requires
        rules_refusal(rules, k) is None,
        0 <= k <= i < rules.len(),
    ensures
        sound_rule(rules[i]),
    decreases i - k,
{
    if k < i {
        lemma_accepted_rule(rules, k + 1, i);
    }
}

/// What is known after some fields of a request: the matches so far, the last field with a
/// match, the replacements so far, and whether a field had too many matches.
pub struct Tally {
    pub count: u64,
    pub event: Option<(Seq<char>, Seq<char>, nat)>,
    pub events: Seq<EventView>,
    pub failed: bool,
}

/// What is known before the first field of a request.
pub open spec fn empty_tally() -> Tally {
    Tally { count: 0, event: None, events: Seq::empty(), failed: false }
}

/// The replacements of the matches in a field, from left to right.
pub open spec fn field_events(
    rules: Seq<RedactionRule>,
    ms: Seq<MatchView>,
    field: Seq<char>,
    index: nat,
) -> Seq<EventView> {
    Seq::new(
        ms.len(),
        |i: int| EventView { kind: rules[ms[i].rule].kind_view(), field, index },
    )
}

/// `a + n`, or the largest number where that is too much.
pub open spec fn saturating_sum(a: u64, n: nat) -> u64 {
    if a + n <= u64::MAX {
        (a + n) as u64
    } else {
        u64::MAX
    }
}

/// One text field: scrubbed, unless it or a field before has too many matches.
pub open spec fn scrub_field_step(
    rules: Seq<RedactionRule>,
    cap: nat,
    index: nat,
    field: Seq<char>,
    text: Seq<char>,
    t: Tally,
) -> (Seq<char>, Tally) {
    let ms = text_matches(rules, text);
    if t.failed {
        (text, t)
    } else if ms.len() > cap {
        (text, Tally { failed: true, ..t })
    } else if ms.len() == 0 {
        (text, t)
    } else {
        (
            scrubbed(rules, text),
            Tally {
                count: saturating_sum(t.count, ms.len()),
                event: Some((rules[ms.last().rule].kind_view(), field, ms.len())),
                events: t.events + field_events(rules, ms, field, index),
                failed: false,
            },
        )
    }
}

/// The string leaves of a value, in order.
pub open spec fn scrub_json_step(
    rules: Seq<RedactionRule>,
    cap: nat,
    index: nat,
    j: JsonView,
    t: Tally,
) -> (JsonView, Tally)
    decreases j,
{
    match j {
        JsonView::String(text) => {
            let r = scrub_field_step(rules, cap, index, FIELD_TOOL_CALL_ARGUMENTS@, text, t);
            (JsonView::String(r.0), r.1)
        },
        JsonView::Array(v) => {
            let r = scrub_items_step(rules, cap, index, v, t);
            (JsonView::Array(r.0), r.1)
        },
        JsonView::Object(m) => {
            let r = scrub_members_step(rules, cap, index, m, t);
            (JsonView::Object(r.0), r.1)
        },
        _ => (j, t),
    }
}

/// The string leaves of values, in order.
pub open spec fn scrub_items_step(
    rules: Seq<RedactionRule>,
    cap: nat,
    index: nat,
    v: Seq<JsonView>,
    t: Tally,
) -> (Seq<JsonView>, Tally)
    decreases v,
{
    if v.len() == 0 {
        (Seq::empty(), t)
    } else {
        let before = scrub_items_step(rules, cap, index, v.drop_last(), t);
        let last = scrub_json_step(rules, cap, index, v[v.len() - 1], before.1);
        (before.0.push(last.0), last.1)
    }
}

/// The string leaves of members, in key order; the keys stay.
pub open spec fn scrub_members_step(
    rules: Seq<RedactionRule>,
    cap: nat,
    index: nat,
    m: Seq<(Seq<char>, JsonView)>,
    t: Tally,
) -> (Seq<(Seq<char>, JsonView)>, Tally)
    decreases m,
{
    if m.len() == 0 {
        (Seq::empty(), t)
    } else {
        let before = scrub_members_step(rules, cap, index, m.drop_last(), t);
        let last = scrub_json_step(rules, cap, index, m[m.len() - 1].1, before.1);
        (before.0.push((m[m.len() - 1].0, last.0)), last.1)
    }
}

/// One block: its text, reasoning, arguments or output; images and all ids stay.
pub open spec fn scrub_block_step(
    rules: Seq<RedactionRule>,
    cap: nat,
    index: nat,
    block: BlockView,
    t: Tally,
) -> (BlockView, Tally) {
    match block {
        BlockView::Text(text) => {
            let r = scrub_field_step(rules, cap, index, FIELD_MESSAGE_TEXT@, text, t);
            (BlockView::Text(r.0), r.1)
        },
        BlockView::Thinking { reasoning, signature } => {
            let r = scrub_field_step(rules, cap, index, FIELD_MESSAGE_THINKING@, reasoning, t);
            (BlockView::Thinking { reasoning: r.0, signature }, r.1)
        },
        BlockView::ToolCall { id, name, arguments } => {
            let r = scrub_json_step(rules, cap, index, arguments, t);
            (BlockView::ToolCall { id, name, arguments: r.0 }, r.1)
        },
        BlockView::ToolResult { tool_call_id, output } => {
            let r = scrub_field_step(rules, cap, index, FIELD_TOOL_RESULT_OUTPUT@, output, t);
            (BlockView::ToolResult { tool_call_id, output: r.0 }, r.1)
        },
        BlockView::ImageBase64 { .. } => (block, t),
    }
}

/// Blocks, in order.
pub open spec fn scrub_blocks_step(
    rules: Seq<RedactionRule>,
    cap: nat,
    index: nat,
    v: Seq<BlockView>,
    t: Tally,
) -> (Seq<BlockView>, Tally)
    decreases v.len(),
{
    if v.len() == 0 {
        (Seq::empty(), t)
    } else {
        let before = scrub_blocks_step(rules, cap, index, v.drop_last(), t);
        let last = scrub_block_step(rules, cap, index, v.last(), before.1);
        (before.0.push(last.0), last.1)
    }
}

/// One message: its name, and then its blocks.
pub open spec fn scrub_message_step(
    rules: Seq<RedactionRule>,
    cap: nat,
    index: nat,
    m: MessageView,
    t: Tally,
) -> (MessageView, Tally) {
    let name = match m.name {
        Some(n) => {
            let r = scrub_field_step(rules, cap, index, FIELD_MESSAGE_NAME@, n, t);
            (Some(r.0), r.1)
        },
        None => (None, t),
    };
    let content = scrub_blocks_step(rules, cap, index, m.content, name.1);
    (MessageView { name: name.0, content: content.0, ..m }, content.1)
}

/// Messages, in order.
pub open spec fn scrub_messages_step(
    rules: Seq<RedactionRule>,
    cap: nat,
    v: Seq<MessageView>,
    t: Tally,
) -> (Seq<MessageView>, Tally)
    decreases v.len(),
{
    if v.len() == 0 {
        (Seq::empty(), t)
    } else {
        let before = scrub_messages_step(rules, cap, v.drop_last(), t);
        let last = scrub_message_step(rules, cap, (v.len() - 1) as nat, v.last(), before.1);
        (before.0.push(last.0), last.1)
    }
}

/// The descriptions of tools, in order.
pub open spec fn scrub_tools_step(
    rules: Seq<RedactionRule>,
    cap: nat,
    v: Seq<ToolView>,
    t: Tally,
) -> (Seq<ToolView>, Tally)
    decreases v.len(),
{
    if v.len() == 0 {
        (Seq::empty(), t)
    } else {
        let before = scrub_tools_step(rules, cap, v.drop_last(), t);
        let last = scrub_field_step(
            rules,
            cap,
            (v.len() - 1) as nat,
            FIELD_TOOL_DESCRIPTION@,
            v.last().description,
            before.1,
        );
        (before.0.push(ToolView { description: last.0, ..v.last() }), last.1)
    }
}

/// A request: its messages, and then the descriptions of its tools where the policy says so.
pub open spec fn scrub_request(
    rules: Seq<RedactionRule>,
    cap: nat,
    tools: bool,
    req: RequestView,
) -> (RequestView, Tally) {
    let messages = scrub_messages_step(
        rules,
        cap,
        req.messages,
        empty_tally(),
    );
    if tools {
        let r = scrub_tools_step(rules, cap, req.tools, messages.1);
        (RequestView { messages: messages.0, tools: r.0, ..req }, r.1)
    } else {
        (RequestView { messages: messages.0, ..req }, messages.1)
    }
}

/// A value at depth `depth` reaches below the deepest level that is walked.
pub open spec fn too_deep(j: JsonView, depth: nat) -> bool
    decreases j,
{
    depth > RedactionConfig::MAX_JSON_DEPTH || match j {
        JsonView::Array(v) => items_too_deep(v, depth + 1),
        JsonView::Object(m) => members_too_deep(m, depth + 1),
        _ => false,
    }
}

/// Some item reaches below the deepest level that is walked.
pub open spec fn items_too_deep(v: Seq<JsonView>, depth: nat) -> bool
    decreases v,
{
    exists|i: int| 0 <= i < v.len() && too_deep(#[trigger] v[i], depth)
}

/// Some member reaches below the deepest level that is walked.
pub open spec fn members_too_deep(m: Seq<(Seq<char>, JsonView)>, depth: nat) -> bool
    decreases m,
{
    exists|i: int| 0 <= i < m.len() && too_deep((#[trigger] m[i]).1, depth)
}

/// The arguments of some tool call in a message nest too deep.
pub open spec fn message_too_deep(m: MessageView) -> bool {
    exists|i: int|
        0 <= i < m.content.len() && (#[trigger] m.content[i] matches BlockView::ToolCall {
            arguments,
            ..
        } && too_deep(arguments, 0))
}

/// The arguments of some tool call in a request nest too deep.
pub open spec fn request_too_deep(v: Seq<MessageView>) -> bool {
    exists|i: int| 0 <= i < v.len() && message_too_deep(#[trigger] v[i])
}

/// The refusal of a request with arguments that nest too deep.
pub open spec fn depth_message() -> Seq<char> {
    "tool_call_arguments nests deeper than MAX_JSON_DEPTH ("@ + decimal(
        RedactionConfig::MAX_JSON_DEPTH as nat,
    ) + "); the request is refused rather than partially scrubbed"@
}

/// Whether an array reaches below the deepest level that is walked.
fn array_is_too_deep(v: &Vec<Json>, depth: usize) -> (r: bool)
    requires
        depth <= RedactionConfig::MAX_JSON_DEPTH,
    ensures
        r == items_too_deep(array_view(v@), (depth + 1) as nat),
    decreases v,
{
    let ghost view = array_view(v@);
    let mut i: usize = 0;
    while i < v.len()
        invariant
            depth <= RedactionConfig::MAX_JSON_DEPTH,
            view == array_view(v@),
            i <= v@.len(),
            forall|k: int| 0 <= k < i ==> !too_deep(#[trigger] view[k], (depth + 1) as nat),
        decreases v@.len() - i,
    {
        proof {
            assert(decreases_to!(v => v@));
            assert(decreases_to!(v@ => v@[i as int]));
        }
        if json_is_too_deep(&v[i], depth + 1) {
            assert(too_deep(view[i as int], (depth + 1) as nat));
            return true;
        }
        i = i + 1;
    }
    false
}

/// Whether an object reaches below the deepest level that is walked.
fn object_is_too_deep(m: &StringMap<Json>, depth: usize) -> (r: bool)
    requires
        depth <= RedactionConfig::MAX_JSON_DEPTH,
    ensures
        r == members_too_deep(object_view(*m), (depth + 1) as nat),
    decreases m,
{
    proof {
        use_type_invariant(m);
    }
    let ghost view = object_view(*m);
    let n: usize = m.len();
    let mut i: usize = 0;
    while i < n
        invariant
            depth <= RedactionConfig::MAX_JSON_DEPTH,
            m.ordered(),
            view == object_view(*m),
            n == m.keys().len(),
            i <= n,
            forall|k: int| 0 <= k < i ==> !too_deep((#[trigger] view[k]).1, (depth + 1) as nat),
        decreases n - i,
    {
        proof {
            StringMap::lemma_value_decreases(*m, i as int);
        }
        if json_is_too_deep(m.value_at(i), depth + 1) {
            assert(too_deep(view[i as int].1, (depth + 1) as nat));
            return true;
        }
        i = i + 1;
    }
    false
}

/// Whether a value reaches below the deepest level that is walked. The walk itself goes one
/// level further at most.
fn json_is_too_deep(value: &Json, depth: usize) -> (r: bool)
    requires
        depth <= RedactionConfig::MAX_JSON_DEPTH + 1,
    ensures
        r == too_deep(value@, depth as nat),
    decreases value,
{
    broadcast use lemma_json_view;

    if depth > RedactionConfig::MAX_JSON_DEPTH {
        return true;
    }
    match value {
        Json::Array(v) => array_is_too_deep(v, depth),
        Json::Object(m) => object_is_too_deep(m, depth),
        _ => false,
    }
}

/// Whether the arguments of some tool call in a message nest too deep.
fn message_is_too_deep(m: &UnifiedMessage) -> (r: bool)
    ensures
        r == message_too_deep(m@),
{
    let ghost view = m@.content;
    let mut i: usize = 0;
    while i < m.content.len()
        invariant
            view == m@.content,
            view.len() == m.content@.len(),
            i <= view.len(),
            forall|k: int|
                0 <= k < i ==> !(#[trigger] view[k] matches BlockView::ToolCall { arguments, .. }
                    && too_deep(arguments, 0)),
        decreases view.len() - i,
    {
        assert(view[i as int] == m.content@[i as int]@);
        if let MessageContentBlock::ToolCall { arguments, .. } = &m.content[i] {
            if json_is_too_deep(arguments, 0) {
                return true;
            }
        }
        i = i + 1;
    }
    false
}

/// The running count of a hook.
struct HookTally {
    count: u64,
    event: Option<(String, &'static str, usize)>,
    events: Vec<RedactionEvent>,
    failed: bool,
}

impl View for HookTally {
    type V = Tally;

    closed spec fn view(&self) -> Tally {
        Tally {
            count: self.count,
            event: match self.event {
                Some((kind, field, n)) => Some((kind@, field@, n as nat)),
                None => None,
            },
            events: event_views(self.events@),
            failed: self.failed,
        }
    }
}

impl RedactionPlugin {
    /// Takes down the replacements of matches.
    fn record(
        &self,
        matches: &Vec<Match>,
        field: &'static str,
        index: usize,
        events: &mut Vec<RedactionEvent>,
    )
        requires
            forall|i: int|
                0 <= i < matches@.len() ==> 0 <= (#[trigger] match_views(matches@)[i]).rule
                    < self.policy().len(),
        ensures
            event_views(final(events)@) == event_views(old(events)@) + field_events(
                self.policy(),
                match_views(matches@),
                field@,
                index as nat,
            ),
    {
        let ghost all = field_events(self.policy(), match_views(matches@), field@, index as nat);
        let ghost start = event_views(events@);
        let mut i: usize = 0;
        assert(event_views(events@) =~= start + all.take(0));
        while i < matches.len()
            invariant
                i <= matches@.len(),
                all == field_events(
                    self.policy(),
                    match_views(matches@),
                    field@,
                    index as nat,
                ),
                forall|i: int|
                    0 <= i < matches@.len() ==> 0 <= (#[trigger] match_views(matches@)[i]).rule
                        < self.policy().len(),
                event_views(events@) == start + all.take(i as int),
            decreases matches@.len() - i,
        {
            assert(matches@[i as int]@ == match_views(matches@)[i as int]);
            let rule: usize = matches[i].rule;
            assert(self.rules@[rule as int].rule == self.policy()[rule as int]);
            let event = RedactionEvent {
                kind: self.rules[rule].rule.kind().clone(),
                field,
                message_index: index,
            };
            let ghost before = event_views(events@);
            events.push(event);
            assert(event@ == all[i as int]);
            assert(event_views(events@) =~= before.push(event@));
            assert(before.push(event@) =~= start + all.take(i + 1));
            i = i + 1;
        }
        assert(all.take(all.len() as int) =~= all);
    }

    /// One text field.
    fn scrub_field(
        &self,
        text: String,
        field: &'static str,
        index: usize,
        tally: &mut HookTally,
    ) -> (r: String)
        requires
            self.wf(),
        ensures
            (r@, final(tally)@) == scrub_field_step(
                self.policy(),
                self.cap() as nat,
                index as nat,
                field@,
                text@,
                old(tally)@,
            ),
    {
        if tally.failed {
            return text;
        }
        match self.scrub(text.as_str()) {
            Err(_) => {
                tally.failed = true;
                text
            },
            Ok(None) => text,
            Ok(Some(hit)) => {
                let n: usize = hit.matches.len();
                proof {
                    assert(match_views(hit.matches@).len() == n);
                    encode_utf8_valid_utf8(text@);
                    lemma_matches_placed(self.policy(), encode_utf8(text@), 0);
                    assert forall|i: int| 0 <= i < n implies 0 <= (#[trigger] match_views(
                        hit.matches@,
                    )[i]).rule < self.policy().len() by {
                        lemma_placed_rule(
                            self.policy(),
                            encode_utf8(text@),
                            match_views(hit.matches@),
                            0,
                            i,
                        );
                    }
                    assert(hit.matches@[n - 1]@ == match_views(hit.matches@).last());
                }
                self.record(&hit.matches, field, index, &mut tally.events);
                let last: usize = hit.matches[n - 1].rule;
                assert(self.rules@[last as int].rule == self.policy()[last as int]);
                let kind = self.rules[last].rule.kind().clone();
                tally.count = tally.count.saturating_add(n as u64);
                tally.event = Some((kind, field, n));
                hit.text
            },
        }
    }

    /// The string leaves of an array.
    fn scrub_items(&self, items: Vec<Json>, index: usize, tally: &mut HookTally) -> (r: Vec<Json>)
        requires
            self.wf(),
        ensures
            (array_view(r@), final(tally)@) == scrub_items_step(
                self.policy(),
                self.cap() as nat,
                index as nat,
                array_view(items@),
                old(tally)@,
            ),
        decreases items,
    {
        let ghost view = array_view(items@);
        let ghost start = tally@;
        let ghost whole = items;
        let mut r: Vec<Json> = Vec::new();
        assert(view.take(0) =~= Seq::empty());
        assert(array_view(r@) =~= Seq::empty());
        for item in it: items
            invariant
                self.wf(),
                it.seq() == items@,
                whole == items,
                view == array_view(items@),
                (array_view(r@), tally@) == scrub_items_step(
                    self.policy(),
                    self.cap() as nat,
                    index as nat,
                    view.take(it.index() as int),
                    start,
                ),
        {
            let ghost i = it.index() as int;
            proof {
                assert(decreases_to!(whole => whole@));
                assert(decreases_to!(whole@ => whole@[i]));
                assert(item == whole@[i]);
                assert(view.take(i + 1).drop_last() =~= view.take(i));
                assert(view.take(i + 1)[i] == item@);
            }
            let ghost before = array_view(r@);
            let scrubbed_item = self.scrub_json(item, index, tally);
            r.push(scrubbed_item);
            assert(array_view(r@) =~= before.push(scrubbed_item@));
        }
        assert(view.take(view.len() as int) =~= view);
        r
    }

    /// The string leaves of an object.
    fn scrub_object(
        &self,
        map: StringMap<Json>,
        index: usize,
        tally: &mut HookTally,
    ) -> (r: StringMap<Json>)
        requires
            self.wf(),
        ensures
            (object_view(r), final(tally)@) == scrub_members_step(
                self.policy(),
                self.cap() as nat,
                index as nat,
                object_view(map),
                old(tally)@,
            ),
        decreases map,
    {
        let ghost view = object_view(map);
        let ghost start = tally@;
        let ghost keys = map.keys();
        proof {
            use_type_invariant(&map);
        }
        let entries = map.into_entries();
        let mut r: Vec<(String, Json)> = Vec::new();
        assert(view.take(0) =~= Seq::empty());
        assert(Seq::new(r@.len(), |k: int| (r@[k].0@, r@[k].1@)) =~= Seq::<
            (Seq<char>, JsonView),
        >::empty());
        for entry in it: entries
            invariant
                self.wf(),
                map.ordered(),
                it.seq() == entries@,
                view == object_view(map),
                keys == map.keys(),
                entries@.len() == keys.len(),
                forall|k: int|
                    0 <= k < entries@.len() ==> (#[trigger] entries@[k]).0@ == keys[k]
                        && entries@[k].1 == map.values()[k],
                r@.len() == it.index(),
                forall|k: int| 0 <= k < r@.len() ==> (#[trigger] r@[k]).0@ == keys[k],
                (Seq::new(r@.len(), |k: int| (r@[k].0@, r@[k].1@)), tally@) == scrub_members_step(
                    self.policy(),
                    self.cap() as nat,
                    index as nat,
                    view.take(it.index() as int),
                    start,
                ),
        {
            let ghost i = it.index() as int;
            proof {
                StringMap::lemma_value_decreases(map, i);
                assert(entry == entries@[i]);
                assert(view.take(i + 1).drop_last() =~= view.take(i));
                assert(view.take(i + 1)[i] == (entry.0@, entry.1@));
            }
            let ghost before = Seq::new(r@.len(), |k: int| (r@[k].0@, r@[k].1@));
            let (key, value) = entry;
            let scrubbed_value = self.scrub_json(value, index, tally);
            r.push((key, scrubbed_value));
            assert(Seq::new(r@.len(), |k: int| (r@[k].0@, r@[k].1@)) =~= before.push(
                (key@, scrubbed_value@),
            ));
        }
        proof {
            assert(view.take(view.len() as int) =~= view);
            assert(Seq::new(r@.len(), |k: int| r@[k].0@) =~= keys);
        }
        let ghost pairs = Seq::new(r@.len(), |k: int| (r@[k].0@, r@[k].1@));
        let result = StringMap::from_entries(r);
        assert(object_view(result) =~= pairs);
        result
    }

    /// The string leaves of a value.
    fn scrub_json(&self, value: Json, index: usize, tally: &mut HookTally) -> (r: Json)
        requires
            self.wf(),
        ensures
            (r@, final(tally)@) == scrub_json_step(
                self.policy(),
                self.cap() as nat,
                index as nat,
                value@,
                old(tally)@,
            ),
        decreases value,
    {
        broadcast use lemma_json_view;

        match value {
            Json::String(text) => Json::String(
                self.scrub_field(text, FIELD_TOOL_CALL_ARGUMENTS, index, tally),
            ),
            Json::Array(items) => Json::Array(self.scrub_items(items, index, tally)),
            Json::Object(map) => Json::Object(self.scrub_object(map, index, tally)),
            other => other,
        }
    }

    /// One block.
    fn scrub_block(
        &self,
        block: MessageContentBlock,
        index: usize,
        tally: &mut HookTally,
    ) -> (r: MessageContentBlock)
        requires
            self.wf(),
        ensures
            (r@, final(tally)@) == scrub_block_step(
                self.policy(),
                self.cap() as nat,
                index as nat,
                block@,
                old(tally)@,
            ),
    {
        match block {
            MessageContentBlock::Text(text) => MessageContentBlock::Text(
                self.scrub_field(text, FIELD_MESSAGE_TEXT, index, tally),
            ),
            MessageContentBlock::Thinking {
                reasoning,
                signature,
            } => MessageContentBlock::Thinking {
                reasoning: self.scrub_field(reasoning, FIELD_MESSAGE_THINKING, index, tally),
                signature,
            },
            MessageContentBlock::ToolCall { id, name, arguments } => MessageContentBlock::ToolCall {
                id,
                name,
                arguments: self.scrub_json(arguments, index, tally),
            },
            MessageContentBlock::ToolResult {
                tool_call_id,
                output,
            } => MessageContentBlock::ToolResult {
                tool_call_id,
                output: self.scrub_field(output, FIELD_TOOL_RESULT_OUTPUT, index, tally),
            },
            MessageContentBlock::ImageBase64 {
                media_type,
                data,
            } => MessageContentBlock::ImageBase64 { media_type, data },
        }
    }

    /// Blocks, in order.
    fn scrub_blocks(
        &self,
        blocks: Vec<MessageContentBlock>,
        index: usize,
        tally: &mut HookTally,
    ) -> (r: Vec<MessageContentBlock>)
        requires
            self.wf(),
        ensures
            (block_views(r@), final(tally)@) == scrub_blocks_step(
                self.policy(),
                self.cap() as nat,
                index as nat,
                block_views(blocks@),
                old(tally)@,
            ),
    {
        let ghost view = block_views(blocks@);
        let ghost start = tally@;
        let mut r: Vec<MessageContentBlock> = Vec::new();
        assert(view.take(0) =~= Seq::empty());
        assert(block_views(r@) =~= Seq::empty());
        for block in it: blocks
            invariant
                self.wf(),
                it.seq() == blocks@,
                view == block_views(blocks@),
                (block_views(r@), tally@) == scrub_blocks_step(
                    self.policy(),
                    self.cap() as nat,
                    index as nat,
                    view.take(it.index() as int),
                    start,
                ),
        {
            let ghost i = it.index() as int;
            proof {
                assert(view.take(i + 1).drop_last() =~= view.take(i));
                assert(view.take(i + 1).last() == block@);
            }
            let ghost before = block_views(r@);
            let scrubbed_block = self.scrub_block(block, index, tally);
            r.push(scrubbed_block);
            assert(block_views(r@) =~= before.push(scrubbed_block@));
        }
        assert(view.take(view.len() as int) =~= view);
        r
    }

    /// One message.
    fn scrub_message(
        &self,
        message: UnifiedMessage,
        index: usize,
        tally: &mut HookTally,
    ) -> (r: UnifiedMessage)
        requires
            self.wf(),
        ensures
            (r@, final(tally)@) == scrub_message_step(
                self.policy(),
                self.cap() as nat,
                index as nat,
                message@,
                old(tally)@,
            ),
    {
        let name = match message.name {
            Some(name) => Some(self.scrub_field(name, FIELD_MESSAGE_NAME, index, tally)),
            None => None,
        };
        let content = self.scrub_blocks(message.content, index, tally);
        UnifiedMessage {
            role: message.role,
            content,
            name,
            tool_call_id: message.tool_call_id,
        }
    }

    /// Messages, in order.
    fn scrub_messages(&self, messages: Vec<UnifiedMessage>, tally: &mut HookTally) -> (r: Vec<
        UnifiedMessage,
    >)
        requires
            self.wf(),
        ensures
            (message_views(r@), final(tally)@) == scrub_messages_step(
                self.policy(),
                self.cap() as nat,
                message_views(messages@),
                old(tally)@,
            ),
    {
        let ghost view = message_views(messages@);
        let ghost start = tally@;
        let n: usize = messages.len();
        let mut index: usize = 0;
        let mut r: Vec<UnifiedMessage> = Vec::new();
        assert(view.take(0) =~= Seq::empty());
        assert(message_views(r@) =~= Seq::empty());
        for message in it: messages
            invariant
                self.wf(),
                it.seq() == messages@,
                n == messages@.len(),
                index == it.index(),
                view == message_views(messages@),
                (message_views(r@), tally@) == scrub_messages_step(
                    self.policy(),
                    self.cap() as nat,
                    view.take(it.index() as int),
                    start,
                ),
        {
            let ghost i = it.index() as int;
            proof {
                assert(view.take(i + 1).drop_last() =~= view.take(i));
                assert(view.take(i + 1).last() == message@);
            }
            let ghost before = message_views(r@);
            let scrubbed_message = self.scrub_message(message, index, tally);
            r.push(scrubbed_message);
            assert(message_views(r@) =~= before.push(scrubbed_message@));
            index = index + 1;
        }
        assert(view.take(view.len() as int) =~= view);
        r
    }

    /// The descriptions of tools, in order.
    fn scrub_tools(&self, tools: Vec<ToolDefinition>, tally: &mut HookTally) -> (r: Vec<
        ToolDefinition,
    >)
        requires
            self.wf(),
        ensures
            (tool_views(r@), final(tally)@) == scrub_tools_step(
                self.policy(),
                self.cap() as nat,
                tool_views(tools@),
                old(tally)@,
            ),
    {
        let ghost view = tool_views(tools@);
        let ghost start = tally@;
        let n: usize = tools.len();
        let mut index: usize = 0;
        let mut r: Vec<ToolDefinition> = Vec::new();
        assert(view.take(0) =~= Seq::empty());
        assert(tool_views(r@) =~= Seq::empty());
        for tool in it: tools
            invariant
                self.wf(),
                it.seq() == tools@,
                n == tools@.len(),
                index == it.index(),
                view == tool_views(tools@),
                (tool_views(r@), tally@) == scrub_tools_step(
                    self.policy(),
                    self.cap() as nat,
                    view.take(it.index() as int),
                    start,
                ),
        {
            let ghost i = it.index() as int;
            proof {
                assert(view.take(i + 1).drop_last() =~= view.take(i));
                assert(view.take(i + 1).last() == tool@);
            }
            let ghost before = tool_views(r@);
            let description = self.scrub_field(
                tool.description,
                FIELD_TOOL_DESCRIPTION,
                index,
                tally,
            );
            let scrubbed_tool = ToolDefinition {
                name: tool.name,
                description,
                input_schema: tool.input_schema,
            };
            r.push(scrubbed_tool);
            assert(tool_views(r@) =~= before.push(scrubbed_tool@));
            index = index + 1;
        }
        assert(view.take(view.len() as int) =~= view);
        r
    }

    /// Scrubs a request on its way out, or refuses it: untouched where arguments nest too deep,
    /// and with the fields before already scrubbed where a text has too many matches.
    pub fn on_request(&mut self, req: &mut UnifiedRequest) -> (r: Result<(), PluginError>)
        ensures
            final(self).policy() == old(self).policy(),
            final(self).cap() == old(self).cap(),
            final(self).scrubs_tools() == old(self).scrubs_tools(),
            ({
                let (out, t) = scrub_request(
                    old(self).policy(),
                    old(self).cap() as nat,
                    old(self).scrubs_tools(),
                    old(req)@,
                );
                if request_too_deep(old(req)@.messages) {
                    &&& r matches Err(e) && is_hook_failure(e, depth_message())
                    &&& final(req)@ == old(req)@
                    &&& final(self).same_counts(old(self))
                    &&& final(self).last_events() == Seq::<EventView>::empty()
                } else if t.failed {
                    &&& r matches Err(e) && is_hook_failure(e, cap_message(old(self).cap() as nat))
                    &&& final(req)@ == out
                    &&& final(self).same_counts(old(self))
                    &&& final(self).last_events() == t.events
                } else {
                    &&& r is Ok
                    &&& final(req)@ == out
                    &&& final(self).last_events() == t.events
                    &&& final(self).last_count() == t.count
                    &&& final(self).total_count() == saturating_sum(
                        old(self).total_count(),
                        t.count as nat,
                    )
                    &&& match (t.event, final(self).last_event()) {
                        (Some((kind, field, n)), Some((k, f, m))) => k == kind && f == field && m
                            == n,
                        (None, e) => e == old(self).last_event(),
                        _ => false,
                    }
                }
            }),
    {
        proof {
            use_type_invariant(&*self);
        }
        let ghost view = req@.messages;
        let mut i: usize = 0;
        while i < req.messages.len()
            invariant
                view == req@.messages,
                view.len() == req.messages@.len(),
                i <= view.len(),
                *req == *old(req),
                *self == *old(self),
                self.wf(),
                forall|k: int| 0 <= k < i ==> !message_too_deep(#[trigger] view[k]),
            decreases view.len() - i,
        {
            assert(view[i as int] == req.messages@[i as int]@);
            if message_is_too_deep(&req.messages[i]) {
                self.stats.events = Vec::new();
                assert(self.last_events() =~= Seq::<EventView>::empty());
                return Err(
                    PluginError::hook(
                        NAME,
                        "request",
                        "tool_call_arguments nests deeper than MAX_JSON_DEPTH (".to_owned().concat(
                            decimal_text(RedactionConfig::MAX_JSON_DEPTH as u128).as_str(),
                        ).concat("); the request is refused rather than partially scrubbed"),
                    ),
                );
            }
            i = i + 1;
        }
        let mut tally = HookTally { count: 0, event: None, events: Vec::new(), failed: false };
        assert(tally@.events =~= Seq::<EventView>::empty());
        let mut messages: Vec<UnifiedMessage> = Vec::new();
        std::mem::swap(&mut messages, &mut req.messages);
        req.messages = self.scrub_messages(messages, &mut tally);
        if self.scrub_tool_definitions {
            let mut tools: Vec<ToolDefinition> = Vec::new();
            std::mem::swap(&mut tools, &mut req.tools);
            req.tools = self.scrub_tools(tools, &mut tally);
        }
        self.stats.events = tally.events;
        if tally.failed {
            return Err(
                PluginError::hook(
                    NAME,
                    "request",
                    "a single value holds more than max_matches_per_text (".to_owned().concat(
                        decimal_text(self.max_matches_per_text as u128).as_str(),
                    ).concat(
                        ") matches; the request is refused rather than partially scrubbed",
                    ),
                ),
            );
        }
        self.stats.last_request = tally.count;
        self.stats.total = self.stats.total.saturating_add(tally.count);
        if tally.event.is_some() {
            self.stats.last_event = tally.event;
        }
        Ok(())
    }
}

/// Each of the matches is one of a rule of the policy.
proof fn lemma_placed_rule(
    rules: Seq<RedactionRule>,
    b: Seq<u8>,
    ms: Seq<MatchView>,
    from: int,
    i: int,
)
    requires
        placed(rules, b, ms, from),
        0 <= i < ms.len(),
    ensures
        0 <= ms[i].rule < rules.len(),
    decreases i,
{
    if i > 0 {
        lemma_placed_rule(rules, b, ms.drop_first(), ms[0].end, i - 1);
    }
}

} // verus!
