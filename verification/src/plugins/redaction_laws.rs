//! What holds of every redaction.

use crate::bytes::occurs_at;
use crate::json::JsonView;
use crate::plugins::redaction::{
    best_match, config_refusal, digit_count, digit_end, domain_end, email_end, empty_tally,
    free_span, is_alphanumeric, is_digit, is_domain, is_email_domain, is_email_local, is_token,
    lemma_accepted_rule, lemma_best_match, lemma_matches_placed, lemma_replacement_bytes,
    lemma_span, lemma_token_end, local_end, matches_from, next_digit, placed, replacement,
    rewritten, rule_span, saturating_sum, scrub_block_step, scrub_blocks_step, scrub_field_step,
    scrub_items_step, scrub_json_step, scrub_members_step, scrub_message_step,
    scrub_messages_step, scrub_request, scrub_tools_step, scrubbed, sound_rule, sound_rules,
    text_matches, token_at, token_end, touches, trimmed_end, MatchView, RedactionConfig,
    RedactionRule, Tally, FIELD_MESSAGE_NAME, FIELD_MESSAGE_TEXT, FIELD_MESSAGE_THINKING,
    FIELD_TOOL_CALL_ARGUMENTS, FIELD_TOOL_DESCRIPTION, FIELD_TOOL_RESULT_OUTPUT,
};
use crate::request::RequestView;
use crate::types::{BlockView, MessageView, ToolView};
use vstd::prelude::*;
use vstd::utf8::{
    decode_utf8_encode_utf8, encode_utf8, encode_utf8_decode_utf8, encode_utf8_valid_utf8,
    is_char_boundary, is_char_boundary_iff_not_is_continuation_byte,
    is_char_boundary_start_end_of_seq, valid_utf8, valid_utf8_concat, valid_utf8_split,
};

verus! {

/// Two byte sequences agree on the `n` bytes from `s` and from `t` on.
spec fn agree(o: Seq<u8>, s: int, b: Seq<u8>, t: int, n: int) -> bool {
    &&& 0 <= s && 0 <= t && s + n <= o.len() && t + n <= b.len()
    &&& forall|k: int| 0 <= k < n ==> #[trigger] o[s + k] == b[t + k]
}

/// A run of token bytes is at least as long where the same bytes stand.
proof fn lemma_token_end_agrees(o: Seq<u8>, i: int, b: Seq<u8>, j: int, limit: int)
    requires
        agree(o, i, b, j, token_end(o, i, limit) - i),
    ensures
        token_end(b, j, limit) - j >= token_end(o, i, limit) - i,
    decreases limit,
{
    lemma_token_end_from(o, i, limit);
    lemma_token_end_from(b, j, limit);
    if limit > 0 && 0 <= i < o.len() && is_token(o[i]) {
        lemma_token_end_from(o, i + 1, limit - 1);
        assert(o[i + 0] == b[j + 0]);
        assert forall|k: int| 0 <= k < token_end(o, i + 1, limit - 1) - (i + 1) implies #[trigger] o[i
            + 1 + k] == b[j + 1 + k] by {
            assert(o[i + (k + 1)] == b[j + (k + 1)]);
        }
        lemma_token_end_agrees(o, i + 1, b, j + 1, limit - 1);
    }
}

/// A run of token bytes does not end before it starts.
proof fn lemma_token_end_from(b: Seq<u8>, i: int, limit: int)
    ensures
        token_end(b, i, limit) >= i,
    decreases limit,
{
    if limit > 0 && 0 <= i < b.len() && is_token(b[i]) {
        lemma_token_end_from(b, i + 1, limit - 1);
    }
}

/// Where the run of local-part bytes ends.
proof fn lemma_local_end_from(b: Seq<u8>, i: int)
    requires
        0 <= i <= b.len(),
    ensures
        i <= local_end(b, i) <= b.len(),
        forall|k: int| i <= k < local_end(b, i) ==> is_email_local(#[trigger] b[k]),
        local_end(b, i) < b.len() ==> !is_email_local(b[local_end(b, i)]),
    decreases b.len() - i,
{
    if i < b.len() && is_email_local(b[i]) {
        lemma_local_end_from(b, i + 1);
    }
}

/// A run of local-part bytes that ends at another byte.
proof fn lemma_local_end_at(b: Seq<u8>, i: int, end: int)
    requires
        0 <= i <= end < b.len(),
        forall|k: int| i <= k < end ==> is_email_local(#[trigger] b[k]),
        !is_email_local(b[end]),
    ensures
        local_end(b, i) == end,
    decreases end - i,
{
    if i < end {
        lemma_local_end_at(b, i + 1, end);
    }
}

/// Where the run of domain bytes ends.
proof fn lemma_domain_end_from(b: Seq<u8>, i: int)
    requires
        0 <= i <= b.len(),
    ensures
        i <= domain_end(b, i) <= b.len(),
        forall|k: int| i <= k < domain_end(b, i) ==> is_email_domain(#[trigger] b[k]),
    decreases b.len() - i,
{
    if i < b.len() && is_email_domain(b[i]) {
        lemma_domain_end_from(b, i + 1);
    }
}

/// A run of domain bytes reaches as far as there are domain bytes.
proof fn lemma_domain_end_past(b: Seq<u8>, i: int, end: int)
    requires
        0 <= i <= end <= b.len(),
        forall|k: int| i <= k < end ==> is_email_domain(#[trigger] b[k]),
    ensures
        domain_end(b, i) >= end,
    decreases end - i,
{
    if i < end {
        lemma_domain_end_past(b, i + 1, end);
    } else {
        lemma_domain_end_from(b, i);
    }
}

/// Trimming stops within its bounds, at the bottom or after a letter or a digit.
proof fn lemma_trimmed_end_within(b: Seq<u8>, low: int, end: int)
    requires
        0 <= low <= end <= b.len(),
    ensures
        low <= trimmed_end(b, low, end) <= end,
        trimmed_end(b, low, end) > low ==> is_alphanumeric(b[trimmed_end(b, low, end) - 1]),
    decreases end - low,
{
    if low < end && !is_alphanumeric(b[end - 1]) {
        lemma_trimmed_end_within(b, low, end - 1);
    }
}

/// Trimming does not go below a letter or a digit.
proof fn lemma_trimmed_end_past(b: Seq<u8>, low: int, end: int, at: int)
    requires
        0 <= low < at <= end <= b.len(),
        is_alphanumeric(b[at - 1]),
    ensures
        trimmed_end(b, low, end) >= at,
    decreases end - low,
{
    if !is_alphanumeric(b[end - 1]) {
        lemma_trimmed_end_past(b, low, end - 1, at);
    }
}

/// An email address is one where the same bytes stand.
proof fn lemma_email_agrees(o: Seq<u8>, s: int, b: Seq<u8>, t: int)
    requires
        email_end(o, s) is Some,
        agree(o, s, b, t, email_end(o, s)->0 - s),
    ensures
        email_end(b, t) is Some,
{
    let e = email_end(o, s)->0;
    let at = local_end(o, s);
    lemma_local_end_from(o, s);
    let d = domain_end(o, at + 1);
    lemma_domain_end_from(o, at + 1);
    lemma_trimmed_end_within(o, at + 1, d);
    let shift = t - s;
    assert forall|k: int| s <= k < e implies o[k] == #[trigger] b[k + shift] by {
        assert(o[s + (k - s)] == b[t + (k - s)]);
    }
    assert(b[at + shift] == o[at]);
    assert forall|k: int| t <= k < at + shift implies is_email_local(#[trigger] b[k]) by {
        assert(o[k - shift] == b[k - shift + shift]);
    }
    lemma_local_end_at(b, t, at + shift);
    assert forall|k: int| at + shift + 1 <= k < e + shift implies is_email_domain(#[trigger] b[k]) by {
        assert(o[k - shift] == b[k - shift + shift]);
    }
    lemma_domain_end_past(b, at + shift + 1, e + shift);
    lemma_domain_end_from(b, at + shift + 1);
    assert(b[e - 1 + shift] == o[e - 1]);
    lemma_trimmed_end_past(b, at + shift + 1, domain_end(b, at + shift + 1), e + shift);
    lemma_trimmed_end_within(b, at + shift + 1, domain_end(b, at + shift + 1));
    let dot = choose|k: int| at + 1 <= k < e && #[trigger] o[k] == 0x2e;
    assert(b[dot + shift] == 0x2e);
    assert(b[s + shift] == o[s]);
    assert(b[at + 1 + shift] == o[at + 1]);
    assert(is_domain(b, at + shift + 1, trimmed_end(
        b,
        at + shift + 1,
        domain_end(b, at + shift + 1),
    )));
}

/// A run of digits ends after it starts.
proof fn lemma_digit_end_from(b: Seq<u8>, i: int, limit: nat)
    ensures
        digit_end(b, i, limit) > i,
    decreases limit,
{
    if limit > 1 {
        if let Some(j) = next_digit(b, i) {
            lemma_digit_end_from(b, j, (limit - 1) as nat);
        }
    }
}

/// A run of digits has at least as many where the same bytes stand.
proof fn lemma_digit_count_agrees(o: Seq<u8>, i: int, b: Seq<u8>, j: int, limit: nat)
    requires
        agree(o, i, b, j, digit_end(o, i, limit) - i),
    ensures
        digit_count(b, j, limit) >= digit_count(o, i, limit),
    decreases limit,
{
    reveal_with_fuel(digit_count, 2);
    if limit > 1 {
        if let Some(n) = next_digit(o, i) {
            let shift = j - i;
            lemma_digit_end_from(o, n, (limit - 1) as nat);
            let e = digit_end(o, i, limit);
            assert forall|k: int| i <= k < e implies o[k] == #[trigger] b[k + shift] by {
                assert(o[i + (k - i)] == b[j + (k - i)]);
            }
            assert(b[n + shift] == o[n]);
            assert(b[i + 1 + shift] == o[i + 1]);
            assert(next_digit(b, j) == Some(n + shift));
            assert forall|k: int| 0 <= k < e - n implies #[trigger] o[n + k] == b[n + shift + k] by {
                assert(b[(n + k) + shift] == o[n + k]);
            }
            lemma_digit_count_agrees(o, n, b, n + shift, (limit - 1) as nat);
        }
    }
}

/// A rule matches where the bytes of a match stand.
proof fn lemma_span_agrees(rule: RedactionRule, o: Seq<u8>, s: int, b: Seq<u8>, t: int)
    requires
        rule_span(rule, o, s) is Some,
        agree(o, s, b, t, rule_span(rule, o, s)->0 - s),
    ensures
        rule_span(rule, b, t) is Some,
{
    let e = rule_span(rule, o, s)->0;
    match rule {
        RedactionRule::Literal { value, .. } => {
            let needle = encode_utf8(value@);
            lemma_occurs_agrees(o, s, b, t, needle);
        },
        RedactionRule::Prefixed { prefix, min_len, max_len, .. } => {
            let needle = encode_utf8(prefix@);
            let body = (s + needle.len()) as int;
            lemma_token_end_from(o, body, max_len as int);
            lemma_occurs_agrees(o, s, b, t, needle);
            let n = needle.len() as int;
            assert forall|k: int| 0 <= k < e - body implies #[trigger] o[body + k] == b[t + n + k] by {
                assert(o[s + (n + k)] == b[t + (n + k)]);
            }
            lemma_token_end_agrees(o, body, b, t + n, max_len as int);
        },
        RedactionRule::EmailLike { .. } => {
            lemma_email_agrees(o, s, b, t);
        },
        RedactionRule::DigitRun { min_digits, max_digits, .. } => {
            lemma_digit_end_from(o, s, max_digits as nat);
            assert(o[s + 0] == b[t + 0]);
            lemma_digit_count_agrees(o, s, b, t, max_digits as nat);
        },
    }
}

/// A needle stands where its bytes stand.
proof fn lemma_occurs_agrees(o: Seq<u8>, s: int, b: Seq<u8>, t: int, needle: Seq<u8>)
    requires
        occurs_at(o, needle, s),
        0 <= t && t + needle.len() <= b.len(),
        forall|k: int| 0 <= k < needle.len() ==> #[trigger] o[s + k] == b[t + k],
    ensures
        occurs_at(b, needle, t),
{
    assert forall|k: int| 0 <= k < needle.len() implies b.subrange(t, t + needle.len())[k]
        == needle[k] by {
        assert(o.subrange(s, s + needle.len())[k] == o[s + k]);
    }
    assert(b.subrange(t, t + needle.len()) =~= needle);
}

/// The bytes of a run of digits are digits and single separators.
proof fn lemma_digit_bytes(b: Seq<u8>, i: int, limit: nat, k: int)
    requires
        0 <= i < b.len(),
        is_digit(b[i]),
        i <= k < digit_end(b, i, limit),
    ensures
        is_digit(b[k]) || b[k] == 0x2d || b[k] == 0x20,
    decreases limit,
{
    if limit > 1 {
        if let Some(j) = next_digit(b, i) {
            if k >= j {
                lemma_digit_bytes(b, j, (limit - 1) as nat, k);
            }
        }
    }
}

/// Where the bytes of a match stand, the match that starts there goes no further than over
/// bytes that are no opening bracket.
proof fn lemma_span_extends(
    rule: RedactionRule,
    o: Seq<u8>,
    s: int,
    b: Seq<u8>,
    t: int,
    k: int,
)
    requires
        valid_utf8(b),
        sound_rule(rule),
        rule_span(rule, o, s) is Some,
        agree(o, s, b, t, rule_span(rule, o, s)->0 - s),
        rule_span(rule, b, t) is Some,
        t + (rule_span(rule, o, s)->0 - s) <= k < rule_span(rule, b, t)->0,
    ensures
        b[k] != 0x5b,
{
    let e = rule_span(rule, o, s)->0;
    match rule {
        RedactionRule::Literal { .. } => {},
        RedactionRule::Prefixed { prefix, max_len, .. } => {
            let n = encode_utf8(prefix@).len() as int;
            lemma_token_end_from(o, s + n, max_len as int);
            lemma_token_end(b, t + n, max_len as int);
            assert(is_token(b[k]));
        },
        RedactionRule::EmailLike { .. } => {
            let at = local_end(o, s);
            lemma_local_end_from(o, s);
            let shift = t - s;
            lemma_domain_end_from(o, at + 1);
            lemma_trimmed_end_within(o, at + 1, domain_end(o, at + 1));
            assert forall|j: int| s <= j < e implies o[j] == #[trigger] b[j + shift] by {
                assert(o[s + (j - s)] == b[t + (j - s)]);
            }
            assert(b[at + shift] == o[at]);
            assert forall|j: int| t <= j < at + shift implies is_email_local(#[trigger] b[j]) by {
                assert(o[j - shift] == b[j - shift + shift]);
            }
            lemma_local_end_at(b, t, at + shift);
            lemma_domain_end_from(b, at + shift + 1);
            lemma_trimmed_end_within(b, at + shift + 1, domain_end(b, at + shift + 1));
            assert(is_email_domain(b[k]));
        },
        RedactionRule::DigitRun { max_digits, .. } => {
            lemma_digit_end_from(o, s, max_digits as nat);
            lemma_digit_bytes(b, t, max_digits as nat, k);
        },
    }
}

/// No replacement that stands in the bytes reaches over position `p`.
spec fn clear_at(rules: Seq<RedactionRule>, b: Seq<u8>, p: int) -> bool {
    forall|k: int, x: int| #[trigger]
        token_at(rules, b, k, x) ==> !(x < p < x + encode_utf8(replacement(rules[k])).len())
}

/// Bytes that touch no replacement end, and start, where none reaches over.
proof fn lemma_free_is_clear(rules: Seq<RedactionRule>, b: Seq<u8>, s: int, e: int)
    requires
        s < e,
        !touches(rules, b, s, e),
    ensures
        clear_at(rules, b, e),
        clear_at(rules, b, s),
{
    assert forall|k: int, x: int| #[trigger] token_at(rules, b, k, x) implies !(x < e < x
        + encode_utf8(replacement(rules[k])).len()) && !(x < s < x + encode_utf8(
        replacement(rules[k]),
    ).len()) by {}
}

/// A match of kept bytes is none: it would have been one before, or it touches a replacement
/// that was there before and still is.
proof fn lemma_piece_is_clean(
    rules: Seq<RedactionRule>,
    b: Seq<u8>,
    from: int,
    to: int,
    o: Seq<u8>,
    off: int,
    rule: int,
    s: int,
)
    requires
        sound_rules(rules),
        valid_utf8(b),
        0 <= from <= to <= b.len(),
        agree(o, off, b, from, to - from),
        clear_at(rules, b, from),
        clear_at(rules, b, to),
        0 <= rule < rules.len(),
        off <= s,
        rule_span(rules[rule], o, s) is Some,
        s < rule_span(rules[rule], o, s)->0 <= off + (to - from),
        free_span(rules, rule, b, from + (s - off)) is None,
    ensures
        free_span(rules, rule, o, s) is None,
{
    let e = rule_span(rules[rule], o, s)->0;
    let t = from + (s - off);
    let shift = off - from;
    assert forall|j: int| from <= j < to implies b[j] == #[trigger] o[j + shift] by {
        assert(o[off + (j - from)] == b[from + (j - from)]);
    }
    assert forall|k: int| 0 <= k < e - s implies #[trigger] o[s + k] == b[t + k] by {
        assert(b[t + k] == o[(t + k) + shift]);
    }
    lemma_span_agrees(rules[rule], o, s, b, t);
    let eb = rule_span(rules[rule], b, t)->0;
    assert(touches(rules, b, t, eb));
    let (k, x) = choose|k: int, x: int| #[trigger]
        token_at(rules, b, k, x) && x < eb && t < x + encode_utf8(replacement(rules[k])).len();
    let token = encode_utf8(replacement(rules[k]));
    lemma_replacement_bytes(rules[k]);
    assert(b.subrange(x, x + token.len()) == token);
    assert(b[x] == 0x5b) by {
        assert(b.subrange(x, x + token.len())[0] == b[x]);
    }
    if x >= t + (e - s) {
        lemma_span_extends(rules[rule], o, s, b, t, x);
        assert(false);
    }
    assert(from <= x && x + token.len() <= to);
    assert forall|j: int| 0 <= j < token.len() implies #[trigger] b[x + j] == o[x + shift + j] by {
        assert(b[x + j] == o[(x + j) + shift]);
    }
    lemma_occurs_agrees(b, x, o, x + shift, token);
    assert(token_at(rules, o, k, x + shift));
    assert(touches(rules, o, s, e));
}

/// In rewritten bytes no rule has a match that touches no replacement.
proof fn lemma_rewritten_is_clean(
    rules: Seq<RedactionRule>,
    b: Seq<u8>,
    from: int,
    o: Seq<u8>,
    off: int,
    rule: int,
    s: int,
)
    requires
        sound_rules(rules),
        valid_utf8(b),
        valid_utf8(o),
        0 <= from <= b.len(),
        clear_at(rules, b, from),
        0 <= off <= o.len(),
        o.subrange(off, o.len() as int) == rewritten(rules, b, matches_from(rules, b, from), from),
        0 <= rule < rules.len(),
        off <= s <= o.len(),
    ensures
        free_span(rules, rule, o, s) is None,
    decreases b.len() - from,
{
    if rule_span(rules[rule], o, s) is Some {
        let e = rule_span(rules[rule], o, s)->0;
        let ms = matches_from(rules, b, from);
        let out = rewritten(rules, b, ms, from);
        lemma_span(rules[rule], o, s);
        lemma_best_match(rules, b, from, rules.len() as int);
        lemma_matches_placed(rules, b, from);
        assert(o.subrange(off, o.len() as int).len() == out.len());
        if ms.len() == 0 {
            let to = b.len() as int;
            assert forall|k: int| 0 <= k < to - from implies #[trigger] o[off + k] == b[from + k] by {
                assert(o.subrange(off, o.len() as int)[k] == o[off + k]);
                assert(out[k] == b[from + k]);
            }
            assert(clear_at(rules, b, to));
            assert(free_span(rules, rule, b, from + (s - off)) is None);
            lemma_piece_is_clean(rules, b, from, to, o, off, rule, s);
        } else {
            let m = ms[0];
            let gap = m.start - from;
            let token = encode_utf8(replacement(rules[m.rule]));
            let n = token.len() as int;
            let rest = rewritten(rules, b, ms.drop_first(), m.end);
            lemma_replacement_bytes(rules[m.rule]);
            assert(ms.drop_first() =~= matches_from(rules, b, m.end));
            assert(out =~= b.subrange(from, m.start) + token + rest);
            assert(!touches(rules, b, m.start, m.end));
            lemma_free_is_clear(rules, b, m.start, m.end);
            assert(token_at(rules, o, m.rule, off + gap)) by {
                let at = off + gap;
                assert forall|k: int| 0 <= k < n implies o.subrange(at, at + n)[k] == token[k] by {
                    assert(o.subrange(off, o.len() as int)[gap + k] == o[at + k]);
                    assert(out[gap + k] == token[k]);
                }
                assert(o.subrange(at, at + n) =~= token);
            }
            if s - off < gap + n {
                if e - off > gap {
                    assert(touches(rules, o, s, e));
                } else {
                    assert forall|k: int| 0 <= k < gap implies #[trigger] o[off + k] == b[from
                        + k] by {
                        assert(o.subrange(off, o.len() as int)[k] == o[off + k]);
                        assert(out[k] == b.subrange(from, m.start)[k]);
                    }
                    assert(free_span(rules, rule, b, from + (s - off)) is None);
                    lemma_piece_is_clean(rules, b, from, m.start, o, off, rule, s);
                }
            } else {
                let next = off + gap + n;
                assert(o.subrange(next, o.len() as int) =~= rest) by {
                    assert forall|k: int| 0 <= k < rest.len() implies o.subrange(
                        next,
                        o.len() as int,
                    )[k] == rest[k] by {
                        assert(o.subrange(off, o.len() as int)[gap + n + k] == o[next + k]);
                        assert(out[gap + n + k] == rest[k]);
                    }
                }
                lemma_rewritten_is_clean(rules, b, m.end, o, next, rule, s);
            }
        }
    }
}

/// The bytes between two boundaries are a text.
proof fn lemma_valid_between(b: Seq<u8>, i: int, j: int)
    requires
        valid_utf8(b),
        0 <= i <= j <= b.len(),
        is_char_boundary(b, i),
        is_char_boundary(b, j),
    ensures
        valid_utf8(b.subrange(i, j)),
{
    valid_utf8_split(b, j);
    let head = b.subrange(0, j);
    if i < j {
        is_char_boundary_iff_not_is_continuation_byte(b, i);
        is_char_boundary_iff_not_is_continuation_byte(head, i);
        assert(head[i] == b[i]);
        valid_utf8_split(head, i);
        assert(head.subrange(i, j) =~= b.subrange(i, j));
    } else {
        assert(b.subrange(i, j) =~= Seq::<u8>::empty());
    }
}

/// Rewritten bytes are a text.
proof fn lemma_rewritten_valid(
    rules: Seq<RedactionRule>,
    b: Seq<u8>,
    ms: Seq<MatchView>,
    cursor: int,
)
    requires
        valid_utf8(b),
        0 <= cursor <= b.len(),
        is_char_boundary(b, cursor),
        placed(rules, b, ms, cursor),
    ensures
        valid_utf8(rewritten(rules, b, ms, cursor)),
    decreases ms.len(),
{
    is_char_boundary_start_end_of_seq(b);
    if ms.len() == 0 {
        lemma_valid_between(b, cursor, b.len() as int);
    } else {
        let m = ms[0];
        let token = encode_utf8(replacement(rules[m.rule]));
        lemma_valid_between(b, cursor, m.start);
        encode_utf8_valid_utf8(replacement(rules[m.rule]));
        lemma_rewritten_valid(rules, b, ms.drop_first(), m.end);
        valid_utf8_concat(b.subrange(cursor, m.start), token);
        valid_utf8_concat(
            b.subrange(cursor, m.start) + token,
            rewritten(rules, b, ms.drop_first(), m.end),
        );
    }
}

/// The bytes of a scrubbed text.
proof fn lemma_scrubbed_bytes(rules: Seq<RedactionRule>, text: Seq<char>)
    requires
        sound_rules(rules),
    ensures
        valid_utf8(encode_utf8(scrubbed(rules, text))),
        encode_utf8(scrubbed(rules, text)) == rewritten(
            rules,
            encode_utf8(text),
            text_matches(rules, text),
            0,
        ),
{
    let b = encode_utf8(text);
    encode_utf8_valid_utf8(text);
    is_char_boundary_start_end_of_seq(b);
    lemma_matches_placed(rules, b, 0);
    lemma_rewritten_valid(rules, b, text_matches(rules, text), 0);
    decode_utf8_encode_utf8(rewritten(rules, b, text_matches(rules, text), 0));
}

/// Every match is a match of its rule that touches no replacement; no rule has such a match
/// between it and the match before it, none has a longer one at its start, and none that comes
/// first in the policy an equal one.
pub proof fn law_matches_are_leftmost_longest(
    rules: Seq<RedactionRule>,
    b: Seq<u8>,
    from: int,
    n: int,
)
    requires
        sound_rules(rules),
        valid_utf8(b),
        0 <= from <= b.len(),
        0 <= n < matches_from(rules, b, from).len(),
    ensures
        ({
            let ms = matches_from(rules, b, from);
            let m = ms[n];
            let before = if n == 0 {
                from
            } else {
                ms[n - 1].end
            };
            &&& 0 <= m.rule < rules.len()
            &&& before <= m.start < m.end <= b.len()
            &&& free_span(rules, m.rule, b, m.start) == Some(m.end)
            &&& forall|i: int, s: int|
                0 <= i < rules.len() && before <= s < m.start ==> #[trigger] free_span(
                    rules,
                    i,
                    b,
                    s,
                ) is None
            &&& forall|i: int|
                0 <= i < rules.len() ==> match #[trigger] free_span(rules, i, b, m.start) {
                    Some(e) => e < m.end || (e == m.end && m.rule <= i),
                    None => true,
                }
        }),
    decreases n,
{
    lemma_best_match(rules, b, from, rules.len() as int);
    lemma_matches_placed(rules, b, from);
    let ms = matches_from(rules, b, from);
    if n > 0 {
        let m = ms[0];
        let rest = matches_from(rules, b, m.end);
        assert(ms.drop_first() =~= rest);
        assert(ms[n] == rest[n - 1]);
        if n > 1 {
            assert(ms[n - 1] == rest[n - 2]);
        }
        law_matches_are_leftmost_longest(rules, b, m.end, n - 1);
    }
}

/// A text without a match stays as it is.
pub proof fn law_clean_text_is_kept(rules: Seq<RedactionRule>, text: Seq<char>)
    requires
        text_matches(rules, text).len() == 0,
    ensures
        scrubbed(rules, text) == text,
{
    let b = encode_utf8(text);
    assert(b.subrange(0, b.len() as int) =~= b);
    encode_utf8_decode_utf8(text);
}

/// What a rule still finds in a scrubbed text touches a replacement: of what was there before,
/// nothing is left to redact.
pub proof fn law_only_replacements_can_match(
    rules: Seq<RedactionRule>,
    text: Seq<char>,
    rule: int,
    s: int,
)
    requires
        sound_rules(rules),
        0 <= rule < rules.len(),
        0 <= s <= encode_utf8(scrubbed(rules, text)).len(),
    ensures
        match rule_span(rules[rule], encode_utf8(scrubbed(rules, text)), s) {
            Some(e) => touches(rules, encode_utf8(scrubbed(rules, text)), s, e),
            None => true,
        },
{
    let b = encode_utf8(text);
    let o = encode_utf8(scrubbed(rules, text));
    encode_utf8_valid_utf8(text);
    lemma_scrubbed_bytes(rules, text);
    assert(o.subrange(0, o.len() as int) =~= o);
    assert(clear_at(rules, b, 0));
    lemma_rewritten_is_clean(rules, b, 0, o, 0, rule, s);
}

/// Scrubbing is idempotent: a scrubbed text has no match, and stays as it is.
pub proof fn law_scrubbing_is_idempotent(rules: Seq<RedactionRule>, text: Seq<char>)
    requires
        sound_rules(rules),
    ensures
        text_matches(rules, scrubbed(rules, text)).len() == 0,
        scrubbed(rules, scrubbed(rules, text)) == scrubbed(rules, text),
{
    let o = encode_utf8(scrubbed(rules, text));
    lemma_best_match(rules, o, 0, rules.len() as int);
    if let Some(m) = best_match(rules, o, 0, rules.len() as int) {
        law_only_replacements_can_match(rules, text, m.rule, m.start);
        assert(false);
    }
    law_clean_text_is_kept(rules, scrubbed(rules, text));
}

/// Every policy that is accepted has sound rules, so that what holds of those holds of it.
pub proof fn law_accepted_policies_are_sound(c: RedactionConfig)
    requires
        config_refusal(c) is None,
    ensures
        sound_rules(c.rules@),
{
    assert forall|i: int| 0 <= i < c.rules@.len() implies sound_rule(#[trigger] c.rules@[i]) by {
        lemma_accepted_rule(c.rules@, 0, i);
    }
}

/// A value with every string leaf scrubbed; its keys stay.
pub open spec fn scrubbed_json(rules: Seq<RedactionRule>, j: JsonView) -> JsonView
    decreases j,
{
    match j {
        JsonView::String(text) => JsonView::String(scrubbed(rules, text)),
        JsonView::Array(v) => JsonView::Array(scrubbed_items(rules, v)),
        JsonView::Object(m) => JsonView::Object(scrubbed_members(rules, m)),
        _ => j,
    }
}

/// Values with every string leaf scrubbed.
pub open spec fn scrubbed_items(rules: Seq<RedactionRule>, v: Seq<JsonView>) -> Seq<JsonView>
    decreases v,
{
    if v.len() == 0 {
        Seq::empty()
    } else {
        scrubbed_items(rules, v.drop_last()).push(scrubbed_json(rules, v[v.len() - 1]))
    }
}

/// Members with every string leaf scrubbed.
pub open spec fn scrubbed_members(
    rules: Seq<RedactionRule>,
    m: Seq<(Seq<char>, JsonView)>,
) -> Seq<(Seq<char>, JsonView)>
    decreases m,
{
    if m.len() == 0 {
        Seq::empty()
    } else {
        scrubbed_members(rules, m.drop_last()).push(
            (m[m.len() - 1].0, scrubbed_json(rules, m[m.len() - 1].1)),
        )
    }
}

/// A block with its text scrubbed: ids, names, signatures and images stay.
pub open spec fn scrubbed_block(rules: Seq<RedactionRule>, block: BlockView) -> BlockView {
    match block {
        BlockView::Text(text) => BlockView::Text(scrubbed(rules, text)),
        BlockView::Thinking { reasoning, signature } => BlockView::Thinking {
            reasoning: scrubbed(rules, reasoning),
            signature,
        },
        BlockView::ToolCall { id, name, arguments } => BlockView::ToolCall {
            id,
            name,
            arguments: scrubbed_json(rules, arguments),
        },
        BlockView::ToolResult { tool_call_id, output } => BlockView::ToolResult {
            tool_call_id,
            output: scrubbed(rules, output),
        },
        BlockView::ImageBase64 { .. } => block,
    }
}

/// A message with its name and its blocks scrubbed: its role and its ids stay.
pub open spec fn scrubbed_message(rules: Seq<RedactionRule>, m: MessageView) -> MessageView {
    MessageView {
        name: match m.name {
            Some(n) => Some(scrubbed(rules, n)),
            None => None,
        },
        content: m.content.map_values(|block: BlockView| scrubbed_block(rules, block)),
        ..m
    }
}

/// A tool with its description scrubbed: its name and its schema stay.
pub open spec fn scrubbed_tool(rules: Seq<RedactionRule>, tool: ToolView) -> ToolView {
    ToolView { description: scrubbed(rules, tool.description), ..tool }
}

/// A request with its messages scrubbed, and its tools where the policy says so: all else stays.
pub open spec fn scrubbed_request(
    rules: Seq<RedactionRule>,
    tools: bool,
    req: RequestView,
) -> RequestView {
    RequestView {
        messages: req.messages.map_values(|m: MessageView| scrubbed_message(rules, m)),
        tools: if tools {
            req.tools.map_values(|tool: ToolView| scrubbed_tool(rules, tool))
        } else {
            req.tools
        },
        ..req
    }
}

/// A field that did not fail is scrubbed.
proof fn lemma_field(
    rules: Seq<RedactionRule>,
    cap: nat,
    index: nat,
    field: Seq<char>,
    text: Seq<char>,
    t: Tally,
)
    requires
        !scrub_field_step(rules, cap, index, field, text, t).1.failed,
    ensures
        !t.failed,
        scrub_field_step(rules, cap, index, field, text, t).0 == scrubbed(rules, text),
{
    if text_matches(rules, text).len() == 0 {
        law_clean_text_is_kept(rules, text);
    }
}

/// Arguments that did not fail are scrubbed.
proof fn lemma_json(rules: Seq<RedactionRule>, cap: nat, index: nat, j: JsonView, t: Tally)
    requires
        !scrub_json_step(rules, cap, index, j, t).1.failed,
    ensures
        !t.failed,
        scrub_json_step(rules, cap, index, j, t).0 == scrubbed_json(rules, j),
    decreases j,
{
    match j {
        JsonView::String(text) => {
            lemma_field(
                rules,
                cap,
                index,
                FIELD_TOOL_CALL_ARGUMENTS@,
                text,
                t,
            );
        },
        JsonView::Array(v) => {
            lemma_items(rules, cap, index, v, t);
        },
        JsonView::Object(m) => {
            lemma_members(rules, cap, index, m, t);
        },
        _ => {},
    }
}

/// Values that did not fail are scrubbed.
proof fn lemma_items(
    rules: Seq<RedactionRule>,
    cap: nat,
    index: nat,
    v: Seq<JsonView>,
    t: Tally,
)
    requires
        !scrub_items_step(rules, cap, index, v, t).1.failed,
    ensures
        !t.failed,
        scrub_items_step(rules, cap, index, v, t).0 == scrubbed_items(rules, v),
    decreases v,
{
    if v.len() > 0 {
        let before = scrub_items_step(rules, cap, index, v.drop_last(), t);
        lemma_json(rules, cap, index, v[v.len() - 1], before.1);
        lemma_items(rules, cap, index, v.drop_last(), t);
    }
}

/// Members that did not fail are scrubbed.
proof fn lemma_members(
    rules: Seq<RedactionRule>,
    cap: nat,
    index: nat,
    m: Seq<(Seq<char>, JsonView)>,
    t: Tally,
)
    requires
        !scrub_members_step(rules, cap, index, m, t).1.failed,
    ensures
        !t.failed,
        scrub_members_step(rules, cap, index, m, t).0 == scrubbed_members(rules, m),
    decreases m,
{
    if m.len() > 0 {
        let before = scrub_members_step(rules, cap, index, m.drop_last(), t);
        lemma_json(rules, cap, index, m[m.len() - 1].1, before.1);
        lemma_members(rules, cap, index, m.drop_last(), t);
    }
}

/// A block that did not fail is scrubbed.
proof fn lemma_block(
    rules: Seq<RedactionRule>,
    cap: nat,
    index: nat,
    block: BlockView,
    t: Tally,
)
    requires
        !scrub_block_step(rules, cap, index, block, t).1.failed,
    ensures
        !t.failed,
        scrub_block_step(rules, cap, index, block, t).0 == scrubbed_block(rules, block),
{
    match block {
        BlockView::Text(text) => {
            lemma_field(rules, cap, index, FIELD_MESSAGE_TEXT@, text, t);
        },
        BlockView::Thinking { reasoning, .. } => {
            lemma_field(
                rules,
                cap,
                index,
                FIELD_MESSAGE_THINKING@,
                reasoning,
                t,
            );
        },
        BlockView::ToolCall { arguments, .. } => {
            lemma_json(rules, cap, index, arguments, t);
        },
        BlockView::ToolResult { output, .. } => {
            lemma_field(
                rules,
                cap,
                index,
                FIELD_TOOL_RESULT_OUTPUT@,
                output,
                t,
            );
        },
        BlockView::ImageBase64 { .. } => {},
    }
}

/// Blocks that did not fail are scrubbed.
proof fn lemma_blocks(
    rules: Seq<RedactionRule>,
    cap: nat,
    index: nat,
    v: Seq<BlockView>,
    t: Tally,
)
    requires
        !scrub_blocks_step(rules, cap, index, v, t).1.failed,
    ensures
        !t.failed,
        scrub_blocks_step(rules, cap, index, v, t).0 == v.map_values(
            |block: BlockView| scrubbed_block(rules, block),
        ),
    decreases v.len(),
{
    if v.len() > 0 {
        let before = scrub_blocks_step(rules, cap, index, v.drop_last(), t);
        lemma_block(rules, cap, index, v.last(), before.1);
        lemma_blocks(rules, cap, index, v.drop_last(), t);
    }
    assert(scrub_blocks_step(rules, cap, index, v, t).0 =~= v.map_values(
        |block: BlockView| scrubbed_block(rules, block),
    ));
}

/// Messages that did not fail are scrubbed.
proof fn lemma_messages(rules: Seq<RedactionRule>, cap: nat, v: Seq<MessageView>, t: Tally)
    requires
        !scrub_messages_step(rules, cap, v, t).1.failed,
    ensures
        !t.failed,
        scrub_messages_step(rules, cap, v, t).0 == v.map_values(
            |m: MessageView| scrubbed_message(rules, m),
        ),
    decreases v.len(),
{
    if v.len() > 0 {
        let before = scrub_messages_step(rules, cap, v.drop_last(), t);
        let m = v.last();
        let index = (v.len() - 1) as nat;
        let named = match m.name {
            Some(n) => scrub_field_step(
                rules,
                cap,
                index,
                FIELD_MESSAGE_NAME@,
                n,
                before.1,
            ).1,
            None => before.1,
        };
        lemma_blocks(rules, cap, index, m.content, named);
        if let Some(n) = m.name {
            lemma_field(
                rules,
                cap,
                index,
                FIELD_MESSAGE_NAME@,
                n,
                before.1,
            );
        }
        assert(scrub_message_step(rules, cap, index, m, before.1).0 == scrubbed_message(rules, m));
        lemma_messages(rules, cap, v.drop_last(), t);
    }
    assert(scrub_messages_step(rules, cap, v, t).0 =~= v.map_values(
        |m: MessageView| scrubbed_message(rules, m),
    ));
}

/// Tools that did not fail are scrubbed.
proof fn lemma_tools(rules: Seq<RedactionRule>, cap: nat, v: Seq<ToolView>, t: Tally)
    requires
        !scrub_tools_step(rules, cap, v, t).1.failed,
    ensures
        !t.failed,
        scrub_tools_step(rules, cap, v, t).0 == v.map_values(
            |tool: ToolView| scrubbed_tool(rules, tool),
        ),
    decreases v.len(),
{
    if v.len() > 0 {
        let before = scrub_tools_step(rules, cap, v.drop_last(), t);
        lemma_field(
            rules,
            cap,
            (v.len() - 1) as nat,
            FIELD_TOOL_DESCRIPTION@,
            v.last().description,
            before.1,
        );
        lemma_tools(rules, cap, v.drop_last(), t);
    }
    assert(scrub_tools_step(rules, cap, v, t).0 =~= v.map_values(
        |tool: ToolView| scrubbed_tool(rules, tool),
    ));
}

/// A request that goes out is scrubbed in every field that the plugin covers, and the same as
/// before in every other.
pub proof fn law_requests_go_out_scrubbed(
    rules: Seq<RedactionRule>,
    cap: nat,
    tools: bool,
    req: RequestView,
)
    requires
        !scrub_request(rules, cap, tools, req).1.failed,
    ensures
        scrub_request(rules, cap, tools, req).0 == scrubbed_request(rules, tools, req),
{
    let start = empty_tally();
    let messages = scrub_messages_step(rules, cap, req.messages, start);
    if tools {
        lemma_tools(rules, cap, req.tools, messages.1);
    }
    lemma_messages(rules, cap, req.messages, start);
}

/// What was counted is what was replaced: the count is that of the replacements, as far as a
/// count goes, and the last field with a match is that of the last replacement.
pub open spec fn is_tallied(t: Tally) -> bool {
    &&& t.count == saturating_sum(0, t.events.len())
    &&& match t.event {
        Some((kind, field, n)) => 0 < n <= t.events.len() && t.events.last().kind == kind
            && t.events.last().field == field,
        None => t.events.len() == 0,
    }
}

/// A field is tallied.
proof fn lemma_field_tallied(
    rules: Seq<RedactionRule>,
    cap: nat,
    index: nat,
    field: Seq<char>,
    text: Seq<char>,
    t: Tally,
)
    requires
        is_tallied(t),
    ensures
        is_tallied(scrub_field_step(rules, cap, index, field, text, t).1),
{
}

/// Arguments are tallied.
proof fn lemma_json_tallied(
    rules: Seq<RedactionRule>,
    cap: nat,
    index: nat,
    j: JsonView,
    t: Tally,
)
    requires
        is_tallied(t),
    ensures
        is_tallied(scrub_json_step(rules, cap, index, j, t).1),
    decreases j,
{
    match j {
        JsonView::String(text) => {
            lemma_field_tallied(rules, cap, index, FIELD_TOOL_CALL_ARGUMENTS@, text, t);
        },
        JsonView::Array(v) => {
            lemma_items_tallied(rules, cap, index, v, t);
        },
        JsonView::Object(m) => {
            lemma_members_tallied(rules, cap, index, m, t);
        },
        _ => {},
    }
}

/// Values are tallied.
proof fn lemma_items_tallied(
    rules: Seq<RedactionRule>,
    cap: nat,
    index: nat,
    v: Seq<JsonView>,
    t: Tally,
)
    requires
        is_tallied(t),
    ensures
        is_tallied(scrub_items_step(rules, cap, index, v, t).1),
    decreases v,
{
    if v.len() > 0 {
        let before = scrub_items_step(rules, cap, index, v.drop_last(), t);
        lemma_items_tallied(rules, cap, index, v.drop_last(), t);
        lemma_json_tallied(rules, cap, index, v[v.len() - 1], before.1);
    }
}

/// Members are tallied.
proof fn lemma_members_tallied(
    rules: Seq<RedactionRule>,
    cap: nat,
    index: nat,
    m: Seq<(Seq<char>, JsonView)>,
    t: Tally,
)
    requires
        is_tallied(t),
    ensures
        is_tallied(scrub_members_step(rules, cap, index, m, t).1),
    decreases m,
{
    if m.len() > 0 {
        let before = scrub_members_step(rules, cap, index, m.drop_last(), t);
        lemma_members_tallied(rules, cap, index, m.drop_last(), t);
        lemma_json_tallied(rules, cap, index, m[m.len() - 1].1, before.1);
    }
}

/// Blocks are tallied.
proof fn lemma_blocks_tallied(
    rules: Seq<RedactionRule>,
    cap: nat,
    index: nat,
    v: Seq<BlockView>,
    t: Tally,
)
    requires
        is_tallied(t),
    ensures
        is_tallied(scrub_blocks_step(rules, cap, index, v, t).1),
    decreases v.len(),
{
    if v.len() > 0 {
        let before = scrub_blocks_step(rules, cap, index, v.drop_last(), t);
        lemma_blocks_tallied(rules, cap, index, v.drop_last(), t);
        match v.last() {
            BlockView::Text(text) => {
                lemma_field_tallied(rules, cap, index, FIELD_MESSAGE_TEXT@, text, before.1);
            },
            BlockView::Thinking { reasoning, .. } => {
                lemma_field_tallied(
                    rules,
                    cap,
                    index,
                    FIELD_MESSAGE_THINKING@,
                    reasoning,
                    before.1,
                );
            },
            BlockView::ToolCall { arguments, .. } => {
                lemma_json_tallied(rules, cap, index, arguments, before.1);
            },
            BlockView::ToolResult { output, .. } => {
                lemma_field_tallied(rules, cap, index, FIELD_TOOL_RESULT_OUTPUT@, output, before.1);
            },
            BlockView::ImageBase64 { .. } => {},
        }
    }
}

/// Messages are tallied.
proof fn lemma_messages_tallied(rules: Seq<RedactionRule>, cap: nat, v: Seq<MessageView>, t: Tally)
    requires
        is_tallied(t),
    ensures
        is_tallied(scrub_messages_step(rules, cap, v, t).1),
    decreases v.len(),
{
    if v.len() > 0 {
        let before = scrub_messages_step(rules, cap, v.drop_last(), t);
        let index = (v.len() - 1) as nat;
        let m = v.last();
        lemma_messages_tallied(rules, cap, v.drop_last(), t);
        let named = match m.name {
            Some(n) => scrub_field_step(rules, cap, index, FIELD_MESSAGE_NAME@, n, before.1).1,
            None => before.1,
        };
        if let Some(n) = m.name {
            lemma_field_tallied(rules, cap, index, FIELD_MESSAGE_NAME@, n, before.1);
        }
        lemma_blocks_tallied(rules, cap, index, m.content, named);
    }
}

/// Tools are tallied.
proof fn lemma_tools_tallied(rules: Seq<RedactionRule>, cap: nat, v: Seq<ToolView>, t: Tally)
    requires
        is_tallied(t),
    ensures
        is_tallied(scrub_tools_step(rules, cap, v, t).1),
    decreases v.len(),
{
    if v.len() > 0 {
        let before = scrub_tools_step(rules, cap, v.drop_last(), t);
        lemma_tools_tallied(rules, cap, v.drop_last(), t);
        lemma_field_tallied(
            rules,
            cap,
            (v.len() - 1) as nat,
            FIELD_TOOL_DESCRIPTION@,
            v.last().description,
            before.1,
        );
    }
}

/// Every replacement in a request is told of, and counted, once.
pub proof fn law_every_replacement_is_told_of(
    rules: Seq<RedactionRule>,
    cap: nat,
    tools: bool,
    req: RequestView,
)
    ensures
        is_tallied(scrub_request(rules, cap, tools, req).1),
{
    let start = empty_tally();
    let messages = scrub_messages_step(rules, cap, req.messages, start);
    lemma_messages_tallied(rules, cap, req.messages, start);
    if tools {
        lemma_tools_tallied(rules, cap, req.tools, messages.1);
    }
}

} // verus!
