//! What each kind of redaction rule finds, which policies are accepted, and what is told of a
//! replacement.

use crate::bytes::occurs_at;
use crate::json::JsonView;
use crate::plugins::redaction::{
    config_refusal, digit_count, digit_end, domain_end, field_events, is_alphanumeric, is_digit,
    is_domain, is_email_domain, is_email_local, is_slug_char, is_token, items_too_deep,
    kind_refusal, local_end, matcher_refusal, members_too_deep, message_too_deep, next_digit,
    pattern_refusal, replacement, request_too_deep, rewritten, rule_refusal, rule_span,
    rules_refusal, scrub_block_step, scrub_blocks_step, scrub_field_step, scrub_items_step,
    scrub_json_step, scrub_members_step, scrub_message_step, scrub_messages_step, scrub_tools_step,
    text_matches, token_end, too_deep, trimmed_end, MatchView, RedactionConfig, RedactionRule,
    Tally,
};
use crate::text::has_substring;
use crate::types::{BlockView, MessageView, ToolView};
use vstd::prelude::*;
use vstd::utf8::encode_utf8;

verus! {

/// An ASCII letter or digit.
pub open spec fn is_word(x: u8) -> bool {
    48 <= x <= 57 || 65 <= x <= 90 || 97 <= x <= 122
}

/// A literal is found where its own bytes stand, and nowhere else.
pub proof fn law_literals_find_themselves(rule: RedactionRule, b: Seq<u8>, s: int, e: int)
    requires
        rule is Literal,
    ensures
        ({
            let value = encode_utf8(rule->Literal_value@);
            rule_span(rule, b, s) == Some(e) <==> 0 <= s && e == s + value.len() && e <= b.len()
                && b.subrange(s, e) == value
        }),
{
}

/// Where a run of token bytes ends.
proof fn lemma_token_end(b: Seq<u8>, i: int, limit: int)
    requires
        0 <= i <= b.len(),
        limit >= 0,
    ensures
        ({
            let end = token_end(b, i, limit);
            &&& i <= end <= b.len()
            &&& end - i <= limit
            &&& forall|k: int| i <= k < end ==> is_token(#[trigger] b[k])
            &&& end - i == limit || end == b.len() || !is_token(b[end])
        }),
    decreases limit,
{
    if limit > 0 && i < b.len() && is_token(b[i]) {
        lemma_token_end(b, i + 1, limit - 1);
    }
}

/// A prefixed secret is found where its prefix stands before enough bytes of a token: letters,
/// digits, hyphens and underscores. It takes in as many as there are, up to the longest allowed.
pub proof fn law_prefixed_secrets_are_found_whole(
    rule: RedactionRule,
    b: Seq<u8>,
    s: int,
    e: int,
)
    requires
        rule is Prefixed,
    ensures
        ({
            let prefix = encode_utf8(rule->prefix@);
            let body = s + prefix.len();
            rule_span(rule, b, s) == Some(e) <==> {
                &&& 0 <= s && body <= b.len() && b.subrange(s, body) == prefix
                &&& rule->min_len <= e - body <= rule->max_len
                &&& body <= e <= b.len()
                &&& forall|k: int|
                    body <= k < e ==> is_word(#[trigger] b[k]) || b[k] == 45 || b[k] == 95
                &&& e - body == rule->max_len || e == b.len() || !(is_word(b[e]) || b[e] == 45
                    || b[e] == 95)
            }
        }),
{
    let prefix = encode_utf8(rule->prefix@);
    let body = s + prefix.len();
    if occurs_at(b, prefix, s) {
        lemma_token_end(b, body, rule->max_len as int);
        let end = token_end(b, body, rule->max_len as int);
        if body <= e <= b.len() && (forall|k: int|
            body <= k < e ==> is_word(#[trigger] b[k]) || b[k] == 45 || b[k] == 95) {
            if e < end {
                assert(is_token(b[e]));
            }
            if end < e {
                assert(is_word(b[end]) || b[end] == 45 || b[end] == 95);
            }
        }
    }
}

/// How many digits stand in a stretch.
pub open spec fn digits_in(b: Seq<u8>, s: int, e: int) -> nat
    decreases e - s,
{
    if s >= e {
        0
    } else {
        digits_in(b, s + 1, e) + if 48 <= b[s] <= 57 {
            1nat
        } else {
            0nat
        }
    }
}

/// A number, written with digits: it begins and ends with one, and only a single space or hyphen
/// may stand between two.
pub open spec fn is_number(b: Seq<u8>, s: int, e: int) -> bool {
    &&& 0 <= s < e <= b.len()
    &&& 48 <= b[s] <= 57
    &&& 48 <= b[e - 1] <= 57
    &&& forall|k: int|
        s < k < e ==> 48 <= #[trigger] b[k] <= 57 || ((b[k] == 45 || b[k] == 32) && k + 1 < e
            && 48 <= b[k - 1] <= 57 && 48 <= b[k + 1] <= 57)
}

/// Where a run of digits ends, and how many there are.
proof fn lemma_digit_run(b: Seq<u8>, i: int, limit: nat)
    requires
        0 <= i < b.len(),
        is_digit(b[i]),
        limit >= 1,
    ensures
        ({
            let end = digit_end(b, i, limit);
            &&& is_number(b, i, end)
            &&& digits_in(b, i, end) == digit_count(b, i, limit)
            &&& 1 <= digit_count(b, i, limit) <= limit
            &&& digit_count(b, i, limit) == limit || next_digit(b, end - 1) is None
        }),
    decreases limit,
{
    let end = digit_end(b, i, limit);
    reveal_with_fuel(digit_count, 2);
    reveal_with_fuel(digits_in, 3);
    if limit > 1 {
        if let Some(j) = next_digit(b, i) {
            let rest = (limit - 1) as nat;
            lemma_digit_run(b, j, rest);
            assert(end == digit_end(b, j, rest));
            assert forall|k: int| i < k < end implies 48 <= #[trigger] b[k] <= 57 || ((b[k] == 45
                || b[k] == 32) && k + 1 < end && 48 <= b[k - 1] <= 57 && 48 <= b[k + 1] <= 57) by {
                if k > j {
                    assert(48 <= b[k] <= 57 || ((b[k] == 45 || b[k] == 32) && k + 1 < end && 48
                        <= b[k - 1] <= 57 && 48 <= b[k + 1] <= 57));
                }
            }
            assert(digits_in(b, i, end) == digits_in(b, i + 1, end) + 1);
            if j == i + 2 {
                assert(digits_in(b, i + 1, end) == digits_in(b, i + 2, end));
            }
        }
    }
}

/// A run of digits takes in every number from its start that has no more digits than it may.
proof fn lemma_digit_run_reaches(b: Seq<u8>, i: int, e: int, limit: nat)
    requires
        is_number(b, i, e),
        digits_in(b, i, e) <= limit,
    ensures
        digit_count(b, i, limit) >= digits_in(b, i, e),
        digit_end(b, i, limit) >= e,
        limit >= 1,
    decreases e - i,
{
    reveal_with_fuel(digits_in, 3);
    if e > i + 1 {
        if is_digit(b[i + 1]) {
            lemma_shorter_number(b, i, i + 1, e);
            lemma_digit_run_reaches(b, i + 1, e, (limit - 1) as nat);
        } else {
            assert(i + 2 < e && is_digit(b[i + 2])) by {
                assert(48 <= b[i + 1] <= 57 || ((b[i + 1] == 45 || b[i + 1] == 32) && i + 2 < e
                    && 48 <= b[i] <= 57 && 48 <= b[i + 2] <= 57));
            }
            lemma_shorter_number(b, i, i + 2, e);
            lemma_digit_run_reaches(b, i + 2, e, (limit - 1) as nat);
        }
    } else {
        lemma_digit_run(b, i, limit);
    }
}

/// The rest of a number, from one of its digits on, is one.
proof fn lemma_shorter_number(b: Seq<u8>, i: int, j: int, e: int)
    requires
        is_number(b, i, e),
        i < j < e,
        is_digit(b[j]),
    ensures
        is_number(b, j, e),
{
    assert forall|k: int| j < k < e implies 48 <= #[trigger] b[k] <= 57 || ((b[k] == 45 || b[k]
        == 32) && k + 1 < e && 48 <= b[k - 1] <= 57 && 48 <= b[k + 1] <= 57) by {
        assert(i < k < e);
    }
}

/// A run of digits is found where a number stands that has enough digits and not too many; what
/// is found is such a number, and it goes on as far as one can.
pub proof fn law_digit_runs_are_found_whole(
    rule: RedactionRule,
    b: Seq<u8>,
    s: int,
    e: int,
)
    requires
        rule is DigitRun,
        0 < rule->min_digits <= rule->max_digits,
    ensures
        rule_span(rule, b, s) == Some(e) ==> is_number(b, s, e) && rule->min_digits <= digits_in(
            b,
            s,
            e,
        ) <= rule->max_digits,
        is_number(b, s, e) && rule->min_digits <= digits_in(b, s, e) <= rule->max_digits ==> (
        rule_span(rule, b, s) matches Some(end) && end >= e),
{
    let limit = rule->max_digits as nat;
    if 0 <= s < b.len() && is_digit(b[s]) {
        lemma_digit_run(b, s, limit);
        if is_number(b, s, e) && digits_in(b, s, e) <= limit {
            lemma_digit_run_reaches(b, s, e, limit);
        }
    }
}

/// An address: what stands before the sign begins with a letter or a digit, and what stands
/// behind it has a dot that is not its first byte, and ends with a letter or a digit.
pub open spec fn is_address(b: Seq<u8>, s: int, at: int, e: int) -> bool {
    &&& 0 <= s < at
    &&& at + 3 < e <= b.len()
    &&& is_word(b[s])
    &&& forall|k: int|
        s <= k < at ==> is_word(#[trigger] b[k]) || b[k] == 46 || b[k] == 95 || b[k] == 37 || b[k]
            == 43 || b[k] == 45
    &&& b[at] == 64
    &&& forall|k: int| at < k < e ==> is_word(#[trigger] b[k]) || b[k] == 46 || b[k] == 45
    &&& b[at + 1] != 46
    &&& exists|k: int| at < k < e && #[trigger] b[k] == 46
    &&& is_word(b[e - 1])
}

/// Where the part before the sign ends.
proof fn lemma_local_end(b: Seq<u8>, i: int)
    requires
        0 <= i <= b.len(),
    ensures
        i <= local_end(b, i) <= b.len(),
        forall|k: int| i <= k < local_end(b, i) ==> is_email_local(#[trigger] b[k]),
        local_end(b, i) == b.len() || !is_email_local(b[local_end(b, i)]),
    decreases b.len() - i,
{
    if i < b.len() && is_email_local(b[i]) {
        lemma_local_end(b, i + 1);
    }
}

/// Where the part behind the sign ends.
proof fn lemma_domain_end(b: Seq<u8>, i: int)
    requires
        0 <= i <= b.len(),
    ensures
        i <= domain_end(b, i) <= b.len(),
        forall|k: int| i <= k < domain_end(b, i) ==> is_email_domain(#[trigger] b[k]),
        domain_end(b, i) == b.len() || !is_email_domain(b[domain_end(b, i)]),
    decreases b.len() - i,
{
    if i < b.len() && is_email_domain(b[i]) {
        lemma_domain_end(b, i + 1);
    }
}

/// What is left of it without what ends no address.
proof fn lemma_trimmed_end(b: Seq<u8>, low: int, end: int, e: int)
    requires
        0 <= low <= end <= b.len(),
    ensures
        low <= trimmed_end(b, low, end) <= end,
        trimmed_end(b, low, end) > low ==> is_alphanumeric(b[trimmed_end(b, low, end) - 1]),
        low < e <= end && is_alphanumeric(b[e - 1]) ==> trimmed_end(b, low, end) >= e,
    decreases end - low,
{
    if low < end && !is_alphanumeric(b[end - 1]) {
        lemma_trimmed_end(b, low, end - 1, e);
    }
}

/// What is found as an address is one, and every address is found, or a longer one with it.
pub proof fn law_addresses_are_found_whole(
    rule: RedactionRule,
    b: Seq<u8>,
    s: int,
    at: int,
    e: int,
)
    requires
        rule is EmailLike,
    ensures
        rule_span(rule, b, s) == Some(e) ==> exists|sign: int| is_address(b, s, sign, e),
        is_address(b, s, at, e) ==> (rule_span(rule, b, s) matches Some(end) && end >= e),
{
    if 0 <= s < b.len() {
        let sign = local_end(b, s);
        lemma_local_end(b, s);
        if sign < b.len() {
            let far = domain_end(b, sign + 1);
            lemma_domain_end(b, sign + 1);
            lemma_trimmed_end(b, sign + 1, far, e);
            let end = trimmed_end(b, sign + 1, far);
            if rule_span(rule, b, s) == Some(e) {
                assert(end == e);
                assert(is_email_domain(b[e - 1]));
                assert(is_domain(b, sign + 1, e));
                assert(is_address(b, s, sign, e));
            }
        }
        if is_address(b, s, at, e) {
            assert(!is_email_local(b[at]));
            if at < sign {
                assert(is_email_local(b[at]));
            }
            if sign < at {
                assert(is_word(b[sign]) || b[sign] == 46 || b[sign] == 95 || b[sign] == 37
                    || b[sign] == 43 || b[sign] == 45);
            }
            assert(sign == at);
            let far = domain_end(b, at + 1);
            if far < e {
                assert(is_word(b[far]) || b[far] == 46 || b[far] == 45);
            }
            let end = trimmed_end(b, at + 1, far);
            assert(end >= e);
            let dot = choose|k: int| at < k < e && #[trigger] b[k] == 46;
            assert(b[dot] == 0x2e);
            assert(is_domain(b, at + 1, end));
        }
    }
}

/// A replacement names the kind of what it stands for, and nothing else of it.
pub proof fn law_replacements_name_the_kind(rule: RedactionRule)
    ensures
        replacement(rule) == "[REDACTED:"@ + match rule {
            RedactionRule::Literal { kind, .. } => kind@,
            RedactionRule::Prefixed { kind, .. } => kind@,
            RedactionRule::EmailLike { kind } => kind@,
            RedactionRule::DigitRun { kind, .. } => kind@,
        } + "]"@,
{
}

/// What stands before the first match stays, its replacement stands in its place, and what comes
/// behind it is rewritten in the same way.
pub proof fn law_only_matches_are_replaced(
    rules: Seq<RedactionRule>,
    b: Seq<u8>,
    ms: Seq<MatchView>,
    cursor: int,
)
    requires
        0 <= cursor <= b.len(),
        ms.len() > 0 ==> cursor <= ms[0].start <= b.len(),
    ensures
        ({
            let after = rewritten(rules, b, ms, cursor);
            &&& ms.len() == 0 ==> after == b.skip(cursor)
            &&& ms.len() > 0 ==> {
                let token = encode_utf8(replacement(rules[ms[0].rule]));
                let kept = ms[0].start - cursor;
                &&& kept + token.len() <= after.len()
                &&& after.take(kept) == b.subrange(cursor, ms[0].start)
                &&& after.subrange(kept, kept + token.len()) == token
                &&& after.skip(kept + token.len()) == rewritten(
                    rules,
                    b,
                    ms.drop_first(),
                    ms[0].end,
                )
            }
        }),
{
    let after = rewritten(rules, b, ms, cursor);
    if ms.len() > 0 {
        let token = encode_utf8(replacement(rules[ms[0].rule]));
        let kept = ms[0].start - cursor;
        let rest = rewritten(rules, b, ms.drop_first(), ms[0].end);
        assert(after.take(kept) =~= b.subrange(cursor, ms[0].start));
        assert(after.subrange(kept, kept + token.len()) =~= token);
        assert(after.skip(kept + token.len()) =~= rest);
    } else {
        assert(after =~= b.skip(cursor));
    }
}

/// A kind that can be told of: a short slug of lower-case letters, digits, hyphens and
/// underscores.
pub open spec fn is_slug(kind: Seq<char>) -> bool {
    &&& kind.len() > 0
    &&& encode_utf8(kind).len() <= 32
    &&& forall|k: int|
        0 <= k < kind.len() ==> 'a' <= #[trigger] kind[k] <= 'z' || '0' <= kind[k] <= '9'
            || kind[k] == '-' || kind[k] == '_'
}

/// A pattern that can be looked for.
pub open spec fn is_pattern(pattern: Seq<char>) -> bool {
    pattern.len() > 0 && encode_utf8(pattern).len() <= 512
}

/// A rule that can be honoured.
pub open spec fn is_usable(rule: RedactionRule) -> bool {
    is_slug(rule.kind_view()) && match rule {
        RedactionRule::Literal { value, .. } => is_pattern(value@) && !has_substring(
            value@,
            "[REDACTED:"@,
        ),
        RedactionRule::Prefixed { prefix, min_len, max_len, .. } => is_pattern(prefix@) && min_len
            <= max_len,
        RedactionRule::EmailLike { .. } => true,
        RedactionRule::DigitRun { min_digits, max_digits, .. } => 0 < min_digits <= max_digits,
    }
}

/// A rule is refused exactly where it cannot be honoured.
proof fn lemma_usable(i: int, rule: RedactionRule)
    ensures
        rule_refusal(i, rule) is None <==> is_usable(rule),
{
    let kind = rule.kind_view();
    if forall|k: int| 0 <= k < kind.len() ==> is_slug_char(#[trigger] kind[k]) {
        assert forall|k: int| 0 <= k < kind.len() implies 'a' <= #[trigger] kind[k] <= 'z' || '0'
            <= kind[k] <= '9' || kind[k] == '-' || kind[k] == '_' by {
            assert(is_slug_char(kind[k]));
        }
    }
    assert(kind_refusal(i, kind) is None <==> is_slug(kind));
    match rule {
        RedactionRule::Literal { value, .. } => {
            assert(pattern_refusal(i, "value"@, value@) is None <==> is_pattern(value@));
        },
        RedactionRule::Prefixed { prefix, .. } => {
            assert(pattern_refusal(i, "prefix"@, prefix@) is None <==> is_pattern(prefix@));
        },
        _ => {},
    }
    assert(matcher_refusal(i, rule) is None || !is_usable(rule));
}

/// Rules are refused exactly where one of them cannot be honoured.
proof fn lemma_all_usable(rules: Seq<RedactionRule>, k: int)
    requires
        0 <= k <= rules.len(),
    ensures
        rules_refusal(rules, k) is None <==> forall|i: int|
            k <= i < rules.len() ==> is_usable(#[trigger] rules[i]),
    decreases rules.len() - k,
{
    if k < rules.len() {
        lemma_usable(k, rules[k]);
        lemma_all_usable(rules, k + 1);
    }
}

/// A policy is accepted exactly where it can be honoured: it has rules and not too many, each of
/// them usable, and a cap on matches that is neither zero nor too large.
pub proof fn law_usable_policies_are_accepted(c: RedactionConfig)
    ensures
        config_refusal(c) is None <==> {
            &&& 1 <= c.rules@.len() <= 256
            &&& forall|i: int| 0 <= i < c.rules@.len() ==> is_usable(#[trigger] c.rules@[i])
            &&& 1 <= c.max_matches_per_text <= 4096
        },
{
    lemma_all_usable(c.rules@, 0);
}

/// A value with more matches than may be is refused, untouched, and so is the whole request from
/// then on; one with no match is left alone.
pub proof fn law_too_many_matches_are_refused(
    rules: Seq<RedactionRule>,
    cap: nat,
    index: nat,
    field: Seq<char>,
    text: Seq<char>,
    t: Tally,
)
    ensures
        ({
            let r = scrub_field_step(rules, cap, index, field, text, t);
            let n = text_matches(rules, text).len();
            &&& r.1.failed <==> t.failed || n > cap
            &&& r.1.failed || n == 0 ==> r.0 == text
            &&& r.1.failed || n == 0 ==> r.1.count == t.count && r.1.events == t.events
            &&& !r.1.failed ==> r.1.events.len() == t.events.len() + n
            &&& !r.1.failed && t.count + n <= u64::MAX ==> r.1.count == t.count + n
            &&& !r.1.failed && t.count + n > u64::MAX ==> r.1.count == u64::MAX
        }),
{
}

/// All that was told of since is told of one field of one message.
pub open spec fn tells_of(before: Tally, after: Tally, field: Seq<char>, index: nat) -> bool {
    &&& before.events.len() <= after.events.len()
    &&& after.events.take(before.events.len() as int) == before.events
    &&& forall|k: int|
        before.events.len() <= k < after.events.len() ==> (#[trigger] after.events[k]).field
            == field && after.events[k].index == index
}

/// What is told of a field carries its name and the place of its message.
proof fn lemma_field_tells(
    rules: Seq<RedactionRule>,
    cap: nat,
    index: nat,
    field: Seq<char>,
    text: Seq<char>,
    t: Tally,
)
    ensures
        tells_of(t, scrub_field_step(rules, cap, index, field, text, t).1, field, index),
{
    let r = scrub_field_step(rules, cap, index, field, text, t).1;
    let ms = text_matches(rules, text);
    assert(r.events =~= t.events || r.events =~= t.events + field_events(rules, ms, field, index));
    assert(r.events.take(t.events.len() as int) =~= t.events);
}

/// One after the other.
proof fn lemma_tells_on(a: Tally, b: Tally, c: Tally, field: Seq<char>, index: nat)
    requires
        tells_of(a, b, field, index),
        tells_of(b, c, field, index),
    ensures
        tells_of(a, c, field, index),
{
    assert(c.events.take(a.events.len() as int) =~= a.events) by {
        assert forall|k: int| 0 <= k < a.events.len() implies c.events[k] == a.events[k] by {
            assert(c.events.take(b.events.len() as int)[k] == b.events[k]);
            assert(b.events.take(a.events.len() as int)[k] == a.events[k]);
        }
    }
    assert forall|k: int| a.events.len() <= k < c.events.len() implies (
    #[trigger] c.events[k]).field == field && c.events[k].index == index by {
        if k < b.events.len() {
            assert(c.events.take(b.events.len() as int)[k] == b.events[k]);
        }
    }
}

/// What is told of a value.
proof fn lemma_json_tells(
    rules: Seq<RedactionRule>,
    cap: nat,
    index: nat,
    j: JsonView,
    t: Tally,
)
    ensures
        tells_of(
            t,
            scrub_json_step(rules, cap, index, j, t).1,
            "tool_call_arguments"@,
            index,
        ),
    decreases j,
{
    assert(t.events.take(t.events.len() as int) =~= t.events);
    match j {
        JsonView::String(text) => {
            lemma_field_tells(rules, cap, index, "tool_call_arguments"@, text, t);
        },
        JsonView::Array(v) => {
            lemma_items_tell(rules, cap, index, v, t);
        },
        JsonView::Object(m) => {
            lemma_members_tell(rules, cap, index, m, t);
        },
        _ => {},
    }
}

/// What is told of values.
proof fn lemma_items_tell(
    rules: Seq<RedactionRule>,
    cap: nat,
    index: nat,
    v: Seq<JsonView>,
    t: Tally,
)
    ensures
        tells_of(
            t,
            scrub_items_step(rules, cap, index, v, t).1,
            "tool_call_arguments"@,
            index,
        ),
    decreases v,
{
    assert(t.events.take(t.events.len() as int) =~= t.events);
    if v.len() > 0 {
        let before = scrub_items_step(rules, cap, index, v.drop_last(), t).1;
        lemma_items_tell(rules, cap, index, v.drop_last(), t);
        lemma_json_tells(rules, cap, index, v[v.len() - 1], before);
        let after = scrub_json_step(rules, cap, index, v[v.len() - 1], before).1;
        lemma_tells_on(t, before, after, "tool_call_arguments"@, index);
    }
}

/// What is told of members.
proof fn lemma_members_tell(
    rules: Seq<RedactionRule>,
    cap: nat,
    index: nat,
    m: Seq<(Seq<char>, JsonView)>,
    t: Tally,
)
    ensures
        tells_of(
            t,
            scrub_members_step(rules, cap, index, m, t).1,
            "tool_call_arguments"@,
            index,
        ),
    decreases m,
{
    assert(t.events.take(t.events.len() as int) =~= t.events);
    if m.len() > 0 {
        let before = scrub_members_step(rules, cap, index, m.drop_last(), t).1;
        lemma_members_tell(rules, cap, index, m.drop_last(), t);
        lemma_json_tells(rules, cap, index, m[m.len() - 1].1, before);
        let after = scrub_json_step(rules, cap, index, m[m.len() - 1].1, before).1;
        lemma_tells_on(t, before, after, "tool_call_arguments"@, index);
    }
}

/// What is told of a replacement says in which kind of field it stands, and in which message.
pub proof fn law_replacements_are_told_by_field(
    rules: Seq<RedactionRule>,
    cap: nat,
    index: nat,
    block: BlockView,
    t: Tally,
)
    ensures
        ({
            let r = scrub_block_step(rules, cap, index, block, t).1;
            match block {
                BlockView::Text(_) => tells_of(t, r, "message_text"@, index),
                BlockView::Thinking { .. } => tells_of(t, r, "message_thinking"@, index),
                BlockView::ToolCall { .. } => tells_of(t, r, "tool_call_arguments"@, index),
                BlockView::ToolResult { .. } => tells_of(t, r, "tool_result_output"@, index),
                BlockView::ImageBase64 { .. } => r == t,
            }
        }),
{
    match block {
        BlockView::Text(text) => {
            lemma_field_tells(rules, cap, index, "message_text"@, text, t);
        },
        BlockView::Thinking { reasoning, .. } => {
            lemma_field_tells(rules, cap, index, "message_thinking"@, reasoning, t);
        },
        BlockView::ToolCall { arguments, .. } => {
            lemma_json_tells(rules, cap, index, arguments, t);
        },
        BlockView::ToolResult { output, .. } => {
            lemma_field_tells(rules, cap, index, "tool_result_output"@, output, t);
        },
        BlockView::ImageBase64 { .. } => {},
    }
}

/// There is a value inside a value, so many levels down.
pub open spec fn nests(j: JsonView, n: nat) -> bool
    decreases n,
{
    n == 0 || match j {
        JsonView::Array(v) => exists|i: int|
            0 <= i < v.len() && nests(#[trigger] v[i], (n - 1) as nat),
        JsonView::Object(m) => exists|i: int|
            0 <= i < m.len() && nests((#[trigger] m[i]).1, (n - 1) as nat),
        _ => false,
    }
}

/// Arguments are too deep exactly where a value stands in them more than sixty-four levels down.
pub proof fn law_depth_is_bounded(j: JsonView)
    ensures
        too_deep(j, 0) <==> nests(j, 65),
{
    lemma_depth(j, 0);
}

/// From some level on.
proof fn lemma_depth(j: JsonView, depth: nat)
    requires
        depth <= 65,
    ensures
        too_deep(j, depth) <==> nests(j, (65 - depth) as nat),
    decreases j,
{
    if depth <= 64 {
        let left = (65 - depth) as nat;
        match j {
            JsonView::Array(v) => {
                assert forall|i: int| 0 <= i < v.len() implies (too_deep(#[trigger] v[i], depth + 1)
                    <==> nests(v[i], (left - 1) as nat)) by {
                    lemma_depth(v[i], depth + 1);
                }
                if items_too_deep(v, depth + 1) {
                    let i = choose|i: int| 0 <= i < v.len() && too_deep(#[trigger] v[i], depth + 1);
                    assert(nests(v[i], (left - 1) as nat));
                }
                if exists|i: int| 0 <= i < v.len() && nests(#[trigger] v[i], (left - 1) as nat) {
                    let i = choose|i: int|
                        0 <= i < v.len() && nests(#[trigger] v[i], (left - 1) as nat);
                    assert(too_deep(v[i], depth + 1));
                }
            },
            JsonView::Object(m) => {
                assert forall|i: int| 0 <= i < m.len() implies (too_deep(
                    (#[trigger] m[i]).1,
                    depth + 1,
                ) <==> nests(m[i].1, (left - 1) as nat)) by {
                    lemma_depth(m[i].1, depth + 1);
                }
                if members_too_deep(m, depth + 1) {
                    let i = choose|i: int|
                        0 <= i < m.len() && too_deep((#[trigger] m[i]).1, depth + 1);
                    assert(nests(m[i].1, (left - 1) as nat));
                }
                if exists|i: int|
                    0 <= i < m.len() && nests((#[trigger] m[i]).1, (left - 1) as nat) {
                    let i = choose|i: int|
                        0 <= i < m.len() && nests((#[trigger] m[i]).1, (left - 1) as nat);
                    assert(too_deep(m[i].1, depth + 1));
                }
            },
            _ => {},
        }
    }
}

/// A request is too deep exactly where one of its calls has arguments that are.
pub proof fn law_deep_calls_make_a_request_deep(messages: Seq<MessageView>)
    ensures
        request_too_deep(messages) <==> exists|i: int, b: int|
            0 <= i < messages.len() && 0 <= b < messages[i].content.len() && (
            #[trigger] messages[i].content[b] matches BlockView::ToolCall { arguments, .. }
                && nests(arguments, 65)),
{
    if request_too_deep(messages) {
        let i = choose|i: int| 0 <= i < messages.len() && message_too_deep(#[trigger] messages[i]);
        let m = messages[i];
        let b = choose|b: int|
            0 <= b < m.content.len() && (#[trigger] m.content[b] matches BlockView::ToolCall {
                arguments,
                ..
            } && too_deep(arguments, 0));
        law_depth_is_bounded(m.content[b]->arguments);
        assert(messages[i].content[b] is ToolCall);
    }
    if exists|i: int, b: int|
        0 <= i < messages.len() && 0 <= b < messages[i].content.len() && (
        #[trigger] messages[i].content[b] matches BlockView::ToolCall { arguments, .. } && nests(
            arguments,
            65,
        )) {
        let (i, b) = choose|i: int, b: int|
            0 <= i < messages.len() && 0 <= b < messages[i].content.len() && (
            #[trigger] messages[i].content[b] matches BlockView::ToolCall { arguments, .. }
                && nests(arguments, 65));
        law_depth_is_bounded(messages[i].content[b]->arguments);
        assert(message_too_deep(messages[i]));
    }
}

/// What is told of a name says that it stands in one, and what is told of a tool that it stands in
/// its description, and of which.
pub proof fn law_names_and_tools_are_told_of(
    rules: Seq<RedactionRule>,
    cap: nat,
    index: nat,
    m: MessageView,
    tools: Seq<ToolView>,
    tool: ToolView,
    t: Tally,
)
    requires
        m.content.len() == 0,
    ensures
        tells_of(t, scrub_message_step(rules, cap, index, m, t).1, "message_name"@, index),
        tells_of(
            scrub_tools_step(rules, cap, tools, t).1,
            scrub_tools_step(rules, cap, tools.push(tool), t).1,
            "tool_description"@,
            tools.len(),
        ),
{
    assert(t.events.take(t.events.len() as int) =~= t.events);
    if let Some(name) = m.name {
        lemma_field_tells(rules, cap, index, "message_name"@, name, t);
    }
    assert(tools.push(tool).drop_last() =~= tools);
    let before = scrub_tools_step(rules, cap, tools, t).1;
    lemma_field_tells(rules, cap, tools.len(), "tool_description"@, tool.description, before);
}

/// All that was told of since is told of one message.
pub open spec fn tells_of_message(before: Tally, after: Tally, index: nat) -> bool {
    &&& before.events.len() <= after.events.len()
    &&& after.events.take(before.events.len() as int) == before.events
    &&& forall|k: int|
        before.events.len() <= k < after.events.len() ==> (#[trigger] after.events[k]).index
            == index
}

/// One after the other.
proof fn lemma_message_goes_on(a: Tally, b: Tally, c: Tally, index: nat)
    requires
        tells_of_message(a, b, index),
        tells_of_message(b, c, index),
    ensures
        tells_of_message(a, c, index),
{
    assert(c.events.take(a.events.len() as int) =~= a.events) by {
        assert forall|k: int| 0 <= k < a.events.len() implies c.events[k] == a.events[k] by {
            assert(c.events.take(b.events.len() as int)[k] == b.events[k]);
            assert(b.events.take(a.events.len() as int)[k] == a.events[k]);
        }
    }
    assert forall|k: int| a.events.len() <= k < c.events.len() implies (
    #[trigger] c.events[k]).index == index by {
        if k < b.events.len() {
            assert(c.events.take(b.events.len() as int)[k] == b.events[k]);
        }
    }
}

/// What is told of blocks is told of their message.
proof fn lemma_blocks_tell(
    rules: Seq<RedactionRule>,
    cap: nat,
    index: nat,
    v: Seq<BlockView>,
    t: Tally,
)
    ensures
        tells_of_message(t, scrub_blocks_step(rules, cap, index, v, t).1, index),
    decreases v.len(),
{
    assert(t.events.take(t.events.len() as int) =~= t.events);
    if v.len() > 0 {
        let before = scrub_blocks_step(rules, cap, index, v.drop_last(), t).1;
        lemma_blocks_tell(rules, cap, index, v.drop_last(), t);
        law_replacements_are_told_by_field(rules, cap, index, v.last(), before);
        assert(before.events.take(before.events.len() as int) =~= before.events);
        let after = scrub_block_step(rules, cap, index, v.last(), before).1;
        lemma_message_goes_on(t, before, after, index);
    }
}

/// What is told of a message says which one it is, counted from the first.
pub proof fn law_replacements_are_told_by_message(
    rules: Seq<RedactionRule>,
    cap: nat,
    messages: Seq<MessageView>,
    m: MessageView,
    t: Tally,
)
    ensures
        tells_of_message(
            scrub_messages_step(rules, cap, messages, t).1,
            scrub_messages_step(rules, cap, messages.push(m), t).1,
            messages.len(),
        ),
{
    assert(messages.push(m).drop_last() =~= messages);
    let index = messages.len();
    let before = scrub_messages_step(rules, cap, messages, t).1;
    assert(before.events.take(before.events.len() as int) =~= before.events);
    let named = match m.name {
        Some(n) => scrub_field_step(rules, cap, index, "message_name"@, n, before).1,
        None => before,
    };
    if let Some(n) = m.name {
        lemma_field_tells(rules, cap, index, "message_name"@, n, before);
    }
    lemma_blocks_tell(rules, cap, index, m.content, named);
    lemma_message_goes_on(
        before,
        named,
        scrub_blocks_step(rules, cap, index, m.content, named).1,
        index,
    );
}

} // verus!
