//! What the functions on texts, numbers and values are for.

use crate::error::{error_text, PluginError};
use crate::float::{finite_double, finite_single, nan_double};
use crate::json::{json_same, members_same, number_same, JsonView, NumberView};
use crate::text::{
    decimal, digit_char, has_prefix, has_substring, is_blank, is_white, lemma_char_code,
    lemma_decimal_nonempty, signed_decimal, text_less,
};
use crate::tokenize::{named_encoder, token_sum, Encoder};
use vstd::prelude::*;

verus! {

/// The number that digits say.
pub open spec fn number_of(s: Seq<char>) -> int
    decreases s.len(),
{
    if s.len() == 0 {
        0
    } else {
        number_of(s.drop_last()) * 10 + (s.last() as u32 - '0' as u32)
    }
}

/// A decimal says its number, in digits alone and without a zero at its front.
pub proof fn law_decimals_say_their_number(n: nat)
    ensures
        number_of(decimal(n)) == n,
        decimal(n).len() > 0,
        forall|i: int| 0 <= i < decimal(n).len() ==> '0' <= #[trigger] decimal(n)[i] <= '9',
        n > 0 ==> decimal(n)[0] != '0',
    decreases n,
{
    reveal_with_fuel(number_of, 2);
    if n < 10 {
        assert(decimal(n).drop_last() =~= Seq::<char>::empty());
        assert(decimal(n).last() == digit_char(n as int));
    } else {
        law_decimals_say_their_number(n / 10);
        assert(decimal(n).drop_last() =~= decimal(n / 10));
        assert(decimal(n).last() == digit_char((n % 10) as int));
        lemma_decimal_nonempty(n / 10);
        assert(decimal(n)[0] == decimal(n / 10)[0]);
    }
}

/// A number below zero is written with a sign before its amount, and any other without.
pub proof fn law_signs_stand_in_front(n: nat)
    ensures
        signed_decimal(n as int) == decimal(n),
        n > 0 ==> signed_decimal(-(n as int)) == seq!['-'] + decimal(n),
{
}

/// One text ends where the other goes on, or has the smaller character at the first place at
/// which they differ.
pub open spec fn comes_first(a: Seq<char>, b: Seq<char>, k: int) -> bool {
    &&& 0 <= k <= a.len()
    &&& k < b.len()
    &&& a.take(k) == b.take(k)
    &&& k == a.len() || (a[k] as u32) < (b[k] as u32)
}

/// Texts are ordered by the first place at which they differ, and a text comes before every
/// longer one that begins with it.
pub proof fn law_texts_are_ordered_by_their_first_difference(a: Seq<char>, b: Seq<char>)
    ensures
        text_less(a, b) <==> exists|k: int| comes_first(a, b, k),
    decreases a.len(),
{
    if a.len() == 0 || b.len() == 0 {
        if b.len() > 0 {
            assert(a.take(0) =~= b.take(0));
            assert(comes_first(a, b, 0));
        }
    } else if a[0] == b[0] {
        let ra = a.drop_first();
        let rb = b.drop_first();
        law_texts_are_ordered_by_their_first_difference(ra, rb);
        if text_less(a, b) {
            let k = choose|k: int| comes_first(ra, rb, k);
            assert(a.take(k + 1) =~= seq![a[0]] + ra.take(k));
            assert(b.take(k + 1) =~= seq![b[0]] + rb.take(k));
            assert(comes_first(a, b, k + 1));
        }
        if exists|k: int| comes_first(a, b, k) {
            let k = choose|k: int| comes_first(a, b, k);
            assert(k > 0);
            assert(ra.take(k - 1) =~= a.take(k).drop_first());
            assert(rb.take(k - 1) =~= b.take(k).drop_first());
            assert(comes_first(ra, rb, k - 1));
        }
    } else {
        lemma_char_code(a[0]);
        lemma_char_code(b[0]);
        if text_less(a, b) {
            assert(a.take(0) =~= b.take(0));
            assert(comes_first(a, b, 0));
        }
        if exists|k: int| comes_first(a, b, k) {
            let k = choose|k: int| comes_first(a, b, k);
            if k > 0 {
                assert(a.take(k)[0] == b.take(k)[0]);
            }
        }
    }
}

/// A text begins with another where it is that text and something more.
pub proof fn law_prefixes_stand_at_the_front(s: Seq<char>, prefix: Seq<char>, rest: Seq<char>)
    ensures
        has_prefix(prefix + rest, prefix),
        has_prefix(s, prefix) ==> s == prefix + s.skip(prefix.len() as int),
{
    assert((prefix + rest).take(prefix.len() as int) =~= prefix);
    if has_prefix(s, prefix) {
        assert(s =~= s.take(prefix.len() as int) + s.skip(prefix.len() as int));
    }
}

/// A text holds another where it is something, that text and something more.
pub proof fn law_substrings_stand_inside(
    before: Seq<char>,
    needle: Seq<char>,
    behind: Seq<char>,
    s: Seq<char>,
)
    ensures
        has_substring(before + needle + behind, needle),
        has_substring(s, needle) ==> exists|i: int|
            0 <= i && i + needle.len() <= s.len() && #[trigger] s.skip(i).take(
                needle.len() as int,
            ) == needle,
{
    let whole = before + needle + behind;
    let i = before.len() as int;
    assert(whole.skip(i).take(needle.len() as int) =~= needle);
    assert(has_prefix(whole.skip(i), needle));
    if has_substring(s, needle) {
        let k = choose|k: int| 0 <= k <= s.len() && #[trigger] has_prefix(s.skip(k), needle);
        assert(s.skip(k).take(needle.len() as int) == needle);
    }
}

/// Spaces, tabs and line ends are blank, and any text with something printed in it is not.
pub proof fn law_blank_texts_show_nothing(s: Seq<char>, i: int)
    ensures
        (forall|k: int|
            0 <= k < s.len() ==> #[trigger] s[k] == ' ' || s[k] == '\t' || s[k] == '\n' || s[k]
                == '\r') ==> is_blank(s),
        0 <= i < s.len() && 0x21 <= s[i] as u32 <= 0x7e ==> !is_blank(s),
        is_blank(s) && 0 <= i < s.len() ==> is_blank(s.remove(i)),
{
    if 0 <= i < s.len() && 0x21 <= s[i] as u32 <= 0x7e {
        assert(!is_white(s[i]));
    }
}

/// A value without a fraction in it.
pub open spec fn is_exact(j: JsonView) -> bool
    decreases j,
{
    match j {
        JsonView::Number(n) => !(n is Float),
        JsonView::Array(v) => forall|i: int| 0 <= i < v.len() ==> is_exact(#[trigger] v[i]),
        JsonView::Object(m) => are_exact(m),
        _ => true,
    }
}

/// Members without a fraction in them.
pub open spec fn are_exact(m: Seq<(Seq<char>, JsonView)>) -> bool
    decreases m,
{
    forall|i: int| 0 <= i < m.len() ==> is_exact((#[trigger] m[i]).1)
}

/// Every value is the same as itself, and, but for the two zeros among fractions, as no other.
pub proof fn law_values_are_the_same_as_themselves(a: JsonView, b: JsonView)
    ensures
        json_same(a, a),
        is_exact(a) && json_same(a, b) ==> a == b,
    decreases a,
{
    match a {
        JsonView::Array(x) => {
            assert forall|i: int| 0 <= i < x.len() implies json_same(#[trigger] x[i], x[i]) by {
                law_values_are_the_same_as_themselves(x[i], x[i]);
            }
            if is_exact(a) && json_same(a, b) {
                let y = b->Array_0;
                assert forall|i: int| 0 <= i < x.len() implies x[i] == y[i] by {
                    assert(is_exact(x[i]));
                    assert(json_same(x[i], y[i]));
                    law_values_are_the_same_as_themselves(x[i], y[i]);
                }
                assert(x =~= y);
            }
        },
        JsonView::Object(x) => {
            assert forall|i: int| 0 <= i < x.len() implies json_same((#[trigger] x[i]).1, x[i].1) by {
                law_values_are_the_same_as_themselves(x[i].1, x[i].1);
            }
            assert(members_same(x, x));
            if is_exact(a) && json_same(a, b) {
                let y = b->Object_0;
                assert(members_same(x, y));
                assert forall|i: int| 0 <= i < x.len() implies x[i] == y[i] by {
                    assert(are_exact(x));
                    assert(is_exact(x[i].1));
                    assert(x[i].0 == y[i].0 && json_same(x[i].1, y[i].1));
                    law_values_are_the_same_as_themselves(x[i].1, y[i].1);
                }
                assert(x =~= y);
            }
        },
        _ => {},
    }
}

/// Fractions are the same by what they are written as, and the two zeros are the same.
pub proof fn law_zeros_are_the_same(x: Seq<char>, y: Seq<char>)
    ensures
        number_same(NumberView::Float(x), NumberView::Float(y)) <==> x == y || ((x == "0.0"@ || x
            == "-0.0"@) && (y == "0.0"@ || y == "-0.0"@)),
{
}

/// A single is finite by its bits: all but the topmost of its exponents, with either sign.
pub proof fn law_singles_are_finite_below_the_top(bits: u32)
    ensures
        finite_single(bits) <==> bits < 0x7f80_0000 || 0x8000_0000 <= bits < 0xff80_0000,
{
}

/// A double is finite by its bits, and what is neither finite nor infinite is no number.
pub proof fn law_doubles_are_finite_below_the_top(bits: u64)
    ensures
        finite_double(bits) <==> bits < 0x7ff0_0000_0000_0000 || 0x8000_0000_0000_0000 <= bits
            < 0xfff0_0000_0000_0000,
        nan_double(bits) <==> 0x7ff0_0000_0000_0000 < bits < 0x8000_0000_0000_0000
            || 0xfff0_0000_0000_0000 < bits,
{
}

/// Every encoder is found by its own name.
pub proof fn law_encoders_have_names()
    ensures
        named_encoder("cl100k_base"@) == Some(Encoder::Cl100kBase),
        named_encoder("o200k_base"@) == Some(Encoder::O200kBase),
        named_encoder("o200k_harmony"@) == Some(Encoder::O200kHarmony),
        named_encoder("p50k_base"@) == Some(Encoder::P50kBase),
        named_encoder("p50k_edit"@) == Some(Encoder::P50kEdit),
        named_encoder("r50k_base"@) == Some(Encoder::R50kBase),
{
    reveal_strlit("cl100k_base");
    reveal_strlit("o200k_base");
    reveal_strlit("o200k_harmony");
    reveal_strlit("p50k_base");
    reveal_strlit("p50k_edit");
    reveal_strlit("r50k_base");
    assert("cl100k_base"@[0] == 'c');
    assert("o200k_base"@[0] == 'o');
    assert("o200k_harmony"@.len() == 13);
    assert("o200k_base"@.len() == 10);
    assert("p50k_base"@[5] == 'b');
    assert("p50k_edit"@[5] == 'e');
    assert("p50k_base"@[0] == 'p' && "p50k_edit"@[0] == 'p' && "r50k_base"@[0] == 'r');
    assert("o200k_harmony"@[0] == 'o');
}

/// Parts count together what they count apart.
pub proof fn law_parts_are_counted_together(
    encoder: Encoder,
    a: Seq<Seq<char>>,
    b: Seq<Seq<char>>,
    x: nat,
    y: nat,
)
    requires
        token_sum(encoder, a) == Some(x),
        token_sum(encoder, b) == Some(y),
    ensures
        token_sum(encoder, a + b) == Some(x + y),
    decreases b.len(),
{
    if b.len() == 0 {
        assert(a + b =~= a);
    } else {
        assert((a + b).drop_last() =~= a + b.drop_last());
        assert((a + b).last() == b.last());
        let before = token_sum(encoder, b.drop_last())->0;
        law_parts_are_counted_together(encoder, a, b.drop_last(), x, before);
    }
}

/// An error says of which kind it is, before its own words.
pub proof fn law_errors_say_their_kind(
    schema: String,
    message: String,
    plugin: &'static str,
    stage: &'static str,
)
    ensures
        error_text(PluginError::HookFailure { plugin, stage, message }) == "plugin '"@ + plugin@
            + "' failed during "@ + stage@ + ": "@ + message@,
        error_text(PluginError::Validation { schema, message }) == "validation failed for '"@
            + schema@ + "': "@ + message@,
        error_text(PluginError::Internal(message)) == "internal plugin error: "@ + message@,
        error_text(PluginError::Io(message)) == "i/o error: "@ + message@,
        error_text(PluginError::NotSupported(message)) == "not supported: "@ + message@,
{
}

} // verus!
