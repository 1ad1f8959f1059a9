//! What a turn costs, and what the ledger makes of it.

use crate::json::json_text;
use crate::plugins::cost::{
    block_texts, blocks_images, blocks_texts, bucket, bucket_key, chosen_rates,
    completion_estimate, config_refusal, creditable, ledger_charge, ledger_commit, ledger_refund,
    ledger_response, ledger_usage, messages_images, messages_texts, price, prompt_estimate,
    prompt_texts, request_charge, response_delta, role_text, sound_ledger, tools_texts,
    tracked_models, turn_refusal, CapGauge, CostConfig, CostEntry, CostPlugin, LedgerView,
    ModelRates, PromptEstimate, RequestCharge, UnpricedModelPolicy, COST_WARNING_MARKER,
};
use crate::float::fraction_single;
use crate::request::{PromptCacheUsage, RequestView, ResponseView};
use crate::text::has_substring;
use crate::tokenize::{capped_count, text_tokens, token_count, token_sum, Encoder};
use crate::types::{holds_marker, is_marked, BlockView, MessageRole, MessageView, ToolView};
use vstd::prelude::*;

verus! {

/// How many tokens a text has, where it can be split.
pub open spec fn counted(encoder: Encoder, text: Seq<char>) -> Option<u64> {
    match text_tokens(encoder, text) {
        Some(tokens) => Some(
            if tokens.len() <= 0xffff_ffff_ffff_ffff {
                tokens.len() as u64
            } else {
                0xffff_ffff_ffff_ffff
            },
        ),
        None => None,
    }
}

/// Two counts together, up to the largest that there is; nothing where one is missing.
pub open spec fn together(a: Option<u64>, b: Option<u64>) -> Option<u64> {
    match (a, b) {
        (Some(x), Some(y)) => Some(
            if x + y <= 0xffff_ffff_ffff_ffff {
                (x + y) as u64
            } else {
                0xffff_ffff_ffff_ffff
            },
        ),
        _ => None,
    }
}

/// The tokens of texts, up to the largest count.
spec fn texts_tokens(encoder: Encoder, parts: Seq<Seq<char>>) -> Option<u64> {
    match token_sum(encoder, parts) {
        Some(n) => Some(capped_count(n)),
        None => None,
    }
}

/// The tokens of texts and of others.
proof fn lemma_texts_together(encoder: Encoder, a: Seq<Seq<char>>, b: Seq<Seq<char>>)
    ensures
        texts_tokens(encoder, a + b) == together(texts_tokens(encoder, a), texts_tokens(encoder, b)),
        token_sum(encoder, a + b) == match (token_sum(encoder, a), token_sum(encoder, b)) {
            (Some(x), Some(y)) => Some(x + y),
            _ => None,
        },
    decreases b.len(),
{
    if b.len() == 0 {
        assert(a + b =~= a);
    } else {
        lemma_texts_together(encoder, a, b.drop_last());
        assert((a + b).drop_last() =~= a + b.drop_last());
        assert((a + b).last() == b.last());
    }
}

/// The tokens of one text.
proof fn lemma_one_text(encoder: Encoder, text: Seq<char>)
    ensures
        texts_tokens(encoder, seq![text]) == counted(encoder, text),
{
    let one = seq![text];
    assert(one.drop_last() =~= Seq::<Seq<char>>::empty());
    assert(token_sum(encoder, one.drop_last()) == Some(0nat));
    assert(token_sum(encoder, one) == token_count(encoder, text));
}

/// The tokens of two texts.
proof fn lemma_two_texts(encoder: Encoder, first: Seq<char>, second: Seq<char>)
    ensures
        texts_tokens(encoder, seq![first, second]) == together(
            counted(encoder, first),
            counted(encoder, second),
        ),
{
    assert(seq![first, second] =~= seq![first] + seq![second]);
    lemma_texts_together(encoder, seq![first], seq![second]);
    lemma_one_text(encoder, first);
    lemma_one_text(encoder, second);
}

/// The estimate of an answer of one block: the tokens of its text or its reasoning, or of the
/// name and the JSON text of the arguments of a tool call. Results of tools and images are not
/// generated, and count nothing.
pub proof fn law_a_block_counts_what_was_generated(encoder: Encoder, block: BlockView)
    ensures
        match block {
            BlockView::Text(text) => completion_estimate(encoder, seq![block]) == counted(
                encoder,
                text,
            ),
            BlockView::Thinking { reasoning, .. } => completion_estimate(encoder, seq![block])
                == counted(encoder, reasoning),
            BlockView::ToolCall { name, arguments, .. } => completion_estimate(
                encoder,
                seq![block],
            ) == together(counted(encoder, name), counted(encoder, json_text(arguments))),
            BlockView::ToolResult { .. } => completion_estimate(encoder, seq![block]) == Some(0u64),
            BlockView::ImageBase64 { .. } => completion_estimate(encoder, seq![block]) == Some(
                0u64,
            ),
        },
{
    let one = seq![block];
    let none = Seq::<Seq<char>>::empty();
    assert(one.drop_last() =~= Seq::<BlockView>::empty());
    assert(blocks_texts(one.drop_last(), false) =~= none);
    assert(blocks_texts(one, false) =~= block_texts(block, false));
    match block {
        BlockView::Text(text) => {
            lemma_one_text(encoder, text);
        },
        BlockView::Thinking { reasoning, .. } => {
            lemma_one_text(encoder, reasoning);
        },
        BlockView::ToolCall { name, arguments, .. } => {
            lemma_two_texts(encoder, name, json_text(arguments));
        },
        _ => {
            assert(block_texts(block, false) =~= none);
        },
    }
}

/// An answer counts what its blocks count together; an empty one counts nothing.
pub proof fn law_an_answer_counts_every_block(
    encoder: Encoder,
    content: Seq<BlockView>,
    block: BlockView,
)
    ensures
        completion_estimate(encoder, Seq::empty()) == Some(0u64),
        completion_estimate(encoder, content.push(block)) == together(
            completion_estimate(encoder, content),
            completion_estimate(encoder, seq![block]),
        ),
{
    let all = content.push(block);
    let one = seq![block];
    assert(all.drop_last() =~= content);
    assert(one.drop_last() =~= Seq::<BlockView>::empty());
    assert(blocks_texts(one.drop_last(), false) =~= Seq::<Seq<char>>::empty());
    assert(blocks_texts(one, false) =~= block_texts(block, false));
    lemma_texts_together(encoder, blocks_texts(content, false), block_texts(block, false));
}

/// The tokens of an estimate.
pub open spec fn tokens_of(estimate: Option<PromptEstimate>) -> Option<u64> {
    match estimate {
        Some(e) => Some(e.tokens),
        None => None,
    }
}

/// A request with these messages and tools alone.
pub open spec fn only(
    req: RequestView,
    messages: Seq<MessageView>,
    tools: Seq<ToolView>,
) -> RequestView {
    RequestView { messages, tools, ..req }
}

/// A prompt counts what its messages and its tools count together: a message more adds what it
/// counts alone, and a tool more its name, its description and the JSON text of its schema.
pub proof fn law_a_prompt_counts_every_part(
    encoder: Encoder,
    req: RequestView,
    message: MessageView,
    tool: ToolView,
)
    ensures
        tokens_of(prompt_estimate(encoder, only(req, Seq::empty(), Seq::empty()))) == Some(0u64),
        tokens_of(
            prompt_estimate(encoder, only(req, req.messages.push(message), req.tools)),
        ) == together(
            tokens_of(prompt_estimate(encoder, req)),
            tokens_of(prompt_estimate(encoder, only(req, seq![message], Seq::empty()))),
        ),
        tokens_of(
            prompt_estimate(encoder, only(req, req.messages, req.tools.push(tool))),
        ) == together(
            tokens_of(prompt_estimate(encoder, req)),
            together(
                together(counted(encoder, tool.name), counted(encoder, tool.description)),
                counted(encoder, json_text(tool.input_schema)),
            ),
        ),
{
    let none = Seq::<Seq<char>>::empty();
    let nothing = only(req, Seq::empty(), Seq::empty());
    assert(prompt_texts(nothing) =~= none);
    // A message more.
    let before = messages_texts(req.messages);
    let tools = tools_texts(req.tools);
    let alone = only(req, seq![message], Seq::empty());
    let more = only(req, req.messages.push(message), req.tools);
    let added = seq![role_text(message.role)] + blocks_texts(message.content, true);
    assert(seq![message].drop_last() =~= Seq::<MessageView>::empty());
    assert(messages_texts(seq![message].drop_last()) =~= none);
    assert(prompt_texts(alone) =~= added);
    assert(req.messages.push(message).drop_last() =~= req.messages);
    assert(prompt_texts(more) =~= (before + added) + tools);
    lemma_texts_together(encoder, before + added, tools);
    lemma_texts_together(encoder, before, added);
    lemma_texts_together(encoder, before, tools);
    assert(prompt_texts(req) == before + tools);
    // A tool more.
    let parts = seq![tool.name, tool.description, json_text(tool.input_schema)];
    let with_tool = only(req, req.messages, req.tools.push(tool));
    assert(req.tools.push(tool).drop_last() =~= req.tools);
    assert(prompt_texts(with_tool) =~= (before + tools) + parts);
    lemma_texts_together(encoder, before + tools, parts);
    assert(parts =~= seq![tool.name, tool.description] + seq![json_text(tool.input_schema)]);
    lemma_texts_together(
        encoder,
        seq![tool.name, tool.description],
        seq![json_text(tool.input_schema)],
    );
    lemma_two_texts(encoder, tool.name, tool.description);
    lemma_one_text(encoder, json_text(tool.input_schema));
}

/// A message in a prompt counts its role and its blocks: each block what it would count in an
/// answer, and a tool's result its output. An image counts no tokens, and is counted apart.
pub proof fn law_a_message_counts_every_block(
    encoder: Encoder,
    req: RequestView,
    message: MessageView,
    block: BlockView,
)
    ensures
        ({
            let bare = MessageView { content: Seq::empty(), ..message };
            let more = MessageView { content: message.content.push(block), ..message };
            let label = match message.role {
                MessageRole::System => "system "@,
                MessageRole::User => "user "@,
                MessageRole::Assistant => "assistant "@,
                MessageRole::Tool => "tool "@,
            };
            let adds = match block {
                BlockView::ToolResult { output, .. } => counted(encoder, output),
                _ => completion_estimate(encoder, seq![block]),
            };
            &&& tokens_of(prompt_estimate(encoder, only(req, seq![bare], Seq::empty())))
                == counted(encoder, label)
            &&& tokens_of(prompt_estimate(encoder, only(req, seq![more], Seq::empty())))
                == together(
                tokens_of(prompt_estimate(encoder, only(req, seq![message], Seq::empty()))),
                adds,
            )
        }),
{
    let bare = MessageView { content: Seq::empty(), ..message };
    let more = MessageView { content: message.content.push(block), ..message };
    lemma_alone(req, bare);
    lemma_alone(req, more);
    lemma_alone(req, message);
    let label = role_text(message.role);
    assert(seq![label] + Seq::<Seq<char>>::empty() =~= seq![label]);
    lemma_one_text(encoder, label);
    assert(more.content.drop_last() =~= message.content);
    let here = seq![label] + blocks_texts(message.content, true);
    assert(seq![label] + blocks_texts(more.content, true) =~= here + block_texts(block, true));
    lemma_texts_together(encoder, here, block_texts(block, true));
    law_a_block_counts_what_was_generated(encoder, block);
    match block {
        BlockView::Text(text) => {
            lemma_one_text(encoder, text);
        },
        BlockView::Thinking { reasoning, .. } => {
            lemma_one_text(encoder, reasoning);
        },
        BlockView::ToolCall { name, arguments, .. } => {
            lemma_two_texts(encoder, name, json_text(arguments));
        },
        BlockView::ToolResult { output, .. } => {
            lemma_one_text(encoder, output);
        },
        BlockView::ImageBase64 { .. } => {
            assert(block_texts(block, true) =~= Seq::<Seq<char>>::empty());
        },
    }
}

/// The texts of a prompt of one message.
proof fn lemma_alone(req: RequestView, message: MessageView)
    ensures
        prompt_texts(only(req, seq![message], Seq::empty())) == seq![role_text(message.role)]
            + blocks_texts(message.content, true),
{
    let alone = only(req, seq![message], Seq::empty());
    assert(seq![message].drop_last() =~= Seq::<MessageView>::empty());
    assert(messages_texts(seq![message].drop_last()) =~= Seq::<Seq<char>>::empty());
    assert(prompt_texts(alone) =~= seq![role_text(message.role)] + blocks_texts(
        message.content,
        true,
    ));
}

/// Every image in a prompt is counted, and nothing else is counted as one.
pub proof fn law_images_are_counted(
    encoder: Encoder,
    req: RequestView,
    message: MessageView,
    block: BlockView,
    e: PromptEstimate,
    f: PromptEstimate,
)
    requires
        prompt_estimate(
            encoder,
            only(req, req.messages.push(message), req.tools),
        ) == Some(e),
        prompt_estimate(
            encoder,
            only(
                req,
                req.messages.push(
                    MessageView { content: message.content.push(block), ..message },
                ),
                req.tools,
            ),
        ) == Some(f),
        e.image_blocks < 0xffff_ffff_ffff_ffff,
    ensures
        f.image_blocks == (if block is ImageBase64 {
            e.image_blocks + 1
        } else {
            e.image_blocks as int
        }),
        prompt_estimate(encoder, only(req, Seq::empty(), Seq::empty())) matches Some(
            none,
        ) && none.image_blocks == 0,
{
    let more = MessageView { content: message.content.push(block), ..message };
    assert(req.messages.push(message).drop_last() =~= req.messages);
    assert(req.messages.push(more).drop_last() =~= req.messages);
    assert(more.content.drop_last() =~= message.content);
    assert(messages_images(req.messages.push(message)) == messages_images(req.messages)
        + blocks_images(message.content));
    assert(messages_images(req.messages.push(more)) == messages_images(req.messages)
        + blocks_images(more.content));
    let nothing = only(req, Seq::empty(), Seq::empty());
    assert(prompt_texts(nothing) =~= Seq::<Seq<char>>::empty());
}

/// A price is the exact price per million tokens, rounded down, or the largest that there is.
pub proof fn law_prices_are_exact(tokens: u64, rate: u64)
    ensures
        price(tokens, rate) < 0xffff_ffff_ffff_ffff ==> price(tokens, rate) * 1_000_000 <= tokens
            * rate < (price(tokens, rate) + 1) * 1_000_000,
        price(tokens, rate) == 0xffff_ffff_ffff_ffff ==> tokens * rate >= 0xffff_ffff_ffff_ffff
            * 1_000_000,
{
    assert(0 <= tokens * rate) by (nonlinear_arith)
        requires
            0 <= tokens,
            0 <= rate,
    ;
}

/// The rates that a resolver gives count before those of the table, and without either there are
/// none.
pub proof fn law_resolved_rates_come_first(
    rates: ModelRates,
    table: Map<Seq<char>, ModelRates>,
    model: Seq<char>,
)
    ensures
        chosen_rates(Some(rates), table, model) == Some(rates),
        table.dom().contains(model) ==> chosen_rates(None, table, model) == Some(table[model]),
        !table.dom().contains(model) ==> chosen_rates(None, table, model) is None,
{
}

/// A prompt is charged its tokens, at the input rate; a model without rates spends nothing, and
/// is counted as such. A prompt ends no turn and generates nothing.
pub proof fn law_prompts_are_charged_at_the_input_rate(
    estimate: PromptEstimate,
    rates: Option<ModelRates>,
)
    ensures
        ({
            let charge = request_charge(estimate, rates);
            &&& charge.entry.prompt_tokens == estimate.tokens
            &&& charge.image_blocks == estimate.image_blocks
            &&& charge.unpriced <==> rates is None
            &&& match rates {
                Some(r) => charge.entry.spent_micros == price(
                    estimate.tokens,
                    r.input_micros_per_mtok,
                ),
                None => charge.entry.spent_micros == 0,
            }
            &&& charge.entry.completion_tokens == 0
            &&& charge.entry.cache_read_tokens == 0
            &&& charge.entry.cache_write_tokens == 0
            &&& charge.entry.turns == 0
        }),
{
}

/// `c` is the sum of `a` and `b`, up to the largest count.
pub open spec fn adds(a: u64, b: u64, c: u64) -> bool {
    c == a + b || (c == 0xffff_ffff_ffff_ffff && a + b > c)
}

/// A charge is added to the totals, count by count, and to the bucket of one model, which is the
/// model's own unless the ledger is full of others; every other bucket stays.
pub proof fn law_charges_are_added(
    l: LedgerView,
    c: CostConfig,
    model: Seq<char>,
    charge: RequestCharge,
)
    ensures
        ({
            let max = c.max_tracked_models as nat;
            let after = ledger_charge(l, model, max, charge);
            let (u, v) = (ledger_usage(l, c), ledger_usage(after, c));
            let key = if l.per_model.dom().contains(model) || l.per_model.dom().remove(
                "\u{0}cuca-cost-overflow"@,
            ).len() < max {
                model
            } else {
                "\u{0}cuca-cost-overflow"@
            };
            let was = bucket(l.per_model, key);
            &&& adds(u.prompt_tokens, charge.entry.prompt_tokens, v.prompt_tokens)
            &&& adds(u.completion_tokens, charge.entry.completion_tokens, v.completion_tokens)
            &&& adds(u.cache_read_tokens, charge.entry.cache_read_tokens, v.cache_read_tokens)
            &&& adds(u.cache_write_tokens, charge.entry.cache_write_tokens, v.cache_write_tokens)
            &&& adds(u.spent_micros, charge.entry.spent_micros, v.spent_micros)
            &&& adds(u.turns, charge.entry.turns, v.turns)
            &&& adds(
                u.untokenized_image_blocks,
                charge.image_blocks,
                v.untokenized_image_blocks,
            )
            &&& adds(
                u.unpriced_turns,
                if charge.unpriced {
                    1
                } else {
                    0
                },
                v.unpriced_turns,
            )
            &&& v.overflow_turns == u.overflow_turns
            &&& after.per_model.dom() == l.per_model.dom().insert(key)
            &&& adds(
                was.prompt_tokens,
                charge.entry.prompt_tokens,
                after.per_model[key].prompt_tokens,
            )
            &&& adds(
                was.spent_micros,
                charge.entry.spent_micros,
                after.per_model[key].spent_micros,
            )
            &&& adds(
                was.completion_tokens,
                charge.entry.completion_tokens,
                after.per_model[key].completion_tokens,
            )
            &&& adds(was.turns, charge.entry.turns, after.per_model[key].turns)
            &&& forall|k: Seq<char>|
                k != key && l.per_model.dom().contains(k) ==> #[trigger] after.per_model[k]
                    == l.per_model[k]
        }),
{
    let max = c.max_tracked_models as nat;
    let after = ledger_charge(l, model, max, charge);
    assert(tracked_models(l.per_model) == l.per_model.dom().remove("\u{0}cuca-cost-overflow"@));
    let key = bucket_key(l.per_model, model, max).0;
    assert(after.per_model.dom() =~= l.per_model.dom().insert(key));
}

/// A bucket that is not there holds nothing, and one that is holds what it holds.
pub proof fn law_buckets_hold_what_was_put_in(
    per_model: Map<Seq<char>, CostEntry>,
    key: Seq<char>,
)
    ensures
        per_model.dom().contains(key) ==> bucket(per_model, key) == per_model[key],
        !per_model.dom().contains(key) ==> {
            let e = bucket(per_model, key);
            e.prompt_tokens == 0 && e.completion_tokens == 0 && e.cache_read_tokens == 0
                && e.cache_write_tokens == 0 && e.spent_micros == 0 && e.turns == 0
        },
{
}

/// An answer is charged its tokens at the output rate, and ends one turn. What the provider read
/// from its cache is moved from the input rate to the cache's, as far as it was charged; what it
/// wrote is charged on top.
pub proof fn law_answers_are_charged_at_their_rates(
    tokens: u64,
    rates: ModelRates,
    cache: PromptCacheUsage,
    charged: u64,
)
    ensures
        ({
            let (plain, nothing) = response_delta(tokens, Some(rates), None, charged);
            let (cached, refund) = response_delta(tokens, Some(rates), Some(cache), charged);
            let (free, none) = response_delta(tokens, None, Some(cache), charged);
            let read = cached.cache_read_tokens;
            &&& plain.completion_tokens == tokens && cached.completion_tokens == tokens
                && free.completion_tokens == tokens
            &&& plain.turns == 1 && cached.turns == 1 && free.turns == 1
            &&& plain.prompt_tokens == 0 && cached.prompt_tokens == 0 && free.prompt_tokens == 0
            &&& plain.spent_micros == price(tokens, rates.output_micros_per_mtok)
            &&& plain.cache_read_tokens == 0 && plain.cache_write_tokens == 0 && nothing == 0
            &&& read <= charged && read <= cache.read_tokens
            &&& read == charged || read == cache.read_tokens
            &&& cached.cache_write_tokens == cache.write_tokens
            &&& refund == price(read, rates.input_micros_per_mtok)
            &&& ({
                let sum = price(tokens, rates.output_micros_per_mtok) + price(
                    read,
                    rates.cache_read_micros_per_mtok,
                ) + price(cache.write_tokens as u64, rates.cache_write_micros_per_mtok);
                cached.spent_micros == sum || (cached.spent_micros == 0xffff_ffff_ffff_ffff && sum
                    > 0xffff_ffff_ffff_ffff)
            })
            &&& free.spent_micros == 0 && none == 0 && free.cache_read_tokens == read
                && free.cache_write_tokens == cache.write_tokens
        }),
{
}

/// An answer is added to the totals: its tokens, its turn, and its price less what is taken back
/// of the prompt's. The prompt tokens stay.
pub proof fn law_answers_are_added(
    l: LedgerView,
    c: CostConfig,
    res: ResponseView,
    tokens: u64,
    rates: ModelRates,
)
    requires
        res.prompt_cache_usage is None,
        l.totals.entry.completion_tokens + tokens <= 0xffff_ffff_ffff_ffff,
        l.totals.entry.turns < 0xffff_ffff_ffff_ffff,
        l.totals.entry.spent_micros + price(tokens, rates.output_micros_per_mtok)
            <= 0xffff_ffff_ffff_ffff,
    ensures
        ({
            let after = ledger_response(l, c, res, tokens, Some(rates));
            let (u, v) = (ledger_usage(l, c), ledger_usage(after, c));
            &&& v.completion_tokens == u.completion_tokens + tokens
            &&& v.turns == u.turns + 1
            &&& v.spent_micros == u.spent_micros + price(tokens, rates.output_micros_per_mtok)
            &&& v.prompt_tokens == u.prompt_tokens
            &&& v.cache_read_tokens == u.cache_read_tokens
            &&& v.cache_write_tokens == u.cache_write_tokens
            &&& v.unpriced_turns == u.unpriced_turns
            &&& v.untokenized_image_blocks == u.untokenized_image_blocks
        }),
{
}

/// What is taken back leaves the totals and the model's bucket.
pub proof fn law_refunds_are_taken_off(
    l: LedgerView,
    c: CostConfig,
    model: Seq<char>,
    charge: RequestCharge,
)
    requires
        charge.entry.prompt_tokens <= l.totals.entry.prompt_tokens,
        charge.entry.spent_micros <= l.totals.entry.spent_micros,
    ensures
        ({
            let after = ledger_refund(l, model, c.max_tracked_models as nat, charge);
            let (u, v) = (ledger_usage(l, c), ledger_usage(after, c));
            &&& v.prompt_tokens == u.prompt_tokens - charge.entry.prompt_tokens
            &&& v.spent_micros == u.spent_micros - charge.entry.spent_micros
            &&& charge.unpriced && u.unpriced_turns > 0 ==> v.unpriced_turns == u.unpriced_turns
                - 1
            &&& !charge.unpriced ==> v.unpriced_turns == u.unpriced_turns
            &&& v.overflow_turns == u.overflow_turns
        }),
{
}

/// An answer of a model for which there is no room of its own is counted as folded.
pub proof fn law_folded_turns_are_counted(
    l: LedgerView,
    c: CostConfig,
    model: Seq<char>,
    delta: CostEntry,
    refund: u64,
)
    requires
        l.totals.overflow_turns < 0xffff_ffff_ffff_ffff,
    ensures
        ({
            let max = c.max_tracked_models as nat;
            let after = ledger_usage(ledger_commit(l, model, max, delta, refund), c);
            let folded = !l.per_model.dom().contains(model) && l.per_model.dom().remove(
                "\u{0}cuca-cost-overflow"@,
            ).len() >= max;
            &&& folded ==> after.overflow_turns == l.totals.overflow_turns + 1
            &&& !folded ==> after.overflow_turns == l.totals.overflow_turns
        }),
{
    assert(tracked_models(l.per_model) == l.per_model.dom().remove("\u{0}cuca-cost-overflow"@));
}

/// A turn goes out exactly where its model has rates, or needs none, and where neither the tokens
/// nor the spend would go over their caps. To reach a cap is not to go over it.
pub proof fn law_turns_go_out_within_the_caps(
    c: CostConfig,
    l: LedgerView,
    model: Seq<char>,
    charge: RequestCharge,
)
    requires
        l.totals.entry.prompt_tokens + l.totals.entry.completion_tokens
            + charge.entry.prompt_tokens < 0xffff_ffff_ffff_ffff,
        l.totals.entry.spent_micros + charge.entry.spent_micros < 0xffff_ffff_ffff_ffff,
    ensures
        turn_refusal(c, l, model, charge) is None <==> {
            &&& charge.unpriced ==> c.on_unpriced_model == UnpricedModelPolicy::CountTokensOnly
            &&& c.max_total_tokens matches Some(cap) ==> l.totals.entry.prompt_tokens
                + l.totals.entry.completion_tokens + charge.entry.prompt_tokens <= cap
            &&& c.max_total_micros matches Some(cap) ==> l.totals.entry.spent_micros
                + charge.entry.spent_micros <= cap
        },
{
}

/// A configuration is accepted exactly where it can be honoured.
pub proof fn law_honourable_configurations_are_accepted(c: CostConfig)
    ensures
        config_refusal(c) is None <==> {
            &&& c.max_tracked_models > 0
            &&& c.max_total_tokens matches Some(cap) ==> cap > 0
            &&& c.max_total_micros matches Some(cap) ==> cap > 0
            &&& c.warn_fraction matches Some(f) ==> fraction_single(f.bits) && (c.max_total_tokens
                is Some || c.max_total_micros is Some)
            &&& c.on_unpriced_model == UnpricedModelPolicy::Reject ==> c.pricing_resolver is Some
                || exists|m: Seq<char>| #[trigger] c.pricing@.dom().contains(m)
        },
{
    let none = Set::<Seq<char>>::empty();
    if c.pricing@.dom() != none {
        if forall|m: Seq<char>| !#[trigger] c.pricing@.dom().contains(m) {
            assert(c.pricing@.dom() =~= none);
        }
    }
}

/// Near a cap the model is told so, once: a system message behind the others says it, and all
/// else stays. Away from the caps, or where it was told before, nothing is added.
pub proof fn law_the_warning_stands_at_the_end(req: RequestView, gauge: CapGauge)
    ensures
        ({
            let after = CostPlugin::warned(req, gauge);
            let told = exists|i: int, k: int|
                0 <= i < req.messages.len() && 0 <= k < req.messages[i].content.len() && (
                #[trigger] req.messages[i].content[k] matches BlockView::Text(text)
                    && has_substring(text, "CUCA cost warning:"@));
            &&& !gauge.near_cap || told ==> after == req
            &&& gauge.near_cap && !told ==> {
                &&& after.messages.len() == req.messages.len() + 1
                &&& after.messages.drop_last() == req.messages
                &&& after.messages.last().role == MessageRole::System
                &&& after.messages.last().content == seq![
                    BlockView::Text(
                        "CUCA cost warning:"@ + " This client has used "@ + gauge.percent@
                            + "% of its budget cap; wrap up soon."@,
                    ),
                ]
                &&& after == (RequestView { messages: after.messages, ..req })
            }
        }),
{
    let after = CostPlugin::warned(req, gauge);
    let told = exists|i: int, k: int|
        0 <= i < req.messages.len() && 0 <= k < req.messages[i].content.len() && (
        #[trigger] req.messages[i].content[k] matches BlockView::Text(text) && has_substring(
            text,
            "CUCA cost warning:"@,
        ));
    if told {
        let (i, k) = choose|i: int, k: int|
            0 <= i < req.messages.len() && 0 <= k < req.messages[i].content.len() && (
            #[trigger] req.messages[i].content[k] matches BlockView::Text(text) && has_substring(
                text,
                "CUCA cost warning:"@,
            ));
        assert(is_marked(req.messages[i].content[k], COST_WARNING_MARKER@));
    }
    if holds_marker(req.messages, COST_WARNING_MARKER@) {
        let (i, k) = choose|i: int, k: int|
            0 <= i < req.messages.len() && 0 <= k < req.messages[i].content.len()
                && #[trigger] is_marked(
                req.messages[i].content[k],
                COST_WARNING_MARKER@,
            );
        assert(req.messages[i].content[k] is Text);
    } else if gauge.near_cap {
        assert(after.messages.drop_last() =~= req.messages);
    }
}

/// The end of a turn adds what the answer cost, and takes off what was charged too much for its
/// prompt, in all and for the model.
pub proof fn law_credits_are_taken_off(
    l: LedgerView,
    model: Seq<char>,
    max_tracked: nat,
    delta: CostEntry,
    refund: u64,
)
    requires
        l.per_model.dom().contains(model),
        refund <= l.totals.entry.spent_micros,
        refund <= l.per_model[model].spent_micros,
        l.totals.entry.spent_micros + delta.spent_micros <= u64::MAX,
        l.per_model[model].spent_micros + delta.spent_micros <= u64::MAX,
    ensures
        ({
            let after = ledger_commit(l, model, max_tracked, delta, refund);
            &&& after.totals.entry.spent_micros == l.totals.entry.spent_micros - refund
                + delta.spent_micros
            &&& after.per_model[model].spent_micros == l.per_model[model].spent_micros - refund
                + delta.spent_micros
        }),
{
}

/// Tokens can be credited as read from a cache only as far as they were charged for and not
/// credited yet, in all and for the model; and they can be as far as that.
pub proof fn law_only_charged_tokens_are_credited(
    l: LedgerView,
    model: Seq<char>,
    max_tracked: nat,
)
    requires
        l.per_model.dom().contains(model),
        sound_ledger(l),
    ensures
        ({
            let n = creditable(l, model, max_tracked);
            let own = l.per_model[model];
            let all = l.totals.entry;
            &&& n + own.cache_read_tokens <= own.prompt_tokens
            &&& n + all.cache_read_tokens <= all.prompt_tokens
            &&& n + own.cache_read_tokens == own.prompt_tokens || n + all.cache_read_tokens
                == all.prompt_tokens
        }),
{
}

} // verus!
