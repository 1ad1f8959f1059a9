//! Cost accounting: estimated tokens and their price, with a hard cap on both.
//!
//! Token counts are estimates: only what a provider reports of its prompt cache is its own
//! count. Money is counted in micro-units of the caller's currency, in whole numbers.
//!
//! A turn is charged when its request goes out ([`CostPlugin::begin_request`]), before a cap
//! could be crossed, and settled when the observers have been told
//! ([`CostPlugin::finish_request`]); its answer is charged in
//! [`CostPlugin::on_response_complete`]. Whether the warning fraction of a cap is reached is a
//! comparison of fractions, which the caller makes between the two.

use crate::error::PluginError;
use crate::float::{fraction_single, Single};
use crate::json::json_text;
use crate::request::{PromptCacheUsage, RequestView, ResponseView, UnifiedRequest, UnifiedResponse};
use crate::string_map::{lemma_strictly_sorted_distinct, strictly_sorted, zip_map, StringMap};
use crate::text::{decimal, decimal_text, has_prefix, has_substring, text_less};
use crate::tokenize::{
    capped_count, count_more, is_counted, lemma_token_sum_prefix, load_encoder, named_encoder,
    token_sum, unknown_encoder_message, untokenizable_message, Encoder,
};
use crate::types::{
    block_views, has_marker, holds_marker, is_marked, message_views, text_message, tool_views,
    BlockView, MessageContentBlock, MessageRole, MessageView, ToolDefinition, ToolView,
    UnifiedMessage,
};
use std::sync::Arc;
use vstd::prelude::*;
use vstd::string::*;

verus! {

/// The plugin's name.
pub const NAME: &'static str = "cost-accounting";

/// What every warning starts with; a request that holds it gets no second one.
pub const COST_WARNING_MARKER: &'static str = "CUCA cost warning:";

/// The bucket of the models beyond the tracked ones.
pub const OVERFLOW_MODEL: &'static str = "\u{0}cuca-cost-overflow";

/// Rates are quoted per million tokens.
pub const TOKENS_PER_MTOK: u128 = 1_000_000;

/// The prices of a model, in micro-units per million tokens.
#[derive(Debug, Clone, Copy, PartialEq, Eq, Structural)]
pub struct ModelRates {
    /// Prompt tokens.
    pub input_micros_per_mtok: u64,
    /// Generated tokens.
    pub output_micros_per_mtok: u64,
    /// Prompt tokens read from the provider's cache, in place of the input rate.
    pub cache_read_micros_per_mtok: u64,
    /// Prompt tokens written to the provider's cache, on top of the input rate.
    pub cache_write_micros_per_mtok: u64,
}

impl Default for ModelRates {
    fn default() -> (r: ModelRates)
        ensures
            r == (ModelRates {
                input_micros_per_mtok: 0,
                output_micros_per_mtok: 0,
                cache_read_micros_per_mtok: 0,
                cache_write_micros_per_mtok: 0,
            }),
    {
        ModelRates {
            input_micros_per_mtok: 0,
            output_micros_per_mtok: 0,
            cache_read_micros_per_mtok: 0,
            cache_write_micros_per_mtok: 0,
        }
    }
}

/// The prices of models.
#[derive(Debug, PartialEq, Eq)]
pub struct PricingTable {
    rates: StringMap<ModelRates>,
}

impl View for PricingTable {
    type V = Map<Seq<char>, ModelRates>;

    closed spec fn view(&self) -> Map<Seq<char>, ModelRates> {
        self.rates@
    }
}

impl PricingTable {
    /// A table that prices no model.
    pub fn new() -> (r: PricingTable)
        ensures
            r@ == Map::<Seq<char>, ModelRates>::empty(),
    {
        PricingTable { rates: StringMap::new() }
    }

    /// The table with the rates of `model` added or replaced.
    pub fn with_model(self, model: String, rates: ModelRates) -> (r: PricingTable)
        ensures
            r@ == self@.insert(model@, rates),
            self@.dom().finite(),
    {
        let mut r = self;
        proof {
            use_type_invariant(&r.rates);
            StringMap::lemma_view_len(r.rates);
        }
        r.rates.insert(model, rates);
        r
    }

    /// The rates of `model`.
    pub fn get(&self, model: &str) -> (r: Option<ModelRates>)
        ensures
            r == (if self@.dom().contains(model@) {
                Some(self@[model@])
            } else {
                None
            }),
    {
        match self.rates.get(model) {
            Some(rates) => Some(*rates),
            None => None,
        }
    }

    /// The number of models.
    pub fn len(&self) -> (r: usize)
        ensures
            r == self@.dom().len(),
            self@.dom().finite(),
    {
        self.rates.len()
    }

    /// Whether the table prices no model.
    pub fn is_empty(&self) -> (r: bool)
        ensures
            r == (self@.dom() == Set::<Seq<char>>::empty()),
    {
        self.rates.is_empty()
    }
}

/// The table with a model added has rates for that model, keeps those of every other, and is
/// longer by one where the model is new.
pub proof fn law_models_are_added(
    table: Map<Seq<char>, ModelRates>,
    model: Seq<char>,
    rates: ModelRates,
    other: Seq<char>,
)
    requires
        table.dom().finite(),
    ensures
        ({
            let after = table.insert(model, rates);
            &&& table_rates(after, model) == Some(rates)
            &&& other != model ==> table_rates(after, other) == table_rates(table, other)
            &&& after.dom().finite()
            &&& after.dom().len() == table.dom().len() + if table.dom().contains(model) {
                0int
            } else {
                1int
            }
            &&& after.dom() != Set::<Seq<char>>::empty()
        }),
{
    let after = table.insert(model, rates);
    assert(after.dom() =~= table.dom().insert(model));
    assert(after.dom().contains(model));
}

impl Default for PricingTable {
    fn default() -> (r: PricingTable)
        ensures
            r@ == Map::<Seq<char>, ModelRates>::empty(),
    {
        PricingTable::new()
    }
}

impl Clone for PricingTable {
    fn clone(&self) -> (r: PricingTable)
        ensures
            r@ == self@,
    {
        let entries = self.rates.entries();
        let ghost keys = self.rates.keys();
        let ghost values = self.rates.values();
        let mut copies: Vec<(String, ModelRates)> = Vec::new();
        let mut i: usize = 0;
        while i < entries.len()
            invariant
                i <= entries@.len(),
                copies@.len() == i,
                forall|k: int|
                    0 <= k < i ==> (#[trigger] copies@[k]).0@ == entries@[k].0@ && copies@[k].1
                        == entries@[k].1,
            decreases entries@.len() - i,
        {
            copies.push((entries[i].0.clone(), entries[i].1));
            i = i + 1;
        }
        assert(Seq::new(copies@.len(), |k: int| copies@[k].0@) =~= keys);
        let rates = StringMap::from_entries(copies);
        assert(rates.keys() =~= keys);
        assert(rates.values() =~= values);
        PricingTable { rates }
    }
}

/// A source of rates that is asked before the table.
pub trait PricingResolver: Send + Sync {
    /// The rates of `model`, or `None` to go by the table.
    fn resolve_rates(&self, model: &str) -> Option<ModelRates>;
}

/// What to do with a turn whose model has no rates.
#[derive(Debug, Clone, Copy, PartialEq, Eq, Structural)]
pub enum UnpricedModelPolicy {
    /// Refuse it.
    Reject,
    /// Count its tokens and charge nothing.
    CountTokensOnly,
}

/// One reading of the ledger.
#[derive(Debug, Clone, Copy, PartialEq, Eq, Structural)]
pub struct CostUsage {
    /// Estimated prompt tokens.
    pub prompt_tokens: u64,
    /// Estimated generated tokens.
    pub completion_tokens: u64,
    /// Prompt tokens that the provider read from its cache.
    pub cache_read_tokens: u64,
    /// Prompt tokens that the provider wrote to its cache.
    pub cache_write_tokens: u64,
    /// The spend, in micro-units.
    pub spent_micros: u64,
    /// Finished turns.
    pub turns: u64,
    /// Turns without rates.
    pub unpriced_turns: u64,
    /// Images in prompts, which are not counted as tokens.
    pub untokenized_image_blocks: u64,
    /// Finished turns of models beyond the tracked ones.
    pub overflow_turns: u64,
    /// The cap on tokens.
    pub max_total_tokens: Option<u64>,
    /// The cap on the spend.
    pub max_total_micros: Option<u64>,
    /// Whether the warning fraction of the tightest cap is reached. The ledger leaves it unset:
    /// who compares the fractions sets it.
    pub near_cap: bool,
}

/// The sum of two counts, or the largest count.
pub open spec fn sum64(a: u64, b: u64) -> u64 {
    if a + b <= u64::MAX {
        (a + b) as u64
    } else {
        u64::MAX
    }
}

/// The difference of two counts, or zero.
pub open spec fn diff64(a: u64, b: u64) -> u64 {
    if a >= b {
        (a - b) as u64
    } else {
        0
    }
}

impl CostUsage {
    /// Prompt tokens and generated tokens.
    pub fn total_tokens(&self) -> (r: u64)
        ensures
            r == sum64(self.prompt_tokens, self.completion_tokens),
    {
        self.prompt_tokens.saturating_add(self.completion_tokens)
    }
}

/// What the ledger holds for one model.
#[derive(Debug, Clone, Copy, PartialEq, Eq, Structural)]
pub struct CostEntry {
    /// Estimated prompt tokens.
    pub prompt_tokens: u64,
    /// Estimated generated tokens.
    pub completion_tokens: u64,
    /// Prompt tokens that the provider read from its cache.
    pub cache_read_tokens: u64,
    /// Prompt tokens that the provider wrote to its cache.
    pub cache_write_tokens: u64,
    /// The spend, in micro-units.
    pub spent_micros: u64,
    /// Finished turns.
    pub turns: u64,
}

/// Nothing charged.
pub open spec fn zero_entry() -> CostEntry {
    CostEntry {
        prompt_tokens: 0,
        completion_tokens: 0,
        cache_read_tokens: 0,
        cache_write_tokens: 0,
        spent_micros: 0,
        turns: 0,
    }
}

/// Two entries added up.
pub open spec fn entry_sum(a: CostEntry, b: CostEntry) -> CostEntry {
    CostEntry {
        prompt_tokens: sum64(a.prompt_tokens, b.prompt_tokens),
        completion_tokens: sum64(a.completion_tokens, b.completion_tokens),
        cache_read_tokens: sum64(a.cache_read_tokens, b.cache_read_tokens),
        cache_write_tokens: sum64(a.cache_write_tokens, b.cache_write_tokens),
        spent_micros: sum64(a.spent_micros, b.spent_micros),
        turns: sum64(a.turns, b.turns),
    }
}

/// The lesser of two counts.
pub open spec fn least64(a: u64, b: u64) -> u64 {
    if a <= b {
        a
    } else {
        b
    }
}

/// One entry taken off another. Of the cache reads no more are left than of the prompt tokens.
pub open spec fn entry_difference(a: CostEntry, b: CostEntry) -> CostEntry {
    CostEntry {
        prompt_tokens: diff64(a.prompt_tokens, b.prompt_tokens),
        completion_tokens: diff64(a.completion_tokens, b.completion_tokens),
        cache_read_tokens: least64(
            diff64(a.cache_read_tokens, b.cache_read_tokens),
            diff64(a.prompt_tokens, b.prompt_tokens),
        ),
        cache_write_tokens: diff64(a.cache_write_tokens, b.cache_write_tokens),
        spent_micros: diff64(a.spent_micros, b.spent_micros),
        turns: diff64(a.turns, b.turns),
    }
}

/// An entry added after a refund.
pub open spec fn entry_commit(a: CostEntry, b: CostEntry, refund: u64) -> CostEntry {
    entry_sum(CostEntry { spent_micros: diff64(a.spent_micros, refund), ..a }, b)
}

impl Default for CostEntry {
    fn default() -> (r: CostEntry)
        ensures
            r == zero_entry(),
    {
        CostEntry {
            prompt_tokens: 0,
            completion_tokens: 0,
            cache_read_tokens: 0,
            cache_write_tokens: 0,
            spent_micros: 0,
            turns: 0,
        }
    }
}

impl CostEntry {
    /// Prompt tokens and generated tokens.
    pub fn total_tokens(&self) -> (r: u64)
        ensures
            r == sum64(self.prompt_tokens, self.completion_tokens),
    {
        self.prompt_tokens.saturating_add(self.completion_tokens)
    }

    /// Two entries added up.
    fn plus(&self, delta: &CostEntry) -> (r: CostEntry)
        ensures
            r == entry_sum(*self, *delta),
    {
        CostEntry {
            prompt_tokens: self.prompt_tokens.saturating_add(delta.prompt_tokens),
            completion_tokens: self.completion_tokens.saturating_add(delta.completion_tokens),
            cache_read_tokens: self.cache_read_tokens.saturating_add(delta.cache_read_tokens),
            cache_write_tokens: self.cache_write_tokens.saturating_add(delta.cache_write_tokens),
            spent_micros: self.spent_micros.saturating_add(delta.spent_micros),
            turns: self.turns.saturating_add(delta.turns),
        }
    }

    /// One entry taken off another.
    fn minus(&self, delta: &CostEntry) -> (r: CostEntry)
        ensures
            r == entry_difference(*self, *delta),
    {
        let prompt_tokens: u64 = self.prompt_tokens.saturating_sub(delta.prompt_tokens);
        let reads: u64 = self.cache_read_tokens.saturating_sub(delta.cache_read_tokens);
        CostEntry {
            prompt_tokens,
            completion_tokens: self.completion_tokens.saturating_sub(delta.completion_tokens),
            cache_read_tokens: if reads <= prompt_tokens {
                reads
            } else {
                prompt_tokens
            },
            cache_write_tokens: self.cache_write_tokens.saturating_sub(delta.cache_write_tokens),
            spent_micros: self.spent_micros.saturating_sub(delta.spent_micros),
            turns: self.turns.saturating_sub(delta.turns),
        }
    }

    /// An entry added after a refund.
    fn committed(&self, delta: &CostEntry, refund_micros: u64) -> (r: CostEntry)
        ensures
            r == entry_commit(*self, *delta, refund_micros),
    {
        let mut refunded = *self;
        refunded.spent_micros = refunded.spent_micros.saturating_sub(refund_micros);
        refunded.plus(delta)
    }
}

/// Who is told of every charge. An error aborts a turn that goes out.
pub trait CostObserver: Send + Sync {
    /// Takes note of a reading.
    fn observe(&self, usage: &CostUsage) -> Result<(), PluginError>;
}

/// The price of tokens, rounded down, or the largest price.
pub open spec fn price(tokens: u64, micros_per_mtok: u64) -> u64 {
    let exact = (tokens as int * micros_per_mtok as int) / 1_000_000;
    if exact <= u64::MAX {
        exact as u64
    } else {
        u64::MAX
    }
}

/// The price of tokens.
pub fn price_micros(tokens: u64, micros_per_mtok: u64) -> (r: u64)
    ensures
        r == price(tokens, micros_per_mtok),
{
    let a: u128 = tokens as u128;
    let b: u128 = micros_per_mtok as u128;
    proof {
        assert(a * b <= 0xffff_ffff_ffff_ffff * 0xffff_ffff_ffff_ffff) by (nonlinear_arith)
            requires
                a <= 0xffff_ffff_ffff_ffff,
                b <= 0xffff_ffff_ffff_ffff,
        ;
    }
    let product: u128 = a * b;
    let exact: u128 = product / TOKENS_PER_MTOK;
    if exact <= u64::MAX as u128 {
        exact as u64
    } else {
        u64::MAX
    }
}

/// What a request is charged.
#[derive(Debug, Clone, Copy, PartialEq, Eq, Structural)]
pub struct RequestCharge {
    /// The charge.
    pub entry: CostEntry,
    /// Whether there were no rates.
    pub unpriced: bool,
    /// The images in the prompt.
    pub image_blocks: u64,
}

/// What the ledger holds in all.
#[derive(Debug, Clone, Copy, PartialEq, Eq, Structural)]
pub struct CostTotals {
    /// The sum of all charges.
    pub entry: CostEntry,
    /// Turns without rates.
    pub unpriced_turns: u64,
    /// Images in prompts.
    pub untokenized_image_blocks: u64,
    /// Finished turns of models beyond the tracked ones.
    pub overflow_turns: u64,
}

/// Nothing charged in all.
pub open spec fn zero_totals() -> CostTotals {
    CostTotals {
        entry: zero_entry(),
        unpriced_turns: 0,
        untokenized_image_blocks: 0,
        overflow_turns: 0,
    }
}

/// The ledger: the totals, and what each model has been charged.
#[derive(Debug, PartialEq)]
struct CostLedger {
    totals: CostTotals,
    per_model: StringMap<CostEntry>,
}

/// What a ledger holds.
#[verifier::ext_equal]
pub struct LedgerView {
    pub totals: CostTotals,
    pub per_model: Map<Seq<char>, CostEntry>,
}

impl View for CostLedger {
    type V = LedgerView;

    closed spec fn view(&self) -> LedgerView {
        LedgerView { totals: self.totals, per_model: self.per_model@ }
    }
}

/// The buckets of models, without the overflow bucket.
pub open spec fn tracked_models(per_model: Map<Seq<char>, CostEntry>) -> Set<Seq<char>> {
    per_model.dom().remove(OVERFLOW_MODEL@)
}

/// The bucket of `model` and whether that is the overflow bucket, because as many models as may
/// be are tracked and `model` is not among them.
pub open spec fn bucket_key(
    per_model: Map<Seq<char>, CostEntry>,
    model: Seq<char>,
    max_tracked: nat,
) -> (Seq<char>, bool) {
    if per_model.dom().contains(model) {
        (model, false)
    } else if tracked_models(per_model).len() >= max_tracked {
        (OVERFLOW_MODEL@, true)
    } else {
        (model, false)
    }
}

/// What the bucket `key` holds.
pub open spec fn bucket(per_model: Map<Seq<char>, CostEntry>, key: Seq<char>) -> CostEntry {
    if per_model.dom().contains(key) {
        per_model[key]
    } else {
        zero_entry()
    }
}

/// The ledger after a charge.
pub open spec fn ledger_charge(
    l: LedgerView,
    model: Seq<char>,
    max_tracked: nat,
    charge: RequestCharge,
) -> LedgerView {
    let key = bucket_key(l.per_model, model, max_tracked).0;
    LedgerView {
        totals: CostTotals {
            entry: entry_sum(l.totals.entry, charge.entry),
            unpriced_turns: if charge.unpriced {
                sum64(l.totals.unpriced_turns, 1)
            } else {
                l.totals.unpriced_turns
            },
            untokenized_image_blocks: sum64(
                l.totals.untokenized_image_blocks,
                charge.image_blocks,
            ),
            overflow_turns: l.totals.overflow_turns,
        },
        per_model: l.per_model.insert(key, entry_sum(bucket(l.per_model, key), charge.entry)),
    }
}

/// The ledger after a charge is taken back; a bucket that is left with nothing goes.
pub open spec fn ledger_refund(
    l: LedgerView,
    model: Seq<char>,
    max_tracked: nat,
    charge: RequestCharge,
) -> LedgerView {
    let key = bucket_key(l.per_model, model, max_tracked).0;
    let left = entry_difference(bucket(l.per_model, key), charge.entry);
    LedgerView {
        totals: CostTotals {
            entry: entry_difference(l.totals.entry, charge.entry),
            unpriced_turns: if charge.unpriced {
                diff64(l.totals.unpriced_turns, 1)
            } else {
                l.totals.unpriced_turns
            },
            untokenized_image_blocks: diff64(
                l.totals.untokenized_image_blocks,
                charge.image_blocks,
            ),
            overflow_turns: l.totals.overflow_turns,
        },
        per_model: if !l.per_model.dom().contains(key) {
            l.per_model
        } else if left == zero_entry() {
            l.per_model.remove(key)
        } else {
            l.per_model.insert(key, left)
        },
    }
}

/// The ledger after a finished turn.
pub open spec fn ledger_commit(
    l: LedgerView,
    model: Seq<char>,
    max_tracked: nat,
    delta: CostEntry,
    refund: u64,
) -> LedgerView {
    let (key, folded) = bucket_key(l.per_model, model, max_tracked);
    LedgerView {
        totals: CostTotals {
            entry: entry_commit(l.totals.entry, delta, refund),
            overflow_turns: if folded {
                sum64(l.totals.overflow_turns, 1)
            } else {
                l.totals.overflow_turns
            },
            ..l.totals
        },
        per_model: l.per_model.insert(
            key,
            entry_commit(bucket(l.per_model, key), delta, refund),
        ),
    }
}

/// The cache reads are among the prompt tokens.
pub open spec fn sound_entry(e: CostEntry) -> bool {
    e.cache_read_tokens <= e.prompt_tokens
}

/// The cache reads are among the prompt tokens, in all and of each model.
pub open spec fn sound_ledger(l: LedgerView) -> bool {
    &&& sound_entry(l.totals.entry)
    &&& forall|k: Seq<char>| #[trigger]
        l.per_model.dom().contains(k) ==> sound_entry(l.per_model[k])
}

/// The prompt tokens of a model's bucket that no cache read has been counted against, of those
/// that are left in all.
pub open spec fn creditable(l: LedgerView, model: Seq<char>, max_tracked: nat) -> u64 {
    let b = bucket(l.per_model, bucket_key(l.per_model, model, max_tracked).0);
    least64(
        diff64(b.prompt_tokens, b.cache_read_tokens),
        diff64(l.totals.entry.prompt_tokens, l.totals.entry.cache_read_tokens),
    )
}

/// At most so many models are tracked.
pub open spec fn within_tracked(l: LedgerView, max_tracked: nat) -> bool {
    l.per_model.dom().finite() && tracked_models(l.per_model).len() <= max_tracked
}

/// A bucket more for a model of the ledger keeps the number of tracked models in bounds.
proof fn lemma_bucket_tracked(
    per_model: Map<Seq<char>, CostEntry>,
    model: Seq<char>,
    max_tracked: nat,
    entry: CostEntry,
)
    requires
        per_model.dom().finite(),
        tracked_models(per_model).len() <= max_tracked,
    ensures
        ({
            let key = bucket_key(per_model, model, max_tracked).0;
            let after = per_model.insert(key, entry);
            after.dom().finite() && tracked_models(after).len() <= max_tracked
        }),
{
    let key = bucket_key(per_model, model, max_tracked).0;
    let after = per_model.insert(key, entry);
    if per_model.dom().contains(key) || key == OVERFLOW_MODEL@ {
        assert(tracked_models(after) =~= tracked_models(per_model));
    } else {
        assert(tracked_models(after) =~= tracked_models(per_model).insert(key));
    }
}

impl CostLedger {
    /// An empty ledger.
    fn new() -> (r: CostLedger)
        ensures
            r@.totals == zero_totals(),
            r@.per_model == Map::<Seq<char>, CostEntry>::empty(),
            sound_ledger(r@),
    {
        let entry: CostEntry = CostEntry::default();
        CostLedger {
            totals: CostTotals {
                entry,
                unpriced_turns: 0,
                untokenized_image_blocks: 0,
                overflow_turns: 0,
            },
            per_model: StringMap::new(),
        }
    }

    /// Whether `model` goes to the overflow bucket.
    fn folds(&self, model: &str, max_tracked: usize) -> (r: bool)
        ensures
            r == bucket_key(self@.per_model, model@, max_tracked as nat).1,
    {
        if self.per_model.contains_key(model) {
            return false;
        }
        let total: usize = self.per_model.len();
        let overflow = self.per_model.contains_key(OVERFLOW_MODEL);
        let count: usize = if overflow {
            total - 1
        } else {
            total
        };
        proof {
            if !overflow {
                assert(tracked_models(self@.per_model) =~= self@.per_model.dom());
            }
        }
        count >= max_tracked
    }

    /// The bucket of `model`, and whether that is the overflow bucket.
    fn key_for(&self, model: &str, max_tracked: usize) -> (r: (String, bool))
        ensures
            (r.0@, r.1) == bucket_key(self@.per_model, model@, max_tracked as nat),
    {
        if self.folds(model, max_tracked) {
            (OVERFLOW_MODEL.to_owned(), true)
        } else {
            (model.to_owned(), false)
        }
    }

    /// What a bucket holds.
    fn bucket_of(&self, key: &str) -> (r: CostEntry)
        ensures
            r == bucket(self@.per_model, key@),
    {
        match self.per_model.get(key) {
            Some(entry) => *entry,
            None => CostEntry::default(),
        }
    }

    /// Puts a charge on the ledger.
    fn charge_request(&mut self, model: &str, max_tracked: usize, charge: &RequestCharge)
        requires
            within_tracked(old(self)@, max_tracked as nat),
            sound_ledger(old(self)@),
            sound_entry(charge.entry),
        ensures
            sound_ledger(final(self)@),
            final(self)@ == ledger_charge(old(self)@, model@, max_tracked as nat, *charge),
            within_tracked(final(self)@, max_tracked as nat),
    {
        let (key, _) = self.key_for(model, max_tracked);
        let entry = self.bucket_of(key.as_str()).plus(&charge.entry);
        proof {
            lemma_bucket_tracked(self.per_model@, model@, max_tracked as nat, entry);
        }
        self.totals.entry = self.totals.entry.plus(&charge.entry);
        if charge.unpriced {
            self.totals.unpriced_turns = self.totals.unpriced_turns.saturating_add(1);
        }
        self.totals.untokenized_image_blocks = self.totals.untokenized_image_blocks.saturating_add(
            charge.image_blocks,
        );
        self.per_model.insert(key, entry);
    }

    /// Takes a charge off the ledger.
    fn refund_request(&mut self, model: &str, max_tracked: usize, charge: &RequestCharge)
        requires
            within_tracked(old(self)@, max_tracked as nat),
            sound_ledger(old(self)@),
        ensures
            sound_ledger(final(self)@),
            final(self)@ == ledger_refund(old(self)@, model@, max_tracked as nat, *charge),
            within_tracked(final(self)@, max_tracked as nat),
    {
        let (key, _) = self.key_for(model, max_tracked);
        self.totals.entry = self.totals.entry.minus(&charge.entry);
        if charge.unpriced {
            self.totals.unpriced_turns = self.totals.unpriced_turns.saturating_sub(1);
        }
        self.totals.untokenized_image_blocks = self.totals.untokenized_image_blocks.saturating_sub(
            charge.image_blocks,
        );
        if self.per_model.contains_key(key.as_str()) {
            let left = self.bucket_of(key.as_str()).minus(&charge.entry);
            let zero: CostEntry = CostEntry::default();
            let ghost before = self.per_model@;
            if left == zero {
                self.per_model.remove(key.as_str());
                proof {
                    assert(tracked_models(before.remove(key@)).subset_of(tracked_models(before)));
                    vstd::set_lib::lemma_len_subset(
                        tracked_models(before.remove(key@)),
                        tracked_models(before),
                    );
                }
            } else {
                self.per_model.insert(key, left);
                assert(before.insert(key@, left).dom() =~= before.dom());
            }
        }
    }

    /// The prompt tokens that `model` has been charged.
    fn charged_prompt_tokens(&self, model: &str, max_tracked: usize) -> (r: u64)
        ensures
            r == bucket(
                self@.per_model,
                bucket_key(self@.per_model, model@, max_tracked as nat).0,
            ).prompt_tokens,
    {
        let (key, _) = self.key_for(model, max_tracked);
        self.bucket_of(key.as_str()).prompt_tokens
    }

    /// The prompt tokens of `model` that cache reads can still be counted against.
    fn creditable_tokens(&self, model: &str, max_tracked: usize) -> (r: u64)
        ensures
            r == creditable(self@, model@, max_tracked as nat),
    {
        let (key, _) = self.key_for(model, max_tracked);
        let charged: u64 = self.charged_prompt_tokens(model, max_tracked);
        let of_model: u64 = charged.saturating_sub(self.bucket_of(key.as_str()).cache_read_tokens);
        let of_all: u64 = self.totals.entry.prompt_tokens.saturating_sub(
            self.totals.entry.cache_read_tokens,
        );
        if of_model <= of_all {
            of_model
        } else {
            of_all
        }
    }

    /// Puts a finished turn on the ledger.
    fn commit_response(
        &mut self,
        model: &str,
        max_tracked: usize,
        delta: &CostEntry,
        refund_micros: u64,
    )
        requires
            within_tracked(old(self)@, max_tracked as nat),
            sound_ledger(old(self)@),
            delta.cache_read_tokens <= creditable(old(self)@, model@, max_tracked as nat),
        ensures
            sound_ledger(final(self)@),
            final(self)@ == ledger_commit(
                old(self)@,
                model@,
                max_tracked as nat,
                *delta,
                refund_micros,
            ),
            within_tracked(final(self)@, max_tracked as nat),
    {
        let (key, folded) = self.key_for(model, max_tracked);
        if folded {
            self.totals.overflow_turns = self.totals.overflow_turns.saturating_add(1);
        }
        self.totals.entry = self.totals.entry.committed(delta, refund_micros);
        let entry = self.bucket_of(key.as_str()).committed(delta, refund_micros);
        proof {
            lemma_bucket_tracked(self.per_model@, model@, max_tracked as nat, entry);
        }
        self.per_model.insert(key, entry);
    }
}

/// How the plugin counts and caps.
pub struct CostConfig {
    /// The vocabulary that texts are counted in: its name, or that of a model.
    pub encoder_name: String,
    /// The prices.
    pub pricing: PricingTable,
    /// A source of prices that is asked first.
    pub pricing_resolver: Option<Arc<dyn PricingResolver>>,
    /// The cap on tokens; not zero.
    pub max_total_tokens: Option<u64>,
    /// The cap on the spend; not zero.
    pub max_total_micros: Option<u64>,
    /// From which fraction of the tightest cap on to warn: more than zero, at most one.
    pub warn_fraction: Option<Single>,
    /// How many models have a bucket of their own; not zero.
    pub max_tracked_models: usize,
    /// What to do with a model without prices.
    pub on_unpriced_model: UnpricedModelPolicy,
    /// Who is told of every charge.
    pub observers: Vec<Arc<dyn CostObserver>>,
}

impl Default for CostConfig {
    fn default() -> (r: CostConfig)
        ensures
            r.encoder_name@ == "cl100k_base"@,
            r.pricing@ == Map::<Seq<char>, ModelRates>::empty(),
            r.pricing_resolver is None,
            r.max_total_tokens is None,
            r.max_total_micros is None,
            r.warn_fraction is None,
            r.max_tracked_models == 64,
            r.on_unpriced_model == UnpricedModelPolicy::CountTokensOnly,
            r.observers@.len() == 0,
    {
        CostConfig {
            encoder_name: "cl100k_base".to_owned(),
            pricing: PricingTable::new(),
            pricing_resolver: None,
            max_total_tokens: None,
            max_total_micros: None,
            warn_fraction: None,
            max_tracked_models: 64,
            on_unpriced_model: UnpricedModelPolicy::CountTokensOnly,
            observers: Vec::new(),
        }
    }
}

/// Why a configuration cannot be honoured.
pub open spec fn config_refusal(c: CostConfig) -> Option<Seq<char>> {
    if c.max_tracked_models == 0 {
        Some("max_tracked_models must be non-zero"@)
    } else if c.max_total_tokens == Some(0u64) {
        Some("max_total_tokens must be non-zero when set"@)
    } else if c.max_total_micros == Some(0u64) {
        Some("max_total_micros must be non-zero when set"@)
    } else if c.warn_fraction is Some && !fraction_single(c.warn_fraction->0.bits) {
        Some("warn_fraction must be in (0.0, 1.0], got "@ + c.warn_fraction->0.text@)
    } else if c.warn_fraction is Some && c.max_total_tokens is None && c.max_total_micros is None {
        Some("warn_fraction requires max_total_tokens or max_total_micros"@)
    } else if c.on_unpriced_model == UnpricedModelPolicy::Reject && c.pricing@.dom() == Set::<
        Seq<char>,
    >::empty() && c.pricing_resolver is None {
        Some(
            "UnpricedModelPolicy::Reject with no pricing table and no pricing_resolver would refuse every turn"@,
        )
    } else {
        None
    }
}

impl CostConfig {
    /// Refuses a configuration that cannot be honoured.
    fn validate(&self) -> (r: Result<(), PluginError>)
        ensures
            match config_refusal(*self) {
                Some(m) => r matches Err(PluginError::Internal(e)) && e@ == m,
                None => r is Ok,
            },
    {
        if self.max_tracked_models == 0 {
            return Err(PluginError::Internal("max_tracked_models must be non-zero".to_owned()));
        }
        if let Some(cap) = self.max_total_tokens {
            if cap == 0 {
                return Err(
                    PluginError::Internal("max_total_tokens must be non-zero when set".to_owned()),
                );
            }
        }
        if let Some(cap) = self.max_total_micros {
            if cap == 0 {
                return Err(
                    PluginError::Internal("max_total_micros must be non-zero when set".to_owned()),
                );
            }
        }
        if let Some(fraction) = &self.warn_fraction {
            if !fraction.is_fraction() {
                return Err(
                    PluginError::Internal(
                        "warn_fraction must be in (0.0, 1.0], got ".to_owned().concat(
                            fraction.text.as_str(),
                        ),
                    ),
                );
            }
            if self.max_total_tokens.is_none() && self.max_total_micros.is_none() {
                return Err(
                    PluginError::Internal(
                        "warn_fraction requires max_total_tokens or max_total_micros".to_owned(),
                    ),
                );
            }
        }
        if self.on_unpriced_model == UnpricedModelPolicy::Reject && self.pricing.is_empty()
            && self.pricing_resolver.is_none() {
            return Err(
                PluginError::Internal(
                    "UnpricedModelPolicy::Reject with no pricing table and no pricing_resolver would refuse every turn".to_owned(),
                ),
            );
        }
        Ok(())
    }
}

/// What stands before a message's blocks when it is counted.
pub open spec fn role_text(role: MessageRole) -> Seq<char> {
    match role {
        MessageRole::System => "system "@,
        MessageRole::User => "user "@,
        MessageRole::Assistant => "assistant "@,
        MessageRole::Tool => "tool "@,
    }
}

/// What stands before a message's blocks when it is counted.
fn role_prefix(role: MessageRole) -> (r: &'static str)
    ensures
        r@ == role_text(role),
{
    match role {
        MessageRole::System => "system ",
        MessageRole::User => "user ",
        MessageRole::Assistant => "assistant ",
        MessageRole::Tool => "tool ",
    }
}

/// The texts of a block that count as tokens. What a tool returned counts in a prompt, not in
/// an answer; an image counts in neither.
pub open spec fn block_texts(b: BlockView, prompt: bool) -> Seq<Seq<char>> {
    match b {
        BlockView::Text(text) => seq![text],
        BlockView::Thinking { reasoning, .. } => seq![reasoning],
        BlockView::ToolCall { name, arguments, .. } => seq![name, json_text(arguments)],
        BlockView::ToolResult { output, .. } => if prompt {
            seq![output]
        } else {
            Seq::empty()
        },
        BlockView::ImageBase64 { .. } => Seq::empty(),
    }
}

/// The texts of blocks that count as tokens.
pub open spec fn blocks_texts(blocks: Seq<BlockView>, prompt: bool) -> Seq<Seq<char>>
    decreases blocks.len(),
{
    if blocks.len() == 0 {
        Seq::empty()
    } else {
        blocks_texts(blocks.drop_last(), prompt) + block_texts(blocks.last(), prompt)
    }
}

/// The texts of messages that count as tokens.
pub open spec fn messages_texts(messages: Seq<MessageView>) -> Seq<Seq<char>>
    decreases messages.len(),
{
    if messages.len() == 0 {
        Seq::empty()
    } else {
        messages_texts(messages.drop_last()).push(role_text(messages.last().role))
            + blocks_texts(messages.last().content, true)
    }
}

/// The texts of tools that count as tokens.
pub open spec fn tools_texts(tools: Seq<ToolView>) -> Seq<Seq<char>>
    decreases tools.len(),
{
    if tools.len() == 0 {
        Seq::empty()
    } else {
        tools_texts(tools.drop_last()) + seq![
            tools.last().name,
            tools.last().description,
            json_text(tools.last().input_schema),
        ]
    }
}

/// The texts of a request that count as tokens.
pub open spec fn prompt_texts(req: RequestView) -> Seq<Seq<char>> {
    messages_texts(req.messages) + tools_texts(req.tools)
}

/// How many images stand among blocks.
pub open spec fn blocks_images(blocks: Seq<BlockView>) -> nat
    decreases blocks.len(),
{
    if blocks.len() == 0 {
        0
    } else {
        blocks_images(blocks.drop_last()) + if blocks.last() is ImageBase64 {
            1nat
        } else {
            0nat
        }
    }
}

/// How many images stand in messages.
pub open spec fn messages_images(messages: Seq<MessageView>) -> nat
    decreases messages.len(),
{
    if messages.len() == 0 {
        0
    } else {
        messages_images(messages.drop_last()) + blocks_images(messages.last().content)
    }
}

/// What a prompt comes to.
#[derive(Debug, Clone, Copy, PartialEq, Eq, Structural)]
pub struct PromptEstimate {
    /// Its tokens.
    pub tokens: u64,
    /// Its images.
    pub image_blocks: u64,
}

/// What a request comes to, where each of its texts can be split.
pub open spec fn prompt_estimate(encoder: Encoder, req: RequestView) -> Option<PromptEstimate> {
    match token_sum(encoder, prompt_texts(req)) {
        Some(n) => Some(
            PromptEstimate {
                tokens: capped_count(n),
                image_blocks: capped_count(messages_images(req.messages)),
            },
        ),
        None => None,
    }
}

/// How many tokens an answer has, where each of its texts can be split.
pub open spec fn completion_estimate(encoder: Encoder, content: Seq<BlockView>) -> Option<u64> {
    match token_sum(encoder, blocks_texts(content, false)) {
        Some(n) => Some(capped_count(n)),
        None => None,
    }
}

/// An error that says that a text cannot be split.
pub open spec fn is_untokenizable(e: PluginError) -> bool {
    e matches PluginError::Internal(m) && m@ == untokenizable_message()
}

/// Counts two more texts.
fn count_pair(
    encoder: Encoder,
    total: u64,
    first: &str,
    second: &str,
    Ghost(parts): Ghost<Seq<Seq<char>>>,
) -> (r: Result<u64, PluginError>)
    requires
        is_counted(encoder, parts, total),
    ensures
        r is Ok <==> token_sum(encoder, parts + seq![first@, second@]) is Some,
        r matches Ok(n) ==> is_counted(encoder, parts + seq![first@, second@], n),
        r matches Err(e) ==> is_untokenizable(e),
{
    let ghost one = parts.push(first@);
    assert(one.push(second@) =~= parts + seq![first@, second@]);
    let total: u64 = match count_more(encoder, total, first, Ghost(parts)) {
        Ok(n) => n,
        Err(e) => {
            proof {
                lemma_token_sum_prefix(encoder, one, seq![second@]);
                assert(one + seq![second@] =~= one.push(second@));
            }
            return Err(e);
        },
    };
    count_more(encoder, total, second, Ghost(one))
}

/// Counts a block.
fn count_block(
    encoder: Encoder,
    total: u64,
    block: &MessageContentBlock,
    prompt: bool,
    Ghost(parts): Ghost<Seq<Seq<char>>>,
) -> (r: Result<u64, PluginError>)
    requires
        is_counted(encoder, parts, total),
    ensures
        r is Ok <==> token_sum(encoder, parts + block_texts(block@, prompt)) is Some,
        r matches Ok(n) ==> is_counted(encoder, parts + block_texts(block@, prompt), n),
        r matches Err(e) ==> is_untokenizable(e),
{
    match block {
        MessageContentBlock::Text(text) => {
            assert(parts + block_texts(block@, prompt) =~= parts.push(text@));
            count_more(encoder, total, text.as_str(), Ghost(parts))
        },
        MessageContentBlock::Thinking { reasoning, .. } => {
            assert(parts + block_texts(block@, prompt) =~= parts.push(reasoning@));
            count_more(encoder, total, reasoning.as_str(), Ghost(parts))
        },
        MessageContentBlock::ToolCall { name, arguments, .. } => {
            let text = arguments.to_text();
            count_pair(encoder, total, name.as_str(), text.as_str(), Ghost(parts))
        },
        MessageContentBlock::ToolResult { output, .. } => {
            if prompt {
                assert(parts + block_texts(block@, prompt) =~= parts.push(output@));
                count_more(encoder, total, output.as_str(), Ghost(parts))
            } else {
                assert(parts + block_texts(block@, prompt) =~= parts);
                Ok(total)
            }
        },
        MessageContentBlock::ImageBase64 { .. } => {
            assert(parts + block_texts(block@, prompt) =~= parts);
            Ok(total)
        },
    }
}

/// Blocks up to one more.
proof fn lemma_blocks_step(blocks: Seq<BlockView>, i: int, prompt: bool)
    requires
        0 <= i < blocks.len(),
    ensures
        blocks_texts(blocks.take(i + 1), prompt) == blocks_texts(blocks.take(i), prompt)
            + block_texts(blocks[i], prompt),
        blocks_images(blocks.take(i + 1)) == blocks_images(blocks.take(i)) + if blocks[i] is ImageBase64 {
            1nat
        } else {
            0nat
        },
{
    assert(blocks.take(i + 1).drop_last() =~= blocks.take(i));
}

/// The texts of the first blocks start the texts of all.
proof fn lemma_blocks_prefix(
    encoder: Encoder,
    parts: Seq<Seq<char>>,
    blocks: Seq<BlockView>,
    i: int,
    prompt: bool,
)
    requires
        0 <= i <= blocks.len(),
        token_sum(encoder, parts + blocks_texts(blocks.take(i), prompt)) is None,
    ensures
        token_sum(encoder, parts + blocks_texts(blocks, prompt)) is None,
    decreases blocks.len() - i,
{
    if i == blocks.len() {
        assert(blocks.take(i) =~= blocks);
    } else {
        lemma_blocks_step(blocks, i, prompt);
        lemma_token_sum_prefix(
            encoder,
            parts + blocks_texts(blocks.take(i), prompt),
            block_texts(blocks[i], prompt),
        );
        assert(parts + blocks_texts(blocks.take(i), prompt) + block_texts(blocks[i], prompt)
            =~= parts + blocks_texts(blocks.take(i + 1), prompt));
        lemma_blocks_prefix(encoder, parts, blocks, i + 1, prompt);
    }
}

/// Counts blocks.
fn count_blocks(
    encoder: Encoder,
    total: u64,
    blocks: &Vec<MessageContentBlock>,
    prompt: bool,
    Ghost(parts): Ghost<Seq<Seq<char>>>,
) -> (r: Result<u64, PluginError>)
    requires
        is_counted(encoder, parts, total),
    ensures
        r is Ok <==> token_sum(encoder, parts + blocks_texts(block_views(blocks@), prompt)) is Some,
        r matches Ok(n) ==> is_counted(
            encoder,
            parts + blocks_texts(block_views(blocks@), prompt),
            n,
        ),
        r matches Err(e) ==> is_untokenizable(e),
{
    let ghost all = block_views(blocks@);
    let mut total: u64 = total;
    let mut i: usize = 0;
    assert(parts + blocks_texts(all.take(0), prompt) =~= parts);
    while i < blocks.len()
        invariant
            all == block_views(blocks@),
            i <= blocks@.len(),
            is_counted(encoder, parts + blocks_texts(all.take(i as int), prompt), total),
        decreases blocks@.len() - i,
    {
        let ghost seen = parts + blocks_texts(all.take(i as int), prompt);
        proof {
            lemma_blocks_step(all, i as int, prompt);
            assert(seen + block_texts(all[i as int], prompt) =~= parts + blocks_texts(
                all.take(i + 1),
                prompt,
            ));
        }
        match count_block(encoder, total, &blocks[i], prompt, Ghost(seen)) {
            Ok(n) => {
                total = n;
            },
            Err(e) => {
                proof {
                    lemma_blocks_prefix(encoder, parts, all, i + 1, prompt);
                }
                return Err(e);
            },
        }
        i = i + 1;
    }
    assert(all.take(i as int) =~= all);
    Ok(total)
}

/// Counts the images among blocks.
fn count_images(blocks: &Vec<MessageContentBlock>, total: u64, Ghost(seen): Ghost<nat>) -> (r: u64)
    requires
        total == capped_count(seen),
    ensures
        r == capped_count(seen + blocks_images(block_views(blocks@))),
{
    let ghost all = block_views(blocks@);
    let mut total: u64 = total;
    let mut i: usize = 0;
    assert(all.take(0) =~= Seq::<BlockView>::empty());
    while i < blocks.len()
        invariant
            all == block_views(blocks@),
            i <= blocks@.len(),
            total == capped_count(seen + blocks_images(all.take(i as int))),
        decreases blocks@.len() - i,
    {
        proof {
            lemma_blocks_step(all, i as int, true);
        }
        match &blocks[i] {
            MessageContentBlock::ImageBase64 { .. } => {
                assert(all[i as int] is ImageBase64);
                total = total.saturating_add(1);
            },
            _ => {
                assert(!(all[i as int] is ImageBase64));
            },
        }
        i = i + 1;
    }
    assert(all.take(i as int) =~= all);
    total
}

/// Messages up to one more.
proof fn lemma_messages_step(messages: Seq<MessageView>, i: int)
    requires
        0 <= i < messages.len(),
    ensures
        messages_texts(messages.take(i + 1)) == messages_texts(messages.take(i)).push(
            role_text(messages[i].role),
        ) + blocks_texts(messages[i].content, true),
        messages_images(messages.take(i + 1)) == messages_images(messages.take(i))
            + blocks_images(messages[i].content),
{
    assert(messages.take(i + 1).drop_last() =~= messages.take(i));
}

/// The texts of the first messages start the texts of all.
proof fn lemma_messages_prefix(encoder: Encoder, messages: Seq<MessageView>, i: int)
    requires
        0 <= i <= messages.len(),
        token_sum(encoder, messages_texts(messages.take(i))) is None,
    ensures
        token_sum(encoder, messages_texts(messages)) is None,
    decreases messages.len() - i,
{
    if i == messages.len() {
        assert(messages.take(i) =~= messages);
    } else {
        lemma_messages_step(messages, i);
        let more = seq![role_text(messages[i].role)] + blocks_texts(messages[i].content, true);
        lemma_token_sum_prefix(encoder, messages_texts(messages.take(i)), more);
        assert(messages_texts(messages.take(i)) + more =~= messages_texts(messages.take(i + 1)));
        lemma_messages_prefix(encoder, messages, i + 1);
    }
}

/// Counts a message.
fn count_message(
    encoder: Encoder,
    total: u64,
    message: &UnifiedMessage,
    Ghost(parts): Ghost<Seq<Seq<char>>>,
) -> (r: Result<u64, PluginError>)
    requires
        is_counted(encoder, parts, total),
    ensures
        ({
            let all = parts.push(role_text(message@.role)) + blocks_texts(message@.content, true);
            &&& r is Ok <==> token_sum(encoder, all) is Some
            &&& r matches Ok(n) ==> is_counted(encoder, all, n)
        }),
        r matches Err(e) ==> is_untokenizable(e),
{
    let ghost one = parts.push(role_text(message.role));
    let total: u64 = match count_more(encoder, total, role_prefix(message.role), Ghost(parts)) {
        Ok(n) => n,
        Err(e) => {
            proof {
                lemma_token_sum_prefix(encoder, one, blocks_texts(message@.content, true));
            }
            return Err(e);
        },
    };
    count_blocks(encoder, total, &message.content, true, Ghost(one))
}

/// Counts messages and the images in them.
fn count_messages(encoder: Encoder, messages: &Vec<UnifiedMessage>) -> (r: Result<
    PromptEstimate,
    PluginError,
>)
    ensures
        ({
            let all = message_views(messages@);
            &&& r is Ok <==> token_sum(encoder, messages_texts(all)) is Some
            &&& r matches Ok(n) ==> is_counted(encoder, messages_texts(all), n.tokens)
                && n.image_blocks == capped_count(messages_images(all))
        }),
        r matches Err(e) ==> is_untokenizable(e),
{
    let ghost all = message_views(messages@);
    let mut tokens: u64 = 0;
    let mut image_blocks: u64 = 0;
    let mut i: usize = 0;
    assert(all.take(0) =~= Seq::<MessageView>::empty());
    while i < messages.len()
        invariant
            all == message_views(messages@),
            i <= messages@.len(),
            is_counted(encoder, messages_texts(all.take(i as int)), tokens),
            image_blocks == capped_count(messages_images(all.take(i as int))),
        decreases messages@.len() - i,
    {
        let ghost seen = messages_texts(all.take(i as int));
        proof {
            lemma_messages_step(all, i as int);
        }
        match count_message(encoder, tokens, &messages[i], Ghost(seen)) {
            Ok(n) => {
                tokens = n;
            },
            Err(e) => {
                proof {
                    lemma_messages_prefix(encoder, all, i + 1);
                }
                return Err(e);
            },
        }
        image_blocks = count_images(
            &messages[i].content,
            image_blocks,
            Ghost(messages_images(all.take(i as int))),
        );
        i = i + 1;
    }
    assert(all.take(i as int) =~= all);
    Ok(PromptEstimate { tokens, image_blocks })
}

/// Tools up to one more.
proof fn lemma_tools_step(tools: Seq<ToolView>, i: int)
    requires
        0 <= i < tools.len(),
    ensures
        tools_texts(tools.take(i + 1)) == tools_texts(tools.take(i)) + seq![
            tools[i].name,
            tools[i].description,
            json_text(tools[i].input_schema),
        ],
{
    assert(tools.take(i + 1).drop_last() =~= tools.take(i));
}

/// The texts of the first tools start the texts of all.
proof fn lemma_tools_prefix(
    encoder: Encoder,
    parts: Seq<Seq<char>>,
    tools: Seq<ToolView>,
    i: int,
)
    requires
        0 <= i <= tools.len(),
        token_sum(encoder, parts + tools_texts(tools.take(i))) is None,
    ensures
        token_sum(encoder, parts + tools_texts(tools)) is None,
    decreases tools.len() - i,
{
    if i == tools.len() {
        assert(tools.take(i) =~= tools);
    } else {
        lemma_tools_step(tools, i);
        let more = seq![
            tools[i].name,
            tools[i].description,
            json_text(tools[i].input_schema),
        ];
        lemma_token_sum_prefix(encoder, parts + tools_texts(tools.take(i)), more);
        assert(parts + tools_texts(tools.take(i)) + more =~= parts + tools_texts(
            tools.take(i + 1),
        ));
        lemma_tools_prefix(encoder, parts, tools, i + 1);
    }
}

/// Counts a tool.
fn count_tool(
    encoder: Encoder,
    total: u64,
    tool: &ToolDefinition,
    Ghost(parts): Ghost<Seq<Seq<char>>>,
) -> (r: Result<u64, PluginError>)
    requires
        is_counted(encoder, parts, total),
    ensures
        ({
            let all = parts + seq![tool@.name, tool@.description, json_text(tool@.input_schema)];
            &&& r is Ok <==> token_sum(encoder, all) is Some
            &&& r matches Ok(n) ==> is_counted(encoder, all, n)
        }),
        r matches Err(e) ==> is_untokenizable(e),
{
    let ghost one = parts.push(tool.name@);
    let schema = tool.input_schema.to_text();
    assert(one + seq![tool.description@, schema@] =~= parts + seq![
        tool@.name,
        tool@.description,
        json_text(tool@.input_schema),
    ]);
    let total: u64 = match count_more(encoder, total, tool.name.as_str(), Ghost(parts)) {
        Ok(n) => n,
        Err(e) => {
            proof {
                lemma_token_sum_prefix(encoder, one, seq![tool.description@, schema@]);
            }
            return Err(e);
        },
    };
    count_pair(encoder, total, tool.description.as_str(), schema.as_str(), Ghost(one))
}

/// Counts tools.
fn count_tools(
    encoder: Encoder,
    total: u64,
    tools: &Vec<ToolDefinition>,
    Ghost(parts): Ghost<Seq<Seq<char>>>,
) -> (r: Result<u64, PluginError>)
    requires
        is_counted(encoder, parts, total),
    ensures
        ({
            let all = parts + tools_texts(tool_views(tools@));
            &&& r is Ok <==> token_sum(encoder, all) is Some
            &&& r matches Ok(n) ==> is_counted(encoder, all, n)
        }),
        r matches Err(e) ==> is_untokenizable(e),
{
    let ghost all = tool_views(tools@);
    let mut total: u64 = total;
    let mut i: usize = 0;
    assert(parts + tools_texts(all.take(0)) =~= parts);
    while i < tools.len()
        invariant
            all == tool_views(tools@),
            i <= tools@.len(),
            is_counted(encoder, parts + tools_texts(all.take(i as int)), total),
        decreases tools@.len() - i,
    {
        let ghost seen = parts + tools_texts(all.take(i as int));
        proof {
            lemma_tools_step(all, i as int);
            assert(seen + seq![
                all[i as int].name,
                all[i as int].description,
                json_text(all[i as int].input_schema),
            ] =~= parts + tools_texts(all.take(i + 1)));
        }
        match count_tool(encoder, total, &tools[i], Ghost(seen)) {
            Ok(n) => {
                total = n;
            },
            Err(e) => {
                proof {
                    lemma_tools_prefix(encoder, parts, all, i + 1);
                }
                return Err(e);
            },
        }
        i = i + 1;
    }
    assert(all.take(i as int) =~= all);
    Ok(total)
}

/// What a request comes to.
fn estimate_prompt(encoder: Encoder, req: &UnifiedRequest) -> (r: Result<
    PromptEstimate,
    PluginError,
>)
    ensures
        match prompt_estimate(encoder, req@) {
            Some(estimate) => r == Ok::<_, PluginError>(estimate),
            None => r matches Err(e) && is_untokenizable(e),
        },
{
    let messages = match count_messages(encoder, &req.messages) {
        Ok(estimate) => estimate,
        Err(e) => {
            proof {
                lemma_token_sum_prefix(
                    encoder,
                    messages_texts(req@.messages),
                    tools_texts(req@.tools),
                );
            }
            return Err(e);
        },
    };
    let tokens: u64 = count_tools(
        encoder,
        messages.tokens,
        &req.tools,
        Ghost(messages_texts(req@.messages)),
    )?;
    Ok(PromptEstimate { tokens, image_blocks: messages.image_blocks })
}

/// How many tokens an answer has.
fn estimate_completion(encoder: Encoder, content: &Vec<MessageContentBlock>) -> (r: Result<
    u64,
    PluginError,
>)
    ensures
        match completion_estimate(encoder, block_views(content@)) {
            Some(tokens) => r == Ok::<_, PluginError>(tokens),
            None => r matches Err(e) && is_untokenizable(e),
        },
{
    let ghost none = Seq::<Seq<char>>::empty();
    assert(none + blocks_texts(block_views(content@), false) =~= blocks_texts(
        block_views(content@),
        false,
    ));
    count_blocks(encoder, 0, content, false, Ghost(none))
}

/// The rates of a model in a table.
pub open spec fn table_rates(table: Map<Seq<char>, ModelRates>, model: Seq<char>) -> Option<
    ModelRates,
> {
    if table.dom().contains(model) {
        Some(table[model])
    } else {
        None
    }
}

/// What the resolver says counts; where it says nothing, the table does.
pub open spec fn chosen_rates(
    resolved: Option<ModelRates>,
    table: Map<Seq<char>, ModelRates>,
    model: Seq<char>,
) -> Option<ModelRates> {
    if resolved is Some {
        resolved
    } else {
        table_rates(table, model)
    }
}

/// A resolver may say this of a model.
pub open spec fn is_resolved<R: PricingResolver + ?Sized>(
    resolver: &R,
    model: Seq<char>,
    resolved: Option<ModelRates>,
) -> bool {
    exists|name: &str|
        name@ == model && #[trigger] call_ensures(R::resolve_rates, (resolver, name), resolved)
}

/// Asks a resolver for the rates of a model.
fn ask_resolver<R: PricingResolver + ?Sized>(resolver: &R, model: &str) -> (r: Option<ModelRates>)
    ensures
        is_resolved(resolver, model@, r),
{
    let resolved = resolver.resolve_rates(model);
    assert(call_ensures(R::resolve_rates, (resolver, model), resolved));
    resolved
}

/// The rates of a model, of what the resolver said and what the table holds.
pub fn choose_rates(resolved: Option<ModelRates>, table: &PricingTable, model: &str) -> (r: Option<
    ModelRates,
>)
    ensures
        r == chosen_rates(resolved, table@, model@),
{
    match resolved {
        Some(rates) => Some(rates),
        None => table.get(model),
    }
}

/// The price of a prompt, or nothing where there are no rates.
pub open spec fn prompt_price(rates: Option<ModelRates>, tokens: u64) -> u64 {
    match rates {
        Some(r) => price(tokens, r.input_micros_per_mtok),
        None => 0,
    }
}

/// What a prompt is charged.
pub open spec fn request_charge(
    estimate: PromptEstimate,
    rates: Option<ModelRates>,
) -> RequestCharge {
    RequestCharge {
        entry: CostEntry {
            prompt_tokens: estimate.tokens,
            spent_micros: prompt_price(rates, estimate.tokens),
            ..zero_entry()
        },
        unpriced: rates is None,
        image_blocks: estimate.image_blocks,
    }
}

/// The tokens that the ledger would reach.
pub open spec fn projected_tokens(l: LedgerView, charge: RequestCharge) -> u64 {
    sum64(
        sum64(l.totals.entry.prompt_tokens, l.totals.entry.completion_tokens),
        charge.entry.prompt_tokens,
    )
}

/// The spend that the ledger would reach.
pub open spec fn projected_micros(l: LedgerView, charge: RequestCharge) -> u64 {
    sum64(l.totals.entry.spent_micros, charge.entry.spent_micros)
}

/// A number is above a cap.
pub open spec fn above_cap(n: u64, cap: Option<u64>) -> bool {
    cap matches Some(c) && n > c
}

/// What is said where a cap would be crossed.
pub open spec fn budget_message(
    budget: Seq<char>,
    reached: u64,
    cap: u64,
    unit: Seq<char>,
) -> Seq<char> {
    budget + " budget exceeded: this turn would reach "@ + decimal(reached as nat) + " of "@
        + decimal(cap as nat) + " "@ + unit
}

/// What is said where a cap would be crossed.
fn budget_text(budget: &str, reached: u64, cap: u64, unit: &str) -> (r: String)
    ensures
        r@ == budget_message(budget@, reached, cap, unit@),
{
    budget.to_owned().concat(" budget exceeded: this turn would reach ").concat(
        decimal_text(reached as u128).as_str(),
    ).concat(" of ").concat(decimal_text(cap as u128).as_str()).concat(" ").concat(unit)
}

/// Why a turn is refused before anything is charged.
pub open spec fn turn_refusal(
    c: CostConfig,
    l: LedgerView,
    model: Seq<char>,
    charge: RequestCharge,
) -> Option<Seq<char>> {
    if charge.unpriced && c.on_unpriced_model == UnpricedModelPolicy::Reject {
        Some("no rates for model '"@ + model + "'"@)
    } else if above_cap(projected_tokens(l, charge), c.max_total_tokens) {
        Some(
            budget_message(
                "token"@,
                projected_tokens(l, charge),
                c.max_total_tokens->0,
                "tokens"@,
            ),
        )
    } else if above_cap(projected_micros(l, charge), c.max_total_micros) {
        Some(
            budget_message(
                "currency"@,
                projected_micros(l, charge),
                c.max_total_micros->0,
                "micros"@,
            ),
        )
    } else {
        None
    }
}

/// The reading of a ledger.
pub open spec fn ledger_usage(l: LedgerView, c: CostConfig) -> CostUsage {
    CostUsage {
        prompt_tokens: l.totals.entry.prompt_tokens,
        completion_tokens: l.totals.entry.completion_tokens,
        cache_read_tokens: l.totals.entry.cache_read_tokens,
        cache_write_tokens: l.totals.entry.cache_write_tokens,
        spent_micros: l.totals.entry.spent_micros,
        turns: l.totals.entry.turns,
        unpriced_turns: l.totals.unpriced_turns,
        untokenized_image_blocks: l.totals.untokenized_image_blocks,
        overflow_turns: l.totals.overflow_turns,
        max_total_tokens: c.max_total_tokens,
        max_total_micros: c.max_total_micros,
        near_cap: false,
    }
}

/// A turn whose prompt is charged and whose observers have not been told.
#[derive(Debug, Clone, Copy, PartialEq, Eq, Structural)]
pub struct PendingTurn {
    /// The reading after the charge.
    pub usage: CostUsage,
    /// The charge.
    pub charge: RequestCharge,
}

/// How much of the tightest cap is used.
#[derive(Debug, PartialEq)]
pub struct CapGauge {
    /// Whether the warning fraction is reached.
    pub near_cap: bool,
    /// The used part in percent, rounded.
    pub percent: String,
}

/// The warning that the model gets.
pub open spec fn warning_text(percent: Seq<char>) -> Seq<char> {
    COST_WARNING_MARKER@ + " This client has used "@ + percent
        + "% of its budget cap; wrap up soon."@
}

/// Every observer took note of the reading.
pub open spec fn all_told<O: CostObserver + ?Sized>(
    observers: Seq<Arc<O>>,
    usage: CostUsage,
    n: int,
) -> bool {
    forall|i: int|
        0 <= i < n ==> call_ensures(O::observe, (&*#[trigger] observers[i], &usage), Ok(()))
}

/// What telling observers of a reading may come to: all took note, or all before the one that
/// objected did.
pub open spec fn is_told<O: CostObserver + ?Sized>(
    observers: Seq<Arc<O>>,
    usage: CostUsage,
    r: Result<(), PluginError>,
) -> bool {
    match r {
        Ok(_) => all_told(observers, usage, observers.len() as int),
        Err(e) => exists|i: int|
            0 <= i < observers.len() && all_told(observers, usage, i) && call_ensures(
                O::observe,
                (&*#[trigger] observers[i], &usage),
                Err(e),
            ),
    }
}

/// Tells the observers in turn, up to the first that objects.
pub fn notify<O: CostObserver + ?Sized>(observers: &Vec<Arc<O>>, usage: &CostUsage) -> (r: Result<
    (),
    PluginError,
>)
    ensures
        is_told(observers@, *usage, r),
{
    let mut i: usize = 0;
    while i < observers.len()
        invariant
            i <= observers@.len(),
            all_told(observers@, *usage, i as int),
        decreases observers@.len() - i,
    {
        match observers[i].observe(usage) {
            Ok(u) => {
                assert(u == ());
            },
            Err(e) => {
                assert(call_ensures(O::observe, (&*observers@[i as int], usage), Err(e)));
                return Err(e);
            },
        }
        i = i + 1;
    }
    Ok(())
}

/// What a finished turn adds, and what it takes back of the prompt's price: the part of the
/// prompt that the provider read from its cache is priced at the cache's rates.
pub open spec fn response_delta(
    tokens: u64,
    rates: Option<ModelRates>,
    cache: Option<PromptCacheUsage>,
    charged: u64,
) -> (CostEntry, u64) {
    let base = match rates {
        Some(r) => price(tokens, r.output_micros_per_mtok),
        None => 0,
    };
    let entry = CostEntry { completion_tokens: tokens, turns: 1, ..zero_entry() };
    match cache {
        None => (CostEntry { spent_micros: base, ..entry }, 0),
        Some(c) => {
            let read = if c.read_tokens as u64 <= charged {
                c.read_tokens as u64
            } else {
                charged
            };
            let write = c.write_tokens as u64;
            let cached = CostEntry {
                cache_read_tokens: read,
                cache_write_tokens: write,
                ..entry
            };
            match rates {
                None => (CostEntry { spent_micros: base, ..cached }, 0),
                Some(r) => (
                    CostEntry {
                        spent_micros: sum64(
                            sum64(base, price(read, r.cache_read_micros_per_mtok)),
                            price(write, r.cache_write_micros_per_mtok),
                        ),
                        ..cached
                    },
                    price(read, r.input_micros_per_mtok),
                ),
            }
        },
    }
}

/// What a finished turn adds, and what it takes back.
fn response_charge(
    tokens: u64,
    rates: Option<ModelRates>,
    cache: Option<PromptCacheUsage>,
    charged: u64,
) -> (r: (CostEntry, u64))
    ensures
        r == response_delta(tokens, rates, cache, charged),
{
    let mut delta: CostEntry = CostEntry::default();
    delta.completion_tokens = tokens;
    delta.turns = 1;
    let mut spend: u64 = match rates {
        Some(r) => price_micros(tokens, r.output_micros_per_mtok),
        None => 0,
    };
    let mut refund: u64 = 0;
    if let Some(cache) = cache {
        let reported: u64 = cache.read_tokens as u64;
        let read: u64 = if reported <= charged {
            reported
        } else {
            charged
        };
        let write: u64 = cache.write_tokens as u64;
        delta.cache_read_tokens = read;
        delta.cache_write_tokens = write;
        if let Some(r) = rates {
            refund = price_micros(read, r.input_micros_per_mtok);
            spend = spend.saturating_add(
                price_micros(read, r.cache_read_micros_per_mtok),
            ).saturating_add(price_micros(write, r.cache_write_micros_per_mtok));
        }
    }
    delta.spent_micros = spend;
    (delta, refund)
}

/// The ledger after an answer of so many tokens.
pub open spec fn ledger_response(
    l: LedgerView,
    c: CostConfig,
    res: ResponseView,
    tokens: u64,
    rates: Option<ModelRates>,
) -> LedgerView {
    let max = c.max_tracked_models as nat;
    let (delta, refund) = response_delta(
        tokens,
        rates,
        res.prompt_cache_usage,
        creditable(l, res.model, max),
    );
    ledger_commit(l, res.model, max, delta, refund)
}

/// Counts tokens and their price, and keeps both under their caps.
pub struct CostPlugin {
    config: CostConfig,
    encoder: Encoder,
    ledger: CostLedger,
}

impl View for CostPlugin {
    type V = LedgerView;

    closed spec fn view(&self) -> LedgerView {
        self.ledger@
    }
}

impl CostPlugin {
    /// How the plugin counts and caps.
    pub closed spec fn config(&self) -> CostConfig {
        self.config
    }

    /// The vocabulary that texts are counted in.
    pub closed spec fn encoder(&self) -> Encoder {
        self.encoder
    }

    #[verifier::type_invariant]
    spec fn wf(self) -> bool {
        &&& config_refusal(self.config) is None
        &&& named_encoder(self.config.encoder_name@) == Some(self.encoder)
        &&& within_tracked(self.ledger@, self.config.max_tracked_models as nat)
        &&& sound_ledger(self.ledger@)
    }

    /// A plugin with an empty ledger, or why the configuration cannot be honoured.
    pub fn new(config: CostConfig) -> (r: Result<CostPlugin, PluginError>)
        ensures
            match config_refusal(config) {
                Some(m) => r matches Err(PluginError::Internal(e)) && e@ == m,
                None => match named_encoder(config.encoder_name@) {
                    None => r matches Err(PluginError::Internal(e)) && e@
                        == unknown_encoder_message(config.encoder_name@),
                    Some(encoder) => r matches Ok(plugin) && plugin.config() == config
                        && plugin.encoder() == encoder && plugin@.totals == zero_totals()
                        && plugin@.per_model == Map::<Seq<char>, CostEntry>::empty(),
                },
            },
    {
        config.validate()?;
        let encoder = load_encoder(config.encoder_name.as_str())?;
        let ledger = CostLedger::new();
        assert(tracked_models(ledger@.per_model) =~= Set::<Seq<char>>::empty());
        Ok(CostPlugin { config, encoder, ledger })
    }

    /// The plugin's name.
    pub fn name(&self) -> (r: &'static str)
        ensures
            r@ == NAME@,
    {
        NAME
    }

    /// The reading of the ledger; `near_cap` is left unset.
    pub fn usage(&self) -> (r: CostUsage)
        ensures
            r == ledger_usage(self@, self.config()),
            r.cache_read_tokens <= r.prompt_tokens,
    {
        proof {
            use_type_invariant(self);
        }
        let totals = self.ledger.totals;
        CostUsage {
            prompt_tokens: totals.entry.prompt_tokens,
            completion_tokens: totals.entry.completion_tokens,
            cache_read_tokens: totals.entry.cache_read_tokens,
            cache_write_tokens: totals.entry.cache_write_tokens,
            spent_micros: totals.entry.spent_micros,
            turns: totals.entry.turns,
            unpriced_turns: totals.unpriced_turns,
            untokenized_image_blocks: totals.untokenized_image_blocks,
            overflow_turns: totals.overflow_turns,
            max_total_tokens: self.config.max_total_tokens,
            max_total_micros: self.config.max_total_micros,
            near_cap: false,
        }
    }

    /// From which fraction of the tightest cap on to warn.
    pub fn warn_fraction(&self) -> (r: &Option<Single>)
        ensures
            *r == self.config().warn_fraction,
    {
        &self.config.warn_fraction
    }

    /// What each model has been charged, in the order of the models' names.
    pub fn breakdown(&self) -> (r: Vec<(String, CostEntry)>)
        ensures
            strictly_sorted(Seq::new(r@.len(), |i: int| r@[i].0@)),
            zip_map(
                Seq::new(r@.len(), |i: int| r@[i].0@),
                Seq::new(r@.len(), |i: int| r@[i].1),
            ) == self@.per_model,
            r@.len() <= self.config().max_tracked_models + 1,
            forall|i: int| 0 <= i < r@.len() ==> sound_entry((#[trigger] r@[i]).1),
    {
        proof {
            use_type_invariant(self);
        }
        let entries = self.ledger.per_model.entries();
        let ghost keys = self.ledger.per_model.keys();
        let ghost values = self.ledger.per_model.values();
        let mut r: Vec<(String, CostEntry)> = Vec::new();
        let mut i: usize = 0;
        while i < entries.len()
            invariant
                i <= entries@.len(),
                r@.len() == i,
                forall|k: int|
                    0 <= k < i ==> (#[trigger] r@[k]).0@ == entries@[k].0@ && r@[k].1
                        == entries@[k].1,
            decreases entries@.len() - i,
        {
            r.push((entries[i].0.clone(), entries[i].1));
            i = i + 1;
        }
        assert(Seq::new(r@.len(), |i: int| r@[i].0@) =~= keys);
        assert(Seq::new(r@.len(), |i: int| r@[i].1) =~= values);
        proof {
            let per_model = self.ledger.per_model;
            StringMap::lemma_view_len(per_model);
            assert(per_model@.dom().len() <= self.config.max_tracked_models + 1) by {
                if !per_model@.dom().contains(OVERFLOW_MODEL@) {
                    assert(tracked_models(per_model@) =~= per_model@.dom());
                }
            }
            assert forall|i: int| 0 <= i < r@.len() implies sound_entry((#[trigger] r@[i]).1) by {
                StringMap::lemma_view_at(per_model, i);
                assert(self.ledger@.per_model.dom().contains(keys[i]));
            }
        }
        r
    }

    /// Empties the ledger.
    pub fn reset(&mut self)
        ensures
            final(self)@.totals == zero_totals(),
            final(self)@.per_model == Map::<Seq<char>, CostEntry>::empty(),
            final(self).config() == old(self).config(),
            final(self).encoder() == old(self).encoder(),
    {
        proof {
            use_type_invariant(&*self);
        }
        let ledger = CostLedger::new();
        assert(tracked_models(ledger@.per_model) =~= Set::<Seq<char>>::empty());
        self.ledger = ledger;
    }

    /// How many tokens a request comes to.
    pub fn estimate_request_tokens(&self, req: &UnifiedRequest) -> (r: Result<u64, PluginError>)
        ensures
            match prompt_estimate(self.encoder(), req@) {
                Some(estimate) => r == Ok::<_, PluginError>(estimate.tokens),
                None => r matches Err(e) && is_untokenizable(e),
            },
    {
        let estimate = estimate_prompt(self.encoder, req)?;
        Ok(estimate.tokens)
    }

    /// The rates of a model: those that the resolver gives, or those of the table. What the
    /// resolver gives is its own affair; [`choose_rates`] says what follows from it.
    pub fn rates_for(&self, model: &str) -> (r: Option<ModelRates>)
        ensures
            self.may_rate(model@, r),
    {
        let resolved = match &self.config.pricing_resolver {
            Some(resolver) => ask_resolver::<dyn PricingResolver>(&**resolver, model),
            None => None,
        };
        choose_rates(resolved, &self.config.pricing, model)
    }

    /// Rates that a model may have: the resolver's where it gives some for the model, and else
    /// those of the table.
    pub open spec fn may_rate(&self, model: Seq<char>, rates: Option<ModelRates>) -> bool {
        exists|resolved: Option<ModelRates>|
            match self.config().pricing_resolver {
                Some(resolver) => is_resolved::<dyn PricingResolver>(&*resolver, model, resolved),
                None => resolved is None,
            } && rates == #[trigger] chosen_rates(resolved, self.config().pricing@, model)
    }

    /// The start of a turn at given rates: refused, or charged.
    pub open spec fn turn_begun(
        &self,
        after: &CostPlugin,
        req: RequestView,
        rates: Option<ModelRates>,
        r: Result<PendingTurn, PluginError>,
    ) -> bool {
        &&& after.config() == self.config()
        &&& after.encoder() == self.encoder()
        &&& match prompt_estimate(self.encoder(), req) {
            None => after@ == self@ && (r matches Err(e) && is_untokenizable(e)),
            Some(estimate) => {
                let charge = request_charge(estimate, rates);
                match turn_refusal(self.config(), self@, req.model, charge) {
                    Some(m) => after@ == self@ && (r matches Err(
                        PluginError::HookFailure { plugin, stage, message },
                    ) && plugin@ == NAME@ && stage@ == "request"@ && message@ == m),
                    None => {
                        &&& after@ == ledger_charge(
                            self@,
                            req.model,
                            self.config().max_tracked_models as nat,
                            charge,
                        )
                        &&& r == Ok::<_, PluginError>(
                            PendingTurn { usage: ledger_usage(after@, self.config()), charge },
                        )
                    },
                }
            },
        }
    }

    /// Charges the prompt of a turn at given rates, unless the turn is refused: because there
    /// are no rates and the policy wants some, or because a cap would be crossed.
    pub fn charge_turn(&mut self, req: &UnifiedRequest, rates: Option<ModelRates>) -> (r: Result<
        PendingTurn,
        PluginError,
    >)
        ensures
            old(self).turn_begun(final(self), req@, rates, r),
    {
        proof {
            use_type_invariant(&*self);
        }
        let estimate = estimate_prompt(self.encoder, req)?;
        if rates.is_none() && self.config.on_unpriced_model == UnpricedModelPolicy::Reject {
            return Err(
                PluginError::hook(
                    NAME,
                    "request",
                    "no rates for model '".to_owned().concat(req.model.as_str()).concat("'"),
                ),
            );
        }
        let micros: u64 = match rates {
            Some(r) => price_micros(estimate.tokens, r.input_micros_per_mtok),
            None => 0,
        };
        let mut entry: CostEntry = CostEntry::default();
        entry.prompt_tokens = estimate.tokens;
        entry.spent_micros = micros;
        let charge = RequestCharge {
            entry,
            unpriced: rates.is_none(),
            image_blocks: estimate.image_blocks,
        };
        assert(charge == request_charge(estimate, rates));
        let tokens: u64 = self.ledger.totals.entry.total_tokens().saturating_add(estimate.tokens);
        if let Some(cap) = self.config.max_total_tokens {
            if tokens > cap {
                return Err(
                    PluginError::hook(NAME, "request", budget_text("token", tokens, cap, "tokens")),
                );
            }
        }
        let spend: u64 = self.ledger.totals.entry.spent_micros.saturating_add(micros);
        if let Some(cap) = self.config.max_total_micros {
            if spend > cap {
                return Err(
                    PluginError::hook(
                        NAME,
                        "request",
                        budget_text("currency", spend, cap, "micros"),
                    ),
                );
            }
        }
        let max: usize = self.config.max_tracked_models;
        let mut ledger = CostLedger::new();
        assert(tracked_models(ledger@.per_model) =~= Set::<Seq<char>>::empty());
        std::mem::swap(&mut ledger, &mut self.ledger);
        ledger.charge_request(req.model.as_str(), max, &charge);
        self.ledger = ledger;
        Ok(PendingTurn { usage: self.usage(), charge })
    }

    /// Charges the prompt of a turn at the rates of its model, unless the turn is refused.
    pub fn begin_request(&mut self, req: &UnifiedRequest) -> (r: Result<PendingTurn, PluginError>)
        ensures
            exists|rates: Option<ModelRates>|
                old(self).may_rate(req@.model, rates) && #[trigger] old(self).turn_begun(
                    final(self),
                    req@,
                    rates,
                    r,
                ),
    {
        let rates = self.rates_for(req.model.as_str());
        let r = self.charge_turn(req, rates);
        assert(old(self).turn_begun(self, req@, rates, r));
        r
    }

    /// Warns the model where the warning fraction is reached, unless it has been warned.
    pub fn warn(req: &mut UnifiedRequest, gauge: &CapGauge)
        ensures
            final(req)@ == Self::warned(old(req)@, *gauge),
    {
        if gauge.near_cap && !has_marker(&req.messages, COST_WARNING_MARKER) {
            let text = COST_WARNING_MARKER.to_owned().concat(" This client has used ").concat(
                gauge.percent.as_str(),
            ).concat("% of its budget cap; wrap up soon.");
            let message = UnifiedMessage::system(text);
            req.messages.push(message);
            assert(message_views(req.messages@) =~= message_views(old(req).messages@).push(
                message@,
            ));
        }
    }

    /// A request with the warning that it needs.
    pub open spec fn warned(req: RequestView, gauge: CapGauge) -> RequestView {
        if gauge.near_cap && !holds_marker(req.messages, COST_WARNING_MARKER@) {
            RequestView {
                messages: req.messages.push(
                    text_message(MessageRole::System, warning_text(gauge.percent@)),
                ),
                ..req
            }
        } else {
            req
        }
    }

    /// Ends the start of a turn by what the observers said: where one objected, the turn is
    /// off, and its charge is taken back.
    pub fn settle_turn(
        &mut self,
        model: &str,
        turn: &PendingTurn,
        told: Result<(), PluginError>,
    ) -> (r: Result<(), PluginError>)
        ensures
            r == told,
            final(self).config() == old(self).config(),
            final(self).encoder() == old(self).encoder(),
            final(self)@ == (if told is Ok {
                old(self)@
            } else {
                ledger_refund(
                    old(self)@,
                    model@,
                    old(self).config().max_tracked_models as nat,
                    turn.charge,
                )
            }),
    {
        proof {
            use_type_invariant(&*self);
        }
        if told.is_err() {
            let max: usize = self.config.max_tracked_models;
            let mut ledger = CostLedger::new();
            assert(tracked_models(ledger@.per_model) =~= Set::<Seq<char>>::empty());
            std::mem::swap(&mut ledger, &mut self.ledger);
            ledger.refund_request(model, max, &turn.charge);
            self.ledger = ledger;
        }
        told
    }

    /// Warns the model, tells the observers, and takes the charge back where one objects.
    pub fn finish_request(
        &mut self,
        req: &mut UnifiedRequest,
        turn: &PendingTurn,
        gauge: &CapGauge,
    ) -> (r: Result<(), PluginError>)
        ensures
            final(req)@ == Self::warned(old(req)@, *gauge),
            is_told::<dyn CostObserver>(
                old(self).config().observers@,
                (CostUsage { near_cap: gauge.near_cap, ..turn.usage }),
                r,
            ),
            final(self).config() == old(self).config(),
            final(self).encoder() == old(self).encoder(),
            final(self)@ == (if r is Ok {
                old(self)@
            } else {
                ledger_refund(
                    old(self)@,
                    old(req)@.model,
                    old(self).config().max_tracked_models as nat,
                    turn.charge,
                )
            }),
    {
        CostPlugin::warn(req, gauge);
        let told = self.announce(&turn.usage, gauge.near_cap);
        self.settle_turn(req.model.as_str(), turn, told)
    }

    /// Tells the observers of a reading, up to the first that objects.
    pub fn announce(&self, usage: &CostUsage, near_cap: bool) -> (r: Result<(), PluginError>)
        ensures
            is_told::<dyn CostObserver>(
                self.config().observers@,
                (CostUsage { near_cap, ..*usage }),
                r,
            ),
    {
        let mut marked: CostUsage = *usage;
        marked.near_cap = near_cap;
        notify::<dyn CostObserver>(&self.config.observers, &marked)
    }

    /// The end of a turn at given rates.
    pub open spec fn turn_ended(
        &self,
        after: &CostPlugin,
        res: ResponseView,
        rates: Option<ModelRates>,
        r: Result<CostUsage, PluginError>,
    ) -> bool {
        &&& after.config() == self.config()
        &&& after.encoder() == self.encoder()
        &&& match completion_estimate(self.encoder(), res.content) {
            None => after@ == self@ && (r matches Err(e) && is_untokenizable(e)),
            Some(tokens) => {
                &&& after@ == ledger_response(self@, self.config(), res, tokens, rates)
                &&& r == Ok::<_, PluginError>(ledger_usage(after@, self.config()))
            },
        }
    }

    /// Charges the answer of a turn at given rates.
    pub fn charge_response(&mut self, res: &UnifiedResponse, rates: Option<ModelRates>) -> (r: Result<
        CostUsage,
        PluginError,
    >)
        ensures
            old(self).turn_ended(final(self), res@, rates, r),
    {
        proof {
            use_type_invariant(&*self);
        }
        let tokens: u64 = estimate_completion(self.encoder, &res.content)?;
        let max: usize = self.config.max_tracked_models;
        let charged: u64 = self.ledger.creditable_tokens(res.model.as_str(), max);
        let (delta, refund) = response_charge(tokens, rates, res.prompt_cache_usage, charged);
        let mut ledger = CostLedger::new();
        assert(tracked_models(ledger@.per_model) =~= Set::<Seq<char>>::empty());
        std::mem::swap(&mut ledger, &mut self.ledger);
        ledger.commit_response(res.model.as_str(), max, &delta, refund);
        self.ledger = ledger;
        Ok(self.usage())
    }

    /// Charges the answer of a turn at the rates of its model. The observers are told of the
    /// reading with [`CostPlugin::announce`].
    pub fn on_response_complete(&mut self, res: &UnifiedResponse) -> (r: Result<
        CostUsage,
        PluginError,
    >)
        ensures
            exists|rates: Option<ModelRates>|
                old(self).may_rate(res@.model, rates) && #[trigger] old(self).turn_ended(
                    final(self),
                    res@,
                    rates,
                    r,
                ),
    {
        let rates = self.rates_for(res.model.as_str());
        let r = self.charge_response(res, rates);
        assert(old(self).turn_ended(self, res@, rates, r));
        r
    }
}

/// A cap is never crossed by a turn that goes out: after its charge, the tokens and the spend
/// are at most their caps.
pub proof fn law_caps_are_never_crossed(
    before: &CostPlugin,
    after: &CostPlugin,
    req: RequestView,
    rates: Option<ModelRates>,
    r: Result<PendingTurn, PluginError>,
)
    requires
        before.turn_begun(after, req, rates, r),
        r is Ok,
    ensures
        before.config().max_total_tokens matches Some(cap) ==> sum64(
            after@.totals.entry.prompt_tokens,
            after@.totals.entry.completion_tokens,
        ) <= cap,
        before.config().max_total_micros matches Some(cap) ==> after@.totals.entry.spent_micros
            <= cap,
{
}

/// A turn that is refused at its start is charged nothing.
pub proof fn law_refused_turns_are_free(
    before: &CostPlugin,
    after: &CostPlugin,
    req: RequestView,
    rates: Option<ModelRates>,
    r: Result<PendingTurn, PluginError>,
)
    requires
        before.turn_begun(after, req, rates, r),
        r is Err,
    ensures
        after@ == before@,
{
}

/// No field of `a` reaches the largest count when `b` is added.
pub open spec fn sums_exactly(a: CostEntry, b: CostEntry) -> bool {
    &&& a.prompt_tokens + b.prompt_tokens <= u64::MAX
    &&& a.completion_tokens + b.completion_tokens <= u64::MAX
    &&& a.cache_read_tokens + b.cache_read_tokens <= u64::MAX
    &&& a.cache_write_tokens + b.cache_write_tokens <= u64::MAX
    &&& a.spent_micros + b.spent_micros <= u64::MAX
    &&& a.turns + b.turns <= u64::MAX
}

/// Taking a charge back leaves the ledger as it was before the charge, where no count reached
/// its limit and the model's bucket, if there was one, held something.
pub proof fn law_refund_undoes_charge(
    l: LedgerView,
    model: Seq<char>,
    max_tracked: nat,
    charge: RequestCharge,
)
    requires
        within_tracked(l, max_tracked),
        sound_ledger(l),
        sums_exactly(l.totals.entry, charge.entry),
        l.totals.unpriced_turns < u64::MAX,
        l.totals.untokenized_image_blocks + charge.image_blocks <= u64::MAX,
        ({
            let key = bucket_key(l.per_model, model, max_tracked).0;
            &&& sums_exactly(bucket(l.per_model, key), charge.entry)
            &&& l.per_model.dom().contains(key) ==> l.per_model[key] != zero_entry()
        }),
    ensures
        ledger_refund(ledger_charge(l, model, max_tracked, charge), model, max_tracked, charge)
            == l,
{
    let key = bucket_key(l.per_model, model, max_tracked).0;
    let charged = ledger_charge(l, model, max_tracked, charge);
    let back = ledger_refund(charged, model, max_tracked, charge);
    if key == OVERFLOW_MODEL@ && key != model {
        assert(tracked_models(charged.per_model) =~= tracked_models(l.per_model));
    }
    assert(bucket_key(charged.per_model, model, max_tracked).0 == key);
    assert(back.per_model =~= l.per_model);
    assert(back =~= l);
}

/// Whatever is charged, taken back or finished, at most the tracked models and the overflow
/// bucket are in the ledger.
pub proof fn law_tracked_models_are_bounded(
    l: LedgerView,
    model: Seq<char>,
    max_tracked: nat,
    charge: RequestCharge,
    delta: CostEntry,
    refund: u64,
)
    requires
        within_tracked(l, max_tracked),
    ensures
        l.per_model.dom().len() <= max_tracked + 1,
        within_tracked(ledger_charge(l, model, max_tracked, charge), max_tracked),
        within_tracked(ledger_refund(l, model, max_tracked, charge), max_tracked),
        within_tracked(ledger_commit(l, model, max_tracked, delta, refund), max_tracked),
{
    let key = bucket_key(l.per_model, model, max_tracked).0;
    lemma_bucket_tracked(
        l.per_model,
        model,
        max_tracked,
        entry_sum(bucket(l.per_model, key), charge.entry),
    );
    lemma_bucket_tracked(
        l.per_model,
        model,
        max_tracked,
        entry_commit(bucket(l.per_model, key), delta, refund),
    );
    let left = entry_difference(bucket(l.per_model, key), charge.entry);
    assert(tracked_models(l.per_model.remove(key)).subset_of(tracked_models(l.per_model)));
    vstd::set_lib::lemma_len_subset(
        tracked_models(l.per_model.remove(key)),
        tracked_models(l.per_model),
    );
    if l.per_model.dom().contains(key) {
        assert(l.per_model.insert(key, left).dom() =~= l.per_model.dom());
    }
}

/// The model is warned once: a request that holds the warning gets no second one.
pub proof fn law_warning_is_given_once(req: RequestView, first: CapGauge, second: CapGauge)
    requires
        first.near_cap,
    ensures
        CostPlugin::warned(CostPlugin::warned(req, first), second) == CostPlugin::warned(
            req,
            first,
        ),
{
    let after = CostPlugin::warned(req, first);
    if !holds_marker(req.messages, COST_WARNING_MARKER@) {
        let text = warning_text(first.percent@);
        assert(has_prefix(text.skip(0), COST_WARNING_MARKER@)) by {
            assert(text.skip(0) =~= text);
            assert(text.take(COST_WARNING_MARKER@.len() as int) =~= COST_WARNING_MARKER@);
        }
        assert(has_substring(text, COST_WARNING_MARKER@));
        let i = req.messages.len() as int;
        assert(is_marked(after.messages[i].content[0], COST_WARNING_MARKER@));
    }
}

/// More tokens never cost less, and a price times a million is at most the exact price.
pub proof fn law_prices_round_down(tokens: u64, more: u64, rate: u64)
    requires
        tokens <= more,
    ensures
        price(tokens, rate) <= price(more, rate),
        price(tokens, rate) * 1_000_000 <= tokens * rate,
{
    assert(tokens * rate <= more * rate) by (nonlinear_arith)
        requires
            tokens <= more,
            0 <= rate,
    ;
    assert(0 <= tokens * rate) by (nonlinear_arith)
        requires
            0 <= tokens,
            0 <= rate,
    ;
    let a = tokens as int * rate as int;
    let b = more as int * rate as int;
    assert(a / 1_000_000 <= b / 1_000_000);
}

/// The cache reads stay among the prompt tokens, in all and of each model, whatever is charged,
/// taken back or answered.
pub proof fn law_cache_reads_are_prompt_tokens(
    l: LedgerView,
    c: CostConfig,
    model: Seq<char>,
    charge: RequestCharge,
    res: ResponseView,
    tokens: u64,
    rates: Option<ModelRates>,
)
    requires
        sound_ledger(l),
        sound_entry(charge.entry),
    ensures
        sound_ledger(ledger_charge(l, model, c.max_tracked_models as nat, charge)),
        sound_ledger(ledger_refund(l, model, c.max_tracked_models as nat, charge)),
        sound_ledger(ledger_response(l, c, res, tokens, rates)),
{
}

/// A count of the ledger that the models' buckets add up to.
pub enum Counter {
    /// Prompt tokens.
    Prompt,
    /// Generated tokens.
    Completion,
    /// Finished turns.
    Turns,
}

/// What an entry counts.
pub open spec fn count_of(e: CostEntry, c: Counter) -> nat {
    match c {
        Counter::Prompt => e.prompt_tokens as nat,
        Counter::Completion => e.completion_tokens as nat,
        Counter::Turns => e.turns as nat,
    }
}

/// What the buckets of all models count together.
pub open spec fn bucket_sum(per_model: Map<Seq<char>, CostEntry>, c: Counter) -> nat
    decreases per_model.dom().len(),
    when per_model.dom().finite()
{
    if per_model.dom().len() == 0 {
        0
    } else {
        let k = per_model.dom().choose();
        count_of(per_model[k], c) + bucket_sum(per_model.remove(k), c)
    }
}

/// What entries count together.
pub open spec fn entries_sum(v: Seq<CostEntry>, c: Counter) -> nat
    decreases v.len(),
{
    if v.len() == 0 {
        0
    } else {
        entries_sum(v.drop_last(), c) + count_of(v.last(), c)
    }
}

/// Each bucket counts once.
proof fn lemma_bucket_counts(per_model: Map<Seq<char>, CostEntry>, k: Seq<char>, c: Counter)
    requires
        per_model.dom().finite(),
        per_model.dom().contains(k),
    ensures
        bucket_sum(per_model, c) == count_of(per_model[k], c) + bucket_sum(
            per_model.remove(k),
            c,
        ),
    decreases per_model.dom().len(),
{
    let x = per_model.dom().choose();
    assert(per_model.dom().len() > 0);
    if x != k {
        lemma_bucket_counts(per_model.remove(x), k, c);
        lemma_bucket_counts(per_model.remove(k), x, c);
        assert(per_model.remove(x).remove(k) =~= per_model.remove(k).remove(x));
    }
}

/// A bucket that is put in place of another changes the sum by their difference.
proof fn lemma_bucket_put(
    per_model: Map<Seq<char>, CostEntry>,
    k: Seq<char>,
    e: CostEntry,
    c: Counter,
)
    requires
        per_model.dom().finite(),
    ensures
        bucket_sum(per_model.insert(k, e), c) + count_of(bucket(per_model, k), c) == bucket_sum(
            per_model,
            c,
        ) + count_of(e, c),
        count_of(bucket(per_model, k), c) <= bucket_sum(per_model, c),
{
    let after = per_model.insert(k, e);
    lemma_bucket_counts(after, k, c);
    if per_model.dom().contains(k) {
        lemma_bucket_counts(per_model, k, c);
        assert(after.remove(k) =~= per_model.remove(k));
    } else {
        assert(after.remove(k) =~= per_model);
    }
}

/// A turn that goes out, or one that comes back.
pub enum LedgerStep {
    /// A prompt is charged.
    Charge { model: Seq<char>, charge: RequestCharge },
    /// An answer is charged.
    Answer { model: Seq<char>, delta: CostEntry, refund: u64 },
}

/// The ledger after steps, from an empty one.
pub open spec fn after_steps(max_tracked: nat, steps: Seq<LedgerStep>) -> LedgerView
    decreases steps.len(),
{
    if steps.len() == 0 {
        LedgerView { totals: zero_totals(), per_model: Map::empty() }
    } else {
        let l = after_steps(max_tracked, steps.drop_last());
        match steps.last() {
            LedgerStep::Charge { model, charge } => ledger_charge(l, model, max_tracked, charge),
            LedgerStep::Answer { model, delta, refund } => ledger_commit(
                l,
                model,
                max_tracked,
                delta,
                refund,
            ),
        }
    }
}

/// Folding models together loses nothing: however many turns go out and come back, the buckets
/// add up to the totals, unless a total has reached the largest count.
pub proof fn law_breakdown_adds_up(max_tracked: nat, steps: Seq<LedgerStep>, c: Counter)
    ensures
        ({
            let l = after_steps(max_tracked, steps);
            &&& within_tracked(l, max_tracked)
            &&& count_of(l.totals.entry, c) < u64::MAX ==> bucket_sum(l.per_model, c) == count_of(
                l.totals.entry,
                c,
            )
        }),
    decreases steps.len(),
{
    if steps.len() == 0 {
        assert(tracked_models(Map::<Seq<char>, CostEntry>::empty()) =~= Set::<Seq<char>>::empty());
    } else {
        law_breakdown_adds_up(max_tracked, steps.drop_last(), c);
        let l = after_steps(max_tracked, steps.drop_last());
        match steps.last() {
            LedgerStep::Charge { model, charge } => {
                let key = bucket_key(l.per_model, model, max_tracked).0;
                let entry = entry_sum(bucket(l.per_model, key), charge.entry);
                lemma_bucket_tracked(l.per_model, model, max_tracked, entry);
                lemma_bucket_put(l.per_model, key, entry, c);
            },
            LedgerStep::Answer { model, delta, refund } => {
                let key = bucket_key(l.per_model, model, max_tracked).0;
                let entry = entry_commit(bucket(l.per_model, key), delta, refund);
                lemma_bucket_tracked(l.per_model, model, max_tracked, entry);
                lemma_bucket_put(l.per_model, key, entry, c);
            },
        }
    }
}

/// The breakdown, listed by model, counts what the buckets count.
pub proof fn law_listed_entries_add_up(keys: Seq<Seq<char>>, values: Seq<CostEntry>, c: Counter)
    requires
        strictly_sorted(keys),
        keys.len() == values.len(),
    ensures
        zip_map(keys, values).dom().finite(),
        entries_sum(values, c) == bucket_sum(zip_map(keys, values), c),
    decreases keys.len(),
{
    let all = zip_map(keys, values);
    if keys.len() == 0 {
        assert(all.dom() =~= Set::<Seq<char>>::empty());
    } else {
        let n = keys.len() - 1;
        let fewer = keys.drop_last();
        assert forall|i: int, j: int| 0 <= i < j < fewer.len() implies text_less(
            #[trigger] fewer[i],
            #[trigger] fewer[j],
        ) by {
            assert(text_less(keys[i], keys[j]));
        }
        law_listed_entries_add_up(fewer, values.drop_last(), c);
        let rest = zip_map(fewer, values.drop_last());
        let last = keys[n];
        assert(keys.contains(last));
        assert(!fewer.contains(last)) by {
            if fewer.contains(last) {
                let i = choose|i: int| 0 <= i < fewer.len() && fewer[i] == last;
                lemma_strictly_sorted_distinct(keys, i, n);
            }
        }
        assert(all.dom() =~= rest.dom().insert(last)) by {
            assert forall|k: Seq<char>| all.dom().contains(k) <==> rest.dom().insert(
                last,
            ).contains(k) by {
                if keys.contains(k) {
                    let i = choose|i: int| 0 <= i < keys.len() && keys[i] == k;
                    if i < n {
                        assert(fewer[i] == k);
                    }
                }
                if fewer.contains(k) {
                    let i = choose|i: int| 0 <= i < fewer.len() && fewer[i] == k;
                    assert(keys[i] == k);
                }
            }
        }
        assert forall|k: Seq<char>| rest.dom().contains(k) implies all[k] == rest[k] by {
            let i = fewer.index_of(k);
            assert(fewer[i] == k && keys[i] == k);
            lemma_strictly_sorted_distinct(keys, i, keys.index_of(k));
        }
        assert(all[last] == values[n]) by {
            lemma_strictly_sorted_distinct(keys, n, keys.index_of(last));
        }
        lemma_bucket_counts(all, last, c);
        assert(all.remove(last) =~= rest);
    }
}

} // verus!
