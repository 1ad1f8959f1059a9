//! Approval by people.
//!
//! A tool call that may do damage is put before an approver. What needs approval is decided by
//! [`HitlPlugin::review`], the approver is asked with [`HitlPlugin::ask`], and the ruling is
//! recorded and carried out by [`HitlPlugin::rule`]. A ruling that cannot be recorded lets
//! nothing through.

use crate::error::PluginError;
use crate::json::{json_text, Json, JsonView};
use crate::text::{char_vec, decimal, decimal_text};
use crate::types::{copy_optional, optional_text, BlockView, MessageContentBlock};
use std::sync::Arc;
use vstd::prelude::*;
use vstd::string::*;

verus! {

/// The plugin's name.
pub const NAME: &'static str = "hitl-approvals";

/// What a denied call gets for a result.
pub const DENIAL: &'static str = "denied by approver";

/// How much damage a tool call may do.
#[derive(Debug, Clone, Copy, PartialEq, Eq, Structural)]
pub enum Risk {
    /// None that needs approval.
    Low,
    /// So much that it needs approval.
    High,
}

impl Risk {
    /// Why approval is needed.
    pub fn reason(self) -> (r: Option<&'static str>)
        ensures
            match self {
                Risk::Low => r is None,
                Risk::High => r matches Some(t) && t@
                    == "high-risk operation: requires interactive approval before execution"@,
            },
    {
        match self {
            Risk::Low => None,
            Risk::High => Some(
                "high-risk operation: requires interactive approval before execution",
            ),
        }
    }
}

/// The code of a character, of an ASCII capital that of the small letter.
pub open spec fn lower_code(c: char) -> u32 {
    if 'A' <= c <= 'Z' {
        (c as u32 + 32) as u32
    } else {
        c as u32
    }
}

/// `word` stands at `i` in `s`, where capitals count as small letters.
pub open spec fn word_at(s: Seq<char>, word: Seq<char>, i: int) -> bool {
    &&& 0 <= i
    &&& i + word.len() <= s.len()
    &&& forall|k: int| 0 <= k < word.len() ==> lower_code(s[i + k]) == (#[trigger] word[k]) as u32
}

/// `word` stands somewhere in `s`, where capitals count as small letters.
pub open spec fn has_word(s: Seq<char>, word: Seq<char>) -> bool {
    exists|i: int| #[trigger] word_at(s, word, i)
}

/// One of the words stands somewhere in `s`.
pub open spec fn has_any(s: Seq<char>, words: Seq<Seq<char>>) -> bool {
    exists|w: int| 0 <= w < words.len() && has_word(s, #[trigger] words[w])
}

/// The code of a character, of an ASCII capital that of the small letter.
fn lower(c: char) -> (r: u32)
    ensures
        r == lower_code(c),
{
    let code: u32 = c as u32;
    if 'A' <= c && c <= 'Z' {
        code + 32
    } else {
        code
    }
}

/// Whether `word` stands somewhere in `s`, where capitals count as small letters.
fn contains_word(s: &Vec<char>, word: &str) -> (r: bool)
    ensures
        r == has_word(s@, word@),
{
    let letters = char_vec(word);
    let n: usize = s.len();
    let m: usize = letters.len();
    if m > n {
        return false;
    }
    let mut i: usize = 0;
    while i <= n - m
        invariant
            n == s@.len(),
            m == letters@.len() <= n,
            letters@ == word@,
            i <= n - m + 1,
            forall|k: int| 0 <= k < i ==> !#[trigger] word_at(s@, word@, k),
        decreases n - m + 1 - i,
    {
        let mut k: usize = 0;
        let mut same = true;
        while k < m && same
            invariant
                n == s@.len(),
                m == letters@.len(),
                letters@ == word@,
                i + m <= n,
                k <= m,
                same ==> forall|j: int|
                    0 <= j < k ==> lower_code(s@[i + j]) == (#[trigger] word@[j]) as u32,
                !same ==> exists|j: int|
                    0 <= j < m && lower_code(s@[i + j]) != (#[trigger] word@[j]) as u32,
            decreases m - k + if same {
                1int
            } else {
                0int
            },
        {
            if lower(s[i + k]) != letters[k] as u32 {
                assert(lower_code(s@[i + k as int]) != word@[k as int] as u32);
                same = false;
            } else {
                k = k + 1;
            }
        }
        if same {
            assert(word_at(s@, word@, i as int));
            return true;
        }
        assert(!word_at(s@, word@, i as int)) by {
            let j = choose|j: int|
                0 <= j < m && lower_code(s@[i + j]) != (#[trigger] word@[j]) as u32;
            assert(word@[j] == letters@[j]);
        }
        i = i + 1;
    }
    assert forall|k: int| !#[trigger] word_at(s@, word@, k) by {
        if word_at(s@, word@, k) {
            assert(k < i);
        }
    }
    false
}

/// Words that a tool that runs commands has in its name.
pub open spec fn shell_words() -> Seq<Seq<char>> {
    seq!["shell"@, "exec"@, "bash"@, "run_command"@, "terminal"@]
}

/// Words that a tool that changes files has in its name.
pub open spec fn file_words() -> Seq<Seq<char>> {
    seq![
        "write"@,
        "edit"@,
        "delete"@,
        "remove"@,
        "rm_"@,
        "mv_"@,
        "move"@,
        "create_file"@,
    ]
}

/// Words that say outright that a tool changes things elsewhere.
pub open spec fn api_words() -> Seq<Seq<char>> {
    seq!["http_post"@, "http_put"@, "http_delete"@, "api_write"@]
}

/// Words that a tool that changes things elsewhere starts with, or that other words end in.
pub open spec fn verb_words() -> Seq<Seq<char>> {
    seq!["post_"@, "put_"@, "delete_"@]
}

/// The views of words.
pub open spec fn word_views(words: Seq<&'static str>) -> Seq<Seq<char>> {
    Seq::new(words.len(), |i: int| words[i]@)
}

/// Whether one of the words stands somewhere in `s`.
fn contains_any(s: &Vec<char>, words: &Vec<&'static str>) -> (r: bool)
    ensures
        r == has_any(s@, word_views(words@)),
{
    let mut w: usize = 0;
    while w < words.len()
        invariant
            w <= words@.len(),
            forall|k: int| 0 <= k < w ==> !has_word(s@, #[trigger] word_views(words@)[k]),
        decreases words@.len() - w,
    {
        if contains_word(s, words[w]) {
            assert(has_word(s@, word_views(words@)[w as int]));
            return true;
        }
        w = w + 1;
    }
    false
}

/// What kind of damage a tool may do, by its name. Words that name a call to elsewhere decide
/// before the words for files that they hold, such as `write` and `delete`; a bare verb such as
/// `put_` decides only where none of those stands in the name.
pub open spec fn action_of(name: Seq<char>) -> Option<Seq<char>> {
    if has_any(name, shell_words()) {
        Some("shell_exec"@)
    } else if has_any(name, api_words()) {
        Some("external_api_write"@)
    } else if has_any(name, file_words()) {
        Some("file_write"@)
    } else if has_any(name, verb_words()) {
        Some("external_api_write"@)
    } else {
        None
    }
}

/// What kind of damage a tool may do, by its name.
pub fn classify_action(name: &str) -> (r: Option<&'static str>)
    ensures
        match action_of(name@) {
            Some(action) => r matches Some(t) && t@ == action,
            None => r is None,
        },
{
    let letters = char_vec(name);
    let shell: Vec<&'static str> = vec!["shell", "exec", "bash", "run_command", "terminal"];
    assert(word_views(shell@) =~= shell_words());
    if contains_any(&letters, &shell) {
        return Some("shell_exec");
    }
    let api: Vec<&'static str> = vec!["http_post", "http_put", "http_delete", "api_write"];
    assert(word_views(api@) =~= api_words());
    if contains_any(&letters, &api) {
        return Some("external_api_write");
    }
    let file: Vec<&'static str> = vec![
        "write",
        "edit",
        "delete",
        "remove",
        "rm_",
        "mv_",
        "move",
        "create_file",
    ];
    assert(word_views(file@) =~= file_words());
    if contains_any(&letters, &file) {
        return Some("file_write");
    }
    let verbs: Vec<&'static str> = vec!["post_", "put_", "delete_"];
    assert(word_views(verbs@) =~= verb_words());
    if contains_any(&letters, &verbs) {
        return Some("external_api_write");
    }
    None
}

/// A tool may do damage: one of the words stands in its name.
pub open spec fn is_high(name: Seq<char>) -> bool {
    has_any(name, shell_words() + file_words() + api_words() + verb_words())
}

/// One of the words of two lists is one of the words of one.
proof fn lemma_any_of_both(s: Seq<char>, a: Seq<Seq<char>>, b: Seq<Seq<char>>)
    ensures
        has_any(s, a + b) == (has_any(s, a) || has_any(s, b)),
{
    if has_any(s, a) {
        let w = choose|w: int| 0 <= w < a.len() && has_word(s, #[trigger] a[w]);
        assert((a + b)[w] == a[w]);
    }
    if has_any(s, b) {
        let w = choose|w: int| 0 <= w < b.len() && has_word(s, #[trigger] b[w]);
        assert((a + b)[w + a.len()] == b[w]);
    }
    if has_any(s, a + b) {
        let w = choose|w: int| 0 <= w < (a + b).len() && has_word(s, #[trigger] (a + b)[w]);
        if w < a.len() {
            assert(a[w] == (a + b)[w]);
        } else {
            assert(b[w - a.len()] == (a + b)[w]);
        }
    }
}

/// A tool may do damage exactly where it is known of what kind.
pub proof fn law_risk_has_an_action(name: Seq<char>)
    ensures
        is_high(name) <==> action_of(name) is Some,
{
    lemma_any_of_both(name, shell_words(), file_words());
    lemma_any_of_both(name, shell_words() + file_words(), api_words());
    lemma_any_of_both(name, shell_words() + file_words() + api_words(), verb_words());
}

/// How much damage a tool call may do, by the tool's name.
pub fn classify_tool_call(name: &str) -> (r: Risk)
    ensures
        r == (if is_high(name@) {
            Risk::High
        } else {
            Risk::Low
        }),
{
    proof {
        law_risk_has_an_action(name@);
    }
    match classify_action(name) {
        Some(_) => Risk::High,
        None => Risk::Low,
    }
}

/// What an approver is asked.
#[derive(Debug, PartialEq)]
pub struct ApprovalRequest {
    /// The call.
    pub tool_call_id: String,
    /// What kind of damage it may do.
    pub action: String,
    /// The tool and its arguments.
    pub detail: String,
}

/// What an [`ApprovalRequest`] is.
#[verifier::ext_equal]
pub struct RequestText {
    pub tool_call_id: Seq<char>,
    pub action: Seq<char>,
    pub detail: Seq<char>,
}

impl View for ApprovalRequest {
    type V = RequestText;

    open spec fn view(&self) -> RequestText {
        RequestText {
            tool_call_id: self.tool_call_id@,
            action: self.action@,
            detail: self.detail@,
        }
    }
}

impl Clone for ApprovalRequest {
    fn clone(&self) -> (r: ApprovalRequest)
        ensures
            r@ == self@,
    {
        ApprovalRequest {
            tool_call_id: self.tool_call_id.clone(),
            action: self.action.clone(),
            detail: self.detail.clone(),
        }
    }
}

/// An approver's ruling.
#[derive(Debug, Clone, Copy, PartialEq, Eq, Structural)]
pub enum ApprovalDecision {
    /// The call may go on.
    Approved,
    /// It may not.
    Denied,
}

/// The way to an approver. Where there is no approver to be had, the ruling is a denial.
pub trait ApprovalChannel: Send + Sync {
    /// The ruling on a request.
    fn request_approval(&self, req: &ApprovalRequest) -> ApprovalDecision;

    /// Who ruled last, where that is known.
    fn approver_id(&self) -> Option<String> {
        None
    }
}

/// A ruling, for the record.
#[derive(Debug, PartialEq)]
pub struct HitlAuditEntry {
    /// What kind of damage the call might have done.
    pub action_requested: String,
    /// Who ruled, where that is known.
    pub approver_id: Option<String>,
    /// `"approved"` or `"denied"`.
    pub status: String,
    /// When, in UNIX milliseconds.
    pub timestamp_ms: u64,
}

/// What a [`HitlAuditEntry`] is.
#[verifier::ext_equal]
pub struct AuditView {
    pub action: Seq<char>,
    pub approver: Option<Seq<char>>,
    pub status: Seq<char>,
    pub timestamp_ms: u64,
}

impl View for HitlAuditEntry {
    type V = AuditView;

    open spec fn view(&self) -> AuditView {
        AuditView {
            action: self.action_requested@,
            approver: optional_text(self.approver_id),
            status: self.status@,
            timestamp_ms: self.timestamp_ms,
        }
    }
}

impl Clone for HitlAuditEntry {
    fn clone(&self) -> (r: HitlAuditEntry)
        ensures
            r@ == self@,
    {
        HitlAuditEntry {
            action_requested: self.action_requested.clone(),
            approver_id: copy_optional(&self.approver_id),
            status: self.status.clone(),
            timestamp_ms: self.timestamp_ms,
        }
    }
}

/// What entries are.
pub open spec fn audit_views(v: Seq<HitlAuditEntry>) -> Seq<AuditView> {
    Seq::new(v.len(), |i: int| v[i]@)
}

/// How much of the arguments an approver sees.
pub const DETAIL_LIMIT: usize = 200;

/// The JSON text of a value, cut off where it is too long.
pub open spec fn cut_json(value: JsonView) -> Seq<char> {
    let text = json_text(value);
    if text.len() <= DETAIL_LIMIT {
        text
    } else {
        text.take(DETAIL_LIMIT as int) + "\u{2026}"@
    }
}

/// The JSON text of a value, cut off where it is too long.
fn truncated_json(value: &Json) -> (r: String)
    ensures
        r@ == cut_json(value@),
{
    let text = value.to_text();
    if text.as_str().unicode_len() <= DETAIL_LIMIT {
        return text;
    }
    let head = text.as_str().substring_char(0, DETAIL_LIMIT);
    assert(head@ =~= text@.take(DETAIL_LIMIT as int));
    head.to_owned().concat("\u{2026}")
}

/// What an approver is asked about a block, where the block needs approval.
pub open spec fn reviewed(block: BlockView) -> Option<RequestText> {
    match block {
        BlockView::ToolCall { id, name, arguments } => match action_of(name) {
            Some(action) => Some(
                RequestText {
                    tool_call_id: id,
                    action,
                    detail: name + " "@ + cut_json(arguments),
                },
            ),
            None => None,
        },
        _ => None,
    }
}

/// How a ruling is recorded.
pub open spec fn status_of(decision: ApprovalDecision) -> Seq<char> {
    match decision {
        ApprovalDecision::Approved => "approved"@,
        ApprovalDecision::Denied => "denied"@,
    }
}

/// A ruling on a request: what it was, who gave it, and when.
pub struct Ruling {
    pub request: RequestText,
    pub decision: ApprovalDecision,
    pub approver: Option<Seq<char>>,
    pub now_ms: u64,
}

/// The record and the block after a ruling, and whether it could be recorded.
pub open spec fn after_ruling(
    log: Seq<AuditView>,
    limit: nat,
    block: BlockView,
    r: Ruling,
) -> (Seq<AuditView>, BlockView, bool) {
    if log.len() >= limit {
        (log, block, false)
    } else {
        (
            log.push(
                AuditView {
                    action: r.request.action,
                    approver: r.approver,
                    status: status_of(r.decision),
                    timestamp_ms: r.now_ms,
                },
            ),
            match r.decision {
                ApprovalDecision::Approved => block,
                ApprovalDecision::Denied => BlockView::ToolResult {
                    tool_call_id: r.request.tool_call_id,
                    output: DENIAL@,
                },
            },
            true,
        )
    }
}

/// What is said where the record is full.
pub open spec fn full_message(len: nat, max: nat) -> Seq<char> {
    "hitl audit log full: "@ + decimal(len) + " of "@ + decimal(max)
        + " entries stored; drain it with audit_log() or raise max_audit_entries"@
}

/// What an approver may answer: a ruling on the request, and who gave it.
pub open spec fn is_ruling<C: ApprovalChannel + ?Sized>(
    channel: &C,
    req: &ApprovalRequest,
    r: (ApprovalDecision, Option<String>),
) -> bool {
    call_ensures(C::request_approval, (channel, req), r.0) && call_ensures(
        C::approver_id,
        (channel,),
        r.1,
    )
}

/// Asks an approver: the ruling, and who gave it.
pub fn ask_channel<C: ApprovalChannel + ?Sized>(channel: &C, req: &ApprovalRequest) -> (r: (
    ApprovalDecision,
    Option<String>,
))
    ensures
        is_ruling(channel, req, r),
{
    let decision = channel.request_approval(req);
    (decision, channel.approver_id())
}

/// Puts tool calls that may do damage before an approver.
pub struct HitlPlugin {
    channel: Option<Arc<dyn ApprovalChannel>>,
    audit: Vec<HitlAuditEntry>,
    max_audit_entries: usize,
}

impl View for HitlPlugin {
    type V = Seq<AuditView>;

    closed spec fn view(&self) -> Seq<AuditView> {
        audit_views(self.audit@)
    }
}

impl HitlPlugin {
    /// How many rulings the record holds where nothing else is said.
    pub const DEFAULT_MAX_AUDIT_ENTRIES: usize = 65_536;

    /// How many rulings the record holds.
    pub closed spec fn limit(&self) -> usize {
        self.max_audit_entries
    }

    /// The approver.
    pub closed spec fn channel(&self) -> Option<Arc<dyn ApprovalChannel>> {
        self.channel
    }

    #[verifier::type_invariant]
    spec fn wf(self) -> bool {
        self.audit@.len() <= self.max_audit_entries && self.channel is Some
    }

    /// A plugin with an empty record.
    pub fn new(channel: Arc<dyn ApprovalChannel>) -> (r: HitlPlugin)
        ensures
            r@.len() == 0,
            r.limit() == HitlPlugin::DEFAULT_MAX_AUDIT_ENTRIES,
            r.channel() is Some && r.channel()->0 == channel,
    {
        let max_audit_entries: usize = HitlPlugin::DEFAULT_MAX_AUDIT_ENTRIES;
        let channel = Some(channel);
        HitlPlugin { channel, audit: Vec::new(), max_audit_entries }
    }

    /// A plugin with an empty record of the given size, which is not zero.
    pub fn with_max_audit_entries(channel: Arc<dyn ApprovalChannel>, max_audit_entries: usize) -> (r:
        Result<HitlPlugin, PluginError>)
        ensures
            if max_audit_entries == 0 {
                r matches Err(PluginError::Validation { schema, message }) && schema@
                    == "max_audit_entries"@ && message@ == "max_audit_entries must be non-zero"@
            } else {
                r matches Ok(plugin) && plugin@.len() == 0 && plugin.limit() == max_audit_entries
                    && plugin.channel() is Some && plugin.channel()->0 == channel
            },
    {
        if max_audit_entries == 0 {
            return Err(
                PluginError::Validation {
                    schema: "max_audit_entries".to_owned(),
                    message: "max_audit_entries must be non-zero".to_owned(),
                },
            );
        }
        let channel = Some(channel);
        Ok(HitlPlugin { channel, audit: Vec::new(), max_audit_entries })
    }

    /// The plugin's name.
    pub fn name(&self) -> (r: &'static str)
        ensures
            r@ == NAME@,
    {
        NAME
    }

    /// The rulings, in order.
    pub fn audit_log(&self) -> (r: Vec<HitlAuditEntry>)
        ensures
            audit_views(r@) == self@,
    {
        let mut r: Vec<HitlAuditEntry> = Vec::new();
        let mut i: usize = 0;
        while i < self.audit.len()
            invariant
                i <= self.audit@.len(),
                r@.len() == i,
                forall|k: int| 0 <= k < i ==> (#[trigger] r@[k])@ == self.audit@[k]@,
            decreases self.audit@.len() - i,
        {
            r.push(self.audit[i].clone());
            i = i + 1;
        }
        assert(audit_views(r@) =~= self@);
        r
    }

    /// How many rulings are recorded.
    pub fn audit_len(&self) -> (r: usize)
        ensures
            r == self@.len(),
            r <= self.limit(),
    {
        proof {
            use_type_invariant(self);
        }
        self.audit.len()
    }

    /// How many rulings the record holds.
    pub fn max_audit_entries(&self) -> (r: usize)
        ensures
            r == self.limit(),
    {
        self.max_audit_entries
    }

    /// What an approver is to be asked about a block, where the block needs approval.
    pub fn review(chunk: &MessageContentBlock) -> (r: Option<ApprovalRequest>)
        ensures
            match reviewed(chunk@) {
                Some(text) => r matches Some(req) && req@ == text,
                None => r is None,
            },
    {
        if let MessageContentBlock::ToolCall { id, name, arguments } = chunk {
            if let Some(action) = classify_action(name.as_str()) {
                let detail = name.clone().concat(" ").concat(truncated_json(arguments).as_str());
                return Some(
                    ApprovalRequest {
                        tool_call_id: id.clone(),
                        action: action.to_owned(),
                        detail,
                    },
                );
            }
        }
        None
    }

    /// Asks the approver. The ruling is the approver's own affair; [`HitlPlugin::rule`] says
    /// what follows from it.
    pub fn ask(&self, req: &ApprovalRequest) -> (r: (ApprovalDecision, Option<String>))
        ensures
            self.channel() matches Some(channel) && is_ruling::<dyn ApprovalChannel>(
                &*channel,
                req,
                r,
            ),
    {
        proof {
            use_type_invariant(self);
        }
        match &self.channel {
            Some(channel) => ask_channel::<dyn ApprovalChannel>(&**channel, req),
            None => (ApprovalDecision::Denied, None),
        }
    }

    /// Records a ruling, and has a denied call answered. Where the record is full, nothing is
    /// recorded, the block stays, and the call is refused.
    pub fn rule(
        &mut self,
        chunk: &mut MessageContentBlock,
        req: &ApprovalRequest,
        decision: ApprovalDecision,
        approver_id: Option<String>,
        now_ms: u64,
    ) -> (r: Result<(), PluginError>)
        ensures
            final(self).limit() == old(self).limit(),
            final(self).channel() == old(self).channel(),
            (final(self)@, final(chunk)@, r is Ok) == after_ruling(
                old(self)@,
                old(self).limit() as nat,
                old(chunk)@,
                Ruling {
                    request: req@,
                    decision,
                    approver: optional_text(approver_id),
                    now_ms,
                },
            ),
            if old(self)@.len() >= old(self).limit() {
                &&& r matches Err(PluginError::Internal(m)) && m@ == full_message(
                    old(self)@.len(),
                    old(self).limit() as nat,
                )
                &&& final(self)@ == old(self)@
                &&& final(chunk)@ == old(chunk)@
            } else {
                &&& r is Ok
                &&& final(self)@ == old(self)@.push(
                    AuditView {
                        action: req@.action,
                        approver: optional_text(approver_id),
                        status: status_of(decision),
                        timestamp_ms: now_ms,
                    },
                )
                &&& final(chunk)@ == match decision {
                    ApprovalDecision::Approved => old(chunk)@,
                    ApprovalDecision::Denied => BlockView::ToolResult {
                        tool_call_id: req@.tool_call_id,
                        output: DENIAL@,
                    },
                }
            },
    {
        proof {
            use_type_invariant(&*self);
        }
        let ghost before = self@;
        let len: usize = self.audit.len();
        let max: usize = self.max_audit_entries;
        if len >= max {
            return Err(
                PluginError::Internal(
                    "hitl audit log full: ".to_owned().concat(
                        decimal_text(len as u128).as_str(),
                    ).concat(" of ").concat(decimal_text(max as u128).as_str()).concat(
                        " entries stored; drain it with audit_log() or raise max_audit_entries",
                    ),
                ),
            );
        }
        let status = match decision {
            ApprovalDecision::Approved => "approved",
            ApprovalDecision::Denied => "denied",
        };
        let entry = HitlAuditEntry {
            action_requested: req.action.clone(),
            approver_id,
            status: status.to_owned(),
            timestamp_ms: now_ms,
        };
        let mut audit: Vec<HitlAuditEntry> = Vec::new();
        std::mem::swap(&mut audit, &mut self.audit);
        audit.push(entry);
        self.audit = audit;
        assert(self@ =~= before.push(entry@));
        if decision == ApprovalDecision::Denied {
            *chunk = MessageContentBlock::ToolResult {
                tool_call_id: req.tool_call_id.clone(),
                output: DENIAL.to_owned(),
            };
        }
        Ok(())
    }
}

/// Only calls that may do damage are put before an approver; every other block passes.
pub proof fn law_only_risky_calls_are_reviewed(block: BlockView)
    ensures
        reviewed(block) is Some <==> (block matches BlockView::ToolCall { name, .. } && is_high(
            name,
        )),
{
    if let BlockView::ToolCall { name, .. } = block {
        law_risk_has_an_action(name);
    }
}

} // verus!
