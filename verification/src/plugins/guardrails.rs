//! Guards over what a model hands to tools and answers.
//!
//! The arguments of a tool call are held to the schema that is registered for the tool, and a
//! text that looks like a JSON object to the schema `response`. Where they do not meet it, an
//! error in JSON takes their place, for the model to try again. How often a call may be tried
//! again is bounded.

use crate::error::PluginError;
use crate::json::{
    array_view, from_value, json_parse, json_text, lemma_json_view, member_index, member_keys,
    object_of, object_view, pair_views, to_value, value_content, Json, JsonView,
};
use crate::string_map::{strictly_sorted, StringMap};
use crate::text::{char_is_white, is_white, str_eq};
use crate::types::{texts, BlockView, MessageContentBlock};
use vstd::prelude::*;
use vstd::string::*;

verus! {

/// The plugin's name.
pub const NAME: &'static str = "json-guardrails";

/// The schema that texts are held to.
pub const RESPONSE_SCHEMA: &'static str = "response";

/// How often a call may be tried again where nothing else is said.
pub const DEFAULT_ATTEMPTS: u32 = 3;

/// `jsonschema::Validator`, a schema made ready.
#[verifier::external_type_specification]
#[verifier::external_body]
pub struct ExValidator(jsonschema::Validator);

/// The schema that a validator was made of.
pub uninterp spec fn validator_schema(v: jsonschema::Validator) -> JsonView;

/// What `jsonschema` may say of why a schema cannot be made ready; nothing where it can be.
pub uninterp spec fn schema_faults(schema: JsonView) -> Set<Seq<char>>;

/// In what a value does not meet a schema, in the words of `jsonschema`.
pub uninterp spec fn schema_issues(schema: JsonView, value: JsonView) -> Seq<Seq<char>>;

/// Why a text is not a JSON object, in the words of `serde_json`.
pub uninterp spec fn document_fault(text: Seq<char>) -> Seq<char>;

/// `jsonschema::validator_for`: makes a schema ready. Whether that can be done depends on the
/// schema alone: no reference is looked up outside of it. Where it cannot, one fault is told; of
/// several references that lead outside it is left open which one is told of.
#[verifier::external_body]
fn make_validator(schema: &serde_json::Value) -> (r: Result<jsonschema::Validator, String>)
    ensures
        r is Ok <==> schema_faults(value_content(*schema)) == Set::<Seq<char>>::empty(),
        r matches Ok(v) ==> validator_schema(v) == value_content(*schema),
        r matches Err(m) ==> schema_faults(value_content(*schema)).contains(m@),
{
    jsonschema::validator_for(schema).map_err(|e| e.to_string())
}

/// `jsonschema::Validator::iter_errors`: the issues of a value, which depend on the schema and
/// the value alone.
#[verifier::external_body]
fn find_issues(validator: &jsonschema::Validator, value: &serde_json::Value) -> (r: Vec<String>)
    ensures
        texts(r@) == schema_issues(validator_schema(*validator), value_content(*value)),
{
    validator.iter_errors(value).map(|e| e.to_string()).collect()
}

/// `serde_json::from_str` for an object: it reads a text as JSON, and refuses a text that is
/// not the JSON of an object. What is said then depends on the text alone.
#[verifier::external_body]
fn parse_document(text: &str) -> (r: Result<Json, String>)
    ensures
        r is Ok <==> (json_parse(text@) matches Some(j) && j is Object),
        r matches Ok(j) ==> json_parse(text@) == Some(j@),
        r matches Err(m) ==> m@ == document_fault(text@),
{
    serde_json::from_str::<serde_json::Map<String, serde_json::Value>>(text)
        .map(|m| from_value(&serde_json::Value::Object(m)))
        .map_err(|e| e.to_string())
}

/// The validators by name, as schemas.
pub open spec fn schemas_of(m: Map<Seq<char>, jsonschema::Validator>) -> Map<Seq<char>, JsonView> {
    Map::new(|k: Seq<char>| m.dom().contains(k), |k: Seq<char>| validator_schema(m[k]))
}

/// The schemas of an object, by name.
pub open spec fn schema_map(members: Seq<(Seq<char>, JsonView)>) -> Map<Seq<char>, JsonView> {
    Map::new(
        |k: Seq<char>| member_keys(members).contains(k),
        |k: Seq<char>| members[member_index(members, k)].1,
    )
}

/// Whether a schema can be made ready.
pub open spec fn is_ready(schema: JsonView) -> bool {
    schema_faults(schema) == Set::<Seq<char>>::empty()
}

/// Whether all schemas of an object can be made ready.
pub open spec fn all_ready(members: Seq<(Seq<char>, JsonView)>) -> bool {
    forall|i: int| 0 <= i < members.len() ==> is_ready((#[trigger] members[i]).1)
}

/// The first schema of an object, in the order of the names, that cannot be made ready stands
/// at `i`.
pub open spec fn is_first_unready(members: Seq<(Seq<char>, JsonView)>, i: int) -> bool {
    &&& 0 <= i < members.len()
    &&& !is_ready(members[i].1)
    &&& forall|j: int| 0 <= j < i ==> is_ready((#[trigger] members[j]).1)
}

/// The schema under a name is that of the member with the name.
proof fn lemma_schema_at(members: Seq<(Seq<char>, JsonView)>, i: int)
    requires
        strictly_sorted(member_keys(members)),
        0 <= i < members.len(),
    ensures
        schema_map(members).dom().contains(members[i].0),
        schema_map(members)[members[i].0] == members[i].1,
{
    let names = member_keys(members);
    let k = members[i].0;
    assert(names[i] == k);
    let j = member_index(members, k);
    assert(0 <= j < members.len() && members[j].0 == k);
    if j != i {
        crate::string_map::lemma_strictly_sorted_distinct(names, j, i);
    }
}

/// How often calls have failed.
#[verifier::ext_equal]
pub struct AttemptsView {
    /// How often each has.
    pub counts: Map<Seq<char>, u32>,
    /// The calls in the order of their first failure.
    pub order: Seq<Seq<char>>,
}

/// The calls are those that are counted, each once, and not too many.
pub open spec fn is_attempts(a: AttemptsView) -> bool {
    &&& a.order.len() <= 4096
    &&& a.order.no_duplicates()
    &&& forall|id: Seq<char>| #[trigger] a.counts.dom().contains(id) <==> a.order.contains(id)
}

/// The counts after a call met its schema: the call is forgotten.
pub open spec fn succeeded(a: AttemptsView, id: Seq<char>) -> AttemptsView {
    if a.counts.dom().contains(id) {
        AttemptsView { counts: a.counts.remove(id), order: a.order.remove(a.order.index_of(id)) }
    } else {
        a
    }
}

/// The counts after a call failed: once more, or for the first time, for which the call whose
/// first failure is longest past is forgotten where as many are counted as may be.
pub open spec fn failed(a: AttemptsView, id: Seq<char>) -> AttemptsView {
    if a.counts.dom().contains(id) {
        AttemptsView { counts: a.counts.insert(id, next_attempt(a, id)), ..a }
    } else if a.order.len() >= 4096 {
        AttemptsView {
            counts: a.counts.remove(a.order[0]).insert(id, 1),
            order: a.order.remove(0).push(id),
        }
    } else {
        AttemptsView { counts: a.counts.insert(id, 1), order: a.order.push(id) }
    }
}

/// Which attempt a failure of a call is. The count stays at its largest value.
pub open spec fn next_attempt(a: AttemptsView, id: Seq<char>) -> u32 {
    if !a.counts.dom().contains(id) {
        1
    } else if a.counts[id] < u32::MAX {
        (a.counts[id] + 1) as u32
    } else {
        u32::MAX
    }
}

/// How often calls have failed.
struct AttemptCounters {
    counts: StringMap<u32>,
    order: Vec<String>,
}

impl View for AttemptCounters {
    type V = AttemptsView;

    closed spec fn view(&self) -> AttemptsView {
        AttemptsView { counts: self.counts@, order: texts(self.order@) }
    }
}

/// Where a text is in a list.
fn position_of(v: &Vec<String>, text: &str) -> (r: Option<usize>)
    ensures
        match r {
            Some(i) => i < v@.len() && texts(v@)[i as int] == text@,
            None => !texts(v@).contains(text@),
        },
{
    let mut i: usize = 0;
    while i < v.len()
        invariant
            i <= v@.len(),
            forall|k: int| 0 <= k < i ==> (#[trigger] texts(v@)[k]) != text@,
        decreases v@.len() - i,
    {
        if str_eq(v[i].as_str(), text) {
            return Some(i);
        }
        i = i + 1;
    }
    None
}

impl AttemptCounters {
    /// No call has failed.
    fn new() -> (r: AttemptCounters)
        ensures
            is_attempts(r@),
            r@.order.len() == 0,
            r@.counts == Map::<Seq<char>, u32>::empty(),
    {
        let r = AttemptCounters { counts: StringMap::new(), order: Vec::new() };
        assert(r@.order =~= Seq::<Seq<char>>::empty());
        r
    }

    /// Forgets a call.
    fn clear(&mut self, id: &str)
        requires
            is_attempts(old(self)@),
        ensures
            final(self)@ == succeeded(old(self)@, id@),
            is_attempts(final(self)@),
    {
        let ghost before = self@;
        if self.counts.contains_key(id) {
            self.counts.remove(id);
            if let Some(i) = position_of(&self.order, id) {
                proof {
                    assert(before.order[i as int] == id@);
                    assert(before.order.index_of(id@) == i);
                }
                self.order.remove(i);
                proof {
                    assert(texts(self.order@) =~= before.order.remove(i as int));
                    lemma_removed(before, id@, i as int);
                }
            }
        }
    }

    /// Counts a failure of a call.
    fn count(&mut self, id: &str) -> (r: u32)
        requires
            is_attempts(old(self)@),
        ensures
            final(self)@ == failed(old(self)@, id@),
            is_attempts(final(self)@),
            r == next_attempt(old(self)@, id@),
    {
        let ghost before = self@;
        let count: Option<u32> = match self.counts.get(id) {
            Some(n) => Some(*n),
            None => None,
        };
        match count {
            Some(n) => {
                let next: u32 = n.saturating_add(1);
                self.counts.insert(id.to_owned(), next);
                assert(before.counts.insert(id@, next).dom() =~= before.counts.dom());
                next
            },
            None => {
                if self.order.len() >= 4096 {
                    let oldest = self.order.remove(0);
                    assert(texts(self.order@) =~= before.order.remove(0));
                    assert(oldest@ == before.order[0]);
                    self.counts.remove(oldest.as_str());
                    proof {
                        lemma_removed(before, oldest@, 0);
                    }
                }
                let ghost mid = self@;
                self.counts.insert(id.to_owned(), 1);
                self.order.push(id.to_owned());
                proof {
                    assert(texts(self.order@) =~= mid.order.push(id@));
                    assert(!mid.counts.dom().contains(id@));
                    assert(!mid.order.contains(id@));
                    let after = self@;
                    assert forall|k: Seq<char>| #[trigger]
                        after.counts.dom().contains(k) <==> after.order.contains(k) by {
                        if after.order.contains(k) {
                            let j = choose|j: int| 0 <= j < after.order.len() && after.order[j] == k;
                            if j < mid.order.len() {
                                assert(mid.order[j] == k);
                                assert(mid.order.contains(k));
                                assert(mid.counts.dom().contains(k));
                            }
                        }
                        if after.counts.dom().contains(k) {
                            if k == id@ {
                                assert(after.order[after.order.len() - 1] == k);
                            } else {
                                assert(mid.counts.dom().contains(k));
                                let j = choose|j: int|
                                    0 <= j < mid.order.len() && mid.order[j] == k;
                                assert(after.order[j] == k);
                            }
                        }
                    }
                }
                1
            },
        }
    }
}

/// Forgetting a call that is counted leaves the others.
proof fn lemma_removed(a: AttemptsView, id: Seq<char>, i: int)
    requires
        is_attempts(a),
        0 <= i < a.order.len(),
        a.order[i] == id,
    ensures
        is_attempts(AttemptsView { counts: a.counts.remove(id), order: a.order.remove(i) }),
{
    let counts = a.counts.remove(id);
    let order = a.order.remove(i);
    assert forall|x: int, y: int|
        0 <= x < order.len() && 0 <= y < order.len() && x != y implies order[x] != order[y] by {
        let p = if x < i {
            x
        } else {
            x + 1
        };
        let q = if y < i {
            y
        } else {
            y + 1
        };
        assert(a.order[p] != a.order[q]);
    }
    assert forall|k: Seq<char>| #[trigger] counts.dom().contains(k) <==> order.contains(k) by {
        if counts.dom().contains(k) {
            assert(a.counts.dom().contains(k));
            let j = choose|j: int| 0 <= j < a.order.len() && a.order[j] == k;
            assert(j != i);
            if j < i {
                assert(order[j] == k);
            } else {
                assert(order[j - 1] == k);
            }
        }
        if order.contains(k) {
            let j = choose|j: int| 0 <= j < order.len() && order[j] == k;
            let p = if j < i {
                j
            } else {
                j + 1
            };
            assert(a.order[p] == k);
            assert(a.order.contains(k));
            assert(a.order[p] != a.order[i]);
        }
    }
}

/// What a failure is called.
pub open spec fn error_kind(n: u32, max_attempts: u32) -> Seq<char> {
    if n <= max_attempts {
        "schema_validation_failed"@
    } else {
        "guardrail_exhausted"@
    }
}

/// The error that the model gets.
pub open spec fn error_value(error: Seq<char>, tool: Seq<char>, issues: Seq<Seq<char>>) -> JsonView {
    object_of(
        seq![
            ("error"@, JsonView::String(error)),
            ("tool"@, JsonView::String(tool)),
            (
                "issues"@,
                JsonView::Array(Seq::new(issues.len(), |i: int| JsonView::String(issues[i]))),
            ),
        ],
    )
}

/// The error that the model gets.
fn error_json(error: &str, tool: &str, issues: &Vec<String>) -> (r: String)
    ensures
        r@ == json_text(error_value(error@, tool@, texts(issues@))),
{
    broadcast use lemma_json_view;

    let mut items: Vec<Json> = Vec::new();
    let mut i: usize = 0;
    while i < issues.len()
        invariant
            i <= issues@.len(),
            items@.len() == i,
            forall|k: int|
                0 <= k < i ==> (#[trigger] items@[k])@ == JsonView::String(issues@[k]@),
        decreases issues@.len() - i,
    {
        let item = Json::String(issues[i].clone());
        assert(item@ == JsonView::String(issues@[i as int]@)) by {
            broadcast use lemma_json_view;

        }
        items.push(item);
        i = i + 1;
    }
    let pairs = vec![
        ("error".to_owned(), Json::String(error.to_owned())),
        ("tool".to_owned(), Json::String(tool.to_owned())),
        ("issues".to_owned(), Json::Array(items)),
    ];
    proof {
        let all = texts(issues@);
        assert(array_view(items@) =~= Seq::new(all.len(), |i: int| JsonView::String(all[i])));
        assert(pair_views(pairs@) =~= seq![
            ("error"@, JsonView::String(error@)),
            ("tool"@, JsonView::String(tool@)),
            (
                "issues"@,
                JsonView::Array(Seq::new(all.len(), |i: int| JsonView::String(all[i]))),
            ),
        ]);
    }
    Json::object(pairs).to_text()
}

/// After white space, the text goes on with a brace.
pub open spec fn looks_like_object(s: Seq<char>) -> bool {
    exists|i: int|
        0 <= i < s.len() && #[trigger] s[i] == '{' && forall|k: int|
            0 <= k < i ==> is_white(#[trigger] s[k])
}

/// Whether, after white space, the text goes on with a brace.
fn starts_object(s: &str) -> (r: bool)
    ensures
        r == looks_like_object(s@),
{
    for c in it: s.chars()
        invariant
            it.seq() == s@,
            forall|k: int| 0 <= k < it.index() ==> is_white(#[trigger] s@[k]) && s@[k] != '{',
    {
        let ghost i = it.index() as int;
        assert(c == s@[i]);
        if c == '{' {
            assert(s@[i] == '{');
            return true;
        }
        if !char_is_white(c) {
            proof {
                if looks_like_object(s@) {
                    let j = choose|j: int|
                        0 <= j < s@.len() && #[trigger] s@[j] == '{' && forall|k: int|
                            0 <= k < j ==> is_white(#[trigger] s@[k]);
                    if j < i {
                        assert(s@[j] != '{');
                    } else if j > i {
                        assert(is_white(s@[i]));
                    }
                }
            }
            return false;
        }
    }
    false
}

/// The last failure that was answered: the schema, what it was called, which attempt it was.
pub open spec fn event_view(e: Option<(String, String, u32)>) -> Option<
    (Seq<char>, Seq<char>, u32),
> {
    match e {
        Some((schema, error, n)) => Some((schema@, error@, n)),
        None => None,
    }
}

/// What the plugin remembers.
#[verifier::ext_equal]
pub struct GuardView {
    /// How often calls have failed.
    pub attempts: AttemptsView,
    /// The last failure that was answered.
    pub last_event: Option<(Seq<char>, Seq<char>, u32)>,
}

/// Guards over what a model hands to tools and answers.
pub struct JsonGuardrailPlugin {
    schemas: StringMap<jsonschema::Validator>,
    attempts: AttemptCounters,
    max_attempts: u32,
    last_retry_event: Option<(String, String, u32)>,
}

impl View for JsonGuardrailPlugin {
    type V = GuardView;

    closed spec fn view(&self) -> GuardView {
        GuardView { attempts: self.attempts@, last_event: event_view(self.last_retry_event) }
    }
}

impl JsonGuardrailPlugin {
    /// The schemas by tool.
    pub closed spec fn schemas(&self) -> Map<Seq<char>, JsonView> {
        schemas_of(self.schemas@)
    }

    /// How often a call may be tried again.
    pub closed spec fn max_attempts(&self) -> u32 {
        self.max_attempts
    }

    #[verifier::type_invariant]
    spec fn wf(self) -> bool {
        is_attempts(self.attempts@)
    }

    /// How many failing calls are counted at most.
    pub const MAX_TRACKED_CALLS: usize = 4096;

    /// A plugin with the given schemas that has seen no failure.
    pub open spec fn is_new(
        &self,
        schemas: Map<Seq<char>, JsonView>,
        max_attempts: u32,
    ) -> bool {
        &&& self.schemas() == schemas
        &&& self.max_attempts() == max_attempts
        &&& self@.attempts.order.len() == 0
        &&& self@.attempts.counts == Map::<Seq<char>, u32>::empty()
        &&& self@.last_event is None
    }

    /// What comes of the schemas of an object: a plugin with all of them, or a fault of the first
    /// that cannot be made ready.
    pub open spec fn is_made(
        members: Seq<(Seq<char>, JsonView)>,
        max_attempts: u32,
        r: Result<JsonGuardrailPlugin, PluginError>,
    ) -> bool {
        match r {
            Ok(plugin) => all_ready(members) && plugin.is_new(schema_map(members), max_attempts),
            Err(PluginError::Validation { schema, message }) => exists|i: int|
                #[trigger] is_first_unready(members, i) && schema@ == members[i].0
                    && schema_faults(members[i].1).contains(message@),
            Err(_) => false,
        }
    }

    /// A plugin with the given schemas, or a fault of the first of them, in the order of their
    /// names, that cannot be made ready.
    pub fn with_schemas(schemas: StringMap<Json>, max_attempts: u32) -> (r: Result<
        JsonGuardrailPlugin,
        PluginError,
    >)
        ensures
            Self::is_made(object_view(schemas), max_attempts, r),
    {
        proof {
            use_type_invariant(&schemas);
            StringMap::lemma_view_len(schemas);
        }
        let ghost names = schemas.keys();
        let ghost members = object_view(schemas);
        let ghost all = schema_map(members);
        proof {
            assert(member_keys(members) =~= names);
        }
        let entries = schemas.entries();
        let mut ready: StringMap<jsonschema::Validator> = StringMap::new();
        let mut i: usize = 0;
        while i < entries.len()
            invariant
                i <= entries@.len(),
                entries@.len() == names.len(),
                names == schemas.keys(),
                schemas.ordered(),
                members == object_view(schemas),
                member_keys(members) == names,
                all == schema_map(members),
                forall|k: int|
                    0 <= k < entries@.len() ==> (#[trigger] entries@[k]).0@ == names[k]
                        && entries@[k].1 == schemas.values()[k],
                forall|k: int| 0 <= k < i ==> is_ready((#[trigger] members[k]).1),
                forall|k: Seq<char>| #[trigger]
                    ready@.dom().contains(k) <==> exists|j: int|
                        0 <= j < i && #[trigger] names[j] == k,
                forall|j: int|
                    0 <= j < i ==> ready@.dom().contains(#[trigger] names[j]) && validator_schema(
                        ready@[names[j]],
                    ) == all[names[j]],
            decreases entries@.len() - i,
        {
            let name = &entries[i].0;
            let schema = &entries[i].1;
            proof {
                lemma_schema_at(members, i as int);
                assert(members[i as int] == (names[i as int], schema@));
            }
            let value = to_value(schema);
            match make_validator(&value) {
                Ok(validator) => {
                    let ghost before = ready@;
                    ready.insert(name.clone(), validator);
                    proof {
                        assert forall|k: Seq<char>| #[trigger]
                            ready@.dom().contains(k) <==> exists|j: int|
                                0 <= j < i + 1 && #[trigger] names[j] == k by {
                            if k == names[i as int] {
                                assert(names[i as int] == k);
                            } else if ready@.dom().contains(k) {
                                assert(before.dom().contains(k));
                                let j = choose|j: int| 0 <= j < i && #[trigger] names[j] == k;
                                assert(names[j] == k);
                            }
                        }
                        assert forall|j: int| 0 <= j < i + 1 implies ready@.dom().contains(
                            #[trigger] names[j],
                        ) && validator_schema(ready@[names[j]]) == all[names[j]] by {
                            if j < i && names[j] == names[i as int] {
                                crate::string_map::lemma_strictly_sorted_distinct(
                                    names,
                                    j,
                                    i as int,
                                );
                            }
                        }
                    }
                },
                Err(message) => {
                    assert(is_first_unready(members, i as int));
                    return Err(PluginError::Validation { schema: name.clone(), message });
                },
            }
            i = i + 1;
        }
        let attempts = AttemptCounters::new();
        let plugin = JsonGuardrailPlugin {
            schemas: ready,
            attempts,
            max_attempts,
            last_retry_event: None,
        };
        proof {
            assert forall|k: Seq<char>| #[trigger]
                plugin.schemas().dom().contains(k) <==> all.dom().contains(k) by {
                assert(plugin.schemas().dom().contains(k) <==> ready@.dom().contains(k));
                if all.dom().contains(k) {
                    let j = choose|j: int| 0 <= j < names.len() && names[j] == k;
                    assert(names[j] == k);
                }
                if ready@.dom().contains(k) {
                    let j = choose|j: int| 0 <= j < names.len() && #[trigger] names[j] == k;
                    assert(names.contains(k));
                }
            }
            assert forall|k: Seq<char>| #[trigger]
                plugin.schemas().dom().contains(k) implies plugin.schemas()[k] == all[k] by {
                assert(ready@.dom().contains(k));
                let j = choose|j: int| 0 <= j < names.len() && #[trigger] names[j] == k;
                assert(names[j] == k);
            }
            assert(plugin.schemas() =~= all);
        }
        Ok(plugin)
    }

    /// A plugin with the schemas of a document: a JSON object from names to schemas. `origin`
    /// says where the document comes from.
    pub fn from_document(origin: &str, text: &str) -> (r: Result<JsonGuardrailPlugin, PluginError>)
        ensures
            match json_parse(text@) {
                Some(JsonView::Object(members)) => Self::is_made(members, DEFAULT_ATTEMPTS, r),
                _ => r matches Err(PluginError::Validation { schema, message }) && schema@ == origin@
                    && message@ == "failed to parse schema document: "@ + document_fault(text@),
            },
    {
        broadcast use lemma_json_view;

        match parse_document(text) {
            Ok(Json::Object(schemas)) => JsonGuardrailPlugin::with_schemas(
                schemas,
                DEFAULT_ATTEMPTS,
            ),
            Ok(_) => {
                assert(false);
                Err(PluginError::Internal(String::new()))
            },
            Err(fault) => Err(
                PluginError::Validation {
                    schema: origin.to_owned(),
                    message: "failed to parse schema document: ".to_owned().concat(fault.as_str()),
                },
            ),
        }
    }

    /// The plugin's name.
    pub fn name(&self) -> (r: &'static str)
        ensures
            r@ == NAME@,
    {
        NAME
    }

    /// How many failing calls are counted.
    pub fn tracked_calls(&self) -> (r: usize)
        ensures
            r == self@.attempts.order.len(),
            r <= JsonGuardrailPlugin::MAX_TRACKED_CALLS,
    {
        proof {
            use_type_invariant(self);
        }
        self.attempts.order.len()
    }

    /// The issues of a value under the schema of a tool; none where the tool has no schema.
    pub open spec fn issues(&self, tool: Seq<char>, value: JsonView) -> Seq<Seq<char>> {
        if self.schemas().dom().contains(tool) {
            schema_issues(self.schemas()[tool], value)
        } else {
            Seq::empty()
        }
    }

    /// Holds a value to the schema of a tool.
    pub fn validate(&self, tool_name: &str, value: &Json) -> (r: Result<(), Vec<String>>)
        ensures
            self.issues(tool_name@, value@).len() == 0 <==> r is Ok,
            r matches Err(issues) ==> texts(issues@) == self.issues(tool_name@, value@),
    {
        match self.schemas.get(tool_name) {
            None => Ok(()),
            Some(validator) => {
                let issues = find_issues(validator, &to_value(value));
                assert(texts(issues@).len() == issues@.len());
                if issues.len() == 0 {
                    Ok(())
                } else {
                    Err(issues)
                }
            },
        }
    }

    /// The last failure that was answered: the schema, what it was called, which attempt it was.
    pub fn last_retry_event(&self) -> (r: Option<(String, String, u32)>)
        ensures
            event_view(r) == self@.last_event,
    {
        match &self.last_retry_event {
            Some((schema, error, n)) => Some((schema.clone(), error.clone(), *n)),
            None => None,
        }
    }

    /// What becomes of a block that has these issues, and of what the plugin remembers.
    pub open spec fn guarded(
        g: GuardView,
        max_attempts: u32,
        block: BlockView,
        issues: Seq<Seq<char>>,
    ) -> (BlockView, GuardView) {
        match block {
            BlockView::ToolCall { id, name, .. } => if issues.len() == 0 {
                (block, GuardView { attempts: succeeded(g.attempts, id), ..g })
            } else {
                let n = next_attempt(g.attempts, id);
                let error = error_kind(n, max_attempts);
                (
                    BlockView::ToolResult {
                        tool_call_id: id,
                        output: json_text(error_value(error, name, issues)),
                    },
                    GuardView {
                        attempts: failed(g.attempts, id),
                        last_event: Some((name, error, n)),
                    },
                )
            },
            BlockView::Text(_) => if issues.len() == 0 {
                (block, g)
            } else {
                (
                    BlockView::Text(
                        json_text(
                            error_value("schema_validation_failed"@, RESPONSE_SCHEMA@, issues),
                        ),
                    ),
                    g,
                )
            },
            _ => (block, g),
        }
    }

    /// The issues of a block: of a call under the schema of its tool, of a text that is a JSON
    /// object under the schema of texts.
    pub open spec fn block_issues(&self, block: BlockView) -> Seq<Seq<char>> {
        match block {
            BlockView::ToolCall { name, arguments, .. } => self.issues(name, arguments),
            BlockView::Text(text) => if looks_like_object(text) {
                match json_parse(text) {
                    Some(value) => self.issues(RESPONSE_SCHEMA@, value),
                    None => Seq::empty(),
                }
            } else {
                Seq::empty()
            },
            _ => Seq::empty(),
        }
    }

    /// Answers a block with its issues: an error takes the place of a block that has some.
    pub fn answer(&mut self, chunk: &mut MessageContentBlock, issues: &Vec<String>)
        ensures
            (final(chunk)@, final(self)@) == JsonGuardrailPlugin::guarded(
                old(self)@,
                old(self).max_attempts(),
                old(chunk)@,
                texts(issues@),
            ),
            final(self).schemas() == old(self).schemas(),
            final(self).max_attempts() == old(self).max_attempts(),
    {
        proof {
            use_type_invariant(&*self);
        }
        assert(texts(issues@).len() == issues@.len());
        match chunk {
            MessageContentBlock::ToolCall { id, name, .. } => {
                let call = id.clone();
                let tool = name.clone();
                let mut attempts = AttemptCounters::new();
                std::mem::swap(&mut attempts, &mut self.attempts);
                if issues.len() == 0 {
                    attempts.clear(call.as_str());
                    self.attempts = attempts;
                    return ;
                }
                let n: u32 = attempts.count(call.as_str());
                self.attempts = attempts;
                let error = if n <= self.max_attempts {
                    "schema_validation_failed"
                } else {
                    "guardrail_exhausted"
                };
                let output = error_json(error, tool.as_str(), issues);
                self.last_retry_event = Some((tool, error.to_owned(), n));
                *chunk = MessageContentBlock::ToolResult { tool_call_id: call, output };
            },
            MessageContentBlock::Text(_) => {
                if issues.len() > 0 {
                    let output = error_json("schema_validation_failed", RESPONSE_SCHEMA, issues);
                    *chunk = MessageContentBlock::Text(output);
                }
            },
            _ => {},
        }
    }

    /// Holds a block to its schema; an error takes the place of a block that does not meet it.
    pub fn on_stream_chunk(&mut self, chunk: &mut MessageContentBlock) -> (r: Result<
        (),
        PluginError,
    >)
        ensures
            r is Ok,
            (final(chunk)@, final(self)@) == JsonGuardrailPlugin::guarded(
                old(self)@,
                old(self).max_attempts(),
                old(chunk)@,
                old(self).block_issues(old(chunk)@),
            ),
            final(self).schemas() == old(self).schemas(),
            final(self).max_attempts() == old(self).max_attempts(),
    {
        let found: Result<(), Vec<String>> = match chunk {
            MessageContentBlock::ToolCall { name, arguments, .. } => self.validate(
                name.as_str(),
                arguments,
            ),
            MessageContentBlock::Text(text) => {
                if starts_object(text.as_str()) {
                    match Json::parse(text.as_str()) {
                        Some(value) => self.validate(RESPONSE_SCHEMA, &value),
                        None => Ok(()),
                    }
                } else {
                    Ok(())
                }
            },
            _ => Ok(()),
        };
        let issues: Vec<String> = match found {
            Ok(_) => Vec::new(),
            Err(issues) => issues,
        };
        assert(texts(issues@) =~= self.block_issues(chunk@));
        self.answer(chunk, &issues);
        Ok(())
    }
}

/// The attempts of a call are counted up one by one, so that after as many failures in a row as
/// are allowed every further one is called exhausted.
pub proof fn law_failures_count_up(a: AttemptsView, id: Seq<char>, max_attempts: u32)
    requires
        is_attempts(a),
        next_attempt(a, id) < u32::MAX,
    ensures
        next_attempt(failed(a, id), id) == next_attempt(a, id) + 1,
        next_attempt(a, id) >= max_attempts ==> error_kind(
            next_attempt(failed(a, id), id),
            max_attempts,
        ) == "guardrail_exhausted"@,
{
}

/// A call that meets its schema starts over: its next failure is its first.
pub proof fn law_success_starts_over(a: AttemptsView, id: Seq<char>)
    ensures
        next_attempt(succeeded(a, id), id) == 1,
{
}

/// Whatever fails or succeeds, no more calls are counted than may be, and the counts of other
/// calls stay, but for the call that is forgotten to make room.
pub proof fn law_counts_are_bounded(a: AttemptsView, id: Seq<char>, other: Seq<char>)
    requires
        is_attempts(a),
        other != id,
    ensures
        is_attempts(failed(a, id)),
        is_attempts(succeeded(a, id)),
        next_attempt(succeeded(a, id), other) == next_attempt(a, other),
        a.order.len() < 4096 || a.order[0] != other ==> next_attempt(failed(a, id), other)
            == next_attempt(a, other),
{
    if a.counts.dom().contains(id) {
        assert(a.order.contains(id));
        lemma_removed(a, id, a.order.index_of(id));
        assert(failed(a, id).counts.dom() =~= a.counts.dom());
    } else {
        let mid = if a.order.len() >= 4096 {
            lemma_removed(a, a.order[0], 0);
            AttemptsView { counts: a.counts.remove(a.order[0]), order: a.order.remove(0) }
        } else {
            a
        };
        let after = failed(a, id);
        assert(after.order == mid.order.push(id));
        assert(after.counts == mid.counts.insert(id, 1));
        assert(!mid.counts.dom().contains(id));
        assert(!mid.order.contains(id));
        assert forall|k: Seq<char>| #[trigger] after.counts.dom().contains(k) <==> after.order.contains(
            k,
        ) by {
            if after.order.contains(k) {
                let j = choose|j: int| 0 <= j < after.order.len() && after.order[j] == k;
                if j < mid.order.len() {
                    assert(mid.order[j] == k);
                    assert(mid.order.contains(k));
                    assert(mid.counts.dom().contains(k));
                }
            }
            if after.counts.dom().contains(k) {
                if k == id {
                    assert(after.order[after.order.len() - 1] == k);
                } else {
                    assert(mid.counts.dom().contains(k));
                    let j = choose|j: int| 0 <= j < mid.order.len() && mid.order[j] == k;
                    assert(after.order[j] == k);
                }
            }
        }
    }
}

/// A call of a tool without a schema passes as it is.
pub proof fn law_unregistered_tools_pass(plugin: &JsonGuardrailPlugin, block: BlockView)
    requires
        block matches BlockView::ToolCall { name, .. } && !plugin.schemas().dom().contains(name),
    ensures
        JsonGuardrailPlugin::guarded(
            plugin@,
            plugin.max_attempts(),
            block,
            plugin.block_issues(block),
        ).0 == block,
{
}

} // verus!
