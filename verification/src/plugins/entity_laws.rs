//! What a schema accepts, and what an accepted candidate comes to.

use crate::json::{member, object_view, JsonView, NumberView};
use crate::plugins::entity_extraction::{
    accept_entities, accept_entity, accept_relationship, accept_relationships, candidate_outcome,
    column_at, columns_refusal, end_refusal, ends_refusal, entity_id_text, entity_name_taken,
    entity_table_at, entity_table_refusal, entity_tables_refusal, exact_identity, identity_missing,
    identity_of, identity_refusal, identity_values_refusal, is_identity_column, properties_refusal,
    reference_outcome, relationship_id_text, relationship_name_taken, relationship_table_at,
    relationship_tables_refusal, required_refusal, schema_refusal, type_label, type_matches,
    values_refusal, CandidateEntity, CandidateRelationship, EntityExtractionCandidate,
    EntityExtractionSchema, EntityReference, EntityTable, PropertyColumn, PropertyType,
};
use crate::plugins::memory::graph::{NodeView, RelationshipView};
use crate::text::is_blank;
use crate::types::texts;
use vstd::prelude::*;

verus! {

/// Each type accepts the values of its own kind and no others. A whole number, signed or not, is
/// an integer, and a fraction is not; both are numbers.
pub proof fn law_types_accept_their_own_kind(j: JsonView, text: Seq<char>, p: u64, n: i64)
    ensures
        type_matches(PropertyType::Integer, JsonView::Number(NumberView::PosInt(p))),
        type_matches(PropertyType::Integer, JsonView::Number(NumberView::NegInt(n))),
        !type_matches(PropertyType::Integer, JsonView::Number(NumberView::Float(text))),
        type_matches(PropertyType::Number, JsonView::Number(NumberView::Float(text))),
        type_matches(PropertyType::Integer, j) ==> type_matches(PropertyType::Number, j),
        type_matches(PropertyType::Number, j) <==> j is Number,
        type_matches(PropertyType::String, j) <==> j is String,
        type_matches(PropertyType::Boolean, j) <==> j is Bool,
        type_matches(PropertyType::Array, j) <==> j is Array,
        type_matches(PropertyType::Object, j) <==> j is Object,
        type_matches(PropertyType::Null, j) <==> j is Null,
{
}

/// No two types but `Integer` and `Number` accept one value, and every value is accepted by some
/// type.
pub proof fn law_types_do_not_overlap(a: PropertyType, b: PropertyType, j: JsonView)
    ensures
        type_matches(a, j) && type_matches(b, j) && a != b ==> (a is Integer && b is Number) || (a
            is Number && b is Integer),
        exists|t: PropertyType| #[trigger] type_matches(t, j),
{
    let t = match j {
        JsonView::Null => PropertyType::Null,
        JsonView::Bool(_) => PropertyType::Boolean,
        JsonView::Number(_) => PropertyType::Number,
        JsonView::String(_) => PropertyType::String,
        JsonView::Array(_) => PropertyType::Array,
        JsonView::Object(_) => PropertyType::Object,
    };
    assert(type_matches(t, j));
}

/// A refusal names the type by its own name.
pub proof fn law_types_have_their_names(t: PropertyType)
    ensures
        t is String ==> type_label(t) == "String"@,
        t is Boolean ==> type_label(t) == "Boolean"@,
        t is Integer ==> type_label(t) == "Integer"@,
        t is Number ==> type_label(t) == "Number"@,
        t is Array ==> type_label(t) == "Array"@,
        t is Object ==> type_label(t) == "Object"@,
        t is Null ==> type_label(t) == "Null"@,
{
}

/// Columns have names, each its own.
pub open spec fn sound_columns(columns: Seq<PropertyColumn>) -> bool {
    &&& forall|i: int| 0 <= i < columns.len() ==> !is_blank((#[trigger] columns[i]).name@)
    &&& forall|i: int, j: int|
        0 <= i < j < columns.len() ==> (#[trigger] columns[i]).name@ != (
        #[trigger] columns[j]).name@
}

/// A column of the name is declared, and required.
pub open spec fn has_required(columns: Seq<PropertyColumn>, name: Seq<char>) -> bool {
    exists|c: int|
        0 <= c < columns.len() && (#[trigger] columns[c]).name@ == name && columns[c].required
}

/// An entity table with sound columns and an identity: at least one column, none twice, each
/// declared and required.
pub open spec fn sound_entity_table(table: EntityTable) -> bool {
    let names = table.identity_columns@;
    &&& !is_blank(table.name@)
    &&& sound_columns(table.columns@)
    &&& names.len() > 0
    &&& forall|i: int, j: int|
        0 <= i < j < names.len() ==> (#[trigger] names[i])@ != (#[trigger] names[j])@
    &&& forall|i: int| 0 <= i < names.len() ==> has_required(table.columns@, (#[trigger] names[i])@)
}

/// An entity table of the name is declared.
pub open spec fn has_entity_table(s: EntityExtractionSchema, name: Seq<char>) -> bool {
    exists|t: int| 0 <= t < s.entities@.len() && (#[trigger] s.entities@[t]).name@ == name
}

/// A schema with a name, with sound tables, each under a name of its own, and with relationships
/// between declared entity tables.
pub open spec fn sound_schema(s: EntityExtractionSchema) -> bool {
    let es = s.entities@;
    let rs = s.relationships@;
    &&& !is_blank(s.name@)
    &&& forall|i: int| 0 <= i < es.len() ==> sound_entity_table(#[trigger] es[i])
    &&& forall|i: int, j: int|
        0 <= i < j < es.len() ==> (#[trigger] es[i]).name@ != (#[trigger] es[j]).name@
    &&& forall|i: int|
        0 <= i < rs.len() ==> {
            let table = #[trigger] rs[i];
            &&& !is_blank(table.name@)
            &&& sound_columns(table.columns@)
            &&& !has_entity_table(s, table.name@)
            &&& has_entity_table(s, table.from_table@)
            &&& has_entity_table(s, table.to_table@)
        }
    &&& forall|i: int, j: int|
        0 <= i < j < rs.len() ==> (#[trigger] rs[i]).name@ != (#[trigger] rs[j]).name@
}

/// Columns from `k` on are refused unless they are sound.
proof fn lemma_columns(table: Seq<char>, columns: Seq<PropertyColumn>, k: int)
    requires
        0 <= k <= columns.len(),
    ensures
        columns_refusal(table, columns, k) is None <==> {
            &&& forall|i: int| k <= i < columns.len() ==> !is_blank((#[trigger] columns[i]).name@)
            &&& forall|i: int, j: int|
                0 <= i < j && k <= j < columns.len() ==> (#[trigger] columns[i]).name@ != (
                #[trigger] columns[j]).name@
        },
    decreases columns.len() - k,
{
    if k < columns.len() {
        lemma_columns(table, columns, k + 1);
        if columns_refusal(table, columns, k) is None {
            assert forall|i: int, j: int|
                0 <= i < j && k <= j < columns.len() implies (#[trigger] columns[i]).name@ != (
            #[trigger] columns[j]).name@ by {
                if j == k {
                    assert(columns[i].name@ != columns[k].name@);
                }
            }
        }
    }
}

/// The column that is found has the name, and none before it does.
proof fn lemma_column(columns: Seq<PropertyColumn>, name: Seq<char>, k: int)
    requires
        0 <= k <= columns.len(),
    ensures
        match column_at(columns, name, k) {
            Some(c) => k <= c < columns.len() && columns[c].name@ == name,
            None => forall|c: int| k <= c < columns.len() ==> (#[trigger] columns[c]).name@ != name,
        },
    decreases columns.len() - k,
{
    if k < columns.len() && columns[k].name@ != name {
        lemma_column(columns, name, k + 1);
    }
}

/// The identity columns from `k` on are refused unless they are sound.
proof fn lemma_identity(table: EntityTable, k: int)
    requires
        0 <= k <= table.identity_columns@.len(),
        sound_columns(table.columns@),
    ensures
        identity_refusal(table, k) is None <==> {
            let names = table.identity_columns@;
            &&& forall|i: int, j: int|
                0 <= i < j && k <= j < names.len() ==> (#[trigger] names[i])@ != (
                #[trigger] names[j])@
            &&& forall|i: int|
                k <= i < names.len() ==> has_required(table.columns@, (#[trigger] names[i])@)
        },
    decreases table.identity_columns@.len() - k,
{
    let names = table.identity_columns@;
    if k < names.len() {
        lemma_identity(table, k + 1);
        lemma_column(table.columns@, names[k]@, 0);
        match column_at(table.columns@, names[k]@, 0) {
            Some(c) => {
                assert forall|d: int|
                    0 <= d < table.columns@.len() && (#[trigger] table.columns@[d]).name@
                        == names[k]@ implies d == c by {
                    if d < c {
                        assert(table.columns@[d].name@ != table.columns@[c].name@);
                    } else if c < d {
                        assert(table.columns@[c].name@ != table.columns@[d].name@);
                    }
                }
                assert(has_required(table.columns@, names[k]@) == table.columns@[c].required);
            },
            None => {
                assert(!has_required(table.columns@, names[k]@));
            },
        }
        if identity_refusal(table, k) is None {
            assert forall|i: int, j: int|
                0 <= i < j && k <= j < names.len() implies (#[trigger] names[i])@ != (
            #[trigger] names[j])@ by {
                if j == k {
                    assert(names[i]@ != names[k]@);
                }
            }
        }
    }
}

/// Entity tables from `k` on are refused unless they are sound.
proof fn lemma_entity_tables(s: EntityExtractionSchema, k: int)
    requires
        0 <= k <= s.entities@.len(),
    ensures
        entity_tables_refusal(s, k) is None <==> {
            let es = s.entities@;
            &&& forall|i: int| k <= i < es.len() ==> sound_entity_table(#[trigger] es[i])
            &&& forall|i: int, j: int|
                0 <= i < j && k <= j < es.len() ==> (#[trigger] es[i]).name@ != (
                #[trigger] es[j]).name@
        },
    decreases s.entities@.len() - k,
{
    let es = s.entities@;
    if k < es.len() {
        lemma_entity_tables(s, k + 1);
        let table = es[k];
        lemma_columns(table.name@, table.columns@, 0);
        if sound_columns(table.columns@) {
            lemma_identity(table, 0);
        }
        assert(entity_table_refusal(s, k) is None <==> sound_entity_table(table)
            && !entity_name_taken(s, k, table.name@));
        if entity_tables_refusal(s, k) is None {
            assert forall|i: int, j: int| 0 <= i < j && k <= j < es.len() implies (
            #[trigger] es[i]).name@ != (#[trigger] es[j]).name@ by {
                if j == k {
                    assert(es[i].name@ != es[k].name@);
                }
            }
        }
    }
}

/// Relationship tables from `k` on are refused unless they are sound.
proof fn lemma_relationship_tables(s: EntityExtractionSchema, k: int)
    requires
        0 <= k <= s.relationships@.len(),
    ensures
        relationship_tables_refusal(s, k) is None <==> {
            let rs = s.relationships@;
            &&& forall|i: int|
                k <= i < rs.len() ==> !is_blank((#[trigger] rs[i]).name@) && sound_columns(
                    rs[i].columns@,
                ) && !has_entity_table(s, rs[i].name@)
            &&& forall|i: int, j: int|
                0 <= i < j && k <= j < rs.len() ==> (#[trigger] rs[i]).name@ != (
                #[trigger] rs[j]).name@
        },
    decreases s.relationships@.len() - k,
{
    let rs = s.relationships@;
    if k < rs.len() {
        lemma_relationship_tables(s, k + 1);
        let table = rs[k];
        lemma_columns(table.name@, table.columns@, 0);
        lemma_entity_taken(s, table.name@);
        if relationship_tables_refusal(s, k) is None {
            assert(!relationship_name_taken(s, k, table.name@));
            assert forall|i: int, j: int| 0 <= i < j && k <= j < rs.len() implies (
            #[trigger] rs[i]).name@ != (#[trigger] rs[j]).name@ by {
                if j == k {
                    assert(rs[i].name@ != rs[k].name@);
                }
            }
        }
    }
}

/// A name that is taken is that of a table.
proof fn lemma_entity_taken(s: EntityExtractionSchema, name: Seq<char>)
    ensures
        entity_name_taken(s, s.entities@.len() as int, name) == has_entity_table(s, name),
{
}

/// Ends from `k` on are refused unless they are declared.
proof fn lemma_ends(s: EntityExtractionSchema, k: int)
    requires
        0 <= k <= s.relationships@.len(),
    ensures
        ends_refusal(s, k) is None <==> forall|i: int|
            k <= i < s.relationships@.len() ==> has_entity_table(
                s,
                (#[trigger] s.relationships@[i]).from_table@,
            ) && has_entity_table(s, s.relationships@[i].to_table@),
    decreases s.relationships@.len() - k,
{
    if k < s.relationships@.len() {
        lemma_ends(s, k + 1);
        let table = s.relationships@[k];
        lemma_entity_taken(s, table.from_table@);
        lemma_entity_taken(s, table.to_table@);
        assert(end_refusal(s, table.name@, "from_table"@, table.from_table@) is None
            == has_entity_table(s, table.from_table@));
        assert(end_refusal(s, table.name@, "to_table"@, table.to_table@) is None
            == has_entity_table(s, table.to_table@));
    }
}

/// A schema is accepted exactly where it is sound.
pub proof fn law_sound_schemas_are_accepted(s: EntityExtractionSchema)
    ensures
        schema_refusal(s) is None <==> sound_schema(s),
{
    lemma_entity_tables(s, 0);
    lemma_relationship_tables(s, 0);
    lemma_ends(s, 0);
    if schema_refusal(s) is None {
        let rs = s.relationships@;
        assert forall|i: int| 0 <= i < rs.len() implies {
            let table = #[trigger] rs[i];
            &&& !is_blank(table.name@)
            &&& sound_columns(table.columns@)
            &&& !has_entity_table(s, table.name@)
            &&& has_entity_table(s, table.from_table@)
            &&& has_entity_table(s, table.to_table@)
        } by {
            assert(!is_blank(rs[i].name@));
        }
    }
    if sound_schema(s) {
        let rs = s.relationships@;
        assert forall|i: int| 0 <= i < rs.len() implies !is_blank((#[trigger] rs[i]).name@)
            && sound_columns(rs[i].columns@) && !has_entity_table(s, rs[i].name@) by {}
        assert forall|i: int| 0 <= i < rs.len() implies has_entity_table(
            s,
            (#[trigger] rs[i]).from_table@,
        ) && has_entity_table(s, rs[i].to_table@) by {}
    }
}

/// A row has a property of the name.
pub open spec fn has_property(properties: Seq<(Seq<char>, JsonView)>, name: Seq<char>) -> bool {
    exists|k: int| 0 <= k < properties.len() && (#[trigger] properties[k]).0 == name
}

/// A column of the name is declared.
pub open spec fn has_column(columns: Seq<PropertyColumn>, name: Seq<char>) -> bool {
    exists|c: int| 0 <= c < columns.len() && (#[trigger] columns[c]).name@ == name
}

/// A row fits columns: every property that is declared has a value of its type, others are there
/// only where they are allowed, and every required property is there.
pub open spec fn fits(
    columns: Seq<PropertyColumn>,
    allow: bool,
    properties: Seq<(Seq<char>, JsonView)>,
) -> bool {
    &&& forall|k: int, c: int|
        0 <= k < properties.len() && 0 <= c < columns.len() && (#[trigger] columns[c]).name@ == (
        #[trigger] properties[k]).0 ==> type_matches(columns[c].property_type, properties[k].1)
    &&& !allow ==> forall|k: int|
        0 <= k < properties.len() ==> has_column(columns, (#[trigger] properties[k]).0)
    &&& forall|c: int|
        0 <= c < columns.len() && (#[trigger] columns[c]).required ==> has_property(
            properties,
            columns[c].name@,
        )
}

/// Properties from `k` on are refused unless they fit.
proof fn lemma_values(
    table: Seq<char>,
    columns: Seq<PropertyColumn>,
    allow: bool,
    properties: Seq<(Seq<char>, JsonView)>,
    k: int,
)
    requires
        0 <= k <= properties.len(),
        sound_columns(columns),
    ensures
        values_refusal(table, columns, allow, properties, k) is None <==> {
            &&& forall|i: int, c: int|
                k <= i < properties.len() && 0 <= c < columns.len() && (#[trigger] columns[c]).name@
                    == (#[trigger] properties[i]).0 ==> type_matches(
                    columns[c].property_type,
                    properties[i].1,
                )
            &&& !allow ==> forall|i: int|
                k <= i < properties.len() ==> has_column(columns, (#[trigger] properties[i]).0)
        },
    decreases properties.len() - k,
{
    if k < properties.len() {
        lemma_values(table, columns, allow, properties, k + 1);
        let name = properties[k].0;
        lemma_column(columns, name, 0);
        match column_at(columns, name, 0) {
            Some(c) => {
                assert(has_column(columns, name));
                assert forall|d: int|
                    0 <= d < columns.len() && (#[trigger] columns[d]).name@ == name implies d
                    == c by {
                    if d < c {
                        assert(columns[d].name@ != columns[c].name@);
                    } else if c < d {
                        assert(columns[c].name@ != columns[d].name@);
                    }
                }
            },
            None => {
                assert(!has_column(columns, name));
            },
        }
    }
}

/// Rows are refused for required columns from `k` on that they lack.
proof fn lemma_required(
    table: Seq<char>,
    columns: Seq<PropertyColumn>,
    properties: Seq<(Seq<char>, JsonView)>,
    k: int,
)
    requires
        0 <= k <= columns.len(),
    ensures
        required_refusal(table, columns, properties, k) is None <==> forall|c: int|
            k <= c < columns.len() && (#[trigger] columns[c]).required ==> has_property(
                properties,
                columns[c].name@,
            ),
    decreases columns.len() - k,
{
    if k < columns.len() {
        lemma_required(table, columns, properties, k + 1);
        assert(member(properties, columns[k].name@) is Some == has_property(
            properties,
            columns[k].name@,
        ));
    }
}

/// The properties of a row are accepted exactly where they fit the columns of its table.
pub proof fn law_rows_that_fit_are_accepted(
    table: Seq<char>,
    columns: Seq<PropertyColumn>,
    allow: bool,
    properties: Seq<(Seq<char>, JsonView)>,
)
    requires
        sound_columns(columns),
    ensures
        properties_refusal(table, columns, allow, properties) is None <==> fits(
            columns,
            allow,
            properties,
        ),
{
    lemma_values(table, columns, allow, properties, 0);
    lemma_required(table, columns, properties, 0);
}

/// The table that is found has the name.
proof fn lemma_entity_table(s: EntityExtractionSchema, name: Seq<char>, k: int)
    requires
        0 <= k <= s.entities@.len(),
    ensures
        match entity_table_at(s.entities@, name, k) {
            Some(t) => k <= t < s.entities@.len() && s.entities@[t].name@ == name,
            None => forall|t: int|
                k <= t < s.entities@.len() ==> (#[trigger] s.entities@[t]).name@ != name,
        },
    decreases s.entities@.len() - k,
{
    if k < s.entities@.len() && s.entities@[k].name@ != name {
        lemma_entity_table(s, name, k + 1);
    }
}

/// The table that is found has the name.
proof fn lemma_relationship_table(s: EntityExtractionSchema, name: Seq<char>, k: int)
    requires
        0 <= k <= s.relationships@.len(),
    ensures
        match relationship_table_at(s.relationships@, name, k) {
            Some(t) => k <= t < s.relationships@.len() && s.relationships@[t].name@ == name,
            None => forall|t: int|
                k <= t < s.relationships@.len() ==> (#[trigger] s.relationships@[t]).name@ != name,
        },
    decreases s.relationships@.len() - k,
{
    if k < s.relationships@.len() && s.relationships@[k].name@ != name {
        lemma_relationship_table(s, name, k + 1);
    }
}

/// No identity column is missing in a row that has all of them.
proof fn lemma_identity_there(table: EntityTable, properties: Seq<(Seq<char>, JsonView)>, k: int)
    requires
        0 <= k <= table.identity_columns@.len(),
    ensures
        identity_missing(table, properties, k) is None <==> forall|i: int|
            k <= i < table.identity_columns@.len() ==> has_property(
                properties,
                (#[trigger] table.identity_columns@[i])@,
            ),
    decreases table.identity_columns@.len() - k,
{
    if k < table.identity_columns@.len() {
        lemma_identity_there(table, properties, k + 1);
        assert(member(properties, table.identity_columns@[k]@) is Some == has_property(
            properties,
            table.identity_columns@[k]@,
        ));
    }
}

/// The identity of a row is made of the members under its identity columns, and of no others.
pub proof fn law_the_identity_is_the_identity_columns(
    table: EntityTable,
    properties: Seq<(Seq<char>, JsonView)>,
    p: (Seq<char>, JsonView),
)
    ensures
        identity_of(table, properties).contains(p) <==> properties.contains(p) && exists|c: int|
            0 <= c < table.identity_columns@.len() && (#[trigger] table.identity_columns@[c])@
                == p.0,
    decreases properties.len(),
{
    if is_identity_column(table, p.0) {
        let c = texts(table.identity_columns@).index_of(p.0);
        assert(texts(table.identity_columns@)[c] == p.0);
        assert(table.identity_columns@[c]@ == p.0);
    }
    if exists|c: int|
        0 <= c < table.identity_columns@.len() && (#[trigger] table.identity_columns@[c])@ == p.0 {
        let c = choose|c: int|
            0 <= c < table.identity_columns@.len() && (#[trigger] table.identity_columns@[c])@
                == p.0;
        assert(texts(table.identity_columns@)[c] == p.0);
        assert(is_identity_column(table, p.0));
    }
    if properties.len() > 0 {
        let rest = properties.drop_last();
        let last = properties.last();
        law_the_identity_is_the_identity_columns(table, rest, p);
        let before = identity_of(table, rest);
        let now = identity_of(table, properties);
        if now.contains(p) {
            let i = choose|i: int| 0 <= i < now.len() && now[i] == p;
            if i < before.len() {
                assert(before[i] == p);
                let k = choose|k: int| 0 <= k < rest.len() && rest[k] == p;
                assert(properties[k] == p);
            } else {
                assert(properties[properties.len() - 1] == p);
            }
        }
        if properties.contains(p) && is_identity_column(table, p.0) {
            let k = choose|k: int| 0 <= k < properties.len() && properties[k] == p;
            if k < rest.len() {
                assert(rest[k] == p);
                assert(before.contains(p));
                let i = choose|i: int| 0 <= i < before.len() && before[i] == p;
                assert(now[i] == p);
            } else {
                assert(now[now.len() - 1] == p);
            }
        }
    }
}

/// An entity is accepted only into a declared table whose columns it fits. It then stands among
/// the nodes with the labels of its table and its own properties, and every other node stays as
/// it was.
pub proof fn law_accepted_entities_become_nodes(
    s: EntityExtractionSchema,
    nodes: Map<Seq<char>, NodeView>,
    entity: CandidateEntity,
)
    requires
        sound_schema(s),
    ensures
        accept_entity(s, nodes, entity) matches Ok(after) ==> exists|t: int|
            {
                let table = #[trigger] s.entities@[t];
                let properties = object_view(entity.properties);
                let id = entity_id_text(table.name@, identity_of(table, properties));
                &&& 0 <= t < s.entities@.len()
                &&& table.name@ == entity.table@
                &&& fits(table.columns@, table.allow_model_properties, properties)
                &&& after.dom() == nodes.dom().insert(id)
                &&& !nodes.dom().contains(id) ==> after[id].id == id && after[id].labels == texts(
                    table.labels@,
                ) && after[id].properties == properties
                &&& forall|k: Seq<char>| nodes.dom().contains(k) ==> #[trigger] after[k] == nodes[k]
            },
{
    lemma_entity_table(s, entity.table@, 0);
    if let Some(t) = entity_table_at(s.entities@, entity.table@, 0) {
        let table = s.entities@[t];
        let properties = object_view(entity.properties);
        let id = entity_id_text(table.name@, identity_of(table, properties));
        assert(sound_entity_table(table));
        law_rows_that_fit_are_accepted(
            table.name@,
            table.columns@,
            table.allow_model_properties,
            properties,
        );
        if let Ok(after) = accept_entity(s, nodes, entity) {
            assert(after.dom() =~= nodes.dom().insert(id));
            assert(s.entities@[t] == table);
        }
    }
}

/// An entity of a declared table whose columns it fits is accepted, unless a different node has
/// its id.
pub proof fn law_entities_that_fit_are_accepted(
    s: EntityExtractionSchema,
    nodes: Map<Seq<char>, NodeView>,
    entity: CandidateEntity,
    t: int,
)
    requires
        sound_schema(s),
        0 <= t < s.entities@.len(),
        s.entities@[t].name@ == entity.table@,
        fits(
            s.entities@[t].columns@,
            s.entities@[t].allow_model_properties,
            object_view(entity.properties),
        ),
        !nodes.dom().contains(
            entity_id_text(
                s.entities@[t].name@,
                identity_of(s.entities@[t], object_view(entity.properties)),
            ),
        ),
    ensures
        accept_entity(s, nodes, entity) is Ok,
{
    let table = s.entities@[t];
    let properties = object_view(entity.properties);
    lemma_entity_table(s, entity.table@, 0);
    let found = entity_table_at(s.entities@, entity.table@, 0)->0;
    if found < t {
        assert(s.entities@[found].name@ != s.entities@[t].name@);
    } else if t < found {
        assert(s.entities@[t].name@ != s.entities@[found].name@);
    }
    assert(sound_entity_table(table));
    law_rows_that_fit_are_accepted(
        table.name@,
        table.columns@,
        table.allow_model_properties,
        properties,
    );
    assert forall|i: int| 0 <= i < table.identity_columns@.len() implies has_property(
        properties,
        (#[trigger] table.identity_columns@[i])@,
    ) by {
        let name = table.identity_columns@[i]@;
        assert(has_required(table.columns@, name));
        let c = choose|c: int|
            0 <= c < table.columns@.len() && (#[trigger] table.columns@[c]).name@ == name
                && table.columns@[c].required;
        assert(table.columns@[c].required);
    }
    lemma_identity_there(table, properties, 0);
}

/// A reference leads to the entity with that identity: it is accepted only for the table that is
/// expected, with exactly the identity columns of that table, each of its type; and what it gives
/// is the id that an entity of that identity has.
pub proof fn law_references_lead_to_their_entity(
    s: EntityExtractionSchema,
    reference: EntityReference,
    expected: Seq<char>,
    end: Seq<char>,
)
    ensures
        reference_outcome(s, reference, expected, end) matches Ok(id) ==> {
            let identity = object_view(reference.identity);
            &&& reference.table@ == expected
            &&& has_entity_table(s, expected)
            &&& id == entity_id_text(expected, identity)
            &&& exists|t: int|
                {
                    let table = #[trigger] s.entities@[t];
                    &&& 0 <= t < s.entities@.len()
                    &&& table.name@ == expected
                    &&& identity.len() == table.identity_columns@.len()
                    &&& forall|i: int|
                        0 <= i < table.identity_columns@.len() ==> has_property(
                            identity,
                            (#[trigger] table.identity_columns@[i])@,
                        )
                }
        },
        reference.table@ != expected ==> reference_outcome(s, reference, expected, end) is Err,
{
    lemma_entity_table(s, reference.table@, 0);
    if let Some(t) = entity_table_at(s.entities@, reference.table@, 0) {
        let table = s.entities@[t];
        let identity = object_view(reference.identity);
        if exact_identity(table, identity) {
            assert forall|i: int| 0 <= i < table.identity_columns@.len() implies has_property(
                identity,
                (#[trigger] table.identity_columns@[i])@,
            ) by {
                assert(member(identity, table.identity_columns@[i]@) is Some);
            }
        }
    }
}

/// A reference whose value for an identity column is not of the column's type is refused.
pub proof fn law_references_have_typed_identities(
    s: EntityExtractionSchema,
    reference: EntityReference,
    expected: Seq<char>,
    end: Seq<char>,
    t: int,
    i: int,
    c: int,
)
    requires
        sound_schema(s),
        reference_outcome(s, reference, expected, end) is Ok,
        0 <= t < s.entities@.len(),
        s.entities@[t].name@ == expected,
        0 <= i < s.entities@[t].identity_columns@.len(),
        0 <= c < s.entities@[t].columns@.len(),
        s.entities@[t].columns@[c].name@ == s.entities@[t].identity_columns@[i]@,
    ensures
        member(object_view(reference.identity), s.entities@[t].identity_columns@[i]@) matches Some(
            value,
        ) && type_matches(s.entities@[t].columns@[c].property_type, value),
{
    let table = s.entities@[t];
    lemma_entity_table(s, reference.table@, 0);
    let found = entity_table_at(s.entities@, reference.table@, 0)->0;
    if found < t {
        assert(s.entities@[found].name@ != s.entities@[t].name@);
    } else if t < found {
        assert(s.entities@[t].name@ != s.entities@[found].name@);
    }
    assert(sound_entity_table(table));
    lemma_typed_identity(table, object_view(reference.identity), 0, i, c);
}

/// Every identity column from `k` on has a value of its type.
proof fn lemma_typed_identity(
    table: EntityTable,
    identity: Seq<(Seq<char>, JsonView)>,
    k: int,
    i: int,
    c: int,
)
    requires
        sound_columns(table.columns@),
        identity_values_refusal(table, identity, k) is None,
        0 <= k <= i < table.identity_columns@.len(),
        0 <= c < table.columns@.len(),
        table.columns@[c].name@ == table.identity_columns@[i]@,
    ensures
        member(identity, table.identity_columns@[i]@) matches Some(value) && type_matches(
            table.columns@[c].property_type,
            value,
        ),
    decreases i - k,
{
    if k < i {
        lemma_typed_identity(table, identity, k + 1, i, c);
    } else {
        let name = table.identity_columns@[i]@;
        lemma_column(table.columns@, name, 0);
        let found = column_at(table.columns@, name, 0)->0;
        if found < c {
            assert(table.columns@[found].name@ != table.columns@[c].name@);
        } else if c < found {
            assert(table.columns@[c].name@ != table.columns@[found].name@);
        }
    }
}

/// A relationship is accepted only from a declared table whose columns it fits, and between
/// entities that were accepted. It then stands among the relationships with the kind of its
/// table, a weight of one and its own properties, and every other one stays as it was.
pub proof fn law_accepted_relationships_join_nodes(
    s: EntityExtractionSchema,
    nodes: Map<Seq<char>, NodeView>,
    relationships: Map<Seq<char>, RelationshipView>,
    candidate: CandidateRelationship,
)
    requires
        sound_schema(s),
    ensures
        accept_relationship(s, nodes, relationships, candidate) matches Ok(after) ==> exists|t: int|
            {
                let table = #[trigger] s.relationships@[t];
                let properties = object_view(candidate.properties);
                let from = entity_id_text(
                    table.from_table@,
                    object_view(candidate.from.identity),
                );
                let to = entity_id_text(table.to_table@, object_view(candidate.to.identity));
                let id = relationship_id_text(table.name@, from, to, properties);
                &&& 0 <= t < s.relationships@.len()
                &&& table.name@ == candidate.table@
                &&& fits(table.columns@, table.allow_model_properties, properties)
                &&& candidate.from.table@ == table.from_table@
                &&& candidate.to.table@ == table.to_table@
                &&& nodes.dom().contains(from)
                &&& nodes.dom().contains(to)
                &&& after.dom() == relationships.dom().insert(id)
                &&& !relationships.dom().contains(id) ==> {
                    let rel = after[id];
                    &&& rel.id == id
                    &&& rel.from == from
                    &&& rel.to == to
                    &&& rel.kind == table.kind@
                    &&& rel.weight.bits == 0x3ff0_0000_0000_0000
                    &&& rel.weight.text == "1"@
                    &&& rel.properties == properties
                }
                &&& forall|k: Seq<char>|
                    relationships.dom().contains(k) ==> #[trigger] after[k] == relationships[k]
            },
{
    lemma_relationship_table(s, candidate.table@, 0);
    if let Some(t) = relationship_table_at(s.relationships@, candidate.table@, 0) {
        let table = s.relationships@[t];
        let properties = object_view(candidate.properties);
        let from = entity_id_text(table.from_table@, object_view(candidate.from.identity));
        let to = entity_id_text(table.to_table@, object_view(candidate.to.identity));
        let id = relationship_id_text(table.name@, from, to, properties);
        assert(sound_columns(table.columns@));
        law_rows_that_fit_are_accepted(
            table.name@,
            table.columns@,
            table.allow_model_properties,
            properties,
        );
        law_references_lead_to_their_entity(s, candidate.from, table.from_table@, "from"@);
        law_references_lead_to_their_entity(s, candidate.to, table.to_table@, "to"@);
        if let Ok(after) = accept_relationship(s, nodes, relationships, candidate) {
            assert(after.dom() =~= relationships.dom().insert(id));
            assert(s.relationships@[t] == table);
        }
    }
}

/// Every entity of accepted ones is accepted.
proof fn lemma_all_entities(s: EntityExtractionSchema, entities: Seq<CandidateEntity>, i: int)
    requires
        sound_schema(s),
        accept_entities(s, entities) is Ok,
        0 <= i < entities.len(),
    ensures
        exists|t: int|
            {
                let table = #[trigger] s.entities@[t];
                let properties = object_view(entities[i].properties);
                let id = entity_id_text(table.name@, identity_of(table, properties));
                &&& 0 <= t < s.entities@.len()
                &&& table.name@ == entities[i].table@
                &&& fits(table.columns@, table.allow_model_properties, properties)
                &&& accept_entities(s, entities)->Ok_0.dom().contains(id)
            },
    decreases entities.len(),
{
    let rest = entities.drop_last();
    let nodes = accept_entities(s, rest)->Ok_0;
    law_accepted_entities_become_nodes(s, nodes, entities.last());
    if i < rest.len() {
        lemma_all_entities(s, rest, i);
        assert(rest[i] == entities[i]);
        let t = choose|t: int|
            {
                let table = #[trigger] s.entities@[t];
                let properties = object_view(rest[i].properties);
                let id = entity_id_text(table.name@, identity_of(table, properties));
                &&& 0 <= t < s.entities@.len()
                &&& table.name@ == rest[i].table@
                &&& fits(table.columns@, table.allow_model_properties, properties)
                &&& nodes.dom().contains(id)
            };
        assert(0 <= t < s.entities@.len() && s.entities@[t].name@ == entities[i].table@);
    } else {
        assert(entities[i] == entities.last());
    }
}

/// A candidate is accepted as a whole or not at all: where it is accepted, every one of its
/// entities is of a declared table, fits its columns, and has its node in the delta.
pub proof fn law_no_entity_is_passed_over(
    s: EntityExtractionSchema,
    candidate: EntityExtractionCandidate,
    i: int,
)
    requires
        sound_schema(s),
        0 <= i < candidate.entities@.len(),
    ensures
        candidate_outcome(s, candidate) matches Ok(g) ==> exists|t: int|
            {
                let table = #[trigger] s.entities@[t];
                let properties = object_view(candidate.entities@[i].properties);
                let id = entity_id_text(table.name@, identity_of(table, properties));
                &&& 0 <= t < s.entities@.len()
                &&& table.name@ == candidate.entities@[i].table@
                &&& fits(table.columns@, table.allow_model_properties, properties)
                &&& g.nodes.dom().contains(id)
            },
{
    if candidate_outcome(s, candidate) is Ok {
        lemma_all_entities(s, candidate.entities@, i);
    }
}

/// Every relationship of accepted ones is accepted.
proof fn lemma_all_relationships(
    s: EntityExtractionSchema,
    nodes: Map<Seq<char>, NodeView>,
    v: Seq<CandidateRelationship>,
    i: int,
)
    requires
        sound_schema(s),
        accept_relationships(s, nodes, v) is Ok,
        0 <= i < v.len(),
    ensures
        joins(s, nodes, accept_relationships(s, nodes, v)->Ok_0, v[i]),
    decreases v.len(),
{
    let rest = v.drop_last();
    let accepted = accept_relationships(s, nodes, rest)->Ok_0;
    law_accepted_relationships_join_nodes(s, nodes, accepted, v.last());
    if i < rest.len() {
        lemma_all_relationships(s, nodes, rest, i);
        assert(rest[i] == v[i]);
        let t = choose|t: int| #[trigger] joins_by(s, nodes, accepted, rest[i], t);
        assert(joins_by(s, nodes, accept_relationships(s, nodes, v)->Ok_0, v[i], t));
    } else {
        let after = accept_relationships(s, nodes, v)->Ok_0;
        let c = v.last();
        let t = choose|t: int|
            {
                let table = #[trigger] s.relationships@[t];
                let properties = object_view(c.properties);
                let from = entity_id_text(table.from_table@, object_view(c.from.identity));
                let to = entity_id_text(table.to_table@, object_view(c.to.identity));
                let id = relationship_id_text(table.name@, from, to, properties);
                &&& 0 <= t < s.relationships@.len()
                &&& table.name@ == c.table@
                &&& fits(table.columns@, table.allow_model_properties, properties)
                &&& c.from.table@ == table.from_table@
                &&& c.to.table@ == table.to_table@
                &&& nodes.dom().contains(from)
                &&& nodes.dom().contains(to)
                &&& after.dom() == accepted.dom().insert(id)
            };
        assert(joins_by(s, nodes, after, v[i], t));
    }
}

/// A candidate of the table in position `t` stands among relationships, between nodes.
pub open spec fn joins_by(
    s: EntityExtractionSchema,
    nodes: Map<Seq<char>, NodeView>,
    relationships: Map<Seq<char>, RelationshipView>,
    c: CandidateRelationship,
    t: int,
) -> bool {
    let table = s.relationships@[t];
    let properties = object_view(c.properties);
    let from = entity_id_text(table.from_table@, object_view(c.from.identity));
    let to = entity_id_text(table.to_table@, object_view(c.to.identity));
    &&& 0 <= t < s.relationships@.len()
    &&& table.name@ == c.table@
    &&& fits(table.columns@, table.allow_model_properties, properties)
    &&& nodes.dom().contains(from)
    &&& nodes.dom().contains(to)
    &&& relationships.dom().contains(relationship_id_text(table.name@, from, to, properties))
}

/// A candidate of a declared table stands among relationships, between nodes.
pub open spec fn joins(
    s: EntityExtractionSchema,
    nodes: Map<Seq<char>, NodeView>,
    relationships: Map<Seq<char>, RelationshipView>,
    c: CandidateRelationship,
) -> bool {
    exists|t: int| #[trigger] joins_by(s, nodes, relationships, c, t)
}

/// Where a candidate is accepted, every one of its relationships is of a declared table, fits
/// its columns, joins two nodes of the delta, and stands in the delta.
pub proof fn law_no_relationship_is_passed_over(
    s: EntityExtractionSchema,
    candidate: EntityExtractionCandidate,
    i: int,
)
    requires
        sound_schema(s),
        0 <= i < candidate.relationships@.len(),
    ensures
        candidate_outcome(s, candidate) matches Ok(g) ==> joins(
            s,
            g.nodes,
            g.relationships,
            candidate.relationships@[i],
        ),
{
    if let Ok(g) = candidate_outcome(s, candidate) {
        lemma_all_relationships(s, g.nodes, candidate.relationships@, i);
    }
}

/// An empty candidate comes to an empty delta.
pub proof fn law_nothing_comes_of_nothing(
    s: EntityExtractionSchema,
    candidate: EntityExtractionCandidate,
)
    requires
        candidate.entities@.len() == 0,
        candidate.relationships@.len() == 0,
    ensures
        candidate_outcome(s, candidate) matches Ok(g) && g.nodes.dom().len() == 0
            && g.relationships.dom().len() == 0,
{
}

} // verus!
