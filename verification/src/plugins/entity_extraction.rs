//! Schema-guided extraction of entities and relationships.
//!
//! An [`EntityExtractionPlugin`] holds a schema of entity tables and relationship tables. It
//! turns a candidate that a model proposed into a graph delta, or refuses the whole candidate.
//! The delta is a graph of its own: it takes effect when the caller merges it.

use crate::error::PluginError;
use crate::float::{Double, DoubleView};
use crate::json::{
    array_view, json_same, lemma_json_view, lemma_object_member, member, members_same, number_text,
    object_view, Json, JsonView,
};
use crate::plugins::memory::graph::{
    consistent, graph_of, is_snapshot, lemma_take_more, node_map,
    node_same, node_views, nodes_by_id, relationship_ids, relationship_map, relationship_same,
    relationship_views, relationships_by_id, unknown_end_message, GraphNode, GraphRelationship,
    GraphSnapshot, GraphView, MemoryGraph, NodeView, RelationshipView, SnapshotView,
};
use crate::plugins::memory::laws::lemma_graph_of_snapshot;
use crate::string_map::{strictly_sorted, StringMap};
use crate::text::{
    decimal, decimal_text, is_blank, lemma_text_less_total, lemma_text_less_transitive, str_eq,
    str_is_blank, str_less, text_less,
};
use crate::types::{copy_texts, texts};
use vstd::prelude::*;
use vstd::string::*;
use vstd::utf8::encode_utf8;

verus! {

/// What to extract: entity tables and the relationship tables between them.
#[derive(Clone, Debug, PartialEq)]
pub struct EntityExtractionSchema {
    /// The name, which every validation error carries. Not blank.
    pub name: String,
    /// The entity tables.
    pub entities: Vec<EntityTable>,
    /// The relationship tables.
    pub relationships: Vec<RelationshipTable>,
}

/// One entity table, and the nodes that it produces.
#[derive(Clone, Debug, PartialEq)]
pub struct EntityTable {
    /// The table's name.
    pub name: String,
    /// The labels of every node of the table.
    pub labels: Vec<String>,
    /// The columns that identify a node; required columns, at least one, none twice.
    pub identity_columns: Vec<String>,
    /// The declared properties.
    pub columns: Vec<PropertyColumn>,
    /// Whether other properties are accepted too.
    pub allow_model_properties: bool,
}

/// One table of directed relationships.
#[derive(Clone, Debug, PartialEq)]
pub struct RelationshipTable {
    /// The table's name.
    pub name: String,
    /// The kind of every relationship of the table.
    pub kind: String,
    /// The entity table at the source.
    pub from_table: String,
    /// The entity table at the target.
    pub to_table: String,
    /// The declared properties.
    pub columns: Vec<PropertyColumn>,
    /// Whether other properties are accepted too.
    pub allow_model_properties: bool,
}

/// One declared property.
#[derive(Clone, Debug, PartialEq)]
pub struct PropertyColumn {
    /// The property's name.
    pub name: String,
    /// The shape of its value.
    pub property_type: PropertyType,
    /// Whether every row must have it.
    pub required: bool,
}

/// The shape of a property's value.
#[derive(Debug, Clone, Copy, PartialEq, Eq, Structural)]
pub enum PropertyType {
    /// A string.
    String,
    /// A boolean.
    Boolean,
    /// A whole number.
    Integer,
    /// Any number.
    Number,
    /// An array.
    Array,
    /// An object.
    Object,
    /// Null.
    Null,
}

/// A reference to an entity by its identity columns.
#[derive(Clone, Debug, PartialEq)]
pub struct EntityReference {
    /// The entity's table.
    pub table: String,
    /// The identity columns with their values.
    pub identity: StringMap<Json>,
}

/// A proposed entity.
#[derive(Clone, Debug, PartialEq)]
pub struct CandidateEntity {
    /// The entity's table.
    pub table: String,
    /// Its properties.
    pub properties: StringMap<Json>,
}

/// A proposed relationship.
#[derive(Clone, Debug, PartialEq)]
pub struct CandidateRelationship {
    /// The relationship's table.
    pub table: String,
    /// The source.
    pub from: EntityReference,
    /// The target.
    pub to: EntityReference,
    /// Its properties.
    pub properties: StringMap<Json>,
}

/// A proposed extraction.
#[derive(Clone, Debug, PartialEq)]
pub struct EntityExtractionCandidate {
    /// The proposed entities.
    pub entities: Vec<CandidateEntity>,
    /// The proposed relationships.
    pub relationships: Vec<CandidateRelationship>,
}

/// What was accepted of a candidate.
#[derive(Clone, Debug, PartialEq)]
pub struct EntityExtractionReport {
    /// The nodes of the delta.
    pub nodes_accepted: usize,
    /// The relationships of the delta.
    pub relationships_accepted: usize,
    /// The delta.
    pub delta: MemoryGraph,
}

/// The first of two refusals that there is.
pub open spec fn first_refusal(
    a: Option<Seq<char>>,
    b: Option<Seq<char>>,
) -> Option<Seq<char>> {
    if a is Some {
        a
    } else {
        b
    }
}

/// The first column named `name` from position `k` on.
pub open spec fn column_at(columns: Seq<PropertyColumn>, name: Seq<char>, k: int) -> Option<int>
    decreases columns.len() - k,
{
    if k < 0 || k >= columns.len() {
        None
    } else if columns[k].name@ == name {
        Some(k)
    } else {
        column_at(columns, name, k + 1)
    }
}

/// The first entity table named `name` from position `k` on.
pub open spec fn entity_table_at(
    tables: Seq<EntityTable>,
    name: Seq<char>,
    k: int,
) -> Option<int>
    decreases tables.len() - k,
{
    if k < 0 || k >= tables.len() {
        None
    } else if tables[k].name@ == name {
        Some(k)
    } else {
        entity_table_at(tables, name, k + 1)
    }
}

/// The first relationship table named `name` from position `k` on.
pub open spec fn relationship_table_at(
    tables: Seq<RelationshipTable>,
    name: Seq<char>,
    k: int,
) -> Option<int>
    decreases tables.len() - k,
{
    if k < 0 || k >= tables.len() {
        None
    } else if tables[k].name@ == name {
        Some(k)
    } else {
        relationship_table_at(tables, name, k + 1)
    }
}

/// What is wrong with the columns of a table from position `k` on.
pub open spec fn columns_refusal(
    table: Seq<char>,
    columns: Seq<PropertyColumn>,
    k: int,
) -> Option<Seq<char>>
    decreases columns.len() - k,
{
    if k < 0 || k >= columns.len() {
        None
    } else if is_blank(columns[k].name@) {
        Some("table `"@ + table + "` has an empty column name"@)
    } else if exists|j: int| 0 <= j < k && (#[trigger] columns[j]).name@ == columns[k].name@ {
        Some("table `"@ + table + "` has duplicate column `"@ + columns[k].name@ + "`"@)
    } else {
        columns_refusal(table, columns, k + 1)
    }
}

/// What is wrong with the identity columns of an entity table from position `k` on.
pub open spec fn identity_refusal(table: EntityTable, k: int) -> Option<Seq<char>>
    decreases table.identity_columns@.len() - k,
{
    let names = table.identity_columns@;
    if k < 0 || k >= names.len() {
        None
    } else if exists|j: int| 0 <= j < k && (#[trigger] names[j])@ == names[k]@ {
        Some(
            "entity table `"@ + table.name@ + "` declares identity column `"@ + names[k]@
                + "` more than once"@,
        )
    } else {
        match column_at(table.columns@, names[k]@, 0) {
            None => Some(
                "identity column `"@ + names[k]@ + "` is not declared by entity table `"@
                    + table.name@ + "`"@,
            ),
            Some(c) => if table.columns@[c].required {
                identity_refusal(table, k + 1)
            } else {
                Some(
                    "identity column `"@ + names[k]@ + "` in entity table `"@ + table.name@
                        + "` must be required"@,
                )
            },
        }
    }
}

/// A table before the entity table in position `k` has the name `name`.
pub open spec fn entity_name_taken(
    s: EntityExtractionSchema,
    k: int,
    name: Seq<char>,
) -> bool {
    exists|j: int| 0 <= j < k && (#[trigger] s.entities@[j]).name@ == name
}

/// A table before the relationship table in position `k` has the name `name`.
pub open spec fn relationship_name_taken(
    s: EntityExtractionSchema,
    k: int,
    name: Seq<char>,
) -> bool {
    ||| entity_name_taken(s, s.entities@.len() as int, name)
    ||| exists|j: int| 0 <= j < k && (#[trigger] s.relationships@[j]).name@ == name
}

/// What is wrong with a table's name.
pub open spec fn name_refusal(kind: Seq<char>, name: Seq<char>, taken: bool) -> Option<Seq<char>> {
    if is_blank(name) {
        Some(kind + " table name must not be empty"@)
    } else if taken {
        Some("duplicate table name `"@ + name + "`"@)
    } else {
        None
    }
}

/// What is wrong with the entity table in position `k`.
pub open spec fn entity_table_refusal(s: EntityExtractionSchema, k: int) -> Option<Seq<char>> {
    let table = s.entities@[k];
    first_refusal(
        name_refusal("entity"@, table.name@, entity_name_taken(s, k, table.name@)),
        first_refusal(
            columns_refusal(table.name@, table.columns@, 0),
            if table.identity_columns@.len() == 0 {
                Some(
                    "entity table `"@ + table.name@ + "` must declare an identity column"@,
                )
            } else {
                identity_refusal(table, 0)
            },
        ),
    )
}

/// What is wrong with the entity tables from position `k` on.
pub open spec fn entity_tables_refusal(s: EntityExtractionSchema, k: int) -> Option<Seq<char>>
    decreases s.entities@.len() - k,
{
    if k < 0 || k >= s.entities@.len() {
        None
    } else {
        first_refusal(entity_table_refusal(s, k), entity_tables_refusal(s, k + 1))
    }
}

/// What is wrong with the relationship tables, apart from their ends, from position `k` on.
pub open spec fn relationship_tables_refusal(
    s: EntityExtractionSchema,
    k: int,
) -> Option<Seq<char>>
    decreases s.relationships@.len() - k,
{
    if k < 0 || k >= s.relationships@.len() {
        None
    } else {
        let table = s.relationships@[k];
        first_refusal(
            name_refusal(
                "relationship"@,
                table.name@,
                relationship_name_taken(s, k, table.name@),
            ),
            first_refusal(
                columns_refusal(table.name@, table.columns@, 0),
                relationship_tables_refusal(s, k + 1),
            ),
        )
    }
}

/// What is wrong with one end of a relationship table.
pub open spec fn end_refusal(
    s: EntityExtractionSchema,
    table: Seq<char>,
    end: Seq<char>,
    name: Seq<char>,
) -> Option<Seq<char>> {
    if entity_name_taken(s, s.entities@.len() as int, name) {
        None
    } else {
        Some("relationship table `"@ + table + "` has unknown "@ + end + " `"@ + name + "`"@)
    }
}

/// What is wrong with the ends of the relationship tables from position `k` on.
pub open spec fn ends_refusal(s: EntityExtractionSchema, k: int) -> Option<Seq<char>>
    decreases s.relationships@.len() - k,
{
    if k < 0 || k >= s.relationships@.len() {
        None
    } else {
        let table = s.relationships@[k];
        first_refusal(
            end_refusal(s, table.name@, "from_table"@, table.from_table@),
            first_refusal(
                end_refusal(s, table.name@, "to_table"@, table.to_table@),
                ends_refusal(s, k + 1),
            ),
        )
    }
}

/// Why a schema is refused: its name, then its entity tables, then its relationship tables,
/// then their ends.
pub open spec fn schema_refusal(s: EntityExtractionSchema) -> Option<Seq<char>> {
    if is_blank(s.name@) {
        Some("schema name must not be empty"@)
    } else {
        first_refusal(
            entity_tables_refusal(s, 0),
            first_refusal(relationship_tables_refusal(s, 0), ends_refusal(s, 0)),
        )
    }
}

/// The first column named `name`.
fn find_column(columns: &Vec<PropertyColumn>, name: &str) -> (r: Option<usize>)
    ensures
        match column_at(columns@, name@, 0) {
            Some(c) => r matches Some(i) && i == c && i < columns@.len(),
            None => r is None,
        },
{
    let mut i: usize = 0;
    while i < columns.len()
        invariant
            i <= columns@.len(),
            column_at(columns@, name@, 0) == column_at(columns@, name@, i as int),
        decreases columns@.len() - i,
    {
        if str_eq(columns[i].name.as_str(), name) {
            return Some(i);
        }
        i = i + 1;
    }
    None
}

/// The first entity table named `name`.
fn find_entity_table(tables: &Vec<EntityTable>, name: &str) -> (r: Option<usize>)
    ensures
        match entity_table_at(tables@, name@, 0) {
            Some(c) => r matches Some(i) && i == c && i < tables@.len(),
            None => r is None,
        },
{
    let mut i: usize = 0;
    while i < tables.len()
        invariant
            i <= tables@.len(),
            entity_table_at(tables@, name@, 0) == entity_table_at(tables@, name@, i as int),
        decreases tables@.len() - i,
    {
        if str_eq(tables[i].name.as_str(), name) {
            return Some(i);
        }
        i = i + 1;
    }
    None
}

/// The first relationship table named `name`.
fn find_relationship_table(tables: &Vec<RelationshipTable>, name: &str) -> (r: Option<usize>)
    ensures
        match relationship_table_at(tables@, name@, 0) {
            Some(c) => r matches Some(i) && i == c && i < tables@.len(),
            None => r is None,
        },
{
    let mut i: usize = 0;
    while i < tables.len()
        invariant
            i <= tables@.len(),
            relationship_table_at(tables@, name@, 0) == relationship_table_at(
                tables@,
                name@,
                i as int,
            ),
        decreases tables@.len() - i,
    {
        if str_eq(tables[i].name.as_str(), name) {
            return Some(i);
        }
        i = i + 1;
    }
    None
}

/// Checks the columns of a table.
fn validate_columns(table_name: &str, columns: &Vec<PropertyColumn>) -> (r: Result<(), String>)
    ensures
        match columns_refusal(table_name@, columns@, 0) {
            Some(m) => r matches Err(e) && e@ == m,
            None => r is Ok,
        },
{
    let mut names: StringMap<()> = StringMap::new();
    let mut i: usize = 0;
    while i < columns.len()
        invariant
            i <= columns@.len(),
            columns_refusal(table_name@, columns@, 0) == columns_refusal(
                table_name@,
                columns@,
                i as int,
            ),
            forall|n: Seq<char>| #[trigger]
                names@.dom().contains(n) <==> exists|j: int|
                    0 <= j < i && (#[trigger] columns@[j]).name@ == n,
        decreases columns@.len() - i,
    {
        let column = &columns[i];
        if str_is_blank(column.name.as_str()) {
            return Err("table `".to_owned().concat(table_name).concat("` has an empty column name"));
        }
        if names.contains_key(column.name.as_str()) {
            return Err(
                "table `".to_owned().concat(table_name).concat("` has duplicate column `").concat(
                    column.name.as_str(),
                ).concat("`"),
            );
        }
        names.insert(column.name.clone(), ());
        i = i + 1;
    }
    Ok(())
}

/// Checks the name of a table, and adds it to the names seen so far.
fn validate_table_name(kind: &str, name: &String, names: &mut StringMap<()>) -> (r: Result<
    (),
    String,
>)
    ensures
        match name_refusal(kind@, name@, old(names)@.dom().contains(name@)) {
            Some(m) => r matches Err(e) && e@ == m,
            None => r is Ok && final(names)@.dom() == old(names)@.dom().insert(name@),
        },
{
    if str_is_blank(name.as_str()) {
        return Err(kind.to_owned().concat(" table name must not be empty"));
    }
    if names.contains_key(name.as_str()) {
        return Err("duplicate table name `".to_owned().concat(name.as_str()).concat("`"));
    }
    let ghost before = names@.dom();
    names.insert(name.clone(), ());
    assert(names@.dom() =~= before.insert(name@));
    Ok(())
}

/// Checks the identity columns of an entity table.
fn validate_identity(table: &EntityTable) -> (r: Result<(), String>)
    ensures
        match identity_refusal(*table, 0) {
            Some(m) => r matches Err(e) && e@ == m,
            None => r is Ok,
        },
{
    let mut names: StringMap<()> = StringMap::new();
    let mut i: usize = 0;
    while i < table.identity_columns.len()
        invariant
            i <= table.identity_columns@.len(),
            identity_refusal(*table, 0) == identity_refusal(*table, i as int),
            forall|n: Seq<char>| #[trigger]
                names@.dom().contains(n) <==> exists|j: int|
                    0 <= j < i && (#[trigger] table.identity_columns@[j])@ == n,
        decreases table.identity_columns@.len() - i,
    {
        let name = &table.identity_columns[i];
        if names.contains_key(name.as_str()) {
            return Err(
                "entity table `".to_owned().concat(table.name.as_str()).concat(
                    "` declares identity column `",
                ).concat(name.as_str()).concat("` more than once"),
            );
        }
        names.insert(name.clone(), ());
        match find_column(&table.columns, name.as_str()) {
            None => {
                return Err(
                    "identity column `".to_owned().concat(name.as_str()).concat(
                        "` is not declared by entity table `",
                    ).concat(table.name.as_str()).concat("`"),
                );
            },
            Some(c) => {
                if !table.columns[c].required {
                    return Err(
                        "identity column `".to_owned().concat(name.as_str()).concat(
                            "` in entity table `",
                        ).concat(table.name.as_str()).concat("` must be required"),
                    );
                }
            },
        }
        i = i + 1;
    }
    Ok(())
}

/// Checks one end of a relationship table.
fn validate_end(
    schema: &EntityExtractionSchema,
    names: &StringMap<()>,
    table: &str,
    end: &str,
    name: &str,
) -> (r: Result<(), String>)
    requires
        forall|n: Seq<char>| #[trigger]
            names@.dom().contains(n) <==> entity_name_taken(
                *schema,
                schema.entities@.len() as int,
                n,
            ),
    ensures
        match end_refusal(*schema, table@, end@, name@) {
            Some(m) => r matches Err(e) && e@ == m,
            None => r is Ok,
        },
{
    if names.contains_key(name) {
        Ok(())
    } else {
        Err(
            "relationship table `".to_owned().concat(table).concat("` has unknown ").concat(
                end,
            ).concat(" `").concat(name).concat("`"),
        )
    }
}

/// Checks a schema.
fn validate_schema(schema: &EntityExtractionSchema) -> (r: Result<(), String>)
    ensures
        match schema_refusal(*schema) {
            Some(m) => r matches Err(e) && e@ == m,
            None => r is Ok,
        },
{
    if str_is_blank(schema.name.as_str()) {
        return Err("schema name must not be empty".to_owned());
    }
    let mut names: StringMap<()> = StringMap::new();
    let mut entity_names: StringMap<()> = StringMap::new();
    let mut i: usize = 0;
    while i < schema.entities.len()
        invariant
            !is_blank(schema.name@),
            i <= schema.entities@.len(),
            entity_tables_refusal(*schema, 0) == entity_tables_refusal(*schema, i as int),
            forall|n: Seq<char>| #[trigger]
                names@.dom().contains(n) <==> entity_name_taken(*schema, i as int, n),
            forall|n: Seq<char>| #[trigger]
                entity_names@.dom().contains(n) <==> entity_name_taken(*schema, i as int, n),
        decreases schema.entities@.len() - i,
    {
        let entity = &schema.entities[i];
        let ghost before = names@.dom();
        validate_table_name("entity", &entity.name, &mut names)?;
        entity_names.insert(entity.name.clone(), ());
        validate_columns(entity.name.as_str(), &entity.columns)?;
        if entity.identity_columns.len() == 0 {
            return Err(
                "entity table `".to_owned().concat(entity.name.as_str()).concat(
                    "` must declare an identity column",
                ),
            );
        }
        validate_identity(entity)?;
        proof {
            assert forall|n: Seq<char>| #[trigger] entity_name_taken(*schema, i + 1, n) <==> (
            entity_name_taken(*schema, i as int, n) || n == entity.name@) by {
                if n == entity.name@ {
                    assert(schema.entities@[i as int].name@ == n);
                }
            }
        }
        i = i + 1;
    }
    let ghost count = schema.entities@.len() as int;
    let mut k: usize = 0;
    while k < schema.relationships.len()
        invariant
            !is_blank(schema.name@),
            count == schema.entities@.len(),
            k <= schema.relationships@.len(),
            entity_tables_refusal(*schema, 0) is None,
            relationship_tables_refusal(*schema, 0) == relationship_tables_refusal(
                *schema,
                k as int,
            ),
            forall|n: Seq<char>| #[trigger]
                names@.dom().contains(n) <==> relationship_name_taken(*schema, k as int, n),
            forall|n: Seq<char>| #[trigger]
                entity_names@.dom().contains(n) <==> entity_name_taken(*schema, count, n),
        decreases schema.relationships@.len() - k,
    {
        let relationship = &schema.relationships[k];
        validate_table_name("relationship", &relationship.name, &mut names)?;
        validate_columns(relationship.name.as_str(), &relationship.columns)?;
        proof {
            assert forall|n: Seq<char>| #[trigger] relationship_name_taken(*schema, k + 1, n)
                <==> (relationship_name_taken(*schema, k as int, n) || n == relationship.name@) by {
                if n == relationship.name@ {
                    assert(schema.relationships@[k as int].name@ == n);
                }
            }
        }
        k = k + 1;
    }
    let mut e: usize = 0;
    while e < schema.relationships.len()
        invariant
            !is_blank(schema.name@),
            count == schema.entities@.len(),
            e <= schema.relationships@.len(),
            entity_tables_refusal(*schema, 0) is None,
            relationship_tables_refusal(*schema, 0) is None,
            ends_refusal(*schema, 0) == ends_refusal(*schema, e as int),
            forall|n: Seq<char>| #[trigger]
                entity_names@.dom().contains(n) <==> entity_name_taken(*schema, count, n),
        decreases schema.relationships@.len() - e,
    {
        let relationship = &schema.relationships[e];
        validate_end(
            schema,
            &entity_names,
            relationship.name.as_str(),
            "from_table",
            relationship.from_table.as_str(),
        )?;
        validate_end(
            schema,
            &entity_names,
            relationship.name.as_str(),
            "to_table",
            relationship.to_table.as_str(),
        )?;
        e = e + 1;
    }
    Ok(())
}

/// The name of a property type.
pub open spec fn type_label(t: PropertyType) -> Seq<char> {
    match t {
        PropertyType::String => "String"@,
        PropertyType::Boolean => "Boolean"@,
        PropertyType::Integer => "Integer"@,
        PropertyType::Number => "Number"@,
        PropertyType::Array => "Array"@,
        PropertyType::Object => "Object"@,
        PropertyType::Null => "Null"@,
    }
}

/// A value has the shape of a property type.
pub open spec fn type_matches(t: PropertyType, j: JsonView) -> bool {
    match t {
        PropertyType::String => j is String,
        PropertyType::Boolean => j is Bool,
        PropertyType::Integer => j matches JsonView::Number(n) && !(n is Float),
        PropertyType::Number => j is Number,
        PropertyType::Array => j is Array,
        PropertyType::Object => j is Object,
        PropertyType::Null => j is Null,
    }
}

/// The name of a property type.
fn property_type_name(t: PropertyType) -> (r: &'static str)
    ensures
        r@ == type_label(t),
{
    match t {
        PropertyType::String => "String",
        PropertyType::Boolean => "Boolean",
        PropertyType::Integer => "Integer",
        PropertyType::Number => "Number",
        PropertyType::Array => "Array",
        PropertyType::Object => "Object",
        PropertyType::Null => "Null",
    }
}

/// Whether a value has the shape of a property type.
fn property_type_matches(t: PropertyType, value: &Json) -> (r: bool)
    ensures
        r == type_matches(t, value@),
{
    broadcast use lemma_json_view;

    match t {
        PropertyType::String => matches!(value, Json::String(_)),
        PropertyType::Boolean => matches!(value, Json::Bool(_)),
        PropertyType::Integer => match value {
            Json::Number(n) => n.is_integer(),
            _ => false,
        },
        PropertyType::Number => matches!(value, Json::Number(_)),
        PropertyType::Array => matches!(value, Json::Array(_)),
        PropertyType::Object => matches!(value, Json::Object(_)),
        PropertyType::Null => matches!(value, Json::Null),
    }
}

/// What is wrong with the properties of a row from position `k` on.
pub open spec fn values_refusal(
    table: Seq<char>,
    columns: Seq<PropertyColumn>,
    allow: bool,
    properties: Seq<(Seq<char>, JsonView)>,
    k: int,
) -> Option<Seq<char>>
    decreases properties.len() - k,
{
    if k < 0 || k >= properties.len() {
        None
    } else {
        let name = properties[k].0;
        first_refusal(
            match column_at(columns, name, 0) {
                Some(c) => if type_matches(columns[c].property_type, properties[k].1) {
                    None
                } else {
                    Some(
                        "property `"@ + name + "` in table `"@ + table + "` must be "@ + type_label(
                            columns[c].property_type,
                        ),
                    )
                },
                None => if allow {
                    None
                } else {
                    Some("unknown property `"@ + name + "` in table `"@ + table + "`"@)
                },
            },
            values_refusal(table, columns, allow, properties, k + 1),
        )
    }
}

/// The required properties that a row lacks, from column `k` on.
pub open spec fn required_refusal(
    table: Seq<char>,
    columns: Seq<PropertyColumn>,
    properties: Seq<(Seq<char>, JsonView)>,
    k: int,
) -> Option<Seq<char>>
    decreases columns.len() - k,
{
    if k < 0 || k >= columns.len() {
        None
    } else if columns[k].required && member(properties, columns[k].name@) is None {
        Some(
            "missing required property `"@ + columns[k].name@ + "` in table `"@ + table + "`"@,
        )
    } else {
        required_refusal(table, columns, properties, k + 1)
    }
}

/// Why the properties of a row are refused.
pub open spec fn properties_refusal(
    table: Seq<char>,
    columns: Seq<PropertyColumn>,
    allow: bool,
    properties: Seq<(Seq<char>, JsonView)>,
) -> Option<Seq<char>> {
    first_refusal(
        values_refusal(table, columns, allow, properties, 0),
        required_refusal(table, columns, properties, 0),
    )
}

/// Checks the properties of a row.
fn validate_properties(
    table_name: &str,
    columns: &Vec<PropertyColumn>,
    allow_model_properties: bool,
    properties: &StringMap<Json>,
) -> (r: Result<(), String>)
    ensures
        match properties_refusal(
            table_name@,
            columns@,
            allow_model_properties,
            object_view(*properties),
        ) {
            Some(m) => r matches Err(e) && e@ == m,
            None => r is Ok,
        },
{
    proof {
        use_type_invariant(properties);
    }
    let ghost view = object_view(*properties);
    let n: usize = properties.len();
    let mut i: usize = 0;
    while i < n
        invariant
            properties.ordered(),
            view == object_view(*properties),
            n == properties.keys().len(),
            i <= n,
            values_refusal(table_name@, columns@, allow_model_properties, view, 0)
                == values_refusal(table_name@, columns@, allow_model_properties, view, i as int),
        decreases n - i,
    {
        let name = properties.key_at(i);
        let value = properties.value_at(i);
        assert(view[i as int] == (name@, value@));
        match find_column(columns, name.as_str()) {
            Some(c) => {
                if !property_type_matches(columns[c].property_type, value) {
                    return Err(
                        "property `".to_owned().concat(name.as_str()).concat(
                            "` in table `",
                        ).concat(table_name).concat("` must be ").concat(
                            property_type_name(columns[c].property_type),
                        ),
                    );
                }
            },
            None => {
                if !allow_model_properties {
                    return Err(
                        "unknown property `".to_owned().concat(name.as_str()).concat(
                            "` in table `",
                        ).concat(table_name).concat("`"),
                    );
                }
            },
        }
        i = i + 1;
    }
    let mut k: usize = 0;
    while k < columns.len()
        invariant
            properties.ordered(),
            view == object_view(*properties),
            k <= columns@.len(),
            values_refusal(table_name@, columns@, allow_model_properties, view, 0) is None,
            required_refusal(table_name@, columns@, view, 0) == required_refusal(
                table_name@,
                columns@,
                view,
                k as int,
            ),
        decreases columns@.len() - k,
    {
        let column = &columns[k];
        proof {
            lemma_object_member(*properties, column.name@);
        }
        if column.required && !properties.contains_key(column.name.as_str()) {
            return Err(
                "missing required property `".to_owned().concat(column.name.as_str()).concat(
                    "` in table `",
                ).concat(table_name).concat("`"),
            );
        }
        k = k + 1;
    }
    Ok(())
}

/// `value` with its length in bytes and a colon before it.
pub open spec fn length_prefixed(value: Seq<char>) -> Seq<char> {
    decimal(encode_utf8(value).len()) + ":"@ + value
}

/// The canonical text of a value.
pub open spec fn canonical_value(j: JsonView) -> Seq<char>
    decreases j,
{
    match j {
        JsonView::Null => "null"@,
        JsonView::Bool(b) => if b {
            "true"@
        } else {
            "false"@
        },
        JsonView::Number(n) => "number:"@ + length_prefixed(number_text(n)),
        JsonView::String(s) => "string:"@ + length_prefixed(s),
        JsonView::Array(v) => "array:"@ + decimal(v.len()) + ":"@ + canonical_items(v),
        JsonView::Object(m) => "object:"@ + decimal(m.len()) + ":"@ + canonical_members(m),
    }
}

/// The canonical texts of values, one after the other.
pub open spec fn canonical_items(v: Seq<JsonView>) -> Seq<char>
    decreases v,
{
    if v.len() == 0 {
        Seq::empty()
    } else {
        canonical_items(v.drop_last()) + canonical_value(v[v.len() - 1])
    }
}

/// The canonical texts of members, one after the other.
pub open spec fn canonical_members(m: Seq<(Seq<char>, JsonView)>) -> Seq<char>
    decreases m,
{
    if m.len() == 0 {
        Seq::empty()
    } else {
        canonical_members(m.drop_last()) + length_prefixed(m[m.len() - 1].0) + canonical_value(
            m[m.len() - 1].1,
        )
    }
}

/// The canonical text of an object.
pub open spec fn canonical_object(m: Seq<(Seq<char>, JsonView)>) -> Seq<char> {
    "object:"@ + decimal(m.len()) + ":"@ + canonical_members(m)
}

/// The id of an entity: its table and its identity.
pub open spec fn entity_id_text(
    table: Seq<char>,
    identity: Seq<(Seq<char>, JsonView)>,
) -> Seq<char> {
    "entity:"@ + length_prefixed(table) + ":"@ + canonical_object(identity)
}

/// The id of a relationship: its table, its ends, and its properties.
pub open spec fn relationship_id_text(
    table: Seq<char>,
    from: Seq<char>,
    to: Seq<char>,
    properties: Seq<(Seq<char>, JsonView)>,
) -> Seq<char> {
    "relationship:"@ + length_prefixed(table) + length_prefixed(from) + length_prefixed(to)
        + canonical_object(properties)
}

/// Appends `value` with its length in bytes before it.
fn append_length_prefixed(out: &mut String, value: &str)
    ensures
        final(out)@ == old(out)@ + length_prefixed(value@),
{
    let length = decimal_text(value.as_bytes().len() as u128);
    out.append(length.as_str());
    out.append(":");
    out.append(value);
    assert(out@ =~= old(out)@ + length_prefixed(value@));
}

/// Appends the canonical text of a value.
fn append_canonical_value(out: &mut String, value: &Json)
    ensures
        final(out)@ == old(out)@ + canonical_value(value@),
    decreases value,
{
    broadcast use lemma_json_view;

    match value {
        Json::Null => out.append("null"),
        Json::Bool(b) => out.append(
            if *b {
                "true"
            } else {
                "false"
            },
        ),
        Json::Number(n) => {
            out.append("number:");
            append_length_prefixed(out, n.to_text().as_str());
            assert(out@ =~= old(out)@ + canonical_value(value@));
        },
        Json::String(s) => {
            out.append("string:");
            append_length_prefixed(out, s.as_str());
            assert(out@ =~= old(out)@ + canonical_value(value@));
        },
        Json::Array(v) => {
            out.append("array:");
            out.append(decimal_text(v.len() as u128).as_str());
            out.append(":");
            append_canonical_items(out, v);
            assert(out@ =~= old(out)@ + canonical_value(value@));
        },
        Json::Object(m) => {
            append_canonical_map(out, m);
        },
    }
}

/// Appends the canonical texts of values.
fn append_canonical_items(out: &mut String, v: &Vec<Json>)
    ensures
        final(out)@ == old(out)@ + canonical_items(array_view(v@)),
    decreases v,
{
    let ghost head = out@;
    let ghost view = array_view(v@);
    let mut i: usize = 0;
    assert(out@ =~= head + canonical_items(view.take(0)));
    while i < v.len()
        invariant
            i <= v@.len(),
            view == array_view(v@),
            out@ == head + canonical_items(view.take(i as int)),
        decreases v@.len() - i,
    {
        proof {
            assert(decreases_to!(v => v@));
            assert(decreases_to!(v@ => v@[i as int]));
            assert(view.take(i + 1).drop_last() =~= view.take(i as int));
            assert(view.take(i + 1)[i as int] == v@[i as int]@);
        }
        append_canonical_value(out, &v[i]);
        assert(out@ =~= head + canonical_items(view.take(i + 1)));
        i = i + 1;
    }
    assert(view.take(i as int) =~= view);
}

/// Appends the canonical text of an object.
fn append_canonical_map(out: &mut String, values: &StringMap<Json>)
    ensures
        final(out)@ == old(out)@ + canonical_object(object_view(*values)),
    decreases values,
{
    proof {
        use_type_invariant(values);
    }
    let n: usize = values.len();
    out.append("object:");
    out.append(decimal_text(n as u128).as_str());
    out.append(":");
    let ghost head = out@;
    let ghost view = object_view(*values);
    let mut i: usize = 0;
    assert(out@ =~= head + canonical_members(view.take(0)));
    while i < n
        invariant
            values.ordered(),
            n == values.keys().len(),
            i <= n,
            view == object_view(*values),
            out@ == head + canonical_members(view.take(i as int)),
        decreases n - i,
    {
        proof {
            StringMap::lemma_value_decreases(*values, i as int);
            assert(view.take(i + 1).drop_last() =~= view.take(i as int));
            assert(view.take(i + 1)[i as int] == (
                values.keys()[i as int],
                values.values()[i as int]@,
            ));
        }
        append_length_prefixed(out, values.key_at(i).as_str());
        append_canonical_value(out, values.value_at(i));
        assert(out@ =~= head + canonical_members(view.take(i + 1)));
        i = i + 1;
    }
    assert(view.take(i as int) =~= view);
    assert(out@ =~= old(out)@ + canonical_object(view));
}

/// The id of an entity.
pub fn entity_id(table: &str, identity: &StringMap<Json>) -> (r: String)
    ensures
        r@ == entity_id_text(table@, object_view(*identity)),
{
    let mut id = "entity:".to_owned();
    append_length_prefixed(&mut id, table);
    id.append(":");
    append_canonical_map(&mut id, identity);
    assert(id@ =~= entity_id_text(table@, object_view(*identity)));
    id
}

/// The id of a relationship.
pub fn relationship_id(
    table: &str,
    from: &str,
    to: &str,
    properties: &StringMap<Json>,
) -> (r: String)
    ensures
        r@ == relationship_id_text(table@, from@, to@, object_view(*properties)),
{
    let mut id = "relationship:".to_owned();
    append_length_prefixed(&mut id, table);
    append_length_prefixed(&mut id, from);
    append_length_prefixed(&mut id, to);
    append_canonical_map(&mut id, properties);
    assert(id@ =~= relationship_id_text(table@, from@, to@, object_view(*properties)));
    id
}

/// `name` is an identity column of the table.
pub open spec fn is_identity_column(table: EntityTable, name: Seq<char>) -> bool {
    texts(table.identity_columns@).contains(name)
}

/// The identity of a row: the members whose key is an identity column, in order.
pub open spec fn identity_of(
    table: EntityTable,
    properties: Seq<(Seq<char>, JsonView)>,
) -> Seq<(Seq<char>, JsonView)>
    decreases properties.len(),
{
    if properties.len() == 0 {
        Seq::empty()
    } else {
        let before = identity_of(table, properties.drop_last());
        if is_identity_column(table, properties.last().0) {
            before.push(properties.last())
        } else {
            before
        }
    }
}

/// The identity columns that a row lacks, from position `k` on.
pub open spec fn identity_missing(
    table: EntityTable,
    properties: Seq<(Seq<char>, JsonView)>,
    k: int,
) -> Option<Seq<char>>
    decreases table.identity_columns@.len() - k,
{
    let names = table.identity_columns@;
    if k < 0 || k >= names.len() {
        None
    } else if member(properties, names[k]@) is None {
        Some(
            "missing identity property `"@ + names[k]@ + "` in entity table `"@ + table.name@
                + "`"@,
        )
    } else {
        identity_missing(table, properties, k + 1)
    }
}

/// Whether `name` is an identity column of the table.
fn has_identity_column(table: &EntityTable, name: &str) -> (r: bool)
    ensures
        r == is_identity_column(*table, name@),
{
    let ghost all = texts(table.identity_columns@);
    let mut i: usize = 0;
    while i < table.identity_columns.len()
        invariant
            all == texts(table.identity_columns@),
            i <= all.len(),
            forall|k: int| 0 <= k < i ==> #[trigger] all[k] != name@,
        decreases all.len() - i,
    {
        if str_eq(table.identity_columns[i].as_str(), name) {
            assert(all[i as int] == name@);
            return true;
        }
        i = i + 1;
    }
    false
}

/// The identity of a row.
fn entity_identity(table: &EntityTable, properties: &StringMap<Json>) -> (r: Result<
    StringMap<Json>,
    String,
>)
    ensures
        match identity_missing(*table, object_view(*properties), 0) {
            Some(m) => r matches Err(e) && e@ == m,
            None => r matches Ok(identity) && object_view(identity) == identity_of(
                *table,
                object_view(*properties),
            ),
        },
{
    proof {
        use_type_invariant(properties);
    }
    let ghost view = object_view(*properties);
    let mut k: usize = 0;
    while k < table.identity_columns.len()
        invariant
            properties.ordered(),
            view == object_view(*properties),
            k <= table.identity_columns@.len(),
            identity_missing(*table, view, 0) == identity_missing(*table, view, k as int),
        decreases table.identity_columns@.len() - k,
    {
        let name = &table.identity_columns[k];
        proof {
            lemma_object_member(*properties, name@);
        }
        if !properties.contains_key(name.as_str()) {
            return Err(
                "missing identity property `".to_owned().concat(name.as_str()).concat(
                    "` in entity table `",
                ).concat(table.name.as_str()).concat("`"),
            );
        }
        k = k + 1;
    }
    let n: usize = properties.len();
    let ghost keys = properties.keys();
    let mut entries: Vec<(String, Json)> = Vec::new();
    let mut i: usize = 0;
    assert(identity_of(*table, view.take(0)) =~= Seq::empty());
    while i < n
        invariant
            properties.ordered(),
            keys == properties.keys(),
            view == object_view(*properties),
            n == keys.len(),
            i <= n,
            Seq::new(entries@.len(), |j: int| (entries@[j].0@, entries@[j].1@)) =~= identity_of(
                *table,
                view.take(i as int),
            ),
            strictly_sorted(Seq::new(entries@.len(), |j: int| entries@[j].0@)),
            forall|j: int|
                0 <= j < entries@.len() ==> exists|p: int|
                    0 <= p < i && keys[p] == (#[trigger] entries@[j]).0@,
        decreases n - i,
    {
        let name = properties.key_at(i);
        let ghost before = entries@;
        proof {
            assert(view.take(i + 1).drop_last() =~= view.take(i as int));
            assert(view.take(i + 1).last() == (keys[i as int], properties.values()[i as int]@));
        }
        if has_identity_column(table, name.as_str()) {
            entries.push((name.clone(), properties.value_at(i).copy()));
            proof {
                let ids = Seq::new(entries@.len(), |j: int| entries@[j].0@);
                let old_ids = Seq::new(before.len(), |j: int| before[j].0@);
                assert forall|a: int, b: int| 0 <= a < b < ids.len() implies text_less(
                    #[trigger] ids[a],
                    #[trigger] ids[b],
                ) by {
                    if b < before.len() {
                        assert(text_less(old_ids[a], old_ids[b]));
                    } else {
                        assert(entries@[a] == before[a]);
                        let p = choose|p: int| 0 <= p < i && keys[p] == before[a].0@;
                        assert(text_less(keys[p], keys[i as int]));
                    }
                }
                assert forall|j: int| 0 <= j < entries@.len() implies exists|p: int|
                    0 <= p < i + 1 && keys[p] == (#[trigger] entries@[j]).0@ by {
                    if j < before.len() {
                        assert(entries@[j] == before[j]);
                        let p = choose|p: int| 0 <= p < i && keys[p] == before[j].0@;
                        assert(keys[p] == entries@[j].0@);
                    } else {
                        assert(keys[i as int] == entries@[j].0@);
                    }
                }
            }
        } else {
            proof {
                assert forall|j: int| 0 <= j < entries@.len() implies exists|p: int|
                    0 <= p < i + 1 && keys[p] == (#[trigger] entries@[j]).0@ by {
                    let p = choose|p: int| 0 <= p < i && keys[p] == before[j].0@;
                    assert(keys[p] == entries@[j].0@);
                }
            }
        }
        i = i + 1;
    }
    assert(view.take(n as int) =~= view);
    let identity = StringMap::from_entries(entries);
    assert(object_view(identity) =~= identity_of(*table, view));
    Ok(identity)
}

/// The identity columns whose value in a reference has the wrong shape, from position `k` on.
pub open spec fn identity_values_refusal(
    table: EntityTable,
    identity: Seq<(Seq<char>, JsonView)>,
    k: int,
) -> Option<Seq<char>>
    decreases table.identity_columns@.len() - k,
{
    let names = table.identity_columns@;
    if k < 0 || k >= names.len() {
        None
    } else {
        let name = names[k]@;
        match (column_at(table.columns@, name, 0), member(identity, name)) {
            (None, _) => Some(
                "identity column `"@ + name + "` is not declared by entity table `"@ + table.name@
                    + "`"@,
            ),
            (_, None) => Some(
                "missing identity property `"@ + name + "` in entity table `"@ + table.name@
                    + "`"@,
            ),
            (Some(c), Some(value)) => if type_matches(table.columns@[c].property_type, value) {
                identity_values_refusal(table, identity, k + 1)
            } else {
                Some(
                    "identity property `"@ + name + "` in entity table `"@ + table.name@
                        + "` must be "@ + type_label(table.columns@[c].property_type),
                )
            },
        }
    }
}

/// A reference carries exactly the identity columns of its table.
pub open spec fn exact_identity(
    table: EntityTable,
    identity: Seq<(Seq<char>, JsonView)>,
) -> bool {
    &&& identity.len() == table.identity_columns@.len()
    &&& forall|i: int|
        0 <= i < table.identity_columns@.len() ==> member(
            identity,
            (#[trigger] table.identity_columns@[i])@,
        ) is Some
}

/// The id of the entity that one end of a relationship refers to, or why the reference is
/// refused.
pub open spec fn reference_outcome(
    s: EntityExtractionSchema,
    reference: EntityReference,
    expected: Seq<char>,
    end: Seq<char>,
) -> Result<Seq<char>, Seq<char>> {
    let identity = object_view(reference.identity);
    if reference.table@ != expected {
        Err(
            "relationship "@ + end + " endpoint table `"@ + reference.table@
                + "` does not match declared table `"@ + expected + "`"@,
        )
    } else {
        match entity_table_at(s.entities@, reference.table@, 0) {
            None => Err("unknown entity table `"@ + reference.table@ + "`"@),
            Some(t) => {
                let table = s.entities@[t];
                if !exact_identity(table, identity) {
                    Err(
                        "relationship "@ + end + " endpoint for entity table `"@ + table.name@
                            + "` must contain exactly its identity columns"@,
                    )
                } else {
                    match identity_values_refusal(table, identity, 0) {
                        Some(m) => Err(m),
                        None => Ok(entity_id_text(table.name@, identity)),
                    }
                }
            },
        }
    }
}

/// Whether a reference carries exactly the identity columns of its table.
fn has_exact_identity(table: &EntityTable, identity: &StringMap<Json>) -> (r: bool)
    ensures
        r == exact_identity(*table, object_view(*identity)),
{
    proof {
        use_type_invariant(identity);
    }
    let ghost view = object_view(*identity);
    if identity.len() != table.identity_columns.len() {
        return false;
    }
    let mut i: usize = 0;
    while i < table.identity_columns.len()
        invariant
            identity.ordered(),
            view == object_view(*identity),
            i <= table.identity_columns@.len(),
            forall|k: int|
                0 <= k < i ==> member(view, (#[trigger] table.identity_columns@[k])@) is Some,
        decreases table.identity_columns@.len() - i,
    {
        proof {
            lemma_object_member(*identity, table.identity_columns@[i as int]@);
        }
        if !identity.contains_key(table.identity_columns[i].as_str()) {
            return false;
        }
        i = i + 1;
    }
    true
}

/// The id of the entity that one end of a relationship refers to.
fn reference_id(
    schema: &EntityExtractionSchema,
    reference: &EntityReference,
    expected_table: &str,
    endpoint: &str,
) -> (r: Result<String, String>)
    ensures
        match reference_outcome(*schema, *reference, expected_table@, endpoint@) {
            Ok(id) => r matches Ok(x) && x@ == id,
            Err(m) => r matches Err(e) && e@ == m,
        },
{
    if !str_eq(reference.table.as_str(), expected_table) {
        return Err(
            "relationship ".to_owned().concat(endpoint).concat(" endpoint table `").concat(
                reference.table.as_str(),
            ).concat("` does not match declared table `").concat(expected_table).concat("`"),
        );
    }
    let t: usize = match find_entity_table(&schema.entities, reference.table.as_str()) {
        None => {
            return Err(
                "unknown entity table `".to_owned().concat(reference.table.as_str()).concat("`"),
            );
        },
        Some(t) => t,
    };
    let table = &schema.entities[t];
    if !has_exact_identity(table, &reference.identity) {
        return Err(
            "relationship ".to_owned().concat(endpoint).concat(
                " endpoint for entity table `",
            ).concat(table.name.as_str()).concat("` must contain exactly its identity columns"),
        );
    }
    proof {
        use_type_invariant(&reference.identity);
    }
    let ghost view = object_view(reference.identity);
    let mut i: usize = 0;
    while i < table.identity_columns.len()
        invariant
            reference.identity.ordered(),
            view == object_view(reference.identity),
            i <= table.identity_columns@.len(),
            identity_values_refusal(*table, view, 0) == identity_values_refusal(
                *table,
                view,
                i as int,
            ),
            reference.table@ == expected_table@,
            entity_table_at(schema.entities@, reference.table@, 0) == Some(t as int),
            t < schema.entities@.len(),
            *table == schema.entities@[t as int],
            exact_identity(*table, view),
        decreases table.identity_columns@.len() - i,
    {
        let name = &table.identity_columns[i];
        proof {
            lemma_object_member(reference.identity, name@);
        }
        let c: usize = match find_column(&table.columns, name.as_str()) {
            None => {
                return Err(
                    "identity column `".to_owned().concat(name.as_str()).concat(
                        "` is not declared by entity table `",
                    ).concat(table.name.as_str()).concat("`"),
                );
            },
            Some(c) => c,
        };
        match reference.identity.get(name.as_str()) {
            None => {
                return Err(
                    "missing identity property `".to_owned().concat(name.as_str()).concat(
                        "` in entity table `",
                    ).concat(table.name.as_str()).concat("`"),
                );
            },
            Some(value) => {
                if !property_type_matches(table.columns[c].property_type, value) {
                    return Err(
                        "identity property `".to_owned().concat(name.as_str()).concat(
                            "` in entity table `",
                        ).concat(table.name.as_str()).concat("` must be ").concat(
                            property_type_name(table.columns[c].property_type),
                        ),
                    );
                }
            },
        }
        i = i + 1;
    }
    Ok(entity_id(table.name.as_str(), &reference.identity))
}

/// The refusal of two different candidates with one id.
pub open spec fn conflict_message(kind: Seq<char>, id: Seq<char>) -> Seq<char> {
    "conflicting "@ + kind + " candidates share derived id `"@ + id + "`"@
}

/// The nodes after an entity is taken in: a new node, or an equal one again; or why the entity
/// is refused.
pub open spec fn accept_entity(
    s: EntityExtractionSchema,
    nodes: Map<Seq<char>, NodeView>,
    entity: CandidateEntity,
) -> Result<Map<Seq<char>, NodeView>, Seq<char>> {
    match entity_table_at(s.entities@, entity.table@, 0) {
        None => Err("unknown entity table `"@ + entity.table@ + "`"@),
        Some(t) => {
            let table = s.entities@[t];
            let properties = object_view(entity.properties);
            let refusal = first_refusal(
                properties_refusal(
                    table.name@,
                    table.columns@,
                    table.allow_model_properties,
                    properties,
                ),
                identity_missing(table, properties, 0),
            );
            let node = NodeView {
                id: entity_id_text(table.name@, identity_of(table, properties)),
                labels: texts(table.labels@),
                properties,
            };
            match refusal {
                Some(m) => Err(m),
                None => if !nodes.dom().contains(node.id) {
                    Ok(nodes.insert(node.id, node))
                } else if node_same(nodes[node.id], node) {
                    Ok(nodes)
                } else {
                    Err(conflict_message("entity"@, node.id))
                },
            }
        },
    }
}

/// The nodes of a sequence of entities, or the first refusal.
pub open spec fn accept_entities(
    s: EntityExtractionSchema,
    entities: Seq<CandidateEntity>,
) -> Result<Map<Seq<char>, NodeView>, Seq<char>>
    decreases entities.len(),
{
    if entities.len() == 0 {
        Ok(Map::empty())
    } else {
        match accept_entities(s, entities.drop_last()) {
            Err(m) => Err(m),
            Ok(nodes) => accept_entity(s, nodes, entities.last()),
        }
    }
}

/// The relationships after a relationship is taken in, or why it is refused.
pub open spec fn accept_relationship(
    s: EntityExtractionSchema,
    nodes: Map<Seq<char>, NodeView>,
    relationships: Map<Seq<char>, RelationshipView>,
    relationship: CandidateRelationship,
) -> Result<Map<Seq<char>, RelationshipView>, Seq<char>> {
    match relationship_table_at(s.relationships@, relationship.table@, 0) {
        None => Err("unknown relationship table `"@ + relationship.table@ + "`"@),
        Some(t) => {
            let table = s.relationships@[t];
            let properties = object_view(relationship.properties);
            let from = reference_outcome(s, relationship.from, table.from_table@, "from"@);
            let to = reference_outcome(s, relationship.to, table.to_table@, "to"@);
            match properties_refusal(
                table.name@,
                table.columns@,
                table.allow_model_properties,
                properties,
            ) {
                Some(m) => Err(m),
                None => match (from, to) {
                    (Err(m), _) => Err(m),
                    (_, Err(m)) => Err(m),
                    (Ok(a), Ok(b)) => {
                        let rel = RelationshipView {
                            id: relationship_id_text(table.name@, a, b, properties),
                            from: a,
                            to: b,
                            kind: table.kind@,
                            weight: DoubleView { bits: 0x3ff0_0000_0000_0000, text: "1"@ },
                            properties,
                        };
                        if !nodes.dom().contains(a) || !nodes.dom().contains(b) {
                            Err(
                                "relationship table `"@ + table.name@
                                    + "` references an entity absent from the candidate"@,
                            )
                        } else if !relationships.dom().contains(rel.id) {
                            Ok(relationships.insert(rel.id, rel))
                        } else if relationship_same(relationships[rel.id], rel) {
                            Ok(relationships)
                        } else {
                            Err(conflict_message("relationship"@, rel.id))
                        }
                    },
                },
            }
        },
    }
}

/// The relationships of a sequence of candidates, or the first refusal.
pub open spec fn accept_relationships(
    s: EntityExtractionSchema,
    nodes: Map<Seq<char>, NodeView>,
    relationships: Seq<CandidateRelationship>,
) -> Result<Map<Seq<char>, RelationshipView>, Seq<char>>
    decreases relationships.len(),
{
    if relationships.len() == 0 {
        Ok(Map::empty())
    } else {
        match accept_relationships(s, nodes, relationships.drop_last()) {
            Err(m) => Err(m),
            Ok(accepted) => accept_relationship(s, nodes, accepted, relationships.last()),
        }
    }
}

/// The graph of a candidate, or why the candidate is refused: its entities in order, and then
/// its relationships in order.
pub open spec fn candidate_outcome(
    s: EntityExtractionSchema,
    candidate: EntityExtractionCandidate,
) -> Result<GraphView, Seq<char>> {
    match accept_entities(s, candidate.entities@) {
        Err(m) => Err(m),
        Ok(nodes) => match accept_relationships(s, nodes, candidate.relationships@) {
            Err(m) => Err(m),
            Ok(relationships) => Ok(GraphView { nodes, relationships }),
        },
    }
}

/// Every node stands under its id.
spec fn nodes_keyed(m: Map<Seq<char>, NodeView>) -> bool {
    forall|k: Seq<char>| #[trigger] m.dom().contains(k) ==> m[k].id == k
}

/// Every relationship stands under its id and leads from node to node.
spec fn relationships_keyed(
    nodes: Map<Seq<char>, NodeView>,
    m: Map<Seq<char>, RelationshipView>,
) -> bool {
    forall|k: Seq<char>| #[trigger]
        m.dom().contains(k) ==> m[k].id == k && nodes.dom().contains(m[k].from)
            && nodes.dom().contains(m[k].to)
}

/// Takes an entity into the nodes.
fn take_entity(
    schema: &EntityExtractionSchema,
    nodes: &mut StringMap<GraphNode>,
    entity: CandidateEntity,
) -> (r: Result<(), String>)
    requires
        nodes_keyed(node_map(old(nodes)@)),
    ensures
        match accept_entity(*schema, node_map(old(nodes)@), entity) {
            Err(m) => r matches Err(e) && e@ == m,
            Ok(after) => r is Ok && node_map(final(nodes)@) == after && nodes_keyed(after),
        },
{
    let t: usize = match find_entity_table(&schema.entities, entity.table.as_str()) {
        None => {
            return Err(
                "unknown entity table `".to_owned().concat(entity.table.as_str()).concat("`"),
            );
        },
        Some(t) => t,
    };
    let table = &schema.entities[t];
    validate_properties(
        table.name.as_str(),
        &table.columns,
        table.allow_model_properties,
        &entity.properties,
    )?;
    let identity = entity_identity(table, &entity.properties)?;
    let node = GraphNode {
        id: entity_id(table.name.as_str(), &identity),
        labels: copy_texts(&table.labels),
        properties: entity.properties,
    };
    let ghost before = node_map(nodes@);
    if let Some(existing) = nodes.get(node.id.as_str()) {
        assert(before[node.id@] == existing@);
        if existing.same(&node) {
            return Ok(());
        }
        return Err(
            "conflicting ".to_owned().concat("entity").concat(
                " candidates share derived id `",
            ).concat(node.id.as_str()).concat("`"),
        );
    }
    nodes.insert(node.id.clone(), node);
    assert(node_map(nodes@) =~= before.insert(node.id@, node@));
    Ok(())
}

/// Takes a relationship into the relationships.
fn take_relationship(
    schema: &EntityExtractionSchema,
    nodes: &StringMap<GraphNode>,
    relationships: &mut StringMap<GraphRelationship>,
    relationship: CandidateRelationship,
) -> (r: Result<(), String>)
    requires
        relationships_keyed(node_map(nodes@), relationship_map(old(relationships)@)),
    ensures
        match accept_relationship(
            *schema,
            node_map(nodes@),
            relationship_map(old(relationships)@),
            relationship,
        ) {
            Err(m) => r matches Err(e) && e@ == m,
            Ok(after) => r is Ok && relationship_map(final(relationships)@) == after
                && relationships_keyed(node_map(nodes@), after),
        },
{
    let t: usize = match find_relationship_table(
        &schema.relationships,
        relationship.table.as_str(),
    ) {
        None => {
            return Err(
                "unknown relationship table `".to_owned().concat(
                    relationship.table.as_str(),
                ).concat("`"),
            );
        },
        Some(t) => t,
    };
    let table = &schema.relationships[t];
    validate_properties(
        table.name.as_str(),
        &table.columns,
        table.allow_model_properties,
        &relationship.properties,
    )?;
    let from = reference_id(schema, &relationship.from, table.from_table.as_str(), "from")?;
    let to = reference_id(schema, &relationship.to, table.to_table.as_str(), "to")?;
    if !nodes.contains_key(from.as_str()) || !nodes.contains_key(to.as_str()) {
        return Err(
            "relationship table `".to_owned().concat(table.name.as_str()).concat(
                "` references an entity absent from the candidate",
            ),
        );
    }
    let rel = GraphRelationship {
        id: relationship_id(
            table.name.as_str(),
            from.as_str(),
            to.as_str(),
            &relationship.properties,
        ),
        from,
        to,
        kind: table.kind.clone(),
        weight: Double::one(),
        properties: relationship.properties,
    };
    let ghost before = relationship_map(relationships@);
    if let Some(existing) = relationships.get(rel.id.as_str()) {
        assert(before[rel.id@] == existing@);
        if existing.same(&rel) {
            return Ok(());
        }
        return Err(
            "conflicting ".to_owned().concat("relationship").concat(
                " candidates share derived id `",
            ).concat(rel.id.as_str()).concat("`"),
        );
    }
    relationships.insert(rel.id.clone(), rel);
    assert(relationship_map(relationships@) =~= before.insert(rel.id@, rel@));
    Ok(())
}

/// Builds the graph of accepted nodes and relationships.
fn build_delta(
    nodes: StringMap<GraphNode>,
    relationships: StringMap<GraphRelationship>,
) -> (r: Result<MemoryGraph, PluginError>)
    requires
        nodes_keyed(node_map(nodes@)),
        relationships_keyed(node_map(nodes@), relationship_map(relationships@)),
    ensures
        r matches Ok(g) && g.wf() && g@ == (GraphView {
            nodes: node_map(nodes@),
            relationships: relationship_map(relationships@),
        }),
{
    let ghost all_nodes = node_map(nodes@);
    let ghost all_rels = relationship_map(relationships@);
    let ghost node_keys = nodes.keys();
    let ghost rel_keys = relationships.keys();
    let ghost nodes_then = nodes;
    let ghost rels_then = relationships;
    proof {
        use_type_invariant(&nodes);
        use_type_invariant(&relationships);
        StringMap::lemma_view_len(nodes);
        StringMap::lemma_view_len(relationships);
        assert(nodes@.dom() =~= all_nodes.dom());
        assert(relationships@.dom() =~= all_rels.dom());
    }
    let mut delta = MemoryGraph::with_capacity(nodes.len(), relationships.len());
    let node_entries = nodes.into_entries();
    let rel_entries = relationships.into_entries();
    for entry in it: node_entries
        invariant
            it.seq() == node_entries@,
            nodes_then.ordered(),
            node_keys == nodes_then.keys(),
            all_nodes == node_map(nodes_then@),
            nodes_keyed(all_nodes),
            node_entries@.len() == node_keys.len(),
            forall|k: int|
                0 <= k < node_entries@.len() ==> (#[trigger] node_entries@[k]).0@ == node_keys[k]
                    && node_entries@[k].1 == nodes_then.values()[k],
            delta.wf(),
            delta@.relationships == Map::<Seq<char>, RelationshipView>::empty(),
            delta@.nodes.dom() =~= node_keys.take(it.index() as int).to_set(),
            forall|k: Seq<char>| #[trigger]
                delta@.nodes.dom().contains(k) ==> delta@.nodes[k] == all_nodes[k],
    {
        let ghost i = it.index() as int;
        proof {
            StringMap::lemma_view_at(nodes_then, i);
            assert(all_nodes.dom().contains(node_keys[i]));
            lemma_take_more(node_keys, i);
        }
        delta.upsert_node(entry.1);
    }
    proof {
        assert(node_keys.take(node_keys.len() as int) =~= node_keys);
        assert(delta@.nodes =~= all_nodes);
    }
    for entry in it: rel_entries
        invariant
            it.seq() == rel_entries@,
            rels_then.ordered(),
            rel_keys == rels_then.keys(),
            all_rels == relationship_map(rels_then@),
            relationships_keyed(all_nodes, all_rels),
            rel_entries@.len() == rel_keys.len(),
            forall|k: int|
                0 <= k < rel_entries@.len() ==> (#[trigger] rel_entries@[k]).0@ == rel_keys[k]
                    && rel_entries@[k].1 == rels_then.values()[k],
            delta.wf(),
            delta@.nodes == all_nodes,
            delta@.relationships.dom() =~= rel_keys.take(it.index() as int).to_set(),
            forall|k: Seq<char>| #[trigger]
                delta@.relationships.dom().contains(k) ==> delta@.relationships[k] == all_rels[k],
    {
        let ghost i = it.index() as int;
        proof {
            StringMap::lemma_view_at(rels_then, i);
            assert(all_rels.dom().contains(rel_keys[i]));
            lemma_take_more(rel_keys, i);
        }
        delta.add_relationship(entry.1)?;
    }
    proof {
        assert(rel_keys.take(rel_keys.len() as int) =~= rel_keys);
        assert(delta@.relationships =~= all_rels);
    }
    Ok(delta)
}

/// Why a relationship cannot stand beside `nodes`: its source, or else its target, is none of
/// them.
pub open spec fn missing_end(nodes: Map<Seq<char>, NodeView>, rel: RelationshipView) -> Option<
    Seq<char>,
> {
    if !nodes.dom().contains(rel.from) {
        Some(unknown_end_message(rel.id, rel.from, "from"@))
    } else if !nodes.dom().contains(rel.to) {
        Some(unknown_end_message(rel.id, rel.to, "to"@))
    } else {
        None
    }
}

/// The relationship in position `k` lacks an end.
pub open spec fn lacks_end(s: SnapshotView, k: int) -> bool {
    missing_end(nodes_by_id(s.nodes), s.relationships[k]) is Some
}

/// Of the relationships up to position `n` that lack an end, the one in position `k` comes first
/// by id, and by position where ids are equal.
pub open spec fn is_first_fault(s: SnapshotView, n: int, k: int) -> bool {
    &&& 0 <= k < n
    &&& lacks_end(s, k)
    &&& forall|j: int|
        0 <= j < n && j != k && #[trigger] lacks_end(s, j) ==> text_less(
            s.relationships[k].id,
            s.relationships[j].id,
        ) || (s.relationships[k].id == s.relationships[j].id && k < j)
}

/// The graph of a delta that was written down. A later node or relationship replaces an earlier
/// one with its id, and the delta is refused for the first relationship by id that lacks an end.
pub fn restore_delta(snapshot: GraphSnapshot) -> (r: Result<MemoryGraph, PluginError>)
    ensures
        match r {
            Ok(g) => {
                &&& forall|k: int|
                    0 <= k < snapshot@.relationships.len() ==> !#[trigger] lacks_end(snapshot@, k)
                &&& g.wf()
                &&& g@ == graph_of(snapshot@)
            },
            Err(e) => e matches PluginError::Internal(m) && exists|k: int| #[trigger]
                is_first_fault(snapshot@, snapshot@.relationships.len() as int, k) && missing_end(
                    nodes_by_id(snapshot@.nodes),
                    snapshot@.relationships[k],
                ) == Some(m@),
        },
{
    let ghost s = snapshot@;
    let nodes = snapshot.nodes;
    let relationships = snapshot.relationships;
    let mut graph = MemoryGraph::with_capacity(nodes.len(), relationships.len());
    proof {
        assert(s.nodes.take(0) =~= Seq::empty());
        assert(s.relationships.take(0) =~= Seq::empty());
    }
    for node in it: nodes
        invariant
            it.seq() == nodes@,
            s.nodes == node_views(nodes@),
            graph.wf(),
            graph@.nodes == nodes_by_id(s.nodes.take(it.index() as int)),
            graph@.relationships == Map::<Seq<char>, RelationshipView>::empty(),
    {
        proof {
            let i = it.index() as int;
            assert(s.nodes[i] == node@);
            assert(s.nodes.take(i + 1).drop_last() =~= s.nodes.take(i));
        }
        graph.upsert_node(node);
    }
    assert(s.nodes.take(s.nodes.len() as int) =~= s.nodes);
    let mut fault: Option<usize> = None;
    let mut i: usize = 0;
    while i < relationships.len()
        invariant
            i <= relationships@.len(),
            s.relationships == relationship_views(relationships@),
            graph.wf(),
            graph@.nodes == nodes_by_id(s.nodes),
            match fault {
                None => forall|k: int| 0 <= k < i ==> !#[trigger] lacks_end(s, k),
                Some(k) => is_first_fault(s, i as int, k as int),
            },
        decreases relationships@.len() - i,
    {
        let rel = &relationships[i];
        assert(s.relationships[i as int] == rel@);
        if graph.node(rel.from.as_str()).is_none() || graph.node(rel.to.as_str()).is_none() {
            assert(lacks_end(s, i as int));
            match fault {
                None => {
                    fault = Some(i);
                },
                Some(k) => {
                    if str_less(rel.id.as_str(), relationships[k].id.as_str()) {
                        proof {
                            assert(s.relationships[k as int] == relationships@[k as int]@);
                            assert forall|j: int| 0 <= j < i && #[trigger] lacks_end(
                                s,
                                j,
                            ) implies text_less(s.relationships[i as int].id, s.relationships[j].id) by {
                                if j != k {
                                    if s.relationships[k as int].id != s.relationships[j].id {
                                        lemma_text_less_transitive(
                                            s.relationships[i as int].id,
                                            s.relationships[k as int].id,
                                            s.relationships[j].id,
                                        );
                                    }
                                }
                            }
                        }
                        fault = Some(i);
                    } else {
                        proof {
                            assert(s.relationships[k as int] == relationships@[k as int]@);
                            lemma_text_less_total(
                                s.relationships[i as int].id,
                                s.relationships[k as int].id,
                            );
                        }
                    }
                },
            }
        }
        i = i + 1;
    }
    if let Some(k) = fault {
        let refused = graph.add_relationship(relationships[k].clone());
        assert(s.relationships[k as int] == relationships@[k as int]@);
        return match refused {
            Err(error) => Err(error),
            Ok(()) => Ok(graph),
        };
    }
    for rel in it: relationships
        invariant
            it.seq() == relationships@,
            s.relationships == relationship_views(relationships@),
            forall|k: int| 0 <= k < s.relationships.len() ==> !#[trigger] lacks_end(s, k),
            graph.wf(),
            graph@.nodes == nodes_by_id(s.nodes),
            graph@.relationships == relationships_by_id(s.relationships.take(it.index() as int)),
    {
        proof {
            let i = it.index() as int;
            assert(s.relationships[i] == rel@);
            assert(!lacks_end(s, i));
            assert(s.relationships.take(i + 1).drop_last() =~= s.relationships.take(i));
        }
        let added = graph.add_relationship(rel);
        assert(added is Ok);
    }
    assert(s.relationships.take(s.relationships.len() as int) =~= s.relationships);
    Ok(graph)
}

/// Extraction under one validated schema.
#[derive(Debug, PartialEq)]
pub struct EntityExtractionPlugin {
    schema: EntityExtractionSchema,
}

impl EntityExtractionPlugin {
    /// The schema.
    pub closed spec fn schema(&self) -> EntityExtractionSchema {
        self.schema
    }

    /// A plugin holds no schema that it would refuse.
    #[verifier::type_invariant]
    pub open spec fn valid(&self) -> bool {
        schema_refusal(self.schema()) is None
    }

    /// The error that carries the schema's name.
    fn validation_error(schema: &EntityExtractionSchema, message: String) -> (r: PluginError)
        ensures
            r matches PluginError::Validation { schema: s, message: m } && s@ == schema.name@
                && m == message,
    {
        PluginError::Validation { schema: schema.name.clone(), message }
    }

    /// Keeps a schema, or refuses it.
    pub fn new(schema: EntityExtractionSchema) -> (r: Result<EntityExtractionPlugin, PluginError>)
        ensures
            match schema_refusal(schema) {
                Some(m) => r matches Err(PluginError::Validation { schema: s, message }) && s@
                    == schema.name@ && message@ == m,
                None => r matches Ok(p) && p.schema() == schema,
            },
    {
        match validate_schema(&schema) {
            Err(message) => Err(EntityExtractionPlugin::validation_error(&schema, message)),
            Ok(()) => Ok(EntityExtractionPlugin { schema }),
        }
    }

    /// The schema that a model is asked to fill.
    pub fn schema_ref(&self) -> (r: &EntityExtractionSchema)
        ensures
            *r == self.schema(),
    {
        &self.schema
    }

    /// Takes in the entities and the relationships of a candidate.
    fn accept(&self, candidate: EntityExtractionCandidate) -> (r: Result<
        (StringMap<GraphNode>, StringMap<GraphRelationship>),
        String,
    >)
        ensures
            match candidate_outcome(self.schema(), candidate) {
                Err(m) => r matches Err(e) && e@ == m,
                Ok(g) => r matches Ok((nodes, rels)) && node_map(nodes@) == g.nodes
                    && relationship_map(rels@) == g.relationships && nodes_keyed(g.nodes)
                    && relationships_keyed(g.nodes, g.relationships),
            },
    {
        let ghost s = self.schema;
        let entities = candidate.entities;
        let candidates = candidate.relationships;
        let mut nodes: StringMap<GraphNode> = StringMap::new();
        proof {
            assert(node_map(nodes@) =~= Map::empty());
            assert(entities@.take(0) =~= Seq::empty());
        }
        for entity in it: entities
            invariant
                it.seq() == entities@,
                s == self.schema,
                nodes_keyed(node_map(nodes@)),
                accept_entities(s, entities@.take(it.index() as int)) == Ok::<_, Seq<char>>(
                    node_map(nodes@),
                ),
                candidate.entities == entities,
        {
            let ghost i = it.index() as int;
            proof {
                assert(entities@.take(i + 1).drop_last() =~= entities@.take(i));
                assert(entities@.take(i + 1).last() == entity);
            }
            let taken = take_entity(&self.schema, &mut nodes, entity);
            if let Err(message) = taken {
                proof {
                    lemma_entities_refused(s, entities@, i + 1);
                }
                return Err(message);
            }
        }
        assert(entities@.take(entities@.len() as int) =~= entities@);
        let mut relationships: StringMap<GraphRelationship> = StringMap::new();
        let ghost known = node_map(nodes@);
        proof {
            assert(relationship_map(relationships@) =~= Map::empty());
            assert(candidates@.take(0) =~= Seq::empty());
        }
        for relationship in it: candidates
            invariant
                it.seq() == candidates@,
                s == self.schema,
                known == node_map(nodes@),
                nodes_keyed(known),
                accept_entities(s, candidate.entities@) == Ok::<_, Seq<char>>(known),
                relationships_keyed(known, relationship_map(relationships@)),
                accept_relationships(s, known, candidates@.take(it.index() as int)) == Ok::<
                    _,
                    Seq<char>,
                >(relationship_map(relationships@)),
                candidate.relationships == candidates,
        {
            let ghost i = it.index() as int;
            proof {
                assert(candidates@.take(i + 1).drop_last() =~= candidates@.take(i));
                assert(candidates@.take(i + 1).last() == relationship);
            }
            let taken = take_relationship(&self.schema, &nodes, &mut relationships, relationship);
            if let Err(message) = taken {
                proof {
                    lemma_relationships_refused(s, known, candidates@, i + 1);
                }
                return Err(message);
            }
        }
        assert(candidates@.take(candidates@.len() as int) =~= candidates@);
        Ok((nodes, relationships))
    }

    /// Turns a candidate into a graph delta, or refuses it as a whole.
    pub fn validate_candidate(&self, candidate: EntityExtractionCandidate) -> (r: Result<
        EntityExtractionReport,
        PluginError,
    >)
        ensures
            match candidate_outcome(self.schema(), candidate) {
                Err(m) => r matches Err(PluginError::Validation { schema, message }) && schema@
                    == self.schema().name@ && message@ == m,
                Ok(g) => r matches Ok(report) && report.delta.wf() && report.delta@ == g
                    && report.nodes_accepted == g.nodes.dom().len()
                    && report.relationships_accepted == g.relationships.dom().len(),
            },
    {
        let accepted = self.accept(candidate);
        match accepted {
            Err(message) => Err(
                EntityExtractionPlugin::validation_error(&self.schema, message),
            ),
            Ok((nodes, relationships)) => {
                let delta = build_delta(nodes, relationships)?;
                Ok(
                    EntityExtractionReport {
                        nodes_accepted: delta.len(),
                        relationships_accepted: delta.relationship_count(),
                        delta,
                    },
                )
            },
        }
    }
}

/// A refused entity refuses all that come with it.
proof fn lemma_entities_refused(s: EntityExtractionSchema, entities: Seq<CandidateEntity>, k: int)
    requires
        0 <= k <= entities.len(),
        accept_entities(s, entities.take(k)) is Err,
    ensures
        accept_entities(s, entities) == accept_entities(s, entities.take(k)),
    decreases entities.len() - k,
{
    if k == entities.len() {
        assert(entities.take(k) =~= entities);
    } else {
        assert(entities.take(k + 1).drop_last() =~= entities.take(k));
        lemma_entities_refused(s, entities, k + 1);
    }
}

/// A refused relationship refuses all that come with it.
proof fn lemma_relationships_refused(
    s: EntityExtractionSchema,
    nodes: Map<Seq<char>, NodeView>,
    relationships: Seq<CandidateRelationship>,
    k: int,
)
    requires
        0 <= k <= relationships.len(),
        accept_relationships(s, nodes, relationships.take(k)) is Err,
    ensures
        accept_relationships(s, nodes, relationships) == accept_relationships(
            s,
            nodes,
            relationships.take(k),
        ),
    decreases relationships.len() - k,
{
    if k == relationships.len() {
        assert(relationships.take(k) =~= relationships);
    } else {
        assert(relationships.take(k + 1).drop_last() =~= relationships.take(k));
        lemma_relationships_refused(s, nodes, relationships, k + 1);
    }
}

/// A value equals itself.
proof fn lemma_json_same(a: JsonView)
    ensures
        json_same(a, a),
    decreases a,
{
    match a {
        JsonView::Array(v) => {
            assert forall|i: int| 0 <= i < v.len() implies json_same(#[trigger] v[i], v[i]) by {
                lemma_json_same(v[i]);
            }
        },
        JsonView::Object(m) => {
            lemma_members_same(m);
        },
        _ => {},
    }
}

/// An object equals itself.
proof fn lemma_members_same(m: Seq<(Seq<char>, JsonView)>)
    ensures
        members_same(m, m),
    decreases m,
{
    assert forall|i: int| 0 <= i < m.len() implies (#[trigger] m[i]).0 == m[i].0 && json_same(
        m[i].1,
        m[i].1,
    ) by {
        lemma_json_same(m[i].1);
    }
}

/// An entity that was accepted changes nothing when it comes again.
pub proof fn law_repeated_entities_change_nothing(
    s: EntityExtractionSchema,
    nodes: Map<Seq<char>, NodeView>,
    entity: CandidateEntity,
)
    ensures
        accept_entity(s, nodes, entity) matches Ok(after) ==> accept_entity(s, after, entity)
            == Ok::<_, Seq<char>>(after),
{
    lemma_members_same(object_view(entity.properties));
}

/// A relationship that was accepted changes nothing when it comes again.
pub proof fn law_repeated_relationships_change_nothing(
    s: EntityExtractionSchema,
    nodes: Map<Seq<char>, NodeView>,
    relationships: Map<Seq<char>, RelationshipView>,
    relationship: CandidateRelationship,
)
    ensures
        accept_relationship(s, nodes, relationships, relationship) matches Ok(after)
            ==> accept_relationship(s, nodes, after, relationship) == Ok::<_, Seq<char>>(after),
{
    lemma_members_same(object_view(relationship.properties));
}

/// Accepted nodes are finitely many, each under its id.
proof fn lemma_entities_keyed(s: EntityExtractionSchema, entities: Seq<CandidateEntity>)
    ensures
        accept_entities(s, entities) matches Ok(nodes) ==> nodes_keyed(nodes)
            && nodes.dom().finite(),
    decreases entities.len(),
{
    if entities.len() > 0 {
        lemma_entities_keyed(s, entities.drop_last());
    }
}

/// Accepted relationships are finitely many, each under its id and between accepted nodes.
proof fn lemma_relationships_keyed(
    s: EntityExtractionSchema,
    nodes: Map<Seq<char>, NodeView>,
    relationships: Seq<CandidateRelationship>,
)
    ensures
        accept_relationships(s, nodes, relationships) matches Ok(accepted) ==> relationships_keyed(
            nodes,
            accepted,
        ) && accepted.dom().finite(),
    decreases relationships.len(),
{
    if relationships.len() > 0 {
        lemma_relationships_keyed(s, nodes, relationships.drop_last());
    }
}

/// A delta is a graph: its relationships lead from node to node of the delta.
pub proof fn law_deltas_are_consistent(
    s: EntityExtractionSchema,
    candidate: EntityExtractionCandidate,
)
    ensures
        candidate_outcome(s, candidate) matches Ok(g) ==> consistent(g),
{
    lemma_entities_keyed(s, candidate.entities@);
    if let Ok(nodes) = accept_entities(s, candidate.entities@) {
        lemma_relationships_keyed(s, nodes, candidate.relationships@);
    }
}

/// A graph that was written down as its sorted nodes and relationships comes back.
pub proof fn law_deltas_come_back(g: GraphView, s: SnapshotView)
    requires
        consistent(g),
        is_snapshot(s, g),
    ensures
        forall|k: int| 0 <= k < s.relationships.len() ==> !#[trigger] lacks_end(s, k),
        graph_of(s) == g,
{
    lemma_graph_of_snapshot(g, s);
    assert forall|k: int| 0 <= k < s.relationships.len() implies !#[trigger] lacks_end(s, k) by {
        let rel = s.relationships[k];
        assert(relationship_ids(s.relationships)[k] == rel.id);
        assert(relationship_ids(s.relationships).contains(rel.id));
        assert(g.relationships.dom().contains(rel.id));
    }
}

} // verus!
