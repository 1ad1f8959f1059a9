//! Schema-guided extraction: schemas, candidates, ids and deltas.

use cuca_plugins::error::PluginError;
use cuca_plugins::float::Double;
use cuca_plugins::json::{Json, Number};
use cuca_plugins::plugins::entity_extraction::{
    entity_id, relationship_id, restore_delta, CandidateEntity, CandidateRelationship,
    EntityExtractionCandidate, EntityExtractionPlugin, EntityExtractionReport,
    EntityExtractionSchema, EntityReference, EntityTable, PropertyColumn, PropertyType,
    RelationshipTable,
};
use cuca_plugins::plugins::memory::graph::{
    GraphNode, GraphRelationship, GraphSnapshot, MemoryGraph, MergePolicy,
};
use cuca_plugins::plugins::memory::{MemoryConfig, MemoryPlugin};
use cuca_plugins::string_map::StringMap;

fn text(value: &str) -> Json {
    Json::String(value.to_string())
}

fn refusal(result: Result<EntityExtractionReport, PluginError>) -> String {
    match result {
        Err(PluginError::Validation { schema, message }) => {
            assert_eq!(schema, "contacts");
            message
        }
        other => panic!("expected a refusal, got {other:?}"),
    }
}

fn schema_refusal(schema: EntityExtractionSchema) -> String {
    match EntityExtractionPlugin::new(schema) {
        Err(PluginError::Validation { message, .. }) => message,
        other => panic!("expected a refusal, got {other:?}"),
    }
}

fn contacts_schema() -> EntityExtractionSchema {
    EntityExtractionSchema {
        name: "contacts".into(),
        entities: vec![EntityTable {
            name: "person".into(),
            labels: vec!["Person".into()],
            identity_columns: vec!["email".into()],
            columns: vec![
                PropertyColumn {
                    name: "email".into(),
                    property_type: PropertyType::String,
                    required: true,
                },
                PropertyColumn {
                    name: "name".into(),
                    property_type: PropertyType::String,
                    required: false,
                },
            ],
            allow_model_properties: false,
        }],
        relationships: vec![],
    }
}

fn properties(entries: &[(&str, Json)]) -> StringMap<Json> {
    StringMap::from_pairs(
        entries
            .iter()
            .map(|(name, value)| ((*name).into(), value.clone()))
            .collect(),
    )
}

fn work_schema() -> EntityExtractionSchema {
    let mut schema = contacts_schema();
    schema.entities.push(EntityTable {
        name: "company".into(),
        labels: vec!["Company".into()],
        identity_columns: vec!["domain".into()],
        columns: vec![PropertyColumn {
            name: "domain".into(),
            property_type: PropertyType::String,
            required: true,
        }],
        allow_model_properties: false,
    });
    schema.relationships.push(RelationshipTable {
        name: "works_for".into(),
        kind: "WORKS_FOR".into(),
        from_table: "person".into(),
        to_table: "company".into(),
        columns: vec![PropertyColumn {
            name: "role".into(),
            property_type: PropertyType::String,
            required: false,
        }],
        allow_model_properties: false,
    });
    schema
}

fn works_for_candidate() -> EntityExtractionCandidate {
    EntityExtractionCandidate {
        entities: vec![
            CandidateEntity {
                table: "person".into(),
                properties: properties(&[
                    ("email", text("ada@example.com")),
                    ("name", text("Ada")),
                ]),
            },
            CandidateEntity {
                table: "company".into(),
                properties: properties(&[("domain", text("example.com"))]),
            },
        ],
        relationships: vec![CandidateRelationship {
            table: "works_for".into(),
            from: EntityReference {
                table: "person".into(),
                identity: properties(&[("email", text("ada@example.com"))]),
            },
            to: EntityReference {
                table: "company".into(),
                identity: properties(&[("domain", text("example.com"))]),
            },
            properties: properties(&[("role", text("engineer"))]),
        }],
    }
}
#[test]
fn produces_schema_typed_graph_delta_for_valid_candidate() {
    let candidate = works_for_candidate();
    let person_id = entity_id(
        "person",
        &properties(&[("email", text("ada@example.com"))]),
    );
    let company_id = entity_id("company", &candidate.entities[1].properties);
    let relationship_id = relationship_id(
        "works_for",
        &person_id,
        &company_id,
        &candidate.relationships[0].properties,
    );

    let report = EntityExtractionPlugin::new(work_schema())
        .unwrap()
        .validate_candidate(candidate)
        .unwrap();

    assert_eq!(report.nodes_accepted, 2);
    assert_eq!(report.relationships_accepted, 1);
    assert_eq!(
        report.delta.node(&person_id).unwrap().labels,
        vec!["Person"]
    );
    assert_eq!(
        report.delta.node(&person_id).unwrap().properties.get("name"),
        Some(&text("Ada"))
    );
    let relationship = report.delta.relationship(&relationship_id).unwrap();
    assert_eq!(relationship.kind, "WORKS_FOR");
    assert_eq!(f64::from_bits(relationship.weight.bits), 1.0);
}

#[test]
fn report_round_trip_preserves_nonempty_graph_delta() {
    let report = EntityExtractionPlugin::new(work_schema())
        .unwrap()
        .validate_candidate(works_for_candidate())
        .unwrap();

    let decoded = EntityExtractionReport {
        nodes_accepted: report.nodes_accepted,
        relationships_accepted: report.relationships_accepted,
        delta: restore_delta(report.delta.snapshot()).unwrap(),
    };

    assert_eq!(decoded, report);
}

#[test]
fn coalesces_equal_duplicate_entity_candidates() {
    let entity = || CandidateEntity {
        table: "person".into(),
        properties: properties(&[("email", text("ada@example.com"))]),
    };
    let candidate = EntityExtractionCandidate {
        entities: vec![entity(), entity()],
        relationships: vec![],
    };

    let report = EntityExtractionPlugin::new(contacts_schema())
        .unwrap()
        .validate_candidate(candidate)
        .unwrap();

    assert_eq!(report.nodes_accepted, 1);
}

#[test]
fn rejects_conflicting_entity_candidates_with_same_identity() {
    let candidate = EntityExtractionCandidate {
        entities: vec![
            CandidateEntity {
                table: "person".into(),
                properties: properties(&[
                    ("email", text("ada@example.com")),
                    ("name", text("Ada")),
                ]),
            },
            CandidateEntity {
                table: "person".into(),
                properties: properties(&[
                    ("email", text("ada@example.com")),
                    ("name", text("Ada Lovelace")),
                ]),
            },
        ],
        relationships: vec![],
    };

    assert!(matches!(
        EntityExtractionPlugin::new(contacts_schema())
            .unwrap()
            .validate_candidate(candidate),
        Err(PluginError::Validation { .. })
    ));
}

#[test]
fn rejects_extra_properties_for_strict_tables() {
    let candidate = EntityExtractionCandidate {
        entities: vec![CandidateEntity {
            table: "person".into(),
            properties: properties(&[
                ("email", text("ada@example.com")),
                ("nickname", text("ada")),
            ]),
        }],
        relationships: vec![],
    };

    assert!(matches!(
        EntityExtractionPlugin::new(contacts_schema())
            .unwrap()
            .validate_candidate(candidate),
        Err(PluginError::Validation { .. })
    ));
}

#[test]
fn retains_extra_properties_for_permissive_tables() {
    let mut schema = contacts_schema();
    schema.entities[0].allow_model_properties = true;
    let candidate = EntityExtractionCandidate {
        entities: vec![CandidateEntity {
            table: "person".into(),
            properties: properties(&[
                ("email", text("ada@example.com")),
                ("nickname", text("ada")),
            ]),
        }],
        relationships: vec![],
    };

    let report = EntityExtractionPlugin::new(schema)
        .unwrap()
        .validate_candidate(candidate)
        .unwrap();
    assert_eq!(
        report.delta.nodes()[0].properties.get("nickname"),
        Some(&text("ada"))
    );
}

#[test]
fn rejects_incorrect_declared_json_type() {
    let candidate = EntityExtractionCandidate {
        entities: vec![CandidateEntity {
            table: "person".into(),
            properties: properties(&[("email", Json::Number(Number::from_u64(42)))]),
        }],
        relationships: vec![],
    };

    assert!(matches!(
        EntityExtractionPlugin::new(contacts_schema())
            .unwrap()
            .validate_candidate(candidate),
        Err(PluginError::Validation { .. })
    ));
}

#[test]
fn rejects_entity_missing_its_identity() {
    let candidate = EntityExtractionCandidate {
        entities: vec![CandidateEntity {
            table: "person".into(),
            properties: properties(&[("name", text("Ada"))]),
        }],
        relationships: vec![],
    };

    assert!(matches!(
        EntityExtractionPlugin::new(contacts_schema())
            .unwrap()
            .validate_candidate(candidate),
        Err(PluginError::Validation { .. })
    ));
}

#[test]
fn rejects_unknown_entity_table_candidate() {
    let candidate = EntityExtractionCandidate {
        entities: vec![CandidateEntity {
            table: "unknown".into(),
            properties: StringMap::new(),
        }],
        relationships: vec![],
    };

    assert!(matches!(
        EntityExtractionPlugin::new(contacts_schema())
            .unwrap()
            .validate_candidate(candidate),
        Err(PluginError::Validation { .. })
    ));
}

#[test]
fn rejects_unknown_relationship_table_candidate() {
    let candidate = EntityExtractionCandidate {
        entities: vec![],
        relationships: vec![CandidateRelationship {
            table: "unknown".into(),
            from: EntityReference {
                table: "person".into(),
                identity: properties(&[("email", text("ada@example.com"))]),
            },
            to: EntityReference {
                table: "person".into(),
                identity: properties(&[("email", text("bea@example.com"))]),
            },
            properties: StringMap::new(),
        }],
    };

    assert!(matches!(
        EntityExtractionPlugin::new(contacts_schema())
            .unwrap()
            .validate_candidate(candidate),
        Err(PluginError::Validation { .. })
    ));
}

#[test]
fn rejects_relationship_endpoints_with_wrong_declared_tables() {
    let mut candidate = works_for_candidate();
    candidate.relationships[0].from.table = "company".into();
    candidate.relationships[0].from.identity =
        properties(&[("domain", text("example.com"))]);

    assert!(matches!(
        EntityExtractionPlugin::new(work_schema())
            .unwrap()
            .validate_candidate(candidate),
        Err(PluginError::Validation { .. })
    ));
}

#[test]
fn rejects_identity_column_that_is_not_declared_required() {
    let schema = EntityExtractionSchema {
        name: "contacts".into(),
        entities: vec![EntityTable {
            name: "person".into(),
            labels: vec!["Person".into()],
            identity_columns: vec!["email".into()],
            columns: vec![PropertyColumn {
                name: "email".into(),
                property_type: PropertyType::String,
                required: false,
            }],
            allow_model_properties: false,
        }],
        relationships: vec![],
    };

    assert!(matches!(
        EntityExtractionPlugin::new(schema),
        Err(PluginError::Validation { .. })
    ));
}

#[test]
fn rejects_relationship_with_unknown_endpoint_table() {
    let mut schema = contacts_schema();
    schema.relationships.push(RelationshipTable {
        name: "works_for".into(),
        kind: "WORKS_FOR".into(),
        from_table: "person".into(),
        to_table: "company".into(),
        columns: vec![],
        allow_model_properties: false,
    });

    assert!(matches!(
        EntityExtractionPlugin::new(schema),
        Err(PluginError::Validation { .. })
    ));
}

#[test]
fn invalid_model_extraction_leaves_memory_graph_unchanged() {
    let mut memory = MemoryPlugin::new(MemoryConfig::default()).unwrap_or_else(|e| panic!("{e:?}"));
    let initial = EntityExtractionPlugin::new(contacts_schema())
        .unwrap()
        .validate_candidate(EntityExtractionCandidate {
            entities: vec![CandidateEntity {
                table: "person".into(),
                properties: properties(&[("email", text("bea@example.com"))]),
            }],
            relationships: vec![],
        })
        .unwrap()
        .delta;
    memory.merge_graph(initial, MergePolicy::Keep);
    let before = memory.graph().clone();
    let invalid = EntityExtractionCandidate {
        entities: vec![CandidateEntity {
            table: "unknown".into(),
            properties: StringMap::new(),
        }],
        relationships: vec![],
    };

    assert!(matches!(
        EntityExtractionPlugin::new(contacts_schema())
            .unwrap()
            .validate_candidate(invalid),
        Err(PluginError::Validation { .. })
    ));
    assert_eq!(*memory.graph(), before);
}

#[test]
fn merges_valid_model_delta_into_memory_with_keep_policy() {
    let mut memory = MemoryPlugin::new(MemoryConfig::default()).unwrap_or_else(|e| panic!("{e:?}"));
    let report = EntityExtractionPlugin::new(work_schema())
        .unwrap()
        .validate_candidate(works_for_candidate())
        .unwrap();

    let merge = memory.merge_graph(report.delta, MergePolicy::Keep);

    assert_eq!(merge.nodes_added, 2);
    assert_eq!(merge.relationships_added, 1);
    assert_eq!(memory.graph().len(), 2);
    assert_eq!(memory.graph().relationship_count(), 1);
}

#[test]
fn ids_spell_out_table_and_identity() {
    assert_eq!(
        entity_id("person", &properties(&[("email", text("a@b.c"))])),
        "entity:6:person:object:1:5:emailstring:5:a@b.c"
    );
    assert_eq!(
        entity_id(
            "t",
            &properties(&[
                ("b", Json::Array(vec![Json::Bool(true), Json::Null])),
                ("a", Json::Number(Number::from_i64(-7))),
                ("\u{e9}", Json::object(vec![])),
            ])
        ),
        "entity:1:t:object:3:1:anumber:2:-71:barray:2:truenull2:\u{e9}object:0:"
    );
    assert_eq!(
        relationship_id("r", "x", "yy", &properties(&[])),
        "relationship:1:r1:x2:yyobject:0:"
    );
}

#[test]
fn every_refusal_of_a_candidate_names_its_reason() {
    let plugin = EntityExtractionPlugin::new(work_schema()).unwrap();
    let entity = |table: &str, entries: &[(&str, Json)]| EntityExtractionCandidate {
        entities: vec![CandidateEntity { table: table.into(), properties: properties(entries) }],
        relationships: vec![],
    };
    assert_eq!(
        refusal(plugin.validate_candidate(entity("ghost", &[]))),
        "unknown entity table `ghost`"
    );
    assert_eq!(
        refusal(plugin.validate_candidate(entity("person", &[]))),
        "missing required property `email` in table `person`"
    );
    assert_eq!(
        refusal(plugin.validate_candidate(entity(
            "person",
            &[("email", text("a")), ("nickname", text("b"))]
        ))),
        "unknown property `nickname` in table `person`"
    );
    let mut absent = works_for_candidate();
    absent.entities.remove(1);
    assert_eq!(
        refusal(plugin.validate_candidate(absent)),
        "relationship table `works_for` references an entity absent from the candidate"
    );
    let mut conflicting = works_for_candidate();
    conflicting.entities.push(CandidateEntity {
        table: "person".into(),
        properties: properties(&[("email", text("ada@example.com"))]),
    });
    let id = entity_id("person", &properties(&[("email", text("ada@example.com"))]));
    assert_eq!(
        refusal(plugin.validate_candidate(conflicting)),
        format!("conflicting entity candidates share derived id `{id}`")
    );
}

#[test]
fn every_refusal_of_a_schema_names_its_reason() {
    let mut schema = contacts_schema();
    schema.entities[0].name = "  ".into();
    assert_eq!(schema_refusal(schema), "entity table name must not be empty");
    let mut schema = work_schema();
    schema.entities[1].name = "person".into();
    assert_eq!(schema_refusal(schema), "duplicate table name `person`");
    let mut schema = contacts_schema();
    schema.entities[0].identity_columns = vec!["phone".into()];
    assert_eq!(
        schema_refusal(schema),
        "identity column `phone` is not declared by entity table `person`"
    );
    let mut schema = contacts_schema();
    schema.entities[0].columns[1].name = "email".into();
    assert_eq!(schema_refusal(schema), "table `person` has duplicate column `email`");
}

#[test]
fn a_repeated_relationship_counts_once() {
    let mut candidate = works_for_candidate();
    let again = works_for_candidate().relationships.remove(0);
    candidate.relationships.push(again);
    let report = EntityExtractionPlugin::new(work_schema())
        .unwrap()
        .validate_candidate(candidate)
        .unwrap();
    assert_eq!(report.relationships_accepted, 1);
}

fn node(id: &str) -> GraphNode {
    GraphNode { id: id.into(), labels: vec![], properties: StringMap::new() }
}

fn relationship(id: &str, from: &str, to: &str) -> GraphRelationship {
    GraphRelationship {
        id: id.into(),
        from: from.into(),
        to: to.into(),
        kind: "k".into(),
        weight: Double::one(),
        properties: StringMap::new(),
    }
}

#[test]
fn a_delta_is_refused_for_its_first_dangling_relationship_by_id() {
    let refused = restore_delta(GraphSnapshot {
        nodes: vec![node("a")],
        relationships: vec![
            relationship("z", "a", "gone"),
            relationship("m", "lost", "a"),
            relationship("b", "a", "a"),
        ],
    });
    assert_eq!(
        refused,
        Err(PluginError::Internal(
            "graph relationship 'm' references unknown node 'lost' (from)".into()
        ))
    );
}

#[test]
fn later_parts_of_a_delta_replace_earlier_ones() {
    let mut second = node("a");
    second.labels.push("Second".into());
    let graph = restore_delta(GraphSnapshot {
        nodes: vec![node("a"), node("b"), second],
        relationships: vec![relationship("r", "a", "a"), relationship("r", "a", "b")],
    })
    .unwrap();
    assert_eq!(graph.node("a").unwrap().labels, vec!["Second"]);
    assert_eq!(graph.relationship("r").unwrap().to, "b");
    assert_eq!(graph.relationship_count(), 1);
    assert_eq!(restore_delta(GraphSnapshot::default()).unwrap(), MemoryGraph::new());
}
