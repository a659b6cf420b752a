use plant_layer::relations::{find_relations, RelationEdge, RelationKind};

fn edge(plant1: i32, plant2: i32, relation: RelationKind) -> RelationEdge {
    RelationEdge { plant1, plant2, relation }
}

/// The stored test garden: plants "Testia testia" (-1), "Testia 2" (-2),
/// "Test" (-3), "Testia testum" (-4), and five stored relation rows, the
/// last one repeating the fourth with its endpoints switched.
fn test_store() -> Vec<RelationEdge> {
    vec![
        edge(-1, -3, RelationKind::Companion),
        edge(-2, -2, RelationKind::Antagonist),
        edge(-4, -2, RelationKind::Companion),
        edge(-3, -2, RelationKind::Neutral),
        edge(-2, -3, RelationKind::Neutral),
    ]
}

#[test]
fn test_find_plants_relations_succeeds() {
    let store = test_store();

    let dto = find_relations(&store, -3);
    assert!(dto.id == -3);
    assert!(dto.relations.len() == 2);

    let dto = find_relations(&store, -2);
    assert!(dto.id == -2);
    assert!(dto.relations.len() == 3);
}

#[test]
fn test_end_to_end_scenario_contents() {
    let store = test_store();
    let dto = find_relations(&store, -3);
    assert_eq!(dto.id, -3);
    assert_eq!(dto.relations.len(), 2);
    assert!(dto
        .relations
        .iter()
        .any(|r| r.id == -1 && r.relation == RelationKind::Companion));
    assert!(dto
        .relations
        .iter()
        .any(|r| r.id == -2 && r.relation == RelationKind::Neutral));
}

#[test]
fn test_relation_symmetry() {
    let store = vec![edge(3, 7, RelationKind::Companion)];

    let dto = find_relations(&store, 3);
    assert_eq!(dto.id, 3);
    assert_eq!(dto.relations.len(), 1);
    assert_eq!(dto.relations[0].id, 7);
    assert_eq!(dto.relations[0].relation, RelationKind::Companion);

    let dto = find_relations(&store, 7);
    assert_eq!(dto.id, 7);
    assert_eq!(dto.relations.len(), 1);
    assert_eq!(dto.relations[0].id, 3);
    assert_eq!(dto.relations[0].relation, RelationKind::Companion);
}

#[test]
fn test_duplicate_rows_with_distinct_kinds_stay_distinct() {
    let store = vec![
        edge(3, 7, RelationKind::Companion),
        edge(7, 3, RelationKind::Neutral),
    ];
    let dto = find_relations(&store, 3);
    assert_eq!(dto.relations.len(), 2);
    assert!(dto
        .relations
        .iter()
        .any(|r| r.id == 7 && r.relation == RelationKind::Companion));
    assert!(dto
        .relations
        .iter()
        .any(|r| r.id == 7 && r.relation == RelationKind::Neutral));
}

#[test]
fn test_duplicate_rows_with_equal_kinds_collapse() {
    let store = vec![
        edge(3, 7, RelationKind::Antagonist),
        edge(7, 3, RelationKind::Antagonist),
    ];
    let dto = find_relations(&store, 3);
    assert_eq!(dto.relations.len(), 1);
    assert_eq!(dto.relations[0].id, 7);
    assert_eq!(dto.relations[0].relation, RelationKind::Antagonist);
}

#[test]
fn test_self_referential_edge_returned_once() {
    let store = vec![edge(5, 5, RelationKind::Antagonist)];
    let dto = find_relations(&store, 5);
    assert_eq!(dto.relations.len(), 1);
    assert_eq!(dto.relations[0].id, 5);
    assert_eq!(dto.relations[0].relation, RelationKind::Antagonist);
}

#[test]
fn test_plant_without_relations() {
    let store = test_store();
    let dto = find_relations(&store, 42);
    assert_eq!(dto.id, 42);
    assert!(dto.relations.is_empty());
}

#[test]
fn test_empty_store() {
    let store: Vec<RelationEdge> = Vec::new();
    let dto = find_relations(&store, -3);
    assert_eq!(dto.id, -3);
    assert!(dto.relations.is_empty());
}
