use atree_core::schema::AttributeDefinition;
use atree_core::atree::ATree;
use atree_core::errors::AtreeError;
use atree_core::values::AtreeAttributeType;

fn schema_country_age() -> Vec<AttributeDefinition> {
    vec![
        AttributeDefinition::string("country"),
        AttributeDefinition::integer("age"),
    ]
}

fn search_ids(tree: &ATree, pairs: &[(&str, &str)], ints: &[(&str, i64)]) -> Vec<u64> {
    let mut builder = tree.make_event();
    for (name, value) in pairs {
        builder.with_string(tree.attributes(), name, value).unwrap();
    }
    for (name, value) in ints {
        builder.with_integer(tree.attributes(), name, value.clone()).unwrap();
    }
    let event = builder.build();
    let report = tree.search(&event).unwrap();
    let mut ids = report.matches().clone();
    ids.sort();
    ids
}

#[test]
fn scenario_country_and_age() {
    let defs = schema_country_age();
    let mut tree = ATree::new(&defs).unwrap();
    tree.insert(1, "country==\"US\" AND age>=18").unwrap();
    tree.insert(2, "country==\"US\"").unwrap();

    assert_eq!(search_ids(&tree, &[("country", "US")], &[("age", 21)]), vec![1, 2]);
    assert_eq!(search_ids(&tree, &[("country", "US")], &[("age", 10)]), vec![2]);
    assert_eq!(search_ids(&tree, &[("country", "CA")], &[("age", 30)]), Vec::<u64>::new());

    tree.delete(2);
    assert_eq!(search_ids(&tree, &[("country", "US")], &[("age", 21)]), vec![1]);
}

#[test]
fn dedup_counts_shared_nodes_once() {
    let defs = schema_country_age();
    let mut tree = ATree::new(&defs).unwrap();
    tree.insert(1, "country==\"US\" AND age>=18").unwrap();
    let nodes_one = tree.node_count();
    tree.insert(2, "country==\"US\" AND age>=18").unwrap();
    // the identical expression created no new nodes
    assert_eq!(tree.node_count(), nodes_one);
    tree.delete(1);
    // the other subscription still matches through the shared structure
    assert_eq!(search_ids(&tree, &[("country", "US")], &[("age", 18)]), vec![2]);
    assert_eq!(tree.node_count(), nodes_one);
}

#[test]
fn reclamation_leaves_no_nodes() {
    let defs = schema_country_age();
    let mut tree = ATree::new(&defs).unwrap();
    assert_eq!(tree.node_count(), 0);
    tree.insert(7, "not (country==\"US\" or age<3) and age<>42").unwrap();
    assert!(tree.node_count() > 0);
    tree.delete(7);
    assert_eq!(tree.node_count(), 0);
}

#[test]
fn idempotent_delete_is_a_no_op() {
    let defs = schema_country_age();
    let mut tree = ATree::new(&defs).unwrap();
    tree.insert(1, "age>=18").unwrap();
    tree.delete(99);
    tree.delete(1);
    tree.delete(1);
    assert_eq!(search_ids(&tree, &[], &[("age", 30)]), Vec::<u64>::new());
}

#[test]
fn insert_overwrites_same_id() {
    let defs = schema_country_age();
    let mut tree = ATree::new(&defs).unwrap();
    tree.insert(1, "age>=18").unwrap();
    tree.insert(1, "age<18").unwrap();
    assert_eq!(search_ids(&tree, &[], &[("age", 30)]), Vec::<u64>::new());
    assert_eq!(search_ids(&tree, &[], &[("age", 3)]), vec![1]);
}

#[test]
fn type_errors_are_reported() {
    let defs = schema_country_age();
    let mut tree = ATree::new(&defs).unwrap();
    assert!(matches!(tree.insert(1, "age==\"old\""), Err(AtreeError::Type(_, _))));
    assert!(matches!(tree.insert(1, "country>=3"), Err(AtreeError::Type(_, _))));
    assert!(matches!(tree.insert(1, "height>=3"), Err(AtreeError::UnknownAttribute(_))));
    assert!(matches!(tree.insert(1, "age >="), Err(AtreeError::Parse(_))));
    // a failed insert registered nothing
    assert_eq!(search_ids(&tree, &[("country", "US")], &[("age", 30)]), Vec::<u64>::new());
}

#[test]
fn schema_rejects_duplicate_names() {
    let defs = vec![
        AttributeDefinition::string("a"),
        AttributeDefinition::integer("a"),
    ];
    assert!(matches!(ATree::new(&defs), Err(AtreeError::Schema(_))));
}

#[test]
fn builder_rejects_wrong_types_and_redefinition() {
    let defs = schema_country_age();
    let tree = ATree::new(&defs).unwrap();
    let mut builder = tree.make_event();
    // a string value for an Integer attribute fails with a type error
    assert!(matches!(
        builder.with_string(tree.attributes(), "age", "old"),
        Err(AtreeError::Type(_, AtreeAttributeType::String))
    ));
    // and the failure did not mark the attribute as assigned
    builder.with_integer(tree.attributes(), "age", 21).unwrap();
    assert!(matches!(
        builder.with_integer(tree.attributes(), "age", 22),
        Err(AtreeError::Redefinition(_))
    ));
    assert!(matches!(
        builder.with_boolean(tree.attributes(), "nope", true),
        Err(AtreeError::UnknownAttribute(_))
    ));
}

#[test]
fn undefined_never_matches_even_negated() {
    let defs = schema_country_age();
    let mut tree = ATree::new(&defs).unwrap();
    tree.insert(1, "age >= 18").unwrap();
    tree.insert(2, "not (age >= 18)").unwrap();
    tree.insert(3, "age < 18").unwrap();

    // age explicitly undefined: no predicate on it holds, negated or not
    let mut builder = tree.make_event();
    builder.with_undefined(tree.attributes(), "age").unwrap();
    builder.with_string(tree.attributes(), "country", "US").unwrap();
    let report = tree.search(&builder.build()).unwrap();
    assert!(report.matches().is_empty());

    // age simply absent behaves the same
    assert_eq!(search_ids(&tree, &[("country", "US")], &[]), Vec::<u64>::new());
}
