use atree_core::schema::AttributeDefinition;
use atree_core::atree::ATree;

fn list_schema() -> Vec<AttributeDefinition> {
    vec![
        AttributeDefinition::boolean("private"),
        AttributeDefinition::float("price"),
        AttributeDefinition::string("country"),
        AttributeDefinition::string_list("deal_ids"),
        AttributeDefinition::integer_list("segment_ids"),
        AttributeDefinition::integer("exchange_id"),
    ]
}

fn matches_one(tree: &ATree, build: impl Fn(&mut atree_core::events::EventBuilder, &ATree)) -> Vec<u64> {
    let mut builder = tree.make_event();
    build(&mut builder, tree);
    let report = tree.search(&builder.build()).unwrap();
    let mut ids = report.matches().clone();
    ids.sort();
    ids
}

#[test]
fn boolean_variable_and_negation() {
    let mut tree = ATree::new(&list_schema()).unwrap();
    tree.insert(1, "private").unwrap();
    tree.insert(2, "!private").unwrap();
    let ids = matches_one(&tree, |b, t| {
        b.with_boolean(t.attributes(), "private", true).unwrap();
    });
    assert_eq!(ids, vec![1]);
    let ids = matches_one(&tree, |b, t| {
        b.with_boolean(t.attributes(), "private", false).unwrap();
    });
    assert_eq!(ids, vec![2]);
}

#[test]
fn set_membership_on_scalars() {
    let mut tree = ATree::new(&list_schema()).unwrap();
    tree.insert(1, "country in [\"US\", \"CA\"]").unwrap();
    tree.insert(2, "country not in (\"US\")").unwrap();
    tree.insert(3, "exchange_id in [1, 2, 3]").unwrap();
    let ids = matches_one(&tree, |b, t| {
        b.with_string(t.attributes(), "country", "US").unwrap();
        b.with_integer(t.attributes(), "exchange_id", 2).unwrap();
    });
    assert_eq!(ids, vec![1, 3]);
    let ids = matches_one(&tree, |b, t| {
        b.with_string(t.attributes(), "country", "FR").unwrap();
        b.with_integer(t.attributes(), "exchange_id", 9).unwrap();
    });
    assert_eq!(ids, vec![2]);
}

#[test]
fn list_containment_operators() {
    let mut tree = ATree::new(&list_schema()).unwrap();
    tree.insert(1, "deal_ids one of [\"deal-1\", \"deal-2\"]").unwrap();
    tree.insert(2, "segment_ids all of [1, 2, 3, 4]").unwrap();
    tree.insert(3, "segment_ids none of [9]").unwrap();
    let ids = matches_one(&tree, |b, t| {
        b.with_string_list(t.attributes(), "deal_ids", vec![b"deal-2".to_vec()]).unwrap();
        b.with_integer_list(t.attributes(), "segment_ids", vec![2, 3]).unwrap();
    });
    assert_eq!(ids, vec![1, 2, 3]);
    let ids = matches_one(&tree, |b, t| {
        b.with_string_list(t.attributes(), "deal_ids", vec![b"deal-9".to_vec()]).unwrap();
        b.with_integer_list(t.attributes(), "segment_ids", vec![2, 9]).unwrap();
    });
    assert_eq!(ids, Vec::<u64>::new());
}

#[test]
fn decimal_comparisons_are_exact() {
    let mut tree = ATree::new(&list_schema()).unwrap();
    // 12.5 and equality with a different scale for the same value
    tree.insert(1, "price >= 12.5").unwrap();
    tree.insert(2, "price = 1.300").unwrap();
    // price = 12.50 (mantissa 1250, scale 2)
    let ids = matches_one(&tree, |b, t| {
        b.with_float(t.attributes(), "price", 1250, 2).unwrap();
    });
    assert_eq!(ids, vec![1]);
    // price = 1.3 written as mantissa 13, scale 1: equal to 1.300
    let ids = matches_one(&tree, |b, t| {
        b.with_float(t.attributes(), "price", 13, 1).unwrap();
    });
    assert_eq!(ids, vec![2]);
    // price = 12.499... below the threshold
    let ids = matches_one(&tree, |b, t| {
        b.with_float(t.attributes(), "price", 12499, 3).unwrap();
    });
    assert_eq!(ids, Vec::<u64>::new());
}

#[test]
fn precedence_not_over_and_over_or() {
    let mut tree = ATree::new(&list_schema()).unwrap();
    // parses as (not private and exchange_id = 1) or country = "US"
    tree.insert(1, "not private and exchange_id = 1 or country = \"US\"").unwrap();
    let ids = matches_one(&tree, |b, t| {
        b.with_boolean(t.attributes(), "private", true).unwrap();
        b.with_integer(t.attributes(), "exchange_id", 1).unwrap();
        b.with_string(t.attributes(), "country", "US").unwrap();
    });
    assert_eq!(ids, vec![1]);
    let ids = matches_one(&tree, |b, t| {
        b.with_boolean(t.attributes(), "private", true).unwrap();
        b.with_integer(t.attributes(), "exchange_id", 1).unwrap();
        b.with_string(t.attributes(), "country", "CA").unwrap();
    });
    assert_eq!(ids, Vec::<u64>::new());
    let ids = matches_one(&tree, |b, t| {
        b.with_boolean(t.attributes(), "private", false).unwrap();
        b.with_integer(t.attributes(), "exchange_id", 1).unwrap();
        b.with_string(t.attributes(), "country", "CA").unwrap();
    });
    assert_eq!(ids, vec![1]);
}

#[test]
fn integer_literal_bounds() {
    let mut tree = ATree::new(&list_schema()).unwrap();
    tree.insert(1, "exchange_id = -9223372036854775808").unwrap();
    tree.insert(2, "exchange_id = 9223372036854775807").unwrap();
    assert!(tree.insert(3, "exchange_id = 9223372036854775808").is_err());
    let ids = matches_one(&tree, |b, t| {
        b.with_integer(t.attributes(), "exchange_id", i64::MIN).unwrap();
    });
    assert_eq!(ids, vec![1]);
}
