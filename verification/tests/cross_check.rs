//! The same schema, subscription and events driven through this crate and
//! through the a-tree crate; the verdicts must agree. Each expression is
//! checked in an index of its own: with several subscriptions sharing nodes,
//! the reference engine's demand-driven propagation can skip a subscription
//! whose expression is plainly true, and this crate follows full boolean
//! evaluation instead.

use atree_core::atree::ATree;
use atree_core::schema::AttributeDefinition;

const EXPRESSIONS: &[(u64, &str)] = &[
    (1, "country = \"US\" and age >= 18"),
    (2, "country = \"US\""),
    (3, "not private and age < 30"),
    (4, "country in [\"US\", \"CA\"] or private"),
    (5, "deal_ids one of [\"deal-1\", \"deal-2\"]"),
    (6, "segment_ids all of [1, 2, 3]"),
    (7, "age <> 42 and country <> \"FR\""),
];

struct Ev {
    country: Option<&'static str>,
    age: Option<i64>,
    private: Option<bool>,
    deal_ids: Option<&'static [&'static str]>,
    segment_ids: Option<&'static [i64]>,
}

const EVENTS: &[Ev] = &[
    Ev { country: Some("US"), age: Some(21), private: Some(false), deal_ids: Some(&["deal-2"]), segment_ids: Some(&[1, 2]) },
    Ev { country: Some("US"), age: Some(10), private: Some(true), deal_ids: None, segment_ids: Some(&[1, 2, 9]) },
    Ev { country: Some("CA"), age: Some(42), private: Some(false), deal_ids: Some(&["deal-9"]), segment_ids: None },
    Ev { country: None, age: Some(50), private: None, deal_ids: Some(&["deal-1", "deal-9"]), segment_ids: Some(&[3]) },
    Ev { country: Some("FR"), age: None, private: Some(true), deal_ids: None, segment_ids: None },
];

fn ours(one: (u64, &str), ev: &Ev) -> Vec<u64> {
    let defs = vec![
        AttributeDefinition::string("country"),
        AttributeDefinition::integer("age"),
        AttributeDefinition::boolean("private"),
        AttributeDefinition::string_list("deal_ids"),
        AttributeDefinition::integer_list("segment_ids"),
    ];
    let mut tree = ATree::new(&defs).unwrap();
    tree.insert(one.0, one.1).unwrap();
    let mut b = tree.make_event();
    if let Some(c) = ev.country {
        b.with_string(tree.attributes(), "country", c).unwrap();
    }
    if let Some(a) = ev.age {
        b.with_integer(tree.attributes(), "age", a).unwrap();
    }
    if let Some(p) = ev.private {
        b.with_boolean(tree.attributes(), "private", p).unwrap();
    }
    if let Some(d) = ev.deal_ids {
        let lists: Vec<Vec<u8>> = d.iter().map(|s| s.as_bytes().to_vec()).collect();
        b.with_string_list(tree.attributes(), "deal_ids", lists).unwrap();
    }
    if let Some(sg) = ev.segment_ids {
        b.with_integer_list(tree.attributes(), "segment_ids", sg.to_vec()).unwrap();
    }
    let report = tree.search(&b.build()).unwrap();
    let mut ids = report.matches().clone();
    ids.sort();
    ids
}

fn reference(one: (u64, &str), ev: &Ev) -> Vec<u64> {
    let defs = [
        a_tree::AttributeDefinition::string("country"),
        a_tree::AttributeDefinition::integer("age"),
        a_tree::AttributeDefinition::boolean("private"),
        a_tree::AttributeDefinition::string_list("deal_ids"),
        a_tree::AttributeDefinition::integer_list("segment_ids"),
    ];
    let mut tree = a_tree::ATree::<u64>::new(&defs).unwrap();
    tree.insert(&one.0, one.1).unwrap();
    let mut b = tree.make_event();
    if let Some(c) = ev.country {
        b.with_string("country", c).unwrap();
    }
    if let Some(a) = ev.age {
        b.with_integer("age", a).unwrap();
    }
    if let Some(p) = ev.private {
        b.with_boolean("private", p).unwrap();
    }
    if let Some(d) = ev.deal_ids {
        b.with_string_list("deal_ids", d).unwrap();
    }
    if let Some(sg) = ev.segment_ids {
        b.with_integer_list("segment_ids", sg).unwrap();
    }
    let event = b.build().unwrap();
    let report = tree.search(&event).unwrap();
    let mut ids: Vec<u64> = report.matches().iter().map(|&&id| id).collect();
    ids.sort();
    ids
}

#[test]
fn match_sets_agree_with_reference_engine() {
    for ev in EVENTS {
        for (id, expr) in EXPRESSIONS {
            assert_eq!(ours((*id, expr), ev), reference((*id, expr), ev), "{}", expr);
        }
    }
}
