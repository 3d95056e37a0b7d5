use frictune::db::crud::{Database, DatabaseError, DatabaseResult, Options, Predicate, Table};
use frictune::db::schema::{RelationRow, Row};
use frictune::{MakeTag, Tag, Weight};

fn w(millionths: u32) -> Weight {
    Weight::from_millionths(millionths)
}

fn origin_flag(db: &Database, a: &str, b: &str) -> Vec<bool> {
    db.read(Table::Relationship, &Predicate::PairIs(a.to_string(), b.to_string()), Options::Plain)
        .unwrap()
        .get::<bool>(3)
}

fn none() -> [(String, Weight); 0] {
    []
}

#[test]
fn end_to_end_example() {
    let mut db = Database::new();
    Tag::new("sql").add_tag(&mut db, &none()).unwrap();
    Tag::new_with_desc("db", Some("https://example.com".to_string()))
        .add_tag(&mut db, &[("sql".to_string(), w(400_000))])
        .unwrap();
    assert_eq!(Tag::query_relation(&db, &Tag::new("db"), &Tag::new("sql")), Some(w(400_000)));
    assert_eq!(origin_flag(&db, "db", "sql"), vec![true]);
    Tag::new("engine").add_tag(&mut db, &[("db".to_string(), w(500_000))]).unwrap();
    assert_eq!(Tag::query_relation(&db, &Tag::new("engine"), &Tag::new("sql")), Some(w(200_000)));
    assert_eq!(origin_flag(&db, "engine", "sql"), vec![false]);
    assert_eq!(Tag::new("db").query_desc(&db), Some("https://example.com".to_string()));
    assert_eq!(Tag::get_tags(&db), vec!["sql", "db", "engine"]);
}

#[test]
fn adding_twice_leaves_one_row() {
    let mut db = Database::new();
    let first = Tag::new("solo").add_tag(&mut db, &none());
    let second = Tag::new("solo").add_tag(&mut db, &none());
    assert!(matches!(first, Ok(DatabaseResult::Success(_))));
    assert!(matches!(second, Ok(DatabaseResult::Success(_))));
    assert_eq!(Tag::get_tags(&db), vec!["solo"]);
}

#[test]
fn adding_again_keeps_the_description() {
    let mut db = Database::new();
    Tag::new_with_desc("t", Some("first".to_string())).add_tag(&mut db, &none()).unwrap();
    Tag::new_with_desc("t", Some("second".to_string())).add_tag(&mut db, &none()).unwrap();
    assert_eq!(Tag::new("t").query_desc(&db), Some("first".to_string()));
}

#[test]
fn origin_edge_survives_propagation() {
    let mut db = Database::new();
    for name in ["a", "b", "c"] {
        Tag::new(name).add_tag(&mut db, &none()).unwrap();
    }
    let a = Tag::new("a");
    // the edge a -> b is set by the user at 0.5
    a.link_tags(&mut db, &"b".to_string(), w(500_000)).unwrap();
    // a -> c and c -> b suggest 0.9 * 0.9 = 0.81 for a -> b
    Tag::new("c").link_tags(&mut db, &"b".to_string(), w(900_000)).unwrap();
    a.link_tags(&mut db, &"c".to_string(), w(900_000)).unwrap();
    a.auto_update_links(&mut db);
    assert_eq!(Tag::query_relation(&db, &a, &Tag::new("b")), Some(w(500_000)));
    assert_eq!(origin_flag(&db, "a", "b"), vec![true]);
}

#[test]
fn propagation_is_monotone() {
    let mut db = Database::new();
    for name in ["a", "b", "c"] {
        Tag::new(name).add_tag(&mut db, &none()).unwrap();
    }
    let a = Tag::new("a");
    let b = Tag::new("b");
    let c = Tag::new("c");
    b.link_tags(&mut db, &c, w(400_000)).unwrap();
    a.link_tags(&mut db, &b, w(500_000)).unwrap();
    a.auto_update_links(&mut db);
    assert_eq!(Tag::query_relation(&db, &a, &c), Some(w(200_000)));
    assert_eq!(origin_flag(&db, "a", "c"), vec![false]);
    // the path now suggests 0.5 * 0.2 = 0.1 only
    b.link_tags(&mut db, &c, w(200_000)).unwrap();
    a.auto_update_links(&mut db);
    assert_eq!(Tag::query_relation(&db, &a, &c), Some(w(200_000)));
    // a stronger path raises the derived weight
    b.link_tags(&mut db, &c, w(800_000)).unwrap();
    a.auto_update_links(&mut db);
    assert_eq!(Tag::query_relation(&db, &a, &c), Some(w(400_000)));
}

#[test]
fn removing_a_tag_takes_its_edges() {
    let mut db = Database::new();
    for name in ["a", "b", "c"] {
        Tag::new(name).add_tag(&mut db, &none()).unwrap();
    }
    let a = Tag::new("a");
    let b = Tag::new("b");
    let c = Tag::new("c");
    a.link_tags(&mut db, &b, w(500_000)).unwrap();
    b.link_tags(&mut db, &c, w(400_000)).unwrap();
    c.link_tags(&mut db, &a, w(300_000)).unwrap();
    assert!(matches!(b.remove_tag(&mut db), Ok(DatabaseResult::Success(_))));
    assert_eq!(Tag::query_relation(&db, &a, &b), None);
    assert_eq!(Tag::query_relation(&db, &b, &c), None);
    assert_eq!(Tag::query_relation(&db, &c, &a), Some(w(300_000)));
    assert_eq!(Tag::get_tags(&db), vec!["a", "c"]);
    assert_eq!(b.query_desc(&db), None);
}

#[test]
fn force_update_drops_stale_edges() {
    let mut db = Database::new();
    for name in ["a", "b", "c"] {
        Tag::new(name).add_tag(&mut db, &none()).unwrap();
    }
    let a = Tag::new("a");
    let b = Tag::new("b");
    let c = Tag::new("c");
    b.link_tags(&mut db, &c, w(400_000)).unwrap();
    a.link_tags(&mut db, &b, w(500_000)).unwrap();
    assert_eq!(Tag::query_relation(&db, &a, &c), Some(w(200_000)));
    // the edge a -> b goes
    db.delete(Table::Relationship, &Predicate::PairIs("a".to_string(), "b".to_string())).unwrap();
    Tag::update_all_links(&mut db);
    assert_eq!(Tag::query_relation(&db, &a, &c), Some(w(200_000)));
    Tag::force_update_all_links(&mut db);
    assert_eq!(Tag::query_relation(&db, &a, &c), None);
    assert_eq!(Tag::query_relation(&db, &b, &c), Some(w(400_000)));
}

#[test]
fn link_needs_both_tags() {
    let mut db = Database::new();
    Tag::new("a").add_tag(&mut db, &none()).unwrap();
    let res = Tag::new("a").link_tags(&mut db, &"ghost".to_string(), w(500_000));
    assert!(matches!(res, Err(DatabaseError::BackendFailure)));
    assert_eq!(Tag::query_relation(&db, &Tag::new("a"), &Tag::new("ghost")), None);
    assert_eq!(Tag::get_tags(&db), vec!["a"]);
}

#[test]
fn relinking_overwrites_the_weight() {
    let mut db = Database::new();
    Tag::new("a").add_tag(&mut db, &[("b".to_string(), w(400_000))]).unwrap();
    Tag::new("a").link_tags(&mut db, &Tag::new("b"), w(100_000)).unwrap();
    assert_eq!(Tag::query_relation(&db, &Tag::new("a"), &Tag::new("b")), Some(w(100_000)));
    assert_eq!(Tag::query_relation(&db, &Tag::new("b"), &Tag::new("a")), None);
}

fn set_edge(db: &mut Database, a: &str, b: &str, millionths: u32) {
    db.create(Row::Relation(RelationRow {
        tag1: a.to_string(),
        tag2: b.to_string(),
        weight: w(millionths),
        is_origin: true,
    }))
    .unwrap();
}

#[test]
fn one_round_goes_one_hop() {
    let mut db = Database::new();
    for name in ["a", "b", "c", "d"] {
        Tag::new(name).add_tag(&mut db, &none()).unwrap();
    }
    let a = Tag::new("a");
    set_edge(&mut db, "c", "d", 500_000);
    set_edge(&mut db, "b", "c", 500_000);
    // linking runs one round from a: a -> c appears, a -> d does not
    a.link_tags(&mut db, &Tag::new("b"), w(500_000)).unwrap();
    assert_eq!(Tag::query_relation(&db, &a, &Tag::new("c")), Some(w(250_000)));
    assert_eq!(Tag::query_relation(&db, &a, &Tag::new("d")), None);
    // a second round reaches d through the derived edge a -> c
    a.auto_update_links(&mut db);
    assert_eq!(Tag::query_relation(&db, &a, &Tag::new("d")), Some(w(125_000)));
}

#[test]
fn update_all_runs_in_table_order() {
    let mut db = Database::new();
    for name in ["a", "b", "c", "d"] {
        Tag::new(name).add_tag(&mut db, &none()).unwrap();
    }
    for (x, y) in [("c", "d"), ("b", "c"), ("a", "b")] {
        set_edge(&mut db, x, y, 500_000);
    }
    Tag::update_all_links(&mut db);
    // a ran first and saw b -> c only; b then derived b -> d
    assert_eq!(Tag::query_relation(&db, &Tag::new("a"), &Tag::new("c")), Some(w(250_000)));
    assert_eq!(Tag::query_relation(&db, &Tag::new("a"), &Tag::new("d")), None);
    assert_eq!(Tag::query_relation(&db, &Tag::new("b"), &Tag::new("d")), Some(w(250_000)));
    Tag::update_all_links(&mut db);
    assert_eq!(Tag::query_relation(&db, &Tag::new("a"), &Tag::new("d")), Some(w(125_000)));
}

#[test]
fn self_loop_is_not_filtered() {
    let mut db = Database::new();
    for name in ["a", "b"] {
        Tag::new(name).add_tag(&mut db, &none()).unwrap();
    }
    Tag::new("b").link_tags(&mut db, &Tag::new("a"), w(500_000)).unwrap();
    Tag::new("a").link_tags(&mut db, &Tag::new("b"), w(500_000)).unwrap();
    assert_eq!(Tag::query_relation(&db, &Tag::new("a"), &Tag::new("a")), Some(w(250_000)));
    assert_eq!(origin_flag(&db, "a", "a"), vec![false]);
}

#[test]
fn modify_sets_the_description() {
    let mut db = Database::new();
    Tag::new("a").add_tag(&mut db, &none()).unwrap();
    assert_eq!(Tag::new("a").query_desc(&db), None);
    Tag::new("a").modify_tag(&mut db, "note").unwrap();
    assert_eq!(Tag::new("a").query_desc(&db), Some("note".to_string()));
    Tag::new("fresh").modify_tag(&mut db, "made").unwrap();
    assert_eq!(Tag::new("fresh").query_desc(&db), Some("made".to_string()));
    assert_eq!(Tag::get_tags(&db), vec!["a", "fresh"]);
}

#[test]
fn top_related_is_strongest_first() {
    let mut db = Database::new();
    Tag::new("hub")
        .add_tag(
            &mut db,
            &[
                (Tag::new("x"), w(200_000)),
                (Tag::new_with_desc("y", Some("why".to_string())), w(900_000)),
                (Tag::new("z"), w(500_000)),
            ],
        )
        .unwrap();
    let hub = Tag::new("hub");
    assert_eq!(hub.query_top_related(&db), vec!["y", "z", "x"]);
    assert_eq!(
        hub.qtrd(&db),
        vec![
            ("y".to_string(), Some("why".to_string()), Some(w(900_000))),
            ("z".to_string(), None, Some(w(500_000))),
            ("x".to_string(), None, Some(w(200_000))),
        ]
    );
    assert!(Tag::new("x").query_top_related(&db).is_empty());
}

#[test]
fn constructors() {
    let plain = Tag::new("name");
    assert_eq!(plain.name, "name");
    assert_eq!(plain.desc, None);
    let empty = Tag::new_with_desc("name", Some(String::new()));
    assert_eq!(empty.desc, None);
    let missing = Tag::new_with_desc("name", None);
    assert_eq!(missing.desc, None);
    let full = Tag::new_with_desc("name", Some("text".to_string()));
    assert_eq!(full.name, "name");
    assert_eq!(full.desc, Some("text".to_string()));
}

#[test]
fn weights_compose_by_product() {
    assert_eq!(w(500_000).compose(w(400_000)), w(200_000));
    assert_eq!(w(1_000_000).compose(w(123_456)), w(123_456));
    assert_eq!(w(0).compose(w(900_000)), w(0));
    assert_eq!(w(333_333).compose(w(333_333)), w(111_110));
    assert_eq!(w(u32::MAX).compose(w(u32::MAX)), w(u32::MAX));
    assert!(w(2).is_above(w(1)));
    assert!(!w(1).is_above(w(1)));
}

#[test]
fn round_without_edges_changes_nothing() {
    let mut db = Database::new();
    for name in ["a", "b", "c"] {
        Tag::new(name).add_tag(&mut db, &none()).unwrap();
    }
    set_edge(&mut db, "a", "b", 500_000);
    // c has no edges at all, b has none to follow, and a leads to b only
    Tag::new("c").auto_update_links(&mut db);
    Tag::new("b").auto_update_links(&mut db);
    Tag::new("a").auto_update_links(&mut db);
    Tag::new("stranger").auto_update_links(&mut db);
    let rows = db.read(Table::Relationship, &Predicate::True, Options::Plain).unwrap();
    assert_eq!(rows.get::<String>(0), vec!["a"]);
    assert_eq!(rows.get::<String>(1), vec!["b"]);
    assert_eq!(rows.get::<Weight>(2), vec![w(500_000)]);
    assert_eq!(Tag::get_tags(&db), vec!["a", "b", "c"]);
}

#[test]
fn strongest_path_wins() {
    let mut db = Database::new();
    for name in ["a", "b", "c", "d"] {
        Tag::new(name).add_tag(&mut db, &none()).unwrap();
    }
    set_edge(&mut db, "a", "b", 500_000);
    set_edge(&mut db, "a", "c", 900_000);
    set_edge(&mut db, "b", "d", 800_000);
    set_edge(&mut db, "c", "d", 600_000);
    Tag::new("a").auto_update_links(&mut db);
    // 0.5 * 0.8 = 0.4 and 0.9 * 0.6 = 0.54
    assert_eq!(Tag::query_relation(&db, &Tag::new("a"), &Tag::new("d")), Some(w(540_000)));
    assert_eq!(origin_flag(&db, "a", "d"), vec![false]);
}

#[test]
fn removing_a_missing_tag_is_fine() {
    let mut db = Database::new();
    Tag::new("a").add_tag(&mut db, &[("b".to_string(), w(500_000))]).unwrap();
    assert!(matches!(Tag::new("ghost").remove_tag(&mut db), Ok(DatabaseResult::Success(_))));
    assert_eq!(Tag::get_tags(&db), vec!["a", "b"]);
    assert_eq!(Tag::query_relation(&db, &Tag::new("a"), &Tag::new("b")), Some(w(500_000)));
}

#[test]
fn add_with_a_repeated_neighbour_keeps_the_last_weight() {
    let mut db = Database::new();
    Tag::new("a")
        .add_tag(
            &mut db,
            &[("b".to_string(), w(100_000)), ("c".to_string(), w(300_000)), ("b".to_string(), w(700_000))],
        )
        .unwrap();
    assert_eq!(Tag::query_relation(&db, &Tag::new("a"), &Tag::new("b")), Some(w(700_000)));
    assert_eq!(Tag::query_relation(&db, &Tag::new("a"), &Tag::new("c")), Some(w(300_000)));
    assert_eq!(Tag::get_tags(&db), vec!["a", "b", "c"]);
}

#[test]
fn add_result_says_so() {
    let mut db = Database::new();
    let res = Tag::new("a").add_tag(&mut db, &none());
    assert!(matches!(res, Ok(DatabaseResult::Success(m)) if m == "add_tag successful"));
}

#[test]
fn names_of_tags_and_strings() {
    let tag = Tag::new_with_desc("t", Some("d".to_string()));
    assert_eq!(tag.get_name(), "t");
    assert_eq!(tag.get_desc(), Some("d".to_string()));
    let copy = tag.get_tag();
    assert_eq!((copy.name, copy.desc), ("t".to_string(), Some("d".to_string())));
    let bare = "s".to_string();
    assert_eq!(bare.get_name(), "s");
    assert_eq!(bare.get_desc(), None);
    let made = bare.get_tag();
    assert_eq!((made.name, made.desc), ("s".to_string(), None));
}

#[test]
fn neighbour_brings_its_description() {
    let mut db = Database::new();
    Tag::new("a")
        .add_tag(&mut db, &[(Tag::new_with_desc("b", Some("about b".to_string())), w(500_000))])
        .unwrap();
    assert_eq!(Tag::new("b").query_desc(&db), Some("about b".to_string()));
    assert_eq!(Tag::new("a").query_desc(&db), None);
}
