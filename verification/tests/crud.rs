use frictune::db::crud::{
    Database, DatabaseError, DatabaseResult, Guard, Options, Predicate, Table,
};
use frictune::db::crud::GlueType;
use frictune::db::schema::{DataType, RelationRow, Row, TagRow, Value};
use frictune::Weight;

fn tag_row(name: &str, info: Option<&str>) -> Row {
    Row::Tag(TagRow { tag_name: name.to_string(), info: info.map(|s| s.to_string()) })
}

fn edge_row(a: &str, b: &str, millionths: u32, is_origin: bool) -> Row {
    Row::Relation(RelationRow {
        tag1: a.to_string(),
        tag2: b.to_string(),
        weight: Weight::from_millionths(millionths),
        is_origin,
    })
}

#[test]
fn test_crud() {
    let mut db = Database::new();
    // insert a record ('11', '22')
    assert!(
        matches!(db.create(tag_row("11", Some("22"))), Ok(DatabaseResult::Success(_))),
        "create failed"
    );

    assert!(
        matches!(
            db.read(Table::Tags, &Predicate::True, Options::Plain),
            Ok(DatabaseResult::Things(_))
        ),
        "read failed"
    );

    // insert another record ('111', '33')
    assert!(
        matches!(
            db.update(tag_row("111", Some("33")), Guard::Always),
            Ok(DatabaseResult::Success(_))
        ),
        "update insert failed"
    );
    // mutate ('11', '22') to ('11', '33')
    assert!(
        matches!(
            db.update(tag_row("11", Some("33")), Guard::Always),
            Ok(DatabaseResult::Success(_))
        ),
        "partial update failed"
    );
    let things = db.read(Table::Tags, &Predicate::True, Options::Plain).unwrap();
    // check both record has `info` field equal to '33'
    assert_eq!(things.get::<String>(1), vec!["33", "33"], "update not effective");

    assert!(
        matches!(
            db.delete(Table::Tags, &Predicate::TagNameIs("aaa".to_string())),
            Ok(DatabaseResult::Success(_))
        ),
        "delete failed"
    );
}

#[test]
fn test_database_result() {
    let create_res = DatabaseResult::from(vec![]);
    let query_res = DatabaseResult::from(vec![tag_row("1", None)]);
    assert!(matches!(create_res, DatabaseResult::Success(_)));
    assert_eq!(query_res.len(), 1);
    assert_eq!(query_res.get::<String>(0), vec!['1'.to_string()]);
}

#[test]
fn test_database_error() {
    let mut db = Database::new();
    db.create(tag_row("1", None)).unwrap();
    let double_insert_res = db.create(tag_row("1", None)).err().unwrap();
    let wrong_command_res =
        db.read(Table::Tags, &Predicate::IsOrigin(true), Options::Plain).err().unwrap();
    assert!(matches!(double_insert_res, DatabaseError::UniqueViolation));
    assert!(matches!(wrong_command_res, DatabaseError::BackendFailure));
}

#[test]
fn create_refuses_a_taken_key() {
    let mut db = Database::new();
    assert!(db.create(tag_row("a", None)).is_ok());
    assert!(matches!(db.create(tag_row("a", Some("x"))), Err(DatabaseError::UniqueViolation)));
    assert!(db.create(tag_row("b", None)).is_ok());
    assert!(db.create(edge_row("a", "b", 500_000, true)).is_ok());
    assert!(matches!(
        db.create(edge_row("a", "b", 100_000, false)),
        Err(DatabaseError::UniqueViolation)
    ));
    let rows = db.read(Table::Relationship, &Predicate::True, Options::Plain).unwrap();
    assert_eq!(rows.len(), 1);
    assert_eq!(rows.get::<Weight>(2), vec![Weight::from_millionths(500_000)]);
}

#[test]
fn relationship_needs_both_tags() {
    let mut db = Database::new();
    assert!(db.create(tag_row("a", None)).is_ok());
    assert!(matches!(
        db.create(edge_row("a", "b", 500_000, true)),
        Err(DatabaseError::BackendFailure)
    ));
    assert!(matches!(
        db.update(edge_row("b", "a", 500_000, true), Guard::Always),
        Err(DatabaseError::BackendFailure)
    ));
    assert_eq!(db.read(Table::Relationship, &Predicate::True, Options::Plain).unwrap().len(), 0);
}

#[test]
fn tag_in_use_cannot_be_deleted() {
    let mut db = Database::new();
    db.create(tag_row("a", None)).unwrap();
    db.create(tag_row("b", None)).unwrap();
    db.create(tag_row("c", None)).unwrap();
    db.create(edge_row("a", "b", 500_000, true)).unwrap();
    assert!(matches!(
        db.delete(Table::Tags, &Predicate::TagNameIs("b".to_string())),
        Err(DatabaseError::BackendFailure)
    ));
    assert!(matches!(db.delete(Table::Tags, &Predicate::True), Err(DatabaseError::BackendFailure)));
    assert!(db.delete(Table::Tags, &Predicate::TagNameIs("c".to_string())).is_ok());
    let names = db.read(Table::Tags, &Predicate::True, Options::Plain).unwrap().get::<String>(0);
    assert_eq!(names, vec!["a", "b"]);
}

#[test]
fn queries_must_fit_their_table() {
    let mut db = Database::new();
    db.create(tag_row("a", None)).unwrap();
    assert!(matches!(
        db.read(Table::Tags, &Predicate::Tag1Is("a".to_string()), Options::Plain),
        Err(DatabaseError::BackendFailure)
    ));
    assert!(matches!(
        db.read(Table::Tags, &Predicate::True, Options::OrderByWeight),
        Err(DatabaseError::BackendFailure)
    ));
    assert!(matches!(
        db.read(Table::Relationship, &Predicate::TagNameIs("a".to_string()), Options::Plain),
        Err(DatabaseError::BackendFailure)
    ));
    assert!(matches!(
        db.delete(Table::Relationship, &Predicate::TagNameIs("a".to_string())),
        Err(DatabaseError::BackendFailure)
    ));
    assert!(matches!(
        db.update(tag_row("a", Some("x")), Guard::HeavierDerived),
        Err(DatabaseError::BackendFailure)
    ));
    let rows = db.read(Table::Tags, &Predicate::True, Options::Plain).unwrap();
    assert_eq!(rows.len(), 1);
}

#[test]
fn guarded_upsert_keeps_the_running_maximum() {
    let mut db = Database::new();
    db.create(tag_row("a", None)).unwrap();
    db.create(tag_row("b", None)).unwrap();
    let weight_of = |db: &Database| {
        db.read(
            Table::Relationship,
            &Predicate::PairIs("a".to_string(), "b".to_string()),
            Options::Plain,
        )
        .unwrap()
        .get::<Weight>(2)
    };
    db.update(edge_row("a", "b", 200_000, false), Guard::HeavierDerived).unwrap();
    assert_eq!(weight_of(&db), vec![Weight::from_millionths(200_000)]);
    db.update(edge_row("a", "b", 100_000, false), Guard::HeavierDerived).unwrap();
    assert_eq!(weight_of(&db), vec![Weight::from_millionths(200_000)]);
    db.update(edge_row("a", "b", 200_000, false), Guard::HeavierDerived).unwrap();
    assert_eq!(weight_of(&db), vec![Weight::from_millionths(200_000)]);
    db.update(edge_row("a", "b", 300_000, false), Guard::HeavierDerived).unwrap();
    assert_eq!(weight_of(&db), vec![Weight::from_millionths(300_000)]);
    // an edge that a user set overwrites in every case, and then stays
    db.update(edge_row("a", "b", 50_000, true), Guard::Always).unwrap();
    assert_eq!(weight_of(&db), vec![Weight::from_millionths(50_000)]);
    db.update(edge_row("a", "b", 900_000, false), Guard::HeavierDerived).unwrap();
    assert_eq!(weight_of(&db), vec![Weight::from_millionths(50_000)]);
    let origin = db
        .read(Table::Relationship, &Predicate::IsOrigin(true), Options::Plain)
        .unwrap()
        .get::<bool>(3);
    assert_eq!(origin, vec![true]);
}

#[test]
fn order_by_weight_is_strongest_first_and_stable() {
    let mut db = Database::new();
    for name in ["a", "b", "c", "d", "e"] {
        db.create(tag_row(name, None)).unwrap();
    }
    db.create(edge_row("a", "b", 300_000, true)).unwrap();
    db.create(edge_row("a", "c", 700_000, true)).unwrap();
    db.create(edge_row("a", "d", 300_000, true)).unwrap();
    db.create(edge_row("a", "e", 900_000, true)).unwrap();
    db.create(edge_row("b", "e", 1_000_000, true)).unwrap();
    let ranked = db
        .read(Table::Relationship, &Predicate::Tag1Is("a".to_string()), Options::OrderByWeight)
        .unwrap();
    assert_eq!(ranked.get::<String>(1), vec!["e", "c", "b", "d"]);
    let plain = db
        .read(Table::Relationship, &Predicate::Tag1Is("a".to_string()), Options::Plain)
        .unwrap();
    assert_eq!(plain.get::<String>(1), vec!["b", "c", "d", "e"]);
    let into_e = db
        .read(Table::Relationship, &Predicate::Tag2Is("e".to_string()), Options::Plain)
        .unwrap();
    assert_eq!(into_e.get::<String>(0), vec!["a", "b"]);
}

#[test]
fn column_of_another_type_reads_as_default() {
    let mut db = Database::new();
    db.create(tag_row("a", None)).unwrap();
    db.create(tag_row("b", Some("text"))).unwrap();
    db.create(edge_row("a", "b", 250_000, true)).unwrap();
    let tags = db.read(Table::Tags, &Predicate::True, Options::Plain).unwrap();
    assert_eq!(tags.get::<String>(1), vec!["", "text"]);
    assert_eq!(tags.get::<bool>(0), vec![false, false]);
    let edges = db.read(Table::Relationship, &Predicate::True, Options::Plain).unwrap();
    assert_eq!(edges.get::<Weight>(0), vec![Weight::from_millionths(0)]);
    assert_eq!(edges.get::<String>(2), vec![""]);
    assert_eq!(edges.get::<bool>(3), vec![true]);
}

#[test]
fn values_by_column() {
    let tag = tag_row("a", None);
    assert!(matches!(tag.get_value_by_index(0), Some(Value::Str(s)) if s == "a"));
    assert!(matches!(tag.get_value_by_index(1), Some(Value::Null)));
    assert!(tag.get_value_by_index(2).is_none());
    let edge = edge_row("a", "b", 250_000, true);
    assert!(matches!(edge.get_value_by_index(0), Some(Value::Str(s)) if s == "a"));
    assert!(matches!(edge.get_value_by_index(1), Some(Value::Str(s)) if s == "b"));
    assert!(
        matches!(edge.get_value_by_index(2), Some(Value::Decimal(w)) if w == Weight::from_millionths(250_000))
    );
    assert!(matches!(edge.get_value_by_index(3), Some(Value::Bool(true))));
    assert!(edge.get_value_by_index(4).is_none());
}

#[test]
fn contents_by_type() {
    assert_eq!(String::get_glue_type(), DataType::Text);
    assert_eq!(Weight::get_glue_type(), DataType::Decimal);
    assert_eq!(bool::get_glue_type(), DataType::Boolean);
    assert_eq!(String::get_content(Value::Str("x".to_string())), "x");
    assert_eq!(String::get_content(Value::Bool(true)), "");
    assert_eq!(String::get_content(Value::Null), "");
    assert_eq!(Weight::get_content(Value::Decimal(Weight::from_millionths(7))), Weight::from_millionths(7));
    assert_eq!(Weight::get_content(Value::Str("7".to_string())), Weight::from_millionths(0));
    assert!(bool::get_content(Value::Bool(true)));
    assert!(!bool::get_content(Value::Null));
}

#[test]
fn delete_by_each_filter() {
    let mut db = Database::new();
    for name in ["a", "b", "c"] {
        db.create(tag_row(name, None)).unwrap();
    }
    db.create(edge_row("a", "b", 100_000, true)).unwrap();
    db.create(edge_row("a", "c", 200_000, false)).unwrap();
    db.create(edge_row("b", "c", 300_000, true)).unwrap();
    db.create(edge_row("c", "a", 400_000, false)).unwrap();
    let pairs = |db: &Database| {
        let rows = db.read(Table::Relationship, &Predicate::True, Options::Plain).unwrap();
        rows.get::<String>(0).into_iter().zip(rows.get::<String>(1)).collect::<Vec<_>>()
    };
    let pair = |a: &str, b: &str| (a.to_string(), b.to_string());
    db.delete(Table::Relationship, &Predicate::IsOrigin(false)).unwrap();
    assert_eq!(pairs(&db), vec![pair("a", "b"), pair("b", "c")]);
    db.delete(Table::Relationship, &Predicate::Tag2Is("c".to_string())).unwrap();
    assert_eq!(pairs(&db), vec![pair("a", "b")]);
    db.delete(Table::Relationship, &Predicate::Tag1Is("b".to_string())).unwrap();
    assert_eq!(pairs(&db), vec![pair("a", "b")]);
    db.delete(Table::Relationship, &Predicate::PairIs("a".to_string(), "b".to_string())).unwrap();
    assert!(pairs(&db).is_empty());
    db.delete(Table::Tags, &Predicate::True).unwrap();
    assert_eq!(db.read(Table::Tags, &Predicate::True, Options::Plain).unwrap().len(), 0);
}

#[test]
fn read_of_nothing_is_the_success_marker() {
    let db = Database::new();
    assert!(matches!(
        db.read(Table::Tags, &Predicate::True, Options::Plain),
        Ok(DatabaseResult::Success(m)) if m == "success"
    ));
    assert!(matches!(
        db.read(Table::Relationship, &Predicate::True, Options::OrderByWeight),
        Ok(DatabaseResult::Success(_))
    ));
}

#[test]
fn rows_can_be_copied() {
    let tag = TagRow { tag_name: "a".to_string(), info: Some("i".to_string()) };
    let copy = tag.clone();
    assert_eq!(copy.tag_name, "a");
    assert_eq!(copy.info, Some("i".to_string()));
    let edge = RelationRow {
        tag1: "a".to_string(),
        tag2: "b".to_string(),
        weight: Weight::from_millionths(5),
        is_origin: true,
    };
    let copy = edge.clone();
    assert_eq!(
        (copy.tag1, copy.tag2, copy.weight, copy.is_origin),
        ("a".to_string(), "b".to_string(), Weight::from_millionths(5), true)
    );
    let row = Row::Relation(edge).clone();
    assert!(matches!(row, Row::Relation(r) if r.tag2 == "b"));
}
