use frictune::conf::Conf;
use frictune::db::crud::{Database, DatabaseError, DatabaseResult};
use frictune::logger::watch;
use frictune::ui::cli::{parse_args, Commands};
use frictune::ui::graph::{export_links, export_nodes, export_succ};
use frictune::{Tag, Weight};

fn w(millionths: u32) -> Weight {
    Weight::from_millionths(millionths)
}

fn run(db: &mut Database, command: Commands) -> Vec<String> {
    parse_args(db, &Some(command)).unwrap()
}

fn sample() -> Database {
    let mut db = Database::new();
    run(&mut db, Commands::Add { name: "sql".into(), tags: vec![], weights: vec![] });
    run(
        &mut db,
        Commands::Add { name: "db".into(), tags: vec!["sql".into()], weights: vec![w(400_000)] },
    );
    run(
        &mut db,
        Commands::Add { name: "engine".into(), tags: vec!["db".into()], weights: vec![w(500_000)] },
    );
    db
}

#[test]
fn weight_text_is_as_short_as_can_be() {
    assert_eq!(w(400_000).to_string(), "0.4");
    assert_eq!(w(200_000).to_string(), "0.2");
    assert_eq!(w(1_000_000).to_string(), "1");
    assert_eq!(w(0).to_string(), "0");
    assert_eq!(w(1).to_string(), "0.000001");
    assert_eq!(w(123_456).to_string(), "0.123456");
    assert_eq!(w(50_000).to_string(), "0.05");
    assert_eq!(w(12_500_000).to_string(), "12.5");
    assert_eq!(w(u32::MAX).to_string(), "4294.967295");
}

#[test]
fn default_settings() {
    assert_eq!(Conf::default().db_uri, "./tags.db");
}

#[test]
fn report_lines() {
    assert_eq!(watch(&Ok(DatabaseResult::Success("anything".to_string()))), "success");
    assert_eq!(watch(&Ok(DatabaseResult::from(vec![]))), "success");
    assert_eq!(watch(&Err(DatabaseError::UniqueViolation)), "unique violation");
    assert_eq!(watch(&Err(DatabaseError::BackendFailure)), "backend failure");
    assert_eq!(DatabaseError::UniqueViolation.to_string(), "unique violation");
}

#[test]
fn add_command_links_the_neighbours() {
    let db = sample();
    assert_eq!(Tag::get_tags(&db), vec!["sql", "db", "engine"]);
    assert_eq!(Tag::query_relation(&db, &Tag::new("db"), &Tag::new("sql")), Some(w(400_000)));
    assert_eq!(Tag::query_relation(&db, &Tag::new("engine"), &Tag::new("sql")), Some(w(200_000)));
}

#[test]
fn add_command_with_uneven_lists_adds_the_tag_alone() {
    let mut db = Database::new();
    let lines = run(
        &mut db,
        Commands::Add { name: "a".into(), tags: vec!["b".into(), "c".into()], weights: vec![w(1)] },
    );
    assert_eq!(lines, vec!["links should be <name, weight> pairs.", "success"]);
    assert_eq!(Tag::get_tags(&db), vec!["a"]);
    let lines =
        run(&mut db, Commands::Add { name: "a".into(), tags: vec!["b".into()], weights: vec![w(1)] });
    assert_eq!(lines, vec!["success"]);
    assert_eq!(Tag::get_tags(&db), vec!["a", "b"]);
}

#[test]
fn eval_command_shows_weight_and_description() {
    let mut db = sample();
    run(&mut db, Commands::Mod { name: "db".into(), desc: "https://example.com".into() });
    let lines = run(&mut db, Commands::Eval { src: "db".into(), tgt: "sql".into() });
    assert_eq!(
        lines,
        vec![
            "The weight between db and sql is 0.4",
            "The tag db is linked with description https://example.com.",
        ]
    );
    let lines = run(&mut db, Commands::Eval { src: "sql".into(), tgt: "db".into() });
    assert_eq!(lines, vec!["No such link", "The tag sql is linked with description ."]);
}

#[test]
fn mod_command_shows_the_change() {
    let mut db = sample();
    let lines = run(&mut db, Commands::Mod { name: "db".into(), desc: "first".into() });
    assert_eq!(lines, vec!["success", "Tag db is updated with description first from ."]);
    let lines = run(&mut db, Commands::Mod { name: "db".into(), desc: "second".into() });
    assert_eq!(lines, vec!["success", "Tag db is updated with description second from first."]);
    assert_eq!(Tag::new("db").query_desc(&db), Some("second".to_string()));
}

#[test]
fn link_command_reports_what_the_store_said() {
    let mut db = sample();
    let lines =
        run(&mut db, Commands::Link { src: "sql".into(), tgt: "engine".into(), weight: w(900_000) });
    assert_eq!(lines, vec!["success"]);
    assert_eq!(Tag::query_relation(&db, &Tag::new("sql"), &Tag::new("engine")), Some(w(900_000)));
    let lines =
        run(&mut db, Commands::Link { src: "sql".into(), tgt: "nowhere".into(), weight: w(900_000) });
    assert_eq!(lines, vec!["backend failure"]);
    assert_eq!(Tag::query_relation(&db, &Tag::new("sql"), &Tag::new("nowhere")), None);
}

#[test]
fn del_command_removes_tag_and_edges() {
    let mut db = sample();
    let lines = run(&mut db, Commands::Del { name: "db".into() });
    assert_eq!(lines, vec!["success"]);
    assert_eq!(Tag::get_tags(&db), vec!["sql", "engine"]);
    assert_eq!(Tag::query_relation(&db, &Tag::new("db"), &Tag::new("sql")), None);
    assert_eq!(Tag::query_relation(&db, &Tag::new("engine"), &Tag::new("db")), None);
    assert_eq!(Tag::query_relation(&db, &Tag::new("engine"), &Tag::new("sql")), Some(w(200_000)));
}

#[test]
fn repl_and_no_command_are_not_implemented() {
    let mut db = sample();
    assert_eq!(parse_args(&mut db, &Some(Commands::Repl)), Err("not implemented".to_string()));
    assert_eq!(parse_args(&mut db, &None), Err("not implemented".to_string()));
    assert_eq!(Tag::get_tags(&db), vec!["sql", "db", "engine"]);
}

#[test]
fn nodes_carry_descriptions() {
    let mut db = sample();
    Tag::new("db").modify_tag(&mut db, "store").unwrap();
    let nodes: Vec<(String, String)> =
        export_nodes(&db).into_iter().map(|n| (n.id, n.desc)).collect();
    assert_eq!(
        nodes,
        vec![
            ("sql".to_string(), String::new()),
            ("db".to_string(), "store".to_string()),
            ("engine".to_string(), String::new()),
        ]
    );
}

#[test]
fn links_are_listed_tag_by_tag() {
    let db = sample();
    let links: Vec<(String, String, Weight)> =
        export_links(&db).into_iter().map(|l| (l.source, l.target, l.strength)).collect();
    assert_eq!(
        links,
        vec![
            ("db".to_string(), "sql".to_string(), w(400_000)),
            ("engine".to_string(), "db".to_string(), w(500_000)),
            ("engine".to_string(), "sql".to_string(), w(200_000)),
        ]
    );
}

#[test]
fn neighbourhood_ends_with_the_tag_itself() {
    let mut db = sample();
    Tag::new("engine").modify_tag(&mut db, "runs queries").unwrap();
    let (nodes, links) = export_succ("engine", &db);
    let nodes: Vec<(String, String)> = nodes.into_iter().map(|n| (n.id, n.desc)).collect();
    let links: Vec<(String, String, Weight)> =
        links.into_iter().map(|l| (l.source, l.target, l.strength)).collect();
    assert_eq!(
        nodes,
        vec![
            ("db".to_string(), String::new()),
            ("sql".to_string(), String::new()),
            ("engine".to_string(), "runs queries".to_string()),
        ]
    );
    assert_eq!(
        links,
        vec![
            ("engine".to_string(), "db".to_string(), w(500_000)),
            ("engine".to_string(), "sql".to_string(), w(200_000)),
        ]
    );
    let (nodes, links) = export_succ("sql", &db);
    assert_eq!(nodes.len(), 1);
    assert!(links.is_empty());
}
