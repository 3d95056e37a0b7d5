//! The commands of the command line and what each of them does.

use vstd::prelude::*;
use vstd::string::*;
use crate::db::crud::{Database, DatabaseError, DatabaseResult, acknowledged, refused};
use crate::db::model::Store;
use crate::db::schema::{TagRecord, or_empty, text_or_empty};
use crate::logger::{verdict, watch};
use crate::tag::{Tag, peers, texts};
use crate::weight::Weight;

verus! {

/// A command as the user gave it.
#[derive(Debug)]
pub enum Commands {
    /// Add a new tag and optionally link it to tags with weights.
    Add { name: String, tags: Vec<String>, weights: Vec<Weight> },
    /// Remove a tag with its edges.
    Del { name: String },
    /// Set the edge from `src` to `tgt`.
    Link { src: String, tgt: String, weight: Weight },
    /// Show the weight of the edge from `src` to `tgt` and what `src` is described as.
    Eval { src: String, tgt: String },
    /// Set the description of a tag.
    Mod { name: String, desc: String },
    /// An interactive session.
    Repl,
}

/// The neighbours of an `Add`: each name with the weight at its place.
pub open spec fn neighbours(tags: Seq<String>, weights: Seq<Weight>) -> Seq<(TagRecord, Weight)> {
    Seq::new(tags.len(), |i: int| (TagRecord { name: tags[i]@, info: None }, weights[i]))
}

/// The line that `Eval` shows for the edge.
pub open spec fn weight_line(s: Store, src: Seq<char>, tgt: Seq<char>) -> Seq<char> {
    match s.weight(src, tgt) {
        Some(w) => "The weight between "@ + src + " and "@ + tgt + " is "@ + w.text(),
        None => "No such link"@,
    }
}

/// The line that `Eval` shows for the description.
pub open spec fn description_line(s: Store, src: Seq<char>) -> Seq<char> {
    "The tag "@ + src + " is linked with description "@ + or_empty(s.description(src)) + "."@
}

/// The line that `Mod` shows for the change.
pub open spec fn change_line(name: Seq<char>, new: Seq<char>, old: Seq<char>) -> Seq<char> {
    "Tag "@ + name + " is updated with description "@ + new + " from "@ + old + "."@
}

/// The store after a command.
pub open spec fn outcome(s: Store, command: Option<Commands>) -> Store {
    match command {
        Some(Commands::Add { name, tags, weights }) => s.added(
            TagRecord { name: name@, info: None },
            if tags.len() == weights.len() {
                neighbours(tags@, weights@)
            } else {
                Seq::empty()
            },
        ),
        Some(Commands::Del { name }) => s.removed(name@),
        Some(Commands::Link { src, tgt, weight }) => s.linked(src@, tgt@, weight),
        Some(Commands::Mod { name, desc }) => s.described(name@, desc@),
        _ => s,
    }
}

/// The lines that a command shows, in their order.
pub open spec fn transcript(s: Store, command: Option<Commands>) -> Seq<Seq<char>> {
    match command {
        Some(Commands::Add { name, tags, weights }) => if tags.len() == weights.len() {
            seq!["success"@]
        } else {
            seq!["links should be <name, weight> pairs."@, "success"@]
        },
        Some(Commands::Del { name }) => seq!["success"@],
        Some(Commands::Link { src, tgt, weight }) => if s.has_tag(src@) && s.has_tag(tgt@) {
            seq!["success"@]
        } else {
            seq![DatabaseError::BackendFailure.text()]
        },
        Some(Commands::Eval { src, tgt }) => seq![
            weight_line(s, src@, tgt@),
            description_line(s, src@),
        ],
        Some(Commands::Mod { name, desc }) => seq![
            "success"@,
            change_line(
                name@,
                or_empty(s.described(name@, desc@).description(name@)),
                or_empty(s.description(name@)),
            ),
        ],
        _ => Seq::empty(),
    }
}

/// Whether the command is one that can be carried out.
pub open spec fn implemented(command: Option<Commands>) -> bool {
    command is Some && !(command.unwrap() is Repl)
}

/// Carries out a command on the store and hands back the lines to show.
///
/// `Repl` and a missing command cannot be carried out: they leave the
/// store alone and give the complaint as the error.
pub fn parse_args(db_conn: &mut Database, command: &Option<Commands>) -> (out: Result<
    Vec<String>,
    String,
>)
    requires
        old(db_conn).wf(),
    ensures
        final(db_conn).wf(),
        final(db_conn)@ == outcome(old(db_conn)@, *command),
        match out {
            Ok(lines) => implemented(*command) && texts(lines@) == transcript(old(db_conn)@, *command),
            Err(complaint) => !implemented(*command) && complaint@ == "not implemented"@,
        },
{
    let mut lines: Vec<String> = Vec::new();
    match command {
        Some(Commands::Add { name, tags, weights }) => {
            let tag = Tag::new(name.as_str());
            if tags.len() == weights.len() {
                let mut pairs: Vec<(String, Weight)> = Vec::new();
                let mut i: usize = 0;
                while i < tags.len()
                    invariant
                        i <= tags.len(),
                        tags.len() == weights.len(),
                        pairs.len() == i,
                        forall|j: int|
                            0 <= j < i ==> (#[trigger] pairs[j]).0@ == tags[j]@ && pairs[j].1 == weights[j],
                    decreases tags.len() - i,
                {
                    pairs.push((tags[i].clone(), weights[i]));
                    i += 1;
                }
                assert(peers(pairs@) =~= neighbours(tags@, weights@));
                let res = tag.add_tag(db_conn, pairs.as_slice());
                lines.push(watch(&res));
            } else {
                lines.push("links should be <name, weight> pairs.".to_string());
                let none: Vec<(String, Weight)> = Vec::new();
                assert(peers(none@) =~= Seq::empty());
                let res = tag.add_tag(db_conn, none.as_slice());
                lines.push(watch(&res));
            }
        },
        Some(Commands::Del { name }) => {
            let res = Tag::new(name.as_str()).remove_tag(db_conn);
            lines.push(watch(&res));
        },
        Some(Commands::Eval { src, tgt }) => {
            let line = match Tag::query_relation(db_conn, src, tgt) {
                Some(weight) => {
                    let mut line = "The weight between ".to_string();
                    line.append(src.as_str());
                    line.append(" and ");
                    line.append(tgt.as_str());
                    line.append(" is ");
                    line.append(weight.to_string().as_str());
                    line
                },
                None => "No such link".to_string(),
            };
            lines.push(line);
            let desc = text_or_empty(Tag::new(src.as_str()).query_desc(db_conn));
            let mut line = "The tag ".to_string();
            line.append(src.as_str());
            line.append(" is linked with description ");
            line.append(desc.as_str());
            line.append(".");
            lines.push(line);
        },
        Some(Commands::Link { src, tgt, weight }) => {
            let res = Tag::new(src.as_str()).link_tags(db_conn, tgt, *weight);
            lines.push(watch(&res));
        },
        Some(Commands::Mod { name, desc }) => {
            let concerned = Tag::new(name.as_str());
            let old_desc = text_or_empty(concerned.query_desc(db_conn));
            let res = Tag::new(name.as_str()).modify_tag(db_conn, desc.as_str());
            lines.push(watch(&res));
            let new_desc = text_or_empty(concerned.query_desc(db_conn));
            let mut line = "Tag ".to_string();
            line.append(name.as_str());
            line.append(" is updated with description ");
            line.append(new_desc.as_str());
            line.append(" from ");
            line.append(old_desc.as_str());
            line.append(".");
            lines.push(line);
        },
        Some(Commands::Repl) => {
            return Err("not implemented".to_string());
        },
        None => {
            return Err("not implemented".to_string());
        },
    }
    assert(texts(lines@) =~= transcript(old(db_conn)@, *command));
    Ok(lines)
}

} // verus!
