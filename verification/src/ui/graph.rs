//! The graph as a drawing needs it: nodes with their descriptions and
//! links with their strengths.

use vstd::prelude::*;
use crate::db::crud::Database;
use crate::db::model::Store;
use crate::db::schema::{or_empty, text_or_empty};
use crate::tag::{Tag, texts};
use crate::weight::Weight;

verus! {

/// A tag to draw.
#[derive(Debug)]
pub struct Node {
    pub id: String,
    pub desc: String,
}

/// An edge to draw.
#[derive(Debug)]
pub struct Link {
    pub source: String,
    pub target: String,
    pub strength: Weight,
}

/// A node as contracts see it.
pub struct NodeView {
    pub id: Seq<char>,
    pub desc: Seq<char>,
}

/// A link as contracts see it.
pub struct LinkView {
    pub source: Seq<char>,
    pub target: Seq<char>,
    pub strength: Weight,
}

impl View for Node {
    type V = NodeView;

    open spec fn view(&self) -> NodeView {
        NodeView { id: self.id@, desc: self.desc@ }
    }
}

impl View for Link {
    type V = LinkView;

    open spec fn view(&self) -> LinkView {
        LinkView { source: self.source@, target: self.target@, strength: self.strength }
    }
}

/// The views of a sequence of nodes.
pub open spec fn node_views(nodes: Seq<Node>) -> Seq<NodeView> {
    nodes.map_values(|n: Node| n@)
}

/// The views of a sequence of links.
pub open spec fn link_views(links: Seq<Link>) -> Seq<LinkView> {
    links.map_values(|l: Link| l@)
}

/// The weight of an optional weight, zero where there is none.
pub open spec fn or_zero(weight: Option<Weight>) -> Weight {
    match weight {
        Some(w) => w,
        None => Weight { millionths: 0 },
    }
}

/// The node for the tag `name`: its description is empty where it has none.
pub open spec fn node_of(s: Store, name: Seq<char>) -> NodeView {
    NodeView { id: name, desc: or_empty(s.description(name)) }
}

/// The link from `source` to `target` at the weight that the store holds.
pub open spec fn link_of(s: Store, source: Seq<char>, target: Seq<char>) -> LinkView {
    LinkView { source: source, target: target, strength: or_zero(s.weight(source, target)) }
}

/// The links from `source` to the tags it has edges to, strongest first.
pub open spec fn links_of(s: Store, source: Seq<char>) -> Seq<LinkView> {
    s.top_related(source).map_values(|target: Seq<char>| link_of(s, source, target))
}

fn weight_or_zero(weight: Option<Weight>) -> (w: Weight)
    ensures
        w == or_zero(weight),
{
    match weight {
        Some(w) => w,
        None => Weight::from_millionths(0),
    }
}

/// A node for every tag, in table order.
pub fn export_nodes(db: &Database) -> (nodes: Vec<Node>)
    requires
        db.wf(),
    ensures
        node_views(nodes@) == db@.names().map_values(|name: Seq<char>| node_of(db@, name)),
{
    let tag_names = Tag::get_tags(db);
    let mut nodes: Vec<Node> = Vec::new();
    let mut i: usize = 0;
    while i < tag_names.len()
        invariant
            i <= tag_names.len(),
            db.wf(),
            texts(tag_names@) == db@.names(),
            nodes.len() == i,
            forall|j: int| 0 <= j < i ==> (#[trigger] nodes[j])@ == node_of(db@, db@.names()[j]),
        decreases tag_names.len() - i,
    {
        assert(texts(tag_names@)[i as int] == tag_names[i as int]@);
        let tag = Tag::new(tag_names[i].as_str());
        nodes.push(Node { id: tag_names[i].clone(), desc: text_or_empty(tag.query_desc(db)) });
        i += 1;
    }
    assert(node_views(nodes@) =~= db@.names().map_values(|name: Seq<char>| node_of(db@, name)));
    nodes
}

/// The neighbourhood of one tag: a node for each tag that it has an edge
/// to, strongest edge first, then a node for the tag itself; and a link
/// for each of those edges.
pub fn export_succ(tag_name: &str, db: &Database) -> (out: (Vec<Node>, Vec<Link>))
    requires
        db.wf(),
    ensures
        node_views(out.0@) == db@.top_related(tag_name@).map_values(
            |name: Seq<char>| node_of(db@, name),
        ).push(node_of(db@, tag_name@)),
        link_views(out.1@) == links_of(db@, tag_name@),
{
    let this_tag = Tag::new(tag_name);
    let related = this_tag.qtrd(db);
    let ghost peers = db@.top_related(tag_name@);
    let mut nodes: Vec<Node> = Vec::new();
    let mut links: Vec<Link> = Vec::new();
    let mut i: usize = 0;
    while i < related.len()
        invariant
            i <= related.len(),
            peers == db@.top_related(tag_name@),
            related.len() == peers.len(),
            forall|j: int|
                #![trigger related[j]]
                0 <= j < related.len() ==> {
                    &&& related[j].0@ == peers[j]
                    &&& crate::db::schema::text_of(related[j].1) == db@.description(peers[j])
                    &&& related[j].2 == db@.weight(tag_name@, peers[j])
                },
            nodes.len() == i,
            links.len() == i,
            forall|j: int| 0 <= j < i ==> (#[trigger] nodes[j])@ == node_of(db@, peers[j]),
            forall|j: int| 0 <= j < i ==> (#[trigger] links[j])@ == link_of(db@, tag_name@, peers[j]),
        decreases related.len() - i,
    {
        let name = &related[i].0;
        let desc = crate::db::schema::copy_text(&related[i].1);
        let weight = related[i].2;
        nodes.push(Node { id: name.clone(), desc: text_or_empty(desc) });
        links.push(
            Link { source: tag_name.to_string(), target: name.clone(), strength: weight_or_zero(weight) },
        );
        i += 1;
    }
    let ghost listed = node_views(nodes@);
    nodes.push(Node { id: tag_name.to_string(), desc: text_or_empty(this_tag.query_desc(db)) });
    assert(listed =~= peers.map_values(|name: Seq<char>| node_of(db@, name)));
    assert(node_views(nodes@) =~= listed.push(node_of(db@, tag_name@)));
    assert(link_views(links@) =~= links_of(db@, tag_name@));
    (nodes, links)
}

/// A link for every edge: tag by tag in table order, the edges of each
/// tag strongest first.
pub fn export_links(db: &Database) -> (links: Vec<Link>)
    requires
        db.wf(),
    ensures
        link_views(links@) == db@.names().flat_map(|source: Seq<char>| links_of(db@, source)),
{
    let tag_names = Tag::get_tags(db);
    let ghost sources = db@.names();
    let ghost each = |source: Seq<char>| links_of(db@, source);
    let mut links: Vec<Link> = Vec::new();
    let mut i: usize = 0;
    proof {
        assert(sources.take(0) =~= Seq::empty());
        assert(link_views(links@) =~= sources.take(0).flat_map(each));
    }
    while i < tag_names.len()
        invariant
            i <= tag_names.len(),
            db.wf(),
            sources == db@.names(),
            each == |source: Seq<char>| links_of(db@, source),
            texts(tag_names@) == sources,
            link_views(links@) == sources.take(i as int).flat_map(each),
        decreases tag_names.len() - i,
    {
        assert(texts(tag_names@)[i as int] == tag_names[i as int]@);
        let tag = Tag::new(tag_names[i].as_str());
        let related = tag.qtrd(db);
        let ghost source = sources[i as int];
        let ghost peers = db@.top_related(source);
        let ghost done = link_views(links@);
        let mut j: usize = 0;
        assert(link_views(links@) =~= done + links_of(db@, source).take(0));
        while j < related.len()
            invariant
                j <= related.len(),
                source == tag_names[i as int]@,
                i < tag_names.len(),
                peers == db@.top_related(source),
                related.len() == peers.len(),
                forall|x: int|
                    #![trigger related[x]]
                    0 <= x < related.len() ==> {
                        &&& related[x].0@ == peers[x]
                        &&& related[x].2 == db@.weight(source, peers[x])
                    },
                link_views(links@) == done + links_of(db@, source).take(j as int),
            decreases related.len() - j,
        {
            let ghost before = link_views(links@);
            links.push(
                Link {
                    source: tag_names[i].clone(),
                    target: related[j].0.clone(),
                    strength: weight_or_zero(related[j].2),
                },
            );
            assert(link_views(links@) =~= before.push(link_of(db@, source, peers[j as int])));
            assert(before.push(link_of(db@, source, peers[j as int])) =~= done + links_of(
                db@,
                source,
            ).take(j + 1));
            j += 1;
        }
        proof {
            assert(links_of(db@, source).take(related.len() as int) =~= links_of(db@, source));
            sources.lemma_flat_map_take_append(each, i as int);
        }
        i += 1;
    }
    assert(sources.take(tag_names.len() as int) =~= sources);
    links
}

} // verus!
