use ukmm_merge::actor_info::{actor_info_from_node, actor_info_to_node, ActorInfoError};
use ukmm_merge::node::Node;
use ukmm_merge::patch::patch_from_node;

fn s(x: &str) -> String {
    x.to_string()
}

fn info(hashes: Vec<Node>, actors: Vec<Node>) -> Node {
    Node::Hash(vec![(s("Actors"), Node::Array(actors)), (s("Hashes"), Node::Array(hashes))])
}

fn name(x: &str) -> Node {
    Node::Hash(vec![(s("name"), Node::String(s(x)))])
}

#[test]
fn actor_info_reads_and_writes_back() {
    let tree = info(vec![Node::I32(5), Node::U32(0x9000_0000)], vec![name("A"), name("B")]);
    let m = actor_info_from_node(&tree).unwrap();
    assert_eq!(m.keys(), vec![5, 0x9000_0000]);
    assert!(actor_info_to_node(&m) == tree);
}

#[test]
fn actor_info_errors() {
    assert_eq!(actor_info_from_node(&Node::Null).err(), Some(ActorInfoError::NotAMap));
    let no_actors = Node::Hash(vec![(s("Hashes"), Node::Array(vec![]))]);
    assert_eq!(actor_info_from_node(&no_actors).err(), Some(ActorInfoError::MissingActors));
    let no_hashes = Node::Hash(vec![(s("Actors"), Node::Array(vec![]))]);
    assert_eq!(actor_info_from_node(&no_hashes).err(), Some(ActorInfoError::MissingHashes));
    let uneven = info(vec![Node::U32(1)], vec![]);
    assert_eq!(actor_info_from_node(&uneven).err(), Some(ActorInfoError::LengthMismatch));
    let negative = info(vec![Node::U32(1), Node::I32(-1)], vec![name("A"), name("B")]);
    assert_eq!(actor_info_from_node(&negative).err(), Some(ActorInfoError::BadHash(1)));
    let repeated = info(vec![Node::U32(7), Node::I32(7)], vec![name("A"), name("B")]);
    assert_eq!(actor_info_from_node(&repeated).err(), Some(ActorInfoError::DuplicateHash(1)));
}

#[test]
fn actor_info_patch_merges() {
    let base = actor_info_from_node(&info(vec![Node::I32(1), Node::I32(2)], vec![name("A"), name("B")])).unwrap();
    let patch = Node::Hash(vec![(s("2"), name("B2")), (s("3"), name("C"))]);
    let merged = base.merge(&patch_from_node(&patch).unwrap());
    let want = info(vec![Node::I32(1), Node::I32(2), Node::I32(3)], vec![name("A"), name("B2"), name("C")]);
    assert!(actor_info_to_node(&merged) == want);
}
