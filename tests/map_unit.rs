use ukmm_merge::delete_map::DeleteMap;
use ukmm_merge::map_unit::{Field, MapUnit, UKError};
use ukmm_merge::node::{node_eq, Node};

fn s(x: &str) -> String {
    x.to_string()
}

fn obj(id: u32, name: &str) -> Node {
    Node::Hash(vec![
        (s("HashId"), Node::U32(id)),
        (s("UnitConfigName"), Node::String(s(name))),
    ])
}

fn unit(objs: Vec<Node>) -> Node {
    Node::Hash(vec![
        (s("LocationPosX"), Node::Float(1.5f32.to_bits())),
        (s("Objs"), Node::Array(objs)),
        (s("Rails"), Node::Array(vec![])),
    ])
}

fn names(m: &DeleteMap) -> Vec<String> {
    m.values()
        .iter()
        .map(|n| match n {
            Node::Hash(h) => match &h[1].1 {
                Node::String(x) => x.clone(),
                _ => panic!("no name"),
            },
            _ => panic!("not a hash"),
        })
        .collect()
}

fn same_unit(a: &MapUnit, b: &MapUnit) -> bool {
    a.pos_x == b.pos_x
        && a.pos_y == b.pos_y
        && a.size == b.size
        && node_eq(&a.to_node(), &b.to_node())
}

#[test]
fn merge_new_entry_keeps_order() {
    let base = MapUnit::try_from(&unit(vec![obj(1, "A"), obj(2, "B")])).unwrap();
    let modded = MapUnit::try_from(&unit(vec![obj(1, "A"), obj(2, "B"), obj(3, "C")])).unwrap();
    let diff = base.diff(&modded);
    assert_eq!(diff.objects.len(), 1);
    let merged = base.merge(&diff);
    assert_eq!(names(&merged.objects), vec![s("A"), s("B"), s("C")]);
}

#[test]
fn merge_deletion_keeps_order() {
    let base = MapUnit::try_from(&unit(vec![obj(1, "A"), obj(2, "B")])).unwrap();
    let modded = MapUnit::try_from(&unit(vec![obj(2, "B")])).unwrap();
    let diff = base.diff(&modded);
    assert!(diff.objects.find(1).is_some());
    assert!(diff.objects.get(1).is_none());
    let merged = base.merge(&diff);
    assert_eq!(names(&merged.objects), vec![s("B")]);
    assert!(merged.objects.find(1).is_none());
}

#[test]
fn missing_objs_names_the_field() {
    let tree = Node::Hash(vec![(s("Rails"), Node::Array(vec![]))]);
    match MapUnit::try_from(&tree) {
        Err(e) => {
            assert_eq!(e, UKError::MissingBymlKey(Field::Objs));
            assert_eq!(Field::Objs.name(), "Objs");
        }
        Ok(_) => panic!("decoded without objects"),
    }
}

#[test]
fn missing_rails_names_the_field() {
    let tree = Node::Hash(vec![(s("Objs"), Node::Array(vec![]))]);
    assert_eq!(MapUnit::try_from(&tree).err(), Some(UKError::MissingBymlKey(Field::Rails)));
}

#[test]
fn decode_error_variants() {
    assert_eq!(MapUnit::try_from(&Node::U32(3)).err(), Some(UKError::WrongBymlType(Field::Root)));
    let bad_float = Node::Hash(vec![(s("LocationPosX"), Node::U32(1))]);
    assert_eq!(MapUnit::try_from(&bad_float).err(), Some(UKError::WrongBymlType(Field::LocationPosX)));
    let no_id = unit(vec![Node::Hash(vec![(s("X"), Node::Null)])]);
    assert_eq!(MapUnit::try_from(&no_id).err(), Some(UKError::MissingBymlKey(Field::ObjHashId)));
    let bad_id = unit(vec![Node::Hash(vec![(s("HashId"), Node::I32(4))])]);
    assert_eq!(MapUnit::try_from(&bad_id).err(), Some(UKError::WrongBymlType(Field::ObjHashId)));
    let not_hash = unit(vec![Node::Null]);
    assert_eq!(MapUnit::try_from(&not_hash).err(), Some(UKError::WrongBymlType(Field::Obj)));
    let dup = unit(vec![obj(7, "A"), obj(7, "B")]);
    assert_eq!(MapUnit::try_from(&dup).err(), Some(UKError::DuplicateHashId(Field::Obj, 7)));
    let objs_not_array = Node::Hash(vec![(s("Objs"), Node::Null), (s("Rails"), Node::Array(vec![]))]);
    assert_eq!(MapUnit::try_from(&objs_not_array).err(), Some(UKError::WrongBymlType(Field::Objs)));
    let bad_rail = Node::Hash(vec![
        (s("Objs"), Node::Array(vec![])),
        (s("Rails"), Node::Array(vec![Node::Hash(vec![])])),
    ]);
    assert_eq!(MapUnit::try_from(&bad_rail).err(), Some(UKError::MissingBymlKey(Field::RailHashId)));
}

#[test]
fn decode_reads_floats_and_ids() {
    let u = MapUnit::try_from(&unit(vec![obj(9, "A")])).unwrap();
    assert_eq!(u.pos_x, Some(1.5f32.to_bits()));
    assert_eq!(u.pos_y, None);
    assert_eq!(u.size, None);
    assert!(u.objects.get(9).is_some());
    assert_eq!(u.rails.len(), 0);
}

#[test]
fn encode_decode_round_trip() {
    let tree = unit(vec![obj(1, "A"), obj(2, "B")]);
    let u = MapUnit::try_from(&tree).unwrap();
    let back = u.to_node();
    let u2 = MapUnit::try_from(&back).unwrap();
    assert!(same_unit(&u, &u2));
    match &back {
        Node::Hash(h) => {
            let keys: Vec<&str> = h.iter().map(|(k, _)| k.as_str()).collect();
            assert_eq!(keys, vec!["Objs", "Rails", "LocationPosX"]);
        }
        _ => panic!("not a hash"),
    }
}

#[test]
fn self_diff_is_empty_and_merges_to_itself() {
    let u = MapUnit::try_from(&unit(vec![obj(1, "A"), obj(2, "B")])).unwrap();
    let d = u.diff(&u);
    assert_eq!(d.objects.len(), 0);
    let m = u.merge(&d);
    assert!(same_unit(&u, &m));
}

#[test]
fn diff_then_merge_gives_target() {
    let a = MapUnit::try_from(&unit(vec![obj(1, "A"), obj(2, "B"), obj(3, "C")])).unwrap();
    let b = MapUnit::try_from(&unit(vec![obj(1, "A"), obj(3, "Z"), obj(4, "D")])).unwrap();
    let m = a.merge(&a.diff(&b));
    assert!(same_unit(&m, &b));
}

#[test]
fn map_unit_equality_clone_and_from() {
    let u = MapUnit::try_from(&unit(vec![obj(1, "A")])).unwrap();
    let c = u.clone();
    assert!(c == u);
    let other = MapUnit::try_from(&unit(vec![obj(2, "A")])).unwrap();
    assert!(other != u);
    let n = Node::from(c);
    assert!(n == u.to_node());
    assert!(n.clone() == n);
    assert!(u.objects.clone() == u.objects);
    assert!(MapUnit::default().objects.len() == 0);
}
