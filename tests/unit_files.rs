use roead::byml::Byml;
use ukmm_merge::map_unit::MapUnit;
use ukmm_merge::node::{node_eq, Node};

fn to_node(b: &Byml) -> Node {
    match b {
        Byml::Null => Node::Null,
        Byml::Bool(x) => Node::Bool(*x),
        Byml::I32(x) => Node::I32(*x),
        Byml::U32(x) => Node::U32(*x),
        Byml::I64(x) => Node::I64(*x),
        Byml::U64(x) => Node::U64(*x),
        Byml::Float(x) => Node::Float(x.to_bits()),
        Byml::Double(x) => Node::Double(x.to_bits()),
        Byml::String(s) => Node::String(s.to_string()),
        Byml::BinaryData(d) => Node::Binary(d.clone()),
        Byml::Array(v) => Node::Array(v.iter().map(to_node).collect()),
        Byml::Map(m) => {
            let mut entries: Vec<(String, &Byml)> = m.iter().map(|(k, v)| (k.to_string(), v)).collect();
            entries.sort_by(|a, b| a.0.cmp(&b.0));
            Node::Hash(entries.into_iter().map(|(k, v)| (k, to_node(v))).collect())
        }
        _ => panic!("unsupported node"),
    }
}

fn to_byml(n: &Node) -> Byml {
    match n {
        Node::Null => Byml::Null,
        Node::Bool(x) => Byml::Bool(*x),
        Node::I32(x) => Byml::I32(*x),
        Node::U32(x) => Byml::U32(*x),
        Node::I64(x) => Byml::I64(*x),
        Node::U64(x) => Byml::U64(*x),
        Node::Float(x) => Byml::Float(f32::from_bits(*x)),
        Node::Double(x) => Byml::Double(f64::from_bits(*x)),
        Node::String(s) => Byml::String(s.as_str().into()),
        Node::Binary(d) => Byml::BinaryData(d.clone()),
        Node::Array(v) => Byml::Array(v.iter().map(to_byml).collect()),
        Node::Hash(h) => Byml::Map(h.iter().map(|(k, v)| (k.as_str().into(), to_byml(v))).collect()),
    }
}

fn actor(id: u32, name: &str, x: f32) -> Byml {
    Byml::Map(
        [
            ("HashId".into(), Byml::U32(id)),
            ("UnitConfigName".into(), Byml::String(name.into())),
            ("Translate".into(), Byml::Array(vec![Byml::Float(x), Byml::Float(0.0), Byml::Float(-x)])),
        ]
        .into_iter()
        .collect(),
    )
}

fn rail(id: u32) -> Byml {
    Byml::Map([("HashId".into(), Byml::U32(id)), ("IsClosed".into(), Byml::Bool(false))].into_iter().collect())
}

fn munt(objs: Vec<Byml>, rails: Vec<Byml>, located: bool) -> Byml {
    let mut fields: Vec<(String, Byml)> = vec![("Objs".into(), Byml::Array(objs)), ("Rails".into(), Byml::Array(rails))];
    if located {
        fields.push(("LocationPosX".into(), Byml::Float(-3500.0)));
        fields.push(("LocationPosY".into(), Byml::Float(1500.0)));
        fields.push(("LocationSize".into(), Byml::Float(1000.0)));
    }
    Byml::Map(fields.into_iter().map(|(k, v)| (k.as_str().into(), v)).collect())
}

// The map-unit files of the game are not shipped with this crate, so the
// `load_*` helpers build small trees of the same shape: a located field unit
// with objects and rails, and a dungeon unit without location fields.
fn load_mainfield_munt() -> Byml {
    munt(vec![actor(11, "TwnObj_A", 1.0), actor(12, "Enemy_B", 2.0), actor(13, "Item_C", 3.0)], vec![rail(90)], true)
}

fn load_mod_mainfield_munt() -> Byml {
    munt(vec![actor(11, "TwnObj_A", 1.0), actor(13, "Item_C", 9.0), actor(14, "Npc_D", 4.0)], vec![rail(90), rail(91)], true)
}

fn load_cdungeon_munt() -> Byml {
    munt(vec![actor(21, "DgnObj_A", 5.0), actor(22, "DgnObj_B", 6.0)], vec![], false)
}

fn load_mod_cdungeon_munt() -> Byml {
    munt(vec![actor(22, "DgnObj_B", 6.0), actor(23, "DgnObj_C", 7.0)], vec![], false)
}

fn unit_of(b: &Byml) -> MapUnit {
    MapUnit::try_from(&to_node(b)).unwrap()
}

fn same_unit(a: &MapUnit, b: &MapUnit) -> bool {
    a.pos_x == b.pos_x && a.pos_y == b.pos_y && a.size == b.size && node_eq(&a.to_node(), &b.to_node())
}

#[test]
fn serde_mainfield() {
    let byml = load_mainfield_munt();
    let munt = unit_of(&byml);
    let data = to_byml(&munt.to_node()).to_binary(roead::Endian::Big);
    let byml2 = Byml::from_binary(&data).unwrap();
    let munt2 = unit_of(&byml2);
    assert!(same_unit(&munt, &munt2));
}

#[test]
fn serde_cdungeon() {
    let byml = load_cdungeon_munt();
    let munt = unit_of(&byml);
    let data = to_byml(&munt.to_node()).to_binary(roead::Endian::Big);
    let byml2 = Byml::from_binary(&data).unwrap();
    let munt2 = unit_of(&byml2);
    assert!(same_unit(&munt, &munt2));
}

#[test]
fn diff_mainfield() {
    let munt = unit_of(&load_mainfield_munt());
    let munt2 = unit_of(&load_mod_mainfield_munt());
    let _diff = munt.diff(&munt2);
}

#[test]
fn diff_cdungeon() {
    let munt = unit_of(&load_cdungeon_munt());
    let munt2 = unit_of(&load_mod_cdungeon_munt());
    let _diff = munt.diff(&munt2);
}

#[test]
fn merge_mainfield() {
    let munt = unit_of(&load_mainfield_munt());
    let munt2 = unit_of(&load_mod_mainfield_munt());
    let diff = munt.diff(&munt2);
    let merged = munt.merge(&diff);
    assert!(same_unit(&merged, &munt2));
}

#[test]
fn merge_cdungeon() {
    let munt = unit_of(&load_cdungeon_munt());
    let munt2 = unit_of(&load_cdungeon_munt());
    let diff = munt.diff(&munt2);
    let merged = munt.merge(&diff);
    assert!(same_unit(&merged, &munt2));
}
