use ukmm_merge::delete_map::DeleteMap;
use ukmm_merge::node::{node_eq, Node};
use ukmm_merge::patch::{apply_patch, parse_hash_key, patch_from_node, PatchError};
use ukmm_merge::settings::{DeployConfig, DeployMethod, Endian, Language, Platform, PlatformSettings, Settings};

#[test]
fn parses_decimal_keys() {
    assert_eq!(parse_hash_key("123"), Some(123));
    assert_eq!(parse_hash_key("+7"), Some(7));
    assert_eq!(parse_hash_key("4294967295"), Some(u32::MAX));
    assert_eq!(parse_hash_key("4294967296"), None);
    assert_eq!(parse_hash_key(""), None);
    assert_eq!(parse_hash_key("+"), None);
    assert_eq!(parse_hash_key("12a"), None);
    assert_eq!(parse_hash_key("-1"), None);
}

#[test]
fn patch_keys_become_identifiers() {
    let patch = Node::Hash(vec![
        ("10".to_string(), Node::U32(1)),
        ("20".to_string(), Node::U32(2)),
    ]);
    let d = patch_from_node(&patch).unwrap();
    assert_eq!(d.find(10), Some(0));
    assert_eq!(d.find(20), Some(1));
    let bad = Node::Hash(vec![("10".to_string(), Node::Null), ("x".to_string(), Node::Null)]);
    assert_eq!(patch_from_node(&bad).err(), Some(PatchError::BadKey(1)));
    assert_eq!(patch_from_node(&Node::Null).err(), Some(PatchError::NotAMap));
}

#[test]
fn patch_applies_onto_vanilla() {
    let mut base = DeleteMap::new();
    base.insert(10, Node::U32(0));
    base.insert(30, Node::U32(3));
    let patch = Node::Hash(vec![("10".to_string(), Node::U32(1)), ("20".to_string(), Node::U32(2))]);
    let out = apply_patch(&base, &patch).unwrap();
    assert_eq!(out.len(), 3);
    assert!(node_eq(out.get(10).unwrap(), &Node::U32(1)));
    assert_eq!(out.find(20), Some(2));
}

#[test]
fn platform_byte_order() {
    assert_eq!(Platform::WiiU.endian(), Endian::Big);
    assert_eq!(Platform::Switch.endian(), Endian::Little);
    assert_eq!(Platform::from(Endian::Little), Platform::Switch);
    assert_eq!(Endian::from(Platform::WiiU), Endian::Big);
    assert_ne!(Platform::WiiU.endian(), Platform::Switch.endian());
}

#[test]
fn settings_paths() {
    let mut st = Settings::default_in("/cfg");
    assert_eq!(st.storage_dir, "/cfg/ukmm");
    assert_eq!(st.platform_dir(), "/cfg/ukmm/wiiu");
    assert_eq!(st.mods_dir(), "/cfg/ukmm/wiiu/mods");
    assert!(st.dump().is_none());
    st.current_mode = Platform::Switch;
    assert_eq!(st.merged_dir(), "/cfg/ukmm/nx/merged");
    st.switch_config = Some(PlatformSettings {
        dump: "/games/botw".to_string(),
        deploy_config: Some(DeployConfig { output: "/sd/atmosphere".to_string(), method: DeployMethod::Symlink, auto: false }),
        language: Language::EUen,
    });
    assert_eq!(st.dump().map(|d| d.as_str()), Some("/games/botw"));
    assert_eq!(st.deploy_dir().map(|d| d.as_str()), Some("/sd/atmosphere"));
    assert_eq!(st.get_platform_dir(Platform::WiiU), "/cfg/ukmm/wiiu");
    assert!(st.platform_config().is_some());
}

#[test]
fn live_keys_skip_tombstones() {
    let mut m = DeleteMap::new();
    m.insert(4, Node::Null);
    m.remove(5);
    m.insert(6, Node::Null);
    assert_eq!(m.keys(), vec![4, 6]);
}
