use roead::byml::Byml;
use ukmm_merge::settings::{Endian, Platform};

fn endian_of(p: Platform) -> roead::Endian {
    match p.endian() {
        Endian::Big => roead::Endian::Big,
        Endian::Little => roead::Endian::Little,
    }
}

fn float_tree() -> Byml {
    Byml::Map([("LocationPosX".into(), Byml::Float(1.5)), ("HashId".into(), Byml::U32(0x0102_0304))].into_iter().collect())
}

#[test]
fn platforms_write_different_byte_orders() {
    let big = float_tree().to_binary(endian_of(Platform::WiiU));
    let little = float_tree().to_binary(endian_of(Platform::Switch));
    assert_ne!(big, little);
    assert_eq!(&big[0..2], b"BY");
    assert_eq!(&little[0..2], b"YB");
}

#[test]
fn wrong_byte_order_corrupts_scalars() {
    let mut data = float_tree().to_binary(endian_of(Platform::Switch));
    // Claim the other byte order in the header while the body stays as written.
    data[0] = b'B';
    data[1] = b'Y';
    match Byml::from_binary(&data) {
        Err(_) => {}
        Ok(tree) => assert_ne!(tree, float_tree()),
    }
}
