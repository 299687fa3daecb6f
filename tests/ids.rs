use hivemind::ids::{RDDID, UUID};
use hivemind::members::{LiveMembers, Route, RouteError};
use hivemind::stream::RepeatVec;

#[test]
fn uuid_bytes_little_endian() {
    let u = UUID::new(0x0102030405060708, 0x1112131415161718);
    assert_eq!(
        u.bytes(),
        vec![8, 7, 6, 5, 4, 3, 2, 1, 0x18, 0x17, 0x16, 0x15, 0x14, 0x13, 0x12, 0x11]
    );
    assert_eq!(UUID::from_bytes(&u.bytes()), u);
    assert_eq!(u.key(), 0x0102030405060708_1112131415161718u128);
}

#[test]
fn uuid_hex_form() {
    let u = UUID::new(0xAB, 1);
    assert_eq!(String::from_utf8(u.hex()).unwrap(), "AB000000000000000100000000000000");
    assert_eq!(String::from_utf8(UUID::unit().hex()).unwrap(), "0".repeat(32));
}

#[test]
fn uuid_rand_is_version_4() {
    let a = UUID::rand();
    let b = UUID::rand();
    assert_ne!(a, b);
    let bytes = a.bytes();
    assert_eq!(bytes[6] >> 4, 4);
    assert_eq!(bytes[8] >> 6, 2);
    assert_ne!(a, UUID::unit());
    let r = RDDID::rand();
    assert_eq!(r.id.bytes()[6] >> 4, 4);
}

#[test]
fn repeat_vec_cycles() {
    let mut s = RepeatVec::new(vec![1, 2, 3]);
    let got: Vec<i32> = (0..7).map(|_| s.poll()).collect();
    assert_eq!(got, vec![1, 2, 3, 1, 2, 3, 1]);
}

#[test]
fn live_members_table() {
    let mut m = LiveMembers::new();
    m.member_online(1, "a:1".to_owned());
    m.member_online(2, "b:2".to_owned());
    m.member_offline(1);
    assert_eq!(m.get_by_id(1), None);
    assert_eq!(m.get_by_id(2), Some("b:2".to_owned()));
}

#[test]
fn routing_by_membership() {
    let mut m = LiveMembers::new();
    m.member_online(2, "b:2".to_owned());
    assert!(matches!(m.route(1, 1), Ok(Route::Local)));
    match m.route(1, 2) {
        Ok(Route::Remote(a)) => assert_eq!(a, "b:2"),
        other => panic!("unexpected route {:?}", other),
    }
    assert!(matches!(m.route(1, 3), Err(RouteError::CannotFindClient)));
}
