use perplecs::bundle::{Bundle, Component};
use perplecs::archetype::TypeInfo;
use perplecs::world::World;

const TAG_U32: u64 = 1;
const TAG_U64: u64 = 2;
const TAG_TEST: u64 = 3;

fn ti_u32() -> TypeInfo {
    TypeInfo::new(TAG_U32, 4)
}

fn ti_u64() -> TypeInfo {
    TypeInfo::new(TAG_U64, 8)
}

fn ti_test() -> TypeInfo {
    TypeInfo::new(TAG_TEST, 5)
}

fn enc_u32(v: u32) -> Vec<u8> {
    v.to_le_bytes().to_vec()
}

fn enc_u64(v: u64) -> Vec<u8> {
    v.to_le_bytes().to_vec()
}

/// A two-field test component: `a: u8`, `b: u32`.
fn enc_test(a: u8, b: u32) -> Vec<u8> {
    let mut bytes = vec![a];
    bytes.extend_from_slice(&b.to_le_bytes());
    bytes
}

fn bundle_of(parts: Vec<(TypeInfo, Vec<u8>)>) -> Bundle {
    let mut b = Bundle::new();
    for (info, value) in parts {
        b.push(Component::new(info, value));
    }
    b
}

#[test]
fn world_add() {
    let mut w = World::new();
    for _ in 0..100 {
        let e = w.spawn();
        let test_data = bundle_of(vec![(ti_test(), enc_test(4, 3)), (ti_u32(), enc_u32(3))]);
        w.add(e, test_data);
        let t = w.get(e, &vec![TAG_TEST]).unwrap();
        let u = w.get(e, &vec![TAG_U32]).unwrap();
        let tu = w.get(e, &vec![TAG_TEST, TAG_U32]).unwrap();
        assert_eq!(t[0], enc_test(4, 3));
        assert_eq!(u[0], enc_u32(3));
        assert_eq!(tu[0], enc_test(4, 3));
        assert_eq!(tu[1], enc_u32(3));
    }
}

#[test]
fn world_add_different() {
    let mut w = World::new();
    let e = w.spawn();
    let test_data = bundle_of(vec![(ti_test(), enc_test(4, 3)), (ti_u32(), enc_u32(3))]);
    w.add(e, test_data);
    let e2 = w.spawn();
    let test_data2 = bundle_of(vec![
        (ti_test(), enc_test(4, 3)),
        (ti_u32(), enc_u32(3)),
        (ti_u64(), enc_u64(4)),
    ]);
    w.add(e2, test_data2);

    let t = w.get(e, &vec![TAG_TEST]).unwrap();
    let u = w.get(e, &vec![TAG_U32]).unwrap();
    let tu = w.get(e, &vec![TAG_TEST, TAG_U32]).unwrap();
    assert_eq!(t[0], enc_test(4, 3));
    assert_eq!(u[0], enc_u32(3));
    assert_eq!(tu[0], enc_test(4, 3));
    assert_eq!(tu[1], enc_u32(3));

    let t = w.get(e2, &vec![TAG_TEST]).unwrap();
    let u = w.get(e2, &vec![TAG_U32]).unwrap();
    let uw = w.get(e2, &vec![TAG_U64]).unwrap();
    let tuw = w.get(e2, &vec![TAG_TEST, TAG_U32, TAG_U64]).unwrap();
    assert_eq!(t[0], enc_test(4, 3));
    assert_eq!(u[0], enc_u32(3));
    assert_eq!(uw[0], enc_u64(4));
    assert_eq!(tuw[0], enc_test(4, 3));
    assert_eq!(tuw[1], enc_u32(3));
    assert_eq!(tuw[2], enc_u64(4));
}

#[test]
fn world_add_after() {
    let mut w = World::new();
    let e = w.spawn();
    w.add(e, bundle_of(vec![(ti_test(), enc_test(4, 3))]));
    w.add(e, bundle_of(vec![(ti_u32(), enc_u32(3))]));

    let t = w.get(e, &vec![TAG_TEST]).unwrap();
    let u = w.get(e, &vec![TAG_U32]).unwrap();
    let tu = w.get(e, &vec![TAG_TEST, TAG_U32]).unwrap();
    assert_eq!(t[0], enc_test(4, 3));
    assert_eq!(u[0], enc_u32(3));
    assert_eq!(tu[0], enc_test(4, 3));
    assert_eq!(tu[1], enc_u32(3));
}

#[test]
fn world_remove_migrates_remainder() {
    let mut w = World::new();
    let e = w.spawn();
    w.add(
        e,
        bundle_of(vec![(ti_test(), enc_test(7, 9)), (ti_u32(), enc_u32(11))]),
    );
    assert_eq!(w.remove(e, &vec![TAG_U32]), Some(()));
    assert_eq!(w.get(e, &vec![TAG_U32]), None);
    let t = w.get(e, &vec![TAG_TEST]).unwrap();
    assert_eq!(t[0], enc_test(7, 9));
    let fresh = w.spawn();
    assert_eq!(w.remove(fresh, &vec![TAG_U32]), None);
}

#[test]
fn world_destroy_is_idempotent() {
    let mut w = World::new();
    let e = w.spawn();
    let e2 = w.spawn();
    w.add(e, bundle_of(vec![(ti_u32(), enc_u32(5))]));
    w.add(e2, bundle_of(vec![(ti_u32(), enc_u32(6))]));
    w.destroy(e);
    assert_eq!(w.get(e, &vec![TAG_U32]), None);
    // destroying again, or destroying an id that never existed, is a no-op
    w.destroy(e);
    w.destroy(perplecs::entity::Entity(999));
    assert_eq!(w.get(e, &vec![TAG_U32]), None);
    let kept = w.get(e2, &vec![TAG_U32]).unwrap();
    assert_eq!(kept[0], enc_u32(6));
}

#[test]
fn world_swap_remove_isolation() {
    let mut w = World::new();
    let e1 = w.spawn();
    let e2 = w.spawn();
    w.add(e1, bundle_of(vec![(ti_test(), enc_test(1, 10))]));
    w.add(e2, bundle_of(vec![(ti_test(), enc_test(2, 20))]));
    // removing e1's row makes e2's row fill the vacated slot
    assert_eq!(w.remove(e1, &vec![TAG_TEST]), Some(()));
    let kept = w.get(e2, &vec![TAG_TEST]).unwrap();
    assert_eq!(kept[0], enc_test(2, 20));
    assert_eq!(w.get(e1, &vec![TAG_TEST]), None);
}

#[test]
fn world_has_matches_exact_type_set() {
    let mut w = World::new();
    let e = w.spawn();
    w.add(e, bundle_of(vec![(ti_test(), enc_test(1, 2)), (ti_u32(), enc_u32(3))]));
    assert!(w.has(e, &vec![TAG_TEST, TAG_U32]));
    assert!(w.has(e, &vec![TAG_U32, TAG_TEST]));
    assert!(!w.has(e, &vec![TAG_TEST]));
    let fresh = w.spawn();
    assert!(!w.has(fresh, &vec![TAG_TEST, TAG_U32]));
}

#[test]
fn world_get_reports_not_found() {
    let mut w = World::new();
    let e = w.spawn();
    assert_eq!(w.get(e, &vec![TAG_TEST]), None);
    w.add(e, bundle_of(vec![(ti_test(), enc_test(1, 2))]));
    assert_eq!(w.get(e, &vec![TAG_TEST, TAG_U32]), None);
    assert_eq!(w.get(perplecs::entity::Entity(42), &vec![TAG_TEST]), None);
}

#[test]
fn world_set_overwrites_in_place() {
    let mut w = World::new();
    let e = w.spawn();
    w.add(e, bundle_of(vec![(ti_test(), enc_test(1, 2)), (ti_u32(), enc_u32(3))]));
    let ok = w.set(e, bundle_of(vec![(ti_u32(), enc_u32(77))]));
    assert!(ok);
    let u = w.get(e, &vec![TAG_U32]).unwrap();
    assert_eq!(u[0], enc_u32(77));
    let t = w.get(e, &vec![TAG_TEST]).unwrap();
    assert_eq!(t[0], enc_test(1, 2));
    // a type the entity does not hold is rejected without effect
    let missing = w.set(e, bundle_of(vec![(ti_u64(), enc_u64(1))]));
    assert!(!missing);
}

#[test]
fn world_add_empty_bundle() {
    let mut w = World::new();
    let e = w.spawn();
    w.add(e, Bundle::new());
    // the entity holds a row with no components
    assert_eq!(w.get(e, &Vec::new()), Some(Vec::new()));
    assert_eq!(w.get(e, &vec![TAG_U32]), None);
    w.add(e, bundle_of(vec![(ti_u32(), enc_u32(8))]));
    let v = w.get(e, &vec![TAG_U32]).unwrap();
    assert_eq!(v[0], enc_u32(8));
}

#[test]
fn world_type_set_order_insensitive() {
    // the registry key is the type set, not the declaration order
    let mut w = World::new();
    let e1 = w.spawn();
    let e2 = w.spawn();
    w.add(e1, bundle_of(vec![(ti_test(), enc_test(1, 1)), (ti_u32(), enc_u32(1))]));
    w.add(e2, bundle_of(vec![(ti_u32(), enc_u32(2)), (ti_test(), enc_test(2, 2))]));
    assert!(w.has(e1, &vec![TAG_U32, TAG_TEST]));
    assert!(w.has(e2, &vec![TAG_TEST, TAG_U32]));
    let v1 = w.get(e1, &vec![TAG_TEST, TAG_U32]).unwrap();
    let v2 = w.get(e2, &vec![TAG_TEST, TAG_U32]).unwrap();
    assert_eq!(v1, vec![enc_test(1, 1), enc_u32(1)]);
    assert_eq!(v2, vec![enc_test(2, 2), enc_u32(2)]);
}

#[test]
fn world_growth_keeps_earlier_rows() {
    let mut w = World::new();
    let mut entities = Vec::new();
    for i in 0..100u32 {
        let e = w.spawn();
        w.add(e, bundle_of(vec![(ti_u32(), enc_u32(i))]));
        entities.push(e);
    }
    for i in 0..100u32 {
        let v = w.get(entities[i as usize], &vec![TAG_U32]).unwrap();
        assert_eq!(v[0], enc_u32(i));
    }
}
