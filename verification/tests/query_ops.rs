use perplecs::bundle::{Bundle, Component};
use perplecs::archetype::TypeInfo;
use perplecs::world::World;

const TAG_U32: u64 = 1;
const TAG_TEST: u64 = 3;
const TAG_POS: u64 = 5;
const TAG_VEL: u64 = 6;

fn ti_u32() -> TypeInfo {
    TypeInfo::new(TAG_U32, 4)
}

fn ti_test() -> TypeInfo {
    TypeInfo::new(TAG_TEST, 5)
}

fn ti_pos() -> TypeInfo {
    TypeInfo::new(TAG_POS, 8)
}

fn ti_vel() -> TypeInfo {
    TypeInfo::new(TAG_VEL, 8)
}

fn enc_u32(v: u32) -> Vec<u8> {
    v.to_le_bytes().to_vec()
}

/// A two-field test component: `a: u8`, `b: u32`.
fn enc_test(a: u8, b: u32) -> Vec<u8> {
    let mut bytes = vec![a];
    bytes.extend_from_slice(&b.to_le_bytes());
    bytes
}

fn dec_test(bytes: &Vec<u8>) -> (u8, u32) {
    let a = bytes[0];
    let b = u32::from_le_bytes([bytes[1], bytes[2], bytes[3], bytes[4]]);
    (a, b)
}

/// A pair of coordinates: `x: u32`, `y: u32`.
fn enc_pair(x: u32, y: u32) -> Vec<u8> {
    let mut bytes = x.to_le_bytes().to_vec();
    bytes.extend_from_slice(&y.to_le_bytes());
    bytes
}

fn dec_pair(bytes: &Vec<u8>) -> (u32, u32) {
    let x = u32::from_le_bytes([bytes[0], bytes[1], bytes[2], bytes[3]]);
    let y = u32::from_le_bytes([bytes[4], bytes[5], bytes[6], bytes[7]]);
    (x, y)
}

fn bundle_of(parts: Vec<(TypeInfo, Vec<u8>)>) -> Bundle {
    let mut b = Bundle::new();
    for (info, value) in parts {
        b.push(Component::new(info, value));
    }
    b
}

#[test]
fn query_simple() {}

#[test]
fn query_complex() {}

#[test]
fn query_mut() {}

#[test]
fn world_query() {
    let mut w = World::new();
    let mut cmp_data = Vec::with_capacity(100);
    for i in 0..100u8 {
        let e = w.spawn();
        let te = enc_test(i, i as u32 + 4);
        let ue = enc_u32(3);
        cmp_data.push((te.clone(), ue.clone()));
        w.add(e, bundle_of(vec![(ti_test(), te), (ti_u32(), ue)]));
    }

    let mut q = w.query(vec![TAG_TEST, TAG_U32]);
    let mut j: usize = 0;
    loop {
        match q.next(&w) {
            None => break,
            Some(row) => {
                assert_eq!(row[0], cmp_data[j].0);
                assert_eq!(row[1], cmp_data[j].1);
                j += 1;
            },
        }
    }
    assert_eq!(j, 100);
}

#[test]
fn world_query_mut() {
    let mut w = World::new();
    let mut cmp_data = Vec::with_capacity(100);
    for i in 0..100u8 {
        let e = w.spawn();
        let te = enc_test(i, i as u32 + 4);
        let ue = enc_u32(3);
        cmp_data.push((i, i as u32 + 4, 3u32));
        w.add(e, bundle_of(vec![(ti_test(), te), (ti_u32(), ue)]));
    }

    let mut q = w.query_mut(vec![TAG_TEST, TAG_U32]);
    loop {
        let row = match q.next(&w) {
            None => break,
            Some(row) => row,
        };
        let (mut a, mut b) = dec_test(&row[0]);
        let mut i = u32::from_le_bytes([row[1][0], row[1][1], row[1][2], row[1][3]]);
        i += 1;
        a += 3;
        b += a as u32;
        q.write(&mut w, vec![enc_test(a, b), enc_u32(i)]);
    }

    let mut q = w.query(vec![TAG_TEST, TAG_U32]);
    let mut j: usize = 0;
    loop {
        match q.next(&w) {
            None => break,
            Some(row) => {
                let (a0, b0, i0) = cmp_data[j];
                let expected = enc_test(a0 + 3, b0 + a0 as u32 + 3);
                assert_eq!(row[0], expected);
                assert_eq!(row[1], enc_u32(i0 + 1));
                j += 1;
            },
        }
    }
    assert_eq!(j, 100);
}

#[test]
fn world_query_multi_archetype() {
    let mut w = World::new();
    let mut cmp_data = Vec::with_capacity(20);
    for i in 0..10u8 {
        let e = w.spawn();
        let te = enc_test(i, i as u32 + 4);
        cmp_data.push(te.clone());
        w.add(e, bundle_of(vec![(ti_test(), te), (ti_u32(), enc_u32(3))]));
    }

    for i in 0..10u8 {
        let e = w.spawn();
        let te = enc_test(i, i as u32);
        cmp_data.push(te.clone());
        w.add(e, bundle_of(vec![(ti_test(), te)]));
    }

    let mut count = 0;
    let mut q = w.query(vec![TAG_TEST]);
    loop {
        match q.next(&w) {
            None => break,
            Some(row) => {
                assert!(cmp_data.contains(&row[0]));
                count += 1;
            },
        }
    }
    assert_eq!(count, 20);
}

#[test]
fn query_superset_only() {
    // an archetype that merely overlaps the request is never yielded
    let mut w = World::new();
    let both = w.spawn();
    w.add(
        both,
        bundle_of(vec![(ti_pos(), enc_pair(1, 1)), (ti_vel(), enc_pair(2, 2))]),
    );
    let only_pos = w.spawn();
    w.add(only_pos, bundle_of(vec![(ti_pos(), enc_pair(9, 9))]));

    let mut q = w.query(vec![TAG_POS, TAG_VEL]);
    let mut count = 0;
    loop {
        match q.next(&w) {
            None => break,
            Some(row) => {
                assert_eq!(row[0], enc_pair(1, 1));
                assert_eq!(row[1], enc_pair(2, 2));
                count += 1;
            },
        }
    }
    assert_eq!(count, 1);
}

#[test]
fn query_mut_moves_position_by_velocity() {
    let mut w = World::new();
    let e = w.spawn();
    w.add(
        e,
        bundle_of(vec![(ti_pos(), enc_pair(1, 2)), (ti_vel(), enc_pair(0, 1))]),
    );

    let mut q = w.query_mut(vec![TAG_POS, TAG_VEL]);
    loop {
        let row = match q.next(&w) {
            None => break,
            Some(row) => row,
        };
        let (px, py) = dec_pair(&row[0]);
        let (vx, vy) = dec_pair(&row[1]);
        q.write(&mut w, vec![enc_pair(px + vx, py + vy), enc_pair(vx, vy)]);
    }

    let p = w.get(e, &vec![TAG_POS]).unwrap();
    assert_eq!(dec_pair(&p[0]), (1, 3));
}
