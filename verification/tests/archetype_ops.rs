use perplecs::archetype::{Archetype, ComponentData, TypeInfo};
use perplecs::entity::Entity;

const TAG_U32: u64 = 1;
const TAG_U64: u64 = 2;
const TAG_TEST: u64 = 3;
const TAG_F64: u64 = 4;

fn ti_u32() -> TypeInfo {
    TypeInfo::new(TAG_U32, 4)
}

fn ti_u64() -> TypeInfo {
    TypeInfo::new(TAG_U64, 8)
}

fn ti_test() -> TypeInfo {
    TypeInfo::new(TAG_TEST, 5)
}

fn ti_f64() -> TypeInfo {
    TypeInfo::new(TAG_F64, 8)
}

fn enc_u32(v: u32) -> Vec<u8> {
    v.to_le_bytes().to_vec()
}

fn enc_u64(v: u64) -> Vec<u8> {
    v.to_le_bytes().to_vec()
}

/// A two-field test component: `a: u8`, `b: u32`.
fn enc_test(a: u8, b: u32) -> Vec<u8> {
    let mut bytes = vec![a];
    bytes.extend_from_slice(&b.to_le_bytes());
    bytes
}

#[test]
fn archetype_create() {
    let type_ids = [TAG_U32, TAG_F64, TAG_TEST];
    let type_infos = vec![ti_u32(), ti_f64(), ti_test()];
    let archetype = Archetype::new(type_infos);
    assert_eq!(archetype.type_ids(), type_ids.to_vec());
    assert!(archetype.find_type_index(type_ids[0]).is_some());
    assert!(archetype.find_type_index(type_ids[1]).is_some());
    assert!(archetype.find_type_index(type_ids[2]).is_some());
}

#[test]
fn archetype_add() {
    let type_infos = vec![ti_u32(), ti_u64(), ti_test()];
    let mut archetype = Archetype::new(type_infos);

    let test_data = vec![enc_u32(3), enc_u64(2), enc_test(1, 346)];
    let entity = Entity(3);

    archetype.add(entity, test_data);

    let t_u32 = archetype.get_by_type_index(0, 0).clone();
    let t_u64 = archetype.get_by_type_index(1, 0).clone();
    let test_component = archetype.get_by_type_index(2, 0).clone();

    assert_eq!(enc_u32(3), t_u32);
    assert_eq!(enc_u64(2), t_u64);
    assert_eq!(enc_test(1, 346), test_component);
    assert!(archetype.has(entity));
}

#[test]
fn archetype_remove() {
    let type_infos = vec![ti_u32(), ti_u64(), ti_test()];
    let mut archetype = Archetype::new(type_infos);

    let test_data = vec![enc_u32(3), enc_u64(2), enc_test(1, 346)];
    let entity = Entity(3);

    archetype.add(entity, test_data);

    let rest = archetype.remove(entity, &vec![TAG_U32]).unwrap();
    assert_eq!(rest.len(), 2);
    assert_eq!(enc_u64(2), rest[0]);
    assert_eq!(enc_test(1, 346), rest[1]);
}

#[test]
fn archetype_remove_whole() {
    let type_infos = vec![ti_u32(), ti_u64(), ti_test()];
    let mut archetype = Archetype::new(type_infos);

    let test_data = vec![enc_u32(3), enc_u64(2), enc_test(1, 346)];
    let entity = Entity(3);

    archetype.add(entity, test_data);

    let all = archetype.remove_whole(entity).unwrap();
    assert_eq!(all.len(), 3);
    assert_eq!(enc_u32(3), all[0]);
    assert_eq!(enc_u64(2), all[1]);
    assert_eq!(enc_test(1, 346), all[2]);
}

#[test]
fn archetype_grow() {
    let mut archetype = Archetype::new(Vec::new());
    for i in 0..10 {
        archetype.add(Entity(i), Vec::new());
    }
    assert!(archetype.capacity() >= archetype.len());
}

#[test]
fn archetype_add_many() {
    let type_infos = vec![ti_u32(), ti_u64(), ti_test()];
    let mut archetype = Archetype::new(type_infos);

    for i in 0..12 {
        let entity = Entity(i);
        let test_data = vec![enc_u32(3), enc_u64(2), enc_test(1, 346)];
        archetype.add(entity, test_data);
    }
}

#[test]
fn archetype_get() {}

#[test]
fn archetype_drop() {
    let type_infos = vec![ti_u32(), ti_u64(), ti_test()];
    let mut archetype = Archetype::new(type_infos);
    let data = vec![enc_u32(0), enc_u64(0), enc_test(3, 8)];

    let entity = Entity(1);
    archetype.add(entity, data);
    drop(archetype);
}

#[test]
fn archetype_growth_preserves_rows() {
    // push far past the initial capacity; every earlier row must survive
    let mut archetype = Archetype::new(vec![ti_u32()]);
    let initial = archetype.capacity();
    for i in 0..100u64 {
        archetype.add(Entity(i), vec![enc_u32(i as u32)]);
    }
    assert_eq!(archetype.len(), 100);
    assert!(archetype.capacity() >= 100);
    assert!(archetype.capacity() > initial);
    for i in 0..100usize {
        assert_eq!(*archetype.get_by_type_index(0, i), enc_u32(i as u32));
        assert_eq!(archetype.entity_iter()[i], Entity(i as u64));
    }
}

#[test]
fn component_data_set() {
    let mut data = ComponentData::new(5);
    let mut test_components = Vec::new();
    for i in 0..5u8 {
        let component = enc_test(i, i as u32 * 2);
        test_components.push(component.clone());
        data.set(i as usize, component);
    }
    for i in 0..5usize {
        assert_eq!(*data.get(i), test_components[i]);
    }
}

#[test]
fn component_data_get() {
    let mut data = ComponentData::new(1);
    data.grow(2);
    let test_component = enc_test(12, 634);
    data.set(0, test_component.clone());
    let test_component2 = enc_test(32, 234);
    data.set(1, test_component2.clone());

    assert_eq!(test_component, *data.get(0));
    assert_eq!(test_component2, *data.get(1));
}

#[test]
fn component_data_with_small_types() {
    let mut data = ComponentData::new(1);
    data.grow(2);
    let test_component = enc_u32(125);
    data.set(0, test_component.clone());
    let test_component2 = enc_u32(321);
    data.set(1, test_component2.clone());

    assert_eq!(test_component, *data.get(0));
    assert_eq!(test_component2, *data.get(1));
}

#[test]
fn component_data_grow() {
    let mut data = ComponentData::new(1);
    let mut capacity = 1;
    for _ in 0..12 {
        capacity *= 2;
        data.grow(capacity);
    }
    assert_eq!(data.len(), capacity);
}
