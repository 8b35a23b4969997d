use rayon::iter::{IntoParallelRefIterator, ParallelIterator};
use turbo_ecs::archetype_instance::{Archetype, ArchetypeInstance};
use turbo_ecs::archetype_store::ArchetypeStore;
use turbo_ecs::components::{make_bitfield, ComponentId, ComponentIdGenerator, ComponentType};
use turbo_ecs::entity::Entity;
use turbo_ecs::entity_query::{EntityQuery, QueryTable};
use turbo_ecs::entity_registry::EntityRegistry;
use turbo_ecs::pool::Pool;
use turbo_ecs::systems::{SystemError, SystemState};

fn kind(id: usize, size: usize) -> ComponentType {
    ComponentType::new(ComponentId::from_value(id), vec![0u8; size])
}

fn floats(values: &[f32]) -> Vec<u8> {
    values.iter().flat_map(|v| v.to_le_bytes()).collect()
}

fn read_floats(bytes: &[u8]) -> Vec<f32> {
    bytes.chunks(4).map(|c| f32::from_le_bytes([c[0], c[1], c[2], c[3]])).collect()
}

const TRANSFORM: usize = 1;
const TRANSLATION: usize = 2;
const ROTATION: usize = 3;
const VELOCITY: usize = 4;

fn movement_kinds() -> Vec<ComponentType> {
    vec![kind(TRANSFORM, 64), kind(TRANSLATION, 12), kind(ROTATION, 12), kind(VELOCITY, 12)]
}

fn movement_registry(count: usize) -> (EntityRegistry, Archetype, Vec<Entity>) {
    let mut registry = EntityRegistry::new();
    let archetype = registry.create_archetype_with_capacity(movement_kinds().as_slice(), 0);
    let entities = registry.create_entities_from_archetype(archetype, count);
    (registry, archetype, entities)
}

#[test]
fn ten_thousand_default_entities() {
    let (registry, archetype, entities) = movement_registry(10_000);
    assert_eq!(entities.len(), 10_000);
    assert_eq!(registry.entity_count(), 10_000);
    let table = registry.archetype_store().get(archetype.index);
    assert_eq!(table.used_ranges(), vec![0..10_000]);
    assert_eq!(table.allocator().capacity(), table.entities().len());
    for (i, e) in entities.iter().enumerate() {
        assert_eq!(e.index as usize, i);
        assert!(registry.is_alive(e));
        let t = registry.get_component(e, ComponentId::from_value(TRANSFORM)).unwrap();
        assert_eq!(t, &[0u8; 64][..]);
    }
}

#[test]
fn iteration_updates_every_transform() {
    let (mut registry, _, entities) = movement_registry(10_000);
    for e in &entities {
        assert!(registry.set_component(e, ComponentId::from_value(VELOCITY), &floats(&[1.0, 2.0, 3.0])));
    }
    let mut table = QueryTable::new();
    let ids = [TRANSFORM, TRANSLATION, VELOCITY, ROTATION].map(ComponentId::from_value);
    let query = table.create_query(&ids, &[]);
    let data = table.get_query_data(query);
    let slots = registry.query_slots(query, data);
    assert_eq!(slots.len(), 10_000);
    for (a, slot) in slots {
        let e = registry.archetype_store().get(a).entities()[slot];
        let v = read_floats(registry.get_component(&e, ComponentId::from_value(VELOCITY)).unwrap());
        let mut t = read_floats(registry.get_component(&e, ComponentId::from_value(TRANSLATION)).unwrap());
        for k in 0..3 {
            t[k] += v[k];
        }
        // a zero rotation is the identity, so the composed matrix is the translation
        let mut m = [0f32; 16];
        for k in 0..4 {
            m[k * 5] = 1.0;
        }
        m[12] = t[0];
        m[13] = t[1];
        m[14] = t[2];
        assert!(registry.set_component(&e, ComponentId::from_value(TRANSLATION), &floats(&t)));
        assert!(registry.set_component(&e, ComponentId::from_value(TRANSFORM), &floats(&m)));
    }
    let expected = {
        let mut m = [0f32; 16];
        for k in 0..4 {
            m[k * 5] = 1.0;
        }
        m[12] = 1.0;
        m[13] = 2.0;
        m[14] = 3.0;
        m
    };
    for e in &entities {
        let m = read_floats(registry.get_component(e, ComponentId::from_value(TRANSFORM)).unwrap());
        assert_eq!(m, expected.to_vec());
    }
}

#[test]
fn destroyed_rows_are_reused_with_a_new_generation() {
    let (mut registry, archetype, entities) = movement_registry(10_000);
    let doomed: Vec<Entity> = [0, 2, 4, 6, 8].iter().map(|&i| entities[i]).collect();
    registry.destroy_entities(&doomed);
    assert_eq!(registry.entity_count(), 9_995);
    for e in &doomed {
        assert!(!registry.is_alive(e));
    }
    let fresh = registry.create_entities_from_archetype(archetype, 3);
    let indices: Vec<u32> = fresh.iter().map(|e| e.index).collect();
    assert_eq!(indices, vec![0, 2, 4]);
    for e in &fresh {
        assert_eq!(e.version, entities[e.index as usize].version + 1);
        assert!(registry.is_alive(e));
    }
    assert_eq!(registry.entity_count(), 9_998);
    assert!(!registry.is_alive(&entities[0]));
    assert!(registry.is_alive(&entities[1]));
}

#[test]
fn destroying_a_handle_twice_in_one_call_is_tolerated() {
    let (mut registry, archetype, entities) = movement_registry(4);
    registry.destroy_entities(&[entities[1], entities[1], entities[3]]);
    assert_eq!(registry.entity_count(), 2);
    let table = registry.archetype_store().get(archetype.index);
    assert_eq!(table.used_ranges(), vec![0..1, 2..3]);
}

#[test]
fn adding_a_component_moves_entities_and_keeps_their_data() {
    let mut registry = EntityRegistry::new();
    let a = kind(1, 4);
    let b = kind(2, 4);
    let c = kind(3, 8);
    let ab = registry.create_archetype_with_capacity(&[a, b], 0);
    let entities = registry.create_entities_from_archetype(ab, 100);
    for (i, e) in entities.iter().enumerate() {
        assert!(registry.set_component(e, ComponentId::from_value(1), &(i as u32).to_le_bytes()));
        assert!(registry.set_component(e, ComponentId::from_value(2), &(1000 + i as u32).to_le_bytes()));
    }
    for (i, e) in entities.iter().enumerate() {
        assert!(registry.add_component(e, &c, &(i as u64).to_le_bytes()));
    }
    assert!(registry.archetype_store().get(ab.index).used_ranges().is_empty());
    let abc_kinds = {
        let (bits, _) = make_bitfield(&[1, 2, 3].map(ComponentId::from_value));
        bits
    };
    for (i, e) in entities.iter().enumerate() {
        let value = registry.get_component(e, ComponentId::from_value(3)).unwrap();
        assert_eq!(value, &(i as u64).to_le_bytes()[..]);
        assert_eq!(registry.get_component(e, ComponentId::from_value(1)).unwrap(), &(i as u32).to_le_bytes()[..]);
        assert_eq!(registry.get_component(e, ComponentId::from_value(2)).unwrap(), &(1000 + i as u32).to_le_bytes()[..]);
    }
    let store = registry.archetype_store();
    let abc = (0..store.archetype_count()).find(|&i| *store.get(i).component_bitfield() == abc_kinds).unwrap();
    assert_eq!(store.get(abc).used_ranges(), vec![0..100]);
}

#[test]
fn add_then_remove_round_trips() {
    let mut registry = EntityRegistry::new();
    let a = kind(1, 2);
    let t = kind(7, 3);
    let arch = registry.create_archetype_with_capacity(&[a], 0);
    let e = registry.create_entity_from_archetype(arch);
    assert!(registry.set_component(&e, ComponentId::from_value(1), &[9, 8]));
    assert!(registry.add_component(&e, &t, &[1, 2, 3]));
    assert_eq!(registry.get_component(&e, ComponentId::from_value(7)).unwrap(), &[1, 2, 3][..]);
    assert!(!registry.add_component(&e, &t, &[4, 5, 6]));
    assert!(registry.remove_component(&e, ComponentId::from_value(7)));
    assert!(registry.get_component(&e, ComponentId::from_value(7)).is_none());
    assert_eq!(registry.get_component(&e, ComponentId::from_value(1)).unwrap(), &[9, 8][..]);
    assert!(!registry.remove_component(&e, ComponentId::from_value(7)));
}

#[test]
fn add_component_rejects_wrong_sizes() {
    let mut registry = EntityRegistry::new();
    let e = registry.create_entity();
    let f = registry.create_entity();
    assert!(!registry.add_component(&e, &kind(5, 4), &[1, 2]));
    assert!(registry.add_component(&e, &kind(5, 4), &[1, 2, 3, 4]));
    assert!(!registry.add_component(&f, &kind(5, 2), &[1, 2]));
    assert!(registry.get_component(&f, ComponentId::from_value(5)).is_none());
}

#[test]
fn query_excludes_and_stays_current() {
    let mut store = ArchetypeStore::new();
    let a = kind(1, 1);
    let b = kind(2, 1);
    let c = kind(3, 1);
    let alpha = store.create_archetype(&[kind(1, 1)]);
    let gamma = store.create_archetype(&[a, c]);
    let mut table = QueryTable::new();
    let query = EntityQuery::build()
        .with_included(vec![ComponentId::from_value(1)])
        .with_excluded(vec![ComponentId::from_value(2)])
        .create(&mut table);
    let data = table.get_query_data(query);
    assert_eq!(store.query(query, data), vec![alpha.index, gamma.index]);
    let beta = store.create_archetype(&[kind(1, 1), b]);
    assert_eq!(store.query(query, data), vec![alpha.index, gamma.index]);
    let all = table.create_query(&[ComponentId::from_value(1)], &[]);
    let all_data = table.get_query_data(all);
    assert_eq!(store.query(all, all_data), vec![alpha.index, gamma.index, beta.index]);
    assert_eq!(table.create_query(&[ComponentId::from_value(1)], &[]), all);
}

#[test]
fn parallel_and_sequential_visits_agree() {
    let (mut registry, archetype, entities) = movement_registry(500);
    registry.destroy_entities(&entities[100..150]);
    let other = registry.create_archetype_with_capacity(&[kind(TRANSFORM, 64)], 0);
    registry.create_entities_from_archetype(other, 20);
    let mut table = QueryTable::new();
    let query = table.create_query(&[ComponentId::from_value(TRANSFORM)], &[]);
    let data = table.get_query_data(query);
    let slots = registry.query_slots(query, data);
    let mut sequential: Vec<(usize, usize)> = Vec::new();
    for s in slots.iter() {
        sequential.push(*s);
    }
    let mut parallel: Vec<(usize, usize)> = slots.par_iter().map(|s| *s).collect();
    parallel.sort();
    sequential.sort();
    assert_eq!(parallel, sequential);
    assert_eq!(sequential.len(), 470);
    assert!(slots.iter().filter(|(a, _)| *a == archetype.index).count() == 450);
}

#[test]
fn generator_hands_out_distinct_ids() {
    let mut ids = ComponentIdGenerator::new();
    let first = ids.get_next();
    let second = ids.get_next();
    assert_eq!(first.value(), 1);
    assert_eq!(second.value(), 2);
    let (bits, repeats) = make_bitfield(&[first, second, first]);
    assert!(repeats);
    assert_eq!(bits.iter_ranges(), vec![1..3]);
}

#[test]
fn archetypes_are_deduplicated_by_kind_set() {
    let mut store = ArchetypeStore::new();
    let first = store.create_archetype(&[kind(2, 1), kind(1, 1), kind(2, 1)]);
    let second = store.create_archetype_with_capacity(&[kind(1, 1), kind(2, 1)], 8);
    assert_eq!(first, second);
    assert_eq!(store.archetype_count(), 2);
    assert_eq!(store.get(first.index).components().len(), 2);
    assert_eq!(store.get(first.index).allocator().capacity(), 8);
}

#[test]
fn tables_copy_records_between_archetypes() {
    let mut src = ArchetypeInstance::with_capacity(Archetype { index: 1 }, &[kind(1, 2), kind(2, 1)], 2);
    let mut dst = ArchetypeInstance::new(Archetype { index: 2 }, &[kind(1, 2), kind(3, 1)]);
    let mut ranges = Vec::new();
    src.take_slots(3, &mut ranges);
    assert_eq!(ranges, vec![0..3]);
    assert_eq!(src.allocator().capacity(), 3);
    assert!(src.set_component(ComponentId::from_value(1), 1, &[7, 7]));
    assert!(src.set_component(ComponentId::from_value(1), 2, &[8, 8]));
    assert!(!src.set_component(ComponentId::from_value(3), 1, &[1]));
    let mut slots = Vec::new();
    dst.take_slots_no_init(2, &mut slots);
    assert_eq!(slots, vec![0..2]);
    src.copy_component_range(&mut dst, 1..3, 0);
    assert_eq!(dst.get_component(ComponentId::from_value(1), 0), Some(&[7u8, 7][..]));
    assert_eq!(dst.get_component(ComponentId::from_value(1), 1), Some(&[8u8, 8][..]));
    assert_eq!(dst.get_component(ComponentId::from_value(3), 1), Some(&[0u8][..]));
    src.copy_components(&mut dst, 0, 1);
    assert_eq!(dst.get_component(ComponentId::from_value(1), 1), Some(&[0u8, 0][..]));
    src.return_slots_no_drop(&[1, 2, 2]);
    assert_eq!(src.used_ranges(), vec![0..1]);
    src.return_slot_no_drop(0);
    assert!(src.used_ranges().is_empty());
    assert_eq!(src.allocator().free_ranges(), vec![0..3]);
    assert!(src.matches_query(dst.component_bitfield()) == false);
    assert_eq!(src.component_size(ComponentId::from_value(2)), Some(1));
    assert_eq!(src.component_size(ComponentId::from_value(3)), None);
}

#[test]
fn system_life_cycle() {
    let mut state = SystemState::new();
    assert_eq!(state.check_add(), Ok(()));
    assert_eq!(state.check_run(), Err(SystemError::NotInitialized));
    assert_eq!(state.begin_setup(), Ok(()));
    assert_eq!(state.check_add(), Err(SystemError::AddDuringInitialization));
    assert_eq!(state.begin_setup(), Err(SystemError::RecursiveSetup));
    state.finish_setup();
    assert_eq!(state.check_run(), Ok(()));
    assert_eq!(state.check_add(), Err(SystemError::AddAfterInitialization));
    assert_eq!(state.begin_setup(), Err(SystemError::AlreadyInitialized));
}

#[test]
fn pool_hands_back_last_value() {
    let mut pool: Pool<Vec<usize>> = Pool::new();
    assert!(pool.take_one().is_none());
    pool.give_back(vec![1]);
    pool.give_back(vec![2, 3]);
    assert_eq!(pool.take_one(), Some(vec![2, 3]));
    assert_eq!(pool.take_one(), Some(vec![1]));
    assert!(pool.take_one().is_none());
}

#[test]
fn row_table_reuses_lowest_free_row_before_growing() {
    let mut registry = EntityRegistry::new();
    assert_eq!(registry.row_capacity(), 0);
    assert!(registry.check_room());
    let a = registry.create_entity();
    assert_eq!(registry.row_capacity(), 1);
    let b = registry.create_entity();
    assert_eq!(registry.row_capacity(), 2);
    let c = registry.create_entity();
    assert_eq!(registry.row_capacity(), 4);
    assert_eq!(registry.free_rows(), 1);
    assert_eq!((a.index, b.index, c.index), (0, 1, 2));
    registry.destroy_entities(&[a, b, a]);
    assert_eq!(registry.free_rows(), 3);
    assert_eq!(registry.entity_count(), 1);
    let d = registry.create_entity();
    assert_eq!(d.index, 0);
    assert_eq!(d.version, a.version + 1);
    assert_eq!(registry.row_capacity(), 4);
    assert!(!registry.is_alive(&a));
    assert!(registry.is_alive(&d));
}

#[test]
fn component_types_compare_by_id() {
    assert!(kind(4, 2) == kind(4, 8));
    assert!(kind(4, 2) != kind(5, 2));
    assert!(ComponentId::from_value(0xFFFF_FFFF).is_valid());
    assert!(!ComponentId::from_value(0).is_valid());
    assert!(!ComponentId::from_value(0x1_0000_0000).is_valid());
}

#[test]
fn destroying_frees_rows_and_creation_reuses_them_without_growth() {
    let (mut registry, archetype, entities) = movement_registry(10_000);
    let rows = registry.row_capacity();
    let free = registry.free_rows();
    let doomed: Vec<Entity> = [0, 2, 4, 6, 8].iter().map(|&i| entities[i]).collect();
    registry.destroy_entities(&doomed);
    assert_eq!(registry.free_rows(), free + 5);
    assert_eq!(registry.entity_count(), 9_995);
    let fresh = registry.create_entities_from_archetype(archetype, 3);
    assert_eq!(registry.row_capacity(), rows);
    assert_eq!(fresh.iter().map(|e| e.index).collect::<Vec<_>>(), vec![0, 2, 4]);
}
