use whirlwind::component::Component;
use whirlwind::entity::Entity;
use whirlwind::schedule::System;
use whirlwind::world::{World, WorldModel};

#[derive(Debug, Clone, Copy, PartialEq)]
struct Position {
    x: f32,
    y: f32,
}

#[derive(Debug, Clone, Copy, PartialEq)]
struct Velocity {
    x: f32,
    y: f32,
}

#[derive(Debug, Clone, Copy, PartialEq, Default)]
struct Counter(u32);

#[derive(Debug, Clone, Copy, PartialEq)]
struct Other(u32);

#[derive(Debug, Clone, Copy, PartialEq, Default)]
struct ResX(i64);

#[derive(Debug, Clone, Copy, PartialEq, Default)]
struct ResY(i64);

#[derive(Debug, Clone, PartialEq)]
enum Value {
    Position(Position),
    Velocity(Velocity),
    Counter(Counter),
    Other(Other),
    ResX(ResX),
    ResY(ResY),
}

impl Component<Value> for Position {
    fn type_key() -> u64 {
        1
    }
    fn erase(self) -> Value {
        Value::Position(self)
    }
    fn recover(value: Value) -> Option<Self> {
        match value {
            Value::Position(c) => Some(c),
            _ => None,
        }
    }
    fn key() -> u64 {
        1
    }
    fn into_value(self) -> Value {
        Value::Position(self)
    }
    fn from_value(value: &Value) -> Option<&Self> {
        match value {
            Value::Position(p) => Some(p),
            _ => None,
        }
    }
    fn from_value_mut(value: &mut Value) -> Option<&mut Self> {
        match value {
            Value::Position(p) => Some(p),
            _ => None,
        }
    }
}

impl Component<Value> for Velocity {
    fn type_key() -> u64 {
        2
    }
    fn erase(self) -> Value {
        Value::Velocity(self)
    }
    fn recover(value: Value) -> Option<Self> {
        match value {
            Value::Velocity(c) => Some(c),
            _ => None,
        }
    }
    fn key() -> u64 {
        2
    }
    fn into_value(self) -> Value {
        Value::Velocity(self)
    }
    fn from_value(value: &Value) -> Option<&Self> {
        match value {
            Value::Velocity(v) => Some(v),
            _ => None,
        }
    }
    fn from_value_mut(value: &mut Value) -> Option<&mut Self> {
        match value {
            Value::Velocity(v) => Some(v),
            _ => None,
        }
    }
}

impl Component<Value> for Counter {
    fn type_key() -> u64 {
        3
    }
    fn erase(self) -> Value {
        Value::Counter(self)
    }
    fn recover(value: Value) -> Option<Self> {
        match value {
            Value::Counter(c) => Some(c),
            _ => None,
        }
    }
    fn key() -> u64 {
        3
    }
    fn into_value(self) -> Value {
        Value::Counter(self)
    }
    fn from_value(value: &Value) -> Option<&Self> {
        match value {
            Value::Counter(c) => Some(c),
            _ => None,
        }
    }
    fn from_value_mut(value: &mut Value) -> Option<&mut Self> {
        match value {
            Value::Counter(c) => Some(c),
            _ => None,
        }
    }
}

impl Component<Value> for Other {
    fn type_key() -> u64 {
        4
    }
    fn erase(self) -> Value {
        Value::Other(self)
    }
    fn recover(value: Value) -> Option<Self> {
        match value {
            Value::Other(c) => Some(c),
            _ => None,
        }
    }
    fn key() -> u64 {
        4
    }
    fn into_value(self) -> Value {
        Value::Other(self)
    }
    fn from_value(value: &Value) -> Option<&Self> {
        match value {
            Value::Other(o) => Some(o),
            _ => None,
        }
    }
    fn from_value_mut(value: &mut Value) -> Option<&mut Self> {
        match value {
            Value::Other(o) => Some(o),
            _ => None,
        }
    }
}

impl Component<Value> for ResX {
    fn type_key() -> u64 {
        5
    }
    fn erase(self) -> Value {
        Value::ResX(self)
    }
    fn recover(value: Value) -> Option<Self> {
        match value {
            Value::ResX(c) => Some(c),
            _ => None,
        }
    }
    fn key() -> u64 {
        5
    }
    fn into_value(self) -> Value {
        Value::ResX(self)
    }
    fn from_value(value: &Value) -> Option<&Self> {
        match value {
            Value::ResX(x) => Some(x),
            _ => None,
        }
    }
    fn from_value_mut(value: &mut Value) -> Option<&mut Self> {
        match value {
            Value::ResX(x) => Some(x),
            _ => None,
        }
    }
}

impl Component<Value> for ResY {
    fn type_key() -> u64 {
        6
    }
    fn erase(self) -> Value {
        Value::ResY(self)
    }
    fn recover(value: Value) -> Option<Self> {
        match value {
            Value::ResY(c) => Some(c),
            _ => None,
        }
    }
    fn key() -> u64 {
        6
    }
    fn into_value(self) -> Value {
        Value::ResY(self)
    }
    fn from_value(value: &Value) -> Option<&Self> {
        match value {
            Value::ResY(y) => Some(y),
            _ => None,
        }
    }
    fn from_value_mut(value: &mut Value) -> Option<&mut Self> {
        match value {
            Value::ResY(y) => Some(y),
            _ => None,
        }
    }
}

#[derive(Clone, Copy)]
struct Sys(fn(&mut World<Value, Sys>));

impl System<Value> for Sys {
    fn effect(&self, _before: WorldModel<Value, Sys>, _after: WorldModel<Value, Sys>) -> bool {
        true
    }
    fn run(&self, world: &mut World<Value, Sys>) {
        (self.0)(world)
    }
}

type TestWorld = World<Value, Sys>;

fn set_x(world: &mut TestWorld) {
    world.insert_resource(ResX(1));
}

fn copy_x_plus_one(world: &mut TestWorld) {
    let x = world.resource::<ResX>().0;
    world.insert_resource(ResY(x + 1));
}

fn bump_counter(world: &mut TestWorld) {
    world.resource_mut::<Counter>().0 += 1;
}

#[test]
fn query_returns_only_occupied_rows() {
    let mut world = TestWorld::new();
    world.register_component::<Position>();
    let e0 = world.spawn().insert(Position { x: 1.0, y: 2.0 }).id();
    let e1 = world.spawn().id();
    assert_eq!(e0.index(), 0);
    assert_eq!(e1.index(), 1);
    let q = world.query::<Position>();
    assert_eq!(q.len(), 1);
    assert_eq!(q[0].0, e0);
    assert_eq!(*q[0].1, Position { x: 1.0, y: 2.0 });
}

#[test]
fn counter_resource_increments_and_missing_resource_is_absent() {
    let mut world = TestWorld::new();
    world.init_resource::<Counter>();
    assert_eq!(*world.resource::<Counter>(), Counter(0));
    world.resource_mut::<Counter>().0 += 1;
    assert_eq!(world.get_resource::<Counter>(), Some(&Counter(1)));
    assert_eq!(world.get_resource::<Other>(), None);
    assert!(world.get_resource_mut::<Other>().is_none());
}

#[test]
fn schedule_runs_systems_in_order() {
    let mut world = TestWorld::new();
    world.register_schedule("update");
    world.add_system("update", Sys(set_x));
    world.add_system("update", Sys(copy_x_plus_one));
    world.run_schedule("update");
    assert_eq!(world.resource::<ResX>().0, 1);
    assert_eq!(world.resource::<ResY>().0, 2);
}

#[test]
fn columns_stay_aligned_with_spawns() {
    let mut world = TestWorld::new();
    world.register_component::<Position>();
    for _ in 0..3 {
        world.spawn();
    }
    world.register_component::<Velocity>();
    let e3 = world.spawn().id();
    assert_eq!(e3.index(), 3);
    world.add_component(e3, Velocity { x: 1.0, y: 1.0 });
    world.add_component(Entity::from_index(2), Position { x: 5.0, y: 5.0 });
    assert_eq!(world.get_component::<Velocity>(e3), Some(&Velocity { x: 1.0, y: 1.0 }));
    assert_eq!(world.get_component::<Velocity>(Entity::from_index(0)), None);
    // rows past the end are absent, not an error
    assert_eq!(world.get_component::<Velocity>(Entity::from_index(4)), None);
    assert_eq!(world.query::<Position>().len(), 1);
}

#[test]
fn spawn_without_columns_reuses_row_zero() {
    let mut world = TestWorld::new();
    assert_eq!(world.spawn().id().index(), 0);
    assert_eq!(world.spawn().id().index(), 0);
    world.register_component::<Position>();
    assert_eq!(world.spawn().id().index(), 0);
    assert_eq!(world.spawn().id().index(), 1);
}

#[test]
fn despawn_clears_row_and_keeps_later_rows() {
    let mut world = TestWorld::new();
    world.register_component::<Position>();
    world.register_component::<Velocity>();
    let a = world
        .spawn()
        .insert(Position { x: 1.0, y: 1.0 })
        .insert(Velocity { x: 2.0, y: 2.0 })
        .id();
    let b = world.spawn().insert(Position { x: 3.0, y: 3.0 }).id();
    world.despawn(a);
    assert_eq!(world.get_component::<Position>(a), None);
    assert_eq!(world.get_component::<Velocity>(a), None);
    assert_eq!(world.get_component::<Position>(b), Some(&Position { x: 3.0, y: 3.0 }));
    assert_eq!(b.index(), 1);
    let c = world.spawn().id();
    assert_eq!(c.index(), 2);
    let q = world.query::<Position>();
    assert_eq!(q.len(), 1);
    assert_eq!(q[0].0, b);
}

#[test]
fn entity_handle_despawn_clears_components() {
    let mut world = TestWorld::new();
    world.register_component::<Position>();
    let e = world.spawn().insert(Position { x: 1.0, y: 0.0 }).id();
    let other = world.spawn().insert(Position { x: 9.0, y: 9.0 }).id();
    world.spawn().insert(Position { x: 4.0, y: 4.0 }).despawn();
    assert_eq!(world.get_component::<Position>(Entity::from_index(2)), None);
    assert!(world.get_component::<Position>(e).is_some());
    assert!(world.get_component::<Position>(other).is_some());
}

#[test]
fn types_with_same_layout_are_isolated() {
    let mut world = TestWorld::new();
    world.register_component::<Position>();
    world.register_component::<Velocity>();
    let e = world.spawn().insert(Position { x: 7.0, y: 8.0 }).id();
    assert_eq!(world.get_component::<Velocity>(e), None);
    assert!(world.query::<Velocity>().is_empty());
    world.add_component(e, Velocity { x: 1.0, y: 1.0 });
    assert_eq!(world.get_component::<Position>(e), Some(&Position { x: 7.0, y: 8.0 }));
}

#[test]
fn insert_resource_twice_keeps_latest() {
    let mut world = TestWorld::new();
    world.insert_resource(Other(1));
    world.insert_resource(Other(2));
    assert_eq!(world.get_resource::<Other>(), Some(&Other(2)));
    world.insert_resource(Counter(5));
    world.init_resource::<Counter>();
    assert_eq!(world.resource::<Counter>(), &Counter(0));
}

#[test]
fn query_lists_rows_in_ascending_order() {
    let mut world = TestWorld::new();
    world.register_component::<Counter>();
    for i in 0..5u32 {
        let e = world.spawn().id();
        if i % 2 == 0 {
            world.add_component(e, Counter(i * 10));
        }
    }
    let q = world.query::<Counter>();
    let rows: Vec<usize> = q.iter().map(|p| p.0.index()).collect();
    assert_eq!(rows, vec![0, 2, 4]);
    let values: Vec<u32> = q.iter().map(|p| p.1 .0).collect();
    assert_eq!(values, vec![0, 20, 40]);
}

#[test]
fn query_of_unregistered_type_is_empty() {
    let world = TestWorld::new();
    assert!(world.query::<Position>().is_empty());
}

#[test]
fn single_needs_exactly_one_row() {
    let mut world = TestWorld::new();
    world.register_component::<Position>();
    assert_eq!(world.get_single::<Position>(), None);
    world.spawn().insert(Position { x: 1.0, y: 1.0 });
    assert_eq!(world.get_single::<Position>(), Some(&Position { x: 1.0, y: 1.0 }));
    assert_eq!(world.single::<Position>(), &Position { x: 1.0, y: 1.0 });
    world.single_mut::<Position>().x = 3.0;
    assert_eq!(world.get_single_mut::<Position>().map(|p| p.x), Some(3.0));
    world.spawn();
    assert_eq!(world.get_single::<Position>(), None);
    assert!(world.get_single_mut::<Position>().is_none());
}

#[test]
fn single_of_unregistered_type_is_absent() {
    let mut world = TestWorld::new();
    world.spawn();
    assert_eq!(world.get_single::<Velocity>(), None);
}

#[test]
fn add_component_registers_missing_type() {
    let mut world = TestWorld::new();
    world.register_component::<Position>();
    let e0 = world.spawn().id();
    let e1 = world.spawn().id();
    world.add_component(e1, Other(3));
    assert_eq!(world.get_component::<Other>(e1), Some(&Other(3)));
    assert_eq!(world.get_component::<Other>(e0), None);
    let q = world.query::<Other>();
    assert_eq!(q.len(), 1);
    assert_eq!(q[0].0, e1);
}

#[test]
fn remove_component_clears_slot_or_registers() {
    let mut world = TestWorld::new();
    world.register_component::<Position>();
    let e = world.spawn().insert(Position { x: 1.0, y: 1.0 }).id();
    world.remove_component::<Position>(e);
    assert_eq!(world.get_component::<Position>(e), None);
    world.remove_component::<Velocity>(e);
    assert_eq!(world.get_component::<Velocity>(e), None);
    world.add_component(e, Velocity { x: 2.0, y: 2.0 });
    assert!(world.get_component::<Velocity>(e).is_some());
}

#[test]
fn register_component_again_drops_its_data() {
    let mut world = TestWorld::new();
    world.register_component::<Position>();
    let e = world.spawn().insert(Position { x: 1.0, y: 1.0 }).id();
    world.register_component::<Position>();
    assert_eq!(world.get_component::<Position>(e), None);
    assert_eq!(world.spawn().id().index(), 1);
}

#[test]
fn handle_builder_insert_remove_and_read() {
    let mut world = TestWorld::new();
    world.register_component::<Position>();
    let mut handle = world
        .spawn()
        .insert(Position { x: 1.0, y: 2.0 })
        .insert(Velocity { x: 0.5, y: 0.5 })
        .remove::<Velocity>();
    assert_eq!(handle.get_component::<Velocity>(), None);
    assert_eq!(handle.component::<Position>(), &Position { x: 1.0, y: 2.0 });
    handle.component_mut::<Position>().y = 4.0;
    if let Some(p) = handle.get_component_mut::<Position>() {
        p.x = 6.0;
    }
    let e = handle.id();
    assert_eq!(world.get_component::<Position>(e), Some(&Position { x: 6.0, y: 4.0 }));
}

#[test]
fn component_mut_writes_back() {
    let mut world = TestWorld::new();
    world.register_component::<Position>();
    let e = world.spawn().insert(Position { x: 1.0, y: 1.0 }).id();
    if let Some(p) = world.get_component_mut::<Position>(e) {
        p.x = 10.0;
    }
    assert_eq!(world.get_component::<Position>(e), Some(&Position { x: 10.0, y: 1.0 }));
    assert!(world.get_component_mut::<Velocity>(e).is_none());
}

#[test]
fn entity_insert_and_remove_chain() {
    let mut world = TestWorld::new();
    world.register_component::<Position>();
    let e = world.spawn().id();
    let same = e.insert(Position { x: 2.0, y: 2.0 }, &mut world);
    assert_eq!(same, e);
    assert!(world.get_component::<Position>(e).is_some());
    e.remove::<Position, _, _>(&mut world);
    assert!(world.get_component::<Position>(e).is_none());
}

#[test]
fn add_system_to_unknown_schedule_is_dropped() {
    let mut world = TestWorld::new();
    world.add_system("missing", Sys(set_x));
    world.run_schedule("missing");
    assert_eq!(world.get_resource::<ResX>(), None);
}

#[test]
fn register_schedule_again_empties_it() {
    let mut world = TestWorld::new();
    world.init_resource::<Counter>();
    world.register_schedule("update");
    world.add_system("update", Sys(bump_counter));
    world.register_schedule("update");
    world.run_schedule("update");
    assert_eq!(world.resource::<Counter>().0, 0);
}

#[test]
fn schedules_are_independent() {
    let mut world = TestWorld::new();
    world.init_resource::<Counter>();
    world.register_schedule("startup");
    world.register_schedule("update");
    world.add_system("update", Sys(bump_counter));
    world.add_system("update", Sys(bump_counter));
    world.run_schedule("startup");
    assert_eq!(world.resource::<Counter>().0, 0);
    world.run_schedule("update");
    world.run_schedule("update");
    assert_eq!(world.resource::<Counter>().0, 4);
}

#[test]
fn run_system_runs_once() {
    let mut world = TestWorld::new();
    world.init_resource::<Counter>();
    world.run_system(Sys(bump_counter));
    assert_eq!(world.resource::<Counter>().0, 1);
}

#[test]
fn query_mut_writes_back_in_row_order() {
    let mut world = TestWorld::new();
    world.register_component::<Counter>();
    world.register_component::<Position>();
    for i in 0..4u32 {
        let e = world.spawn().id();
        if i != 1 {
            world.add_component(e, Counter(i));
        }
    }
    world.add_component(Entity::from_index(1), Position { x: 0.0, y: 0.0 });
    {
        let q = world.query_mut::<Counter>();
        let rows: Vec<usize> = q.iter().map(|p| p.0.index()).collect();
        assert_eq!(rows, vec![0, 2, 3]);
        for (_, c) in q {
            c.0 += 100;
        }
    }
    assert_eq!(world.get_component::<Counter>(Entity::from_index(0)), Some(&Counter(100)));
    assert_eq!(world.get_component::<Counter>(Entity::from_index(1)), None);
    assert_eq!(world.get_component::<Counter>(Entity::from_index(3)), Some(&Counter(103)));
    assert_eq!(
        world.get_component::<Position>(Entity::from_index(1)),
        Some(&Position { x: 0.0, y: 0.0 })
    );
    assert!(world.query_mut::<Velocity>().is_empty());
}

#[test]
fn row_count_follows_spawns_after_registration() {
    let mut world = TestWorld::new();
    assert_eq!(world.row_count(), 0);
    world.register_component::<Position>();
    for n in 1..=5usize {
        world.spawn();
        assert_eq!(world.row_count(), n);
    }
    world.register_component::<Velocity>();
    assert_eq!(world.row_count(), 5);
    world.despawn(Entity::from_index(2));
    assert_eq!(world.row_count(), 5);
}

#[test]
fn listings_name_every_key_once() {
    let mut world = TestWorld::new();
    world.register_component::<Position>();
    world.register_component::<Velocity>();
    world.register_component::<Position>();
    let mut keys = world.component_keys();
    keys.sort();
    assert_eq!(keys, vec![1, 2]);
    world.insert_resource(Other(1));
    world.insert_resource(Other(2));
    world.init_resource::<Counter>();
    let mut rkeys = world.resource_keys();
    rkeys.sort();
    assert_eq!(rkeys, vec![3, 4]);
    assert_eq!(world.resource_value(4), Some(&Value::Other(Other(2))));
    assert_eq!(world.resource_value(9), None);
    world.register_schedule("update");
    world.add_system("update", Sys(bump_counter));
    world.register_schedule("startup");
    let mut sizes = world.schedule_sizes();
    sizes.sort();
    assert_eq!(sizes, vec![("startup".to_string(), 0), ("update".to_string(), 1)]);
}

#[test]
fn slot_value_reads_erased_slots() {
    let mut world = TestWorld::new();
    world.register_component::<Position>();
    let e = world.spawn().insert(Position { x: 2.0, y: 3.0 }).id();
    assert_eq!(
        world.slot_value(1, e),
        Some(&Value::Position(Position { x: 2.0, y: 3.0 }))
    );
    assert_eq!(world.slot_value(2, e), None);
    assert_eq!(world.slot_value(1, Entity::from_index(7)), None);
}

#[test]
fn downcast_recognises_only_its_own_type() {
    let value = Value::Position(Position { x: 1.0, y: 1.0 });
    assert_eq!(
        <dyn Component<Value>>::downcast_ref::<Position>(&value),
        Some(&Position { x: 1.0, y: 1.0 })
    );
    assert_eq!(<dyn Component<Value>>::downcast_ref::<Velocity>(&value), None);
    let mut value = value;
    if let Some(p) = <dyn Component<Value>>::downcast_mut::<Position>(&mut value) {
        p.y = 9.0;
    }
    assert_eq!(value, Value::Position(Position { x: 1.0, y: 9.0 }));
    assert!(<dyn Component<Value>>::downcast_mut::<Velocity>(&mut value).is_none());
}

