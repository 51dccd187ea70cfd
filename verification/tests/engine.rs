use roids::engine::{collide, Engine};
use roids::entity::{Entity, State};
use roids::input::{ElementState, Event, Input, Key, KeyCode};
use roids::render::ShapeType;
use roids::roid::Generator;
use std::cell::RefCell;
use std::rc::Rc;

#[derive(Clone, Debug, PartialEq)]
enum Call {
    Think(u32, u32),
    Collide(u32, u32, f32),
    Resolve(u32, u32),
    Draw(u32),
}

type Log = Rc<RefCell<Vec<Call>>>;

struct Ball {
    owner: u32,
    at: f32,
    radius: f32,
    log: Log,
}

/// A test entity on a line. It dies when its age reaches `dies_at`, and
/// while it thinks at age `spawns_at` it gives birth to `children`.
struct Thing {
    id: u32,
    age: u32,
    dies_at: u32,
    spawns_at: u32,
    children: Vec<Thing>,
    ball: Option<Ball>,
    hits: Vec<(u32, f32)>,
    damage: f32,
    log: Log,
}

fn thing(id: u32, at: f32, log: &Log) -> Thing {
    Thing {
        id,
        age: 0,
        dies_at: u32::MAX,
        spawns_at: u32::MAX,
        children: Vec::new(),
        ball: Some(Ball { owner: id, at, radius: 1.0, log: log.clone() }),
        hits: Vec::new(),
        damage: 0.0,
        log: log.clone(),
    }
}

fn ghost(id: u32, log: &Log) -> Thing {
    let mut t = thing(id, 0.0, log);
    t.ball = None;
    t
}

struct Gauges {
    thinkers: Vec<u32>,
    fire: Vec<bool>,
}

struct Canvas {
    drawn: Vec<u32>,
}

impl Entity for Thing {
    type Step = u32;
    type Hud = Gauges;
    type Renderer = Canvas;
    type Body = Ball;
    type Energy = f32;

    fn draw(&mut self, renderer: &mut Canvas) {
        renderer.drawn.push(self.id);
        self.log.borrow_mut().push(Call::Draw(self.id));
    }

    fn think(&mut self, dt: u32, input: &Input, hud: &mut Gauges, born: &mut Vec<Thing>) -> State {
        self.log.borrow_mut().push(Call::Think(self.id, dt));
        hud.thinkers.push(self.id);
        hud.fire.push(input.pressed(Key::Fire));
        if self.age == self.spawns_at {
            while let Some(child) = self.children.pop() {
                born.push(child);
            }
        }
        self.age += dt;
        if self.age >= self.dies_at {
            State::Dead
        } else {
            State::Alive
        }
    }

    fn collide(&mut self, other: &mut Thing, energy: f32) {
        self.hits.push((other.id, energy));
        self.log.borrow_mut().push(Call::Collide(self.id, other.id, energy));
    }

    fn take_damage(&mut self, amount: f32) {
        self.damage += amount;
    }

    fn body(&mut self) -> Option<&mut Ball> {
        self.ball.as_mut()
    }

    fn resolve(a: &mut Ball, b: &mut Ball) -> Option<f32> {
        a.log.borrow_mut().push(Call::Resolve(a.owner, b.owner));
        let gap = (a.at - b.at).abs() - a.radius - b.radius;
        if gap < 0.0 {
            let push = if a.at < b.at { gap / 2.0 } else { -gap / 2.0 };
            a.at += push;
            b.at -= push;
            Some(-gap * 0.1 + 0.3)
        } else {
            None
        }
    }
}

/// An entity that keeps every default of the trait.
struct Plain {
    health: u32,
}

impl Entity for Plain {
    type Step = u32;
    type Hud = ();
    type Renderer = ();
    type Body = ();
    type Energy = u32;

    fn draw(&mut self, _renderer: &mut ()) {}

    fn think(&mut self, _dt: u32, _input: &Input, _hud: &mut (), _born: &mut Vec<Plain>) -> State {
        State::Alive
    }

    fn collide(&mut self, _other: &mut Plain, _energy: u32) {}

    fn body(&mut self) -> Option<&mut ()> {
        None
    }

    fn resolve(_a: &mut (), _b: &mut ()) -> Option<u32> {
        None
    }
}

fn new_log() -> Log {
    Rc::new(RefCell::new(Vec::new()))
}

fn take(log: &Log) -> Vec<Call> {
    log.borrow_mut().drain(..).collect()
}

fn tick(engine: &mut Engine<Thing>, dt: u32) -> Vec<u32> {
    let input = Input::new();
    let mut hud = Gauges { thinkers: Vec::new(), fire: Vec::new() };
    engine.think(dt, &input, &mut hud);
    hud.thinkers
}

fn drawn(engine: &mut Engine<Thing>) -> Vec<u32> {
    let mut canvas = Canvas { drawn: Vec::new() };
    engine.draw(&mut canvas);
    canvas.drawn
}

#[test]
fn a_new_engine_holds_nothing() {
    let log = new_log();
    let mut engine: Engine<Thing> = Engine::new();
    assert_eq!(drawn(&mut engine), Vec::<u32>::new());
    assert_eq!(tick(&mut engine, 1), Vec::<u32>::new());
    assert_eq!(take(&log), vec![]);
}

#[test]
fn add_puts_the_entity_behind_the_others() {
    let log = new_log();
    let mut engine = Engine::new();
    engine.add(thing(1, 0.0, &log));
    engine.add(thing(2, 10.0, &log));
    engine.add(thing(3, 20.0, &log));
    assert_eq!(drawn(&mut engine), vec![1, 2, 3]);
    assert_eq!(take(&log), vec![Call::Draw(1), Call::Draw(2), Call::Draw(3)]);
}

#[test]
fn every_entity_thinks_once_in_order_and_gets_the_step() {
    let log = new_log();
    let mut engine = Engine::new();
    engine.add(ghost(1, &log));
    engine.add(ghost(2, &log));
    engine.add(ghost(3, &log));
    assert_eq!(tick(&mut engine, 5), vec![1, 2, 3]);
    assert_eq!(take(&log), vec![Call::Think(1, 5), Call::Think(2, 5), Call::Think(3, 5)]);
}

#[test]
fn the_input_and_the_gauges_reach_the_entities() {
    let log = new_log();
    let mut engine = Engine::new();
    engine.add(ghost(1, &log));
    engine.add(ghost(2, &log));
    let mut input = Input::new();
    let mut hud = Gauges { thinkers: Vec::new(), fire: Vec::new() };
    engine.think(1, &input, &mut hud);
    input.handle_event(&Event::KeyboardInput(ElementState::Pressed, Some(KeyCode::Space)));
    engine.think(1, &input, &mut hud);
    assert_eq!(hud.thinkers, vec![1, 2, 1, 2]);
    assert_eq!(hud.fire, vec![false, false, true, true]);
}

#[test]
fn a_dead_entity_is_gone_before_the_collision_pass() {
    let log = new_log();
    let mut engine = Engine::new();
    let mut dying = thing(1, 0.0, &log);
    dying.dies_at = 1;
    engine.add(dying);
    engine.add(thing(2, 0.5, &log));
    engine.add(thing(3, 1.0, &log));
    assert_eq!(tick(&mut engine, 1), vec![1, 2, 3]);
    let calls = take(&log);
    // 1 reported its death: no call names it after the think phase
    assert_eq!(&calls[..3], &[Call::Think(1, 1), Call::Think(2, 1), Call::Think(3, 1)]);
    for call in &calls[3..] {
        match call {
            Call::Resolve(a, b) => assert!(*a != 1 && *b != 1),
            Call::Collide(a, b, _) => assert!(*a != 1 && *b != 1),
            other => panic!("{:?}", other),
        }
    }
    // the last entity took the place of the dead one
    assert_eq!(drawn(&mut engine), vec![3, 2]);
    let _ = take(&log);
    assert_eq!(tick(&mut engine, 1), vec![3, 2]);
    for call in take(&log) {
        match call {
            Call::Think(a, _) => assert!(a != 1),
            Call::Resolve(a, b) => assert!(a != 1 && b != 1),
            Call::Collide(a, b, _) => assert!(a != 1 && b != 1),
            Call::Draw(_) => panic!(),
        }
    }
}

#[test]
fn several_deaths_in_one_tick() {
    let log = new_log();
    let mut engine = Engine::new();
    for id in 0..6 {
        let mut t = ghost(id, &log);
        if id == 0 || id == 2 || id == 5 {
            t.dies_at = 1;
        }
        engine.add(t);
    }
    assert_eq!(tick(&mut engine, 1), vec![0, 1, 2, 3, 4, 5]);
    // 5 leaves from the end; 4 takes the place of 2; 3 takes the place of 0
    assert_eq!(drawn(&mut engine), vec![3, 1, 4]);
    assert_eq!(tick(&mut engine, 1), vec![3, 1, 4]);
}

#[test]
fn the_newly_born_do_not_think_in_their_first_tick() {
    let log = new_log();
    let mut engine = Engine::new();
    let mut parent = thing(1, 0.0, &log);
    parent.spawns_at = 0;
    parent.children = vec![thing(10, 0.5, &log), thing(11, 100.0, &log)];
    engine.add(parent);
    engine.add(thing(2, 50.0, &log));
    assert_eq!(tick(&mut engine, 1), vec![1, 2]);
    let calls = take(&log);
    assert_eq!(&calls[..2], &[Call::Think(1, 1), Call::Think(2, 1)]);
    // but they stand in the collision pass of that tick: each meets all others
    let resolves: Vec<Call> =
        calls.iter().filter(|c| matches!(c, Call::Resolve(_, _))).cloned().collect();
    // children are pushed 11 then 10 (popped from the parent) and taken in the last born first
    assert_eq!(drawn(&mut engine), vec![1, 2, 10, 11]);
    assert_eq!(
        resolves,
        vec![
            Call::Resolve(2, 1),
            Call::Resolve(10, 1),
            Call::Resolve(10, 2),
            Call::Resolve(11, 1),
            Call::Resolve(11, 2),
            Call::Resolve(11, 10),
        ]
    );
    // 10 overlaps 1 and both were told
    assert!(calls.iter().any(|c| matches!(c, Call::Collide(10, 1, _))));
    assert!(calls.iter().any(|c| matches!(c, Call::Collide(1, 10, _))));
    let _ = take(&log);
    // from the next tick on they think
    assert_eq!(tick(&mut engine, 1), vec![1, 2, 10, 11]);
}

#[test]
fn a_dying_parent_leaves_its_children() {
    let log = new_log();
    let mut engine = Engine::new();
    let mut parent = ghost(1, &log);
    parent.spawns_at = 0;
    parent.dies_at = 1;
    parent.children = vec![ghost(10, &log), ghost(11, &log), ghost(12, &log)];
    engine.add(parent);
    assert_eq!(tick(&mut engine, 1), vec![1]);
    // pushed 12, 11, 10; taken in the last born first
    assert_eq!(drawn(&mut engine), vec![10, 11, 12]);
}

#[test]
fn both_sides_are_told_once_with_the_same_energy() {
    let log = new_log();
    let mut engine = Engine::new();
    engine.add(thing(1, 0.0, &log));
    engine.add(thing(2, 1.5, &log));
    assert_eq!(tick(&mut engine, 1), vec![1, 2]);
    let calls = take(&log);
    // gap = 1.5 - 2 = -0.5, energy = 0.5 * 0.1 + 0.3
    let energy: f32 = 0.5 * 0.1 + 0.3;
    assert_eq!(
        calls,
        vec![
            Call::Think(1, 1),
            Call::Think(2, 1),
            Call::Resolve(2, 1),
            Call::Collide(2, 1, energy),
            Call::Collide(1, 2, energy),
        ]
    );
    // the resolver parted them: the next pass finds no overlap
    assert_eq!(tick(&mut engine, 1), vec![1, 2]);
    assert_eq!(take(&log), vec![Call::Think(1, 1), Call::Think(2, 1), Call::Resolve(2, 1)]);
}

#[test]
fn each_pair_is_visited_once() {
    let log = new_log();
    let mut engine = Engine::new();
    for id in 0..5 {
        engine.add(thing(id, 10.0 * id as f32, &log));
    }
    tick(&mut engine, 1);
    let resolves: Vec<Call> =
        take(&log).into_iter().filter(|c| matches!(c, Call::Resolve(_, _))).collect();
    let mut expected = Vec::new();
    for i in 0..5 {
        for j in 0..i {
            expected.push(Call::Resolve(i, j));
        }
    }
    assert_eq!(resolves, expected);
    assert_eq!(resolves.len(), 10);
}

#[test]
fn entities_apart_are_not_told() {
    let log = new_log();
    let mut engine = Engine::new();
    engine.add(thing(1, 0.0, &log));
    engine.add(thing(2, 2.0, &log));
    tick(&mut engine, 1);
    assert_eq!(take(&log), vec![Call::Think(1, 1), Call::Think(2, 1), Call::Resolve(2, 1)]);
}

#[test]
fn an_entity_without_a_body_is_not_seen_by_the_pass() {
    let log = new_log();
    let mut engine = Engine::new();
    engine.add(thing(1, 0.0, &log));
    engine.add(ghost(2, &log));
    engine.add(thing(3, 0.5, &log));
    tick(&mut engine, 1);
    let calls = take(&log);
    let after: Vec<Call> = calls[3..].to_vec();
    let energy: f32 = 1.5 * 0.1 + 0.3;
    assert_eq!(
        after,
        vec![Call::Resolve(3, 1), Call::Collide(3, 1, energy), Call::Collide(1, 3, energy)]
    );
}

#[test]
fn a_death_in_the_collision_pass_waits_for_the_next_tick() {
    let log = new_log();
    let mut engine = Engine::new();
    engine.add(thing(1, 0.0, &log));
    engine.add(thing(2, 0.5, &log));
    tick(&mut engine, 1);
    // nothing is removed by a collision: both are still there
    assert_eq!(drawn(&mut engine), vec![1, 2]);
}

#[test]
fn collide_resolves_two_bodies() {
    let log = new_log();
    let mut a = thing(1, 0.0, &log);
    let mut b = thing(2, 1.0, &log);
    let energy = collide(&mut a, &mut b);
    assert_eq!(energy, Some(1.0 * 0.1 + 0.3));
    assert_eq!(take(&log), vec![Call::Resolve(1, 2)]);
    assert_eq!(a.ball.as_ref().map(|b| b.at), Some(-0.5));
    assert_eq!(b.ball.as_ref().map(|b| b.at), Some(1.5));
    // no entity was told: that is the engine's part
    assert!(a.hits.is_empty() && b.hits.is_empty());
}

#[test]
fn collide_finds_no_energy_where_the_bodies_are_apart() {
    let log = new_log();
    let mut a = thing(1, 0.0, &log);
    let mut b = thing(2, 2.0, &log);
    assert_eq!(collide(&mut a, &mut b), None);
    assert_eq!(a.ball.as_ref().map(|b| b.at), Some(0.0));
    assert_eq!(b.ball.as_ref().map(|b| b.at), Some(2.0));
}

#[test]
fn collide_needs_both_bodies() {
    let log = new_log();
    let mut a = thing(1, 0.0, &log);
    let mut b = ghost(2, &log);
    assert_eq!(collide(&mut a, &mut b), None);
    assert_eq!(collide(&mut b, &mut a), None);
    let mut c = ghost(3, &log);
    assert_eq!(collide(&mut b, &mut c), None);
    assert_eq!(take(&log), vec![]);
}

#[test]
fn take_damage_does_nothing_by_default() {
    let mut plain = Plain { health: 3 };
    plain.take_damage(2);
    assert_eq!(plain.health, 3);
    let log = new_log();
    let mut t = thing(1, 0.0, &log);
    t.take_damage(0.25);
    assert_eq!(t.damage, 0.25);
}

#[test]
fn an_engine_of_plain_entities_runs() {
    let mut engine: Engine<Plain> = Engine::new();
    engine.add(Plain { health: 1 });
    engine.add(Plain { health: 2 });
    engine.think(1, &Input::new(), &mut ());
    engine.draw(&mut ());
}

#[test]
fn states_compare_by_variant() {
    assert_eq!(State::Alive, State::Alive);
    assert_ne!(State::Alive, State::Dead);
    let copy = State::Dead;
    assert_eq!(copy, State::Dead);
}

#[test]
fn the_generator_and_the_shape_types_exist() {
    let _generator: Generator = Generator::new();
    let kinds = [ShapeType::Game, ShapeType::UI];
    assert!(matches!(kinds[0], ShapeType::Game));
    assert!(matches!(kinds[1], ShapeType::UI));
}
