use opengb::command::SceCommand;
use opengb::director::SceDirector;
use opengb::environment::Environment;
use opengb::environment::Value;

/// The scene of these tests: a log of what the commands did.
type Scene = Vec<String>;

/// The user-interface frame of these tests: a count of the calls that saw it.
type Ui = u32;

#[derive(Clone)]
enum Step {
    /// Binds a name to a number and is done at once.
    Bind(&'static str, i32),
    /// Sets the continuation-mode flag and is done at once.
    SetMode(i32),
    /// Is done in the call in which the count reaches zero.
    Wait(&'static str, u32),
    /// Records the time it was handed and is done at once.
    Clock,
}

impl SceCommand<Scene, Ui> for Step {
    fn update(
        &mut self,
        scene: &mut Scene,
        ui: &mut Ui,
        state: &mut Environment,
        delta_sec_bits: u32,
    ) -> bool {
        *ui += 1;
        match self {
            Step::Bind(name, number) => {
                state.set(name, Value::Int(*number));
                scene.push(format!("set {}", name));
                true
            }
            Step::SetMode(mode) => {
                state.set_run_mode(*mode);
                scene.push(format!("mode {}", mode));
                true
            }
            Step::Wait(name, left) => {
                *left -= 1;
                scene.push(format!("wait {} {}", name, left));
                *left == 0
            }
            Step::Clock => {
                state.set("clock", Value::Real(delta_sec_bits));
                true
            }
        }
    }
}

fn tick(director: &mut SceDirector<Step>, scene: &mut Scene, ui: &mut Ui) {
    director.update(scene, ui, 0.016f32.to_bits());
}

#[test]
fn new_director_is_at_the_start() {
    let director = SceDirector::new(vec![Step::Bind("a", 1), Step::Bind("b", 2)]);
    assert_eq!(director.position(), 0);
    assert_eq!(director.program_len(), 2);
    assert_eq!(director.in_flight(), 0);
    assert!(!director.is_idle());
    assert_eq!(director.state().run_mode(), 1);
    assert_eq!(director.state().get("a"), None);
}

#[test]
fn instant_commands_run_one_per_tick() {
    let mut director =
        SceDirector::new(vec![Step::Bind("a", 1), Step::Bind("b", 2), Step::Bind("c", 3)]);
    let mut scene = Scene::new();
    let mut ui = 0;
    for done in 1..=3usize {
        tick(&mut director, &mut scene, &mut ui);
        assert_eq!(director.position(), done);
        assert_eq!(director.in_flight(), 0);
        assert_eq!(scene.len(), done);
        assert_eq!(ui as usize, done);
    }
    assert!(director.is_idle());
    assert_eq!(scene, vec!["set a", "set b", "set c"]);
    assert_eq!(director.state().get("c"), Some(&Value::Int(3)));
}

#[test]
fn flag_other_than_one_runs_the_whole_program_in_one_tick() {
    let mut director = SceDirector::new(vec![
        Step::SetMode(0),
        Step::Bind("a", 1),
        Step::Bind("b", 2),
        Step::Bind("c", 3),
    ]);
    let mut scene = Scene::new();
    let mut ui = 0;
    tick(&mut director, &mut scene, &mut ui);
    assert_eq!(director.position(), 4);
    assert_eq!(director.in_flight(), 0);
    assert!(director.is_idle());
    assert_eq!(scene, vec!["mode 0", "set a", "set b", "set c"]);
    assert_eq!(ui, 4);
}

#[test]
fn any_flag_but_one_batches() {
    let mut director =
        SceDirector::new(vec![Step::SetMode(-7), Step::Bind("a", 1), Step::Bind("b", 2)]);
    let mut scene = Scene::new();
    let mut ui = 0;
    tick(&mut director, &mut scene, &mut ui);
    assert_eq!(director.position(), 3);
    assert_eq!(director.state().run_mode(), -7);
}

#[test]
fn waiting_command_blocks_the_program() {
    let mut director = SceDirector::new(vec![Step::Wait("w", 3), Step::Bind("c", 3)]);
    let mut scene = Scene::new();
    let mut ui = 0;

    tick(&mut director, &mut scene, &mut ui);
    assert_eq!(director.position(), 1);
    assert_eq!(director.in_flight(), 1);

    tick(&mut director, &mut scene, &mut ui);
    assert_eq!(director.position(), 1);
    assert_eq!(director.in_flight(), 1);

    tick(&mut director, &mut scene, &mut ui);
    assert_eq!(director.position(), 1);
    assert_eq!(director.in_flight(), 0);
    assert_eq!(scene, vec!["wait w 2", "wait w 1", "wait w 0"]);
    assert_eq!(director.state().get("c"), None);

    tick(&mut director, &mut scene, &mut ui);
    assert_eq!(director.position(), 2);
    assert_eq!(director.state().get("c"), Some(&Value::Int(3)));
    assert_eq!(ui, 4);
}

#[test]
fn polling_tick_does_not_start_commands_even_when_all_finish() {
    let mut director = SceDirector::new(vec![Step::Wait("w", 2), Step::Bind("c", 3)]);
    let mut scene = Scene::new();
    let mut ui = 0;
    tick(&mut director, &mut scene, &mut ui);
    tick(&mut director, &mut scene, &mut ui);
    assert_eq!(director.in_flight(), 0);
    assert_eq!(director.position(), 1);
    assert_eq!(scene.len(), 2);
}

#[test]
fn empty_program_ticks_return() {
    let mut director: SceDirector<Step> = SceDirector::new(Vec::new());
    let mut scene = Scene::new();
    let mut ui = 0;
    assert!(director.is_idle());
    for _ in 0..3 {
        tick(&mut director, &mut scene, &mut ui);
    }
    assert!(director.is_idle());
    assert_eq!(director.position(), 0);
    assert_eq!(ui, 0);
    assert!(scene.is_empty());
}

#[test]
fn exhausted_program_ticks_return_whatever_the_flag() {
    let mut director = SceDirector::new(vec![Step::Bind("a", 1), Step::SetMode(0)]);
    let mut scene = Scene::new();
    let mut ui = 0;
    tick(&mut director, &mut scene, &mut ui);
    tick(&mut director, &mut scene, &mut ui);
    assert!(director.is_idle());
    assert_eq!(director.state().run_mode(), 0);
    assert_eq!(ui, 2);
    for _ in 0..5 {
        tick(&mut director, &mut scene, &mut ui);
    }
    assert!(director.is_idle());
    assert_eq!(director.position(), 2);
    assert_eq!(ui, 2);
    assert_eq!(scene, vec!["set a", "mode 0"]);
}

#[test]
fn commands_started_together_are_polled_until_both_are_done() {
    let mut director = SceDirector::new(vec![
        Step::SetMode(0),
        Step::Wait("a", 2),
        Step::Wait("b", 3),
        Step::SetMode(1),
        Step::Bind("c", 3),
    ]);
    let mut scene = Scene::new();
    let mut ui = 0;

    tick(&mut director, &mut scene, &mut ui);
    assert_eq!(director.position(), 4);
    assert_eq!(director.in_flight(), 2);
    assert_eq!(scene, vec!["mode 0", "wait a 1", "wait b 2", "mode 1"]);

    scene.clear();
    tick(&mut director, &mut scene, &mut ui);
    assert_eq!(scene, vec!["wait a 0", "wait b 1"]);
    assert_eq!(director.position(), 4);
    assert_eq!(director.in_flight(), 1);

    scene.clear();
    tick(&mut director, &mut scene, &mut ui);
    assert_eq!(scene, vec!["wait b 0"]);
    assert_eq!(director.position(), 4);
    assert_eq!(director.in_flight(), 0);
    assert_eq!(director.state().get("c"), None);

    scene.clear();
    tick(&mut director, &mut scene, &mut ui);
    assert_eq!(scene, vec!["set c"]);
    assert!(director.is_idle());
}

#[test]
fn later_command_may_finish_first() {
    let mut director = SceDirector::new(vec![
        Step::SetMode(2),
        Step::Wait("a", 3),
        Step::Wait("b", 2),
        Step::SetMode(1),
    ]);
    let mut scene = Scene::new();
    let mut ui = 0;
    tick(&mut director, &mut scene, &mut ui);
    assert_eq!(director.in_flight(), 2);
    scene.clear();
    tick(&mut director, &mut scene, &mut ui);
    assert_eq!(scene, vec!["wait a 1", "wait b 0"]);
    assert_eq!(director.in_flight(), 1);
    scene.clear();
    tick(&mut director, &mut scene, &mut ui);
    assert_eq!(scene, vec!["wait a 0"]);
    assert!(director.is_idle());
}

#[test]
fn flag_set_by_a_command_is_seen_right_after_its_call() {
    let mut director = SceDirector::new(vec![
        Step::SetMode(0),
        Step::Bind("a", 1),
        Step::SetMode(1),
        Step::Bind("b", 2),
    ]);
    let mut scene = Scene::new();
    let mut ui = 0;
    tick(&mut director, &mut scene, &mut ui);
    assert_eq!(scene, vec!["mode 0", "set a", "mode 1"]);
    assert_eq!(director.position(), 3);
    assert_eq!(director.state().get("b"), None);
    tick(&mut director, &mut scene, &mut ui);
    assert_eq!(director.position(), 4);
    assert_eq!(director.state().get("b"), Some(&Value::Int(2)));
}

#[test]
fn waiting_command_that_leaves_the_flag_off_does_not_stop_the_drain() {
    let mut director =
        SceDirector::new(vec![Step::SetMode(0), Step::Wait("a", 2), Step::Bind("b", 2)]);
    let mut scene = Scene::new();
    let mut ui = 0;
    tick(&mut director, &mut scene, &mut ui);
    assert_eq!(scene, vec!["mode 0", "wait a 1", "set b"]);
    assert_eq!(director.position(), 3);
    assert_eq!(director.in_flight(), 1);
    assert!(!director.is_idle());
    tick(&mut director, &mut scene, &mut ui);
    assert!(director.is_idle());
}

#[test]
fn script_with_setup_burst_and_wait() {
    let mut director = SceDirector::new(vec![
        Step::Bind("a", 1),
        Step::SetMode(0),
        Step::Bind("b", 2),
        Step::SetMode(1),
        Step::Wait("w", 3),
        Step::Bind("c", 3),
    ]);
    let mut scene = Scene::new();
    let mut ui = 0;

    tick(&mut director, &mut scene, &mut ui);
    assert_eq!(scene, vec!["set a"]);
    assert_eq!((director.position(), director.in_flight()), (1, 0));

    scene.clear();
    tick(&mut director, &mut scene, &mut ui);
    assert_eq!(scene, vec!["mode 0", "set b", "mode 1"]);
    assert_eq!((director.position(), director.in_flight()), (4, 0));
    assert_eq!(director.state().run_mode(), 1);

    scene.clear();
    tick(&mut director, &mut scene, &mut ui);
    assert_eq!(scene, vec!["wait w 2"]);
    assert_eq!((director.position(), director.in_flight()), (5, 1));

    scene.clear();
    tick(&mut director, &mut scene, &mut ui);
    assert_eq!(scene, vec!["wait w 1"]);
    assert_eq!((director.position(), director.in_flight()), (5, 1));

    scene.clear();
    tick(&mut director, &mut scene, &mut ui);
    assert_eq!(scene, vec!["wait w 0"]);
    assert_eq!((director.position(), director.in_flight()), (5, 0));
    assert_eq!(director.state().get("c"), None);

    scene.clear();
    tick(&mut director, &mut scene, &mut ui);
    assert_eq!(scene, vec!["set c"]);
    assert_eq!((director.position(), director.in_flight()), (6, 0));
    assert!(director.is_idle());
    assert_eq!(director.state().get("a"), Some(&Value::Int(1)));
    assert_eq!(director.state().get("b"), Some(&Value::Int(2)));
    assert_eq!(director.state().get("c"), Some(&Value::Int(3)));
}

#[test]
fn equal_descriptors_each_get_their_own_instance() {
    let mut director = SceDirector::new(vec![Step::Wait("w", 2), Step::Wait("w", 2)]);
    let mut scene = Scene::new();
    let mut ui = 0;
    for _ in 0..4 {
        tick(&mut director, &mut scene, &mut ui);
    }
    assert_eq!(scene, vec!["wait w 1", "wait w 0", "wait w 1", "wait w 0"]);
    assert!(director.is_idle());
}

#[test]
fn elapsed_time_reaches_the_command_unchanged() {
    let mut director = SceDirector::new(vec![Step::Clock]);
    let mut scene = Scene::new();
    let mut ui = 0;
    director.update(&mut scene, &mut ui, 0.25f32.to_bits());
    match director.state().get("clock") {
        Some(Value::Real(bits)) => assert_eq!(f32::from_bits(*bits), 0.25),
        other => panic!("unexpected binding: {:?}", other),
    }
}
