use opengb::environment::Environment;
use opengb::environment::Value;
use opengb::environment::WellKnownVariables;

#[test]
fn flag_has_its_well_known_name() {
    assert_eq!(WellKnownVariables::RUN_MODE, "run_mode");
}

#[test]
fn new_environment_binds_the_flag_to_one() {
    let env = Environment::new();
    assert_eq!(env.run_mode(), 1);
    assert_eq!(env.get(WellKnownVariables::RUN_MODE), Some(&Value::Int(1)));
    assert_eq!(env.get_int("run_mode"), 1);
}

#[test]
fn new_environment_binds_nothing_else() {
    let env = Environment::new();
    assert_eq!(env.get("camera"), None);
    assert_eq!(env.get(""), None);
    assert_eq!(env.get("run_mod"), None);
    assert_eq!(env.get("run_mode "), None);
}

#[test]
fn set_then_get_returns_the_value() {
    let mut env = Environment::new();
    env.set("speed", Value::Real(1.5f32.to_bits()));
    env.set("name", Value::Text(String::from("hero")));
    env.set("target", Value::Vector(1u32, 2u32, 3u32));
    env.set("blob", Value::Payload(vec![1, 2, 3]));
    env.set("count", Value::Int(-4));
    assert_eq!(env.get("speed"), Some(&Value::Real(0x3fc0_0000)));
    assert_eq!(env.get("name"), Some(&Value::Text(String::from("hero"))));
    assert_eq!(env.get("target"), Some(&Value::Vector(1, 2, 3)));
    assert_eq!(env.get("blob"), Some(&Value::Payload(vec![1, 2, 3])));
    assert_eq!(env.get_int("count"), -4);
    assert_eq!(env.run_mode(), 1);
}

#[test]
fn set_replaces_what_was_bound() {
    let mut env = Environment::new();
    env.set("count", Value::Int(1));
    env.set("count", Value::Text(String::from("one")));
    assert_eq!(env.get("count"), Some(&Value::Text(String::from("one"))));
}

#[test]
fn flag_can_be_set_by_name() {
    let mut env = Environment::new();
    env.set(WellKnownVariables::RUN_MODE, Value::Int(0));
    assert_eq!(env.run_mode(), 0);
    assert_eq!(env.get("run_mode"), Some(&Value::Int(0)));
}

#[test]
fn set_run_mode_is_seen_by_name() {
    let mut env = Environment::new();
    env.set_run_mode(5);
    assert_eq!(env.run_mode(), 5);
    assert_eq!(env.get_int(WellKnownVariables::RUN_MODE), 5);
    env.set_run_mode(1);
    assert_eq!(env.run_mode(), 1);
}

#[test]
fn other_names_do_not_touch_the_flag() {
    let mut env = Environment::new();
    env.set("run_mode2", Value::Int(0));
    env.set("RUN_MODE", Value::Int(0));
    assert_eq!(env.run_mode(), 1);
    assert_eq!(env.get("run_mode2"), Some(&Value::Int(0)));
}

#[test]
fn flag_accepts_whole_numbers_only() {
    assert!(Environment::accepts("run_mode", &Value::Int(0)));
    assert!(!Environment::accepts("run_mode", &Value::Real(0)));
    assert!(!Environment::accepts("run_mode", &Value::Text(String::from("1"))));
    assert!(!Environment::accepts(WellKnownVariables::RUN_MODE, &Value::Payload(Vec::new())));
}

#[test]
fn other_names_accept_every_value() {
    assert!(Environment::accepts("speed", &Value::Real(0)));
    assert!(Environment::accepts("run_modes", &Value::Text(String::from("x"))));
    assert!(Environment::accepts("", &Value::Vector(1, 2, 3)));
    assert!(Environment::accepts("count", &Value::Int(3)));
}
