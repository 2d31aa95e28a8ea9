use opengb::command::SceCommand;
use opengb::environment::Environment;
use opengb::program::SceCommands;

#[derive(Clone, Debug, PartialEq)]
struct Countdown {
    left: u32,
}

impl SceCommand<(), ()> for Countdown {
    fn update(&mut self, _: &mut (), _: &mut (), _: &mut Environment, _: u32) -> bool {
        self.left -= 1;
        self.left == 0
    }
}

#[test]
fn get_next_walks_the_program_once() {
    let mut program = SceCommands::new(vec![Countdown { left: 1 }, Countdown { left: 2 }]);
    assert_eq!(program.len(), 2);
    assert_eq!(program.position(), 0);
    assert_eq!(program.get_next().map(|b| *b), Some(Countdown { left: 1 }));
    assert_eq!(program.position(), 1);
    assert_eq!(program.get_next().map(|b| *b), Some(Countdown { left: 2 }));
    assert_eq!(program.position(), 2);
    assert_eq!(program.get_next(), None);
    assert_eq!(program.get_next(), None);
    assert_eq!(program.position(), 2);
    assert_eq!(program.len(), 2);
}

#[test]
fn empty_program_has_no_next() {
    let mut program: SceCommands<Countdown> = SceCommands::new(Vec::new());
    assert_eq!(program.len(), 0);
    assert_eq!(program.get_next(), None);
    assert_eq!(program.position(), 0);
}

#[test]
fn instance_is_a_copy_of_its_own() {
    let mut first = SceCommands::new(vec![Countdown { left: 2 }]);
    let mut env = Environment::new();
    let mut instance = first.get_next().unwrap();
    assert!(!instance.update(&mut (), &mut (), &mut env, 0));
    assert!(instance.update(&mut (), &mut (), &mut env, 0));
    assert_eq!(*instance, Countdown { left: 0 });
    assert_eq!(first.len(), 1);
    assert_eq!(first.get_next(), None);
}
