//! The one command whose meaning the director itself fixes.

use crate::command::SceCommand;
use crate::command::World;
use crate::environment::Environment;
use crate::environment::Value;
use crate::environment::WellKnownVariables;
use vstd::prelude::*;

verus! {

/// Sets the continuation-mode flag and is done at once.
///
/// With `1` the program goes on one command per frame; with any other value
/// the commands that follow start within the same frame.
#[derive(Clone, Copy, Debug, PartialEq, Eq)]
pub struct SceCommandRunScriptMode {
    mode: i32,
}

impl SceCommandRunScriptMode {
    /// The command that sets the flag to `mode`.
    pub fn new(mode: i32) -> (command: Self)
        ensures
            command.mode() == mode,
    {
        SceCommandRunScriptMode { mode }
    }

    /// The value that the command gives the flag.
    pub closed spec fn mode(self) -> i32 {
        self.mode
    }
}

impl<S, U> SceCommand<S, U> for SceCommandRunScriptMode {
    /// The call binds the flag to the command's mode, changes nothing else,
    /// and reports that the command is done.
    open spec fn step(
        before: Self,
        world: World<S, U>,
        delta_sec_bits: u32,
        after: Self,
        world_after: World<S, U>,
        done: bool,
    ) -> bool {
        &&& done
        &&& after == before
        &&& world_after.scene == world.scene
        &&& world_after.ui == world.ui
        &&& world_after.bindings == world.bindings.insert(
            WellKnownVariables::RUN_MODE@,
            Value::Int(before.mode()),
        )
    }

    fn update(
        &mut self,
        scene: &mut S,
        ui: &mut U,
        state: &mut Environment,
        delta_sec_bits: u32,
    ) -> (done: bool) {
        state.set_run_mode(self.mode);
        true
    }
}

} // verus!
