//! What one tick of the director does, stated over the calls it makes.

use crate::command::still_running;
use crate::command::threaded;
use crate::command::world_after;
use crate::command::Call;
use crate::command::SceCommand;
use crate::command::World;
use crate::environment::Bindings;
use vstd::pervasive::strictly_cloned;
use vstd::prelude::*;

verus! {

/// The director as its contracts see it.
pub ghost struct DirectorView<C> {
    /// The descriptors of the program, in order.
    pub program: Seq<C>,
    /// How many descriptors have been instantiated.
    pub cursor: nat,
    /// The instances in flight, oldest first.
    pub active: Seq<C>,
    /// The bindings of the shared environment.
    pub bindings: Bindings,
}

impl<C> DirectorView<C> {
    /// Nothing is in flight: the next tick consults the program.
    pub open spec fn draining(self) -> bool {
        self.active.len() == 0
    }

    /// Something is in flight: the next tick polls it.
    pub open spec fn polling(self) -> bool {
        self.active.len() > 0
    }

    /// The program has no descriptor left.
    pub open spec fn exhausted(self) -> bool {
        self.cursor >= self.program.len()
    }
}

/// `calls` are the calls of a tick that drains `program` from `cursor`.
///
/// The tick instantiates descriptor after descriptor and calls each instance
/// once. It goes on to the next descriptor exactly when the flag is not `1`
/// after a call and a descriptor is left. If no descriptor is left at the
/// start, it makes no call at all.
pub open spec fn drained<C: SceCommand<S, U>, S, U>(
    program: Seq<C>,
    cursor: nat,
    start: World<S, U>,
    delta_sec_bits: u32,
    calls: Seq<Call<C, S, U>>,
) -> bool {
    &&& cursor + calls.len() <= program.len()
    &&& threaded(calls, start)
    &&& forall|i: int|
        0 <= i < calls.len() ==> strictly_cloned(program[cursor + i], (#[trigger] calls[i]).command)
            && calls[i].permitted(delta_sec_bits)
    &&& forall|i: int| 0 <= i < calls.len() - 1 ==> (#[trigger] calls[i]).run_mode_after() != 1
    &&& calls.len() == 0 ==> cursor == program.len()
    &&& calls.len() > 0 ==> calls.last().run_mode_after() == 1 || cursor + calls.len()
        == program.len()
}

/// `calls` are the calls of a tick that polls `active`: one call on each
/// member, in order.
pub open spec fn polled<C: SceCommand<S, U>, S, U>(
    active: Seq<C>,
    start: World<S, U>,
    delta_sec_bits: u32,
    calls: Seq<Call<C, S, U>>,
) -> bool {
    &&& calls.len() == active.len()
    &&& threaded(calls, start)
    &&& forall|i: int|
        0 <= i < calls.len() ==> (#[trigger] calls[i]).command == active[i] && calls[i].permitted(
            delta_sec_bits,
        )
}

/// One tick takes the director from `before` to `after` and the host's
/// handles from `scene`, `ui` to `scene_after`, `ui_after`, by making `calls`.
///
/// With nothing in flight the tick drains the program; otherwise it polls
/// what is in flight and leaves the program alone. Either way the instances
/// in flight afterwards are those whose call returned `false`.
pub open spec fn ticked<C: SceCommand<S, U>, S, U>(
    before: DirectorView<C>,
    scene: S,
    ui: U,
    delta_sec_bits: u32,
    calls: Seq<Call<C, S, U>>,
    after: DirectorView<C>,
    scene_after: S,
    ui_after: U,
) -> bool {
    let start = World { scene, ui, bindings: before.bindings };
    &&& after.program == before.program
    &&& after.active == still_running(calls)
    &&& World { scene: scene_after, ui: ui_after, bindings: after.bindings } == world_after(
        calls,
        start,
    )
    &&& if before.draining() {
        &&& drained(before.program, before.cursor, start, delta_sec_bits, calls)
        &&& after.cursor == before.cursor + calls.len()
    } else {
        &&& polled(before.active, start, delta_sec_bits, calls)
        &&& after.cursor == before.cursor
    }
}

} // verus!
