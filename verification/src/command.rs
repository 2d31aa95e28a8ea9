//! The contract between the director and the commands it runs.

use crate::environment::run_mode_of;
use crate::environment::Bindings;
use crate::environment::Environment;
use vstd::prelude::*;

verus! {

/// Everything a command can see and change during one call: the scene, the
/// frame of the user interface, and the bindings of the shared environment.
pub ghost struct World<S, U> {
    pub scene: S,
    pub ui: U,
    pub bindings: Bindings,
}

/// One scripted operation.
///
/// `S` is the host's scene handle and `U` its handle for the current frame of
/// the user interface; the director hands both through without looking at
/// them. A program stores commands as descriptors and clones a descriptor to
/// get the instance that it runs.
pub trait SceCommand<S, U>: Clone {
    /// What one call of `update` may do: it may take the command from
    /// `before` to `after` and the world from `world` to `world_after`, and
    /// report `done`. A command that says nothing here may do anything.
    open spec fn step(
        before: Self,
        world: World<S, U>,
        delta_sec_bits: u32,
        after: Self,
        world_after: World<S, U>,
        done: bool,
    ) -> bool {
        true
    }

    /// Advances the command by one frame. `delta_sec_bits` is the time since
    /// the previous frame, in seconds, as the bit pattern of a
    /// single-precision number.
    ///
    /// Returns `true` in the frame in which the command finishes, and `false`
    /// while it has to be called again in a later frame.
    fn update(
        &mut self,
        scene: &mut S,
        ui: &mut U,
        state: &mut Environment,
        delta_sec_bits: u32,
    ) -> (done: bool)
        ensures
            Self::step(
                *old(self),
                (World { scene: *old(scene), ui: *old(ui), bindings: old(state)@ }),
                delta_sec_bits,
                *final(self),
                (World { scene: *final(scene), ui: *final(ui), bindings: final(state)@ }),
                done,
            ),
    ;
}

/// One call of `update`, as it went.
pub ghost struct Call<C, S, U> {
    /// The command as it was handed to the call.
    pub command: C,
    /// The world in which the call started.
    pub world: World<S, U>,
    /// The command as the call left it.
    pub command_after: C,
    /// The world as the call left it.
    pub world_after: World<S, U>,
    /// What the call returned.
    pub done: bool,
}

impl<C, S, U> Call<C, S, U> {
    /// The call is one that the command's `step` allows.
    pub open spec fn permitted(self, delta_sec_bits: u32) -> bool where C: SceCommand<S, U> {
        C::step(
            self.command,
            self.world,
            delta_sec_bits,
            self.command_after,
            self.world_after,
            self.done,
        )
    }

    /// The continuation-mode flag as the call left it.
    pub open spec fn run_mode_after(self) -> i32 {
        run_mode_of(self.world_after.bindings)
    }
}

/// Each call starts in the world that the call before it left, and the first
/// one in `start`.
pub open spec fn threaded<C, S, U>(calls: Seq<Call<C, S, U>>, start: World<S, U>) -> bool {
    &&& calls.len() > 0 ==> calls[0].world == start
    &&& forall|i: int, j: int|
        0 <= i && j == i + 1 && j < calls.len() ==> (#[trigger] calls[j]).world == (
        #[trigger] calls[i]).world_after
}

/// The world after the last of `calls`, or `start` if there was none.
pub open spec fn world_after<C, S, U>(calls: Seq<Call<C, S, U>>, start: World<S, U>) -> World<
    S,
    U,
> {
    if calls.len() == 0 {
        start
    } else {
        calls.last().world_after
    }
}

/// The commands whose call returned `false`, as the calls left them and in
/// the order of the calls.
pub open spec fn still_running<C, S, U>(calls: Seq<Call<C, S, U>>) -> Seq<C>
    decreases calls.len(),
{
    if calls.len() == 0 {
        Seq::empty()
    } else if calls.last().done {
        still_running(calls.drop_last())
    } else {
        still_running(calls.drop_last()).push(calls.last().command_after)
    }
}

/// The commands in flight after some calls are at most as many as the calls,
/// and there is none exactly when every call returned `true`.
pub proof fn none_running_iff_all_done<C, S, U>(calls: Seq<Call<C, S, U>>)
    ensures
        still_running(calls).len() <= calls.len(),
        still_running(calls).len() == 0 <==> forall|j: int|
            0 <= j < calls.len() ==> (#[trigger] calls[j]).done,
    decreases calls.len(),
{
    if calls.len() > 0 {
        let rest = calls.drop_last();
        none_running_iff_all_done(rest);
        if calls.last().done && still_running(rest).len() == 0 {
            assert forall|j: int| 0 <= j < calls.len() implies (#[trigger] calls[j]).done by {
                if j < rest.len() {
                    assert(calls[j] == rest[j]);
                }
            }
        } else if calls.last().done {
            let j = choose|j: int| 0 <= j < rest.len() && !(#[trigger] rest[j]).done;
            assert(calls[j] == rest[j]);
        }
    }
}

/// The commands in flight after two runs of calls, one after the other, are
/// those after the first run followed by those after the second.
pub proof fn still_running_of_both<C, S, U>(first: Seq<Call<C, S, U>>, second: Seq<Call<C, S, U>>)
    ensures
        still_running(first + second) == still_running(first) + still_running(second),
    decreases second.len(),
{
    if second.len() == 0 {
        assert(first + second =~= first);
        assert(still_running(first) + still_running(second) =~= still_running(first));
    } else {
        let both = first + second;
        assert(both.drop_last() =~= first + second.drop_last());
        assert(both.last() == second.last());
        still_running_of_both(first, second.drop_last());
        if !second.last().done {
            assert(still_running(both) =~= still_running(first) + still_running(second));
        }
    }
}

} // verus!
