//! What follows from the contract of a tick: pacing, batching, the barrier
//! that commands in flight put before the program, and the idle state at the
//! end of the program.

use crate::command::none_running_iff_all_done;
use crate::command::still_running;
use crate::command::still_running_of_both;
use crate::command::Call;
use crate::command::SceCommand;
use crate::schedule::ticked;
use crate::schedule::DirectorView;
use vstd::prelude::*;

verus! {

/// One tick, as it went.
pub ghost struct Tick<C, S, U> {
    /// The director before the tick.
    pub before: DirectorView<C>,
    /// The scene as the host handed it in.
    pub scene: S,
    /// The frame of the user interface as the host handed it in.
    pub ui: U,
    /// The time since the previous frame.
    pub delta_sec_bits: u32,
    /// The calls that the tick made, in order.
    pub calls: Seq<Call<C, S, U>>,
    /// The director after the tick.
    pub after: DirectorView<C>,
    /// The scene as the tick left it.
    pub scene_after: S,
    /// The frame of the user interface as the tick left it.
    pub ui_after: U,
}

impl<C: SceCommand<S, U>, S, U> Tick<C, S, U> {
    /// The tick is one that the director can make.
    pub open spec fn valid(self) -> bool {
        ticked(
            self.before,
            self.scene,
            self.ui,
            self.delta_sec_bits,
            self.calls,
            self.after,
            self.scene_after,
            self.ui_after,
        )
    }

    /// Every call of the tick returned `true`.
    pub open spec fn all_done(self) -> bool {
        forall|j: int| 0 <= j < self.calls.len() ==> (#[trigger] self.calls[j]).done
    }
}

/// `ticks` are ticks of one director, one after the other: each starts from
/// the state in which the one before it left the director.
pub open spec fn consecutive<C: SceCommand<S, U>, S, U>(ticks: Seq<Tick<C, S, U>>) -> bool {
    &&& forall|i: int| 0 <= i < ticks.len() ==> (#[trigger] ticks[i]).valid()
    &&& forall|i: int, j: int|
        0 <= i && j == i + 1 && j < ticks.len() ==> (#[trigger] ticks[j]).before == (
        #[trigger] ticks[i]).after
}

/// A tick never moves the cursor back nor past the end of the program, and
/// never changes the program.
pub proof fn cursor_only_advances<C: SceCommand<S, U>, S, U>(tick: Tick<C, S, U>)
    requires
        tick.valid(),
        tick.before.cursor <= tick.before.program.len(),
    ensures
        tick.after.program == tick.before.program,
        tick.before.cursor <= tick.after.cursor <= tick.after.program.len(),
{
}

/// Pacing: in a draining tick with a descriptor left, if the flag is `1`
/// after the first call, that call is the only one of the tick.
pub proof fn flag_one_stops_after_first_call<C: SceCommand<S, U>, S, U>(tick: Tick<C, S, U>)
    requires
        tick.valid(),
        tick.before.draining(),
        !tick.before.exhausted(),
        tick.calls[0].run_mode_after() == 1,
    ensures
        tick.calls.len() == 1,
        tick.after.cursor == tick.before.cursor + 1,
{
}

/// The first `n` of `ticks` each start exactly one command, finish it, and
/// leave the cursor one further.
spec fn paced_upto<C, S, U>(ticks: Seq<Tick<C, S, U>>, n: int) -> bool {
    forall|i: int|
        0 <= i < n ==> {
            &&& (#[trigger] ticks[i]).calls.len() == 1
            &&& ticks[i].before.draining()
            &&& ticks[i].after.draining()
            &&& ticks[i].after.cursor == ticks[0].before.cursor + i + 1
        }
}

proof fn paced_prefix<C: SceCommand<S, U>, S, U>(ticks: Seq<Tick<C, S, U>>, n: int)
    requires
        consecutive(ticks),
        0 <= n <= ticks.len(),
        ticks.len() > 0,
        ticks[0].before.draining(),
        ticks[0].before.cursor + ticks.len() <= ticks[0].before.program.len(),
        forall|i: int, j: int|
            0 <= i < ticks.len() && 0 <= j < ticks[i].calls.len() ==> (
            #[trigger] ticks[i].calls[j]).done && ticks[i].calls[j].run_mode_after() == 1,
    ensures
        paced_upto(ticks, n),
        forall|i: int| 0 <= i < n ==> (#[trigger] ticks[i]).before.program == ticks[0].before.program,
    decreases n,
{
    if n > 0 {
        paced_prefix(ticks, n - 1);
        let i = n - 1;
        let tick = ticks[i];
        if i > 0 {
            assert(tick.before == ticks[i - 1].after);
            assert(ticks[i - 1].valid());
        }
        assert(tick.calls[0].run_mode_after() == 1);
        none_running_iff_all_done(tick.calls);
    }
}

/// One command per frame: while every command finishes in its first call and
/// leaves the flag at `1`, each tick starts and finishes exactly one command.
/// After as many ticks as the program had descriptors left, the program is
/// exhausted and nothing is in flight.
pub proof fn one_command_per_frame<C: SceCommand<S, U>, S, U>(ticks: Seq<Tick<C, S, U>>)
    requires
        consecutive(ticks),
        ticks.len() > 0,
        ticks[0].before.draining(),
        ticks[0].before.cursor + ticks.len() <= ticks[0].before.program.len(),
        forall|i: int, j: int|
            0 <= i < ticks.len() && 0 <= j < ticks[i].calls.len() ==> (
            #[trigger] ticks[i].calls[j]).done && ticks[i].calls[j].run_mode_after() == 1,
    ensures
        forall|i: int|
            0 <= i < ticks.len() ==> {
                &&& (#[trigger] ticks[i]).calls.len() == 1
                &&& ticks[i].after.draining()
                &&& ticks[i].after.cursor == ticks[0].before.cursor + i + 1
            },
        ticks[0].before.cursor + ticks.len() == ticks[0].before.program.len()
            ==> ticks.last().after.exhausted() && ticks.last().after.draining(),
{
    paced_prefix(ticks, ticks.len() as int);
    assert(ticks.last() == ticks[ticks.len() - 1]);
}

/// Batching: a draining tick in which no call leaves the flag at `1` runs the
/// program to its end. If moreover every call returns `true`, nothing is in
/// flight afterwards.
pub proof fn batch_runs_to_the_end<C: SceCommand<S, U>, S, U>(tick: Tick<C, S, U>)
    requires
        tick.valid(),
        tick.before.draining(),
        forall|j: int| 0 <= j < tick.calls.len() ==> (#[trigger] tick.calls[j]).run_mode_after() != 1,
    ensures
        tick.before.cursor + tick.calls.len() == tick.before.program.len(),
        tick.after.exhausted(),
        tick.all_done() ==> tick.after.draining(),
{
    if tick.calls.len() > 0 {
        assert(tick.calls.last() == tick.calls[tick.calls.len() - 1]);
    }
    none_running_iff_all_done(tick.calls);
}

/// The flag is read right after each call: a draining tick goes on to the
/// next descriptor exactly when the flag, as that very call left it, is not
/// `1` and a descriptor is left; and the next call starts in the world that
/// this call left.
pub proof fn flag_read_after_each_call<C: SceCommand<S, U>, S, U>(tick: Tick<C, S, U>, i: int)
    requires
        tick.valid(),
        tick.before.draining(),
        0 <= i < tick.calls.len(),
    ensures
        i + 1 < tick.calls.len() <==> tick.calls[i].run_mode_after() != 1 && tick.before.cursor + i
            + 1 < tick.before.program.len(),
        i + 1 < tick.calls.len() ==> tick.calls[i + 1].world == tick.calls[i].world_after,
        i + 1 == tick.calls.len() ==> tick.after.bindings == tick.calls[i].world_after.bindings,
{
    if i + 1 == tick.calls.len() {
        assert(tick.calls.last() == tick.calls[i]);
    }
}

/// At the end of the program a tick with nothing in flight does nothing,
/// whatever the flag says: it makes no call and leaves the director, the
/// scene and the frame of the user interface as they were.
pub proof fn exhausted_tick_is_idle<C: SceCommand<S, U>, S, U>(tick: Tick<C, S, U>)
    requires
        tick.valid(),
        tick.before.draining(),
        tick.before.exhausted(),
    ensures
        tick.calls.len() == 0,
        tick.after == tick.before,
        tick.scene_after == tick.scene,
        tick.ui_after == tick.ui,
{
    assert(tick.after.active =~= tick.before.active);
}

/// The first `n` of `ticks` make no call and change nothing.
spec fn idle_upto<C, S, U>(ticks: Seq<Tick<C, S, U>>, n: int) -> bool {
    forall|i: int|
        0 <= i < n ==> {
            &&& (#[trigger] ticks[i]).calls.len() == 0
            &&& ticks[i].before == ticks[0].before
            &&& ticks[i].after == ticks[0].before
            &&& ticks[i].scene_after == ticks[i].scene
            &&& ticks[i].ui_after == ticks[i].ui
        }
}

proof fn idle_prefix<C: SceCommand<S, U>, S, U>(ticks: Seq<Tick<C, S, U>>, n: int)
    requires
        consecutive(ticks),
        0 <= n <= ticks.len(),
        ticks.len() > 0,
        ticks[0].before.draining(),
        ticks[0].before.exhausted(),
    ensures
        idle_upto(ticks, n),
    decreases n,
{
    if n > 0 {
        idle_prefix(ticks, n - 1);
        let i = n - 1;
        if i > 0 {
            assert(ticks[i].before == ticks[i - 1].after);
        }
        exhausted_tick_is_idle(ticks[i]);
    }
}

/// The end of the program is a steady state: once nothing is in flight and
/// no descriptor is left, no tick makes a call or changes the director, the
/// scene or the frame of the user interface, however many follow.
pub proof fn idle_is_steady<C: SceCommand<S, U>, S, U>(ticks: Seq<Tick<C, S, U>>)
    requires
        consecutive(ticks),
        ticks.len() > 0,
        ticks[0].before.draining(),
        ticks[0].before.exhausted(),
    ensures
        forall|i: int|
            0 <= i < ticks.len() ==> {
                &&& (#[trigger] ticks[i]).calls.len() == 0
                &&& ticks[i].after == ticks[0].before
                &&& ticks[i].scene_after == ticks[i].scene
                &&& ticks[i].ui_after == ticks[i].ui
            },
{
    idle_prefix(ticks, ticks.len() as int);
}

/// A polling tick calls every command in flight once, in order, leaves the
/// program alone, and keeps in flight exactly the commands whose call
/// returned `false`. Draining resumes after it exactly when every call
/// returned `true`.
pub proof fn polling_tick_calls_every_member<C: SceCommand<S, U>, S, U>(tick: Tick<C, S, U>)
    requires
        tick.valid(),
        tick.before.polling(),
    ensures
        tick.calls.len() == tick.before.active.len(),
        forall|j: int|
            0 <= j < tick.calls.len() ==> (#[trigger] tick.calls[j]).command
                == tick.before.active[j],
        tick.after.cursor == tick.before.cursor,
        tick.after.program == tick.before.program,
        tick.after.active == still_running(tick.calls),
        tick.after.active.len() <= tick.before.active.len(),
        tick.after.draining() <==> tick.all_done(),
{
    none_running_iff_all_done(tick.calls);
}

/// The first `n` of `ticks` all poll, and none moves the cursor.
spec fn held_upto<C, S, U>(ticks: Seq<Tick<C, S, U>>, n: int) -> bool {
    forall|i: int|
        0 <= i < n ==> {
            &&& (#[trigger] ticks[i]).before.polling()
            &&& ticks[i].before.cursor == ticks[0].before.cursor
            &&& ticks[i].after.cursor == ticks[0].before.cursor
        }
}

proof fn held_prefix<C: SceCommand<S, U>, S, U>(ticks: Seq<Tick<C, S, U>>, n: int)
    requires
        consecutive(ticks),
        0 <= n <= ticks.len(),
        ticks.len() > 0,
        ticks[0].before.polling(),
        forall|i: int| 0 <= i < ticks.len() - 1 ==> !(#[trigger] ticks[i]).all_done(),
    ensures
        held_upto(ticks, n),
    decreases n,
{
    if n > 0 {
        held_prefix(ticks, n - 1);
        let i = n - 1;
        if i > 0 {
            let earlier = ticks[i - 1];
            assert(ticks[i].before == earlier.after);
            assert(earlier.before.polling() && earlier.before.cursor == ticks[0].before.cursor);
            assert(earlier.after.polling() && earlier.after.cursor == earlier.before.cursor) by {
                polling_tick_calls_every_member(earlier);
            }
        }
        assert(ticks[i].after.cursor == ticks[i].before.cursor) by {
            polling_tick_calls_every_member(ticks[i]);
        }
    }
}

/// The barrier: from a state with commands in flight, as long as some call of
/// each tick returns `false`, every tick polls and the program stays where it
/// is. No descriptor is instantiated before a tick in which every command
/// still in flight returns `true`.
pub proof fn commands_in_flight_hold_the_program<C: SceCommand<S, U>, S, U>(
    ticks: Seq<Tick<C, S, U>>,
)
    requires
        consecutive(ticks),
        ticks.len() > 0,
        ticks[0].before.polling(),
        forall|i: int| 0 <= i < ticks.len() - 1 ==> !(#[trigger] ticks[i]).all_done(),
    ensures
        forall|i: int|
            0 <= i < ticks.len() ==> {
                &&& (#[trigger] ticks[i]).before.polling()
                &&& ticks[i].calls.len() == ticks[i].before.active.len()
                &&& ticks[i].after.cursor == ticks[0].before.cursor
            },
        ticks.last().after.draining() <==> ticks.last().all_done(),
{
    held_prefix(ticks, ticks.len() as int);
    assert(ticks.last() == ticks[ticks.len() - 1]);
    polling_tick_calls_every_member(ticks.last());
}

/// One command in flight that returns `false` in its first `ticks.len() - 1`
/// polls and `true` in the last keeps the director polling for exactly
/// `ticks.len()` ticks: each of them calls that one command and nothing
/// else, the cursor does not move, and after the last of them nothing is in
/// flight.
pub proof fn one_command_blocks_until_done<C: SceCommand<S, U>, S, U>(ticks: Seq<Tick<C, S, U>>)
    requires
        consecutive(ticks),
        ticks.len() > 0,
        ticks[0].before.active.len() == 1,
        forall|i: int, j: int|
            0 <= i < ticks.len() && 0 <= j < ticks[i].calls.len() ==> ((
            #[trigger] ticks[i].calls[j]).done <==> i == ticks.len() - 1),
    ensures
        forall|i: int|
            0 <= i < ticks.len() ==> {
                &&& (#[trigger] ticks[i]).before.active.len() == 1
                &&& ticks[i].calls.len() == 1
                &&& ticks[i].calls[0].command == ticks[i].before.active[0]
                &&& ticks[i].after.cursor == ticks[0].before.cursor
            },
        forall|i: int|
            0 <= i < ticks.len() - 1 ==> (#[trigger] ticks[i]).after.active.len() == 1
                && ticks[i + 1].calls[0].command == ticks[i].calls[0].command_after,
        ticks.last().after.draining(),
{
    one_blocks_prefix(ticks, ticks.len() as int);
    assert(ticks.last() == ticks[ticks.len() - 1]);
}

/// The first `n` of `ticks` each poll one and the same command.
spec fn one_blocks_upto<C, S, U>(ticks: Seq<Tick<C, S, U>>, n: int) -> bool {
    forall|i: int|
        0 <= i < n ==> {
            &&& (#[trigger] ticks[i]).before.active.len() == 1
            &&& ticks[i].calls.len() == 1
            &&& ticks[i].calls[0].command == ticks[i].before.active[0]
            &&& ticks[i].after.cursor == ticks[0].before.cursor
            &&& ticks[i].before.cursor == ticks[0].before.cursor
            &&& if i == ticks.len() - 1 {
                ticks[i].after.active.len() == 0
            } else {
                ticks[i].after.active.len() == 1 && ticks[i].after.active[0]
                    == ticks[i].calls[0].command_after
            }
        }
}

proof fn one_blocks_prefix<C: SceCommand<S, U>, S, U>(ticks: Seq<Tick<C, S, U>>, n: int)
    requires
        consecutive(ticks),
        0 <= n <= ticks.len(),
        ticks.len() > 0,
        ticks[0].before.active.len() == 1,
        forall|i: int, j: int|
            0 <= i < ticks.len() && 0 <= j < ticks[i].calls.len() ==> ((
            #[trigger] ticks[i].calls[j]).done <==> i == ticks.len() - 1),
    ensures
        one_blocks_upto(ticks, n),
        forall|i: int|
            0 <= i < n - 1 ==> (#[trigger] ticks[i]).after.active.len() == 1 && ticks[i
                + 1].calls[0].command == ticks[i].calls[0].command_after,
    decreases n,
{
    if n > 0 {
        one_blocks_prefix(ticks, n - 1);
        let i = n - 1;
        let tick = ticks[i];
        assert(tick.valid());
        if i > 0 {
            assert(tick.before == ticks[i - 1].after);
        }
        assert(tick.before.active.len() == 1);
        polling_tick_calls_every_member(tick);
        assert(tick.calls.len() == 1);
        assert(tick.calls[0].done <==> i == ticks.len() - 1) by {
            assert(ticks[i].calls[0].done <==> i == ticks.len() - 1);
        }
        assert(tick.calls.drop_last().len() == 0);
        assert(still_running(tick.calls.drop_last()).len() == 0);
        if i == ticks.len() - 1 {
            assert(still_running(tick.calls).len() == 0);
        } else {
            assert(tick.calls.last() == tick.calls[0]);
            assert(still_running(tick.calls) =~= seq![tick.calls[0].command_after]);
        }
    }
}

/// One command started in a tick: if exactly the call at `a` returns
/// `false`, the tick leaves exactly that command in flight, as its call left
/// it.
pub proof fn one_started_in_a_tick<C: SceCommand<S, U>, S, U>(tick: Tick<C, S, U>, a: int)
    requires
        tick.valid(),
        0 <= a < tick.calls.len(),
        forall|j: int| 0 <= j < tick.calls.len() ==> ((#[trigger] tick.calls[j]).done <==> j != a),
    ensures
        tick.after.active == seq![tick.calls[a].command_after],
        tick.after.polling(),
{
    let calls = tick.calls;
    let before_a = calls.take(a);
    let at_a = seq![calls[a]];
    let after_a = calls.skip(a + 1);
    assert(calls =~= before_a + at_a + after_a);
    still_running_of_both(before_a + at_a, after_a);
    still_running_of_both(before_a, at_a);
    assert forall|j: int| 0 <= j < before_a.len() implies (#[trigger] before_a[j]).done by {
        assert(before_a[j] == calls[j]);
    }
    assert forall|j: int| 0 <= j < after_a.len() implies (#[trigger] after_a[j]).done by {
        assert(after_a[j] == calls[a + 1 + j]);
    }
    none_running_iff_all_done(before_a);
    none_running_iff_all_done(after_a);
    assert(still_running(at_a.drop_last()).len() == 0);
    assert(still_running(at_a) =~= seq![calls[a].command_after]);
    assert(still_running(calls) =~= seq![calls[a].command_after]);
}

/// A command from its start to its end: a paced tick starts it, and it
/// returns `false` in all its calls but the last. Then each of the
/// `ticks.len()` ticks makes exactly one call, the next one on that command;
/// all ticks but the first poll; the cursor moves on by one in the first
/// tick and not at all in the others; and after the last tick nothing is in
/// flight.
pub proof fn started_command_holds_the_program<C: SceCommand<S, U>, S, U>(
    ticks: Seq<Tick<C, S, U>>,
)
    requires
        consecutive(ticks),
        ticks.len() > 0,
        ticks[0].before.draining(),
        !ticks[0].before.exhausted(),
        ticks[0].calls[0].run_mode_after() == 1,
        forall|i: int, j: int|
            0 <= i < ticks.len() && 0 <= j < ticks[i].calls.len() ==> ((
            #[trigger] ticks[i].calls[j]).done <==> i == ticks.len() - 1),
    ensures
        forall|i: int|
            0 <= i < ticks.len() ==> {
                &&& (#[trigger] ticks[i]).calls.len() == 1
                &&& ticks[i].after.cursor == ticks[0].before.cursor + 1
                &&& i > 0 ==> ticks[i].before.polling()
            },
        forall|i: int|
            0 <= i < ticks.len() - 1 ==> (#[trigger] ticks[i]).after.polling() && ticks[i
                + 1].calls[0].command == ticks[i].calls[0].command_after,
        ticks.last().after.draining(),
{
    let first = ticks[0];
    assert(first.calls.len() == 1);
    assert(first.calls[0].done <==> ticks.len() == 1);
    if ticks.len() == 1 {
        none_running_iff_all_done(first.calls);
    } else {
        one_started_in_a_tick(first, 0);
        let rest = ticks.skip(1);
        assert(rest[0].before == first.after) by {
            assert(rest[0] == ticks[1]);
        }
        assert(consecutive(rest)) by {
            assert forall|i: int| 0 <= i < rest.len() implies (#[trigger] rest[i]).valid() by {
                assert(rest[i] == ticks[i + 1]);
            }
            assert forall|i: int, j: int| 0 <= i && j == i + 1 && j < rest.len() implies (
            #[trigger] rest[j]).before == (#[trigger] rest[i]).after by {
                assert(rest[j] == ticks[j + 1] && rest[i] == ticks[i + 1]);
            }
        }
        assert forall|i: int, j: int|
            0 <= i < rest.len() && 0 <= j < rest[i].calls.len() implies ((
        #[trigger] rest[i].calls[j]).done <==> i == rest.len() - 1) by {
            assert(rest[i] == ticks[i + 1]);
            assert(ticks[i + 1].calls[j].done <==> i + 1 == ticks.len() - 1);
        }
        one_command_blocks_until_done(rest);
        assert(rest.last() == ticks.last());
        assert forall|i: int| 0 <= i < ticks.len() implies {
            &&& (#[trigger] ticks[i]).calls.len() == 1
            &&& ticks[i].after.cursor == ticks[0].before.cursor + 1
            &&& i > 0 ==> ticks[i].before.polling()
        } by {
            if i > 0 {
                assert(ticks[i] == rest[i - 1]);
            }
        }
        assert forall|i: int| 0 <= i < ticks.len() - 1 implies (#[trigger] ticks[i]).after.polling()
            && ticks[i + 1].calls[0].command == ticks[i].calls[0].command_after by {
            assert(ticks[i + 1] == rest[i]);
            if i > 0 {
                assert(ticks[i] == rest[i - 1]);
            } else {
                assert(rest[0].calls[0].command == rest[0].before.active[0]);
            }
        }
    }
}

/// Two commands started in one tick: if exactly the calls at `a` and `b`
/// return `false`, the tick leaves exactly those two commands in flight, the
/// earlier one first, each as its call left it.
pub proof fn two_started_in_one_tick<C: SceCommand<S, U>, S, U>(
    tick: Tick<C, S, U>,
    a: int,
    b: int,
)
    requires
        tick.valid(),
        0 <= a < b < tick.calls.len(),
        forall|j: int|
            0 <= j < tick.calls.len() ==> ((#[trigger] tick.calls[j]).done <==> j != a && j != b),
    ensures
        tick.after.active == seq![tick.calls[a].command_after, tick.calls[b].command_after],
        tick.after.polling(),
{
    let calls = tick.calls;
    let before_a = calls.take(a);
    let at_a = seq![calls[a]];
    let between = calls.subrange(a + 1, b);
    let at_b = seq![calls[b]];
    let after_b = calls.skip(b + 1);
    assert(calls =~= before_a + at_a + between + at_b + after_b);
    still_running_of_both(before_a + at_a + between + at_b, after_b);
    still_running_of_both(before_a + at_a + between, at_b);
    still_running_of_both(before_a + at_a, between);
    still_running_of_both(before_a, at_a);
    assert forall|j: int| 0 <= j < before_a.len() implies (#[trigger] before_a[j]).done by {
        assert(before_a[j] == calls[j]);
    }
    assert forall|j: int| 0 <= j < between.len() implies (#[trigger] between[j]).done by {
        assert(between[j] == calls[a + 1 + j]);
    }
    assert forall|j: int| 0 <= j < after_b.len() implies (#[trigger] after_b[j]).done by {
        assert(after_b[j] == calls[b + 1 + j]);
    }
    none_running_iff_all_done(before_a);
    none_running_iff_all_done(between);
    none_running_iff_all_done(after_b);
    assert(still_running(at_a.drop_last()).len() == 0);
    assert(still_running(at_b.drop_last()).len() == 0);
    assert(still_running(at_a) =~= seq![calls[a].command_after]);
    assert(still_running(at_b) =~= seq![calls[b].command_after]);
    assert(still_running(calls) =~= seq![calls[a].command_after, calls[b].command_after]);
}

/// How many of two commands are still to be polled in tick `i`, if the
/// first is done in its `first`-th poll and the second in its `second`-th.
pub open spec fn left_of_two(i: int, first: int, second: int) -> int {
    (if i < first {
        1int
    } else {
        0int
    }) + (if i < second {
        1int
    } else {
        0int
    })
}

/// The first `n` of `ticks` poll what is left of the two commands.
spec fn two_held_upto<C, S, U>(ticks: Seq<Tick<C, S, U>>, first: int, second: int, n: int) -> bool {
    forall|i: int|
        0 <= i < n ==> {
            &&& (#[trigger] ticks[i]).before.active.len() == left_of_two(i, first, second)
            &&& ticks[i].calls.len() == left_of_two(i, first, second)
            &&& ticks[i].before.cursor == ticks[0].before.cursor
            &&& ticks[i].after.cursor == ticks[0].before.cursor
            &&& ticks[i].after.active.len() == left_of_two(i + 1, first, second)
        }
}

proof fn two_held_prefix<C: SceCommand<S, U>, S, U>(
    ticks: Seq<Tick<C, S, U>>,
    first: int,
    second: int,
    n: int,
)
    requires
        consecutive(ticks),
        0 <= n <= ticks.len(),
        1 <= first <= ticks.len(),
        1 <= second <= ticks.len(),
        ticks.len() == first || ticks.len() == second,
        ticks[0].before.active.len() == 2,
        forall|i: int|
            0 <= i < first ==> ((#[trigger] ticks[i]).calls[0].done <==> i == first - 1),
        forall|i: int|
            0 <= i < second ==> ((#[trigger] ticks[i]).calls[if i < first {
                1int
            } else {
                0int
            }].done <==> i == second - 1),
    ensures
        two_held_upto(ticks, first, second, n),
    decreases n,
{
    if n > 0 {
        two_held_prefix(ticks, first, second, n - 1);
        let i = n - 1;
        let tick = ticks[i];
        if i > 0 {
            assert(tick.before == ticks[i - 1].after);
        }
        assert(tick.before.active.len() == left_of_two(i, first, second));
        polling_tick_calls_every_member(tick);
        let calls = tick.calls;
        let rest = calls.drop_last();
        if calls.len() == 2 {
            assert(calls[0].done <==> i == first - 1);
            assert(calls[1].done <==> i == second - 1);
            assert(rest.last() == calls[0]);
            assert(still_running(rest.drop_last()).len() == 0);
            assert(still_running(rest).len() == if calls[0].done {
                0int
            } else {
                1int
            });
            assert(calls.last() == calls[1]);
        } else {
            assert(calls.len() == 1);
            assert(calls.last() == calls[0]);
            assert(still_running(rest).len() == 0);
            if i < first {
                assert(calls[0].done <==> i == first - 1);
            } else {
                assert(calls[0].done <==> i == second - 1);
            }
        }
        assert(tick.after.active.len() == left_of_two(i + 1, first, second));
    }
}

/// Two commands in flight: the first is polled in every tick up to the one in
/// which it returns `true` (its `first`-th poll), and so is the second (its
/// `second`-th); a command that is done is not called again. Through all
/// these ticks the director polls and the cursor stays where it is. Draining
/// resumes only after the later of the two is done.
pub proof fn two_in_flight_hold_the_program<C: SceCommand<S, U>, S, U>(
    ticks: Seq<Tick<C, S, U>>,
    first: int,
    second: int,
)
    requires
        consecutive(ticks),
        1 <= first <= ticks.len(),
        1 <= second <= ticks.len(),
        ticks.len() == first || ticks.len() == second,
        ticks[0].before.active.len() == 2,
        forall|i: int|
            0 <= i < first ==> ((#[trigger] ticks[i]).calls[0].done <==> i == first - 1),
        forall|i: int|
            0 <= i < second ==> ((#[trigger] ticks[i]).calls[if i < first {
                1int
            } else {
                0int
            }].done <==> i == second - 1),
    ensures
        forall|i: int|
            0 <= i < ticks.len() ==> {
                &&& (#[trigger] ticks[i]).before.polling()
                &&& ticks[i].calls.len() == left_of_two(i, first, second)
                &&& ticks[i].after.cursor == ticks[0].before.cursor
            },
        forall|i: int| 0 <= i < ticks.len() - 1 ==> (#[trigger] ticks[i]).after.polling(),
        ticks.last().after.draining(),
{
    two_held_prefix(ticks, first, second, ticks.len() as int);
    assert(ticks.last() == ticks[ticks.len() - 1]);
}

} // verus!
