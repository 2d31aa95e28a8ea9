//! The director: one tick per rendered frame.

use crate::command::none_running_iff_all_done;
use crate::command::still_running;
use crate::command::threaded;
use crate::command::world_after;
use crate::command::Call;
use crate::command::SceCommand;
use crate::command::World;
use crate::environment::initial_bindings;
use crate::environment::run_mode_of;
use crate::environment::Environment;
use crate::program::SceCommands;
use crate::schedule::drained;
use crate::schedule::ticked;
use crate::schedule::DirectorView;
use vstd::pervasive::strictly_cloned;
use vstd::prelude::*;

verus! {

/// Runs a program of commands, one tick per rendered frame.
pub struct SceDirector<C> {
    commands: SceCommands<C>,
    state: Environment,
    active_commands: Vec<Box<C>>,
}

impl<C> View for SceDirector<C> {
    type V = DirectorView<C>;

    closed spec fn view(&self) -> DirectorView<C> {
        DirectorView {
            program: self.commands@.descriptors,
            cursor: self.commands@.cursor,
            active: instances(self.active_commands@),
            bindings: self.state@,
        }
    }
}

/// What the boxes hold.
spec fn instances<C>(boxes: Seq<Box<C>>) -> Seq<C> {
    Seq::new(boxes.len(), |i: int| *boxes[i])
}

impl<C> SceDirector<C> {
    /// A director at the start of the program `commands`, with nothing in
    /// flight and the continuation-mode flag at `1`.
    pub fn new(commands: Vec<C>) -> (director: Self)
        ensures
            director@ == (DirectorView {
                program: commands@,
                cursor: 0,
                active: Seq::empty(),
                bindings: initial_bindings(),
            }),
    {
        let director = SceDirector {
            commands: SceCommands::new(commands),
            state: Environment::new(),
            active_commands: Vec::new(),
        };
        assert(director@.active =~= Seq::empty());
        director
    }

    /// How many descriptors of the program have been instantiated.
    pub fn position(&self) -> (pc: usize)
        ensures
            pc == self@.cursor,
            pc <= self@.program.len(),
    {
        self.commands.position()
    }

    /// The number of descriptors in the program.
    pub fn program_len(&self) -> (n: usize)
        ensures
            n == self@.program.len(),
    {
        self.commands.len()
    }

    /// The number of commands in flight.
    pub fn in_flight(&self) -> (n: usize)
        ensures
            n == self@.active.len(),
    {
        self.active_commands.len()
    }

    /// Nothing is in flight and the program has no descriptor left: from
    /// here on a tick does nothing.
    pub fn is_idle(&self) -> (idle: bool)
        ensures
            idle == (self@.draining() && self@.exhausted()),
    {
        self.active_commands.len() == 0 && self.commands.position() >= self.commands.len()
    }

    /// The shared environment, to look at.
    pub fn state(&self) -> (state: &Environment)
        ensures
            state@ == self@.bindings,
    {
        &self.state
    }

    /// One tick: to be called once per rendered frame, with the host's scene,
    /// its frame of the user interface and the time since the previous frame
    /// (in seconds, as the bit pattern of a single-precision number).
    ///
    /// With nothing in flight, it instantiates the next descriptor, calls the
    /// instance once, and keeps it in flight if it is not done; then, as long
    /// as the continuation-mode flag is not `1` and a descriptor is left, it
    /// does the same with the next one. With commands in flight, it calls each
    /// of them once and drops those that are done.
    pub fn update<S, U>(&mut self, scene: &mut S, ui: &mut U, delta_sec_bits: u32) where
        C: SceCommand<S, U>,

        ensures
            exists|calls: Seq<Call<C, S, U>>|
                ticked(
                    old(self)@,
                    *old(scene),
                    *old(ui),
                    delta_sec_bits,
                    calls,
                    final(self)@,
                    *final(scene),
                    *final(ui),
                ),
            final(self)@.program == old(self)@.program,
            old(self)@.cursor <= final(self)@.cursor <= final(self)@.program.len(),
            old(self)@.polling() ==> final(self)@.cursor == old(self)@.cursor
                && final(self)@.active.len() <= old(self)@.active.len(),
            old(self)@.draining() ==> final(self)@.exhausted() || run_mode_of(
                final(self)@.bindings,
            ) == 1,
            old(self)@.draining() && !old(self)@.exhausted()
                ==> final(self)@.cursor > old(self)@.cursor,
            old(self)@.draining() && old(self)@.exhausted() ==> final(self)@ == old(self)@
                && *final(scene) == *old(scene) && *final(ui) == *old(ui),
    {
        proof {
            use_type_invariant(&self.commands);
            self.commands.cursor_stays_in_range();
        }
        let ghost before = self@;
        let ghost scene_before = *scene;
        let ghost ui_before = *ui;
        if self.active_commands.len() == 0 {
            self.drain(scene, ui, delta_sec_bits);
        } else {
            self.poll(scene, ui, delta_sec_bits);
        }
        proof {
            let calls = choose|calls: Seq<Call<C, S, U>>|
                ticked(
                    before,
                    scene_before,
                    ui_before,
                    delta_sec_bits,
                    calls,
                    self@,
                    *scene,
                    *ui,
                );
            none_running_iff_all_done(calls);
            if before.draining() && calls.len() == 0 {
                assert(self@.active =~= before.active);
            }
        }
    }

    /// A tick with nothing in flight: starts commands of the program.
    fn drain<S, U>(&mut self, scene: &mut S, ui: &mut U, delta_sec_bits: u32) where
        C: SceCommand<S, U>,

        requires
            old(self)@.draining(),
        ensures
            exists|calls: Seq<Call<C, S, U>>|
                ticked(
                    old(self)@,
                    *old(scene),
                    *old(ui),
                    delta_sec_bits,
                    calls,
                    final(self)@,
                    *final(scene),
                    *final(ui),
                ),
    {
        let ghost before = self@;
        let ghost start = World { scene: *scene, ui: *ui, bindings: self.state@ };
        let ghost mut calls: Seq<Call<C, S, U>> = Seq::empty();
        loop
            invariant_except_break
                forall|i: int| 0 <= i < calls.len() ==> (#[trigger] calls[i]).run_mode_after() != 1,
            invariant
                self.commands@.descriptors == before.program,
                self.commands@.cursor == before.cursor + calls.len(),
                calls.len() > 0 ==> before.cursor + calls.len() <= before.program.len(),
                threaded(calls, start),
                forall|i: int|
                    0 <= i < calls.len() ==> strictly_cloned(
                        before.program[before.cursor + i],
                        (#[trigger] calls[i]).command,
                    ) && calls[i].permitted(delta_sec_bits),
                (World { scene: *scene, ui: *ui, bindings: self.state@ }) == world_after(
                    calls,
                    start,
                ),
                self@.active == still_running(calls),
            ensures
                self@.program == before.program,
                self@.cursor == before.cursor + calls.len(),
                self@.active == still_running(calls),
                (World { scene: *scene, ui: *ui, bindings: self.state@ }) == world_after(
                    calls,
                    start,
                ),
                drained(before.program, before.cursor, start, delta_sec_bits, calls),
            decreases before.program.len() - self.commands@.cursor,
        {
            match self.commands.get_next() {
                None => {
                    break ;
                },
                Some(mut command) => {
                    let ghost handed = *command;
                    let ghost world = World { scene: *scene, ui: *ui, bindings: self.state@ };
                    let ghost earlier = calls;
                    let done = command.update(scene, ui, &mut self.state, delta_sec_bits);
                    proof {
                        calls = calls.push(
                            Call {
                                command: handed,
                                world,
                                command_after: *command,
                                world_after: World {
                                    scene: *scene,
                                    ui: *ui,
                                    bindings: self.state@,
                                },
                                done,
                            },
                        );
                        assert(calls.drop_last() =~= earlier);
                    }
                    if !done {
                        self.active_commands.push(command);
                    }
                    assert(self@.active =~= still_running(calls));
                },
            }
            if self.state.run_mode() == 1 {
                break ;
            }
        }
        assert(ticked(
            before,
            start.scene,
            start.ui,
            delta_sec_bits,
            calls,
            self@,
            *scene,
            *ui,
        ));
    }

    /// A tick with commands in flight: calls each of them once.
    fn poll<S, U>(&mut self, scene: &mut S, ui: &mut U, delta_sec_bits: u32) where
        C: SceCommand<S, U>,

        requires
            old(self)@.polling(),
        ensures
            exists|calls: Seq<Call<C, S, U>>|
                ticked(
                    old(self)@,
                    *old(scene),
                    *old(ui),
                    delta_sec_bits,
                    calls,
                    final(self)@,
                    *final(scene),
                    *final(ui),
                ),
    {
        let ghost before = self@;
        let ghost start = World { scene: *scene, ui: *ui, bindings: self.state@ };
        let ghost mut calls: Seq<Call<C, S, U>> = Seq::empty();
        let mut i: usize = 0;
        while i < self.active_commands.len()
            invariant
                self.commands@.descriptors == before.program,
                self.commands@.cursor == before.cursor,
                calls.len() <= before.active.len(),
                i == still_running(calls).len(),
                instances(self.active_commands@) == still_running(calls) + before.active.skip(
                    calls.len() as int,
                ),
                threaded(calls, start),
                forall|j: int|
                    0 <= j < calls.len() ==> (#[trigger] calls[j]).command == before.active[j]
                        && calls[j].permitted(delta_sec_bits),
                (World { scene: *scene, ui: *ui, bindings: self.state@ }) == world_after(
                    calls,
                    start,
                ),
            decreases self.active_commands.len() - i,
        {
            let ghost boxes = self.active_commands@;
            let ghost handed = *boxes[i as int];
            let ghost world = World { scene: *scene, ui: *ui, bindings: self.state@ };
            let ghost earlier = calls;
            assert(instances(boxes).len() == boxes.len());
            assert(handed == instances(boxes)[i as int]);
            let done = self.active_commands[i].update(scene, ui, &mut self.state, delta_sec_bits);
            let ghost polled_boxes = self.active_commands@;
            proof {
                calls = calls.push(
                    Call {
                        command: handed,
                        world,
                        command_after: *polled_boxes[i as int],
                        world_after: World { scene: *scene, ui: *ui, bindings: self.state@ },
                        done,
                    },
                );
                assert(calls.drop_last() =~= earlier);
                assert(instances(polled_boxes) =~= still_running(earlier).push(
                    *polled_boxes[i as int],
                ) + before.active.skip(calls.len() as int)) by {
                    assert forall|k: int| 0 <= k < polled_boxes.len() && k != i implies
                        *polled_boxes[k] == instances(boxes)[k] by {}
                }
            }
            if done {
                let _ = self.active_commands.remove(i);
                proof {
                    let left = self.active_commands@;
                    let expected = still_running(calls) + before.active.skip(calls.len() as int);
                    assert(instances(left).len() == expected.len());
                    assert forall|k: int| 0 <= k < left.len() implies instances(left)[k]
                        == expected[k] by {
                        if k < i {
                            assert(instances(polled_boxes)[k] == *polled_boxes[k]);
                        } else {
                            assert(instances(polled_boxes)[k + 1] == *polled_boxes[k + 1]);
                        }
                    }
                    assert(instances(left) =~= expected);
                }
            } else {
                i += 1;
            }
        }
        assert(self@.active =~= still_running(calls));
        assert(ticked(
            before,
            start.scene,
            start.ui,
            delta_sec_bits,
            calls,
            self@,
            *scene,
            *ui,
        ));
    }
}

} // verus!
