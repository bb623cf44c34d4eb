//! The backtracking search for a way to the exit.

use vstd::prelude::*;
use rand::rngs::StdRng;
use crate::ai_cache::{presented, tracked_actuators, tracked_movables, AiStatesCache};
use crate::components::Cardinal;
use crate::map::TileMap;
use crate::player::{
    actuations_upto, lemma_actuations_fit, lemma_steps_fit, lone_player, steps_upto, try_actuate,
    try_move_player,
};
use crate::systems::map_indexing::{content_indexed, lemma_content_indexed_in};
use crate::systems::{settle, settled};
use crate::turn_history::{
    apply_turn, lemma_unwind_alike, lemma_unwind_played, lemma_unwind_twice, turn_fits, unwind,
    Action, Ledger, TurnState, TurnsHistory,
};
use crate::world::{alike, lemma_alike_core, lemma_alike_transitive, same_core, EntityData, World};
use self::candidates::{goals, planned_upto};
use self::shuffle::{lemma_shuffled_valid, seeded_rng, shuffle_candidates};

pub mod candidates;
pub mod shuffle;

verus! {

/// What the player sets out to do.
#[derive(Clone, Copy, Debug, PartialEq)]
pub enum AiAction {
    /// Walk to the exit on this tile.
    ExitTo(i32, i32),
    /// Push what stands on this tile in this direction.
    PushAt(i32, i32, Cardinal),
    /// Actuate what stands on this tile.
    ActivateAt(i32, i32),
}

/// One turn of the player.
#[derive(Clone, Copy, Debug, PartialEq)]
pub enum AiSubAction {
    /// Step in this direction, pushing what is in the way.
    Move(Cardinal),
    /// Actuate what stands around the player.
    Actuate,
}

/// True if every step of the turns is a direction of travel.
pub open spec fn subs_valid(subs: Seq<AiSubAction>) -> bool {
    forall|k: int| 0 <= k < subs.len() ==> ((#[trigger] subs[k]) matches AiSubAction::Move(c) ==> c.is_axis())
}

/// A goal with the turns that reach it.
pub type Candidate = (AiAction, Vec<AiSubAction>);

/// True if the turns of every candidate step in directions of travel
/// only.
pub open spec fn candidates_valid(list: Seq<Candidate>) -> bool {
    forall|i: int| 0 <= i < list.len() ==> subs_valid((#[trigger] list[i]).1@)
}

/// A counter one higher, unless it is at its maximum.
pub open spec fn bumped(n: u64) -> u64 {
    if n < u64::MAX {
        (n + 1) as u64
    } else {
        n
    }
}

fn bump(n: u64) -> (r: u64)
    ensures
        r == bumped(n),
{
    if n < u64::MAX {
        n + 1
    } else {
        n
    }
}

impl AiSubAction {
    /// True unless the turn steps in a direction that is none of travel.
    pub open spec fn valid(self) -> bool {
        self matches AiSubAction::Move(c) ==> c.is_axis()
    }

    /// The actions that the turn consists of in the given world.
    pub open spec fn actions(self, world: &World, map: &TileMap) -> Seq<Action> {
        match self {
            AiSubAction::Move(c) => steps_upto(world, map, world@.len() as int, c),
            AiSubAction::Actuate => actuations_upto(world, map, world@.len() as int),
        }
    }

    /// True if the turn changes something in the given world and the log
    /// accepts it.
    pub open spec fn playable(self, world: &World, map: &TileMap, log: &TurnsHistory) -> bool {
        self.actions(world, map).len() > 0 && log.can_play(world, self.actions(world, map))
    }

    /// Plays the turn if it changes anything and the log accepts it, and
    /// answers whether it did.
    pub fn play(&self, world: &mut World, map: &TileMap, history: &mut TurnsHistory) -> (ok: bool)
        requires
            self.valid(),
            map.wf(),
            map.content_in(old(world)),
            old(history).wf(old(world)),
        ensures
            ok == self.playable(old(world), map, old(history)),
            ok ==> final(world)@ == apply_turn(old(world)@, self.actions(old(world), map))
                && final(history)@ == old(history)@.played(self.actions(old(world), map)),
            !ok ==> final(world)@ == old(world)@ && *final(history) == *old(history),
            old(world).same_but_moved(final(world)),
            final(history).wf(final(world)),
    {
        let actions = match self {
            AiSubAction::Move(cardinal) => try_move_player(*cardinal, world, map),
            AiSubAction::Actuate => try_actuate(world, map),
        };
        if actions.len() > 0 && history.accepts(world, &actions) {
            history.play_turn(world, actions);
            true
        } else {
            assert(crate::world::moved_only(world@, world@));
            false
        }
    }
}

/// One level of the search: the step at which the candidates were listed,
/// the candidates not tried yet, the next one last, and, for the proofs,
/// the world in which they were listed.
pub struct Frame {
    pub step: i32,
    pub candidates: Vec<Candidate>,
    pub origin: Ghost<Seq<EntityData>>,
}

/// The levels of the search, the deepest last.
pub struct AiHistory {
    pub possibilities: Vec<Frame>,
}

/// What the driver asks of the controller in a tick.
#[derive(Clone, Copy, Debug, PartialEq, Eq, Structural)]
pub enum ControlSignal {
    Nothing,
    TogglePause,
    ToggleDisplay,
    Abort,
}

/// Where the search stands after a tick.
#[derive(Clone, Copy, Debug, PartialEq, Eq, Structural)]
pub enum SearchStatus {
    Searching,
    Paused,
    /// The search is over and has reached an exit at least once.
    Solved,
    /// The search is over and has never reached an exit.
    Exhausted,
}

/// The search controller.
pub struct AI {
    /// Whether the driver is to display the search.
    pub show: bool,
    /// Branches given up: nothing left to try, a turn that changed
    /// nothing, a block stuck for good, a dead player.
    pub dead_ends: u64,
    /// Times the player reached an exit.
    pub solutions: u64,
    /// Worlds met again.
    pub duplicates: u64,
    /// Times the player died. The candidates are not meant to lead there:
    /// a driver may take any death for a fault.
    pub deaths: u64,
    pub paused: bool,
    pub finished: bool,
    /// Whether the search is over as soon as the player reaches an exit.
    /// Otherwise it goes on until nothing is left to try.
    pub stop_on_solution: bool,
    /// Search steps since the search was last resumed.
    pub searches: u64,
    pub seen: AiStatesCache,
    pub history: AiHistory,
    pub tested_action: AiAction,
    /// The turns of the candidate under test that are still to play.
    pub sub_actions: Vec<AiSubAction>,
    /// False once the branch under test has failed.
    pub sub_actions_success: bool,
    /// The step counter of the log when the search began.
    pub start_step: Option<i32>,
    /// The world in which the search began.
    pub start_world: Ghost<Seq<EntityData>>,
    pub rng: StdRng,
}

/// The frames without the empty ones at the end.
pub open spec fn trimmed(frames: Seq<Frame>) -> Seq<Frame>
    decreases frames.len(),
{
    if frames.len() > 0 && frames.last().candidates@.len() == 0 {
        trimmed(frames.drop_last())
    } else {
        frames
    }
}

/// True if candidates were found, and at least one.
pub open spec fn some_found(found: Option<Vec<Candidate>>) -> bool {
    found is Some && found->0@.len() > 0
}

/// The natural number `n`, or 0 if `n` is negative.
pub open spec fn natural(n: int) -> nat {
    if n > 0 {
        n as nat
    } else {
        0
    }
}

/// True if the two lists hold the same candidates, each as often, or
/// neither is a list.
pub open spec fn reordered(found: Option<Vec<Candidate>>, ordered: Option<Vec<Candidate>>) -> bool {
    match found {
        Some(list) => ordered is Some && ordered->0@.to_multiset() == list@.to_multiset(),
        None => ordered is None,
    }
}

impl AI {
    /// The frames of the search, the deepest last.
    pub open spec fn frames(&self) -> Seq<Frame> {
        self.history.possibilities@
    }

    /// The step at which the search began, or `fallback` before it has
    /// begun.
    pub open spec fn origin(&self, fallback: i32) -> i32 {
        match self.start_step {
            Some(step) => step,
            None => fallback,
        }
    }

    /// What the controller reports: a finished search is solved if it has
    /// reached an exit and exhausted if not; an unfinished one is paused or
    /// searching.
    pub open spec fn status(&self) -> SearchStatus {
        if self.finished {
            if self.solutions > 0 {
                SearchStatus::Solved
            } else {
                SearchStatus::Exhausted
            }
        } else if self.paused {
            SearchStatus::Paused
        } else {
            SearchStatus::Searching
        }
    }

    /// The controller fits the world and the log: the cache tracks
    /// entities of the world; every pending or listed turn steps in a
    /// direction of travel; and the frames were pushed at steps that lie
    /// between the start of the search and the step counter of the log,
    /// deeper frames later.
    pub open spec fn wf(&self, world: &World, log: &TurnsHistory) -> bool {
        &&& self.seen.fits(world)
        &&& subs_valid(self.sub_actions@)
        &&& forall|f: int|
            0 <= f < self.frames().len() ==> candidates_valid((#[trigger] self.frames()[f]).candidates@)
                && self.origin(0) <= self.frames()[f].step <= log.steps
        &&& forall|f: int, g: int|
            0 <= f <= g < self.frames().len() ==> (#[trigger] self.frames()[f]).step
                <= (#[trigger] self.frames()[g]).step
        &&& 0 <= self.origin(0) <= log.steps
        &&& self.start_step is None ==> self.frames().len() == 0
        &&& lone_player(world@) ==> self.on_trail(world, log)
    }

    /// The log leads back to the worlds that the search has been in:
    /// taking back the turns played since a frame was pushed gives a world
    /// like the one in which it was pushed, and taking back the turns played
    /// since the search began gives a world like the one in which it began.
    pub open spec fn on_trail(&self, world: &World, log: &TurnsHistory) -> bool {
        &&& forall|f: int|
            0 <= f < self.frames().len() ==> alike(
                unwind(world@, log@.turns, natural(log.steps - (#[trigger] self.frames()[f]).step)),
                self.frames()[f].origin@,
            )
        &&& self.start_step is Some ==> alike(
            unwind(world@, log@.turns, natural(log.steps - self.start_step->0)),
            self.start_world@,
        )
    }

    /// How many turns a failed branch takes back: down to the step of the
    /// deepest frame that still has a candidate, or to the start of the
    /// search if there is none.
    pub open spec fn setback(&self, log: &TurnsHistory) -> nat {
        let left = trimmed(self.frames());
        if left.len() == 0 {
            natural(log.steps - self.origin(log.steps))
        } else {
            natural(log.steps - left.last().step)
        }
    }

    /// The step that a failed branch goes back to: that of the deepest
    /// frame, or the start of the search if no frame is left.
    pub open spec fn target(&self, log: &TurnsHistory) -> i32 {
        if self.frames().len() == 0 {
            self.origin(log.steps)
        } else {
            self.frames().last().step
        }
    }
}

impl AI {
    /// What [`AI::get_next_runstate`] makes of the controller.
    pub open spec fn signalled(self, signal: ControlSignal, after: AI) -> bool {
        after == (AI {
            paused: self.paused != (signal == ControlSignal::TogglePause),
            show: self.show != (signal == ControlSignal::ToggleDisplay),
            searches: if signal == ControlSignal::TogglePause && self.paused {
                0
            } else {
                self.searches
            },
            ..self
        })
    }

    /// What [`AI::end_turn`] makes of the controller after a turn that
    /// ended in `state`.
    pub open spec fn turn_ended(self, state: TurnState, after: AI) -> bool {
        if self.paused || state == TurnState::Running {
            after == self
        } else {
            &&& after.sub_actions@ == Seq::<AiSubAction>::empty()
            &&& after == (AI {
                dead_ends: if state == TurnState::PlayerDead {
                    bumped(self.dead_ends)
                } else {
                    self.dead_ends
                },
                deaths: if state == TurnState::PlayerDead {
                    bumped(self.deaths)
                } else {
                    self.deaths
                },
                solutions: if state == TurnState::PlayerAtExit {
                    bumped(self.solutions)
                } else {
                    self.solutions
                },
                paused: state == TurnState::PlayerAtExit && self.stop_on_solution,
                finished: self.finished || (state == TurnState::PlayerAtExit
                    && self.stop_on_solution),
                sub_actions_success: false,
                sub_actions: after.sub_actions,
                ..self
            })
        }
    }

    /// What [`AI::survey`] makes of the controller, and what it finds.
    pub open spec fn surveyed(
        self,
        world: &World,
        map: &TileMap,
        log: &TurnsHistory,
        after: AI,
        found: Option<Vec<Candidate>>,
    ) -> bool {
        let seen_before = presented(self.seen.recorded(), after.seen.key_of(world)).0;
        let stuck = exists|i: int| 0 <= i < world@.len() && #[trigger] map.stuck_block(world, i);
        let open = self.sub_actions_success && !seen_before && !stuck;
        &&& after.seen.movables() == (if self.seen.recorded().len() == 0 {
            tracked_movables(world@)
        } else {
            self.seen.movables()
        })
        &&& after.seen.actuators() == (if self.seen.recorded().len() == 0 {
            tracked_actuators(world@)
        } else {
            self.seen.actuators()
        })
        &&& after.seen.recorded() == presented(self.seen.recorded(), after.seen.key_of(world)).1
        &&& after.start_world@ == (if self.start_step is None {
            world@
        } else {
            self.start_world@
        })
        &&& after == (AI {
            seen: after.seen,
            start_world: after.start_world,
            searches: bumped(self.searches),
            start_step: Some(self.origin(log.steps)),
            duplicates: if seen_before {
                bumped(self.duplicates)
            } else {
                self.duplicates
            },
            dead_ends: if self.sub_actions_success && !seen_before && stuck {
                bumped(self.dead_ends)
            } else {
                self.dead_ends
            },
            sub_actions_success: open,
            ..self
        })
        &&& found is Some <==> open
        &&& found is Some ==> planned_upto(
            world@,
            map,
            goals(world@, map),
            world@.len() as int,
            found->0@,
        )
    }

    /// What [`AI::pick_next`] makes of the controller, the world, the map
    /// and the log, given the candidates `found`.
    pub open spec fn picked(
        self,
        world0: &World,
        map0: &TileMap,
        log0: &TurnsHistory,
        found: Option<Vec<Candidate>>,
        after: AI,
        world1: &World,
        map1: &TileMap,
        log1: &TurnsHistory,
    ) -> bool {
        if some_found(found) {
            &&& world1@ == world0@
            &&& *map1 == *map0
            &&& *log1 == *log0
            &&& after == (AI {
                history: after.history,
                tested_action: found->0@.last().0,
                sub_actions: found->0@.last().1,
                ..self
            })
            &&& after.frames().len() == self.frames().len() + 1
            &&& forall|f: int| 0 <= f < self.frames().len() ==> after.frames()[f] == self.frames()[f]
            &&& after.frames().last().step == log0.steps
            &&& after.frames().last().origin@ == world0@
            &&& after.frames().last().candidates@ == found->0@.drop_last()
        } else {
            let k = self.setback(log0);
            let left = trimmed(self.frames());
            &&& log1@ == (Ledger { state: log1.state, ..log0@.rewound(k) })
            &&& settled(
                unwind(world0@, log0@.turns, k),
                log0@.rewound(k).state,
                world1,
                map1,
                log1.state,
            )
            &&& map1.same_grid(map0)
            &&& after == (AI {
                history: after.history,
                tested_action: after.tested_action,
                sub_actions: after.sub_actions,
                dead_ends: if found is Some {
                    bumped(self.dead_ends)
                } else {
                    self.dead_ends
                },
                sub_actions_success: false,
                paused: self.paused || left.len() == 0,
                finished: self.finished || left.len() == 0,
                ..self
            })
            &&& after.frames().len() == left.len()
            &&& left.len() == 0 ==> after.tested_action == self.tested_action && after.sub_actions
                == self.sub_actions
            &&& left.len() > 0 ==> {
                &&& forall|f: int| 0 <= f < left.len() - 1 ==> after.frames()[f] == left[f]
                &&& after.frames().last().step == left.last().step
                &&& after.frames().last().origin == left.last().origin
                &&& after.frames().last().candidates@ == left.last().candidates@.drop_last()
                &&& after.tested_action == left.last().candidates@.last().0
                &&& after.sub_actions == left.last().candidates@.last().1
            }
        }
    }

    /// What [`AI::play_pending`] makes of the controller, the world, the
    /// map and the log.
    pub open spec fn played(
        self,
        world0: &World,
        map0: &TileMap,
        log0: &TurnsHistory,
        after: AI,
        world1: &World,
        map1: &TileMap,
        log1: &TurnsHistory,
    ) -> bool {
        let sub = self.sub_actions@[0];
        let turn = sub.actions(world0, map0);
        if sub.playable(world0, map0, log0) {
            &&& log1@ == (Ledger { state: log1.state, ..log0@.played(turn) })
            &&& settled(apply_turn(world0@, turn), log0.state, world1, map1, log1.state)
            &&& map1.same_grid(map0)
            &&& after == (AI {
                dead_ends: if log1.state == TurnState::PlayerDead {
                    bumped(self.dead_ends)
                } else {
                    self.dead_ends
                },
                deaths: if log1.state == TurnState::PlayerDead {
                    bumped(self.deaths)
                } else {
                    self.deaths
                },
                solutions: if log1.state == TurnState::PlayerAtExit {
                    bumped(self.solutions)
                } else {
                    self.solutions
                },
                paused: self.paused || (log1.state == TurnState::PlayerAtExit
                    && self.stop_on_solution),
                finished: self.finished || (log1.state == TurnState::PlayerAtExit
                    && self.stop_on_solution),
                sub_actions_success: log1.state == TurnState::Running,
                sub_actions: after.sub_actions,
                ..self
            })
            &&& after.sub_actions@ == (if log1.state == TurnState::Running {
                self.sub_actions@.drop_first()
            } else {
                Seq::<AiSubAction>::empty()
            })
        } else {
            &&& world1@ == world0@
            &&& *map1 == *map0
            &&& *log1 == *log0
            &&& after == (AI {
                dead_ends: bumped(self.dead_ends),
                sub_actions_success: false,
                sub_actions: after.sub_actions,
                ..self
            })
            &&& after.sub_actions@ == Seq::<AiSubAction>::empty()
        }
    }

    /// What a search step makes of the controller, the world, the map and
    /// the log: the controller surveys the world, which leaves it as
    /// `looked` and finds `found`; the candidates are reordered, which
    /// leaves the generator as `rng`; and the controller picks the next
    /// candidate from them.
    pub open spec fn searched(
        self,
        world0: &World,
        map0: &TileMap,
        log0: &TurnsHistory,
        looked: AI,
        found: Option<Vec<Candidate>>,
        ordered: Option<Vec<Candidate>>,
        rng: StdRng,
        after: AI,
        world1: &World,
        map1: &TileMap,
        log1: &TurnsHistory,
    ) -> bool {
        &&& self.surveyed(world0, map0, log0, looked, found)
        &&& reordered(found, ordered)
        &&& found is None ==> rng == looked.rng
        &&& (AI { rng, ..looked }).picked(world0, map0, log0, ordered, after, world1, map1, log1)
    }

    /// What a tick makes of the controller, the world, the map and the
    /// log: a paused controller does nothing; one with pending turns
    /// plays the next of them; any other takes a search step, in which the
    /// order of the candidates is any that the generator may give.
    /// Afterwards the signal is taken.
    pub open spec fn ticked(
        self,
        world0: &World,
        map0: &TileMap,
        log0: &TurnsHistory,
        signal: ControlSignal,
        after: AI,
        world1: &World,
        map1: &TileMap,
        log1: &TurnsHistory,
    ) -> bool {
        exists|worked: AI|
            #[trigger] worked.signalled(signal, after) && (if self.paused {
                worked == self && world1@ == world0@ && *map1 == *map0 && *log1 == *log0
            } else if self.sub_actions@.len() > 0 {
                self.played(world0, map0, log0, worked, world1, map1, log1)
            } else {
                exists|
                    looked: AI,
                    found: Option<Vec<Candidate>>,
                    ordered: Option<Vec<Candidate>>,
                    rng: StdRng,
                |
                    #[trigger] self.searched(
                        world0,
                        map0,
                        log0,
                        looked,
                        found,
                        ordered,
                        rng,
                        worked,
                        world1,
                        map1,
                        log1,
                    )
            })
    }
}

impl AI {
    /// A paused controller that displays the search and has not begun it.
    /// The seed fixes the order in which candidates are tried.
    pub fn new(seed: u64) -> (ai: AI)
        ensures
            ai.show,
            ai.paused,
            !ai.finished,
            ai.dead_ends == 0,
            ai.solutions == 0,
            ai.duplicates == 0,
            ai.deaths == 0,
            !ai.stop_on_solution,
            ai.searches == 0,
            ai.seen.recorded() == Seq::<crate::ai_cache::SnapshotView>::empty(),
            ai.frames() == Seq::<Frame>::empty(),
            ai.sub_actions@ == Seq::<AiSubAction>::empty(),
            ai.sub_actions_success,
            ai.start_step is None,
            ai.status() == SearchStatus::Paused,
            forall|world: &World, log: &TurnsHistory| log.wf(world) ==> ai.wf(world, log),
    {
        let ai = AI {
            show: true,
            dead_ends: 0,
            solutions: 0,
            duplicates: 0,
            deaths: 0,
            paused: true,
            finished: false,
            stop_on_solution: false,
            searches: 0,
            seen: AiStatesCache::new(),
            history: AiHistory { possibilities: Vec::new() },
            tested_action: AiAction::ExitTo(0, 0),
            sub_actions: Vec::new(),
            sub_actions_success: true,
            start_step: None,
            start_world: Ghost(Seq::empty()),
            rng: seeded_rng(seed),
        };
        ai
    }

    /// The status of the search.
    pub fn get_status(&self) -> (status: SearchStatus)
        ensures
            status == self.status(),
    {
        if self.finished {
            if self.solutions > 0 {
                SearchStatus::Solved
            } else {
                SearchStatus::Exhausted
            }
        } else if self.paused {
            SearchStatus::Paused
        } else {
            SearchStatus::Searching
        }
    }

    /// Takes the driver's signal and reports the status: a pause signal
    /// pauses or resumes the search, and resuming starts the count of
    /// search steps afresh; a display signal switches the display on or
    /// off; the other signals change nothing.
    pub fn get_next_runstate(&mut self, signal: ControlSignal) -> (status: SearchStatus)
        ensures
            old(self).signalled(signal, *final(self)),
            status == final(self).status(),
    {
        match signal {
            ControlSignal::TogglePause => {
                self.paused = !self.paused;
                if !self.paused {
                    self.searches = 0;
                }
            },
            ControlSignal::ToggleDisplay => {
                self.show = !self.show;
            },
            _ => {},
        }
        self.get_status()
    }

    /// Takes note of how a turn ended, unless the search is paused: a dead
    /// player is one more death and one more dead end, a player at the exit
    /// one more solution; either way the branch under test is over and its
    /// remaining turns are dropped. A solution ends the search if the
    /// controller is set to stop there.
    pub fn end_turn(&mut self, log: &TurnsHistory)
        ensures
            old(self).turn_ended(log.state, *final(self)),
    {
        if self.paused {
            return ;
        }
        match log.state {
            TurnState::PlayerDead => {
                self.dead_ends = bump(self.dead_ends);
                self.deaths = bump(self.deaths);
                self.sub_actions_success = false;
                self.sub_actions.clear();
            },
            TurnState::PlayerAtExit => {
                self.solutions = bump(self.solutions);
                self.sub_actions_success = false;
                self.sub_actions.clear();
                if self.stop_on_solution {
                    self.paused = true;
                    self.finished = true;
                }
            },
            TurnState::Running => {},
        }
    }
}

impl AI {
    /// The first half of a search step: counts the step, presents the
    /// world to the cache, and unless the branch has failed, or the world
    /// was seen before or can no longer be solved, lists the candidates of
    /// the player. `None` means that the branch has failed.
    pub fn survey(&mut self, world: &World, map: &TileMap, log: &TurnsHistory) -> (found: Option<
        Vec<Candidate>,
    >)
        requires
            old(self).wf(world, log),
            log.wf(world),
            world.wf(),
            map.wf(),
            map.content_in(world),
        ensures
            final(self).wf(world, log),
            old(self).surveyed(world, map, log, *final(self), found),
            found matches Some(list) ==> candidates_valid(list@),
    {
        self.searches = bump(self.searches);
        if self.start_step.is_none() {
            self.start_step = Some(log.steps);
            self.start_world = Ghost(world@);
            proof {
                world.lemma_alike(world);
            }
        }
        assert(self.frames() == old(self).frames());
        assert(0 <= self.origin(0) <= log.steps);
        assert(self.wf(world, log));
        if self.seen.has_seen(world) {
            self.sub_actions_success = false;
            self.duplicates = bump(self.duplicates);
        }
        if self.sub_actions_success {
            if map.is_impossible(world) {
                self.dead_ends = bump(self.dead_ends);
                self.sub_actions_success = false;
            }
        }
        if self.sub_actions_success {
            Some(self.find_possible_actions(world, map))
        } else {
            None
        }
    }
}

/// Worlds that hold the same entities have a lone player or not alike.
proof fn lemma_lone_player_kept(a: &World, b: &World)
    requires
        a.same_entities(b),
    ensures
        lone_player(a@) == lone_player(b@),
{
    if lone_player(a@) {
        assert forall|i: int, j: int|
            0 <= i < b@.len() && 0 <= j < b@.len() && (#[trigger] b@[i]).player is Some
                && (#[trigger] b@[j]).player is Some implies i == j by {
            assert(a@[i].same_kind(b@[i]));
            assert(a@[j].same_kind(b@[j]));
        }
    }
    if lone_player(b@) {
        assert forall|i: int, j: int|
            0 <= i < a@.len() && 0 <= j < a@.len() && (#[trigger] a@[i]).player is Some
                && (#[trigger] a@[j]).player is Some implies i == j by {
            assert(a@[i].same_kind(b@[i]));
            assert(a@[j].same_kind(b@[j]));
        }
    }
}

impl AI {
    /// Taking `k` turns back and bringing the derived state up to date
    /// keeps the search on its trail.
    proof fn lemma_trail_after_undo(
        &self,
        before: &World,
        unwound: &World,
        after: &World,
        log0: &TurnsHistory,
        log1: &TurnsHistory,
        k: nat,
    )
        requires
            self.on_trail(before, log0),
            log0.wf(before),
            before.wf(),
            unwound.wf(),
            after.wf(),
            k <= log0@.turns.len(),
            unwound@ == unwind(before@, log0@.turns, k),
            same_core(unwound@, after@),
            after@.len() == before@.len(),
            log1@.turns == log0@.turns.take(log0@.turns.len() - k),
            log1.steps == log0.steps - k,
            forall|f: int| 0 <= f < self.frames().len() ==> 0 <= (#[trigger] self.frames()[f]).step
                <= log1.steps,
            self.start_step is Some ==> 0 <= self.start_step->0 <= log1.steps,
        ensures
            self.on_trail(after, log1),
    {
        let turns0 = log0@.turns;
        let turns1 = log1@.turns;
        unwound.lemma_alike(after);
        lemma_alike_core(unwound@, after@);
        assert forall|t: int| 0 <= t < turns1.len() implies crate::turn_history::turn_valid(
            after@.len() as int,
            #[trigger] turns1[t],
        ) by {
            assert(turns1[t] == turns0[t]);
            assert(crate::turn_history::turn_valid(before@.len() as int, log0@.turns[t]));
        }
        assert forall|f: int| 0 <= f < self.frames().len() implies alike(
            unwind(after@, turns1, natural(log1.steps - (#[trigger] self.frames()[f]).step)),
            self.frames()[f].origin@,
        ) by {
            let j = natural(log1.steps - self.frames()[f].step);
            lemma_unwind_twice(before@, turns0, k, j);
            lemma_unwind_alike(after@, unwound@, turns1, j);
            lemma_alike_transitive(
                unwind(after@, turns1, j),
                unwind(unwound@, turns1, j),
                self.frames()[f].origin@,
            );
        }
        if self.start_step is Some {
            let j = natural(log1.steps - self.start_step->0);
            lemma_unwind_twice(before@, turns0, k, j);
            lemma_unwind_alike(after@, unwound@, turns1, j);
            lemma_alike_transitive(
                unwind(after@, turns1, j),
                unwind(unwound@, turns1, j),
                self.start_world@,
            );
        }
    }

    /// Playing a turn that fits the world and bringing the derived state
    /// up to date keeps the search on its trail.
    proof fn lemma_trail_after_play(
        &self,
        before: &World,
        played: &World,
        after: &World,
        log0: &TurnsHistory,
        log1: &TurnsHistory,
        turn: Seq<Action>,
    )
        requires
            self.on_trail(before, log0),
            log0.wf(before),
            before.wf(),
            played.wf(),
            after.wf(),
            turn_fits(before@, turn),
            crate::turn_history::turn_valid(before@.len() as int, turn),
            played@ == apply_turn(before@, turn),
            same_core(played@, after@),
            after@.len() == before@.len(),
            log1@.turns == log0@.turns.push(turn),
            log1.steps == log0.steps + 1,
            forall|f: int| 0 <= f < self.frames().len() ==> 0 <= (#[trigger] self.frames()[f]).step
                <= log0.steps,
            self.start_step is Some ==> 0 <= self.start_step->0 <= log0.steps,
        ensures
            self.on_trail(after, log1),
    {
        let turns0 = log0@.turns;
        let turns1 = log1@.turns;
        played.lemma_alike(after);
        lemma_alike_core(played@, after@);
        assert forall|t: int| 0 <= t < turns1.len() implies crate::turn_history::turn_valid(
            after@.len() as int,
            #[trigger] turns1[t],
        ) by {
            if t < turns0.len() {
                assert(turns1[t] == turns0[t]);
                assert(crate::turn_history::turn_valid(before@.len() as int, log0@.turns[t]));
            }
        }
        assert forall|f: int| 0 <= f < self.frames().len() implies alike(
            unwind(after@, turns1, natural(log1.steps - (#[trigger] self.frames()[f]).step)),
            self.frames()[f].origin@,
        ) by {
            let k = natural(log0.steps - self.frames()[f].step);
            lemma_unwind_played(before@, turns0, turn, k);
            lemma_unwind_alike(after@, played@, turns1, k + 1);
            lemma_alike_transitive(
                unwind(after@, turns1, k + 1),
                unwind(played@, turns1, k + 1),
                self.frames()[f].origin@,
            );
        }
        if self.start_step is Some {
            let k = natural(log0.steps - self.start_step->0);
            lemma_unwind_played(before@, turns0, turn, k);
            lemma_unwind_alike(after@, played@, turns1, k + 1);
            lemma_alike_transitive(
                unwind(after@, turns1, k + 1),
                unwind(played@, turns1, k + 1),
                self.start_world@,
            );
        }
    }

    /// The second half of a search step, given the candidates of the
    /// player in the order in which they are to be tried, the first to try
    /// last, or `None` if the branch has failed.
    ///
    /// If there are candidates, they become a new frame. If there are
    /// none, the branch is a dead end. If the branch has failed or is a
    /// dead end, the empty frames at the end are dropped, the turns played
    /// since the deepest frame that is left are taken back, and the
    /// derived state is brought up to date; if no frame is left, the turns
    /// played since the start of the search are taken back, and the search
    /// is over. Unless the search is over, the next candidate of the
    /// deepest frame is taken off it and becomes the one under test.
    ///
    /// In a world with at most one player, going back leaves every entity
    /// on the tile on which it stood, and every reflector oriented as it
    /// was, when the frame was pushed or the search began.
    pub fn pick_next(
        &mut self,
        world: &mut World,
        map: &mut TileMap,
        log: &mut TurnsHistory,
        found: Option<Vec<Candidate>>,
    )
        requires
            old(self).wf(old(world), old(log)),
            old(self).start_step is Some,
            old(log).wf(old(world)),
            old(world).wf(),
            old(map).wf(),
            content_indexed(old(map), old(world)@),
            found matches Some(list) ==> candidates_valid(list@),
        ensures
            final(self).wf(final(world), final(log)),
            final(log).wf(final(world)),
            final(world).wf(),
            old(world).same_entities(final(world)),
            final(map).wf(),
            final(map).same_grid(old(map)),
            content_indexed(final(map), final(world)@),
            old(self).picked(
                old(world),
                old(map),
                old(log),
                found,
                *final(self),
                final(world),
                final(map),
                final(log),
            ),
            lone_player(old(world)@) && !some_found(found) ==> same_core(
                final(world)@,
                if final(self).frames().len() == 0 {
                    final(self).start_world@
                } else {
                    final(self).frames().last().origin@
                },
            ),
    {
        let ghost world0 = *world;
        match found {
            Some(list) => {
                if list.len() > 0 {
                    self.push_frame(world, log, list);
                    self.take_candidate(world, log);
                    return ;
                }
                self.dead_ends = bump(self.dead_ends);
                assert(self.frames() == old(self).frames());
            },
            None => {},
        }
        self.sub_actions_success = false;
        assert(self.frames() == old(self).frames());
        assert(self.wf(world, log));
        self.drop_empty_frames(world, log);
        self.backtrack(world, map, log);
        if self.history.possibilities.len() == 0 {
            self.paused = true;
            self.finished = true;
            assert(self.frames().len() == 0);
            return ;
        }
        self.take_candidate(world, log);
        proof {
            lemma_lone_player_kept(&world0, world);
        }
    }

    /// Makes a new frame of the candidates.
    fn push_frame(&mut self, world: &World, log: &TurnsHistory, list: Vec<Candidate>)
        requires
            old(self).wf(world, log),
            old(self).start_step is Some,
            log.wf(world),
            world.wf(),
            candidates_valid(list@),
            list@.len() > 0,
        ensures
            final(self).wf(world, log),
            *final(self) == (AI { history: final(self).history, ..*old(self) }),
            final(self).frames().len() == old(self).frames().len() + 1,
            forall|f: int|
                0 <= f < old(self).frames().len() ==> final(self).frames()[f] == old(self).frames()[f],
            final(self).frames().last().step == log.steps,
            final(self).frames().last().origin@ == world@,
            final(self).frames().last().candidates == list,
    {
        let ghost frames0 = self.frames();
        self.history.possibilities.push(
            Frame { step: log.steps, candidates: list, origin: Ghost(world@) },
        );
        proof {
            assert forall|f: int| 0 <= f < self.frames().len() implies candidates_valid(
                (#[trigger] self.frames()[f]).candidates@,
            ) && self.origin(0) <= self.frames()[f].step <= log.steps by {
                if f < frames0.len() {
                    assert(self.frames()[f] == frames0[f]);
                }
            }
            assert forall|f: int, g: int| 0 <= f <= g < self.frames().len() implies (#[trigger] self.frames()[f]).step
                <= (#[trigger] self.frames()[g]).step by {
                if g < frames0.len() {
                    assert(self.frames()[f] == frames0[f]);
                    assert(self.frames()[g] == frames0[g]);
                } else if f < frames0.len() {
                    assert(self.frames()[f] == frames0[f]);
                }
            }
            if lone_player(world@) {
                world.lemma_alike(world);
                assert forall|f: int| 0 <= f < self.frames().len() implies alike(
                    unwind(world@, log@.turns, natural(log.steps - (#[trigger] self.frames()[f]).step)),
                    self.frames()[f].origin@,
                ) by {
                    if f < frames0.len() {
                        assert(self.frames()[f] == frames0[f]);
                    }
                }
            }
        }
    }

    /// Drops the frames at the end that have no candidate left.
    fn drop_empty_frames(&mut self, world: &World, log: &TurnsHistory)
        requires
            old(self).wf(world, log),
        ensures
            final(self).wf(world, log),
            *final(self) == (AI { history: final(self).history, ..*old(self) }),
            final(self).frames() == trimmed(old(self).frames()),
            final(self).frames().len() > 0 ==> final(self).frames().last().candidates@.len() > 0,
    {
        while self.history.possibilities.len() > 0
            && self.history.possibilities[self.history.possibilities.len() - 1].candidates.len()
            == 0
            invariant
                self.wf(world, log),
                trimmed(self.frames()) == trimmed(old(self).frames()),
                *self == (AI { history: self.history, ..*old(self) }),
            decreases self.history.possibilities@.len(),
        {
            let ghost before = self.frames();
            self.history.possibilities.pop();
            proof {
                assert(self.frames() =~= before.drop_last());
                assert forall|f: int| 0 <= f < self.frames().len() implies candidates_valid(
                    (#[trigger] self.frames()[f]).candidates@,
                ) && self.origin(0) <= self.frames()[f].step <= log.steps by {
                    assert(self.frames()[f] == before[f]);
                }
                assert forall|f: int, g: int|
                    0 <= f <= g < self.frames().len() implies (#[trigger] self.frames()[f]).step
                    <= (#[trigger] self.frames()[g]).step by {
                    assert(self.frames()[f] == before[f]);
                    assert(self.frames()[g] == before[g]);
                }
                if lone_player(world@) {
                    assert forall|f: int| 0 <= f < self.frames().len() implies alike(
                        unwind(
                            world@,
                            log@.turns,
                            natural(log.steps - (#[trigger] self.frames()[f]).step),
                        ),
                        self.frames()[f].origin@,
                    ) by {
                        assert(self.frames()[f] == before[f]);
                    }
                }
            }
        }
    }

    /// Takes back the turns played since the deepest frame was pushed, or
    /// since the search began if no frame is left, and brings the derived
    /// state up to date.
    fn backtrack(&mut self, world: &mut World, map: &mut TileMap, log: &mut TurnsHistory)
        requires
            old(self).wf(old(world), old(log)),
            old(log).wf(old(world)),
            old(world).wf(),
            old(map).wf(),
        ensures
            *final(self) == *old(self),
            final(self).wf(final(world), final(log)),
            final(log).wf(final(world)),
            final(world).wf(),
            old(world).same_entities(final(world)),
            final(map).wf(),
            final(map).same_grid(old(map)),
            content_indexed(final(map), final(world)@),
            final(log).steps == old(self).target(old(log)),
            final(log)@ == (Ledger {
                state: final(log).state,
                ..old(log)@.rewound(natural(old(log).steps - old(self).target(old(log))))
            }),
            settled(
                unwind(
                    old(world)@,
                    old(log)@.turns,
                    natural(old(log).steps - old(self).target(old(log))),
                ),
                old(log)@.rewound(natural(old(log).steps - old(self).target(old(log)))).state,
                final(world),
                final(map),
                final(log).state,
            ),
            final(log)@.turns == old(log)@.rewound(
                natural(old(log).steps - old(self).target(old(log))),
            ).turns,
            final(log)@.steps == old(log)@.rewound(
                natural(old(log).steps - old(self).target(old(log))),
            ).steps,
            final(log)@.energy == old(log)@.rewound(
                natural(old(log).steps - old(self).target(old(log))),
            ).energy,
            same_core(
                unwind(
                    old(world)@,
                    old(log)@.turns,
                    natural(old(log).steps - old(self).target(old(log))),
                ),
                final(world)@,
            ),
            lone_player(old(world)@) && final(self).frames().len() == 0 && final(self).start_step is Some
                ==> same_core(final(world)@, final(self).start_world@),
            lone_player(old(world)@) && final(self).frames().len() > 0 ==> same_core(
                final(world)@,
                final(self).frames().last().origin@,
            ),
    {
        let cur_step = log.steps;
        let ghost world0 = *world;
        let ghost log0 = *log;
        let ghost ledger0 = log@;
        let target = if self.history.possibilities.len() == 0 {
            match self.start_step {
                Some(step) => step,
                None => cur_step,
            }
        } else {
            self.history.possibilities[self.history.possibilities.len() - 1].step
        };
        proof {
            if self.frames().len() > 0 {
                assert(self.frames()[self.frames().len() - 1].step <= log.steps);
            }
            ledger0.lemma_rewound((cur_step - target) as nat);
        }
        log.undo(cur_step - target, world);
        let ghost unwound = *world;
        proof {
            world0.lemma_moved_wf(&unwound);
        }
        settle(world, map, log);
        proof {
            assert(log@.turns == ledger0.rewound((cur_step - target) as nat).turns);
            assert forall|i: int| 0 <= i < world@.len() implies (#[trigger] world0@[i]).same_kind(
                world@[i],
            ) by {
                assert(world0@[i].same_kind(unwound@[i]));
                assert(unwound@[i].same_kind(world@[i]));
            }
            assert forall|f: int| 0 <= f < self.frames().len() implies candidates_valid(
                (#[trigger] self.frames()[f]).candidates@,
            ) && self.origin(0) <= self.frames()[f].step <= log.steps by {
                assert(self.frames()[f].step <= self.frames()[self.frames().len() - 1].step);
            }
            lemma_lone_player_kept(&world0, world);
            if lone_player(world0@) {
                self.lemma_trail_after_undo(
                    &world0,
                    &unwound,
                    world,
                    &log0,
                    log,
                    (cur_step - target) as nat,
                );
                assert(unwind(world@, log@.turns, 0) == world@);
                if self.frames().len() == 0 {
                    if self.start_step is Some {
                        lemma_alike_core(world@, self.start_world@);
                    }
                } else {
                    let top = self.frames()[self.frames().len() - 1];
                    assert(alike(unwind(world@, log@.turns, natural(log.steps - top.step)), top.origin@));
                    lemma_alike_core(world@, top.origin@);
                }
            }
            assert(self.seen.fits(world));
        }
    }

    /// Takes the next candidate off the deepest frame and puts it under
    /// test.
    fn take_candidate(&mut self, world: &World, log: &TurnsHistory)
        requires
            old(self).wf(world, log),
            old(self).frames().len() > 0,
            old(self).frames().last().candidates@.len() > 0,
        ensures
            final(self).wf(world, log),
            *final(self) == (AI {
                history: final(self).history,
                tested_action: final(self).tested_action,
                sub_actions: final(self).sub_actions,
                ..*old(self)
            }),
            final(self).frames().len() == old(self).frames().len(),
            forall|f: int|
                0 <= f < final(self).frames().len() - 1 ==> final(self).frames()[f] == old(
                    self,
                ).frames()[f],
            final(self).frames().last().step == old(self).frames().last().step,
            final(self).frames().last().origin == old(self).frames().last().origin,
            final(self).frames().last().candidates@ == old(
                self,
            ).frames().last().candidates@.drop_last(),
            final(self).tested_action == old(self).frames().last().candidates@.last().0,
            final(self).sub_actions == old(self).frames().last().candidates@.last().1,
    {
        let top = self.history.possibilities.len() - 1;
        let ghost frames1 = self.frames();
        let popped = self.history.possibilities[top].candidates.pop();
        let candidate = popped.unwrap();
        self.tested_action = candidate.0;
        self.sub_actions = candidate.1;
        proof {
            assert(candidates_valid(frames1[top as int].candidates@));
            assert(subs_valid(frames1[top as int].candidates@[frames1[top as int].candidates@.len()
                - 1].1@));
            assert forall|f: int| 0 <= f < self.frames().len() implies candidates_valid(
                (#[trigger] self.frames()[f]).candidates@,
            ) && self.origin(0) <= self.frames()[f].step <= log.steps by {
                if f < top {
                    assert(self.frames()[f] == frames1[f]);
                } else {
                    assert forall|i: int|
                        0 <= i < self.frames()[f].candidates@.len() implies subs_valid(
                        (#[trigger] self.frames()[f].candidates@[i]).1@,
                    ) by {
                        assert(self.frames()[f].candidates@[i] == frames1[f].candidates@[i]);
                    }
                }
            }
            assert forall|f: int, g: int| 0 <= f <= g < self.frames().len() implies (#[trigger] self.frames()[f]).step
                <= (#[trigger] self.frames()[g]).step by {
                assert(self.frames()[f].step == frames1[f].step);
                assert(self.frames()[g].step == frames1[g].step);
            }
            if lone_player(world@) {
                assert forall|f: int| 0 <= f < self.frames().len() implies alike(
                    unwind(world@, log@.turns, natural(log.steps - (#[trigger] self.frames()[f]).step)),
                    self.frames()[f].origin@,
                ) by {
                    assert(self.frames()[f].step == frames1[f].step);
                    assert(self.frames()[f].origin == frames1[f].origin);
                }
            }
        }
    }

    /// Plays the next pending turn of the candidate under test. If the
    /// turn changes nothing or the log does not accept it, the branch is
    /// a dead end and its remaining turns are dropped. Otherwise the
    /// derived state is brought up to date and note is taken of how the
    /// turn ended.
    pub fn play_pending(&mut self, world: &mut World, map: &mut TileMap, log: &mut TurnsHistory)
        requires
            old(self).wf(old(world), old(log)),
            old(self).sub_actions@.len() > 0,
            !old(self).paused,
            old(log).wf(old(world)),
            old(world).wf(),
            old(map).wf(),
            content_indexed(old(map), old(world)@),
        ensures
            final(self).wf(final(world), final(log)),
            final(log).wf(final(world)),
            final(world).wf(),
            old(world).same_entities(final(world)),
            final(map).wf(),
            final(map).same_grid(old(map)),
            content_indexed(final(map), final(world)@),
            old(self).played(
                old(world),
                old(map),
                old(log),
                *final(self),
                final(world),
                final(map),
                final(log),
            ),
            old(self).sub_actions@[0].playable(old(world), old(map), old(log)) ==> same_core(
                apply_turn(old(world)@, old(self).sub_actions@[0].actions(old(world), old(map))),
                final(world)@,
            ),
    {
        let ghost pending = self.sub_actions@;
        let ghost world0 = *world;
        let ghost map0 = *map;
        let ghost log0 = *log;
        proof {
            lemma_content_indexed_in(map, world);
        }
        let action = self.sub_actions.remove(0);
        assert(self.sub_actions@ =~= pending.drop_first());
        assert(action.valid()) by {
            assert(pending[0] == action);
        }
        assert(subs_valid(self.sub_actions@)) by {
            assert forall|k: int| 0 <= k < self.sub_actions@.len() implies ((#[trigger] self.sub_actions@[k]) matches AiSubAction::Move(
                c,
            ) ==> c.is_axis()) by {
                assert(self.sub_actions@[k] == pending[k + 1]);
            }
        }
        assert(self.frames() == old(self).frames());
        assert(self.wf(world, log));
        let ghost turn = action.actions(&world0, map);
        let ok = action.play(world, map, log);
        self.sub_actions_success = ok;
        assert(self.frames() == old(self).frames());
        assert(self.seen.fits(world));
        if ok {
            let ghost played = *world;
            proof {
                world0.lemma_moved_wf(&played);
            }
            settle(world, map, log);
            proof {
                assert forall|i: int| 0 <= i < world@.len() implies (#[trigger] world0@[i]).same_kind(
                    world@[i],
                ) by {
                    assert(world0@[i].same_kind(played@[i]));
                    assert(played@[i].same_kind(world@[i]));
                }
                lemma_lone_player_kept(&world0, world);
                if lone_player(world0@) {
                    match action {
                        AiSubAction::Move(c) => {
                            lemma_steps_fit(&world0, &map0, world0@.len() as int, c);
                        },
                        AiSubAction::Actuate => {
                            lemma_actuations_fit(&world0, &map0, world0@.len() as int);
                        },
                    }
                    self.lemma_trail_after_play(&world0, &played, world, &log0, log, turn);
                }
                assert(self.seen.fits(world));
                assert(self.wf(world, log));
            }
            let ghost settled = *self;
            self.end_turn(log);
            proof {
                assert(self.frames() == settled.frames());
                assert(self.wf(world, log));
            }
        } else {
            self.dead_ends = bump(self.dead_ends);
            self.sub_actions.clear();
            proof {
                world0.lemma_moved_wf(world);
                assert(self.frames() == old(self).frames());
                assert(self.wf(world, log));
            }
        }
    }

    /// One tick of the search. Unless the search is paused, it does one
    /// unit of work: it plays the next pending turn of the candidate under
    /// test, or, if none is pending, takes a search step, with the
    /// candidates it finds in random order. Afterwards it takes the
    /// driver's signal and reports the status.
    ///
    /// The content layer of the map must be up to date with the world
    /// when the search is resumed, and is up to date with it after each
    /// tick. In a world with at most one player, a search that comes to
    /// its end leaves every entity on the tile on which it stood, and every
    /// reflector oriented as it was, when the search began.
    pub fn play_next_turn(
        &mut self,
        world: &mut World,
        map: &mut TileMap,
        log: &mut TurnsHistory,
        signal: ControlSignal,
    ) -> (status: SearchStatus)
        requires
            old(self).wf(old(world), old(log)),
            old(log).wf(old(world)),
            old(world).wf(),
            old(map).wf(),
            content_indexed(old(map), old(world)@),
        ensures
            status == final(self).status(),
            old(self).ticked(
                old(world),
                old(map),
                old(log),
                signal,
                *final(self),
                final(world),
                final(map),
                final(log),
            ),
            final(self).wf(final(world), final(log)),
            final(log).wf(final(world)),
            final(world).wf(),
            old(world).same_entities(final(world)),
            final(map).wf(),
            final(map).same_grid(old(map)),
            content_indexed(final(map), final(world)@),
            old(self).paused ==> final(world)@ == old(world)@ && *final(map) == *old(map) && *final(log)
                == *old(log),
            final(self).dead_ends >= old(self).dead_ends,
            final(self).duplicates >= old(self).duplicates,
            final(self).solutions >= old(self).solutions,
            lone_player(old(world)@) && !old(self).paused && old(self).sub_actions@.len() == 0
                && final(self).frames().len() == 0 ==> same_core(
                final(world)@,
                final(self).start_world@,
            ),
    {
        let ghost before = *self;
        let ghost world0 = *world;
        let ghost map0 = *map;
        let ghost log0 = *log;
        if !self.paused {
            if self.sub_actions.len() == 0 {
                proof {
                    lemma_content_indexed_in(map, world);
                }
                let found = self.survey(world, map, log);
                let ghost looked = *self;
                let ghost found_list = found;
                let shuffled = match found {
                    Some(mut list) => {
                        let ghost unordered = list@;
                        shuffle_candidates(&mut list, &mut self.rng);
                        proof {
                            lemma_shuffled_valid(unordered, list@);
                            assert(*self == (AI { rng: self.rng, ..looked }));
                            assert(self.frames() == looked.frames());
                            assert(self.wf(world, log));
                        }
                        Some(list)
                    },
                    None => None,
                };
                let ghost ordered = shuffled;
                let ghost mixed = *self;
                assert(self.wf(world, log));
                self.pick_next(world, map, log, shuffled);
                proof {
                    assert(mixed == (AI { rng: mixed.rng, ..looked }));
                    assert(before.searched(
                        &world0,
                        &map0,
                        &log0,
                        looked,
                        found_list,
                        ordered,
                        mixed.rng,
                        *self,
                        world,
                        map,
                        log,
                    ));
                }
            } else {
                self.play_pending(world, map, log);
            }
        }
        let ghost worked = *self;
        let status = self.get_next_runstate(signal);
        proof {
            assert(self.frames() == worked.frames());
            assert(self.wf(world, log));
            assert(worked.signalled(signal, *self));
        }
        status
    }
}

} // verus!
