//! The reversible log of turns.

use vstd::prelude::*;
use crate::components::{Actuated, Entity, Position};
use crate::components::lemma_flip_involution;
use crate::world::{
    alike, alike_at, lemma_moved_only_transitive, moved_only, moved_only_at, EntityData, World,
};

verus! {

/// One change of the world.
#[derive(Clone, Copy, Debug, PartialEq)]
pub enum Action {
    /// The entity moved from the first tile to the second.
    Moves(Entity, (i32, i32), (i32, i32)),
    /// The entity has been actuated.
    Actuates(Entity),
    /// The player spent this much energy.
    UseEnergy(i32),
}

/// How the level stands after a turn.
#[derive(Clone, Copy, Debug, PartialEq, Eq, Structural)]
pub enum TurnState {
    Running,
    PlayerDead,
    PlayerAtExit,
}

/// The turns played so far, the most recent last, with the number of turns
/// and the energy spent in them.
pub struct TurnsHistory {
    pub steps: i32,
    pub energy_used: i32,
    pub state: TurnState,
    pub history: Vec<Vec<Action>>,
}

/// The mathematical content of a [`TurnsHistory`].
pub struct Ledger {
    pub steps: int,
    pub energy: int,
    pub state: TurnState,
    pub turns: Seq<Seq<Action>>,
}

/// The pulse mark after one more actuation: a second pulse cancels a
/// pending one.
pub open spec fn pulsed(mark: Option<Actuated>) -> Option<Actuated> {
    if mark is Some {
        None
    } else {
        Some(Actuated {  })
    }
}

/// True if the action names an entity among the first `n`.
pub open spec fn action_valid(n: int, action: Action) -> bool {
    match action {
        Action::Moves(e, _, _) => e.0 < n,
        Action::Actuates(e) => e.0 < n,
        Action::UseEnergy(_) => true,
    }
}

/// True if every action of the turn names an entity among the first `n`.
pub open spec fn turn_valid(n: int, turn: Seq<Action>) -> bool {
    forall|k: int| 0 <= k < turn.len() ==> action_valid(n, #[trigger] turn[k])
}

/// True if the action is valid in `world` and, where it is a move, starts
/// where the entity stands.
pub open spec fn action_fits(world: Seq<EntityData>, action: Action) -> bool {
    &&& action_valid(world.len() as int, action)
    &&& action matches Action::Moves(e, from, _) ==> world[e.0 as int].position == (Position {
        x: from.0,
        y: from.1,
    })
}

/// The world after an action.
pub open spec fn apply_action(world: Seq<EntityData>, action: Action) -> Seq<EntityData> {
    match action {
        Action::Moves(e, _, to) => world.update(
            e.0 as int,
            EntityData { position: Position { x: to.0, y: to.1 }, ..world[e.0 as int] },
        ),
        Action::Actuates(e) => world.update(
            e.0 as int,
            EntityData { actuated: pulsed(world[e.0 as int].actuated), ..world[e.0 as int] },
        ),
        Action::UseEnergy(_) => world,
    }
}

/// The world after an action is taken back.
pub open spec fn revert_action(world: Seq<EntityData>, action: Action) -> Seq<EntityData> {
    match action {
        Action::Moves(e, from, _) => world.update(
            e.0 as int,
            EntityData { position: Position { x: from.0, y: from.1 }, ..world[e.0 as int] },
        ),
        Action::Actuates(e) => world.update(
            e.0 as int,
            EntityData { actuated: pulsed(world[e.0 as int].actuated), ..world[e.0 as int] },
        ),
        Action::UseEnergy(_) => world,
    }
}

/// The energy that an action spends.
pub open spec fn action_energy(action: Action) -> int {
    match action {
        Action::UseEnergy(amount) => amount as int,
        _ => 0,
    }
}

/// The world after the actions of a turn, applied first to last.
pub open spec fn apply_turn(world: Seq<EntityData>, turn: Seq<Action>) -> Seq<EntityData>
    decreases turn.len(),
{
    if turn.len() == 0 {
        world
    } else {
        apply_action(apply_turn(world, turn.drop_last()), turn.last())
    }
}

/// The world after the actions of a turn are taken back, last to first.
pub open spec fn revert_turn(world: Seq<EntityData>, turn: Seq<Action>) -> Seq<EntityData>
    decreases turn.len(),
{
    if turn.len() == 0 {
        world
    } else {
        revert_turn(revert_action(world, turn.last()), turn.drop_last())
    }
}

/// The energy that a turn spends.
pub open spec fn turn_energy(turn: Seq<Action>) -> int
    decreases turn.len(),
{
    if turn.len() == 0 {
        0
    } else {
        turn_energy(turn.drop_last()) + action_energy(turn.last())
    }
}

/// True if each action of the turn fits the world that the actions before
/// it leave.
pub open spec fn turn_fits(world: Seq<EntityData>, turn: Seq<Action>) -> bool
    decreases turn.len(),
{
    if turn.len() == 0 {
        true
    } else {
        turn_fits(world, turn.drop_last()) && action_fits(
            apply_turn(world, turn.drop_last()),
            turn.last(),
        )
    }
}

/// True if the energy total stays an `i32` after each action of the turn,
/// starting from `energy`.
pub open spec fn energy_fits(energy: int, turn: Seq<Action>) -> bool {
    forall|k: int|
        0 <= k <= turn.len() ==> i32::MIN <= energy + #[trigger] turn_energy(turn.take(k))
            <= i32::MAX
}

/// True if the energy total stayed an `i32` all the way to `energy`, over
/// every action of every turn.
pub open spec fn energy_trail(energy: int, turns: Seq<Seq<Action>>) -> bool
    decreases turns.len(),
{
    if turns.len() == 0 {
        true
    } else {
        let before = energy - turn_energy(turns.last());
        energy_fits(before, turns.last()) && energy_trail(before, turns.drop_last())
    }
}

/// The world after the last `k` turns are taken back, the most recent
/// first, or all of them if there are fewer.
pub open spec fn unwind(world: Seq<EntityData>, turns: Seq<Seq<Action>>, k: nat) -> Seq<EntityData>
    decreases k,
{
    if k == 0 {
        world
    } else {
        let sooner = unwind(world, turns, (k - 1) as nat);
        if k <= turns.len() {
            revert_turn(sooner, turns[turns.len() - k])
        } else {
            sooner
        }
    }
}

/// The world after the turns are played in order.
pub open spec fn apply_turns(world: Seq<EntityData>, turns: Seq<Seq<Action>>) -> Seq<EntityData>
    decreases turns.len(),
{
    if turns.len() == 0 {
        world
    } else {
        apply_turn(apply_turns(world, turns.drop_last()), turns.last())
    }
}

/// True if each turn fits the world that the turns before it leave.
pub open spec fn turns_fit(world: Seq<EntityData>, turns: Seq<Seq<Action>>) -> bool
    decreases turns.len(),
{
    if turns.len() == 0 {
        true
    } else {
        turns_fit(world, turns.drop_last()) && turn_fits(
            apply_turns(world, turns.drop_last()),
            turns.last(),
        )
    }
}

/// Playing a turn moves and pulses entities and changes nothing else.
pub proof fn lemma_apply_turn_moves(world: Seq<EntityData>, turn: Seq<Action>)
    requires
        turn_valid(world.len() as int, turn),
    ensures
        moved_only(world, apply_turn(world, turn)),
    decreases turn.len(),
{
    if turn.len() > 0 {
        let init = turn.drop_last();
        assert(turn_valid(world.len() as int, init)) by {
            assert forall|k: int| 0 <= k < init.len() implies action_valid(
                world.len() as int,
                #[trigger] init[k],
            ) by {
                assert(init[k] == turn[k]);
            }
        }
        lemma_apply_turn_moves(world, init);
        let mid = apply_turn(world, init);
        let end = apply_turn(world, turn);
        assert(action_valid(world.len() as int, turn[turn.len() - 1]));
        assert forall|i: int| 0 <= i < world.len() implies moved_only_at(world[i], #[trigger] end[i]) by {
            assert(moved_only_at(world[i], mid[i]));
        }
    }
}

/// Taking a turn back moves and pulses entities and changes nothing else.
pub proof fn lemma_revert_turn_moves(world: Seq<EntityData>, turn: Seq<Action>)
    requires
        turn_valid(world.len() as int, turn),
    ensures
        moved_only(world, revert_turn(world, turn)),
    decreases turn.len(),
{
    if turn.len() > 0 {
        let init = turn.drop_last();
        assert(turn_valid(world.len() as int, init)) by {
            assert forall|k: int| 0 <= k < init.len() implies action_valid(
                world.len() as int,
                #[trigger] init[k],
            ) by {
                assert(init[k] == turn[k]);
            }
        }
        assert(action_valid(world.len() as int, turn[turn.len() - 1]));
        let mid = revert_action(world, turn.last());
        lemma_revert_turn_moves(mid, init);
        let end = revert_turn(world, turn);
        assert forall|i: int| 0 <= i < world.len() implies moved_only_at(world[i], #[trigger] end[i]) by {
            assert(moved_only_at(mid[i], end[i]));
        }
    }
}

impl Ledger {
    /// The ledger after a turn is played.
    pub open spec fn played(self, turn: Seq<Action>) -> Ledger {
        Ledger {
            steps: self.steps + 1,
            energy: self.energy + turn_energy(turn),
            state: self.state,
            turns: self.turns.push(turn),
        }
    }

    /// The ledger after the last turn is taken back; an empty ledger stays
    /// as it is.
    pub open spec fn undone(self) -> Ledger {
        if self.turns.len() == 0 {
            self
        } else {
            Ledger {
                steps: self.steps - 1,
                energy: self.energy - turn_energy(self.turns.last()),
                state: TurnState::Running,
                turns: self.turns.drop_last(),
            }
        }
    }

    /// The ledger after the last `k` turns are taken back, or all of them
    /// if there are fewer.
    pub open spec fn rewound(self, k: nat) -> Ledger
        decreases k,
    {
        if k == 0 {
            self
        } else {
            self.rewound((k - 1) as nat).undone()
        }
    }

    /// The ledger after the turns are played in order.
    pub open spec fn played_all(self, turns: Seq<Seq<Action>>) -> Ledger
        decreases turns.len(),
    {
        if turns.len() == 0 {
            self
        } else {
            self.played_all(turns.drop_last()).played(turns.last())
        }
    }

    /// Taking back `k` turns of a ledger that holds at least `k` leaves the
    /// turns before them.
    pub proof fn lemma_rewound(self, k: nat)
        requires
            k <= self.turns.len(),
        ensures
            self.rewound(k).turns == self.turns.take(self.turns.len() - k),
            self.rewound(k).steps == self.steps - k,
            k > 0 ==> self.rewound(k).state == TurnState::Running,
            k == 0 ==> self.rewound(k) == self,
        decreases k,
    {
        if k > 0 {
            self.lemma_rewound((k - 1) as nat);
            let sooner = self.rewound((k - 1) as nat);
            assert(sooner.turns.drop_last() =~= self.turns.take(self.turns.len() - k));
        } else {
            assert(self.turns.take(self.turns.len() as int) =~= self.turns);
        }
    }

    /// Taking back more turns than the ledger holds takes back all of
    /// them.
    pub proof fn lemma_rewound_all(self, k: nat)
        requires
            k >= self.turns.len(),
        ensures
            self.rewound(k) == self.rewound(self.turns.len()),
        decreases k,
    {
        if k > self.turns.len() {
            self.lemma_rewound_all((k - 1) as nat);
            self.lemma_rewound(self.turns.len());
            assert(self.rewound((k - 1) as nat).turns.len() == 0);
        }
    }
}

/// An action that fits the world, applied and then taken back, leaves
/// every entity as it was.
pub proof fn lemma_revert_inverts_apply(world: Seq<EntityData>, action: Action)
    requires
        action_fits(world, action),
    ensures
        revert_action(apply_action(world, action), action) == world,
{
    match action {
        Action::Moves(e, from, to) => {
            let i = e.0 as int;
            let there = apply_action(world, action);
            let back = revert_action(there, action);
            assert(back[i] == world[i]);
            assert(back =~= world);
        },
        Action::Actuates(e) => {
            let i = e.0 as int;
            let there = apply_action(world, action);
            let back = revert_action(there, action);
            assert(pulsed(pulsed(world[i].actuated)) == world[i].actuated);
            assert(back[i] == world[i]);
            assert(back =~= world);
        },
        Action::UseEnergy(_) => {},
    }
}

/// Undo inverse law: a turn that fits the world, played and then taken
/// back, leaves every entity as it was, and the turns, the step counter
/// and the energy total of the ledger as they were.
pub proof fn lemma_undo_inverts_play(world: Seq<EntityData>, ledger: Ledger, turn: Seq<Action>)
    requires
        turn_fits(world, turn),
    ensures
        revert_turn(apply_turn(world, turn), turn) == world,
        unwind(apply_turn(world, turn), ledger.played(turn).turns, 1) == world,
        ledger.played(turn).undone() == (Ledger { state: TurnState::Running, ..ledger }),
    decreases turn.len(),
{
    if turn.len() > 0 {
        let init = turn.drop_last();
        let mid = apply_turn(world, init);
        let a = turn.last();
        assert(action_fits(mid, a));
        lemma_revert_inverts_apply(mid, a);
        lemma_undo_inverts_play(world, ledger, init);
    }
    assert(unwind(apply_turn(world, turn), ledger.played(turn).turns, 0) == apply_turn(world, turn));
    assert(ledger.played(turn).turns.drop_last() =~= ledger.turns);
    assert(ledger.played(turn).turns.last() == turn);
}

/// Taking back as many turns as were played, each of which fitted the
/// world when it was played, leaves every entity as it was before the
/// first of them, whatever the ledger held before.
pub proof fn lemma_unwind_inverts_turns(
    world: Seq<EntityData>,
    ledger: Ledger,
    turns: Seq<Seq<Action>>,
)
    requires
        turns_fit(world, turns),
    ensures
        unwind(apply_turns(world, turns), ledger.played_all(turns).turns, turns.len()) == world,
        ledger.played_all(turns).turns == ledger.turns + turns,
        ledger.played_all(turns).rewound(turns.len()).turns == ledger.turns,
        ledger.played_all(turns).rewound(turns.len()).steps == ledger.steps,
        ledger.played_all(turns).rewound(turns.len()).energy == ledger.energy,
    decreases turns.len(),
{
    let n = turns.len();
    let all = ledger.played_all(turns);
    if n == 0 {
        assert(ledger.turns + turns =~= ledger.turns);
    } else {
        let init = turns.drop_last();
        let last = turns.last();
        let mid_world = apply_turns(world, init);
        let mid = ledger.played_all(init);
        lemma_unwind_inverts_turns(world, ledger, init);
        assert(all.turns =~= ledger.turns + turns);
        lemma_undo_inverts_play(mid_world, mid, last);
        lemma_unwind_shift(apply_turn(mid_world, last), mid.turns, last, (n - 1) as nat);
        lemma_rewound_shift(mid, last, (n - 1) as nat);
    }
}

/// Taking back `k + 1` turns takes back the last one and then `k` of the
/// turns before it.
pub proof fn lemma_unwind_shift(
    world: Seq<EntityData>,
    turns: Seq<Seq<Action>>,
    last: Seq<Action>,
    k: nat,
)
    requires
        k <= turns.len(),
    ensures
        unwind(world, turns.push(last), k + 1) == unwind(revert_turn(world, last), turns, k),
    decreases k,
{
    let longer = turns.push(last);
    if k == 0 {
        assert(longer[longer.len() - 1] == last);
        assert(unwind(world, longer, 0) == world);
    } else {
        lemma_unwind_shift(world, turns, last, (k - 1) as nat);
        assert(longer[longer.len() - (k + 1)] == turns[turns.len() - k]);
    }
}

/// Taking back `k + 1` turns of a ledger takes back the last one and then
/// `k` of the turns before it.
pub proof fn lemma_rewound_shift(ledger: Ledger, last: Seq<Action>, k: nat)
    ensures
        ledger.played(last).rewound(k + 1).turns == ledger.rewound(k).turns,
        ledger.played(last).rewound(k + 1).steps == ledger.rewound(k).steps,
        ledger.played(last).rewound(k + 1).energy == ledger.rewound(k).energy,
    decreases k,
{
    let longer = ledger.played(last);
    assert(longer.turns.drop_last() =~= ledger.turns);
    assert(longer.turns.last() == last);
    assert(longer.rewound(0) == longer);
    assert(longer.rewound(1) == longer.rewound(0).undone());
    assert(ledger.rewound(0) == ledger);
    if k > 0 {
        lemma_rewound_shift(ledger, last, (k - 1) as nat);
        assert(longer.rewound(k + 1) == longer.rewound(k).undone());
        assert(ledger.rewound(k) == ledger.rewound((k - 1) as nat).undone());
    }
}

/// Taking an action back in two worlds that are alike leaves them alike.
pub proof fn lemma_revert_action_alike(a: Seq<EntityData>, b: Seq<EntityData>, action: Action)
    requires
        alike(a, b),
        action_valid(a.len() as int, action),
    ensures
        alike(revert_action(a, action), revert_action(b, action)),
{
    let ra = revert_action(a, action);
    let rb = revert_action(b, action);
    assert forall|i: int| 0 <= i < ra.len() implies alike_at(#[trigger] ra[i], rb[i]) by {
        assert(alike_at(a[i], b[i]));
        if a[i].reflector is Some {
            lemma_flip_involution(a[i].reflector->0.orientation);
        }
        if b[i].reflector is Some {
            lemma_flip_involution(b[i].reflector->0.orientation);
        }
    }
}

/// Taking a turn back in two worlds that are alike leaves them alike.
pub proof fn lemma_revert_turn_alike(a: Seq<EntityData>, b: Seq<EntityData>, turn: Seq<Action>)
    requires
        alike(a, b),
        turn_valid(a.len() as int, turn),
    ensures
        alike(revert_turn(a, turn), revert_turn(b, turn)),
    decreases turn.len(),
{
    if turn.len() > 0 {
        let init = turn.drop_last();
        assert(action_valid(a.len() as int, turn[turn.len() - 1]));
        lemma_revert_action_alike(a, b, turn.last());
        assert forall|k: int| 0 <= k < init.len() implies action_valid(
            a.len() as int,
            #[trigger] init[k],
        ) by {
            assert(init[k] == turn[k]);
        }
        lemma_revert_turn_alike(revert_action(a, turn.last()), revert_action(b, turn.last()), init);
    }
}

/// Taking turns back in two worlds that are alike leaves them alike.
pub proof fn lemma_unwind_alike(
    a: Seq<EntityData>,
    b: Seq<EntityData>,
    turns: Seq<Seq<Action>>,
    k: nat,
)
    requires
        alike(a, b),
        forall|t: int| 0 <= t < turns.len() ==> turn_valid(a.len() as int, #[trigger] turns[t]),
    ensures
        alike(unwind(a, turns, k), unwind(b, turns, k)),
        unwind(a, turns, k).len() == a.len(),
    decreases k,
{
    if k > 0 {
        lemma_unwind_alike(a, b, turns, (k - 1) as nat);
        if k <= turns.len() {
            let turn = turns[turns.len() - k];
            lemma_revert_turn_alike(
                unwind(a, turns, (k - 1) as nat),
                unwind(b, turns, (k - 1) as nat),
                turn,
            );
            lemma_revert_turn_moves(unwind(a, turns, (k - 1) as nat), turn);
        }
    }
}

/// Taking `k` turns back and then `j` more is taking `k + j` turns back.
pub proof fn lemma_unwind_twice(world: Seq<EntityData>, turns: Seq<Seq<Action>>, k: nat, j: nat)
    requires
        k + j <= turns.len(),
    ensures
        unwind(unwind(world, turns, k), turns.take(turns.len() - k), j) == unwind(
            world,
            turns,
            k + j,
        ),
    decreases j,
{
    if j > 0 {
        lemma_unwind_twice(world, turns, k, (j - 1) as nat);
        let left = turns.take(turns.len() - k);
        assert(left[left.len() - j] == turns[turns.len() - (k + j)]);
    }
}

/// A turn that fits the world, played in it, can be taken back together
/// with the turns before it: taking `k + 1` turns back afterwards is
/// taking `k` turns back before.
pub proof fn lemma_unwind_played(
    world: Seq<EntityData>,
    turns: Seq<Seq<Action>>,
    turn: Seq<Action>,
    k: nat,
)
    requires
        turn_fits(world, turn),
        k <= turns.len(),
    ensures
        unwind(apply_turn(world, turn), turns.push(turn), k + 1) == unwind(world, turns, k),
{
    lemma_unwind_shift(apply_turn(world, turn), turns, turn, k);
    lemma_undo_inverts_play(
        world,
        Ledger { steps: 0, energy: 0, state: TurnState::Running, turns: Seq::empty() },
        turn,
    );
}

/// A valid turn without moves fits every world.
pub proof fn lemma_no_moves_fit(world: Seq<EntityData>, turn: Seq<Action>)
    requires
        turn_valid(world.len() as int, turn),
        forall|k: int| 0 <= k < turn.len() ==> !((#[trigger] turn[k]) is Moves),
    ensures
        turn_fits(world, turn),
    decreases turn.len(),
{
    if turn.len() > 0 {
        let init = turn.drop_last();
        assert forall|k: int| 0 <= k < init.len() implies action_valid(
            world.len() as int,
            #[trigger] init[k],
        ) && !(init[k] is Moves) by {
            assert(init[k] == turn[k]);
        }
        lemma_no_moves_fit(world, init);
        lemma_apply_turn_moves(world, init);
        assert(action_valid(world.len() as int, turn[turn.len() - 1]));
    }
}

/// Step and energy accounting: after `n` turns that spend `e` energy each,
/// the step counter has grown by `n` and the energy total by `n * e`; after
/// the `n` turns are taken back, both are what they were.
pub proof fn lemma_accounting(ledger: Ledger, turns: Seq<Seq<Action>>, e: int)
    requires
        forall|t: int| 0 <= t < turns.len() ==> turn_energy(#[trigger] turns[t]) == e,
    ensures
        ledger.played_all(turns).steps == ledger.steps + turns.len(),
        ledger.played_all(turns).energy == ledger.energy + turns.len() * e,
        ledger.played_all(turns).turns == ledger.turns + turns,
        ledger.played_all(turns).rewound(turns.len()).steps == ledger.steps,
        ledger.played_all(turns).rewound(turns.len()).energy == ledger.energy,
        ledger.played_all(turns).rewound(turns.len()).turns == ledger.turns,
    decreases turns.len(),
{
    let n = turns.len();
    if n == 0 {
        assert(ledger.turns + turns =~= ledger.turns);
    } else {
        let init = turns.drop_last();
        let mid = ledger.played_all(init);
        assert forall|t: int| 0 <= t < init.len() implies turn_energy(#[trigger] init[t]) == e by {
            assert(init[t] == turns[t]);
        }
        lemma_accounting(ledger, init, e);
        assert(turn_energy(turns[n - 1]) == e);
        assert((n - 1) * e + e == n * e) by (nonlinear_arith);
        assert(ledger.played_all(turns).turns =~= ledger.turns + turns);
        lemma_rewound_shift(mid, turns.last(), (n - 1) as nat);
    }
}

impl View for TurnsHistory {
    type V = Ledger;

    open spec fn view(&self) -> Ledger {
        Ledger {
            steps: self.steps as int,
            energy: self.energy_used as int,
            state: self.state,
            turns: Seq::new(self.history@.len(), |t: int| self.history@[t]@),
        }
    }
}

impl TurnsHistory {
    /// The step counter counts the logged turns, every logged action names
    /// an entity of `world`, and the energy total never left the `i32`
    /// range.
    pub open spec fn wf(&self, world: &World) -> bool {
        &&& self.steps == self.history@.len()
        &&& forall|t: int|
            0 <= t < self@.turns.len() ==> turn_valid(world@.len() as int, #[trigger] self@.turns[t])
        &&& energy_trail(self.energy_used as int, self@.turns)
    }

    /// A log without turns.
    pub fn new() -> (h: TurnsHistory)
        ensures
            h@ == (Ledger { steps: 0, energy: 0, state: TurnState::Running, turns: Seq::empty() }),
            forall|world: &World| h.wf(world),
    {
        let h = TurnsHistory {
            steps: 0,
            energy_used: 0,
            state: TurnState::Running,
            history: Vec::new(),
        };
        assert(h@.turns =~= Seq::<Seq<Action>>::empty());
        h
    }

    /// True if [`TurnsHistory::play_turn`] accepts the turn: it names only
    /// entities of `world`, the energy total stays an `i32` after each of
    /// its actions, and the step counter can still grow.
    pub open spec fn can_play(&self, world: &World, turn: Seq<Action>) -> bool {
        &&& turn_valid(world@.len() as int, turn)
        &&& energy_fits(self.energy_used as int, turn)
        &&& self.steps < i32::MAX
    }

    /// Checks whether [`TurnsHistory::play_turn`] accepts the turn.
    pub fn accepts(&self, world: &World, actions: &Vec<Action>) -> (b: bool)
        ensures
            b == self.can_play(world, actions@),
    {
        if self.steps == i32::MAX {
            return false;
        }
        let n = world.len();
        let mut energy: i64 = self.energy_used as i64;
        let mut k: usize = 0;
        assert(actions@.take(0) =~= Seq::<Action>::empty());
        while k < actions.len()
            invariant
                0 <= k <= actions@.len(),
                n == world@.len(),
                energy == self.energy_used + turn_energy(actions@.take(k as int)),
                i32::MIN <= energy <= i32::MAX,
                forall|j: int| 0 <= j < k ==> action_valid(n as int, #[trigger] actions@[j]),
                forall|j: int|
                    0 <= j <= k ==> i32::MIN <= self.energy_used + #[trigger] turn_energy(
                        actions@.take(j),
                    ) <= i32::MAX,
            decreases actions@.len() - k,
        {
            let action = actions[k];
            proof {
                assert(actions@.take(k + 1).drop_last() =~= actions@.take(k as int));
                assert(actions@.take(k + 1).last() == action);
            }
            match action {
                Action::Moves(e, _, _) => {
                    if e.0 >= n {
                        return false;
                    }
                },
                Action::Actuates(e) => {
                    if e.0 >= n {
                        return false;
                    }
                },
                Action::UseEnergy(amount) => {
                    energy = energy + amount as i64;
                    if energy < i32::MIN as i64 || energy > i32::MAX as i64 {
                        assert(energy == self.energy_used + turn_energy(actions@.take(k + 1)));
                        return false;
                    }
                },
            }
            k = k + 1;
        }
        true
    }

    /// Applies the actions of a turn to the world in order, logs the
    /// turn and counts it. A move puts the entity on the tile it moves
    /// to; an actuation marks the entity with a pulse, which the next
    /// recompute consumes, or takes the mark off if a pulse is pending
    /// already; energy is added to the total.
    pub fn play_turn(&mut self, world: &mut World, actions: Vec<Action>)
        requires
            old(self).wf(old(world)),
            old(self).can_play(old(world), actions@),
        ensures
            final(world)@ == apply_turn(old(world)@, actions@),
            old(world).same_but_moved(final(world)),
            final(self)@ == old(self)@.played(actions@),
            final(self).wf(final(world)),
    {
        let ghost before = world@;
        let ghost energy0 = self.energy_used as int;
        let mut k: usize = 0;
        assert(actions@.take(0) =~= Seq::<Action>::empty());
        while k < actions.len()
            invariant
                0 <= k <= actions@.len(),
                turn_valid(before.len() as int, actions@),
                energy_fits(energy0, actions@),
                world@ == apply_turn(before, actions@.take(k as int)),
                world@.len() == before.len(),
                self.energy_used == energy0 + turn_energy(actions@.take(k as int)),
                self.steps == old(self).steps,
                self.state == old(self).state,
                self.history == old(self).history,
            decreases actions@.len() - k,
        {
            let action = actions[k];
            proof {
                assert(actions@.take(k + 1).drop_last() =~= actions@.take(k as int));
                assert(actions@.take(k + 1).last() == action);
                assert(action_valid(before.len() as int, actions@[k as int]));
                assert(i32::MIN <= energy0 + turn_energy(actions@.take(k + 1)) <= i32::MAX);
            }
            match action {
                Action::Moves(entity, _, to) => {
                    world.set_position(entity, Position { x: to.0, y: to.1 });
                },
                Action::Actuates(entity) => {
                    let pending = world.get(entity).actuated.is_some();
                    world.set_actuated(
                        entity,
                        if pending {
                            None
                        } else {
                            Some(Actuated {  })
                        },
                    );
                },
                Action::UseEnergy(amount) => {
                    self.energy_used = self.energy_used + amount;
                },
            }
            k = k + 1;
        }
        proof {
            assert(actions@.take(actions@.len() as int) =~= actions@);
            lemma_apply_turn_moves(before, actions@);
            let turns = self@.turns.push(actions@);
            assert(turns.drop_last() =~= self@.turns);
        }
        let ghost logged = self@.turns;
        self.history.push(actions);
        self.steps = self.steps + 1;
        proof {
            assert(self@.turns =~= logged.push(actions@));
            assert(self@.turns.drop_last() =~= logged);
            assert forall|t: int| 0 <= t < self@.turns.len() implies turn_valid(
                world@.len() as int,
                #[trigger] self@.turns[t],
            ) by {
                if t < logged.len() {
                    assert(self@.turns[t] == old(self)@.turns[t]);
                }
            }
        }
    }

    /// Takes the last turn back, its actions last to first: a move puts
    /// the entity back on the tile it came from, an actuation changes the
    /// pulse mark of the entity again, and energy is taken off the total.
    /// The step counter counts one less and the state is `Running`. Does
    /// nothing if no turn is logged.
    pub fn undo_last_turn(&mut self, world: &mut World)
        requires
            old(self).wf(old(world)),
        ensures
            final(self)@ == old(self)@.undone(),
            final(world)@ == unwind(old(world)@, old(self)@.turns, 1),
            old(world).same_but_moved(final(world)),
            final(self).wf(final(world)),
    {
        let ghost before = world@;
        let ghost logged = self@.turns;
        assert(unwind(before, logged, 0) == before);
        if self.history.len() == 0 {
            assert(moved_only(before, before));
            return ;
        }
        let popped = self.history.pop();
        let actions = popped.unwrap();
        let ghost turn = actions@;
        let ghost energy1 = self.energy_used as int;
        let ghost energy0 = energy1 - turn_energy(turn);
        proof {
            assert(turn == logged.last());
            assert(self@.turns =~= logged.drop_last());
            assert(turn_valid(before.len() as int, logged[logged.len() - 1]));
            assert(actions@.take(actions@.len() as int) =~= actions@);
        }
        let mut k: usize = actions.len();
        while k > 0
            invariant
                0 <= k <= actions@.len(),
                turn == actions@,
                turn_valid(before.len() as int, turn),
                energy_fits(energy0, turn),
                world@.len() == before.len(),
                revert_turn(world@, turn.take(k as int)) == revert_turn(before, turn),
                self.energy_used == energy0 + turn_energy(turn.take(k as int)),
                self.steps == old(self).steps,
                self@.turns == logged.drop_last(),
            decreases k,
        {
            k = k - 1;
            let action = actions[k];
            proof {
                assert(turn.take(k + 1).drop_last() =~= turn.take(k as int));
                assert(turn.take(k + 1).last() == action);
                assert(action_valid(before.len() as int, turn[k as int]));
                assert(i32::MIN <= energy0 + turn_energy(turn.take(k as int)) <= i32::MAX);
            }
            match action {
                Action::Moves(entity, from, _) => {
                    world.set_position(entity, Position { x: from.0, y: from.1 });
                },
                Action::Actuates(entity) => {
                    let pending = world.get(entity).actuated.is_some();
                    world.set_actuated(
                        entity,
                        if pending {
                            None
                        } else {
                            Some(Actuated {  })
                        },
                    );
                },
                Action::UseEnergy(amount) => {
                    self.energy_used = self.energy_used - amount;
                },
            }
        }
        self.steps = self.steps - 1;
        self.state = TurnState::Running;
        proof {
            assert(turn.take(0) =~= Seq::<Action>::empty());
            lemma_revert_turn_moves(before, turn);
            assert forall|t: int| 0 <= t < self@.turns.len() implies turn_valid(
                world@.len() as int,
                #[trigger] self@.turns[t],
            ) by {
                assert(self@.turns[t] == logged[t]);
            }
        }
    }

    /// Takes the last `n_steps` turns back, the most recent first, and
    /// stops early when no turn is left.
    pub fn undo(&mut self, n_steps: i32, world: &mut World)
        requires
            old(self).wf(old(world)),
        ensures
            final(self)@ == old(self)@.rewound(
                if n_steps > 0 {
                    n_steps as nat
                } else {
                    0
                },
            ),
            final(world)@ == unwind(
                old(world)@,
                old(self)@.turns,
                if n_steps > 0 {
                    n_steps as nat
                } else {
                    0
                },
            ),
            old(world).same_but_moved(final(world)),
            final(self).wf(final(world)),
    {
        let ghost world0 = world@;
        let ghost ledger0 = self@;
        let mut i: i32 = 0;
        assert(moved_only(world0, world0));
        while i < n_steps
            invariant
                0 <= i,
                n_steps > 0 ==> i <= n_steps,
                n_steps <= 0 ==> i == 0,
                self.wf(world),
                self@ == ledger0.rewound(i as nat),
                world@ == unwind(world0, ledger0.turns, i as nat),
                moved_only(world0, world@),
            decreases n_steps - i,
        {
            let ghost mid = world@;
            proof {
                if i <= ledger0.turns.len() {
                    ledger0.lemma_rewound(i as nat);
                } else {
                    ledger0.lemma_rewound_all(i as nat);
                    ledger0.lemma_rewound(ledger0.turns.len());
                }
                assert(unwind(mid, self@.turns, 0) == mid);
            }
            self.undo_last_turn(world);
            proof {
                lemma_moved_only_transitive(world0, mid, world@);
            }
            i = i + 1;
        }
    }
}

} // verus!
