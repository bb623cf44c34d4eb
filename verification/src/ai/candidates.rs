//! What the player could set out to do, and the turns that do it.

use vstd::prelude::*;
use crate::ai::{candidates_valid, subs_valid, AiAction, AiSubAction, Candidate, AI};
use crate::components::{Cardinal, Entity, Position};
use crate::map::TileMap;
use crate::world::{EntityData, World};

verus! {

/// Something the player could set out to do, before a way to do it was
/// looked for: walk to the tile `to` and, once there, take one more
/// turn.
#[derive(Clone, Copy, Debug)]
pub struct Goal {
    pub action: AiAction,
    pub to: (i32, i32),
    pub last: Option<AiSubAction>,
}

/// The goals of walking to each exit.
pub open spec fn exit_goals(exits: Seq<(i32, i32)>) -> Seq<Goal> {
    Seq::new(
        exits.len(),
        |k: int| Goal { action: AiAction::ExitTo(exits[k].0, exits[k].1), to: exits[k], last: None },
    )
}

/// The goal of pushing what stands on `pos` in direction `dir`, if the
/// tile it would be pushed to is free: walk to the tile on the other side
/// of it, then step towards it.
pub open spec fn push_goal(map: &TileMap, pos: Position, dir: Cardinal) -> Seq<Goal> {
    if map.blocked_at(pos.x + dir.delta().0, pos.y + dir.delta().1) {
        Seq::empty()
    } else {
        seq![
            Goal {
                action: AiAction::PushAt(pos.x, pos.y, dir),
                to: ((pos.x - dir.delta().0) as i32, (pos.y - dir.delta().1) as i32),
                last: Some(AiSubAction::Move(dir)),
            },
        ]
    }
}

/// The goals of pushing an entity, if it is movable and stands in the
/// grid: north, south, west and east, in this order.
pub open spec fn push_goals_of(map: &TileMap, data: EntityData) -> Seq<Goal> {
    if data.movable is Some && map.in_bounds(data.position.x as int, data.position.y as int) {
        push_goal(map, data.position, Cardinal::N) + push_goal(map, data.position, Cardinal::S)
            + push_goal(map, data.position, Cardinal::W) + push_goal(
            map,
            data.position,
            Cardinal::E,
        )
    } else {
        Seq::empty()
    }
}

/// The goal of actuating what stands on `pos` from the tile next to it in
/// direction `dir`.
pub open spec fn actuate_goal(pos: Position, dir: Cardinal) -> Goal {
    Goal {
        action: AiAction::ActivateAt(pos.x, pos.y),
        to: ((pos.x + dir.delta().0) as i32, (pos.y + dir.delta().1) as i32),
        last: Some(AiSubAction::Actuate),
    }
}

/// The goals of actuating an entity, if it is an actuator and stands in
/// the grid: from the north, south, west and east, in this order.
pub open spec fn actuate_goals_of(map: &TileMap, data: EntityData) -> Seq<Goal> {
    if data.actuator is Some && map.in_bounds(data.position.x as int, data.position.y as int) {
        seq![
            actuate_goal(data.position, Cardinal::N),
            actuate_goal(data.position, Cardinal::S),
            actuate_goal(data.position, Cardinal::W),
            actuate_goal(data.position, Cardinal::E),
        ]
    } else {
        Seq::empty()
    }
}

/// The goals of pushing the first `n` entities, in the order of their
/// handles.
pub open spec fn push_goals_upto(world: Seq<EntityData>, map: &TileMap, n: int) -> Seq<Goal>
    decreases n,
{
    if n <= 0 {
        Seq::empty()
    } else {
        push_goals_upto(world, map, n - 1) + push_goals_of(map, world[n - 1])
    }
}

/// The goals of actuating the first `n` entities, in the order of their
/// handles.
pub open spec fn actuate_goals_upto(world: Seq<EntityData>, map: &TileMap, n: int) -> Seq<Goal>
    decreases n,
{
    if n <= 0 {
        Seq::empty()
    } else {
        actuate_goals_upto(world, map, n - 1) + actuate_goals_of(map, world[n - 1])
    }
}

/// Everything the player could set out to do: walk to an exit, push a
/// movable, actuate an actuator.
pub open spec fn goals(world: Seq<EntityData>, map: &TileMap) -> Seq<Goal> {
    exit_goals(map.exits()) + push_goals_upto(world, map, world.len() as int) + actuate_goals_upto(
        world,
        map,
        world.len() as int,
    )
}

/// True if the goal's last turn, where it is a step, goes in a direction
/// of travel.
pub open spec fn goal_valid(goal: Goal) -> bool {
    goal.last matches Some(AiSubAction::Move(c)) ==> c.is_axis()
}

/// Adds the goal of pushing what stands on `pos` in direction `dir`.
fn add_push_goal(map: &TileMap, pos: Position, dir: Cardinal, list: &mut Vec<Goal>)
    requires
        map.wf(),
        map.in_bounds(pos.x as int, pos.y as int),
        dir.is_axis(),
        forall|k: int| 0 <= k < old(list)@.len() ==> goal_valid(#[trigger] old(list)@[k]),
    ensures
        final(list)@ == old(list)@ + push_goal(map, pos, dir),
        forall|k: int| 0 <= k < final(list)@.len() ==> goal_valid(#[trigger] final(list)@[k]),
{
    let (dx, dy) = dir.get_delta_xy();
    if map.is_blocked(pos.x + dx, pos.y + dy) {
        assert(list@ =~= list@ + push_goal(map, pos, dir));
        return ;
    }
    list.push(
        Goal {
            action: AiAction::PushAt(pos.x, pos.y, dir),
            to: (pos.x - dx, pos.y - dy),
            last: Some(AiSubAction::Move(dir)),
        },
    );
    assert(list@ =~= old(list)@ + push_goal(map, pos, dir));
}

/// Adds the goal of actuating what stands on `pos` from the tile next to
/// it in direction `dir`.
fn add_actuate_goal(map: &TileMap, pos: Position, dir: Cardinal, list: &mut Vec<Goal>)
    requires
        map.wf(),
        map.in_bounds(pos.x as int, pos.y as int),
        dir.is_axis(),
        forall|k: int| 0 <= k < old(list)@.len() ==> goal_valid(#[trigger] old(list)@[k]),
    ensures
        final(list)@ == old(list)@.push(actuate_goal(pos, dir)),
        forall|k: int| 0 <= k < final(list)@.len() ==> goal_valid(#[trigger] final(list)@[k]),
{
    let (dx, dy) = dir.get_delta_xy();
    list.push(
        Goal {
            action: AiAction::ActivateAt(pos.x, pos.y),
            to: (pos.x + dx, pos.y + dy),
            last: Some(AiSubAction::Actuate),
        },
    );
}

/// Lists everything the player could set out to do: walk to each exit,
/// push each movable in each direction in which the tile behind it is
/// free, and actuate each actuator from each side.
pub fn list_goals(world: &World, map: &TileMap) -> (list: Vec<Goal>)
    requires
        map.wf(),
    ensures
        list@ == goals(world@, map),
        forall|k: int| 0 <= k < list@.len() ==> goal_valid(#[trigger] list@[k]),
{
    let mut list: Vec<Goal> = Vec::new();
    let exits = map.get_exits();
    let mut k: usize = 0;
    while k < exits.len()
        invariant
            0 <= k <= exits@.len(),
            list@.len() == k,
            forall|j: int|
                0 <= j < k ==> #[trigger] list@[j] == (Goal {
                    action: AiAction::ExitTo(exits@[j].0, exits@[j].1),
                    to: exits@[j],
                    last: None,
                }),
        decreases exits@.len() - k,
    {
        let (x, y) = exits[k];
        list.push(Goal { action: AiAction::ExitTo(x, y), to: (x, y), last: None });
        k = k + 1;
    }
    assert(list@ =~= exit_goals(map.exits()));
    let ghost first = list@;
    let n = world.len();
    let mut i: usize = 0;
    assert(list@ =~= first + push_goals_upto(world@, map, 0));
    while i < n
        invariant
            0 <= i <= n,
            n == world@.len(),
            map.wf(),
            list@ == first + push_goals_upto(world@, map, i as int),
            forall|k: int| 0 <= k < list@.len() ==> goal_valid(#[trigger] list@[k]),
        decreases n - i,
    {
        let data = world.get(Entity(i));
        let pos = data.position;
        let ghost before = list@;
        if data.movable.is_some() && map.is_inside(pos.x, pos.y) {
            add_push_goal(map, pos, Cardinal::N, &mut list);
            add_push_goal(map, pos, Cardinal::S, &mut list);
            add_push_goal(map, pos, Cardinal::W, &mut list);
            add_push_goal(map, pos, Cardinal::E, &mut list);
        }
        assert(list@ =~= before + push_goals_of(map, world@[i as int]));
        assert(list@ =~= first + push_goals_upto(world@, map, i + 1));
        i = i + 1;
    }
    let ghost second = list@;
    let mut i: usize = 0;
    assert(list@ =~= second + actuate_goals_upto(world@, map, 0));
    while i < n
        invariant
            0 <= i <= n,
            n == world@.len(),
            map.wf(),
            list@ == second + actuate_goals_upto(world@, map, i as int),
            forall|k: int| 0 <= k < list@.len() ==> goal_valid(#[trigger] list@[k]),
        decreases n - i,
    {
        let data = world.get(Entity(i));
        let pos = data.position;
        let ghost before = list@;
        if data.actuator.is_some() && map.is_inside(pos.x, pos.y) {
            add_actuate_goal(map, pos, Cardinal::N, &mut list);
            add_actuate_goal(map, pos, Cardinal::S, &mut list);
            add_actuate_goal(map, pos, Cardinal::W, &mut list);
            add_actuate_goal(map, pos, Cardinal::E, &mut list);
        }
        assert(list@ =~= before + actuate_goals_of(map, world@[i as int]));
        assert(list@ =~= second + actuate_goals_upto(world@, map, i + 1));
        i = i + 1;
    }
    list
}

/// One step for each direction of the path.
pub open spec fn steps_of(path: Seq<Cardinal>) -> Seq<AiSubAction> {
    Seq::new(path.len(), |k: int| AiSubAction::Move(path[k]))
}

/// The last turn of a goal, if it has one.
pub open spec fn tail_of(last: Option<AiSubAction>) -> Seq<AiSubAction> {
    match last {
        Some(sub) => seq![sub],
        None => Seq::empty(),
    }
}

/// True if the candidate carries out the goal from `from`: it names the
/// goal's action, and its turns are the steps of a shortest route to the
/// goal's tile followed by the goal's last turn.
pub open spec fn fulfils(map: &TileMap, from: (int, int), goal: Goal, candidate: Candidate) -> bool {
    &&& candidate.0 == goal.action
    &&& exists|path: Seq<Cardinal>|
        #[trigger] map.shortest_route(from, (goal.to.0 as int, goal.to.1 as int), path)
            && candidate.1@ == steps_of(path) + tail_of(goal.last)
}

/// True if `out` holds, in the order of `goals`, one candidate for each
/// goal whose tile can be reached from `from`, and that candidate carries
/// out the goal.
pub open spec fn planned(map: &TileMap, from: (int, int), goals: Seq<Goal>, out: Seq<Candidate>) -> bool
    decreases goals.len(),
{
    if goals.len() == 0 {
        out.len() == 0
    } else {
        let goal = goals.last();
        if map.reachable(from, (goal.to.0 as int, goal.to.1 as int)) {
            &&& out.len() > 0
            &&& fulfils(map, from, goal, out.last())
            &&& planned(map, from, goals.drop_last(), out.drop_last())
        } else {
            planned(map, from, goals.drop_last(), out)
        }
    }
}

/// True if `out` holds the candidates of each player among the first `n`
/// entities that stands in the grid, player after player in the order of
/// their handles.
pub open spec fn planned_upto(
    world: Seq<EntityData>,
    map: &TileMap,
    goals: Seq<Goal>,
    n: int,
    out: Seq<Candidate>,
) -> bool
    decreases n,
{
    if n <= 0 {
        out.len() == 0
    } else if world[n - 1].player is Some && map.in_bounds(
        world[n - 1].position.x as int,
        world[n - 1].position.y as int,
    ) {
        exists|cut: int|
            0 <= cut <= out.len() && planned_upto(world, map, goals, n - 1, #[trigger] out.take(cut))
                && planned(
                map,
                (world[n - 1].position.x as int, world[n - 1].position.y as int),
                goals,
                out.skip(cut),
            )
    } else {
        planned_upto(world, map, goals, n - 1, out)
    }
}

/// Looks for a way to carry out the goal from `from`: a shortest route to
/// the goal's tile, followed by the goal's last turn. `None` if the tile
/// cannot be reached.
pub fn plan(map: &TileMap, from: (i32, i32), goal: &Goal) -> (r: Option<Candidate>)
    requires
        map.wf(),
        map.in_bounds(from.0 as int, from.1 as int),
        goal_valid(*goal),
    ensures
        match r {
            Some(candidate) => fulfils(map, (from.0 as int, from.1 as int), *goal, candidate)
                && subs_valid(candidate.1@),
            None => !map.reachable(
                (from.0 as int, from.1 as int),
                (goal.to.0 as int, goal.to.1 as int),
            ),
        },
{
    match map.try_go_to(from, goal.to) {
        Some(directions) => {
            let mut sub_actions: Vec<AiSubAction> = Vec::new();
            let mut k: usize = 0;
            proof {
                map.lemma_route_steps(
                    (from.0 as int, from.1 as int),
                    (goal.to.0 as int, goal.to.1 as int),
                    directions@,
                );
            }
            while k < directions.len()
                invariant
                    0 <= k <= directions@.len(),
                    sub_actions@.len() == k,
                    forall|j: int| 0 <= j < k ==> sub_actions@[j] == AiSubAction::Move(directions@[j]),
                    forall|j: int| 0 <= j < directions@.len() ==> (#[trigger] directions@[j]).is_axis(),
                decreases directions@.len() - k,
            {
                sub_actions.push(AiSubAction::Move(directions[k]));
                k = k + 1;
            }
            assert(sub_actions@ =~= steps_of(directions@));
            match goal.last {
                Some(sub) => {
                    sub_actions.push(sub);
                },
                None => {},
            }
            assert(sub_actions@ =~= steps_of(directions@) + tail_of(goal.last));
            assert(subs_valid(sub_actions@)) by {
                assert forall|j: int| 0 <= j < sub_actions@.len() implies ((#[trigger] sub_actions@[j]) matches AiSubAction::Move(
                    c,
                ) ==> c.is_axis()) by {
                    if j < directions@.len() {
                        assert(sub_actions@[j] == AiSubAction::Move(directions@[j]));
                        assert(directions@[j].is_axis());
                    }
                }
            }
            let candidate = (goal.action, sub_actions);
            assert(map.shortest_route(
                (from.0 as int, from.1 as int),
                (goal.to.0 as int, goal.to.1 as int),
                directions@,
            ));
            Some(candidate)
        },
        None => None,
    }
}

impl AI {
    /// The candidates of the player: for each thing the player could set out
    /// to do, in the order of [`goals`], the turns that do it, if the player
    /// can walk there. Nothing is listed for a player outside the grid.
    pub fn find_possible_actions(&self, world: &World, map: &TileMap) -> (actions: Vec<Candidate>)
        requires
            map.wf(),
        ensures
            planned_upto(world@, map, goals(world@, map), world@.len() as int, actions@),
            candidates_valid(actions@),
    {
        let mut actions: Vec<Candidate> = Vec::new();
        let list = list_goals(world, map);
        let n = world.len();
        let mut i: usize = 0;
        while i < n
            invariant
                0 <= i <= n,
                n == world@.len(),
                map.wf(),
                list@ == goals(world@, map),
                forall|k: int| 0 <= k < list@.len() ==> goal_valid(#[trigger] list@[k]),
                planned_upto(world@, map, list@, i as int, actions@),
                candidates_valid(actions@),
            decreases n - i,
        {
            let data = world.get(Entity(i));
            let pos = data.position;
            if data.player.is_some() && map.is_inside(pos.x, pos.y) {
                let ghost before = actions@;
                let ghost from = (pos.x as int, pos.y as int);
                let mut k: usize = 0;
                assert(actions@.skip(before.len() as int) =~= Seq::<Candidate>::empty());
                assert(list@.take(0) =~= Seq::<Goal>::empty());
                while k < list.len()
                    invariant
                        0 <= k <= list@.len(),
                        map.wf(),
                        map.in_bounds(pos.x as int, pos.y as int),
                        from == (pos.x as int, pos.y as int),
                        forall|j: int| 0 <= j < list@.len() ==> goal_valid(#[trigger] list@[j]),
                        before.len() <= actions@.len(),
                        actions@.take(before.len() as int) == before,
                        planned(map, from, list@.take(k as int), actions@.skip(before.len() as int)),
                        candidates_valid(actions@),
                    decreases list@.len() - k,
                {
                    let ghost sofar = actions@;
                    let ghost goal = list@[k as int];
                    proof {
                        assert(list@.take(k + 1).drop_last() =~= list@.take(k as int));
                        assert(list@.take(k + 1).last() == goal);
                    }
                    match plan(map, (pos.x, pos.y), &list[k]) {
                        Some(candidate) => {
                            actions.push(candidate);
                            proof {
                                let tail = actions@.skip(before.len() as int);
                                assert(tail.drop_last() =~= sofar.skip(before.len() as int));
                                assert(tail.last() == candidate);
                                assert(actions@.take(before.len() as int) =~= before);
                                assert(map.reachable(from, (goal.to.0 as int, goal.to.1 as int))) by {
                                    let path = choose|path: Seq<Cardinal>|
                                        #[trigger] map.shortest_route(
                                            from,
                                            (goal.to.0 as int, goal.to.1 as int),
                                            path,
                                        ) && candidate.1@ == steps_of(path) + tail_of(goal.last);
                                    assert(map.is_route(from, (goal.to.0 as int, goal.to.1 as int), path));
                                }
                                assert forall|i: int| 0 <= i < actions@.len() implies subs_valid(
                                    (#[trigger] actions@[i]).1@,
                                ) by {
                                    if i < sofar.len() {
                                        assert(actions@[i] == sofar[i]);
                                    }
                                }
                            }
                        },
                        None => {},
                    }
                    k = k + 1;
                }
                proof {
                    assert(list@.take(list@.len() as int) =~= list@);
                    let cut = before.len() as int;
                    assert(planned_upto(world@, map, list@, i as int, actions@.take(cut)));
                    assert(planned(map, from, list@, actions@.skip(cut)));
                    assert(planned_upto(world@, map, list@, i + 1, actions@));
                }
            } else {
                assert(planned_upto(world@, map, list@, i + 1, actions@));
            }
            i = i + 1;
        }
        actions
    }
}

} // verus!
