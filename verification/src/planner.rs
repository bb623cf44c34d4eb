//! Shortest walkable routes on the grid.

use vstd::prelude::*;
use crate::components::Cardinal;
use crate::map::{lemma_index_in_range, lemma_index_injective, TileMap};

verus! {

/// The tile one step from `p` in direction `d`.
pub open spec fn step(p: (int, int), d: Cardinal) -> (int, int) {
    (p.0 + d.delta().0, p.1 + d.delta().1)
}

/// The tile reached from `from` by taking the steps of `path` in turn.
pub open spec fn walk(from: (int, int), path: Seq<Cardinal>) -> (int, int)
    decreases path.len(),
{
    if path.len() == 0 {
        from
    } else {
        walk(step(from, path[0]), path.drop_first())
    }
}

impl TileMap {
    /// True if some route leads from `from` to `to`.
    pub open spec fn reachable(&self, from: (int, int), to: (int, int)) -> bool {
        exists|path: Seq<Cardinal>| self.is_route(from, to, path)
    }

    /// True if `path` is a route from `from` to `to` and no route between
    /// the two is shorter.
    pub open spec fn shortest_route(
        &self,
        from: (int, int),
        to: (int, int),
        path: Seq<Cardinal>,
    ) -> bool {
        &&& self.is_route(from, to, path)
        &&& forall|other: Seq<Cardinal>| self.is_route(from, to, other) ==> path.len() <= other.len()
    }

    /// True if `path` leads from `from` to `to` over walkable tiles: every
    /// step goes north, south, east or west and lands on a tile of the grid
    /// that is neither blocked nor lasered. The tile `from` itself may be
    /// anything.
    pub open spec fn is_route(&self, from: (int, int), to: (int, int), path: Seq<Cardinal>) -> bool
        decreases path.len(),
    {
        if path.len() == 0 {
            from == to
        } else {
            let next = step(from, path[0]);
            &&& path[0].is_axis()
            &&& self.walkable(next.0, next.1)
            &&& self.is_route(next, to, path.drop_first())
        }
    }

    /// A route ends where its steps lead.
    pub proof fn lemma_route_walk(&self, from: (int, int), to: (int, int), path: Seq<Cardinal>)
        requires
            self.is_route(from, to, path),
        ensures
            walk(from, path) == to,
        decreases path.len(),
    {
        if path.len() > 0 {
            self.lemma_route_walk(step(from, path[0]), to, path.drop_first());
        }
    }

    /// Every step of a route goes north, south, east or west.
    pub proof fn lemma_route_steps(&self, from: (int, int), to: (int, int), path: Seq<Cardinal>)
        requires
            self.is_route(from, to, path),
        ensures
            forall|k: int| 0 <= k < path.len() ==> (#[trigger] path[k]).is_axis(),
        decreases path.len(),
    {
        if path.len() > 0 {
            self.lemma_route_steps(step(from, path[0]), to, path.drop_first());
            assert forall|k: int| 0 <= k < path.len() implies (#[trigger] path[k]).is_axis() by {
                if k > 0 {
                    assert(path[k] == path.drop_first()[k - 1]);
                }
            }
        }
    }

    /// A route with at least one step ends on a walkable tile.
    pub proof fn lemma_route_end_walkable(
        &self,
        from: (int, int),
        to: (int, int),
        path: Seq<Cardinal>,
    )
        requires
            self.is_route(from, to, path),
            path.len() > 0,
        ensures
            self.walkable(to.0, to.1),
        decreases path.len(),
    {
        if path.len() > 1 {
            self.lemma_route_end_walkable(step(from, path[0]), to, path.drop_first());
        } else {
            let next = step(from, path[0]);
            assert(path.drop_first().len() == 0);
            assert(self.is_route(next, to, path.drop_first()));
            assert(next == to);
        }
    }

    /// A route can be extended by one more step onto a walkable tile.
    pub proof fn lemma_route_extend(
        &self,
        from: (int, int),
        mid: (int, int),
        path: Seq<Cardinal>,
        d: Cardinal,
    )
        requires
            self.is_route(from, mid, path),
            d.is_axis(),
            self.walkable(step(mid, d).0, step(mid, d).1),
        ensures
            self.is_route(from, step(mid, d), path.push(d)),
        decreases path.len(),
    {
        let longer = path.push(d);
        if path.len() == 0 {
            assert(longer.drop_first() =~= Seq::<Cardinal>::empty());
            assert(longer[0] == d);
            assert(self.is_route(step(mid, d), step(mid, d), longer.drop_first()));
        } else {
            self.lemma_route_extend(step(from, path[0]), mid, path.drop_first(), d);
            assert(longer.drop_first() =~= path.drop_first().push(d));
            assert(longer[0] == path[0]);
        }
    }
}

/// What the search knows of one tile: whether it was reached, in how many
/// steps, and by a step in which direction.
#[derive(Clone, Copy)]
struct Mark {
    seen: bool,
    dist: usize,
    via: Cardinal,
}

/// Number of marks that are seen.
spec fn count_seen(marks: Seq<Mark>) -> nat
    decreases marks.len(),
{
    if marks.len() == 0 {
        0
    } else {
        count_seen(marks.drop_last()) + if marks.last().seen {
            1nat
        } else {
            0nat
        }
    }
}

proof fn lemma_count_bound(marks: Seq<Mark>)
    ensures
        count_seen(marks) <= marks.len(),
    decreases marks.len(),
{
    if marks.len() > 0 {
        lemma_count_bound(marks.drop_last());
    }
}

proof fn lemma_count_none(marks: Seq<Mark>)
    requires
        forall|k: int| 0 <= k < marks.len() ==> !(#[trigger] marks[k]).seen,
    ensures
        count_seen(marks) == 0,
    decreases marks.len(),
{
    if marks.len() > 0 {
        lemma_count_none(marks.drop_last());
    }
}

proof fn lemma_count_update(marks: Seq<Mark>, k: int, m: Mark)
    requires
        0 <= k < marks.len(),
        !marks[k].seen,
        m.seen,
    ensures
        count_seen(marks.update(k, m)) == count_seen(marks) + 1,
    decreases marks.len(),
{
    let after = marks.update(k, m);
    if k == marks.len() - 1 {
        assert(after.drop_last() =~= marks.drop_last());
    } else {
        lemma_count_update(marks.drop_last(), k, m);
        assert(after.drop_last() =~= marks.drop_last().update(k, m));
    }
}

/// Marks only grow: what was seen stays as it was.
spec fn grows(before: Seq<Mark>, after: Seq<Mark>) -> bool {
    &&& before.len() == after.len()
    &&& forall|k: int| 0 <= k < before.len() && (#[trigger] before[k]).seen ==> after[k] == before[k]
}

impl TileMap {
    spec fn mark(&self, marks: Seq<Mark>, x: int, y: int) -> Mark {
        marks[y * self.width() + x]
    }

    spec fn seen(&self, marks: Seq<Mark>, x: int, y: int) -> bool {
        self.in_bounds(x, y) && self.mark(marks, x, y).seen
    }

    /// A seen tile other than the start was entered from a seen neighbour
    /// that is one step nearer to the start.
    #[verifier::opaque]
    spec fn linked(&self, marks: Seq<Mark>, x: int, y: int) -> bool {
        let m = self.mark(marks, x, y);
        let px = x - m.via.delta().0;
        let py = y - m.via.delta().1;
        &&& m.via.is_axis()
        &&& self.walkable(x, y)
        &&& self.seen(marks, px, py)
        &&& m.dist == self.mark(marks, px, py).dist + 1
    }

    /// The marks form a tree of routes rooted at `from`.
    spec fn tree(&self, from: (int, int), marks: Seq<Mark>) -> bool {
        &&& marks.len() == self.width() * self.height()
        &&& self.in_bounds(from.0, from.1)
        &&& self.seen(marks, from.0, from.1)
        &&& self.mark(marks, from.0, from.1).dist == 0
        &&& forall|x: int, y: int|
            #[trigger] self.seen(marks, x, y) && (x, y) != from ==> self.linked(marks, x, y)
    }

    /// The walkable neighbour of `(x, y)` in direction `d`, if there is one,
    /// is seen, at most one step further from the start.
    #[verifier::opaque]
    spec fn reaches(&self, marks: Seq<Mark>, x: int, y: int, d: Cardinal) -> bool {
        let n = step((x, y), d);
        self.walkable(n.0, n.1) ==> self.seen(marks, n.0, n.1) && self.mark(marks, n.0, n.1).dist
            <= self.mark(marks, x, y).dist + 1
    }

    spec fn closed_at(&self, marks: Seq<Mark>, x: int, y: int) -> bool {
        &&& self.reaches(marks, x, y, Cardinal::N)
        &&& self.reaches(marks, x, y, Cardinal::S)
        &&& self.reaches(marks, x, y, Cardinal::E)
        &&& self.reaches(marks, x, y, Cardinal::W)
    }

    /// The search is complete: the marks form a tree and every walkable
    /// neighbour of a seen tile is seen.
    spec fn explored(&self, from: (int, int), marks: Seq<Mark>) -> bool {
        &&& self.tree(from, marks)
        &&& forall|x: int, y: int| #[trigger] self.seen(marks, x, y) ==> self.closed_at(marks, x, y)
    }

    /// The state of a search in progress. `queue[..head]` holds the tiles
    /// whose neighbours were visited, `queue[head..]` those still to visit,
    /// in the order in which they were reached.
    spec fn searching(
        &self,
        from: (int, int),
        marks: Seq<Mark>,
        queue: Seq<(i32, i32)>,
        head: int,
    ) -> bool {
        &&& self.tree(from, marks)
        &&& 0 <= head <= queue.len()
        &&& queue.len() == count_seen(marks)
        &&& forall|i: int|
            0 <= i < queue.len() ==> self.seen(marks, (#[trigger] queue[i]).0 as int, queue[i].1 as int)
        &&& forall|x: int, y: int|
            #[trigger] self.seen(marks, x, y) ==> exists|i: int|
                0 <= i < queue.len() && #[trigger] queue[i] == (x as i32, y as i32)
        &&& forall|i: int, j: int|
            0 <= i <= j < queue.len() ==> self.mark(
                marks,
                (#[trigger] queue[i]).0 as int,
                queue[i].1 as int,
            ).dist <= self.mark(marks, (#[trigger] queue[j]).0 as int, queue[j].1 as int).dist
        &&& head < queue.len() ==> forall|j: int|
            0 <= j < queue.len() ==> self.mark(
                marks,
                (#[trigger] queue[j]).0 as int,
                queue[j].1 as int,
            ).dist <= self.mark(marks, queue[head].0 as int, queue[head].1 as int).dist + 1
        &&& forall|i: int|
            0 <= i < head ==> self.closed_at(marks, (#[trigger] queue[i]).0 as int, queue[i].1 as int)
        &&& forall|i: int|
            0 <= i < queue.len() ==> self.mark(
                marks,
                (#[trigger] queue[i]).0 as int,
                queue[i].1 as int,
            ).dist < queue.len()
    }

    /// A neighbour that was reached stays reached while the marks grow.
    proof fn lemma_reaches_stable(
        &self,
        before: Seq<Mark>,
        after: Seq<Mark>,
        x: int,
        y: int,
        d: Cardinal,
    )
        requires
            self.wf(),
            grows(before, after),
            before.len() == self.width() * self.height(),
            self.seen(before, x, y),
            self.reaches(before, x, y, d),
        ensures
            self.reaches(after, x, y, d),
    {
        reveal(TileMap::reaches);
        self.lemma_grows(before, after);
        let n = step((x, y), d);
        if self.walkable(n.0, n.1) {
            assert(self.seen(before, n.0, n.1));
        }
    }

    proof fn lemma_linked_elim(&self, marks: Seq<Mark>, x: int, y: int)
        requires
            self.linked(marks, x, y),
        ensures
            self.mark(marks, x, y).via.is_axis(),
            self.walkable(x, y),
            self.seen(
                marks,
                x - self.mark(marks, x, y).via.delta().0,
                y - self.mark(marks, x, y).via.delta().1,
            ),
            self.mark(marks, x, y).dist == self.mark(
                marks,
                x - self.mark(marks, x, y).via.delta().0,
                y - self.mark(marks, x, y).via.delta().1,
            ).dist + 1,
    {
        reveal(TileMap::linked);
    }

    proof fn lemma_linked_intro(&self, marks: Seq<Mark>, x: int, y: int)
        requires
            self.mark(marks, x, y).via.is_axis(),
            self.walkable(x, y),
            self.seen(
                marks,
                x - self.mark(marks, x, y).via.delta().0,
                y - self.mark(marks, x, y).via.delta().1,
            ),
            self.mark(marks, x, y).dist == self.mark(
                marks,
                x - self.mark(marks, x, y).via.delta().0,
                y - self.mark(marks, x, y).via.delta().1,
            ).dist + 1,
        ensures
            self.linked(marks, x, y),
    {
        reveal(TileMap::linked);
    }

    proof fn lemma_reaches_elim(&self, marks: Seq<Mark>, x: int, y: int, d: Cardinal)
        requires
            self.reaches(marks, x, y, d),
            self.walkable(step((x, y), d).0, step((x, y), d).1),
        ensures
            self.seen(marks, step((x, y), d).0, step((x, y), d).1),
            self.mark(marks, step((x, y), d).0, step((x, y), d).1).dist <= self.mark(
                marks,
                x,
                y,
            ).dist + 1,
    {
        reveal(TileMap::reaches);
    }

    proof fn lemma_reaches_intro(&self, marks: Seq<Mark>, x: int, y: int, d: Cardinal)
        requires
            self.walkable(step((x, y), d).0, step((x, y), d).1) ==> self.seen(
                marks,
                step((x, y), d).0,
                step((x, y), d).1,
            ) && self.mark(marks, step((x, y), d).0, step((x, y), d).1).dist <= self.mark(
                marks,
                x,
                y,
            ).dist + 1,
        ensures
            self.reaches(marks, x, y, d),
    {
        reveal(TileMap::reaches);
    }

    /// In coordinates: what was seen stays as it was.
    proof fn lemma_grows(&self, before: Seq<Mark>, after: Seq<Mark>)
        requires
            self.wf(),
            grows(before, after),
            before.len() == self.width() * self.height(),
        ensures
            forall|x: int, y: int|
                #[trigger] self.seen(before, x, y) ==> self.seen(after, x, y) && self.mark(
                    after,
                    x,
                    y,
                ) == self.mark(before, x, y),
    {
        assert forall|x: int, y: int| #[trigger] self.seen(before, x, y) implies self.seen(
            after,
            x,
            y,
        ) && self.mark(after, x, y) == self.mark(before, x, y) by {
            lemma_index_in_range(self.width() as int, self.height() as int, x, y);
        }
    }

    /// Once the search is complete, every tile that a route reaches is
    /// seen, at a distance no longer than the route.
    proof fn lemma_route_seen(
        &self,
        from: (int, int),
        marks: Seq<Mark>,
        a: (int, int),
        to: (int, int),
        path: Seq<Cardinal>,
    )
        requires
            self.explored(from, marks),
            self.seen(marks, a.0, a.1),
            self.is_route(a, to, path),
        ensures
            self.seen(marks, to.0, to.1),
            self.mark(marks, to.0, to.1).dist <= self.mark(marks, a.0, a.1).dist + path.len(),
        decreases path.len(),
    {
        if path.len() > 0 {
            let next = step(a, path[0]);
            assert(self.closed_at(marks, a.0, a.1));
            assert(self.reaches(marks, a.0, a.1, path[0]));
            self.lemma_reaches_elim(marks, a.0, a.1, path[0]);
            self.lemma_route_seen(from, marks, next, to, path.drop_first());
        }
    }

    /// Every seen tile is the end of a route from the start, as long as its
    /// distance.
    proof fn lemma_seen_route(&self, from: (int, int), marks: Seq<Mark>, x: int, y: int) -> (path:
        Seq<Cardinal>)
        requires
            self.tree(from, marks),
            self.seen(marks, x, y),
        ensures
            self.is_route(from, (x, y), path),
            path.len() == self.mark(marks, x, y).dist,
        decreases self.mark(marks, x, y).dist,
    {
        if (x, y) == from {
            Seq::empty()
        } else {
            assert(self.linked(marks, x, y));
            self.lemma_linked_elim(marks, x, y);
            let m = self.mark(marks, x, y);
            let px = x - m.via.delta().0;
            let py = y - m.via.delta().1;
            let shorter = self.lemma_seen_route(from, marks, px, py);
            self.lemma_route_extend(from, (px, py), shorter, m.via);
            shorter.push(m.via)
        }
    }

    /// Reads the mark of a tile.
    fn mark_of(&self, marks: &Vec<Mark>, x: i32, y: i32) -> (m: Mark)
        requires
            self.wf(),
            self.in_bounds(x as int, y as int),
            marks@.len() == self.width() * self.height(),
        ensures
            m == self.mark(marks@, x as int, y as int),
    {
        let idx = self.xy_idx(x, y);
        marks[idx]
    }

    /// Marks an unseen tile as seen.
    fn set_mark(&self, marks: &mut Vec<Mark>, x: i32, y: i32, m: Mark)
        requires
            self.wf(),
            self.in_bounds(x as int, y as int),
            old(marks)@.len() == self.width() * self.height(),
            !self.seen(old(marks)@, x as int, y as int),
            m.seen,
        ensures
            grows(old(marks)@, final(marks)@),
            self.mark(final(marks)@, x as int, y as int) == m,
            count_seen(final(marks)@) == count_seen(old(marks)@) + 1,
            forall|a: int, b: int|
                self.in_bounds(a, b) && (a, b) != (x as int, y as int) ==> #[trigger] self.mark(
                    final(marks)@,
                    a,
                    b,
                ) == self.mark(old(marks)@, a, b),
    {
        let idx = self.xy_idx(x, y);
        proof {
            lemma_count_update(marks@, idx as int, m);
        }
        marks[idx] = m;
        proof {
            assert forall|a: int, b: int|
                self.in_bounds(a, b) && (a, b) != (x as int, y as int) implies #[trigger] self.mark(
                marks@,
                a,
                b,
            ) == self.mark(old(marks)@, a, b) by {
                lemma_index_in_range(self.width() as int, self.height() as int, a, b);
                if b * self.width() + a == idx {
                    lemma_index_injective(self.width() as int, a, b, x as int, y as int);
                }
            }
        }
    }

    /// Looks at the neighbour of the tile at the head of the queue in
    /// direction `d`, and reaches it if it is walkable and new.
    fn visit(
        &self,
        from: (i32, i32),
        marks: &mut Vec<Mark>,
        queue: &mut Vec<(i32, i32)>,
        head: usize,
        d: Cardinal,
    )
        requires
            self.wf(),
            self.searching((from.0 as int, from.1 as int), old(marks)@, old(queue)@, head as int),
            head < old(queue)@.len(),
            d.is_axis(),
        ensures
            self.searching((from.0 as int, from.1 as int), final(marks)@, final(queue)@, head as int),
            grows(old(marks)@, final(marks)@),
            final(queue)@.len() >= old(queue)@.len(),
            forall|i: int| 0 <= i < old(queue)@.len() ==> final(queue)@[i] == old(queue)@[i],
            self.reaches(
                final(marks)@,
                old(queue)@[head as int].0 as int,
                old(queue)@[head as int].1 as int,
                d,
            ),
    {
        let ghost start = (from.0 as int, from.1 as int);
        let ghost marks0 = marks@;
        let ghost queue0 = queue@;
        let (x, y) = queue[head];
        assert(self.seen(marks0, queue0[head as int].0 as int, queue0[head as int].1 as int));
        let (dx, dy) = d.get_delta_xy();
        let nx = x + dx;
        let ny = y + dy;
        assert(step((x as int, y as int), d) == (nx as int, ny as int));
        if !self.is_exit_valid(nx, ny) {
            proof {
                self.lemma_reaches_intro(marks0, x as int, y as int, d);
            }
            return ;
        }
        if self.mark_of(marks, nx, ny).seen {
            proof {
                assert(self.seen(marks0, nx as int, ny as int));
                let j = choose|j: int|
                    0 <= j < queue0.len() && #[trigger] queue0[j] == (nx as int as i32, ny as int as i32);
                assert(queue0[j] == (nx, ny));
                self.lemma_reaches_intro(marks0, x as int, y as int, d);
            }
            return ;
        }
        let here = self.mark_of(marks, x, y);
        proof {
            self.lemma_size();
            lemma_count_bound(marks0);
        }
        self.set_mark(marks, nx, ny, Mark { seen: true, dist: here.dist + 1, via: d });
        queue.push((nx, ny));
        proof {
            let marks1 = marks@;
            let queue1 = queue@;
            self.lemma_grows(marks0, marks1);
            assert forall|a: int, b: int| #[trigger]
                self.seen(marks1, a, b) && (a, b) != start implies self.linked(marks1, a, b) by {
                if (a, b) == (nx as int, ny as int) {
                    assert(self.mark(marks1, x as int, y as int) == here);
                    self.lemma_linked_intro(marks1, a, b);
                } else {
                    assert(self.seen(marks0, a, b));
                    assert(self.linked(marks0, a, b));
                    self.lemma_linked_elim(marks0, a, b);
                    self.lemma_linked_intro(marks1, a, b);
                }
            }
            assert forall|i: int| 0 <= i < queue1.len() implies self.seen(
                marks1,
                (#[trigger] queue1[i]).0 as int,
                queue1[i].1 as int,
            ) by {
                if i < queue0.len() {
                    assert(queue1[i] == queue0[i]);
                    assert(self.seen(marks0, queue0[i].0 as int, queue0[i].1 as int));
                }
            }
            assert forall|a: int, b: int| #[trigger] self.seen(marks1, a, b) implies exists|i: int|
                0 <= i < queue1.len() && #[trigger] queue1[i] == (a as i32, b as i32) by {
                if (a, b) == (nx as int, ny as int) {
                    assert(queue1[queue0.len() as int] == (a as i32, b as i32));
                } else {
                    assert(self.seen(marks0, a, b));
                    let i = choose|i: int|
                        0 <= i < queue0.len() && #[trigger] queue0[i] == (a as i32, b as i32);
                    assert(queue1[i] == queue0[i]);
                }
            }
            assert forall|i: int| 0 <= i < queue1.len() implies self.mark(
                marks1,
                (#[trigger] queue1[i]).0 as int,
                queue1[i].1 as int,
            ) == (if i < queue0.len() {
                self.mark(marks0, queue0[i].0 as int, queue0[i].1 as int)
            } else {
                Mark { seen: true, dist: (here.dist + 1) as usize, via: d }
            }) by {
                if i < queue0.len() {
                    assert(queue1[i] == queue0[i]);
                    assert(self.seen(marks0, queue0[i].0 as int, queue0[i].1 as int));
                }
            }
            assert forall|i: int| 0 <= i < head implies self.closed_at(
                marks1,
                (#[trigger] queue1[i]).0 as int,
                queue1[i].1 as int,
            ) by {
                assert(queue1[i] == queue0[i]);
                let a = queue0[i].0 as int;
                let b = queue0[i].1 as int;
                assert(self.seen(marks0, a, b));
                assert(self.closed_at(marks0, a, b));
                self.lemma_reaches_stable(marks0, marks1, a, b, Cardinal::N);
                self.lemma_reaches_stable(marks0, marks1, a, b, Cardinal::S);
                self.lemma_reaches_stable(marks0, marks1, a, b, Cardinal::E);
                self.lemma_reaches_stable(marks0, marks1, a, b, Cardinal::W);
            }
            assert(self.mark(marks0, queue0[head as int].0 as int, queue0[head as int].1 as int)
                == here);
            assert(queue1[head as int] == queue0[head as int]);
            self.lemma_reaches_intro(marks1, x as int, y as int, d);
        }
    }

    /// Breadth-first search over the walkable tiles, starting at `from`.
    fn explore(&self, from: (i32, i32)) -> (marks: Vec<Mark>)
        requires
            self.wf(),
            self.in_bounds(from.0 as int, from.1 as int),
        ensures
            self.explored((from.0 as int, from.1 as int), marks@),
    {
        let ghost start = (from.0 as int, from.1 as int);
        proof {
            self.lemma_size();
        }
        let n: usize = (self.width() * self.height()) as usize;
        let mut marks: Vec<Mark> = Vec::new();
        let mut k: usize = 0;
        while k < n
            invariant
                0 <= k <= n,
                marks@.len() == k,
                forall|i: int| 0 <= i < k ==> !(#[trigger] marks@[i]).seen,
            decreases n - k,
        {
            marks.push(Mark { seen: false, dist: 0, via: Cardinal::N });
            k = k + 1;
        }
        let ghost blank = marks@;
        proof {
            lemma_count_none(blank);
            lemma_index_in_range(
                self.width() as int,
                self.height() as int,
                from.0 as int,
                from.1 as int,
            );
        }
        self.set_mark(&mut marks, from.0, from.1, Mark { seen: true, dist: 0, via: Cardinal::N });
        let mut queue: Vec<(i32, i32)> = Vec::new();
        queue.push(from);
        let mut head: usize = 0;
        proof {
            assert forall|a: int, b: int| #[trigger] self.seen(marks@, a, b) implies (a, b)
                == start by {
                if (a, b) != start {
                    lemma_index_in_range(self.width() as int, self.height() as int, a, b);
                    assert(self.mark(marks@, a, b) == self.mark(blank, a, b));
                }
            }
            assert(queue@[0] == from);
        }
        while head < queue.len()
            invariant
                self.wf(),
                start == (from.0 as int, from.1 as int),
                n == self.width() * self.height(),
                self.searching(start, marks@, queue@, head as int),
            decreases n - head,
        {
            let ghost marks0 = marks@;
            let ghost x = queue@[head as int].0 as int;
            let ghost y = queue@[head as int].1 as int;
            proof {
                lemma_count_bound(marks@);
            }
            self.visit(from, &mut marks, &mut queue, head, Cardinal::N);
            let ghost marks1 = marks@;
            self.visit(from, &mut marks, &mut queue, head, Cardinal::S);
            let ghost marks2 = marks@;
            self.visit(from, &mut marks, &mut queue, head, Cardinal::E);
            let ghost marks3 = marks@;
            self.visit(from, &mut marks, &mut queue, head, Cardinal::W);
            proof {
                assert(self.seen(marks0, x, y));
                self.lemma_grows(marks0, marks1);
                self.lemma_grows(marks1, marks2);
                self.lemma_grows(marks2, marks3);
                self.lemma_reaches_stable(marks1, marks2, x, y, Cardinal::N);
                self.lemma_reaches_stable(marks2, marks3, x, y, Cardinal::N);
                self.lemma_reaches_stable(marks3, marks@, x, y, Cardinal::N);
                self.lemma_reaches_stable(marks2, marks3, x, y, Cardinal::S);
                self.lemma_reaches_stable(marks3, marks@, x, y, Cardinal::S);
                self.lemma_reaches_stable(marks3, marks@, x, y, Cardinal::E);
                assert(self.closed_at(marks@, x, y));
            }
            head = head + 1;
        }
        proof {
            assert forall|a: int, b: int| #[trigger] self.seen(marks@, a, b) implies self.closed_at(
                marks@,
                a,
                b,
            ) by {
                let i = choose|i: int|
                    0 <= i < queue@.len() && #[trigger] queue@[i] == (a as i32, b as i32);
                assert(self.closed_at(marks@, queue@[i].0 as int, queue@[i].1 as int));
            }
        }
        marks
    }

    /// Follows the marks back from `to` and returns the route that the
    /// search found to it.
    fn trace(&self, from: (i32, i32), to: (i32, i32), marks: &Vec<Mark>) -> (path: Vec<Cardinal>)
        requires
            self.wf(),
            self.tree((from.0 as int, from.1 as int), marks@),
            self.seen(marks@, to.0 as int, to.1 as int),
        ensures
            self.is_route((from.0 as int, from.1 as int), (to.0 as int, to.1 as int), path@),
            path@.len() == self.mark(marks@, to.0 as int, to.1 as int).dist,
    {
        let ghost start = (from.0 as int, from.1 as int);
        let ghost end = (to.0 as int, to.1 as int);
        let n = self.mark_of(marks, to.0, to.1).dist;
        let mut path: Vec<Cardinal> = Vec::new();
        let mut k: usize = 0;
        while k < n
            invariant
                0 <= k <= n,
                path@.len() == k,
            decreases n - k,
        {
            path.push(Cardinal::N);
            k = k + 1;
        }
        let mut i: usize = n;
        let mut cur = to;
        assert(path@.subrange(n as int, n as int) =~= Seq::<Cardinal>::empty());
        while i > 0
            invariant
                self.wf(),
                self.tree(start, marks@),
                start == (from.0 as int, from.1 as int),
                end == (to.0 as int, to.1 as int),
                path@.len() == n,
                0 <= i <= n,
                self.seen(marks@, cur.0 as int, cur.1 as int),
                self.mark(marks@, cur.0 as int, cur.1 as int).dist == i,
                self.is_route((cur.0 as int, cur.1 as int), end, path@.subrange(i as int, n as int)),
            decreases i,
        {
            let m = self.mark_of(marks, cur.0, cur.1);
            proof {
                assert(self.linked(marks@, cur.0 as int, cur.1 as int));
                self.lemma_linked_elim(marks@, cur.0 as int, cur.1 as int);
            }
            let (dx, dy) = m.via.get_delta_xy();
            let prev = (cur.0 - dx, cur.1 - dy);
            let ghost rest = path@.subrange(i as int, n as int);
            i = i - 1;
            path[i] = m.via;
            proof {
                let longer = path@.subrange(i as int, n as int);
                assert(longer[0] == m.via);
                assert(longer.drop_first() =~= rest);
                assert(step((prev.0 as int, prev.1 as int), m.via) == (cur.0 as int, cur.1 as int));
            }
            cur = prev;
        }
        proof {
            if (cur.0 as int, cur.1 as int) != start {
                assert(self.linked(marks@, cur.0 as int, cur.1 as int));
                self.lemma_linked_elim(marks@, cur.0 as int, cur.1 as int);
            }
            assert(path@.subrange(0, n as int) =~= path@);
        }
        path
    }

    /// A shortest route from `from` to `to` over walkable tiles, or `None`
    /// if there is no route. The empty route leads from a tile to itself,
    /// whatever stands on it. For one state of the map the answer is always
    /// the same route.
    pub fn try_go_to(&self, from: (i32, i32), to: (i32, i32)) -> (r: Option<Vec<Cardinal>>)
        requires
            self.wf(),
            self.in_bounds(from.0 as int, from.1 as int),
        ensures
            match r {
                Some(path) => {
                    &&& self.shortest_route(
                        (from.0 as int, from.1 as int),
                        (to.0 as int, to.1 as int),
                        path@,
                    )
                    &&& walk((from.0 as int, from.1 as int), path@) == (to.0 as int, to.1 as int)
                },
                None => !self.reachable((from.0 as int, from.1 as int), (to.0 as int, to.1 as int)),
            },
    {
        let ghost start = (from.0 as int, from.1 as int);
        let ghost end = (to.0 as int, to.1 as int);
        if from.0 == to.0 && from.1 == to.1 {
            let path: Vec<Cardinal> = Vec::new();
            return Some(path);
        }
        if !self.is_exit_valid(to.0, to.1) {
            proof {
                assert forall|other: Seq<Cardinal>| !self.is_route(start, end, other) by {
                    if self.is_route(start, end, other) {
                        self.lemma_route_end_walkable(start, end, other);
                    }
                }
            }
            return None;
        }
        let marks = self.explore(from);
        proof {
            assert forall|other: Seq<Cardinal>| self.is_route(start, end, other) implies self.seen(
                marks@,
                end.0,
                end.1,
            ) && self.mark(marks@, end.0, end.1).dist <= other.len() by {
                self.lemma_route_seen(start, marks@, start, end, other);
            }
        }
        if !self.mark_of(&marks, to.0, to.1).seen {
            return None;
        }
        let path = self.trace(from, to, &marks);
        proof {
            self.lemma_route_walk(start, end, path@);
        }
        Some(path)
    }

    /// True if a route leads from `from` to `to` over walkable tiles.
    pub fn can_go_to(&self, from: (i32, i32), to: (i32, i32)) -> (b: bool)
        requires
            self.wf(),
            self.in_bounds(from.0 as int, from.1 as int),
        ensures
            b == self.reachable((from.0 as int, from.1 as int), (to.0 as int, to.1 as int)),
    {
        let ghost start = (from.0 as int, from.1 as int);
        let ghost end = (to.0 as int, to.1 as int);
        if from.0 == to.0 && from.1 == to.1 {
            assert(self.is_route(start, end, Seq::<Cardinal>::empty()));
            return true;
        }
        if !self.is_exit_valid(to.0, to.1) {
            proof {
                assert forall|other: Seq<Cardinal>| !self.is_route(start, end, other) by {
                    if self.is_route(start, end, other) {
                        self.lemma_route_end_walkable(start, end, other);
                    }
                }
            }
            return false;
        }
        let marks = self.explore(from);
        let found = self.mark_of(&marks, to.0, to.1).seen;
        proof {
            if found {
                let path = self.lemma_seen_route(start, marks@, end.0, end.1);
                assert(self.is_route(start, end, path));
            } else {
                assert forall|other: Seq<Cardinal>| !self.is_route(start, end, other) by {
                    if self.is_route(start, end, other) {
                        self.lemma_route_seen(start, marks@, start, end, other);
                    }
                }
            }
        }
        found
    }
}

} // verus!
