//! Best-first search over a graph that a problem describes.

use vstd::prelude::*;

verus! {

/// A graph to search: where the search starts, where each state leads, what
/// reaching the goal from a state costs at least, and which states are goals.
pub trait AStarProblem {
    /// What is done to get from a state to the next.
    type ActionType: Copy;

    /// A place that the search can be at.
    type StateType: Copy;

    /// What the problem's methods ask of the problem itself.
    spec fn well_formed(&self) -> bool;

    /// Whether `state` is a state of the graph.
    spec fn state_ok(&self, state: Self::StateType) -> bool;

    /// The number of states of the graph.
    spec fn state_count(&self) -> nat;

    /// The number that stands for `state`: below `state_count`, and another
    /// for every state.
    spec fn state_index(&self, state: Self::StateType) -> nat;

    /// The state that the search starts at.
    spec fn initial(&self) -> Self::StateType;

    /// The ways on from `state`: for each the cost, the action and the state
    /// it leads to.
    spec fn successors_of(&self, state: Self::StateType) -> Seq<
        (u64, Self::ActionType, Self::StateType),
    >;

    /// The estimate of the cost from `state` to a goal.
    spec fn estimate(&self, state: Self::StateType) -> u64;

    /// Whether `state` is a goal.
    spec fn is_goal(&self, state: Self::StateType) -> bool;

    /// States have different numbers, all below the number of states; the
    /// search starts at a state, and states lead to states.
    proof fn lemma_states(&self, a: Self::StateType, b: Self::StateType)
        requires
            self.well_formed(),
        ensures
            self.state_ok(self.initial()),
            self.state_ok(a) ==> self.state_index(a) < self.state_count(),
            self.state_ok(a) && self.state_ok(b) && self.state_index(a) == self.state_index(b)
                ==> a == b,
            self.state_ok(a) ==> forall|k: int|
                0 <= k < self.successors_of(a).len() ==> self.state_ok(
                    (#[trigger] self.successors_of(a)[k]).2,
                ),
    ;

    /// The number of states of the graph.
    fn state_total(&self) -> (r: usize)
        requires
            self.well_formed(),
        ensures
            r == self.state_count(),
    ;

    /// The number that stands for `state`.
    fn state_id(&self, state: &Self::StateType) -> (r: usize)
        requires
            self.well_formed(),
            self.state_ok(*state),
        ensures
            r == self.state_index(*state),
    ;

    /// The state that the search starts at.
    fn initial_state(&self) -> (r: Self::StateType)
        requires
            self.well_formed(),
        ensures
            r == self.initial(),
    ;

    /// The ways on from `state`.
    fn successors(&self, state: &Self::StateType) -> (r: Vec<
        (u64, Self::ActionType, Self::StateType),
    >)
        requires
            self.well_formed(),
            self.state_ok(*state),
        ensures
            r@ == self.successors_of(*state),
    ;

    /// The estimate of the cost from `state` to a goal.
    fn heuristic(&self, state: &Self::StateType) -> (r: u64)
        requires
            self.well_formed(),
            self.state_ok(*state),
        ensures
            r == self.estimate(*state),
    ;

    /// Whether `state` is a goal.
    fn is_goal_state(&self, state: &Self::StateType) -> (r: bool)
        requires
            self.well_formed(),
            self.state_ok(*state),
        ensures
            r == self.is_goal(*state),
    ;
}

/// What a search did.
#[derive(Clone, Copy, PartialEq, Eq, Structural, Debug)]
pub struct PathStats {
    /// The number of states that the search went on from or ended at.
    pub explored_nodes: u32,
}

/// The result of a search.
pub struct PathResult<ActionType> {
    /// What the search did.
    pub stats: PathStats,
    /// The actions that lead from the initial state to a goal, if there is a
    /// way.
    pub path: Option<Vec<ActionType>>,
}

/// A walk is a sequence of steps taken from a state; a step is the place of
/// a way among the ways on from the state it is taken at. This is the state
/// that the walk `steps` from `from` ends at.
pub open spec fn walk_end<P: AStarProblem>(
    problem: &P,
    from: P::StateType,
    steps: Seq<int>,
) -> P::StateType
    decreases steps.len(),
{
    if steps.len() == 0 {
        from
    } else {
        problem.successors_of(walk_end(problem, from, steps.drop_last()))[steps.last()].2
    }
}

/// Whether every step of the walk names a way on from the state it is taken
/// at.
pub open spec fn walk_ok<P: AStarProblem>(
    problem: &P,
    from: P::StateType,
    steps: Seq<int>,
) -> bool
    decreases steps.len(),
{
    if steps.len() == 0 {
        true
    } else {
        &&& walk_ok(problem, from, steps.drop_last())
        &&& 0 <= steps.last() < problem.successors_of(
            walk_end(problem, from, steps.drop_last()),
        ).len()
    }
}

/// The sum of the costs of the steps of a walk.
pub open spec fn walk_cost<P: AStarProblem>(
    problem: &P,
    from: P::StateType,
    steps: Seq<int>,
) -> int
    decreases steps.len(),
{
    if steps.len() == 0 {
        0
    } else {
        walk_cost(problem, from, steps.drop_last()) + problem.successors_of(
            walk_end(problem, from, steps.drop_last()),
        )[steps.last()].0
    }
}

/// The actions of the steps of a walk.
pub open spec fn walk_actions<P: AStarProblem>(
    problem: &P,
    from: P::StateType,
    steps: Seq<int>,
) -> Seq<P::ActionType>
    decreases steps.len(),
{
    if steps.len() == 0 {
        Seq::empty()
    } else {
        walk_actions(problem, from, steps.drop_last()).push(
            problem.successors_of(walk_end(problem, from, steps.drop_last()))[steps.last()].1,
        )
    }
}

/// `steps` is a walk from the initial state to a goal.
pub open spec fn reaches_goal<P: AStarProblem>(problem: &P, steps: Seq<int>) -> bool {
    walk_ok(problem, problem.initial(), steps) && problem.is_goal(
        walk_end(problem, problem.initial(), steps),
    )
}

/// The estimate is consistent: it is zero at a goal, and at no state more
/// than the cost of a way on plus the estimate at the state it leads to. An
/// estimate like this never exceeds the cost of a walk to a goal.
pub open spec fn consistent<P: AStarProblem>(problem: &P) -> bool {
    &&& forall|s: P::StateType|
        problem.state_ok(s) && #[trigger] problem.is_goal(s) ==> problem.estimate(s) == 0
    &&& forall|s: P::StateType, k: int|
        problem.state_ok(s) && 0 <= k < problem.successors_of(s).len() ==> problem.estimate(s)
            <= (#[trigger] problem.successors_of(s)[k]).0 + problem.estimate(
            problem.successors_of(s)[k].2,
        )
}

/// A walk from a state of the graph ends at a state of the graph.
pub proof fn lemma_walk_stays<P: AStarProblem>(problem: &P, from: P::StateType, steps: Seq<int>)
    requires
        problem.well_formed(),
        problem.state_ok(from),
        walk_ok(problem, from, steps),
    ensures
        problem.state_ok(walk_end(problem, from, steps)),
        walk_cost(problem, from, steps) >= 0,
    decreases steps.len(),
{
    if steps.len() > 0 {
        lemma_walk_stays(problem, from, steps.drop_last());
        let before = walk_end(problem, from, steps.drop_last());
        problem.lemma_states(before, before);
    }
}

/// A state that the search has reached, with the walk that reached it.
pub struct SearchNode<S, A> {
    /// The state.
    pub state: S,
    /// The cost of the walk.
    pub cost: u128,
    /// The node that the last step was taken at. The first node has none and
    /// names itself.
    pub parent: usize,
    /// The action of the last step.
    pub action: Option<A>,
}

/// A node that the search may go on from.
#[derive(Clone, Copy)]
pub struct OpenEntry {
    /// The cost of the node's walk plus the estimate at its state.
    pub total: u128,
    /// The index of the node.
    pub node: usize,
}

/// The number of `true` among the first `n` of `flags`.
pub open spec fn count_true(flags: Seq<bool>, n: int) -> int
    decreases n,
{
    if n <= 0 {
        0
    } else {
        count_true(flags, n - 1) + if flags[n - 1] {
            1int
        } else {
            0int
        }
    }
}

proof fn lemma_count_true_bounds(flags: Seq<bool>, n: int)
    requires
        0 <= n <= flags.len(),
    ensures
        0 <= count_true(flags, n) <= n,
    decreases n,
{
    if n > 0 {
        lemma_count_true_bounds(flags, n - 1);
    }
}

proof fn lemma_count_true_set(flags: Seq<bool>, k: int, n: int)
    requires
        0 <= k < flags.len(),
        0 <= n <= flags.len(),
        !flags[k],
    ensures
        count_true(flags.update(k, true), n) == count_true(flags, n) + if k < n {
            1int
        } else {
            0int
        },
    decreases n,
{
    if n > 0 {
        lemma_count_true_set(flags, k, n - 1);
    }
}

proof fn lemma_count_true_room(flags: Seq<bool>, k: int, n: int)
    requires
        0 <= k < n <= flags.len(),
        !flags[k],
    ensures
        count_true(flags, n) < n,
    decreases n,
{
    if n - 1 == k {
        lemma_count_true_bounds(flags, n - 1);
    } else {
        lemma_count_true_room(flags, k, n - 1);
    }
}

/// The cost of a walk is at most the greatest cost of a step for each step.
proof fn lemma_walk_cost_bound<P: AStarProblem>(problem: &P, from: P::StateType, steps: Seq<int>)
    requires
        walk_ok(problem, from, steps),
    ensures
        0 <= walk_cost(problem, from, steps) <= steps.len() * 0xffff_ffff_ffff_ffff,
    decreases steps.len(),
{
    if steps.len() > 0 {
        lemma_walk_cost_bound(problem, from, steps.drop_last());
        assert(steps.len() * 0xffff_ffff_ffff_ffff == (steps.len() - 1) * 0xffff_ffff_ffff_ffff
            + 0xffff_ffff_ffff_ffff) by (nonlinear_arith);
    }
}

/// Every node stands for a walk from the initial state: its state is where
/// the walk ends, its cost is the walk's, and its parent stands for the walk
/// without its last step.
#[verifier::opaque]
pub closed spec fn nodes_ok<P: AStarProblem>(
    problem: &P,
    nodes: Seq<SearchNode<P::StateType, P::ActionType>>,
    steps: Seq<Seq<int>>,
    closed: Seq<bool>,
) -> bool {
    &&& nodes.len() == steps.len()
    &&& closed.len() == problem.state_count()
    &&& forall|n: int|
        0 <= n < nodes.len() ==> {
            let walk = #[trigger] steps[n];
            &&& walk_ok(problem, problem.initial(), walk)
            &&& walk_end(problem, problem.initial(), walk) == nodes[n].state
            &&& walk_cost(problem, problem.initial(), walk) == nodes[n].cost
            &&& problem.state_ok(nodes[n].state)
            &&& walk.len() <= count_true(closed, closed.len() as int)
            &&& walk.len() == 0 ==> nodes[n].action is None
            &&& walk.len() > 0 ==> {
                &&& 0 <= nodes[n].parent < n
                &&& steps[nodes[n].parent as int] == walk.drop_last()
                &&& nodes[n].action == Some(
                    problem.successors_of(nodes[nodes[n].parent as int].state)[walk.last()].1,
                )
            }
        }
}

/// Every open entry names a node, with the node's cost plus the estimate at
/// its state.
#[verifier::opaque]
pub closed spec fn open_ok<P: AStarProblem>(
    problem: &P,
    nodes: Seq<SearchNode<P::StateType, P::ActionType>>,
    open: Seq<OpenEntry>,
) -> bool {
    forall|e: int|
        0 <= e < open.len() ==> {
            &&& 0 <= (#[trigger] open[e]).node < nodes.len()
            &&& open[e].total == nodes[open[e].node as int].cost + problem.estimate(
                nodes[open[e].node as int].state,
            )
        }
}

/// Some open entry stands for a walk to `state` that costs at most `cost`.
pub closed spec fn has_entry<P: AStarProblem>(
    problem: &P,
    nodes: Seq<SearchNode<P::StateType, P::ActionType>>,
    open: Seq<OpenEntry>,
    state: P::StateType,
    cost: int,
) -> bool {
    exists|e: int|
        0 <= e < open.len() && nodes[(#[trigger] open[e]).node as int].state == state
            && nodes[open[e].node as int].cost <= cost
}

/// Whether the search has gone on from `state`.
pub open spec fn is_closed<P: AStarProblem>(
    problem: &P,
    closed: Seq<bool>,
    state: P::StateType,
) -> bool {
    closed[problem.state_index(state) as int]
}

/// The search has gone on from the initial state, or is about to; it has
/// gone on from no goal; and for every way on from a state that it has gone
/// on from, it has gone on from the state that the way leads to, or an open
/// entry stands for a walk there that costs no more than the way taken from
/// that state.
#[verifier::opaque]
pub closed spec fn frontier_ok<P: AStarProblem>(
    problem: &P,
    nodes: Seq<SearchNode<P::StateType, P::ActionType>>,
    open: Seq<OpenEntry>,
    closed: Seq<bool>,
    closed_cost: Seq<int>,
) -> bool {
    &&& closed_cost.len() == closed.len()
    &&& is_closed(problem, closed, problem.initial()) || has_entry(
        problem,
        nodes,
        open,
        problem.initial(),
        0,
    )
    &&& forall|s: P::StateType|
        problem.state_ok(s) && #[trigger] is_closed(problem, closed, s) ==> !problem.is_goal(s)
    &&& forall|s: P::StateType, k: int|
        problem.state_ok(s) && is_closed(problem, closed, s) && 0 <= k < problem.successors_of(
            s,
        ).len() ==> {
            let way = #[trigger] problem.successors_of(s)[k];
            is_closed(problem, closed, way.2) || has_entry(
                problem,
                nodes,
                open,
                way.2,
                closed_cost[problem.state_index(s) as int] + way.0,
            )
        }
}

/// No walk to a state that the search has gone on from costs less than the
/// walk that the search went on from.
#[verifier::opaque]
pub closed spec fn closed_best<P: AStarProblem>(
    problem: &P,
    closed: Seq<bool>,
    closed_cost: Seq<int>,
) -> bool {
    forall|walk: Seq<int>| #[trigger]
        walk_ok(problem, problem.initial(), walk) && is_closed(
            problem,
            closed,
            walk_end(problem, problem.initial(), walk),
        ) ==> closed_cost[problem.state_index(walk_end(problem, problem.initial(), walk)) as int]
            <= walk_cost(problem, problem.initial(), walk)
}

/// With a consistent estimate, every walk to a state that the search has not
/// gone on from is matched by an open entry whose total is no more than the
/// cost of the walk plus the estimate at its end.
proof fn lemma_frontier<P: AStarProblem>(
    problem: &P,
    nodes: Seq<SearchNode<P::StateType, P::ActionType>>,
    open: Seq<OpenEntry>,
    closed: Seq<bool>,
    closed_cost: Seq<int>,
    walk: Seq<int>,
) -> (e: int)
    requires
        problem.well_formed(),
        consistent(problem),
        open_ok(problem, nodes, open),
        frontier_ok(problem, nodes, open, closed, closed_cost),
        closed_best(problem, closed, closed_cost),
        walk_ok(problem, problem.initial(), walk),
        !is_closed(problem, closed, walk_end(problem, problem.initial(), walk)),
    ensures
        0 <= e < open.len(),
        open[e].total <= walk_cost(problem, problem.initial(), walk) + problem.estimate(
            walk_end(problem, problem.initial(), walk),
        ),
    decreases walk.len(),
{
    reveal(open_ok);
    reveal(frontier_ok);
    reveal(closed_best);
    let start = problem.initial();
    problem.lemma_states(start, start);
    if walk.len() == 0 {
        assert(has_entry(problem, nodes, open, start, 0));
        let e = choose|e: int|
            0 <= e < open.len() && nodes[(#[trigger] open[e]).node as int].state == start
                && nodes[open[e].node as int].cost <= 0;
        e
    } else {
        let before = walk.drop_last();
        let from = walk_end(problem, start, before);
        let k = walk.last();
        let way = problem.successors_of(from)[k];
        lemma_walk_stays(problem, start, before);
        if is_closed(problem, closed, from) {
            assert(walk_ok(problem, start, before));
            assert(closed_cost[problem.state_index(from) as int] <= walk_cost(
                problem,
                start,
                before,
            ));
            assert(has_entry(
                problem,
                nodes,
                open,
                way.2,
                closed_cost[problem.state_index(from) as int] + way.0,
            ));
            let e = choose|e: int|
                0 <= e < open.len() && nodes[(#[trigger] open[e]).node as int].state == way.2
                    && nodes[open[e].node as int].cost <= closed_cost[problem.state_index(
                    from,
                ) as int] + way.0;
            e
        } else {
            let e = lemma_frontier(problem, nodes, open, closed, closed_cost, before);
            assert(problem.estimate(from) <= way.0 + problem.estimate(way.2));
            e
        }
    }
}

/// While no entry is open, every walk ends at a state that the search has
/// gone on from.
proof fn lemma_exhausted<P: AStarProblem>(
    problem: &P,
    nodes: Seq<SearchNode<P::StateType, P::ActionType>>,
    closed: Seq<bool>,
    closed_cost: Seq<int>,
    walk: Seq<int>,
)
    requires
        problem.well_formed(),
        frontier_ok(problem, nodes, Seq::<OpenEntry>::empty(), closed, closed_cost),
        walk_ok(problem, problem.initial(), walk),
    ensures
        is_closed(problem, closed, walk_end(problem, problem.initial(), walk)),
        !problem.is_goal(walk_end(problem, problem.initial(), walk)),
    decreases walk.len(),
{
    reveal(frontier_ok);
    let start = problem.initial();
    let open = Seq::<OpenEntry>::empty();
    problem.lemma_states(start, start);
    lemma_walk_stays(problem, start, walk);
    if walk.len() == 0 {
        assert(!has_entry(problem, nodes, open, start, 0));
    } else {
        let before = walk.drop_last();
        let from = walk_end(problem, start, before);
        lemma_exhausted(problem, nodes, closed, closed_cost, before);
        lemma_walk_stays(problem, start, before);
        let way = problem.successors_of(from)[walk.last()];
        assert(!has_entry(
            problem,
            nodes,
            open,
            way.2,
            closed_cost[problem.state_index(from) as int] + way.0,
        ));
    }
}

/// As `frontier_ok`, while the ways on from `current` are being taken: of
/// those, only the first `done` are covered.
#[verifier::opaque]
pub closed spec fn frontier_partial<P: AStarProblem>(
    problem: &P,
    nodes: Seq<SearchNode<P::StateType, P::ActionType>>,
    open: Seq<OpenEntry>,
    closed: Seq<bool>,
    closed_cost: Seq<int>,
    current: P::StateType,
    done: int,
) -> bool {
    &&& closed_cost.len() == closed.len()
    &&& is_closed(problem, closed, problem.initial()) || has_entry(
        problem,
        nodes,
        open,
        problem.initial(),
        0,
    )
    &&& forall|s: P::StateType|
        problem.state_ok(s) && #[trigger] is_closed(problem, closed, s) ==> !problem.is_goal(s)
    &&& forall|s: P::StateType, k: int|
        problem.state_ok(s) && is_closed(problem, closed, s) && 0 <= k < problem.successors_of(
            s,
        ).len() && (s != current || k < done) ==> {
            let way = #[trigger] problem.successors_of(s)[k];
            is_closed(problem, closed, way.2) || has_entry(
                problem,
                nodes,
                open,
                way.2,
                closed_cost[problem.state_index(s) as int] + way.0,
            )
        }
}

/// The entries of `open` without the one at place `b`, as `swap_remove`
/// leaves them.
pub open spec fn without(open: Seq<OpenEntry>, b: int) -> Seq<OpenEntry> {
    open.update(b, open.last()).drop_last()
}

/// An entry for a state other than that of the entry taken out is still
/// there.
proof fn lemma_entry_kept<P: AStarProblem>(
    problem: &P,
    nodes: Seq<SearchNode<P::StateType, P::ActionType>>,
    open: Seq<OpenEntry>,
    b: int,
    state: P::StateType,
    cost: int,
)
    requires
        0 <= b < open.len(),
        has_entry(problem, nodes, open, state, cost),
        nodes[open[b].node as int].state != state,
    ensures
        has_entry(problem, nodes, without(open, b), state, cost),
{
    let e = choose|e: int|
        0 <= e < open.len() && nodes[(#[trigger] open[e]).node as int].state == state
            && nodes[open[e].node as int].cost <= cost;
    let after = without(open, b);
    if e == open.len() - 1 {
        assert(after[b] == open[e]);
    } else {
        assert(after[e] == open[e]);
    }
}

/// Taking out an entry whose state the search has gone on from already
/// changes nothing that holds.
proof fn lemma_stale<P: AStarProblem>(
    problem: &P,
    nodes: Seq<SearchNode<P::StateType, P::ActionType>>,
    open: Seq<OpenEntry>,
    closed: Seq<bool>,
    closed_cost: Seq<int>,
    b: int,
)
    requires
        problem.well_formed(),
        open_ok(problem, nodes, open),
        frontier_ok(problem, nodes, open, closed, closed_cost),
        0 <= b < open.len(),
        is_closed(problem, closed, nodes[open[b].node as int].state),
    ensures
        open_ok(problem, nodes, without(open, b)),
        frontier_ok(problem, nodes, without(open, b), closed, closed_cost),
{
    reveal(open_ok);
    reveal(frontier_ok);
    let after = without(open, b);
    let gone = nodes[open[b].node as int].state;
    assert forall|e: int| 0 <= e < after.len() implies {
        &&& 0 <= (#[trigger] after[e]).node < nodes.len()
        &&& after[e].total == nodes[after[e].node as int].cost + problem.estimate(
            nodes[after[e].node as int].state,
        )
    } by {
        if e == b {
            assert(after[e] == open[open.len() - 1]);
        } else {
            assert(after[e] == open[e]);
        }
    }
    if !is_closed(problem, closed, problem.initial()) {
        lemma_entry_kept(problem, nodes, open, b, problem.initial(), 0);
    }
    assert forall|s: P::StateType, k: int|
        problem.state_ok(s) && is_closed(problem, closed, s) && 0 <= k < problem.successors_of(
            s,
        ).len() implies ({
        let way = #[trigger] problem.successors_of(s)[k];
        is_closed(problem, closed, way.2) || has_entry(
            problem,
            nodes,
            after,
            way.2,
            closed_cost[problem.state_index(s) as int] + way.0,
        )
    }) by {
        let way = problem.successors_of(s)[k];
        if !is_closed(problem, closed, way.2) {
            lemma_entry_kept(
                problem,
                nodes,
                open,
                b,
                way.2,
                closed_cost[problem.state_index(s) as int] + way.0,
            );
        }
    }
}

/// With a consistent estimate, the entry with the least total stands for a
/// walk than which none to its state costs less, and none to a goal.
proof fn lemma_least_is_best<P: AStarProblem>(
    problem: &P,
    nodes: Seq<SearchNode<P::StateType, P::ActionType>>,
    steps: Seq<Seq<int>>,
    open: Seq<OpenEntry>,
    closed: Seq<bool>,
    closed_cost: Seq<int>,
    b: int,
    walk: Seq<int>,
)
    requires
        problem.well_formed(),
        consistent(problem),
        nodes_ok(problem, nodes, steps, closed),
        open_ok(problem, nodes, open),
        frontier_ok(problem, nodes, open, closed, closed_cost),
        closed_best(problem, closed, closed_cost),
        0 <= b < open.len(),
        forall|e: int| 0 <= e < open.len() ==> open[b].total <= (#[trigger] open[e]).total,
        !is_closed(problem, closed, nodes[open[b].node as int].state),
        walk_ok(problem, problem.initial(), walk),
        walk_end(problem, problem.initial(), walk) == nodes[open[b].node as int].state
            || problem.is_goal(walk_end(problem, problem.initial(), walk)),
    ensures
        nodes[open[b].node as int].cost <= walk_cost(problem, problem.initial(), walk),
{
    let start = problem.initial();
    let end = walk_end(problem, start, walk);
    problem.lemma_states(start, start);
    lemma_walk_stays(problem, start, walk);
    assert(!is_closed(problem, closed, end)) by {
        reveal(frontier_ok);
    }
    let e = lemma_frontier(problem, nodes, open, closed, closed_cost, walk);
    assert(open[b].total <= open[e].total);
    reveal(open_ok);
    let m = open[b].node as int;
    assert(open[b].total == nodes[m].cost + problem.estimate(nodes[m].state));
    if end != nodes[m].state {
        assert(problem.estimate(end) == 0);
    }
}

/// Going on from the state of the entry with the least total keeps what
/// holds, with the ways on from that state still to be taken.
proof fn lemma_close<P: AStarProblem>(
    problem: &P,
    nodes: Seq<SearchNode<P::StateType, P::ActionType>>,
    steps: Seq<Seq<int>>,
    open: Seq<OpenEntry>,
    closed: Seq<bool>,
    closed_cost: Seq<int>,
    b: int,
)
    requires
        problem.well_formed(),
        nodes_ok(problem, nodes, steps, closed),
        open_ok(problem, nodes, open),
        frontier_ok(problem, nodes, open, closed, closed_cost),
        consistent(problem) ==> closed_best(problem, closed, closed_cost),
        0 <= b < open.len(),
        forall|e: int| 0 <= e < open.len() ==> open[b].total <= (#[trigger] open[e]).total,
        !is_closed(problem, closed, nodes[open[b].node as int].state),
        !problem.is_goal(nodes[open[b].node as int].state),
    ensures
        ({
            let node = nodes[open[b].node as int];
            let place = problem.state_index(node.state) as int;
            let closed1 = closed.update(place, true);
            let cost1 = closed_cost.update(place, node.cost as int);
            &&& 0 <= place < closed.len()
            &&& nodes_ok(problem, nodes, steps, closed1)
            &&& open_ok(problem, nodes, without(open, b))
            &&& frontier_partial(
                problem,
                nodes,
                without(open, b),
                closed1,
                cost1,
                node.state,
                0,
            )
            &&& consistent(problem) ==> closed_best(problem, closed1, cost1)
            &&& steps[open[b].node as int].len() < count_true(closed1, closed1.len() as int)
        }),
{
    let start = problem.initial();
    let m = open[b].node as int;
    let node = nodes[m];
    let place = problem.state_index(node.state) as int;
    let closed1 = closed.update(place, true);
    let cost1 = closed_cost.update(place, node.cost as int);
    let after = without(open, b);
    problem.lemma_states(start, start);
    assert(0 <= m < nodes.len() && problem.state_ok(node.state)) by {
        reveal(open_ok);
        reveal(nodes_ok);
        assert(steps[m].len() >= 0);
    }
    problem.lemma_states(node.state, node.state);
    assert(closed.len() == problem.state_count() && closed_cost.len() == closed.len()) by {
        reveal(nodes_ok);
        reveal(frontier_ok);
    }
    lemma_count_true_set(closed, place, closed.len() as int);
    assert(nodes_ok(problem, nodes, steps, closed1)) by {
        reveal(nodes_ok);
        assert forall|n: int| 0 <= n < nodes.len() implies (#[trigger] steps[n]).len()
            <= count_true(closed1, closed1.len() as int) by {}
    }
    assert(steps[m].len() < count_true(closed1, closed1.len() as int)) by {
        reveal(nodes_ok);
    }
    assert(open_ok(problem, nodes, after)) by {
        reveal(open_ok);
        assert forall|e: int| 0 <= e < after.len() implies {
            &&& 0 <= (#[trigger] after[e]).node < nodes.len()
            &&& after[e].total == nodes[after[e].node as int].cost + problem.estimate(
                nodes[after[e].node as int].state,
            )
        } by {
            if e == b {
                assert(after[e] == open[open.len() - 1]);
            } else {
                assert(after[e] == open[e]);
            }
        }
    }
    assert forall|s: P::StateType| problem.state_ok(s) implies (is_closed(problem, closed1, s) <==> (
    s == node.state || is_closed(problem, closed, s))) by {
        problem.lemma_states(node.state, s);
        problem.lemma_states(s, s);
    }
    assert(frontier_partial(problem, nodes, after, closed1, cost1, node.state, 0)) by {
        reveal(frontier_ok);
        reveal(frontier_partial);
        if !is_closed(problem, closed1, start) {
            lemma_entry_kept(problem, nodes, open, b, start, 0);
        }
        assert forall|s: P::StateType, k: int|
            problem.state_ok(s) && is_closed(problem, closed1, s) && 0 <= k
                < problem.successors_of(s).len() && (s != node.state || k < 0) implies ({
            let way = #[trigger] problem.successors_of(s)[k];
            is_closed(problem, closed1, way.2) || has_entry(
                problem,
                nodes,
                after,
                way.2,
                cost1[problem.state_index(s) as int] + way.0,
            )
        }) by {
            let way = problem.successors_of(s)[k];
            problem.lemma_states(s, node.state);
            problem.lemma_states(s, s);
            assert(problem.state_ok(way.2));
            assert(is_closed(problem, closed, s));
            assert(cost1[problem.state_index(s) as int] == closed_cost[problem.state_index(
                s,
            ) as int]);
            if !is_closed(problem, closed1, way.2) {
                assert(!is_closed(problem, closed, way.2));
                lemma_entry_kept(
                    problem,
                    nodes,
                    open,
                    b,
                    way.2,
                    closed_cost[problem.state_index(s) as int] + way.0,
                );
            }
        }
    }
    if consistent(problem) {
        assert(closed_best(problem, closed1, cost1)) by {
            assert forall|walk: Seq<int>| #[trigger]
                walk_ok(problem, start, walk) && is_closed(
                    problem,
                    closed1,
                    walk_end(problem, start, walk),
                ) implies cost1[problem.state_index(walk_end(problem, start, walk)) as int]
                <= walk_cost(problem, start, walk) by {
                let end = walk_end(problem, start, walk);
                lemma_walk_stays(problem, start, walk);
                problem.lemma_states(end, node.state);
                if end == node.state {
                    lemma_least_is_best(
                        problem,
                        nodes,
                        steps,
                        open,
                        closed,
                        closed_cost,
                        b,
                        walk,
                    );
                } else {
                    reveal(closed_best);
                    assert(is_closed(problem, closed, end));
                }
            }
            reveal(closed_best);
        }
    }
}

/// An entry stays where nodes and entries are added.
proof fn lemma_entry_stays<P: AStarProblem>(
    problem: &P,
    nodes: Seq<SearchNode<P::StateType, P::ActionType>>,
    open: Seq<OpenEntry>,
    node: SearchNode<P::StateType, P::ActionType>,
    entry: OpenEntry,
    state: P::StateType,
    cost: int,
)
    requires
        open_ok(problem, nodes, open),
        has_entry(problem, nodes, open, state, cost),
    ensures
        has_entry(problem, nodes.push(node), open.push(entry), state, cost),
{
    reveal(open_ok);
    let e = choose|e: int|
        0 <= e < open.len() && nodes[(#[trigger] open[e]).node as int].state == state
            && nodes[open[e].node as int].cost <= cost;
    assert(open.push(entry)[e] == open[e]);
    assert(nodes.push(node)[open[e].node as int] == nodes[open[e].node as int]);
}

/// A way that leads to a state that the search has gone on from needs no
/// entry.
proof fn lemma_way_closed<P: AStarProblem>(
    problem: &P,
    nodes: Seq<SearchNode<P::StateType, P::ActionType>>,
    open: Seq<OpenEntry>,
    closed: Seq<bool>,
    closed_cost: Seq<int>,
    current: P::StateType,
    k: int,
)
    requires
        frontier_partial(problem, nodes, open, closed, closed_cost, current, k),
        0 <= k < problem.successors_of(current).len(),
        is_closed(problem, closed, problem.successors_of(current)[k].2),
    ensures
        frontier_partial(problem, nodes, open, closed, closed_cost, current, k + 1),
{
    reveal(frontier_partial);
}

/// Adding a node and its entry for way `k` on from the state of node `m`
/// keeps what holds, with one way more taken.
proof fn lemma_way_pushed<P: AStarProblem>(
    problem: &P,
    nodes: Seq<SearchNode<P::StateType, P::ActionType>>,
    steps: Seq<Seq<int>>,
    open: Seq<OpenEntry>,
    closed: Seq<bool>,
    closed_cost: Seq<int>,
    m: int,
    k: int,
    node: SearchNode<P::StateType, P::ActionType>,
    entry: OpenEntry,
)
    requires
        problem.well_formed(),
        nodes_ok(problem, nodes, steps, closed),
        open_ok(problem, nodes, open),
        0 <= m < nodes.len(),
        frontier_partial(problem, nodes, open, closed, closed_cost, nodes[m].state, k),
        is_closed(problem, closed, nodes[m].state),
        closed_cost[problem.state_index(nodes[m].state) as int] == nodes[m].cost,
        steps[m].len() < count_true(closed, closed.len() as int),
        0 <= k < problem.successors_of(nodes[m].state).len(),
        node.state == problem.successors_of(nodes[m].state)[k].2,
        node.cost == nodes[m].cost + problem.successors_of(nodes[m].state)[k].0,
        node.parent == m,
        node.action == Some(problem.successors_of(nodes[m].state)[k].1),
        entry.node == nodes.len(),
        entry.total == node.cost + problem.estimate(node.state),
    ensures
        nodes_ok(problem, nodes.push(node), steps.push(steps[m].push(k)), closed),
        open_ok(problem, nodes.push(node), open.push(entry)),
        frontier_partial(
            problem,
            nodes.push(node),
            open.push(entry),
            closed,
            closed_cost,
            nodes[m].state,
            k + 1,
        ),
{
    let start = problem.initial();
    let nodes1 = nodes.push(node);
    let steps1 = steps.push(steps[m].push(k));
    let open1 = open.push(entry);
    let current = nodes[m].state;
    problem.lemma_states(current, current);
    assert(nodes_ok(problem, nodes1, steps1, closed)) by {
        reveal(nodes_ok);
        let walk = steps[m].push(k);
        assert(walk.drop_last() =~= steps[m]);
        assert forall|n: int| 0 <= n < nodes1.len() implies ({
            let walk = #[trigger] steps1[n];
            &&& walk_ok(problem, start, walk)
            &&& walk_end(problem, start, walk) == nodes1[n].state
            &&& walk_cost(problem, start, walk) == nodes1[n].cost
            &&& problem.state_ok(nodes1[n].state)
            &&& walk.len() <= count_true(closed, closed.len() as int)
            &&& walk.len() == 0 ==> nodes1[n].action is None
            &&& walk.len() > 0 ==> {
                &&& 0 <= nodes1[n].parent < n
                &&& steps1[nodes1[n].parent as int] == walk.drop_last()
                &&& nodes1[n].action == Some(
                    problem.successors_of(nodes1[nodes1[n].parent as int].state)[walk.last()].1,
                )
            }
        }) by {
            if n < nodes.len() {
                assert(steps1[n] == steps[n]);
                assert(nodes1[n] == nodes[n]);
                if steps[n].len() > 0 {
                    assert(nodes1[nodes[n].parent as int] == nodes[nodes[n].parent as int]);
                    assert(steps1[nodes[n].parent as int] == steps[nodes[n].parent as int]);
                }
            } else {
                assert(steps1[n] == walk);
                assert(steps[m].len() >= 0);
                assert(nodes1[m] == nodes[m]);
                assert(steps1[m] == steps[m]);
            }
        }
    }
    assert(open_ok(problem, nodes1, open1)) by {
        reveal(open_ok);
        assert forall|e: int| 0 <= e < open1.len() implies {
            &&& 0 <= (#[trigger] open1[e]).node < nodes1.len()
            &&& open1[e].total == nodes1[open1[e].node as int].cost + problem.estimate(
                nodes1[open1[e].node as int].state,
            )
        } by {
            if e < open.len() {
                assert(open1[e] == open[e]);
                assert(nodes1[open[e].node as int] == nodes[open[e].node as int]);
            }
        }
    }
    assert(frontier_partial(problem, nodes1, open1, closed, closed_cost, current, k + 1)) by {
        reveal(frontier_partial);
        if !is_closed(problem, closed, start) {
            lemma_entry_stays(problem, nodes, open, node, entry, start, 0);
        }
        assert forall|s: P::StateType, j: int|
            problem.state_ok(s) && is_closed(problem, closed, s) && 0 <= j
                < problem.successors_of(s).len() && (s != current || j < k + 1) implies ({
            let way = #[trigger] problem.successors_of(s)[j];
            is_closed(problem, closed, way.2) || has_entry(
                problem,
                nodes1,
                open1,
                way.2,
                closed_cost[problem.state_index(s) as int] + way.0,
            )
        }) by {
            let way = problem.successors_of(s)[j];
            if !is_closed(problem, closed, way.2) {
                if s == current && j == k {
                    assert(open1[open.len() as int] == entry);
                    assert(nodes1[entry.node as int] == node);
                } else {
                    lemma_entry_stays(
                        problem,
                        nodes,
                        open,
                        node,
                        entry,
                        way.2,
                        closed_cost[problem.state_index(s) as int] + way.0,
                    );
                }
            }
        }
    }
}

/// Once every way on from the current state has been taken, the frontier is
/// whole again.
proof fn lemma_ways_done<P: AStarProblem>(
    problem: &P,
    nodes: Seq<SearchNode<P::StateType, P::ActionType>>,
    open: Seq<OpenEntry>,
    closed: Seq<bool>,
    closed_cost: Seq<int>,
    current: P::StateType,
)
    requires
        frontier_partial(
            problem,
            nodes,
            open,
            closed,
            closed_cost,
            current,
            problem.successors_of(current).len() as int,
        ),
    ensures
        frontier_ok(problem, nodes, open, closed, closed_cost),
{
    reveal(frontier_partial);
    reveal(frontier_ok);
}

/// The place of the entry with the least total; of those with the least
/// total, the one whose node was made first.
fn least_entry(open: &Vec<OpenEntry>) -> (b: usize)
    requires
        open.len() > 0,
    ensures
        b < open.len(),
        forall|e: int| 0 <= e < open.len() ==> open[b as int].total <= (#[trigger] open[e]).total,
        forall|e: int|
            0 <= e < open.len() && (#[trigger] open[e]).total == open[b as int].total
                ==> open[b as int].node <= open[e].node,
{
    let mut b: usize = 0;
    let mut e: usize = 1;
    while e < open.len()
        invariant
            b < e <= open.len(),
            forall|j: int| 0 <= j < e ==> open[b as int].total <= (#[trigger] open[j]).total,
            forall|j: int|
                0 <= j < e && (#[trigger] open[j]).total == open[b as int].total
                    ==> open[b as int].node <= open[j].node,
        decreases open.len() - e,
    {
        if open[e].total < open[b].total || (open[e].total == open[b].total && open[e].node
            < open[b].node) {
            b = e;
        }
        e = e + 1;
    }
    b
}

/// The actions of the walk that node `m` stands for.
fn collect_actions<P: AStarProblem>(
    problem: &P,
    nodes: &Vec<SearchNode<P::StateType, P::ActionType>>,
    m: usize,
    Ghost(steps): Ghost<Seq<Seq<int>>>,
    Ghost(closed): Ghost<Seq<bool>>,
) -> (r: Vec<P::ActionType>)
    requires
        nodes_ok(problem, nodes@, steps, closed),
        m < nodes.len(),
    ensures
        r@ == walk_actions(problem, problem.initial(), steps[m as int]),
{
    let ghost start = problem.initial();
    let mut backwards: Vec<P::ActionType> = Vec::new();
    let mut current: usize = m;
    loop
        invariant
            nodes_ok(problem, nodes@, steps, closed),
            current < nodes.len(),
            start == problem.initial(),
            walk_actions(problem, start, steps[current as int]) + backwards@.reverse()
                == walk_actions(problem, start, steps[m as int]),
        ensures
            backwards@.reverse() == walk_actions(problem, start, steps[m as int]),
        decreases current,
    {
        proof {
            reveal(nodes_ok);
            assert(steps[current as int].len() >= 0);
        }
        match nodes[current].action {
            Some(action) => {
                let ghost before = backwards@;
                backwards.push(action);
                proof {
                    let walk = steps[current as int];
                    let parent = nodes@[current as int].parent as int;
                    assert(steps[parent] == walk.drop_last());
                    assert(backwards@.reverse() =~= seq![action] + before.reverse());
                    assert(walk_actions(problem, start, walk) == walk_actions(
                        problem,
                        start,
                        walk.drop_last(),
                    ).push(action));
                    assert(walk_actions(problem, start, walk.drop_last()).push(action)
                        + before.reverse() =~= walk_actions(problem, start, walk.drop_last()) + (
                    seq![action] + before.reverse()));
                }
                current = nodes[current].parent;
            },
            None => {
                proof {
                    assert(steps[current as int].len() == 0);
                    assert(walk_actions(problem, start, steps[current as int])
                        =~= Seq::<P::ActionType>::empty());
                    assert(Seq::<P::ActionType>::empty() + backwards@.reverse()
                        =~= backwards@.reverse());
                }
                break ;
            },
        }
    }
    let mut actions: Vec<P::ActionType> = Vec::new();
    let mut k: usize = backwards.len();
    while k > 0
        invariant
            k <= backwards.len(),
            actions@ == backwards@.reverse().subrange(0, backwards.len() - k),
        decreases k,
    {
        k = k - 1;
        actions.push(backwards[k]);
        proof {
            let reversed = backwards@.reverse();
            assert(reversed[backwards.len() - 1 - k] == backwards@[k as int]);
            assert(actions@ =~= reversed.subrange(0, backwards.len() - k));
        }
    }
    proof {
        assert(actions@ =~= backwards@.reverse());
    }
    actions
}

/// Searches the graph of `problem` for a walk from the initial state to a
/// goal. Of the open nodes the search goes on from the one with the least
/// cost plus estimate, and of several such from the one made first; it goes
/// on from each state once. It finds a walk if there is one, and with a
/// consistent estimate a walk than which none costs less.
pub fn find_path<P: AStarProblem>(problem: &P) -> (r: PathResult<P::ActionType>)
    requires
        problem.well_formed(),
    ensures
        match r.path {
            Some(actions) => exists|steps: Seq<int>|
                {
                    &&& #[trigger] reaches_goal(problem, steps)
                    &&& actions@ == walk_actions(problem, problem.initial(), steps)
                    &&& consistent(problem) ==> forall|other: Seq<int>| #[trigger]
                        reaches_goal(problem, other) ==> walk_cost(
                            problem,
                            problem.initial(),
                            steps,
                        ) <= walk_cost(problem, problem.initial(), other)
                },
            None => forall|steps: Seq<int>| !#[trigger] reaches_goal(problem, steps),
        },
{
    let ghost start = problem.initial();
    let total: usize = problem.state_total();
    let mut closed: Vec<bool> = Vec::new();
    let mut c: usize = 0;
    while c < total
        invariant
            c <= total,
            closed.len() == c,
            forall|j: int| 0 <= j < c ==> !(#[trigger] closed[j]),
            count_true(closed@, c as int) == 0,
        decreases total - c,
    {
        let ghost before = closed@;
        closed.push(false);
        proof {
            lemma_count_true_same(before, closed@, c as int);
        }
        c = c + 1;
    }
    let first = problem.initial_state();
    proof {
        problem.lemma_states(first, first);
    }
    let estimate: u64 = problem.heuristic(&first);
    let mut nodes: Vec<SearchNode<P::StateType, P::ActionType>> = Vec::new();
    nodes.push(SearchNode { state: first, cost: 0, parent: 0, action: None });
    let mut open: Vec<OpenEntry> = Vec::new();
    open.push(OpenEntry { total: estimate as u128, node: 0 });
    let ghost mut steps: Seq<Seq<int>> = seq![Seq::<int>::empty()];
    let ghost mut closed_cost: Seq<int> = Seq::new(total as nat, |j: int| 0int);
    let mut explored: u32 = 0;
    proof {
        reveal(nodes_ok);
        reveal(open_ok);
        reveal(frontier_ok);
        reveal(closed_best);
        assert(has_entry(problem, nodes@, open@, start, 0)) by {
            assert(nodes@[open@[0].node as int].state == start);
        }
        assert forall|s: P::StateType| problem.state_ok(s) implies !is_closed(
            problem,
            closed@,
            s,
        ) by {
            problem.lemma_states(s, s);
        }
        assert forall|walk: Seq<int>| #[trigger]
            walk_ok(problem, start, walk) && is_closed(
                problem,
                closed@,
                walk_end(problem, start, walk),
            ) implies closed_cost[problem.state_index(walk_end(problem, start, walk)) as int]
            <= walk_cost(problem, start, walk) by {
            lemma_walk_stays(problem, start, walk);
        }
    }
    while open.len() > 0
        invariant
            problem.well_formed(),
            start == problem.initial(),
            closed.len() == total,
            closed_cost.len() == total,
            total == problem.state_count(),
            nodes_ok(problem, nodes@, steps, closed@),
            open_ok(problem, nodes@, open@),
            frontier_ok(problem, nodes@, open@, closed@, closed_cost),
            consistent(problem) ==> closed_best(problem, closed@, closed_cost),
        decreases total - count_true(closed@, total as int), open.len(),
    {
        let b: usize = least_entry(&open);
        let ghost open0 = open@;
        let ghost closed0 = closed@;
        let entry = open.swap_remove(b);
        let m: usize = entry.node;
        proof {
            reveal(open_ok);
            reveal(nodes_ok);
            assert(open0[b as int] == entry);
            assert(steps[m as int].len() >= 0);
            lemma_count_true_bounds(closed@, total as int);
        }
        let state = nodes[m].state;
        let cost: u128 = nodes[m].cost;
        let place: usize = problem.state_id(&state);
        proof {
            problem.lemma_states(state, state);
        }
        if closed[place] {
            proof {
                lemma_stale(problem, nodes@, open0, closed@, closed_cost, b as int);
            }
            continue ;
        }
        if explored < u32::MAX {
            explored = explored + 1;
        }
        if problem.is_goal_state(&state) {
            let actions = collect_actions(problem, &nodes, m, Ghost(steps), Ghost(closed@));
            proof {
                let found = steps[m as int];
                assert(reaches_goal(problem, found));
                if consistent(problem) {
                    assert forall|other: Seq<int>| #[trigger]
                        reaches_goal(problem, other) implies walk_cost(problem, start, found)
                        <= walk_cost(problem, start, other) by {
                        lemma_least_is_best(
                            problem,
                            nodes@,
                            steps,
                            open0,
                            closed@,
                            closed_cost,
                            b as int,
                            other,
                        );
                    }
                }
            }
            return PathResult { stats: PathStats { explored_nodes: explored }, path: Some(actions) };
        }
        proof {
            lemma_close(problem, nodes@, steps, open0, closed@, closed_cost, b as int);
            lemma_count_true_room(closed@, place as int, total as int);
        }
        closed[place] = true;
        proof {
            closed_cost = closed_cost.update(place as int, cost as int);
            assert(closed@ =~= closed0.update(place as int, true));
            lemma_count_true_set(closed0, place as int, total as int);
        }
        let ways = problem.successors(&state);
        let mut k: usize = 0;
        while k < ways.len()
            invariant
                problem.well_formed(),
                start == problem.initial(),
                closed.len() == total,
                total == problem.state_count(),
                k <= ways.len(),
                closed_cost.len() == total,
                ways@ == problem.successors_of(state),
                m < nodes.len(),
                nodes@[m as int].state == state,
                nodes@[m as int].cost == cost,
                problem.state_ok(state),
                is_closed(problem, closed@, state),
                closed_cost[problem.state_index(state) as int] == cost,
                steps[m as int].len() < count_true(closed@, total as int),
                nodes_ok(problem, nodes@, steps, closed@),
                open_ok(problem, nodes@, open@),
                frontier_partial(
                    problem,
                    nodes@,
                    open@,
                    closed@,
                    closed_cost,
                    state,
                    k as int,
                ),
            decreases ways.len() - k,
        {
            let way = ways[k];
            proof {
                problem.lemma_states(state, state);
                problem.lemma_states(way.2, way.2);
            }
            let target: usize = problem.state_id(&way.2);
            if closed[target] {
                proof {
                    lemma_way_closed(
                        problem,
                        nodes@,
                        open@,
                        closed@,
                        closed_cost,
                        state,
                        k as int,
                    );
                }
            } else {
                let estimate: u64 = problem.heuristic(&way.2);
                proof {
                    reveal(nodes_ok);
                    lemma_walk_cost_bound(problem, start, steps[m as int]);
                    lemma_count_true_bounds(closed@, total as int);
                    let depth = steps[m as int].len() as int;
                    assert(depth * 0xffff_ffff_ffff_ffff + 0xffff_ffff_ffff_ffff
                        + 0xffff_ffff_ffff_ffff <= 0xffff_ffff_ffff_ffff * 0xffff_ffff_ffff_ffff
                        + 0xffff_ffff_ffff_ffff) by (nonlinear_arith)
                        requires
                            0 <= depth < 0xffff_ffff_ffff_ffff,
                    ;
                }
                let reached: u128 = cost + way.0 as u128;
                let node = SearchNode {
                    state: way.2,
                    cost: reached,
                    parent: m,
                    action: Some(way.1),
                };
                let entry = OpenEntry { total: reached + estimate as u128, node: nodes.len() };
                proof {
                    lemma_way_pushed(
                        problem,
                        nodes@,
                        steps,
                        open@,
                        closed@,
                        closed_cost,
                        m as int,
                        k as int,
                        node,
                        entry,
                    );
                    steps = steps.push(steps[m as int].push(k as int));
                }
                nodes.push(node);
                open.push(entry);
            }
            k = k + 1;
        }
        proof {
            lemma_ways_done(problem, nodes@, open@, closed@, closed_cost, state);
        }
    }
    proof {
        assert(open@ =~= Seq::<OpenEntry>::empty());
        assert forall|walk: Seq<int>| !#[trigger] reaches_goal(problem, walk) by {
            if walk_ok(problem, start, walk) {
                lemma_exhausted(problem, nodes@, closed@, closed_cost, walk);
            }
        }
    }
    PathResult { stats: PathStats { explored_nodes: explored }, path: None }
}

/// The count over a prefix does not look past the prefix.
proof fn lemma_count_true_same(a: Seq<bool>, b: Seq<bool>, n: int)
    requires
        0 <= n <= a.len(),
        n <= b.len(),
        forall|j: int| 0 <= j < n ==> a[j] == b[j],
    ensures
        count_true(a, n) == count_true(b, n),
    decreases n,
{
    if n > 0 {
        lemma_count_true_same(a, b, n - 1);
    }
}

/// The states that a walk passes, the first and the last included.
pub open spec fn walk_states<P: AStarProblem>(
    problem: &P,
    from: P::StateType,
    steps: Seq<int>,
) -> Seq<P::StateType>
    decreases steps.len(),
{
    if steps.len() == 0 {
        seq![from]
    } else {
        walk_states(problem, from, steps.drop_last()).push(walk_end(problem, from, steps))
    }
}

/// The start of a walk is a walk, and the step after it is taken at its end:
/// it names a way on from there, whose action is the action of the walk at
/// that place.
pub proof fn lemma_walk_prefix<P: AStarProblem>(
    problem: &P,
    from: P::StateType,
    steps: Seq<int>,
    a: int,
)
    requires
        walk_ok(problem, from, steps),
        0 <= a <= steps.len(),
    ensures
        walk_ok(problem, from, steps.take(a)),
        walk_actions(problem, from, steps).len() == steps.len(),
        a < steps.len() ==> {
            let at = walk_end(problem, from, steps.take(a));
            &&& 0 <= steps[a] < problem.successors_of(at).len()
            &&& walk_end(problem, from, steps.take(a + 1)) == problem.successors_of(at)[steps[a]].2
            &&& walk_actions(problem, from, steps)[a] == problem.successors_of(at)[steps[a]].1
            &&& walk_cost(problem, from, steps.take(a + 1)) == walk_cost(
                problem,
                from,
                steps.take(a),
            ) + problem.successors_of(at)[steps[a]].0
            &&& walk_states(problem, from, steps.take(a + 1)) == walk_states(
                problem,
                from,
                steps.take(a),
            ).push(problem.successors_of(at)[steps[a]].2)
        },
    decreases steps.len(),
{
    if steps.len() == 0 {
        assert(steps.take(a) =~= steps);
    } else {
        let before = steps.drop_last();
        if a == steps.len() {
            assert(steps.take(a) =~= steps);
            lemma_walk_prefix(problem, from, before, a - 1);
        } else {
            lemma_walk_prefix(problem, from, before, a);
            assert(steps.take(a) =~= before.take(a));
            if a < before.len() {
                assert(steps.take(a + 1) =~= before.take(a + 1));
            } else {
                assert(steps.take(a + 1) =~= steps);
                assert(steps.take(a) =~= before);
                assert(steps.take(a + 1).drop_last() =~= before);
            }
        }
    }
}

} // verus!
