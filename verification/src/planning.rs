//! The forward-search plan generator and the agent that owns it.
//!
//! Planning seeds a search tree with the starting world, expands nodes by
//! applying every usable task whose precondition holds, records nodes whose
//! world satisfies the active goal, and returns the cheapest recorded plan.
//! The search is iterative and depth-first (last in, first out), bounded by a
//! per-branch depth ceiling (the number of available tasks), a period-two
//! oscillation guard, and a global iteration ceiling.  The whole search is
//! mirrored by a spec-level model, so the planner's answer is a mathematical
//! function of its inputs.

use vstd::prelude::*;

use crate::data::{req_satisfied, spec_validates, Context, PredValue, ReqValue, Requirements};
use crate::goals::{Goal, GoalEvaluation};
use crate::tasks::{
    lemma_views_of, names_of, sat_add, spec_task_cost, task_leaves, task_post, task_pre,
    task_registered, views_of, GlobalHtnTaskRegistry, Task, TaskValue,
};

verus! {

broadcast use vstd::seq::axiom_seq_index_decreases, vstd::std_specs::vec::group_vec_axioms;

/// The search gives up after this many node expansions; exceeding the
/// ceiling is a soft abort that keeps whatever goal-reaching leaves were
/// already found.
pub const MAX_SEARCH_ITERATIONS: usize = 10000;

/// Why planning produced no plan.
#[derive(Debug, Clone, Copy, PartialEq, Eq, Structural)]
pub enum PlanError {
    /// No goal was selectable, or the search space was exhausted without
    /// reaching the goal.
    PlanningFailed,
    /// The iteration ceiling was hit before the search space was exhausted,
    /// and no goal-reaching leaf had been found by then.
    SearchBudgetExceeded,
}

/// Spec-level twin of [`ResolvedTask`].
pub struct ResolvedValue {
    pub task: TaskValue,
    pub precon: Map<Seq<char>, PredValue>,
    pub postcon: Map<Seq<char>, PredValue>,
    pub cost: int,
}

/// An available task resolved through the registry: its derived conditions
/// and its total registered cost, precomputed for the search.
#[derive(Debug)]
pub struct ResolvedTask {
    pub task: Task,
    pub precon: Context,
    pub postcon: Context,
    pub cost: u64,
}

impl View for ResolvedTask {
    type V = ResolvedValue;

    open spec fn view(&self) -> ResolvedValue {
        ResolvedValue {
            task: self.task@,
            precon: self.precon@,
            postcon: self.postcon@,
            cost: self.cost as int,
        }
    }
}

/// The usable tasks among `avail`: those whose every primitive leaf is
/// registered, in list order, paired with their derived conditions and cost.
pub open spec fn resolve_spec(
    avail: Seq<TaskValue>,
    reg: Map<Seq<char>, crate::tasks::DefValue>,
) -> Seq<ResolvedValue>
    decreases avail.len(),
{
    if avail.len() == 0 {
        Seq::empty()
    } else {
        let rest = resolve_spec(avail.drop_last(), reg);
        let t = avail.last();
        if task_registered(reg, t) {
            rest.push(
                ResolvedValue {
                    task: t,
                    precon: task_pre(t),
                    postcon: task_post(t),
                    cost: spec_task_cost(reg, t),
                },
            )
        } else {
            rest
        }
    }
}

/// Spec-level twin of [`PlanNode`].
pub struct NodeValue {
    pub task: Option<int>,
    pub world: Map<Seq<char>, PredValue>,
    pub cost: int,
    pub depth: int,
    pub parent: Option<int>,
}

/// One node of the search tree, held in an arena and linked to its parent by
/// index.  The root carries no task; every other node carries the index (in
/// the resolved task list) of the task whose application produced it.
#[derive(Debug)]
pub struct PlanNode {
    pub task: Option<usize>,
    pub world: Context,
    pub cost: u64,
    pub depth: usize,
    pub parent: Option<usize>,
}

impl View for PlanNode {
    type V = NodeValue;

    open spec fn view(&self) -> NodeValue {
        NodeValue {
            task: match self.task {
                Some(t) => Some(t as int),
                None => None,
            },
            world: self.world@,
            cost: self.cost as int,
            depth: self.depth as int,
            parent: match self.parent {
                Some(p) => Some(p as int),
                None => None,
            },
        }
    }
}

/// The whole state of one search: the node arena, the pending stack and the
/// recorded goal-reaching leaves (arena indices both).
pub struct SearchState {
    pub arena: Seq<NodeValue>,
    pub stack: Seq<int>,
    pub leaves: Seq<int>,
}

/// The task index stored at `idx`, if the index is in bounds.
pub open spec fn node_task(arena: Seq<NodeValue>, idx: int) -> Option<int> {
    if 0 <= idx < arena.len() {
        arena[idx].task
    } else {
        None
    }
}

/// The parent link stored at `idx`, if the index is in bounds.
pub open spec fn node_parent(arena: Seq<NodeValue>, idx: int) -> Option<int> {
    if 0 <= idx < arena.len() {
        arena[idx].parent
    } else {
        None
    }
}

/// The period-two oscillation guard: the node repeats its grandparent's task
/// while its parent repeats its great-grandparent's (an A,B,A,B tail).  Only
/// period-two cycles are caught; longer cycles fall to the iteration
/// ceiling instead.  Tasks are compared by their position in the resolved
/// task list.
pub open spec fn oscillates(arena: Seq<NodeValue>, idx: int) -> bool {
    match node_parent(arena, idx) {
        Some(p) => match node_parent(arena, p) {
            Some(gp) => match node_parent(arena, gp) {
                Some(ggp) => {
                    &&& node_task(arena, idx) is Some
                    &&& node_task(arena, idx) == node_task(arena, gp)
                    &&& node_task(arena, p) is Some
                    &&& node_task(arena, p) == node_task(arena, ggp)
                },
                None => false,
            },
            None => false,
        },
        None => false,
    }
}

/// The child produced by applying task `t` to `node` (at arena index `idx`):
/// the merged world, the accumulated cost, one more depth.
pub open spec fn child_node(
    ts: Seq<ResolvedValue>,
    node: NodeValue,
    idx: int,
    t: int,
) -> NodeValue {
    NodeValue {
        task: Some(t),
        world: node.world.union_prefer_right(ts[t].postcon),
        cost: sat_add(node.cost, ts[t].cost),
        depth: node.depth + 1,
        parent: Some(idx),
    }
}

/// The children produced from `node` by the first `n` resolved tasks whose
/// precondition holds in the node's world, in task-list order.
pub open spec fn children_upto(
    ts: Seq<ResolvedValue>,
    node: NodeValue,
    idx: int,
    n: int,
) -> Seq<NodeValue>
    decreases n,
{
    if n <= 0 || n > ts.len() {
        Seq::empty()
    } else {
        let rest = children_upto(ts, node, idx, n - 1);
        if spec_validates(node.world, ts[n - 1].precon) {
            rest.push(child_node(ts, node, idx, n - 1))
        } else {
            rest
        }
    }
}

/// One search step: pop a node; record it if it carries a task and reaches
/// the goal, discard it at the depth ceiling or on oscillation, else expand
/// it.  The root carries no task and is always expanded, so a found plan
/// has at least one step even when the start world already meets the goal.
pub open spec fn step_spec(
    ts: Seq<ResolvedValue>,
    goal: Map<Seq<char>, ReqValue>,
    cap: int,
    s: SearchState,
) -> SearchState {
    if s.stack.len() == 0 {
        s
    } else {
        let idx = s.stack.last();
        let popped = SearchState { arena: s.arena, stack: s.stack.drop_last(), leaves: s.leaves };
        if !(0 <= idx < s.arena.len()) {
            popped
        } else {
            let node = s.arena[idx];
            if node.task is Some && req_satisfied(goal, node.world) {
                SearchState {
                    arena: s.arena,
                    stack: s.stack.drop_last(),
                    leaves: s.leaves.push(idx),
                }
            } else if node.depth >= cap {
                popped
            } else if oscillates(s.arena, idx) {
                popped
            } else {
                let kids = children_upto(ts, node, idx, ts.len() as int);
                SearchState {
                    arena: s.arena + kids,
                    stack: s.stack.drop_last() + Seq::new(
                        kids.len(),
                        |j: int| s.arena.len() + j,
                    ),
                    leaves: s.leaves,
                }
            }
        }
    }
}

/// The search state after up to `fuel` steps (stopping early once the stack
/// empties).
pub open spec fn run_search(
    ts: Seq<ResolvedValue>,
    goal: Map<Seq<char>, ReqValue>,
    cap: int,
    s: SearchState,
    fuel: nat,
) -> SearchState
    decreases fuel,
{
    if fuel == 0 || s.stack.len() == 0 {
        s
    } else {
        run_search(ts, goal, cap, step_spec(ts, goal, cap, s), (fuel - 1) as nat)
    }
}

/// The state a search starts from: one root node holding the starting world.
pub open spec fn init_state(w0: Map<Seq<char>, PredValue>) -> SearchState {
    SearchState {
        arena: seq![
            NodeValue { task: None, world: w0, cost: 0, depth: 0, parent: None },
        ],
        stack: seq![0int],
        leaves: Seq::empty(),
    }
}

/// The final state of the bounded search from `w0`.
pub open spec fn search_result(
    ts: Seq<ResolvedValue>,
    goal: Map<Seq<char>, ReqValue>,
    cap: int,
    w0: Map<Seq<char>, PredValue>,
) -> SearchState {
    run_search(ts, goal, cap, init_state(w0), MAX_SEARCH_ITERATIONS as nat)
}

/// Running for `m + k` steps is running for `m`, then for `k`.
proof fn lemma_run_add(
    ts: Seq<ResolvedValue>,
    goal: Map<Seq<char>, ReqValue>,
    cap: int,
    s: SearchState,
    m: nat,
    k: nat,
)
    ensures
        run_search(ts, goal, cap, s, m + k) == run_search(
            ts,
            goal,
            cap,
            run_search(ts, goal, cap, s, m),
            k,
        ),
    decreases m,
{
    if m == 0 {
    } else if s.stack.len() == 0 {
        lemma_run_stuck(ts, goal, cap, s, m);
        lemma_run_stuck(ts, goal, cap, s, k);
        lemma_run_stuck(ts, goal, cap, s, m + k);
    } else {
        lemma_run_add(ts, goal, cap, step_spec(ts, goal, cap, s), (m - 1) as nat, k);
    }
}

/// A search with an empty stack stays put.
proof fn lemma_run_stuck(
    ts: Seq<ResolvedValue>,
    goal: Map<Seq<char>, ReqValue>,
    cap: int,
    s: SearchState,
    n: nat,
)
    requires
        s.stack.len() == 0,
    ensures
        run_search(ts, goal, cap, s, n) == s,
{
}

/// The arena index of the cheapest recorded leaf among the first `n`, the
/// earliest recorded winning a tie.
pub open spec fn best_leaf_upto(arena: Seq<NodeValue>, leaves: Seq<int>, n: int) -> int
    decreases n,
{
    if n <= 1 {
        if n == 1 {
            leaves[0]
        } else {
            -1
        }
    } else {
        let prev = best_leaf_upto(arena, leaves, n - 1);
        if node_cost(arena, leaves[n - 1]) < node_cost(arena, prev) {
            leaves[n - 1]
        } else {
            prev
        }
    }
}

/// The cost stored at `idx`, if the index is in bounds.
pub open spec fn node_cost(arena: Seq<NodeValue>, idx: int) -> int {
    if 0 <= idx < arena.len() {
        arena[idx].cost
    } else {
        0
    }
}

/// The task indices applied along the path from the root to `idx`, in
/// application order.
pub open spec fn path_of(arena: Seq<NodeValue>, idx: int) -> Seq<int>
    decreases (if idx >= 0 { idx } else { 0 }),
{
    if 0 <= idx < arena.len() {
        match arena[idx].parent {
            Some(p) => if 0 <= p < idx {
                match arena[idx].task {
                    Some(t) => path_of(arena, p).push(t),
                    None => Seq::empty(),
                }
            } else {
                Seq::empty()
            },
            None => Seq::empty(),
        }
    } else {
        Seq::empty()
    }
}

/// The tasks named by a path of indices into the resolved task list.
pub open spec fn tasks_of_path(ts: Seq<ResolvedValue>, path: Seq<int>) -> Seq<TaskValue> {
    path.map_values(|t: int| ts[t].task)
}

/// The plan the planner owes for a fixed goal: `None` when no goal-reaching
/// leaf was recorded within the search bounds, else the task sequence of the
/// cheapest recorded leaf (earliest found wins ties).
pub open spec fn plan_outcome(
    avail: Seq<TaskValue>,
    reg: Map<Seq<char>, crate::tasks::DefValue>,
    goal: Map<Seq<char>, ReqValue>,
    w0: Map<Seq<char>, PredValue>,
) -> Option<Seq<TaskValue>> {
    let ts = resolve_spec(avail, reg);
    let s = search_result(ts, goal, avail.len() as int, w0);
    if s.leaves.len() == 0 {
        None
    } else {
        Some(tasks_of_path(ts, path_of(s.arena, best_leaf_upto(s.arena, s.leaves, s.leaves.len() as int))))
    }
}

/// Whether a failed search stopped at the iteration ceiling with work left
/// (rather than exhausting the search space).
pub open spec fn search_budget_hit(
    avail: Seq<TaskValue>,
    reg: Map<Seq<char>, crate::tasks::DefValue>,
    goal: Map<Seq<char>, ReqValue>,
    w0: Map<Seq<char>, PredValue>,
) -> bool {
    let ts = resolve_spec(avail, reg);
    search_result(ts, goal, avail.len() as int, w0).stack.len() > 0
}

/// The views of a sequence of arena nodes.
pub open spec fn arena_views(s: Seq<PlanNode>) -> Seq<NodeValue> {
    s.map_values(|n: PlanNode| n@)
}

/// A sequence of indices widened to mathematical integers.
pub open spec fn ints_of(s: Seq<usize>) -> Seq<int> {
    s.map_values(|i: usize| i as int)
}

/// The views of a sequence of resolved tasks.
pub open spec fn resolved_views(s: Seq<ResolvedTask>) -> Seq<ResolvedValue> {
    s.map_values(|rt: ResolvedTask| rt@)
}

/// Every parent link points strictly backwards, the root (and only the root)
/// carries no task, and every task index addresses the resolved task list.
pub open spec fn arena_shape(arenav: Seq<NodeValue>, nts: int) -> bool {
    forall|i: int| 0 <= i < arenav.len() ==> match (#[trigger] arenav[i]).parent {
        Some(p) => 0 <= p < i && (arenav[i].task matches Some(t) && 0 <= t < nts),
        None => arenav[i].task is None,
    }
}

/// Resolves the available tasks through the registry: tasks with an
/// unregistered primitive are dropped (they are unusable); the rest keep
/// their derived conditions and total cost.
fn resolve_tasks(avail: &Vec<Task>, registry: &GlobalHtnTaskRegistry) -> (r: Vec<ResolvedTask>)
    ensures
        resolved_views(r@) == resolve_spec(views_of(avail@), registry@),
{
    let n = avail.len();
    let mut out: Vec<ResolvedTask> = Vec::new();
    let mut i: usize = 0;
    proof {
        lemma_views_of(avail@);
        assert(resolved_views(out@) =~= resolve_spec(views_of(avail@).subrange(0, 0), registry@));
    }
    while i < n
        invariant
            n == avail@.len(),
            i <= n,
            resolved_views(out@) == resolve_spec(
                views_of(avail@).subrange(0, i as int),
                registry@,
            ),
        decreases n - i,
    {
        let ghost pre = out@;
        match registry.task_cost(&avail[i]) {
            Some(c) => {
                let rt = ResolvedTask {
                    task: avail[i].clone(),
                    precon: avail[i].preconditions(),
                    postcon: avail[i].postconditions(),
                    cost: c,
                };
                out.push(rt);
            },
            None => {},
        }
        proof {
            lemma_views_of(avail@);
            let full = views_of(avail@);
            assert(full.subrange(0, i + 1 as int).drop_last() =~= full.subrange(0, i as int));
            assert(full.subrange(0, i + 1 as int).last() == avail@[i as int]@);
            if out@.len() > pre.len() {
                assert(resolved_views(out@) =~= resolved_views(pre).push(out@.last()@));
            } else {
                assert(resolved_views(out@) =~= resolved_views(pre));
            }
        }
        i += 1;
    }
    proof {
        lemma_views_of(avail@);
        assert(views_of(avail@).subrange(0, n as int) =~= views_of(avail@));
    }
    out
}

/// Whether the node at `idx` completes an A,B,A,B tail (see [`oscillates`]).
fn is_oscillating(arena: &Vec<PlanNode>, idx: usize, nts: usize) -> (r: bool)
    requires
        idx < arena@.len(),
        arena_shape(arena_views(arena@), nts as int),
    ensures
        r == oscillates(arena_views(arena@), idx as int),
{
    let ghost av = arena_views(arena@);
    proof {
        assert(av[idx as int] == arena@[idx as int]@);
    }
    let p = match arena[idx].parent {
        Some(p) => p,
        None => {
            return false;
        },
    };
    proof {
        assert(p < idx);
        assert(av[p as int] == arena@[p as int]@);
    }
    let gp = match arena[p].parent {
        Some(gp) => gp,
        None => {
            return false;
        },
    };
    proof {
        assert(gp < p);
        assert(av[gp as int] == arena@[gp as int]@);
    }
    let ggp = match arena[gp].parent {
        Some(ggp) => ggp,
        None => {
            return false;
        },
    };
    proof {
        assert(ggp < gp);
        assert(av[ggp as int] == arena@[ggp as int]@);
    }
    let ok1 = match (arena[idx].task, arena[gp].task) {
        (Some(a), Some(b)) => a == b,
        _ => false,
    };
    let ok2 = match (arena[p].task, arena[ggp].task) {
        (Some(a), Some(b)) => a == b,
        _ => false,
    };
    ok1 && ok2
}

/// The arena index of the cheapest recorded leaf, the earliest recorded
/// winning a tie.
fn pick_best_leaf(arena: &Vec<PlanNode>, leaves: &Vec<usize>) -> (r: usize)
    requires
        leaves@.len() > 0,
        forall|i: int| 0 <= i < leaves@.len() ==> (#[trigger] leaves@[i]) < arena@.len(),
    ensures
        r < arena@.len(),
        r as int == best_leaf_upto(
            arena_views(arena@),
            ints_of(leaves@),
            leaves@.len() as int,
        ),
{
    let ghost av = arena_views(arena@);
    let ghost lv = ints_of(leaves@);
    let n = leaves.len();
    let mut best = leaves[0];
    let mut k: usize = 1;
    while k < n
        invariant
            n == leaves@.len(),
            1 <= k <= n,
            best < arena@.len(),
            best as int == best_leaf_upto(av, lv, k as int),
            av == arena_views(arena@),
            lv == ints_of(leaves@),
            forall|i: int| 0 <= i < leaves@.len() ==> (#[trigger] leaves@[i]) < arena@.len(),
        decreases n - k,
    {
        let cand = leaves[k];
        if arena[cand].cost < arena[best].cost {
            best = cand;
        }
        k += 1;
    }
    best
}

/// The reversal of an index sequence.
pub open spec fn rev_seq(s: Seq<int>) -> Seq<int>
    decreases s.len(),
{
    if s.len() == 0 {
        Seq::empty()
    } else {
        seq![s.last()] + rev_seq(s.drop_last())
    }
}

proof fn lemma_rev_seq(s: Seq<int>)
    ensures
        rev_seq(s).len() == s.len(),
        forall|i: int| 0 <= i < s.len() ==> #[trigger] rev_seq(s)[i] == s[s.len() - 1 - i],
    decreases s.len(),
{
    if s.len() > 0 {
        lemma_rev_seq(s.drop_last());
        assert forall|i: int| 0 <= i < s.len() implies #[trigger] rev_seq(s)[i] == s[s.len() - 1
            - i] by {
            if i > 0 {
                assert(rev_seq(s)[i] == rev_seq(s.drop_last())[i - 1]);
                assert(s.drop_last()[s.len() - 1 - i] == s[s.len() - 1 - i]);
            }
        }
    }
}

/// Walks the parent chain from `leaf` to the root and hands back the applied
/// tasks in application order (root first).
fn unwind_path(arena: &Vec<PlanNode>, resolved: &Vec<ResolvedTask>, leaf: usize) -> (r: Vec<Task>)
    requires
        leaf < arena@.len(),
        arena_shape(arena_views(arena@), resolved@.len() as int),
    ensures
        views_of(r@) == tasks_of_path(
            resolved_views(resolved@),
            path_of(arena_views(arena@), leaf as int),
        ),
{
    let ghost av = arena_views(arena@);
    let ghost tsv = resolved_views(resolved@);
    let mut rev: Vec<usize> = Vec::new();
    let mut cur = leaf;
    proof {
        assert(path_of(av, leaf as int) =~= path_of(av, cur as int) + rev_seq(ints_of(rev@)));
    }
    while arena[cur].parent.is_some()
        invariant
            cur < arena@.len(),
            av == arena_views(arena@),
            tsv == resolved_views(resolved@),
            arena_shape(av, resolved@.len() as int),
            forall|j: int| 0 <= j < rev@.len() ==> (#[trigger] rev@[j]) < resolved@.len(),
            path_of(av, leaf as int) == path_of(av, cur as int) + rev_seq(ints_of(rev@)),
        decreases cur,
    {
        let p = match arena[cur].parent {
            Some(p) => p,
            None => {
                proof {
                    assert(false);
                }
                0
            },
        };
        let t = match arena[cur].task {
            Some(t) => t,
            None => {
                proof {
                    assert(false);
                }
                0
            },
        };
        let ghost rev0 = rev@;
        rev.push(t);
        proof {
            assert(ints_of(rev@) =~= ints_of(rev0).push(t as int));
            assert(ints_of(rev@).drop_last() =~= ints_of(rev0));
            assert(rev_seq(ints_of(rev@)) =~= seq![t as int] + rev_seq(ints_of(rev0)));
            assert(path_of(av, cur as int) == path_of(av, p as int).push(t as int));
            assert(path_of(av, p as int).push(t as int) + rev_seq(ints_of(rev0)) =~= path_of(
                av,
                p as int,
            ) + (seq![t as int] + rev_seq(ints_of(rev0))));
        }
        cur = p;
    }
    proof {
        assert(path_of(av, cur as int) =~= Seq::<int>::empty());
        assert(path_of(av, leaf as int) =~= rev_seq(ints_of(rev@)));
        lemma_rev_seq(ints_of(rev@));
    }
    let n = rev.len();
    let mut out: Vec<Task> = Vec::new();
    let mut j: usize = 0;
    while j < n
        invariant
            n == rev@.len(),
            j <= n,
            tsv == resolved_views(resolved@),
            forall|k: int| 0 <= k < rev@.len() ==> (#[trigger] rev@[k]) < resolved@.len(),
            out@.len() == j,
            forall|k: int| 0 <= k < j ==> (#[trigger] views_of(out@)[k]) == tsv[rev@[n - 1
                - k] as int].task,
        decreases n - j,
    {
        let idx = rev[n - 1 - j];
        let ghost out0 = out@;
        out.push(resolved[idx].task.clone());
        proof {
            lemma_views_of(out@);
            lemma_views_of(out0);
            assert(forall|k: int| 0 <= k < out0.len() ==> (#[trigger] out@[k]) == out0[k]);
            assert(tsv[idx as int] == resolved@[idx as int]@);
            assert(views_of(out@)[j as int] == out@[j as int]@);
            assert(out@[j as int]@ == resolved@[idx as int].task@);
            assert forall|k: int| 0 <= k <= j implies #[trigger] views_of(out@)[k] == tsv[rev@[n - 1
                - k] as int].task by {
                if k < j {
                    assert(views_of(out0)[k] == tsv[rev@[n - 1 - k] as int].task);
                    assert(views_of(out@)[k] == out@[k]@);
                    assert(views_of(out0)[k] == out0[k]@);
                }
            }
        }
        j += 1;
    }
    proof {
        lemma_views_of(out@);
        lemma_rev_seq(ints_of(rev@));
        assert(views_of(out@) =~= tasks_of_path(tsv, path_of(av, leaf as int)));
    }
    out
}

/// The bounded depth-first search itself: explores from `world`, records
/// goal-reaching nodes, and hands back the cheapest recorded task sequence,
/// or says why there is none.  The result is exactly what the spec-level
/// model [`run_search`] prescribes.
#[verifier::loop_isolation(false)]
#[verifier::rlimit(60)]
fn search_plan(
    resolved: &Vec<ResolvedTask>,
    goal_req: &Requirements,
    cap: usize,
    world: &Context,
) -> (r: Result<Vec<Task>, PlanError>)
    ensures
        ({
            let tsv = resolved_views(resolved@);
            let s = run_search(
                tsv,
                goal_req@,
                cap as int,
                init_state(world@),
                MAX_SEARCH_ITERATIONS as nat,
            );
            match r {
                Ok(tasks) => s.leaves.len() > 0 && views_of(tasks@) == tasks_of_path(
                    tsv,
                    path_of(s.arena, best_leaf_upto(s.arena, s.leaves, s.leaves.len() as int)),
                ),
                Err(e) => s.leaves.len() == 0 && e == (if s.stack.len() > 0 {
                    PlanError::SearchBudgetExceeded
                } else {
                    PlanError::PlanningFailed
                }),
            }
        }),
{
    let ghost tsv = resolved_views(resolved@);
    let ghost gv = goal_req@;
    let ghost capv = cap as int;
    let ghost s0 = init_state(world@);

    let mut arena: Vec<PlanNode> = Vec::new();
    arena.push(PlanNode { task: None, world: world.clone(), cost: 0, depth: 0, parent: None });
    let mut stack: Vec<usize> = Vec::new();
    stack.push(0);
    let mut leaves: Vec<usize> = Vec::new();
    let mut iters: usize = 0;
    proof {
        assert(arena_views(arena@) =~= s0.arena);
        assert(ints_of(stack@) =~= s0.stack);
        assert(ints_of(leaves@) =~= s0.leaves);
    }
    while stack.len() > 0 && iters < MAX_SEARCH_ITERATIONS
        invariant
            iters <= MAX_SEARCH_ITERATIONS,
            arena@.len() >= 1,
            arena_shape(arena_views(arena@), resolved@.len() as int),
            forall|i: int| 0 <= i < stack@.len() ==> (#[trigger] stack@[i]) < arena@.len(),
            forall|i: int| 0 <= i < leaves@.len() ==> (#[trigger] leaves@[i]) < arena@.len(),
            arena_views(arena@) == run_search(tsv, gv, capv, s0, iters as nat).arena,
            ints_of(stack@) == run_search(tsv, gv, capv, s0, iters as nat).stack,
            ints_of(leaves@) == run_search(tsv, gv, capv, s0, iters as nat).leaves,
        decreases MAX_SEARCH_ITERATIONS - iters,
    {
        let ghost s_pre = run_search(tsv, gv, capv, s0, iters as nat);
        let ghost s_next = step_spec(tsv, gv, capv, s_pre);
        let ghost stack_pre = stack@;

        let idx = match stack.pop() {
            Some(i) => i,
            None => {
                proof {
                    assert(false);
                }
                0
            },
        };
        proof {
            assert(ints_of(stack@) =~= ints_of(stack_pre).drop_last());
            assert(idx as int == s_pre.stack.last());
            assert(arena_views(arena@)[idx as int] == arena@[idx as int]@);
        }
        let ghost nodev = s_pre.arena[idx as int];

        let is_goal = arena[idx].task.is_some() && goal_req.validate(&arena[idx].world);
        if is_goal {
            let ghost leaves_pre = leaves@;
            leaves.push(idx);
            proof {
                assert(ints_of(leaves@) =~= ints_of(leaves_pre).push(idx as int));
            }
        } else if arena[idx].depth >= cap {
        } else if is_oscillating(&arena, idx, resolved.len()) {
        } else {
            let node_world = arena[idx].world.clone();
            let node_cost = arena[idx].cost;
            let node_depth = arena[idx].depth;
            let ghost base_arena = arena@;
            let ghost base_stack = stack@;
            let nt = resolved.len();
            let mut t: usize = 0;
            proof {
                assert(children_upto(tsv, nodev, idx as int, 0).len() == 0);
                assert(arena_views(arena@) =~= arena_views(base_arena) + children_upto(
                    tsv,
                    nodev,
                    idx as int,
                    0,
                ));
                assert(ints_of(stack@) =~= ints_of(base_stack) + Seq::new(
                    children_upto(tsv, nodev, idx as int, 0).len(),
                    |j: int| base_arena.len() + j,
                ));
            }
            while t < nt
                invariant
                    t <= nt,
                    arena@.len() == base_arena.len() + children_upto(
                        tsv,
                        nodev,
                        idx as int,
                        t as int,
                    ).len(),
                    arena_views(arena@) == arena_views(base_arena) + children_upto(
                        tsv,
                        nodev,
                        idx as int,
                        t as int,
                    ),
                    ints_of(stack@) == ints_of(base_stack) + Seq::new(
                        children_upto(tsv, nodev, idx as int, t as int).len(),
                        |j: int| base_arena.len() + j,
                    ),
                    arena_shape(arena_views(arena@), resolved@.len() as int),
                    forall|i: int| 0 <= i < stack@.len() ==> (#[trigger] stack@[i])
                        < arena@.len(),
                decreases nt - t,
            {
                let ghost kids_pre = children_upto(tsv, nodev, idx as int, t as int);
                let rt = &resolved[t];
                proof {
                    assert(tsv[t as int] == resolved@[t as int]@);
                }
                let eligible = node_world.validate(&rt.precon);
                if eligible {
                    let child = PlanNode {
                        task: Some(t),
                        world: node_world.concat(&rt.postcon),
                        cost: crate::tasks::add_cost(node_cost, rt.cost),
                        depth: node_depth + 1,
                        parent: Some(idx),
                    };
                    let ghost arena_old = arena@;
                    let ghost stack_old = stack@;
                    stack.push(arena.len());
                    arena.push(child);
                    proof {
                        assert(child@ == child_node(tsv, nodev, idx as int, t as int));
                        assert(children_upto(tsv, nodev, idx as int, t + 1 as int)
                            =~= kids_pre.push(child@));
                        assert(arena_views(arena@) =~= arena_views(arena_old).push(child@));
                        assert(arena_views(arena@) =~= arena_views(base_arena) + children_upto(
                            tsv,
                            nodev,
                            idx as int,
                            t + 1 as int,
                        ));
                        assert(ints_of(stack@) =~= ints_of(stack_old).push(
                            arena_old.len() as int,
                        ));
                        assert(ints_of(stack@) =~= ints_of(base_stack) + Seq::new(
                            children_upto(tsv, nodev, idx as int, t + 1 as int).len(),
                            |j: int| base_arena.len() + j,
                        ));
                    }
                } else {
                    proof {
                        assert(children_upto(tsv, nodev, idx as int, t + 1 as int) =~= kids_pre);
                        assert(Seq::new(kids_pre.len(), |j: int| base_arena.len() + j) =~= Seq::new(
                            children_upto(tsv, nodev, idx as int, t + 1 as int).len(),
                            |j: int| base_arena.len() + j,
                        ));
                    }
                }
                t += 1;
            }
        }
        iters += 1;
        proof {
            assert(arena_views(arena@) == s_next.arena);
            assert(ints_of(stack@) == s_next.stack);
            assert(ints_of(leaves@) == s_next.leaves);
            lemma_run_add(tsv, gv, capv, s0, (iters - 1) as nat, 1);
            assert(run_search(tsv, gv, capv, s_pre, 1) == run_search(tsv, gv, capv, s_next, 0));
        }
    }
    proof {
        if stack.len() == 0 {
            lemma_run_add(
                tsv,
                gv,
                capv,
                s0,
                iters as nat,
                (MAX_SEARCH_ITERATIONS - iters) as nat,
            );
            lemma_run_stuck(
                tsv,
                gv,
                capv,
                run_search(tsv, gv, capv, s0, iters as nat),
                (MAX_SEARCH_ITERATIONS - iters) as nat,
            );
        }
        assert(arena_views(arena@) == run_search(
            tsv,
            gv,
            capv,
            s0,
            MAX_SEARCH_ITERATIONS as nat,
        ).arena);
    }
    if leaves.len() == 0 {
        if stack.len() > 0 {
            Err(PlanError::SearchBudgetExceeded)
        } else {
            Err(PlanError::PlanningFailed)
        }
    } else {
        let best = pick_best_leaf(&arena, &leaves);
        let tasks = unwind_path(&arena, resolved, best);
        Ok(tasks)
    }
}

/// The views of a sequence of strings.
pub open spec fn string_views(s: Seq<String>) -> Seq<Seq<char>> {
    s.map_values(|x: String| x@)
}

/// The ordered primitive leaf names of a task sequence, depth-first.
pub open spec fn leaf_names_via(tasks: Seq<TaskValue>) -> Seq<Seq<char>> {
    crate::tasks::leaf_names_upto(tasks, tasks.len() as int)
}

/// An ordered task sequence found by the planner, root first, before
/// decomposition into primitives.
#[derive(Debug)]
pub struct PlanningPath(pub Vec<Task>);

impl PlanningPath {
    /// The plan as an ordered list of primitive task names: every composite
    /// step is flattened depth-first, left to right.
    #[verifier::loop_isolation(false)]
    pub fn decompose_tasks(&self) -> (r: Vec<String>)
        ensures
            string_views(r@) == crate::tasks::leaf_names_upto(
                views_of(self.0@),
                self.0@.len() as int,
            ),
    {
        let ghost tv = views_of(self.0@);
        let n = self.0.len();
        let mut out: Vec<String> = Vec::new();
        let mut i: usize = 0;
        proof {
            lemma_views_of(self.0@);
            assert(string_views(out@) =~= crate::tasks::leaf_names_upto(tv, 0));
        }
        while i < n
            invariant
                n == self.0@.len(),
                i <= n,
                tv == views_of(self.0@),
                string_views(out@) == crate::tasks::leaf_names_upto(tv, i as int),
            decreases n - i,
        {
            proof {
                lemma_views_of(self.0@);
            }
            let parts = self.0[i].decompose();
            let ghost lv = task_leaves(tv[i as int]);
            let m = parts.len();
            let mut j: usize = 0;
            proof {
                lemma_views_of(parts@);
                assert(names_of(lv).subrange(0, 0) =~= Seq::<Seq<char>>::empty());
                assert(string_views(out@) + names_of(lv).subrange(0, 0) =~= string_views(out@));
            }
            let ghost out_base = out@;
            while j < m
                invariant
                    m == parts@.len(),
                    j <= m,
                    views_of(parts@) == lv,
                    string_views(out@) == string_views(out_base) + names_of(lv).subrange(
                        0,
                        j as int,
                    ),
                decreases m - j,
            {
                let ghost out0 = out@;
                match &parts[j] {
                    Task::Primitive { name, .. } => {
                        out.push(name.clone());
                    },
                    Task::Macro(_) => {
                        proof {
                            crate::tasks::lemma_leaves_are_primitive(tv[i as int]);
                            lemma_views_of(parts@);
                            assert(views_of(parts@)[j as int] == parts@[j as int]@);
                            assert(task_leaves(tv[i as int])[j as int] is Primitive);
                            assert(false);
                        }
                    },
                }
                proof {
                    lemma_views_of(parts@);
                    assert(lv[j as int] == parts@[j as int]@);
                    assert(string_views(out@) =~= string_views(out0).push(out@.last()@));
                    assert(names_of(lv)[j as int] == crate::tasks::task_name(lv[j as int]));
                    assert(names_of(lv).subrange(0, j + 1 as int) =~= names_of(lv).subrange(
                        0,
                        j as int,
                    ).push(names_of(lv)[j as int]));
                    assert(string_views(out0) + names_of(lv).subrange(0, j as int).push(
                        names_of(lv)[j as int],
                    ) =~= (string_views(out0) + names_of(lv).subrange(0, j as int)).push(
                        names_of(lv)[j as int],
                    ));
                }
                j += 1;
            }
            proof {
                assert(names_of(lv).subrange(0, m as int) =~= names_of(lv));
                assert(crate::tasks::leaf_names_upto(tv, i + 1 as int) =~= crate::tasks::leaf_names_upto(
                    tv,
                    i as int,
                ) + names_of(lv));
            }
            i += 1;
        }
        out
    }

    /// The names of the plan's steps as they stand, one per task, composites
    /// not decomposed.
    #[verifier::loop_isolation(false)]
    pub fn simple_print_tasks(&self) -> (r: Vec<String>)
        ensures
            string_views(r@) == views_of(self.0@).map_values(
                |t: TaskValue| crate::tasks::task_display_name(t),
            ),
    {
        let ghost tv = views_of(self.0@);
        let n = self.0.len();
        let mut out: Vec<String> = Vec::new();
        let mut i: usize = 0;
        while i < n
            invariant
                n == self.0@.len(),
                i <= n,
                tv == views_of(self.0@),
                out@.len() == i,
                forall|k: int| 0 <= k < i ==> (#[trigger] out@[k])@
                    == crate::tasks::task_display_name(tv[k]),
            decreases n - i,
        {
            let s = self.0[i].name();
            out.push(s);
            proof {
                lemma_views_of(self.0@);
                assert(tv[i as int] == self.0@[i as int]@);
            }
            i += 1;
        }
        proof {
            lemma_views_of(self.0@);
            assert(string_views(out@) =~= views_of(self.0@).map_values(
                |t: TaskValue| crate::tasks::task_display_name(t),
            ));
        }
        out
    }
}

/// A plan stack owned by an agent: the ordered tasks still to run.
#[derive(Debug, Default)]
pub struct Plan(pub Vec<Task>);

/// Whether a planning result is the one the model owes for these inputs: a
/// plan exactly when the bounded search records a goal-reaching leaf, and
/// then the cheapest recorded one; else the error that names why.
pub open spec fn planning_result_matches(
    r: Result<PlanningPath, PlanError>,
    avail: Seq<TaskValue>,
    reg: Map<Seq<char>, crate::tasks::DefValue>,
    goal: Map<Seq<char>, ReqValue>,
    w0: Map<Seq<char>, PredValue>,
) -> bool {
    match r {
        Ok(path) => plan_outcome(avail, reg, goal, w0) == Some(views_of(path.0@)),
        Err(e) => plan_outcome(avail, reg, goal, w0) is None && e == (if search_budget_hit(
            avail,
            reg,
            goal,
            w0,
        ) {
            PlanError::SearchBudgetExceeded
        } else {
            PlanError::PlanningFailed
        }),
    }
}

/// The tasks of `ts` whose combined precondition holds in `w`, in order.
pub open spec fn eligible_tasks(ts: Seq<TaskValue>, w: Map<Seq<char>, PredValue>) -> Seq<TaskValue>
    decreases ts.len(),
{
    if ts.len() == 0 {
        Seq::empty()
    } else {
        let rest = eligible_tasks(ts.drop_last(), w);
        if spec_validates(w, task_pre(ts.last())) {
            rest.push(ts.last())
        } else {
            rest
        }
    }
}

/// An agent: its prioritized goals, its available tasks, the policy that
/// picks the active goal, and the plan it currently follows, if any.
#[derive(Debug)]
pub struct HtnAgent {
    pub goals: Vec<Goal>,
    pub current_plan: Option<Plan>,
    pub available_tasks: Vec<Task>,
    pub goal_eval: GoalEvaluation,
}

impl HtnAgent {
    /// An agent with no goals, no tasks, no plan, picking the top goal.
    pub fn new() -> (r: HtnAgent)
        ensures
            r.goals@.len() == 0,
            r.available_tasks@.len() == 0,
            r.current_plan is None,
            r.goal_eval is Top,
    {
        HtnAgent {
            goals: Vec::new(),
            current_plan: None,
            available_tasks: Vec::new(),
            goal_eval: GoalEvaluation::Top,
        }
    }

    /// Makes one more task available to the planner.
    pub fn add_task(&mut self, task: Task)
        ensures
            final(self).available_tasks@ == old(self).available_tasks@.push(task),
            final(self).goals == old(self).goals,
            final(self).current_plan == old(self).current_plan,
            final(self).goal_eval == old(self).goal_eval,
    {
        self.available_tasks.push(task);
    }

    /// Appends a goal; callers keep the list ordered by priority.
    pub fn add_goal(&mut self, goal: Goal)
        ensures
            final(self).goals@ == old(self).goals@.push(goal),
            final(self).available_tasks == old(self).available_tasks,
            final(self).current_plan == old(self).current_plan,
            final(self).goal_eval == old(self).goal_eval,
    {
        self.goals.push(goal);
    }

    /// The available tasks whose combined precondition holds in `world`:
    /// the candidates a search expansion applies.
    pub fn possible_tasks(&self, world: &Context) -> (r: Vec<Task>)
        ensures
            views_of(r@) == eligible_tasks(views_of(self.available_tasks@), world@),
    {
        let n = self.available_tasks.len();
        let mut out: Vec<Task> = Vec::new();
        let mut i: usize = 0;
        proof {
            lemma_views_of(self.available_tasks@);
            assert(views_of(out@) =~= eligible_tasks(
                views_of(self.available_tasks@).subrange(0, 0),
                world@,
            ));
        }
        while i < n
            invariant
                n == self.available_tasks@.len(),
                i <= n,
                views_of(out@) == eligible_tasks(
                    views_of(self.available_tasks@).subrange(0, i as int),
                    world@,
                ),
            decreases n - i,
        {
            let ghost out0 = out@;
            let pre = self.available_tasks[i].preconditions();
            if world.validate(&pre) {
                out.push(self.available_tasks[i].clone());
            }
            proof {
                lemma_views_of(self.available_tasks@);
                let full = views_of(self.available_tasks@);
                assert(full.subrange(0, i + 1 as int).drop_last() =~= full.subrange(0, i as int));
                assert(full.subrange(0, i + 1 as int).last() == self.available_tasks@[i as int]@);
                if out@.len() > out0.len() {
                    lemma_views_of(out@);
                    lemma_views_of(out0);
                    assert(views_of(out@) =~= views_of(out0).push(out@.last()@));
                } else {
                    assert(views_of(out@) =~= views_of(out0));
                }
            }
            i += 1;
        }
        proof {
            lemma_views_of(self.available_tasks@);
            assert(views_of(self.available_tasks@).subrange(0, n as int) =~= views_of(
                self.available_tasks@,
            ));
        }
        out
    }

    /// Whether the agent currently follows a plan.
    pub fn has_plan(&self) -> (r: bool)
        ensures
            r == (self.current_plan is Some),
    {
        self.current_plan.is_some()
    }

    /// The goal the agent's policy picks from its list, `None` exactly when
    /// the list is empty.
    pub fn get_next_goal(&self, world: &Context) -> (r: Option<Goal>)
        ensures
            self.goal_eval is Top ==> match r {
                Some(g) => self.goals@.len() > 0 && g@ == self.goals@[0]@,
                None => self.goals@.len() == 0,
            },
            self.goal_eval is Random ==> match r {
                Some(g) => exists|i: int| 0 <= i < self.goals@.len() && g@ == (
                #[trigger] self.goals@[i])@,
                None => self.goals@.len() == 0,
            },
    {
        self.goal_eval.next_goal(&self.goals, world)
    }

    /// Plans towards one fixed goal: the entry for hosts that select goals
    /// by a rule of their own.  The answer is exactly the model's.
    pub fn create_plan_for_goal(
        &self,
        goal: &Goal,
        world: &Context,
        registry: &GlobalHtnTaskRegistry,
    ) -> (r: Result<PlanningPath, PlanError>)
        ensures
            planning_result_matches(
                r,
                views_of(self.available_tasks@),
                registry@,
                goal@.requirements,
                world@,
            ),
    {
        let resolved = resolve_tasks(&self.available_tasks, registry);
        let cap = self.available_tasks.len();
        proof {
            lemma_views_of(self.available_tasks@);
        }
        match search_plan(&resolved, &goal.requirements, cap, world) {
            Ok(tasks) => Ok(PlanningPath(tasks)),
            Err(e) => Err(e),
        }
    }

    /// Plans towards the goal the agent's policy picks.  With no goal the
    /// planning attempt fails; otherwise the answer is exactly the model's
    /// for the picked goal.
    pub fn create_plan(&self, world: &Context, registry: &GlobalHtnTaskRegistry) -> (r: Result<
        PlanningPath,
        PlanError,
    >)
        ensures
            self.goals@.len() == 0 ==> r == Result::<PlanningPath, PlanError>::Err(
                PlanError::PlanningFailed,
            ),
            self.goal_eval is Top && self.goals@.len() > 0 ==> planning_result_matches(
                r,
                views_of(self.available_tasks@),
                registry@,
                self.goals@[0]@.requirements,
                world@,
            ),
            self.goal_eval is Random && self.goals@.len() > 0 ==> exists|i: int|
                0 <= i < self.goals@.len() && planning_result_matches(
                    r,
                    views_of(self.available_tasks@),
                    registry@,
                    (#[trigger] self.goals@[i])@.requirements,
                    world@,
                ),
    {
        let goal = match self.get_next_goal(world) {
            Some(g) => g,
            None => {
                return Err(PlanError::PlanningFailed);
            },
        };
        self.create_plan_for_goal(&goal, world, registry)
    }
}

impl Default for HtnAgent {
    /// Same as [`HtnAgent::new`].
    fn default() -> (r: HtnAgent)
        ensures
            r.goals@.len() == 0,
            r.available_tasks@.len() == 0,
            r.current_plan is None,
            r.goal_eval is Top,
    {
        HtnAgent::new()
    }
}

/// Planning is deterministic for a fixed goal: any two plans that the
/// planner's contract admits on identical inputs are the same plan.
pub proof fn lemma_planning_deterministic(
    p1: Seq<TaskValue>,
    p2: Seq<TaskValue>,
    avail: Seq<TaskValue>,
    reg: Map<Seq<char>, crate::tasks::DefValue>,
    goal: Map<Seq<char>, ReqValue>,
    w0: Map<Seq<char>, PredValue>,
)
    requires
        plan_outcome(avail, reg, goal, w0) == Some(p1),
        plan_outcome(avail, reg, goal, w0) == Some(p2),
    ensures
        p1 == p2,
{
}

/// The search prefers cheaper goal-reaching paths: the leaf it selects is a
/// recorded leaf, and never dearer than any other recorded one.
pub proof fn lemma_best_leaf_minimal(arena: Seq<NodeValue>, leaves: Seq<int>, n: int, i: int)
    requires
        0 <= i < n <= leaves.len(),
    ensures
        node_cost(arena, best_leaf_upto(arena, leaves, n)) <= node_cost(arena, leaves[i]),
        exists|j: int| 0 <= j < n && leaves[j] == best_leaf_upto(arena, leaves, n),
    decreases n,
{
    if n > 1 {
        if i < n - 1 {
            lemma_best_leaf_minimal(arena, leaves, n - 1, i);
        } else {
            lemma_best_leaf_minimal(arena, leaves, n - 1, 0);
        }
    }
}

/// The world after running `tasks` from `w`, each step merging its combined
/// postcondition right-biased.
pub open spec fn plan_applies(w: Map<Seq<char>, PredValue>, tasks: Seq<TaskValue>) -> Map<
    Seq<char>,
    PredValue,
>
    decreases tasks.len(),
{
    if tasks.len() == 0 {
        w
    } else {
        plan_applies(w, tasks.drop_last()).union_prefer_right(task_post(tasks.last()))
    }
}

/// Every step's combined precondition holds in the world left by the steps
/// before it.
pub open spec fn plan_chain_valid(w: Map<Seq<char>, PredValue>, tasks: Seq<TaskValue>) -> bool
    decreases tasks.len(),
{
    if tasks.len() == 0 {
        true
    } else {
        plan_chain_valid(w, tasks.drop_last()) && spec_validates(
            plan_applies(w, tasks.drop_last()),
            task_pre(tasks.last()),
        )
    }
}

/// Every resolved task is an available task, fully registered, carrying its
/// own derived conditions and cost.
spec fn resolved_ok(
    ts: Seq<ResolvedValue>,
    avail: Seq<TaskValue>,
    reg: Map<Seq<char>, crate::tasks::DefValue>,
) -> bool {
    forall|t: int| 0 <= t < ts.len() ==> {
        &&& (#[trigger] ts[t]).precon == task_pre(ts[t].task)
        &&& ts[t].postcon == task_post(ts[t].task)
        &&& avail.contains(ts[t].task)
        &&& task_registered(reg, ts[t].task)
    }
}

proof fn lemma_resolve_spec_ok(avail: Seq<TaskValue>, reg: Map<Seq<char>, crate::tasks::DefValue>)
    ensures
        resolved_ok(resolve_spec(avail, reg), avail, reg),
    decreases avail.len(),
{
    if avail.len() > 0 {
        lemma_resolve_spec_ok(avail.drop_last(), reg);
        let ts = resolve_spec(avail, reg);
        let rest = resolve_spec(avail.drop_last(), reg);
        assert forall|t: int| 0 <= t < ts.len() implies {
            &&& (#[trigger] ts[t]).precon == task_pre(ts[t].task)
            &&& ts[t].postcon == task_post(ts[t].task)
            &&& avail.contains(ts[t].task)
            &&& task_registered(reg, ts[t].task)
        } by {
            if t < rest.len() {
                assert(rest[t].precon == task_pre(rest[t].task));
                let w = choose|w: int| 0 <= w < avail.drop_last().len() && avail.drop_last()[w]
                    == rest[t].task;
                assert(avail[w] == rest[t].task);
            } else {
                assert(avail[avail.len() - 1] == avail.last());
            }
        }
    }
}

/// Every node of the arena is sound: the root holds the start world, and
/// every other node applies an eligible resolved task to its parent.
spec fn arena_sound(
    ts: Seq<ResolvedValue>,
    w0: Map<Seq<char>, PredValue>,
    arena: Seq<NodeValue>,
) -> bool {
    forall|i: int| 0 <= i < arena.len() ==> match (#[trigger] arena[i]).parent {
        Some(p) => {
            &&& 0 <= p < i
            &&& arena[i].task matches Some(t) && 0 <= t < ts.len() && arena[i].world == arena[p].world.union_prefer_right(
                ts[t].postcon,
            ) && spec_validates(arena[p].world, ts[t].precon)
        },
        None => arena[i].task is None && arena[i].world == w0,
    }
}

/// Recorded leaves point at task-bearing nodes whose world satisfies the
/// goal; pending stack entries point into the arena.
spec fn state_sound(
    ts: Seq<ResolvedValue>,
    goal: Map<Seq<char>, ReqValue>,
    w0: Map<Seq<char>, PredValue>,
    s: SearchState,
) -> bool {
    &&& arena_sound(ts, w0, s.arena)
    &&& forall|i: int| 0 <= i < s.stack.len() ==> 0 <= #[trigger] s.stack[i] < s.arena.len()
    &&& forall|i: int| 0 <= i < s.leaves.len() ==> 0 <= #[trigger] s.leaves[i] < s.arena.len()
        && s.arena[s.leaves[i]].task is Some && req_satisfied(goal, s.arena[s.leaves[i]].world)
}

proof fn lemma_children_sound(
    ts: Seq<ResolvedValue>,
    node: NodeValue,
    idx: int,
    n: int,
)
    requires
        0 <= n <= ts.len(),
    ensures
        forall|j: int| 0 <= j < children_upto(ts, node, idx, n).len() ==> exists|t: int|
            0 <= t < n && (#[trigger] children_upto(ts, node, idx, n)[j]) == child_node(
                ts,
                node,
                idx,
                t,
            ) && spec_validates(node.world, ts[t].precon),
    decreases n,
{
    if n > 0 {
        lemma_children_sound(ts, node, idx, n - 1);
        let kids = children_upto(ts, node, idx, n);
        let rest = children_upto(ts, node, idx, n - 1);
        assert forall|j: int| 0 <= j < kids.len() implies exists|t: int| 0 <= t < n && (
        #[trigger] kids[j]) == child_node(ts, node, idx, t) && spec_validates(
            node.world,
            ts[t].precon,
        ) by {
            if j < rest.len() {
                let t = choose|t: int| 0 <= t < n - 1 && rest[j] == child_node(ts, node, idx, t)
                    && spec_validates(node.world, ts[t].precon);
                assert(kids[j] == child_node(ts, node, idx, t));
            } else {
                assert(kids[j] == child_node(ts, node, idx, n - 1));
            }
        }
    }
}

proof fn lemma_step_sound(
    ts: Seq<ResolvedValue>,
    goal: Map<Seq<char>, ReqValue>,
    cap: int,
    w0: Map<Seq<char>, PredValue>,
    s: SearchState,
)
    requires
        state_sound(ts, goal, w0, s),
    ensures
        state_sound(ts, goal, w0, step_spec(ts, goal, cap, s)),
{
    if s.stack.len() > 0 {
        let idx = s.stack.last();
        let node = s.arena[idx];
        if node.task is Some && req_satisfied(goal, node.world) {
        } else if node.depth >= cap {
        } else if oscillates(s.arena, idx) {
        } else {
            let kids = children_upto(ts, node, idx, ts.len() as int);
            let arena2 = s.arena + kids;
            lemma_children_sound(ts, node, idx, ts.len() as int);
            assert forall|i: int| 0 <= i < arena2.len() implies match (#[trigger] arena2[i]).parent {
                Some(p) => {
                    &&& 0 <= p < i
                    &&& arena2[i].task matches Some(t) && 0 <= t < ts.len() && arena2[i].world
                        == arena2[p].world.union_prefer_right(ts[t].postcon) && spec_validates(
                        arena2[p].world,
                        ts[t].precon,
                    )
                },
                None => arena2[i].task is None && arena2[i].world == w0,
            } by {
                if i < s.arena.len() {
                    assert(arena2[i] == s.arena[i]);
                    match s.arena[i].parent {
                        Some(p) => {
                            assert(arena2[p] == s.arena[p]);
                        },
                        None => {},
                    }
                } else {
                    let j = i - s.arena.len();
                    assert(arena2[i] == kids[j]);
                    let t = choose|t: int|
                        0 <= t < ts.len() && kids[j] == child_node(ts, node, idx, t)
                            && spec_validates(node.world, ts[t].precon);
                    assert(arena2[idx] == s.arena[idx]);
                }
            }
        }
    }
}

proof fn lemma_run_sound(
    ts: Seq<ResolvedValue>,
    goal: Map<Seq<char>, ReqValue>,
    cap: int,
    w0: Map<Seq<char>, PredValue>,
    s: SearchState,
    fuel: nat,
)
    requires
        state_sound(ts, goal, w0, s),
    ensures
        state_sound(ts, goal, w0, run_search(ts, goal, cap, s, fuel)),
    decreases fuel,
{
    if fuel > 0 && s.stack.len() > 0 {
        lemma_step_sound(ts, goal, cap, w0, s);
        lemma_run_sound(ts, goal, cap, w0, step_spec(ts, goal, cap, s), (fuel - 1) as nat);
    }
}

/// In a sound arena, the path to any node replays to exactly that node's
/// world, every step eligible when taken, with every task index in range.
proof fn lemma_path_sound(
    ts: Seq<ResolvedValue>,
    w0: Map<Seq<char>, PredValue>,
    arena: Seq<NodeValue>,
    i: int,
)
    requires
        arena_sound(ts, w0, arena),
        0 <= i < arena.len(),
    ensures
        ({
            let path = path_of(arena, i);
            &&& forall|k: int| 0 <= k < path.len() ==> 0 <= #[trigger] path[k] < ts.len()
            &&& apply_path(ts, w0, path) == arena[i].world
            &&& path_valid(ts, w0, path)
            &&& (arena[i].task is Some ==> path.len() >= 1)
        }),
    decreases i,
{
    match arena[i].parent {
        Some(p) => {
            lemma_path_sound(ts, w0, arena, p);
            let path = path_of(arena, i);
            let t = arena[i].task->0;
            assert(path =~= path_of(arena, p).push(t));
            assert(path.drop_last() =~= path_of(arena, p));
        },
        None => {
            assert(path_of(arena, i) =~= Seq::<int>::empty());
        },
    }
}

/// The world after replaying a path of resolved-task indices.
pub open spec fn apply_path(
    ts: Seq<ResolvedValue>,
    w: Map<Seq<char>, PredValue>,
    path: Seq<int>,
) -> Map<Seq<char>, PredValue>
    decreases path.len(),
{
    if path.len() == 0 {
        w
    } else {
        apply_path(ts, w, path.drop_last()).union_prefer_right(ts[path.last()].postcon)
    }
}

/// Each step of the path was eligible in the world the steps before it left.
pub open spec fn path_valid(
    ts: Seq<ResolvedValue>,
    w: Map<Seq<char>, PredValue>,
    path: Seq<int>,
) -> bool
    decreases path.len(),
{
    if path.len() == 0 {
        true
    } else {
        path_valid(ts, w, path.drop_last()) && spec_validates(
            apply_path(ts, w, path.drop_last()),
            ts[path.last()].precon,
        )
    }
}

proof fn lemma_path_to_tasks(
    ts: Seq<ResolvedValue>,
    w0: Map<Seq<char>, PredValue>,
    path: Seq<int>,
)
    requires
        forall|k: int| 0 <= k < path.len() ==> 0 <= #[trigger] path[k] < ts.len(),
        forall|t: int| 0 <= t < ts.len() ==> (#[trigger] ts[t]).precon == task_pre(ts[t].task)
            && ts[t].postcon == task_post(ts[t].task),
    ensures
        apply_path(ts, w0, path) == plan_applies(w0, tasks_of_path(ts, path)),
        path_valid(ts, w0, path) ==> plan_chain_valid(w0, tasks_of_path(ts, path)),
    decreases path.len(),
{
    if path.len() > 0 {
        lemma_path_to_tasks(ts, w0, path.drop_last());
        let tasks = tasks_of_path(ts, path);
        assert(tasks.drop_last() =~= tasks_of_path(ts, path.drop_last()));
        assert(tasks.last() == ts[path.last()].task);
    }
}

/// Soundness of planning: a produced plan is non-empty, consists of
/// available, fully registered tasks, is chain-valid from the start world
/// (each step's combined precondition holds when the step is reached), and
/// its final world satisfies the goal.
pub proof fn lemma_plan_outcome_sound(
    avail: Seq<TaskValue>,
    reg: Map<Seq<char>, crate::tasks::DefValue>,
    goal: Map<Seq<char>, ReqValue>,
    w0: Map<Seq<char>, PredValue>,
)
    ensures
        plan_outcome(avail, reg, goal, w0) matches Some(tasks) ==> {
            &&& tasks.len() >= 1
            &&& plan_chain_valid(w0, tasks)
            &&& req_satisfied(goal, plan_applies(w0, tasks))
            &&& forall|k: int| 0 <= k < tasks.len() ==> avail.contains(#[trigger] tasks[k])
                && task_registered(reg, tasks[k])
        },
{
    let ts = resolve_spec(avail, reg);
    let cap = avail.len() as int;
    let s0 = init_state(w0);
    let s = search_result(ts, goal, cap, w0);
    lemma_resolve_spec_ok(avail, reg);
    assert(state_sound(ts, goal, w0, s0));
    lemma_run_sound(ts, goal, cap, w0, s0, MAX_SEARCH_ITERATIONS as nat);
    if s.leaves.len() > 0 {
        let best = best_leaf_upto(s.arena, s.leaves, s.leaves.len() as int);
        lemma_best_leaf_minimal(s.arena, s.leaves, s.leaves.len() as int, 0);
        let j = choose|j: int| 0 <= j < s.leaves.len() && s.leaves[j] == best;
        lemma_path_sound(ts, w0, s.arena, best);
        let path = path_of(s.arena, best);
        lemma_path_to_tasks(ts, w0, path);
        let tasks = tasks_of_path(ts, path);
        assert forall|k: int| 0 <= k < tasks.len() implies avail.contains(#[trigger] tasks[k])
            && task_registered(reg, tasks[k]) by {
            assert(tasks[k] == ts[path[k]].task);
        }
    }
}

} // verus!
