//! Tasks and the task registry.
//!
//! A task is either a `Primitive` (name, precondition, postcondition) or a
//! `Macro`, an ordered composite of tasks.  The registry maps task names to
//! their definitions, which also carry the task's cost; a name missing from
//! the registry makes the task unusable for planning.

use vstd::prelude::*;

use crate::data::{
    pairs_map, distinct_keys, lemma_pairs_map_contains, lemma_pairs_map_index, Context, PredValue,
};

verus! {

broadcast use vstd::seq::axiom_seq_index_decreases, vstd::seq::axiom_seq_subrange_decreases, vstd::std_specs::vec::group_vec_axioms;

/// Mathematical value of a task: the spec-level twin of [`Task`].
pub enum TaskValue {
    Primitive { name: Seq<char>, precon: Map<Seq<char>, PredValue>, postcon: Map<Seq<char>, PredValue> },
    Macro(Seq<TaskValue>),
}

/// A unit of work: atomic (`Primitive`) or an ordered composite (`Macro`).
#[derive(Debug)]
pub enum Task {
    Primitive { precon: Context, postcon: Context, name: String },
    Macro(Vec<Task>),
}

impl View for Task {
    type V = TaskValue;

    open spec fn view(&self) -> TaskValue
        decreases self,
    {
        match self {
            Task::Primitive { precon, postcon, name } => TaskValue::Primitive {
                name: name@,
                precon: precon@,
                postcon: postcon@,
            },
            Task::Macro(ts) => TaskValue::Macro(views_of(ts@)),
        }
    }
}

/// The views of a sequence of tasks.
pub open spec fn views_of(s: Seq<Task>) -> Seq<TaskValue>
    decreases s,
{
    if s.len() == 0 {
        Seq::empty()
    } else {
        views_of(s.drop_last()).push(s.last()@)
    }
}

/// `views_of` is the elementwise view.
pub proof fn lemma_views_of(s: Seq<Task>)
    ensures
        views_of(s).len() == s.len(),
        forall|i: int| 0 <= i < s.len() ==> #[trigger] views_of(s)[i] == s[i]@,
    decreases s.len(),
{
    if s.len() > 0 {
        lemma_views_of(s.drop_last());
        assert(views_of(s) == views_of(s.drop_last()).push(s.last()@));
        assert(views_of(s.drop_last()).len() == s.drop_last().len());
        assert(s.drop_last().len() == s.len() - 1);
        assert(views_of(s).len() == s.len());
        assert forall|i: int| 0 <= i < s.len() implies #[trigger] views_of(s)[i] == s[i]@ by {
            if i < s.len() - 1 {
                assert(s.drop_last()[i] == s[i]);
                assert(views_of(s.drop_last())[i] == s.drop_last()[i]@);
            } else {
                assert(s.last() == s[s.len() - 1]);
            }
        }
    }
}

/// The name of a primitive task value; a composite has none.
pub open spec fn task_name(t: TaskValue) -> Seq<char> {
    match t {
        TaskValue::Primitive { name, .. } => name,
        TaskValue::Macro(_) => Seq::empty(),
    }
}

/// The ordered primitive leaves of a task, depth-first, left to right.
pub open spec fn task_leaves(t: TaskValue) -> Seq<TaskValue>
    decreases t, 0int,
{
    match t {
        TaskValue::Primitive { .. } => seq![t],
        TaskValue::Macro(steps) => task_leaves_upto(steps, steps.len() as int),
    }
}

/// The concatenated leaves of the first `n` elements of `steps`.
pub open spec fn task_leaves_upto(steps: Seq<TaskValue>, n: int) -> Seq<TaskValue>
    decreases steps, n,
{
    if n <= 0 || n > steps.len() {
        Seq::empty()
    } else {
        task_leaves_upto(steps, n - 1) + task_leaves(steps[n - 1])
    }
}

/// A task's combined postcondition: a primitive's own, or the right-biased
/// merge of its steps' postconditions in forward order.
pub open spec fn task_post(t: TaskValue) -> Map<Seq<char>, PredValue>
    decreases t, 0int,
{
    match t {
        TaskValue::Primitive { postcon, .. } => postcon,
        TaskValue::Macro(steps) => task_post_upto(steps, steps.len() as int),
    }
}

/// The merged postconditions of the first `n` elements of `steps`.
pub open spec fn task_post_upto(steps: Seq<TaskValue>, n: int) -> Map<Seq<char>, PredValue>
    decreases steps, n,
{
    if n <= 0 || n > steps.len() {
        Map::empty()
    } else {
        task_post_upto(steps, n - 1).union_prefer_right(task_post(steps[n - 1]))
    }
}

/// A task's combined precondition: a primitive's own, or the right-biased
/// merge of its steps' preconditions taken in reverse order, so that an
/// earlier step's demand overrides a later one's.  This is a documented
/// design approximation, not true temporal precondition propagation.
pub open spec fn task_pre(t: TaskValue) -> Map<Seq<char>, PredValue>
    decreases t, 0int,
{
    match t {
        TaskValue::Primitive { precon, .. } => precon,
        TaskValue::Macro(steps) => task_pre_from_end(steps, steps.len() as int),
    }
}

/// The merged preconditions of the last `n` elements of `steps`, walked from
/// the end towards the front.
pub open spec fn task_pre_from_end(steps: Seq<TaskValue>, n: int) -> Map<Seq<char>, PredValue>
    decreases steps, n,
{
    if n <= 0 || n > steps.len() {
        Map::empty()
    } else {
        task_pre_from_end(steps, n - 1).union_prefer_right(task_pre(steps[steps.len() - n]))
    }
}

impl Clone for Task {
    /// Copies are independent and describe the same task.
    #[verifier::loop_isolation(false)]
    fn clone(&self) -> (r: Task)
        ensures
            r@ == self@,
        decreases self,
    {
        match self {
            Task::Primitive { precon, postcon, name } => Task::Primitive {
                precon: precon.clone(),
                postcon: postcon.clone(),
                name: name.clone(),
            },
            Task::Macro(ts) => {
                let n = ts.len();
                let mut out: Vec<Task> = Vec::new();
                let mut i: usize = 0;
                while i < n
                    invariant
                        n == ts@.len(),
                        i <= n,
                        out@.len() == i,
                        forall|j: int| 0 <= j < i ==> (#[trigger] out@[j])@ == ts@[j]@,
                    decreases n - i,
                {
                    proof {
                        assert(decreases_to!(*ts => ts@));
                        assert(decreases_to!(ts@ => ts@[i as int]));
                    }
                    out.push(ts[i].clone());
                    i += 1;
                }
                proof {
                    lemma_views_of(out@);
                    lemma_views_of(ts@);
                    assert(views_of(out@) =~= views_of(ts@));
                }
                Task::Macro(out)
            },
        }
    }
}

impl Task {
    /// An atomic task with static pre- and postconditions.
    pub fn primitive(name: &str, precon: Context, postcon: Context) -> (r: Task)
        ensures
            r@ == (TaskValue::Primitive { name: name@, precon: precon@, postcon: postcon@ }),
    {
        Task::Primitive { precon, postcon, name: name.to_owned() }
    }

    /// An ordered composite of tasks.
    pub fn macro_(set: Vec<Task>) -> (r: Task)
        ensures
            r@ == TaskValue::Macro(views_of(set@)),
    {
        Task::Macro(set)
    }

    /// The ordered primitive leaves of the task, innermost first within each
    /// step and steps in order; a primitive yields itself.
    #[verifier::loop_isolation(false)]
    pub fn decompose(&self) -> (r: Vec<Task>)
        ensures
            views_of(r@) == task_leaves(self@),
        decreases self,
    {
        match self {
            Task::Primitive { .. } => {
                let mut out: Vec<Task> = Vec::new();
                out.push(self.clone());
                proof {
                    lemma_views_of(out@);
                    assert(views_of(out@) =~= task_leaves(self@));
                }
                out
            },
            Task::Macro(ts) => {
                let ghost tsv = views_of(ts@);
                let n = ts.len();
                let mut out: Vec<Task> = Vec::new();
                let mut i: usize = 0;
                proof {
                    lemma_views_of(ts@);
                }
                while i < n
                    invariant
                        n == ts@.len(),
                        tsv == views_of(ts@),
                        i <= n,
                        views_of(out@) == task_leaves_upto(tsv, i as int),
                    decreases n - i,
                {
                    proof {
                        assert(decreases_to!(*ts => ts@));
                        assert(decreases_to!(ts@ => ts@[i as int]));
                    }
                    let mut part = ts[i].decompose();
                    let ghost out0 = out@;
                    let ghost part0 = part@;
                    out.append(&mut part);
                    proof {
                        lemma_views_of(ts@);
                        lemma_views_of(out0);
                        lemma_views_of(part0);
                        lemma_views_of(out@);
                        assert(views_of(out@) =~= views_of(out0) + views_of(part0));
                        assert(tsv[i as int] == ts@[i as int]@);
                    }
                    i += 1;
                }
                proof {
                    lemma_views_of(ts@);
                    assert(task_leaves(self@) == task_leaves_upto(tsv, n as int));
                }
                out
            },
        }
    }

    /// The task's combined postcondition (see [`task_post`]).
    #[verifier::loop_isolation(false)]
    pub fn postconditions(&self) -> (r: Context)
        ensures
            r@ == task_post(self@),
        decreases self,
    {
        match self {
            Task::Primitive { postcon, .. } => postcon.clone(),
            Task::Macro(ts) => {
                let ghost tsv = views_of(ts@);
                let n = ts.len();
                let mut acc = Context::new();
                let mut i: usize = 0;
                proof {
                    assert(acc@ =~= task_post_upto(tsv, 0));
                }
                while i < n
                    invariant
                        n == ts@.len(),
                        tsv == views_of(ts@),
                        i <= n,
                        acc@ == task_post_upto(tsv, i as int),
                    decreases n - i,
                {
                    proof {
                        assert(decreases_to!(*ts => ts@));
                        assert(decreases_to!(ts@ => ts@[i as int]));
                    }
                    let step = ts[i].postconditions();
                    acc = acc.concat(&step);
                    proof {
                        lemma_views_of(ts@);
                        assert(tsv[i as int] == ts@[i as int]@);
                    }
                    i += 1;
                }
                proof {
                    lemma_views_of(ts@);
                }
                acc
            },
        }
    }

    /// The task's combined precondition (see [`task_pre`]).
    #[verifier::loop_isolation(false)]
    pub fn preconditions(&self) -> (r: Context)
        ensures
            r@ == task_pre(self@),
        decreases self,
    {
        match self {
            Task::Primitive { precon, .. } => precon.clone(),
            Task::Macro(ts) => {
                let ghost tsv = views_of(ts@);
                let n = ts.len();
                let mut acc = Context::new();
                let mut j: usize = n;
                proof {
                    lemma_views_of(ts@);
                    assert(acc@ =~= task_pre_from_end(tsv, 0));
                }
                while j > 0
                    invariant
                        n == ts@.len(),
                        tsv == views_of(ts@),
                        j <= n,
                        acc@ == task_pre_from_end(tsv, (n - j) as int),
                    decreases j,
                {
                    j -= 1;
                    proof {
                        assert(decreases_to!(*ts => ts@));
                        assert(decreases_to!(ts@ => ts@[j as int]));
                    }
                    let step = ts[j].preconditions();
                    acc = acc.concat(&step);
                    proof {
                        lemma_views_of(ts@);
                        assert(tsv[j as int] == ts@[j as int]@);
                        assert(tsv.len() - ((n - j) as int) == j as int);
                    }
                }
                proof {
                    lemma_views_of(ts@);
                    assert(task_pre(self@) == task_pre_from_end(tsv, n as int));
                }
                acc
            },
        }
    }

    /// The primitive's name; a composite reads as "macro".
    pub fn name(&self) -> (r: String)
        ensures
            r@ == task_display_name(self@),
    {
        match self {
            Task::Primitive { name, .. } => name.clone(),
            Task::Macro(_) => {
                let s = "macro".to_owned();
                s
            },
        }
    }
}

/// Display name of a task value: a primitive's own name, "macro" otherwise.
pub open spec fn task_display_name(t: TaskValue) -> Seq<char> {
    match t {
        TaskValue::Primitive { name, .. } => name,
        TaskValue::Macro(_) => "macro"@,
    }
}

/// Every leaf of a task is a primitive.
pub proof fn lemma_leaves_are_primitive(t: TaskValue)
    ensures
        forall|i: int| 0 <= i < task_leaves(t).len() ==> (#[trigger] task_leaves(t)[i]) is Primitive,
    decreases t, 0int,
{
    match t {
        TaskValue::Primitive { .. } => {},
        TaskValue::Macro(steps) => {
            lemma_leaves_upto_are_primitive(steps, steps.len() as int);
        },
    }
}

proof fn lemma_leaves_upto_are_primitive(steps: Seq<TaskValue>, n: int)
    requires
        n <= steps.len(),
    ensures
        forall|i: int| 0 <= i < task_leaves_upto(steps, n).len() ==> (#[trigger] task_leaves_upto(
            steps,
            n,
        )[i]) is Primitive,
    decreases steps, n,
{
    if n > 0 {
        lemma_leaves_upto_are_primitive(steps, n - 1);
        lemma_leaves_are_primitive(steps[n - 1]);
    }
}

/// The names of a sequence of task values.
pub open spec fn names_of(s: Seq<TaskValue>) -> Seq<Seq<char>> {
    s.map_values(|l: TaskValue| task_name(l))
}

/// The concatenated leaf names of the first `n` elements of `steps`.
pub open spec fn leaf_names_upto(steps: Seq<TaskValue>, n: int) -> Seq<Seq<char>>
    decreases n,
{
    if n <= 0 {
        Seq::empty()
    } else {
        leaf_names_upto(steps, n - 1) + names_of(task_leaves(steps[n - 1]))
    }
}

/// Decomposing a composite yields exactly the ordered concatenation of its
/// steps' leaf names, depth-first and left to right, whatever the nesting.
pub proof fn lemma_macro_decompose_names(steps: Seq<TaskValue>)
    ensures
        names_of(task_leaves(TaskValue::Macro(steps))) == leaf_names_upto(
            steps,
            steps.len() as int,
        ),
{
    lemma_leaf_names_upto(steps, steps.len() as int);
}

proof fn lemma_leaf_names_upto(steps: Seq<TaskValue>, n: int)
    requires
        n <= steps.len(),
    ensures
        names_of(task_leaves_upto(steps, n)) == leaf_names_upto(steps, n),
    decreases n,
{
    if n <= 0 {
        assert(names_of(task_leaves_upto(steps, n)) =~= leaf_names_upto(steps, n));
    } else {
        lemma_leaf_names_upto(steps, n - 1);
        assert(names_of(task_leaves_upto(steps, n - 1) + task_leaves(steps[n - 1])) =~= names_of(
            task_leaves_upto(steps, n - 1),
        ) + names_of(task_leaves(steps[n - 1])));
    }
}

/// Saturating addition on the cost scale.
pub open spec fn sat_add(a: int, b: int) -> int {
    if a + b > u64::MAX {
        u64::MAX as int
    } else {
        a + b
    }
}

/// Adds two costs, saturating at the largest representable cost.
pub fn add_cost(a: u64, b: u64) -> (r: u64)
    ensures
        r as int == sat_add(a as int, b as int),
{
    if a > u64::MAX - b {
        u64::MAX
    } else {
        a + b
    }
}

/// Spec-level twin of [`TaskDefinition`].
pub struct DefValue {
    pub precon: Map<Seq<char>, PredValue>,
    pub postcon: Map<Seq<char>, PredValue>,
    pub cost: int,
}

/// Behaviour of a registered task: its conditions and its cost.  The
/// activation and deactivation side effects belong to the host runtime, which
/// keys them by the same task name.
#[derive(Debug)]
pub struct TaskDefinition {
    pub precon: Context,
    pub postcon: Context,
    pub cost: u64,
}

impl View for TaskDefinition {
    type V = DefValue;

    open spec fn view(&self) -> DefValue {
        DefValue { precon: self.precon@, postcon: self.postcon@, cost: self.cost as int }
    }
}

impl Clone for TaskDefinition {
    fn clone(&self) -> (r: TaskDefinition)
        ensures
            r@ == self@,
    {
        TaskDefinition {
            precon: self.precon.clone(),
            postcon: self.postcon.clone(),
            cost: self.cost,
        }
    }
}

/// Name-keyed store of task definitions; registration overwrites silently
/// (last write wins).
#[derive(Debug)]
pub struct GlobalHtnTaskRegistry {
    entries: Vec<(String, TaskDefinition)>,
}

impl View for GlobalHtnTaskRegistry {
    type V = Map<Seq<char>, DefValue>;

    closed spec fn view(&self) -> Map<Seq<char>, DefValue> {
        pairs_map(self.entries@)
    }
}

/// Every primitive leaf of `t` is registered in `reg`.
pub open spec fn task_registered(reg: Map<Seq<char>, DefValue>, t: TaskValue) -> bool {
    forall|i: int| 0 <= i < task_leaves(t).len() ==> reg.contains_key(
        task_name(#[trigger] task_leaves(t)[i]),
    )
}

/// The saturating sum of the registered costs of the first `n` leaves.
pub open spec fn leaves_cost_upto(reg: Map<Seq<char>, DefValue>, ls: Seq<TaskValue>, n: int) -> int
    decreases n,
{
    if n <= 0 {
        0
    } else {
        sat_add(leaves_cost_upto(reg, ls, n - 1), spec_get_cost(reg, task_name(ls[n - 1])))
    }
}

/// The registered cost of a task name (zero if unregistered).
pub open spec fn spec_get_cost(reg: Map<Seq<char>, DefValue>, name: Seq<char>) -> int {
    if reg.contains_key(name) {
        reg[name].cost
    } else {
        0
    }
}

/// The total cost of a task: the saturating sum of its leaves' registered
/// costs.
pub open spec fn spec_task_cost(reg: Map<Seq<char>, DefValue>, t: TaskValue) -> int {
    leaves_cost_upto(reg, task_leaves(t), task_leaves(t).len() as int)
}

impl GlobalHtnTaskRegistry {
    #[verifier::type_invariant]
    spec fn wf(self) -> bool {
        distinct_keys(self.entries@)
    }

    /// An empty registry.
    pub fn new() -> (r: GlobalHtnTaskRegistry)
        ensures
            r@ == Map::<Seq<char>, DefValue>::empty(),
    {
        GlobalHtnTaskRegistry { entries: Vec::new() }
    }

    /// Index of the entry holding `key`, if one does.
    fn find_index(&self, key: &String) -> (r: Option<usize>)
        ensures
            match r {
                Some(i) => i < self.entries@.len() && self.entries@[i as int].0@ == key@,
                None => !self@.contains_key(key@),
            },
    {
        let n = self.entries.len();
        let mut i: usize = 0;
        while i < n
            invariant
                n == self.entries@.len(),
                i <= n,
                forall|j: int| 0 <= j < i ==> (#[trigger] self.entries@[j]).0@ != key@,
            decreases n - i,
        {
            let e = &self.entries[i];
            if e.0 == *key {
                return Some(i);
            }
            i += 1;
        }
        proof {
            lemma_pairs_map_contains(self.entries@, key@);
        }
        None
    }

    /// Registers a task under `name` from optional conditions (an omitted
    /// condition is empty) and a static cost; overwrites an existing entry.
    pub fn task(&mut self, name: &str, precon: Option<Context>, postcon: Option<Context>, cost: u64)
        ensures
            final(self)@ == old(self)@.insert(
                name@,
                DefValue {
                    precon: match precon {
                        Some(c) => c@,
                        None => Map::empty(),
                    },
                    postcon: match postcon {
                        Some(c) => c@,
                        None => Map::empty(),
                    },
                    cost: cost as int,
                },
            ),
    {
        let pre = match precon {
            Some(c) => c,
            None => Context::new(),
        };
        let post = match postcon {
            Some(c) => c,
            None => Context::new(),
        };
        self.custom_task(name, TaskDefinition { precon: pre, postcon: post, cost });
    }

    /// Registers a caller-built definition under `name`; overwrites an
    /// existing entry.
    pub fn custom_task(&mut self, name: &str, data: TaskDefinition)
        ensures
            final(self)@ == old(self)@.insert(name@, data@),
    {
        proof {
            use_type_invariant(&*self);
        }
        let k = name.to_owned();
        let found = self.find_index(&k);
        let mut entries: Vec<(String, TaskDefinition)> = Vec::new();
        std::mem::swap(&mut entries, &mut self.entries);
        let ghost s0 = entries@;
        match found {
            Some(i) => {
                proof {
                    crate::data::lemma_pairs_map_update(s0, i as int, (k, data));
                }
                entries[i] = (k, data);
                self.entries = entries;
            },
            None => {
                entries.push((k, data));
                proof {
                    assert(entries@.drop_last() =~= s0);
                    lemma_pairs_map_contains(s0, k@);
                }
                self.entries = entries;
            },
        }
    }

    /// The definition registered under `name`, if any.
    pub fn get_named(&self, name: &str) -> (r: Option<&TaskDefinition>)
        ensures
            match r {
                Some(d) => self@.contains_key(name@) && d@ == self@[name@],
                None => !self@.contains_key(name@),
            },
    {
        proof {
            use_type_invariant(&*self);
        }
        let k = name.to_owned();
        match self.find_index(&k) {
            Some(i) => {
                proof {
                    lemma_pairs_map_index(self.entries@, i as int);
                }
                Some(&self.entries[i].1)
            },
            None => None,
        }
    }

    /// For a registered primitive task, its name and definition; `None` for a
    /// composite or an unregistered name.
    pub fn get_from(&self, task: &Task) -> (r: Option<(String, TaskDefinition)>)
        ensures
            match r {
                Some(p) => task@ matches TaskValue::Primitive { name, .. } && p.0@ == name
                    && self@.contains_key(name) && p.1@ == self@[name],
                None => !(task@ matches TaskValue::Primitive { name, .. }
                    && self@.contains_key(name)),
            },
    {
        match task {
            Task::Primitive { name, .. } => match self.get_named(name.as_str()) {
                Some(d) => Some((name.clone(), d.clone())),
                None => None,
            },
            Task::Macro(_) => None,
        }
    }

    /// The total cost of a task: the saturating sum of its primitive leaves'
    /// registered costs.  `None` exactly when some leaf is unregistered.
    #[verifier::loop_isolation(false)]
    pub fn task_cost(&self, task: &Task) -> (r: Option<u64>)
        ensures
            r is Some <==> task_registered(self@, task@),
            r matches Some(c) ==> c as int == spec_task_cost(self@, task@),
    {
        let leaves = task.decompose();
        let ghost lv = task_leaves(task@);
        let n = leaves.len();
        proof {
            lemma_views_of(leaves@);
        }
        let mut acc: u64 = 0;
        let mut i: usize = 0;
        while i < n
            invariant
                n == leaves@.len(),
                views_of(leaves@) == lv,
                i <= n,
                acc as int == leaves_cost_upto(self@, lv, i as int),
                forall|j: int| 0 <= j < i ==> self@.contains_key(task_name(#[trigger] lv[j])),
            decreases n - i,
        {
            proof {
                lemma_views_of(leaves@);
                assert(lv[i as int] == leaves@[i as int]@);
            }
            match &leaves[i] {
                Task::Primitive { name, .. } => {
                    match self.get_named(name.as_str()) {
                        Some(d) => {
                            acc = add_cost(acc, d.cost);
                        },
                        None => {
                            proof {
                                assert(!task_registered(self@, task@));
                            }
                            return None;
                        },
                    }
                },
                Task::Macro(_) => {
                    proof {
                        lemma_leaves_are_primitive(task@);
                        assert(false);
                    }
                    return None;
                },
            }
            i += 1;
        }
        Some(acc)
    }
}

} // verus!
