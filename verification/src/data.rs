//! The world model: single facts ([`Predicate`]), fact collections
//! ([`Context`]) and goal constraints ([`Requirements`]).
//!
//! A `Context` is an unordered mapping from fact name to `Predicate` with
//! unique keys; its mathematical view is a `Map<Seq<char>, PredValue>`.
//! Absence of a fact is represented by the `Absent` sentinel, never signalled
//! as an error.

use vstd::prelude::*;

verus! {

/// Mathematical value of a single fact: the spec-level twin of [`Predicate`].
pub enum PredValue {
    Bool(bool),
    Text(Seq<char>),
    Num(int),
    Absent,
}

/// A fact's truth value: a boolean, a string, a number, or the distinct
/// "absent" sentinel.  Equality is variant-and-value exact; `Absent` never
/// equals any `Bool`, `Text` or `Num` value.
#[derive(Debug)]
pub enum Predicate {
    Bool(bool),
    Text(String),
    Num(i64),
    Absent,
}

impl View for Predicate {
    type V = PredValue;

    open spec fn view(&self) -> PredValue {
        match self {
            Predicate::Bool(b) => PredValue::Bool(*b),
            Predicate::Text(s) => PredValue::Text(s@),
            Predicate::Num(n) => PredValue::Num(*n as int),
            Predicate::Absent => PredValue::Absent,
        }
    }
}

impl PartialEq for Predicate {
    fn eq(&self, other: &Predicate) -> (r: bool) {
        match (self, other) {
            (Predicate::Bool(a), Predicate::Bool(b)) => a == b,
            (Predicate::Text(a), Predicate::Text(b)) => *a == *b,
            (Predicate::Num(a), Predicate::Num(b)) => a == b,
            (Predicate::Absent, Predicate::Absent) => true,
            _ => false,
        }
    }
}

impl vstd::std_specs::cmp::PartialEqSpecImpl for Predicate {
    open spec fn obeys_eq_spec() -> bool {
        true
    }

    open spec fn eq_spec(&self, other: &Predicate) -> bool {
        self@ == other@
    }
}

impl Clone for Predicate {
    fn clone(&self) -> (r: Predicate)
        ensures
            r@ == self@,
    {
        match self {
            Predicate::Bool(b) => Predicate::Bool(*b),
            Predicate::Text(s) => Predicate::Text(s.clone()),
            Predicate::Num(n) => Predicate::Num(*n),
            Predicate::Absent => Predicate::Absent,
        }
    }
}

/// The mapping described by a sequence of key/value pairs, later entries
/// overriding earlier ones (last write wins).
pub open spec fn pairs_map<T: View>(s: Seq<(String, T)>) -> Map<Seq<char>, <T as View>::V>
    decreases s.len(),
{
    if s.len() == 0 {
        Map::empty()
    } else {
        pairs_map(s.drop_last()).insert(s.last().0@, s.last().1@)
    }
}

/// All keys of the pair sequence differ (as character sequences).
pub open spec fn distinct_keys<T>(s: Seq<(String, T)>) -> bool {
    forall|i: int, j: int| 0 <= i < j < s.len() ==> (#[trigger] s[i]).0@ != (#[trigger] s[j]).0@
}

pub proof fn lemma_pairs_map_contains<T: View>(s: Seq<(String, T)>, k: Seq<char>)
    ensures
        pairs_map(s).contains_key(k) <==> exists|i: int|
            0 <= i < s.len() && (#[trigger] s[i]).0@ == k,
    decreases s.len(),
{
    if s.len() > 0 {
        lemma_pairs_map_contains(s.drop_last(), k);
        if s.last().0@ == k {
            assert(s[s.len() - 1].0@ == k);
        } else {
            if exists|i: int| 0 <= i < s.len() && (#[trigger] s[i]).0@ == k {
                let i = choose|i: int| 0 <= i < s.len() && (#[trigger] s[i]).0@ == k;
                assert(s.drop_last()[i] == s[i]);
            }
        }
    }
}

pub proof fn lemma_pairs_map_index<T: View>(s: Seq<(String, T)>, i: int)
    requires
        distinct_keys(s),
        0 <= i < s.len(),
    ensures
        pairs_map(s).contains_key(s[i].0@),
        pairs_map(s)[s[i].0@] == s[i].1@,
    decreases s.len(),
{
    if i < s.len() - 1 {
        assert(s.drop_last()[i] == s[i]);
        lemma_pairs_map_index(s.drop_last(), i);
        assert(s[s.len() - 1].0@ != s[i].0@);
    }
}

pub(crate) proof fn lemma_pairs_map_update<T: View>(s: Seq<(String, T)>, i: int, p: (String, T))
    requires
        distinct_keys(s),
        0 <= i < s.len(),
        p.0@ == s[i].0@,
    ensures
        pairs_map(s.update(i, p)) == pairs_map(s).insert(p.0@, p.1@),
    decreases s.len(),
{
    let t = s.update(i, p);
    if i == s.len() - 1 {
        assert(t.drop_last() =~= s.drop_last());
        assert(t.last() == p);
        assert(pairs_map(s.drop_last()).insert(p.0@, p.1@) =~= pairs_map(s).insert(p.0@, p.1@));
    } else {
        assert(t.drop_last() =~= s.drop_last().update(i, p));
        assert(s.drop_last()[i] == s[i]);
        lemma_pairs_map_update(s.drop_last(), i, p);
        assert(t.last() == s.last());
        assert(s.last().0@ != s[i].0@);
        assert(pairs_map(s.drop_last()).insert(p.0@, p.1@).insert(s.last().0@, s.last().1@)
            =~= pairs_map(s.drop_last()).insert(s.last().0@, s.last().1@).insert(p.0@, p.1@));
    }
}

/// A collection of named facts: the world state.  Pure value type; merging is
/// right-biased; lookups of missing names yield [`Predicate::Absent`].
#[derive(Debug)]
pub struct Context {
    entries: Vec<(String, Predicate)>,
}

impl View for Context {
    type V = Map<Seq<char>, PredValue>;

    closed spec fn view(&self) -> Map<Seq<char>, PredValue> {
        pairs_map(self.entries@)
    }
}

/// The value a world holds for a name: the stored predicate, or `Absent`.
pub open spec fn spec_get(w: Map<Seq<char>, PredValue>, k: Seq<char>) -> PredValue {
    if w.contains_key(k) {
        w[k]
    } else {
        PredValue::Absent
    }
}

/// Every fact of `s` is present in `w` with an identical value.
pub open spec fn spec_validates(w: Map<Seq<char>, PredValue>, s: Map<Seq<char>, PredValue>) -> bool {
    forall|k: Seq<char>| #[trigger] s.contains_key(k) ==> w.contains_key(k) && w[k] == s[k]
}

impl Context {
    #[verifier::type_invariant]
    spec fn wf(self) -> bool {
        distinct_keys(self.entries@)
    }

    /// The empty world.
    pub fn new() -> (r: Context)
        ensures
            r@ == Map::<Seq<char>, PredValue>::empty(),
    {
        Context { entries: Vec::new() }
    }

    /// Index of the entry holding `key`, if one does.
    fn find_index(&self, key: &String) -> (r: Option<usize>)
        ensures
            match r {
                Some(i) => i < self.entries@.len() && self.entries@[i as int].0@ == key@,
                None => !self@.contains_key(key@),
            },
    {
        let n = self.entries.len();
        let mut i: usize = 0;
        while i < n
            invariant
                n == self.entries@.len(),
                i <= n,
                forall|j: int| 0 <= j < i ==> (#[trigger] self.entries@[j]).0@ != key@,
            decreases n - i,
        {
            let e = &self.entries[i];
            if e.0 == *key {
                return Some(i);
            }
            i += 1;
        }
        proof {
            lemma_pairs_map_contains(self.entries@, key@);
        }
        None
    }

    /// The value stored for `key`, or `Absent` if the name is unknown.
    pub fn get(&self, key: &str) -> (r: Predicate)
        ensures
            r@ == spec_get(self@, key@),
    {
        proof {
            use_type_invariant(&*self);
        }
        let k = key.to_owned();
        match self.find_index(&k) {
            Some(i) => {
                proof {
                    lemma_pairs_map_index(self.entries@, i as int);
                }
                self.entries[i].1.clone()
            },
            None => Predicate::Absent,
        }
    }

    /// Whether the world holds a fact under `key` (even an `Absent` one).
    pub fn has_key(&self, key: &str) -> (r: bool)
        ensures
            r == self@.contains_key(key@),
    {
        proof {
            use_type_invariant(&*self);
        }
        let k = key.to_owned();
        match self.find_index(&k) {
            Some(i) => {
                proof {
                    lemma_pairs_map_index(self.entries@, i as int);
                }
                true
            },
            None => false,
        }
    }

    /// Stores `value` under `key`, silently overwriting (last write wins);
    /// returns the previously stored value if the key was already present.
    pub fn insert(&mut self, key: &str, value: Predicate) -> (r: Option<Predicate>)
        ensures
            final(self)@ == old(self)@.insert(key@, value@),
            match r {
                Some(p) => old(self)@.contains_key(key@) && p@ == old(self)@[key@],
                None => !old(self)@.contains_key(key@),
            },
    {
        proof {
            use_type_invariant(&*self);
        }
        let k = key.to_owned();
        let found = self.find_index(&k);
        let mut entries: Vec<(String, Predicate)> = Vec::new();
        std::mem::swap(&mut entries, &mut self.entries);
        let ghost s0 = entries@;
        match found {
            Some(i) => {
                let prev = entries[i].1.clone();
                proof {
                    lemma_pairs_map_index(s0, i as int);
                    lemma_pairs_map_update(s0, i as int, (k, value));
                }
                entries[i] = (k, value);
                self.entries = entries;
                Some(prev)
            },
            None => {
                entries.push((k, value));
                proof {
                    assert(entries@.drop_last() =~= s0);
                    lemma_pairs_map_contains(s0, k@);
                }
                self.entries = entries;
                None
            },
        }
    }

    /// Builder form of [`Context::insert`]: consumes and returns the world.
    pub fn add(self, key: &str, value: Predicate) -> (r: Context)
        ensures
            r@ == self@.insert(key@, value@),
    {
        let mut c = self;
        c.insert(key, value);
        c
    }

    /// Finishes a builder chain, yielding an independent copy.
    pub fn build(&self) -> (r: Context)
        ensures
            r@ == self@,
    {
        self.clone()
    }

    /// Subset check: true iff every fact of `other` is present in `self` with
    /// an identical value.  Missing keys or differing values fail.
    pub fn validate(&self, other: &Context) -> (r: bool)
        ensures
            r == spec_validates(self@, other@),
    {
        proof {
            use_type_invariant(&*self);
            use_type_invariant(&*other);
        }
        let n = other.entries.len();
        let mut i: usize = 0;
        while i < n
            invariant
                n == other.entries@.len(),
                i <= n,
                distinct_keys(self.entries@),
                distinct_keys(other.entries@),
                forall|j: int| 0 <= j < i ==> {
                    let k = (#[trigger] other.entries@[j]).0@;
                    self@.contains_key(k) && self@[k] == other.entries@[j].1@
                },
            decreases n - i,
        {
            let pair = &other.entries[i];
            proof {
                lemma_pairs_map_index(other.entries@, i as int);
            }
            match self.find_index(&pair.0) {
                Some(gi) => {
                    proof {
                        lemma_pairs_map_index(self.entries@, gi as int);
                    }
                    if !(self.entries[gi].1 == pair.1) {
                        return false;
                    }
                },
                None => {
                    return false;
                },
            }
            i += 1;
        }
        proof {
            assert forall|k: Seq<char>| #[trigger] other@.contains_key(k) implies self@.contains_key(
                k,
            ) && self@[k] == other@[k] by {
                lemma_pairs_map_contains(other.entries@, k);
                let j = choose|j: int| 0 <= j < other.entries@.len() && (#[trigger] other.entries@[j]).0@
                    == k;
                lemma_pairs_map_index(other.entries@, j);
            }
        }
        true
    }

    /// Merges `other` into `self`; on key collision `other`'s value wins.
    pub fn append(&mut self, other: &Context)
        ensures
            final(self)@ == old(self)@.union_prefer_right(other@),
    {
        proof {
            use_type_invariant(&*other);
        }
        let n = other.entries.len();
        let mut i: usize = 0;
        while i < n
            invariant
                n == other.entries@.len(),
                i <= n,
                distinct_keys(other.entries@),
                self@ == old(self)@.union_prefer_right(pairs_map(other.entries@.take(i as int))),
            decreases n - i,
        {
            let pair = &other.entries[i];
            let ghost pre = pairs_map(other.entries@.take(i as int));
            self.insert(pair.0.as_str(), pair.1.clone());
            proof {
                let t = other.entries@.take(i + 1 as int);
                assert(t.drop_last() =~= other.entries@.take(i as int));
                assert(t.last() == other.entries@[i as int]);
                assert(old(self)@.union_prefer_right(pre).insert(pair.0@, pair.1@)
                    =~= old(self)@.union_prefer_right(pre.insert(pair.0@, pair.1@)));
            }
            i += 1;
        }
        proof {
            assert(other.entries@.take(n as int) =~= other.entries@);
        }
    }

    /// A new world holding both operands' facts; on key collision `other`'s
    /// value wins.  `self` is unchanged.
    pub fn concat(&self, other: &Context) -> (r: Context)
        ensures
            r@ == self@.union_prefer_right(other@),
    {
        let mut n = self.clone();
        n.append(other);
        n
    }

    /// Builds a world from a list of pairs; a duplicate name keeps the later
    /// value (last write wins).
    pub fn from_pairs(pairs: Vec<(String, Predicate)>) -> (r: Context)
        ensures
            r@ == pairs_map(pairs@),
    {
        let mut c = Context::new();
        let n = pairs.len();
        let mut i: usize = 0;
        while i < n
            invariant
                n == pairs@.len(),
                i <= n,
                c@ == pairs_map(pairs@.take(i as int)),
            decreases n - i,
        {
            let pair = &pairs[i];
            c.insert(pair.0.as_str(), pair.1.clone());
            proof {
                let t = pairs@.take(i + 1 as int);
                assert(t.drop_last() =~= pairs@.take(i as int));
                assert(t.last() == pairs@[i as int]);
            }
            i += 1;
        }
        proof {
            assert(pairs@.take(n as int) =~= pairs@);
        }
        c
    }
}

impl Clone for Context {
    /// Copies are independent and hold the same facts.
    fn clone(&self) -> (r: Context)
        ensures
            r@ == self@,
    {
        proof {
            use_type_invariant(&*self);
        }
        let n = self.entries.len();
        let mut out: Vec<(String, Predicate)> = Vec::new();
        let mut i: usize = 0;
        while i < n
            invariant
                n == self.entries@.len(),
                i <= n,
                out@.len() == i,
                forall|j: int| 0 <= j < i ==> (#[trigger] out@[j]).0@ == self.entries@[j].0@
                    && out@[j].1@ == self.entries@[j].1@,
            decreases n - i,
        {
            let pair = &self.entries[i];
            out.push((pair.0.clone(), pair.1.clone()));
            i += 1;
        }
        proof {
            lemma_pairs_map_congruence(out@, self.entries@);
        }
        Context { entries: out }
    }
}

proof fn lemma_pairs_map_congruence<T: View>(a: Seq<(String, T)>, b: Seq<(String, T)>)
    requires
        a.len() == b.len(),
        forall|i: int| 0 <= i < a.len() ==> (#[trigger] a[i]).0@ == b[i].0@ && a[i].1@ == b[i].1@,
    ensures
        pairs_map(a) == pairs_map(b),
    decreases a.len(),
{
    if a.len() > 0 {
        assert(forall|i: int| 0 <= i < a.len() - 1 ==> (#[trigger] a.drop_last()[i]) == a[i]);
        assert(forall|i: int| 0 <= i < b.len() - 1 ==> (#[trigger] b.drop_last()[i]) == b[i]);
        lemma_pairs_map_congruence(a.drop_last(), b.drop_last());
        assert(a.last() == a[a.len() - 1]);
        assert(b.last() == b[b.len() - 1]);
    }
}

/// Spec-level twin of [`Requirement`].
pub enum ReqValue {
    Equals(PredValue),
    Has,
    Greater(int),
    Less(int),
}

/// A single named constraint of a goal: exact value, mere presence, or a
/// numeric threshold.
#[derive(Debug)]
pub enum Requirement {
    Equals(Predicate),
    Has,
    Greater(i64),
    Less(i64),
}

impl View for Requirement {
    type V = ReqValue;

    open spec fn view(&self) -> ReqValue {
        match self {
            Requirement::Equals(p) => ReqValue::Equals(p@),
            Requirement::Has => ReqValue::Has,
            Requirement::Greater(t) => ReqValue::Greater(*t as int),
            Requirement::Less(t) => ReqValue::Less(*t as int),
        }
    }
}

impl Clone for Requirement {
    fn clone(&self) -> (r: Requirement)
        ensures
            r@ == self@,
    {
        match self {
            Requirement::Equals(p) => Requirement::Equals(p.clone()),
            Requirement::Has => Requirement::Has,
            Requirement::Greater(t) => Requirement::Greater(*t),
            Requirement::Less(t) => Requirement::Less(*t),
        }
    }
}

/// Whether the world value stored under `k` meets the constraint `c`.
/// A missing key fails every constraint except an `Equals(Absent)` one.
pub open spec fn req_holds_at(w: Map<Seq<char>, PredValue>, k: Seq<char>, c: ReqValue) -> bool {
    match c {
        ReqValue::Equals(p) => spec_get(w, k) == p,
        ReqValue::Has => w.contains_key(k),
        ReqValue::Greater(t) => spec_get(w, k) matches PredValue::Num(n) && n > t,
        ReqValue::Less(t) => spec_get(w, k) matches PredValue::Num(n) && n < t,
    }
}

/// Every constraint of `r` holds against the world `w`.
pub open spec fn req_satisfied(r: Map<Seq<char>, ReqValue>, w: Map<Seq<char>, PredValue>) -> bool {
    forall|k: Seq<char>| #[trigger] r.contains_key(k) ==> req_holds_at(w, k, r[k])
}

/// The constraint set that demands exactly the facts of `m`.
pub open spec fn equals_map(m: Map<Seq<char>, PredValue>) -> Map<Seq<char>, ReqValue> {
    Map::new(|k: Seq<char>| m.contains_key(k), |k: Seq<char>| ReqValue::Equals(m[k]))
}

/// A set of named constraints evaluated against a world: a generalization of
/// a world-state used as a goal.
#[derive(Debug)]
pub struct Requirements {
    entries: Vec<(String, Requirement)>,
}

impl View for Requirements {
    type V = Map<Seq<char>, ReqValue>;

    closed spec fn view(&self) -> Map<Seq<char>, ReqValue> {
        pairs_map(self.entries@)
    }
}

impl Requirements {
    #[verifier::type_invariant]
    spec fn wf(self) -> bool {
        distinct_keys(self.entries@)
    }

    /// No constraints: satisfied by every world.
    pub fn new() -> (r: Requirements)
        ensures
            r@ == Map::<Seq<char>, ReqValue>::empty(),
    {
        Requirements { entries: Vec::new() }
    }

    /// Index of the entry holding `key`, if one does.
    fn find_index(&self, key: &String) -> (r: Option<usize>)
        ensures
            match r {
                Some(i) => i < self.entries@.len() && self.entries@[i as int].0@ == key@,
                None => !self@.contains_key(key@),
            },
    {
        let n = self.entries.len();
        let mut i: usize = 0;
        while i < n
            invariant
                n == self.entries@.len(),
                i <= n,
                forall|j: int| 0 <= j < i ==> (#[trigger] self.entries@[j]).0@ != key@,
            decreases n - i,
        {
            let e = &self.entries[i];
            if e.0 == *key {
                return Some(i);
            }
            i += 1;
        }
        proof {
            lemma_pairs_map_contains(self.entries@, key@);
        }
        None
    }

    fn set(&mut self, key: &str, c: Requirement)
        ensures
            final(self)@ == old(self)@.insert(key@, c@),
    {
        proof {
            use_type_invariant(&*self);
        }
        let k = key.to_owned();
        let found = self.find_index(&k);
        let mut entries: Vec<(String, Requirement)> = Vec::new();
        std::mem::swap(&mut entries, &mut self.entries);
        let ghost s0 = entries@;
        match found {
            Some(i) => {
                proof {
                    lemma_pairs_map_update(s0, i as int, (k, c));
                }
                entries[i] = (k, c);
                self.entries = entries;
            },
            None => {
                entries.push((k, c));
                proof {
                    assert(entries@.drop_last() =~= s0);
                    lemma_pairs_map_contains(s0, k@);
                }
                self.entries = entries;
            },
        }
    }

    /// Demands that `key` holds exactly `value`.
    pub fn req_equals(self, key: &str, value: Predicate) -> (r: Requirements)
        ensures
            r@ == self@.insert(key@, ReqValue::Equals(value@)),
    {
        let mut s = self;
        s.set(key, Requirement::Equals(value));
        s
    }

    /// Demands that `key` is present, whatever its value.
    pub fn req_has(self, key: &str) -> (r: Requirements)
        ensures
            r@ == self@.insert(key@, ReqValue::Has),
    {
        let mut s = self;
        s.set(key, Requirement::Has);
        s
    }

    /// Demands that `key` holds a number strictly above `threshold`.
    pub fn req_greater(self, key: &str, threshold: i64) -> (r: Requirements)
        ensures
            r@ == self@.insert(key@, ReqValue::Greater(threshold as int)),
    {
        let mut s = self;
        s.set(key, Requirement::Greater(threshold));
        s
    }

    /// Demands that `key` holds a number strictly below `threshold`.
    pub fn req_less(self, key: &str, threshold: i64) -> (r: Requirements)
        ensures
            r@ == self@.insert(key@, ReqValue::Less(threshold as int)),
    {
        let mut s = self;
        s.set(key, Requirement::Less(threshold));
        s
    }

    /// Finishes a builder chain, yielding an independent copy.
    pub fn build(&self) -> (r: Requirements)
        ensures
            r@ == self@,
    {
        self.clone()
    }

    /// True iff every constraint holds against `world`.
    pub fn validate(&self, world: &Context) -> (r: bool)
        ensures
            r == req_satisfied(self@, world@),
    {
        proof {
            use_type_invariant(&*self);
        }
        let n = self.entries.len();
        let mut i: usize = 0;
        while i < n
            invariant
                n == self.entries@.len(),
                i <= n,
                distinct_keys(self.entries@),
                forall|j: int| 0 <= j < i ==> req_holds_at(
                    world@,
                    (#[trigger] self.entries@[j]).0@,
                    self.entries@[j].1@,
                ),
            decreases n - i,
        {
            let pair = &self.entries[i];
            proof {
                lemma_pairs_map_index(self.entries@, i as int);
            }
            let holds = match &pair.1 {
                Requirement::Equals(p) => {
                    let got = world.get(pair.0.as_str());
                    got == *p
                },
                Requirement::Has => world.has_key(pair.0.as_str()),
                Requirement::Greater(t) => match world.get(pair.0.as_str()) {
                    Predicate::Num(n) => n > *t,
                    _ => false,
                },
                Requirement::Less(t) => match world.get(pair.0.as_str()) {
                    Predicate::Num(n) => n < *t,
                    _ => false,
                },
            };
            if !holds {
                return false;
            }
            i += 1;
        }
        proof {
            assert forall|k: Seq<char>| #[trigger] self@.contains_key(k) implies req_holds_at(
                world@,
                k,
                self@[k],
            ) by {
                lemma_pairs_map_contains(self.entries@, k);
                let j = choose|j: int| 0 <= j < self.entries@.len() && (#[trigger] self.entries@[j]).0@
                    == k;
                lemma_pairs_map_index(self.entries@, j);
            }
        }
        true
    }

    /// The constraint set demanding exactly the facts of `world`, each as an
    /// `Equals` constraint.
    pub fn from_world(world: &Context) -> (r: Requirements)
        ensures
            r@ == equals_map(world@),
    {
        proof {
            use_type_invariant(&*world);
        }
        let n = world.entries.len();
        let mut out: Vec<(String, Requirement)> = Vec::new();
        let mut i: usize = 0;
        while i < n
            invariant
                n == world.entries@.len(),
                i <= n,
                out@.len() == i,
                forall|j: int| 0 <= j < i ==> (#[trigger] out@[j]).0@ == world.entries@[j].0@
                    && out@[j].1@ == ReqValue::Equals(world.entries@[j].1@),
            decreases n - i,
        {
            let pair = &world.entries[i];
            out.push((pair.0.clone(), Requirement::Equals(pair.1.clone())));
            i += 1;
        }
        proof {
            lemma_pairs_map_equals_of(out@, world.entries@);
        }
        Requirements { entries: out }
    }
}

impl Clone for Requirements {
    /// Copies are independent and hold the same constraints.
    fn clone(&self) -> (r: Requirements)
        ensures
            r@ == self@,
    {
        proof {
            use_type_invariant(&*self);
        }
        let n = self.entries.len();
        let mut out: Vec<(String, Requirement)> = Vec::new();
        let mut i: usize = 0;
        while i < n
            invariant
                n == self.entries@.len(),
                i <= n,
                out@.len() == i,
                forall|j: int| 0 <= j < i ==> (#[trigger] out@[j]).0@ == self.entries@[j].0@
                    && out@[j].1@ == self.entries@[j].1@,
            decreases n - i,
        {
            let pair = &self.entries[i];
            out.push((pair.0.clone(), pair.1.clone()));
            i += 1;
        }
        proof {
            lemma_pairs_map_congruence(out@, self.entries@);
        }
        Requirements { entries: out }
    }
}

proof fn lemma_pairs_map_equals_of(a: Seq<(String, Requirement)>, b: Seq<(String, Predicate)>)
    requires
        a.len() == b.len(),
        distinct_keys(b),
        forall|i: int| 0 <= i < a.len() ==> (#[trigger] a[i]).0@ == b[i].0@ && a[i].1@
            == ReqValue::Equals(b[i].1@),
    ensures
        pairs_map(a) == equals_map(pairs_map(b)),
    decreases a.len(),
{
    if a.len() == 0 {
        assert(pairs_map(a) =~= equals_map(pairs_map(b)));
    } else {
        assert(forall|i: int| 0 <= i < a.len() - 1 ==> (#[trigger] a.drop_last()[i]) == a[i]);
        assert(forall|i: int| 0 <= i < b.len() - 1 ==> (#[trigger] b.drop_last()[i]) == b[i]);
        lemma_pairs_map_equals_of(a.drop_last(), b.drop_last());
        assert(a.last() == a[a.len() - 1]);
        assert(b.last() == b[b.len() - 1]);
        assert(pairs_map(a.drop_last()).insert(a.last().0@, a.last().1@) =~= equals_map(
            pairs_map(b.drop_last()).insert(b.last().0@, b.last().1@),
        ));
    }
}

/// Validation accepts every subset: a world validates any selection of its
/// own facts.
pub proof fn lemma_validate_subset(w: Context, s: Context)
    requires
        s@.submap_of(w@),
    ensures
        spec_validates(w@, s@),
{
}

/// Validation detects a changed value: if one of `s`'s facts is given a value
/// other than the one `w` holds, `w` no longer validates the result.
pub proof fn lemma_validate_changed_entry(w: Context, s: Context, k: Seq<char>, p: PredValue)
    requires
        s@.contains_key(k),
        p != spec_get(w@, k),
    ensures
        !spec_validates(w@, s@.insert(k, p)),
{
    assert(s@.insert(k, p).contains_key(k));
}

/// Merging is right-biased: after `a.concat(b)`, a name present in `b` reads
/// `b`'s value, and any other name reads `a`'s value.
pub proof fn lemma_concat_right_biased(a: Context, b: Context, k: Seq<char>)
    ensures
        b@.contains_key(k) ==> spec_get(a@.union_prefer_right(b@), k) == spec_get(b@, k),
        !b@.contains_key(k) ==> spec_get(a@.union_prefer_right(b@), k) == spec_get(a@, k),
{
}

} // verus!
