//! Persistent substitutions and the states of the unification search.
use crate::counter::{BindingCounts, BindingKind, Config, counts_after, exceeds, can_add};
use crate::unification::oracle::{oracle, oracle_result};
use crate::utils::fits_fresh;
use crate::names::same_text;
use crate::term::{Constraint, ConstraintV, Term, TermV};
use crate::unification::{apply_unify_rules, check_unify_within, lemma_unify_within_ok, unify_ok, unify_result, unify_within};
use std::collections::VecDeque;
use std::rc::Rc;
use vstd::prelude::*;

verus! {

/// `Rc::clone`: a second pointer to the same allocation, so to the same value.
#[verifier::external_body]
pub(crate) fn rc_clone<T>(r: &Rc<T>) -> (res: Rc<T>)
    ensures
        res == *r,
{
    Rc::clone(r)
}

/// One binding of a substitution, linked to the bindings made before it.
pub struct SubstEntry {
    pub var: String,
    pub val: Term,
    pub prev: Option<Rc<SubstEntry>>,
}

/// A substitution as a persistent list of bindings, newest first.
pub struct PersistentSubst(pub Option<Rc<SubstEntry>>);

/// The bindings of a chain of entries, newest first.
pub open spec fn entries_view(e: Option<Rc<SubstEntry>>) -> Seq<(Seq<char>, TermV)>
    decreases e,
{
    match e {
        None => Seq::empty(),
        Some(rc) => seq![(rc.var@, rc.val@)] + entries_view(rc.prev),
    }
}

impl View for PersistentSubst {
    type V = Seq<(Seq<char>, TermV)>;

    open spec fn view(&self) -> Seq<(Seq<char>, TermV)> {
        entries_view(self.0)
    }
}

/// The newest binding of `x`.
pub open spec fn subst_lookup(s: Seq<(Seq<char>, TermV)>, x: Seq<char>) -> Option<TermV>
    decreases s.len(),
{
    if s.len() == 0 {
        None
    } else if s[0].0 == x {
        Some(s[0].1)
    } else {
        subst_lookup(s.drop_first(), x)
    }
}

/// `s` with a binding of `x` to `t` added in front, unless the newest
/// binding of `x` is already `t`.
pub open spec fn subst_push(s: Seq<(Seq<char>, TermV)>, x: Seq<char>, t: TermV) -> Seq<(Seq<char>, TermV)> {
    if subst_lookup(s, x) == Some(t) {
        s
    } else {
        seq![(x, t)] + s
    }
}

/// The bound variables, each mapped to its newest binding.
pub open spec fn subst_map(s: Seq<(Seq<char>, TermV)>) -> Map<Seq<char>, TermV>
    decreases s.len(),
{
    if s.len() == 0 {
        Map::empty()
    } else {
        subst_map(s.drop_first()).insert(s[0].0, s[0].1)
    }
}

/// A finite map from names to terms.
pub struct TermMap {
    pub entries: Vec<(String, Term)>,
}

/// The map of a list of pairs in which later pairs override earlier ones.
pub open spec fn pairs_map(s: Seq<(Seq<char>, TermV)>) -> Map<Seq<char>, TermV>
    decreases s.len(),
{
    if s.len() == 0 {
        Map::empty()
    } else {
        pairs_map(s.drop_last()).insert(s.last().0, s.last().1)
    }
}

impl View for TermMap {
    type V = Map<Seq<char>, TermV>;

    open spec fn view(&self) -> Map<Seq<char>, TermV> {
        pairs_map(self.entries.deep_view())
    }
}

/// Pairs after position `m` that do not bind `k` do not affect `k`.
pub proof fn lemma_pairs_map_suffix(s: Seq<(Seq<char>, TermV)>, m: int, k: Seq<char>)
    requires
        0 <= m <= s.len(),
        forall|j: int| m <= j < s.len() ==> s[j].0 != k,
    ensures
        pairs_map(s).contains_key(k) == pairs_map(s.subrange(0, m)).contains_key(k),
        pairs_map(s).contains_key(k) ==> pairs_map(s)[k] == pairs_map(s.subrange(0, m))[k],
    decreases s.len(),
{
    if s.len() > m {
        assert(s.drop_last().subrange(0, m) =~= s.subrange(0, m));
        lemma_pairs_map_suffix(s.drop_last(), m, k);
    } else {
        assert(s.subrange(0, m) =~= s);
    }
}

impl TermMap {
    /// The empty map.
    pub fn new() -> (res: TermMap)
        ensures
            res@ == Map::<Seq<char>, TermV>::empty(),
    {
        TermMap { entries: Vec::new() }
    }

    /// Binds `name` to `t`, replacing any earlier binding.
    pub fn insert(&mut self, name: String, t: Term)
        ensures
            final(self)@ == old(self)@.insert(name@, t@),
    {
        let ghost before = self.entries.deep_view();
        self.entries.push((name, t));
        assert(self.entries.deep_view().drop_last() =~= before);
    }

    /// The term bound to `name`, if any.
    pub fn get(&self, name: &String) -> (res: Option<&Term>)
        ensures
            match res {
                Some(t) => self@.contains_key(name@) && self@[name@] == t@,
                None => !self@.contains_key(name@),
            },
    {
        let mut i = self.entries.len();
        while i > 0
            invariant
                i <= self.entries.len(),
                forall|j: int| i <= j < self.entries.len() ==> self.entries.deep_view()[j].0 != name@,
            decreases i,
        {
            if same_text(&self.entries[i - 1].0, name) {
                proof {
                    lemma_pairs_map_suffix(self.entries.deep_view(), i as int, name@);
                    assert(self.entries.deep_view().subrange(0, i as int).drop_last()
                        =~= self.entries.deep_view().subrange(0, i - 1));
                }
                return Some(&self.entries[i - 1].1);
            }
            i -= 1;
        }
        proof {
            lemma_pairs_map_suffix(self.entries.deep_view(), 0, name@);
            assert(self.entries.deep_view().subrange(0, 0).len() == 0);
        }
        None
    }

    /// Whether `name` is bound.
    pub fn contains_key(&self, name: &String) -> (res: bool)
        ensures
            res == self@.contains_key(name@),
    {
        self.get(name).is_some()
    }
}

impl PersistentSubst {
    /// The empty substitution.
    pub fn new() -> (res: Self)
        ensures
            res@ == Seq::<(Seq<char>, TermV)>::empty(),
    {
        PersistentSubst(None)
    }

    /// The newest binding of `var`.
    pub fn lookup(&self, var: &String) -> (res: Option<Term>)
        ensures
            match res {
                Some(t) => subst_lookup(self@, var@) == Some(t@),
                None => subst_lookup(self@, var@) is None,
            },
    {
        let mut cur: &Option<Rc<SubstEntry>> = &self.0;
        loop
            invariant
                subst_lookup(entries_view(*cur), var@) == subst_lookup(self@, var@),
            decreases entries_view(*cur).len(),
        {
            match cur {
                None => {
                    return None;
                },
                Some(entry) => {
                    if same_text(&entry.var, var) {
                        return Some(entry.val.clone());
                    }
                    assert(entries_view(*cur).drop_first() == entries_view(entry.prev));
                    cur = &entry.prev;
                },
            }
        }
    }

    /// Binds `var` to `val` in front, unless its newest binding is already
    /// `val`.
    pub fn push(self, var: String, val: Term) -> (res: Self)
        ensures
            res@ == subst_push(self@, var@, val@),
    {
        if let Some(old) = self.lookup(&var) {
            if old.equals(&val) {
                return self;
            }
        }
        let head = Rc::new(SubstEntry { var, val, prev: self.0 });
        PersistentSubst(Some(head))
    }

    /// Each bound variable with its newest binding, the one `lookup` gives.
    pub fn to_hashmap(&self) -> (res: TermMap)
        ensures
            res@ == subst_map(self@),
    {
        let mut map = TermMap::new();
        let mut cur: &Option<Rc<SubstEntry>> = &self.0;
        loop
            invariant
                subst_map(self@) == subst_map(entries_view(*cur)).union_prefer_right(map@),
            decreases entries_view(*cur).len(),
        {
            match cur {
                None => {
                    assert(Map::<Seq<char>, TermV>::empty().union_prefer_right(map@) =~= map@);
                    return map;
                },
                Some(entry) => {
                    let ghost rest = entries_view(entry.prev@);
                    assert(entries_view(*cur).drop_first() == rest);
                    let ghost before = map@;
                    if !map.contains_key(&entry.var) {
                        map.insert(entry.var.clone(), entry.val.clone());
                    }
                    assert(subst_map(rest).insert(entry.var@, entry.val@).union_prefer_right(before)
                        =~= subst_map(rest).union_prefer_right(map@));
                    cur = &entry.prev;
                },
            }
        }
    }
}

impl Clone for PersistentSubst {
    fn clone(&self) -> (res: Self)
        ensures
            res@ == self@,
    {
        match &self.0 {
            None => PersistentSubst(None),
            Some(rc) => PersistentSubst(Some(rc_clone(rc))),
        }
    }
}

/// The map of a substitution gives, for each name, what a lookup gives.
pub proof fn law_map_agrees_with_lookup(s: Seq<(Seq<char>, TermV)>, x: Seq<char>)
    ensures
        subst_lookup(s, x) == (if subst_map(s).contains_key(x) { Some(subst_map(s)[x]) } else { None }),
    decreases s.len(),
{
    if s.len() > 0 {
        law_map_agrees_with_lookup(s.drop_first(), x);
    }
}

/// Reading a variable right after binding it gives the new binding, unless
/// the same binding was already the newest; other variables are unaffected.
pub proof fn law_lookup_after_push(s: Seq<(Seq<char>, TermV)>, x: Seq<char>, y: Seq<char>, t: TermV)
    ensures
        subst_lookup(subst_push(s, x, t), x) == Some(t),
        x != y ==> subst_lookup(subst_push(s, x, t), y) == subst_lookup(s, y),
{
    if subst_lookup(s, x) != Some(t) {
        assert((seq![(x, t)] + s).drop_first() =~= s);
    }
}

/// The rule that produced a state.
#[derive(Clone, Copy, Debug, PartialEq, Eq, Structural)]
pub enum Step {
    Delete,
    Dereference,
    Decompose,
    NormalizeBeta,
    NormalizeAn,
    Fail,
    Start,
    Oracle,
    Identification,
    Imitation,
    HsProjection,
    Elimination,
}

/// A node of the search: the open constraints, the substitution built so
/// far, whether it failed, the bindings counted, the state it came from and
/// the rule that produced it.
pub struct State {
    pub constraints: Vec<Constraint>,
    pub subst: PersistentSubst,
    pub failed: bool,
    pub binding_counts: BindingCounts,
    pub parent: Option<Rc<State>>,
    pub step: Step,
}

/// The mathematical value of a [`State`].
pub struct StateV {
    pub constraints: Seq<ConstraintV>,
    pub subst: Seq<(Seq<char>, TermV)>,
    pub failed: bool,
    pub binding_counts: BindingCounts,
    pub parent: Option<Box<StateV>>,
    pub step: Step,
}

pub open spec fn state_view(s: State) -> StateV
    decreases s,
{
    StateV {
        constraints: s.constraints.deep_view(),
        subst: s.subst@,
        failed: s.failed,
        binding_counts: s.binding_counts,
        parent: match s.parent {
            Some(p) => Some(Box::new(state_view(*p))),
            None => None,
        },
        step: s.step,
    }
}

impl View for State {
    type V = StateV;

    open spec fn view(&self) -> StateV {
        state_view(*self)
    }
}

impl DeepView for State {
    type V = StateV;

    open spec fn deep_view(&self) -> StateV {
        state_view(*self)
    }
}

/// A copy of a list of constraints.
pub fn clone_constraints(cs: &Vec<Constraint>) -> (res: Vec<Constraint>)
    ensures
        res.deep_view() == cs.deep_view(),
{
    let mut out: Vec<Constraint> = Vec::new();
    let mut i: usize = 0;
    while i < cs.len()
        invariant
            i <= cs.len(),
            out.deep_view() == cs.deep_view().subrange(0, i as int),
        decreases cs.len() - i,
    {
        let ghost before = out.deep_view();
        out.push(cs[i].clone());
        assert(out.deep_view() =~= before.push(cs[i as int]@));
        assert(out.deep_view() =~= cs.deep_view().subrange(0, i + 1));
        i += 1;
    }
    assert(cs.deep_view().subrange(0, i as int) =~= cs.deep_view());
    out
}

impl Clone for State {
    fn clone(&self) -> (res: Self)
        ensures
            res@ == self@,
    {
        State {
            constraints: clone_constraints(&self.constraints),
            subst: self.subst.clone(),
            failed: self.failed,
            binding_counts: self.binding_counts.clone(),
            parent: match &self.parent {
                Some(p) => Some(rc_clone(p)),
                None => None,
            },
            step: self.step,
        }
    }
}

/// The failed state: no constraints, empty substitution, zero counts, no
/// parent.
pub open spec fn failed_state() -> StateV {
    StateV {
        constraints: Seq::empty(),
        subst: Seq::empty(),
        failed: true,
        binding_counts: zero_counts(),
        parent: None,
        step: Step::Fail,
    }
}

/// All counts zero.
pub open spec fn zero_counts() -> BindingCounts {
    BindingCounts {
        simple_proj: 0,
        functional_proj: 0,
        eliminations: 0,
        imitations: 0,
        identifications: 0,
        total: 0,
    }
}

/// The state that follows `s` by `step`, with the given constraints and
/// substitution, the counts of `s`, and `s` as its parent.
pub open spec fn successor(
    s: StateV,
    constraints: Seq<ConstraintV>,
    subst: Seq<(Seq<char>, TermV)>,
    step: Step,
) -> StateV {
    StateV {
        constraints,
        subst,
        failed: false,
        binding_counts: s.binding_counts,
        parent: Some(Box::new(s)),
        step,
    }
}

impl State {
    /// The start state for the given constraints.
    pub fn new(constraints: Vec<Constraint>) -> (res: Self)
        ensures
            res@ == (StateV {
                constraints: constraints.deep_view(),
                subst: Seq::empty(),
                failed: false,
                binding_counts: zero_counts(),
                parent: None,
                step: Step::Start,
            }),
    {
        State {
            constraints,
            subst: PersistentSubst::new(),
            failed: false,
            binding_counts: BindingCounts::new(),
            parent: None,
            step: Step::Start,
        }
    }

    /// The successor of this state by `step`.
    pub fn with_subst_and_count(
        &self,
        constraints: Vec<Constraint>,
        subst: PersistentSubst,
        step: Step,
    ) -> (res: Self)
        ensures
            res@ == successor(self@, constraints.deep_view(), subst@, step),
    {
        State {
            constraints,
            subst,
            failed: false,
            binding_counts: self.binding_counts.clone(),
            parent: Some(Rc::new(self.clone())),
            step,
        }
    }

    /// The failed state.
    pub fn fail() -> (res: Self)
        ensures
            res@ == failed_state(),
    {
        let constraints: Vec<Constraint> = Vec::new();
        assert(constraints.deep_view() =~= Seq::<ConstraintV>::empty());
        State {
            constraints,
            subst: PersistentSubst::new(),
            failed: true,
            binding_counts: BindingCounts::new(),
            parent: None,
            step: Step::Fail,
        }
    }

    /// No constraint is left and the state has not failed.
    pub fn is_solved(&self) -> (res: bool)
        ensures
            res == (self@.constraints.len() == 0 && !self@.failed),
    {
        self.constraints.len() == 0 && !self.failed
    }
}

/// The state a binding leads to: within the limits, the successor by `step`
/// with `c` as the only constraint, `new_subst`, and the counts raised by
/// `count` bindings of `kind`; past a limit, what the oracle decides, or the
/// failed state when it does not decide.
pub open spec fn binding_result(
    s: StateV,
    kind: BindingKind,
    count: nat,
    c: ConstraintV,
    new_subst: Seq<(Seq<char>, TermV)>,
    cfg: Config,
    step: Step,
) -> StateV {
    if exceeds(s.binding_counts, kind, count, cfg) {
        match oracle_result(c, s, cfg) {
            Some(o) => o,
            None => failed_state(),
        }
    } else {
        StateV {
            binding_counts: counts_after(s.binding_counts, kind, count),
            ..successor(s, seq![c], new_subst, step)
        }
    }
}

impl State {
    /// Applies a binding if the limits allow it, otherwise lets the oracle
    /// decide, or fails.
    pub fn try_binding(
        &self,
        kind: BindingKind,
        count: usize,
        constraint: &Constraint,
        new_subst: PersistentSubst,
        config: &Config,
        step: Step,
    ) -> (res: State)
        requires
            fits_fresh(constraint.0@, constraint.1@, 1),
            exceeds(self@.binding_counts, kind, count as nat, *config) || can_add(
                self@.binding_counts,
                kind,
                count as nat,
            ),
        ensures
            res@ == binding_result(self@, kind, count as nat, constraint@, new_subst@, *config, step),
    {
        if self.binding_counts.would_exceed(kind, count, config) {
            if let Some(oracle_state) = oracle(constraint, self, config) {
                return oracle_state;
            }
            return State::fail();
        } else {
            let mut cs: Vec<Constraint> = Vec::new();
            cs.push(constraint.clone());
            assert(cs.deep_view() =~= seq![constraint@]);
            let mut st = self.with_subst_and_count(cs, new_subst, step);
            st.binding_counts.add_count(kind, count);
            st
        }
    }
}

/// The size of a queue of streams: the elements of each stream, and one more
/// for each stream.
pub open spec fn queue_size(q: Seq<Seq<StateV>>) -> nat
    decreases q.len(),
{
    if q.len() == 0 {
        0
    } else {
        q[0].len() + 1 + queue_size(q.drop_first())
    }
}

/// Putting a stream at the back adds its size.
pub proof fn lemma_queue_size_push(q: Seq<Seq<StateV>>, t: Seq<StateV>)
    ensures
        queue_size(q.push(t)) == queue_size(q) + t.len() + 1,
    decreases q.len(),
{
    assert(q.push(t)[0] == if q.len() > 0 { q[0] } else { t });
    if q.len() > 0 {
        assert(q.push(t).drop_first() =~= q.drop_first().push(t));
        lemma_queue_size_push(q.drop_first(), t);
        assert(queue_size(q.push(t)) == q[0].len() + 1 + queue_size(q.drop_first().push(t)));
    } else {
        assert(q.push(t).drop_first() =~= Seq::<Seq<StateV>>::empty());
        assert(queue_size(q.push(t).drop_first()) == 0);
        assert(queue_size(q) == 0);
    }
}

/// One turn of the round robin: the first element of the first stream that
/// has one; the exhausted streams before it are dropped and the rest of that
/// stream goes to the back of the queue.
pub open spec fn dovetail_step(q: Seq<Seq<StateV>>) -> (Option<StateV>, Seq<Seq<StateV>>)
    decreases q.len(),
{
    if q.len() == 0 {
        (None, q)
    } else if q[0].len() == 0 {
        dovetail_step(q.drop_first())
    } else {
        (Some(q[0][0]), q.drop_first().push(q[0].drop_first()))
    }
}

/// Everything the round robin yields, in order.
pub open spec fn dovetail(q: Seq<Seq<StateV>>) -> Seq<StateV>
    decreases queue_size(q),
{
    if q.len() == 0 {
        Seq::empty()
    } else if q[0].len() == 0 {
        dovetail(q.drop_first())
    } else {
        proof {
            lemma_queue_size_push(q.drop_first(), q[0].drop_first());
        }
        seq![q[0][0]] + dovetail(q.drop_first().push(q[0].drop_first()))
    }
}

/// A turn yields the first element of what is left to yield, and the queue
/// shrinks; a turn that yields nothing ends the round robin.
pub proof fn lemma_dovetail_step(q: Seq<Seq<StateV>>)
    ensures
        dovetail_step(q).0 is None ==> dovetail(q) == Seq::<StateV>::empty() && dovetail_step(q).1.len() == 0,
        dovetail_step(q).0 is Some ==> {
            &&& dovetail(q) == seq![dovetail_step(q).0.unwrap()] + dovetail(dovetail_step(q).1)
            &&& queue_size(dovetail_step(q).1) < queue_size(q)
        },
    decreases q.len(),
{
    if q.len() > 0 {
        if q[0].len() == 0 {
            lemma_dovetail_step(q.drop_first());
        } else {
            lemma_queue_size_push(q.drop_first(), q[0].drop_first());
        }
    }
}

/// A round robin over finite streams of states.
pub struct Dovetail {
    pub streams: VecDeque<Vec<State>>,
}

impl View for Dovetail {
    type V = Seq<Seq<StateV>>;

    open spec fn view(&self) -> Seq<Seq<StateV>> {
        self.streams.deep_view()
    }
}

impl Dovetail {
    /// A round robin over the given streams, in their order.
    pub fn new(streams: Vec<Vec<State>>) -> (res: Self)
        ensures
            res@ == streams.deep_view(),
    {
        let mut queue: VecDeque<Vec<State>> = VecDeque::new();
        let mut rest = streams;
        let ghost all = rest.deep_view();
        assert(queue.deep_view() =~= Seq::<Seq<StateV>>::empty());
        while rest.len() > 0
            invariant
                queue.deep_view() + rest.deep_view() == all,
            decreases rest.len(),
        {
            let ghost before = queue.deep_view();
            let ghost rb = rest.deep_view();
            let s = rest.remove(0);
            queue.push_back(s);
            assert(queue.deep_view() =~= before.push(s.deep_view()));
            assert(rb =~= seq![s.deep_view()] + rest.deep_view());
            assert(queue.deep_view() + rest.deep_view() =~= before + rb);
        }
        assert(queue.deep_view() =~= all);
        Dovetail { streams: queue }
    }

    /// The next state of the round robin: the first element of the first
    /// stream that has one, whose rest then goes to the back.
    pub fn next(&mut self) -> (res: Option<State>)
        ensures
            match res {
                Some(s) => dovetail_step(old(self)@).0 == Some(s@),
                None => dovetail_step(old(self)@).0 is None,
            },
            final(self)@ == dovetail_step(old(self)@).1,
    {
        loop
            invariant
                dovetail_step(self@) == dovetail_step(old(self)@),
            decreases self@.len(),
        {
            let ghost q = self@;
            match self.streams.pop_front() {
                None => {
                    return None;
                },
                Some(mut it) => {
                    assert(q[0] == it.deep_view());
                    assert(self@ =~= q.drop_first());
                    if it.len() > 0 {
                        let st = it.remove(0);
                        assert(it.deep_view() =~= q[0].drop_first());
                        self.streams.push_back(it);
                        assert(self@ =~= q.drop_first().push(q[0].drop_first()));
                        return Some(st);
                    }
                },
            }
        }
    }
}

/// `s` with `rest` appended to its constraints.
pub open spec fn continue_with(s: StateV, rest: Seq<ConstraintV>) -> StateV {
    StateV {
        constraints: s.constraints + rest,
        subst: s.subst,
        failed: s.failed,
        binding_counts: s.binding_counts,
        parent: s.parent,
        step: s.step,
    }
}

/// The states of `ss` that have not failed, in order.
pub open spec fn unfailed(ss: Seq<StateV>) -> Seq<StateV>
    decreases ss.len(),
{
    if ss.len() == 0 {
        Seq::empty()
    } else if ss.last().failed {
        unfailed(ss.drop_last())
    } else {
        unfailed(ss.drop_last()).push(ss.last())
    }
}

/// The children of a state with an open constraint: the unfailed successors
/// for its first constraint, each carrying the other constraints after its
/// own.
pub open spec fn children(s: StateV, cfg: Config) -> Seq<StateV> {
    let succ = unfailed(unify_result(s.constraints[0], s, cfg));
    Seq::new(succ.len(), |i: int| continue_with(succ[i], s.constraints.drop_first()))
}

/// The search below `s` ends within `n` levels, and every rule it applies
/// gets what it needs.
pub open spec fn search_ok(s: StateV, cfg: Config, n: nat) -> bool
    decreases n, 0nat,
{
    if s.constraints.len() == 0 {
        true
    } else if n == 0 {
        false
    } else {
        unify_ok(s.constraints[0], s, cfg) && all_search_ok(children(s, cfg), cfg, (n - 1) as nat)
    }
}

/// The search below each of `ks` ends within `n` levels, every rule getting
/// what it needs.
pub open spec fn all_search_ok(ks: Seq<StateV>, cfg: Config, n: nat) -> bool
    decreases n, ks.len(),
{
    if ks.len() == 0 {
        true
    } else {
        all_search_ok(ks.drop_last(), cfg, n) && search_ok(ks.last(), cfg, n)
    }
}

/// The solutions found within `n` levels below `s`: `s` itself when it has
/// no open constraint and has not failed, else the round robin over the
/// solutions below its children.
pub open spec fn solutions_upto(s: StateV, cfg: Config, n: nat) -> Seq<StateV>
    decreases n, 0nat,
{
    if s.constraints.len() == 0 {
        if !s.failed {
            seq![s]
        } else {
            Seq::empty()
        }
    } else if n == 0 {
        Seq::empty()
    } else {
        dovetail(solutions_each(children(s, cfg), cfg, (n - 1) as nat))
    }
}

/// The solutions within `n` levels below each of `ks`, one stream each.
pub open spec fn solutions_each(ks: Seq<StateV>, cfg: Config, n: nat) -> Seq<Seq<StateV>>
    decreases n, ks.len(),
{
    if ks.len() == 0 {
        Seq::empty()
    } else {
        solutions_each(ks.drop_last(), cfg, n).push(solutions_upto(ks.last(), cfg, n))
    }
}

/// What holds of all of `ks` holds of each.
pub proof fn lemma_all_search_ok(ks: Seq<StateV>, cfg: Config, n: nat, i: int)
    requires
        all_search_ok(ks, cfg, n),
        0 <= i < ks.len(),
    ensures
        search_ok(ks[i], cfg, n),
    decreases ks.len(),
{
    if i < ks.len() - 1 {
        lemma_all_search_ok(ks.drop_last(), cfg, n, i);
    }
}

/// The solutions below `s`, for a search that ends.
pub open spec fn solutions(s: StateV, cfg: Config) -> Seq<StateV> {
    solutions_upto(s, cfg, choose|n: nat| search_ok(s, cfg, n))
}

/// The unfailed states of `all`.
fn keep_unfailed(all: &Vec<State>) -> (res: Vec<State>)
    ensures
        res.deep_view() == unfailed(all.deep_view()),
{
    let mut out: Vec<State> = Vec::new();
    let mut i: usize = 0;
    while i < all.len()
        invariant
            i <= all.len(),
            out.deep_view() == unfailed(all.deep_view().subrange(0, i as int)),
        decreases all.len() - i,
    {
        let ghost pre = all.deep_view().subrange(0, i as int);
        assert(all.deep_view().subrange(0, i + 1).drop_last() =~= pre);
        assert(all.deep_view().subrange(0, i + 1).last() == all[i as int]@);
        if !all[i].failed {
            let ghost before = out.deep_view();
            out.push(all[i].clone());
            assert(out.deep_view() =~= before.push(all[i as int]@));
        }
        i += 1;
    }
    assert(all.deep_view().subrange(0, i as int) =~= all.deep_view());
    out
}

/// The solutions within `n` levels below `state`.
fn search(state: &State, config: &Config, Ghost(n): Ghost<nat>) -> (res: Vec<State>)
    requires
        search_ok(state@, *config, n),
    ensures
        res.deep_view() == solutions_upto(state@, *config, n),
    decreases n,
{
    if state.constraints.len() == 0 {
        let mut out: Vec<State> = Vec::new();
        if state.is_solved() {
            out.push(state.clone());
        }
        assert(out.deep_view() =~= solutions_upto(state@, *config, n));
        return out;
    }
    let mut rest = clone_constraints(&state.constraints);
    assert(rest.len() == state@.constraints.len());
    let head = rest.remove(0);
    assert(rest.deep_view() =~= state@.constraints.drop_first());
    let all = apply_unify_rules(head, state, config);
    let succs = keep_unfailed(&all);
    let ghost kids = children(state@, *config);
    assert(all_search_ok(kids, *config, (n - 1) as nat));
    let mut subs: Vec<Vec<State>> = Vec::new();
    let mut i: usize = 0;
    assert(kids.subrange(0, 0).len() == 0);
    while i < succs.len()
        invariant
            i <= succs.len(),
            state@.constraints.len() > 0,
            n > 0,
            succs.deep_view() == unfailed(unify_result(state@.constraints[0], state@, *config)),
            rest.deep_view() == state@.constraints.drop_first(),
            kids == children(state@, *config),
            kids.len() == succs.len(),
            all_search_ok(kids, *config, (n - 1) as nat),
            subs.deep_view() == solutions_each(kids.subrange(0, i as int), *config, (n - 1) as nat),
        decreases succs.len() - i,
    {
        let mut st = succs[i].clone();
        let mut tail = clone_constraints(&rest);
        let ghost c0 = st.constraints.deep_view();
        st.constraints.append(&mut tail);
        assert(st.constraints.deep_view() =~= c0 + rest.deep_view());
        assert(st@ == kids[i as int]);
        proof {
            lemma_all_search_ok(kids, *config, (n - 1) as nat, i as int);
        }
        let below = search(&st, config, Ghost((n - 1) as nat));
        let ghost before = subs.deep_view();
        subs.push(below);
        assert(kids.subrange(0, i + 1).drop_last() =~= kids.subrange(0, i as int));
        assert(subs.deep_view() =~= before.push(solutions_upto(kids[i as int], *config, (n - 1) as nat)));
        i += 1;
    }
    assert(kids.subrange(0, i as int) =~= kids);
    let ghost streams = solutions_each(kids, *config, (n - 1) as nat);
    assert(subs.deep_view() =~= streams);
    let mut dt = Dovetail::new(subs);
    let mut out: Vec<State> = Vec::new();
    loop
        invariant
            out.deep_view() + dovetail(dt@) == dovetail(streams),
        ensures
            out.deep_view() == dovetail(streams),
        decreases queue_size(dt@),
    {
        proof {
            lemma_dovetail_step(dt@);
        }
        match dt.next() {
            Some(s) => {
                let ghost before = out.deep_view();
                out.push(s);
                assert(out.deep_view() =~= before.push(s@));
            },
            None => {
                assert(dovetail(dt@) =~= Seq::<StateV>::empty());
                assert(out.deep_view() =~= dovetail(streams));
                break;
            },
        }
    }
    assert(out.deep_view() =~= solutions_upto(state@, *config, n));
    out
}

/// All solutions below `state`: the states without open constraints that the
/// rules reach, interleaved round robin over the successors at each level.
pub fn unify_stream(state: &State, config: &Config) -> (res: Vec<State>)
    requires
        exists|n: nat| search_ok(state@, *config, n),
    ensures
        res.deep_view() == solutions(state@, *config),
{
    let ghost n = choose|n: nat| search_ok(state@, *config, n);
    search(state, config, Ghost(n))
}

/// The elements of all streams, stream after stream.
pub open spec fn all_of(q: Seq<Seq<StateV>>) -> Seq<StateV>
    decreases q.len(),
{
    if q.len() == 0 {
        Seq::empty()
    } else {
        q[0] + all_of(q.drop_first())
    }
}

/// A stream put at the back comes last.
pub proof fn lemma_all_of_push(q: Seq<Seq<StateV>>, t: Seq<StateV>)
    ensures
        all_of(q.push(t)) == all_of(q) + t,
    decreases q.len(),
{
    if q.len() == 0 {
        assert(q.push(t).drop_first() =~= Seq::<Seq<StateV>>::empty());
        assert(q.push(t)[0] == t);
        assert(all_of(Seq::<Seq<StateV>>::empty()) == Seq::<StateV>::empty());
        assert(all_of(q.push(t)) =~= t);
    } else {
        assert(q.push(t).drop_first() =~= q.drop_first().push(t));
        lemma_all_of_push(q.drop_first(), t);
        assert(all_of(q.push(t)) =~= all_of(q) + t);
    }
}

/// The round robin loses nothing and adds nothing: it yields every element
/// of every stream, as often as the streams hold it.
pub proof fn law_dovetail_yields_all(q: Seq<Seq<StateV>>)
    ensures
        dovetail(q).to_multiset() == all_of(q).to_multiset(),
    decreases queue_size(q),
{
    broadcast use vstd::seq_lib::lemma_multiset_commutative;
    if q.len() == 0 {
    } else if q[0].len() == 0 {
        assert(all_of(q) =~= all_of(q.drop_first()));
        law_dovetail_yields_all(q.drop_first());
    } else {
        let rest = q.drop_first().push(q[0].drop_first());
        lemma_queue_size_push(q.drop_first(), q[0].drop_first());
        law_dovetail_yields_all(rest);
        lemma_all_of_push(q.drop_first(), q[0].drop_first());
        assert(q[0] =~= seq![q[0][0]] + q[0].drop_first());
        assert(dovetail(q) == seq![q[0][0]] + dovetail(rest));
        assert(all_of(q) == q[0] + all_of(q.drop_first()));
        assert(dovetail(q).to_multiset() =~= all_of(q).to_multiset());
    }
}

/// A state with no open constraint that has not failed.
pub open spec fn solved(s: StateV) -> bool {
    s.constraints.len() == 0 && !s.failed
}

/// Every element of each stream is solved, so every element of all of them.
proof fn lemma_all_of_solved(q: Seq<Seq<StateV>>)
    requires
        forall|i: int, k: int| 0 <= i < q.len() && 0 <= k < q[i].len() ==> solved(#[trigger] q[i][k]),
    ensures
        forall|k: int| 0 <= k < all_of(q).len() ==> solved(#[trigger] all_of(q)[k]),
    decreases q.len(),
{
    if q.len() > 0 {
        lemma_all_of_solved(q.drop_first());
        assert forall|k: int| 0 <= k < all_of(q).len() implies solved(#[trigger] all_of(q)[k]) by {
            if k < q[0].len() {
                assert(all_of(q)[k] == q[0][k]);
            } else {
                assert(all_of(q)[k] == all_of(q.drop_first())[k - q[0].len()]);
                assert(q.drop_first()[0] == q[1]);
            }
        }
    }
}

/// What the round robin over solved streams yields is solved.
proof fn lemma_dovetail_solved(q: Seq<Seq<StateV>>)
    requires
        forall|i: int, k: int| 0 <= i < q.len() && 0 <= k < q[i].len() ==> solved(#[trigger] q[i][k]),
    ensures
        forall|k: int| 0 <= k < dovetail(q).len() ==> solved(#[trigger] dovetail(q)[k]),
{
    broadcast use vstd::seq_lib::to_multiset_contains;
    lemma_all_of_solved(q);
    law_dovetail_yields_all(q);
    assert forall|k: int| 0 <= k < dovetail(q).len() implies solved(#[trigger] dovetail(q)[k]) by {
        let x = dovetail(q)[k];
        assert(dovetail(q).contains(x));
        assert(dovetail(q).to_multiset().count(x) > 0);
        assert(all_of(q).to_multiset().count(x) > 0);
        assert(all_of(q).contains(x));
    }
}

/// What the search finds within `n` levels is solved.
proof fn lemma_upto_solved(s: StateV, cfg: Config, n: nat)
    ensures
        forall|k: int| 0 <= k < solutions_upto(s, cfg, n).len() ==> solved(#[trigger] solutions_upto(s, cfg, n)[k]),
    decreases n, 0nat,
{
    if s.constraints.len() > 0 && n > 0 {
        let q = solutions_each(children(s, cfg), cfg, (n - 1) as nat);
        lemma_each_solved(children(s, cfg), cfg, (n - 1) as nat);
        lemma_dovetail_solved(q);
    }
}

/// What the search finds below each of `ks` is solved.
proof fn lemma_each_solved(ks: Seq<StateV>, cfg: Config, n: nat)
    ensures
        forall|i: int, k: int|
            0 <= i < solutions_each(ks, cfg, n).len() && 0 <= k < solutions_each(ks, cfg, n)[i].len() ==> solved(
                #[trigger] solutions_each(ks, cfg, n)[i][k],
            ),
    decreases n, ks.len(),
{
    if ks.len() > 0 {
        lemma_each_solved(ks.drop_last(), cfg, n);
        lemma_upto_solved(ks.last(), cfg, n);
        let e = solutions_each(ks, cfg, n);
        let d = solutions_each(ks.drop_last(), cfg, n);
        assert(e == d.push(solutions_upto(ks.last(), cfg, n)));
        assert forall|i: int, k: int| 0 <= i < e.len() && 0 <= k < e[i].len() implies solved(#[trigger] e[i][k]) by {
            if i < d.len() {
                assert(e[i] == d[i]);
            } else {
                assert(e[i] == solutions_upto(ks.last(), cfg, n));
            }
        }
    }
}

/// Every solution the search returns has no open constraint and has not
/// failed.
pub proof fn law_solutions_are_solved(s: StateV, cfg: Config)
    ensures
        forall|k: int| 0 <= k < solutions(s, cfg).len() ==> solved(#[trigger] solutions(s, cfg)[k]),
{
    lemma_upto_solved(s, cfg, choose|n: nat| search_ok(s, cfg, n));
}


/// Where the round robin yields the elements of stream `i`: increasing
/// positions, the `t`-th at most `t * k + i` for `k` streams.
pub open spec fn fair_positions(q: Seq<Seq<StateV>>, i: int, pos: Seq<int>) -> bool {
    &&& pos.len() == q[i].len()
    &&& forall|t: int| 0 <= t < pos.len() ==> 0 <= #[trigger] pos[t] <= t * q.len() + i
    &&& forall|t: int| 0 <= t < pos.len() ==> pos[t] < dovetail(q).len() && dovetail(q)[#[trigger] pos[t]] == q[i][t]
    &&& forall|t1: int, t2: int| 0 <= t1 < t2 < pos.len() ==> pos[t1] < pos[t2]
}

/// The positions at which the round robin yields the elements of stream
/// `i`.
proof fn lemma_dovetail_positions(q: Seq<Seq<StateV>>, i: int) -> (pos: Seq<int>)
    requires
        0 <= i < q.len(),
    ensures
        fair_positions(q, i, pos),
    decreases queue_size(q),
{
    let k = q.len() as int;
    if q[0].len() == 0 && i == 0 {
        Seq::empty()
    } else if q[0].len() == 0 {
        let r = q.drop_first();
        assert(r[i - 1] == q[i]);
        let pos = lemma_dovetail_positions(r, i - 1);
        assert forall|t: int| 0 <= t < pos.len() implies 0 <= #[trigger] pos[t] <= t * q.len() + i by {
            assert(t * r.len() <= t * k) by (nonlinear_arith)
                requires
                    r.len() == k - 1,
                    t >= 0,
            ;
        }
        pos
    } else {
        let r = q.drop_first().push(q[0].drop_first());
        lemma_queue_size_push(q.drop_first(), q[0].drop_first());
        assert(dovetail(q) == seq![q[0][0]] + dovetail(r));
        assert(r.len() == k);
        if i == 0 {
            assert(r[k - 1] == q[0].drop_first());
            let p1 = lemma_dovetail_positions(r, k - 1);
            let pos = seq![0int] + p1.map_values(|p: int| p + 1);
            assert forall|t: int| 0 <= t < pos.len() implies 0 <= #[trigger] pos[t] <= t * q.len() + i by {
                if t > 0 {
                    assert(pos[t] == p1[t - 1] + 1);
                    assert((t - 1) * k + (k - 1) + 1 == t * k) by (nonlinear_arith);
                }
            }
            assert forall|t: int| 0 <= t < pos.len() implies pos[t] < dovetail(q).len() && dovetail(q)[#[trigger] pos[t]] == q[i][t] by {
                if t > 0 {
                    assert(pos[t] == p1[t - 1] + 1);
                    assert(dovetail(q)[p1[t - 1] + 1] == dovetail(r)[p1[t - 1]]);
                    assert(r[k - 1][t - 1] == q[0][t]);
                }
            }
            assert forall|t1: int, t2: int| 0 <= t1 < t2 < pos.len() implies pos[t1] < pos[t2] by {
                if t1 > 0 {
                    assert(pos[t1] == p1[t1 - 1] + 1 && pos[t2] == p1[t2 - 1] + 1);
                } else {
                    assert(pos[t2] == p1[t2 - 1] + 1);
                }
            }
            pos
        } else {
            assert(r[i - 1] == q[i]);
            let p1 = lemma_dovetail_positions(r, i - 1);
            let pos = p1.map_values(|p: int| p + 1);
            assert forall|t: int| 0 <= t < pos.len() implies pos[t] < dovetail(q).len() && dovetail(q)[#[trigger] pos[t]] == q[i][t] by {
                assert(dovetail(q)[p1[t] + 1] == dovetail(r)[p1[t]]);
            }
            pos
        }
    }
}

/// Fairness of the round robin over `k` streams: the elements of the
/// `i`-th stream come out in their order, the `t`-th at a position at most
/// `t * k + i`, so within the first `(t + 1) * k` turns.
pub proof fn law_dovetail_fair(q: Seq<Seq<StateV>>, i: int)
    requires
        0 <= i < q.len(),
    ensures
        exists|pos: Seq<int>| fair_positions(q, i, pos),
{
    let pos = lemma_dovetail_positions(q, i);
}

/// The round robin yields nothing more only once every stream is exhausted.
pub proof fn law_dovetail_ends_when_all_empty(q: Seq<Seq<StateV>>)
    ensures
        dovetail_step(q).0 is None <==> forall|i: int| 0 <= i < q.len() ==> (#[trigger] q[i]).len() == 0,
    decreases q.len(),
{
    if q.len() > 0 && q[0].len() == 0 {
        law_dovetail_ends_when_all_empty(q.drop_first());
        assert forall|i: int| 1 <= i < q.len() implies q[i] == (#[trigger] q.drop_first()[i - 1]) by {}
        if dovetail_step(q).0 is None {
            assert forall|i: int| 0 <= i < q.len() implies (#[trigger] q[i]).len() == 0 by {
                if i > 0 {
                    assert(q.drop_first()[i - 1].len() == 0);
                }
            }
        } else {
            assert(!(forall|j: int| 0 <= j < q.drop_first().len() ==> (#[trigger] q.drop_first()[j]).len() == 0));
            let j = choose|j: int| 0 <= j < q.drop_first().len() && !((#[trigger] q.drop_first()[j]).len() == 0);
            assert(q[j + 1].len() != 0);
        }
    }
}


/// The search below `s` ends within `n` levels, and every rule it applies
/// gets what it needs, with head normalization stopping within `fuel`
/// steps.
pub open spec fn search_within(s: StateV, cfg: Config, n: nat, fuel: nat) -> bool
    decreases n, 0nat,
{
    if s.constraints.len() == 0 {
        true
    } else if n == 0 {
        false
    } else {
        unify_within(s.constraints[0], s, cfg, fuel) && all_search_within(children(s, cfg), cfg, (n - 1) as nat, fuel)
    }
}

/// The same for each of `ks`.
pub open spec fn all_search_within(ks: Seq<StateV>, cfg: Config, n: nat, fuel: nat) -> bool
    decreases n, ks.len(),
{
    if ks.len() == 0 {
        true
    } else {
        all_search_within(ks.drop_last(), cfg, n, fuel) && search_within(ks.last(), cfg, n, fuel)
    }
}

/// A search within a budget is a search that ends.
pub proof fn lemma_search_within_ok(s: StateV, cfg: Config, n: nat, fuel: nat)
    requires
        search_within(s, cfg, n, fuel),
    ensures
        search_ok(s, cfg, n),
    decreases n, 0nat,
{
    if s.constraints.len() > 0 {
        lemma_unify_within_ok(s.constraints[0], s, cfg, fuel);
        lemma_all_search_within_ok(children(s, cfg), cfg, (n - 1) as nat, fuel);
    }
}

/// The same for each of `ks`.
pub proof fn lemma_all_search_within_ok(ks: Seq<StateV>, cfg: Config, n: nat, fuel: nat)
    requires
        all_search_within(ks, cfg, n, fuel),
    ensures
        all_search_ok(ks, cfg, n),
    decreases n, ks.len(),
{
    if ks.len() > 0 {
        lemma_all_search_within_ok(ks.drop_last(), cfg, n, fuel);
        lemma_search_within_ok(ks.last(), cfg, n, fuel);
    }
}

/// What holds of all of `ks` holds of each.
proof fn lemma_all_search_within(ks: Seq<StateV>, cfg: Config, n: nat, fuel: nat, i: int)
    requires
        all_search_within(ks, cfg, n, fuel),
        0 <= i < ks.len(),
    ensures
        search_within(ks[i], cfg, n, fuel),
    decreases ks.len(),
{
    if i < ks.len() - 1 {
        lemma_all_search_within(ks.drop_last(), cfg, n, fuel, i);
    }
}

/// A search that ends finds the same solutions whatever bound it is given.
pub proof fn lemma_solutions_stable(s: StateV, cfg: Config, n: nat, m: nat)
    requires
        search_ok(s, cfg, n),
        search_ok(s, cfg, m),
    ensures
        solutions_upto(s, cfg, n) == solutions_upto(s, cfg, m),
    decreases n, 0nat,
{
    if s.constraints.len() > 0 {
        lemma_solutions_each_stable(children(s, cfg), cfg, (n - 1) as nat, (m - 1) as nat);
    }
}

/// The same for each of `ks`.
pub proof fn lemma_solutions_each_stable(ks: Seq<StateV>, cfg: Config, n: nat, m: nat)
    requires
        all_search_ok(ks, cfg, n),
        all_search_ok(ks, cfg, m),
    ensures
        solutions_each(ks, cfg, n) == solutions_each(ks, cfg, m),
    decreases n, ks.len(),
{
    if ks.len() > 0 {
        lemma_solutions_each_stable(ks.drop_last(), cfg, n, m);
        lemma_solutions_stable(ks.last(), cfg, n, m);
    }
}

/// The solutions within `depth` levels below `state`, every constraint
/// checked before a rule is applied to it; none when the search does not
/// end within `depth` levels or a rule does not get what it needs.
fn search_checked(state: &State, config: &Config, depth: usize, fuel: usize) -> (res: Option<Vec<State>>)
    ensures
        match res {
            Some(v) => search_within(state@, *config, depth as nat, fuel as nat) && v.deep_view() == solutions_upto(
                state@,
                *config,
                depth as nat,
            ),
            None => !search_within(state@, *config, depth as nat, fuel as nat),
        },
    decreases depth,
{
    if state.constraints.len() == 0 {
        let mut out: Vec<State> = Vec::new();
        if state.is_solved() {
            out.push(state.clone());
        }
        assert(out.deep_view() =~= solutions_upto(state@, *config, depth as nat));
        return Some(out);
    }
    if depth == 0 {
        return None;
    }
    let mut rest = clone_constraints(&state.constraints);
    assert(rest.len() == state@.constraints.len());
    let head = rest.remove(0);
    assert(rest.deep_view() =~= state@.constraints.drop_first());
    if !check_unify_within(&head, state, config, fuel) {
        return None;
    }
    proof {
        lemma_unify_within_ok(head@, state@, *config, fuel as nat);
    }
    let all = apply_unify_rules(head, state, config);
    let succs = keep_unfailed(&all);
    let ghost kids = children(state@, *config);
    let ghost n = (depth - 1) as nat;
    let mut subs: Vec<Vec<State>> = Vec::new();
    let mut i: usize = 0;
    assert(kids.subrange(0, 0).len() == 0);
    assert(kids.subrange(0, 0) =~= Seq::<StateV>::empty());
    while i < succs.len()
        invariant
            i <= succs.len(),
            state@.constraints.len() > 0,
            depth > 0,
            n == depth - 1,
            unify_within(state@.constraints[0], state@, *config, fuel as nat),
            succs.deep_view() == unfailed(unify_result(state@.constraints[0], state@, *config)),
            rest.deep_view() == state@.constraints.drop_first(),
            kids == children(state@, *config),
            kids.len() == succs.len(),
            all_search_within(kids.subrange(0, i as int), *config, n, fuel as nat),
            subs.deep_view() == solutions_each(kids.subrange(0, i as int), *config, n),
        decreases succs.len() - i,
    {
        let mut st = succs[i].clone();
        let mut tail = clone_constraints(&rest);
        let ghost c0 = st.constraints.deep_view();
        st.constraints.append(&mut tail);
        assert(st.constraints.deep_view() =~= c0 + rest.deep_view());
        assert(st@ == kids[i as int]);
        let below = match search_checked(&st, config, depth - 1, fuel) {
            Some(b) => b,
            None => {
                proof {
                    if all_search_within(kids, *config, n, fuel as nat) {
                        lemma_all_search_within(kids, *config, n, fuel as nat, i as int);
                    }
                }
                return None;
            },
        };
        let ghost before = subs.deep_view();
        subs.push(below);
        assert(kids.subrange(0, i + 1).drop_last() =~= kids.subrange(0, i as int));
        assert(kids.subrange(0, i + 1).last() == kids[i as int]);
        assert(subs.deep_view() =~= before.push(solutions_upto(kids[i as int], *config, n)));
        i += 1;
    }
    assert(kids.subrange(0, i as int) =~= kids);
    let ghost streams = solutions_each(kids, *config, n);
    assert(subs.deep_view() =~= streams);
    let mut dt = Dovetail::new(subs);
    let mut out: Vec<State> = Vec::new();
    loop
        invariant
            out.deep_view() + dovetail(dt@) == dovetail(streams),
        ensures
            out.deep_view() == dovetail(streams),
        decreases queue_size(dt@),
    {
        proof {
            lemma_dovetail_step(dt@);
        }
        match dt.next() {
            Some(s) => {
                let ghost before = out.deep_view();
                out.push(s);
                assert(out.deep_view() =~= before.push(s@));
            },
            None => {
                assert(dovetail(dt@) =~= Seq::<StateV>::empty());
                assert(out.deep_view() =~= dovetail(streams));
                break;
            },
        }
    }
    assert(out.deep_view() =~= solutions_upto(state@, *config, depth as nat));
    Some(out)
}

/// All solutions below `state`, when the search ends within `depth`
/// levels and each head normalization within `fuel` steps (and the rules
/// get the sizes and counts they need); none otherwise.
pub fn unify_stream_within(state: &State, config: &Config, depth: usize, fuel: usize) -> (res: Option<Vec<State>>)
    ensures
        match res {
            Some(v) => search_within(state@, *config, depth as nat, fuel as nat) && v.deep_view() == solutions(
                state@,
                *config,
            ),
            None => !search_within(state@, *config, depth as nat, fuel as nat),
        },
{
    let r = search_checked(state, config, depth, fuel);
    proof {
        if search_within(state@, *config, depth as nat, fuel as nat) {
            lemma_search_within_ok(state@, *config, depth as nat, fuel as nat);
            let m = choose|m: nat| search_ok(state@, *config, m);
            lemma_solutions_stable(state@, *config, depth as nat, m);
        }
    }
    r
}

} // verus!
