//! Sets of names, decimal numerals and the generator of fresh names.
use vstd::prelude::*;
use vstd::string::*;

verus! {

/// The numeral character of a digit.
pub open spec fn digit_char(d: nat) -> char {
    if d == 0 {
        '0'
    } else if d == 1 {
        '1'
    } else if d == 2 {
        '2'
    } else if d == 3 {
        '3'
    } else if d == 4 {
        '4'
    } else if d == 5 {
        '5'
    } else if d == 6 {
        '6'
    } else if d == 7 {
        '7'
    } else if d == 8 {
        '8'
    } else {
        '9'
    }
}

/// The decimal numeral of a natural number, without leading zeros.
pub open spec fn decimal(n: nat) -> Seq<char>
    decreases n,
{
    if n < 10 {
        seq![digit_char(n)]
    } else {
        decimal(n / 10).push(digit_char(n % 10))
    }
}

/// Distinct numbers have distinct numerals.
pub proof fn lemma_decimal_injective(a: nat, b: nat)
    requires
        decimal(a) == decimal(b),
    ensures
        a == b,
    decreases a,
{
    lemma_decimal_nonempty(a);
    lemma_decimal_nonempty(b);
    if a < 10 && b < 10 {
        assert(decimal(a) == seq![digit_char(a)]);
        assert(decimal(b) == seq![digit_char(b)]);
        assert(seq![digit_char(a)][0] == digit_char(a));
        assert(seq![digit_char(b)][0] == digit_char(b));
        assert(decimal(a)[0] == decimal(b)[0]);
        lemma_digit_char_injective(a, b);
    } else if a >= 10 && b >= 10 {
        let da = decimal(a);
        let db = decimal(b);
        assert(da.last() == db.last());
        assert(da.drop_last() == decimal(a / 10));
        assert(db.drop_last() == decimal(b / 10));
        lemma_decimal_injective(a / 10, b / 10);
        lemma_digit_char_injective(a % 10, b % 10);
        assert(a == 10 * (a / 10) + a % 10);
        assert(b == 10 * (b / 10) + b % 10);
    } else if a < 10 {
        lemma_decimal_nonempty(b / 10);
        assert(decimal(b).len() >= 2);
    } else {
        lemma_decimal_nonempty(a / 10);
        assert(decimal(a).len() >= 2);
    }
}

proof fn lemma_digit_char_injective(a: nat, b: nat)
    requires
        a < 10,
        b < 10,
        digit_char(a) == digit_char(b),
    ensures
        a == b,
{
}

/// Every numeral has at least one digit.
pub proof fn lemma_decimal_nonempty(n: nat)
    ensures
        decimal(n).len() >= 1,
    decreases n,
{
    if n >= 10 {
        lemma_decimal_nonempty(n / 10);
    }
}

fn digit_str(d: usize) -> (res: &'static str)
    requires
        d < 10,
    ensures
        res@ == seq![digit_char(d as nat)],
{
    proof {
        reveal_strlit("0");
        reveal_strlit("1");
        reveal_strlit("2");
        reveal_strlit("3");
        reveal_strlit("4");
        reveal_strlit("5");
        reveal_strlit("6");
        reveal_strlit("7");
        reveal_strlit("8");
        reveal_strlit("9");
    }
    if d == 0 {
        "0"
    } else if d == 1 {
        "1"
    } else if d == 2 {
        "2"
    } else if d == 3 {
        "3"
    } else if d == 4 {
        "4"
    } else if d == 5 {
        "5"
    } else if d == 6 {
        "6"
    } else if d == 7 {
        "7"
    } else if d == 8 {
        "8"
    } else {
        "9"
    }
}

/// The decimal numeral of `n`.
pub fn usize_to_string(n: usize) -> (res: String)
    ensures
        res@ == decimal(n as nat),
    decreases n,
{
    if n < 10 {
        String::from_str(digit_str(n))
    } else {
        let mut s = usize_to_string(n / 10);
        s.append(digit_str(n % 10));
        s
    }
}

/// Membership in a sequence extended by one element.
pub proof fn lemma_push_contains<A>(s: Seq<A>, x: A, y: A)
    ensures
        s.push(x).contains(y) <==> (s.contains(y) || y == x),
{
    if s.contains(y) {
        let j = choose|j: int| 0 <= j < s.len() && s[j] == y;
        assert(s.push(x)[j] == y);
    }
    if y == x {
        assert(s.push(x)[s.len() as int] == y);
    }
    if s.push(x).contains(y) && y != x {
        let j = choose|j: int| 0 <= j < s.push(x).len() && s.push(x)[j] == y;
        assert(s[j] == y);
    }
}

/// The decimal numeral of `n`.
pub fn u64_to_string(n: u64) -> (res: String)
    ensures
        res@ == decimal(n as nat),
    decreases n,
{
    if n < 10 {
        String::from_str(digit_str(n as usize))
    } else {
        let mut s = u64_to_string(n / 10);
        s.append(digit_str((n % 10) as usize));
        s
    }
}

/// Text equality of two strings.
pub fn same_text(a: &String, b: &String) -> (res: bool)
    ensures
        res <==> a@ == b@,
{
    *a == *b
}

/// A finite set of names.
pub struct NameSet {
    pub names: Vec<String>,
}

impl View for NameSet {
    type V = Set<Seq<char>>;

    open spec fn view(&self) -> Set<Seq<char>> {
        self.names.deep_view().to_set()
    }
}

impl NameSet {
    /// The empty set.
    pub fn new() -> (res: NameSet)
        ensures
            res@ == Set::<Seq<char>>::empty(),
            res.names.len() == 0,
    {
        let res = NameSet { names: Vec::new() };
        assert(res@ =~= Set::<Seq<char>>::empty());
        res
    }

    /// Whether `name` is in the set.
    pub fn contains(&self, name: &String) -> (res: bool)
        ensures
            res <==> self@.contains(name@),
    {
        let mut i: usize = 0;
        while i < self.names.len()
            invariant
                i <= self.names.len(),
                forall|j: int| 0 <= j < i ==> self.names.deep_view()[j] != name@,
            decreases self.names.len() - i,
        {
            if same_text(&self.names[i], name) {
                assert(self.names.deep_view()[i as int] == name@);
                return true;
            }
            i += 1;
        }
        assert(!self.names.deep_view().contains(name@));
        false
    }

    /// Adds `name`; reports whether it was not there before.
    pub fn insert(&mut self, name: String) -> (res: bool)
        ensures
            res <==> !old(self)@.contains(name@),
            final(self)@ == old(self)@.insert(name@),
            final(self).names.len() == old(self).names.len() + (if res { 1int } else { 0int }),
    {
        if self.contains(&name) {
            assert(self@.insert(name@) =~= self@);
            false
        } else {
            let ghost before = self.names.deep_view();
            self.names.push(name);
            assert(self.names.deep_view() =~= before.push(name@));
            proof {
                before.lemma_push_to_set_commute(name@);
            }
            true
        }
    }

    /// Removes every copy of `name`.
    pub fn remove(&mut self, name: &String)
        ensures
            final(self)@ == old(self)@.remove(name@),
            final(self).names.len() <= old(self).names.len(),
    {
        let mut kept: Vec<String> = Vec::new();
        let mut i: usize = 0;
        while i < self.names.len()
            invariant
                i <= self.names.len(),
                kept.len() <= i,
                forall|s: Seq<char>|
                    kept.deep_view().contains(s) <==> (s != name@
                        && self.names.deep_view().subrange(0, i as int).contains(s)),
            decreases self.names.len() - i,
        {
            let ghost prev = kept.deep_view();
            let ghost x = self.names.deep_view()[i as int];
            let ghost pre = self.names.deep_view().subrange(0, i as int);
            assert(self.names.deep_view().subrange(0, i + 1) =~= pre.push(x));
            if !same_text(&self.names[i], name) {
                kept.push(self.names[i].clone());
                assert(kept.deep_view() =~= prev.push(x));
            }
            assert forall|s: Seq<char>|
                kept.deep_view().contains(s) <==> (s != name@ && pre.push(x).contains(s)) by {
                lemma_push_contains(pre, x, s);
                lemma_push_contains(prev, x, s);
            }
            i += 1;
        }
        assert(self.names.deep_view().subrange(0, i as int) =~= self.names.deep_view());
        let ghost old_view = self@;
        self.names = kept;
        assert(self@ =~= old_view.remove(name@));
    }

    /// Number of names held.
    pub fn len(&self) -> (res: usize)
        ensures
            res == self.names.len(),
    {
        self.names.len()
    }
}

/// Generates names of the form `prefix` followed by a counter, avoiding a set
/// of names already in use.
pub struct FreshNameGen {
    pub used: NameSet,
    pub counter: u64,
}

/// The name tried by the generator for `prefix` at counter value `k`.
pub open spec fn candidate(prefix: Seq<char>, k: nat) -> Seq<char> {
    prefix + decimal(k)
}

/// The counter value at which the generator finds its next name: the least
/// `k >= start` whose candidate is not in `used`.
pub open spec fn fresh_index(used: Set<Seq<char>>, prefix: Seq<char>, start: nat) -> nat {
    choose|k: nat|
        start <= k && !used.contains(candidate(prefix, k)) && forall|j: nat|
            start <= j < k ==> used.contains(#[trigger] candidate(prefix, j))
}

/// The generator's state as a value: the names in use and the counter.
pub struct GenV {
    pub used: Set<Seq<char>>,
    pub counter: nat,
}

/// One step of the generator: the name it returns and its next state.
pub open spec fn gen_step(g: GenV, prefix: Seq<char>) -> (Seq<char>, GenV) {
    let k = fresh_index(g.used, prefix, g.counter);
    (candidate(prefix, k), GenV { used: g.used.insert(candidate(prefix, k)), counter: k + 1 })
}

/// `m` steps of the generator with the same prefix: the names and the final
/// state.
pub open spec fn gen_run(g: GenV, prefix: Seq<char>, m: nat) -> (Seq<Seq<char>>, GenV)
    decreases m,
{
    if m == 0 {
        (Seq::empty(), g)
    } else {
        let (names, g1) = gen_run(g, prefix, (m - 1) as nat);
        let (n, g2) = gen_step(g1, prefix);
        (names.push(n), g2)
    }
}

impl View for FreshNameGen {
    type V = GenV;

    open spec fn view(&self) -> GenV {
        GenV { used: self.used@, counter: self.counter as nat }
    }
}

impl FreshNameGen {
    /// A generator whose counter starts at 1 and that avoids `existing`.
    pub fn new(existing: Vec<String>) -> (res: FreshNameGen)
        ensures
            res.counter == 1,
            res.used@ == existing.deep_view().to_set(),
            res.used.names.len() <= existing.len(),
    {
        let mut used = NameSet::new();
        let mut i: usize = 0;
        while i < existing.len()
            invariant
                i <= existing.len(),
                used@ == existing.deep_view().subrange(0, i as int).to_set(),
                used.names.len() <= i,
            decreases existing.len() - i,
        {
            used.insert(existing[i].clone());
            proof {
                existing.deep_view().subrange(0, i as int).lemma_push_to_set_commute(
                    existing.deep_view()[i as int],
                );
            }
            assert(existing.deep_view().subrange(0, i + 1) =~= existing.deep_view().subrange(
                0,
                i as int,
            ).push(existing.deep_view()[i as int]));
            i += 1;
        }
        assert(existing.deep_view().subrange(0, i as int) =~= existing.deep_view());
        FreshNameGen { used, counter: 1 }
    }

    /// Returns `prefix` followed by the least counter value, from the current
    /// one on, that gives a name not in use; marks that name as used and moves
    /// the counter past it.
    pub fn fresh(&mut self, prefix: &str) -> (res: String)
        requires
            old(self).counter + old(self).used.names.len() < u64::MAX,
        ensures
            exists|k: nat|
                {
                    &&& old(self).counter <= k
                    &&& res@ == candidate(prefix@, k)
                    &&& final(self).counter == k + 1
                    &&& forall|j: nat|
                        old(self).counter <= j < k ==> old(self).used@.contains(
                            #[trigger] candidate(prefix@, j),
                        )
                },
            !old(self).used@.contains(res@),
            (res@, final(self)@) == gen_step(old(self)@, prefix@),
            final(self).used@ == old(self).used@.insert(res@),
            final(self).used.names.len() == old(self).used.names.len() + 1,
            final(self).counter <= old(self).counter + old(self).used.names.len() + 1,
    {
        let ghost start = self.counter as nat;
        let ghost mut visited: Set<Seq<char>> = Set::empty();
        proof {
            self.used.names.deep_view().lemma_cardinality_of_set();
            vstd::seq_lib::seq_to_set_is_finite(self.used.names.deep_view());
        }
        loop
            invariant
                start <= self.counter,
                self.used@ == old(self).used@,
                self.used.names.len() == old(self).used.names.len(),
                self.used@.finite(),
                self.used@.len() <= self.used.names.len(),
                visited.finite(),
                visited.len() == self.counter - start,
                visited.subset_of(self.used@),
                forall|j: nat| start <= j < self.counter ==> #[trigger] visited.contains(candidate(prefix@, j)),
                forall|s: Seq<char>| visited.contains(s) ==> exists|j: nat| start <= j < self.counter && s == #[trigger] candidate(prefix@, j),
                start + self.used.names.len() < u64::MAX,
                start == old(self).counter,
            decreases self.used@.len() - visited.len(),
        {
            proof {
                vstd::set_lib::lemma_len_subset(visited, self.used@);
            }
            let mut name = String::from_str(prefix);
            let num = u64_to_string(self.counter);
            name.append(num.as_str());
            let ghost k = self.counter as nat;
            assert(name@ == candidate(prefix@, k));
            self.counter += 1;
            if self.used.insert(name.clone()) {
                proof {
                    let kk = fresh_index(old(self).used@, prefix@, start);
                    assert(start <= k && !old(self).used@.contains(candidate(prefix@, k)) && forall|j: nat|
                        start <= j < k ==> old(self).used@.contains(#[trigger] candidate(prefix@, j)));
                    if kk < k {
                        assert(visited.contains(candidate(prefix@, kk)));
                    } else if k < kk {
                        assert(old(self).used@.contains(candidate(prefix@, k)));
                    }
                }
                return name;
            }
            proof {
                if visited.contains(name@) {
                    let j = choose|j: nat| start <= j < k && name@ == #[trigger] candidate(prefix@, j);
                    assert(decimal(j) =~= candidate(prefix@, j).subrange(prefix@.len() as int, candidate(prefix@, j).len() as int));
                    assert(decimal(k) =~= name@.subrange(prefix@.len() as int, name@.len() as int));
                    lemma_decimal_injective(j, k);
                }
                assert(!visited.contains(name@));
                visited = visited.insert(name@);
                vstd::set_lib::lemma_len_subset(visited, self.used@);
            }
        }
    }
}

/// A generator can make `k` more names without its counter overflowing.
pub open spec fn budget_ok(g: FreshNameGen, k: nat) -> bool {
    g.counter + k * (g.used.names.len() + k) + k < u64::MAX
}

/// One name made leaves budget for one fewer.
pub proof fn lemma_budget_step(g: FreshNameGen, g2: FreshNameGen, k: nat)
    requires
        budget_ok(g, k + 1),
        g2.counter <= g.counter + g.used.names.len() + 1,
        g2.used.names.len() == g.used.names.len() + 1,
    ensures
        budget_ok(g2, k),
        g.counter + g.used.names.len() < u64::MAX,
{
    let n = g.used.names.len() as int;
    assert((k + 1) * (n + k + 1) == k * (n + 1 + k) + n + k + 1) by (nonlinear_arith);
}

/// A budget for `k` names covers fewer names.
pub proof fn lemma_budget_mono(g: FreshNameGen, k: nat, k2: nat)
    requires
        budget_ok(g, k),
        k2 <= k,
    ensures
        budget_ok(g, k2),
{
    let n = g.used.names.len() as int;
    assert(k2 * (n + k2) <= k * (n + k)) by (nonlinear_arith)
        requires
            0 <= k2 <= k,
            0 <= n,
    ;
}

/// A fresh generator over at most `n` names can make `k` names when
/// `n + k` fits in 31 bits.
pub proof fn lemma_budget_start(g: FreshNameGen, n: nat, k: nat)
    requires
        g.counter == 1,
        g.used.names.len() <= n,
        n + k <= 0x8000_0000,
    ensures
        budget_ok(g, k),
{
    let m = g.used.names.len() as int;
    assert(k * (m + k) <= 0x8000_0000 * 0x8000_0000) by (nonlinear_arith)
        requires
            0 <= m,
            0 <= k,
            m + k <= 0x8000_0000,
    ;
}


/// Different counter values give different candidates.
proof fn lemma_candidate_injective(prefix: Seq<char>, a: nat, b: nat)
    requires
        candidate(prefix, a) == candidate(prefix, b),
    ensures
        a == b,
{
    let ca = candidate(prefix, a);
    assert(ca.subrange(prefix.len() as int, ca.len() as int) =~= decimal(a));
    assert(candidate(prefix, b).subrange(prefix.len() as int, ca.len() as int) =~= decimal(b));
    lemma_decimal_injective(a, b);
}

/// A finite set of names misses some candidate from `start` on.
proof fn lemma_some_candidate_free(used: Set<Seq<char>>, prefix: Seq<char>, start: nat) -> (k: nat)
    requires
        used.finite(),
    ensures
        start <= k,
        !used.contains(candidate(prefix, k)),
    decreases used.len(),
{
    if !used.contains(candidate(prefix, start)) {
        start
    } else {
        let k = lemma_some_candidate_free(used.remove(candidate(prefix, start)), prefix, start + 1);
        if candidate(prefix, k) == candidate(prefix, start) {
            lemma_candidate_injective(prefix, k, start);
        }
        k
    }
}

/// Below a free candidate there is a first one.
proof fn lemma_first_candidate_free(used: Set<Seq<char>>, prefix: Seq<char>, start: nat, k0: nat)
    requires
        start <= k0,
        !used.contains(candidate(prefix, k0)),
    ensures
        exists|k: nat|
            start <= k && !used.contains(candidate(prefix, k)) && forall|j: nat|
                start <= j < k ==> used.contains(#[trigger] candidate(prefix, j)),
    decreases k0 - start,
{
    if !used.contains(candidate(prefix, start)) {
        assert(forall|j: nat| start <= j < start ==> used.contains(#[trigger] candidate(prefix, j)));
    } else {
        lemma_first_candidate_free(used, prefix, start + 1, k0);
        let k = choose|k: nat|
            start + 1 <= k && !used.contains(candidate(prefix, k)) && forall|j: nat|
                start + 1 <= j < k ==> used.contains(#[trigger] candidate(prefix, j));
        assert(forall|j: nat| start <= j < k ==> used.contains(#[trigger] candidate(prefix, j)));
    }
}

/// One step of the generator over a finite set of names gives a name not
/// in it and adds that name.
pub proof fn lemma_gen_step_fresh(g: GenV, prefix: Seq<char>)
    requires
        g.used.finite(),
    ensures
        !g.used.contains(gen_step(g, prefix).0),
        gen_step(g, prefix).1.used == g.used.insert(gen_step(g, prefix).0),
{
    let k0 = lemma_some_candidate_free(g.used, prefix, g.counter);
    lemma_first_candidate_free(g.used, prefix, g.counter, k0);
}

/// Steps of the generator with the prefixes `ps` in turn: the names and
/// the final state.
pub open spec fn gen_run_prefixes(g: GenV, ps: Seq<Seq<char>>) -> (Seq<Seq<char>>, GenV)
    decreases ps.len(),
{
    if ps.len() == 0 {
        (Seq::empty(), g)
    } else {
        let (names, g1) = gen_run_prefixes(g, ps.drop_last());
        let (n, g2) = gen_step(g1, ps.last());
        (names.push(n), g2)
    }
}

/// Successive fresh names, whatever their prefixes, differ from each other
/// and from the names that were in use, and each is in use afterwards.
pub proof fn law_fresh_names_distinct(g: GenV, ps: Seq<Seq<char>>)
    requires
        g.used.finite(),
    ensures
        gen_run_prefixes(g, ps).0.len() == ps.len(),
        forall|i: int, j: int|
            0 <= i < j < ps.len() ==> gen_run_prefixes(g, ps).0[i] != gen_run_prefixes(g, ps).0[j],
        forall|i: int| 0 <= i < ps.len() ==> !g.used.contains(#[trigger] gen_run_prefixes(g, ps).0[i]),
        gen_run_prefixes(g, ps).1.used == g.used + gen_run_prefixes(g, ps).0.to_set(),
        gen_run_prefixes(g, ps).1.used.finite(),
    decreases ps.len(),
{
    let m = ps.len() as int;
    if m == 0 {
        assert(g.used + Seq::<Seq<char>>::empty().to_set() =~= g.used);
    } else {
        law_fresh_names_distinct(g, ps.drop_last());
        let (names, g1) = gen_run_prefixes(g, ps.drop_last());
        lemma_gen_step_fresh(g1, ps.last());
        let (n, g2) = gen_step(g1, ps.last());
        assert forall|y: Seq<char>| names.push(n).to_set().contains(y) == names.to_set().insert(n).contains(y) by {
            lemma_push_contains(names, n, y);
        }
        assert(names.push(n).to_set() =~= names.to_set().insert(n));
        assert(g2.used =~= g.used + names.push(n).to_set());
        assert forall|i: int| 0 <= i < m - 1 implies names[i] != n by {
            assert(names.to_set().contains(names[i]));
        }
        assert(names.push(n)[m - 1] == n);
        assert forall|i: int, j: int| 0 <= i < j < m implies names.push(n)[i] != names.push(n)[j] by {
            if j == m - 1 {
                assert(names.to_set().contains(names[i]));
            }
        }
    }
}

} // verus!
