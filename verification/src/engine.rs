//! A monotone rule engine.
//!
//! Feature activation is a fixpoint over a finite implication system: a
//! state records which packages are present and which features each one
//! has, and every wiring fact of the graph (a non-optional edge, a
//! feature implication, a weak activation) becomes a rule with at most
//! two premises.  Applying one full pass over the rules is a *round*;
//! the engine runs one round more than there are rules, which provably
//! reaches the fixpoint.  The state only ever grows, so activation
//! never backtracks.

use vstd::prelude::*;

verus! {

/// One atomic fact about the activation state.
#[derive(Clone, Copy, Debug, PartialEq, Eq, Structural, Hash)]
pub enum Cond {
    /// The package at this index of the resolved graph is present.
    Present(usize),
    /// The package at this index has this feature activated.
    Feat(usize, u64),
}

/// One implication: when every premise holds, the conclusion is added.
#[derive(Clone, Copy, Debug, PartialEq, Eq, Structural, Hash)]
pub struct Rule {
    pub prem_a: Option<Cond>,
    pub prem_b: Option<Cond>,
    pub conclusion: Cond,
}

/// The executable activation state, indexed by resolved-package index.
pub struct State {
    pub present: Vec<bool>,
    /// Activated feature names per package, in activation order, distinct.
    pub feats: Vec<Vec<u64>>,
}

/// The mathematical model of a state.
#[verifier::ext_equal]
pub struct StateModel {
    pub present: Seq<bool>,
    pub feats: Seq<Seq<u64>>,
}

impl View for State {
    type V = StateModel;

    open spec fn view(&self) -> StateModel {
        StateModel {
            present: self.present@.map_values(|b: bool| b),
            feats: self.feats@.map_values(|v: Vec<u64>| v@),
        }
    }
}

pub open spec fn m_holds(m: StateModel, c: Cond) -> bool {
    match c {
        Cond::Present(i) => (i as int) < m.present.len() && m.present[i as int],
        Cond::Feat(i, f) => (i as int) < m.feats.len() && m.feats[i as int].contains(f),
    }
}

/// Adding a fact: out-of-range facts and facts already recorded change
/// nothing; insertion is idempotent.
pub open spec fn m_add(m: StateModel, c: Cond) -> StateModel {
    match c {
        Cond::Present(i) => if (i as int) < m.present.len() {
            StateModel { present: m.present.update(i as int, true), feats: m.feats }
        } else {
            m
        },
        Cond::Feat(i, f) => if (i as int) < m.feats.len() {
            if m.feats[i as int].contains(f) {
                m
            } else {
                StateModel {
                    present: m.present,
                    feats: m.feats.update(i as int, m.feats[i as int].push(f)),
                }
            }
        } else {
            m
        },
    }
}

pub open spec fn m_prems_hold(m: StateModel, r: Rule) -> bool {
    &&& (r.prem_a is Some ==> m_holds(m, r.prem_a->0))
    &&& (r.prem_b is Some ==> m_holds(m, r.prem_b->0))
}

pub open spec fn m_rule_step(m: StateModel, r: Rule) -> StateModel {
    if m_prems_hold(m, r) {
        m_add(m, r.conclusion)
    } else {
        m
    }
}

/// One round applies the first `i` rules in order.
pub open spec fn m_round_upto(m: StateModel, rules: Seq<Rule>, i: int) -> StateModel
    decreases i,
{
    if i <= 0 || i > rules.len() {
        m
    } else {
        m_rule_step(m_round_upto(m, rules, i - 1), rules[i - 1])
    }
}

pub open spec fn m_round(m: StateModel, rules: Seq<Rule>) -> StateModel {
    m_round_upto(m, rules, rules.len() as int)
}

/// `n` rounds from `m`.
pub open spec fn m_iter(m: StateModel, rules: Seq<Rule>, n: nat) -> StateModel
    decreases n,
{
    if n == 0 {
        m
    } else {
        m_round(m_iter(m, rules, (n - 1) as nat), rules)
    }
}

/// State ordering: same shape, and every fact of the smaller state holds
/// in the larger one.
pub open spec fn m_le(a: StateModel, b: StateModel) -> bool {
    &&& a.present.len() == b.present.len()
    &&& a.feats.len() == b.feats.len()
    &&& forall|c: Cond| #[trigger] m_holds(a, c) ==> m_holds(b, c)
}

pub proof fn lemma_push_contains(s: Seq<u64>, f: u64, g: u64)
    ensures
        s.contains(g) ==> s.push(f).contains(g),
        s.push(f).contains(g) ==> s.contains(g) || g == f,
        s.push(f).contains(f),
{
    if s.contains(g) {
        let k = choose|k: int| 0 <= k < s.len() && s[k] == g;
        assert(s.push(f)[k] == g);
    }
    if s.push(f).contains(g) {
        let k = choose|k: int| 0 <= k < s.push(f).len() && s.push(f)[k] == g;
        if k < s.len() {
            assert(s[k] == g);
        }
    }
    assert(s.push(f)[s.len() as int] == f);
}

/// Insertion only grows the state, and records the added fact when it is
/// in range.
pub proof fn lemma_add_le(m: StateModel, c: Cond)
    ensures
        m_le(m, m_add(m, c)),
        match c {
            Cond::Present(i) => (i as int) < m.present.len() ==> m_holds(m_add(m, c), c),
            Cond::Feat(i, f) => (i as int) < m.feats.len() ==> m_holds(m_add(m, c), c),
        },
{
    let m2 = m_add(m, c);
    assert forall|d: Cond| #[trigger] m_holds(m, d) implies m_holds(m2, d) by {
        match c {
            Cond::Present(i) => {},
            Cond::Feat(i, f) => {
                match d {
                    Cond::Present(_) => {},
                    Cond::Feat(j, g) => {
                        if (i as int) < m.feats.len() && j == i {
                            lemma_push_contains(m.feats[i as int], f, g);
                        }
                    },
                }
            },
        }
    }
    match c {
        Cond::Present(i) => {},
        Cond::Feat(i, f) => {
            if (i as int) < m.feats.len() {
                lemma_push_contains(m.feats[i as int], f, f);
            }
        },
    }
}

/// A fact other than the one inserted is untouched by the insertion.
pub proof fn lemma_add_other(m: StateModel, c: Cond, d: Cond)
    requires
        c != d,
    ensures
        m_holds(m_add(m, c), d) == m_holds(m, d),
{
    match c {
        Cond::Present(i) => {},
        Cond::Feat(i, f) => {
            match d {
                Cond::Present(_) => {},
                Cond::Feat(j, g) => {
                    if (i as int) < m.feats.len() && j == i {
                        lemma_push_contains(m.feats[i as int], f, g);
                    }
                },
            }
        },
    }
}

pub proof fn lemma_le_trans(a: StateModel, b: StateModel, c: StateModel)
    requires
        m_le(a, b),
        m_le(b, c),
    ensures
        m_le(a, c),
{
}

pub proof fn lemma_step_le(m: StateModel, r: Rule)
    ensures
        m_le(m, m_rule_step(m, r)),
{
    lemma_add_le(m, r.conclusion);
    assert(m_le(m, m));
}

/// A partial round only grows the state.
pub proof fn lemma_round_upto_le(m: StateModel, rules: Seq<Rule>, i: int)
    ensures
        m_le(m, m_round_upto(m, rules, i)),
    decreases i,
{
    if i <= 0 || i > rules.len() {
        assert(m_le(m, m));
    } else {
        lemma_round_upto_le(m, rules, i - 1);
        lemma_step_le(m_round_upto(m, rules, i - 1), rules[i - 1]);
        lemma_le_trans(m, m_round_upto(m, rules, i - 1), m_round_upto(m, rules, i));
    }
}

pub proof fn lemma_round_upto_le_between(m: StateModel, rules: Seq<Rule>, i: int, j: int)
    requires
        i <= j,
        j <= rules.len(),
    ensures
        m_le(m_round_upto(m, rules, i), m_round_upto(m, rules, j)),
    decreases j - i,
{
    if i <= 0 {
        assert(m_round_upto(m, rules, i) == m);
        lemma_round_upto_le(m, rules, j);
    } else if i == j {
        lemma_round_upto_le(m_round_upto(m, rules, i), rules, 0);
    } else {
        lemma_round_upto_le_between(m, rules, i, j - 1);
        lemma_step_le(m_round_upto(m, rules, j - 1), rules[j - 1]);
        lemma_le_trans(
            m_round_upto(m, rules, i),
            m_round_upto(m, rules, j - 1),
            m_round_upto(m, rules, j),
        );
    }
}

pub proof fn lemma_round_le(m: StateModel, rules: Seq<Rule>)
    ensures
        m_le(m, m_round(m, rules)),
{
    lemma_round_upto_le(m, rules, rules.len() as int);
}

/// Activation is monotone: across rounds the state only grows, so a fact
/// once recorded is never lost.
pub proof fn lemma_iter_le(m: StateModel, rules: Seq<Rule>, i: nat, j: nat)
    requires
        i <= j,
    ensures
        m_le(m_iter(m, rules, i), m_iter(m, rules, j)),
    decreases j,
{
    if i == j {
        lemma_round_upto_le(m_iter(m, rules, i), rules, 0);
    } else {
        lemma_iter_le(m, rules, i, (j - 1) as nat);
        lemma_round_le(m_iter(m, rules, (j - 1) as nat), rules);
        lemma_le_trans(m_iter(m, rules, i), m_iter(m, rules, (j - 1) as nat), m_iter(m, rules, j));
    }
}

/// A state a round leaves unchanged is left unchanged by every further
/// round.
pub proof fn lemma_stable(m: StateModel, rules: Seq<Rule>, n: nat)
    requires
        m_round(m, rules) == m,
    ensures
        m_iter(m, rules, n) == m,
    decreases n,
{
    if n > 0 {
        lemma_stable(m, rules, (n - 1) as nat);
    }
}

/// A fixpoint is closed under every rule: when the premises of a rule
/// hold of it, so does the conclusion.
pub proof fn lemma_fix_closed(m: StateModel, rules: Seq<Rule>, k: int)
    requires
        m_round(m, rules) == m,
        0 <= k < rules.len(),
        m_prems_hold(m, rules[k]),
        match rules[k].conclusion {
            Cond::Present(i) => (i as int) < m.present.len(),
            Cond::Feat(i, f) => (i as int) < m.feats.len(),
        },
    ensures
        m_holds(m, rules[k].conclusion),
{
    let pre = m_round_upto(m, rules, k);
    lemma_round_upto_le(m, rules, k);
    let post = m_round_upto(m, rules, k + 1);
    assert(post == m_rule_step(pre, rules[k]));
    assert(m_prems_hold(pre, rules[k])) by {
        if rules[k].prem_a is Some {
            assert(m_holds(m, rules[k].prem_a->0));
        }
        if rules[k].prem_b is Some {
            assert(m_holds(m, rules[k].prem_b->0));
        }
    }
    assert(post == m_add(pre, rules[k].conclusion));
    lemma_add_le(pre, rules[k].conclusion);
    assert(m_holds(post, rules[k].conclusion));
    lemma_round_upto_le_between(m, rules, k + 1, rules.len() as int);
    assert(m_le(post, m_round(m, rules)));
}

pub open spec fn no_rule_concludes(rules: Seq<Rule>, c: Cond) -> bool {
    forall|k: int| 0 <= k < rules.len() ==> (#[trigger] rules[k]).conclusion != c
}

pub proof fn lemma_no_conclusion_step(m: StateModel, r: Rule, c: Cond)
    requires
        r.conclusion != c,
        !m_holds(m, c),
    ensures
        !m_holds(m_rule_step(m, r), c),
{
    if m_prems_hold(m, r) {
        lemma_add_other(m, r.conclusion, c);
    }
}

pub proof fn lemma_no_conclusion_upto(m: StateModel, rules: Seq<Rule>, c: Cond, i: int)
    requires
        no_rule_concludes(rules, c),
        !m_holds(m, c),
    ensures
        !m_holds(m_round_upto(m, rules, i), c),
    decreases i,
{
    if 0 < i <= rules.len() {
        lemma_no_conclusion_upto(m, rules, c, i - 1);
        lemma_no_conclusion_step(m_round_upto(m, rules, i - 1), rules[i - 1], c);
    }
}

/// A fact no rule concludes can never appear: in particular, a package
/// no rule makes present never becomes present.
pub proof fn lemma_no_conclusion_iter(m: StateModel, rules: Seq<Rule>, c: Cond, n: nat)
    requires
        no_rule_concludes(rules, c),
        !m_holds(m, c),
    ensures
        !m_holds(m_iter(m, rules, n), c),
    decreases n,
{
    if n > 0 {
        lemma_no_conclusion_iter(m, rules, c, (n - 1) as nat);
        lemma_no_conclusion_upto(
            m_iter(m, rules, (n - 1) as nat),
            rules,
            c,
            rules.len() as int,
        );
    }
}

/// A fact already recorded is recorded idempotently.
pub proof fn lemma_add_identity(m: StateModel, c: Cond)
    requires
        m_holds(m, c),
    ensures
        m_add(m, c) == m,
{
    match c {
        Cond::Present(i) => {
            assert(m.present.update(i as int, true) =~= m.present);
            assert(m_add(m, c) =~= m);
        },
        Cond::Feat(i, f) => {},
    }
}

/// A state no single rule step can grow.
pub open spec fn m_capped(cap: StateModel, rules: Seq<Rule>) -> bool {
    forall|k: int| 0 <= k < rules.len() ==> m_le(#[trigger] m_rule_step(cap, rules[k]), cap)
}

/// A fixpoint of the round is capped: no rule grows it.
pub proof fn lemma_fixpoint_capped(cap: StateModel, rules: Seq<Rule>)
    requires
        m_round(cap, rules) == cap,
    ensures
        m_capped(cap, rules),
{
    assert forall|k: int| 0 <= k < rules.len() implies m_le(
        #[trigger] m_rule_step(cap, rules[k]),
        cap,
    ) by {
        if m_prems_hold(cap, rules[k]) {
            let in_bounds = match rules[k].conclusion {
                Cond::Present(i) => (i as int) < cap.present.len(),
                Cond::Feat(i, f) => (i as int) < cap.feats.len(),
            };
            if in_bounds {
                lemma_fix_closed(cap, rules, k);
                lemma_add_identity(cap, rules[k].conclusion);
            }
            assert(m_rule_step(cap, rules[k]) == cap);
        }
        assert(m_le(cap, cap));
    }
}

proof fn lemma_round_upto_below(m: StateModel, rules: Seq<Rule>, cap: StateModel, i: int)
    requires
        m_le(m, cap),
        m_capped(cap, rules),
    ensures
        m_le(m_round_upto(m, rules, i), cap),
    decreases i,
{
    if 0 < i <= rules.len() {
        lemma_round_upto_below(m, rules, cap, i - 1);
        let cur = m_round_upto(m, rules, i - 1);
        let r = rules[i - 1];
        if m_prems_hold(cur, r) {
            assert(m_prems_hold(cap, r)) by {
                if r.prem_a is Some {
                    assert(m_holds(cur, r.prem_a->0));
                }
                if r.prem_b is Some {
                    assert(m_holds(cur, r.prem_b->0));
                }
            }
            assert(m_le(m_rule_step(cap, rules[i - 1]), cap));
            assert(m_rule_step(cap, rules[i - 1]) == m_add(cap, r.conclusion));
            let c = r.conclusion;
            assert forall|d: Cond| #[trigger] m_holds(m_add(cur, c), d) implies m_holds(
                cap,
                d,
            ) by {
                if d == c {
                    let in_bounds = match c {
                        Cond::Present(i2) => (i2 as int) < cur.present.len(),
                        Cond::Feat(i2, f2) => (i2 as int) < cur.feats.len(),
                    };
                    if in_bounds {
                        lemma_add_le(cap, c);
                        assert(m_holds(m_add(cap, c), c));
                    } else {
                        assert(m_add(cur, c) == cur);
                    }
                } else {
                    lemma_add_other(cur, c, d);
                }
            }
            lemma_add_le(cur, c);
        }
    }
}

/// The least-fixpoint principle: any state that contains the start and
/// that no rule can grow bounds the whole iteration.  What the engine
/// activates is exactly what the rules force from the start, nothing
/// more.
pub proof fn lemma_iter_below_capped(m: StateModel, rules: Seq<Rule>, cap: StateModel, n: nat)
    requires
        m_le(m, cap),
        m_capped(cap, rules),
    ensures
        m_le(m_iter(m, rules, n), cap),
    decreases n,
{
    if n == 0 {
        assert(m_le(m_iter(m, rules, 0), cap));
    } else {
        lemma_iter_below_capped(m, rules, cap, (n - 1) as nat);
        lemma_round_upto_below(m_iter(m, rules, (n - 1) as nat), rules, cap, rules.len() as int);
    }
}

/// A rule list embedded in a larger one activates no more: every fact
/// of the smaller system's fixpoint holds in the larger system's.
pub proof fn lemma_included_monotone(m: StateModel, r1: Seq<Rule>, r2: Seq<Rule>, n: nat)
    requires
        forall|k: int| 0 <= k < r1.len() ==> r2.contains(#[trigger] r1[k]),
    ensures
        m_le(m_iter(m, r1, n), m_iter(m, r2, (r2.len() + 1) as nat)),
{
    let cap = m_iter(m, r2, (r2.len() + 1) as nat);
    lemma_fixpoint_reached(m, r2);
    lemma_fixpoint_capped(cap, r2);
    assert(m_capped(cap, r1)) by {
        assert forall|k: int| 0 <= k < r1.len() implies m_le(
            #[trigger] m_rule_step(cap, r1[k]),
            cap,
        ) by {
            let j = choose|j: int| 0 <= j < r2.len() && r2[j] == r1[k];
            assert(m_le(m_rule_step(cap, r2[j]), cap));
        }
    }
    lemma_iter_le(m, r2, 0, (r2.len() + 1) as nat);
    lemma_iter_below_capped(m, r1, cap, n);
}

/// How many rule slots have their conclusion already recorded.
pub open spec fn ccount(m: StateModel, rules: Seq<Rule>, k: int) -> int
    decreases k,
{
    if k <= 0 || k > rules.len() {
        0
    } else {
        ccount(m, rules, k - 1) + if m_holds(m, rules[k - 1].conclusion) {
            1int
        } else {
            0int
        }
    }
}

proof fn lemma_ccount_bounds(m: StateModel, rules: Seq<Rule>, k: int)
    requires
        0 <= k <= rules.len(),
    ensures
        0 <= ccount(m, rules, k) <= k,
    decreases k,
{
    if k > 0 {
        lemma_ccount_bounds(m, rules, k - 1);
    }
}

proof fn lemma_ccount_strict(a: StateModel, b: StateModel, rules: Seq<Rule>, k: int, i: int)
    requires
        m_le(a, b),
        0 <= k < i <= rules.len(),
        !m_holds(a, rules[k].conclusion),
        m_holds(b, rules[k].conclusion),
    ensures
        ccount(b, rules, i) >= ccount(a, rules, i) + 1,
    decreases i,
{
    if k == i - 1 {
        lemma_ccount_mono(a, b, rules, i - 1);
    } else {
        lemma_ccount_strict(a, b, rules, k, i - 1);
    }
}

proof fn lemma_ccount_mono(a: StateModel, b: StateModel, rules: Seq<Rule>, i: int)
    requires
        m_le(a, b),
        0 <= i <= rules.len(),
    ensures
        ccount(a, rules, i) <= ccount(b, rules, i),
    decreases i,
{
    if i > 0 {
        lemma_ccount_mono(a, b, rules, i - 1);
    }
}

/// An insertion that changes the state records a fact it lacked.
proof fn lemma_add_changed(m: StateModel, c: Cond)
    ensures
        m_add(m, c) != m ==> !m_holds(m, c) && m_holds(m_add(m, c), c),
{
    if m_holds(m, c) {
        match c {
            Cond::Present(i) => {
                assert(m.present.update(i as int, true) =~= m.present);
                assert(m_add(m, c) =~= m);
            },
            Cond::Feat(i, f) => {},
        }
    } else {
        lemma_add_le(m, c);
        match c {
            Cond::Present(i) => {},
            Cond::Feat(i, f) => {},
        }
    }
}

/// A round that changes the state records some rule's conclusion that
/// the state lacked.
proof fn lemma_round_changed(m: StateModel, rules: Seq<Rule>, i: int)
    requires
        0 <= i <= rules.len(),
        m_round_upto(m, rules, i) != m,
    ensures
        exists|k: int|
            0 <= k < i && !m_holds(m, (#[trigger] rules[k]).conclusion) && m_holds(
                m_round_upto(m, rules, i),
                rules[k].conclusion,
            ),
    decreases i,
{
    let pre = m_round_upto(m, rules, i - 1);
    if pre != m {
        lemma_round_changed(m, rules, i - 1);
        let k = choose|k: int|
            0 <= k < i - 1 && !m_holds(m, (#[trigger] rules[k]).conclusion) && m_holds(
                pre,
                rules[k].conclusion,
            );
        lemma_step_le(pre, rules[i - 1]);
        assert(m_holds(m_round_upto(m, rules, i), rules[k].conclusion));
    } else {
        assert(m_round_upto(m, rules, i) == m_rule_step(m, rules[i - 1]));
        assert(m_add(m, rules[i - 1].conclusion) != m);
        lemma_add_changed(m, rules[i - 1].conclusion);
        assert(!m_holds(m, rules[i - 1].conclusion) && m_holds(
            m_round_upto(m, rules, i),
            rules[i - 1].conclusion,
        ));
    }
}

/// After each round either the fixpoint stands or the count of recorded
/// conclusions has grown with the round number.
proof fn lemma_fix_or_count(m: StateModel, rules: Seq<Rule>, j: nat)
    ensures
        m_round(m_iter(m, rules, j), rules) == m_iter(m, rules, j) || ccount(
            m_iter(m, rules, j),
            rules,
            rules.len() as int,
        ) >= j,
    decreases j,
{
    if j == 0 {
        lemma_ccount_bounds(m, rules, rules.len() as int);
    } else {
        lemma_fix_or_count(m, rules, (j - 1) as nat);
        let mp = m_iter(m, rules, (j - 1) as nat);
        let mj = m_iter(m, rules, j);
        assert(mj == m_round(mp, rules));
        if m_round(mp, rules) == mp {
            assert(mj == mp);
        } else {
            assert(ccount(mp, rules, rules.len() as int) >= j - 1);
            lemma_round_changed(mp, rules, rules.len() as int);
            let k = choose|k: int|
                0 <= k < rules.len() && !m_holds(mp, (#[trigger] rules[k]).conclusion)
                    && m_holds(mj, rules[k].conclusion);
            lemma_round_upto_le(mp, rules, rules.len() as int);
            lemma_ccount_strict(mp, mj, rules, k, rules.len() as int);
        }
    }
}

/// The token space is finite and insertion is monotone, so one round
/// more than there are rules reaches the fixpoint.
pub proof fn lemma_fixpoint_reached(m: StateModel, rules: Seq<Rule>)
    ensures
        m_round(m_iter(m, rules, (rules.len() + 1) as nat), rules) == m_iter(
            m,
            rules,
            (rules.len() + 1) as nat,
        ),
{
    lemma_fix_or_count(m, rules, (rules.len() + 1) as nat);
    lemma_ccount_bounds(
        m_iter(m, rules, (rules.len() + 1) as nat),
        rules,
        rules.len() as int,
    );
}

impl State {
    /// The empty state over `n` packages, with only the root present.
    pub fn init(n: usize, root: usize) -> (s: State)
        requires
            root < n,
        ensures
            s@.present.len() == n,
            s@.feats.len() == n,
            forall|i: int| 0 <= i < n ==> s@.present[i] == (i == root),
            forall|i: int| 0 <= i < n ==> s@.feats[i] =~= Seq::<u64>::empty(),
    {
        let mut present: Vec<bool> = Vec::new();
        let mut feats: Vec<Vec<u64>> = Vec::new();
        let mut i: usize = 0;
        while i < n
            invariant
                i <= n,
                root < n,
                present@.len() == i,
                feats@.len() == i,
                forall|j: int| 0 <= j < i ==> present@[j] == (j == root),
                forall|j: int| 0 <= j < i ==> feats@[j]@ =~= Seq::<u64>::empty(),
            decreases n - i,
        {
            present.push(i == root);
            feats.push(Vec::new());
            i += 1;
        }
        State { present, feats }
    }
}

pub fn vec_contains_u64(v: &Vec<u64>, f: u64) -> (r: bool)
    ensures
        r == v@.contains(f),
{
    let mut k: usize = 0;
    while k < v.len()
        invariant
            k <= v@.len(),
            forall|j: int| 0 <= j < k ==> v@[j] != f,
        decreases v@.len() - k,
    {
        if v[k] == f {
            return true;
        }
        k += 1;
    }
    false
}

pub fn cond_holds(s: &State, c: Cond) -> (r: bool)
    ensures
        r == m_holds(s@, c),
{
    match c {
        Cond::Present(i) => i < s.present.len() && s.present[i],
        Cond::Feat(i, f) => i < s.feats.len() && vec_contains_u64(&s.feats[i], f),
    }
}

pub fn state_add(s: &mut State, c: Cond)
    ensures
        (*final(s))@ == m_add(old(s)@, c),
{
    match c {
        Cond::Present(i) => {
            if i < s.present.len() {
                s.present[i] = true;
                assert((*s)@ =~= m_add(old(s)@, c));
            } else {
                assert((*s)@ =~= m_add(old(s)@, c));
            }
        },
        Cond::Feat(i, f) => {
            if i < s.feats.len() {
                if !vec_contains_u64(&s.feats[i], f) {
                    s.feats[i].push(f);
                    assert((*s)@ =~= m_add(old(s)@, c));
                } else {
                    assert((*s)@ =~= m_add(old(s)@, c));
                }
            } else {
                assert((*s)@ =~= m_add(old(s)@, c));
            }
        },
    }
}

/// One full pass over the rules.
pub fn apply_round(rules: &Vec<Rule>, s: &mut State)
    ensures
        (*final(s))@ == m_round(old(s)@, rules@),
{
    let ghost m0 = s@;
    let mut k: usize = 0;
    while k < rules.len()
        invariant
            k <= rules@.len(),
            s@ == m_round_upto(m0, rules@, k as int),
        decreases rules@.len() - k,
    {
        let r = rules[k];
        let fire_a = match r.prem_a {
            Some(c) => cond_holds(s, c),
            None => true,
        };
        let fire_b = match r.prem_b {
            Some(c) => cond_holds(s, c),
            None => true,
        };
        if fire_a && fire_b {
            state_add(s, r.conclusion);
        }
        assert(s@ == m_round_upto(m0, rules@, k + 1));
        k += 1;
    }
}

/// Runs exactly `n` rounds.
pub fn run_rounds(rules: &Vec<Rule>, s: &mut State, n: usize)
    ensures
        (*final(s))@ == m_iter(old(s)@, rules@, n as nat),
{
    let ghost m0 = s@;
    let mut r: usize = 0;
    while r < n
        invariant
            r <= n,
            s@ == m_iter(m0, rules@, r as nat),
        decreases n - r,
    {
        apply_round(rules, s);
        assert(s@ == m_iter(m0, rules@, (r + 1) as nat));
        r += 1;
    }
}

} // verus!
