use vstd::prelude::*;
use std::string::FromUtf8Error;

verus! {

/// Symbols at or above this value refer to rules; those below are terminal bytes.
pub const RULE_OFFSET: usize = 256;

pub open spec fn is_nt(s: usize) -> bool {
    s >= 256
}

/// The rule index a nonterminal symbol refers to.
pub open spec fn target(s: usize) -> int {
    s - 256
}

/// Every nonterminal symbol refers to an existing rule.
pub open spec fn refs_valid(rules: Seq<Seq<usize>>) -> bool {
    forall|i: int, k: int|
        0 <= i < rules.len() && 0 <= k < rules[i].len() && is_nt(#[trigger] rules[i][k])
            ==> target(rules[i][k]) < rules.len()
}

/// Every nonterminal symbol refers to a rule of strictly smaller index.
pub open spec fn refs_ordered(rules: Seq<Seq<usize>>) -> bool {
    forall|i: int, k: int|
        0 <= i < rules.len() && 0 <= k < rules[i].len() && is_nt(#[trigger] rules[i][k])
            ==> target(rules[i][k]) < i
}

/// `rank` strictly decreases along every reference: a witness that the rules form no cycle.
pub open spec fn ranked_by(rules: Seq<Seq<usize>>, rank: Seq<nat>) -> bool {
    &&& rank.len() == rules.len()
    &&& forall|i: int, k: int|
        0 <= i < rules.len() && 0 <= k < rules[i].len() && is_nt(#[trigger] rules[i][k])
            ==> 0 <= target(rules[i][k]) < rules.len() && rank[target(rules[i][k])] < rank[i]
}

pub open spec fn acyclic(rules: Seq<Seq<usize>>) -> bool {
    exists|rank: Seq<nat>| ranked_by(rules, rank)
}

/// The largest rule count for which every nonterminal symbol fits in a `usize`.
pub const MAX_RULES: usize = usize::MAX - 512;

/// Marks a rule that the traversal has not reached.
pub const UNSEEN: usize = usize::MAX;

/// Marks a rule whose children the traversal is still visiting.
pub const ACTIVE: usize = usize::MAX - 1;

/// How many entries of `st` equal `x`.
pub open spec fn count_of(st: Seq<usize>, x: usize) -> nat
    decreases st.len(),
{
    if st.len() == 0 {
        0
    } else {
        count_of(st.drop_last(), x) + if st.last() == x { 1nat } else { 0nat }
    }
}

/// Post-order traversal from rule `id`: every unseen child is visited, in body order, before
/// `id` receives the next number. `st` maps each rule to its number (or a marker) and
/// `order` lists the numbered rules by number. `fuel` bounds the recursion.
pub open spec fn visit(
    rules: Seq<Seq<usize>>,
    id: int,
    st: Seq<usize>,
    order: Seq<usize>,
    fuel: nat,
) -> (Seq<usize>, Seq<usize>)
    decreases fuel, 1int, 0int,
{
    if 0 <= id < st.len() && id < rules.len() && st[id] == UNSEEN {
        let r = visit_body(rules, id, 0, st.update(id, ACTIVE), order, fuel);
        (r.0.update(id, r.1.len() as usize), r.1.push(id as usize))
    } else {
        (st, order)
    }
}

/// The traversal of the children of rule `id` from position `k` of its body on.
pub open spec fn visit_body(
    rules: Seq<Seq<usize>>,
    id: int,
    k: int,
    st: Seq<usize>,
    order: Seq<usize>,
    fuel: nat,
) -> (Seq<usize>, Seq<usize>)
    decreases fuel, 0int, rules[id].len() - k,
{
    if 0 <= id < rules.len() && 0 <= k < rules[id].len() {
        let s = rules[id][k];
        let next = if is_nt(s) && target(s) < st.len() && st[target(s)] == UNSEEN
            && count_of(st, UNSEEN) < fuel {
            visit(rules, target(s), st, order, count_of(st, UNSEEN))
        } else {
            (st, order)
        };
        visit_body(rules, id, k + 1, next.0, next.1, fuel)
    } else {
        (st, order)
    }
}

/// The numbering and order that the traversal from the start rule produces.
pub open spec fn traversal(rules: Seq<Seq<usize>>, start: int) -> (Seq<usize>, Seq<usize>) {
    let st0 = Seq::new(rules.len(), |i: int| UNSEEN);
    visit(rules, start, st0, Seq::empty(), count_of(st0, UNSEEN))
}

/// A rule body with each nonterminal pointed at the new number of its target.
pub open spec fn relabel(body: Seq<usize>, st: Seq<usize>) -> Seq<usize> {
    body.map_values(|s: usize| if is_nt(s) { (st[target(s)] + 256) as usize } else { s })
}

/// The rules in canonical order: the rules reachable from the start rule, numbered in
/// post-order, each with its references renumbered. Unreachable rules are dropped.
pub open spec fn canonical_rules(rules: Seq<Seq<usize>>, start: int) -> Seq<Seq<usize>> {
    let t = traversal(rules, start);
    Seq::new(t.1.len(), |n: int| relabel(rules[t.1[n] as int], t.0))
}

/// The traversal state is consistent: numbers and order agree, and each rule is unseen,
/// active or numbered.
pub open spec fn state_ok(rules: Seq<Seq<usize>>, st: Seq<usize>, order: Seq<usize>) -> bool {
    &&& st.len() == rules.len()
    &&& rules.len() < ACTIVE
    &&& order.len() + count_of(st, UNSEEN) + count_of(st, ACTIVE) == st.len()
    &&& forall|n: int| 0 <= n < order.len() ==> #[trigger] order[n] < st.len() && st[order[n] as int] == n
    &&& forall|j: int|
        0 <= j < st.len() && #[trigger] st[j] != UNSEEN && st[j] != ACTIVE ==> st[j] < order.len()
            && order[st[j] as int] == j
}

/// Every numbered rule has all its children numbered below it.
pub open spec fn closed(rules: Seq<Seq<usize>>, st: Seq<usize>, order: Seq<usize>) -> bool {
    forall|j: int, k: int|
        0 <= j < st.len() && st[j] < order.len() && 0 <= k < rules[j].len() && is_nt(
            #[trigger] rules[j][k],
        ) ==> st[target(rules[j][k])] < st[j]
}

pub proof fn lemma_count_update(st: Seq<usize>, j: int, v: usize, x: usize)
    requires
        0 <= j < st.len(),
    ensures
        count_of(st.update(j, v), x) + (if st[j] == x { 1nat } else { 0nat }) == count_of(st, x) + (
        if v == x { 1nat } else { 0nat }),
    decreases st.len(),
{
    let u = st.update(j, v);
    if j == st.len() - 1 {
        assert(u.drop_last() =~= st.drop_last());
    } else {
        assert(u.drop_last() =~= st.drop_last().update(j, v));
        lemma_count_update(st.drop_last(), j, v, x);
    }
}

pub proof fn lemma_count_all(n: nat, x: usize)
    ensures
        count_of(Seq::new(n, |i: int| x), x) == n,
    decreases n,
{
    if n > 0 {
        assert(Seq::new(n, |i: int| x).drop_last() =~= Seq::new((n - 1) as nat, |i: int| x));
        lemma_count_all((n - 1) as nat, x);
    }
}

pub proof fn lemma_count_zero(st: Seq<usize>, x: usize)
    requires
        forall|i: int| 0 <= i < st.len() ==> st[i] != x,
    ensures
        count_of(st, x) == 0,
    decreases st.len(),
{
    if st.len() > 0 {
        lemma_count_zero(st.drop_last(), x);
    }
}

pub proof fn lemma_count_pos(st: Seq<usize>, j: int, x: usize)
    requires
        0 <= j < st.len(),
        st[j] == x,
    ensures
        count_of(st, x) > 0,
    decreases st.len(),
{
    if j < st.len() - 1 {
        lemma_count_pos(st.drop_last(), j, x);
    }
}

/// The bytes that the first `k` symbols of rule `i` expand to, where every reference points
/// to an earlier rule (a reference that does not expands to nothing).
pub open spec fn expand_prefix(rules: Seq<Seq<usize>>, i: int, k: int) -> Seq<u8>
    decreases i, k,
{
    if 0 <= i < rules.len() && 0 < k <= rules[i].len() {
        let s = rules[i][k - 1];
        expand_prefix(rules, i, k - 1) + if is_nt(s) {
            if 0 <= target(s) < i {
                expand_prefix(rules, target(s), rules[target(s)].len() as int)
            } else {
                Seq::empty()
            }
        } else {
            seq![s as u8]
        }
    } else {
        Seq::empty()
    }
}

/// The bytes that rule `i` expands to.
pub open spec fn expand_rule(rules: Seq<Seq<usize>>, i: int) -> Seq<u8> {
    expand_prefix(rules, i, rules[i].len() as int)
}

/// The source string of a grammar: the expansion of the start rule of its canonical form.
pub open spec fn source_of(rules: Seq<Seq<usize>>, start: int) -> Seq<u8> {
    if rules.len() == 0 {
        Seq::empty()
    } else {
        let c = canonical_rules(rules, start);
        expand_rule(c, c.len() - 1)
    }
}

proof fn lemma_visit_body(
    rv: Seq<Seq<usize>>,
    id: int,
    k: int,
    st: Seq<usize>,
    order: Seq<usize>,
    fuel: nat,
    st1: Seq<usize>,
    rank: Seq<nat>,
)
    requires
        ranked_by(rv, rank),
        0 <= id < rv.len(),
        0 <= k <= rv[id].len(),
        state_ok(rv, st, order),
        closed(rv, st, order),
        count_of(st, UNSEEN) <= count_of(st1, UNSEEN),
        count_of(st1, UNSEEN) + 1 == fuel,
        st1.len() == rv.len(),
        st[id] == ACTIVE,
        forall|j: int| 0 <= j < rv.len() && st1[j] != UNSEEN ==> st[j] == st1[j],
        forall|j: int| 0 <= j < rv.len() && st[j] == ACTIVE ==> st1[j] == ACTIVE,
        forall|j: int| 0 <= j < rv.len() && st1[j] == ACTIVE ==> rank[j] >= rank[id],
        forall|b: int| 0 <= b < k && is_nt(#[trigger] rv[id][b]) ==> st[target(rv[id][b])] < order.len(),
    ensures
        ({
            let (st2, o2) = visit_body(rv, id, k, st, order, fuel);
            &&& state_ok(rv, st2, o2)
            &&& closed(rv, st2, o2)
            &&& count_of(st2, UNSEEN) <= count_of(st1, UNSEEN)
            &&& st2[id] == ACTIVE
            &&& o2.len() >= order.len()
            &&& forall|j: int| 0 <= j < rv.len() && st1[j] != UNSEEN ==> st2[j] == st1[j]
            &&& forall|j: int| 0 <= j < rv.len() && st2[j] == ACTIVE ==> st1[j] == ACTIVE
            &&& forall|b: int|
                0 <= b < rv[id].len() && is_nt(#[trigger] rv[id][b]) ==> st2[target(rv[id][b])]
                    < o2.len()
            &&& forall|j: int| 0 <= j < rv.len() && st[j] != UNSEEN ==> #[trigger] st2[j] == st[j]
            &&& forall|q: int| 0 <= q < order.len() ==> #[trigger] o2[q] == order[q]
        }),
    decreases fuel, 0int, rv[id].len() - k,
{
    if k < rv[id].len() {
        let s = rv[id][k];
        if is_nt(s) {
            let c = target(s);
            assert(rank[c] < rank[id]);
            if st[c] == UNSEEN {
                assert forall|j: int| 0 <= j < rv.len() && st[j] == ACTIVE implies rank[j] > rank[c] by {
                    assert(st1[j] == ACTIVE);
                }
                lemma_visit(rv, c, st, order, rank);
                let (st_n, o_n) = visit(rv, c, st, order, count_of(st, UNSEEN));
                assert forall|b: int|
                    0 <= b < k + 1 && is_nt(#[trigger] rv[id][b]) implies st_n[target(rv[id][b])]
                    < o_n.len() by {
                    if b < k {
                        assert(st[target(rv[id][b])] < order.len());
                    }
                }
                lemma_visit_body(rv, id, k + 1, st_n, o_n, fuel, st1, rank);
            } else {
                if st[c] == ACTIVE {
                    assert(st1[c] == ACTIVE);
                }
                lemma_visit_body(rv, id, k + 1, st, order, fuel, st1, rank);
            }
        } else {
            lemma_visit_body(rv, id, k + 1, st, order, fuel, st1, rank);
        }
    }
}

/// What the traversal from an unseen rule achieves: a consistent, closed state in which the
/// rule is numbered, with earlier numbers kept.
proof fn lemma_visit(rv: Seq<Seq<usize>>, id: int, st: Seq<usize>, order: Seq<usize>, rank: Seq<nat>)
    requires
        state_ok(rv, st, order),
        closed(rv, st, order),
        ranked_by(rv, rank),
        0 <= id < rv.len(),
        st[id] == UNSEEN,
        forall|j: int| 0 <= j < rv.len() && st[j] == ACTIVE ==> rank[j] > rank[id],
    ensures
        ({
            let (st2, o2) = visit(rv, id, st, order, count_of(st, UNSEEN));
            &&& state_ok(rv, st2, o2)
            &&& closed(rv, st2, o2)
            &&& count_of(st2, UNSEEN) < count_of(st, UNSEEN)
            &&& st2[id] < o2.len()
            &&& o2.len() >= order.len()
            &&& forall|j: int| 0 <= j < rv.len() && st[j] != UNSEEN ==> st2[j] == st[j]
            &&& forall|j: int| 0 <= j < rv.len() && st2[j] == ACTIVE ==> st[j] == ACTIVE
            &&& st2[id] == o2.len() - 1
            &&& forall|q: int| 0 <= q < order.len() ==> #[trigger] o2[q] == order[q]
        }),
    decreases count_of(st, UNSEEN), 1int, 0int,
{
    let fuel = count_of(st, UNSEEN);
    lemma_count_update(st, id, ACTIVE, UNSEEN);
    lemma_count_update(st, id, ACTIVE, ACTIVE);
    let st1 = st.update(id, ACTIVE);
    lemma_visit_body(rv, id, 0, st1, order, fuel, st1, rank);
    let (st2, o2) = visit_body(rv, id, 0, st1, order, fuel);
    let num = o2.len() as usize;
    lemma_count_pos(st2, id, ACTIVE);
    lemma_count_update(st2, id, num, UNSEEN);
    lemma_count_update(st2, id, num, ACTIVE);
    let st3 = st2.update(id, num);
    let o3 = o2.push(id as usize);
    assert(visit(rv, id, st, order, fuel) == (st3, o3));
    assert forall|j: int, b: int|
        0 <= j < st3.len() && st3[j] < o3.len() && 0 <= b < rv[j].len() && is_nt(
            #[trigger] rv[j][b],
        ) implies st3[target(rv[j][b])] < st3[j] by {
        if j == id {
            assert(is_nt(rv[id][b]));
        } else {
            assert(st2[j] < o2.len());
        }
    }
    assert forall|j: int| 0 <= j < rv.len() && st[j] != UNSEEN implies st3[j] == st[j] by {
        assert(j != id);
        assert(st1[j] == st[j]);
    }
    assert forall|j: int| 0 <= j < rv.len() && st3[j] == ACTIVE implies st[j] == ACTIVE by {
        assert(j != id);
        assert(st2[j] == ACTIVE);
        assert(st1[j] == ACTIVE);
    }
}

/// The canonical rules of an acyclic grammar are ordered children first, are no more than the
/// input rules, and are no longer than the longest input rule.
pub proof fn lemma_canonical_rules(rules: Seq<Seq<usize>>, start: int, bound: nat)
    requires
        refs_valid(rules),
        acyclic(rules),
        0 <= start < rules.len(),
        rules.len() <= MAX_RULES,
    ensures
        ({
            let c = canonical_rules(rules, start);
            &&& 0 < c.len() <= rules.len()
            &&& refs_ordered(c)
            &&& (forall|i: int| 0 <= i < rules.len() ==> (#[trigger] rules[i]).len() <= bound)
                ==> forall|n: int| 0 <= n < c.len() ==> (#[trigger] c[n]).len() <= bound
        }),
{
    let rank = choose|rank: Seq<nat>| ranked_by(rules, rank);
    let st0 = Seq::new(rules.len(), |i: int| UNSEEN);
    lemma_count_all(rules.len(), UNSEEN);
    lemma_count_zero(st0, ACTIVE);
    lemma_visit(rules, start, st0, Seq::empty(), rank);
    let t = traversal(rules, start);
    let (st, order) = t;
    let c = canonical_rules(rules, start);
    assert forall|a: int, k: int|
        0 <= a < c.len() && 0 <= k < c[a].len() && is_nt(#[trigger] c[a][k]) implies target(c[a][k])
        < a by {
        let j = order[a] as int;
        let sym = rules[j][k];
        assert(c[a][k] == relabel(rules[j], st)[k]);
        if !is_nt(sym) {
            assert(c[a][k] == sym);
        }
        assert(is_nt(sym));
    }
    if forall|i: int| 0 <= i < rules.len() ==> (#[trigger] rules[i]).len() <= bound {
        assert forall|n: int| 0 <= n < c.len() implies (#[trigger] c[n]).len() <= bound by {
            assert(order[n] < rules.len());
        }
    }
}

/// The rules relabeled by a finished traversal, in its order.
pub open spec fn relabeled(rv: Seq<Seq<usize>>, st: Seq<usize>, order: Seq<usize>) -> Seq<Seq<usize>> {
    Seq::new(order.len(), |n: int| relabel(rv[order[n] as int], st))
}

/// The finished traversal `(stf, of)` of `rv`: consistent, closed, nothing left active.
pub open spec fn finished(rv: Seq<Seq<usize>>, stf: Seq<usize>, of: Seq<usize>) -> bool {
    &&& state_ok(rv, stf, of)
    &&& closed(rv, stf, of)
    &&& rv.len() <= MAX_RULES
    &&& forall|j: int| 0 <= j < rv.len() ==> #[trigger] stf[j] != ACTIVE
}

/// A state that the traversal passes on its way to `(stf, of)`: its numbers and order agree
/// with the finished ones.
pub open spec fn on_way(stf: Seq<usize>, of: Seq<usize>, st: Seq<usize>, o: Seq<usize>) -> bool {
    &&& forall|j: int|
        0 <= j < st.len() && #[trigger] st[j] != UNSEEN && st[j] != ACTIVE ==> st[j] == stf[j]
    &&& o.len() <= of.len()
    &&& forall|q: int| 0 <= q < o.len() ==> #[trigger] o[q] == of[q]
}

/// A traversal state of the relabeled rules mirrors one of the input rules: rule `x`
/// there stands where rule `of[x]` stands here, and `u` more rules are unseen here.
pub open spec fn mirrors(
    stf: Seq<usize>,
    of: Seq<usize>,
    st: Seq<usize>,
    o: Seq<usize>,
    stc: Seq<usize>,
    oc: Seq<usize>,
    u: nat,
) -> bool {
    &&& stc.len() == of.len()
    &&& forall|x: int| 0 <= x < of.len() ==> #[trigger] stc[x] == st[of[x] as int]
    &&& oc.len() == o.len()
    &&& forall|q: int| 0 <= q < o.len() ==> #[trigger] oc[q] == stf[o[q] as int]
    &&& count_of(st, UNSEEN) == count_of(stc, UNSEEN) + u
}

proof fn lemma_mirror_update(
    stf: Seq<usize>,
    of: Seq<usize>,
    st: Seq<usize>,
    o: Seq<usize>,
    stc: Seq<usize>,
    oc: Seq<usize>,
    u: nat,
    id: int,
    v: usize,
)
    requires
        mirrors(stf, of, st, o, stc, oc, u),
        0 <= id < st.len(),
        0 <= stf[id] < of.len(),
        of[stf[id] as int] == id,
        forall|x: int| 0 <= x < of.len() ==> #[trigger] stf[of[x] as int] == x,
        forall|x: int| 0 <= x < of.len() ==> #[trigger] of[x] < st.len(),
    ensures
        mirrors(stf, of, st.update(id, v), o, stc.update(stf[id] as int, v), oc, u),
{
    let x = stf[id] as int;
    lemma_count_update(st, id, v, UNSEEN);
    lemma_count_update(stc, x, v, UNSEEN);
    assert forall|y: int| 0 <= y < of.len() implies #[trigger] stc.update(x, v)[y] == st.update(
        id,
        v,
    )[of[y] as int] by {
        if of[y] == id {
            assert(stf[of[y] as int] == y);
        }
    }
}

proof fn lemma_sim_body(
    rv: Seq<Seq<usize>>,
    stf: Seq<usize>,
    of: Seq<usize>,
    rank: Seq<nat>,
    id: int,
    k: int,
    st: Seq<usize>,
    order: Seq<usize>,
    stc: Seq<usize>,
    oc: Seq<usize>,
    fuel: nat,
    fuelc: nat,
    st1: Seq<usize>,
    u: nat,
)
    requires
        finished(rv, stf, of),
        ranked_by(rv, rank),
        0 <= id < rv.len(),
        0 <= k <= rv[id].len(),
        state_ok(rv, st, order),
        closed(rv, st, order),
        count_of(st, UNSEEN) <= count_of(st1, UNSEEN),
        count_of(st1, UNSEEN) + 1 == fuel,
        st1.len() == rv.len(),
        st[id] == ACTIVE,
        forall|j: int| 0 <= j < rv.len() && st1[j] != UNSEEN ==> st[j] == st1[j],
        forall|j: int| 0 <= j < rv.len() && st[j] == ACTIVE ==> st1[j] == ACTIVE,
        forall|j: int| 0 <= j < rv.len() && st1[j] == ACTIVE ==> rank[j] >= rank[id],
        forall|b: int| 0 <= b < k && is_nt(#[trigger] rv[id][b]) ==> st[target(rv[id][b])] < order.len(),
        stf[id] < of.len(),
        mirrors(stf, of, st, order, stc, oc, u),
        fuel == fuelc + u,
        on_way(stf, of, visit_body(rv, id, k, st, order, fuel).0, visit_body(rv, id, k, st, order, fuel).1),
    ensures
        mirrors(
            stf,
            of,
            visit_body(rv, id, k, st, order, fuel).0,
            visit_body(rv, id, k, st, order, fuel).1,
            visit_body(relabeled(rv, stf, of), stf[id] as int, k, stc, oc, fuelc).0,
            visit_body(relabeled(rv, stf, of), stf[id] as int, k, stc, oc, fuelc).1,
            u,
        ),
    decreases fuel, 0int, rv[id].len() - k,
{
    let c = relabeled(rv, stf, of);
    let x = stf[id] as int;
    assert(of[x] == id);
    assert(c[x] == relabel(rv[id], stf));
    if k < rv[id].len() {
        let s = rv[id][k];
        let sc = c[x][k];
        if is_nt(s) {
            let t = target(s);
            assert(rank[t] < rank[id]);
            assert(stf[t] < stf[id]);
            assert(sc == (stf[t] + 256) as usize);
            assert(target(sc) == stf[t]);
            assert(of[stf[t] as int] == t);
            assert(stc[stf[t] as int] == st[t]);
            if st[t] == UNSEEN {
                assert forall|j: int| 0 <= j < rv.len() && st[j] == ACTIVE implies rank[j] > rank[t] by {
                    assert(st1[j] == ACTIVE);
                }
                lemma_visit(rv, t, st, order, rank);
                let (st_n, o_n) = visit(rv, t, st, order, count_of(st, UNSEEN));
                assert forall|b: int|
                    0 <= b < k + 1 && is_nt(#[trigger] rv[id][b]) implies st_n[target(rv[id][b])]
                    < o_n.len() by {
                    if b < k {
                        assert(st[target(rv[id][b])] < order.len());
                    }
                }
                lemma_visit_body(rv, id, k + 1, st_n, o_n, fuel, st1, rank);
                let end = visit_body(rv, id, k + 1, st_n, o_n, fuel);
                assert(end == visit_body(rv, id, k, st, order, fuel));
                assert forall|j: int|
                    0 <= j < st_n.len() && #[trigger] st_n[j] != UNSEEN && st_n[j] != ACTIVE implies st_n[j]
                    == stf[j] by {
                    assert(end.0[j] == st_n[j]);
                }
                assert forall|q: int| 0 <= q < o_n.len() implies #[trigger] o_n[q] == of[q] by {
                    assert(end.1[q] == o_n[q]);
                }
                assert(on_way(stf, of, st_n, o_n));
                lemma_sim_visit(rv, stf, of, rank, t, st, order, stc, oc, u);
                let (stc_n, oc_n) = visit(c, stf[t] as int, stc, oc, count_of(stc, UNSEEN));
                assert(visit_body(c, x, k, stc, oc, fuelc) == visit_body(c, x, k + 1, stc_n, oc_n, fuelc));
                lemma_sim_body(rv, stf, of, rank, id, k + 1, st_n, o_n, stc_n, oc_n, fuel, fuelc, st1, u);
            } else {
                if st[t] == ACTIVE {
                    assert(st1[t] == ACTIVE);
                }
                assert(visit_body(c, x, k, stc, oc, fuelc) == visit_body(c, x, k + 1, stc, oc, fuelc));
                lemma_sim_body(rv, stf, of, rank, id, k + 1, st, order, stc, oc, fuel, fuelc, st1, u);
            }
        } else {
            assert(sc == s);
            assert(visit_body(c, x, k, stc, oc, fuelc) == visit_body(c, x, k + 1, stc, oc, fuelc));
            lemma_sim_body(rv, stf, of, rank, id, k + 1, st, order, stc, oc, fuel, fuelc, st1, u);
        }
    } else {
        assert(c[x].len() == rv[id].len());
    }
}

proof fn lemma_sim_visit(
    rv: Seq<Seq<usize>>,
    stf: Seq<usize>,
    of: Seq<usize>,
    rank: Seq<nat>,
    id: int,
    st: Seq<usize>,
    order: Seq<usize>,
    stc: Seq<usize>,
    oc: Seq<usize>,
    u: nat,
)
    requires
        finished(rv, stf, of),
        ranked_by(rv, rank),
        state_ok(rv, st, order),
        closed(rv, st, order),
        0 <= id < rv.len(),
        st[id] == UNSEEN,
        forall|j: int| 0 <= j < rv.len() && st[j] == ACTIVE ==> rank[j] > rank[id],
        mirrors(stf, of, st, order, stc, oc, u),
        on_way(
            stf,
            of,
            visit(rv, id, st, order, count_of(st, UNSEEN)).0,
            visit(rv, id, st, order, count_of(st, UNSEEN)).1,
        ),
    ensures
        mirrors(
            stf,
            of,
            visit(rv, id, st, order, count_of(st, UNSEEN)).0,
            visit(rv, id, st, order, count_of(st, UNSEEN)).1,
            visit(relabeled(rv, stf, of), stf[id] as int, stc, oc, count_of(stc, UNSEEN)).0,
            visit(relabeled(rv, stf, of), stf[id] as int, stc, oc, count_of(stc, UNSEEN)).1,
            u,
        ),
    decreases count_of(st, UNSEEN), 1int, 0int,
{
    let c = relabeled(rv, stf, of);
    let fuel = count_of(st, UNSEEN);
    let fuelc = count_of(stc, UNSEEN);
    lemma_visit(rv, id, st, order, rank);
    let r = visit(rv, id, st, order, fuel);
    assert(r.0[id] != UNSEEN && r.0[id] != ACTIVE);
    assert(r.0[id] == stf[id]);
    let x = stf[id] as int;
    assert(of[x] == id);
    assert forall|y: int| 0 <= y < of.len() implies #[trigger] stf[of[y] as int] == y && of[y]
        < st.len() by {
    }
    assert(stc[x] == UNSEEN);
    lemma_count_update(st, id, ACTIVE, UNSEEN);
    lemma_count_update(st, id, ACTIVE, ACTIVE);
    let st1 = st.update(id, ACTIVE);
    let stc1 = stc.update(x, ACTIVE);
    lemma_mirror_update(stf, of, st, order, stc, oc, u, id, ACTIVE);
    let b = visit_body(rv, id, 0, st1, order, fuel);
    assert(r == (b.0.update(id, b.1.len() as usize), b.1.push(id as usize)));
    assert forall|j: int| 0 <= j < b.0.len() && #[trigger] b.0[j] != UNSEEN && b.0[j] != ACTIVE implies b.0[j] == stf[j] by {
        lemma_visit_body(rv, id, 0, st1, order, fuel, st1, rank);
        assert(j != id);
        assert(r.0[j] == b.0[j]);
    }
    assert forall|q: int| 0 <= q < b.1.len() implies #[trigger] b.1[q] == of[q] by {
        assert(r.1[q] == b.1[q]);
    }
    lemma_visit_body(rv, id, 0, st1, order, fuel, st1, rank);
    lemma_sim_body(rv, stf, of, rank, id, 0, st1, order, stc1, oc, fuel, fuelc, st1, u);
    let bc = visit_body(c, x, 0, stc1, oc, fuelc);
    assert(visit(c, x, stc, oc, fuelc) == (bc.0.update(x, bc.1.len() as usize), bc.1.push(x as usize)));
    lemma_mirror_update(stf, of, b.0, b.1, bc.0, bc.1, u, id, b.1.len() as usize);
    let oc3 = bc.1.push(x as usize);
    let o3 = b.1.push(id as usize);
    assert forall|q: int| 0 <= q < o3.len() implies #[trigger] oc3[q] == stf[o3[q] as int] by {
        if q < b.1.len() {
            assert(oc3[q] == bc.1[q]);
        }
    }
}

/// Canonicalization is idempotent: the canonical form of the canonical rules, started from
/// their last rule, is those rules again.
pub proof fn lemma_canonical_idempotent(rules: Seq<Seq<usize>>, start: int)
    requires
        refs_valid(rules),
        acyclic(rules),
        0 <= start < rules.len(),
        rules.len() <= MAX_RULES,
    ensures
        canonical_rules(canonical_rules(rules, start), canonical_rules(rules, start).len() - 1)
            == canonical_rules(rules, start),
{
    let rank = choose|rank: Seq<nat>| ranked_by(rules, rank);
    let n = rules.len();
    let st0 = Seq::new(n, |i: int| UNSEEN);
    lemma_count_all(n, UNSEEN);
    lemma_count_zero(st0, ACTIVE);
    lemma_visit(rules, start, st0, Seq::empty(), rank);
    let (stf, of) = traversal(rules, start);
    let m = of.len();
    let c = canonical_rules(rules, start);
    assert(c == relabeled(rules, stf, of));
    lemma_canonical_rules(rules, start, 0);
    assert forall|j: int| 0 <= j < rules.len() implies #[trigger] stf[j] != ACTIVE by {
        assert(st0[j] != ACTIVE);
    }
    let stc0 = Seq::new(m, |i: int| UNSEEN);
    lemma_count_all(m, UNSEEN);
    assert(m <= n);
    let u = (n - m) as nat;
    assert(on_way(stf, of, stf, of));
    lemma_sim_visit(rules, stf, of, rank, start, st0, Seq::empty(), stc0, Seq::empty(), u);
    let tc = traversal(c, c.len() - 1);
    assert(stf[start] == m - 1);
    assert(tc == visit(c, stf[start] as int, stc0, Seq::empty(), count_of(stc0, UNSEEN)));
    assert forall|a: int| 0 <= a < m implies #[trigger] tc.0[a] == a && tc.1[a] == a by {
        assert(stf[of[a] as int] == a);
    }
    assert forall|a: int| 0 <= a < m implies #[trigger] relabel(c[tc.1[a] as int], tc.0) == c[a] by {
        assert(tc.1[a] == a);
        assert forall|k: int| 0 <= k < c[a].len() implies #[trigger] relabel(c[a], tc.0)[k] == c[a][k] by {
            if is_nt(c[a][k]) {
                assert(target(c[a][k]) < a);
            }
        }
        assert(relabel(c[a], tc.0) =~= c[a]);
    }
    assert(canonical_rules(c, c.len() - 1) =~= c);
}

/// The bytes that the first `k` symbols of rule `i` derive by direct substitution, where
/// `rank` strictly decreases along every reference (a reference that breaks this derives
/// nothing).
pub open spec fn derive_prefix(rules: Seq<Seq<usize>>, rank: Seq<nat>, i: int, k: int) -> Seq<u8>
    decreases rank[i], k,
{
    if 0 <= i < rules.len() && i < rank.len() && 0 < k <= rules[i].len() {
        let s = rules[i][k - 1];
        derive_prefix(rules, rank, i, k - 1) + if is_nt(s) {
            if 0 <= target(s) < rules.len() && target(s) < rank.len() && rank[target(s)]
                < rank[i] {
                derive_prefix(rules, rank, target(s), rules[target(s)].len() as int)
            } else {
                Seq::empty()
            }
        } else {
            seq![s as u8]
        }
    } else {
        Seq::empty()
    }
}

proof fn lemma_expand_mirror(
    rules: Seq<Seq<usize>>,
    rank: Seq<nat>,
    stf: Seq<usize>,
    of: Seq<usize>,
    j: int,
    k: int,
)
    requires
        finished(rules, stf, of),
        ranked_by(rules, rank),
        0 <= j < rules.len(),
        stf[j] != UNSEEN,
        0 <= k <= rules[j].len(),
    ensures
        expand_prefix(relabeled(rules, stf, of), stf[j] as int, k) == derive_prefix(rules, rank, j, k),
    decreases rank[j], k,
{
    let c = relabeled(rules, stf, of);
    let x = stf[j] as int;
    assert(x < of.len() && of[x] == j);
    assert(c[x] == relabel(rules[j], stf));
    if k > 0 {
        lemma_expand_mirror(rules, rank, stf, of, j, k - 1);
        let s = rules[j][k - 1];
        if is_nt(s) {
            let t = target(s);
            assert(rank[t] < rank[j]);
            assert(stf[t] < stf[j]);
            assert(c[x][k - 1] == (stf[t] + 256) as usize);
            assert(of[stf[t] as int] == t);
            assert(c[stf[t] as int].len() == rules[t].len());
            lemma_expand_mirror(rules, rank, stf, of, t, rules[t].len() as int);
        } else {
            assert(c[x][k - 1] == s);
        }
    }
}

/// The string that the expander produces is the one the grammar derives by direct
/// substitution from its start rule: canonicalization does not change it.
pub proof fn lemma_source_is_derivation(rules: Seq<Seq<usize>>, start: int, rank: Seq<nat>)
    requires
        refs_valid(rules),
        ranked_by(rules, rank),
        0 <= start < rules.len(),
        rules.len() <= MAX_RULES,
    ensures
        source_of(rules, start) == derive_prefix(rules, rank, start, rules[start].len() as int),
{
    let n = rules.len();
    let st0 = Seq::new(n, |i: int| UNSEEN);
    lemma_count_all(n, UNSEEN);
    lemma_count_zero(st0, ACTIVE);
    lemma_visit(rules, start, st0, Seq::empty(), rank);
    let (stf, of) = traversal(rules, start);
    let c = canonical_rules(rules, start);
    assert(c == relabeled(rules, stf, of));
    assert forall|j: int| 0 <= j < rules.len() implies #[trigger] stf[j] != ACTIVE by {
        assert(st0[j] != ACTIVE);
    }
    assert(stf[start] == of.len() - 1);
    lemma_expand_mirror(rules, rank, stf, of, start, rules[start].len() as int);
    assert(c[stf[start] as int].len() == rules[start].len());
}

/// Numbers rule `id` after all its unseen descendants, as `visit` describes.
fn visit_rule(
    rules: &Vec<Vec<usize>>,
    id: usize,
    st: &mut Vec<usize>,
    order: &mut Vec<usize>,
    Ghost(rv): Ghost<Seq<Seq<usize>>>,
    Ghost(rank): Ghost<Seq<nat>>,
)
    requires
        rv == rules@.map_values(|r: Vec<usize>| r@),
        state_ok(rv, old(st)@, old(order)@),
        closed(rv, old(st)@, old(order)@),
        ranked_by(rv, rank),
        id < rv.len(),
        old(st)@[id as int] == UNSEEN,
        forall|j: int| 0 <= j < rv.len() && old(st)@[j] == ACTIVE ==> rank[j] > rank[id as int],
    ensures
        (final(st)@, final(order)@) == visit(
            rv,
            id as int,
            old(st)@,
            old(order)@,
            count_of(old(st)@, UNSEEN),
        ),
        state_ok(rv, final(st)@, final(order)@),
        closed(rv, final(st)@, final(order)@),
        count_of(final(st)@, UNSEEN) < count_of(old(st)@, UNSEEN),
        final(st)@[id as int] < final(order)@.len(),
        final(order)@.len() >= old(order)@.len(),
        forall|j: int| 0 <= j < rv.len() && old(st)@[j] != UNSEEN ==> final(st)@[j] == old(st)@[j],
        forall|j: int| 0 <= j < rv.len() && final(st)@[j] == ACTIVE ==> old(st)@[j] == ACTIVE,
    decreases count_of(old(st)@, UNSEEN),
{
    let ghost st0 = st@;
    let ghost order0 = order@;
    let ghost fuel = count_of(st0, UNSEEN);
    proof {
        lemma_count_update(st0, id as int, ACTIVE, UNSEEN);
        lemma_count_update(st0, id as int, ACTIVE, ACTIVE);
    }
    st.set(id, ACTIVE);
    let ghost st1 = st@;
    let body = &rules[id];
    assert(body@ == rv[id as int]);
    let mut k: usize = 0;
    while k < body.len()
        invariant
            rv == rules@.map_values(|r: Vec<usize>| r@),
            body@ == rv[id as int],
            id < rv.len(),
            0 <= k <= body@.len(),
            ranked_by(rv, rank),
            state_ok(rv, st@, order@),
            closed(rv, st@, order@),
            order@.len() >= order0.len(),
            count_of(st@, UNSEEN) <= count_of(st1, UNSEEN),
            count_of(st1, UNSEEN) + 1 == fuel,
            st1 == st0.update(id as int, ACTIVE),
            st0.len() == rv.len(),
            st0 == old(st)@,
            fuel == count_of(old(st)@, UNSEEN),
            st@[id as int] == ACTIVE,
            forall|j: int| 0 <= j < rv.len() && st1[j] != UNSEEN ==> st@[j] == st1[j],
            forall|j: int| 0 <= j < rv.len() && st@[j] == ACTIVE ==> st1[j] == ACTIVE,
            forall|j: int| 0 <= j < rv.len() && st1[j] == ACTIVE ==> rank[j] >= rank[id as int],
            forall|b: int|
                0 <= b < k && is_nt(#[trigger] body@[b]) ==> st@[target(body@[b])] < order@.len(),
            visit_body(rv, id as int, k as int, st@, order@, fuel) == visit_body(
                rv,
                id as int,
                0,
                st1,
                order0,
                fuel,
            ),
        decreases body@.len() - k,
    {
        let s = body[k];
        let ghost st_prev = st@;
        let ghost order_prev = order@;
        if s >= RULE_OFFSET {
            assert(is_nt(rv[id as int][k as int]));
            let c = s - RULE_OFFSET;
            if st[c] == UNSEEN {
                assert(rank[c as int] < rank[id as int]);
                assert forall|j: int| 0 <= j < rv.len() && st@[j] == ACTIVE implies rank[j] > rank[c as int] by {
                    assert(st1[j] == ACTIVE);
                }
                assert(count_of(st@, UNSEEN) < count_of(old(st)@, UNSEEN));
                visit_rule(rules, c, st, order, Ghost(rv), Ghost(rank));
            } else {
                proof {
                    assert(rank[c as int] < rank[id as int]);
                    if st_prev[c as int] == ACTIVE {
                        assert(st1[c as int] == ACTIVE);
                    }
                }
            }
            assert forall|b: int|
                0 <= b < k + 1 && is_nt(#[trigger] body@[b]) implies st@[target(body@[b])]
                < order@.len() by {
                if b < k {
                    assert(st_prev[target(body@[b])] < order_prev.len());
                }
            }
        }
        assert(visit_body(rv, id as int, k as int, st_prev, order_prev, fuel) == visit_body(
            rv,
            id as int,
            k + 1,
            st@,
            order@,
            fuel,
        ));
        k += 1;
    }
    let ghost st2 = st@;
    let ghost order2 = order@;
    assert(visit_body(rv, id as int, k as int, st2, order2, fuel) == (st2, order2));
    let num = order.len();
    proof {
        lemma_count_pos(st2, id as int, ACTIVE);
        lemma_count_update(st2, id as int, num, UNSEEN);
        lemma_count_update(st2, id as int, num, ACTIVE);
    }
    st.set(id, num);
    order.push(id);
    assert forall|j: int| 0 <= j < rv.len() && st0[j] != UNSEEN implies st@[j] == st0[j] by {
        assert(j != id);
        assert(st1[j] == st0[j]);
    }
    assert forall|j: int| 0 <= j < rv.len() && st@[j] == ACTIVE implies st0[j] == ACTIVE by {
        assert(j != id);
        assert(st2[j] == ACTIVE);
        assert(st1[j] == ACTIVE);
    }
    assert forall|j: int, b: int|
        0 <= j < st@.len() && st@[j] < order@.len() && 0 <= b < rv[j].len() && is_nt(
            #[trigger] rv[j][b],
        ) implies st@[target(rv[j][b])] < st@[j] by {
        if j == id {
            assert(is_nt(body@[b]));
        } else {
            assert(st2[j] < order2.len());
        }
    }
}

#[verifier::external_type_specification]
#[verifier::external_body]
pub struct ExFromUtf8Error(FromUtf8Error);

/// The characters that a byte sequence decodes to as UTF-8, or `None` where it is not UTF-8.
pub uninterp spec fn utf8_decode(b: Seq<u8>) -> Option<Seq<char>>;

/// Each byte of an ASCII sequence is one character.
pub open spec fn ascii_chars(b: Seq<u8>) -> Option<Seq<char>> {
    if forall|i: int| 0 <= i < b.len() ==> b[i] < 128 {
        Some(b.map_values(|x: u8| x as char))
    } else {
        None
    }
}

/// Relies on `String::from_utf8`: succeeds exactly on valid UTF-8, and ASCII is valid UTF-8
/// with one character per byte.
#[verifier::external_body]
fn string_from_utf8(v: Vec<u8>) -> (r: Result<String, FromUtf8Error>)
    ensures
        r is Ok <==> utf8_decode(v@) is Some,
        r matches Ok(s) ==> utf8_decode(v@) == Some(s@),
        r matches Ok(s) ==> (ascii_chars(v@) is Some ==> ascii_chars(v@) == Some(s@)),
        ascii_chars(v@) is Some ==> r is Ok,
{
    String::from_utf8(v)
}

/// Rules whose references all point backwards are valid and acyclic, so a canonical grammar
/// meets the requirements of `renumber`, the encoder and the expander.
pub proof fn lemma_ordered_acyclic(rules: Seq<Seq<usize>>)
    requires
        refs_ordered(rules),
    ensures
        refs_valid(rules),
        acyclic(rules),
{
    let rank = Seq::new(rules.len(), |i: int| i as nat);
    assert(ranked_by(rules, rank));
}

/// A straight-line grammar: rules of symbols and the index of the start rule.
#[derive(Debug, Clone)]
pub struct Grammar {
    rules: Vec<Vec<usize>>,
    start_rule: usize,
}

impl Grammar {
    /// The rules as sequences of symbols.
    pub closed spec fn rules_view(&self) -> Seq<Seq<usize>> {
        self.rules@.map_values(|r: Vec<usize>| r@)
    }

    pub closed spec fn start(&self) -> usize {
        self.start_rule
    }

    /// References are valid and a non-empty grammar has its start rule among its rules.
    pub open spec fn wf(&self) -> bool {
        &&& refs_valid(self.rules_view())
        &&& self.rules_view().len() > 0 ==> self.start() < self.rules_view().len()
    }

    /// Canonical form: children precede parents and the start rule comes last.
    pub open spec fn canonical(&self) -> bool {
        &&& refs_ordered(self.rules_view())
        &&& self.rules_view().len() > 0 ==> self.start() == self.rules_view().len() - 1
    }

    pub fn empty() -> (r: Self)
        ensures
            r.rules_view() == Seq::<Seq<usize>>::empty(),
            r.start() == 0,
    {
        let r = Grammar { rules: Vec::new(), start_rule: 0 };
        assert(r.rules_view() =~= Seq::<Seq<usize>>::empty());
        r
    }

    pub fn is_terminal(symbol: usize) -> (r: bool)
        ensures
            r == !is_nt(symbol),
    {
        symbol < RULE_OFFSET
    }

    pub fn is_nonterminal(symbol: usize) -> (r: bool)
        ensures
            r == is_nt(symbol),
    {
        symbol >= RULE_OFFSET
    }

    pub fn from_parts(rules: Vec<Vec<usize>>, start_rule: usize) -> (r: Self)
        ensures
            r.rules_view() == rules@.map_values(|v: Vec<usize>| v@),
            r.start() == start_rule,
    {
        Grammar { rules, start_rule }
    }

    pub fn set_start_rule(&mut self, new_start_rule: usize)
        ensures
            final(self).rules_view() == old(self).rules_view(),
            final(self).start() == new_start_rule,
    {
        self.start_rule = new_start_rule;
    }

    pub fn rule_count(&self) -> (r: usize)
        ensures
            r == self.rules_view().len(),
    {
        self.rules.len()
    }

    /// The body of rule `i`.
    pub fn rule(&self, i: usize) -> (r: &Vec<usize>)
        requires
            i < self.rules_view().len(),
        ensures
            r@ == self.rules_view()[i as int],
    {
        &self.rules[i]
    }

    /// Relabels the rules into canonical form: the rules reachable from the start rule are
    /// numbered in post-order of a depth-first traversal (children in body order), so that
    /// every rule's children precede it and the start rule comes last. Unreachable rules are
    /// dropped. An empty grammar is left as it is.
    pub fn renumber(&mut self)
        requires
            old(self).wf(),
            acyclic(old(self).rules_view()),
            old(self).rules_view().len() <= MAX_RULES,
        ensures
            old(self).rules_view().len() == 0 ==> *final(self) == *old(self),
            old(self).rules_view().len() > 0 ==> final(self).rules_view() == canonical_rules(
                old(self).rules_view(),
                old(self).start() as int,
            ) && final(self).rules_view().len() > 0,
            final(self).wf(),
            final(self).canonical(),
            final(self).rules_view().len() <= old(self).rules_view().len(),
    {
        let n = self.rules.len();
        if n == 0 {
            return;
        }
        let ghost rv = self.rules_view();
        let ghost rank = choose|rank: Seq<nat>| ranked_by(rv, rank);
        let mut st: Vec<usize> = Vec::new();
        let mut i: usize = 0;
        while i < n
            invariant
                0 <= i <= n,
                st@ == Seq::new(i as nat, |j: int| UNSEEN),
            decreases n - i,
        {
            st.push(UNSEEN);
            i += 1;
            assert(st@ =~= Seq::new(i as nat, |j: int| UNSEEN));
        }
        proof {
            lemma_count_all(n as nat, UNSEEN);
            lemma_count_zero(st@, ACTIVE);
        }
        let mut order: Vec<usize> = Vec::new();
        visit_rule(&self.rules, self.start_rule, &mut st, &mut order, Ghost(rv), Ghost(rank));
        let ghost t = traversal(rv, self.start_rule as int);
        assert(st@ == t.0 && order@ == t.1);
        let mut new_rules: Vec<Vec<usize>> = Vec::new();
        let mut m: usize = 0;
        while m < order.len()
            invariant
                rv == self.rules_view(),
                state_ok(rv, st@, order@),
                closed(rv, st@, order@),
                refs_valid(rv),
                rv.len() <= MAX_RULES,
                0 <= m <= order@.len(),
                new_rules@.len() == m,
                forall|q: int|
                    0 <= q < m ==> (#[trigger] new_rules@[q])@ == relabel(
                        rv[order@[q] as int],
                        st@,
                    ),
            decreases order@.len() - m,
        {
            let src = &self.rules[order[m]];
            assert(src@ == rv[order@[m as int] as int]);
            let ghost j = order@[m as int] as int;
            let mut nr: Vec<usize> = Vec::new();
            let mut k: usize = 0;
            while k < src.len()
                invariant
                    rv == self.rules_view(),
                    state_ok(rv, st@, order@),
                    closed(rv, st@, order@),
                    0 <= j < rv.len(),
                    refs_valid(rv),
                    rv.len() <= MAX_RULES,
                    st@[j] == m,
                    m < order@.len(),
                    src@ == rv[j],
                    0 <= k <= src@.len(),
                    nr@ == relabel(src@, st@).take(k as int),
                decreases src@.len() - k,
            {
                let sym = src[k];
                if sym >= RULE_OFFSET {
                    assert(is_nt(rv[j][k as int]));
                    assert(st@[target(sym)] < m);
                    nr.push(st[sym - RULE_OFFSET] + RULE_OFFSET);
                } else {
                    nr.push(sym);
                }
                k += 1;
                assert(nr@ =~= relabel(src@, st@).take(k as int));
            }
            assert(nr@ =~= relabel(src@, st@));
            new_rules.push(nr);
            m += 1;
        }
        let cnt = order.len();
        self.rules = new_rules;
        self.start_rule = cnt - 1;
        assert(self.rules_view() =~= canonical_rules(rv, old(self).start() as int));
        assert forall|a: int, k: int|
            0 <= a < self.rules_view().len() && 0 <= k < self.rules_view()[a].len() && is_nt(
                #[trigger] self.rules_view()[a][k],
            ) implies target(self.rules_view()[a][k]) < a by {
            let j = order@[a] as int;
            let sym = rv[j][k];
            assert(self.rules_view()[a][k] == relabel(rv[j], st@)[k]);
            if !is_nt(sym) {
                assert(self.rules_view()[a][k] == sym);
            }
            assert(is_nt(sym));
        }
    }

    /// Appends to `out` the string that the grammar derives. Each rule is expanded once,
    /// children first; the start rule is streamed straight into `out`.
    pub fn write_source_string(self, out: &mut Vec<u8>)
        requires
            self.wf(),
            acyclic(self.rules_view()),
            self.rules_view().len() <= MAX_RULES,
        ensures
            final(out)@ == old(out)@ + source_of(self.rules_view(), self.start() as int),
    {
        if self.rules.len() == 0 {
            assert(old(out)@ + source_of(self.rules_view(), self.start() as int) =~= old(out)@);
            return;
        }
        let mut g = self;
        g.renumber();
        let ghost cr = g.rules_view();
        let rules = g.rules;
        assert(rules@.map_values(|r: Vec<usize>| r@) == cr);
        let last = rules.len() - 1;
        let mut expansions: Vec<Vec<u8>> = Vec::new();
        let mut i: usize = 0;
        while i < last
            invariant
                rules@.map_values(|r: Vec<usize>| r@) == cr,
                refs_ordered(cr),
                last == cr.len() - 1,
                0 <= i <= last,
                expansions@.len() == i,
                forall|q: int| 0 <= q < i ==> (#[trigger] expansions@[q])@ == expand_rule(cr, q),
            decreases last - i,
        {
            let rule = &rules[i];
            assert(rule@ == cr[i as int]);
            let mut e: Vec<u8> = Vec::new();
            let mut k: usize = 0;
            while k < rule.len()
                invariant
                    rule@ == cr[i as int],
                    refs_ordered(cr),
                    i < cr.len(),
                    expansions@.len() == i,
                    forall|q: int| 0 <= q < i ==> (#[trigger] expansions@[q])@ == expand_rule(cr, q),
                    0 <= k <= rule@.len(),
                    e@ == expand_prefix(cr, i as int, k as int),
                decreases rule@.len() - k,
            {
                let s = rule[k];
                if s >= RULE_OFFSET {
                    assert(is_nt(cr[i as int][k as int]));
                    let sub = &expansions[s - RULE_OFFSET];
                    let ghost e0 = e@;
                    let mut b: usize = 0;
                    while b < sub.len()
                        invariant
                            0 <= b <= sub@.len(),
                            e@ == e0 + sub@.take(b as int),
                        decreases sub@.len() - b,
                    {
                        e.push(sub[b]);
                        b += 1;
                        assert(e@ =~= e0 + sub@.take(b as int));
                    }
                    assert(sub@.take(b as int) =~= sub@);
                } else {
                    e.push(s as u8);
                }
                k += 1;
            }
            expansions.push(e);
            i += 1;
        }
        let start = &rules[last];
        assert(start@ == cr[last as int]);
        let ghost out0 = out@;
        let mut k: usize = 0;
        while k < start.len()
            invariant
                start@ == cr[last as int],
                refs_ordered(cr),
                last == cr.len() - 1,
                expansions@.len() == last,
                forall|q: int| 0 <= q < last ==> (#[trigger] expansions@[q])@ == expand_rule(cr, q),
                0 <= k <= start@.len(),
                out@ == out0 + expand_prefix(cr, last as int, k as int),
            decreases start@.len() - k,
        {
            let s = start[k];
            let ghost o1 = out@;
            if s >= RULE_OFFSET {
                assert(is_nt(cr[last as int][k as int]));
                let sub = &expansions[s - RULE_OFFSET];
                let mut b: usize = 0;
                while b < sub.len()
                    invariant
                        0 <= b <= sub@.len(),
                        out@ == o1 + sub@.take(b as int),
                    decreases sub@.len() - b,
                {
                    out.push(sub[b]);
                    b += 1;
                    assert(out@ =~= o1 + sub@.take(b as int));
                }
                assert(sub@.take(b as int) =~= sub@);
            } else {
                out.push(s as u8);
            }
            k += 1;
            assert(out@ =~= out0 + expand_prefix(cr, last as int, k as int));
        }
    }

    /// The string that the grammar derives, where it is valid UTF-8.
    pub fn produce_source_string(self) -> (r: Result<String, FromUtf8Error>)
        requires
            self.wf(),
            acyclic(self.rules_view()),
            self.rules_view().len() <= MAX_RULES,
        ensures
            match r {
                Ok(s) => utf8_decode(source_of(self.rules_view(), self.start() as int)) == Some(s@),
                Err(_) => utf8_decode(source_of(self.rules_view(), self.start() as int)) is None,
            },
            ascii_chars(source_of(self.rules_view(), self.start() as int)) is Some ==> (r matches Ok(
                s,
            ) && ascii_chars(source_of(self.rules_view(), self.start() as int)) == Some(s@)),
    {
        let mut v: Vec<u8> = Vec::new();
        let ghost src = source_of(self.rules_view(), self.start() as int);
        self.write_source_string(&mut v);
        assert(v@ =~= src);
        string_from_utf8(v)
    }

    pub fn consume(self) -> (r: (Vec<Vec<usize>>, usize))
        ensures
            r.0@.map_values(|v: Vec<usize>| v@) == self.rules_view(),
            r.1 == self.start(),
    {
        (self.rules, self.start_rule)
    }

    /// Tells whether every reference points to an existing rule and a non-empty grammar has
    /// its start rule among its rules.
    pub fn is_well_formed(&self) -> (r: bool)
        ensures
            r == self.wf(),
    {
        let n = self.rules.len();
        if n > 0 && self.start_rule >= n {
            return false;
        }
        let mut i: usize = 0;
        while i < n
            invariant
                n == self.rules_view().len(),
                0 <= i <= n,
                forall|a: int, k: int|
                    0 <= a < i && 0 <= k < self.rules_view()[a].len() && is_nt(
                        #[trigger] self.rules_view()[a][k],
                    ) ==> target(self.rules_view()[a][k]) < n,
            decreases n - i,
        {
            let rule = &self.rules[i];
            assert(rule@ == self.rules_view()[i as int]);
            let mut k: usize = 0;
            while k < rule.len()
                invariant
                    n == self.rules_view().len(),
                    i < n,
                    rule@ == self.rules_view()[i as int],
                    0 <= k <= rule@.len(),
                    forall|b: int| 0 <= b < k && is_nt(#[trigger] rule@[b]) ==> target(rule@[b]) < n,
                decreases rule@.len() - k,
            {
                let s = rule[k];
                if s >= RULE_OFFSET && s - RULE_OFFSET >= n {
                    assert(is_nt(self.rules_view()[i as int][k as int]));
                    return false;
                }
                k += 1;
            }
            i += 1;
        }
        true
    }

    /// Looks for a depth for every rule that strictly decreases along every reference: the
    /// longest path below each rule, found by repeated relaxation. A `true` answer means the
    /// grammar has no cycle; on a well-formed acyclic grammar the search always succeeds.
    pub fn is_acyclic(&self) -> (r: bool)
        ensures
            r ==> acyclic(self.rules_view()),
    {
        let n = self.rules.len();
        let mut depth: Vec<usize> = Vec::new();
        let mut i: usize = 0;
        while i < n
            invariant
                0 <= i <= n,
                depth@.len() == i,
            decreases n - i,
        {
            depth.push(0);
            i += 1;
        }
        let mut round: usize = 0;
        while round < n
            invariant
                n == self.rules_view().len(),
                depth@.len() == n,
                0 <= round <= n,
            decreases n - round,
        {
            let mut a: usize = 0;
            while a < n
                invariant
                    n == self.rules_view().len(),
                    depth@.len() == n,
                    0 <= a <= n,
                decreases n - a,
            {
                let rule = &self.rules[a];
                let mut k: usize = 0;
                while k < rule.len()
                    invariant
                        depth@.len() == n,
                        a < n,
                        0 <= k <= rule@.len(),
                    decreases rule@.len() - k,
                {
                    let s = rule[k];
                    if s >= RULE_OFFSET && s - RULE_OFFSET < n {
                        let d = depth[s - RULE_OFFSET];
                        if d < n && d + 1 > depth[a] {
                            depth.set(a, d + 1);
                        }
                    }
                    k += 1;
                }
                a += 1;
            }
            round += 1;
        }
        let ghost rv = self.rules_view();
        let ghost rank = Seq::new(n as nat, |j: int| depth@[j] as nat);
        let mut a: usize = 0;
        while a < n
            invariant
                rv == self.rules_view(),
                n == rv.len(),
                depth@.len() == n,
                rank == Seq::new(n as nat, |j: int| depth@[j] as nat),
                0 <= a <= n,
                forall|x: int, k: int|
                    0 <= x < a && 0 <= k < rv[x].len() && is_nt(#[trigger] rv[x][k]) ==> 0 <= target(
                        rv[x][k],
                    ) < n && rank[target(rv[x][k])] < rank[x],
            decreases n - a,
        {
            let rule = &self.rules[a];
            assert(rule@ == rv[a as int]);
            let mut k: usize = 0;
            while k < rule.len()
                invariant
                    rv == self.rules_view(),
                    n == rv.len(),
                    depth@.len() == n,
                    rank == Seq::new(n as nat, |j: int| depth@[j] as nat),
                    a < n,
                    rule@ == rv[a as int],
                    0 <= k <= rule@.len(),
                    forall|b: int|
                        0 <= b < k && is_nt(#[trigger] rule@[b]) ==> 0 <= target(rule@[b]) < n
                            && rank[target(rule@[b])] < rank[a as int],
                decreases rule@.len() - k,
            {
                let s = rule[k];
                if s >= RULE_OFFSET {
                    if s - RULE_OFFSET >= n || depth[s - RULE_OFFSET] >= depth[a] {
                        return false;
                    }
                }
                k += 1;
            }
            a += 1;
        }
        assert(ranked_by(rv, rank));
        true
    }

    /// Tells whether every reference points to an earlier rule and the start rule is last.
    pub fn is_canonical(&self) -> (r: bool)
        ensures
            r == self.canonical(),
    {
        let n = self.rules.len();
        if n > 0 && self.start_rule != n - 1 {
            return false;
        }
        let mut i: usize = 0;
        while i < n
            invariant
                n == self.rules_view().len(),
                0 <= i <= n,
                forall|a: int, k: int|
                    0 <= a < i && 0 <= k < self.rules_view()[a].len() && is_nt(
                        #[trigger] self.rules_view()[a][k],
                    ) ==> target(self.rules_view()[a][k]) < a,
            decreases n - i,
        {
            let rule = &self.rules[i];
            assert(rule@ == self.rules_view()[i as int]);
            let mut k: usize = 0;
            while k < rule.len()
                invariant
                    n == self.rules_view().len(),
                    i < n,
                    rule@ == self.rules_view()[i as int],
                    0 <= k <= rule@.len(),
                    forall|b: int|
                        0 <= b < k && is_nt(#[trigger] rule@[b]) ==> target(rule@[b]) < i,
                decreases rule@.len() - k,
            {
                let s = rule[k];
                if s >= RULE_OFFSET && s - RULE_OFFSET >= i {
                    assert(is_nt(self.rules_view()[i as int][k as int]));
                    return false;
                }
                k += 1;
            }
            i += 1;
        }
        true
    }
}

impl PartialEq for Grammar {
    fn eq(&self, other: &Grammar) -> (r: bool) {
        if self.start_rule != other.start_rule || self.rules.len() != other.rules.len() {
            assert(self.rules_view().len() == self.rules@.len());
            return false;
        }
        let n = self.rules.len();
        let mut i: usize = 0;
        while i < n
            invariant
                n == self.rules@.len(),
                n == other.rules@.len(),
                0 <= i <= n,
                forall|q: int| 0 <= q < i ==> self.rules@[q]@ == other.rules@[q]@,
            decreases n - i,
        {
            let a = &self.rules[i];
            let b = &other.rules[i];
            assert(self.rules_view()[i as int] == a@ && other.rules_view()[i as int] == b@);
            if a.len() != b.len() {
                return false;
            }
            let mut k: usize = 0;
            while k < a.len()
                invariant
                    a@.len() == b@.len(),
                    self.rules_view()[i as int] == a@,
                    other.rules_view()[i as int] == b@,
                    0 <= k <= a@.len(),
                    forall|c: int| 0 <= c < k ==> a@[c] == b@[c],
                decreases a@.len() - k,
            {
                if a[k] != b[k] {
                    return false;
                }
                k += 1;
            }
            assert(a@ =~= b@);
            i += 1;
        }
        assert(self.rules_view() =~= other.rules_view());
        true
    }
}

impl vstd::std_specs::cmp::PartialEqSpecImpl for Grammar {
    open spec fn obeys_eq_spec() -> bool {
        true
    }

    open spec fn eq_spec(&self, other: &Grammar) -> bool {
        self.rules_view() == other.rules_view() && self.start() == other.start()
    }
}

} // verus!
