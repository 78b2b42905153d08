//! Cost aggregates of quantifiers, and their ranking.

use vstd::prelude::*;
use vstd::seq_lib::to_multiset_insert;

verus! {

/// What the trace says of one quantifier: how often it was instantiated, and
/// the weight that the solver gives it.
#[derive(Clone, Debug, PartialEq, Eq)]
pub struct QuantCost {
    pub quant: String,
    pub instantiations: u64,
    pub cost: u64,
}

/// What a [`QuantCost`] holds, as mathematical values.
pub struct QuantCostView {
    pub quant: Seq<char>,
    pub instantiations: u64,
    pub cost: u64,
}

impl View for QuantCost {
    type V = QuantCostView;

    open spec fn view(&self) -> QuantCostView {
        QuantCostView { quant: self.quant@, instantiations: self.instantiations, cost: self.cost }
    }
}

/// The views of a sequence of cost aggregates, in the same order.
pub open spec fn cost_views(costs: Seq<QuantCost>) -> Seq<QuantCostView> {
    costs.map_values(|c: QuantCost| c@)
}

/// What a quantifier is ranked by: its instantiations times its cost.
pub open spec fn weight(c: QuantCostView) -> int {
    c.instantiations * c.cost
}

/// The weight of `c`. It is computed in 128 bits, where the product of two
/// 64-bit numbers always fits.
pub fn weight_of(c: &QuantCost) -> (w: u128)
    ensures
        w == weight(c@),
{
    let n: u128 = c.instantiations as u128;
    let k: u128 = c.cost as u128;
    assert(n * k <= 0xffff_ffff_ffff_ffff * 0xffff_ffff_ffff_ffff) by (nonlinear_arith)
        requires
            0 <= n <= 0xffff_ffff_ffff_ffff,
            0 <= k <= 0xffff_ffff_ffff_ffff,
    ;
    n * k
}

/// No entry weighs more than one before it.
pub open spec fn descending(r: Seq<QuantCostView>) -> bool {
    forall|i: int, j: int| 0 <= i < j < r.len() ==> weight(#[trigger] r[i]) >= weight(#[trigger] r[j])
}

/// No entry weighs less than one before it.
pub open spec fn ascending(s: Seq<QuantCostView>) -> bool {
    forall|i: int, j: int| 0 <= i < j < s.len() ==> weight(#[trigger] s[i]) <= weight(#[trigger] s[j])
}

/// Where `x` goes in the ranking `r`: behind every entry that weighs at least
/// as much, in front of the first that weighs less.
pub open spec fn rank_position(r: Seq<QuantCostView>, x: QuantCostView) -> int
    decreases r.len(),
{
    if r.len() == 0 || weight(r[0]) < weight(x) {
        0
    } else {
        1 + rank_position(r.drop_first(), x)
    }
}

/// The ranking of `s`: by weight, the heaviest first, and entries of equal
/// weight in the reverse of the order in which `s` has them. It is what a
/// stable sort by rising weight gives, read backwards.
pub open spec fn ranked(s: Seq<QuantCostView>) -> Seq<QuantCostView>
    decreases s.len(),
{
    if s.len() == 0 {
        Seq::empty()
    } else {
        let rest = ranked(s.drop_first());
        rest.insert(rank_position(rest, s[0]), s[0])
    }
}

/// The entries that weigh exactly `w`.
pub open spec fn weighs(w: int) -> spec_fn(QuantCostView) -> bool {
    |c: QuantCostView| weight(c) == w
}

/// What `rank_position` finds: the end of the leading entries that weigh at
/// least as much as `x`.
pub proof fn lemma_rank_position_bounds(r: Seq<QuantCostView>, x: QuantCostView)
    ensures
        0 <= rank_position(r, x) <= r.len(),
        forall|i: int| 0 <= i < rank_position(r, x) ==> weight(#[trigger] r[i]) >= weight(x),
        rank_position(r, x) < r.len() ==> weight(r[rank_position(r, x)]) < weight(x),
    decreases r.len(),
{
    if !(r.len() == 0 || weight(r[0]) < weight(x)) {
        let tail = r.drop_first();
        lemma_rank_position_bounds(tail, x);
        assert forall|i: int| 0 <= i < rank_position(r, x) implies weight(#[trigger] r[i])
            >= weight(x) by {
            if i > 0 {
                assert(r[i] == tail[i - 1]);
            }
        }
        if rank_position(r, x) < r.len() {
            assert(r[rank_position(r, x)] == tail[rank_position(tail, x)]);
        }
    }
}

/// A place that ends the leading entries weighing at least as much as `x` is
/// the one that `rank_position` finds.
pub proof fn lemma_rank_position_is(r: Seq<QuantCostView>, x: QuantCostView, p: int)
    requires
        0 <= p <= r.len(),
        forall|i: int| 0 <= i < p ==> weight(#[trigger] r[i]) >= weight(x),
        p < r.len() ==> weight(r[p]) < weight(x),
    ensures
        rank_position(r, x) == p,
    decreases p,
{
    if p > 0 {
        let tail = r.drop_first();
        assert(weight(r[0]) >= weight(x));
        assert forall|i: int| 0 <= i < p - 1 implies weight(#[trigger] tail[i]) >= weight(x) by {
            assert(tail[i] == r[i + 1]);
        }
        lemma_rank_position_is(tail, x, p - 1);
    }
}

/// A ranking is in falling order of weight.
pub proof fn lemma_ranked_descending(s: Seq<QuantCostView>)
    ensures
        descending(ranked(s)),
        ranked(s).len() == s.len(),
    decreases s.len(),
{
    if s.len() > 0 {
        let rest = ranked(s.drop_first());
        let x = s[0];
        let p = rank_position(rest, x);
        lemma_ranked_descending(s.drop_first());
        lemma_rank_position_bounds(rest, x);
        rest.insert_ensures(p, x);
        let r = rest.insert(p, x);
        assert forall|i: int, j: int| 0 <= i < j < r.len() implies weight(#[trigger] r[i])
            >= weight(#[trigger] r[j]) by {
            if i < p {
                assert(r[i] == rest[i]);
            } else if i > p {
                assert(r[i] == rest[i - 1]);
            }
            if j < p {
                assert(r[j] == rest[j]);
            } else if j > p {
                assert(r[j] == rest[j - 1]);
                assert(p < j - 1 ==> weight(rest[p]) >= weight(rest[j - 1]));
            }
        }
    }
}

/// A ranking holds the entries that were ranked, each as often as it was given.
pub proof fn lemma_ranked_permutes(s: Seq<QuantCostView>)
    ensures
        ranked(s).to_multiset() == s.to_multiset(),
    decreases s.len(),
{
    if s.len() == 0 {
        assert(ranked(s) =~= s);
    } else {
        let rest = ranked(s.drop_first());
        let x = s[0];
        lemma_ranked_permutes(s.drop_first());
        lemma_rank_position_bounds(rest, x);
        to_multiset_insert(rest, rank_position(rest, x), x);
        to_multiset_insert(s.drop_first(), 0, x);
        assert(s.drop_first().insert(0, x) =~= s);
    }
}

/// Ranking is stable, backwards: the entries of one weight stand in the
/// ranking in the reverse of the order in which they were given.
pub proof fn lemma_ranked_keeps_ties(s: Seq<QuantCostView>, w: int)
    ensures
        ranked(s).filter(weighs(w)) == s.filter(weighs(w)).reverse(),
    decreases s.len(),
{
    let f = weighs(w);
    if s.len() == 0 {
        reveal(Seq::filter);
        assert(ranked(s).filter(f) =~= s.filter(f).reverse());
    } else {
        let tail = s.drop_first();
        let rest = ranked(tail);
        let x = s[0];
        let p = rank_position(rest, x);
        lemma_ranked_keeps_ties(tail, w);
        lemma_ranked_descending(tail);
        lemma_rank_position_bounds(rest, x);
        let front = rest.subrange(0, p);
        let back = rest.subrange(p, rest.len() as int);
        assert(rest =~= front + back);
        assert(s =~= seq![x] + tail);
        Seq::filter_distributes_over_add(front, back, f);
        Seq::filter_distributes_over_add(front.push(x), back, f);
        Seq::filter_distributes_over_add(seq![x], tail, f);
        front.lemma_filter_push(x, f);
        assert(seq![x] =~= Seq::<QuantCostView>::empty().push(x));
        Seq::<QuantCostView>::empty().lemma_filter_push(x, f);
        assert(Seq::<QuantCostView>::empty().filter(f) =~= Seq::<QuantCostView>::empty()) by {
            reveal(Seq::filter);
        }
        if f(x) {
            assert(back.all(|c: QuantCostView| !f(c))) by {
                assert forall|i: int| 0 <= i < back.len() implies !f(#[trigger] back[i]) by {
                    assert(back[i] == rest[p + i]);
                    assert(weight(rest[p]) >= weight(rest[p + i]));
                }
            }
            back.lemma_all_neg_filter_empty(f);
            assert(back.filter(f) =~= Seq::<QuantCostView>::empty());
            assert(ranked(s).filter(f) =~= rest.filter(f).push(x));
            assert(s.filter(f) =~= seq![x] + tail.filter(f));
            assert(ranked(s).filter(f) =~= s.filter(f).reverse());
        } else {
            assert(ranked(s).filter(f) =~= rest.filter(f));
            assert(s.filter(f) =~= tail.filter(f));
        }
    }
}

/// Ranking costs that are given in rising order of weight turns them round.
pub proof fn lemma_ranked_of_ascending(s: Seq<QuantCostView>)
    requires
        ascending(s),
    ensures
        ranked(s) == s.reverse(),
    decreases s.len(),
{
    if s.len() == 0 {
        assert(ranked(s) =~= s.reverse());
    } else {
        let tail = s.drop_first();
        let x = s[0];
        assert forall|i: int, j: int| 0 <= i < j < tail.len() implies weight(#[trigger] tail[i])
            <= weight(#[trigger] tail[j]) by {
            assert(tail[i] == s[i + 1] && tail[j] == s[j + 1]);
        }
        lemma_ranked_of_ascending(tail);
        let rest = ranked(tail);
        assert forall|i: int| 0 <= i < rest.len() implies weight(#[trigger] rest[i]) >= weight(
            x,
        ) by {
            assert(rest[i] == tail[tail.len() - 1 - i]);
            assert(tail[tail.len() - 1 - i] == s[tail.len() - i]);
        }
        lemma_rank_position_is(rest, x, rest.len() as int);
        assert(rest.insert(rest.len() as int, x) =~= s.reverse());
    }
}

/// Ranks the costs of the quantifiers: the heaviest first, by instantiations
/// times cost, and those of equal weight in the reverse of the order given.
pub fn rank_quantifier_costs(costs: Vec<QuantCost>) -> (ranking: Vec<QuantCost>)
    ensures
        cost_views(ranking@) == ranked(cost_views(costs@)),
        descending(cost_views(ranking@)),
        cost_views(ranking@).to_multiset() == cost_views(costs@).to_multiset(),
{
    let ghost all = cost_views(costs@);
    let mut rest = costs;
    let mut ranking: Vec<QuantCost> = Vec::new();
    assert(cost_views(rest@) =~= all.take(rest@.len() as int));
    assert(cost_views(ranking@) =~= ranked(all.skip(rest@.len() as int)));
    while rest.len() > 0
        invariant
            rest@.len() <= all.len(),
            cost_views(rest@) == all.take(rest@.len() as int),
            cost_views(ranking@) == ranked(all.skip(rest@.len() as int)),
        decreases rest.len(),
    {
        let ghost before = cost_views(ranking@);
        let ghost n = rest@.len() as int;
        let ghost given = rest@;
        match rest.pop() {
            Some(x) => {
                let w = weight_of(&x);
                let mut p: usize = 0;
                loop
                    invariant
                        p <= ranking.len(),
                        w == weight(x@),
                        before == cost_views(ranking@),
                        forall|i: int| 0 <= i < p ==> weight(#[trigger] before[i]) >= w,
                    ensures
                        p <= ranking.len(),
                        forall|i: int| 0 <= i < p ==> weight(#[trigger] before[i]) >= w,
                        p < ranking.len() ==> weight(before[p as int]) < w,
                    decreases ranking.len() - p,
                {
                    if p >= ranking.len() {
                        break ;
                    }
                    if weight_of(&ranking[p]) < w {
                        break ;
                    }
                    p += 1;
                }
                ranking.insert(p, x);
                proof {
                    let tail = all.skip(n);
                    assert(cost_views(given)[n - 1] == x@);
                    assert(x@ == all[n - 1]);
                    assert(all.skip(n - 1).drop_first() =~= tail);
                    lemma_rank_position_is(before, x@, p as int);
                    assert(cost_views(ranking@) =~= before.insert(p as int, x@));
                    assert(cost_views(rest@) =~= all.take(n - 1));
                }
            },
            None => {},
        }
    }
    proof {
        assert(all.skip(0) =~= all);
        lemma_ranked_descending(all);
        lemma_ranked_permutes(all);
    }
    ranking
}

/// How often the quantifiers of `costs` were instantiated, all together.
pub open spec fn instantiation_sum(costs: Seq<QuantCostView>) -> int
    decreases costs.len(),
{
    if costs.len() == 0 {
        0
    } else {
        instantiation_sum(costs.drop_last()) + costs.last().instantiations
    }
}

/// The sum of the instantiations counts each entry in full.
pub proof fn lemma_instantiation_sum_bounds(costs: Seq<QuantCostView>, i: int)
    requires
        0 <= i < costs.len(),
    ensures
        costs[i].instantiations <= instantiation_sum(costs) <= costs.len() * 0xffff_ffff_ffff_ffff,
    decreases costs.len(),
{
    let head = costs.drop_last();
    if head.len() > 0 {
        lemma_instantiation_sum_bounds(head, if i < head.len() { i } else { 0 });
    }
    assert(instantiation_sum(head) >= 0 && instantiation_sum(head) <= head.len()
        * 0xffff_ffff_ffff_ffff) by {
        if head.len() == 0 {
        }
    }
    assert(costs.len() * 0xffff_ffff_ffff_ffff == head.len() * 0xffff_ffff_ffff_ffff
        + 0xffff_ffff_ffff_ffff) by (nonlinear_arith)
        requires
            costs.len() == head.len() + 1,
    ;
}

/// The total number of instantiations in `costs`. It is counted in 128 bits,
/// which the sum of any number of 64-bit counts in memory fits.
pub fn total_instantiations(costs: &Vec<QuantCost>) -> (total: u128)
    ensures
        total == instantiation_sum(cost_views(costs@)),
{
    let ghost all = cost_views(costs@);
    let mut total: u128 = 0;
    let mut i: usize = 0;
    assert(all.take(0) =~= Seq::empty());
    while i < costs.len()
        invariant
            i <= costs.len(),
            all == cost_views(costs@),
            total == instantiation_sum(all.take(i as int)),
            total <= i * 0xffff_ffff_ffff_ffff,
        decreases costs.len() - i,
    {
        proof {
            assert(all.take(i + 1).drop_last() =~= all.take(i as int));
            assert(all.take(i + 1).last() == costs@[i as int]@);
            assert((i + 1) * 0xffff_ffff_ffff_ffff == i * 0xffff_ffff_ffff_ffff
                + 0xffff_ffff_ffff_ffff) by (nonlinear_arith);
            assert(i * 0xffff_ffff_ffff_ffff <= 0xffff_ffff_ffff_ffff * 0xffff_ffff_ffff_ffff)
                by (nonlinear_arith)
                requires
                    0 <= i <= 0xffff_ffff_ffff_ffff,
            ;
        }
        total = total + costs[i].instantiations as u128;
        i += 1;
    }
    assert(all.take(i as int) =~= all);
    total
}

/// The share of `instantiations` in `total`, in percent, cut down to a whole
/// number.
pub open spec fn percent_of(instantiations: u64, total: int) -> int
    recommends
        total > 0,
{
    100 * instantiations / total
}

/// The share of `instantiations` in `total`, in percent. The division cuts
/// off: it does not round. A total of zero has no shares.
pub fn share_percent(instantiations: u64, total: u128) -> (percent: u64)
    requires
        total > 0,
        instantiations <= total,
    ensures
        percent == percent_of(instantiations, total as int),
        percent <= 100,
{
    let scaled: u128 = 100 * (instantiations as u128);
    let percent: u128 = scaled / total;
    assert(percent <= 100) by (nonlinear_arith)
        requires
            percent == scaled / total,
            scaled <= 100 * total,
            total > 0,
    ;
    percent as u64
}

} // verus!
