use vstd::prelude::*;
use vstd::arithmetic::power2::{lemma2_to64, pow2};
use crate::analyze::promotables_of;
use crate::analyze::{lemma_promoted_positions, PromotableView};
use crate::expand::{
    bounds_of, branch_matches, branch_of, branch_views, chosen, covered, expands_to, kept_positions,
    ordered_branches, picks, positions_of, selects, slot, subset_branches, tier, variant_name, variant_of,
    variant_views, well_formed_branch, BranchView,
};
use crate::model::{is_promotable, promoted_positions, increasing_below, lemma_increasing_bounds, texts, FnDecl};
use crate::outside::{below_each, index_tuples, subsets_of};

verus! {

/// A member of an increasing subset takes the literal chosen for it.
pub proof fn lemma_slot_member(s: Seq<usize>, l: Seq<Seq<char>>, m: int)
    requires
        forall|a: int, b: int| 0 <= a < b < s.len() ==> s[a] < s[b],
        s.len() == l.len(),
        0 <= m < s.len(),
    ensures
        slot(s, l, s[m] as int) == Some(l[m]),
    decreases s.len(),
{
    if m != s.len() - 1 {
        assert(s.drop_last()[m] == s[m]);
        assert(l.drop_last()[m] == l[m]);
        lemma_slot_member(s.drop_last(), l.drop_last(), m);
    }
}

/// Nothing removed keeps every position.
pub proof fn lemma_kept_all(n: nat)
    ensures
        kept_positions(n, Seq::empty()) == Seq::new(n, |i: int| i as usize),
    decreases n,
{
    if n > 0 {
        lemma_kept_all((n - 1) as nat);
        assert(kept_positions(n, Seq::empty()) =~= Seq::new(n, |i: int| i as usize));
    }
}

/// If some branch below `n` matches, a first matching branch exists.
proof fn lemma_first_match(bs: Seq<BranchView>, vals: Seq<Seq<char>>, n: int)
    requires
        0 <= n <= bs.len(),
        exists|i: int| 0 <= i < n && branch_matches(#[trigger] bs[i], vals),
    ensures
        exists|i: int| selects(bs, vals, i),
    decreases n,
{
    if exists|i: int| 0 <= i < n - 1 && branch_matches(#[trigger] bs[i], vals) {
        lemma_first_match(bs, vals, n - 1);
    } else {
        assert(selects(bs, vals, n - 1));
    }
}

/// The last branch fixes nothing and accepts every valuation.
proof fn lemma_last_branch_is_fallback(fd: FnDecl, x: crate::expand::Expansion, vals: Seq<Seq<char>>)
    requires
        expands_to(fd, x),
    ensures
        branch_views(x.branches@).last() == branch_of(fd, promotables_of(fd.params@), Seq::empty(), Seq::empty()),
        branch_matches(branch_views(x.branches@).last(), vals),
{
    let pv = promotables_of(fd.params@);
    let last = x.branches@.len() - 1;
    let b = x.branches@[last]@;
    assert(well_formed_branch(fd, pv, b));
    assert(b.subset.len() == 0);
    assert(b.subset =~= Seq::<usize>::empty());
    assert(b.choice =~= Seq::<usize>::empty());
    assert(branch_views(x.branches@)[last] == b);
}

/// The batch holds one dispatcher and one variant for each of the 2^k subsets
/// of the k promotable parameters.
pub proof fn law_variant_count(fd: FnDecl, x: crate::expand::Expansion)
    requires
        expands_to(fd, x),
    ensures
        x.variants@.len() == pow2(promotables_of(fd.params@).len()),
{
}

/// With no promotable parameter there is one variant, the fallback, and the
/// dispatcher's single branch forwards every argument to it whatever the values.
pub proof fn law_no_promotion(fd: FnDecl, x: crate::expand::Expansion, vals: Seq<Seq<char>>)
    requires
        expands_to(fd, x),
        promotables_of(fd.params@).len() == 0,
    ensures
        x.variants@.len() == 1,
        x.variants@[0]@.subset.len() == 0,
        x.variants@[0]@.name == variant_name(fd.name@, promotables_of(fd.params@), Seq::empty()),
        x.variants@[0]@.runtime == Seq::new(fd.params@.len(), |i: int| i as usize),
        x.branches@.len() == 1,
        x.branches@[0]@.target == x.variants@[0]@.name,
        x.branches@[0]@.args == fd.params@.map_values(|p: crate::model::Param| p.name@),
        selects(branch_views(x.branches@), vals, 0),
{
    let pv = promotables_of(fd.params@);
    let subs = subsets_of(0);
    lemma2_to64();
    assert(subs.len() == 1);
    assert(increasing_below(subs[0], 0));
    if subs[0].len() > 0 {
        assert(subs[0][0] < 0);
    }
    assert(subs[0] =~= Seq::<usize>::empty());
    assert(variant_views(x.variants@)[0] == x.variants@[0]@);
    assert(x.variants@[0]@ == variant_of(fd, pv, Seq::empty()));
    assert(crate::expand::positions_of(pv, Seq::empty()) =~= Seq::<usize>::empty());
    lemma_kept_all(fd.params@.len());
    lemma_last_branch_is_fallback(fd, x, vals);
    assert(x.branches@[0]@.subset.len() == 0);
    assert(branch_views(x.branches@)[0] == x.branches@[0]@);
    assert(x.branches@[0]@.args =~= fd.params@.map_values(|p: crate::model::Param| p.name@));
}

/// For every valuation of the promotable parameters exactly one branch is
/// taken: the first whose pattern accepts it.
pub proof fn law_exactly_one_branch(fd: FnDecl, x: crate::expand::Expansion, vals: Seq<Seq<char>>)
    requires
        expands_to(fd, x),
    ensures
        exists|i: int| selects(branch_views(x.branches@), vals, i),
        forall|i: int, j: int|
            selects(branch_views(x.branches@), vals, i) && selects(branch_views(x.branches@), vals, j) ==> i == j,
{
    let bs = branch_views(x.branches@);
    lemma_last_branch_is_fallback(fd, x, vals);
    assert(branch_matches(bs[bs.len() - 1], vals));
    lemma_first_match(bs, vals, bs.len() as int);
}

/// When no promotable parameter holds one of its candidates, the dispatcher
/// takes the last branch, which calls the fallback with every argument.
pub proof fn law_fallback(fd: FnDecl, x: crate::expand::Expansion, vals: Seq<Seq<char>>, i: int)
    requires
        expands_to(fd, x),
        vals.len() == promotables_of(fd.params@).len(),
        forall|j: int|
            0 <= j < vals.len() ==> !(#[trigger] promotables_of(fd.params@)[j]).consts.contains(vals[j]),
        selects(branch_views(x.branches@), vals, i),
    ensures
        i == x.branches@.len() - 1,
        x.branches@[i]@ == branch_of(fd, promotables_of(fd.params@), Seq::empty(), Seq::empty()),
        x.branches@[i]@.target == variant_name(fd.name@, promotables_of(fd.params@), Seq::empty()),
        x.branches@[i]@.args == fd.params@.map_values(|p: crate::model::Param| p.name@),
{
    let pv = promotables_of(fd.params@);
    let bs = branch_views(x.branches@);
    assert(bs[i] == x.branches@[i]@);
    if i < x.branches@.len() - 1 {
        let b = x.branches@[i]@;
        assert(well_formed_branch(fd, pv, b));
        assert(b.subset.len() != 0);
        let s = b.subset;
        let l = chosen(pv, s, b.choice);
        lemma_slot_member(s, l, 0);
        assert(b.pattern[s[0] as int] == slot(s, l, s[0] as int));
        assert(picks(pv, s, b.choice));
        assert(pv[s[0] as int].consts[b.choice[0] as int] == l[0]);
        assert(pv[s[0] as int].consts.contains(l[0]));
        assert(false);
    }
    lemma_last_branch_is_fallback(fd, x, vals);
    lemma_kept_all(fd.params@.len());
    assert(crate::expand::positions_of(pv, Seq::empty()) =~= Seq::<usize>::empty());
    assert(x.branches@[i]@.args =~= fd.params@.map_values(|p: crate::model::Param| p.name@));
}

/// Whatever branch is taken, the variant it calls sees every parameter with the
/// value the caller passed: each fixed parameter as a const argument equal to
/// its runtime value, every other one forwarded by name, in order.
pub proof fn law_promotion_transparent(fd: FnDecl, x: crate::expand::Expansion, vals: Seq<Seq<char>>, i: int)
    requires
        expands_to(fd, x),
        vals.len() == promotables_of(fd.params@).len(),
        selects(branch_views(x.branches@), vals, i),
    ensures
        ({
            let b = x.branches@[i]@;
            let pv = promotables_of(fd.params@);
            &&& b.target == variant_name(fd.name@, pv, b.subset)
            &&& b.const_args == texts(fd.generics@) + b.subset.map_values(|m: usize| vals[m as int])
            &&& b.args == kept_positions(fd.params@.len(), crate::expand::positions_of(pv, b.subset)).map_values(
                |p: usize| fd.params@[p as int].name@,
            )
        }),
{
    let pv = promotables_of(fd.params@);
    let bs = branch_views(x.branches@);
    let b = x.branches@[i]@;
    assert(bs[i] == b);
    assert(well_formed_branch(fd, pv, b));
    let s = b.subset;
    let l = chosen(pv, s, b.choice);
    assert forall|m: int| 0 <= m < s.len() implies l[m] == vals[s[m] as int] by {
        lemma_slot_member(s, l, m);
        assert(b.pattern[s[m] as int] == slot(s, l, s[m] as int));
    }
    assert(l =~= s.map_values(|m: usize| vals[m as int]));
}

/// Two expansions of one declaration agree on every variant and on every
/// branch, in order.
pub proof fn law_deterministic(fd: FnDecl, x: crate::expand::Expansion, y: crate::expand::Expansion)
    requires
        expands_to(fd, x),
        expands_to(fd, y),
    ensures
        variant_views(x.variants@) == variant_views(y.variants@),
        branch_views(x.branches@) == branch_views(y.branches@),
{
}

/// Every branch of a tier fixes a subset of the tier's size.
proof fn lemma_tier_sizes(fd: FnDecl, ps: Seq<PromotableView>, subs: Seq<Seq<usize>>, size: nat, n: nat)
    requires
        n <= subs.len(),
    ensures
        forall|p: int| 0 <= p < tier(fd, ps, subs, size, n).len() ==> (#[trigger] tier(fd, ps, subs, size, n)[p]).subset.len() == size,
    decreases n,
{
    if n > 0 {
        lemma_tier_sizes(fd, ps, subs, size, (n - 1) as nat);
        let before = tier(fd, ps, subs, size, (n - 1) as nat);
        let s = subs[n - 1];
        if s.len() == size {
            let extra = subset_branches(fd, ps, s);
            assert forall|p: int| 0 <= p < extra.len() implies (#[trigger] extra[p]).subset == s by {}
            assert forall|p: int| 0 <= p < tier(fd, ps, subs, size, n).len() implies (#[trigger] tier(fd, ps, subs, size, n)[p]).subset.len() == size by {
                if p < before.len() {
                    assert(tier(fd, ps, subs, size, n)[p] == before[p]);
                } else {
                    assert(tier(fd, ps, subs, size, n)[p] == extra[p - before.len()]);
                }
            }
        }
    }
}

/// Where in its tier the branches of one subset stand.
proof fn lemma_tier_position(fd: FnDecl, ps: Seq<PromotableView>, subs: Seq<Seq<usize>>, size: nat, n: nat, i0: int, y: int) -> (p: int)
    requires
        n <= subs.len(),
        0 <= i0 < n,
        subs[i0].len() == size,
        0 <= y < subset_branches(fd, ps, subs[i0]).len(),
    ensures
        0 <= p < tier(fd, ps, subs, size, n).len(),
        tier(fd, ps, subs, size, n)[p] == subset_branches(fd, ps, subs[i0])[y],
    decreases n,
{
    let before = tier(fd, ps, subs, size, (n - 1) as nat);
    if i0 == n - 1 {
        before.len() + y
    } else {
        let p = lemma_tier_position(fd, ps, subs, size, (n - 1) as nat, i0, y);
        if subs[n - 1].len() == size {
            assert(tier(fd, ps, subs, size, n) == before + subset_branches(fd, ps, subs[n - 1]));
        }
        p
    }
}

/// When every promotable parameter holds one of its candidates, the dispatcher
/// calls the variant that fixes all of them, with their values as const
/// arguments, and forwards the remaining arguments.
pub proof fn law_most_specific(fd: FnDecl, x: crate::expand::Expansion, vals: Seq<Seq<char>>, i: int)
    requires
        expands_to(fd, x),
        vals.len() == promotables_of(fd.params@).len(),
        forall|j: int| 0 <= j < vals.len() ==> (#[trigger] promotables_of(fd.params@)[j]).consts.contains(vals[j]),
        selects(branch_views(x.branches@), vals, i),
    ensures
        ({
            let b = x.branches@[i]@;
            let pv = promotables_of(fd.params@);
            let all = Seq::new(pv.len(), |j: int| j as usize);
            &&& b.subset == all
            &&& b.target == variant_name(fd.name@, pv, all)
            &&& b.const_args == texts(fd.generics@) + vals
            &&& b.args == kept_positions(fd.params@.len(), positions_of(pv, all)).map_values(
                |p: usize| fd.params@[p as int].name@,
            )
        }),
{
    let pv = promotables_of(fd.params@);
    let k = pv.len();
    let subs = subsets_of(k);
    let bs = branch_views(x.branches@);
    let all = Seq::new(k, |j: int| j as usize);
    let b = x.branches@[i]@;
    assert(bs[i] == b);
    assert(well_formed_branch(fd, pv, b));
    if k > 0 {
        let t = Seq::new(k, |m: int| (choose|c: int| 0 <= c < pv[m].consts.len() && pv[m].consts[c] == vals[m]) as usize);
        assert forall|m: int| 0 <= m < k implies t[m] < pv[m].consts.len() && pv[m].consts[t[m] as int] == vals[m] by {
            assert(pv[m].consts.contains(vals[m]));
            assert(exists|c: int| 0 <= c < pv[m].consts.len() && pv[m].consts[c] == vals[m]);
            assert(pv[m].consts.len() <= usize::MAX);
        }
        let bounds = bounds_of(pv, all);
        assert(below_each(t, bounds));
        let i0 = choose|i0: int| 0 <= i0 < subs.len() && subs[i0] == all;
        assert(covered(pv, subs[i0]));
        assert forall|m: int| 0 <= m < all.len() implies (#[trigger] pv[all[m] as int]).consts.len() > 0 by {
            assert(pv[m].consts.contains(vals[m]));
        }
        assert(index_tuples(bounds).contains(t));
        let y = choose|y: int| 0 <= y < index_tuples(bounds).len() && index_tuples(bounds)[y] == t;
        assert(!(exists|m: int| 0 <= m < all.len() && pv[all[m] as int].consts.len() == 0));
        assert(subset_branches(fd, pv, all)[y] == branch_of(fd, pv, all, t));
        let p = lemma_tier_position(fd, pv, subs, k, subs.len(), i0, y);
        let tk = tier(fd, pv, subs, k, subs.len());
        assert(bs == tk + ordered_branches(fd, pv, subs, (k - 1) as nat));
        assert(bs[p] == branch_of(fd, pv, all, t));
        let l = chosen(pv, all, t);
        assert forall|j: int| 0 <= j < k implies slot(all, l, j) == Some(vals[j]) by {
            lemma_slot_member(all, l, j);
        }
        assert(branch_matches(bs[p], vals));
        assert(i <= p);
        lemma_tier_sizes(fd, pv, subs, k, subs.len());
        assert(bs[i] == tk[i]);
    }
    lemma_increasing_bounds(b.subset, k);
    assert(b.subset =~= all);
    law_promotion_transparent(fd, x, vals, i);
    assert(all.map_values(|m: usize| vals[m as int]) =~= vals);
}

/// A position below `n` that is not removed is kept.
pub proof fn lemma_kept_contains(n: nat, removed: Seq<usize>, p: usize)
    requires
        p < n,
        !removed.contains(p),
    ensures
        kept_positions(n, removed).contains(p),
    decreases n,
{
    let r = kept_positions((n - 1) as nat, removed);
    if p < n - 1 {
        lemma_kept_contains((n - 1) as nat, removed, p);
        let w = choose|w: int| 0 <= w < r.len() && r[w] == p;
        if !removed.contains((n - 1) as usize) {
            assert(kept_positions(n, removed)[w] == p);
        }
    } else {
        assert(kept_positions(n, removed)[r.len() as int] == p);
    }
}

/// A parameter that is not promotable (a receiver, one bound by a pattern, one
/// without a marker) stays a runtime parameter of every variant and is
/// forwarded by every branch of the dispatcher.
pub proof fn law_unpromoted_forwarded(fd: FnDecl, x: crate::expand::Expansion, pos: usize)
    requires
        expands_to(fd, x),
        pos < fd.params@.len(),
        !is_promotable(fd.params@[pos as int]),
    ensures
        forall|i: int| 0 <= i < x.variants@.len() ==> (#[trigger] x.variants@[i])@.runtime.contains(pos),
        forall|i: int| 0 <= i < x.branches@.len() ==> (#[trigger] x.branches@[i])@.args.contains(
            fd.params@[pos as int].name@,
        ),
{
    let pv = promotables_of(fd.params@);
    let subs = subsets_of(pv.len());
    let n = fd.params@.len();
    lemma_promoted_positions(fd.params@);
    assert forall|s: Seq<usize>| increasing_below(s, pv.len()) implies #[trigger] kept_positions(n, positions_of(pv, s)).contains(pos) by {
        if positions_of(pv, s).contains(pos) {
            let w = choose|w: int| 0 <= w < positions_of(pv, s).len() && positions_of(pv, s)[w] == pos;
            assert(pv[s[w] as int].position == promoted_positions(fd.params@)[s[w] as int]);
        }
        lemma_kept_contains(n, positions_of(pv, s), pos);
    }
    assert forall|i: int| 0 <= i < x.variants@.len() implies (#[trigger] x.variants@[i])@.runtime.contains(pos) by {
        assert(variant_views(x.variants@)[i] == x.variants@[i]@);
        assert(increasing_below(subs[i], pv.len()));
    }
    assert forall|i: int| 0 <= i < x.branches@.len() implies (#[trigger] x.branches@[i])@.args.contains(
        fd.params@[pos as int].name@,
    ) by {
        let b = x.branches@[i]@;
        assert(well_formed_branch(fd, pv, b));
        let kept = kept_positions(n, positions_of(pv, b.subset));
        assert(kept.contains(pos));
        let w = choose|w: int| 0 <= w < kept.len() && kept[w] == pos;
        assert(b.args[w] == fd.params@[pos as int].name@);
    }
}

/// The branch taken fixes only parameters whose values are among their
/// candidates, each to the literal equal to its value.
pub proof fn law_fixes_only_matching(fd: FnDecl, x: crate::expand::Expansion, vals: Seq<Seq<char>>, i: int)
    requires
        expands_to(fd, x),
        vals.len() == promotables_of(fd.params@).len(),
        selects(branch_views(x.branches@), vals, i),
    ensures
        forall|m: int|
            0 <= m < x.branches@[i]@.subset.len() ==> promotables_of(fd.params@)[(
            #[trigger] x.branches@[i]@.subset[m]) as int].consts.contains(vals[x.branches@[i]@.subset[m] as int]),
{
    let pv = promotables_of(fd.params@);
    let b = x.branches@[i]@;
    assert(branch_views(x.branches@)[i] == b);
    assert(well_formed_branch(fd, pv, b));
    let s = b.subset;
    let l = chosen(pv, s, b.choice);
    assert forall|m: int| 0 <= m < s.len() implies pv[(#[trigger] s[m]) as int].consts.contains(vals[s[m] as int]) by {
        lemma_slot_member(s, l, m);
        assert(b.pattern[s[m] as int] == slot(s, l, s[m] as int));
        assert(pv[s[m] as int].consts[b.choice[m] as int] == l[m]);
    }
}

/// The indices below `n` whose values are among their candidates, in order.
pub open spec fn matching(ps: Seq<PromotableView>, vals: Seq<Seq<char>>, n: nat) -> Seq<usize>
    decreases n,
{
    if n == 0 {
        Seq::empty()
    } else {
        let r = matching(ps, vals, (n - 1) as nat);
        if ps[n - 1].consts.contains(vals[n - 1]) {
            r.push((n - 1) as usize)
        } else {
            r
        }
    }
}

/// `matching` is increasing and holds exactly the indices whose values match.
proof fn lemma_matching(ps: Seq<PromotableView>, vals: Seq<Seq<char>>, n: nat)
    requires
        n <= usize::MAX,
    ensures
        increasing_below(matching(ps, vals, n), n),
        forall|j: int| 0 <= j < n ==> (matching(ps, vals, n).contains(j as usize) <==> #[trigger] ps[j].consts.contains(vals[j])),
    decreases n,
{
    if n > 0 {
        let r = matching(ps, vals, (n - 1) as nat);
        lemma_matching(ps, vals, (n - 1) as nat);
        let q = matching(ps, vals, n);
        if ps[n - 1].consts.contains(vals[n - 1]) {
            assert(q == r.push((n - 1) as usize));
            assert forall|a: int, b: int| 0 <= a < b < q.len() implies q[a] < q[b] by {
                assert(q[a] == r[a]);
                if b < r.len() {
                    assert(q[b] == r[b]);
                }
            }
            assert forall|a: int| 0 <= a < q.len() implies q[a] < n by {
                if a < r.len() {
                    assert(q[a] == r[a]);
                }
            }
            assert forall|j: int| 0 <= j < n implies (q.contains(j as usize) <==> #[trigger] ps[j].consts.contains(vals[j])) by {
                if j < n - 1 {
                    if r.contains(j as usize) {
                        let w = choose|w: int| 0 <= w < r.len() && r[w] == j as usize;
                        assert(q[w] == j as usize);
                    }
                    if q.contains(j as usize) {
                        let w = choose|w: int| 0 <= w < q.len() && q[w] == j as usize;
                        assert(w < r.len());
                        assert(r[w] == j as usize);
                    }
                } else {
                    assert(q[r.len() as int] == j as usize);
                }
            }
        } else {
            assert(q == r);
            assert forall|j: int| 0 <= j < n implies (q.contains(j as usize) <==> #[trigger] ps[j].consts.contains(vals[j])) by {
                if j == n - 1 && q.contains(j as usize) {
                    let w = choose|w: int| 0 <= w < q.len() && q[w] == j as usize;
                }
            }
        }
    }
}

/// A position outside `s` is free in the pattern.
proof fn lemma_slot_outside(s: Seq<usize>, l: Seq<Seq<char>>, j: int)
    requires
        !s.contains(j as usize),
        0 <= j <= usize::MAX,
    ensures
        slot(s, l, j) is None,
    decreases s.len(),
{
    if s.len() > 0 {
        assert(!s.drop_last().contains(j as usize)) by {
            if s.drop_last().contains(j as usize) {
                let w = choose|w: int| 0 <= w < s.drop_last().len() && s.drop_last()[w] == j as usize;
                assert(s[w] == j as usize);
            }
        }
        if s.last() == j {
            assert(s[s.len() - 1] == j as usize);
        }
        lemma_slot_outside(s.drop_last(), l.drop_last(), j);
    }
}

/// The branches before the tier of `target` fix more than `target` members.
proof fn lemma_ordered_split(fd: FnDecl, ps: Seq<PromotableView>, subs: Seq<Seq<usize>>, size: nat, target: nat) -> (o: int)
    requires
        1 <= target <= size,
    ensures
        0 <= o,
        o + tier(fd, ps, subs, target, subs.len()).len() <= ordered_branches(fd, ps, subs, size).len(),
        forall|q: int| 0 <= q < o ==> (#[trigger] ordered_branches(fd, ps, subs, size)[q]).subset.len() > target,
        forall|q: int| 0 <= q < tier(fd, ps, subs, target, subs.len()).len() ==> ordered_branches(fd, ps, subs, size)[o + q]
            == #[trigger] tier(fd, ps, subs, target, subs.len())[q],
    decreases size,
{
    let tk = tier(fd, ps, subs, size, subs.len());
    let rest = ordered_branches(fd, ps, subs, (size - 1) as nat);
    assert(ordered_branches(fd, ps, subs, size) == tk + rest);
    if size == target {
        0
    } else {
        let o1 = lemma_ordered_split(fd, ps, subs, (size - 1) as nat, target);
        lemma_tier_sizes(fd, ps, subs, size, subs.len());
        assert forall|q: int| 0 <= q < tk.len() + o1 implies (#[trigger] ordered_branches(fd, ps, subs, size)[q]).subset.len() > target by {
            if q < tk.len() {
                assert(ordered_branches(fd, ps, subs, size)[q] == tk[q]);
            } else {
                assert(ordered_branches(fd, ps, subs, size)[q] == rest[q - tk.len()]);
            }
        }
        tk.len() + o1
    }
}

/// An increasing `s` inside an increasing `t`, at least as long, equals it.
proof fn lemma_increasing_inside(s: Seq<usize>, t: Seq<usize>, k: nat)
    requires
        increasing_below(s, k),
        increasing_below(t, k),
        forall|m: int| 0 <= m < s.len() ==> t.contains(#[trigger] s[m]),
        s.len() >= t.len(),
        k <= usize::MAX,
    ensures
        s == t,
{
    lemma_increasing_bounds(t, k);
    let idx = Seq::new(s.len(), |m: int| (choose|w: int| 0 <= w < t.len() && t[w] == s[m]) as usize);
    assert forall|m: int| 0 <= m < s.len() implies 0 <= #[trigger] idx[m] < t.len() && t[idx[m] as int] == s[m] by {
        assert(t.contains(s[m]));
        assert(exists|w: int| 0 <= w < t.len() && t[w] == s[m]);
    }
    assert(increasing_below(idx, t.len())) by {
        assert forall|a: int, b: int| 0 <= a < b < idx.len() implies idx[a] < idx[b] by {
            assert(t[idx[a] as int] == s[a] && t[idx[b] as int] == s[b]);
            if idx[a] >= idx[b] {
                if idx[a] > idx[b] {
                    assert(t[idx[b] as int] < t[idx[a] as int]);
                }
            }
        }
    }
    lemma_increasing_bounds(idx, t.len());
    assert forall|m: int| 0 <= m < s.len() implies s[m] == t[m] by {
        assert(idx[m] == m);
    }
    assert(s =~= t);
}

/// The branch taken fixes exactly the parameters whose values are among their
/// candidates, each to its value; every other argument is forwarded.
pub proof fn law_routes_to_matching(fd: FnDecl, x: crate::expand::Expansion, vals: Seq<Seq<char>>, i: int)
    requires
        expands_to(fd, x),
        vals.len() == promotables_of(fd.params@).len(),
        selects(branch_views(x.branches@), vals, i),
    ensures
        forall|j: int|
            0 <= j < vals.len() ==> (x.branches@[i]@.subset.contains(j as usize) <==> #[trigger] promotables_of(
                fd.params@,
            )[j].consts.contains(vals[j])),
{
    let pv = promotables_of(fd.params@);
    let k = pv.len();
    let subs = subsets_of(k);
    let bs = branch_views(x.branches@);
    let b = x.branches@[i]@;
    let s = b.subset;
    let star = matching(pv, vals, k);
    assert(bs[i] == b);
    assert(well_formed_branch(fd, pv, b));
    lemma_matching(pv, vals, k);
    law_fixes_only_matching(fd, x, vals, i);
    assert forall|m: int| 0 <= m < s.len() implies star.contains(#[trigger] s[m]) by {
        assert(pv[s[m] as int].consts.contains(vals[s[m] as int]));
        assert(s[m] < k);
    }
    if star.len() > 0 {
        let t = Seq::new(star.len(), |m: int| (choose|c: int| 0 <= c < pv[star[m] as int].consts.len() && pv[star[m] as int].consts[c] == vals[star[m] as int]) as usize);
        assert forall|m: int| 0 <= m < star.len() implies t[m] < pv[star[m] as int].consts.len() && pv[star[m] as int].consts[t[m] as int] == vals[star[m] as int] by {
            assert(star.contains(star[m]));
            assert(pv[star[m] as int].consts.contains(vals[star[m] as int]));
            assert(exists|c: int| 0 <= c < pv[star[m] as int].consts.len() && pv[star[m] as int].consts[c] == vals[star[m] as int]);
            assert(pv[star[m] as int].consts.len() <= usize::MAX);
        }
        let bounds = bounds_of(pv, star);
        assert(below_each(t, bounds));
        assert(subs.contains(star));
        let i0 = choose|i0: int| 0 <= i0 < subs.len() && subs[i0] == star;
        assert(covered(pv, subs[i0]));
        assert forall|m: int| 0 <= m < star.len() implies (#[trigger] pv[star[m] as int]).consts.len() > 0 by {
            assert(pv[star[m] as int].consts[t[m] as int] == vals[star[m] as int]);
        }
        assert(index_tuples(bounds).contains(t));
        let y = choose|y: int| 0 <= y < index_tuples(bounds).len() && index_tuples(bounds)[y] == t;
        assert(!(exists|m: int| 0 <= m < star.len() && pv[star[m] as int].consts.len() == 0));
        assert(subset_branches(fd, pv, star)[y] == branch_of(fd, pv, star, t));
        let pt = lemma_tier_position(fd, pv, subs, star.len(), subs.len(), i0, y);
        lemma_increasing_bounds(star, k);
        let o = lemma_ordered_split(fd, pv, subs, k, star.len());
        let tk = tier(fd, pv, subs, star.len(), subs.len());
        assert(bs[o + pt] == branch_of(fd, pv, star, t));
        let l = chosen(pv, star, t);
        assert forall|j: int| 0 <= j < k && branch_of(fd, pv, star, t).pattern[j] is Some implies branch_of(fd, pv, star, t).pattern[j]->0 == vals[j] by {
            if star.contains(j as usize) {
                let w = choose|w: int| 0 <= w < star.len() && star[w] == j as usize;
                lemma_slot_member(star, l, w);
            } else {
                lemma_slot_outside(star, l, j);
            }
        }
        assert(branch_matches(bs[o + pt], vals));
        assert(i <= o + pt);
        lemma_tier_sizes(fd, pv, subs, star.len(), subs.len());
        if i >= o {
            assert(bs[i] == tk[i - o]);
        }
        lemma_increasing_inside(s, star, k);
    } else {
        if s.len() > 0 {
            assert(star.contains(s[0]));
        }
        assert(s =~= star);
    }
}

/// Every branch fixes one of the 2^k subsets of the promotable parameters, so
/// grouping the branches by the subset they fix gives at most 2^k groups.
pub proof fn law_branch_groups(fd: FnDecl, x: crate::expand::Expansion)
    requires
        expands_to(fd, x),
    ensures
        subsets_of(promotables_of(fd.params@).len()).len() == pow2(promotables_of(fd.params@).len()),
        forall|i: int|
            0 <= i < x.branches@.len() ==> subsets_of(promotables_of(fd.params@).len()).contains(
                (#[trigger] x.branches@[i])@.subset,
            ),
{
    let pv = promotables_of(fd.params@);
    assert forall|i: int| 0 <= i < x.branches@.len() implies subsets_of(pv.len()).contains(
        (#[trigger] x.branches@[i])@.subset,
    ) by {
        assert(well_formed_branch(fd, pv, x.branches@[i]@));
        assert(increasing_below(x.branches@[i]@.subset, pv.len()));
    }
}

} // verus!
