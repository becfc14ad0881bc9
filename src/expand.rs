use vstd::prelude::*;
use vstd::arithmetic::power2::pow2;
use crate::model::{lemma_increasing_bounds, ExpandError, MAX_PROMOTED, increasing_below, lemma_opt_texts_index, lemma_opt_texts_push, lemma_texts_index, lemma_texts_push, opt_texts, texts, FnDecl};
use crate::analyze::{analyze, first_marker_error, lemma_promoted_positions, markers_valid, promotables_of, lemma_promotable_views_index, promotable_views, Promotable, PromotableView};
use crate::outside::{below_each, position_subsets, subsets_of, index_lists, index_tuples, join_underscore, tuples_below, underscore_joined};

verus! {

broadcast use {
    lemma_texts_push,
    lemma_texts_index,
    lemma_opt_texts_push,
    lemma_opt_texts_index,
    lemma_promotable_views_index,
};

/// One arm of the dispatcher's match.
#[derive(Clone, Debug)]
pub struct Branch {
    /// Indices, into the promotable parameters, of those the branch fixes.
    pub subset: Vec<usize>,
    /// For each fixed parameter, the index of the candidate it takes.
    pub choice: Vec<usize>,
    /// One entry per promotable parameter: a literal, or `None` for any value.
    pub pattern: Vec<Option<String>>,
    /// The variant called.
    pub target: String,
    /// The const generic arguments: the declaration's own, then the chosen literals.
    pub const_args: Vec<String>,
    /// The runtime arguments forwarded, by name.
    pub args: Vec<String>,
}

/// The mathematical content of a `Branch`.
pub struct BranchView {
    pub subset: Seq<usize>,
    pub choice: Seq<usize>,
    pub pattern: Seq<Option<Seq<char>>>,
    pub target: Seq<char>,
    pub const_args: Seq<Seq<char>>,
    pub args: Seq<Seq<char>>,
}

impl View for Branch {
    type V = BranchView;

    open spec fn view(&self) -> BranchView {
        BranchView {
            subset: self.subset@,
            choice: self.choice@,
            pattern: opt_texts(self.pattern@),
            target: self.target@,
            const_args: texts(self.const_args@),
            args: texts(self.args@),
        }
    }
}

/// The text `orig`, which names the variant that fixes nothing.
pub open spec fn orig_text() -> Seq<char> {
    seq!['o', 'r', 'i', 'g']
}

/// The name of the variant that fixes the promotable parameters with indices `s`.
pub open spec fn variant_name(base: Seq<char>, ps: Seq<PromotableView>, s: Seq<usize>) -> Seq<char> {
    let tail = if s.len() == 0 {
        seq![orig_text()]
    } else {
        s.map_values(|m: usize| ps[m as int].alias)
    };
    underscore_joined(seq![base] + tail)
}

/// The parameter positions of the promotable parameters with indices `s`.
pub open spec fn positions_of(ps: Seq<PromotableView>, s: Seq<usize>) -> Seq<usize> {
    s.map_values(|m: usize| ps[m as int].position)
}

/// The positions below `n` that are not in `removed`, in increasing order.
pub open spec fn kept_positions(n: nat, removed: Seq<usize>) -> Seq<usize>
    decreases n,
{
    if n == 0 {
        Seq::empty()
    } else {
        let r = kept_positions((n - 1) as nat, removed);
        if removed.contains((n - 1) as usize) {
            r
        } else {
            r.push((n - 1) as usize)
        }
    }
}

/// The literals that tuple `t` picks for the members of `s`.
pub open spec fn chosen(ps: Seq<PromotableView>, s: Seq<usize>, t: Seq<usize>) -> Seq<Seq<char>> {
    Seq::new(s.len(), |m: int| ps[s[m] as int].consts[t[m] as int])
}

/// The pattern entry of position `j` when the members `s` take the literals `l`.
pub open spec fn slot(s: Seq<usize>, l: Seq<Seq<char>>, j: int) -> Option<Seq<char>>
    decreases s.len(),
{
    if s.len() == 0 {
        None
    } else if s.last() == j {
        Some(l.last())
    } else {
        slot(s.drop_last(), l.drop_last(), j)
    }
}

/// The branch that calls the variant for `s` with the literals that `t` picks.
pub open spec fn branch_of(fd: FnDecl, ps: Seq<PromotableView>, s: Seq<usize>, t: Seq<usize>) -> BranchView {
    let l = chosen(ps, s, t);
    BranchView {
        subset: s,
        choice: t,
        pattern: Seq::new(ps.len(), |j: int| slot(s, l, j)),
        target: variant_name(fd.name@, ps, s),
        const_args: texts(fd.generics@) + l,
        args: kept_positions(fd.params@.len(), positions_of(ps, s)).map_values(
            |p: usize| fd.params@[p as int].name@,
        ),
    }
}

/// `ps` describes promotable parameters at distinct increasing positions of `fd`.
pub open spec fn fits(fd: FnDecl, ps: Seq<PromotableView>) -> bool {
    &&& fd.params@.len() <= usize::MAX
    &&& forall|m: int| 0 <= m < ps.len() ==> (#[trigger] ps[m]).position < fd.params@.len()
    &&& forall|a: int, b: int| 0 <= a < b < ps.len() ==> ps[a].position < ps[b].position
}

/// `t` picks one candidate of each member of `s`.
pub open spec fn picks(ps: Seq<PromotableView>, s: Seq<usize>, t: Seq<usize>) -> bool {
    &&& t.len() == s.len()
    &&& forall|m: int| 0 <= m < s.len() ==> #[trigger] t[m] < ps[s[m] as int].consts.len()
}

/// The name of the variant for `s`.
fn name_for(base: &String, ps: &Vec<Promotable>, s: &Vec<usize>) -> (r: String)
    requires
        forall|m: int| 0 <= m < s@.len() ==> #[trigger] s@[m] < promotable_views(ps@).len(),
    ensures
        r@ == variant_name(base@, promotable_views(ps@), s@),
{
    let mut parts: Vec<String> = Vec::new();
    parts.push(base.clone());
    if s.len() == 0 {
        let o = "orig".to_owned();
        proof {
            reveal_strlit("orig");
        }
        parts.push(o);
        assert(parts@[1]@ == orig_text());
        assert(texts(parts@) =~= seq![base@] + seq![orig_text()]);
    } else {
        let mut m: usize = 0;
        while m < s.len()
            invariant
                m <= s@.len(),
                forall|x: int| 0 <= x < s@.len() ==> #[trigger] s@[x] < promotable_views(ps@).len(),
                texts(parts@) =~= seq![base@] + s@.subrange(0, m as int).map_values(
                    |i: usize| promotable_views(ps@)[i as int].alias,
                ),
            decreases s@.len() - m,
        {
            parts.push(ps[s[m]].alias.clone());
            m += 1;
        }
        assert(s@.subrange(0, s@.len() as int) =~= s@);
    }
    join_underscore(&parts)
}

/// Whether `x` occurs in `v`.
fn contains_index(v: &Vec<usize>, x: usize) -> (r: bool)
    ensures
        r == v@.contains(x),
{
    let mut i: usize = 0;
    while i < v.len()
        invariant
            i <= v@.len(),
            forall|j: int| 0 <= j < i ==> v@[j] != x,
        decreases v@.len() - i,
    {
        if v[i] == x {
            return true;
        }
        i += 1;
    }
    false
}

/// The positions below `n` that are not in `removed`.
fn kept(n: usize, removed: &Vec<usize>) -> (r: Vec<usize>)
    ensures
        r@ == kept_positions(n as nat, removed@),
{
    let mut out: Vec<usize> = Vec::new();
    let mut p: usize = 0;
    while p < n
        invariant
            p <= n,
            out@ == kept_positions(p as nat, removed@),
        decreases n - p,
    {
        if !contains_index(removed, p) {
            out.push(p);
        }
        p += 1;
    }
    out
}

/// Kept positions lie below `n`, increase, and avoid `removed`.
pub proof fn lemma_kept_below(n: nat, removed: Seq<usize>)
    requires
        n <= usize::MAX + 1,
    ensures
        increasing_below(kept_positions(n, removed), n),
        forall|x: int|
            0 <= x < kept_positions(n, removed).len() ==> !removed.contains(
                #[trigger] kept_positions(n, removed)[x],
            ),
    decreases n,
{
    if n > 0 {
        let r = kept_positions((n - 1) as nat, removed);
        lemma_kept_below((n - 1) as nat, removed);
        if !removed.contains((n - 1) as usize) {
            let q = r.push((n - 1) as usize);
            assert(kept_positions(n, removed) == q);
            assert forall|a: int, b: int| 0 <= a < b < q.len() implies q[a] < q[b] by {
                assert(q[a] == r[a]);
                if b < r.len() {
                    assert(q[b] == r[b]);
                }
            }
            assert forall|x: int| 0 <= x < q.len() implies #[trigger] q[x] < n && !removed.contains(q[x]) by {
                if x < r.len() {
                    assert(q[x] == r[x]);
                }
            }
        }
    }
}

/// The pattern entries after the first `m` members take their literals.
proof fn lemma_slot_step(s: Seq<usize>, l: Seq<Seq<char>>, m: int, j: int)
    requires
        0 <= m < s.len(),
        s.len() == l.len(),
    ensures
        slot(s.subrange(0, m + 1), l.subrange(0, m + 1), j) == if s[m] == j {
            Some(l[m])
        } else {
            slot(s.subrange(0, m), l.subrange(0, m), j)
        },
{
    assert(s.subrange(0, m + 1).drop_last() =~= s.subrange(0, m));
    assert(l.subrange(0, m + 1).drop_last() =~= l.subrange(0, m));
}

/// Builds the branch that calls the variant for `s` with the literals `t` picks.
pub fn make_branch(fd: &FnDecl, ps: &Vec<Promotable>, s: &Vec<usize>, t: &Vec<usize>) -> (b: Branch)
    requires
        fits(*fd, promotable_views(ps@)),
        increasing_below(s@, promotable_views(ps@).len()),
        picks(promotable_views(ps@), s@, t@),
    ensures
        b@ == branch_of(*fd, promotable_views(ps@), s@, t@),
{
    let ghost l = chosen(promotable_views(ps@), s@, t@);
    let mut lits: Vec<String> = Vec::new();
    let mut positions: Vec<usize> = Vec::new();
    let mut m: usize = 0;
    while m < s.len()
        invariant
            m <= s@.len(),
            increasing_below(s@, promotable_views(ps@).len()),
            picks(promotable_views(ps@), s@, t@),
            l == chosen(promotable_views(ps@), s@, t@),
            texts(lits@) =~= l.subrange(0, m as int),
            positions@ =~= positions_of(promotable_views(ps@), s@).subrange(0, m as int),
        decreases s@.len() - m,
    {
        let c = &ps[s[m]];
        lits.push(c.consts[t[m]].clone());
        positions.push(c.position);
        m += 1;
    }
    assert(positions_of(promotable_views(ps@), s@).subrange(0, s@.len() as int) =~= positions_of(promotable_views(ps@), s@));
    assert(l.subrange(0, s@.len() as int) =~= l);
    let mut pattern: Vec<Option<String>> = Vec::new();
    let mut j: usize = 0;
    while j < ps.len()
        invariant
            j <= promotable_views(ps@).len(),
            opt_texts(pattern@) =~= Seq::new(j as nat, |x: int| slot(Seq::empty(), Seq::empty(), x)),
        decreases promotable_views(ps@).len() - j,
    {
        pattern.push(None);
        j += 1;
    }
    assert(s@.subrange(0, 0) =~= Seq::<usize>::empty());
    assert(l.subrange(0, 0) =~= Seq::<Seq<char>>::empty());
    let mut m: usize = 0;
    while m < s.len()
        invariant
            m <= s@.len(),
            increasing_below(s@, promotable_views(ps@).len()),
            texts(lits@) == l,
            l.len() == s@.len(),
            pattern@.len() == promotable_views(ps@).len(),
            opt_texts(pattern@) =~= Seq::new(
                promotable_views(ps@).len(),
                |x: int| slot(s@.subrange(0, m as int), l.subrange(0, m as int), x),
            ),
        decreases s@.len() - m,
    {
        let ghost before = pattern@;
        let x = lits[m].clone();
        pattern.set(s[m], Some(x));
        proof {
            assert forall|y: int| 0 <= y < promotable_views(ps@).len() implies opt_texts(pattern@)[y] == slot(
                s@.subrange(0, m + 1),
                l.subrange(0, m + 1),
                y,
            ) by {
                lemma_slot_step(s@, l, m as int, y);
                if y != s@[m as int] {
                    assert(pattern@[y] == before[y]);
                    assert(opt_texts(before)[y] == slot(s@.subrange(0, m as int), l.subrange(0, m as int), y));
                }
            }
        }
        m += 1;
    }
    assert(s@.subrange(0, s@.len() as int) =~= s@);
    let mut const_args: Vec<String> = Vec::new();
    let mut g: usize = 0;
    while g < fd.generics.len()
        invariant
            g <= fd.generics@.len(),
            texts(const_args@) =~= texts(fd.generics@).subrange(0, g as int),
        decreases fd.generics@.len() - g,
    {
        const_args.push(fd.generics[g].clone());
        g += 1;
    }
    let mut m: usize = 0;
    while m < lits.len()
        invariant
            m <= lits@.len(),
            texts(lits@) == l,
            texts(const_args@) =~= texts(fd.generics@) + l.subrange(0, m as int),
        decreases lits@.len() - m,
    {
        const_args.push(lits[m].clone());
        m += 1;
    }
    assert(l.subrange(0, l.len() as int) =~= l);
    let keep = kept(fd.params.len(), &positions);
    proof {
        lemma_kept_below(fd.params@.len(), positions@);
    }
    let mut args: Vec<String> = Vec::new();
    let mut a: usize = 0;
    while a < keep.len()
        invariant
            a <= keep@.len(),
            keep@ == kept_positions(fd.params@.len(), positions@),
            forall|x: int| 0 <= x < keep@.len() ==> #[trigger] keep@[x] < fd.params@.len(),
            texts(args@) =~= keep@.subrange(0, a as int).map_values(|p: usize| fd.params@[p as int].name@),
        decreases keep@.len() - a,
    {
        args.push(fd.params[keep[a]].name.clone());
        a += 1;
    }
    assert(keep@.subrange(0, keep@.len() as int) =~= keep@);
    let target = name_for(&fd.name, ps, s);
    let subset = s.clone();
    let choice = t.clone();
    assert(subset@ =~= s@);
    assert(choice@ =~= t@);
    Branch { subset, choice, pattern, target, const_args, args }
}

/// The views of a sequence of branches.
pub open spec fn branch_views(v: Seq<Branch>) -> Seq<BranchView> {
    v.map_values(|b: Branch| b@)
}

/// Pushing a branch pushes its view.
proof fn lemma_branch_views_push(v: Seq<Branch>, b: Branch)
    ensures
        branch_views(v.push(b)) == branch_views(v).push(b@),
{
    assert(branch_views(v.push(b)) =~= branch_views(v).push(b@));
}

/// The number of candidates of each member of `s`.
pub open spec fn bounds_of(ps: Seq<PromotableView>, s: Seq<usize>) -> Seq<usize> {
    s.map_values(|m: usize| ps[m as int].consts.len() as usize)
}

/// The branches for subset `s`: one per choice of candidates, none when `s` is
/// empty or a member has no candidates.
pub open spec fn subset_branches(fd: FnDecl, ps: Seq<PromotableView>, s: Seq<usize>) -> Seq<BranchView> {
    if s.len() == 0 || exists|m: int| 0 <= m < s.len() && ps[s[m] as int].consts.len() == 0 {
        Seq::empty()
    } else {
        index_tuples(bounds_of(ps, s)).map_values(|t: Seq<usize>| branch_of(fd, ps, s, t))
    }
}

/// The branches of the first `i` subsets that have `size` members, in order.
pub open spec fn tier(fd: FnDecl, ps: Seq<PromotableView>, subs: Seq<Seq<usize>>, size: nat, i: nat) -> Seq<BranchView>
    decreases i,
{
    if i == 0 {
        Seq::empty()
    } else {
        let before = tier(fd, ps, subs, size, (i - 1) as nat);
        if subs[i - 1].len() == size {
            before + subset_branches(fd, ps, subs[i - 1])
        } else {
            before
        }
    }
}

/// The dispatcher's branches: subsets of `size` members first, then smaller
/// ones, and last the branch that calls the fallback with every argument.
pub open spec fn ordered_branches(fd: FnDecl, ps: Seq<PromotableView>, subs: Seq<Seq<usize>>, size: nat) -> Seq<BranchView>
    decreases size,
{
    if size == 0 {
        seq![branch_of(fd, ps, Seq::empty(), Seq::empty())]
    } else {
        tier(fd, ps, subs, size, subs.len()) + ordered_branches(fd, ps, subs, (size - 1) as nat)
    }
}

/// When each member of `s` has a candidate, every choice of candidates for
/// them comes exactly once among the index tuples its branches are built from.
pub open spec fn covered(ps: Seq<PromotableView>, s: Seq<usize>) -> bool {
    let tuples = index_tuples(bounds_of(ps, s));
    (s.len() > 0 && forall|m: int| 0 <= m < s.len() ==> (#[trigger] ps[s[m] as int]).consts.len() > 0) ==> {
        &&& tuples.no_duplicates()
        &&& forall|t: Seq<usize>| #[trigger] below_each(t, bounds_of(ps, s)) ==> tuples.contains(t)
    }
}

/// `b` is a branch of `fd` that fixes a subset of `size` or fewer members.
pub open spec fn well_formed_branch(fd: FnDecl, ps: Seq<PromotableView>, b: BranchView) -> bool {
    &&& increasing_below(b.subset, ps.len())
    &&& picks(ps, b.subset, b.choice)
    &&& b == branch_of(fd, ps, b.subset, b.choice)
}

/// Appends the branches for subset `s`.
fn push_subset_branches(fd: &FnDecl, ps: &Vec<Promotable>, s: &Vec<usize>, out: &mut Vec<Branch>)
    requires
        fits(*fd, promotable_views(ps@)),
        increasing_below(s@, ps@.len()),
    ensures
        branch_views(final(out)@) == branch_views(old(out)@) + subset_branches(*fd, promotable_views(ps@), s@),
        forall|i: int| 0 <= i < final(out)@.len() ==> if i < old(out)@.len() {
            #[trigger] final(out)@[i] == old(out)@[i]
        } else {
            well_formed_branch(*fd, promotable_views(ps@), final(out)@[i]@) && final(out)@[i]@.subset == s@
        },
        covered(promotable_views(ps@), s@),
{
    let ghost pv = promotable_views(ps@);
    let ghost start = out@;
    if s.len() == 0 {
        assert(branch_views(out@) =~= branch_views(start) + subset_branches(*fd, pv, s@));
        return;
    }
    let mut bounds: Vec<usize> = Vec::new();
    let mut m: usize = 0;
    while m < s.len()
        invariant
            m <= s@.len(),
            increasing_below(s@, ps@.len()),
            pv == promotable_views(ps@),
            bounds@ =~= bounds_of(pv, s@).subrange(0, m as int),
            out@ == start,
            forall|x: int| 0 <= x < m ==> pv[s@[x] as int].consts.len() > 0,
        decreases s@.len() - m,
    {
        let n = ps[s[m]].consts.len();
        if n == 0 {
            assert(pv[s@[m as int] as int].consts.len() == 0);
            assert(subset_branches(*fd, pv, s@) == Seq::<BranchView>::empty());
            assert(branch_views(out@) =~= branch_views(start) + subset_branches(*fd, pv, s@));
            return;
        }
        bounds.push(n);
        m += 1;
    }
    assert(bounds@ =~= bounds_of(pv, s@));
    let tuples = tuples_below(&bounds);
    let mut i: usize = 0;
    while i < tuples.len()
        invariant
            i <= tuples@.len(),
            fits(*fd, pv),
            increasing_below(s@, ps@.len()),
            pv == promotable_views(ps@),
            bounds@ == bounds_of(pv, s@),
            index_lists(tuples@) == index_tuples(bounds@),
            forall|x: int| 0 <= x < tuples@.len() ==> (#[trigger] tuples@[x]@).len() == bounds@.len(),
            forall|x: int, j: int|
                0 <= x < tuples@.len() && 0 <= j < bounds@.len() ==> #[trigger] tuples@[x]@[j] < bounds@[j],
            start.len() <= out@.len(),
            branch_views(out@) =~= branch_views(start) + index_tuples(bounds@).subrange(0, i as int).map_values(
                |t: Seq<usize>| branch_of(*fd, pv, s@, t),
            ),
            forall|x: int| 0 <= x < out@.len() ==> if x < start.len() {
                #[trigger] out@[x] == start[x]
            } else {
                well_formed_branch(*fd, pv, out@[x]@) && out@[x]@.subset == s@
            },
        decreases tuples@.len() - i,
    {
        let t = &tuples[i];
        assert(index_tuples(bounds@)[i as int] == t@);
        assert(picks(pv, s@, t@)) by {
            assert forall|x: int| 0 <= x < s@.len() implies #[trigger] t@[x] < pv[s@[x] as int].consts.len() by {
                assert(t@[x] < bounds@[x]);
            }
        }
        let b = make_branch(fd, ps, s, t);
        proof {
            lemma_branch_views_push(out@, b);
        }
        out.push(b);
        i += 1;
    }
    assert(index_tuples(bounds@).subrange(0, tuples@.len() as int) =~= index_tuples(bounds@));
}

/// The dispatcher's branches for the subsets `subs`, most specific first, the
/// fallback branch last.
pub fn dispatch_branches(fd: &FnDecl, ps: &Vec<Promotable>, subs: &Vec<Vec<usize>>) -> (r: Vec<Branch>)
    requires
        fits(*fd, promotable_views(ps@)),
        forall|i: int| 0 <= i < subs@.len() ==> increasing_below(#[trigger] subs@[i]@, ps@.len()),
    ensures
        branch_views(r@) == ordered_branches(*fd, promotable_views(ps@), index_lists(subs@), ps@.len()),
        r@.len() > 0,
        forall|i: int| 0 <= i < r@.len() ==> well_formed_branch(*fd, promotable_views(ps@), #[trigger] r@[i]@),
        forall|i: int| 0 <= i < r@.len() ==> ((#[trigger] r@[i]@.subset.len() == 0) <==> i == r@.len() - 1),
        forall|x: int| 0 <= x < subs@.len() ==> covered(promotable_views(ps@), #[trigger] index_lists(subs@)[x]),
{
    let ghost pv = promotable_views(ps@);
    let ghost sv = index_lists(subs@);
    let ghost k = ps@.len();
    let mut out: Vec<Branch> = Vec::new();
    let mut size: usize = ps.len();
    assert forall|x: int| 0 <= x < sv.len() implies (#[trigger] sv[x]).len() <= k by {
        assert(sv[x] == subs@[x]@);
        lemma_increasing_bounds(sv[x], k);
    }
    assert(branch_views(out@) + ordered_branches(*fd, pv, sv, k) =~= ordered_branches(*fd, pv, sv, k));
    while size > 0
        invariant
            size <= k,
            k == ps@.len(),
            pv == promotable_views(ps@),
            sv == index_lists(subs@),
            fits(*fd, pv),
            forall|i: int| 0 <= i < subs@.len() ==> increasing_below(#[trigger] subs@[i]@, ps@.len()),
            branch_views(out@) + ordered_branches(*fd, pv, sv, size as nat) == ordered_branches(*fd, pv, sv, k),
            forall|x: int| 0 <= x < out@.len() ==> well_formed_branch(*fd, pv, #[trigger] out@[x]@)
                && out@[x]@.subset.len() > size,
            forall|x: int| 0 <= x < sv.len() && sv[x].len() > size ==> covered(pv, #[trigger] sv[x]),
        decreases size,
    {
        let ghost outer = out@;
        let mut i: usize = 0;
        while i < subs.len()
            invariant
                i <= subs@.len(),
                0 < size <= k,
                k == ps@.len(),
                pv == promotable_views(ps@),
                sv == index_lists(subs@),
                fits(*fd, pv),
                forall|i: int| 0 <= i < subs@.len() ==> increasing_below(#[trigger] subs@[i]@, ps@.len()),
                branch_views(out@) == branch_views(outer) + tier(*fd, pv, sv, size as nat, i as nat),
                forall|x: int| 0 <= x < out@.len() ==> well_formed_branch(*fd, pv, #[trigger] out@[x]@)
                    && out@[x]@.subset.len() >= size,
                forall|x: int| 0 <= x < sv.len() && (sv[x].len() > size || (x < i && sv[x].len() == size)) ==> covered(pv, #[trigger] sv[x]),
            decreases subs@.len() - i,
        {
            let ghost before = out@;
            assert(sv[i as int] == subs@[i as int]@);
            if subs[i].len() == size {
                push_subset_branches(fd, ps, &subs[i], &mut out);
                assert(branch_views(out@) =~= branch_views(outer) + tier(*fd, pv, sv, size as nat, (i + 1) as nat));
                assert forall|x: int| 0 <= x < out@.len() implies well_formed_branch(*fd, pv, #[trigger] out@[x]@)
                    && out@[x]@.subset.len() >= size by {
                    if x < before.len() {
                        assert(out@[x] == before[x]);
                    }
                }
            } else {
                assert(tier(*fd, pv, sv, size as nat, (i + 1) as nat) == tier(*fd, pv, sv, size as nat, i as nat));
            }
            i += 1;
        }
        assert(branch_views(out@) + ordered_branches(*fd, pv, sv, (size - 1) as nat) =~= ordered_branches(*fd, pv, sv, k)) by {
            assert(ordered_branches(*fd, pv, sv, size as nat) == tier(*fd, pv, sv, size as nat, subs@.len() as nat) + ordered_branches(*fd, pv, sv, (size - 1) as nat));
            assert(sv.len() == subs@.len());
            assert(branch_views(outer) + ordered_branches(*fd, pv, sv, size as nat) == ordered_branches(*fd, pv, sv, k));
        }
        size -= 1;
    }
    let none: Vec<usize> = Vec::new();
    assert(increasing_below(none@, ps@.len()));
    let fallback = make_branch(fd, ps, &none, &none);
    proof {
        lemma_branch_views_push(out@, fallback);
        assert(none@ =~= Seq::<usize>::empty());
        assert(ordered_branches(*fd, pv, sv, 0) == seq![fallback@]);
    }
    let ghost before = out@;
    out.push(fallback);
    assert(branch_views(out@) =~= ordered_branches(*fd, pv, sv, k));
    assert forall|x: int| 0 <= x < out@.len() implies well_formed_branch(*fd, pv, #[trigger] out@[x]@) by {
        if x < before.len() {
            assert(out@[x] == before[x]);
        }
    }
    assert forall|x: int| 0 <= x < out@.len() implies ((#[trigger] out@[x]@.subset.len() == 0) <==> x == out@.len() - 1) by {
        if x < before.len() {
            assert(out@[x] == before[x]);
        }
    }
    out
}

/// One generated function: the declaration with the members of `subset` turned
/// into const generic parameters of the same name and type.
#[derive(Clone, Debug)]
pub struct Variant {
    pub name: String,
    /// Indices, into the promotable parameters, of those made constant.
    pub subset: Vec<usize>,
    /// Parameter positions that become const generic parameters, in order.
    pub promoted: Vec<usize>,
    /// Parameter positions that stay runtime parameters, in order.
    pub runtime: Vec<usize>,
}

/// The mathematical content of a `Variant`.
pub struct VariantView {
    pub name: Seq<char>,
    pub subset: Seq<usize>,
    pub promoted: Seq<usize>,
    pub runtime: Seq<usize>,
}

impl View for Variant {
    type V = VariantView;

    open spec fn view(&self) -> VariantView {
        VariantView {
            name: self.name@,
            subset: self.subset@,
            promoted: self.promoted@,
            runtime: self.runtime@,
        }
    }
}

/// The views of a sequence of variants.
pub open spec fn variant_views(v: Seq<Variant>) -> Seq<VariantView> {
    v.map_values(|x: Variant| x@)
}

/// The variant that fixes the members of `s`.
pub open spec fn variant_of(fd: FnDecl, ps: Seq<PromotableView>, s: Seq<usize>) -> VariantView {
    VariantView {
        name: variant_name(fd.name@, ps, s),
        subset: s,
        promoted: positions_of(ps, s),
        runtime: kept_positions(fd.params@.len(), positions_of(ps, s)),
    }
}

/// Builds the variant that fixes the members of `s`.
pub fn make_variant(fd: &FnDecl, ps: &Vec<Promotable>, s: &Vec<usize>) -> (v: Variant)
    requires
        fits(*fd, promotable_views(ps@)),
        increasing_below(s@, ps@.len()),
    ensures
        v@ == variant_of(*fd, promotable_views(ps@), s@),
{
    let mut promoted: Vec<usize> = Vec::new();
    let mut m: usize = 0;
    while m < s.len()
        invariant
            m <= s@.len(),
            increasing_below(s@, ps@.len()),
            promoted@ =~= positions_of(promotable_views(ps@), s@).subrange(0, m as int),
        decreases s@.len() - m,
    {
        promoted.push(ps[s[m]].position);
        m += 1;
    }
    assert(positions_of(promotable_views(ps@), s@).subrange(0, s@.len() as int) =~= positions_of(promotable_views(ps@), s@));
    let runtime = kept(fd.params.len(), &promoted);
    let name = name_for(&fd.name, ps, s);
    let subset = s.clone();
    assert(subset@ =~= s@);
    Variant { name, subset, promoted, runtime }
}

/// The variant names of the subsets `subs` are pairwise different.
pub open spec fn names_distinct(fd: FnDecl, ps: Seq<PromotableView>, subs: Seq<Seq<usize>>) -> bool {
    forall|a: int, b: int|
        0 <= a < b < subs.len() ==> #[trigger] variant_name(fd.name@, ps, subs[a]) != #[trigger] variant_name(
            fd.name@,
            ps,
            subs[b],
        )
}

/// Whether some two variants carry the same name.
fn has_duplicate_name(vs: &Vec<Variant>) -> (r: bool)
    ensures
        r == exists|a: int, b: int| 0 <= a < b < vs@.len() && vs@[a].name@ == vs@[b].name@,
{
    let mut b: usize = 0;
    while b < vs.len()
        invariant
            b <= vs@.len(),
            forall|x: int, y: int| 0 <= x < y < b ==> vs@[x].name@ != vs@[y].name@,
        decreases vs@.len() - b,
    {
        let mut a: usize = 0;
        while a < b
            invariant
                a <= b < vs@.len(),
                forall|x: int| 0 <= x < a ==> vs@[x].name@ != vs@[b as int].name@,
            decreases b - a,
        {
            if vs[a].name == vs[b].name {
                return true;
            }
            a += 1;
        }
        b += 1;
    }
    false
}

/// The promotable parameters lie at increasing positions of the declaration.
pub proof fn lemma_promotables_fit(fd: FnDecl)
    requires
        fd.params@.len() <= usize::MAX,
    ensures
        fits(fd, promotables_of(fd.params@)),
{
    lemma_promoted_positions(fd.params@);
}

/// The whole expansion of a declaration.
#[derive(Clone, Debug)]
pub struct Expansion {
    /// The promotable parameters, in declaration order; the dispatcher matches
    /// on their values in this order.
    pub promotables: Vec<Promotable>,
    /// The dispatcher's match arms, in order; the first that matches is taken.
    pub branches: Vec<Branch>,
    /// The generated variants, one per subset of the promotable parameters.
    pub variants: Vec<Variant>,
}

/// `x` is the expansion of `fd`.
pub open spec fn expands_to(fd: FnDecl, x: Expansion) -> bool {
    let pv = promotables_of(fd.params@);
    let k = pv.len();
    let subs = subsets_of(k);
    &&& markers_valid(fd.params@)
    &&& k <= MAX_PROMOTED
    &&& promotable_views(x.promotables@) == pv
    &&& fits(fd, pv)
    &&& forall|m: int| 0 <= m < k ==> (#[trigger] pv[m]).consts.len() <= usize::MAX
    &&& subs.len() == pow2(k)
    &&& forall|i: int| 0 <= i < subs.len() ==> increasing_below(#[trigger] subs[i], k)
    &&& subs.contains(Seq::new(k, |j: int| j as usize))
    &&& forall|s: Seq<usize>| #[trigger] increasing_below(s, k) ==> subs.contains(s)
    &&& forall|i: int| 0 <= i < subs.len() ==> covered(pv, #[trigger] subs[i])
    &&& x.variants@.len() == pow2(k)
    &&& variant_views(x.variants@) == subs.map_values(|s: Seq<usize>| variant_of(fd, pv, s))
    &&& names_distinct(fd, pv, subs)
    &&& branch_views(x.branches@) == ordered_branches(fd, pv, subs, k)
    &&& x.branches@.len() > 0
    &&& forall|i: int| 0 <= i < x.branches@.len() ==> well_formed_branch(fd, pv, #[trigger] x.branches@[i]@)
    &&& forall|i: int|
        0 <= i < x.branches@.len() ==> ((#[trigger] x.branches@[i]@.subset.len() == 0) <==> i == x.branches@.len() - 1)
}

/// `e` is the error that expanding `fd` reports.
pub open spec fn fails_with(fd: FnDecl, e: ExpandError) -> bool {
    let pv = promotables_of(fd.params@);
    let k = pv.len();
    ||| first_marker_error(fd.params@, e)
    ||| markers_valid(fd.params@) && k > MAX_PROMOTED && e == ExpandError::TooManyPromoted
    ||| markers_valid(fd.params@) && k <= MAX_PROMOTED && !names_distinct(
        fd,
        pv,
        subsets_of(k),
    ) && e == ExpandError::NameCollision
}

/// Expands a declaration into its dispatcher's branches and its variants, or
/// reports why it cannot.
pub fn expand(fd: &FnDecl) -> (r: Result<Expansion, ExpandError>)
    ensures
        match r {
            Ok(x) => expands_to(*fd, x),
            Err(e) => fails_with(*fd, e),
        },
{
    let ps = match analyze(&fd.params) {
        Ok(ps) => ps,
        Err(e) => {
            return Err(e);
        },
    };
    let ghost pv = promotables_of(fd.params@);
    if ps.len() > MAX_PROMOTED {
        return Err(ExpandError::TooManyPromoted);
    }
    let param_count: usize = fd.params.len();
    assert(param_count == fd.params@.len());
    proof {
        lemma_promotables_fit(*fd);
    }
    let subs = position_subsets(ps.len());
    let ghost sv = subsets_of(ps@.len() as nat);
    assert(ps@.len() == pv.len());
    assert(increasing_below(Seq::new(pv.len(), |j: int| j as usize), pv.len()));
    assert forall|i: int| 0 <= i < sv.len() implies increasing_below(#[trigger] sv[i], pv.len()) by {
        assert(sv[i] == subs@[i]@);
    }
    let mut variants: Vec<Variant> = Vec::new();
    let mut i: usize = 0;
    while i < subs.len()
        invariant
            i <= subs@.len(),
            pv == promotable_views(ps@),
            fits(*fd, pv),
            sv == index_lists(subs@),
            forall|x: int| 0 <= x < subs@.len() ==> increasing_below(#[trigger] subs@[x]@, ps@.len()),
            variant_views(variants@) =~= sv.subrange(0, i as int).map_values(
                |s: Seq<usize>| variant_of(*fd, pv, s),
            ),
        decreases subs@.len() - i,
    {
        let v = make_variant(fd, &ps, &subs[i]);
        proof {
            assert(variant_views(variants@.push(v)) =~= variant_views(variants@).push(v@));
        }
        variants.push(v);
        i += 1;
    }
    assert(sv.subrange(0, subs@.len() as int) =~= sv);
    if has_duplicate_name(&variants) {
        proof {
            let (a, b) = choose|a: int, b: int| 0 <= a < b < variants@.len() && variants@[a].name@ == variants@[b].name@;
            assert(variant_views(variants@)[a] == variants@[a]@);
            assert(variant_views(variants@)[b] == variants@[b]@);
            assert(variant_name(fd.name@, pv, sv[a]) == variant_name(fd.name@, pv, sv[b]));
        }
        return Err(ExpandError::NameCollision);
    }
    proof {
        assert forall|a: int, b: int| 0 <= a < b < sv.len() implies #[trigger] variant_name(fd.name@, pv, sv[a])
            != #[trigger] variant_name(fd.name@, pv, sv[b]) by {
            assert(variant_views(variants@)[a] == variants@[a]@);
            assert(variant_views(variants@)[b] == variants@[b]@);
        }
    }
    let branches = dispatch_branches(fd, &ps, &subs);
    Ok(Expansion { promotables: ps, branches, variants })
}

/// The pattern of `b` accepts the values `vals` of the promotable parameters.
pub open spec fn branch_matches(b: BranchView, vals: Seq<Seq<char>>) -> bool {
    forall|j: int|
        0 <= j < b.pattern.len() && (#[trigger] b.pattern[j]) is Some ==> j < vals.len() && b.pattern[j]->0
            == vals[j]
}

/// Branch `i` is the first whose pattern accepts `vals`.
pub open spec fn selects(bs: Seq<BranchView>, vals: Seq<Seq<char>>, i: int) -> bool {
    &&& 0 <= i < bs.len()
    &&& branch_matches(bs[i], vals)
    &&& forall|j: int| 0 <= j < i ==> !branch_matches(#[trigger] bs[j], vals)
}

/// Whether the pattern of `b` accepts `vals`.
fn matches_values(b: &Branch, vals: &Vec<String>) -> (r: bool)
    ensures
        r == branch_matches(b@, texts(vals@)),
{
    let mut j: usize = 0;
    while j < b.pattern.len()
        invariant
            j <= b.pattern@.len(),
            forall|x: int|
                0 <= x < j && (#[trigger] b@.pattern[x]) is Some ==> x < vals@.len() && b@.pattern[x]->0
                    == texts(vals@)[x],
        decreases b.pattern@.len() - j,
    {
        if let Some(lit) = &b.pattern[j] {
            if j >= vals.len() {
                assert(b@.pattern[j as int] is Some);
                return false;
            }
            if *lit != vals[j] {
                assert(b@.pattern[j as int]->0 != texts(vals@)[j as int]);
                return false;
            }
        }
        j += 1;
    }
    true
}

impl Expansion {
    /// The index of the branch that the dispatcher takes for the values `vals`
    /// of the promotable parameters (each as literal text, in order): the first
    /// whose pattern accepts them.
    pub fn route(&self, vals: &Vec<String>) -> (r: Option<usize>)
        ensures
            match r {
                Some(i) => selects(branch_views(self.branches@), texts(vals@), i as int),
                None => forall|i: int|
                    0 <= i < self.branches@.len() ==> !branch_matches(#[trigger] self.branches@[i]@, texts(vals@)),
            },
    {
        let mut i: usize = 0;
        while i < self.branches.len()
            invariant
                i <= self.branches@.len(),
                forall|x: int| 0 <= x < i ==> !branch_matches(#[trigger] self.branches@[x]@, texts(vals@)),
            decreases self.branches@.len() - i,
        {
            if matches_values(&self.branches[i], vals) {
                proof {
                    assert forall|x: int| 0 <= x < i implies !branch_matches(#[trigger] branch_views(self.branches@)[x], texts(vals@)) by {
                        assert(branch_views(self.branches@)[x] == self.branches@[x]@);
                    }
                }
                return Some(i);
            }
            i += 1;
        }
        None
    }
}

} // verus!
