use vstd::prelude::*;
use vstd::arithmetic::power2::pow2;
use itertools::Itertools;
use crate::model::{increasing_below, texts, MAX_PROMOTED};

verus! {

/// Whether `syn` accepts the text as an identifier.
pub uninterp spec fn is_ident_text(s: Seq<char>) -> bool;

/// Whether `syn` accepts the text as a literal.
pub uninterp spec fn is_literal_text(s: Seq<char>) -> bool;

/// The subsets of `0..n`, in the order in which itertools enumerates them.
pub uninterp spec fn subsets_of(n: nat) -> Seq<Seq<usize>>;

/// The index tuples below `bounds`, in the order in which itertools enumerates them.
pub uninterp spec fn index_tuples(bounds: Seq<usize>) -> Seq<Seq<usize>>;

/// The views of a sequence of index vectors.
pub open spec fn index_lists(v: Seq<Vec<usize>>) -> Seq<Seq<usize>> {
    v.map_values(|x: Vec<usize>| x@)
}

/// The parts joined with one underscore between neighbours.
pub open spec fn underscore_joined(parts: Seq<Seq<char>>) -> Seq<char>
    decreases parts.len(),
{
    if parts.len() == 0 {
        Seq::empty()
    } else if parts.len() == 1 {
        parts[0]
    } else {
        underscore_joined(parts.drop_last()) + seq!['_'] + parts.last()
    }
}

/// `t` picks one index below each bound.
pub open spec fn below_each(t: Seq<usize>, bounds: Seq<usize>) -> bool {
    &&& t.len() == bounds.len()
    &&& forall|j: int| 0 <= j < t.len() ==> t[j] < bounds[j]
}

/// Relies on `syn::parse_str::<syn::Ident>`: succeeds exactly on identifier text
/// that is not a keyword.
#[verifier::external_body]
pub(crate) fn parses_as_ident(s: &String) -> (r: bool)
    ensures
        r == is_ident_text(s@),
{
    syn::parse_str::<syn::Ident>(s).is_ok()
}

/// Relies on `syn::parse_str::<syn::Lit>`: succeeds exactly on literal text.
#[verifier::external_body]
pub(crate) fn parses_as_literal(s: &String) -> (r: bool)
    ensures
        r == is_literal_text(s@),
{
    syn::parse_str::<syn::Lit>(s).is_ok()
}

/// Relies on `Itertools::join`: the parts separated by `_`.
#[verifier::external_body]
pub(crate) fn join_underscore(parts: &Vec<String>) -> (r: String)
    ensures
        r@ == underscore_joined(texts(parts@)),
{
    parts.iter().join("_")
}

/// Relies on `Itertools::powerset` over `0..n`: all 2^n subsets, each listing
/// its members in increasing order.
#[verifier::external_body]
pub(crate) fn position_subsets(n: usize) -> (r: Vec<Vec<usize>>)
    requires
        n <= MAX_PROMOTED,
    ensures
        index_lists(r@) == subsets_of(n as nat),
        r@.len() == pow2(n as nat),
        forall|i: int| 0 <= i < r@.len() ==> increasing_below(#[trigger] r@[i]@, n as nat),
        forall|s: Seq<usize>| #[trigger] increasing_below(s, n as nat) ==> index_lists(r@).contains(s),
{
    (0..n).powerset().collect()
}

/// Relies on `Itertools::multi_cartesian_product` over the ranges `0..b`: each
/// tuple picks one index below each bound, and every such tuple comes exactly once.
#[verifier::external_body]
pub(crate) fn tuples_below(bounds: &Vec<usize>) -> (r: Vec<Vec<usize>>)
    requires
        bounds@.len() > 0,
    ensures
        index_lists(r@) == index_tuples(bounds@),
        forall|i: int| 0 <= i < r@.len() ==> (#[trigger] r@[i]@).len() == bounds@.len(),
        forall|i: int, j: int|
            0 <= i < r@.len() && 0 <= j < bounds@.len() ==> #[trigger] r@[i]@[j] < bounds@[j],
        forall|t: Seq<usize>| #[trigger] below_each(t, bounds@) ==> index_lists(r@).contains(t),
        forall|i: int, j: int| 0 <= i < j < r@.len() ==> #[trigger] r@[i]@ != #[trigger] r@[j]@,
{
    bounds.iter().map(|b| 0..*b).multi_cartesian_product().collect()
}

} // verus!
