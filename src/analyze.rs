use vstd::prelude::*;
use crate::model::{alias_of, candidates_of, increasing_below, is_promotable, promoted_positions, texts, Consts, ExpandError, Param, ParamKind};
use crate::outside::{is_ident_text, is_literal_text, parses_as_ident, parses_as_literal};

verus! {

/// A parameter offered for promotion, with its configuration read.
#[derive(Clone, Debug)]
pub struct Promotable {
    /// Its position in the declaration's parameter list.
    pub position: usize,
    /// The dispatch alias (the parameter's name unless one is given).
    pub alias: String,
    /// The candidate literals, in the order written.
    pub consts: Vec<String>,
}

/// The mathematical content of a `Promotable`.
pub struct PromotableView {
    pub position: usize,
    pub alias: Seq<char>,
    pub consts: Seq<Seq<char>>,
}

impl View for Promotable {
    type V = PromotableView;

    open spec fn view(&self) -> PromotableView {
        PromotableView { position: self.position, alias: self.alias@, consts: texts(self.consts@) }
    }
}

/// The views of a sequence of promotable parameters.
pub open spec fn promotable_views(v: Seq<Promotable>) -> Seq<PromotableView> {
    v.map_values(|p: Promotable| p@)
}

/// The view of one promotable parameter.
pub broadcast proof fn lemma_promotable_views_index(v: Seq<Promotable>, i: int)
    requires
        0 <= i < v.len(),
    ensures
        #[trigger] promotable_views(v)[i] == v[i]@,
        promotable_views(v).len() == v.len(),
{
}

/// The promotable parameters of a parameter list, as the analysis reads them.
pub open spec fn promotables_of(ps: Seq<Param>) -> Seq<PromotableView> {
    promoted_positions(ps).map_values(
        |pos: usize|
            PromotableView {
                position: pos,
                alias: alias_of(ps[pos as int]),
                consts: candidates_of(ps[pos as int]),
            },
    )
}

/// What is wrong with the marker of the parameter at `pos`, given whether its
/// alias (if any) is an identifier and whether its candidates are all literals.
/// A marker on a parameter that is not promotable is ignored.
pub open spec fn config_fault(p: Param, pos: usize, alias_ok: bool, literals_ok: bool) -> Option<ExpandError> {
    if !is_promotable(p) {
        None
    } else if p.marker->0.dispatch is Some && !alias_ok {
        Some(ExpandError::BadAlias(pos))
    } else {
        match p.marker->0.consts {
            Consts::NotAnArray => Some(ExpandError::NotAnArray(pos)),
            Consts::List(_) => if literals_ok {
                None
            } else {
                Some(ExpandError::NotALiteral(pos))
            },
        }
    }
}

/// Whether the marker's alias, if it has one, parses as an identifier.
pub open spec fn alias_parses(p: Param) -> bool {
    match p.marker {
        Some(m) => match m.dispatch {
            Some(a) => is_ident_text(a@),
            None => true,
        },
        None => true,
    }
}

/// Whether every candidate of the marker parses as a literal.
pub open spec fn candidates_parse(p: Param) -> bool {
    match p.marker {
        Some(m) => match m.consts {
            Consts::List(v) => forall|c: int| 0 <= c < v@.len() ==> is_literal_text(#[trigger] v@[c]@),
            Consts::NotAnArray => true,
        },
        None => true,
    }
}

/// What is wrong with the marker of the parameter at `pos`, if anything.
pub open spec fn marker_error(p: Param, pos: usize) -> Option<ExpandError> {
    config_fault(p, pos, alias_parses(p), candidates_parse(p))
}

/// Decides what is wrong with the marker of `p` at `pos`, given whether its
/// alias is an identifier and whether its candidates are all literals.
pub fn marker_fault(p: &Param, pos: usize, alias_ok: bool, literals_ok: bool) -> (r: Option<ExpandError>)
    ensures
        r == config_fault(*p, pos, alias_ok, literals_ok),
{
    if p.kind != ParamKind::Ident {
        return None;
    }
    match &p.marker {
        None => None,
        Some(m) => {
            if m.dispatch.is_some() && !alias_ok {
                Some(ExpandError::BadAlias(pos))
            } else {
                match &m.consts {
                    Consts::NotAnArray => Some(ExpandError::NotAnArray(pos)),
                    Consts::List(_) => if literals_ok {
                        None
                    } else {
                        Some(ExpandError::NotALiteral(pos))
                    },
                }
            }
        },
    }
}

/// No parameter carries a malformed marker.
pub open spec fn markers_valid(ps: Seq<Param>) -> bool {
    forall|i: int| 0 <= i < ps.len() ==> (#[trigger] marker_error(ps[i], i as usize)) is None
}

/// `e` is the error of the first parameter with a malformed marker.
pub open spec fn first_marker_error(ps: Seq<Param>, e: ExpandError) -> bool {
    exists|i: int|
        0 <= i < ps.len() && marker_error(ps[i], i as usize) == Some(e) && forall|j: int|
            0 <= j < i ==> (#[trigger] marker_error(ps[j], j as usize)) is None
}

/// `v` describes the promotable parameters of `ps`, in declaration order.
pub open spec fn describes(v: Seq<Promotable>, ps: Seq<Param>) -> bool {
    let pp = promoted_positions(ps);
    &&& v.len() == pp.len()
    &&& forall|m: int|
        0 <= m < v.len() ==> {
            &&& (#[trigger] v[m]).position == pp[m]
            &&& v[m].alias@ == alias_of(ps[pp[m] as int])
            &&& texts(v[m].consts@) == candidates_of(ps[pp[m] as int])
        }
}

/// The promoted positions are increasing, lie inside the list, and name
/// promotable parameters.
pub proof fn lemma_promoted_positions(ps: Seq<Param>)
    requires
        ps.len() <= usize::MAX,
    ensures
        increasing_below(promoted_positions(ps), ps.len()),
        forall|m: int|
            0 <= m < promoted_positions(ps).len() ==> is_promotable(
                #[trigger] ps[promoted_positions(ps)[m] as int],
            ),
    decreases ps.len(),
{
    if ps.len() > 0 {
        let ps0 = ps.drop_last();
        let r = promoted_positions(ps0);
        lemma_promoted_positions(ps0);
        assert forall|m: int| 0 <= m < r.len() implies #[trigger] r[m] < ps.len() - 1 && is_promotable(ps[r[m] as int]) by {
            assert(is_promotable(ps0[r[m] as int]));
            assert(ps0[r[m] as int] == ps[r[m] as int]);
        }
        if is_promotable(ps.last()) {
            let q = r.push((ps.len() - 1) as usize);
            assert(promoted_positions(ps) == q);
            assert forall|a: int, b: int| 0 <= a < b < q.len() implies q[a] < q[b] by {
                assert(q[a] == r[a]);
                if b < r.len() {
                    assert(q[b] == r[b]);
                }
            }
            assert forall|m: int| 0 <= m < q.len() implies #[trigger] q[m] < ps.len() && is_promotable(ps[q[m] as int]) by {
                if m < r.len() {
                    assert(q[m] == r[m]);
                }
            }
        } else {
            assert(promoted_positions(ps) == r);
        }
    }
}

/// Whether every text parses as a literal.
fn all_literals(v: &Vec<String>) -> (r: bool)
    ensures
        r == forall|c: int| 0 <= c < v@.len() ==> is_literal_text(#[trigger] v@[c]@),
        v@.len() <= usize::MAX,
{
    let mut c: usize = 0;
    while c < v.len()
        invariant
            c <= v@.len(),
            forall|d: int| 0 <= d < c ==> is_literal_text(#[trigger] v@[d]@),
        decreases v@.len() - c,
    {
        if !parses_as_literal(&v[c]) {
            return false;
        }
        c += 1;
    }
    true
}

/// Reads the promotion markers of the parameters: the promotable parameters
/// in declaration order, or the first malformed marker.
pub fn analyze(params: &Vec<Param>) -> (r: Result<Vec<Promotable>, ExpandError>)
    ensures
        match r {
            Ok(v) => markers_valid(params@) && describes(v@, params@) && promotable_views(v@)
                == promotables_of(params@) && forall|m: int| 0 <= m < v@.len() ==> (#[trigger] v@[m]).consts@.len() <= usize::MAX,
            Err(e) => first_marker_error(params@, e),
        },
{
    let mut out: Vec<Promotable> = Vec::new();
    let mut i: usize = 0;
    while i < params.len()
        invariant
            i <= params@.len(),
            markers_valid(params@.subrange(0, i as int)),
            describes(out@, params@.subrange(0, i as int)),
            forall|m: int| 0 <= m < out@.len() ==> #[trigger] out@[m].position < i,
            forall|m: int| 0 <= m < out@.len() ==> (#[trigger] out@[m]).consts@.len() <= usize::MAX,
        decreases params@.len() - i,
    {
        let ghost pre = params@.subrange(0, i as int);
        let ghost next = params@.subrange(0, i + 1);
        assert(next.drop_last() =~= pre);
        assert(next.last() == params@[i as int]);
        assert forall|j: int| 0 <= j < i implies (#[trigger] marker_error(params@[j], j as usize)) is None by {
            assert(pre[j] == params@[j]);
        }
        let p = &params[i];
        if let Some(m) = &p.marker {
            let alias_ok = match &m.dispatch {
                Some(a) => parses_as_ident(a),
                None => true,
            };
            let literals_ok = match &m.consts {
                Consts::List(v) => all_literals(v),
                Consts::NotAnArray => true,
            };
            if let Some(e) = marker_fault(p, i, alias_ok, literals_ok) {
                assert(marker_error(params@[i as int], i) == Some(e));
                return Err(e);
            }
            if p.kind == ParamKind::Ident {
                let alias = match &m.dispatch {
                    Some(a) => a.clone(),
                    None => p.name.clone(),
                };
                if let Consts::List(v) = &m.consts {
                    let consts = v.clone();
                    assert(texts(consts@) =~= texts(v@));
                    out.push(Promotable { position: i, alias, consts });
                }
            }
        }
        proof {
            assert forall|j: int| 0 <= j < i + 1 implies (#[trigger] marker_error(next[j], j as usize)) is None by {
                assert(next[j] == params@[j]);
            }
            let pp = promoted_positions(next);
            assert forall|m: int| 0 <= m < out@.len() implies {
                &&& (#[trigger] out@[m]).position == pp[m]
                &&& out@[m].alias@ == alias_of(next[pp[m] as int])
                &&& texts(out@[m].consts@) == candidates_of(next[pp[m] as int])
            } by {
                let pq = promoted_positions(pre);
                lemma_promoted_positions(pre);
                if m < pq.len() {
                    assert(pre[pq[m] as int] == next[pq[m] as int]);
                }
            }
        }
        i += 1;
    }
    assert(params@.subrange(0, params@.len() as int) =~= params@);
    assert(promotable_views(out@) =~= promotables_of(params@));
    Ok(out)
}

} // verus!
