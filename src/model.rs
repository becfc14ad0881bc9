use vstd::prelude::*;

verus! {

/// How a parameter binds its argument.
#[derive(Clone, Copy, Debug, PartialEq, Eq, Structural)]
pub enum ParamKind {
    /// `self`, `&self`, `&mut self`.
    Receiver,
    /// A plain identifier binding.
    Ident,
    /// Any other pattern (a tuple or struct destructuring).
    Pattern,
}

/// The candidate payload of a promotion marker.
#[derive(Clone, Debug)]
pub enum Consts {
    /// An array expression; each element's source text.
    List(Vec<String>),
    /// Something other than an array expression.
    NotAnArray,
}

/// A promotion marker attached to a parameter.
#[derive(Clone, Debug)]
pub struct Marker {
    /// The optional dispatch alias, as written.
    pub dispatch: Option<String>,
    pub consts: Consts,
}

/// One parameter of the input declaration.
#[derive(Clone, Debug)]
pub struct Param {
    pub kind: ParamKind,
    /// The name the dispatcher forwards the argument by: the bound identifier,
    /// `self` for a receiver, and for a pattern the identifier under which the
    /// dispatcher binds the argument before forwarding it.
    pub name: String,
    /// The declared type's text.
    pub ty: String,
    pub marker: Option<Marker>,
}

/// The parts of a function declaration that the expansion reads.
#[derive(Clone, Debug)]
pub struct FnDecl {
    pub name: String,
    /// Names of the existing type and const generic parameters, in order; each
    /// call in the dispatcher passes them on before any promoted constant.
    pub generics: Vec<String>,
    pub params: Vec<Param>,
}

/// Why a declaration cannot be expanded. Positions are parameter positions.
#[derive(Clone, Copy, Debug, PartialEq, Eq, Structural)]
pub enum ExpandError {
    /// The marker's `consts` payload is not an array.
    NotAnArray(usize),
    /// The marker's dispatch alias is not a valid identifier.
    BadAlias(usize),
    /// An element of the marker's `consts` array is not a literal.
    NotALiteral(usize),
    /// More promotable parameters than `MAX_PROMOTED`.
    TooManyPromoted,
    /// Two generated variants would carry the same name.
    NameCollision,
}

/// The largest number of promotable parameters in one declaration.
pub const MAX_PROMOTED: usize = 12;

/// The views of a sequence of strings.
pub open spec fn texts(v: Seq<String>) -> Seq<Seq<char>> {
    v.map_values(|s: String| s@)
}

/// Pushing a string pushes its view.
pub broadcast proof fn lemma_texts_push(v: Seq<String>, x: String)
    ensures
        #[trigger] texts(v.push(x)) == texts(v).push(x@),
{
    assert(texts(v.push(x)) =~= texts(v).push(x@));
}

/// The view at an index is the view of the string there.
pub broadcast proof fn lemma_texts_index(v: Seq<String>, i: int)
    requires
        0 <= i < v.len(),
    ensures
        #[trigger] texts(v)[i] == v[i]@,
{
}

/// The views of a sequence of optional strings.
pub open spec fn opt_texts(v: Seq<Option<String>>) -> Seq<Option<Seq<char>>> {
    v.map_values(|o: Option<String>| match o {
        Some(s) => Some(s@),
        None => None,
    })
}

/// Pushing an optional string pushes its view.
pub broadcast proof fn lemma_opt_texts_push(v: Seq<Option<String>>, x: Option<String>)
    ensures
        #[trigger] opt_texts(v.push(x)) == opt_texts(v).push(
            match x {
                Some(s) => Some(s@),
                None => None,
            },
        ),
{
    assert(opt_texts(v.push(x)) =~= opt_texts(v).push(
        match x {
            Some(s) => Some(s@),
            None => None,
        },
    ));
}

/// The view of one optional string.
pub broadcast proof fn lemma_opt_texts_index(v: Seq<Option<String>>, i: int)
    requires
        0 <= i < v.len(),
    ensures
        #[trigger] opt_texts(v)[i] == match v[i] {
            Some(s) => Some(s@),
            None => None,
        },
        opt_texts(v).len() == v.len(),
{
}

/// A parameter is promoted when it is bound by an identifier and marked.
pub open spec fn is_promotable(p: Param) -> bool {
    p.kind == ParamKind::Ident && p.marker is Some
}

/// The name used for a promotable parameter in generated names.
pub open spec fn alias_of(p: Param) -> Seq<char> {
    match p.marker {
        Some(m) => match m.dispatch {
            Some(a) => a@,
            None => p.name@,
        },
        None => p.name@,
    }
}

/// The candidate literals of a marked parameter (empty when there are none).
pub open spec fn candidates_of(p: Param) -> Seq<Seq<char>> {
    match p.marker {
        Some(m) => match m.consts {
            Consts::List(v) => texts(v@),
            Consts::NotAnArray => Seq::empty(),
        },
        None => Seq::empty(),
    }
}

/// Positions of the promotable parameters, in declaration order.
pub open spec fn promoted_positions(ps: Seq<Param>) -> Seq<usize>
    decreases ps.len(),
{
    if ps.len() == 0 {
        Seq::empty()
    } else {
        let r = promoted_positions(ps.drop_last());
        if is_promotable(ps.last()) {
            r.push((ps.len() - 1) as usize)
        } else {
            r
        }
    }
}

/// A sequence of indices, strictly increasing and each below `n`.
pub open spec fn increasing_below(s: Seq<usize>, n: nat) -> bool {
    &&& forall|i: int| 0 <= i < s.len() ==> s[i] < n
    &&& forall|i: int, j: int| 0 <= i < j < s.len() ==> s[i] < s[j]
}

/// An increasing sequence below `n` has at most `n` members, and its member at
/// `i` lies between `i` and `n - (len - i)`.
pub proof fn lemma_increasing_bounds(s: Seq<usize>, n: nat)
    requires
        increasing_below(s, n),
    ensures
        s.len() <= n,
        forall|i: int| 0 <= i < s.len() ==> i <= #[trigger] s[i] <= n - (s.len() - i),
    decreases s.len(),
{
    if s.len() > 0 {
        let t = s.drop_last();
        let last = s.last();
        assert forall|i: int| 0 <= i < t.len() implies #[trigger] t[i] < last as nat by {
            assert(t[i] == s[i]);
        }
        assert(increasing_below(t, last as nat)) by {
            assert forall|a: int, b: int| 0 <= a < b < t.len() implies t[a] < t[b] by {
                assert(t[a] == s[a] && t[b] == s[b]);
            }
        }
        lemma_increasing_bounds(t, last as nat);
        assert forall|i: int| 0 <= i < s.len() implies i <= #[trigger] s[i] <= n - (s.len() - i) by {
            if i < t.len() {
                assert(t[i] == s[i]);
            }
        }
    }
}

} // verus!
