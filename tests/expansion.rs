use const_currying::analyze::{analyze, marker_fault};
use const_currying::expand::{expand, make_branch, make_variant, Expansion};
use const_currying::model::{Consts, ExpandError, FnDecl, Marker, Param, ParamKind, MAX_PROMOTED};

fn s(t: &str) -> String {
    t.to_string()
}

fn texts(v: &[&str]) -> Vec<String> {
    v.iter().map(|t| t.to_string()).collect()
}

fn plain(name: &str, ty: &str) -> Param {
    Param { kind: ParamKind::Ident, name: s(name), ty: s(ty), marker: None }
}

fn marked(name: &str, ty: &str, dispatch: Option<&str>, consts: &[&str]) -> Param {
    Param {
        kind: ParamKind::Ident,
        name: s(name),
        ty: s(ty),
        marker: Some(Marker { dispatch: dispatch.map(s), consts: Consts::List(texts(consts)) }),
    }
}

fn decl(name: &str, generics: &[&str], params: Vec<Param>) -> FnDecl {
    FnDecl { name: s(name), generics: texts(generics), params }
}

fn worked_example() -> FnDecl {
    decl(
        "base",
        &[],
        vec![
            marked("A", "i32", None, &["0", "1"]),
            marked("B", "bool", None, &["true", "false"]),
            plain("C", "&str"),
        ],
    )
}

fn names(x: &Expansion) -> Vec<String> {
    x.variants.iter().map(|v| v.name.clone()).collect()
}

fn routed<'a>(x: &'a Expansion, vals: &[&str]) -> &'a const_currying::expand::Branch {
    let i = x.route(&texts(vals)).expect("some branch matches");
    &x.branches[i]
}

#[test]
fn worked_example_variant_names() {
    let x = expand(&worked_example()).unwrap();
    assert_eq!(names(&x), texts(&["base_orig", "base_A", "base_B", "base_A_B"]));
}

#[test]
fn worked_example_both_match() {
    let x = expand(&worked_example()).unwrap();
    let b = routed(&x, &["1", "true"]);
    assert_eq!(b.target, "base_A_B");
    assert_eq!(b.const_args, texts(&["1", "true"]));
    assert_eq!(b.args, texts(&["C"]));
}

#[test]
fn worked_example_second_matches() {
    let x = expand(&worked_example()).unwrap();
    let b = routed(&x, &["5", "true"]);
    assert_eq!(b.target, "base_B");
    assert_eq!(b.const_args, texts(&["true"]));
    assert_eq!(b.args, texts(&["A", "C"]));
}

#[test]
fn worked_example_nothing_matches() {
    let x = expand(&worked_example()).unwrap();
    let b = routed(&x, &["5", "2"]);
    assert_eq!(b.target, "base_orig");
    assert!(b.const_args.is_empty());
    assert_eq!(b.args, texts(&["A", "B", "C"]));
}

#[test]
fn worked_example_first_matches() {
    let x = expand(&worked_example()).unwrap();
    let b = routed(&x, &["0", "7"]);
    assert_eq!(b.target, "base_A");
    assert_eq!(b.const_args, texts(&["0"]));
    assert_eq!(b.args, texts(&["B", "C"]));
}

#[test]
fn branches_most_specific_first() {
    let x = expand(&worked_example()).unwrap();
    let targets: Vec<&str> = x.branches.iter().map(|b| b.target.as_str()).collect();
    assert_eq!(
        targets,
        vec!["base_A_B", "base_A_B", "base_A_B", "base_A_B", "base_A", "base_A", "base_B", "base_B", "base_orig"]
    );
    let last = x.branches.last().unwrap();
    assert!(last.pattern.iter().all(|p| p.is_none()));
    assert_eq!(x.branches[1].pattern, vec![Some(s("0")), Some(s("false"))]);
    assert_eq!(x.branches[6].pattern, vec![None, Some(s("true"))]);
}

#[test]
fn variant_parameters() {
    let x = expand(&worked_example()).unwrap();
    let v = &x.variants[3];
    assert_eq!(v.subset, vec![0, 1]);
    assert_eq!(v.promoted, vec![0, 1]);
    assert_eq!(v.runtime, vec![2]);
    let v = &x.variants[2];
    assert_eq!(v.promoted, vec![1]);
    assert_eq!(v.runtime, vec![0, 2]);
    let v = &x.variants[0];
    assert!(v.promoted.is_empty());
    assert_eq!(v.runtime, vec![0, 1, 2]);
}

#[test]
fn variant_count_is_power_of_two() {
    let params = vec![
        marked("a", "u8", None, &["1"]),
        plain("b", "u8"),
        marked("c", "u8", None, &["2", "3"]),
        marked("d", "u8", None, &[]),
    ];
    let x = expand(&decl("f", &[], params)).unwrap();
    assert_eq!(x.variants.len(), 8);
    assert_eq!(x.promotables.len(), 3);
}

#[test]
fn no_promotable_parameter() {
    let x = expand(&decl("g", &[], vec![plain("a", "u8"), plain("b", "u8")])).unwrap();
    assert_eq!(names(&x), texts(&["g_orig"]));
    assert_eq!(x.branches.len(), 1);
    let b = routed(&x, &[]);
    assert_eq!(b.target, "g_orig");
    assert_eq!(b.args, texts(&["a", "b"]));
}

#[test]
fn no_parameter_at_all() {
    let x = expand(&decl("h", &[], vec![])).unwrap();
    assert_eq!(names(&x), texts(&["h_orig"]));
    assert_eq!(x.branches.len(), 1);
    assert!(x.branches[0].args.is_empty());
}

#[test]
fn dispatch_alias_names_variants() {
    let params = vec![
        plain("s", "&str"),
        plain("p", "&str"),
        marked("escape", "u8", Some("esc"), &["b'\\\\'"]),
    ];
    let x = expand(&decl("like_impl", &["CASE_INSENSITIVE"], params)).unwrap();
    assert_eq!(names(&x), texts(&["like_impl_orig", "like_impl_esc"]));
    let b = routed(&x, &["b'\\\\'"]);
    assert_eq!(b.target, "like_impl_esc");
    assert_eq!(b.const_args, texts(&["CASE_INSENSITIVE", "b'\\\\'"]));
    assert_eq!(b.args, texts(&["s", "p"]));
    let b = routed(&x, &["b'x'"]);
    assert_eq!(b.target, "like_impl_orig");
    assert_eq!(b.const_args, texts(&["CASE_INSENSITIVE"]));
    assert_eq!(b.args, texts(&["s", "p", "escape"]));
}

#[test]
fn empty_candidates_give_no_branch() {
    let params = vec![marked("a", "u8", None, &[]), marked("b", "u8", None, &["4"])];
    let x = expand(&decl("k", &[], params)).unwrap();
    assert_eq!(x.variants.len(), 4);
    let targets: Vec<&str> = x.branches.iter().map(|b| b.target.as_str()).collect();
    assert_eq!(targets, vec!["k_b", "k_orig"]);
    assert_eq!(routed(&x, &["4", "4"]).target, "k_b");
}

#[test]
fn receiver_is_forwarded_and_never_promoted() {
    let receiver = Param {
        kind: ParamKind::Receiver,
        name: s("self"),
        ty: s("&Self"),
        marker: Some(Marker { dispatch: None, consts: Consts::List(texts(&["1"])) }),
    };
    let params = vec![receiver, marked("n", "usize", None, &["3"])];
    let x = expand(&decl("m", &[], params)).unwrap();
    assert_eq!(names(&x), texts(&["m_orig", "m_n"]));
    let b = routed(&x, &["3"]);
    assert_eq!(b.target, "m_n");
    assert_eq!(b.args, texts(&["self"]));
}

#[test]
fn same_input_same_expansion() {
    let x = expand(&worked_example()).unwrap();
    let y = expand(&worked_example()).unwrap();
    assert_eq!(names(&x), names(&y));
    let tx: Vec<_> = x.branches.iter().map(|b| (b.target.clone(), b.pattern.clone())).collect();
    let ty: Vec<_> = y.branches.iter().map(|b| (b.target.clone(), b.pattern.clone())).collect();
    assert_eq!(tx, ty);
}

#[test]
fn payload_not_an_array() {
    let mut p = marked("a", "u8", None, &[]);
    p.marker = Some(Marker { dispatch: None, consts: Consts::NotAnArray });
    let r = expand(&decl("f", &[], vec![plain("z", "u8"), p]));
    assert_eq!(r.unwrap_err(), ExpandError::NotAnArray(1));
}

#[test]
fn alias_not_an_identifier() {
    let r = expand(&decl("f", &[], vec![marked("a", "u8", Some("fn"), &["1"])]));
    assert_eq!(r.unwrap_err(), ExpandError::BadAlias(0));
    let r = expand(&decl("f", &[], vec![marked("a", "u8", Some("1x"), &["1"])]));
    assert_eq!(r.unwrap_err(), ExpandError::BadAlias(0));
}

#[test]
fn candidate_not_a_literal() {
    let r = expand(&decl("f", &[], vec![marked("a", "u8", None, &["1", "x + 1"])]));
    assert_eq!(r.unwrap_err(), ExpandError::NotALiteral(0));
}

#[test]
fn first_malformed_marker_is_reported() {
    let params = vec![marked("a", "u8", None, &["x"]), marked("b", "u8", Some("if"), &["1"])];
    assert_eq!(expand(&decl("f", &[], params)).unwrap_err(), ExpandError::NotALiteral(0));
}

#[test]
fn analysis_reads_markers() {
    let ps = analyze(&worked_example().params).unwrap();
    assert_eq!(ps.len(), 2);
    assert_eq!(ps[1].position, 1);
    assert_eq!(ps[1].alias, "B");
    assert_eq!(ps[1].consts, texts(&["true", "false"]));
}

#[test]
fn too_many_promotable_parameters() {
    let params: Vec<Param> = (0..MAX_PROMOTED + 1).map(|i| marked(&format!("p{i}"), "u8", None, &["0"])).collect();
    assert_eq!(expand(&decl("f", &[], params)).unwrap_err(), ExpandError::TooManyPromoted);
}

#[test]
fn pattern_parameter_is_forwarded_not_promoted() {
    let pat = Param {
        kind: ParamKind::Pattern,
        name: s("pair"),
        ty: s("(u8, u8)"),
        marker: Some(Marker { dispatch: None, consts: Consts::List(texts(&["1"])) }),
    };
    let params = vec![plain("a", "u8"), pat, marked("n", "u8", None, &["7"])];
    let x = expand(&decl("f", &[], params)).unwrap();
    assert_eq!(x.promotables.len(), 1);
    assert_eq!(names(&x), texts(&["f_orig", "f_n"]));
    assert_eq!(x.variants[1].runtime, vec![0, 1]);
    let b = routed(&x, &["7"]);
    assert_eq!(b.target, "f_n");
    assert_eq!(b.args, texts(&["a", "pair"]));
    let b = routed(&x, &["8"]);
    assert_eq!(b.target, "f_orig");
    assert_eq!(b.args, texts(&["a", "pair", "n"]));
}

#[test]
fn type_and_const_generics_are_passed_on() {
    let params = vec![marked("a", "u8", None, &["1"]), plain("t", "T")];
    let x = expand(&decl("f", &["T", "N"], params)).unwrap();
    let b = routed(&x, &["1"]);
    assert_eq!(b.target, "f_a");
    assert_eq!(b.const_args, texts(&["T", "N", "1"]));
    assert_eq!(b.args, texts(&["t"]));
    let b = routed(&x, &["2"]);
    assert_eq!(b.const_args, texts(&["T", "N"]));
}

#[test]
fn each_candidate_tuple_gives_one_branch() {
    let params = vec![marked("a", "u8", None, &["1", "2", "3"]), marked("b", "u8", None, &["4", "5"])];
    let x = expand(&decl("f", &[], params)).unwrap();
    assert_eq!(x.branches.len(), 1 + 3 + 2 + 3 * 2);
}

#[test]
fn shared_alias_is_a_collision() {
    let params = vec![marked("a", "u8", Some("x"), &["1"]), marked("b", "u8", Some("x"), &["2"])];
    assert_eq!(expand(&decl("f", &[], params)).unwrap_err(), ExpandError::NameCollision);
}

#[test]
fn alias_orig_collides_with_fallback() {
    let params = vec![marked("a", "u8", Some("orig"), &["1"])];
    assert_eq!(expand(&decl("f", &[], params)).unwrap_err(), ExpandError::NameCollision);
}

#[test]
fn one_branch_from_subset_and_choice() {
    let fd = worked_example();
    let ps = analyze(&fd.params).unwrap();
    let b = make_branch(&fd, &ps, &vec![1], &vec![1]);
    assert_eq!(b.target, "base_B");
    assert_eq!(b.pattern, vec![None, Some(s("false"))]);
    assert_eq!(b.const_args, texts(&["false"]));
    assert_eq!(b.args, texts(&["A", "C"]));
}

#[test]
fn one_variant_from_subset() {
    let fd = worked_example();
    let ps = analyze(&fd.params).unwrap();
    let v = make_variant(&fd, &ps, &vec![0]);
    assert_eq!(v.name, "base_A");
    assert_eq!(v.promoted, vec![0]);
    assert_eq!(v.runtime, vec![1, 2]);
}

#[test]
fn marker_fault_given_verdicts() {
    let p = marked("a", "u8", Some("fast"), &["1"]);
    assert_eq!(marker_fault(&p, 2, true, true), None);
    assert_eq!(marker_fault(&p, 2, false, true), Some(ExpandError::BadAlias(2)));
    assert_eq!(marker_fault(&p, 2, true, false), Some(ExpandError::NotALiteral(2)));
    let mut q = marked("b", "u8", None, &[]);
    q.marker = Some(Marker { dispatch: None, consts: Consts::NotAnArray });
    assert_eq!(marker_fault(&q, 0, false, true), Some(ExpandError::NotAnArray(0)));
    let r = Param { kind: ParamKind::Receiver, ..q.clone() };
    assert_eq!(marker_fault(&r, 0, false, false), None);
}
