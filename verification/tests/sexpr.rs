use portrait::sexpr::{parse_all, Sexpr};
use portrait::smt::SmtBuilder;

#[test]
fn parses_nested_list() {
    let s = parse_all("(assert (not (= a b)))").unwrap();
    assert_eq!(s.len(), 1);
    assert_eq!(s[0].render(), "(assert (not (= a b)))");
}

#[test]
fn skips_line_comments() {
    let s = parse_all(";; universe for PubKey\n(define-fun x () Int 1)").unwrap();
    assert_eq!(s.len(), 1);
    assert_eq!(s[0].render(), "(define-fun x () Int 1)");
}

#[test]
fn parses_multiple_top_level_forms() {
    let s = parse_all("(declare-const x Int)\n(assert (>= x 0))").unwrap();
    assert_eq!(s.len(), 2);
}

#[test]
fn unbalanced_close_is_error() {
    assert!(parse_all(")").is_err());
}

#[test]
fn unterminated_open_is_error() {
    assert!(parse_all("(assert (>= x 0)").is_err());
}

#[test]
fn negative_literal_list_form() {
    let s = parse_all("(- 5)").unwrap();
    assert_eq!(s[0], Sexpr::List(vec![Sexpr::Atom("-".into()), Sexpr::Atom("5".into())]));
}

#[test]
fn comment_at_end_of_input_and_empty_lists() {
    let s = parse_all("a ; trailing\n() b;c").unwrap();
    assert_eq!(s, vec![Sexpr::Atom("a".into()), Sexpr::List(vec![]), Sexpr::Atom("b".into())]);
    assert_eq!(s[1].render(), "()");
    assert_eq!(parse_all("").unwrap(), vec![]);
    assert_eq!(parse_all("x)").unwrap_err(), "unexpected ')' in S-expression");
    assert_eq!(parse_all("(x").unwrap_err(), "unterminated '(' in S-expression");
}

#[test]
fn smt_document_declares_sorts_once_in_order() {
    let mut b = SmtBuilder::new();
    b.declare_const("owner", "PubKey");
    b.declare_const("owner", "PubKey");
    b.declare_const("n", "Int");
    b.declare_fun("checkSig", &["Sig".to_string(), "PubKey".to_string()], "Bool");
    b.assert_term("(>= n 0)");
    let doc = b.finish("ALL");
    assert_eq!(
        doc,
        "(set-logic ALL)\n(declare-sort PubKey 0)\n(declare-sort Sig 0)\n(declare-const owner PubKey)\n(declare-const n Int)\n(declare-fun checkSig (Sig PubKey) Bool)\n(assert (>= n 0))\n(check-sat)\n(get-model)\n"
    );
}

#[test]
fn smt_empty_document() {
    let b = SmtBuilder::default();
    assert_eq!(b.finish("QF_LIA"), "(set-logic QF_LIA)\n(check-sat)\n(get-model)\n");
}

#[test]
fn reading_a_rendering_gives_it_back() {
    let s = Sexpr::List(vec![
        Sexpr::Atom("assert".into()),
        Sexpr::List(vec![Sexpr::Atom(">=".into()), Sexpr::Atom("x".into()), Sexpr::List(vec![])]),
    ]);
    let text = s.render();
    assert_eq!(text, "(assert (>= x ()))");
    assert_eq!(parse_all(&text).unwrap(), vec![s]);
}

#[test]
fn declaring_a_constant_twice_changes_nothing() {
    let mut once = SmtBuilder::new();
    once.declare_const("x", "Int");
    let mut twice = SmtBuilder::new();
    twice.declare_const("x", "Int");
    twice.declare_const("x", "Int");
    assert_eq!(once.finish("QF_LIA"), twice.finish("QF_LIA"));
}
