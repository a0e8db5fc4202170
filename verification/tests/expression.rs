use discovery_engine_core::expression::Expr;

fn v(s: &str) -> Expr {
    Expr::Value(s.to_string())
}

#[test]
fn test_and_simple() {
    assert_eq!(Expr::new_and(vec![v("a"), v("b")]), v("a").and(v("b")));
}

#[test]
fn test_and_and() {
    let expected = Expr::new_and(vec![v("a"), v("b"), v("c")]);
    // a /\ (b /\ c) => a /\ b /\ c
    assert_eq!(expected, v("a").and(v("b").and(v("c"))));
    // (a /\ b) /\ c => a /\ b /\ c
    assert_eq!(expected, v("a").and(v("b")).and(v("c")));
}

#[test]
fn test_and_and_empty() {
    assert_eq!(v("a"), Expr::new_and(vec![]).and(v("a")));
    let one = Expr::new_and(vec![v("a")]);
    assert_eq!(v("a"), Expr::new_and(vec![]).and(one));
}

#[test]
fn test_and_or() {
    let expected = Expr::new_and(vec![v("a"), Expr::new_or(vec![v("b"), v("c")])]);
    // a /\ (b \/ c)
    assert_eq!(expected, v("a").and(v("b").or(v("c"))));
    // (b \/ c) /\ a
    assert_eq!(expected, v("b").or(v("c")).and(v("a")));
}

#[test]
fn test_or_from_iter_empty() {
    assert_eq!(Expr::new_or(vec![]), Expr::or_from_iter(vec![]));
}

#[test]
fn test_or_from_iter_empty_one() {
    assert_eq!(v("a"), Expr::or_from_iter(vec![v("a")]));
}

#[test]
fn test_or_from_iter_more() {
    assert_eq!(
        Expr::new_or(vec![v("a"), v("b"), v("c")]),
        Expr::or_from_iter(Expr::set_of(vec![v("a"), v("b"), v("c")]))
    );
}

#[test]
fn test_or_from_iter_flat() {
    let expected = || Expr::new_or(vec![v("a"), v("b"), v("c")]);
    assert_eq!(
        expected(),
        Expr::or_from_iter(Expr::set_of(vec![v("a"), v("b").or(v("c"))]))
    );
    assert_eq!(
        expected(),
        Expr::or_from_iter(Expr::set_of(vec![v("b").or(v("c")), v("a")]))
    );
    assert_eq!(
        expected(),
        Expr::or_from_iter(Expr::set_of(vec![v("b").or(v("c")).or(v("a"))]))
    );
}

#[test]
fn test_or_simple() {
    assert_eq!(Expr::new_or(vec![v("a"), v("b")]), v("a").or(v("b")));
}

#[test]
fn test_or_or() {
    let expected = Expr::new_or(vec![v("a"), v("b"), v("c")]);
    assert_eq!(expected, v("a").or(v("b").or(v("c"))));
    assert_eq!(expected, v("a").or(v("b")).or(v("c")));
}

#[test]
fn test_or_or_empty() {
    assert_eq!(v("a"), Expr::new_or(vec![]).or(v("a")));
    let one = Expr::new_or(vec![v("a")]);
    assert_eq!(v("a"), Expr::new_or(vec![]).or(one));
}

#[test]
fn test_or_and() {
    let expected = Expr::new_or(vec![v("a"), Expr::new_and(vec![v("b"), v("c")])]);
    assert_eq!(expected, v("a").or(v("b").and(v("c"))));
    assert_eq!(expected, v("b").and(v("c")).or(v("a")));
}

#[test]
fn test_build_value_empty() {
    let empty = "".to_string();
    assert_eq!(empty, Expr::Value(empty.clone()).build());
}

#[test]
fn test_build_value() {
    let a = "a".to_string();
    assert_eq!(a, Expr::Value(a.clone()).build());
}

#[test]
fn test_build_and_empty() {
    let empty_and = v("").and(v(""));
    assert_eq!("", empty_and.build());

    let empty_and_empty_and = v("").or(v("").or(v("")));
    assert_eq!("", empty_and_empty_and.build());

    let empty_and_empty_or = v("").and(v("").or(v("")));
    assert_eq!("", empty_and_empty_or.build());
}

#[test]
fn test_build_and_values() {
    assert_eq!("a AND b AND c", v("a").and(v("b")).and(v("c")).build());
    assert_eq!("a AND b AND c", v("c").and(v("b").and(v("a"))).build());
}

#[test]
fn test_build_or_empty() {
    let empty_or = v("").or(v(""));
    assert_eq!("", empty_or.build());

    let empty_or_empty_or = v("").or(v("").or(v("")));
    assert_eq!("", empty_or_empty_or.build());

    let empty_or_empty_and = v("").or(v("").and(v("")));
    assert_eq!("", empty_or_empty_and.build());
}

#[test]
fn test_build_or_values() {
    assert_eq!("a OR b OR c", v("a").or(v("b")).or(v("c")).build());
    assert_eq!("a OR b OR c", v("c").or(v("b").or(v("a"))).build());
}

#[test]
fn test_build_and_or() {
    // (a /\ b) \/ c
    assert_eq!("(a AND b) OR c", v("a").and(v("b")).or(v("c")).build());
    // a /\ (b \/ c)
    assert_eq!("(b OR c) AND a", v("a").and(v("b").or(v("c"))).build());
    // (a \/ b) /\ c) \/ d
    assert_eq!(
        "((a OR b) AND c) OR d",
        v("a").or(v("b")).and(v("c")).or(v("d")).build()
    );
    // (a /\ b) \/ c) /\ d
    assert_eq!(
        "((a AND b) OR c) AND d",
        v("a").and(v("b")).or(v("c")).and(v("d")).build()
    );
}

#[test]
fn combining_is_commutative_on_values() {
    assert_eq!(v("x").and(v("y")), v("y").and(v("x")));
    assert_eq!(v("x").or(v("y")), v("y").or(v("x")));
}

#[test]
fn duplicate_values_collapse() {
    assert_eq!(Expr::new_and(vec![v("x")]), v("x").and(v("x")));
    assert_eq!("x", v("x").or(v("x")).build());
}
