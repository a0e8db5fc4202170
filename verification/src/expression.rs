//! Boolean search expressions over keywords.
//!
//! An `And` or an `Or` holds a *set* of sub-expressions: its children are
//! kept strictly sorted by the total order `expr_order` (variants in the order
//! `And < Or < Value`, children and strings compared lexicographically), so
//! two expressions over the same sets are identical.

use vstd::prelude::*;

verus! {

/// The mathematical model of an [`Expr`].
pub enum ExprView {
    And(Seq<ExprView>),
    Or(Seq<ExprView>),
    Value(Seq<char>),
}

/// Lexicographic comparison of two strings by code point (`-1`, `0` or `1`).
pub open spec fn str_order(s: Seq<char>, t: Seq<char>) -> int
    decreases s.len(),
{
    if s.len() == 0 {
        if t.len() == 0 { 0 } else { -1 }
    } else if t.len() == 0 {
        1
    } else if (s[0] as int) < (t[0] as int) {
        -1
    } else if (s[0] as int) > (t[0] as int) {
        1
    } else {
        str_order(s.subrange(1, s.len() as int), t.subrange(1, t.len() as int))
    }
}

/// The total order on expressions (`-1`, `0` or `1`).
pub open spec fn expr_order(a: ExprView, b: ExprView) -> int
    decreases a,
{
    match a {
        ExprView::And(s) => match b {
            ExprView::And(t) => seq_order(s, t),
            _ => -1,
        },
        ExprView::Or(s) => match b {
            ExprView::And(_) => 1,
            ExprView::Or(t) => seq_order(s, t),
            ExprView::Value(_) => -1,
        },
        ExprView::Value(x) => match b {
            ExprView::Value(y) => str_order(x, y),
            _ => 1,
        },
    }
}

/// Lexicographic comparison of two sequences of expressions.
pub open spec fn seq_order(s: Seq<ExprView>, t: Seq<ExprView>) -> int
    decreases s,
{
    if s.len() == 0 {
        if t.len() == 0 { 0 } else { -1 }
    } else if t.len() == 0 {
        1
    } else {
        let c = expr_order(s[0], t[0]);
        if c != 0 {
            c
        } else {
            seq_order(s.subrange(1, s.len() as int), t.subrange(1, t.len() as int))
        }
    }
}

/// The elements are strictly increasing in the expression order.
pub open spec fn strictly_sorted(s: Seq<ExprView>) -> bool {
    forall|i: int, j: int| 0 <= i < j < s.len() ==> expr_order(#[trigger] s[i], #[trigger] s[j]) < 0
}

/// `str_order` ranges over `-1..=1`, is antisymmetric and is `0` exactly on equal strings.
pub proof fn lemma_str_order(s: Seq<char>, t: Seq<char>)
    ensures
        -1 <= str_order(s, t) <= 1,
        str_order(s, t) == -str_order(t, s),
        str_order(s, t) == 0 <==> s == t,
    decreases s.len(),
{
    if s.len() > 0 && t.len() > 0 && s[0] == t[0] {
        lemma_str_order(s.subrange(1, s.len() as int), t.subrange(1, t.len() as int));
        if s.subrange(1, s.len() as int) == t.subrange(1, t.len() as int) {
            assert(s =~= seq![s[0]] + s.subrange(1, s.len() as int));
            assert(t =~= seq![t[0]] + t.subrange(1, t.len() as int));
        }
    }
    if s.len() > 0 && t.len() > 0 && s[0] != t[0] {
        assert((s[0] as int) != (t[0] as int));
    }
    if s.len() == 0 && t.len() == 0 {
        assert(s =~= t);
    }
}

/// `str_order` is transitive.
pub proof fn lemma_str_order_trans(s: Seq<char>, t: Seq<char>, u: Seq<char>)
    requires
        str_order(s, t) < 0,
        str_order(t, u) < 0,
    ensures
        str_order(s, u) < 0,
    decreases s.len(),
{
    if s.len() > 0 && t.len() > 0 && u.len() > 0 && s[0] == t[0] && t[0] == u[0] {
        lemma_str_order_trans(
            s.subrange(1, s.len() as int),
            t.subrange(1, t.len() as int),
            u.subrange(1, u.len() as int),
        );
    }
}

/// `expr_order` ranges over `-1..=1`, is antisymmetric and is `0` exactly on equal expressions.
pub proof fn lemma_expr_order(a: ExprView, b: ExprView)
    ensures
        -1 <= expr_order(a, b) <= 1,
        expr_order(a, b) == -expr_order(b, a),
        expr_order(a, b) == 0 <==> a == b,
    decreases a,
{
    match a {
        ExprView::And(s) => match b {
            ExprView::And(t) => { lemma_seq_order(s, t); },
            _ => {},
        },
        ExprView::Or(s) => match b {
            ExprView::Or(t) => { lemma_seq_order(s, t); },
            _ => {},
        },
        ExprView::Value(x) => match b {
            ExprView::Value(y) => { lemma_str_order(x, y); },
            _ => {},
        },
    }
}

/// `seq_order` ranges over `-1..=1`, is antisymmetric and is `0` exactly on equal sequences.
pub proof fn lemma_seq_order(s: Seq<ExprView>, t: Seq<ExprView>)
    ensures
        -1 <= seq_order(s, t) <= 1,
        seq_order(s, t) == -seq_order(t, s),
        seq_order(s, t) == 0 <==> s == t,
    decreases s,
{
    if s.len() > 0 && t.len() > 0 {
        lemma_expr_order(s[0], t[0]);
        let s1 = s.subrange(1, s.len() as int);
        let t1 = t.subrange(1, t.len() as int);
        lemma_seq_order(s1, t1);
        if s[0] == t[0] && s1 == t1 {
            assert(s =~= seq![s[0]] + s1);
            assert(t =~= seq![t[0]] + t1);
        }
        if s == t {
            assert(s1 =~= t1);
        }
    }
    if s.len() == 0 && t.len() == 0 {
        assert(s =~= t);
    }
}

/// `expr_order` is transitive.
pub proof fn lemma_expr_order_trans(a: ExprView, b: ExprView, c: ExprView)
    requires
        expr_order(a, b) < 0,
        expr_order(b, c) < 0,
    ensures
        expr_order(a, c) < 0,
    decreases a,
{
    match (a, b, c) {
        (ExprView::And(s), ExprView::And(t), ExprView::And(u)) => { lemma_seq_order_trans(s, t, u); },
        (ExprView::Or(s), ExprView::Or(t), ExprView::Or(u)) => { lemma_seq_order_trans(s, t, u); },
        (ExprView::Value(s), ExprView::Value(t), ExprView::Value(u)) => {
            lemma_str_order_trans(s, t, u);
        },
        _ => {},
    }
}

/// `seq_order` is transitive.
pub proof fn lemma_seq_order_trans(s: Seq<ExprView>, t: Seq<ExprView>, u: Seq<ExprView>)
    requires
        seq_order(s, t) < 0,
        seq_order(t, u) < 0,
    ensures
        seq_order(s, u) < 0,
    decreases s,
{
    if s.len() > 0 && t.len() > 0 && u.len() > 0 {
        lemma_expr_order(s[0], t[0]);
        lemma_expr_order(t[0], u[0]);
        lemma_expr_order(s[0], u[0]);
        if expr_order(s[0], t[0]) < 0 && expr_order(t[0], u[0]) < 0 {
            lemma_expr_order_trans(s[0], t[0], u[0]);
        } else if expr_order(s[0], t[0]) == 0 && expr_order(t[0], u[0]) == 0 {
            lemma_seq_order_trans(
                s.subrange(1, s.len() as int),
                t.subrange(1, t.len() as int),
                u.subrange(1, u.len() as int),
            );
        }
    }
}


/// The strictly sorted sequence holding exactly the expressions of `elems`.
pub open spec fn sorted_seq_of(elems: Set<ExprView>) -> Seq<ExprView> {
    choose|s: Seq<ExprView>| strictly_sorted(s) && s.to_set() == elems
}

/// Two strictly sorted sequences with the same elements are equal.
pub proof fn lemma_sorted_unique(s: Seq<ExprView>, t: Seq<ExprView>)
    requires
        strictly_sorted(s),
        strictly_sorted(t),
        forall|x: ExprView| s.contains(x) <==> t.contains(x),
    ensures
        s == t,
    decreases s.len(),
{
    if s.len() == 0 {
        if t.len() > 0 {
            assert(t.contains(t[0]));
        }
        assert(s =~= t);
    } else {
        assert(s.contains(s[0]));
        assert(t.len() > 0);
        assert(t.contains(t[0]));
        let i = choose|i: int| 0 <= i < s.len() && s[i] == t[0];
        let j = choose|j: int| 0 <= j < t.len() && t[j] == s[0];
        if s[0] != t[0] {
            assert(i != 0);
            assert(j != 0);
            assert(expr_order(s[0], s[i]) < 0);
            assert(expr_order(t[0], t[j]) < 0);
            lemma_expr_order(s[0], t[0]);
            assert(false);
        }
        let s1 = s.subrange(1, s.len() as int);
        let t1 = t.subrange(1, t.len() as int);
        assert forall|x: ExprView| s1.contains(x) <==> t1.contains(x) by {
            if s1.contains(x) {
                let k = choose|k: int| 0 <= k < s1.len() && s1[k] == x;
                assert(s[k + 1] == x);
                assert(expr_order(s[0], x) < 0);
                lemma_expr_order(s[0], x);
                assert(t.contains(x));
                let m = choose|m: int| 0 <= m < t.len() && t[m] == x;
                assert(m != 0);
                assert(t1[m - 1] == x);
            }
            if t1.contains(x) {
                let k = choose|k: int| 0 <= k < t1.len() && t1[k] == x;
                assert(t[k + 1] == x);
                assert(expr_order(t[0], x) < 0);
                lemma_expr_order(t[0], x);
                assert(s.contains(x));
                let m = choose|m: int| 0 <= m < s.len() && s[m] == x;
                assert(m != 0);
                assert(s1[m - 1] == x);
            }
        }
        lemma_sorted_unique(s1, t1);
        assert(s =~= seq![s[0]] + s1);
        assert(t =~= seq![t[0]] + t1);
    }
}

/// A strictly sorted sequence is the sorted sequence of its own elements.
pub proof fn lemma_sorted_seq_of(s: Seq<ExprView>)
    requires
        strictly_sorted(s),
    ensures
        sorted_seq_of(s.to_set()) == s,
        strictly_sorted(sorted_seq_of(s.to_set())),
{
    let c = sorted_seq_of(s.to_set());
    assert(strictly_sorted(c) && c.to_set() == s.to_set());
    assert forall|x: ExprView| c.contains(x) <==> s.contains(x) by {
        assert(c.to_set().contains(x) == c.contains(x));
        assert(s.to_set().contains(x) == s.contains(x));
    }
    lemma_sorted_unique(c, s);
}

/// A search expression.
#[derive(Debug, PartialEq, Eq)]
pub enum Expr {
    /// All sub-expressions hold (a set, see the module documentation).
    And(Vec<Expr>),
    /// One of the sub-expressions holds (a set).
    Or(Vec<Expr>),
    /// A plain search term.
    Value(String),
}

pub open spec fn expr_view(e: Expr) -> ExprView
    decreases e,
{
    match e {
        Expr::And(v) => ExprView::And(exprs_view(v@)),
        Expr::Or(v) => ExprView::Or(exprs_view(v@)),
        Expr::Value(s) => ExprView::Value(s@),
    }
}

pub open spec fn exprs_view(s: Seq<Expr>) -> Seq<ExprView>
    decreases s,
{
    if s.len() == 0 {
        Seq::empty()
    } else {
        seq![expr_view(s[0])] + exprs_view(s.subrange(1, s.len() as int))
    }
}

/// The view of a sequence of expressions is the view of each, in order.
pub proof fn lemma_exprs_view(s: Seq<Expr>)
    ensures
        exprs_view(s).len() == s.len(),
        forall|i: int| 0 <= i < s.len() ==> #[trigger] exprs_view(s)[i] == expr_view(s[i]),
    decreases s.len(),
{
    if s.len() > 0 {
        let s1 = s.subrange(1, s.len() as int);
        lemma_exprs_view(s1);
        assert forall|i: int| 0 <= i < s.len() implies #[trigger] exprs_view(s)[i] == expr_view(s[i]) by {
            if i > 0 {
                assert(s1[i - 1] == s[i]);
            }
        }
    }
}

impl View for Expr {
    type V = ExprView;

    open spec fn view(&self) -> ExprView {
        expr_view(*self)
    }
}


/// Every set in the expression, at every depth, is strictly sorted.
pub open spec fn wf(e: ExprView) -> bool
    decreases e,
{
    match e {
        ExprView::And(s) => strictly_sorted(s) && forall|i: int| 0 <= i < s.len() ==> wf(#[trigger] s[i]),
        ExprView::Or(s) => strictly_sorted(s) && forall|i: int| 0 <= i < s.len() ==> wf(#[trigger] s[i]),
        ExprView::Value(_) => true,
    }
}

/// The two set operators.
#[derive(Clone, Copy)]
pub enum Op {
    And,
    Or,
}

/// The children of `e` when `e` is an `op` expression.
pub open spec fn op_children(e: ExprView, op: Op) -> Option<Seq<ExprView>> {
    match (e, op) {
        (ExprView::And(s), Op::And) => Some(s),
        (ExprView::Or(s), Op::Or) => Some(s),
        _ => None,
    }
}

/// The `op` expression over the given sorted children.
pub open spec fn op_expr(op: Op, s: Seq<ExprView>) -> ExprView {
    match op {
        Op::And => ExprView::And(s),
        Op::Or => ExprView::Or(s),
    }
}

/// Combining `a` and `b` with `op`: nested sets of the same operator are
/// flattened, an empty set is neutral, and a merge that leaves a single
/// element collapses to that element.
pub open spec fn combine_spec(op: Op, a: ExprView, b: ExprView) -> ExprView {
    match (op_children(a, op), op_children(b, op)) {
        (Some(x), Some(y)) => {
            let u = sorted_seq_of(x.to_set() + y.to_set());
            if u.len() == 1 { u[0] } else { op_expr(op, u) }
        },
        (Some(x), None) => if x.len() == 0 { b } else { op_expr(op, sorted_seq_of(x.to_set().insert(b))) },
        (None, Some(y)) => if y.len() == 0 { a } else { op_expr(op, sorted_seq_of(y.to_set().insert(a))) },
        (None, None) => op_expr(op, sorted_seq_of(set![a, b])),
    }
}

/// The sorted set of the arguments.
pub open spec fn seq_set(s: Seq<ExprView>) -> Seq<ExprView> {
    sorted_seq_of(s.to_set())
}

/// Children of all `Or` items, together with the other items.
pub open spec fn or_items_set(items: Seq<ExprView>) -> Set<ExprView> {
    Set::new(|x: ExprView| exists|i: int| 0 <= i < items.len() && #[trigger] contributes(items[i], x))
}

/// An `Or` item contributes its children, any other item itself.
pub open spec fn contributes(item: ExprView, x: ExprView) -> bool {
    match item {
        ExprView::Or(c) => c.contains(x),
        _ => item == x,
    }
}

/// A single `Or` over all items, where `Or` items contribute their children.
pub open spec fn or_from_items_spec(items: Seq<ExprView>) -> ExprView {
    let u = sorted_seq_of(or_items_set(items));
    if u.len() == 1 { u[0] } else { ExprView::Or(u) }
}

pub open spec fn strictly_sorted_exprs(v: Seq<Expr>) -> bool {
    strictly_sorted(exprs_view(v))
}

/// Three-way comparison of two strings by code point.
pub fn compare_strings(a: &String, b: &String) -> (r: i8)
    ensures
        r as int == str_order(a@, b@),
{
    let la = a.as_str().unicode_len();
    let lb = b.as_str().unicode_len();
    let mut i: usize = 0;
    assert(a@.subrange(0, la as int) =~= a@);
    assert(b@.subrange(0, lb as int) =~= b@);
    while i < la && i < lb
        invariant
            la == a@.len(),
            lb == b@.len(),
            i <= la,
            i <= lb,
            str_order(a@, b@) == str_order(a@.subrange(i as int, la as int), b@.subrange(i as int, lb as int)),
        decreases la - i,
    {
        let ca = a.as_str().get_char(i);
        let cb = b.as_str().get_char(i);
        let ghost sa = a@.subrange(i as int, la as int);
        let ghost sb = b@.subrange(i as int, lb as int);
        assert(sa[0] == ca && sb[0] == cb);
        if (ca as u32) < (cb as u32) {
            return -1;
        }
        if (ca as u32) > (cb as u32) {
            return 1;
        }
        assert(sa.subrange(1, sa.len() as int) =~= a@.subrange(i + 1, la as int));
        assert(sb.subrange(1, sb.len() as int) =~= b@.subrange(i + 1, lb as int));
        i = i + 1;
    }
    if i < la {
        1
    } else if i < lb {
        -1
    } else {
        0
    }
}

/// Three-way comparison of two expressions in the expression order.
pub fn compare_exprs(a: &Expr, b: &Expr) -> (r: i8)
    ensures
        r as int == expr_order(a@, b@),
    decreases a,
{
    match a {
        Expr::And(s) => match b {
            Expr::And(t) => compare_expr_vecs(s, t),
            _ => -1,
        },
        Expr::Or(s) => match b {
            Expr::And(_) => 1,
            Expr::Or(t) => compare_expr_vecs(s, t),
            Expr::Value(_) => -1,
        },
        Expr::Value(x) => match b {
            Expr::Value(y) => compare_strings(x, y),
            _ => 1,
        },
    }
}

/// Lexicographic comparison of two vectors of expressions.
pub fn compare_expr_vecs(s: &Vec<Expr>, t: &Vec<Expr>) -> (r: i8)
    ensures
        r as int == seq_order(exprs_view(s@), exprs_view(t@)),
    decreases s,
{
    proof {
        lemma_exprs_view(s@);
        lemma_exprs_view(t@);
    }
    let ghost sv = exprs_view(s@);
    let ghost tv = exprs_view(t@);
    let mut i: usize = 0;
    assert(sv.subrange(0, sv.len() as int) =~= sv);
    assert(tv.subrange(0, tv.len() as int) =~= tv);
    while i < s.len() && i < t.len()
        invariant
            sv == exprs_view(s@),
            tv == exprs_view(t@),
            sv.len() == s.len(),
            tv.len() == t.len(),
            forall|k: int| 0 <= k < s.len() ==> #[trigger] sv[k] == expr_view(s@[k]),
            forall|k: int| 0 <= k < t.len() ==> #[trigger] tv[k] == expr_view(t@[k]),
            i <= s.len(),
            i <= t.len(),
            seq_order(sv, tv) == seq_order(sv.subrange(i as int, sv.len() as int), tv.subrange(i as int, tv.len() as int)),
        decreases s.len() - i,
    {
        let c = compare_exprs(&s[i], &t[i]);
        let ghost ss = sv.subrange(i as int, sv.len() as int);
        let ghost ts = tv.subrange(i as int, tv.len() as int);
        assert(ss[0] == sv[i as int]);
        assert(ts[0] == tv[i as int]);
        if c != 0 {
            return c;
        }
        assert(ss.subrange(1, ss.len() as int) =~= sv.subrange(i + 1, sv.len() as int));
        assert(ts.subrange(1, ts.len() as int) =~= tv.subrange(i + 1, tv.len() as int));
        i = i + 1;
    }
    if i < s.len() {
        1
    } else if i < t.len() {
        -1
    } else {
        0
    }
}


/// Inserting `x` at a position that keeps the order keeps the sequence strictly sorted.
pub proof fn lemma_insert_sorted(s: Seq<ExprView>, i: int, x: ExprView)
    requires
        strictly_sorted(s),
        0 <= i <= s.len(),
        forall|k: int| 0 <= k < i ==> expr_order(#[trigger] s[k], x) < 0,
        i < s.len() ==> expr_order(x, s[i]) < 0,
    ensures
        strictly_sorted(s.insert(i, x)),
        s.insert(i, x).to_set() == s.to_set().insert(x),
{
    let n = s.insert(i, x);
    assert forall|a: int, b: int| 0 <= a < b < n.len() implies expr_order(#[trigger] n[a], #[trigger] n[b]) < 0 by {
        if a < i && b == i {
        } else if a == i && b > i {
            if b - 1 > i {
                assert(expr_order(s[i], s[b - 1]) < 0);
                lemma_expr_order_trans(x, s[i], s[b - 1]);
            }
        } else if a < i && b > i {
            assert(n[b] == s[b - 1]);
        } else if a > i {
            assert(n[a] == s[a - 1] && n[b] == s[b - 1]);
        }
    }
    assert forall|y: ExprView| n.contains(y) <==> s.to_set().insert(x).contains(y) by {
        if n.contains(y) {
            let k = choose|k: int| 0 <= k < n.len() && n[k] == y;
            if k < i {
                assert(s[k] == y);
            } else if k > i {
                assert(s[k - 1] == y);
            }
        }
        if s.contains(y) {
            let k = choose|k: int| 0 <= k < s.len() && s[k] == y;
            if k < i {
                assert(n[k] == y);
            } else {
                assert(n[k + 1] == y);
            }
        }
        if y == x {
            assert(n[i] == x);
        }
    }
    assert(n.to_set() =~= s.to_set().insert(x));
}

/// Inserts `e` into the sorted set `v` (nothing changes if it is already there).
pub fn set_insert(v: &mut Vec<Expr>, e: Expr)
    requires
        strictly_sorted_exprs(old(v)@),
    ensures
        strictly_sorted_exprs(final(v)@),
        exprs_view(final(v)@).to_set() == exprs_view(old(v)@).to_set().insert(e@),
{
    proof {
        lemma_exprs_view(v@);
    }
    let ghost ov = exprs_view(v@);
    let mut i: usize = 0;
    let mut found = false;
    let mut stop = false;
    while i < v.len() && !found && !stop
        invariant
            stop ==> i < v.len() && expr_order(ov[i as int], e@) > 0,
            ov == exprs_view(v@),
            ov.len() == v.len(),
            forall|k: int| 0 <= k < v.len() ==> #[trigger] ov[k] == expr_view(v@[k]),
            i <= v.len(),
            forall|k: int| 0 <= k < i ==> expr_order(#[trigger] ov[k], e@) < 0,
            found ==> i < v.len() && ov[i as int] == e@,
        decreases v.len() - i + (if found || stop { 0int } else { 1int }),
    {
        let c = compare_exprs(&v[i], &e);
        proof {
            lemma_expr_order(ov[i as int], e@);
        }
        if c == 0 {
            found = true;
        } else if c > 0 {
            stop = true;
        } else {
            i = i + 1;
        }
    }
    if found {
        proof {
            assert(ov.to_set().insert(e@) =~= ov.to_set());
        }
        return;
    }
    proof {
        if i < v.len() {
            lemma_expr_order(ov[i as int], e@);
        }
        lemma_insert_sorted(ov, i as int, e@);
    }
    let ghost old_v = v@;
    v.insert(i, e);
    proof {
        lemma_exprs_view(v@);
        assert(exprs_view(v@) =~= ov.insert(i as int, e@)) by {
            assert forall|k: int| 0 <= k < v.len() implies exprs_view(v@)[k] == ov.insert(i as int, e@)[k] by {
                if k < i {
                    assert(v@[k] == old_v[k]);
                } else if k > i {
                    assert(v@[k] == old_v[k - 1]);
                }
            }
        }
    }
}


/// Adds the elements of `b` to the sorted set `a`.
pub fn set_union(a: Vec<Expr>, b: Vec<Expr>) -> (r: Vec<Expr>)
    requires
        strictly_sorted_exprs(a@),
    ensures
        strictly_sorted_exprs(r@),
        exprs_view(r@).to_set() == exprs_view(a@).to_set() + exprs_view(b@).to_set(),
{
    let mut r = a;
    let mut rest = b;
    let ghost target = exprs_view(a@).to_set() + exprs_view(b@).to_set();
    proof {
        assert(exprs_view(r@).to_set() + exprs_view(rest@).to_set() =~= target);
    }
    while rest.len() > 0
        invariant
            strictly_sorted_exprs(r@),
            exprs_view(r@).to_set() + exprs_view(rest@).to_set() == target,
        decreases rest.len(),
    {
        let ghost old_rest = rest@;
        let ghost old_r = exprs_view(r@).to_set();
        let x = rest.pop().unwrap();
        proof {
            lemma_exprs_view(old_rest);
            lemma_exprs_view(rest@);
            assert(rest@ =~= old_rest.drop_last());
            assert(exprs_view(old_rest).to_set() =~= exprs_view(rest@).to_set().insert(x@)) by {
                assert forall|y: ExprView| exprs_view(old_rest).contains(y) implies exprs_view(rest@).to_set().insert(x@).contains(y) by {
                    let k = choose|k: int| 0 <= k < exprs_view(old_rest).len() && exprs_view(old_rest)[k] == y;
                    if k < rest@.len() {
                        assert(exprs_view(rest@)[k] == y);
                    }
                }
                assert forall|y: ExprView| exprs_view(rest@).to_set().insert(x@).contains(y) implies exprs_view(old_rest).contains(y) by {
                    if y == x@ {
                        assert(exprs_view(old_rest)[old_rest.len() - 1] == y);
                    } else {
                        let k = choose|k: int| 0 <= k < exprs_view(rest@).len() && exprs_view(rest@)[k] == y;
                        assert(exprs_view(old_rest)[k] == y);
                    }
                }
            }
        }
        set_insert(&mut r, x);
        proof {
            assert(exprs_view(r@).to_set() + exprs_view(rest@).to_set() =~= target);
        }
    }
    proof {
        assert(exprs_view(rest@) =~= Seq::<ExprView>::empty());
        assert(exprs_view(r@).to_set() =~= target);
    }
    r
}

/// The children of `e` if it is an `op` expression, else `e` itself.
fn split_op(e: Expr, op: Op) -> (r: Result<Vec<Expr>, Expr>)
    ensures
        match r {
            Ok(v) => op_children(e@, op) == Some(exprs_view(v@)),
            Err(x) => x == e && op_children(e@, op) is None,
        },
{
    match op {
        Op::And => match e {
            Expr::And(v) => Ok(v),
            other => Err(other),
        },
        Op::Or => match e {
            Expr::Or(v) => Ok(v),
            other => Err(other),
        },
    }
}

fn make_op(op: Op, v: Vec<Expr>) -> (r: Expr)
    ensures
        r@ == op_expr(op, exprs_view(v@)),
{
    match op {
        Op::And => Expr::And(v),
        Op::Or => Expr::Or(v),
    }
}

/// Every element of `s` is well formed.
pub open spec fn all_wf(s: Seq<ExprView>) -> bool {
    forall|i: int| 0 <= i < s.len() ==> wf(#[trigger] s[i])
}

proof fn lemma_all_wf_subset(s: Seq<ExprView>, t: Seq<ExprView>, extra: Set<ExprView>)
    requires
        forall|x: ExprView| t.contains(x) ==> s.contains(x) || extra.contains(x),
        all_wf(s),
        forall|x: ExprView| extra.contains(x) ==> wf(x),
    ensures
        all_wf(t),
{
    assert forall|i: int| 0 <= i < t.len() implies wf(#[trigger] t[i]) by {
        assert(t.contains(t[i]));
        if s.contains(t[i]) {
            let k = choose|k: int| 0 <= k < s.len() && s[k] == t[i];
            assert(wf(s[k]));
        }
    }
}

proof fn lemma_wf_children(op: Op, e: ExprView)
    requires
        wf(e),
        op_children(e, op) is Some,
    ensures
        strictly_sorted(op_children(e, op)->0),
        all_wf(op_children(e, op)->0),
{
}

impl Expr {
    /// Combines two expressions with `op` (see [`combine_spec`]).
    pub fn combine(self, other: Expr, op: Op) -> (r: Expr)
        requires
            wf(self@),
            wf(other@),
        ensures
            r@ == combine_spec(op, self@, other@),
            wf(r@),
    {
        let ghost a = self@;
        let ghost b = other@;
        match (split_op(self, op), split_op(other, op)) {
            (Ok(x), Ok(y)) => {
                proof {
                    lemma_wf_children(op, a);
                    lemma_wf_children(op, b);
                }
                let ghost xs = exprs_view(x@);
                let ghost ys = exprs_view(y@);
                let mut u = set_union(x, y);
                proof {
                    let us = exprs_view(u@);
                    lemma_sorted_seq_of(us);
                    assert(us.to_set() == xs.to_set() + ys.to_set());
                    assert forall|z: ExprView| us.contains(z) implies xs.contains(z) || ys.contains(z) by {
                        assert(us.to_set().contains(z));
                    }
                    assert forall|z: ExprView| us.contains(z) implies (xs + ys).contains(z) by {
                        assert(us.to_set().contains(z));
                        if xs.contains(z) {
                            let k = choose|k: int| 0 <= k < xs.len() && xs[k] == z;
                            assert((xs + ys)[k] == z);
                        } else {
                            let k = choose|k: int| 0 <= k < ys.len() && ys[k] == z;
                            assert((xs + ys)[xs.len() + k] == z);
                        }
                    }
                    assert forall|i: int| 0 <= i < (xs + ys).len() implies wf(#[trigger] (xs + ys)[i]) by {
                        if i < xs.len() {
                            assert(wf(xs[i]));
                        } else {
                            assert(wf(ys[i - xs.len()]));
                        }
                    }
                    lemma_all_wf_subset(xs + ys, us, Set::empty());
                    lemma_exprs_view(u@);
                }
                if u.len() == 1 {
                    let ghost us = exprs_view(u@);
                    let e = u.pop().unwrap();
                    proof {
                        assert(us[0] == e@);
                    }
                    e
                } else {
                    make_op(op, u)
                }
            },
            (Ok(x), Err(e)) => {
                proof {
                    lemma_wf_children(op, a);
                    lemma_exprs_view(x@);
                }
                if x.len() == 0 {
                    e
                } else {
                    let ghost xs = exprs_view(x@);
                    let mut x = x;
                    set_insert(&mut x, e);
                    proof {
                        let us = exprs_view(x@);
                        lemma_sorted_seq_of(us);
                        assert forall|z: ExprView| us.contains(z) implies xs.contains(z) || set![b].contains(z) by {
                            assert(us.to_set().contains(z));
                        }
                        lemma_all_wf_subset(xs, us, set![b]);
                    }
                    make_op(op, x)
                }
            },
            (Err(e), Ok(y)) => {
                proof {
                    lemma_wf_children(op, b);
                    lemma_exprs_view(y@);
                }
                if y.len() == 0 {
                    e
                } else {
                    let ghost ys = exprs_view(y@);
                    let mut y = y;
                    set_insert(&mut y, e);
                    proof {
                        let us = exprs_view(y@);
                        lemma_sorted_seq_of(us);
                        assert forall|z: ExprView| us.contains(z) implies ys.contains(z) || set![a].contains(z) by {
                            assert(us.to_set().contains(z));
                        }
                        lemma_all_wf_subset(ys, us, set![a]);
                    }
                    make_op(op, y)
                }
            },
            (Err(p), Err(q)) => {
                let mut v: Vec<Expr> = Vec::new();
                v.push(p);
                proof {
                    lemma_exprs_view(v@);
                    assert(strictly_sorted(exprs_view(v@)));
                }
                let ghost vs = exprs_view(v@);
                set_insert(&mut v, q);
                proof {
                    let us = exprs_view(v@);
                    lemma_sorted_seq_of(us);
                    assert(vs.len() == 1 && vs[0] == a);
                    assert forall|z: ExprView| vs.contains(z) <==> z == a by {
                        if z == a {
                            assert(vs[0] == z);
                        }
                    }
                    assert(vs.to_set() =~= set![a]);
                    assert(us.to_set() =~= set![a, b]);
                    assert forall|z: ExprView| us.contains(z) implies set![a, b].contains(z) by {
                        assert(us.to_set().contains(z));
                    }
                    lemma_all_wf_subset(Seq::<ExprView>::empty(), us, set![a, b]);
                }
                make_op(op, v)
            },
        }
    }

    /// `self AND expr`.
    pub fn and(self, expr: Expr) -> (r: Expr)
        requires
            wf(self@),
            wf(expr@),
        ensures
            r@ == combine_spec(Op::And, self@, expr@),
            wf(r@),
    {
        self.combine(expr, Op::And)
    }

    /// `self OR expr`.
    pub fn or(self, expr: Expr) -> (r: Expr)
        requires
            wf(self@),
            wf(expr@),
        ensures
            r@ == combine_spec(Op::Or, self@, expr@),
            wf(r@),
    {
        self.combine(expr, Op::Or)
    }
}


/// What a single item adds to the set built by [`Expr::or_from_iter`].
pub open spec fn contribution(item: ExprView) -> Set<ExprView> {
    Set::new(|x: ExprView| contributes(item, x))
}

proof fn lemma_or_items_set_split(s: Seq<ExprView>)
    requires
        s.len() > 0,
    ensures
        or_items_set(s) == or_items_set(s.drop_last()) + contribution(s.last()),
{
    let init = s.drop_last();
    assert forall|x: ExprView| or_items_set(s).contains(x) <==> (or_items_set(init) + contribution(s.last())).contains(x) by {
        if or_items_set(s).contains(x) {
            let i = choose|i: int| 0 <= i < s.len() && #[trigger] contributes(s[i], x);
            if i < init.len() {
                assert(contributes(init[i], x));
            }
        }
        if or_items_set(init).contains(x) {
            let i = choose|i: int| 0 <= i < init.len() && #[trigger] contributes(init[i], x);
            assert(contributes(s[i], x));
        }
        if contribution(s.last()).contains(x) {
            assert(contributes(s[s.len() - 1], x));
        }
    }
    assert(or_items_set(s) =~= or_items_set(init) + contribution(s.last()));
}

/// The separator between the parts of an `And`.
pub open spec fn and_separator() -> Seq<char> {
    seq![' ', 'A', 'N', 'D', ' ']
}

/// The separator between the parts of an `Or`.
pub open spec fn or_separator() -> Seq<char> {
    seq![' ', 'O', 'R', ' ']
}

/// A rendered sub-expression: values as they are, sets in parentheses.
pub open spec fn wrap_part(e: ExprView, p: Seq<char>) -> Seq<char> {
    match e {
        ExprView::Value(_) => p,
        _ => seq!['('] + p + seq![')'],
    }
}

/// The query string of an expression.
pub open spec fn build_spec(e: ExprView) -> Seq<char>
    decreases e,
{
    match e {
        ExprView::And(s) => join_parts(rendered_parts(s), and_separator()),
        ExprView::Or(s) => join_parts(rendered_parts(s), or_separator()),
        ExprView::Value(v) => v,
    }
}

/// The rendered sub-expressions, in order, leaving out those that render empty.
pub open spec fn rendered_parts(s: Seq<ExprView>) -> Seq<Seq<char>>
    decreases s,
{
    if s.len() == 0 {
        Seq::empty()
    } else {
        let init = rendered_parts(s.subrange(0, s.len() - 1));
        let p = build_spec(s[s.len() - 1]);
        if p.len() == 0 { init } else { init.push(wrap_part(s[s.len() - 1], p)) }
    }
}

/// The parts joined by `sep`.
pub open spec fn join_parts(parts: Seq<Seq<char>>, sep: Seq<char>) -> Seq<char>
    decreases parts.len(),
{
    if parts.len() == 0 {
        Seq::empty()
    } else if parts.len() == 1 {
        parts[0]
    } else {
        join_parts(parts.drop_last(), sep) + sep + parts.last()
    }
}

impl Expr {
    /// An `Or` of all items, where `Or` items are flattened into it; a single
    /// resulting element stands alone.
    pub fn or_from_iter(exprs: Vec<Expr>) -> (r: Expr)
        requires
            all_wf(exprs_view(exprs@)),
        ensures
            r@ == or_from_items_spec(exprs_view(exprs@)),
            wf(r@),
    {
        let ghost items = exprs_view(exprs@);
        let mut acc: Vec<Expr> = Vec::new();
        let mut rest = exprs;
        proof {
            lemma_exprs_view(rest@);
            lemma_exprs_view(acc@);
            assert(exprs_view(acc@).to_set() + or_items_set(exprs_view(rest@)) =~= or_items_set(items));
        }
        while rest.len() > 0
            invariant
                strictly_sorted_exprs(acc@),
                all_wf(exprs_view(acc@)),
                all_wf(exprs_view(rest@)),
                exprs_view(acc@).to_set() + or_items_set(exprs_view(rest@)) == or_items_set(items),
            decreases rest.len(),
        {
            let ghost old_rest = exprs_view(rest@);
            let ghost old_acc = exprs_view(acc@);
            let ghost old_rest_exec = rest@;
            let x = rest.pop().unwrap();
            proof {
                lemma_exprs_view(old_rest_exec);
                lemma_exprs_view(rest@);
                assert(exprs_view(rest@) =~= old_rest.drop_last());
                assert(old_rest.last() == x@);
                lemma_or_items_set_split(old_rest);
                assert(wf(x@));
            }
            match x {
                Expr::Or(children) => {
                    proof {
                        lemma_exprs_view(children@);
                        assert(contribution(x@) =~= exprs_view(children@).to_set());
                    }
                    let ghost cs = exprs_view(children@);
                    acc = set_union(acc, children);
                    proof {
                        let ns = exprs_view(acc@);
                        assert forall|z: ExprView| ns.contains(z) implies old_acc.contains(z) || cs.to_set().contains(z) by {
                            assert(ns.to_set().contains(z));
                        }
                        lemma_all_wf_subset(old_acc, ns, cs.to_set());
                    }
                },
                other => {
                    proof {
                        assert(contribution(other@) =~= set![other@]);
                    }
                    let ghost ov = other@;
                    set_insert(&mut acc, other);
                    proof {
                        let ns = exprs_view(acc@);
                        assert forall|z: ExprView| ns.contains(z) implies old_acc.contains(z) || set![ov].contains(z) by {
                            assert(ns.to_set().contains(z));
                        }
                        lemma_all_wf_subset(old_acc, ns, set![ov]);
                    }
                },
            }
            proof {
                assert(exprs_view(acc@).to_set() + or_items_set(exprs_view(rest@)) =~= or_items_set(items));
            }
        }
        proof {
            lemma_exprs_view(rest@);
            assert(or_items_set(exprs_view(rest@)) =~= Set::empty());
            assert(exprs_view(acc@).to_set() =~= or_items_set(items));
            lemma_sorted_seq_of(exprs_view(acc@));
            lemma_exprs_view(acc@);
        }
        if acc.len() == 1 {
            let ghost av = exprs_view(acc@);
            let e = acc.pop().unwrap();
            proof {
                assert(av[0] == e@);
            }
            e
        } else {
            Expr::Or(acc)
        }
    }

    /// The query string: sub-expressions joined by ` AND ` or ` OR `, nested
    /// sets in parentheses, empty parts left out.
    pub fn build(self) -> (r: String)
        ensures
            r@ == build_spec(self@),
    {
        self.build_ref()
    }

    fn build_ref(&self) -> (r: String)
        ensures
            r@ == build_spec(self@),
        decreases self,
    {
        match self {
            Expr::Value(s) => s.clone(),
            Expr::And(v) => {
                let sep = " AND ";
                proof {
                    reveal_strlit(" AND ");
                    assert(sep@ =~= and_separator());
                }
                join_exprs(v, sep)
            },
            Expr::Or(v) => {
                let sep = " OR ";
                proof {
                    reveal_strlit(" OR ");
                    assert(sep@ =~= or_separator());
                }
                join_exprs(v, sep)
            },
        }
    }
}

fn join_exprs(v: &Vec<Expr>, sep: &str) -> (r: String)
    ensures
        r@ == join_parts(rendered_parts(exprs_view(v@)), sep@),
    decreases v,
{
    proof {
        lemma_exprs_view(v@);
    }
    let ghost ev = exprs_view(v@);
    let mut res = String::new();
    let mut any = false;
    let mut i: usize = 0;
    proof {
        assert(ev.subrange(0, 0) =~= Seq::<ExprView>::empty());
    }
    while i < v.len()
        invariant
            ev == exprs_view(v@),
            ev.len() == v.len(),
            forall|k: int| 0 <= k < v.len() ==> #[trigger] ev[k] == expr_view(v@[k]),
            i <= v.len(),
            res@ == join_parts(rendered_parts(ev.subrange(0, i as int)), sep@),
            any == (rendered_parts(ev.subrange(0, i as int)).len() > 0),
        decreases v.len() - i,
    {
        let p = v[i].build_ref();
        let ghost pre = ev.subrange(0, i as int);
        let ghost next = ev.subrange(0, i + 1);
        proof {
            assert(next.subrange(0, next.len() - 1) =~= pre);
            assert(next[next.len() - 1] == ev[i as int]);
        }
        if p.as_str().unicode_len() > 0 {
            let part = match &v[i] {
                Expr::Value(_) => p,
                _ => {
                    let mut w = String::from_str("(");
                    proof {
                        reveal_strlit("(");
                        reveal_strlit(")");
                    }
                    w.append(p.as_str());
                    w.append(")");
                    w
                },
            };
            proof {
                assert(part@ =~= wrap_part(ev[i as int], p@));
                let parts = rendered_parts(pre);
                assert(rendered_parts(next) == parts.push(part@));
                assert(parts.push(part@).drop_last() =~= parts);
            }
            if any {
                res.append(sep);
            }
            res.append(part.as_str());
            any = true;
            proof {
                let parts = rendered_parts(pre);
                if parts.len() == 0 {
                    assert(res@ =~= part@);
                }
            }
        }
        i = i + 1;
    }
    proof {
        assert(ev.subrange(0, v.len() as int) =~= ev);
    }
    res
}


impl Expr {
    /// The sorted set of `items` (duplicates removed).
    pub fn set_of(items: Vec<Expr>) -> (r: Vec<Expr>)
        ensures
            strictly_sorted_exprs(r@),
            exprs_view(r@) == seq_set(exprs_view(items@)),
            exprs_view(r@).to_set() == exprs_view(items@).to_set(),
    {
        let empty: Vec<Expr> = Vec::new();
        proof {
            lemma_exprs_view(empty@);
            assert(exprs_view(empty@).to_set() =~= Set::empty());
        }
        let r = set_union(empty, items);
        proof {
            assert(exprs_view(r@).to_set() =~= exprs_view(items@).to_set());
            lemma_sorted_seq_of(exprs_view(r@));
        }
        r
    }

    /// An `And` over the set of `items`.
    pub fn new_and(items: Vec<Expr>) -> (r: Expr)
        requires
            all_wf(exprs_view(items@)),
        ensures
            r@ == ExprView::And(seq_set(exprs_view(items@))),
            wf(r@),
    {
        let ghost iv = exprs_view(items@);
        let v = Expr::set_of(items);
        proof {
            lemma_sorted_seq_of(exprs_view(v@));
            lemma_set_seq_wf(iv, exprs_view(v@));
        }
        Expr::And(v)
    }

    /// An `Or` over the set of `items`.
    pub fn new_or(items: Vec<Expr>) -> (r: Expr)
        requires
            all_wf(exprs_view(items@)),
        ensures
            r@ == ExprView::Or(seq_set(exprs_view(items@))),
            wf(r@),
    {
        let ghost iv = exprs_view(items@);
        let v = Expr::set_of(items);
        proof {
            lemma_sorted_seq_of(exprs_view(v@));
            lemma_set_seq_wf(iv, exprs_view(v@));
        }
        Expr::Or(v)
    }
}

proof fn lemma_set_seq_wf(items: Seq<ExprView>, s: Seq<ExprView>)
    requires
        all_wf(items),
        s == seq_set(items),
        strictly_sorted(s),
        s.to_set() == items.to_set(),
    ensures
        all_wf(s),
{
    assert forall|z: ExprView| s.contains(z) implies items.contains(z) || Set::<ExprView>::empty().contains(z) by {
        assert(s.to_set().contains(z));
    }
    lemma_all_wf_subset(items, s, Set::empty());
}

/// Combining is commutative: `a op b` and `b op a` are the same expression.
pub proof fn lemma_combine_commutative(op: Op, a: ExprView, b: ExprView)
    ensures
        combine_spec(op, a, b) == combine_spec(op, b, a),
{
    match (op_children(a, op), op_children(b, op)) {
        (Some(x), Some(y)) => {
            assert(x.to_set() + y.to_set() =~= y.to_set() + x.to_set());
        },
        (None, None) => {
            assert(set![a, b] =~= set![b, a]);
        },
        _ => {},
    }
}

/// For plain operands, both groupings give the set of the three operands:
/// `a op (b op c) == (a op b) op c == op {a, b, c}`.
pub proof fn lemma_combine_associative(op: Op, a: ExprView, b: ExprView, c: ExprView)
    requires
        op_children(a, op) is None,
        op_children(b, op) is None,
        op_children(c, op) is None,
    ensures
        combine_spec(op, a, combine_spec(op, b, c)) == op_expr(op, sorted_seq_of(set![a, b, c])),
        combine_spec(op, combine_spec(op, a, b), c) == op_expr(op, sorted_seq_of(set![a, b, c])),
{
    let bc = sorted_seq_of(set![b, c]);
    let ab = sorted_seq_of(set![a, b]);
    lemma_sorted_seq_exists(set![b, c]);
    lemma_sorted_seq_exists(set![a, b]);
    assert(bc.contains(b)) by {
        assert(bc.to_set().contains(b));
    }
    assert(ab.contains(a)) by {
        assert(ab.to_set().contains(a));
    }
    assert(bc.len() > 0);
    assert(ab.len() > 0);
    assert(op_children(op_expr(op, bc), op) == Some(bc));
    assert(op_children(op_expr(op, ab), op) == Some(ab));
    assert(bc.to_set().insert(a) =~= set![a, b, c]);
    assert(ab.to_set().insert(c) =~= set![a, b, c]);
}

/// Every finite set of expressions has a sorted sequence.
pub proof fn lemma_sorted_seq_exists(elems: Set<ExprView>)
    requires
        elems.finite(),
    ensures
        strictly_sorted(sorted_seq_of(elems)),
        sorted_seq_of(elems).to_set() == elems,
    decreases elems.len(),
{
    if elems.len() == 0 {
        let e = Seq::<ExprView>::empty();
        assert(e.to_set() =~= elems);
        assert(strictly_sorted(e));
    } else {
        let x = elems.choose();
        let rest = elems.remove(x);
        lemma_sorted_seq_exists(rest);
        let s = sorted_seq_of(rest);
        // insert `x` at its place in `s`
        let i = sorted_position(s, x);
        lemma_sorted_position(s, x);
        lemma_insert_sorted(s, i, x);
        assert(s.insert(i, x).to_set() =~= elems);
    }
}

/// The number of elements of `s` that are below `x`.
pub open spec fn sorted_position(s: Seq<ExprView>, x: ExprView) -> int
    decreases s.len(),
{
    if s.len() == 0 {
        0
    } else if expr_order(s[0], x) < 0 {
        1 + sorted_position(s.subrange(1, s.len() as int), x)
    } else {
        0
    }
}

proof fn lemma_sorted_position(s: Seq<ExprView>, x: ExprView)
    requires
        strictly_sorted(s),
        !s.contains(x),
    ensures
        0 <= sorted_position(s, x) <= s.len(),
        forall|k: int| 0 <= k < sorted_position(s, x) ==> expr_order(#[trigger] s[k], x) < 0,
        sorted_position(s, x) < s.len() ==> expr_order(x, s[sorted_position(s, x)]) < 0,
    decreases s.len(),
{
    if s.len() > 0 {
        let s1 = s.subrange(1, s.len() as int);
        assert(strictly_sorted(s1));
        assert(!s1.contains(x)) by {
            if s1.contains(x) {
                let k = choose|k: int| 0 <= k < s1.len() && s1[k] == x;
                assert(s[k + 1] == x);
            }
        }
        lemma_sorted_position(s1, x);
        lemma_expr_order(s[0], x);
        if expr_order(s[0], x) < 0 {
            assert forall|k: int| 0 <= k < sorted_position(s, x) implies expr_order(#[trigger] s[k], x) < 0 by {
                if k > 0 {
                    assert(s[k] == s1[k - 1]);
                }
            }
            if sorted_position(s, x) < s.len() {
                assert(s[sorted_position(s, x)] == s1[sorted_position(s1, x)]);
            }
        } else {
            assert(s[0] != x) by {
                assert(s.contains(s[0]));
            }
        }
    }
}

/// An empty set is neutral: `op {} op e` is `e`, except that a set holding a
/// single element collapses to that element.
pub proof fn lemma_combine_empty_neutral(op: Op, e: ExprView)
    requires
        wf(e),
    ensures
        combine_spec(op, op_expr(op, Seq::empty()), e) == (match op_children(e, op) {
            Some(y) => if y.len() == 1 { y[0] } else { e },
            None => e,
        }),
{
    let empty = Seq::<ExprView>::empty();
    assert(op_children(op_expr(op, empty), op) == Some(empty));
    match op_children(e, op) {
        Some(y) => {
            assert(strictly_sorted(y));
            assert(empty.to_set() + y.to_set() =~= y.to_set());
            lemma_sorted_seq_of(y);
            match op {
                Op::And => { assert(e == ExprView::And(y)); },
                Op::Or => { assert(e == ExprView::Or(y)); },
            }
        },
        None => {},
    }
}

} // verus!
