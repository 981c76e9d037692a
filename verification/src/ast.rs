//! The expression tree of a propositional formula, its free-variable
//! discovery, and the mathematical model that the contracts speak of.

use vstd::prelude::*;
use vstd::arithmetic::power2::pow2;
use vstd::string::StringExecFns;

use crate::assignment::{imap_get, imap_insert, imap_keys, imap_map, imap_new};
use crate::bitcartesiann::{bits_of, lemma_bits_of_len, BitCartesianN};

verus! {

/// A propositional formula: a variable leaf, a negation, or one of five
/// binary connectives. The tree is immutable and each node owns its children.
#[derive(Debug, PartialEq, Eq)]
pub enum Expr {
    Var(String),
    Not(Box<Expr>),
    And(Box<Expr>, Box<Expr>),
    Or(Box<Expr>, Box<Expr>),
    Implication(Box<Expr>, Box<Expr>),
    Biconditional(Box<Expr>, Box<Expr>),
    XOR(Box<Expr>, Box<Expr>),
}

/// The mathematical shape of a formula: the same tree with each variable
/// name abstracted to its character sequence.
pub enum ExprView {
    Var(Seq<char>),
    Not(Box<ExprView>),
    And(Box<ExprView>, Box<ExprView>),
    Or(Box<ExprView>, Box<ExprView>),
    Implication(Box<ExprView>, Box<ExprView>),
    Biconditional(Box<ExprView>, Box<ExprView>),
    XOR(Box<ExprView>, Box<ExprView>),
}

pub open spec fn expr_view(e: Expr) -> ExprView
    decreases e,
{
    match e {
        Expr::Var(name) => ExprView::Var(name@),
        Expr::Not(a) => ExprView::Not(Box::new(expr_view(*a))),
        Expr::And(a, b) => ExprView::And(Box::new(expr_view(*a)), Box::new(expr_view(*b))),
        Expr::Or(a, b) => ExprView::Or(Box::new(expr_view(*a)), Box::new(expr_view(*b))),
        Expr::Implication(a, b) => ExprView::Implication(
            Box::new(expr_view(*a)),
            Box::new(expr_view(*b)),
        ),
        Expr::Biconditional(a, b) => ExprView::Biconditional(
            Box::new(expr_view(*a)),
            Box::new(expr_view(*b)),
        ),
        Expr::XOR(a, b) => ExprView::XOR(Box::new(expr_view(*a)), Box::new(expr_view(*b))),
    }
}

impl View for Expr {
    type V = ExprView;

    open spec fn view(&self) -> ExprView {
        expr_view(*self)
    }
}

/// The names of a sequence of variables, each as its character sequence.
pub open spec fn names_of(v: Seq<String>) -> Seq<Seq<char>> {
    v.map_values(|s: String| s@)
}

/// Deduplication that keeps the first occurrence of each element, in order.
pub open spec fn dedup_first(s: Seq<Seq<char>>) -> Seq<Seq<char>>
    decreases s.len(),
{
    if s.len() == 0 {
        Seq::empty()
    } else {
        let d = dedup_first(s.drop_last());
        if s.drop_last().contains(s.last()) {
            d
        } else {
            d.push(s.last())
        }
    }
}

/// `dedup_first` keeps exactly the elements of its input.
pub proof fn lemma_dedup_first_contains(s: Seq<Seq<char>>, x: Seq<char>)
    ensures
        dedup_first(s).contains(x) <==> s.contains(x),
    decreases s.len(),
{
    if s.len() > 0 {
        let t = s.drop_last();
        let l = s.last();
        let d = dedup_first(t);
        lemma_dedup_first_contains(t, x);
        if s.contains(x) {
            let i = choose|i: int| 0 <= i < s.len() && s[i] == x;
            if i < s.len() - 1 {
                assert(t[i] == x);
                assert(t.contains(x));
                if !t.contains(l) {
                    let j = choose|j: int| 0 <= j < d.len() && d[j] == x;
                    assert(d.push(l)[j] == x);
                    assert(dedup_first(s).contains(x));
                }
            } else {
                if t.contains(l) {
                    assert(t.contains(x));
                } else {
                    assert(d.push(l)[d.len() as int] == x);
                    assert(dedup_first(s).contains(x));
                }
            }
        }
        if dedup_first(s).contains(x) {
            if t.contains(l) {
                assert(d.contains(x));
                let i = choose|i: int| 0 <= i < t.len() && t[i] == x;
                assert(s[i] == x);
            } else {
                let j = choose|j: int| 0 <= j < d.push(l).len() && d.push(l)[j] == x;
                if j < d.len() {
                    assert(d[j] == x);
                    assert(d.contains(x));
                    let i = choose|i: int| 0 <= i < t.len() && t[i] == x;
                    assert(s[i] == x);
                } else {
                    assert(x == l);
                    assert(s[s.len() - 1] == x);
                }
            }
        }
    }
}

/// The position of the first occurrence of `x` in `s`.
pub open spec fn first_occurrence(s: Seq<Seq<char>>, x: Seq<char>) -> int {
    s.index_of_first(x).unwrap()
}

/// Pushing one element at the end moves no first occurrence: an element
/// already present keeps its first position, and a fresh element pushed at
/// the end first occurs there.
proof fn lemma_index_of_first_push(t: Seq<Seq<char>>, l: Seq<char>, x: Seq<char>)
    ensures
        t.contains(x) ==> t.push(l).index_of_first(x) == t.index_of_first(x),
        (!t.contains(x) && x == l) ==> t.push(l).index_of_first(x) == Some(t.len() as int),
{
    let s = t.push(l);
    t.index_of_first_ensures(x);
    s.index_of_first_ensures(x);
    if t.contains(x) {
        let k = t.index_of_first(x).unwrap();
        assert(s[k] == x);
        assert(s.contains(x));
        let ks = s.index_of_first(x).unwrap();
        if ks < k {
            assert(t[ks] == s[ks]);
        }
        assert(ks == k);
    } else if x == l {
        assert(s[t.len() as int] == x);
        assert(s.contains(x));
        let ks = s.index_of_first(x).unwrap();
        if ks < t.len() {
            assert(t[ks] == s[ks]);
            assert(t.contains(x));
        }
        assert(ks == t.len());
    }
}

/// Law: deduplication preserves first-occurrence order — entries of
/// `dedup_first(s)` occur in the order of their first occurrences in `s`,
/// and each of them does occur in `s`.
pub proof fn lemma_dedup_first_order(s: Seq<Seq<char>>)
    ensures
        forall|i: int|
            0 <= i < dedup_first(s).len() ==> s.contains(#[trigger] dedup_first(s)[i]),
        forall|i: int, j: int|
            0 <= i < j < dedup_first(s).len() ==> first_occurrence(
                s,
                #[trigger] dedup_first(s)[i],
            ) < first_occurrence(s, #[trigger] dedup_first(s)[j]),
    decreases s.len(),
{
    assert forall|i: int|
        0 <= i < dedup_first(s).len() implies s.contains(#[trigger] dedup_first(s)[i]) by {
        assert(dedup_first(s).contains(dedup_first(s)[i]));
        lemma_dedup_first_contains(s, dedup_first(s)[i]);
    }
    if s.len() > 0 {
        let t = s.drop_last();
        let l = s.last();
        let d = dedup_first(t);
        lemma_dedup_first_order(t);
        assert(s =~= t.push(l));
        assert forall|i: int|
            0 <= i < d.len() implies s.index_of_first(#[trigger] d[i]) == t.index_of_first(d[i])
            && t.contains(d[i]) by {
            assert(d.contains(d[i]));
            lemma_dedup_first_contains(t, d[i]);
            lemma_index_of_first_push(t, l, d[i]);
        }
        assert forall|i: int|
            0 <= i < d.len() implies first_occurrence(s, #[trigger] d[i]) < t.len() by {
            t.index_of_first_ensures(d[i]);
        }
        if t.contains(l) {
            assert(dedup_first(s) == d);
        } else {
            assert(dedup_first(s) == d.push(l));
            lemma_index_of_first_push(t, l, l);
            assert(first_occurrence(s, l) == t.len());
            assert forall|i: int, j: int|
                0 <= i < j < dedup_first(s).len() implies first_occurrence(
                s,
                #[trigger] dedup_first(s)[i],
            ) < first_occurrence(s, #[trigger] dedup_first(s)[j]) by {
                assert(dedup_first(s)[i] == d[i]);
                if j < d.len() {
                    assert(dedup_first(s)[j] == d[j]);
                } else {
                    assert(dedup_first(s)[j] == l);
                }
            }
        }
    }
}

/// Law: deduplication leaves no duplicates — any two positions of
/// `dedup_first(s)` hold different elements.
pub proof fn lemma_dedup_first_distinct(s: Seq<Seq<char>>)
    ensures
        forall|i: int, j: int|
            0 <= i < j < dedup_first(s).len() ==> dedup_first(s)[i] != dedup_first(s)[j],
    decreases s.len(),
{
    if s.len() > 0 {
        let t = s.drop_last();
        let l = s.last();
        let d = dedup_first(t);
        lemma_dedup_first_distinct(t);
        if !t.contains(l) {
            lemma_dedup_first_contains(t, l);
            assert forall|i: int, j: int|
                0 <= i < j < d.push(l).len() implies d.push(l)[i] != d.push(l)[j] by {
                if j < d.len() {
                    assert(d.push(l)[i] == d[i] && d.push(l)[j] == d[j]);
                } else {
                    assert(d.push(l)[i] == d[i]);
                    if d[i] == l {
                        assert(d.contains(l));
                    }
                }
            }
        }
    }
}

/// The assignment a truth-table row stands for: variable `vars[j]` bound to
/// `bits[j]`, for sequences of equal length.
pub open spec fn row_map(vars: Seq<Seq<char>>, bits: Seq<bool>) -> Map<Seq<char>, bool>
    decreases vars.len(),
{
    if vars.len() == 0 {
        Map::empty()
    } else {
        row_map(vars.drop_last(), bits.drop_last()).insert(vars.last(), bits.last())
    }
}

/// The domain of a row's assignment is exactly the set of its variables.
pub proof fn lemma_row_map_dom(vars: Seq<Seq<char>>, bits: Seq<bool>, x: Seq<char>)
    requires
        vars.len() == bits.len(),
    ensures
        row_map(vars, bits).dom().contains(x) <==> vars.contains(x),
    decreases vars.len(),
{
    if vars.len() > 0 {
        lemma_row_map_dom(vars.drop_last(), bits.drop_last(), x);
        if x == vars.last() {
            assert(vars[vars.len() - 1] == x);
        } else {
            if vars.drop_last().contains(x) {
                let i = choose|i: int| 0 <= i < vars.len() - 1 && vars.drop_last()[i] == x;
                assert(vars[i] == x);
            }
            if vars.contains(x) {
                let i = choose|i: int| 0 <= i < vars.len() && vars[i] == x;
                assert(vars.drop_last()[i] == x);
            }
        }
    }
}

/// In a row over distinct variables, each variable is bound to its own bit.
pub proof fn lemma_row_map_index(vars: Seq<Seq<char>>, bits: Seq<bool>, j: int)
    requires
        vars.len() == bits.len(),
        0 <= j < vars.len(),
        forall|i1: int, i2: int| 0 <= i1 < i2 < vars.len() ==> vars[i1] != vars[i2],
    ensures
        row_map(vars, bits).dom().contains(vars[j]),
        row_map(vars, bits)[vars[j]] == bits[j],
    decreases vars.len(),
{
    if j == vars.len() - 1 {
        assert(vars.last() == vars[j]);
    } else {
        assert(forall|i1: int, i2: int|
            0 <= i1 < i2 < vars.drop_last().len() ==> vars.drop_last()[i1]
                != vars.drop_last()[i2]);
        lemma_row_map_index(vars.drop_last(), bits.drop_last(), j);
        assert(vars.drop_last()[j] == vars[j]);
        assert(vars[j] != vars.last());
    }
}

impl ExprView {
    /// Every variable occurrence in the tree, left to right, depth first,
    /// duplicates included.
    pub open spec fn var_occurrences(self) -> Seq<Seq<char>>
        decreases self,
    {
        match self {
            ExprView::Var(name) => seq![name],
            ExprView::Not(a) => (*a).var_occurrences(),
            ExprView::And(a, b) => (*a).var_occurrences() + (*b).var_occurrences(),
            ExprView::Or(a, b) => (*a).var_occurrences() + (*b).var_occurrences(),
            ExprView::Implication(a, b) => (*a).var_occurrences() + (*b).var_occurrences(),
            ExprView::Biconditional(a, b) => (*a).var_occurrences() + (*b).var_occurrences(),
            ExprView::XOR(a, b) => (*a).var_occurrences() + (*b).var_occurrences(),
        }
    }

    /// The free variables of the tree: first-occurrence order, no duplicates.
    pub open spec fn table_vars(self) -> Seq<Seq<char>> {
        dedup_first(self.var_occurrences())
    }

    /// The non-leaf sub-expressions of the tree in post-order: the children
    /// of a node are listed, in full, before the node itself, and identical
    /// shapes at different positions each keep their own entry.
    pub open spec fn steps(self) -> Seq<ExprView>
        decreases self,
    {
        match self {
            ExprView::Var(_) => Seq::empty(),
            ExprView::Not(a) => (*a).steps().push(self),
            ExprView::And(a, b) => (*a).steps() + (*b).steps() + seq![self],
            ExprView::Or(a, b) => (*a).steps() + (*b).steps() + seq![self],
            ExprView::Implication(a, b) => (*a).steps() + (*b).steps() + seq![self],
            ExprView::Biconditional(a, b) => (*a).steps() + (*b).steps() + seq![self],
            ExprView::XOR(a, b) => (*a).steps() + (*b).steps() + seq![self],
        }
    }

    /// The textual form of the tree: a variable is its bare name, and every
    /// operator application is wrapped in parentheses.
    pub open spec fn render(self) -> Seq<char>
        decreases self,
    {
        match self {
            ExprView::Var(name) => name,
            ExprView::Not(a) => seq!['(', '!'] + (*a).render() + seq![')'],
            ExprView::And(a, b) => seq!['('] + (*a).render() + seq!['&'] + (*b).render()
                + seq![')'],
            ExprView::Or(a, b) => seq!['('] + (*a).render() + seq!['|'] + (*b).render()
                + seq![')'],
            ExprView::Implication(a, b) => seq!['('] + (*a).render() + seq!['=', '>']
                + (*b).render() + seq![')'],
            ExprView::Biconditional(a, b) => seq!['('] + (*a).render() + seq!['<', '=', '>']
                + (*b).render() + seq![')'],
            ExprView::XOR(a, b) => seq!['('] + (*a).render() + seq!['<', '!', '=', '>']
                + (*b).render() + seq![')'],
        }
    }

    /// Whether the assignment `m` binds every variable of the tree.
    pub open spec fn all_vars_bound(self, m: Map<Seq<char>, bool>) -> bool
        decreases self,
    {
        match self {
            ExprView::Var(name) => m.dom().contains(name),
            ExprView::Not(a) => (*a).all_vars_bound(m),
            ExprView::And(a, b) => (*a).all_vars_bound(m) && (*b).all_vars_bound(m),
            ExprView::Or(a, b) => (*a).all_vars_bound(m) && (*b).all_vars_bound(m),
            ExprView::Implication(a, b) => (*a).all_vars_bound(m) && (*b).all_vars_bound(m),
            ExprView::Biconditional(a, b) => (*a).all_vars_bound(m) && (*b).all_vars_bound(m),
            ExprView::XOR(a, b) => (*a).all_vars_bound(m) && (*b).all_vars_bound(m),
        }
    }

    /// The truth value of the tree under the assignment `m`: negation,
    /// conjunction, disjunction, material implication, biconditional and
    /// exclusive or, with variables looked up in `m`.
    pub open spec fn eval(self, m: Map<Seq<char>, bool>) -> bool
        decreases self,
    {
        match self {
            ExprView::Var(name) => m[name],
            ExprView::Not(a) => !(*a).eval(m),
            ExprView::And(a, b) => (*a).eval(m) && (*b).eval(m),
            ExprView::Or(a, b) => (*a).eval(m) || (*b).eval(m),
            ExprView::Implication(a, b) => !(*a).eval(m) || (*b).eval(m),
            ExprView::Biconditional(a, b) => (*a).eval(m) == (*b).eval(m),
            ExprView::XOR(a, b) => (*a).eval(m) != (*b).eval(m),
        }
    }
}

/// Law: evaluation distributes over every connective — a conjunction
/// evaluates to the conjunction of its operands' values, and likewise for
/// the other connectives, under any assignment.
pub proof fn lemma_eval_connectives(a: ExprView, b: ExprView, m: Map<Seq<char>, bool>)
    ensures
        ExprView::Not(Box::new(a)).eval(m) == !a.eval(m),
        ExprView::And(Box::new(a), Box::new(b)).eval(m) == (a.eval(m) && b.eval(m)),
        ExprView::Or(Box::new(a), Box::new(b)).eval(m) == (a.eval(m) || b.eval(m)),
        ExprView::Implication(Box::new(a), Box::new(b)).eval(m) == (!a.eval(m) || b.eval(m)),
        ExprView::Biconditional(Box::new(a), Box::new(b)).eval(m) == (a.eval(m) == b.eval(m)),
        ExprView::XOR(Box::new(a), Box::new(b)).eval(m) == (a.eval(m) != b.eval(m)),
{
}

/// An assignment binds every variable of a tree exactly when its domain
/// covers every variable occurrence.
pub proof fn lemma_all_vars_bound_iff(e: ExprView, m: Map<Seq<char>, bool>)
    ensures
        e.all_vars_bound(m) <==> (forall|v: Seq<char>|
            e.var_occurrences().contains(v) ==> m.dom().contains(v)),
    decreases e,
{
    let occ = e.var_occurrences();
    match e {
        ExprView::Var(name) => {
            assert(occ[0] == name);
        },
        ExprView::Not(a) => {
            lemma_all_vars_bound_iff(*a, m);
        },
        ExprView::And(a, b) => {
            lemma_all_vars_bound_iff(*a, m);
            lemma_all_vars_bound_iff(*b, m);
            lemma_binary_vars_bound(e, *a, *b, m);
        },
        ExprView::Or(a, b) => {
            lemma_all_vars_bound_iff(*a, m);
            lemma_all_vars_bound_iff(*b, m);
            lemma_binary_vars_bound(e, *a, *b, m);
        },
        ExprView::Implication(a, b) => {
            lemma_all_vars_bound_iff(*a, m);
            lemma_all_vars_bound_iff(*b, m);
            lemma_binary_vars_bound(e, *a, *b, m);
        },
        ExprView::Biconditional(a, b) => {
            lemma_all_vars_bound_iff(*a, m);
            lemma_all_vars_bound_iff(*b, m);
            lemma_binary_vars_bound(e, *a, *b, m);
        },
        ExprView::XOR(a, b) => {
            lemma_all_vars_bound_iff(*a, m);
            lemma_all_vars_bound_iff(*b, m);
            lemma_binary_vars_bound(e, *a, *b, m);
        },
    }
}

/// Helper for `lemma_all_vars_bound_iff` at a binary node whose operands
/// are `a` and `b`.
proof fn lemma_binary_vars_bound(e: ExprView, a: ExprView, b: ExprView, m: Map<Seq<char>, bool>)
    requires
        e.var_occurrences() == a.var_occurrences() + b.var_occurrences(),
        e.all_vars_bound(m) == (a.all_vars_bound(m) && b.all_vars_bound(m)),
        a.all_vars_bound(m) <==> (forall|v: Seq<char>|
            a.var_occurrences().contains(v) ==> m.dom().contains(v)),
        b.all_vars_bound(m) <==> (forall|v: Seq<char>|
            b.var_occurrences().contains(v) ==> m.dom().contains(v)),
    ensures
        e.all_vars_bound(m) <==> (forall|v: Seq<char>|
            e.var_occurrences().contains(v) ==> m.dom().contains(v)),
{
    let occ = e.var_occurrences();
    let oa = a.var_occurrences();
    let ob = b.var_occurrences();
    if a.all_vars_bound(m) && b.all_vars_bound(m) {
        assert forall|v: Seq<char>| occ.contains(v) implies m.dom().contains(v) by {
            let i = choose|i: int| 0 <= i < occ.len() && occ[i] == v;
            if i < oa.len() {
                assert(oa[i] == v);
                assert(oa.contains(v));
            } else {
                assert(ob[i - oa.len()] == v);
                assert(ob.contains(v));
            }
        }
    }
    if forall|v: Seq<char>| occ.contains(v) ==> m.dom().contains(v) {
        assert forall|v: Seq<char>| oa.contains(v) implies m.dom().contains(v) by {
            let i = choose|i: int| 0 <= i < oa.len() && oa[i] == v;
            assert(occ[i] == v);
            assert(occ.contains(v));
        }
        assert forall|v: Seq<char>| ob.contains(v) implies m.dom().contains(v) by {
            let i = choose|i: int| 0 <= i < ob.len() && ob[i] == v;
            assert(occ[oa.len() + i] == v);
            assert(occ.contains(v));
        }
    }
}

/// Law: a truth-table row re-evaluates to itself. An assignment built over
/// exactly the tree's free variables binds every variable of the tree, so
/// `evaluate` — whose contract returns `Some` of the tree's value precisely
/// on binding assignments — returns, on a row's own assignment, the result
/// that `evaluate_all` stored in that row.
pub proof fn lemma_row_binds_all_vars(e: ExprView, bits: Seq<bool>)
    requires
        e.table_vars().len() == bits.len(),
    ensures
        e.all_vars_bound(row_map(e.table_vars(), bits)),
{
    let m = row_map(e.table_vars(), bits);
    lemma_all_vars_bound_iff(e, m);
    assert forall|v: Seq<char>|
        e.var_occurrences().contains(v) implies m.dom().contains(v) by {
        lemma_dedup_first_contains(e.var_occurrences(), v);
        lemma_row_map_dom(e.table_vars(), bits, v);
    }
}

/// The views of a sequence of expressions.
pub open spec fn views_of(s: Seq<Expr>) -> Seq<ExprView> {
    s.map_values(|e: Expr| e@)
}

proof fn lemma_views_of_push(s: Seq<Expr>, e: Expr)
    ensures
        views_of(s.push(e)) == views_of(s).push(e@),
{
    assert(views_of(s.push(e)) =~= views_of(s).push(e@));
}

/// An owned copy of the tree, equal to the original.
fn clone_expr(e: &Expr) -> (r: Expr)
    ensures
        r == *e,
    decreases e,
{
    match e {
        Expr::Var(name) => Expr::Var(name.clone()),
        Expr::Not(a) => Expr::Not(Box::new(clone_expr(&**a))),
        Expr::And(a, b) => Expr::And(Box::new(clone_expr(&**a)), Box::new(clone_expr(&**b))),
        Expr::Or(a, b) => Expr::Or(Box::new(clone_expr(&**a)), Box::new(clone_expr(&**b))),
        Expr::Implication(a, b) => Expr::Implication(
            Box::new(clone_expr(&**a)),
            Box::new(clone_expr(&**b)),
        ),
        Expr::Biconditional(a, b) => Expr::Biconditional(
            Box::new(clone_expr(&**a)),
            Box::new(clone_expr(&**b)),
        ),
        Expr::XOR(a, b) => Expr::XOR(Box::new(clone_expr(&**a)), Box::new(clone_expr(&**b))),
    }
}

impl Clone for Expr {
    fn clone(&self) -> (r: Self)
        ensures
            r == *self,
    {
        clone_expr(self)
    }
}

/// Whether `v` holds a string whose characters are `s@`.
fn contains_string(v: &Vec<String>, s: &String) -> (r: bool)
    ensures
        r == names_of(v@).contains(s@),
{
    let mut j: usize = 0;
    while j < v.len()
        invariant
            j <= v@.len(),
            forall|k: int| 0 <= k < j ==> names_of(v@)[k] != s@,
        decreases v@.len() - j,
    {
        if v[j] == *s {
            assert(names_of(v@)[j as int] == s@);
            return true;
        }
        j += 1;
    }
    false
}

impl Expr {
    /// The deduplicated, first-occurrence-ordered list of variable names
    /// appearing in the tree.
    pub fn get_vars(&self) -> (r: Vec<String>)
        ensures
            names_of(r@) == self@.table_vars(),
    {
        let mut vars: Vec<String> = Vec::new();
        self._get_vars_recursive(&mut vars);

        let mut vars_dedup: Vec<String> = Vec::new();
        let mut i: usize = 0;
        while i < vars.len()
            invariant
                i <= vars@.len(),
                names_of(vars_dedup@) == dedup_first(names_of(vars@).take(i as int)),
            decreases vars@.len() - i,
        {
            let ghost prefix = names_of(vars@).take(i as int);
            proof {
                assert(names_of(vars@).take(i + 1).drop_last() =~= prefix);
                assert(names_of(vars@).take(i + 1).last() == vars@[i as int]@);
                lemma_dedup_first_contains(prefix, vars@[i as int]@);
            }
            if !contains_string(&vars_dedup, &vars[i]) {
                vars_dedup.push(vars[i].clone());
                proof {
                    assert(names_of(vars_dedup@) =~= dedup_first(names_of(vars@).take(i + 1)));
                }
            }
            i += 1;
        }
        proof {
            assert(names_of(vars@).take(vars@.len() as int) =~= names_of(vars@));
        }
        vars_dedup
    }

    /// Appends every variable occurrence of the tree to `vars`, in
    /// left-to-right, depth-first order.
    fn _get_vars_recursive(&self, vars: &mut Vec<String>)
        ensures
            names_of(final(vars)@) == names_of(old(vars)@) + self@.var_occurrences(),
        decreases self,
    {
        match self {
            Expr::Var(a) => {
                vars.push(a.clone());
                proof {
                    assert(names_of(vars@) =~= names_of(old(vars)@) + self@.var_occurrences());
                }
            },
            Expr::Not(a) => {
                a._get_vars_recursive(vars);
            },
            Expr::And(a, b) => {
                a._get_vars_recursive(vars);
                b._get_vars_recursive(vars);
                proof {
                    assert(names_of(vars@) =~= names_of(old(vars)@) + self@.var_occurrences());
                }
            },
            Expr::Or(a, b) => {
                a._get_vars_recursive(vars);
                b._get_vars_recursive(vars);
                proof {
                    assert(names_of(vars@) =~= names_of(old(vars)@) + self@.var_occurrences());
                }
            },
            Expr::Implication(a, b) => {
                a._get_vars_recursive(vars);
                b._get_vars_recursive(vars);
                proof {
                    assert(names_of(vars@) =~= names_of(old(vars)@) + self@.var_occurrences());
                }
            },
            Expr::Biconditional(a, b) => {
                a._get_vars_recursive(vars);
                b._get_vars_recursive(vars);
                proof {
                    assert(names_of(vars@) =~= names_of(old(vars)@) + self@.var_occurrences());
                }
            },
            Expr::XOR(a, b) => {
                a._get_vars_recursive(vars);
                b._get_vars_recursive(vars);
                proof {
                    assert(names_of(vars@) =~= names_of(old(vars)@) + self@.var_occurrences());
                }
            },
        }
    }

    /// The ordered sequence of all non-leaf sub-expressions of the tree, in
    /// post-order, duplicates kept. The last entry is always the whole tree.
    pub fn get_steps(&self) -> (r: Vec<Expr>)
        ensures
            views_of(r@) == self@.steps(),
    {
        let mut steps: Vec<Expr> = Vec::new();
        proof {
            assert(views_of(steps@) =~= Seq::<ExprView>::empty());
        }
        self._get_steps_recursive(&mut steps);
        proof {
            assert(Seq::<ExprView>::empty() + self@.steps() =~= self@.steps());
        }
        steps
    }

    /// Appends every non-leaf sub-expression of the tree to `steps`, in
    /// post-order.
    fn _get_steps_recursive(&self, steps: &mut Vec<Expr>)
        ensures
            views_of(final(steps)@) == views_of(old(steps)@) + self@.steps(),
        decreases self,
    {
        match self {
            Expr::Var(_) => {
                proof {
                    assert(self@.steps() =~= Seq::<ExprView>::empty());
                    assert(views_of(steps@) =~= views_of(old(steps)@) + self@.steps());
                }
            },
            Expr::Not(a) => {
                a._get_steps_recursive(steps);
                let ghost mid = steps@;
                let pushed = Expr::Not(Box::new(clone_expr(&**a)));
                let ghost gp = pushed;
                steps.push(pushed);
                proof {
                    lemma_views_of_push(mid, gp);
                    assert(gp@ == self@);
                    assert(self@.steps() == (**a)@.steps().push(self@));
                    assert(views_of(steps@) =~= views_of(old(steps)@) + self@.steps());
                }
            },
            Expr::And(a, b) => {
                a._get_steps_recursive(steps);
                b._get_steps_recursive(steps);
                let ghost mid = steps@;
                let pushed = Expr::And(Box::new(clone_expr(&**a)), Box::new(clone_expr(&**b)));
                let ghost gp = pushed;
                steps.push(pushed);
                proof {
                    lemma_views_of_push(mid, gp);
                    assert(gp@ == self@);
                    assert(self@.steps() == (**a)@.steps() + (**b)@.steps() + seq![self@]);
                    assert(views_of(steps@) =~= views_of(old(steps)@) + self@.steps());
                }
            },
            Expr::Or(a, b) => {
                a._get_steps_recursive(steps);
                b._get_steps_recursive(steps);
                let ghost mid = steps@;
                let pushed = Expr::Or(Box::new(clone_expr(&**a)), Box::new(clone_expr(&**b)));
                let ghost gp = pushed;
                steps.push(pushed);
                proof {
                    lemma_views_of_push(mid, gp);
                    assert(gp@ == self@);
                    assert(self@.steps() == (**a)@.steps() + (**b)@.steps() + seq![self@]);
                    assert(views_of(steps@) =~= views_of(old(steps)@) + self@.steps());
                }
            },
            Expr::Implication(a, b) => {
                a._get_steps_recursive(steps);
                b._get_steps_recursive(steps);
                let ghost mid = steps@;
                let pushed = Expr::Implication(
                    Box::new(clone_expr(&**a)),
                    Box::new(clone_expr(&**b)),
                );
                let ghost gp = pushed;
                steps.push(pushed);
                proof {
                    lemma_views_of_push(mid, gp);
                    assert(gp@ == self@);
                    assert(self@.steps() == (**a)@.steps() + (**b)@.steps() + seq![self@]);
                    assert(views_of(steps@) =~= views_of(old(steps)@) + self@.steps());
                }
            },
            Expr::Biconditional(a, b) => {
                a._get_steps_recursive(steps);
                b._get_steps_recursive(steps);
                let ghost mid = steps@;
                let pushed = Expr::Biconditional(
                    Box::new(clone_expr(&**a)),
                    Box::new(clone_expr(&**b)),
                );
                let ghost gp = pushed;
                steps.push(pushed);
                proof {
                    lemma_views_of_push(mid, gp);
                    assert(gp@ == self@);
                    assert(self@.steps() == (**a)@.steps() + (**b)@.steps() + seq![self@]);
                    assert(views_of(steps@) =~= views_of(old(steps)@) + self@.steps());
                }
            },
            Expr::XOR(a, b) => {
                a._get_steps_recursive(steps);
                b._get_steps_recursive(steps);
                let ghost mid = steps@;
                let pushed = Expr::XOR(Box::new(clone_expr(&**a)), Box::new(clone_expr(&**b)));
                let ghost gp = pushed;
                steps.push(pushed);
                proof {
                    lemma_views_of_push(mid, gp);
                    assert(gp@ == self@);
                    assert(self@.steps() == (**a)@.steps() + (**b)@.steps() + seq![self@]);
                    assert(views_of(steps@) =~= views_of(old(steps)@) + self@.steps());
                }
            },
        }
    }

    /// The textual form of the tree.
    pub fn to_text(&self) -> (r: String)
        ensures
            r@ == self@.render(),
        decreases self,
    {
        match self {
            Expr::Var(name) => name.clone(),
            Expr::Not(a) => {
                proof {
                    reveal_strlit("(!");
                    reveal_strlit(")");
                }
                let mut s = String::from_str("(!");
                let sub = a.to_text();
                s.append(sub.as_str());
                s.append(")");
                proof {
                    assert(s@ =~= self@.render());
                }
                s
            },
            Expr::And(a, b) => {
                proof {
                    reveal_strlit("(");
                    reveal_strlit("&");
                    reveal_strlit(")");
                }
                let mut s = String::from_str("(");
                let sa = a.to_text();
                s.append(sa.as_str());
                s.append("&");
                let sb = b.to_text();
                s.append(sb.as_str());
                s.append(")");
                proof {
                    assert(s@ =~= self@.render());
                }
                s
            },
            Expr::Or(a, b) => {
                proof {
                    reveal_strlit("(");
                    reveal_strlit("|");
                    reveal_strlit(")");
                }
                let mut s = String::from_str("(");
                let sa = a.to_text();
                s.append(sa.as_str());
                s.append("|");
                let sb = b.to_text();
                s.append(sb.as_str());
                s.append(")");
                proof {
                    assert(s@ =~= self@.render());
                }
                s
            },
            Expr::Implication(a, b) => {
                proof {
                    reveal_strlit("(");
                    reveal_strlit("=>");
                    reveal_strlit(")");
                }
                let mut s = String::from_str("(");
                let sa = a.to_text();
                s.append(sa.as_str());
                s.append("=>");
                let sb = b.to_text();
                s.append(sb.as_str());
                s.append(")");
                proof {
                    assert(s@ =~= self@.render());
                }
                s
            },
            Expr::Biconditional(a, b) => {
                proof {
                    reveal_strlit("(");
                    reveal_strlit("<=>");
                    reveal_strlit(")");
                }
                let mut s = String::from_str("(");
                let sa = a.to_text();
                s.append(sa.as_str());
                s.append("<=>");
                let sb = b.to_text();
                s.append(sb.as_str());
                s.append(")");
                proof {
                    assert(s@ =~= self@.render());
                }
                s
            },
            Expr::XOR(a, b) => {
                proof {
                    reveal_strlit("(");
                    reveal_strlit("<!=>");
                    reveal_strlit(")");
                }
                let mut s = String::from_str("(");
                let sa = a.to_text();
                s.append(sa.as_str());
                s.append("<!=>");
                let sb = b.to_text();
                s.append(sb.as_str());
                s.append(")");
                proof {
                    assert(s@ =~= self@.render());
                }
                s
            },
        }
    }

    /// The truth value of the tree under the assignment `vars`, or `None`
    /// if some variable of the tree is not bound there. Both operands of a
    /// binary connective are always evaluated; evaluation is never
    /// short-circuited.
    pub fn evaluate(&self, vars: &indexmap::IndexMap<String, bool>) -> (r: Option<bool>)
        ensures
            r == if self@.all_vars_bound(imap_map(*vars)) {
                Some(self@.eval(imap_map(*vars)))
            } else {
                None::<bool>
            },
        decreases self,
    {
        match self {
            Expr::Var(a) => imap_get(vars, a),
            Expr::Not(a) => match a.evaluate(vars) {
                Some(v) => Some(!v),
                None => None,
            },
            Expr::And(a, b) => {
                let va = a.evaluate(vars);
                let vb = b.evaluate(vars);
                match (va, vb) {
                    (Some(x), Some(y)) => Some(x && y),
                    _ => None,
                }
            },
            Expr::Or(a, b) => {
                let va = a.evaluate(vars);
                let vb = b.evaluate(vars);
                match (va, vb) {
                    (Some(x), Some(y)) => Some(x || y),
                    _ => None,
                }
            },
            Expr::Implication(a, b) => {
                let va = a.evaluate(vars);
                let vb = b.evaluate(vars);
                match (va, vb) {
                    (Some(x), Some(y)) => Some(!x || y),
                    _ => None,
                }
            },
            Expr::Biconditional(a, b) => {
                let va = a.evaluate(vars);
                let vb = b.evaluate(vars);
                match (va, vb) {
                    (Some(x), Some(y)) => Some(x == y),
                    _ => None,
                }
            },
            Expr::XOR(a, b) => {
                let va = a.evaluate(vars);
                let vb = b.evaluate(vars);
                match (va, vb) {
                    (Some(x), Some(y)) => Some(x != y),
                    _ => None,
                }
            },
        }
    }

    /// The full truth table of the tree: one row per assignment of its free
    /// variables, in binary-counting order. Row `i` binds the variables, in
    /// discovery order, to the binary digits of `i`, and pairs that
    /// assignment with the tree's value under it. A tree without variables
    /// yields no row at all.
    #[verifier::loop_isolation(false)]
    pub fn evaluate_all(&self) -> (r: Option<
        Vec<(indexmap::IndexMap<String, bool>, bool)>,
    >)
        requires
            self@.table_vars().len() <= 31,
        ensures
            match r {
                Some(rows) => {
                    &&& rows@.len() == (if self@.table_vars().len() == 0 {
                        0int
                    } else {
                        pow2(self@.table_vars().len()) as int
                    })
                    &&& forall|i: int|
                        0 <= i < rows@.len() ==> imap_keys(#[trigger] rows@[i].0)
                            == self@.table_vars()
                    &&& forall|i: int|
                        0 <= i < rows@.len() ==> imap_map(#[trigger] rows@[i].0) == row_map(
                            self@.table_vars(),
                            bits_of(i as nat, self@.table_vars().len()),
                        )
                    &&& forall|i: int|
                        0 <= i < rows@.len() ==> (#[trigger] rows@[i].1) == self@.eval(
                            imap_map(rows@[i].0),
                        )
                },
                None => false,
            },
    {
        let vars = self.get_vars();
        let ghost varsn = names_of(vars@);
        let ghost nv = varsn.len();
        proof {
            lemma_dedup_first_distinct(self@.var_occurrences());
        }

        let vars_len: u32 = vars.len() as u32;
        let mut iter = BitCartesianN::new(vars_len);
        let mut result: Vec<(indexmap::IndexMap<String, bool>, bool)> = Vec::new();

        let mut more: bool = true;
        while more
            invariant
                iter.wf(),
                iter.width() == nv,
                result@.len() == iter.position(),
                nv == 0 ==> iter.position() == 0,
                !more ==> (nv == 0 || iter.position() >= pow2(nv)),
                forall|i: int|
                    0 <= i < result@.len() ==> imap_keys(#[trigger] result@[i].0) == varsn,
                forall|i: int|
                    0 <= i < result@.len() ==> imap_map(#[trigger] result@[i].0) == row_map(
                        varsn,
                        bits_of(i as nat, nv),
                    ),
                forall|i: int|
                    0 <= i < result@.len() ==> (#[trigger] result@[i].1) == self@.eval(
                        imap_map(result@[i].0),
                    ),
            decreases pow2(nv) - iter.position() + (if more {
                1int
            } else {
                0int
            }),
        {
            let ghost row_index = iter.position();
            match iter.next() {
                None => {
                    more = false;
                },
                Some(combi) => {
                    proof {
                        lemma_bits_of_len(row_index, nv);
                    }

                    let mut var_map = imap_new();
                    let mut j: usize = 0;
                    while j < vars.len()
                        invariant
                            j <= vars@.len(),
                            imap_keys(var_map) == varsn.take(j as int),
                            imap_map(var_map) == row_map(
                                varsn.take(j as int),
                                combi@.take(j as int),
                            ),
                        decreases vars@.len() - j,
                    {
                        proof {
                            lemma_row_map_dom(
                                varsn.take(j as int),
                                combi@.take(j as int),
                                varsn[j as int],
                            );
                            if varsn.take(j as int).contains(varsn[j as int]) {
                                let i = choose|i: int|
                                    0 <= i < j && varsn.take(j as int)[i] == varsn[j as int];
                                assert(varsn[i] == varsn[j as int]);
                            }
                        }
                        let key = vars[j].clone();
                        let bit = combi[j];
                        imap_insert(&mut var_map, key, bit);
                        proof {
                            assert(varsn.take(j + 1).drop_last() =~= varsn.take(j as int));
                            assert(combi@.take(j + 1).drop_last() =~= combi@.take(j as int));
                            assert(imap_keys(var_map) =~= varsn.take(j + 1));
                        }
                        j += 1;
                    }
                    proof {
                        assert(varsn.take(vars@.len() as int) =~= varsn);
                        assert(combi@.take(vars@.len() as int) =~= combi@);
                        lemma_all_vars_bound_iff(self@, imap_map(var_map));
                        assert forall|v: Seq<char>|
                            self@.var_occurrences().contains(v) implies imap_map(
                            var_map,
                        ).dom().contains(v) by {
                            lemma_dedup_first_contains(self@.var_occurrences(), v);
                            lemma_row_map_dom(varsn, combi@, v);
                        }
                    }
                    let eval = self.evaluate(&var_map).unwrap();
                    result.push((var_map, eval));
                },
            }
        }
        proof {
            if nv > 0 {
                assert(iter.position() == pow2(nv));
            }
        }
        Some(result)
    }
}

} // verus!
