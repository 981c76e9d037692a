use indexmap::IndexMap;

use truthtable::ast::Expr;

fn var(name: &str) -> Expr {
    Expr::Var(name.to_string())
}

fn assignment(pairs: &[(&str, bool)]) -> IndexMap<String, bool> {
    let mut m = IndexMap::new();
    for (name, value) in pairs {
        m.insert(name.to_string(), *value);
    }
    m
}

#[test]
fn test_ast_get_vars() {
    let expr = Expr::And(
        Box::new(Expr::Var("A".to_string())),
        Box::new(Expr::Or(
            Box::new(Expr::Var("B".to_string())),
            Box::new(Expr::Var("C".to_string())),
        )),
    );

    assert_eq!(
        expr.get_vars(),
        vec!["A".to_string(), "B".to_string(), "C".to_string()]
    );
}

#[test]
fn test_ast_evaluate_all() {
    let expr = Expr::And(
        Box::new(Expr::Var("A".to_string())),
        Box::new(Expr::Or(
            Box::new(Expr::Var("B".to_string())),
            Box::new(Expr::Not(Box::new(Expr::Var("C".to_string())))),
        )),
    );
    let result = expr.evaluate_all().unwrap();
    for test_r in result {
        let correct_r = expr.evaluate(&test_r.0).unwrap();
        assert_eq!(correct_r, test_r.1);
    }
}

#[test]
fn test_ast_get_steps() {
    let expr = Expr::And(
        Box::new(Expr::Var("A".to_string())),
        Box::new(Expr::Or(
            Box::new(Expr::Var("B".to_string())),
            Box::new(Expr::Not(Box::new(Expr::Var("C".to_string())))),
        )),
    );
    let result: Vec<_> = expr.get_steps().iter().map(|s| s.to_text()).collect();

    assert_eq!(
        result,
        vec![
            "(!C)".to_string(),
            "(B|(!C))".to_string(),
            "(A&(B|(!C)))".to_string(),
        ]
    )
}

#[test]
fn test_get_vars_deduplicates_first_occurrence() {
    // B appears twice; only its first occurrence counts for the order.
    let expr = Expr::And(
        Box::new(Expr::Or(Box::new(var("B")), Box::new(var("A")))),
        Box::new(Expr::And(Box::new(var("B")), Box::new(var("C")))),
    );
    assert_eq!(
        expr.get_vars(),
        vec!["B".to_string(), "A".to_string(), "C".to_string()]
    );
}

#[test]
fn test_evaluate_connective_laws() {
    // Every connective against its boolean law, over all four combinations.
    for a in [false, true] {
        for b in [false, true] {
            let m = assignment(&[("a", a), ("b", b)]);
            let and = Expr::And(Box::new(var("a")), Box::new(var("b")));
            let or = Expr::Or(Box::new(var("a")), Box::new(var("b")));
            let imp = Expr::Implication(Box::new(var("a")), Box::new(var("b")));
            let bic = Expr::Biconditional(Box::new(var("a")), Box::new(var("b")));
            let xor = Expr::XOR(Box::new(var("a")), Box::new(var("b")));
            let not = Expr::Not(Box::new(var("a")));
            assert_eq!(and.evaluate(&m), Some(a && b));
            assert_eq!(or.evaluate(&m), Some(a || b));
            assert_eq!(imp.evaluate(&m), Some(!a || b));
            assert_eq!(bic.evaluate(&m), Some(a == b));
            assert_eq!(xor.evaluate(&m), Some(a != b));
            assert_eq!(not.evaluate(&m), Some(!a));
        }
    }
}

#[test]
fn test_evaluate_unbound_variable() {
    let m = assignment(&[("a", true)]);
    assert_eq!(var("missing").evaluate(&m), None);
    let half_bound = Expr::And(Box::new(var("a")), Box::new(var("missing")));
    assert_eq!(half_bound.evaluate(&m), None);
    let bic = Expr::Biconditional(Box::new(var("missing")), Box::new(var("missing")));
    assert_eq!(bic.evaluate(&m), None);
}

#[test]
fn test_evaluate_all_truth_table() {
    // The full table of a&b: rows in binary-counting order, a first.
    let expr = Expr::And(Box::new(var("a")), Box::new(var("b")));
    let rows = expr.evaluate_all().unwrap();
    assert_eq!(rows.len(), 4);
    let expected = [
        (false, false, false),
        (false, true, false),
        (true, false, false),
        (true, true, true),
    ];
    for (row, (a, b, out)) in rows.iter().zip(expected.iter()) {
        let keys: Vec<_> = row.0.keys().cloned().collect();
        assert_eq!(keys, vec!["a".to_string(), "b".to_string()]);
        assert_eq!(row.0.get("a"), Some(a));
        assert_eq!(row.0.get("b"), Some(b));
        assert_eq!(row.1, *out);
    }
}

#[test]
fn test_to_text_forms() {
    assert_eq!(var("abc").to_text(), "abc");
    assert_eq!(
        Expr::Implication(Box::new(var("a")), Box::new(var("b"))).to_text(),
        "(a=>b)"
    );
    assert_eq!(
        Expr::Biconditional(Box::new(var("a")), Box::new(var("b"))).to_text(),
        "(a<=>b)"
    );
    assert_eq!(
        Expr::XOR(Box::new(var("a")), Box::new(var("b"))).to_text(),
        "(a<!=>b)"
    );
    assert_eq!(Expr::Not(Box::new(var("a"))).to_text(), "(!a)");
}

#[test]
fn test_get_steps_keeps_duplicates() {
    // The same shape at two positions produces two step entries.
    let expr = Expr::And(
        Box::new(Expr::Not(Box::new(var("a")))),
        Box::new(Expr::Not(Box::new(var("a")))),
    );
    let result: Vec<_> = expr.get_steps().iter().map(|s| s.to_text()).collect();
    assert_eq!(
        result,
        vec![
            "(!a)".to_string(),
            "(!a)".to_string(),
            "((!a)&(!a))".to_string(),
        ]
    );
}

#[test]
fn test_clone_equals_original() {
    let expr = Expr::And(
        Box::new(var("A")),
        Box::new(Expr::Not(Box::new(var("B")))),
    );
    assert_eq!(expr.clone(), expr);
}
