use mathsteps::expression::{Constant, Expression, Negation, Product, Sum};
use mathsteps::simplify::{simplify_excess_parens, simplify_unused_parens};
use mathsteps::step::{AnnotatedExpression, Annotation, Step};

fn c(name: &str) -> Expression {
    Constant::new(name).unwrap().expr()
}

fn sum(terms: Vec<Expression>) -> Expression {
    Sum::new(terms).expr()
}

fn prod(terms: Vec<Expression>) -> Expression {
    Product::new(terms).expr()
}

fn neg(inner: Expression) -> Expression {
    Negation::new(inner).expr()
}

fn label(string: &str) -> Option<String> {
    Some(string.to_string())
}

#[test]
fn test_simplify_excess_parens() {
    let x = c("x");
    let y = c("y");
    let z = c("z");

    let exp = prod(vec![prod(vec![x.clone(), y.clone()]), z.clone()]);
    assert_eq!(exp.to_plain_text(), "(x * y) * z");
    assert_eq!(
        simplify_excess_parens(&exp).math_print(),
        "Simplify excess parentheses\n  Remove excess parentheses around product\n    (x * y) * z\n     ^^^^^\n    x * y * z\n  x * y * z"
    );

    let exp = prod(vec![x.clone(), prod(vec![y.clone(), z.clone()])]);
    assert_eq!(exp.to_plain_text(), "x * (y * z)");
    assert_eq!(
        simplify_excess_parens(&exp).math_print(),
        "Simplify excess parentheses\n  Remove excess parentheses around product\n    x * (y * z)\n         ^^^^^\n    x * y * z\n  x * y * z"
    );

    let exp = prod(vec![
        prod(vec![prod(vec![x.clone(), y.clone()]), prod(vec![x.clone(), y.clone()])]),
        prod(vec![z.clone(), prod(vec![z.clone(), x.clone(), x.clone()])]),
    ]);
    assert_eq!(exp.to_plain_text(), "((x * y) * (x * y)) * (z * (z * x * x))");
    assert_eq!(
        simplify_excess_parens(&exp).math_print(),
        "Simplify excess parentheses\n  Remove excess parentheses around product\n    ((x * y) * (x * y)) * (z * (z * x * x))\n      ^^^^^     ^^^^^\n    (x * y * x * y) * (z * (z * x * x))\n  Remove excess parentheses around product\n    (x * y * x * y) * (z * (z * x * x))\n                            ^^^^^^^^^\n    (x * y * x * y) * (z * z * x * x)\n  Remove excess parentheses around product\n    (x * y * x * y) * (z * z * x * x)\n     ^^^^^^^^^^^^^     ^^^^^^^^^^^^^\n    x * y * x * y * z * z * x * x\n  x * y * x * y * z * z * x * x"
    );

    let exp = prod(vec![
        sum(vec![sum(vec![x.clone(), y.clone()]), y.clone()]),
        prod(vec![x.clone(), y.clone()]),
        sum(vec![prod(vec![z.clone(), x.clone()]), y.clone()]),
    ]);
    assert_eq!(exp.to_plain_text(), "((x + y) + y) * (x * y) * (z * x + y)");
    assert_eq!(
        simplify_excess_parens(&exp).math_print(),
        "Simplify excess parentheses\n  Remove excess parentheses around sum\n    ((x + y) + y) * (x * y) * (z * x + y)\n      ^^^^^\n    (x + y + y) * (x * y) * (z * x + y)\n  Remove excess parentheses around product\n    (x + y + y) * (x * y) * (z * x + y)\n                   ^^^^^\n    (x + y + y) * x * y * (z * x + y)\n  (x + y + y) * x * y * (z * x + y)"
    );
}

#[test]
fn test_simplify_unused_parens() {
    let x = c("x");
    let y = c("y");
    let z = c("z");

    let exp = prod(vec![prod(vec![x.clone(), y.clone()]), z.clone()]);
    assert_eq!(exp.to_plain_text(), "(x * y) * z");
    assert_eq!(simplify_unused_parens(&exp).to_plain_text(), "x * y * z");

    let exp = prod(vec![x.clone(), prod(vec![y.clone(), z.clone()])]);
    assert_eq!(exp.to_plain_text(), "x * (y * z)");
    assert_eq!(simplify_unused_parens(&exp).to_plain_text(), "x * y * z");

    let exp = prod(vec![
        prod(vec![prod(vec![x.clone(), y.clone()]), prod(vec![x.clone(), y.clone()])]),
        prod(vec![z.clone(), prod(vec![z.clone(), x.clone(), x.clone()])]),
    ]);
    assert_eq!(exp.to_plain_text(), "((x * y) * (x * y)) * (z * (z * x * x))");
    assert_eq!(simplify_unused_parens(&exp).to_plain_text(), "x * y * x * y * z * z * x * x");

    let exp = prod(vec![
        sum(vec![sum(vec![x.clone(), y.clone()]), y.clone()]),
        prod(vec![x.clone(), y.clone()]),
        sum(vec![prod(vec![z.clone(), x.clone()]), y.clone()]),
    ]);
    assert_eq!(exp.to_plain_text(), "((x + y) + y) * (x * y) * (z * x + y)");
    assert_eq!(simplify_unused_parens(&exp).to_plain_text(), "(x + y + y) * x * y * (z * x + y)");
}

#[test]
fn test_printing_steps() {
    let x = c("x");
    let y = c("y");
    let a = c("a");
    let b = c("b");

    let inner_1 = sum(vec![x.clone(), y.clone()]);
    let inner_2 = sum(vec![a.clone(), b.clone()]);
    let inner_1_id = inner_1.id();
    let inner_2_id = inner_2.id();
    let input_exp = sum(vec![inner_1.clone(), neg(inner_2)]);
    let final_exp = sum(vec![x.clone(), y.clone(), neg(a.clone()), neg(b.clone())]);

    let steps = Step {
        label: label("Simplify parentheses and negative signs:"),
        annotated_expression: None,
        substeps: vec![
            Step {
                label: label("Distribute negative signs into parentheses"),
                annotated_expression: Some(AnnotatedExpression {
                    expression: input_exp.clone(),
                    annotations: vec![Annotation { target_id: inner_2_id }],
                }),
                substeps: vec![],
                result: sum(vec![inner_1, neg(a.clone()), neg(b.clone())]),
            },
            Step {
                label: label("Remove unneeded parentheses"),
                annotated_expression: Some(AnnotatedExpression {
                    expression: input_exp,
                    annotations: vec![Annotation { target_id: inner_1_id }],
                }),
                substeps: vec![],
                result: final_exp.clone(),
            },
        ],
        result: final_exp,
    };
    assert_eq!(
        steps.math_print(),
        "Simplify parentheses and negative signs:\n  Distribute negative signs into parentheses\n    (x + y) - (a + b)\n               ^^^^^\n    (x + y) - a - b\n  Remove unneeded parentheses\n    (x + y) - (a + b)\n     ^^^^^\n    x + y - a - b\n  x + y - a - b"
    );
}

#[test]
fn scenario_single_nested_product_flattens() {
    let inner = prod(vec![c("x"), c("y")]);
    let exp = prod(vec![inner.clone(), c("z")]);
    let step = simplify_excess_parens(&exp);
    assert_eq!(step.result.to_plain_text(), "x * y * z");
    assert_eq!(step.substeps.len(), 1);
    let before = step.substeps[0].annotated_expression.as_ref().unwrap();
    assert_eq!(before.annotations.len(), 1);
    assert_eq!(before.annotations[0].target_id, inner.id());
}

#[test]
fn scenario_two_inner_products_in_one_step() {
    let exp = prod(vec![prod(vec![c("x"), c("y")]), prod(vec![c("x"), c("y")])]);
    let step = simplify_excess_parens(&exp);
    assert_eq!(step.substeps.len(), 1);
    assert_eq!(step.substeps[0].annotated_expression.as_ref().unwrap().annotations.len(), 2);
    assert_eq!(step.result.to_plain_text(), "x * y * x * y");
}

#[test]
fn flat_tree_is_returned_unchanged_with_no_substeps() {
    let exp = sum(vec![prod(vec![c("x"), sum(vec![c("y"), c("z")])]), neg(prod(vec![c("a"), c("b")]))]);
    let step = simplify_excess_parens(&exp);
    assert_eq!(step.substeps.len(), 0);
    assert_eq!(step.result.id(), exp.id());
    assert_eq!(step.result.to_plain_text(), exp.to_plain_text());
    assert_eq!(step.math_print(), "Simplify excess parentheses\n  x * (y + z) - a * b");
}

#[test]
fn flattening_twice_equals_flattening_once() {
    let exp = sum(vec![
        sum(vec![c("x"), sum(vec![c("y"), neg(sum(vec![c("a"), sum(vec![c("b"), c("c")])]))])]),
        prod(vec![prod(vec![c("p"), c("q")]), c("r")]),
    ]);
    let once = simplify_unused_parens(&exp);
    let twice = simplify_unused_parens(&once);
    assert_eq!(once.to_plain_text(), "x + y - (a + b + c) + p * q * r");
    assert_eq!(twice.to_plain_text(), once.to_plain_text());
    assert_eq!(twice.id(), once.id());
}

#[test]
fn deep_nesting_collapses_in_one_traversal() {
    let mut exp = c("x0");
    for i in 1..50 {
        exp = prod(vec![exp, c(&format!("x{}", i))]);
    }
    let step = simplify_excess_parens(&exp);
    assert_eq!(step.substeps.len(), 48);
    let text = step.result.to_plain_text();
    assert!(!text.contains('('));
    assert_eq!(text.matches(" * ").count(), 49);
}

#[test]
fn negation_is_not_flattened() {
    let exp = neg(neg(c("x")));
    let step = simplify_excess_parens(&exp);
    assert_eq!(step.substeps.len(), 0);
    assert_eq!(step.result.to_plain_text(), "-(-x)");
}

#[test]
fn unlabelled_step_renders_its_block_without_indentation() {
    let x = c("x");
    let step = Step { label: None, annotated_expression: None, substeps: vec![], result: x };
    assert_eq!(step.math_print(), "x");
}

#[test]
fn html_print_renders_through_katex() {
    let exp = prod(vec![prod(vec![c("x"), c("y")]), c("z")]);
    let step = simplify_excess_parens(&exp);
    let html = match step.html_print() {
        Ok(html) => html,
        Err(e) => panic!("katex failed on {}", e.latex),
    };
    assert!(html.starts_with("<details>\n<summary>\nSimplify excess parentheses\n</summary>"));
    assert!(html.contains("katex"));
    assert!(html.contains("enclosing hl"));
}

#[test]
fn html_print_reports_latex_that_katex_rejects() {
    let step = Step { label: label("Broken"), annotated_expression: None, substeps: vec![], result: c("{") };
    match step.html_print() {
        Ok(html) => panic!("expected a rendering error, got {}", html),
        Err(e) => assert_eq!(e.latex, "{"),
    }
}
