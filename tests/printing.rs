use mathsteps::expression::{Constant, Expression, Negation, Product, Sum};
use mathsteps::printer::PrintTarget;
use mathsteps::step::{AnnotatedExpression, Annotation};

fn c(name: &str) -> Expression {
    Constant::new(name).unwrap().expr()
}

fn sum(terms: Vec<Expression>) -> Expression {
    Sum::new(terms).expr()
}

fn prod(terms: Vec<Expression>) -> Expression {
    Product::new(terms).expr()
}

fn neg(inner: Expression) -> Expression {
    Negation::new(inner).expr()
}

#[test]
fn printing() {
    let x = c("x");
    let y = c("y");
    let pi = c(r"\pi");

    let exp = prod(vec![x.clone(), y.clone(), pi.clone()]);
    assert_eq!(exp.to_plain_text(), "x * y * π");
    assert_eq!(exp.latex(), r"x y \pi");

    let exp = prod(vec![x.clone(), prod(vec![y.clone(), pi.clone()])]);
    assert_eq!(exp.to_plain_text(), "x * (y * π)");
    assert_eq!(exp.latex(), r"x \left(y \pi\right)");

    let exp = sum(vec![x.clone(), y.clone(), pi.clone()]);
    assert_eq!(exp.to_plain_text(), "x + y + π");
    assert_eq!(exp.latex(), r"x+y+\pi");

    let exp = sum(vec![x.clone(), y.clone(), neg(pi.clone())]);
    assert_eq!(exp.to_plain_text(), "x + y - π");
    assert_eq!(exp.latex(), r"x+y-\pi");

    let exp = sum(vec![neg(sum(vec![x.clone(), y.clone()])), pi.clone()]);
    assert_eq!(exp.to_plain_text(), "-(x + y) + π");
    assert_eq!(exp.latex(), r"-\left(x+y\right)+\pi");

    let exp = sum(vec![
        prod(vec![x.clone(), y.clone(), sum(vec![y.clone(), neg(pi.clone())])]),
        neg(sum(vec![x.clone(), neg(pi.clone())])),
    ]);
    assert_eq!(exp.to_plain_text(), "x * y * (y - π) - (x - π)");
    assert_eq!(exp.latex(), r"x y \left(y-\pi\right)-\left(x-\pi\right)");

    let exp = sum(vec![
        prod(vec![neg(pi.clone()), x.clone()]),
        prod(vec![y.clone(), neg(y.clone()), y.clone()]),
        neg(prod(vec![x.clone(), sum(vec![pi.clone(), neg(x.clone())])])),
    ]);
    assert_eq!(exp.to_plain_text(), "(-π) * x + y * (-y) * y - x * (π - x)");
    assert_eq!(exp.latex(), r"\left(-\pi\right) x+y \left(-y\right) y-x \left(\pi-x\right)");

    let exp = neg(prod(vec![pi.clone(), x.clone(), y.clone()]));
    assert_eq!(exp.to_plain_text(), "-π * x * y");
    assert_eq!(exp.latex(), r"-\pi x y");
}

#[test]
fn test_printing_annotated_expressions() {
    let x = c("x");
    let y = c("y");
    let inner = sum(vec![x.clone(), y.clone()]);
    let annotation = Annotation::new(&inner);
    let exp = sum(vec![prod(vec![inner, x.clone()]), sum(vec![x.clone(), y.clone()])]);
    assert_eq!(exp.to_plain_text(), "(x + y) * x + (x + y)");
    let annotated_exp = AnnotatedExpression { expression: exp, annotations: vec![annotation] };
    // Identity is content-addressed: both occurrences of `x + y` are the same sub-expression.
    assert_eq!(annotated_exp.to_plain_text(), "(x + y) * x + (x + y)\n ^^^^^         ^^^^^");
}

#[test]
fn simplify_parens_and_negatives() {
    let x = c("x");
    let y = c("y");
    let z = c("z");
    let exp = prod(vec![neg(x), neg(y), neg(z)]);
    assert_eq!(exp.to_plain_text(), "(-x) * (-y) * (-z)");
}

#[test]
fn scenario_product_of_three() {
    let exp = prod(vec![c("x"), c("y"), c(r"\pi")]);
    assert_eq!(exp.to_plain_text(), "x * y * π");
}

#[test]
fn scenario_sum_with_negation() {
    let exp = sum(vec![c("x"), c("y"), neg(c(r"\pi"))]);
    assert_eq!(exp.to_plain_text(), "x + y - π");
}

#[test]
fn scenario_negated_sum_plus_pi() {
    let exp = sum(vec![neg(sum(vec![c("x"), c("y")])), c(r"\pi")]);
    assert_eq!(exp.to_plain_text(), "-(x + y) + π");
}

#[test]
fn unicode_symbol_is_stored_as_latex() {
    let pi = Constant::new("π").unwrap();
    assert_eq!(pi.name(), r"\pi");
    let rho = Constant::new(r"\rho").unwrap();
    assert_eq!(rho.expr().to_plain_text(), "ρ");
    assert_eq!(rho.expr().latex(), r"\rho");
}

#[test]
fn unknown_latex_symbol_is_rejected() {
    match Constant::new(r"\foo") {
        Ok(_) => panic!("an unknown LaTeX name was accepted"),
        Err(err) => assert_eq!(err.name, r"\foo"),
    }
    assert!(Constant::new("foo").is_ok());
}

#[test]
fn empty_sum_and_product_print_nothing() {
    assert_eq!(sum(vec![]).to_plain_text(), "");
    assert_eq!(prod(vec![]).to_plain_text(), "");
}

#[test]
fn negation_of_negation_is_parenthesised() {
    let exp = neg(neg(c("x")));
    assert_eq!(exp.to_plain_text(), "-(-x)");
    assert_eq!(exp.latex(), r"-\left(-x\right)");
}

#[test]
fn leading_negation_in_sum() {
    let exp = sum(vec![neg(c("x")), c("y")]);
    assert_eq!(exp.to_plain_text(), "-x + y");
    assert_eq!(exp.latex(), "-x+y");
}

#[test]
fn nested_annotations_mark_whole_outer_span() {
    let x = c("x");
    let y = c("y");
    let inner = prod(vec![x.clone(), y.clone()]);
    let outer = sum(vec![inner.clone(), c("z")]);
    let exp = prod(vec![outer.clone(), c("w")]);
    let annotated = AnnotatedExpression {
        expression: exp,
        annotations: vec![Annotation::new(&outer), Annotation::new(&inner)],
    };
    assert_eq!(annotated.to_plain_text(), "(x * y + z) * w\n ^^^^^^^^^");
}

#[test]
fn markup_wraps_annotated_span() {
    let x = c("x");
    let y = c("y");
    let inner = sum(vec![x.clone(), y.clone()]);
    let exp = prod(vec![inner.clone(), x.clone()]);
    let latex = exp.latex_with_annotations(&[Annotation::new(&inner)]);
    assert_eq!(latex, r"\left(\htmlClass{hl}{x+y}\right) x");
    let plain = exp.print(PrintTarget::PlainMath, &[]).to_plain_text();
    assert_eq!(plain, "(x + y) * x");
}

#[test]
fn identical_trees_have_equal_ids() {
    let a = sum(vec![prod(vec![c("x"), c("y")]), neg(c(r"\pi"))]);
    let b = sum(vec![prod(vec![c("x"), c("y")]), neg(c("π"))]);
    assert_eq!(a.id(), b.id());
}

#[test]
fn changing_a_leaf_changes_the_id() {
    let a = sum(vec![prod(vec![c("x"), c("y")]), neg(c("z"))]);
    let b = sum(vec![prod(vec![c("x"), c("y")]), neg(c("w"))]);
    assert_ne!(a.id(), b.id());
    let p = prod(vec![c("x"), c("y")]);
    let s = sum(vec![c("x"), c("y")]);
    assert_ne!(p.id(), s.id());
    let xy = prod(vec![c("x"), c("y")]);
    let yx = prod(vec![c("y"), c("x")]);
    assert_ne!(xy.id(), yx.id());
}

#[test]
fn debug_text_describes_the_node() {
    let exp = prod(vec![c("x"), sum(vec![c("y"), c(r"\pi")])]);
    assert_eq!(exp.debug_text(), "Expression::Product {\n  x,\n  y + π\n}");
    assert_eq!(c("x").debug_text(), "Expression::Constant(x)");
    assert_eq!(neg(c("x")).debug_text(), "Expression::Negation {\n  x\n}");
}
