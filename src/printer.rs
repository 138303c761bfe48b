//! The precedence-aware printer, for plain text and for LaTeX.
use vstd::prelude::*;
use vstd::string::*;

use crate::expression::{
    lemma_view_node, views, Expr, Expression, PRECEDENCE_NEGATION, PRECEDENCE_PRODUCT,
    PRECEDENCE_SUM,
};
use crate::step::{target_ids, AnnotatedExpression, Annotation};
use crate::symbols::{display_name, latex_to_unicode};
use crate::token_stream::{markup, plain_with_carets, toks, Tok, Token, TokenStream};

verus! {

broadcast use lemma_view_node;

/// The two output forms: plain text with Unicode symbols, or LaTeX.
#[derive(Clone, Copy)]
pub enum PrintTarget {
    PlainMath,
    LaTeX,
}

/// How a constant's stored name is shown.
pub open spec fn display(name: Seq<char>, t: PrintTarget) -> Seq<char> {
    match t {
        PrintTarget::LaTeX => name,
        PrintTarget::PlainMath => display_name(name),
    }
}

pub open spec fn parens(ts: Seq<Tok>, t: PrintTarget) -> Seq<Tok> {
    match t {
        PrintTarget::PlainMath => seq![Tok::Text("("@)] + ts + seq![Tok::Text(")"@)],
        PrintTarget::LaTeX => seq![Tok::Text("\\left("@)] + ts + seq![Tok::Text("\\right)"@)],
    }
}

pub open spec fn parens_if(b: bool, ts: Seq<Tok>, t: PrintTarget) -> Seq<Tok> {
    if b {
        parens(ts, t)
    } else {
        ts
    }
}

pub open spec fn product_join(t: PrintTarget) -> Seq<char> {
    match t {
        PrintTarget::PlainMath => " * "@,
        PrintTarget::LaTeX => " "@,
    }
}

pub open spec fn minus_join(first: bool, t: PrintTarget) -> Seq<char> {
    if first || t is LaTeX {
        "-"@
    } else {
        " - "@
    }
}

pub open spec fn plus_join(t: PrintTarget) -> Seq<char> {
    match t {
        PrintTarget::PlainMath => " + "@,
        PrintTarget::LaTeX => "+"@,
    }
}

/// The tokens of `e`: each child whose precedence is at most its parent's threshold is
/// parenthesised, and every node whose identity is in `anns` is wrapped in annotation
/// marks.
pub open spec fn print_spec(e: Expr, t: PrintTarget, anns: Seq<u64>) -> Seq<Tok>
    decreases e, 0nat,
{
    let inner = match e {
        Expr::Constant(name) => seq![Tok::Text(display(name, t))],
        Expr::Product(ts) => product_spec(ts, t, anns),
        Expr::Sum(ts) => sum_spec(ts, t, anns),
        Expr::Negation(x) => seq![Tok::Text("-"@)] + parens_if(
            x.precedence() <= PRECEDENCE_NEGATION,
            print_spec(*x, t, anns),
            t,
        ),
    };
    if anns.contains(e.id()) {
        seq![Tok::Start] + inner + seq![Tok::End]
    } else {
        inner
    }
}

/// The terms of a product, joined, each parenthesised when it binds no tighter than a
/// product.
pub open spec fn product_spec(ts: Seq<Expr>, t: PrintTarget, anns: Seq<u64>) -> Seq<Tok>
    decreases ts, 0nat,
{
    if ts.len() == 0 {
        Seq::empty()
    } else {
        let x = ts.last();
        product_spec(ts.drop_last(), t, anns) + (if ts.len() > 1 {
            seq![Tok::Text(product_join(t))]
        } else {
            Seq::empty()
        }) + parens_if(x.precedence() <= PRECEDENCE_PRODUCT, print_spec(x, t, anns), t)
    }
}

/// The terms of a sum: a negated term is shown as a subtraction of its inner
/// expression.
pub open spec fn sum_spec(ts: Seq<Expr>, t: PrintTarget, anns: Seq<u64>) -> Seq<Tok>
    decreases ts, 1nat,
{
    if ts.len() == 0 {
        Seq::empty()
    } else {
        sum_spec(ts.drop_last(), t, anns) + sum_term_spec(ts.last(), ts.len() == 1, t, anns)
    }
}

pub open spec fn sum_term_spec(x: Expr, first: bool, t: PrintTarget, anns: Seq<u64>) -> Seq<Tok>
    decreases x, 1nat,
{
    match x {
        Expr::Negation(inner) => seq![Tok::Text(minus_join(first, t))] + parens_if(
            inner.precedence() <= PRECEDENCE_SUM,
            print_spec(*inner, t, anns),
            t,
        ),
        _ => (if first {
            Seq::empty()
        } else {
            seq![Tok::Text(plus_join(t))]
        }) + parens_if(x.precedence() <= PRECEDENCE_SUM, print_spec(x, t, anns), t),
    }
}

fn text(s: &str) -> (r: Token)
    ensures
        r@ == Tok::Text(s@),
{
    Token::Text(s.to_owned())
}

fn is_annotated(id: u64, anns: &[Annotation]) -> (r: bool)
    ensures
        r == target_ids(anns@).contains(id),
{
    let mut i: usize = 0;
    while i < anns.len()
        invariant
            i <= anns@.len(),
            forall|j: int| 0 <= j < i ==> (#[trigger] target_ids(anns@)[j]) != id,
        decreases anns@.len() - i,
    {
        if anns[i].target_id == id {
            assert(target_ids(anns@)[i as int] == id);
            return true;
        }
        i = i + 1;
    }
    false
}

fn wrap_parens(inner: Vec<Token>, t: PrintTarget, wrap: bool) -> (r: Vec<Token>)
    ensures
        toks(r@) == parens_if(wrap, toks(inner@), t),
{
    if !wrap {
        return inner;
    }
    let mut inner = inner;
    let ghost body = toks(inner@);
    let mut r: Vec<Token> = Vec::new();
    match t {
        PrintTarget::PlainMath => {
            r.push(text("("));
            r.append(&mut inner);
            r.push(text(")"));
        },
        PrintTarget::LaTeX => {
            r.push(text("\\left("));
            r.append(&mut inner);
            r.push(text("\\right)"));
        },
    }
    assert(toks(r@) =~= parens(body, t));
    r
}

fn append_tokens(out: &mut Vec<Token>, more: Vec<Token>)
    ensures
        toks(final(out)@) == toks(old(out)@) + toks(more@),
{
    let mut more = more;
    let ghost m = toks(more@);
    out.append(&mut more);
    assert(toks(out@) =~= toks(old(out)@) + m);
}

/// The tokens of `e` for the given target; nodes whose identity is targeted by an
/// annotation are wrapped in annotation marks.
pub fn print_tokens(e: &Expression, t: PrintTarget, anns: &[Annotation]) -> (r: Vec<Token>)
    ensures
        toks(r@) == print_spec(e@, t, target_ids(anns@)),
    decreases e@,
{
    let ghost a = target_ids(anns@);
    let mut inner: Vec<Token> = Vec::new();
    match e {
        Expression::Constant(c) => {
            let name = c.name();
            let shown = match t {
                PrintTarget::LaTeX => name.to_owned(),
                PrintTarget::PlainMath => match latex_to_unicode(name) {
                    Some(u) => u.to_owned(),
                    None => name.to_owned(),
                },
            };
            inner.push(Token::Text(shown));
            assert(toks(inner@) =~= seq![Tok::Text(display(name@, t))]);
        },
        Expression::Negation(n) => {
            let x = n.inner();
            inner.push(text("-"));
            assert(decreases_to!(e@ => e@->Negation_0));
            let printed = print_tokens(x, t, anns);
            let wrapped = wrap_parens(printed, t, x.precedence() <= PRECEDENCE_NEGATION);
            append_tokens(&mut inner, wrapped);
            assert(toks(inner@) =~= seq![Tok::Text("-"@)] + parens_if(
                x@.precedence() <= PRECEDENCE_NEGATION,
                print_spec(x@, t, a),
                t,
            ));
        },
        Expression::Product(p) => {
            let terms = p.terms();
            let ghost ts = views(terms@);
            let mut i: usize = 0;
            assert(toks(inner@) =~= product_spec(ts.subrange(0, 0), t, a));
            while i < terms.len()
                invariant
                    i <= terms@.len(),
                    ts == views(terms@),
                    e@ == Expr::Product(ts),
                    a == target_ids(anns@),
                    toks(inner@) == product_spec(ts.subrange(0, i as int), t, a),
                decreases terms@.len() - i,
            {
                let x = &terms[i];
                proof {
                    assert(ts.subrange(0, i + 1).drop_last() =~= ts.subrange(0, i as int));
                    assert(ts.subrange(0, i + 1).last() == x@);
                    assert(ts[i as int] == x@);
                    assert(decreases_to!(e@ => e@->Product_0));
                    assert(decreases_to!(e@->Product_0 => e@->Product_0[i as int]));
                }
                if i > 0 {
                    let ghost before = toks(inner@);
                    inner.push(text(if let PrintTarget::LaTeX = t { " " } else { " * " }));
                    assert(toks(inner@) =~= before + seq![Tok::Text(product_join(t))]);
                }
                let printed = print_tokens(x, t, anns);
                let wrapped = wrap_parens(printed, t, x.precedence() <= PRECEDENCE_PRODUCT);
                append_tokens(&mut inner, wrapped);
                i = i + 1;
            }
            assert(ts.subrange(0, i as int) =~= ts);
        },
        Expression::Sum(s) => {
            let terms = s.terms();
            let ghost ts = views(terms@);
            let mut i: usize = 0;
            assert(toks(inner@) =~= sum_spec(ts.subrange(0, 0), t, a));
            while i < terms.len()
                invariant
                    i <= terms@.len(),
                    ts == views(terms@),
                    e@ == Expr::Sum(ts),
                    a == target_ids(anns@),
                    toks(inner@) == sum_spec(ts.subrange(0, i as int), t, a),
                decreases terms@.len() - i,
            {
                let x = &terms[i];
                proof {
                    assert(ts.subrange(0, i + 1).drop_last() =~= ts.subrange(0, i as int));
                    assert(ts.subrange(0, i + 1).last() == x@);
                    assert(ts[i as int] == x@);
                    assert(decreases_to!(e@ => e@->Sum_0));
                    assert(decreases_to!(e@->Sum_0 => e@->Sum_0[i as int]));
                }
                let ghost before = toks(inner@);
                match x {
                    Expression::Negation(n) => {
                        let y = n.inner();
                        let join = if i == 0 {
                            "-"
                        } else {
                            match t {
                                PrintTarget::LaTeX => "-",
                                PrintTarget::PlainMath => " - ",
                            }
                        };
                        inner.push(text(join));
                        assert(decreases_to!(x@ => x@->Negation_0));
                        let printed = print_tokens(y, t, anns);
                        let wrapped = wrap_parens(printed, t, y.precedence() <= PRECEDENCE_SUM);
                        append_tokens(&mut inner, wrapped);
                        assert(toks(inner@) =~= before + sum_term_spec(x@, i == 0, t, a));
                    },
                    _ => {
                        if i > 0 {
                            inner.push(text(if let PrintTarget::LaTeX = t { "+" } else { " + " }));
                        }
                        let printed = print_tokens(x, t, anns);
                        let wrapped = wrap_parens(printed, t, x.precedence() <= PRECEDENCE_SUM);
                        append_tokens(&mut inner, wrapped);
                        assert(toks(inner@) =~= before + sum_term_spec(x@, i == 0, t, a));
                    },
                }
                i = i + 1;
            }
            assert(ts.subrange(0, i as int) =~= ts);
        },
    }
    if is_annotated(e.id(), anns) {
        let ghost body = toks(inner@);
        let mut r: Vec<Token> = Vec::new();
        r.push(Token::AnnotationStart);
        r.append(&mut inner);
        r.push(Token::AnnotationEnd);
        assert(toks(r@) =~= seq![Tok::Start] + body + seq![Tok::End]);
        r
    } else {
        inner
    }
}

/// Prints `e` for the given target, highlighting the annotated sub-expressions.
pub fn print(e: &Expression, t: PrintTarget, annotations: &[Annotation]) -> (r: TokenStream)
    ensures
        r@ == print_spec(e@, t, target_ids(annotations@)),
{
    TokenStream { tokens: print_tokens(e, t, annotations) }
}

/// The plain text of an expression, as `to_plain_text` gives it.
pub open spec fn expr_text(e: Expr) -> Seq<char> {
    plain_with_carets(print_spec(e, PrintTarget::PlainMath, Seq::empty()))
}

/// The plain text of an annotated expression: the expression, then the caret line.
pub open spec fn annotated_text(e: Expr, anns: Seq<u64>) -> Seq<char> {
    plain_with_carets(print_spec(e, PrintTarget::PlainMath, anns))
}

/// `parts` joined with `sep` between neighbours.
pub open spec fn join_with(parts: Seq<Seq<char>>, sep: Seq<char>) -> Seq<char>
    decreases parts.len(),
{
    if parts.len() == 0 {
        Seq::empty()
    } else if parts.len() == 1 {
        parts[0]
    } else {
        join_with(parts.drop_last(), sep) + sep + parts.last()
    }
}

/// The plain text of each term.
pub open spec fn texts_of(ts: Seq<Expr>) -> Seq<Seq<char>> {
    Seq::new(ts.len(), |i: int| expr_text(ts[i]))
}

/// The structural description of a node: its kind, and the plain text of its children.
pub open spec fn debug_spec(e: Expr) -> Seq<char> {
    match e {
        Expr::Constant(_) => "Expression::Constant("@ + expr_text(e) + ")"@,
        Expr::Product(ts) => "Expression::Product {\n  "@ + join_with(texts_of(ts), ",\n  "@) + "\n}"@,
        Expr::Sum(ts) => "Expression::Sum {\n  "@ + join_with(texts_of(ts), ",\n  "@) + "\n}"@,
        Expr::Negation(x) => "Expression::Negation {\n  "@ + expr_text(*x) + "\n}"@,
    }
}

fn join_terms_text(terms: &[Expression], sep: &str) -> (r: String)
    ensures
        r@ == join_with(texts_of(views(terms@)), sep@),
{
    let ghost parts = texts_of(views(terms@));
    let mut r = String::new();
    let mut i: usize = 0;
    while i < terms.len()
        invariant
            i <= terms@.len(),
            parts == texts_of(views(terms@)),
            r@ == join_with(parts.subrange(0, i as int), sep@),
        decreases terms@.len() - i,
    {
        proof {
            assert(parts.subrange(0, i + 1).drop_last() =~= parts.subrange(0, i as int));
            assert(parts.subrange(0, i + 1).last() == expr_text(terms@[i as int]@));
        }
        if i > 0 {
            r.append(sep);
        }
        let text = terms[i].to_plain_text();
        r.append(text.as_str());
        proof {
            if i == 0 {
                assert(r@ =~= parts.subrange(0, 1)[0]);
            }
        }
        i = i + 1;
    }
    assert(parts.subrange(0, i as int) =~= parts);
    r
}

impl Expression {
    /// A description of the node for debugging: its kind and its children as plain
    /// text.
    pub fn debug_text(&self) -> (r: String)
        ensures
            r@ == debug_spec(self@),
    {
        match self {
            Expression::Constant(_) => {
                let mut r = String::from_str("Expression::Constant(");
                let text = self.to_plain_text();
                r.append(text.as_str());
                r.append(")");
                r
            },
            Expression::Product(p) => {
                let mut r = String::from_str("Expression::Product {\n  ");
                let body = join_terms_text(p.terms(), ",\n  ");
                r.append(body.as_str());
                r.append("\n}");
                r
            },
            Expression::Sum(s) => {
                let mut r = String::from_str("Expression::Sum {\n  ");
                let body = join_terms_text(s.terms(), ",\n  ");
                r.append(body.as_str());
                r.append("\n}");
                r
            },
            Expression::Negation(n) => {
                let mut r = String::from_str("Expression::Negation {\n  ");
                let text = n.inner().to_plain_text();
                r.append(text.as_str());
                r.append("\n}");
                r
            },
        }
    }

    pub fn print(&self, t: PrintTarget, annotations: &[Annotation]) -> (r: TokenStream)
        ensures
            r@ == print_spec(self@, t, target_ids(annotations@)),
    {
        print(self, t, annotations)
    }

    /// The expression as plain text, with Unicode symbols.
    pub fn to_plain_text(&self) -> (r: String)
        ensures
            r@ == expr_text(self@),
    {
        let none: Vec<Annotation> = Vec::new();
        assert(target_ids(none@) =~= Seq::<u64>::empty());
        print(self, PrintTarget::PlainMath, none.as_slice()).to_plain_text()
    }

    /// The expression as LaTeX.
    pub fn latex(&self) -> (r: String)
        ensures
            r@ == markup(print_spec(self@, PrintTarget::LaTeX, Seq::empty())),
    {
        let none: Vec<Annotation> = Vec::new();
        assert(target_ids(none@) =~= Seq::<u64>::empty());
        print(self, PrintTarget::LaTeX, none.as_slice()).to_markup()
    }

    /// The expression as LaTeX with the annotated sub-expressions highlighted.
    pub fn latex_with_annotations(&self, annotations: &[Annotation]) -> (r: String)
        ensures
            r@ == markup(print_spec(self@, PrintTarget::LaTeX, target_ids(annotations@))),
    {
        print(self, PrintTarget::LaTeX, annotations).to_markup()
    }
}

impl AnnotatedExpression {
    pub fn print(&self, t: PrintTarget) -> (r: TokenStream)
        ensures
            r@ == print_spec(self.expression@, t, target_ids(self.annotations@)),
    {
        print(&self.expression, t, self.annotations.as_slice())
    }

    /// The expression as plain text and, under it, carets marking the annotated
    /// sub-expressions.
    pub fn to_plain_text(&self) -> (r: String)
        ensures
            r@ == annotated_text(self.expression@, target_ids(self.annotations@)),
    {
        self.print(PrintTarget::PlainMath).to_plain_text()
    }
}

} // verus!
