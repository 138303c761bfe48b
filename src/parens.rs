//! The plain-text printer never leaves a parenthesis unmatched.
use vstd::prelude::*;

use crate::expression::Expr;
use crate::printer::{
    display, parens, parens_if, print_spec, product_join, product_spec, sum_spec,
    sum_term_spec, PrintTarget,
};
use crate::symbols::display_name;
use crate::token_stream::{caret_line, has_annotation, plain_text, plain_with_carets, repeat, trim_end, Tok};

verus! {

pub open spec fn paren_delta(c: char) -> int {
    if c == '(' {
        1
    } else if c == ')' {
        -1
    } else {
        0
    }
}

/// Opening minus closing parentheses in `s`.
pub open spec fn paren_balance(s: Seq<char>) -> int
    decreases s.len(),
{
    if s.len() == 0 {
        0
    } else {
        paren_balance(s.drop_last()) + paren_delta(s.last())
    }
}

/// Every closing parenthesis of `s` closes an earlier opening one, and every opening
/// one is closed.
pub open spec fn balanced(s: Seq<char>) -> bool {
    &&& paren_balance(s) == 0
    &&& forall|k: int| 0 <= k <= s.len() ==> #[trigger] paren_balance(s.subrange(0, k)) >= 0
}

pub open spec fn paren_free(s: Seq<char>) -> bool {
    forall|i: int| 0 <= i < s.len() ==> #[trigger] s[i] != '(' && s[i] != ')'
}

/// No constant name in `e` holds a parenthesis.
pub open spec fn names_paren_free(e: Expr) -> bool
    decreases e,
{
    match e {
        Expr::Constant(name) => paren_free(name),
        Expr::Sum(ts) => forall|i: int| 0 <= i < ts.len() ==> names_paren_free(#[trigger] ts[i]),
        Expr::Product(ts) => forall|i: int| 0 <= i < ts.len() ==> names_paren_free(#[trigger] ts[i]),
        Expr::Negation(inner) => names_paren_free(*inner),
    }
}

proof fn lemma_balance_concat(a: Seq<char>, b: Seq<char>)
    ensures
        paren_balance(a + b) == paren_balance(a) + paren_balance(b),
    decreases b.len(),
{
    if b.len() == 0 {
        assert(a + b =~= a);
    } else {
        assert((a + b).drop_last() =~= a + b.drop_last());
        lemma_balance_concat(a, b.drop_last());
    }
}

proof fn lemma_balanced_concat(a: Seq<char>, b: Seq<char>)
    requires
        balanced(a),
        balanced(b),
    ensures
        balanced(a + b),
{
    lemma_balance_concat(a, b);
    assert forall|k: int| 0 <= k <= (a + b).len() implies #[trigger] paren_balance((a + b).subrange(0, k)) >= 0 by {
        if k <= a.len() {
            assert((a + b).subrange(0, k) =~= a.subrange(0, k));
        } else {
            assert((a + b).subrange(0, k) =~= a + b.subrange(0, k - a.len()));
            lemma_balance_concat(a, b.subrange(0, k - a.len()));
            assert(paren_balance(b.subrange(0, k - a.len())) >= 0);
        }
    }
}

proof fn lemma_paren_free_balance(s: Seq<char>)
    requires
        paren_free(s),
    ensures
        paren_balance(s) == 0,
    decreases s.len(),
{
    if s.len() > 0 {
        assert(paren_free(s.drop_last())) by {
            assert forall|i: int| 0 <= i < s.drop_last().len() implies #[trigger] s.drop_last()[i] != '('
                && s.drop_last()[i] != ')' by {
                assert(s.drop_last()[i] == s[i]);
            }
        }
        lemma_paren_free_balance(s.drop_last());
        assert(s[s.len() - 1] != '(');
    }
}

proof fn lemma_paren_free_balanced(s: Seq<char>)
    requires
        paren_free(s),
    ensures
        balanced(s),
{
    lemma_paren_free_balance(s);
    assert forall|k: int| 0 <= k <= s.len() implies #[trigger] paren_balance(s.subrange(0, k)) >= 0 by {
        assert(paren_free(s.subrange(0, k))) by {
            assert forall|i: int| 0 <= i < s.subrange(0, k).len() implies #[trigger] s.subrange(0, k)[i] != '('
                && s.subrange(0, k)[i] != ')' by {
                assert(s.subrange(0, k)[i] == s[i]);
            }
        }
        lemma_paren_free_balance(s.subrange(0, k));
    }
}

proof fn lemma_wrap_balanced(s: Seq<char>)
    requires
        balanced(s),
    ensures
        balanced(seq!['('] + s + seq![')']),
{
    let w = seq!['('] + s + seq![')'];
    reveal_with_fuel(paren_balance, 2);
    assert(paren_balance(seq!['(']) == 1) by {
        assert(seq!['('].drop_last() =~= Seq::<char>::empty());
    }
    assert(paren_balance(seq![')']) == -1) by {
        assert(seq![')'].drop_last() =~= Seq::<char>::empty());
    }
    lemma_balance_concat(seq!['('], s);
    lemma_balance_concat(seq!['('] + s, seq![')']);
    assert forall|k: int| 0 <= k <= w.len() implies #[trigger] paren_balance(w.subrange(0, k)) >= 0 by {
        if k == 0 {
            assert(w.subrange(0, k) =~= Seq::<char>::empty());
        } else if k <= s.len() + 1 {
            assert(w.subrange(0, k) =~= seq!['('] + s.subrange(0, k - 1));
            lemma_balance_concat(seq!['('], s.subrange(0, k - 1));
            assert(paren_balance(s.subrange(0, k - 1)) >= 0);
        } else {
            assert(w.subrange(0, k) =~= w);
        }
    }
}

proof fn lemma_plain_text_concat(x: Seq<Tok>, y: Seq<Tok>)
    ensures
        plain_text(x + y) == plain_text(x) + plain_text(y),
    decreases y.len(),
{
    if y.len() == 0 {
        assert(x + y =~= x);
        assert(plain_text(x) + Seq::<char>::empty() =~= plain_text(x));
    } else {
        assert((x + y).drop_last() =~= x + y.drop_last());
        lemma_plain_text_concat(x, y.drop_last());
        assert(plain_text(x + y) =~= plain_text(x) + plain_text(y));
    }
}

proof fn lemma_text_token(s: Seq<char>)
    ensures
        plain_text(seq![Tok::Text(s)]) == s,
{
    reveal_with_fuel(plain_text, 2);
    assert(seq![Tok::Text(s)].drop_last() =~= Seq::<Tok>::empty());
    assert(Seq::<char>::empty() + s =~= s);
}

proof fn lemma_mark_token(m: Tok)
    requires
        !(m is Text),
    ensures
        plain_text(seq![m]) == Seq::<char>::empty(),
{
    reveal_with_fuel(plain_text, 2);
    assert(seq![m].drop_last() =~= Seq::<Tok>::empty());
}

proof fn lemma_text_token_balanced(s: Seq<char>)
    requires
        paren_free(s),
    ensures
        balanced(plain_text(seq![Tok::Text(s)])),
{
    lemma_text_token(s);
    lemma_paren_free_balanced(s);
}

proof fn lemma_parens_if_balanced(b: bool, ts: Seq<Tok>)
    requires
        balanced(plain_text(ts)),
    ensures
        balanced(plain_text(parens_if(b, ts, PrintTarget::PlainMath))),
{
    if b {
        reveal_strlit("(");
        reveal_strlit(")");
        assert("("@ =~= seq!['(']);
        assert(")"@ =~= seq![')']);
        lemma_plain_text_concat(seq![Tok::Text("("@)], ts);
        lemma_plain_text_concat(seq![Tok::Text("("@)] + ts, seq![Tok::Text(")"@)]);
        lemma_text_token("("@);
        lemma_text_token(")"@);
        lemma_wrap_balanced(plain_text(ts));
    }
}

proof fn lemma_concat_balanced(x: Seq<Tok>, y: Seq<Tok>)
    requires
        balanced(plain_text(x)),
        balanced(plain_text(y)),
    ensures
        balanced(plain_text(x + y)),
{
    lemma_plain_text_concat(x, y);
    lemma_balanced_concat(plain_text(x), plain_text(y));
}

proof fn lemma_empty_balanced()
    ensures
        balanced(plain_text(Seq::<Tok>::empty())),
{
    assert(Seq::<char>::empty().subrange(0, 0) =~= Seq::<char>::empty());
}

proof fn lemma_literal_balanced(s: &str)
    requires
        s@ == " * "@ || s@ == " + "@ || s@ == " - "@ || s@ == "-"@,
    ensures
        balanced(plain_text(seq![Tok::Text(s@)])),
{
    reveal_strlit(" * ");
    reveal_strlit(" + ");
    reveal_strlit(" - ");
    reveal_strlit("-");
    lemma_text_token_balanced(s@);
}

/// The plain text of a printed expression is balanced.
pub proof fn lemma_print_balanced(e: Expr, anns: Seq<u64>)
    requires
        names_paren_free(e),
    ensures
        balanced(plain_text(print_spec(e, PrintTarget::PlainMath, anns))),
    decreases e, 0nat,
{
    let t = PrintTarget::PlainMath;
    let inner = match e {
        Expr::Constant(name) => seq![Tok::Text(display(name, t))],
        Expr::Product(ts) => product_spec(ts, t, anns),
        Expr::Sum(ts) => sum_spec(ts, t, anns),
        Expr::Negation(x) => seq![Tok::Text("-"@)] + parens_if(
            x.precedence() <= 2,
            print_spec(*x, t, anns),
            t,
        ),
    };
    match e {
        Expr::Constant(name) => {
            reveal_strlit("π");
            let shown = display_name(name);
            assert(paren_free(shown)) by {
                if shown != name {
                    assert(shown =~= seq!['π'] || shown =~= seq!['ρ']);
                }
            }
            lemma_text_token_balanced(shown);
        },
        Expr::Product(ts) => {
            lemma_product_balanced(ts, anns);
        },
        Expr::Sum(ts) => {
            lemma_sum_balanced(ts, anns);
        },
        Expr::Negation(x) => {
            lemma_print_balanced(*x, anns);
            lemma_parens_if_balanced(x.precedence() <= 2, print_spec(*x, t, anns));
            lemma_literal_balanced("-");
            lemma_concat_balanced(seq![Tok::Text("-"@)], parens_if(x.precedence() <= 2, print_spec(*x, t, anns), t));
        },
    }
    assert(balanced(plain_text(inner)));
    if anns.contains(e.id()) {
        lemma_plain_text_concat(seq![Tok::Start], inner);
        lemma_plain_text_concat(seq![Tok::Start] + inner, seq![Tok::End]);
        lemma_mark_token(Tok::Start);
        lemma_mark_token(Tok::End);
        assert(Seq::<char>::empty() + plain_text(inner) + Seq::<char>::empty() =~= plain_text(inner));
    }
}

proof fn lemma_product_balanced(ts: Seq<Expr>, anns: Seq<u64>)
    requires
        forall|i: int| 0 <= i < ts.len() ==> names_paren_free(#[trigger] ts[i]),
    ensures
        balanced(plain_text(product_spec(ts, PrintTarget::PlainMath, anns))),
    decreases ts, 0nat,
{
    let t = PrintTarget::PlainMath;
    if ts.len() == 0 {
        lemma_empty_balanced();
    } else {
        let x = ts.last();
        lemma_product_balanced(ts.drop_last(), anns);
        lemma_print_balanced(x, anns);
        lemma_parens_if_balanced(x.precedence() <= 3, print_spec(x, t, anns));
        let sep = if ts.len() > 1 {
            seq![Tok::Text(product_join(t))]
        } else {
            Seq::empty()
        };
        if ts.len() > 1 {
            lemma_literal_balanced(" * ");
        } else {
            lemma_empty_balanced();
        }
        lemma_concat_balanced(product_spec(ts.drop_last(), t, anns), sep);
        lemma_concat_balanced(product_spec(ts.drop_last(), t, anns) + sep, parens_if(x.precedence() <= 3, print_spec(x, t, anns), t));
    }
}

proof fn lemma_sum_balanced(ts: Seq<Expr>, anns: Seq<u64>)
    requires
        forall|i: int| 0 <= i < ts.len() ==> names_paren_free(#[trigger] ts[i]),
    ensures
        balanced(plain_text(sum_spec(ts, PrintTarget::PlainMath, anns))),
    decreases ts, 1nat,
{
    if ts.len() == 0 {
        lemma_empty_balanced();
    } else {
        lemma_sum_balanced(ts.drop_last(), anns);
        lemma_sum_term_balanced(ts.last(), ts.len() == 1, anns);
        lemma_concat_balanced(sum_spec(ts.drop_last(), PrintTarget::PlainMath, anns), sum_term_spec(ts.last(), ts.len() == 1, PrintTarget::PlainMath, anns));
    }
}

proof fn lemma_sum_term_balanced(x: Expr, first: bool, anns: Seq<u64>)
    requires
        names_paren_free(x),
    ensures
        balanced(plain_text(sum_term_spec(x, first, PrintTarget::PlainMath, anns))),
    decreases x, 1nat,
{
    let t = PrintTarget::PlainMath;
    match x {
        Expr::Negation(inner) => {
            lemma_print_balanced(*inner, anns);
            lemma_parens_if_balanced(inner.precedence() <= 1, print_spec(*inner, t, anns));
            if first {
                lemma_literal_balanced("-");
            } else {
                lemma_literal_balanced(" - ");
            }
            lemma_concat_balanced(seq![Tok::Text(crate::printer::minus_join(first, t))], parens_if(inner.precedence() <= 1, print_spec(*inner, t, anns), t));
        },
        _ => {
            lemma_print_balanced(x, anns);
            lemma_parens_if_balanced(x.precedence() <= 1, print_spec(x, t, anns));
            let sep = if first {
                Seq::empty()
            } else {
                seq![Tok::Text(crate::printer::plus_join(t))]
            };
            if first {
                lemma_empty_balanced();
            } else {
                lemma_literal_balanced(" + ");
            }
            lemma_concat_balanced(sep, parens_if(x.precedence() <= 1, print_spec(x, t, anns), t));
        },
    }
}

proof fn lemma_paren_free_concat(a: Seq<char>, b: Seq<char>)
    requires
        paren_free(a),
        paren_free(b),
    ensures
        paren_free(a + b),
{
    assert forall|i: int| 0 <= i < (a + b).len() implies #[trigger] (a + b)[i] != '(' && (a + b)[i] != ')' by {
        if i < a.len() {
            assert((a + b)[i] == a[i]);
        } else {
            assert((a + b)[i] == b[i - a.len()]);
        }
    }
}

proof fn lemma_caret_line_paren_free(ts: Seq<Tok>)
    ensures
        paren_free(caret_line(ts)),
    decreases ts.len(),
{
    if ts.len() > 0 {
        lemma_caret_line_paren_free(ts.drop_last());
        let tail = match ts.last() {
            Tok::Text(s) => repeat(if crate::token_stream::depth(ts.drop_last()) > 0 { '^' } else { ' ' }, s.len()),
            _ => Seq::empty(),
        };
        assert(paren_free(tail));
        lemma_paren_free_concat(caret_line(ts.drop_last()), tail);
    }
}

proof fn lemma_trim_end_paren_free(s: Seq<char>)
    requires
        paren_free(s),
    ensures
        paren_free(trim_end(s)),
    decreases s.len(),
{
    if s.len() > 0 && s.last() == ' ' {
        assert(paren_free(s.drop_last())) by {
            assert forall|i: int| 0 <= i < s.drop_last().len() implies #[trigger] s.drop_last()[i] != '('
                && s.drop_last()[i] != ')' by {
                assert(s.drop_last()[i] == s[i]);
            }
        }
        lemma_trim_end_paren_free(s.drop_last());
    }
}

/// Printing as plain text leaves no parenthesis unmatched, with or without
/// annotations, wherever no constant name holds a parenthesis itself.
pub proof fn lemma_plain_text_balanced(e: Expr, anns: Seq<u64>)
    requires
        names_paren_free(e),
    ensures
        balanced(plain_with_carets(print_spec(e, PrintTarget::PlainMath, anns))),
{
    let ts = print_spec(e, PrintTarget::PlainMath, anns);
    lemma_print_balanced(e, anns);
    if has_annotation(ts) {
        lemma_caret_line_paren_free(ts);
        lemma_trim_end_paren_free(caret_line(ts));
        assert(paren_free(seq!['\n']));
        lemma_paren_free_concat(seq!['\n'], trim_end(caret_line(ts)));
        lemma_paren_free_balanced(seq!['\n'] + trim_end(caret_line(ts)));
        lemma_balanced_concat(plain_text(ts), seq!['\n'] + trim_end(caret_line(ts)));
        assert(plain_text(ts) + (seq!['\n'] + trim_end(caret_line(ts))) =~= plain_text(ts) + seq!['\n'] + trim_end(caret_line(ts)));
    }
}

} // verus!
