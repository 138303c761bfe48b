//! Annotated expressions and the explanation tree of rewrite steps.
use vstd::prelude::*;

use crate::expression::{Expr, Expression};
use crate::printer::{expr_text, print_spec, PrintTarget};
use crate::token_stream::{join_lines, join_strings, plain_lines, strs};
use vstd::string::*;

verus! {

/// A request to highlight, when printing, every sub-expression with this identity.
pub struct Annotation {
    pub target_id: u64,
}

impl Annotation {
    pub fn new(expr: &Expression) -> (r: Annotation)
        ensures
            r.target_id == expr@.id(),
    {
        Annotation { target_id: expr.id() }
    }
}

/// The identities that a list of annotations targets.
pub open spec fn target_ids(anns: Seq<Annotation>) -> Seq<u64> {
    Seq::new(anns.len(), |i: int| anns[i].target_id)
}

/// An expression together with the sub-expressions to highlight in it.
pub struct AnnotatedExpression {
    pub expression: Expression,
    pub annotations: Vec<Annotation>,
}

/// One node of an explanation: an optional label, an optional annotated view of the
/// expression before the change, nested steps, and the result.
pub struct Step {
    pub label: Option<String>,
    pub annotated_expression: Option<AnnotatedExpression>,
    pub substeps: Vec<Step>,
    pub result: Expression,
}

pub open spec fn indent(ls: Seq<Seq<char>>) -> Seq<Seq<char>> {
    Seq::new(ls.len(), |i: int| "  "@ + ls[i])
}

/// The lines that show the expression before a step, with its caret line.
pub open spec fn before_lines(a: Option<AnnotatedExpression>) -> Seq<Seq<char>> {
    match a {
        Some(ae) => plain_lines(print_spec(ae.expression@, PrintTarget::PlainMath, target_ids(ae.annotations@))),
        None => Seq::empty(),
    }
}

/// The lines of a step: the label, then, indented by two spaces, the expression
/// before, every substep, and the result. A step without a label shows the same
/// block without the label and without indentation.
pub open spec fn step_lines(s: Step) -> Seq<Seq<char>>
    decreases s, 1nat,
{
    let body = before_lines(s.annotated_expression) + substep_lines(s.substeps@) + seq![expr_text(s.result@)];
    match s.label {
        Some(l) => seq![l@] + indent(body),
        None => body,
    }
}

pub open spec fn substep_lines(ss: Seq<Step>) -> Seq<Seq<char>>
    decreases ss, 0nat,
{
    if ss.len() == 0 {
        Seq::empty()
    } else {
        substep_lines(ss.drop_last()) + step_lines(ss.last())
    }
}

fn append_strings(out: &mut Vec<String>, more: Vec<String>)
    ensures
        strs(final(out)@) == strs(old(out)@) + strs(more@),
{
    let mut more = more;
    let ghost m = strs(more@);
    out.append(&mut more);
    assert(strs(out@) =~= strs(old(out)@) + m);
}

impl Step {
    /// The rendered lines of this step.
    pub fn lines(&self) -> (r: Vec<String>)
        ensures
            strs(r@) == step_lines(*self),
        decreases self,
    {
        let mut body: Vec<String> = Vec::new();
        match &self.annotated_expression {
            Some(ae) => {
                let before = ae.print(PrintTarget::PlainMath).plain_lines();
                append_strings(&mut body, before);
            },
            None => {},
        }
        assert(strs(body@) =~= before_lines(self.annotated_expression) + substep_lines(self.substeps@.subrange(0, 0)));
        let mut i: usize = 0;
        while i < self.substeps.len()
            invariant
                i <= self.substeps@.len(),
                strs(body@) == before_lines(self.annotated_expression) + substep_lines(self.substeps@.subrange(0, i as int)),
            decreases self.substeps@.len() - i,
        {
            proof {
                let ss = self.substeps@;
                assert(ss.subrange(0, i + 1).drop_last() =~= ss.subrange(0, i as int));
                assert(ss.subrange(0, i + 1).last() == ss[i as int]);
                assert(decreases_to!(*self => self.substeps));
                assert(decreases_to!(self.substeps => self.substeps@));
                assert(decreases_to!(self.substeps@ => self.substeps@[i as int]));
            }
            let sub = self.substeps[i].lines();
            let ghost prev = strs(body@);
            append_strings(&mut body, sub);
            assert(strs(body@) =~= before_lines(self.annotated_expression) + substep_lines(self.substeps@.subrange(0, i + 1)));
            i = i + 1;
        }
        assert(self.substeps@.subrange(0, i as int) =~= self.substeps@);
        let ghost prev = strs(body@);
        body.push(self.result.to_plain_text());
        assert(strs(body@) =~= prev + seq![expr_text(self.result@)]);
        match &self.label {
            Some(l) => {
                let mut r: Vec<String> = Vec::new();
                r.push(l.clone());
                let mut j: usize = 0;
                proof {
                    reveal_strlit("  ");
                }
                while j < body.len()
                    invariant
                        j <= body@.len(),
                        strs(r@) == seq![l@] + indent(strs(body@)).subrange(0, j as int),
                    decreases body@.len() - j,
                {
                    let mut line = String::from_str("  ");
                    line.append(body[j].as_str());
                    let ghost prev = strs(r@);
                    assert(line@ == "  "@ + strs(body@)[j as int]);
                    r.push(line);
                    assert(strs(r@) =~= prev.push(indent(strs(body@))[j as int]));
                    assert(indent(strs(body@)).subrange(0, j + 1) =~= indent(strs(body@)).subrange(0, j as int).push(indent(strs(body@))[j as int]));
                    assert(strs(r@) =~= seq![l@] + indent(strs(body@)).subrange(0, j + 1));
                    j = j + 1;
                }
                assert(indent(strs(body@)).subrange(0, j as int) =~= indent(strs(body@)));
                r
            },
            None => body,
        }
    }

    /// The explanation as text: one line per entry of `lines`.
    pub fn math_print(&self) -> (r: String)
        ensures
            r@ == join_lines(step_lines(*self)),
    {
        let lines = self.lines();
        join_strings(&lines)
    }
}

} // verus!
