//! HTML rendering of explanation steps, through KaTeX.
use vstd::prelude::*;
use vstd::string::*;

use crate::printer::{print_spec, PrintTarget};
use crate::step::{target_ids, Step};
use crate::token_stream::markup;

verus! {

#[verifier::external_type_specification]
#[verifier::external_body]
pub struct ExKatexError(katex::Error);

/// The HTML that KaTeX renders for a LaTeX input.
pub uninterp spec fn katex_html(latex: Seq<char>) -> Seq<char>;

/// Relies on `katex::render_with_opts` with `trust` enabled (so that `\htmlClass` is
/// honoured): when it succeeds, the HTML that KaTeX renders for the input, which
/// depends on the input alone.
#[verifier::external_body]
fn render_latex(input: &str) -> (r: Result<String, katex::Error>)
    ensures
        r matches Ok(html) ==> html@ == katex_html(input@),
{
    let mut opts = katex::Opts::default();
    opts.set_trust(true);
    katex::render_with_opts(input, opts)
}

/// KaTeX failed to render a piece of LaTeX.
pub struct RenderError {
    pub latex: String,
}

/// The substeps' HTML, each in its own `div` on a new line.
pub open spec fn substep_divs(subs: Seq<Seq<char>>) -> Seq<char>
    decreases subs.len(),
{
    if subs.len() == 0 {
        Seq::empty()
    } else {
        substep_divs(subs.drop_last()) + "\n<div>"@ + subs.last() + "</div>"@
    }
}

/// The HTML of one step from the HTML of its parts: a labelled step is a `details`
/// element whose summary is the label and whose body holds the expression before and
/// the substeps, followed by the result; a step without a label shows the same body
/// and the result.
pub open spec fn html_block_spec(
    label: Option<Seq<char>>,
    before: Option<Seq<char>>,
    subs: Seq<Seq<char>>,
    result: Seq<char>,
) -> Seq<char> {
    let inner = match before {
        Some(b) => b,
        None => Seq::empty(),
    } + substep_divs(subs);
    match label {
        Some(l) => "<details>\n<summary>\n"@ + l + "\n</summary>\n<div class=\"substeps\">\n"@ + inner
            + "\n</div>\n</details>\n<div>"@ + result + "</div>"@,
        None => inner + "\n<div>"@ + result + "</div>"@,
    }
}

/// The LaTeX of the expression before a step, with its annotations highlighted.
pub open spec fn before_latex(s: Step) -> Seq<char> {
    markup(
        print_spec(
            s.annotated_expression->Some_0.expression@,
            PrintTarget::LaTeX,
            target_ids(s.annotated_expression->Some_0.annotations@),
        ),
    )
}

pub open spec fn result_latex(s: Step) -> Seq<char> {
    markup(print_spec(s.result@, PrintTarget::LaTeX, Seq::empty()))
}

/// The HTML of each of the steps `ss`.
pub open spec fn substeps_html(ss: Seq<Step>) -> Seq<Seq<char>>
    decreases ss, 0nat,
{
    if ss.len() == 0 {
        Seq::empty()
    } else {
        substeps_html(ss.drop_last()).push(step_html(ss.last()))
    }
}

/// The HTML of a step, every expression rendered by KaTeX.
pub open spec fn step_html(s: Step) -> Seq<char>
    decreases s, 1nat,
{
    html_block_spec(
        match s.label {
            Some(l) => Some(l@),
            None => None,
        },
        if s.annotated_expression is Some {
            Some(katex_html(before_latex(s)))
        } else {
            None
        },
        substeps_html(s.substeps@),
        katex_html(result_latex(s)),
    )
}

/// Assembles the HTML of a step from the HTML of its parts.
pub fn html_block(label: Option<&str>, before: Option<&str>, subs: &Vec<String>, result: &str) -> (r:
    String)
    ensures
        r@ == html_block_spec(
            match label {
                Some(l) => Some(l@),
                None => None,
            },
            match before {
                Some(b) => Some(b@),
                None => None,
            },
            crate::token_stream::strs(subs@),
            result@,
        ),
{
    let mut inner = String::new();
    match before {
        Some(b) => inner.append(b),
        None => {},
    }
    let ghost ss = crate::token_stream::strs(subs@);
    let mut i: usize = 0;
    while i < subs.len()
        invariant
            i <= subs@.len(),
            ss == crate::token_stream::strs(subs@),
            inner@ == match before {
                Some(b) => b@,
                None => Seq::empty(),
            } + substep_divs(ss.subrange(0, i as int)),
        decreases subs@.len() - i,
    {
        proof {
            assert(ss.subrange(0, i + 1).drop_last() =~= ss.subrange(0, i as int));
            assert(ss.subrange(0, i + 1).last() == subs@[i as int]@);
        }
        inner.append("\n<div>");
        inner.append(subs[i].as_str());
        inner.append("</div>");
        i = i + 1;
    }
    assert(ss.subrange(0, i as int) =~= ss);
    match label {
        Some(l) => {
            let mut r = String::from_str("<details>\n<summary>\n");
            r.append(l);
            r.append("\n</summary>\n<div class=\"substeps\">\n");
            r.append(inner.as_str());
            r.append("\n</div>\n</details>\n<div>");
            r.append(result);
            r.append("</div>");
            r
        },
        None => {
            inner.append("\n<div>");
            inner.append(result);
            inner.append("</div>");
            inner
        },
    }
}

fn render_checked(latex: String) -> (r: Result<String, RenderError>)
    ensures
        r matches Ok(html) ==> html@ == katex_html(latex@),
{
    match render_latex(latex.as_str()) {
        Ok(html) => Ok(html),
        Err(_) => Err(RenderError { latex }),
    }
}

impl Step {
    /// The step as HTML, each expression rendered by KaTeX; an error names the LaTeX
    /// that KaTeX could not render.
    pub fn html_print(&self) -> (r: Result<String, RenderError>)
        ensures
            r matches Ok(html) ==> html@ == step_html(*self),
        decreases self,
    {
        let before = match &self.annotated_expression {
            Some(ae) => {
                let latex = ae.expression.latex_with_annotations(ae.annotations.as_slice());
                match render_checked(latex) {
                    Ok(h) => Some(h),
                    Err(e) => {
                        return Err(e);
                    },
                }
            },
            None => None,
        };
        let mut subs: Vec<String> = Vec::new();
        let mut i: usize = 0;
        assert(crate::token_stream::strs(subs@) =~= substeps_html(self.substeps@.subrange(0, 0)));
        while i < self.substeps.len()
            invariant
                i <= self.substeps@.len(),
                crate::token_stream::strs(subs@) == substeps_html(self.substeps@.subrange(0, i as int)),
            decreases self.substeps@.len() - i,
        {
            proof {
                assert(decreases_to!(*self => self.substeps));
                assert(decreases_to!(self.substeps => self.substeps@));
                assert(decreases_to!(self.substeps@ => self.substeps@[i as int]));
                let ss = self.substeps@;
                assert(ss.subrange(0, i + 1).drop_last() =~= ss.subrange(0, i as int));
                assert(ss.subrange(0, i + 1).last() == ss[i as int]);
            }
            let ghost prev = subs@;
            match self.substeps[i].html_print() {
                Ok(h) => {
                    subs.push(h);
                    assert(crate::token_stream::strs(subs@) =~= crate::token_stream::strs(prev).push(h@));
                },
                Err(e) => {
                    return Err(e);
                },
            }
            i = i + 1;
        }
        let result = match render_checked(self.result.latex()) {
            Ok(h) => h,
            Err(e) => {
                return Err(e);
            },
        };
        let label = match &self.label {
            Some(l) => Some(l.as_str()),
            None => None,
        };
        let before_str = match &before {
            Some(b) => Some(b.as_str()),
            None => None,
        };
        let r = html_block(label, before_str, &subs, result.as_str());
        assert(self.substeps@.subrange(0, i as int) =~= self.substeps@);
        Ok(r)
    }
}

} // verus!
