//! The rewrite passes that remove excess parentheses: a product directly inside a
//! product, or a sum directly inside a sum, is spliced into its parent.
use vstd::prelude::*;
use vstd::string::*;

use crate::expression::{lemma_rebuild_children, lemma_view_node, views, Expr, Expression, Product, Sum};
use crate::step::{target_ids, AnnotatedExpression, Annotation, Step};
use crate::traverse::{traverse, TraverserContext, Visitor};

verus! {

broadcast use lemma_view_node;

/// The kind number of a sum (see `Expr::kind`).
pub open spec fn kind_sum() -> nat {
    1
}

/// The kind number of a product.
pub open spec fn kind_product() -> nat {
    2
}

/// The terms `ts` with every term of the given kind replaced by its own terms.
pub open spec fn splice(ts: Seq<Expr>, kind: nat) -> Seq<Expr>
    decreases ts.len(),
{
    if ts.len() == 0 {
        Seq::empty()
    } else {
        splice(ts.drop_last(), kind) + if ts.last().kind() == kind {
            ts.last().children()
        } else {
            seq![ts.last()]
        }
    }
}

/// The identities of the terms of the given kind, in order.
pub open spec fn spliced_ids(ts: Seq<Expr>, kind: nat) -> Seq<u64>
    decreases ts.len(),
{
    if ts.len() == 0 {
        Seq::empty()
    } else {
        spliced_ids(ts.drop_last(), kind) + if ts.last().kind() == kind {
            seq![ts.last().id()]
        } else {
            Seq::empty()
        }
    }
}

/// Some term of `ts` has the given kind.
pub open spec fn has_kind(ts: Seq<Expr>, kind: nat) -> bool {
    exists|i: int| 0 <= i < ts.len() && #[trigger] ts[i].kind() == kind
}

/// One node flattened: a sum's sum terms and a product's product terms are spliced in.
pub open spec fn flatten_node(e: Expr) -> Expr {
    match e {
        Expr::Sum(ts) => Expr::Sum(splice(ts, kind_sum())),
        Expr::Product(ts) => Expr::Product(splice(ts, kind_product())),
        _ => e,
    }
}

/// The whole tree flattened from the bottom up.
pub open spec fn flat(e: Expr) -> Expr
    decreases e,
{
    match e {
        Expr::Constant(_) => e,
        Expr::Negation(inner) => Expr::Negation(Box::new(flat(*inner))),
        Expr::Sum(ts) => flatten_node(Expr::Sum(flat_terms(ts))),
        Expr::Product(ts) => flatten_node(Expr::Product(flat_terms(ts))),
    }
}

pub open spec fn flat_terms(ts: Seq<Expr>) -> Seq<Expr>
    decreases ts,
{
    Seq::new(ts.len(), |i: int| if 0 <= i < ts.len() { flat(ts[i]) } else { Expr::Constant(Seq::empty()) })
}

/// No sum holds a sum term and no product holds a product term, anywhere in `e`.
pub open spec fn is_flat(e: Expr) -> bool
    decreases e,
{
    match e {
        Expr::Constant(_) => true,
        Expr::Negation(inner) => is_flat(*inner),
        Expr::Sum(ts) => forall|i: int| 0 <= i < ts.len() ==> ts[i].kind() != kind_sum() && is_flat(#[trigger] ts[i]),
        Expr::Product(ts) => forall|i: int| 0 <= i < ts.len() ==> ts[i].kind() != kind_product() && is_flat(#[trigger] ts[i]),
    }
}

proof fn lemma_splice_none(ts: Seq<Expr>, kind: nat)
    requires
        !has_kind(ts, kind),
    ensures
        splice(ts, kind) == ts,
        spliced_ids(ts, kind) == Seq::<u64>::empty(),
    decreases ts.len(),
{
    if ts.len() > 0 {
        assert(!has_kind(ts.drop_last(), kind)) by {
            if has_kind(ts.drop_last(), kind) {
                let i = choose|i: int| 0 <= i < ts.drop_last().len() && #[trigger] ts.drop_last()[i].kind() == kind;
                assert(ts[i].kind() == kind);
            }
        }
        lemma_splice_none(ts.drop_last(), kind);
        assert(ts.last().kind() != kind);
        assert(ts.drop_last() + seq![ts.last()] =~= ts);
        assert(spliced_ids(ts.drop_last(), kind) + Seq::<u64>::empty() =~= Seq::<u64>::empty());
    }
}

proof fn lemma_spliced_ids_nonempty(ts: Seq<Expr>, kind: nat)
    requires
        has_kind(ts, kind),
    ensures
        spliced_ids(ts, kind).len() > 0,
    decreases ts.len(),
{
    if ts.last().kind() != kind {
        assert(has_kind(ts.drop_last(), kind)) by {
            let i = choose|i: int| 0 <= i < ts.len() && #[trigger] ts[i].kind() == kind;
            assert(i != ts.len() - 1);
            assert(ts.drop_last()[i].kind() == kind);
        }
        lemma_spliced_ids_nonempty(ts.drop_last(), kind);
    }
}

proof fn lemma_flat_terms_index(ts: Seq<Expr>, i: int)
    requires
        0 <= i < ts.len(),
    ensures
        flat_terms(ts).len() == ts.len(),
        #[trigger] flat_terms(ts)[i] == flat(ts[i]),
{
}

/// A flat tree is left as it is.
pub proof fn lemma_flat_of_flat_tree(e: Expr)
    requires
        is_flat(e),
    ensures
        flat(e) == e,
    decreases e,
{
    match e {
        Expr::Constant(_) => {},
        Expr::Negation(inner) => {
            lemma_flat_of_flat_tree(*inner);
        },
        Expr::Sum(ts) => {
            assert forall|i: int| 0 <= i < ts.len() implies flat_terms(ts)[i] == ts[i] by {
                lemma_flat_terms_index(ts, i);
                lemma_flat_of_flat_tree(ts[i]);
            }
            assert(flat_terms(ts) =~= ts);
            lemma_splice_none(ts, kind_sum());
        },
        Expr::Product(ts) => {
            assert forall|i: int| 0 <= i < ts.len() implies flat_terms(ts)[i] == ts[i] by {
                lemma_flat_terms_index(ts, i);
                lemma_flat_of_flat_tree(ts[i]);
            }
            assert(flat_terms(ts) =~= ts);
            lemma_splice_none(ts, kind_product());
        },
    }
}

/// Splicing flat terms gives flat terms, none of the spliced kind.
proof fn lemma_splice_flat(ts: Seq<Expr>, kind: nat)
    requires
        kind == kind_sum() || kind == kind_product(),
        forall|i: int| 0 <= i < ts.len() ==> is_flat(#[trigger] ts[i]),
    ensures
        forall|i: int|
            0 <= i < splice(ts, kind).len() ==> (#[trigger] splice(ts, kind)[i]).kind() != kind
                && is_flat(splice(ts, kind)[i]),
    decreases ts.len(),
{
    if ts.len() > 0 {
        lemma_splice_flat(ts.drop_last(), kind);
        let last = ts.last();
        assert(is_flat(last));
        let tail = if last.kind() == kind { last.children() } else { seq![last] };
        assert forall|i: int| 0 <= i < tail.len() implies (#[trigger] tail[i]).kind() != kind && is_flat(tail[i]) by {
            if last.kind() == kind {
                if kind == kind_sum() {
                    assert(last is Sum);
                } else {
                    assert(last is Product);
                }
            }
        }
        let head = splice(ts.drop_last(), kind);
        assert forall|i: int| 0 <= i < splice(ts, kind).len() implies (#[trigger] splice(ts, kind)[i]).kind() != kind
            && is_flat(splice(ts, kind)[i]) by {
            assert(splice(ts, kind) == head + tail);
            if i < head.len() {
                assert(splice(ts, kind)[i] == head[i]);
            } else {
                assert(splice(ts, kind)[i] == tail[i - head.len()]);
            }
        }
    }
}

/// Every flattened tree is flat.
pub proof fn lemma_flat_is_flat(e: Expr)
    ensures
        is_flat(flat(e)),
    decreases e,
{
    match e {
        Expr::Constant(_) => {},
        Expr::Negation(inner) => {
            lemma_flat_is_flat(*inner);
        },
        Expr::Sum(ts) => {
            let fs = flat_terms(ts);
            assert forall|i: int| 0 <= i < fs.len() implies is_flat(#[trigger] fs[i]) by {
                lemma_flat_terms_index(ts, i);
                lemma_flat_is_flat(ts[i]);
            }
            lemma_splice_flat(fs, kind_sum());
        },
        Expr::Product(ts) => {
            let fs = flat_terms(ts);
            assert forall|i: int| 0 <= i < fs.len() implies is_flat(#[trigger] fs[i]) by {
                lemma_flat_terms_index(ts, i);
                lemma_flat_is_flat(ts[i]);
            }
            lemma_splice_flat(fs, kind_product());
        },
    }
}

/// Flattening twice gives what flattening once gives.
pub proof fn lemma_flat_idempotent(e: Expr)
    ensures
        flat(flat(e)) == flat(e),
{
    lemma_flat_is_flat(e);
    lemma_flat_of_flat_tree(flat(e));
}

/// The kind number that a pass splices for a product (`true`) or a sum (`false`).
pub open spec fn kind_of(product: bool) -> nat {
    if product {
        kind_product()
    } else {
        kind_sum()
    }
}

fn has_kind_exec(e: &Expression, product: bool) -> (r: bool)
    ensures
        r == (e@.kind() == kind_of(product)),
{
    if product {
        e.is_product()
    } else {
        e.is_sum()
    }
}

fn any_of_kind(terms: &[Expression], product: bool) -> (r: bool)
    ensures
        r == has_kind(views(terms@), kind_of(product)),
{
    let mut i: usize = 0;
    while i < terms.len()
        invariant
            i <= terms@.len(),
            forall|t: int| 0 <= t < i ==> (#[trigger] views(terms@)[t]).kind() != kind_of(product),
        decreases terms@.len() - i,
    {
        if has_kind_exec(&terms[i], product) {
            assert(views(terms@)[i as int].kind() == kind_of(product));
            return true;
        }
        i = i + 1;
    }
    false
}

fn splice_terms(terms: &[Expression], product: bool) -> (r: (Vec<Expression>, Vec<Annotation>))
    ensures
        views(r.0@) == splice(views(terms@), kind_of(product)),
        target_ids(r.1@) == spliced_ids(views(terms@), kind_of(product)),
{
    let ghost ts = views(terms@);
    let ghost k = kind_of(product);
    let mut out: Vec<Expression> = Vec::new();
    let mut anns: Vec<Annotation> = Vec::new();
    let mut i: usize = 0;
    while i < terms.len()
        invariant
            i <= terms@.len(),
            ts == views(terms@),
            k == kind_of(product),
            views(out@) == splice(ts.subrange(0, i as int), k),
            target_ids(anns@) == spliced_ids(ts.subrange(0, i as int), k),
        decreases terms@.len() - i,
    {
        let t = &terms[i];
        proof {
            assert(ts.subrange(0, i + 1).drop_last() =~= ts.subrange(0, i as int));
            assert(ts.subrange(0, i + 1).last() == t@);
        }
        if has_kind_exec(t, product) {
            let cs = t.children();
            let ghost before = out@;
            let mut j: usize = 0;
            while j < cs.len()
                invariant
                    j <= cs@.len(),
                    views(out@) == views(before) + views(cs@).subrange(0, j as int),
                decreases cs@.len() - j,
            {
                let ghost prev = out@;
                out.push(cs[j].clone());
                assert(views(out@) =~= views(prev).push(views(cs@)[j as int]));
                assert(views(cs@).subrange(0, j + 1) =~= views(cs@).subrange(0, j as int).push(
                    views(cs@)[j as int],
                ));
                j = j + 1;
                assert(views(out@) =~= views(before) + views(cs@).subrange(0, j as int));
            }
            assert(views(cs@).subrange(0, j as int) =~= views(cs@));
            let ghost anns_before = anns@;
            anns.push(Annotation::new(t));
            assert(target_ids(anns@) =~= target_ids(anns_before) + seq![t@.id()]);
        } else {
            let ghost before = out@;
            out.push(t.clone());
            assert(views(out@) =~= views(before) + seq![t@]);
            assert(spliced_ids(ts.subrange(0, i + 1), k) =~= spliced_ids(ts.subrange(0, i as int), k) + Seq::<u64>::empty());
        }
        i = i + 1;
    }
    assert(ts.subrange(0, i as int) =~= ts);
    (out, anns)
}


/// `flatten_node` of a node rebuilt over its flattened children is the flattened node.
proof fn lemma_rebuild_value(src: Expr, vals: Seq<Expr>)
    requires
        vals.len() == src.children().len(),
        forall|j: int| 0 <= j < vals.len() ==> #[trigger] vals[j] == flat(src.children()[j]),
    ensures
        src.accepts_arity(vals.len()),
        flatten_node(src.rebuild(vals)) == flat(src),
{
    match src {
        Expr::Sum(ts) => {
            assert forall|j: int| 0 <= j < ts.len() implies vals[j] == flat_terms(ts)[j] by {
                lemma_flat_terms_index(ts, j);
            }
            assert(vals =~= flat_terms(ts));
        },
        Expr::Product(ts) => {
            assert forall|j: int| 0 <= j < ts.len() implies vals[j] == flat_terms(ts)[j] by {
                lemma_flat_terms_index(ts, j);
            }
            assert(vals =~= flat_terms(ts));
        },
        Expr::Negation(inner) => {
            assert(vals[0] == flat(*inner));
        },
        Expr::Constant(_) => {},
    }
}

/// Splices the terms of the visited node and records the step.
fn splice_and_record(
    ctx: &mut TraverserContext,
    node: &Expression,
    terms: &[Expression],
    product: bool,
    label: &str,
    steps: &mut Vec<Step>,
)
    requires
        old(ctx).inv(),
        old(ctx).position() < old(ctx).len(),
        node@ == (if product { Expr::Product(views(terms@)) } else { Expr::Sum(views(terms@)) }),
        has_kind(views(terms@), kind_of(product)),
    ensures
        final(ctx).inv(),
        final(ctx).source() == old(ctx).source(),
        final(ctx).len() == old(ctx).len(),
        final(ctx).position() == old(ctx).position(),
        final(ctx).value(old(ctx).position()) == flatten_node(node@),
        forall|i: int|
            old(ctx).position() < i < final(ctx).len() ==> #[trigger] final(ctx).value(i)
                == old(ctx).value(i),
        final(steps)@.len() == old(steps)@.len() + 1,
        forall|i: int| 0 <= i < old(steps)@.len() ==> #[trigger] final(steps)@[i] == old(steps)@[i],
        final(steps)@.last().result@ == final(ctx).tree(),
        final(steps)@.last().label matches Some(l) && l@ == label@,
        final(steps)@.last().annotated_expression is Some,
        final(steps)@.last().annotated_expression->Some_0.annotations@.len() > 0,
        final(steps)@.last().annotated_expression->Some_0.expression@ == old(ctx).tree(),
        final(steps)@.last().substeps@.len() == 0,
{
    proof {
        lemma_spliced_ids_nonempty(views(terms@), kind_of(product));
    }
    proof {
        ctx.lemma_structure();
    }
    let before = ctx.snapshot();
    let (spliced, annotations) = splice_terms(terms, product);
    let replacement = if product {
        Product::new(spliced).expr()
    } else {
        Sum::new(spliced).expr()
    };
    ctx.replace(replacement);
    let after = ctx.snapshot();
    let step = Step {
        label: Some(String::from_str(label)),
        annotated_expression: Some(AnnotatedExpression { expression: before, annotations }),
        substeps: Vec::new(),
        result: after,
    };
    steps.push(step);
}

/// Visits one node: a product with a product term, or a sum with a sum term, is
/// flattened and the change recorded; any other node is left as it is.
fn visit_node(
    ctx: &mut TraverserContext,
    node: &Expression,
    steps: &mut Vec<Step>,
    product_label: &str,
    sum_label: &str,
) -> (fired: bool)
    requires
        old(ctx).inv(),
        old(ctx).position() < old(ctx).len(),
        node@ == old(ctx).value(old(ctx).position()),
    ensures
        final(ctx).inv(),
        final(ctx).source() == old(ctx).source(),
        final(ctx).len() == old(ctx).len(),
        final(ctx).position() == old(ctx).position(),
        final(ctx).value(old(ctx).position()) == flatten_node(node@),
        forall|i: int|
            old(ctx).position() < i < final(ctx).len() ==> #[trigger] final(ctx).value(i)
                == old(ctx).value(i),
        !fired ==> *final(ctx) == *old(ctx) && final(steps)@ == old(steps)@ && flatten_node(node@) == node@,
        fired ==> !is_flat(node@),
        fired ==> final(steps)@.len() == old(steps)@.len() + 1,
        fired ==> forall|i: int| 0 <= i < old(steps)@.len() ==> #[trigger] final(steps)@[i] == old(steps)@[i],
        fired ==> final(steps)@.last().result@ == final(ctx).tree(),
        fired ==> final(steps)@.last().annotated_expression->Some_0.expression@ == old(ctx).tree(),
        fired ==> is_pass_step(final(steps)@.last(), product_label@, sum_label@),
{
    proof {
        ctx.lemma_structure();
    }
    match node {
        Expression::Product(p) => {
            let terms = p.terms();
            if any_of_kind(terms, true) {
                proof {
                    let ts = views(terms@);
                    let i = choose|i: int| 0 <= i < ts.len() && #[trigger] ts[i].kind() == kind_product();
                    assert(!(ts[i].kind() != kind_product() && is_flat(ts[i])));
                }
                splice_and_record(ctx, node, terms, true, product_label, steps);
                true
            } else {
                proof {
                    assert(node@ == Expr::Product(views(terms@)));
                    lemma_splice_none(views(terms@), kind_product());
                    assert(flatten_node(node@) == node@);
                }
                false
            }
        },
        Expression::Sum(s) => {
            let terms = s.terms();
            if any_of_kind(terms, false) {
                proof {
                    let ts = views(terms@);
                    let i = choose|i: int| 0 <= i < ts.len() && #[trigger] ts[i].kind() == kind_sum();
                    assert(!(ts[i].kind() != kind_sum() && is_flat(ts[i])));
                }
                splice_and_record(ctx, node, terms, false, sum_label, steps);
                true
            } else {
                proof {
                    lemma_splice_none(views(terms@), kind_sum());
                }
                false
            }
        },
        _ => false,
    }
}

/// What every step that a flattening pass records looks like.
pub open spec fn is_pass_step(s: Step, product_label: Seq<char>, sum_label: Seq<char>) -> bool {
    &&& s.label matches Some(l) && (l@ == product_label || l@ == sum_label)
    &&& s.annotated_expression is Some
    &&& s.annotated_expression->Some_0.annotations@.len() > 0
    &&& s.substeps@.len() == 0
}

proof fn lemma_sources_flat(ctx: &TraverserContext, c: int)
    requires
        ctx.inv(),
        is_flat(ctx.source()[0]),
        0 <= c < ctx.len(),
    ensures
        is_flat(ctx.source()[c]),
    decreases c,
{
    ctx.lemma_structure();
    if c > 0 {
        let (p, j) = choose|p: int, j: int|
            0 <= p < c && 0 <= j < ctx.source()[p].children().len() && ctx.source()[c]
                == #[trigger] ctx.source()[p].children()[j];
        lemma_sources_flat(ctx, p);
        let e = ctx.source()[p];
        match e {
            Expr::Sum(ts) => {
                assert(is_flat(ts[j]));
            },
            Expr::Product(ts) => {
                assert(is_flat(ts[j]));
            },
            _ => {},
        }
    }
}


/// The node that the engine hands out at the next entry flattens to the flattened
/// input subtree there, given that every visited entry holds its flattened subtree.
proof fn lemma_node_flattens(before: &TraverserContext, nothing_fired: bool, all_flat: bool)
    requires
        before.inv(),
        before.position() > 0,
        forall|i: int| before.position() <= i < before.len() ==> #[trigger] before.value(i) == flat(before.source()[i]),
        nothing_fired ==> forall|i: int| before.position() <= i < before.len() ==> #[trigger] before.value(i) == before.source()[i],
        all_flat ==> forall|c: int| 0 <= c < before.len() ==> is_flat(#[trigger] before.source()[c]),
        all_flat ==> nothing_fired,
    ensures
        ({
            let k = before.position() - 1;
            let src = before.source()[k];
            let node = src.rebuild(before.child_values(k));
            &&& flatten_node(node) == flat(src)
            &&& nothing_fired ==> node == src
            &&& all_flat ==> is_flat(node)
        }),
{
    before.lemma_structure();
    let k = before.position() - 1;
    let src = before.source()[k];
    let cs = src.children();
    let vals = before.child_values(k);
    assert forall|j: int| 0 <= j < cs.len() implies #[trigger] vals[j] == flat(cs[j]) by {
        let c = before.child_index(k, j);
        assert(before.value(c) == flat(before.source()[c]));
    }
    lemma_rebuild_value(src, vals);
    if nothing_fired {
        assert forall|j: int| 0 <= j < cs.len() implies #[trigger] vals[j] == cs[j] by {
            let c = before.child_index(k, j);
            assert(before.value(c) == before.source()[c]);
        }
        assert(vals =~= cs);
        lemma_rebuild_children(src);
    }
    if all_flat {
        assert(is_flat(before.source()[k]));
    }
}

/// The steps form a chain from `start`: the first one starts from `start`, and each
/// next one starts where the one before it ended.
pub open spec fn steps_chain(steps: Seq<Step>, start: Expr) -> bool {
    &&& steps.len() > 0 ==> steps[0].annotated_expression->Some_0.expression@ == start
    &&& forall|i: int|
        0 < i < steps.len() ==> #[trigger] steps[i].annotated_expression->Some_0.expression@
            == steps[i - 1].result@
}

/// What holds between the visits of a flattening pass over `root`: every visited entry
/// holds its flattened subtree; while nothing has fired, every visited entry holds its
/// input subtree; a flat input fires nothing; the last step recorded ends in the
/// tree as it stands.
pub open spec fn pass_inv(
    ctx: &TraverserContext,
    steps: Seq<Step>,
    root: Expr,
    product_label: Seq<char>,
    sum_label: Seq<char>,
) -> bool {
    &&& ctx.inv()
    &&& ctx.len() > 0
    &&& ctx.source()[0] == root
    &&& is_flat(root) ==> forall|c: int| 0 <= c < ctx.len() ==> is_flat(#[trigger] ctx.source()[c])
    &&& forall|i: int| ctx.position() <= i < ctx.len() ==> #[trigger] ctx.value(i) == flat(ctx.source()[i])
    &&& steps.len() == 0 ==> forall|i: int| ctx.position() <= i < ctx.len() ==> #[trigger] ctx.value(i) == ctx.source()[i]
    &&& is_flat(root) ==> steps.len() == 0
    &&& steps.len() > 0 ==> steps.last().result@ == ctx.tree()
    &&& forall|i: int| 0 <= i < steps.len() ==> is_pass_step(#[trigger] steps[i], product_label, sum_label)
    &&& steps_chain(steps, root)
}

/// The flattening pass as a visitor over the tree `root`; its state is the list of
/// steps recorded so far.
pub struct FlattenVisitor<'a> {
    pub root: Ghost<Expr>,
    pub product_label: &'a str,
    pub sum_label: &'a str,
}

impl<'a> Visitor for FlattenVisitor<'a> {
    type State = Vec<Step>;

    open spec fn holds(&self, steps: &Vec<Step>, ctx: &TraverserContext) -> bool {
        pass_inv(ctx, steps@, self.root@, self.product_label@, self.sum_label@)
    }

    fn visit(
        &self,
        steps: &mut Vec<Step>,
        ctx: &mut TraverserContext,
        node: &Expression,
        before: Ghost<TraverserContext>,
    ) {
        let ghost before = before@;
        let ghost old_steps = steps@;
        let ghost k = ctx.position();
        let ghost mid = *ctx;
        proof {
            before.lemma_structure();
            ctx.lemma_structure();
            lemma_node_flattens(&before, steps@.len() == 0, is_flat(self.root@));
        }
        let fired = visit_node(ctx, node, steps, self.product_label, self.sum_label);
        proof {
            assert(ctx.value(k) == flat(ctx.source()[k]));
            assert forall|i: int| ctx.position() <= i < ctx.len() implies #[trigger] ctx.value(i) == flat(ctx.source()[i]) by {
                if i > k {
                    assert(ctx.value(i) == mid.value(i));
                    assert(mid.value(i) == before.value(i));
                }
            }
            if steps@.len() == 0 {
                assert(!fired);
                assert forall|i: int| ctx.position() <= i < ctx.len() implies #[trigger] ctx.value(i) == ctx.source()[i] by {
                    if i > k {
                        assert(mid.value(i) == before.value(i));
                    }
                }
            }
            if is_flat(self.root@) {
                assert(!fired);
            }
            if !fired && steps@.len() > 0 {
                assert(mid.tree() == before.tree());
            }
            assert forall|i: int| 0 <= i < steps@.len() implies is_pass_step(#[trigger] steps@[i], self.product_label@, self.sum_label@) by {
                if fired && i < old_steps.len() {
                    assert(steps@[i] == old_steps[i]);
                }
            }
            if fired {
                if old_steps.len() == 0 {
                    before.lemma_unchanged_tree();
                }
                assert forall|i: int| 0 < i < steps@.len() implies #[trigger] steps@[i].annotated_expression->Some_0.expression@
                    == steps@[i - 1].result@ by {
                    if i < old_steps.len() {
                        assert(steps@[i] == old_steps[i]);
                        assert(steps@[i - 1] == old_steps[i - 1]);
                    } else {
                        assert(steps@[i - 1] == old_steps[i - 1]);
                    }
                }
                if old_steps.len() > 0 {
                    assert(steps@[0] == old_steps[0]);
                }
            }
        }
    }
}

/// Runs the flattening pass over `expr`: every sum term of a sum and every product
/// term of a product is spliced into its parent, bottom-up, in one traversal. Each
/// splice is recorded as a step labelled `product_label` or `sum_label`, with the whole
/// tree before it (the spliced terms annotated) and after it. The steps are gathered
/// under one step labelled `outer`, whose result is the flattened tree.
pub fn flatten_pass(expr: &Expression, outer: &str, product_label: &str, sum_label: &str) -> (r: Step)
    ensures
        r.result@ == flat(expr@),
        r.label matches Some(l) && l@ == outer@,
        r.annotated_expression is None,
        is_flat(expr@) ==> r.substeps@.len() == 0,
        r.substeps@.len() == 0 ==> r.result@ == expr@,
        r.substeps@.len() > 0 ==> r.substeps@.last().result@ == r.result@,
        steps_chain(r.substeps@, expr@),
        forall|i: int|
            0 <= i < r.substeps@.len() ==> is_pass_step(#[trigger] r.substeps@[i], product_label@, sum_label@),
{
    let mut ctx = TraverserContext::new(expr);
    let visitor = FlattenVisitor { root: Ghost(expr@), product_label, sum_label };
    let mut steps: Vec<Step> = Vec::new();
    proof {
        ctx.lemma_structure();
        if is_flat(expr@) {
            assert forall|c: int| 0 <= c < ctx.len() implies is_flat(#[trigger] ctx.source()[c]) by {
                lemma_sources_flat(&ctx, c);
            }
        }
        assert forall|i: int| ctx.position() <= i < ctx.len() implies #[trigger] ctx.value(i) == flat(ctx.source()[i]) by {}
    }
    traverse(&mut ctx, &visitor, &mut steps);
    proof {
        ctx.lemma_structure();
    }
    let result = ctx.finish();
    let label = String::from_str(outer);
    Step { label: Some(label), annotated_expression: None, substeps: steps, result }
}

/// Removes excess parentheses: flattens `expr` and explains each splice.
pub fn simplify_excess_parens(expr: &Expression) -> (r: Step)
    ensures
        r.result@ == flat(expr@),
        r.label matches Some(l) && l@ == "Simplify excess parentheses"@,
        r.annotated_expression is None,
        is_flat(expr@) ==> r.substeps@.len() == 0 && r.result@ == expr@,
        r.substeps@.len() == 0 ==> r.result@ == expr@,
        r.substeps@.len() > 0 ==> r.substeps@.last().result@ == r.result@,
        steps_chain(r.substeps@, expr@),
        forall|i: int|
            0 <= i < r.substeps@.len() ==> is_pass_step(
                #[trigger] r.substeps@[i],
                "Remove excess parentheses around product"@,
                "Remove excess parentheses around sum"@,
            ),
{
    flatten_pass(
        expr,
        "Simplify excess parentheses",
        "Remove excess parentheses around product",
        "Remove excess parentheses around sum",
    )
}

/// Removes unused parentheses: the flattened expression.
pub fn simplify_unused_parens(expr: &Expression) -> (r: Expression)
    ensures
        r@ == flat(expr@),
        is_flat(expr@) ==> r@ == expr@,
{
    let step = flatten_pass(
        expr,
        "Simplify unused parentheses",
        "Remove extra parens around product",
        "Remove extra parens around sum",
    );
    step.result
}

} // verus!
