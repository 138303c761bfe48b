//! The expression tree: a ghost model (`Expr`) and the executable, reference-counted
//! nodes (`Expression`, `Constant`, `Sum`, `Product`, `Negation`).
//!
//! Every node stores a content-addressed identity, derived from its kind and its
//! children's identities (or the characters of a constant's name). Each node type
//! carries that fact as its type invariant, so `id()` is exact for every value.
use std::rc::Rc;
use vstd::prelude::*;

use crate::symbols::{
    canonical_name, has_backslash_prefix, is_known_latex, latex_to_unicode, starts_with_backslash,
    unicode_to_latex,
};

verus! {

pub const PRECEDENCE_SUM: u64 = 1;
pub const PRECEDENCE_NEGATION: u64 = 2;
pub const PRECEDENCE_PRODUCT: u64 = 3;
pub const PRECEDENCE_CONSTANT: u64 = 4;

pub const CONSTANT_SEED: u64 = 0xcbf2_9ce4_8422_2325;
pub const SUM_SEED: u64 = 0x9e37_79b9_7f4a_7c15;
pub const PRODUCT_SEED: u64 = 0xc2b2_ae3d_27d4_eb4f;
pub const NEGATION_SEED: u64 = 0x1656_67b1_9e37_79f9;
pub const ID_PRIME: u64 = 0x0000_0100_0000_01b3;

/// One round of the identity hash: xor the word in, then multiply by an odd prime
/// modulo 2^64.
pub open spec fn mix(h: u64, w: u64) -> u64 {
    (((h ^ w) as nat * ID_PRIME as nat) % 0x1_0000_0000_0000_0000nat) as u64
}

/// The identity hash of a sequence of words, folded from the left.
pub open spec fn mix_all(h: u64, ws: Seq<u64>) -> u64
    decreases ws.len(),
{
    if ws.len() == 0 {
        h
    } else {
        mix(mix_all(h, ws.drop_last()), ws.last())
    }
}

pub open spec fn char_words(s: Seq<char>) -> Seq<u64> {
    s.map_values(|c: char| c as u32 as u64)
}

/// The mathematical model of an expression tree.
pub enum Expr {
    Constant(Seq<char>),
    Sum(Seq<Expr>),
    Product(Seq<Expr>),
    Negation(Box<Expr>),
}

impl Expr {
    /// Binding strength: `Sum < Negation < Product < Constant`.
    pub open spec fn precedence(self) -> u64 {
        match self {
            Expr::Sum(_) => PRECEDENCE_SUM,
            Expr::Negation(_) => PRECEDENCE_NEGATION,
            Expr::Product(_) => PRECEDENCE_PRODUCT,
            Expr::Constant(_) => PRECEDENCE_CONSTANT,
        }
    }

    pub open spec fn children(self) -> Seq<Expr> {
        match self {
            Expr::Constant(_) => Seq::empty(),
            Expr::Sum(ts) => ts,
            Expr::Product(ts) => ts,
            Expr::Negation(inner) => seq![*inner],
        }
    }

    /// Whether a node of this kind can hold `n` children.
    pub open spec fn accepts_arity(self, n: nat) -> bool {
        match self {
            Expr::Constant(_) => n == 0,
            Expr::Negation(_) => n == 1,
            _ => true,
        }
    }

    /// A node of the same kind as `self` with the children `cs`.
    pub open spec fn rebuild(self, cs: Seq<Expr>) -> Expr {
        match self {
            Expr::Constant(_) => self,
            Expr::Sum(_) => Expr::Sum(cs),
            Expr::Product(_) => Expr::Product(cs),
            Expr::Negation(_) => Expr::Negation(Box::new(cs[0])),
        }
    }

    pub open spec fn is_constant(self) -> bool {
        self is Constant
    }

    /// The kind of a node, as a number (constant, sum, product, negation).
    pub open spec fn kind(self) -> nat {
        match self {
            Expr::Constant(_) => 0,
            Expr::Sum(_) => 1,
            Expr::Product(_) => 2,
            Expr::Negation(_) => 3,
        }
    }

    /// The content-addressed identity: a hash of the kind and the children's
    /// identities, or of the characters of a constant's name.
    pub open spec fn id(self) -> u64
        decreases self,
    {
        match self {
            Expr::Constant(name) => mix_all(CONSTANT_SEED, char_words(name)),
            Expr::Sum(ts) => terms_id(SUM_SEED, ts),
            Expr::Product(ts) => terms_id(PRODUCT_SEED, ts),
            Expr::Negation(inner) => mix(NEGATION_SEED, inner.id()),
        }
    }
}

/// The identity hash of a sequence of terms, folded from the left over their
/// identities.
pub open spec fn terms_id(h: u64, ts: Seq<Expr>) -> u64
    decreases ts,
{
    if ts.len() == 0 {
        h
    } else {
        mix(terms_id(h, ts.drop_last()), ts.last().id())
    }
}

pub proof fn lemma_rebuild_children(e: Expr)
    ensures
        e.rebuild(e.children()) == e,
        e.accepts_arity(e.children().len()),
{
}

pub proof fn lemma_rebuild_kind(e: Expr, cs: Seq<Expr>)
    requires
        e.accepts_arity(cs.len()),
    ensures
        e.rebuild(cs).kind() == e.kind(),
        e.rebuild(cs).precedence() == e.precedence(),
        !e.is_constant() ==> e.rebuild(cs).children() == cs,
        e.rebuild(cs).accepts_arity(cs.len()),
{
    if let Expr::Negation(_) = e {
        assert(seq![cs[0]] =~= cs);
    }
}

/// Identity is a function of structure: two expressions with the same model, however
/// they were built, have the same identity (`Expression::id` returns the model's).
pub proof fn lemma_id_structural(a: Expr, b: Expr)
    requires
        a == b,
    ensures
        a.id() == b.id(),
{
}

fn mix_exec(h: u64, w: u64) -> (r: u64)
    ensures
        r == mix(h, w),
{
    (h ^ w).wrapping_mul(ID_PRIME)
}

/// Error returned when a constant is given a backslash name that has no known symbol.
#[derive(Debug)]
pub struct UnknownSymbolError {
    pub name: String,
}

/// An atomic symbol. Its name is stored in LaTeX form where one is known.
pub struct Constant {
    name: String,
    id: u64,
}

/// An n-ary sum; the order of the terms is kept for display.
pub struct Sum {
    terms: Vec<Expression>,
    id: u64,
}

/// An n-ary product.
pub struct Product {
    terms: Vec<Expression>,
    id: u64,
}

/// A sign flip.
pub struct Negation {
    inner: Expression,
    id: u64,
}

/// An immutable expression tree node; children are shared through `Rc`.
pub enum Expression {
    Constant(Rc<Constant>),
    Product(Rc<Product>),
    Sum(Rc<Sum>),
    Negation(Rc<Negation>),
}

impl View for Expression {
    type V = Expr;

    closed spec fn view(&self) -> Expr
        decreases self,
    {
        match self {
            Expression::Constant(c) => Expr::Constant(c.name@),
            Expression::Sum(s) => Expr::Sum(
                Seq::new(
                    s.terms@.len(),
                    |i: int|
                        if 0 <= i < s.terms@.len() {
                            s.terms@[i].view()
                        } else {
                            Expr::Constant(Seq::empty())
                        },
                ),
            ),
            Expression::Product(p) => Expr::Product(
                Seq::new(
                    p.terms@.len(),
                    |i: int|
                        if 0 <= i < p.terms@.len() {
                            p.terms@[i].view()
                        } else {
                            Expr::Constant(Seq::empty())
                        },
                ),
            ),
            Expression::Negation(n) => Expr::Negation(Box::new(n.inner.view())),
        }
    }
}

/// The models of a sequence of expressions.
pub open spec fn views(s: Seq<Expression>) -> Seq<Expr> {
    Seq::new(s.len(), |i: int| s[i]@)
}

impl View for Constant {
    type V = Expr;

    closed spec fn view(&self) -> Expr {
        Expr::Constant(self.name@)
    }
}

impl View for Sum {
    type V = Expr;

    closed spec fn view(&self) -> Expr {
        Expr::Sum(views(self.terms@))
    }
}

impl View for Product {
    type V = Expr;

    closed spec fn view(&self) -> Expr {
        Expr::Product(views(self.terms@))
    }
}

impl View for Negation {
    type V = Expr;

    closed spec fn view(&self) -> Expr {
        Expr::Negation(Box::new(self.inner@))
    }
}

/// How the model of an expression follows from the model of its node.
pub broadcast proof fn lemma_view_node(e: Expression)
    ensures
        #[trigger] e@ == match e {
            Expression::Constant(c) => (*c)@,
            Expression::Sum(s) => (*s)@,
            Expression::Product(p) => (*p)@,
            Expression::Negation(n) => (*n)@,
        },
        (e is Constant <==> e@ is Constant) && (e is Sum <==> e@ is Sum) && (e is Product
            <==> e@ is Product) && (e is Negation <==> e@ is Negation),
{
    match e {
        Expression::Sum(s) => {
            assert(e@->Sum_0 =~= views(s.terms@));
        },
        Expression::Product(p) => {
            assert(e@->Product_0 =~= views(p.terms@));
        },
        _ => {},
    }
}

impl Clone for Expression {
    fn clone(&self) -> (r: Self)
        ensures
            r == *self,
    {
        match self {
            Expression::Constant(c) => Expression::Constant(Rc::clone(c)),
            Expression::Product(p) => Expression::Product(Rc::clone(p)),
            Expression::Sum(s) => Expression::Sum(Rc::clone(s)),
            Expression::Negation(n) => Expression::Negation(Rc::clone(n)),
        }
    }
}

fn clone_all(v: &[Expression]) -> (r: Vec<Expression>)
    ensures
        r@ == v@,
{
    let mut r: Vec<Expression> = Vec::new();
    let mut i: usize = 0;
    while i < v.len()
        invariant
            i <= v@.len(),
            r@ == v@.subrange(0, i as int),
        decreases v@.len() - i,
    {
        r.push(v[i].clone());
        i = i + 1;
        assert(r@ =~= v@.subrange(0, i as int));
    }
    assert(r@ =~= v@);
    r
}

/// The identity hash of the given terms' identities, started from `seed`.
fn hash_terms(seed: u64, terms: &Vec<Expression>) -> (r: u64)
    ensures
        r == terms_id(seed, views(terms@)),
{
    let mut h = seed;
    let mut i: usize = 0;
    while i < terms.len()
        invariant
            i <= terms@.len(),
            h == terms_id(seed, views(terms@).subrange(0, i as int)),
        decreases terms@.len() - i,
    {
        let w = terms[i].id();
        proof {
            let ts = views(terms@);
            assert(ts.subrange(0, i + 1).drop_last() =~= ts.subrange(0, i as int));
        }
        h = mix_exec(h, w);
        i = i + 1;
    }
    assert(views(terms@).subrange(0, i as int) =~= views(terms@));
    h
}

impl Constant {

    /// This constant as an expression (the name is copied).
    pub fn expr(&self) -> (r: Expression)
        ensures
            r@ == self@,
    {
        proof {
            use_type_invariant(self);
        }
        let c = Constant { name: self.name.clone(), id: self.id };
        let r = Expression::Constant(Rc::new(c));
        proof {
            lemma_view_node(r);
        }
        r
    }
    #[verifier::type_invariant]
    spec fn wf(&self) -> bool {
        self.id == Expr::Constant(self.name@).id()
    }

    /// A constant named `name`. A name that starts with a backslash must be a known
    /// LaTeX symbol; a known Unicode symbol is stored in its LaTeX form.
    pub fn new(name: &str) -> (r: Result<Constant, UnknownSymbolError>)
        ensures
            r is Ok <==> !(starts_with_backslash(name@) && !is_known_latex(name@)),
            r matches Ok(c) ==> c@ == Expr::Constant(canonical_name(name@)),
            r matches Err(e) ==> e.name@ == name@,
    {
        if has_backslash_prefix(name) && latex_to_unicode(name).is_none() {
            return Err(UnknownSymbolError { name: name.to_owned() });
        }
        let stored = unicode_to_latex(name).to_owned();
        let mut h = CONSTANT_SEED;
        let n = stored.as_str().unicode_len();
        let mut i: usize = 0;
        while i < n
            invariant
                n == stored@.len(),
                i <= n,
                h == mix_all(CONSTANT_SEED, char_words(stored@).subrange(0, i as int)),
            decreases n - i,
        {
            let c = stored.as_str().get_char(i);
            proof {
                let ws = char_words(stored@);
                assert(ws.subrange(0, i + 1).drop_last() =~= ws.subrange(0, i as int));
            }
            h = mix_exec(h, c as u32 as u64);
            i = i + 1;
        }
        assert(char_words(stored@).subrange(0, i as int) =~= char_words(stored@));
        Ok(Constant { name: stored, id: h })
    }

    /// The stored (LaTeX-style) name.
    pub fn name(&self) -> (r: &str)
        ensures
            self@ == Expr::Constant(r@),
    {
        self.name.as_str()
    }

    pub fn id(&self) -> (r: u64)
        ensures
            r == self@.id(),
    {
        proof {
            use_type_invariant(self);
        }
        self.id
    }
}

impl Sum {

    /// This node as an expression.
    pub fn expr(self) -> (r: Expression)
        ensures
            r@ == self@,
    {
        let r = Expression::Sum(Rc::new(self));
        proof {
            lemma_view_node(r);
        }
        r
    }
    #[verifier::type_invariant]
    spec fn wf(&self) -> bool {
        self.id == Expr::Sum(views(self.terms@)).id()
    }

    pub fn new(terms: Vec<Expression>) -> (r: Sum)
        ensures
            r@ == Expr::Sum(views(terms@)),
    {
        let id = hash_terms(SUM_SEED, &terms);
        Sum { terms, id }
    }

    pub fn terms(&self) -> (r: &[Expression])
        ensures
            self@ == Expr::Sum(views(r@)),
    {
        self.terms.as_slice()
    }

    pub fn id(&self) -> (r: u64)
        ensures
            r == self@.id(),
    {
        proof {
            use_type_invariant(self);
        }
        self.id
    }
}

impl Product {

    /// This node as an expression.
    pub fn expr(self) -> (r: Expression)
        ensures
            r@ == self@,
    {
        let r = Expression::Product(Rc::new(self));
        proof {
            lemma_view_node(r);
        }
        r
    }
    #[verifier::type_invariant]
    spec fn wf(&self) -> bool {
        self.id == Expr::Product(views(self.terms@)).id()
    }

    pub fn new(terms: Vec<Expression>) -> (r: Product)
        ensures
            r@ == Expr::Product(views(terms@)),
    {
        let id = hash_terms(PRODUCT_SEED, &terms);
        Product { terms, id }
    }

    pub fn terms(&self) -> (r: &[Expression])
        ensures
            self@ == Expr::Product(views(r@)),
    {
        self.terms.as_slice()
    }

    pub fn id(&self) -> (r: u64)
        ensures
            r == self@.id(),
    {
        proof {
            use_type_invariant(self);
        }
        self.id
    }
}

impl Negation {

    /// This node as an expression.
    pub fn expr(self) -> (r: Expression)
        ensures
            r@ == self@,
    {
        let r = Expression::Negation(Rc::new(self));
        proof {
            lemma_view_node(r);
        }
        r
    }
    #[verifier::type_invariant]
    spec fn wf(&self) -> bool {
        self.id == Expr::Negation(Box::new(self.inner@)).id()
    }

    pub fn new(inner: Expression) -> (r: Negation)
        ensures
            r@ == Expr::Negation(Box::new(inner@)),
    {
        let w = inner.id();
        let id = mix_exec(NEGATION_SEED, w);
        Negation { inner, id }
    }

    pub fn inner(&self) -> (r: &Expression)
        ensures
            self@ == Expr::Negation(Box::new(r@)),
    {
        &self.inner
    }

    pub fn id(&self) -> (r: u64)
        ensures
            r == self@.id(),
    {
        proof {
            use_type_invariant(self);
        }
        self.id
    }
}

impl Expression {
    pub fn precedence(&self) -> (r: u64)
        ensures
            r == self@.precedence(),
    {
        proof {
            lemma_view_node(*self);
        }
        match self {
            Expression::Sum(_) => PRECEDENCE_SUM,
            Expression::Product(_) => PRECEDENCE_PRODUCT,
            Expression::Negation(_) => PRECEDENCE_NEGATION,
            Expression::Constant(_) => PRECEDENCE_CONSTANT,
        }
    }

    pub fn id(&self) -> (r: u64)
        ensures
            r == self@.id(),
    {
        proof {
            lemma_view_node(*self);
        }
        match self {
            Expression::Sum(s) => s.id(),
            Expression::Product(p) => p.id(),
            Expression::Negation(n) => n.id(),
            Expression::Constant(c) => c.id(),
        }
    }

    /// The direct children, in order (shared, not copied).
    pub fn children(&self) -> (r: Vec<Expression>)
        ensures
            views(r@) == self@.children(),
    {
        proof {
            lemma_view_node(*self);
        }
        match self {
            Expression::Constant(_) => {
                let r: Vec<Expression> = Vec::new();
                assert(views(r@) =~= self@.children());
                r
            },
            Expression::Sum(s) => clone_all(s.terms()),
            Expression::Product(p) => clone_all(p.terms()),
            Expression::Negation(n) => {
                let mut r: Vec<Expression> = Vec::new();
                r.push(n.inner().clone());
                assert(views(r@) =~= self@.children());
                r
            },
        }
    }

    /// A node of the same kind as `self` with the given children. A constant is
    /// returned as it is; a sum or product takes the children as its terms.
    pub fn rebuild(&self, children: Vec<Expression>) -> (r: Expression)
        requires
            self@.accepts_arity(children@.len()),
        ensures
            r@ == self@.rebuild(views(children@)),
    {
        proof {
            lemma_view_node(*self);
        }
        match self {
            Expression::Constant(c) => Expression::Constant(Rc::clone(c)),
            Expression::Sum(_) => {
                let s = Sum::new(children);
                let r = Expression::Sum(Rc::new(s));
                proof {
                    lemma_view_node(r);
                }
                r
            },
            Expression::Product(_) => {
                let p = Product::new(children);
                let r = Expression::Product(Rc::new(p));
                proof {
                    lemma_view_node(r);
                }
                r
            },
            Expression::Negation(_) => {
                let mut children = children;
                let inner = children.swap_remove(0);
                let n = Negation::new(inner);
                let r = Expression::Negation(Rc::new(n));
                proof {
                    lemma_view_node(r);
                }
                r
            },
        }
    }

    pub fn is_product(&self) -> (r: bool)
        ensures
            r == self@ is Product,
    {
        proof {
            lemma_view_node(*self);
        }
        matches!(self, Expression::Product(_))
    }

    pub fn is_sum(&self) -> (r: bool)
        ensures
            r == self@ is Sum,
    {
        proof {
            lemma_view_node(*self);
        }
        matches!(self, Expression::Sum(_))
    }
}

} // verus!
