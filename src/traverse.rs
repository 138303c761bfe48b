//! The rewrite engine: a tree is laid out as a queue in depth-first discovery order,
//! then visited from the last entry to the first, so that every node is visited after
//! all of its children. A visitor may replace the visited node; its ancestors are then
//! marked dirty and rebuilt, once, when they are reached.
use vstd::prelude::*;

use crate::expression::{lemma_rebuild_children, lemma_rebuild_kind, views, Expr, Expression};

verus! {

/// The parent index of the root entry, and the mark of a child slot not yet filled.
pub const NO_PARENT: usize = usize::MAX;

struct StackItem {
    expr: Expression,
    parent_index: usize,
    slot: usize,
}


spec fn slot_at(slots: Seq<usize>, firsts: Seq<usize>, i: int, j: int) -> int {
    slots[firsts[i] + j] as int
}

/// The number of nodes of a tree.
pub open spec fn size(e: Expr) -> nat
    decreases e,
{
    match e {
        Expr::Constant(_) => 1,
        Expr::Sum(ts) => 1 + sizes(ts),
        Expr::Product(ts) => 1 + sizes(ts),
        Expr::Negation(inner) => 1 + size(*inner),
    }
}

pub open spec fn sizes(ts: Seq<Expr>) -> nat
    decreases ts,
{
    if ts.len() == 0 {
        0
    } else {
        sizes(ts.drop_last()) + size(ts.last())
    }
}

proof fn lemma_size_children(e: Expr)
    ensures
        size(e) == 1 + sizes(e.children()),
{
    reveal_with_fuel(sizes, 2);
    if let Expr::Negation(inner) = e {
        assert(seq![*inner].drop_last() =~= Seq::<Expr>::empty());
    }
}

spec fn stack_size(s: Seq<StackItem>) -> nat
    decreases s.len(),
{
    if s.len() == 0 {
        0
    } else {
        stack_size(s.drop_last()) + size(s.last().expr@)
    }
}

fn push_unfilled(slots: &mut Vec<usize>, m: usize)
    ensures
        final(slots)@ == old(slots)@ + Seq::new(m as nat, |k: int| NO_PARENT),
{
    let ghost start = slots@;
    let mut t: usize = 0;
    while t < m
        invariant
            t <= m,
            slots@ == start + Seq::new(t as nat, |k: int| NO_PARENT),
        decreases m - t,
    {
        slots.push(NO_PARENT);
        t = t + 1;
        assert(slots@ =~= start + Seq::new(t as nat, |k: int| NO_PARENT));
    }
}

fn push_children(stack: &mut Vec<StackItem>, kids: &Vec<Expression>, parent: usize)
    ensures
        final(stack)@.len() == old(stack)@.len() + kids@.len(),
        forall|k: int| 0 <= k < old(stack)@.len() ==> #[trigger] final(stack)@[k] == old(stack)@[k],
        forall|j: int|
            0 <= j < kids@.len() ==> {
                let s = #[trigger] final(stack)@[old(stack)@.len() + j];
                &&& s.parent_index == parent
                &&& s.slot == j
                &&& s.expr == kids@[j]
            },
        stack_size(final(stack)@) == stack_size(old(stack)@) + sizes(views(kids@)),
{
    let ghost start = stack@;
    let mut j: usize = 0;
    while j < kids.len()
        invariant
            j <= kids@.len(),
            stack@.len() == start.len() + j,
            forall|k: int| 0 <= k < start.len() ==> #[trigger] stack@[k] == start[k],
            forall|t: int|
                0 <= t < j ==> {
                    let s = #[trigger] stack@[start.len() + t];
                    &&& s.parent_index == parent
                    &&& s.slot == t
                    &&& s.expr == kids@[t]
                },
            stack_size(stack@) == stack_size(start) + sizes(views(kids@).subrange(0, j as int)),
        decreases kids@.len() - j,
    {
        let ghost before = stack@;
        stack.push(StackItem { expr: kids[j].clone(), parent_index: parent, slot: j });
        proof {
            assert(stack@.drop_last() == before);
            assert(views(kids@).subrange(0, j + 1).drop_last() =~= views(kids@).subrange(0, j as int));
        }
        j = j + 1;
    }
    assert(views(kids@).subrange(0, j as int) =~= views(kids@));
}

/// The state of one traversal. Entry `i` of the queue holds a node (`exprs[i]`), a dirty
/// flag, the index of its parent, and a block of `child_counts[i]` slots in
/// `child_slots`, starting at `first_child[i]`, that give its children's entries in
/// term order.
pub struct TraverserContext {
    exprs: Vec<Expression>,
    dirty: Vec<bool>,
    parents: Vec<usize>,
    first_child: Vec<usize>,
    child_counts: Vec<usize>,
    child_slots: Vec<usize>,
    pos: usize,
    source: Ghost<Seq<Expr>>,
    slot_in_parent: Ghost<Seq<int>>,
    rebuilds: Ghost<Seq<nat>>,
}

impl TraverserContext {
    /// The number of entries.
    pub closed spec fn len(&self) -> int {
        self.exprs@.len() as int
    }

    /// The input subtree at each entry.
    pub closed spec fn source(&self) -> Seq<Expr> {
        self.source@
    }

    /// The entry being visited; entries at this index and above have been visited.
    pub closed spec fn position(&self) -> int {
        self.pos as int
    }

    /// How often the engine's bottom-up pass has rebuilt entry `i`.
    pub closed spec fn rebuild_count(&self, i: int) -> nat {
        self.rebuilds@[i]
    }

    /// The queue index of the `j`-th child of entry `i`.
    pub closed spec fn child_index(&self, i: int, j: int) -> int {
        self.child_slots@[self.first_child@[i] + j] as int
    }

    spec fn arity(&self, i: int) -> nat {
        self.source@[i].children().len()
    }

    /// The current value of the subtree at entry `i`: a visited entry holds its
    /// final node; an entry not yet visited is its input node over the current
    /// values of its children.
    pub closed spec fn value(&self, i: int) -> Expr
        decreases self.len() - i, 1nat,
    {
        if i < 0 || i >= self.exprs@.len() {
            Expr::Constant(Seq::empty())
        } else if i >= self.pos {
            self.exprs@[i]@
        } else {
            self.source@[i].rebuild(self.kid_values(i))
        }
    }

    spec fn kid_values(&self, i: int) -> Seq<Expr>
        decreases self.len() - i, 0nat,
    {
        Seq::new(
            self.arity(i),
            |j: int|
                if i < self.child_index(i, j) < self.exprs@.len() {
                    self.value(self.child_index(i, j))
                } else {
                    Expr::Constant(Seq::empty())
                },
        )
    }

    /// The current values of the children of entry `i`, in term order.
    pub open spec fn child_values(&self, i: int) -> Seq<Expr> {
        Seq::new(self.source()[i].children().len(), |j: int| self.value(self.child_index(i, j)))
    }

    /// The whole tree as it stands: visited subtrees hold their replacements.
    pub closed spec fn tree(&self) -> Expr {
        self.value(0)
    }

    /// `a` is `p` or one of its ancestors.
    spec fn is_anc(&self, a: int, p: int) -> bool
        decreases p,
    {
        if p == a {
            true
        } else if p <= a || p <= 0 || p >= self.parents@.len() || self.parents@[p] as int >= p {
            false
        } else {
            self.is_anc(a, self.parents@[p] as int)
        }
    }

    spec fn shape_inv(&self) -> bool {
        let n = self.exprs@.len();
        &&& n > 0
        &&& self.dirty@.len() == n
        &&& self.parents@.len() == n
        &&& self.first_child@.len() == n
        &&& self.child_counts@.len() == n
        &&& self.source@.len() == n
        &&& self.slot_in_parent@.len() == n
        &&& self.rebuilds@.len() == n
        &&& self.pos <= n
        &&& self.child_slots@.len() <= usize::MAX
        &&& self.parents@[0] == NO_PARENT
        &&& forall|i: int| 0 <= i < n ==> #[trigger] self.child_counts@[i] == self.arity(i)
        &&& forall|i: int|
            0 <= i < n ==> #[trigger] self.first_child@[i] + self.arity(i)
                <= self.child_slots@.len()
        &&& forall|i: int, j: int|
            0 <= i < n && 0 <= j < self.arity(i) ==> {
                let c = #[trigger] self.child_index(i, j);
                &&& i < c < n
                &&& self.parents@[c] == i
                &&& self.slot_in_parent@[c] == j
                &&& self.source@[c] == self.source@[i].children()[j]
            }
        &&& forall|c: int|
            0 < c < n ==> {
                let p = #[trigger] self.parents@[c] as int;
                &&& p < c
                &&& 0 <= self.slot_in_parent@[c] < self.arity(p)
                &&& self.child_index(p, self.slot_in_parent@[c]) == c
            }
    }

    /// The invariant of the traversal.
    pub closed spec fn inv(&self) -> bool {
        let n = self.exprs@.len();
        &&& self.shape_inv()
        &&& forall|i: int| 0 <= i < n && !self.dirty@[i] ==> #[trigger] self.exprs@[i]@ == self.value(i)
        &&& forall|i: int|
            0 <= i < n && #[trigger] self.dirty@[i] ==> {
                &&& i < self.pos
                &&& !self.source@[i].is_constant()
                &&& self.exprs@[i]@.kind() == self.source@[i].kind()
                &&& (i > 0 ==> self.dirty@[self.parents@[i] as int])
            }
        &&& forall|i: int| 0 <= i < n ==> #[trigger] self.rebuilds@[i] <= 1
        &&& forall|i: int| 0 <= i < self.pos ==> #[trigger] self.rebuilds@[i] == 0
    }

    spec fn same_shape(&self, other: &Self) -> bool {
        &&& self.exprs@.len() == other.exprs@.len()
        &&& self.parents@ == other.parents@
        &&& self.first_child@ == other.first_child@
        &&& self.child_counts@ == other.child_counts@
        &&& self.child_slots@ == other.child_slots@
        &&& self.source@ == other.source@
        &&& self.slot_in_parent@ == other.slot_in_parent@
    }

    /// What a visitor may rely on: each child entry holds the matching child of the
    /// input node, at a later index.
    pub proof fn lemma_structure(&self)
        requires
            self.inv(),
        ensures
            self.len() == self.source().len(),
            self.len() > 0,
            0 <= self.position() <= self.len(),
            self.tree() == self.value(0),
            forall|i: int, j: int|
                0 <= i < self.len() && 0 <= j < self.source()[i].children().len() ==> {
                    let c = #[trigger] self.child_index(i, j);
                    &&& i < c < self.len()
                    &&& self.source()[c] == self.source()[i].children()[j]
                },
            forall|c: int|
                0 < c < self.len() ==> exists|p: int, j: int|
                    0 <= p < c && 0 <= j < self.source()[p].children().len() && #[trigger] self.source()[c]
                        == #[trigger] self.source()[p].children()[j],
    {
        assert forall|c: int| 0 < c < self.len() implies exists|p: int, j: int|
            0 <= p < c && 0 <= j < self.source()[p].children().len() && #[trigger] self.source()[c]
                == #[trigger] self.source()[p].children()[j] by {
            let p = self.parents@[c] as int;
            let j = self.slot_in_parent@[c];
            assert(p < c);
            assert(0 <= j < self.arity(p));
            assert(self.child_index(p, j) == c);
            assert(self.source()[c] == self.source()[p].children()[j]);
            assert(0 <= p < c && 0 <= j < self.source()[p].children().len() && self.source()[c]
                == self.source()[p].children()[j]);
        }
    }

    /// The engine rebuilds each entry at most once in its bottom-up pass.
    pub proof fn lemma_rebuilt_at_most_once(&self)
        requires
            self.inv(),
        ensures
            forall|i: int| 0 <= i < self.len() ==> #[trigger] self.rebuild_count(i) <= 1,
    {
    }

    proof fn lemma_value_unfold(&self, i: int)
        requires
            self.shape_inv(),
            0 <= i < self.pos,
        ensures
            self.value(i) == self.source@[i].rebuild(self.child_values(i)),
    {
        assert(self.kid_values(i) =~= self.child_values(i));
    }

    proof fn lemma_shape_transfer(a: &Self, b: &Self)
        requires
            a.shape_inv(),
            a.same_shape(b),
            b.dirty@.len() == a.dirty@.len(),
            b.rebuilds@.len() == a.rebuilds@.len(),
            b.pos <= b.exprs@.len(),
        ensures
            b.shape_inv(),
    {
        assert forall|i: int, j: int| #[trigger] b.child_index(i, j) == a.child_index(i, j) by {}
        assert forall|i: int| #[trigger] b.arity(i) == a.arity(i) by {}
        assert forall|i: int, j: int|
            0 <= i < b.exprs@.len() && 0 <= j < b.arity(i) implies {
                let c = #[trigger] b.child_index(i, j);
                &&& i < c < b.exprs@.len()
                &&& b.parents@[c] == i
                &&& b.slot_in_parent@[c] == j
                &&& b.source@[c] == b.source@[i].children()[j]
            } by {
            assert(a.child_index(i, j) == b.child_index(i, j));
        }
        assert forall|c: int|
            0 < c < b.exprs@.len() implies {
                let p = #[trigger] b.parents@[c] as int;
                &&& p < c
                &&& 0 <= b.slot_in_parent@[c] < b.arity(p)
                &&& b.child_index(p, b.slot_in_parent@[c]) == c
            } by {
            assert(a.parents@[c] == b.parents@[c]);
            let p = a.parents@[c] as int;
            assert(a.child_index(p, a.slot_in_parent@[c]) == c);
        }
    }

    /// Values agree when `b` has the shape of `a`, has visited no more than `a`, and
    /// every entry that `b` has visited holds `a`'s value.
    proof fn lemma_values_agree(a: &Self, b: &Self, i: int)
        requires
            a.shape_inv(),
            b.shape_inv(),
            a.same_shape(b),
            a.pos <= b.pos || b.pos <= a.pos,
            b.pos <= a.pos,
            forall|j: int| b.pos <= j < b.exprs@.len() ==> #[trigger] b.exprs@[j]@ == a.value(j),
            0 <= i < a.exprs@.len(),
        ensures
            b.value(i) == a.value(i),
        decreases a.exprs@.len() - i,
    {
        if i >= b.pos {
        } else {
            a.lemma_value_unfold(i);
            b.lemma_value_unfold(i);
            assert forall|j: int| 0 <= j < a.arity(i) implies b.child_values(i)[j]
                == a.child_values(i)[j] by {
                let c = a.child_index(i, j);
                Self::lemma_values_agree(a, b, c);
            }
            assert(b.child_values(i) =~= a.child_values(i));
        }
    }

    proof fn lemma_anc_le(&self, a: int, p: int)
        requires
            self.shape_inv(),
            self.is_anc(a, p),
        ensures
            a <= p,
        decreases p,
    {
        if p != a {
            self.lemma_anc_le(a, self.parents@[p] as int);
        }
    }

    proof fn lemma_anc_parent(&self, c: int, p: int)
        requires
            self.shape_inv(),
            0 < c < self.exprs@.len(),
            self.is_anc(c, p),
        ensures
            self.is_anc(self.parents@[c] as int, p),
        decreases p,
    {
        let pc = self.parents@[c] as int;
        assert(pc < c);
        assert(self.is_anc(pc, pc));
        if p != c {
            self.lemma_anc_parent(c, self.parents@[p] as int);
        }
    }

    proof fn lemma_anc_chain(&self, a: int, j: int, p: int)
        requires
            self.shape_inv(),
            self.is_anc(a, p),
            self.is_anc(j, p),
            a <= j,
        ensures
            self.is_anc(a, j),
        decreases p,
    {
        if p != j {
            if p == a {
                self.lemma_anc_le(j, p);
            } else {
                self.lemma_anc_chain(a, j, self.parents@[p] as int);
            }
        }
    }

    proof fn lemma_anc_child(&self, a: int, p: int)
        requires
            self.shape_inv(),
            self.is_anc(a, p),
            0 <= a < p,
        ensures
            self.arity(a) > 0,
        decreases p,
    {
        let q = self.parents@[p] as int;
        if q == a {
            assert(self.slot_in_parent@[p] < self.arity(a));
        } else {
            self.lemma_anc_le(a, q);
            self.lemma_anc_child(a, q);
        }
    }

    proof fn lemma_dirty_ancestors(&self, a: int, j: int)
        requires
            self.inv(),
            0 <= j < self.exprs@.len(),
            self.dirty@[j],
            self.is_anc(a, j),
        ensures
            self.dirty@[a],
        decreases j,
    {
        if j != a {
            self.lemma_dirty_ancestors(a, self.parents@[j] as int);
        }
    }

    /// After a replacement at `b.pos`, values agree outside the ancestors of that entry.
    proof fn lemma_values_outside(a: &Self, b: &Self, i: int)
        requires
            a.shape_inv(),
            b.shape_inv(),
            a.same_shape(b),
            a.pos == b.pos,
            a.pos < a.exprs@.len(),
            forall|j: int|
                0 <= j < a.exprs@.len() && j != a.pos ==> #[trigger] b.exprs@[j] == a.exprs@[j],
            0 <= i < a.exprs@.len(),
            !a.is_anc(i, a.pos as int),
        ensures
            b.value(i) == a.value(i),
        decreases a.exprs@.len() - i,
    {
        if i >= b.pos {
        } else {
            a.lemma_value_unfold(i);
            b.lemma_value_unfold(i);
            assert forall|j: int| 0 <= j < a.arity(i) implies b.child_values(i)[j]
                == a.child_values(i)[j] by {
                let c = a.child_index(i, j);
                if a.is_anc(c, a.pos as int) {
                    a.lemma_anc_parent(c, a.pos as int);
                }
                Self::lemma_values_outside(a, b, c);
            }
            assert(b.child_values(i) =~= a.child_values(i));
        }
    }

    proof fn lemma_values_initial(&self, i: int)
        requires
            self.shape_inv(),
            self.pos == self.exprs@.len(),
            forall|k: int| 0 <= k < self.exprs@.len() ==> #[trigger] self.exprs@[k]@ == self.source@[k],
            0 <= i < self.exprs@.len(),
        ensures
            self.value(i) == self.source@[i],
        decreases self.exprs@.len() - i,
    {
        self.lemma_value_unfold(i);
        assert forall|j: int| 0 <= j < self.arity(i) implies self.child_values(i)[j]
            == self.source@[i].children()[j] by {
            self.lemma_values_initial(self.child_index(i, j));
        }
        assert(self.child_values(i) =~= self.source@[i].children());
        lemma_rebuild_children(self.source@[i]);
    }

    proof fn lemma_values_are_sources(&self, i: int)
        requires
            self.inv(),
            forall|k: int| self.pos <= k < self.exprs@.len() ==> #[trigger] self.value(k) == self.source@[k],
            0 <= i < self.exprs@.len(),
        ensures
            self.value(i) == self.source@[i],
        decreases self.exprs@.len() - i,
    {
        if i < self.pos {
            self.lemma_value_unfold(i);
            assert forall|j: int| 0 <= j < self.arity(i) implies self.child_values(i)[j]
                == self.source@[i].children()[j] by {
                self.lemma_values_are_sources(self.child_index(i, j));
            }
            assert(self.child_values(i) =~= self.source@[i].children());
            lemma_rebuild_children(self.source@[i]);
        }
    }

    /// While every visited entry still holds its input subtree, the tree as it stands is
    /// the input tree.
    pub proof fn lemma_unchanged_tree(&self)
        requires
            self.inv(),
            forall|k: int| self.position() <= k < self.len() ==> #[trigger] self.value(k) == self.source()[k],
        ensures
            self.tree() == self.source()[0],
    {
        self.lemma_values_are_sources(0);
    }

    /// Lays `root` out as a queue in depth-first discovery order, with nothing visited
    /// yet. The children of a node are discovered last term first.
    pub fn new(root: &Expression) -> (r: TraverserContext)
        ensures
            r.inv(),
            r.source()[0] == root@,
            r.position() == r.len(),
            r.tree() == root@,
            forall|i: int| 0 <= i < r.len() ==> #[trigger] r.rebuild_count(i) == 0,
    {
        let mut exprs: Vec<Expression> = Vec::new();
        let mut dirty: Vec<bool> = Vec::new();
        let mut parents: Vec<usize> = Vec::new();
        let mut first_child: Vec<usize> = Vec::new();
        let mut child_counts: Vec<usize> = Vec::new();
        let mut child_slots: Vec<usize> = Vec::new();
        let mut stack: Vec<StackItem> = Vec::new();
        let ghost mut source: Seq<Expr> = Seq::empty();
        let ghost mut slot_in_parent: Seq<int> = Seq::empty();

        stack.push(StackItem { expr: root.clone(), parent_index: NO_PARENT, slot: 0 });
        while stack.len() > 0
            invariant
                exprs@.len() == dirty@.len(),
                exprs@.len() == parents@.len(),
                exprs@.len() == first_child@.len(),
                exprs@.len() == child_counts@.len(),
                exprs@.len() == source.len(),
                exprs@.len() == slot_in_parent.len(),
                child_slots@.len() <= usize::MAX,
                exprs@.len() == 0 ==> stack@.len() == 1 && stack@[0].parent_index == NO_PARENT
                    && stack@[0].expr@ == root@,
                exprs@.len() > 0 ==> parents@[0] == NO_PARENT && source[0] == root@,
                forall|i: int| 0 <= i < exprs@.len() ==> !(#[trigger] dirty@[i]),
                forall|i: int| 0 <= i < exprs@.len() ==> #[trigger] exprs@[i]@ == source[i],
                forall|i: int|
                    0 <= i < exprs@.len() ==> #[trigger] child_counts@[i]
                        == source[i].children().len(),
                forall|i: int, i2: int|
                    0 <= i < i2 < exprs@.len() ==> #[trigger] first_child@[i]
                        + source[i].children().len() <= #[trigger] first_child@[i2],
                forall|i: int|
                    0 <= i < exprs@.len() ==> #[trigger] first_child@[i]
                        + source[i].children().len() <= child_slots@.len(),
                forall|i: int, j: int|
                    0 <= i < exprs@.len() && 0 <= j < source[i].children().len() ==> {
                        let c = #[trigger] slot_at(child_slots@, first_child@, i, j);
                        c == NO_PARENT || {
                            &&& i < c < exprs@.len()
                            &&& parents@[c] == i
                            &&& slot_in_parent[c] == j
                            &&& source[c] == source[i].children()[j]
                        }
                    },
                forall|i: int, j: int|
                    0 <= i < exprs@.len() && 0 <= j < source[i].children().len()
                        && #[trigger] slot_at(child_slots@, first_child@, i, j) == NO_PARENT
                        ==> exists|k: int|
                        0 <= k < stack@.len() && stack@[k].parent_index == i && stack@[k].slot
                            == j,
                forall|c: int|
                    0 < c < exprs@.len() ==> {
                        let p = #[trigger] parents@[c] as int;
                        &&& p < c
                        &&& 0 <= slot_in_parent[c] < source[p].children().len()
                        &&& slot_at(child_slots@, first_child@, p, slot_in_parent[c]) == c
                    },
                exprs@.len() > 0 ==> forall|k: int|
                    0 <= k < stack@.len() ==> {
                        let s = #[trigger] stack@[k];
                        &&& s.parent_index < exprs@.len()
                        &&& s.slot < source[s.parent_index as int].children().len()
                        &&& s.expr@ == source[s.parent_index as int].children()[s.slot as int]
                        &&& slot_at(child_slots@, first_child@, s.parent_index as int, s.slot as int)
                            == NO_PARENT
                    },
                forall|k1: int, k2: int|
                    0 <= k1 < k2 < stack@.len() ==> (#[trigger] stack@[k1]).parent_index
                        != (#[trigger] stack@[k2]).parent_index || stack@[k1].slot
                        != stack@[k2].slot,
            decreases stack_size(stack@),
        {
            let ghost old_stack = stack@;
            let ghost old_slots = child_slots@;
            let ghost old_firsts = first_child@;
            let ghost old_source = source;
            let ghost n = exprs@.len();
            let item = stack.pop().unwrap();
            proof {
                assert(old_stack.drop_last() == stack@);
                assert(item == old_stack.last());
            }
            let idx = exprs.len();
            let kids = item.expr.children();
            let m = kids.len();
            let start = child_slots.len();
            push_unfilled(&mut child_slots, m);
            let _ = child_slots.len();
            let ghost item_view = item.expr@;
            exprs.push(item.expr);
            dirty.push(false);
            parents.push(item.parent_index);
            first_child.push(start);
            child_counts.push(m);
            let _ = exprs.len();
            let ghost fill: int = -1;
            if item.parent_index != NO_PARENT {
                let at = first_child[item.parent_index] + item.slot;
                proof {
                    fill = at as int;
                }
                child_slots.set(at, idx);
            }
            proof {
                source = source.push(item_view);
                slot_in_parent = slot_in_parent.push(item.slot as int);
            }
            let ghost popped = stack@;
            push_children(&mut stack, &kids, idx);
            proof {
                lemma_size_children(item_view);
                let p = item.parent_index as int;
                assert(n == 0 ==> popped.len() == 0);
                assert(n > 0 ==> fill == old_firsts[p] + item.slot && fill < start);
                assert(n == 0 ==> fill == -1);
                assert forall|x: int| start <= x < start + m implies child_slots@[x] == NO_PARENT by {}
                assert forall|x: int| 0 <= x < start && x != fill implies child_slots@[x] == old_slots[x] by {}
                assert forall|i: int| 0 <= i < n implies #[trigger] source[i] == old_source[i] && first_child@[i] == old_firsts[i] by {}
                assert forall|i: int, j: int|
                    0 <= i < n && 0 <= j < source[i].children().len() && (i != p || j
                        != item.slot) implies #[trigger] slot_at(child_slots@, first_child@, i, j)
                    == slot_at(old_slots, old_firsts, i, j) by {
                    if n > 0 && i < p {
                        assert(old_firsts[i] + old_source[i].children().len() <= old_firsts[p]);
                    }
                    if n > 0 && p < i {
                        assert(old_firsts[p] + old_source[p].children().len() <= old_firsts[i]);
                    }
                    assert(old_firsts[i] + old_source[i].children().len() <= start);
                }
                assert forall|j: int| 0 <= j < m implies #[trigger] slot_at(child_slots@, first_child@, n as int, j) == NO_PARENT by {
                    assert(first_child@[n as int] == start);
                }
                assert forall|i: int, j: int|
                    0 <= i < exprs@.len() && 0 <= j < source[i].children().len()
                        && #[trigger] slot_at(child_slots@, first_child@, i, j)
                        == NO_PARENT implies exists|k: int|
                    0 <= k < stack@.len() && stack@[k].parent_index == i && stack@[k].slot
                        == j by {
                    if i == n {
                        assert(stack@[popped.len() + j].parent_index == i);
                    } else {
                        let k = choose|k: int|
                            0 <= k < old_stack.len() && old_stack[k].parent_index == i
                                && old_stack[k].slot == j;
                        assert(k != old_stack.len() - 1);
                        assert(stack@[k] == old_stack[k]);
                    }
                }
                assert forall|c: int| 0 < c < exprs@.len() implies {
                    let p = #[trigger] parents@[c] as int;
                    &&& p < c
                    &&& 0 <= slot_in_parent[c] < source[p].children().len()
                    &&& slot_at(child_slots@, first_child@, p, slot_in_parent[c]) == c
                } by {
                    if c < n {
                        let pc = parents@[c] as int;
                        assert(slot_at(old_slots, old_firsts, pc, slot_in_parent[c]) == c);
                    }
                }
                assert forall|k: int| 0 <= k < stack@.len() implies {
                    let s = #[trigger] stack@[k];
                    &&& s.parent_index < exprs@.len()
                    &&& s.slot < source[s.parent_index as int].children().len()
                    &&& s.expr@ == source[s.parent_index as int].children()[s.slot as int]
                    &&& slot_at(child_slots@, first_child@, s.parent_index as int, s.slot as int)
                        == NO_PARENT
                } by {
                    if k < popped.len() {
                        assert(stack@[k] == old_stack[k]);
                        let top = old_stack.len() - 1;
                        assert(old_stack[k].parent_index != old_stack[top].parent_index
                            || old_stack[k].slot != old_stack[top].slot);
                        let q = old_stack[k].parent_index as int;
                        assert(slot_at(old_slots, old_firsts, q, old_stack[k].slot as int) == NO_PARENT);
                    } else {
                        let j = k - popped.len();
                        assert(stack@[popped.len() + j] == stack@[k]);
                        assert(views(kids@)[j] == kids@[j]@);
                    }
                }
                assert forall|k1: int, k2: int|
                    0 <= k1 < k2 < stack@.len() implies (#[trigger] stack@[k1]).parent_index
                    != (#[trigger] stack@[k2]).parent_index || stack@[k1].slot
                    != stack@[k2].slot by {
                    if k2 < popped.len() {
                        assert(stack@[k1] == old_stack[k1]);
                        assert(stack@[k2] == old_stack[k2]);
                    } else if k1 < popped.len() {
                        assert(stack@[k1] == old_stack[k1]);
                        assert(stack@[popped.len() + (k2 - popped.len())] == stack@[k2]);
                    } else {
                        assert(stack@[popped.len() + (k1 - popped.len())] == stack@[k1]);
                        assert(stack@[popped.len() + (k2 - popped.len())] == stack@[k2]);
                    }
                }
            }
        }
        let ghost n = exprs@.len();
        proof {
            assert forall|i: int, j: int|
                0 <= i < n && 0 <= j < source[i].children().len() implies slot_at(
                child_slots@,
                first_child@,
                i,
                j,
            ) != NO_PARENT by {
                if slot_at(child_slots@, first_child@, i, j) == NO_PARENT {
                    let k = choose|k: int|
                        0 <= k < stack@.len() && stack@[k].parent_index == i && stack@[k].slot
                            == j;
                }
            }
        }
        let count = exprs.len();
        let ctx = TraverserContext {
            exprs,
            dirty,
            parents,
            first_child,
            child_counts,
            child_slots,
            pos: count,
            source: Ghost(source),
            slot_in_parent: Ghost(slot_in_parent),
            rebuilds: Ghost(Seq::new(n, |i: int| 0nat)),
        };
        proof {
            assert forall|i: int, j: int|
                0 <= i < n && 0 <= j < ctx.arity(i) implies #[trigger] ctx.child_index(i, j)
                == slot_at(ctx.child_slots@, ctx.first_child@, i, j) by {}
            assert forall|i: int| 0 <= i < n implies #[trigger] ctx.value(i) == ctx.source@[i] by {
                ctx.lemma_values_initial(i);
            }
        }
        ctx
    }

    /// Moves to the next entry, rebuilding it first if a descendant was replaced, and
    /// returns its node; `None` once the root has been visited.
    pub fn advance(&mut self) -> (r: Option<Expression>)
        requires
            old(self).inv(),
        ensures
            final(self).inv(),
            final(self).source() == old(self).source(),
            final(self).len() == old(self).len(),
            old(self).position() == 0 ==> r is None && final(self).position() == 0
                && final(self).tree() == old(self).tree(),
            old(self).position() > 0 ==> {
                let k = old(self).position() - 1;
                &&& final(self).position() == k
                &&& r is Some
                &&& r->Some_0@ == old(self).source()[k].rebuild(old(self).child_values(k))
                &&& final(self).value(k) == r->Some_0@
            },
            forall|i: int| 0 <= i < final(self).len() ==> #[trigger] final(self).value(i) == old(self).value(i),
            forall|i: int, j: int| #[trigger] final(self).child_index(i, j) == old(self).child_index(i, j),
            final(self).tree() == old(self).tree(),
    {
        if self.pos == 0 {
            return None;
        }
        let k = self.pos - 1;
        let ghost old_self = *self;
        proof {
            self.lemma_value_unfold(k as int);
        }
        if self.dirty[k] {
            let m = self.child_counts[k];
            let mut children: Vec<Expression> = Vec::new();
            let mut j: usize = 0;
            while j < m
                invariant
                    *self == old_self,
                    self.inv(),
                    self.pos == k + 1,
                    m == self.arity(k as int),
                    j <= m,
                    children@.len() == j,
                    forall|t: int| 0 <= t < j ==> (#[trigger] children@[t])@ == self.child_values(k as int)[t],
                decreases m - j,
            {
                let c = self.child_slots[self.first_child[k] + j];
                proof {
                    assert(self.child_index(k as int, j as int) == c);
                    assert(!self.dirty@[c as int]);
                }
                children.push(self.exprs[c].clone());
                j = j + 1;
            }
            assert(views(children@) =~= self.child_values(k as int));
            let rebuilt = self.exprs[k].rebuild(children);
            proof {
                lemma_rebuild_kind(self.source@[k as int], self.child_values(k as int));
            }
            self.exprs.set(k, rebuilt);
            self.dirty.set(k, false);
            proof {
                self.rebuilds@ = self.rebuilds@.update(k as int, 1);
            }
        }
        self.pos = k;
        proof {
            assert(self.same_shape(&old_self));
            Self::lemma_shape_transfer(&old_self, self);
            assert forall|i: int| 0 <= i < self.exprs@.len() implies #[trigger] self.value(i)
                == old_self.value(i) by {
                Self::lemma_values_agree(&old_self, self, i);
            }
        }
        Some(self.exprs[k].clone())
    }

    /// Overwrites the visited entry with `replacement`, and marks its ancestors dirty
    /// up to the first one that already is.
    pub fn replace(&mut self, replacement: Expression)
        requires
            old(self).inv(),
            old(self).position() < old(self).len(),
        ensures
            final(self).inv(),
            final(self).source() == old(self).source(),
            final(self).len() == old(self).len(),
            final(self).position() == old(self).position(),
            final(self).value(old(self).position()) == replacement@,
            forall|i: int|
                old(self).position() < i < final(self).len() ==> #[trigger] final(self).value(i)
                    == old(self).value(i),
            forall|i: int, j: int| #[trigger] final(self).child_index(i, j) == old(self).child_index(i, j),
    {
        let ghost old_self = *self;
        let k = self.pos;
        self.exprs.set(k, replacement);
        self.dirty.set(k, false);
        let ghost replaced = *self;
        proof {
            assert(replaced.same_shape(&old_self));
            Self::lemma_shape_transfer(&old_self, &replaced);
            assert forall|i: int|
                0 <= i < self.exprs@.len() && !old_self.is_anc(i, k as int) implies #[trigger] replaced.value(i)
                == old_self.value(i) by {
                Self::lemma_values_outside(&old_self, &replaced, i);
            }
        }
        let mut j = self.parents[k];
        proof {
            if k > 0 {
                old_self.lemma_anc_parent(k as int, k as int);
            }
            assert forall|a: int| 0 <= a < k && old_self.is_anc(a, k as int) implies a <= j by {
                old_self.lemma_anc_le(a, j as int);
            }
        }
        while j != NO_PARENT && !self.dirty[j]
            invariant
                old_self.inv(),
                old_self.pos == k,
                k < old_self.exprs@.len(),
                self.same_shape(&old_self),
                self.shape_inv(),
                self.pos == k,
                self.exprs@ == replaced.exprs@,
                self.rebuilds@ == old_self.rebuilds@,
                j == NO_PARENT || (j < k && old_self.is_anc(j as int, k as int)),
                forall|a: int| 0 <= a < self.exprs@.len() ==> #[trigger] self.value(a) == replaced.value(a),
                forall|a: int|
                    0 <= a < k && old_self.is_anc(a, k as int) && (j == NO_PARENT || a > j)
                        ==> #[trigger] self.dirty@[a],
                forall|a: int|
                    0 <= a < self.exprs@.len() && #[trigger] self.dirty@[a] && !old_self.dirty@[a]
                        ==> a < k && old_self.is_anc(a, k as int) && (j == NO_PARENT || a > j),
                forall|a: int| 0 <= a < self.exprs@.len() && #[trigger] old_self.dirty@[a] ==> self.dirty@[a],
                forall|a: int|
                    0 < a < self.exprs@.len() && #[trigger] self.dirty@[a] ==> self.dirty@[self.parents@[a] as int]
                        || self.parents@[a] == j,
                !self.dirty@[k as int],
            decreases if j == NO_PARENT { 0 } else { j + 1 },
        {
            let ghost before = *self;
            self.dirty.set(j, true);
            proof {
                assert(self.same_shape(&before));
                Self::lemma_shape_transfer(&before, self);
                assert forall|a: int| 0 <= a < self.exprs@.len() implies #[trigger] self.value(a)
                    == before.value(a) by {
                    Self::lemma_values_agree(&before, self, a);
                }
            }
            let ghost jj = j;
            j = self.parents[j];
            proof {
                if j != NO_PARENT {
                    old_self.lemma_anc_parent(jj as int, k as int);
                    old_self.lemma_anc_le(j as int, k as int);
                }
                assert forall|a: int|
                    0 <= a < k && old_self.is_anc(a, k as int) && (j == NO_PARENT || a > j)
                        implies #[trigger] self.dirty@[a] by {
                    if a < jj {
                        old_self.lemma_anc_chain(a, jj as int, k as int);
                        old_self.lemma_anc_le(a, old_self.parents@[jj as int] as int);
                    }
                }
            }
        }
        proof {
            assert forall|a: int| 0 <= a < k && #[trigger] old_self.is_anc(a, k as int) implies self.dirty@[a] by {
                if j != NO_PARENT && a <= j {
                    old_self.lemma_anc_chain(a, j as int, k as int);
                    assert(old_self.dirty@[j as int]);
                    old_self.lemma_dirty_ancestors(a, j as int);
                }
            }
            assert forall|i: int| 0 <= i < self.exprs@.len() && !self.dirty@[i] implies #[trigger] self.exprs@[i]@
                == self.value(i) by {
                if i != k {
                    if old_self.is_anc(i, k as int) {
                        old_self.lemma_anc_le(i, k as int);
                    }
                }
            }
            assert forall|i: int| 0 <= i < self.exprs@.len() && #[trigger] self.dirty@[i] implies {
                &&& i < self.pos
                &&& !self.source@[i].is_constant()
                &&& self.exprs@[i]@.kind() == self.source@[i].kind()
                &&& (i > 0 ==> self.dirty@[self.parents@[i] as int])
            } by {
                if !old_self.dirty@[i] {
                    old_self.lemma_anc_child(i, k as int);
                    old_self.lemma_value_unfold(i);
                    lemma_rebuild_children(self.source@[i]);
                    lemma_rebuild_kind(self.source@[i], old_self.child_values(i));
                }
            }
        }
    }

    /// The whole tree as it stands now. Dirty entries on the way are rebuilt and
    /// stored, which changes no value.
    pub fn snapshot(&mut self) -> (r: Expression)
        requires
            old(self).inv(),
        ensures
            final(self).inv(),
            r@ == old(self).tree(),
            final(self).source() == old(self).source(),
            final(self).len() == old(self).len(),
            final(self).position() == old(self).position(),
            forall|i: int| 0 <= i < final(self).len() ==> #[trigger] final(self).value(i) == old(self).value(i),
            forall|i: int| 0 <= i < final(self).len() ==> #[trigger] final(self).rebuild_count(i) == old(self).rebuild_count(i),
            forall|i: int, j: int| #[trigger] final(self).child_index(i, j) == old(self).child_index(i, j),
            final(self).tree() == old(self).tree(),
    {
        self.snapshot_at(0)
    }

    fn snapshot_at(&mut self, i: usize) -> (r: Expression)
        requires
            old(self).inv(),
            i < old(self).exprs@.len(),
        ensures
            final(self).inv(),
            final(self).same_shape(old(self)),
            final(self).pos == old(self).pos,
            final(self).rebuilds@ == old(self).rebuilds@,
            r@ == old(self).value(i as int),
            !final(self).dirty@[i as int],
            forall|x: int| 0 <= x < final(self).exprs@.len() ==> #[trigger] final(self).value(x) == old(self).value(x),
            forall|x: int| 0 <= x < final(self).exprs@.len() && #[trigger] final(self).dirty@[x] ==> old(self).dirty@[x],
            forall|x: int| 0 <= x < final(self).exprs@.len() && !old(self).dirty@[x] ==> #[trigger] final(self).exprs@[x] == old(self).exprs@[x],
            forall|x: int| 0 <= x <= i ==> #[trigger] final(self).dirty@[x] == old(self).dirty@[x] || x == i,
            forall|x: int| 0 <= x < i ==> #[trigger] final(self).exprs@[x] == old(self).exprs@[x],
        decreases old(self).exprs@.len() - i,
    {
        if !self.dirty[i] {
            return self.exprs[i].clone();
        }
        let ghost old_self = *self;
        proof {
            self.lemma_value_unfold(i as int);
        }
        let m = self.child_counts[i];
        let mut children: Vec<Expression> = Vec::new();
        let mut j: usize = 0;
        while j < m
            invariant
                self.inv(),
                self.same_shape(&old_self),
                self.exprs@.len() == old(self).exprs@.len(),
                self.pos == old_self.pos,
                self.rebuilds@ == old_self.rebuilds@,
                i < self.exprs@.len(),
                m == self.arity(i as int),
                j <= m,
                children@.len() == j,
                self.dirty@[i as int],
                forall|t: int| 0 <= t < j ==> (#[trigger] children@[t])@ == old_self.child_values(i as int)[t],
                forall|t: int| 0 <= t < j ==> !self.dirty@[#[trigger] self.child_index(i as int, t)],
                forall|x: int| 0 <= x < self.exprs@.len() ==> #[trigger] self.value(x) == old_self.value(x),
                forall|x: int| 0 <= x < self.exprs@.len() && #[trigger] self.dirty@[x] ==> old_self.dirty@[x],
                forall|x: int| 0 <= x < self.exprs@.len() && !old_self.dirty@[x] ==> #[trigger] self.exprs@[x] == old_self.exprs@[x],
                forall|x: int| 0 <= x <= i ==> #[trigger] self.dirty@[x] == old_self.dirty@[x],
                forall|x: int| 0 <= x <= i ==> #[trigger] self.exprs@[x] == old_self.exprs@[x],
            decreases m - j,
        {
            let c = self.child_slots[self.first_child[i] + j];
            proof {
                assert(self.child_index(i as int, j as int) == c);
            }
            let ghost before = *self;
            let v = self.snapshot_at(c);
            proof {
                assert forall|t: int| 0 <= t < j implies !self.dirty@[#[trigger] self.child_index(i as int, t)] by {
                    assert(!before.dirty@[before.child_index(i as int, t)]);
                }
            }
            children.push(v);
            j = j + 1;
        }
        assert(views(children@) =~= old_self.child_values(i as int));
        let rebuilt = self.exprs[i].rebuild(children);
        proof {
            lemma_rebuild_kind(self.source@[i as int], old_self.child_values(i as int));
        }
        let ghost before = *self;
        self.exprs.set(i, rebuilt.clone());
        self.dirty.set(i, false);
        proof {
            assert(self.same_shape(&before));
            Self::lemma_shape_transfer(&before, self);
            assert forall|x: int| 0 <= x < self.exprs@.len() implies #[trigger] self.value(x)
                == before.value(x) by {
                Self::lemma_values_agree(&before, self, x);
            }
            assert forall|x: int| 0 < x < self.exprs@.len() && #[trigger] self.dirty@[x] implies self.dirty@[self.parents@[x] as int] by {
                if self.parents@[x] == i {
                    let t = self.slot_in_parent@[x];
                    assert(self.child_index(i as int, t) == x);
                }
            }
        }
        rebuilt
    }

    /// The number of entries not yet visited.
    pub fn remaining(&self) -> (r: usize)
        ensures
            r == self.position(),
    {
        self.pos
    }

    /// The result of the traversal, once the root has been visited.
    pub fn finish(&self) -> (r: Expression)
        requires
            self.inv(),
            self.position() == 0,
        ensures
            r@ == self.tree(),
            r@ == self.value(0),
    {
        self.exprs[0].clone()
    }
}

/// A rewrite pass driven by `traverse`: the visitor itself is fixed, and what it builds
/// up (the steps of an explanation, say) lives in its `State`. `holds` is what the pass
/// keeps true of the traversal and of its state between visits.
pub trait Visitor {
    type State;

    spec fn holds(&self, state: &Self::State, ctx: &TraverserContext) -> bool;

    /// Visits the entry at `ctx.position()`, whose up-to-date node is `node`; `before` is
    /// the traversal as it stood before the engine moved to this entry.
    fn visit(
        &self,
        state: &mut Self::State,
        ctx: &mut TraverserContext,
        node: &Expression,
        before: Ghost<TraverserContext>,
    )
        requires
            self.holds(old(state), &before@),
            before@.inv(),
            before@.position() > 0,
            old(ctx).inv(),
            old(ctx).source() == before@.source(),
            old(ctx).len() == before@.len(),
            old(ctx).position() == before@.position() - 1,
            node@ == before@.source()[old(ctx).position()].rebuild(
                before@.child_values(old(ctx).position()),
            ),
            old(ctx).value(old(ctx).position()) == node@,
            forall|i: int| 0 <= i < old(ctx).len() ==> #[trigger] old(ctx).value(i) == before@.value(i),
            old(ctx).tree() == before@.tree(),
        ensures
            self.holds(final(state), final(ctx)),
            final(ctx).inv(),
            final(ctx).position() == old(ctx).position(),
    ;
}

/// Visits every entry of `ctx`, from the last to the first, so that each node is
/// visited after its children; a dirty entry is rebuilt before it is visited.
pub fn traverse<V: Visitor>(ctx: &mut TraverserContext, visitor: &V, state: &mut V::State)
    requires
        old(ctx).inv(),
        visitor.holds(old(state), old(ctx)),
    ensures
        final(ctx).inv(),
        final(ctx).position() == 0,
        visitor.holds(final(state), final(ctx)),
{
    while ctx.remaining() > 0
        invariant
            ctx.inv(),
            visitor.holds(state, ctx),
        decreases ctx.position(),
    {
        let ghost before = *ctx;
        let node = ctx.advance().unwrap();
        visitor.visit(state, ctx, &node, Ghost(before));
    }
}

} // verus!
