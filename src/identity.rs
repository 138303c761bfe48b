//! How identities react to a change of one leaf: the hash round `mix` is injective in
//! each argument, so changing one character of one constant's name changes the
//! identity of every node above it. (Names that differ in more than one place, or in
//! length, may collide, as any 64-bit hash may.)
use vstd::prelude::*;

use crate::expression::{char_words, mix, mix_all, terms_id, Expr, ID_PRIME, NEGATION_SEED};

verus! {

/// The inverse of `ID_PRIME` modulo 2^64.
pub const ID_PRIME_INVERSE: u64 = 0xce96_5057_aff6_957b;

proof fn lemma_mix_wrapping(h: u64, w: u64)
    ensures
        mix(h, w) == (h ^ w).wrapping_mul(ID_PRIME),
{
}

proof fn lemma_mix_undo(h: u64, w: u64)
    ensures
        mix(h, w).wrapping_mul(ID_PRIME_INVERSE) == h ^ w,
{
    let x: u64 = h ^ w;
    let y: u64 = x.wrapping_mul(ID_PRIME);
    lemma_mix_wrapping(h, w);
    let z: u64 = y.wrapping_mul(ID_PRIME_INVERSE);
    assert(z == x) by (bit_vector)
        requires
            y == x.wrapping_mul(0x0000_0100_0000_01b3u64),
            z == y.wrapping_mul(0xce96_5057_aff6_957bu64),
    ;
}

proof fn lemma_mix_injective_word(h: u64, w1: u64, w2: u64)
    requires
        w1 != w2,
    ensures
        mix(h, w1) != mix(h, w2),
{
    lemma_mix_undo(h, w1);
    lemma_mix_undo(h, w2);
    assert((h ^ w1) != (h ^ w2)) by (bit_vector)
        requires
            w1 != w2,
    ;
}

proof fn lemma_mix_injective_state(h1: u64, h2: u64, w: u64)
    requires
        h1 != h2,
    ensures
        mix(h1, w) != mix(h2, w),
{
    lemma_mix_undo(h1, w);
    lemma_mix_undo(h2, w);
    assert((h1 ^ w) != (h2 ^ w)) by (bit_vector)
        requires
            h1 != h2,
    ;
}

/// `a` and `b` have the same length and differ at exactly the index `j`.
pub open spec fn differ_only_at<A>(a: Seq<A>, b: Seq<A>, j: int) -> bool {
    &&& a.len() == b.len()
    &&& 0 <= j < a.len()
    &&& a[j] != b[j]
    &&& forall|i: int| 0 <= i < a.len() && i != j ==> #[trigger] a[i] == b[i]
}

proof fn lemma_mix_all_one_change(h: u64, a: Seq<u64>, b: Seq<u64>, j: int)
    requires
        differ_only_at(a, b, j),
    ensures
        mix_all(h, a) != mix_all(h, b),
    decreases a.len(),
{
    let n = a.len() - 1;
    if j == n {
        assert(a.drop_last() =~= b.drop_last());
        lemma_mix_injective_word(mix_all(h, a.drop_last()), a.last(), b.last());
    } else {
        assert(a.last() == b[n]);
        lemma_mix_all_one_change(h, a.drop_last(), b.drop_last(), j);
        lemma_mix_injective_state(mix_all(h, a.drop_last()), mix_all(h, b.drop_last()), a.last());
    }
}

proof fn lemma_terms_id_one_change(h: u64, a: Seq<Expr>, b: Seq<Expr>, j: int)
    requires
        a.len() == b.len(),
        0 <= j < a.len(),
        a[j].id() != b[j].id(),
        forall|i: int| 0 <= i < a.len() && i != j ==> #[trigger] a[i] == b[i],
    ensures
        terms_id(h, a) != terms_id(h, b),
    decreases a.len(),
{
    let n = a.len() - 1;
    if j == n {
        assert(a.drop_last() =~= b.drop_last());
        lemma_mix_injective_word(terms_id(h, a.drop_last()), a.last().id(), b.last().id());
    } else {
        assert(a.last() == b[n]);
        lemma_terms_id_one_change(h, a.drop_last(), b.drop_last(), j);
        lemma_mix_injective_state(terms_id(h, a.drop_last()), terms_id(h, b.drop_last()), a.last().id());
    }
}

/// The tree `e` with the constant that `path` leads to renamed to `name`; a path
/// lists, from the root, the index of the child to descend into.
pub open spec fn with_leaf(e: Expr, path: Seq<int>, name: Seq<char>) -> Expr
    decreases path.len(),
{
    if path.len() == 0 {
        match e {
            Expr::Constant(_) => Expr::Constant(name),
            _ => e,
        }
    } else {
        let i = path[0];
        let rest = path.drop_first();
        match e {
            Expr::Sum(ts) => if 0 <= i < ts.len() {
                Expr::Sum(ts.update(i, with_leaf(ts[i], rest, name)))
            } else {
                e
            },
            Expr::Product(ts) => if 0 <= i < ts.len() {
                Expr::Product(ts.update(i, with_leaf(ts[i], rest, name)))
            } else {
                e
            },
            Expr::Negation(x) => if i == 0 {
                Expr::Negation(Box::new(with_leaf(*x, rest, name)))
            } else {
                e
            },
            Expr::Constant(_) => e,
        }
    }
}

/// The name of the constant that `path` leads to in `e`, if it leads to one.
pub open spec fn leaf_at(e: Expr, path: Seq<int>) -> Option<Seq<char>>
    decreases path.len(),
{
    if path.len() == 0 {
        match e {
            Expr::Constant(name) => Some(name),
            _ => None,
        }
    } else {
        let i = path[0];
        let rest = path.drop_first();
        match e {
            Expr::Sum(ts) => if 0 <= i < ts.len() {
                leaf_at(ts[i], rest)
            } else {
                None
            },
            Expr::Product(ts) => if 0 <= i < ts.len() {
                leaf_at(ts[i], rest)
            } else {
                None
            },
            Expr::Negation(x) => if i == 0 {
                leaf_at(*x, rest)
            } else {
                None
            },
            Expr::Constant(_) => None,
        }
    }
}

/// Renaming one constant of a tree to a name that differs from the old one in exactly
/// one character changes the identity of the whole tree.
pub proof fn lemma_leaf_change_changes_id(e: Expr, path: Seq<int>, name: Seq<char>, j: int)
    requires
        leaf_at(e, path) is Some,
        differ_only_at(leaf_at(e, path)->Some_0, name, j),
    ensures
        with_leaf(e, path, name).id() != e.id(),
    decreases path.len(),
{
    if path.len() == 0 {
        let old_name = leaf_at(e, path)->Some_0;
        let a = char_words(old_name);
        let b = char_words(name);
        assert(differ_only_at(a, b, j)) by {
            let c1 = old_name[j];
            let c2 = name[j];
            vstd::utf8::char_u32_cast(c1, c1 as u32);
            vstd::utf8::char_u32_cast(c2, c2 as u32);
            assert(a[j] == c1 as u32 as u64);
            assert(b[j] == c2 as u32 as u64);
        }
        lemma_mix_all_one_change(crate::expression::CONSTANT_SEED, a, b, j);
    } else {
        let i = path[0];
        let rest = path.drop_first();
        match e {
            Expr::Sum(ts) => {
                lemma_leaf_change_changes_id(ts[i], rest, name, j);
                let us = ts.update(i, with_leaf(ts[i], rest, name));
                lemma_terms_id_one_change(crate::expression::SUM_SEED, ts, us, i);
            },
            Expr::Product(ts) => {
                lemma_leaf_change_changes_id(ts[i], rest, name, j);
                let us = ts.update(i, with_leaf(ts[i], rest, name));
                lemma_terms_id_one_change(crate::expression::PRODUCT_SEED, ts, us, i);
            },
            Expr::Negation(x) => {
                lemma_leaf_change_changes_id(*x, rest, name, j);
                lemma_mix_injective_word(NEGATION_SEED, x.id(), with_leaf(*x, rest, name).id());
            },
            Expr::Constant(_) => {},
        }
    }
}

} // verus!
