//! Edit distances over sequences of comparable units, stated as recurrences
//! on prefixes, with the facts that the index relies on.
use vstd::prelude::*;

verus! {

pub open spec fn min_of(x: nat, y: nat) -> nat {
    if x <= y {
        x
    } else {
        y
    }
}

/// 0 when the two units are equal, 1 otherwise.
pub open spec fn unit_cost<A>(x: A, y: A) -> nat {
    if x == y {
        0
    } else {
        1
    }
}

/// Levenshtein distance: the least number of single-unit insertions,
/// deletions and substitutions that turn `a` into `b`.
pub open spec fn levenshtein<A>(a: Seq<A>, b: Seq<A>) -> nat
    decreases a.len() + b.len(),
{
    if a.len() == 0 {
        b.len()
    } else if b.len() == 0 {
        a.len()
    } else {
        let (a1, b1) = (a.drop_last(), b.drop_last());
        min_of(
            min_of(levenshtein(a1, b) + 1, levenshtein(a, b1) + 1),
            levenshtein(a1, b1) + unit_cost(a.last(), b.last()),
        )
    }
}

/// Whether the last two units of `a` are the last two units of `b` swapped
/// (and are not equal to each other at the end).
pub open spec fn ends_transposed<A>(a: Seq<A>, b: Seq<A>) -> bool {
    &&& a.len() >= 2
    &&& b.len() >= 2
    &&& a.last() != b.last()
    &&& a.last() == b[b.len() - 2]
    &&& a[a.len() - 2] == b.last()
}

/// Optimal string alignment distance: Levenshtein plus the swap of two
/// adjacent units at cost 1, where no unit is edited again after a swap.
pub open spec fn osa<A>(a: Seq<A>, b: Seq<A>) -> nat
    decreases a.len() + b.len(),
{
    if a.len() == 0 {
        b.len()
    } else if b.len() == 0 {
        a.len()
    } else {
        let (a1, b1) = (a.drop_last(), b.drop_last());
        let plain = min_of(
            min_of(osa(a1, b) + 1, osa(a, b1) + 1),
            osa(a1, b1) + unit_cost(a.last(), b.last()),
        );
        if ends_transposed(a, b) {
            min_of(plain, osa(a1.drop_last(), b1.drop_last()) + 1)
        } else {
            plain
        }
    }
}

pub open spec fn max_len<A>(a: Seq<A>, b: Seq<A>) -> nat {
    if a.len() <= b.len() {
        b.len()
    } else {
        a.len()
    }
}

/// A sequence is at Levenshtein distance 0 from itself.
pub proof fn lemma_levenshtein_self<A>(a: Seq<A>)
    ensures
        levenshtein(a, a) == 0,
    decreases a.len(),
{
    if a.len() > 0 {
        lemma_levenshtein_self(a.drop_last());
    }
}

/// A sequence is at OSA distance 0 from itself.
pub proof fn lemma_osa_self<A>(a: Seq<A>)
    ensures
        osa(a, a) == 0,
    decreases a.len(),
{
    if a.len() > 0 {
        lemma_osa_self(a.drop_last());
    }
}

/// Levenshtein distance does not depend on the order of its arguments.
pub proof fn lemma_levenshtein_symmetric<A>(a: Seq<A>, b: Seq<A>)
    ensures
        levenshtein(a, b) == levenshtein(b, a),
    decreases a.len() + b.len(),
{
    if a.len() > 0 && b.len() > 0 {
        lemma_levenshtein_symmetric(a.drop_last(), b);
        lemma_levenshtein_symmetric(a, b.drop_last());
        lemma_levenshtein_symmetric(a.drop_last(), b.drop_last());
    }
}

/// OSA distance does not depend on the order of its arguments.
pub proof fn lemma_osa_symmetric<A>(a: Seq<A>, b: Seq<A>)
    ensures
        osa(a, b) == osa(b, a),
    decreases a.len() + b.len(),
{
    if a.len() > 0 && b.len() > 0 {
        lemma_osa_symmetric(a.drop_last(), b);
        lemma_osa_symmetric(a, b.drop_last());
        lemma_osa_symmetric(a.drop_last(), b.drop_last());
        if a.len() >= 2 && b.len() >= 2 {
            lemma_osa_symmetric(a.drop_last().drop_last(), b.drop_last().drop_last());
        }
    }
}

/// Levenshtein distance is at least the difference of the lengths and at
/// most the larger length.
pub proof fn lemma_levenshtein_bounds<A>(a: Seq<A>, b: Seq<A>)
    ensures
        levenshtein(a, b) <= max_len(a, b),
        a.len() <= levenshtein(a, b) + b.len(),
        b.len() <= levenshtein(a, b) + a.len(),
    decreases a.len() + b.len(),
{
    if a.len() > 0 && b.len() > 0 {
        lemma_levenshtein_bounds(a.drop_last(), b);
        lemma_levenshtein_bounds(a, b.drop_last());
        lemma_levenshtein_bounds(a.drop_last(), b.drop_last());
    }
}

/// OSA distance is at most the larger length.
pub proof fn lemma_osa_upper_bound<A>(a: Seq<A>, b: Seq<A>)
    ensures
        osa(a, b) <= max_len(a, b),
    decreases a.len() + b.len(),
{
    if a.len() > 0 && b.len() > 0 {
        lemma_osa_upper_bound(a.drop_last(), b.drop_last());
    }
}

/// Levenshtein distance 0 holds only between equal sequences.
pub proof fn lemma_levenshtein_zero<A>(a: Seq<A>, b: Seq<A>)
    requires
        levenshtein(a, b) == 0,
    ensures
        a == b,
    decreases a.len() + b.len(),
{
    if a.len() == 0 || b.len() == 0 {
        assert(a =~= b);
    } else {
        let (a1, b1) = (a.drop_last(), b.drop_last());
        lemma_levenshtein_zero(a1, b1);
        assert(a =~= a1.push(a.last()));
        assert(b =~= b1.push(b.last()));
    }
}

/// OSA distance 0 holds only between equal sequences.
pub proof fn lemma_osa_zero<A>(a: Seq<A>, b: Seq<A>)
    requires
        osa(a, b) == 0,
    ensures
        a == b,
    decreases a.len() + b.len(),
{
    if a.len() == 0 || b.len() == 0 {
        assert(a =~= b);
    } else {
        let (a1, b1) = (a.drop_last(), b.drop_last());
        lemma_osa_zero(a1, b1);
        assert(a =~= a1.push(a.last()));
        assert(b =~= b1.push(b.last()));
    }
}

/// The triangle inequality for Levenshtein distance:
/// going from `a` to `c` never costs more than going through `b`.
pub proof fn lemma_levenshtein_triangle<A>(a: Seq<A>, b: Seq<A>, c: Seq<A>)
    ensures
        levenshtein(a, c) <= levenshtein(a, b) + levenshtein(b, c),
    decreases a.len() + b.len() + c.len(),
{
    if a.len() == 0 || c.len() == 0 {
        lemma_levenshtein_bounds(a, b);
        lemma_levenshtein_bounds(b, c);
    } else if b.len() == 0 {
        lemma_levenshtein_bounds(a, c);
    } else {
        let (a1, b1, c1) = (a.drop_last(), b.drop_last(), c.drop_last());
        lemma_levenshtein_triangle(a1, b, c);
        lemma_levenshtein_triangle(a, b, c1);
        lemma_levenshtein_triangle(a, b1, c);
        lemma_levenshtein_triangle(a, b1, c1);
        lemma_levenshtein_triangle(a1, b1, c);
        lemma_levenshtein_triangle(a1, b1, c1);
    }
}

} // verus!
