//! Three-way ranks and the lexicographic order they induce on sequences.

use vstd::prelude::*;

verus! {

/// How one value ranks against another.
#[derive(Debug, Clone, Copy, PartialEq, Eq, Structural)]
pub enum Rank {
    Less,
    Equal,
    Greater,
}

impl Rank {
    /// The rank seen from the other side.
    pub open spec fn flipped(self) -> Rank {
        match self {
            Rank::Less => Rank::Greater,
            Rank::Equal => Rank::Equal,
            Rank::Greater => Rank::Less,
        }
    }
}

/// The rank of two integers.
pub open spec fn int_rank(a: int, b: int) -> Rank {
    if a < b {
        Rank::Less
    } else if a == b {
        Rank::Equal
    } else {
        Rank::Greater
    }
}

/// Whether `rank` is a total order on `T`: it tells distinct values apart, seen
/// from the other side it is flipped, and it is transitive.
pub open spec fn is_total_order<T>(rank: spec_fn(T, T) -> Rank) -> bool {
    &&& forall|a: T, b: T| #[trigger] rank(a, b) == Rank::Equal <==> a == b
    &&& forall|a: T, b: T| #[trigger] rank(a, b) == rank(b, a).flipped()
    &&& forall|a: T, b: T, c: T| #[trigger]
        rank(a, b) == Rank::Less && #[trigger] rank(b, c) == Rank::Less ==> rank(a, c)
            == Rank::Less
}

/// The lexicographic rank of two sequences: the first place where they differ
/// decides, and a sequence ranks before those it is a proper prefix of.
pub open spec fn lex_rank<T>(rank: spec_fn(T, T) -> Rank, a: Seq<T>, b: Seq<T>) -> Rank
    decreases a.len(),
{
    if a.len() == 0 && b.len() == 0 {
        Rank::Equal
    } else if a.len() == 0 {
        Rank::Less
    } else if b.len() == 0 {
        Rank::Greater
    } else if rank(a[0], b[0]) != Rank::Equal {
        rank(a[0], b[0])
    } else {
        lex_rank(rank, a.drop_first(), b.drop_first())
    }
}

/// Sequences rank as equal exactly when they are equal.
pub proof fn lemma_lex_equal<T>(rank: spec_fn(T, T) -> Rank, a: Seq<T>, b: Seq<T>)
    requires
        is_total_order(rank),
    ensures
        lex_rank(rank, a, b) == Rank::Equal <==> a == b,
    decreases a.len(),
{
    if a.len() == 0 && b.len() == 0 {
        assert(a =~= b);
    } else if a.len() > 0 && b.len() > 0 {
        lemma_lex_equal(rank, a.drop_first(), b.drop_first());
        if rank(a[0], b[0]) == Rank::Equal {
            if a.drop_first() == b.drop_first() {
                assert(a =~= seq![a[0]] + a.drop_first());
                assert(b =~= seq![b[0]] + b.drop_first());
            }
        }
    }
}

/// Seen from the other side, a lexicographic rank is flipped.
pub proof fn lemma_lex_flip<T>(rank: spec_fn(T, T) -> Rank, a: Seq<T>, b: Seq<T>)
    requires
        is_total_order(rank),
    ensures
        lex_rank(rank, b, a) == lex_rank(rank, a, b).flipped(),
    decreases a.len(),
{
    if a.len() > 0 && b.len() > 0 {
        assert(rank(b[0], a[0]) == rank(a[0], b[0]).flipped());
        lemma_lex_flip(rank, a.drop_first(), b.drop_first());
    }
}

/// The lexicographic order is transitive.
pub proof fn lemma_lex_transitive<T>(rank: spec_fn(T, T) -> Rank, a: Seq<T>, b: Seq<T>, c: Seq<T>)
    requires
        is_total_order(rank),
        lex_rank(rank, a, b) == Rank::Less,
        lex_rank(rank, b, c) == Rank::Less,
    ensures
        lex_rank(rank, a, c) == Rank::Less,
    decreases a.len(),
{
    if a.len() > 0 {
        assert(rank(a[0], b[0]) == Rank::Equal <==> a[0] == b[0]);
        assert(rank(b[0], c[0]) == Rank::Equal <==> b[0] == c[0]);
        assert(rank(a[0], c[0]) == Rank::Equal <==> a[0] == c[0]);
        if rank(a[0], b[0]) == Rank::Equal && rank(b[0], c[0]) == Rank::Equal {
            lemma_lex_transitive(rank, a.drop_first(), b.drop_first(), c.drop_first());
        }
    }
}

} // verus!
