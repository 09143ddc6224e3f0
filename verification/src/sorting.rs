//! Stable sorting of texts.

use vstd::prelude::*;

use crate::natsort::{natural_equal_means_same_tokens, natural_order, natural_order_flips,
    natural_order_is_transitive, rank_natural};
use crate::order::{is_total_order, lemma_lex_equal, lemma_lex_flip, lemma_lex_transitive, Rank};
use crate::text::{char_rank, rank_text, text_rank, texts};

verus! {

/// The order to sort by.
#[derive(Debug, Clone, Copy, PartialEq, Eq, Structural)]
pub enum Collation {
    /// Natural ordering, as [`crate::natsort`] defines it.
    Natural,
    /// Dictionary order of code points.
    Plain,
}

impl Collation {
    /// The rank of two texts in this order.
    pub open spec fn ranks(self, a: Seq<char>, b: Seq<char>) -> Rank {
        match self {
            Collation::Natural => natural_order(a, b),
            Collation::Plain => text_rank(a, b),
        }
    }

    /// The rank of two texts in this order.
    pub fn rank(self, a: &str, b: &str) -> (res: Rank)
        ensures
            res == self.ranks(a@, b@),
    {
        match self {
            Collation::Natural => rank_natural(a, b),
            Collation::Plain => rank_text(a, b),
        }
    }
}

/// Whether the key at position `a` belongs before the key at position `b` in a
/// stable sort: it ranks first, or it ranks the same and stood first.
pub open spec fn goes_before(keys: Seq<Seq<char>>, how: Collation, a: int, b: int) -> bool {
    match how.ranks(keys[a], keys[b]) {
        Rank::Less => true,
        Rank::Equal => a < b,
        Rank::Greater => false,
    }
}

/// Whether `p` lists the positions of `keys` in stably sorted order, each
/// position once.
pub open spec fn is_stable_sort(keys: Seq<Seq<char>>, how: Collation, p: Seq<usize>) -> bool {
    &&& p.len() == keys.len()
    &&& forall|i: int| 0 <= i < p.len() ==> 0 <= #[trigger] p[i] < keys.len()
    &&& forall|k: usize| 0 <= k < keys.len() ==> #[trigger] p.contains(k)
    &&& forall|i: int, j: int|
        0 <= i < j < p.len() ==> goes_before(keys, how, #[trigger] p[i] as int, #[trigger] p[j] as int)
}

proof fn lemma_chars_ordered()
    ensures
        is_total_order(char_rank()),
{
}

/// Both orders are total preorders: they flip when the texts are swapped.
pub proof fn collation_flips(how: Collation, a: Seq<char>, b: Seq<char>)
    ensures
        how.ranks(b, a) == how.ranks(a, b).flipped(),
{
    match how {
        Collation::Natural => natural_order_flips(a, b),
        Collation::Plain => {
            lemma_chars_ordered();
            lemma_lex_flip(char_rank(), a, b);
        },
    }
}

/// Dictionary order tells all texts apart.
pub proof fn plain_order_is_antisymmetric(a: Seq<char>, b: Seq<char>)
    ensures
        text_rank(a, b) == Rank::Equal <==> a == b,
{
    lemma_chars_ordered();
    lemma_lex_equal(char_rank(), a, b);
}

/// Both orders are transitive.
pub proof fn collation_is_transitive(how: Collation, a: Seq<char>, b: Seq<char>, c: Seq<char>)
    requires
        how.ranks(a, b) != Rank::Greater,
        how.ranks(b, c) != Rank::Greater,
    ensures
        how.ranks(a, c) != Rank::Greater,
        how.ranks(a, c) == Rank::Equal ==> how.ranks(a, b) == Rank::Equal && how.ranks(b, c)
            == Rank::Equal,
{
    match how {
        Collation::Natural => natural_order_is_transitive(a, b, c),
        Collation::Plain => {
            lemma_chars_ordered();
            plain_order_is_antisymmetric(a, b);
            plain_order_is_antisymmetric(b, c);
            plain_order_is_antisymmetric(a, c);
            lemma_lex_flip(char_rank(), a, b);
            if text_rank(a, b) == Rank::Less && text_rank(b, c) == Rank::Less {
                lemma_lex_transitive(char_rank(), a, b, c);
            }
        },
    }
}

proof fn lemma_before_transitive(
    keys: Seq<Seq<char>>,
    how: Collation,
    a: int,
    b: int,
    c: int,
)
    requires
        goes_before(keys, how, a, b),
        goes_before(keys, how, b, c),
    ensures
        goes_before(keys, how, a, c),
{
    collation_is_transitive(how, keys[a], keys[b], keys[c]);
}

proof fn lemma_before_total(keys: Seq<Seq<char>>, how: Collation, a: int, b: int)
    requires
        a != b,
    ensures
        goes_before(keys, how, a, b) != goes_before(keys, how, b, a),
{
    collation_flips(how, keys[a], keys[b]);
}

/// A stable sort has exactly one result.
pub proof fn stable_sort_is_unique(
    keys: Seq<Seq<char>>,
    how: Collation,
    p: Seq<usize>,
    q: Seq<usize>,
)
    requires
        is_stable_sort(keys, how, p),
        is_stable_sort(keys, how, q),
    ensures
        p == q,
{
    assert forall|i: int| 0 <= i < p.len() implies p[i] == q[i] by {
        lemma_same_at(keys, how, p, q, i);
    }
    assert(p =~= q);
}

proof fn lemma_same_at(
    keys: Seq<Seq<char>>,
    how: Collation,
    p: Seq<usize>,
    q: Seq<usize>,
    i: int,
)
    requires
        is_stable_sort(keys, how, p),
        is_stable_sort(keys, how, q),
        0 <= i < p.len(),
    ensures
        p[i] == q[i],
    decreases i,
{
    if p[i] != q[i] {
        assert forall|k: int| 0 <= k < i implies p[k] == q[k] by {
            lemma_same_at(keys, how, p, q, k);
        }
        assert(q.contains(p[i]));
        let j = choose|j: int| 0 <= j < q.len() && q[j] == p[i];
        assert(p.contains(q[i]));
        let k = choose|k: int| 0 <= k < p.len() && p[k] == q[i];
        if j < i {
            assert(p[j] == p[i]);
            assert(goes_before(keys, how, p[j] as int, p[i] as int));
            collation_flips(how, keys[p[i] as int], keys[p[i] as int]);
        }
        if k < i {
            assert(q[k] == q[i]);
            assert(goes_before(keys, how, q[k] as int, q[i] as int));
            collation_flips(how, keys[q[i] as int], keys[q[i] as int]);
        }
        assert(goes_before(keys, how, q[i] as int, q[j] as int));
        assert(goes_before(keys, how, p[i] as int, p[k] as int));
        lemma_before_total(keys, how, p[i] as int, q[i] as int);
    }
}

/// Whether `p` holds the positions `from..to` of `keys` in stably sorted
/// order.
spec fn sorted_range(
    keys: Seq<Seq<char>>,
    how: Collation,
    p: Seq<usize>,
    from: int,
    to: int,
) -> bool {
    &&& p.len() == to - from
    &&& forall|i: int| 0 <= i < p.len() ==> from <= #[trigger] p[i] < to
    &&& forall|k: usize| from <= k < to ==> #[trigger] p.contains(k)
    &&& forall|i: int, j: int|
        0 <= i < j < p.len() ==> goes_before(keys, how, #[trigger] p[i] as int, #[trigger] p[j] as int)
}

/// Merges two sorted neighbouring ranges.
fn merge(
    keys: &Vec<String>,
    how: Collation,
    left: &Vec<usize>,
    right: &Vec<usize>,
    Ghost(from): Ghost<int>,
    Ghost(mid): Ghost<int>,
    Ghost(to): Ghost<int>,
) -> (out: Vec<usize>)
    requires
        0 <= from <= mid <= to <= keys@.len(),
        sorted_range(texts(keys@), how, left@, from, mid),
        sorted_range(texts(keys@), how, right@, mid, to),
    ensures
        sorted_range(texts(keys@), how, out@, from, to),
{
    let ghost ks = texts(keys@);
    let mut out: Vec<usize> = Vec::new();
    let mut i: usize = 0;
    let mut j: usize = 0;
    while i < left.len() || j < right.len()
        invariant
            0 <= from <= mid <= to <= keys@.len(),
            ks == texts(keys@),
            sorted_range(ks, how, left@, from, mid),
            sorted_range(ks, how, right@, mid, to),
            i <= left@.len(),
            j <= right@.len(),
            out@.len() == i + j,
            forall|k: int| 0 <= k < out@.len() ==> from <= #[trigger] out@[k] < to,
            forall|k: int| 0 <= k < i ==> #[trigger] out@.contains(left@[k]),
            forall|k: int| 0 <= k < j ==> #[trigger] out@.contains(right@[k]),
            forall|k: int, l: int|
                0 <= k < l < out@.len() ==> goes_before(
                    ks,
                    how,
                    #[trigger] out@[k] as int,
                    #[trigger] out@[l] as int,
                ),
            forall|k: int, l: int|
                0 <= k < out@.len() && i <= l < left@.len() ==> goes_before(
                    ks,
                    how,
                    #[trigger] out@[k] as int,
                    #[trigger] left@[l] as int,
                ),
            forall|k: int, l: int|
                0 <= k < out@.len() && j <= l < right@.len() ==> goes_before(
                    ks,
                    how,
                    #[trigger] out@[k] as int,
                    #[trigger] right@[l] as int,
                ),
        decreases left@.len() - i + right@.len() - j,
    {
        let take_left = if i == left.len() {
            false
        } else if j == right.len() {
            true
        } else {
            let ghost a = left@[i as int];
            let ghost b = right@[j as int];
            assert(a < mid <= b < keys@.len());
            assert(ks[a as int] == keys@[a as int]@ && ks[b as int] == keys@[b as int]@);
            proof {
                lemma_before_total(ks, how, a as int, b as int);
            }
            how.rank(keys[left[i]].as_str(), keys[right[j]].as_str()) != Rank::Greater
        };
        let ghost before = out@;
        if take_left {
            out.push(left[i]);
            proof {
                assert forall|l: int| j <= l < right@.len() implies goes_before(
                    ks,
                    how,
                    left@[i as int] as int,
                    #[trigger] right@[l] as int,
                ) by {
                    if l > j {
                        lemma_before_transitive(
                            ks,
                            how,
                            left@[i as int] as int,
                            right@[j as int] as int,
                            right@[l] as int,
                        );
                    }
                }
                assert forall|k: int| 0 <= k < i + 1 implies #[trigger] out@.contains(left@[k]) by {
                    lemma_pushed(before, left@[i as int], left@[k]);
                }
                assert forall|k: int| 0 <= k < j implies #[trigger] out@.contains(right@[k]) by {
                    lemma_pushed(before, left@[i as int], right@[k]);
                }
            }
            i = i + 1;
        } else {
            out.push(right[j]);
            proof {
                assert forall|l: int| i <= l < left@.len() implies goes_before(
                    ks,
                    how,
                    right@[j as int] as int,
                    #[trigger] left@[l] as int,
                ) by {
                    if l > i {
                        lemma_before_transitive(
                            ks,
                            how,
                            right@[j as int] as int,
                            left@[i as int] as int,
                            left@[l] as int,
                        );
                    }
                }
                assert forall|k: int| 0 <= k < i implies #[trigger] out@.contains(left@[k]) by {
                    lemma_pushed(before, right@[j as int], left@[k]);
                }
                assert forall|k: int| 0 <= k < j + 1 implies #[trigger] out@.contains(right@[k]) by {
                    lemma_pushed(before, right@[j as int], right@[k]);
                }
            }
            j = j + 1;
        }
    }
    proof {
        assert forall|k: usize| from <= k < to implies #[trigger] out@.contains(k) by {
            if k < mid {
                assert(left@.contains(k));
                let x = choose|x: int| 0 <= x < left@.len() && left@[x] == k;
                assert(out@.contains(left@[x]));
            } else {
                assert(right@.contains(k));
                let x = choose|x: int| 0 <= x < right@.len() && right@[x] == k;
                assert(out@.contains(right@[x]));
            }
        }
    }
    out
}

proof fn lemma_pushed(s: Seq<usize>, new: usize, x: usize)
    requires
        s.contains(x) || x == new,
    ensures
        s.push(new).contains(x),
{
    if s.contains(x) {
        let i = choose|i: int| 0 <= i < s.len() && s[i] == x;
        assert(s.push(new)[i] == x);
    } else {
        assert(s.push(new)[s.len() as int] == x);
    }
}

fn sort_range(keys: &Vec<String>, how: Collation, from: usize, to: usize) -> (out: Vec<usize>)
    requires
        from <= to <= keys@.len(),
    ensures
        sorted_range(texts(keys@), how, out@, from as int, to as int),
    decreases to - from,
{
    if to - from <= 1 {
        let mut out: Vec<usize> = Vec::new();
        if from < to {
            out.push(from);
            assert(out@[0] == from);
        }
        out
    } else {
        let mid: usize = from + (to - from) / 2;
        let left = sort_range(keys, how, from, mid);
        let right = sort_range(keys, how, mid, to);
        merge(keys, how, &left, &right, Ghost(from as int), Ghost(mid as int), Ghost(to as int))
    }
}

/// The positions of `keys` in stably sorted order.
pub fn sorted_positions(keys: &Vec<String>, how: Collation) -> (p: Vec<usize>)
    ensures
        is_stable_sort(texts(keys@), how, p@),
{
    sort_range(keys, how, 0, keys.len())
}

/// Whether `out` holds the texts of `keys` in stably sorted order.
pub open spec fn is_sorted_copy(keys: Seq<Seq<char>>, how: Collation, out: Seq<Seq<char>>) -> bool {
    exists|p: Seq<usize>| #[trigger]
        is_stable_sort(keys, how, p) && out == p.map_values(|i: usize| keys[i as int])
}

/// The texts of `keys` in stably sorted order.
pub fn sorted_texts(keys: &Vec<String>, how: Collation) -> (out: Vec<String>)
    ensures
        is_sorted_copy(texts(keys@), how, texts(out@)),
{
    let p = sorted_positions(keys, how);
    let mut out: Vec<String> = Vec::new();
    let mut i: usize = 0;
    while i < p.len()
        invariant
            i <= p@.len(),
            is_stable_sort(texts(keys@), how, p@),
            out@.len() == i,
            forall|k: int| 0 <= k < i ==> (#[trigger] out@[k])@ == texts(keys@)[p@[k] as int],
        decreases p@.len() - i,
    {
        out.push(keys[p[i]].clone());
        i = i + 1;
    }
    assert(texts(out@) =~= p@.map_values(|i: usize| texts(keys@)[i as int]));
    out
}

/// A sorted copy is fully determined by what was sorted.
pub proof fn sorted_copy_is_unique(
    keys: Seq<Seq<char>>,
    how: Collation,
    x: Seq<Seq<char>>,
    y: Seq<Seq<char>>,
)
    requires
        is_sorted_copy(keys, how, x),
        is_sorted_copy(keys, how, y),
    ensures
        x == y,
{
    let p = choose|p: Seq<usize>| #[trigger]
        is_stable_sort(keys, how, p) && x == p.map_values(|i: usize| keys[i as int]);
    let q = choose|q: Seq<usize>| #[trigger]
        is_stable_sort(keys, how, q) && y == q.map_values(|i: usize| keys[i as int]);
    stable_sort_is_unique(keys, how, p, q);
}

/// The two orders are the natural one and that of the dictionary.
pub proof fn collations_are_the_two_orders(a: Seq<char>, b: Seq<char>)
    ensures
        Collation::Natural.ranks(a, b) == natural_order(a, b),
        Collation::Plain.ranks(a, b) == text_rank(a, b),
{
}

/// A stable sort lists every position exactly once, never one that ranks after a
/// later one, and those that rank the same in the order in which they stood.
pub proof fn stable_sort_lists_each_once(
    keys: Seq<Seq<char>>,
    how: Collation,
    p: Seq<usize>,
    i: int,
    j: int,
)
    requires
        is_stable_sort(keys, how, p),
        0 <= i < j < p.len(),
    ensures
        p.len() == keys.len(),
        p[i] != p[j],
        p[i] < keys.len() && p[j] < keys.len(),
        forall|k: usize| k < keys.len() ==> #[trigger] p.contains(k),
        how.ranks(keys[p[i] as int], keys[p[j] as int]) != Rank::Greater,
        how.ranks(keys[p[i] as int], keys[p[j] as int]) == Rank::Equal ==> p[i] < p[j],
{
    assert(goes_before(keys, how, p[i] as int, p[j] as int));
    collation_flips(how, keys[p[i] as int], keys[p[i] as int]);
}

/// A sorted copy is what was given, rearranged: each text stands in it as often
/// as before, and none ranks after a later one.
pub proof fn sorted_copy_is_a_rearrangement(
    keys: Seq<Seq<char>>,
    how: Collation,
    out: Seq<Seq<char>>,
) -> (p: Seq<usize>)
    requires
        is_sorted_copy(keys, how, out),
    ensures
        out.len() == keys.len(),
        p.len() == keys.len(),
        p.no_duplicates(),
        forall|i: int| 0 <= i < p.len() ==> (#[trigger] p[i]) < keys.len() && out[i] == keys[p[i] as int],
        forall|i: int, j: int|
            0 <= i < j < out.len() ==> how.ranks(#[trigger] out[i], #[trigger] out[j])
                != Rank::Greater,
{
    let p = choose|p: Seq<usize>| #[trigger]
        is_stable_sort(keys, how, p) && out == p.map_values(|i: usize| keys[i as int]);
    assert forall|i: int, j: int| 0 <= i < j < p.len() implies p[i] != p[j] && how.ranks(
        #[trigger] out[i],
        #[trigger] out[j],
    ) != Rank::Greater by {
        stable_sort_lists_each_once(keys, how, p, i, j);
        assert(out[i] == keys[p[i] as int] && out[j] == keys[p[j] as int]);
    }
    assert forall|i: int, j: int| 0 <= i < p.len() && 0 <= j < p.len() && i != j implies p[i] != p[j] by {
        if i < j {
            stable_sort_lists_each_once(keys, how, p, i, j);
        } else {
            stable_sort_lists_each_once(keys, how, p, j, i);
        }
    }
    p
}

} // verus!
