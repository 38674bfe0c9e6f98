//! Cards, five-card hands and their ranking.
use std::cmp::Ordering;
use vstd::prelude::*;
use vstd::seq_lib::{commutative_foldr, lemma_fold_right_permutation};

verus! {

#[derive(PartialEq, Eq, Clone, Debug, Copy, Structural)]
pub enum Suite {
    Clubs,
    Spades,
    Hearts,
    Diamonds,
}

#[derive(Clone, Debug, Copy, PartialEq, Eq, Structural)]
pub struct Card {
    /// 1 is the ace, 11 to 13 are jack, queen and king.
    pub value: u32,
    pub suite: Suite,
}

/// Five cards compared as a poker hand.
#[derive(Clone, Debug)]
pub struct Hand {
    pub cards: [Card; 5],
}

// ------------------------------------------------------------------
// Ranks and histograms
// ------------------------------------------------------------------

/// The rank by which cards are ordered: an ace is high (14), every other
/// card counts its face value.
pub open spec fn rank(c: Card) -> int {
    if c.value == 1 {
        14
    } else {
        c.value as int
    }
}

pub open spec fn ind(b: bool) -> nat {
    if b {
        1
    } else {
        0
    }
}

/// How many of the five cards of `h` have rank `r`.
pub open spec fn rank_count(h: Seq<Card>, r: int) -> nat {
    ind(rank(h[0]) == r) + ind(rank(h[1]) == r) + ind(rank(h[2]) == r) + ind(rank(h[3]) == r)
        + ind(rank(h[4]) == r)
}

/// (count, rank) pairs are ordered by count first, then by rank.
pub open spec fn pair_gt(a: (u8, u8), b: (u8, u8)) -> bool {
    a.0 > b.0 || (a.0 == b.0 && a.1 > b.1)
}

pub open spec fn rank_present(hist: Seq<(u8, u8)>, r: int) -> bool {
    exists|i: int| 0 <= i < hist.len() && hist[i].1 == r
}

/// `hist` lists, for each rank that occurs in the five cards `h`, the pair
/// (number of cards of that rank, rank), from the greatest pair down.
pub open spec fn is_histogram(h: Seq<Card>, hist: Seq<(u8, u8)>) -> bool {
    &&& forall|i: int|
        0 <= i < hist.len() ==> #[trigger] hist[i].0 > 0 && hist[i].0 == rank_count(
            h,
            hist[i].1 as int,
        )
    &&& forall|k: int| 0 <= k < 5 ==> #[trigger] rank_present(hist, rank(h[k]))
    &&& forall|i: int, j: int| 0 <= i < j < hist.len() ==> pair_gt(#[trigger] hist[i], #[trigger] hist[j])
}

/// The histogram of a five-card hand (unique, see `lemma_histogram_unique`).
pub open spec fn histogram(h: Seq<Card>) -> Seq<(u8, u8)> {
    choose|hist: Seq<(u8, u8)>| is_histogram(h, hist)
}

/// The histogram of the wheel A-2-3-4-5 with the ace still high ...
pub open spec fn ace_high_wheel() -> Seq<(u8, u8)> {
    seq![(1u8, 14u8), (1u8, 5u8), (1u8, 4u8), (1u8, 3u8), (1u8, 2u8)]
}

/// ... and the same cards with the ace counted low.
pub open spec fn ace_low_wheel() -> Seq<(u8, u8)> {
    seq![(1u8, 5u8), (1u8, 4u8), (1u8, 3u8), (1u8, 2u8), (1u8, 1u8)]
}

/// The histogram by which the hand is scored: the wheel counts its ace as 1.
pub open spec fn scored_histogram(h: Seq<Card>) -> Seq<(u8, u8)> {
    if histogram(h) == ace_high_wheel() {
        ace_low_wheel()
    } else {
        histogram(h)
    }
}

pub open spec fn same_suit(h: Seq<Card>) -> bool {
    h[1].suite == h[0].suite && h[2].suite == h[0].suite && h[3].suite == h[0].suite
        && h[4].suite == h[0].suite
}

/// The class of the hand: 5 straight flush, 4 four of a kind or full house,
/// 3 flush, 2 straight, 0 anything else (which the counts then order).
pub open spec fn category(h: Seq<Card>) -> int {
    let hist = scored_histogram(h);
    if hist.len() < 5 {
        if hist[0].0 + hist[1].0 == 5 {
            4
        } else {
            0
        }
    } else {
        (if same_suit(h) {
            3int
        } else {
            0int
        }) + (if hist[0].1 == hist[4].1 + 4 {
            2int
        } else {
            0int
        })
    }
}

/// The classes of five cards: five ranks in a run are a straight (2), five
/// cards of one suite a flush (3), both together a straight flush (5);
/// with fewer ranks, counts of 4+1 or 3+2 rank 4 and anything else 0.  An
/// ace counts high or, in the wheel, low.
pub proof fn lemma_hand_classes(h: Seq<Card>)
    ensures
        ({
            let hist = scored_histogram(h);
            let run = hist.len() == 5 && hist[0].1 == hist[4].1 + 4;
            let flush = h[1].suite == h[0].suite && h[2].suite == h[0].suite && h[3].suite
                == h[0].suite && h[4].suite == h[0].suite;
            &&& hist.len() == 5 && run && !flush ==> category(h) == 2
            &&& hist.len() == 5 && run && flush ==> category(h) == 5
            &&& hist.len() == 5 && !run && flush ==> category(h) == 3
            &&& hist.len() == 5 && !run && !flush ==> category(h) == 0
            &&& hist.len() < 5 && hist[0].0 + hist[1].0 == 5 ==> category(h) == 4
            &&& hist.len() < 5 && hist[0].0 + hist[1].0 != 5 ==> category(h) == 0
        }),
{
}

pub open spec fn counts_of(hist: Seq<(u8, u8)>) -> Seq<u8> {
    hist.map_values(|p: (u8, u8)| p.0)
}

pub open spec fn ranks_of(hist: Seq<(u8, u8)>) -> Seq<u8> {
    hist.map_values(|p: (u8, u8)| p.1)
}

/// The value of a five-card hand: its class, then the counts of its ranks,
/// then the ranks, each list from the most important entry down.
pub open spec fn value_of_hand(h: Seq<Card>) -> (int, Seq<u8>, Seq<u8>) {
    (category(h), counts_of(scored_histogram(h)), ranks_of(scored_histogram(h)))
}

/// Five cards that can be scored: every rank fits in a byte and not all five
/// cards share one rank.
pub open spec fn hand_valid(h: Seq<Card>) -> bool {
    &&& h.len() == 5
    &&& forall|k: int| 0 <= k < 5 ==> #[trigger] h[k].value <= 255
    &&& (rank(h[1]) != rank(h[0]) || rank(h[2]) != rank(h[0]) || rank(h[3]) != rank(h[0]) || rank(
        h[4],
    ) != rank(h[0]))
}

// ------------------------------------------------------------------
// Lexicographic comparison
// ------------------------------------------------------------------

/// Lexicographic comparison of byte lists (-1, 0 or 1), a proper prefix
/// being the smaller.
pub open spec fn seq_order(a: Seq<u8>, b: Seq<u8>) -> int
    decreases a.len(),
{
    if a.len() == 0 {
        if b.len() == 0 {
            0
        } else {
            -1
        }
    } else if b.len() == 0 {
        1
    } else if a[0] < b[0] {
        -1
    } else if a[0] > b[0] {
        1
    } else {
        seq_order(a.drop_first(), b.drop_first())
    }
}

pub open spec fn value_order(x: (int, Seq<u8>, Seq<u8>), y: (int, Seq<u8>, Seq<u8>)) -> int {
    if x.0 < y.0 {
        -1
    } else if x.0 > y.0 {
        1
    } else if seq_order(x.1, y.1) != 0 {
        seq_order(x.1, y.1)
    } else {
        seq_order(x.2, y.2)
    }
}

/// How two five-card hands compare: -1 if `a` is worse, 0 if they tie, 1 if
/// `a` is better.
pub open spec fn hand_order(a: Seq<Card>, b: Seq<Card>) -> int {
    value_order(value_of_hand(a), value_of_hand(b))
}


// ------------------------------------------------------------------
// Properties of the comparison
// ------------------------------------------------------------------

proof fn lemma_seq_order_basic(a: Seq<u8>, b: Seq<u8>)
    ensures
        -1 <= seq_order(a, b) <= 1,
        seq_order(a, b) == -seq_order(b, a),
        seq_order(a, b) == 0 <==> a == b,
    decreases a.len(),
{
    if a.len() != 0 && b.len() != 0 && a[0] == b[0] {
        lemma_seq_order_basic(a.drop_first(), b.drop_first());
        if a.drop_first() == b.drop_first() {
            assert forall|i: int| 0 <= i < a.len() implies a[i] == b[i] by {
                if i > 0 {
                    assert(a[i] == a.drop_first()[i - 1]);
                    assert(b[i] == b.drop_first()[i - 1]);
                }
            }
            assert(a =~= b);
        }
    }
    if a.len() == 0 && b.len() == 0 {
        assert(a =~= b);
    }
    if a == b {
        if a.len() != 0 {
            assert(a.drop_first() == b.drop_first());
        }
    }
}

proof fn lemma_seq_order_trans(a: Seq<u8>, b: Seq<u8>, c: Seq<u8>)
    requires
        seq_order(a, b) <= 0,
        seq_order(b, c) <= 0,
    ensures
        seq_order(a, c) <= 0,
    decreases a.len(),
{
    if a.len() != 0 && b.len() != 0 && c.len() != 0 && a[0] == b[0] && b[0] == c[0] {
        lemma_seq_order_trans(a.drop_first(), b.drop_first(), c.drop_first());
    }
}

proof fn lemma_value_order_basic(x: (int, Seq<u8>, Seq<u8>), y: (int, Seq<u8>, Seq<u8>))
    ensures
        -1 <= value_order(x, y) <= 1,
        value_order(x, y) == -value_order(y, x),
        value_order(x, y) == 0 <==> x == y,
{
    lemma_seq_order_basic(x.1, y.1);
    lemma_seq_order_basic(x.2, y.2);
}

proof fn lemma_value_order_trans(
    x: (int, Seq<u8>, Seq<u8>),
    y: (int, Seq<u8>, Seq<u8>),
    z: (int, Seq<u8>, Seq<u8>),
)
    requires
        value_order(x, y) <= 0,
        value_order(y, z) <= 0,
    ensures
        value_order(x, z) <= 0,
{
    lemma_value_order_basic(x, y);
    lemma_value_order_basic(y, z);
    lemma_value_order_basic(x, z);
    lemma_seq_order_basic(x.1, y.1);
    lemma_seq_order_basic(y.1, z.1);
    lemma_seq_order_basic(x.1, z.1);
    if x.0 == y.0 && y.0 == z.0 {
        lemma_seq_order_trans(x.1, y.1, z.1);
        if seq_order(x.1, y.1) == 0 && seq_order(y.1, z.1) == 0 {
            lemma_seq_order_trans(x.2, y.2, z.2);
        }
    }
}

/// A hand ties with itself.
pub proof fn lemma_hand_order_reflexive(a: Seq<Card>)
    ensures
        hand_order(a, a) == 0,
{
    lemma_value_order_basic(value_of_hand(a), value_of_hand(a));
}

/// Comparing the other way round gives the opposite answer, and two hands tie
/// exactly when they have the same value.
pub proof fn lemma_hand_order_antisymmetric(a: Seq<Card>, b: Seq<Card>)
    ensures
        -1 <= hand_order(a, b) <= 1,
        hand_order(a, b) == -hand_order(b, a),
        hand_order(a, b) == 0 <==> value_of_hand(a) == value_of_hand(b),
{
    lemma_value_order_basic(value_of_hand(a), value_of_hand(b));
}

/// If `a` is no better than `b` and `b` no better than `c`, then `a` is no
/// better than `c`; the same holds with "worse" in place of "no better".
pub proof fn lemma_hand_order_transitive(a: Seq<Card>, b: Seq<Card>, c: Seq<Card>)
    requires
        hand_order(a, b) <= 0,
        hand_order(b, c) <= 0,
    ensures
        hand_order(a, c) <= 0,
        hand_order(a, b) < 0 || hand_order(b, c) < 0 ==> hand_order(a, c) < 0,
{
    lemma_value_order_trans(value_of_hand(a), value_of_hand(b), value_of_hand(c));
    lemma_value_order_basic(value_of_hand(a), value_of_hand(b));
    lemma_value_order_basic(value_of_hand(b), value_of_hand(c));
    lemma_value_order_basic(value_of_hand(a), value_of_hand(c));
}

// ------------------------------------------------------------------
// The histogram is unique
// ------------------------------------------------------------------

proof fn lemma_sorted_unique(a: Seq<(u8, u8)>, b: Seq<(u8, u8)>)
    requires
        forall|i: int, j: int| 0 <= i < j < a.len() ==> pair_gt(#[trigger] a[i], #[trigger] a[j]),
        forall|i: int, j: int| 0 <= i < j < b.len() ==> pair_gt(#[trigger] b[i], #[trigger] b[j]),
        forall|x: (u8, u8)| a.contains(x) <==> b.contains(x),
    ensures
        a == b,
    decreases a.len(),
{
    if a.len() == 0 {
        if b.len() != 0 {
            assert(b.contains(b[0]));
        }
        assert(a =~= b);
    } else {
        assert(a.contains(a[0]));
        assert(b.len() != 0);
        assert(b.contains(b[0]));
        let j = choose|j: int| 0 <= j < b.len() && b[j] == a[0];
        let i = choose|i: int| 0 <= i < a.len() && a[i] == b[0];
        if j > 0 {
            assert(pair_gt(b[0], b[j]));
            if i > 0 {
                assert(pair_gt(a[0], a[i]));
            }
            assert(false);
        }
        let a1 = a.drop_first();
        let b1 = b.drop_first();
        assert forall|x: (u8, u8)| a1.contains(x) <==> b1.contains(x) by {
            if a1.contains(x) {
                let k = choose|k: int| 0 <= k < a1.len() && a1[k] == x;
                assert(a[k + 1] == x);
                assert(pair_gt(a[0], a[k + 1]));
                assert(a.contains(x));
                let m = choose|m: int| 0 <= m < b.len() && b[m] == x;
                assert(m != 0);
                assert(b1[m - 1] == x);
            }
            if b1.contains(x) {
                let k = choose|k: int| 0 <= k < b1.len() && b1[k] == x;
                assert(b[k + 1] == x);
                assert(pair_gt(b[0], b[k + 1]));
                assert(b.contains(x));
                let m = choose|m: int| 0 <= m < a.len() && a[m] == x;
                assert(m != 0);
                assert(a1[m - 1] == x);
            }
        }
        assert forall|i: int, j: int| 0 <= i < j < a1.len() implies pair_gt(
            #[trigger] a1[i],
            #[trigger] a1[j],
        ) by {
            assert(pair_gt(a[i + 1], a[j + 1]));
        }
        assert forall|i: int, j: int| 0 <= i < j < b1.len() implies pair_gt(
            #[trigger] b1[i],
            #[trigger] b1[j],
        ) by {
            assert(pair_gt(b[i + 1], b[j + 1]));
        }
        lemma_sorted_unique(a1, b1);
        assert forall|k: int| 0 <= k < a.len() implies a[k] == b[k] by {
            if k > 0 {
                assert(a[k] == a1[k - 1]);
                assert(b[k] == b1[k - 1]);
            }
        }
        assert(a =~= b);
    }
}

proof fn lemma_histogram_contains(h: Seq<Card>, a: Seq<(u8, u8)>, b: Seq<(u8, u8)>, x: (u8, u8))
    requires
        h.len() == 5,
        is_histogram(h, a),
        is_histogram(h, b),
        a.contains(x),
    ensures
        b.contains(x),
{
    let i = choose|i: int| 0 <= i < a.len() && a[i] == x;
    assert(a[i].0 > 0);
    let r = x.1 as int;
    let k: int = if rank(h[0]) == r {
        0
    } else if rank(h[1]) == r {
        1
    } else if rank(h[2]) == r {
        2
    } else if rank(h[3]) == r {
        3
    } else {
        4
    };
    assert(rank(h[k]) == r);
    assert(rank_present(b, rank(h[k])));
    let j = choose|j: int| 0 <= j < b.len() && b[j].1 == r;
    assert(b[j].0 == rank_count(h, r));
    assert(b[j] == x);
}

/// Two histograms of the same five cards are equal.
proof fn lemma_histogram_unique(h: Seq<Card>, a: Seq<(u8, u8)>, b: Seq<(u8, u8)>)
    requires
        h.len() == 5,
        is_histogram(h, a),
        is_histogram(h, b),
    ensures
        a == b,
{
    assert forall|x: (u8, u8)| a.contains(x) <==> b.contains(x) by {
        if a.contains(x) {
            lemma_histogram_contains(h, a, b, x);
        }
        if b.contains(x) {
            lemma_histogram_contains(h, b, a, x);
        }
    }
    lemma_sorted_unique(a, b);
}


/// Where `x` goes in a list sorted from the greatest pair down.
pub open spec fn insert_pos(x: (u8, u8), hist: Seq<(u8, u8)>) -> int
    decreases hist.len(),
{
    if hist.len() == 0 {
        0
    } else if pair_gt(x, hist[0]) {
        0
    } else {
        1 + insert_pos(x, hist.drop_first())
    }
}

proof fn lemma_insert_pos(x: (u8, u8), hist: Seq<(u8, u8)>)
    ensures
        0 <= insert_pos(x, hist) <= hist.len(),
        forall|q: int| 0 <= q < insert_pos(x, hist) ==> !pair_gt(x, #[trigger] hist[q]),
        insert_pos(x, hist) < hist.len() ==> pair_gt(x, hist[insert_pos(x, hist)]),
    decreases hist.len(),
{
    if hist.len() > 0 && !pair_gt(x, hist[0]) {
        let rest = hist.drop_first();
        lemma_insert_pos(x, rest);
        assert forall|q: int| 0 <= q < insert_pos(x, hist) implies !pair_gt(x, #[trigger] hist[q]) by {
            if q > 0 {
                assert(hist[q] == rest[q - 1]);
            }
        }
        if insert_pos(x, hist) < hist.len() {
            assert(hist[insert_pos(x, hist)] == rest[insert_pos(x, rest)]);
        }
    }
}

/// The histogram of the first `i` cards of a hand, counted over all five:
/// built as the ranks are met, each new rank inserted in its place.
proof fn lemma_histogram_prefix(h: Seq<Card>, i: int) -> (hist: Seq<(u8, u8)>)
    requires
        h.len() == 5,
        0 <= i <= 5,
        forall|k: int| 0 <= k < 5 ==> #[trigger] h[k].value <= 255,
    ensures
        forall|j: int|
            0 <= j < hist.len() ==> #[trigger] hist[j].0 > 0 && hist[j].0 == rank_count(h, hist[j].1 as int),
        forall|k: int| 0 <= k < i ==> #[trigger] rank_present(hist, rank(h[k])),
        strictly_sorted(hist),
    decreases i,
{
    if i == 0 {
        Seq::empty()
    } else {
        let old_h = lemma_histogram_prefix(h, i - 1);
        let r = rank(h[i - 1]);
        assert(0 <= r <= 255);
        let ru = r as u8;
        if exists|q: int| 0 <= q < old_h.len() && old_h[q].1 == ru {
            let q = choose|q: int| 0 <= q < old_h.len() && old_h[q].1 == ru;
            assert(rank_present(old_h, rank(h[i - 1])));
            old_h
        } else {
            let c = rank_count(h, r);
            assert(0 < c <= 5);
            let x = (c as u8, ru);
            lemma_insert_pos(x, old_h);
            let pos = insert_pos(x, old_h);
            let hist = old_h.insert(pos, x);
            old_h.insert_ensures(pos, x);
            assert forall|k: int| 0 <= k < i implies #[trigger] rank_present(hist, rank(h[k])) by {
                if k < i - 1 {
                    assert(rank_present(old_h, rank(h[k])));
                    let w = choose|w: int| 0 <= w < old_h.len() && old_h[w].1 == rank(h[k]);
                    if w < pos {
                        assert(hist[w] == old_h[w]);
                    } else {
                        assert(hist[w + 1] == old_h[w]);
                    }
                } else {
                    assert(hist[pos] == x);
                }
            }
            assert forall|j: int| 0 <= j < hist.len() implies #[trigger] hist[j].0 > 0 && hist[j].0
                == rank_count(h, hist[j].1 as int) by {
                if j < pos {
                    assert(hist[j] == old_h[j]);
                } else if j > pos {
                    assert(hist[j] == old_h[j - 1]);
                }
            }
            assert forall|q: int| 0 <= q < old_h.len() implies #[trigger] old_h[q].1 != x.1 by {}
            lemma_insert_sorted(old_h, pos, x);
            hist
        }
    }
}

/// Five cards whose values fit in a byte have a histogram.
proof fn lemma_histogram_exists(h: Seq<Card>)
    requires
        h.len() == 5,
        forall|k: int| 0 <= k < 5 ==> #[trigger] h[k].value <= 255,
    ensures
        is_histogram(h, histogram(h)),
{
    let hist = lemma_histogram_prefix(h, 5);
    assert(is_histogram(h, hist));
}

/// Counting the cards of rank `r` one after the other.
pub open spec fn rank_counter(r: int) -> spec_fn(Card, int) -> int {
    |c: Card, acc: int| acc + ind(rank(c) == r)
}

proof fn lemma_rank_count_fold(h: Seq<Card>, r: int)
    requires
        h.len() == 5,
    ensures
        rank_count(h, r) == h.fold_right(rank_counter(r), 0),
{
    let f = rank_counter(r);
    let h4 = h.drop_last();
    let h3 = h4.drop_last();
    let h2 = h3.drop_last();
    let h1 = h2.drop_last();
    let h0 = h1.drop_last();
    assert(h0.len() == 0);
    assert(h1.last() == h[0] && h2.last() == h[1] && h3.last() == h[2] && h4.last() == h[3]);
    let v4 = f(h[4], 0);
    let v3 = f(h[3], v4);
    let v2 = f(h[2], v3);
    let v1 = f(h[1], v2);
    let v0 = f(h[0], v1);
    assert(h0.fold_right(f, v0) == v0);
    assert(h1.fold_right(f, v1) == h0.fold_right(f, v0));
    assert(h2.fold_right(f, v2) == h1.fold_right(f, v1));
    assert(h3.fold_right(f, v3) == h2.fold_right(f, v2));
    assert(h4.fold_right(f, v4) == h3.fold_right(f, v3));
    assert(h.fold_right(f, 0) == h4.fold_right(f, v4));
}

/// Five cards rearranged count the same number of cards of every rank,
/// and each card of one arrangement is a card of the other.
proof fn lemma_rearranged_counts(h: Seq<Card>, p: Seq<Card>)
    requires
        h.len() == 5,
        p.to_multiset() == h.to_multiset(),
    ensures
        p.len() == 5,
        forall|r: int| #[trigger] rank_count(p, r) == rank_count(h, r),
        forall|k: int| 0 <= k < 5 ==> h.contains(#[trigger] p[k]),
        forall|k: int| 0 <= k < 5 ==> p.contains(#[trigger] h[k]),
{
    broadcast use vstd::seq_lib::group_to_multiset_ensures;

    assert(p.len() == 5) by {
        assert(p.to_multiset().len() == p.len());
        assert(h.to_multiset().len() == h.len());
    }
    assert forall|r: int| #[trigger] rank_count(p, r) == rank_count(h, r) by {
        let f = rank_counter(r);
        assert(commutative_foldr(f));
        lemma_fold_right_permutation(p, h, f, 0);
        lemma_rank_count_fold(p, r);
        lemma_rank_count_fold(h, r);
    }
    assert forall|k: int| 0 <= k < 5 implies h.contains(#[trigger] p[k]) by {
        assert(p.contains(p[k]));
        assert(p.to_multiset().count(p[k]) > 0);
    }
    assert forall|k: int| 0 <= k < 5 implies p.contains(#[trigger] h[k]) by {
        assert(h.contains(h[k]));
        assert(h.to_multiset().count(h[k]) > 0);
    }
}

/// A histogram of five cards is one of the same cards rearranged.
proof fn lemma_rearranged_histogram(h: Seq<Card>, p: Seq<Card>, hist: Seq<(u8, u8)>)
    requires
        h.len() == 5,
        p.len() == 5,
        forall|r: int| #[trigger] rank_count(p, r) == rank_count(h, r),
        forall|k: int| 0 <= k < 5 ==> h.contains(#[trigger] p[k]),
        is_histogram(h, hist),
    ensures
        is_histogram(p, hist),
{
    assert forall|k: int| 0 <= k < 5 implies #[trigger] rank_present(hist, rank(p[k])) by {
        assert(h.contains(p[k]));
        let j = choose|j: int| 0 <= j < h.len() && h[j] == p[k];
        assert(rank_present(hist, rank(h[j])));
    }
    assert forall|i: int| 0 <= i < hist.len() implies #[trigger] hist[i].0 > 0 && hist[i].0 == rank_count(
        p,
        hist[i].1 as int,
    ) by {
        assert(rank_count(p, hist[i].1 as int) == rank_count(h, hist[i].1 as int));
    }
}

/// Five cards of five different ranks, from the highest down, have the
/// histogram that lists each rank once, in that order.
proof fn lemma_distinct_ranks_histogram(h: Seq<Card>)
    requires
        h.len() == 5,
        forall|k: int| 0 <= k < 5 ==> 1 <= #[trigger] h[k].value <= 13,
        rank(h[0]) > rank(h[1]) > rank(h[2]) > rank(h[3]) > rank(h[4]),
    ensures
        histogram(h) == seq![
            (1u8, rank(h[0]) as u8),
            (1u8, rank(h[1]) as u8),
            (1u8, rank(h[2]) as u8),
            (1u8, rank(h[3]) as u8),
            (1u8, rank(h[4]) as u8),
        ],
{
    let hist = seq![
        (1u8, rank(h[0]) as u8),
        (1u8, rank(h[1]) as u8),
        (1u8, rank(h[2]) as u8),
        (1u8, rank(h[3]) as u8),
        (1u8, rank(h[4]) as u8),
    ];
    assert forall|k: int| 0 <= k < 5 implies #[trigger] rank_present(hist, rank(h[k])) by {
        assert(hist[k].1 == rank(h[k]));
    }
    assert forall|i: int| 0 <= i < hist.len() implies #[trigger] hist[i].0 > 0 && hist[i].0 == rank_count(
        h,
        hist[i].1 as int,
    ) by {
        assert(hist[i].1 == rank(h[i]));
    }
    assert(is_histogram(h, hist));
    lemma_histogram_exists(h);
    lemma_histogram_unique(h, hist, histogram(h));
}

/// Five cards of five consecutive ranks, ace high or, in the wheel, ace
/// low, are a straight (2) when their suites differ and a straight flush
/// (5) when they share one; the ranks are then listed from the top of the
/// run down.  (Their order in the hand does not matter:
/// `lemma_hand_value_order_free`.)
pub proof fn lemma_straights(h: Seq<Card>)
    requires
        h.len() == 5,
        forall|k: int| 0 <= k < 5 ==> 1 <= #[trigger] h[k].value <= 13,
        rank(h[0]) > rank(h[1]) > rank(h[2]) > rank(h[3]) > rank(h[4]),
        rank(h[0]) == rank(h[4]) + 4 || (rank(h[0]) == 14 && rank(h[1]) == 5 && rank(h[4]) == 2),
    ensures
        category(h) == if h[1].suite == h[0].suite && h[2].suite == h[0].suite && h[3].suite
            == h[0].suite && h[4].suite == h[0].suite {
            5int
        } else {
            2int
        },
        value_of_hand(h).1 == seq![1u8, 1u8, 1u8, 1u8, 1u8],
        rank(h[0]) == rank(h[4]) + 4 ==> value_of_hand(h).2 == seq![
            rank(h[0]) as u8,
            rank(h[1]) as u8,
            rank(h[2]) as u8,
            rank(h[3]) as u8,
            rank(h[4]) as u8,
        ],
        rank(h[0]) == 14 && rank(h[1]) == 5 ==> value_of_hand(h).2 == seq![5u8, 4u8, 3u8, 2u8, 1u8],
{
    lemma_distinct_ranks_histogram(h);
    let hist = histogram(h);
    if rank(h[0]) == 14 && rank(h[1]) == 5 {
        assert(hist =~= ace_high_wheel());
        assert(counts_of(ace_low_wheel()) =~= seq![1u8, 1u8, 1u8, 1u8, 1u8]);
        assert(ranks_of(ace_low_wheel()) =~= seq![5u8, 4u8, 3u8, 2u8, 1u8]);
    } else {
        assert(hist != ace_high_wheel()) by {
            if hist == ace_high_wheel() {
                assert(hist[1] == (1u8, 5u8));
            }
        }
        assert(counts_of(hist) =~= seq![1u8, 1u8, 1u8, 1u8, 1u8]);
        assert(ranks_of(hist) =~= seq![
            rank(h[0]) as u8,
            rank(h[1]) as u8,
            rank(h[2]) as u8,
            rank(h[3]) as u8,
            rank(h[4]) as u8,
        ]);
    }
}

/// The value of five cards does not depend on their order: rearranged,
/// they score the same and compare the same against every hand.
pub proof fn lemma_hand_value_order_free(h: Seq<Card>, p: Seq<Card>)
    requires
        h.len() == 5,
        p.to_multiset() == h.to_multiset(),
        forall|k: int| 0 <= k < 5 ==> #[trigger] h[k].value <= 255,
    ensures
        p.len() == 5,
        hand_valid(p) == hand_valid(h),
        value_of_hand(p) == value_of_hand(h),
        forall|x: Seq<Card>| #[trigger] hand_order(p, x) == hand_order(h, x),
        forall|x: Seq<Card>| #[trigger] hand_order(x, p) == hand_order(x, h),
{
    lemma_rearranged_counts(h, p);
    assert forall|k: int| 0 <= k < 5 implies #[trigger] p[k].value <= 255 by {
        let j = choose|j: int| 0 <= j < h.len() && h[j] == p[k];
    }
    let rh = rank(h[0]);
    let rp = rank(p[0]);
    assert(rank_count(p, rh) == rank_count(h, rh));
    assert(rank_count(p, rp) == rank_count(h, rp));
    lemma_histogram_exists(h);
    lemma_histogram_exists(p);
    lemma_rearranged_histogram(h, p, histogram(h));
    lemma_histogram_unique(p, histogram(h), histogram(p));
    assert(same_suit(p) == same_suit(h)) by {
        if same_suit(h) {
            assert forall|k: int| 0 <= k < 5 implies #[trigger] p[k].suite == h[0].suite by {
                let j = choose|j: int| 0 <= j < h.len() && h[j] == p[k];
            }
        }
        if same_suit(p) {
            assert forall|k: int| 0 <= k < 5 implies #[trigger] h[k].suite == p[0].suite by {
                let j = choose|j: int| 0 <= j < p.len() && p[j] == h[k];
            }
        }
    }
}

// ------------------------------------------------------------------
// Scoring a hand
// ------------------------------------------------------------------

fn card_rank(c: Card) -> (r: u8)
    requires
        c.value <= 255,
    ensures
        r as int == rank(c),
{
    if c.value == 1 {
        14
    } else {
        c.value as u8
    }
}

fn count_rank(ranks: &[u8; 5], r: u8) -> (n: u8)
    ensures
        n as int == ind(ranks[0] == r) + ind(ranks[1] == r) + ind(ranks[2] == r) + ind(ranks[3] == r)
            + ind(ranks[4] == r),
        n <= 5,
{
    let mut n: u8 = 0;
    if ranks[0] == r {
        n = n + 1;
    }
    if ranks[1] == r {
        n = n + 1;
    }
    if ranks[2] == r {
        n = n + 1;
    }
    if ranks[3] == r {
        n = n + 1;
    }
    if ranks[4] == r {
        n = n + 1;
    }
    n
}

pub open spec fn strictly_sorted(hist: Seq<(u8, u8)>) -> bool {
    forall|i: int, j: int| 0 <= i < j < hist.len() ==> pair_gt(#[trigger] hist[i], #[trigger] hist[j])
}

proof fn lemma_insert_sorted(old_h: Seq<(u8, u8)>, pos: int, x: (u8, u8))
    requires
        strictly_sorted(old_h),
        0 <= pos <= old_h.len(),
        forall|q: int| 0 <= q < pos ==> !pair_gt(x, #[trigger] old_h[q]),
        pos < old_h.len() ==> pair_gt(x, old_h[pos]),
        forall|q: int| 0 <= q < old_h.len() ==> #[trigger] old_h[q].1 != x.1,
    ensures
        strictly_sorted(old_h.insert(pos, x)),
{
    let h = old_h.insert(pos, x);
    old_h.insert_ensures(pos, x);
    assert forall|a: int, b: int| 0 <= a < b < h.len() implies pair_gt(
        #[trigger] h[a],
        #[trigger] h[b],
    ) by {
        if b < pos {
            assert(h[a] == old_h[a]);
            assert(h[b] == old_h[b]);
        } else if b == pos {
            assert(h[a] == old_h[a]);
            assert(!pair_gt(x, old_h[a]));
            assert(old_h[a].1 != x.1);
        } else if a < pos {
            assert(h[a] == old_h[a]);
            assert(h[b] == old_h[b - 1]);
            assert(pair_gt(old_h[a], old_h[b - 1]));
        } else if a == pos {
            assert(h[b] == old_h[b - 1]);
            assert(pair_gt(x, old_h[pos]));
            if b - 1 > pos {
                assert(pair_gt(old_h[pos], old_h[b - 1]));
            }
        } else {
            assert(h[a] == old_h[a - 1]);
            assert(h[b] == old_h[b - 1]);
            assert(pair_gt(old_h[a - 1], old_h[b - 1]));
        }
    }
}

/// Counts the ranks of five cards: the (count, rank) pairs from the greatest
/// down.
fn histogram_of(hand: &[Card; 5]) -> (hist: Vec<(u8, u8)>)
    requires
        forall|k: int| 0 <= k < 5 ==> #[trigger] hand@[k].value <= 255,
    ensures
        is_histogram(hand@, hist@),
        hist.len() <= 5,
{
    let ranks: [u8; 5] = [
        card_rank(hand[0]),
        card_rank(hand[1]),
        card_rank(hand[2]),
        card_rank(hand[3]),
        card_rank(hand[4]),
    ];
    assert(forall|k: int| 0 <= k < 5 ==> ranks@[k] as int == rank(#[trigger] hand@[k]));
    let mut hist: Vec<(u8, u8)> = Vec::new();
    let mut i: usize = 0;
    while i < 5
        invariant
            0 <= i <= 5,
            forall|k: int| 0 <= k < 5 ==> ranks@[k] as int == rank(#[trigger] hand@[k]),
            forall|j: int|
                0 <= j < hist@.len() ==> #[trigger] hist@[j].0 > 0 && hist@[j].0 == rank_count(
                    hand@,
                    hist@[j].1 as int,
                ),
            forall|k: int| 0 <= k < i ==> #[trigger] rank_present(hist@, rank(hand@[k])),
            strictly_sorted(hist@),
            hist.len() <= i,
        decreases 5 - i,
    {
        let r = ranks[i];
        let mut found = false;
        let mut j: usize = 0;
        while j < hist.len()
            invariant
                j <= hist.len(),
                found <==> exists|q: int| 0 <= q < j && #[trigger] hist@[q].1 == r,
            decreases hist.len() - j,
        {
            if hist[j].1 == r {
                found = true;
            }
            j = j + 1;
        }
        if found {
            proof {
                let q = choose|q: int| 0 <= q < hist@.len() && #[trigger] hist@[q].1 == r;
                assert(rank_present(hist@, rank(hand@[i as int])));
            }
        } else {
            let c = count_rank(&ranks, r);
            assert(c as int == rank_count(hand@, r as int));
            assert(c > 0);
            let mut pos: usize = 0;
            while pos < hist.len() && !(c > hist[pos].0 || (c == hist[pos].0 && r > hist[pos].1))
                invariant
                    pos <= hist.len(),
                    forall|q: int| 0 <= q < pos ==> !pair_gt((c, r), #[trigger] hist@[q]),
                decreases hist.len() - pos,
            {
                pos = pos + 1;
            }
            let ghost old_h = hist@;
            hist.insert(pos, (c, r));
            proof {
                old_h.insert_ensures(pos as int, (c, r));
                assert forall|k: int| 0 <= k < i + 1 implies #[trigger] rank_present(
                    hist@,
                    rank(hand@[k]),
                ) by {
                    if k < i {
                        assert(rank_present(old_h, rank(hand@[k])));
                        let w = choose|w: int| 0 <= w < old_h.len() && old_h[w].1 == rank(hand@[k]);
                        if w < pos {
                            assert(hist@[w] == old_h[w]);
                        } else {
                            assert(hist@[w + 1] == old_h[w]);
                        }
                    } else {
                        assert(hist@[pos as int] == (c, r));
                    }
                }
                assert forall|j: int| 0 <= j < hist@.len() implies #[trigger] hist@[j].0 > 0
                    && hist@[j].0 == rank_count(hand@, hist@[j].1 as int) by {
                    if j < pos {
                        assert(hist@[j] == old_h[j]);
                    } else if j > pos {
                        assert(hist@[j] == old_h[j - 1]);
                    }
                }
                lemma_insert_sorted(old_h, pos as int, (c, r));
            }
        }
        i = i + 1;
    }
    hist
}

fn project_counts(hist: &Vec<(u8, u8)>) -> (res: (Vec<u8>, Vec<u8>))
    ensures
        res.0@ == counts_of(hist@),
        res.1@ == ranks_of(hist@),
{
    let mut counts: Vec<u8> = Vec::new();
    let mut ranks: Vec<u8> = Vec::new();
    let mut i: usize = 0;
    while i < hist.len()
        invariant
            i <= hist.len(),
            counts@.len() == i,
            ranks@.len() == i,
            forall|j: int| 0 <= j < i ==> #[trigger] counts@[j] == hist@[j].0,
            forall|j: int| 0 <= j < i ==> #[trigger] ranks@[j] == hist@[j].1,
        decreases hist.len() - i,
    {
        counts.push(hist[i].0);
        ranks.push(hist[i].1);
        i = i + 1;
    }
    assert(counts@ =~= counts_of(hist@));
    assert(ranks@ =~= ranks_of(hist@));
    (counts, ranks)
}

proof fn lemma_histogram_facts(h: Seq<Card>, hist: Seq<(u8, u8)>)
    requires
        hand_valid(h),
        is_histogram(h, hist),
    ensures
        hist == histogram(h),
        hist.len() >= 2,
        forall|j: int| 0 <= j < hist.len() ==> #[trigger] hist[j].0 <= 5,
{
    lemma_histogram_unique(h, hist, histogram(h));
    assert(rank_present(hist, rank(h[0])));
    let i0 = choose|i: int| 0 <= i < hist.len() && hist[i].1 == rank(h[0]);
    let k: int = if rank(h[1]) != rank(h[0]) {
        1
    } else if rank(h[2]) != rank(h[0]) {
        2
    } else if rank(h[3]) != rank(h[0]) {
        3
    } else {
        4
    };
    assert(rank_present(hist, rank(h[k])));
    let i1 = choose|i: int| 0 <= i < hist.len() && hist[i].1 == rank(h[k]);
    assert(i0 != i1);
    assert forall|j: int| 0 <= j < hist.len() implies #[trigger] hist[j].0 <= 5 by {
        assert(hist[j].0 == rank_count(h, hist[j].1 as int));
    }
}

/// Counts the ace of the wheel A-2-3-4-5 as 1.
fn wheel_adjusted(hist: Vec<(u8, u8)>) -> (res: Vec<(u8, u8)>)
    ensures
        res@ == (if hist@ == ace_high_wheel() {
            ace_low_wheel()
        } else {
            hist@
        }),
{
    if hist.len() == 5 && hist[0].0 == 1 && hist[0].1 == 14 && hist[1].0 == 1 && hist[1].1 == 5
        && hist[2].0 == 1 && hist[2].1 == 4 && hist[3].0 == 1 && hist[3].1 == 3 && hist[4].0 == 1
        && hist[4].1 == 2 {
        assert(hist@ =~= ace_high_wheel());
        let mut res: Vec<(u8, u8)> = Vec::new();
        res.push((1, 5));
        res.push((1, 4));
        res.push((1, 3));
        res.push((1, 2));
        res.push((1, 1));
        assert(res@ =~= ace_low_wheel());
        res
    } else {
        assert(hist@ != ace_high_wheel()) by {
            if hist@ == ace_high_wheel() {
                assert(hist@[0] == (1u8, 14u8));
                assert(hist@[1] == (1u8, 5u8));
                assert(hist@[2] == (1u8, 4u8));
                assert(hist@[3] == (1u8, 3u8));
                assert(hist@[4] == (1u8, 2u8));
            }
        }
        hist
    }
}

fn hand_class(hand: &[Card; 5], hist: &Vec<(u8, u8)>) -> (class: u8)
    requires
        hist@ == scored_histogram(hand@),
        hist@.len() >= 2,
        forall|j: int| 0 <= j < hist@.len() ==> #[trigger] hist@[j].0 <= 5,
    ensures
        class as int == category(hand@),
{
    if hist.len() < 5 {
        if hist[0].0 + hist[1].0 == 5 {
            4
        } else {
            0
        }
    } else {
        let flush: u8 = if hand[1].suite == hand[0].suite && hand[2].suite == hand[0].suite
            && hand[3].suite == hand[0].suite && hand[4].suite == hand[0].suite {
            3
        } else {
            0
        };
        let straight: u8 = if hist[0].1 as u16 == hist[4].1 as u16 + 4 {
            2
        } else {
            0
        };
        flush + straight
    }
}

/// The value of a hand as (class, counts of its ranks, its ranks); values
/// compare lexicographically.
pub fn hand_value(hand: &[Card; 5]) -> (res: (u8, Vec<u8>, Vec<u8>))
    requires
        hand_valid(hand@),
    ensures
        res.0 as int == value_of_hand(hand@).0,
        res.1@ == value_of_hand(hand@).1,
        res.2@ == value_of_hand(hand@).2,
{
    let hist0 = histogram_of(hand);
    proof {
        lemma_histogram_facts(hand@, hist0@);
    }
    let hist = wheel_adjusted(hist0);
    assert(hist@ == scored_histogram(hand@));
    assert(forall|j: int| 0 <= j < hist@.len() ==> #[trigger] hist@[j].0 <= 5);
    let class = hand_class(hand, &hist);
    let (counts, ranks) = project_counts(&hist);
    (class, counts, ranks)
}

fn lex_order(a: &Vec<u8>, b: &Vec<u8>) -> (c: i8)
    ensures
        c as int == seq_order(a@, b@),
{
    let mut i: usize = 0;
    assert(a@.subrange(0, a@.len() as int) =~= a@);
    assert(b@.subrange(0, b@.len() as int) =~= b@);
    while i < a.len() && i < b.len()
        invariant
            i <= a.len(),
            i <= b.len(),
            seq_order(a@, b@) == seq_order(
                a@.subrange(i as int, a@.len() as int),
                b@.subrange(i as int, b@.len() as int),
            ),
        decreases a.len() - i,
    {
        let ghost sa = a@.subrange(i as int, a@.len() as int);
        let ghost sb = b@.subrange(i as int, b@.len() as int);
        assert(sa[0] == a@[i as int]);
        assert(sb[0] == b@[i as int]);
        if a[i] < b[i] {
            return -1;
        }
        if a[i] > b[i] {
            return 1;
        }
        assert(sa.drop_first() =~= a@.subrange(i + 1, a@.len() as int));
        assert(sb.drop_first() =~= b@.subrange(i + 1, b@.len() as int));
        i = i + 1;
    }
    let ghost sa = a@.subrange(i as int, a@.len() as int);
    let ghost sb = b@.subrange(i as int, b@.len() as int);
    if a.len() == i && b.len() == i {
        assert(sa.len() == 0 && sb.len() == 0);
        0
    } else if a.len() == i {
        assert(sa.len() == 0 && sb.len() != 0);
        -1
    } else {
        assert(sa.len() != 0 && sb.len() == 0);
        1
    }
}

/// Compares two hands: -1 if `a` is worse, 0 on a tie, 1 if `a` is better.
pub fn hand_order_exec(a: &[Card; 5], b: &[Card; 5]) -> (c: i8)
    requires
        hand_valid(a@),
        hand_valid(b@),
    ensures
        c as int == hand_order(a@, b@),
{
    let va = hand_value(a);
    let vb = hand_value(b);
    if va.0 < vb.0 {
        -1
    } else if va.0 > vb.0 {
        1
    } else {
        let c1 = lex_order(&va.1, &vb.1);
        if c1 != 0 {
            c1
        } else {
            lex_order(&va.2, &vb.2)
        }
    }
}


/// Ranks two hands.
pub fn compare_hands(hand1: &[Card; 5], hand2: &[Card; 5]) -> (res: Ordering)
    requires
        hand_valid(hand1@),
        hand_valid(hand2@),
    ensures
        (res == Ordering::Less) == (hand_order(hand1@, hand2@) < 0),
        (res == Ordering::Equal) == (hand_order(hand1@, hand2@) == 0),
        (res == Ordering::Greater) == (hand_order(hand1@, hand2@) > 0),
{
    let c = hand_order_exec(hand1, hand2);
    if c < 0 {
        Ordering::Less
    } else if c == 0 {
        Ordering::Equal
    } else {
        Ordering::Greater
    }
}

impl Hand {
    /// Ranks this hand against another one.
    pub fn cmp(&self, other: &Hand) -> (res: Ordering)
        requires
            hand_valid(self.cards@),
            hand_valid(other.cards@),
        ensures
            (res == Ordering::Less) == (hand_order(self.cards@, other.cards@) < 0),
            (res == Ordering::Equal) == (hand_order(self.cards@, other.cards@) == 0),
            (res == Ordering::Greater) == (hand_order(self.cards@, other.cards@) > 0),
    {
        compare_hands(&self.cards, &other.cards)
    }
}

// ------------------------------------------------------------------
// The best five of several cards
// ------------------------------------------------------------------

/// Five positions into a list of `n` cards, in increasing order.
pub open spec fn is_combo(n: int, q: (int, int, int, int, int)) -> bool {
    0 <= q.0 < q.1 < q.2 < q.3 < q.4 < n
}

pub open spec fn pick(h: Seq<Card>, q: (int, int, int, int, int)) -> Seq<Card> {
    seq![h[q.0], h[q.1], h[q.2], h[q.3], h[q.4]]
}

/// The order in which the five-card selections are visited: lexicographic
/// on the positions.
pub open spec fn combo_lt(p: (int, int, int, int, int), q: (int, int, int, int, int)) -> bool {
    p.0 < q.0 || (p.0 == q.0 && (p.1 < q.1 || (p.1 == q.1 && (p.2 < q.2 || (p.2 == q.2 && (p.3
        < q.3 || (p.3 == q.3 && p.4 < q.4)))))))
}

/// Every five-card selection of `h` can be scored.
pub open spec fn combos_valid(h: Seq<Card>) -> bool {
    forall|q: (int, int, int, int, int)| #[trigger] is_combo(h.len() as int, q) ==> hand_valid(pick(h, q))
}

/// `best` (taken at `bq`) is at least as good as every selection visited
/// before `cur`, and better than every such selection visited after `bq`.
pub open spec fn best_so_far(
    h: Seq<Card>,
    best: Seq<Card>,
    bq: (int, int, int, int, int),
    cur: (int, int, int, int, int),
) -> bool {
    &&& is_combo(h.len() as int, bq)
    &&& best == pick(h, bq)
    &&& (bq == cur || combo_lt(bq, cur))
    &&& forall|p: (int, int, int, int, int)|
        #[trigger] is_combo(h.len() as int, p) && combo_lt(p, cur) ==> hand_order(best, pick(h, p))
            >= 0 && (combo_lt(bq, p) ==> hand_order(best, pick(h, p)) > 0)
}

proof fn lemma_visit(
    h: Seq<Card>,
    best: Seq<Card>,
    bq: (int, int, int, int, int),
    cur: (int, int, int, int, int),
    next: (int, int, int, int, int),
    new_best: Seq<Card>,
    new_bq: (int, int, int, int, int),
)
    requires
        best_so_far(h, best, bq, cur),
        is_combo(h.len() as int, cur),
        combo_lt(cur, next),
        forall|p: (int, int, int, int, int)|
            #[trigger] is_combo(h.len() as int, p) ==> (combo_lt(p, next) <==> (combo_lt(p, cur)
                || p == cur)),
        (hand_order(best, pick(h, cur)) <= 0 && new_best == pick(h, cur) && new_bq == cur) || (
        hand_order(best, pick(h, cur)) > 0 && new_best == best && new_bq == bq),
    ensures
        best_so_far(h, new_best, new_bq, next),
{
    let n = h.len() as int;
    let cand = pick(h, cur);
    assert forall|p: (int, int, int, int, int)|
        #[trigger] is_combo(n, p) && combo_lt(p, next) implies hand_order(new_best, pick(h, p))
        >= 0 && (combo_lt(new_bq, p) ==> hand_order(new_best, pick(h, p)) > 0) by {
        lemma_hand_order_antisymmetric(best, cand);
        if p == cur {
            lemma_hand_order_reflexive(cand);
        } else {
            assert(combo_lt(p, cur));
            assert(hand_order(best, pick(h, p)) >= 0);
            if hand_order(best, cand) <= 0 {
                lemma_hand_order_antisymmetric(best, pick(h, p));
                lemma_hand_order_transitive(pick(h, p), best, cand);
                lemma_hand_order_antisymmetric(cand, pick(h, p));
            }
        }
    }
}

proof fn lemma_same_visits(
    n: int,
    cur: (int, int, int, int, int),
    next: (int, int, int, int, int),
    h: Seq<Card>,
    best: Seq<Card>,
    bq: (int, int, int, int, int),
)
    requires
        n == h.len(),
        best_so_far(h, best, bq, cur),
        bq == next || combo_lt(bq, next),
        forall|p: (int, int, int, int, int)|
            #[trigger] is_combo(n, p) ==> (combo_lt(p, next) <==> combo_lt(p, cur)),
    ensures
        best_so_far(h, best, bq, next),
{
}

/// `r` is the selection of five of the cards `h` that `best5` returns: no
/// selection is better, and every selection visited after it is worse.
pub open spec fn best_selection(h: Seq<Card>, r: Seq<Card>) -> bool {
    &&& exists|q: (int, int, int, int, int)|
        #[trigger] is_combo(h.len() as int, q) && r == pick(h, q) && forall|
            p: (int, int, int, int, int),
        | #[trigger] is_combo(h.len() as int, p) && combo_lt(q, p) ==> hand_order(r, pick(h, p)) > 0
    &&& forall|p: (int, int, int, int, int)|
        #[trigger] is_combo(h.len() as int, p) ==> hand_order(r, pick(h, p)) >= 0
}

/// The best five-card hand among the cards: of the equally good selections
/// the one visited last, the selections being visited in lexicographic
/// order of their positions.
pub fn best5(hand: &Vec<Card>) -> (res: Hand)
    requires
        hand@.len() >= 5,
        hand@.len() == 5 || combos_valid(hand@),
    ensures
        best_selection(hand@, res.cards@),
{
    let n = hand.len();
    let mut best: [Card; 5] = [hand[0], hand[1], hand[2], hand[3], hand[4]];
    let ghost h = hand@;
    let ghost first: (int, int, int, int, int) = (0, 1, 2, 3, 4);
    let ghost mut bq: (int, int, int, int, int) = first;
    assert(best@ =~= pick(h, first));
    if n == 5 {
        proof {
            lemma_hand_order_reflexive(best@);
            assert forall|p: (int, int, int, int, int)| #[trigger] is_combo(5, p) implies p == first by {
            }
            assert(is_combo(5, first));
        }
        return Hand { cards: best };
    }
    let mut a: usize = 0;
    while a < n - 4
        invariant
            n == h.len(),
            h == hand@,
            n > 5,
            combos_valid(h),
            a <= n - 4,
            best_so_far(h, best@, bq, (a as int, a + 1, a + 2, a + 3, a + 4)),
        decreases n - a,
    {
        let mut b: usize = a + 1;
        while b < n - 3
            invariant
                n == h.len(),
                h == hand@,
                n > 5,
                combos_valid(h),
                a < n - 4,
                a < b <= n - 3,
                best_so_far(h, best@, bq, (a as int, b as int, b + 1, b + 2, b + 3)),
            decreases n - b,
        {
            let mut c: usize = b + 1;
            while c < n - 2
                invariant
                    n == h.len(),
                    h == hand@,
                    n > 5,
                    combos_valid(h),
                    a < b < n - 3,
                    b < c <= n - 2,
                    best_so_far(h, best@, bq, (a as int, b as int, c as int, c + 1, c + 2)),
                decreases n - c,
            {
                let mut d: usize = c + 1;
                while d < n - 1
                    invariant
                        n == h.len(),
                        h == hand@,
                        n > 5,
                        combos_valid(h),
                        a < b < c < n - 2,
                        c < d <= n - 1,
                        best_so_far(h, best@, bq, (a as int, b as int, c as int, d as int, d + 1)),
                    decreases n - d,
                {
                    let mut e: usize = d + 1;
                    while e < n
                        invariant
                            n == h.len(),
                            h == hand@,
                            n > 5,
                            combos_valid(h),
                            a < b < c < d < n - 1,
                            d < e <= n,
                            best_so_far(
                                h,
                                best@,
                                bq,
                                (a as int, b as int, c as int, d as int, e as int),
                            ),
                        decreases n - e,
                    {
                        let ghost cur: (int, int, int, int, int) = (
                            a as int,
                            b as int,
                            c as int,
                            d as int,
                            e as int,
                        );
                        let ghost next: (int, int, int, int, int) = (
                            a as int,
                            b as int,
                            c as int,
                            d as int,
                            e + 1,
                        );
                        let cand: [Card; 5] = [hand[a], hand[b], hand[c], hand[d], hand[e]];
                        assert(cand@ =~= pick(h, cur));
                        assert(is_combo(n as int, cur));
                        assert(is_combo(n as int, bq));
                        let ghost old_best = best@;
                        let ghost old_bq = bq;
                        let o = hand_order_exec(&best, &cand);
                        if o <= 0 {
                            best = cand;
                            proof {
                                bq = cur;
                            }
                        }
                        proof {
                            lemma_visit(h, old_best, old_bq, cur, next, best@, bq);
                        }
                        e = e + 1;
                    }
                    proof {
                        lemma_same_visits(
                            n as int,
                            (a as int, b as int, c as int, d as int, n as int),
                            (a as int, b as int, c as int, d + 1, d + 2),
                            h,
                            best@,
                            bq,
                        );
                    }
                    d = d + 1;
                }
                proof {
                    lemma_same_visits(
                        n as int,
                        (a as int, b as int, c as int, n - 1, n as int),
                        (a as int, b as int, c + 1, c + 2, c + 3),
                        h,
                        best@,
                        bq,
                    );
                }
                c = c + 1;
            }
            proof {
                lemma_same_visits(
                    n as int,
                    (a as int, b as int, n - 2, n - 1, n as int),
                    (a as int, b + 1, b + 2, b + 3, b + 4),
                    h,
                    best@,
                    bq,
                );
            }
            b = b + 1;
        }
        proof {
            lemma_same_visits(
                n as int,
                (a as int, n - 3, n - 2, n - 1, n as int),
                (a + 1, a + 2, a + 3, a + 4, a + 5),
                h,
                best@,
                bq,
            );
        }
        a = a + 1;
    }
    proof {
        let last: (int, int, int, int, int) = (n - 4, n - 3, n - 2, n - 1, n as int);
        assert forall|p: (int, int, int, int, int)| #[trigger] is_combo(n as int, p) implies combo_lt(
            p,
            last,
        ) by {
        }
        assert(is_combo(n as int, bq));
    }
    Hand { cards: best }
}


// ------------------------------------------------------------------
// Writing and reading cards
// ------------------------------------------------------------------

/// The letter of a suite: c, s, h or d.
pub open spec fn suite_char(s: Suite) -> char {
    match s {
        Suite::Clubs => 'c',
        Suite::Spades => 's',
        Suite::Hearts => 'h',
        Suite::Diamonds => 'd',
    }
}

/// The symbol of a card value: A, 2 to 9, T, J, Q, K.
pub open spec fn value_char(v: u32) -> char {
    if v == 1 {
        'A'
    } else if v == 10 {
        'T'
    } else if v == 11 {
        'J'
    } else if v == 12 {
        'Q'
    } else if v == 13 {
        'K'
    } else {
        ((v + 48) as u32) as char
    }
}

/// The value a symbol stands for, when it stands for one: A, T, J, Q, K and
/// the decimal digits (a digit d reads as d).
pub open spec fn char_value(c: char) -> Option<u32> {
    if c == 'A' {
        Some(1)
    } else if c == 'T' {
        Some(10)
    } else if c == 'J' {
        Some(11)
    } else if c == 'Q' {
        Some(12)
    } else if c == 'K' {
        Some(13)
    } else if '0' <= c <= '9' {
        Some((c as u32 - 48) as u32)
    } else {
        None
    }
}

pub open spec fn char_suite(c: char) -> Option<Suite> {
    if c == 'c' {
        Some(Suite::Clubs)
    } else if c == 's' {
        Some(Suite::Spades)
    } else if c == 'h' {
        Some(Suite::Hearts)
    } else if c == 'd' {
        Some(Suite::Diamonds)
    } else {
        None
    }
}

/// The two characters `v` and `s` name a card.
pub open spec fn card_chars_valid(v: char, s: char) -> bool {
    char_value(v) is Some && char_suite(s) is Some
}

pub open spec fn card_of_chars(v: char, s: char) -> Card {
    Card { value: char_value(v)->0, suite: char_suite(s)->0 }
}

/// Reading back the code of a card gives the card.
pub proof fn lemma_card_code_round_trip(c: Card)
    requires
        1 <= c.value <= 13,
    ensures
        card_chars_valid(value_char(c.value), suite_char(c.suite)),
        card_of_chars(value_char(c.value), suite_char(c.suite)) == c,
{
}

fn read_card(v: char, s: char) -> (card: Card)
    requires
        card_chars_valid(v, s),
    ensures
        card == card_of_chars(v, s),
{
    let value: u32 = match v {
        'A' => 1,
        'T' => 10,
        'J' => 11,
        'Q' => 12,
        'K' => 13,
        _ => v as u32 - 48,
    };
    let suite = match s {
        'c' => Suite::Clubs,
        's' => Suite::Spades,
        'h' => Suite::Hearts,
        _ => Suite::Diamonds,
    };
    Card { value, suite }
}

impl Suite {
    /// The suite's letter.
    pub fn to_string(&self) -> (res: String)
        ensures
            res@ == seq![suite_char(*self)],
    {
        let s = match self {
            Suite::Clubs => "c",
            Suite::Spades => "s",
            Suite::Hearts => "h",
            Suite::Diamonds => "d",
        };
        proof {
            reveal_strlit("c");
            reveal_strlit("s");
            reveal_strlit("h");
            reveal_strlit("d");
        }
        String::from_str(s)
    }
}

impl Card {
    /// Reads a card from its code, such as "Ah" or "Td": the value symbol
    /// followed by the suite letter.
    pub fn from(code: &str) -> (card: Card)
        requires
            code@.len() >= 2,
            card_chars_valid(code@[0], code@[1]),
        ensures
            card == card_of_chars(code@[0], code@[1]),
    {
        read_card(code.get_char(0), code.get_char(1))
    }

    /// The card's code: value symbol then suite letter.
    pub fn to_string(&self) -> (res: String)
        requires
            1 <= self.value <= 13,
        ensures
            res@ == seq![value_char(self.value), suite_char(self.suite)],
    {
        let v = match self.value {
            1 => "A",
            2 => "2",
            3 => "3",
            4 => "4",
            5 => "5",
            6 => "6",
            7 => "7",
            8 => "8",
            9 => "9",
            10 => "T",
            11 => "J",
            12 => "Q",
            _ => "K",
        };
        proof {
            reveal_strlit("A");
            reveal_strlit("2");
            reveal_strlit("3");
            reveal_strlit("4");
            reveal_strlit("5");
            reveal_strlit("6");
            reveal_strlit("7");
            reveal_strlit("8");
            reveal_strlit("9");
            reveal_strlit("T");
            reveal_strlit("J");
            reveal_strlit("Q");
            reveal_strlit("K");
        }
        let mut res = String::from_str(v);
        let suite = self.suite.to_string();
        res.append(suite.as_str());
        res
    }
}

/// The codes of consecutive cards are all valid.
pub open spec fn cards_code_valid(code: Seq<char>) -> bool {
    &&& code.len() % 2 == 0
    &&& forall|i: int| 0 <= i < code.len() / 2 ==> #[trigger] card_chars_valid(code[2 * i], code[2 * i + 1])
}

/// Reads consecutive card codes, such as "AhTd2c".
pub fn cards_from(code: &str) -> (cards: Vec<Card>)
    requires
        cards_code_valid(code@),
    ensures
        cards@.len() == code@.len() / 2,
        forall|i: int| 0 <= i < cards@.len() ==> #[trigger] cards@[i] == card_of_chars(code@[2 * i], code@[2 * i + 1]),
{
    let n = code.unicode_len();
    let mut cards: Vec<Card> = Vec::new();
    let mut i: usize = 0;
    while i < n / 2
        invariant
            n == code@.len(),
            cards_code_valid(code@),
            i <= n / 2,
            cards@.len() == i,
            forall|j: int| 0 <= j < i ==> #[trigger] cards@[j] == card_of_chars(code@[2 * j], code@[2 * j + 1]),
        decreases n / 2 - i,
    {
        assert(card_chars_valid(code@[2 * i as int], code@[2 * i as int + 1]));
        let card = read_card(code.get_char(2 * i), code.get_char(2 * i + 1));
        cards.push(card);
        i = i + 1;
    }
    cards
}

} // verus!
