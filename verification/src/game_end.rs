use vstd::prelude::*;

use crate::card::{as_ints, ordered_deck, set_at, triple_before, Card};
use crate::game::{
    board_cards, claim_outcome, dealt, filled_until_set, has_set, in_play, lemma_dealt_sizes,
    opening, refilled_from, replaced_slots, set_in_slots, sorted3, INITIAL_BOARD_SIZE,
};
use crate::game_laws::{
    lemma_claim_conserves_cards, lemma_filled_in_play, lemma_opening, lemma_refilled_in_play,
    lemma_sorted3, lemma_three_slots, no_card_twice, no_gaps,
};

verus! {

broadcast use {vstd::multiset::group_multiset_axioms, vstd::seq_lib::group_to_multiset_ensures};

/// Cards come and go in threes: the deck, the board's slots and the cards
/// in play each number a multiple of three.
pub open spec fn in_threes(board: Seq<Option<Card>>, deck: Seq<Card>) -> bool {
    &&& deck.len() % 3 == 0
    &&& board.len() % 3 == 0
    &&& in_play(board, deck).len() % 3 == 0
}

/// Dealing three at a time from a deck of a multiple of three cards keeps
/// both sizes multiples of three.
proof fn lemma_filled_threes(b: Seq<Option<Card>>, d: Seq<Card>)
    requires
        b.len() % 3 == 0,
        d.len() % 3 == 0,
    ensures
        filled_until_set(b, d).0.len() % 3 == 0,
        filled_until_set(b, d).1.len() % 3 == 0,
    decreases d.len(),
{
    if !(has_set(b) || d.len() == 0) {
        lemma_dealt_sizes(b, d, 3);
        let r = dealt(b, d, 3);
        lemma_filled_threes(r.0, r.1);
    }
}

/// Refilling either runs the deck out or leaves no empty slot from `idx`
/// on.
proof fn lemma_refilled_fills(b: Seq<Option<Card>>, d: Seq<Card>, idx: int)
    requires
        0 <= idx,
    ensures
        refilled_from(b, d, idx).1.len() == 0 || forall|t: int|
            idx <= t < b.len() ==> #[trigger] refilled_from(b, d, idx).0[t] is Some,
    decreases b.len() - idx,
{
    let r = refilled_from(b, d, idx);
    if idx >= b.len() {
    } else if b[idx] is Some {
        lemma_refilled_fills(b, d, idx + 1);
        lemma_refilled_in_play(b, d, idx + 1);
    } else if d.len() == 0 {
    } else {
        let b1 = b.update(idx, Some(d.last()));
        lemma_refilled_fills(b1, d.drop_last(), idx + 1);
        lemma_refilled_in_play(b1, d.drop_last(), idx + 1);
        assert(r.0 == refilled_from(b1, d.drop_last(), idx + 1).0);
        assert(b1[idx] is Some);
    }
}

/// A board without gaps holds as many cards as it has slots.
proof fn lemma_no_gaps_count(b: Seq<Option<Card>>)
    requires
        no_gaps(b),
    ensures
        board_cards(b).len() == b.len(),
    decreases b.len(),
{
    if b.len() > 0 {
        assert(no_gaps(b.drop_last())) by {
            assert forall|t: int| 0 <= t < b.drop_last().len() implies #[trigger] b.drop_last()[t] is Some by {
                assert(b.drop_last()[t] == b[t]);
            }
        }
        lemma_no_gaps_count(b.drop_last());
        assert(b[b.len() - 1] is Some);
    }
}

/// A claim keeps cards coming in threes: after a successful claim the
/// deck, the board's slots and the cards in play still each number a
/// multiple of three. (So a game that starts with a deck of a multiple of
/// three cards never deals a partial triple.)
#[verifier::spinoff_prover]
pub proof fn lemma_claim_keeps_threes(
    board: Seq<Option<Card>>,
    deck: Seq<Card>,
    static_mode: bool,
    i: usize,
    j: usize,
    k: usize,
)
    requires
        no_card_twice(board, deck),
        in_threes(board, deck),
        i < board.len(),
        j < board.len(),
        k < board.len(),
        i != j,
        j != k,
        i != k,
        set_in_slots(board, i as int, j as int, k as int),
    ensures
        in_threes(
            claim_outcome(board, deck, static_mode, i, j, k).0,
            claim_outcome(board, deck, static_mode, i, j, k).1,
        ),
{
    lemma_claim_conserves_cards(board, deck, static_mode, i, j, k);
    lemma_sorted3(i, j, k);
    let (lo, mid, hi) = sorted3(i, j, k);
    assert(board[lo as int] is Some && board[mid as int] is Some && board[hi as int] is Some);
    if static_mode {
        let emptied = board.update(lo as int, None).update(mid as int, None).update(hi as int, None);
        if !has_set(emptied) {
            lemma_three_slots(board, lo as int, mid as int, hi as int);
            assert(board_cards(emptied).len() + 3 == board_cards(board).len());
            let rf = refilled_from(emptied, deck, 0);
            lemma_refilled_in_play(emptied, deck, 0);
            lemma_refilled_fills(emptied, deck, 0);
            if rf.1.len() != 0 {
                assert(no_gaps(rf.0));
                lemma_no_gaps_count(rf.0);
                assert(in_play(rf.0, rf.1).len() == in_play(emptied, deck).len());
                assert(in_play(emptied, deck).len() + 3 == in_play(board, deck).len());
            }
            lemma_filled_threes(rf.0, rf.1);
        }
    } else {
        let r = if board.len() > INITIAL_BOARD_SIZE {
            (board.remove(hi as int).remove(mid as int).remove(lo as int), deck, Seq::<usize>::empty())
        } else {
            replaced_slots(board, deck, seq![hi, mid, lo])
        };
        if board.len() <= INITIAL_BOARD_SIZE {
            assert(seq![hi, mid, lo].drop_first() =~= seq![mid, lo]);
            assert(seq![mid, lo].drop_first() =~= seq![lo]);
            assert(seq![lo].drop_first() =~= Seq::<usize>::empty());
            if deck.len() > 0 {
                let s1 = board.update(hi as int, Some(deck.last()));
                let d1 = deck.drop_last();
                let s2 = s1.update(mid as int, Some(d1.last()));
                let d2 = d1.drop_last();
                let s3 = s2.update(lo as int, Some(d2.last()));
                let d3 = d2.drop_last();
                assert(replaced_slots(s3, d3, Seq::<usize>::empty()).1 == d3);
                assert(replaced_slots(s2, d2, seq![lo]).0 == s3);
                assert(replaced_slots(s2, d2, seq![lo]).1 == d3);
                assert(replaced_slots(s1, d1, seq![mid, lo]).0 == s3);
                assert(replaced_slots(s1, d1, seq![mid, lo]).1 == d3);
                assert(r.0 == s3 && r.1 == d3);
            } else {
                let s1 = board.remove(hi as int);
                let s2 = s1.remove(mid as int);
                let s3 = s2.remove(lo as int);
                assert(replaced_slots(s3, deck, Seq::<usize>::empty()).0 == s3);
                assert(replaced_slots(s2, deck, seq![lo]).0 == s3);
                assert(replaced_slots(s2, deck, seq![lo]).1 == deck);
                assert(replaced_slots(s1, deck, seq![mid, lo]).0 == s3);
                assert(replaced_slots(s1, deck, seq![mid, lo]).1 == deck);
                assert(r.0 == s3 && r.1 == deck);
            }
        }
        lemma_filled_threes(r.0, r.1);
    }
}

/// A game dealt from a deck of a multiple of three cards starts with cards
/// in threes.
pub proof fn lemma_opening_in_threes(d: Seq<Card>)
    requires
        d.len() % 3 == 0,
    ensures
        in_threes(opening(d).0, opening(d).1),
{
    let e = Seq::<Option<Card>>::empty();
    lemma_dealt_sizes(e, d, INITIAL_BOARD_SIZE as nat);
    let x = dealt(e, d, INITIAL_BOARD_SIZE as nat);
    lemma_filled_threes(x.0, x.1);
    crate::game_laws::lemma_opening_in_play(d);
}

/// The Set that `find_any_set` finds: the one at the first index triple,
/// in lexicographic order, where the board holds a Set.
pub open spec fn is_first_set(board: Seq<Option<Card>>, t: (usize, usize, usize)) -> bool {
    &&& set_at(board, t.0 as int, t.1 as int, t.2 as int)
    &&& forall|x: int, y: int, z: int|
        #![trigger set_at(board, x, y, z)]
        triple_before((x, y, z), as_ints(t)) ==> !set_at(board, x, y, z)
}

/// Some Set on the board comes first.
proof fn lemma_least_set(board: Seq<Option<Card>>, i: int, j: int, k: int)
    requires
        set_at(board, i, j, k),
    ensures
        exists|t: (int, int, int)|
            {
                &&& #[trigger] set_at(board, t.0, t.1, t.2)
                &&& forall|x: int, y: int, z: int|
                    #![trigger set_at(board, x, y, z)]
                    triple_before((x, y, z), t) ==> !set_at(board, x, y, z)
            },
    decreases i, j, k,
{
    if exists|x: int, y: int, z: int|
        #![trigger set_at(board, x, y, z)]
        triple_before((x, y, z), (i, j, k)) && set_at(board, x, y, z) {
        let (x, y, z) = choose|x: int, y: int, z: int|
            #![trigger set_at(board, x, y, z)]
            triple_before((x, y, z), (i, j, k)) && set_at(board, x, y, z);
        lemma_least_set(board, x, y, z);
    } else {
        assert(set_at(board, (i, j, k).0, (i, j, k).1, (i, j, k).2));
    }
}

/// On a board that holds a Set, exactly one triple is the first Set, and
/// a triple that `find_any_set` may return is it.
pub proof fn lemma_first_set(board: Seq<Option<Card>>, t: (usize, usize, usize))
    requires
        board.len() <= usize::MAX,
        has_set(board),
    ensures
        is_first_set(board, first_set(board)),
        is_first_set(board, t) ==> t == first_set(board),
{
    let (i, j, k) = choose|i: int, j: int, k: int| set_at(board, i, j, k);
    lemma_least_set(board, i, j, k);
    let m = choose|m: (int, int, int)|
        {
            &&& #[trigger] set_at(board, m.0, m.1, m.2)
            &&& forall|x: int, y: int, z: int|
                #![trigger set_at(board, x, y, z)]
                triple_before((x, y, z), m) ==> !set_at(board, x, y, z)
        };
    let u = (m.0 as usize, m.1 as usize, m.2 as usize);
    assert(as_ints(u) == m);
    assert(is_first_set(board, u));
    let f = first_set(board);
    assert(is_first_set(board, f));
    if is_first_set(board, t) {
        if as_ints(t) != as_ints(f) {
            if triple_before(as_ints(t), as_ints(f)) {
                assert(set_at(board, t.0 as int, t.1 as int, t.2 as int));
            } else {
                assert(triple_before(as_ints(f), as_ints(t)));
                assert(set_at(board, f.0 as int, f.1 as int, f.2 as int));
            }
        }
    }
}

/// The first Set on the board (see `is_first_set`).
pub open spec fn first_set(board: Seq<Option<Card>>) -> (usize, usize, usize) {
    choose|t: (usize, usize, usize)| is_first_set(board, t)
}

/// Board and deck after playing on for at most `n` rounds, each round
/// claiming the first Set on the board, until no Set lies on it.
pub open spec fn autoplay(board: Seq<Option<Card>>, deck: Seq<Card>, static_mode: bool, n: nat) -> (
    Seq<Option<Card>>,
    Seq<Card>,
)
    decreases n,
{
    if n == 0 || !has_set(board) {
        (board, deck)
    } else {
        let t = first_set(board);
        let r = claim_outcome(board, deck, static_mode, t.0, t.1, t.2);
        autoplay(r.0, r.1, static_mode, (n - 1) as nat)
    }
}

/// A claim never makes the board longer than it was or than the number of
/// cards that were in play.
proof fn lemma_claim_board_bound(
    board: Seq<Option<Card>>,
    deck: Seq<Card>,
    static_mode: bool,
    i: usize,
    j: usize,
    k: usize,
)
    requires
        no_card_twice(board, deck),
        static_mode || no_gaps(board),
        i < board.len(),
        j < board.len(),
        k < board.len(),
        i != j,
        j != k,
        i != k,
        set_in_slots(board, i as int, j as int, k as int),
    ensures
        ({
            let r = claim_outcome(board, deck, static_mode, i, j, k);
            r.0.len() <= board.len() || r.0.len() <= in_play(board, deck).len()
        }),
{
    lemma_claim_conserves_cards(board, deck, static_mode, i, j, k);
    lemma_sorted3(i, j, k);
    let (lo, mid, hi) = sorted3(i, j, k);
    let r = claim_outcome(board, deck, static_mode, i, j, k);
    if static_mode {
        let emptied = board.update(lo as int, None).update(mid as int, None).update(hi as int, None);
        if !has_set(emptied) {
            let rf = refilled_from(emptied, deck, 0);
            lemma_refilled_in_play(emptied, deck, 0);
            lemma_refilled_fills(emptied, deck, 0);
            lemma_filled_in_play(rf.0, rf.1);
            if rf.1.len() == 0 {
                assert(filled_until_set(rf.0, rf.1).0 == rf.0);
            } else {
                assert(no_gaps(rf.0));
                lemma_no_gaps_count(r.0);
            }
        }
    } else {
        lemma_no_gaps_count(r.0);
    }
}

/// Played on, Set after Set, a game ends: claiming the first Set on the
/// board (the one `find_any_set` finds) round after round, every claim
/// succeeds and takes three cards out of play, so within a third of the
/// cards in play as many rounds the deck is empty and no Set is left on
/// the board. A new game, with its 81 cards, ends within 27 claims.
pub proof fn lemma_play_to_end(board: Seq<Option<Card>>, deck: Seq<Card>, static_mode: bool, n: nat)
    requires
        no_card_twice(board, deck),
        has_set(board) || deck.len() == 0,
        static_mode || no_gaps(board),
        board.len() <= usize::MAX,
        in_play(board, deck).len() <= usize::MAX,
        in_play(board, deck).len() <= 3 * n,
    ensures
        autoplay(board, deck, static_mode, n).1.len() == 0,
        !has_set(autoplay(board, deck, static_mode, n).0),
    decreases n,
{
    if has_set(board) {
        lemma_first_set(board, first_set(board));
        let t = first_set(board);
        lemma_claim_conserves_cards(board, deck, static_mode, t.0, t.1, t.2);
        lemma_claim_board_bound(board, deck, static_mode, t.0, t.1, t.2);
        let r = claim_outcome(board, deck, static_mode, t.0, t.1, t.2);
        lemma_play_to_end(r.0, r.1, static_mode, (n - 1) as nat);
    }
}

/// A new game dealt from a shuffled full deck, played on by claiming the
/// first Set each round, ends within 27 claims with an empty deck and no
/// Set on the board.
pub proof fn lemma_new_game_ends(d: Seq<Card>, static_mode: bool)
    requires
        d.to_multiset() == ordered_deck().to_multiset(),
    ensures
        autoplay(opening(d).0, opening(d).1, static_mode, 27).1.len() == 0,
        !has_set(autoplay(opening(d).0, opening(d).1, static_mode, 27).0),
{
    lemma_opening(d);
    lemma_no_gaps_count(opening(d).0);
    lemma_play_to_end(opening(d).0, opening(d).1, static_mode, 27);
}

} // verus!
