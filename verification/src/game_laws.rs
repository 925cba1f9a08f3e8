use vstd::multiset::Multiset;
use vstd::prelude::*;

use crate::card::{ordered_deck, Card};
use crate::game::{
    lemma_claimed_slots_distinct, lemma_slot_counted, index_range,
    board_cards, claim_outcome, dealt, filled_until_set, has_set, in_play, lemma_dealt_sizes,
    lemma_filled_grows, opening, refilled_from, replaced_slots, set_in_slots, slot_cards, sorted3,
    INITIAL_BOARD_SIZE,
};

verus! {

broadcast use {vstd::multiset::group_multiset_axioms, vstd::seq_lib::group_to_multiset_ensures};

/// No card is in play twice.
pub open spec fn no_card_twice(board: Seq<Option<Card>>, deck: Seq<Card>) -> bool {
    forall|c: Card| #[trigger] in_play(board, deck).count(c) <= 1
}

/// Every slot of the board holds a card.
pub open spec fn no_gaps(board: Seq<Option<Card>>) -> bool {
    forall|t: int| 0 <= t < board.len() ==> #[trigger] board[t] is Some
}

/// The cards that the slots `idxs` of `board` hold.
pub open spec fn cards_in_slots(board: Seq<Option<Card>>, idxs: Seq<usize>) -> Multiset<Card>
    decreases idxs.len(),
{
    if idxs.len() == 0 {
        Multiset::empty()
    } else {
        slot_cards(board[idxs[0] as int]).add(cards_in_slots(board, idxs.drop_first()))
    }
}

proof fn lemma_board_push(b: Seq<Option<Card>>, x: Option<Card>)
    ensures
        board_cards(b.push(x)) == board_cards(b).add(slot_cards(x)),
{
    assert(b.push(x).drop_last() =~= b);
}

proof fn lemma_board_update(b: Seq<Option<Card>>, i: int, x: Option<Card>)
    requires
        0 <= i < b.len(),
    ensures
        board_cards(b.update(i, x)).add(slot_cards(b[i])) == board_cards(b).add(slot_cards(x)),
    decreases b.len(),
{
    let u = b.update(i, x);
    if i == b.len() - 1 {
        assert(u.drop_last() =~= b.drop_last());
        assert(board_cards(u).add(slot_cards(b[i])) =~= board_cards(b).add(slot_cards(x)));
    } else {
        lemma_board_update(b.drop_last(), i, x);
        assert(u.drop_last() =~= b.drop_last().update(i, x));
        assert(u.last() == b.last());
        assert(b.drop_last()[i] == b[i]);
        assert(board_cards(u) == board_cards(u.drop_last()).add(slot_cards(u.last())));
        assert(board_cards(b) == board_cards(b.drop_last()).add(slot_cards(b.last())));
        let bd = b.drop_last();
        assert forall|v: Card|
            board_cards(u).add(slot_cards(b[i])).count(v) == board_cards(b).add(
                slot_cards(x),
            ).count(v) by {
            assert(board_cards(bd.update(i, x)).add(slot_cards(b[i])).count(v) == board_cards(
                bd,
            ).add(slot_cards(x)).count(v));
        }
        assert(board_cards(u).add(slot_cards(b[i])) =~= board_cards(b).add(slot_cards(x)));
    }
}

proof fn lemma_board_remove(b: Seq<Option<Card>>, i: int)
    requires
        0 <= i < b.len(),
    ensures
        board_cards(b.remove(i)).add(slot_cards(b[i])) == board_cards(b),
    decreases b.len(),
{
    let r = b.remove(i);
    if i == b.len() - 1 {
        assert(r =~= b.drop_last());
    } else {
        lemma_board_remove(b.drop_last(), i);
        assert(r.drop_last() =~= b.drop_last().remove(i));
        assert(r.last() == b.last());
        assert(board_cards(r).add(slot_cards(b[i])) =~= board_cards(b));
    }
}

proof fn lemma_deck_pop(d: Seq<Card>)
    requires
        d.len() > 0,
    ensures
        d.to_multiset() == d.drop_last().to_multiset().insert(d.last()),
{
    assert(d.drop_last().push(d.last()) =~= d);
}

/// Moving the top card of the deck onto the board keeps the cards in play.
proof fn lemma_move_top(b: Seq<Option<Card>>, d: Seq<Card>, b1: Seq<Option<Card>>)
    requires
        d.len() > 0,
        board_cards(b1) == board_cards(b).add(slot_cards(Some(d.last()))),
    ensures
        in_play(b1, d.drop_last()) == in_play(b, d),
{
    lemma_deck_pop(d);
    assert(in_play(b1, d.drop_last()) =~= in_play(b, d));
}

/// Dealing moves cards from the deck to the board.
pub proof fn lemma_dealt_in_play(b: Seq<Option<Card>>, d: Seq<Card>, n: nat)
    ensures
        in_play(dealt(b, d, n).0, dealt(b, d, n).1) == in_play(b, d),
        no_gaps(b) ==> no_gaps(dealt(b, d, n).0),
    decreases n,
{
    if !(n == 0 || d.len() == 0) {
        let b1 = b.push(Some(d.last()));
        lemma_board_push(b, Some(d.last()));
        lemma_move_top(b, d, b1);
        lemma_dealt_in_play(b1, d.drop_last(), (n - 1) as nat);
    }
}

/// Dealing until a Set appears moves cards from the deck to the board, and
/// stops with a Set on the board or an empty deck.
pub proof fn lemma_filled_in_play(b: Seq<Option<Card>>, d: Seq<Card>)
    ensures
        in_play(filled_until_set(b, d).0, filled_until_set(b, d).1) == in_play(b, d),
        no_gaps(b) ==> no_gaps(filled_until_set(b, d).0),
        has_set(filled_until_set(b, d).0) || filled_until_set(b, d).1.len() == 0,
    decreases d.len(),
{
    if !(has_set(b) || d.len() == 0) {
        lemma_dealt_sizes(b, d, 3);
        let r = dealt(b, d, 3);
        lemma_dealt_in_play(b, d, 3);
        lemma_filled_in_play(r.0, r.1);
    }
}

/// Refilling empty slots moves cards from the deck to the board and
/// touches only empty slots.
pub proof fn lemma_refilled_in_play(b: Seq<Option<Card>>, d: Seq<Card>, idx: int)
    ensures
        in_play(refilled_from(b, d, idx).0, refilled_from(b, d, idx).1) == in_play(b, d),
        refilled_from(b, d, idx).0.len() == b.len(),
        forall|t: int|
            0 <= t < b.len() && b[t] is Some ==> #[trigger] refilled_from(b, d, idx).0[t] == b[t],
    decreases b.len() - idx,
{
    if idx < 0 || idx >= b.len() {
    } else if b[idx] is Some {
        lemma_refilled_in_play(b, d, idx + 1);
    } else if d.len() == 0 {
    } else {
        let b1 = b.update(idx, Some(d.last()));
        lemma_board_update(b, idx, Some(d.last()));
        assert(slot_cards(b[idx]) =~= Multiset::empty());
        assert(board_cards(b1) =~= board_cards(b).add(slot_cards(Some(d.last()))));
        lemma_move_top(b, d, b1);
        lemma_refilled_in_play(b1, d.drop_last(), idx + 1);
    }
}

/// Replacing slots in descending order takes exactly the cards of those
/// slots out of play.
pub proof fn lemma_replaced_in_play(b: Seq<Option<Card>>, d: Seq<Card>, idxs: Seq<usize>)
    requires
        forall|t: int| 0 <= t < idxs.len() ==> #[trigger] idxs[t] < b.len(),
        forall|s: int, t: int| 0 <= s < t < idxs.len() ==> idxs[s] > idxs[t],
    ensures
        in_play(replaced_slots(b, d, idxs).0, replaced_slots(b, d, idxs).1).add(
            cards_in_slots(b, idxs),
        ) == in_play(b, d),
        no_gaps(b) ==> no_gaps(replaced_slots(b, d, idxs).0),
    decreases idxs.len(),
{
    if idxs.len() > 0 {
        let i = idxs[0] as int;
        let rest = idxs.drop_first();
        let (b1, d1) = if d.len() > 0 {
            (b.update(i, Some(d.last())), d.drop_last())
        } else {
            (b.remove(i), d)
        };
        if d.len() > 0 {
            lemma_board_update(b, i, Some(d.last()));
            lemma_deck_pop(d);
            assert forall|v: Card|
                in_play(b1, d1).add(slot_cards(b[i])).count(v) == in_play(b, d).count(v) by {
                assert(board_cards(b1).add(slot_cards(b[i])).count(v) == board_cards(b).add(
                    slot_cards(Some(d.last())),
                ).count(v));
                assert(d.to_multiset().count(v) == d1.to_multiset().insert(d.last()).count(v));
            }
            assert(in_play(b1, d1).add(slot_cards(b[i])) =~= in_play(b, d));
        } else {
            lemma_board_remove(b, i);
            assert forall|v: Card|
                in_play(b1, d1).add(slot_cards(b[i])).count(v) == in_play(b, d).count(v) by {
                assert(board_cards(b1).add(slot_cards(b[i])).count(v) == board_cards(b).count(v));
            }
            assert(in_play(b1, d1).add(slot_cards(b[i])) =~= in_play(b, d));
        }
        assert forall|t: int| 0 <= t < rest.len() implies #[trigger] rest[t] < b1.len() by {
            assert(rest[t] == idxs[t + 1]);
            assert(idxs[0] > idxs[t + 1]);
        }
        lemma_replaced_in_play(b1, d1, rest);
        lemma_same_slots(b, b1, rest, i);
        assert(cards_in_slots(b, idxs) == slot_cards(b[i]).add(cards_in_slots(b, rest)));
        assert(in_play(replaced_slots(b, d, idxs).0, replaced_slots(b, d, idxs).1).add(
            cards_in_slots(b, idxs),
        ) =~= in_play(b, d));
    }
}

/// Slots below `i` are unaffected by changing or removing slot `i`.
proof fn lemma_same_slots(b: Seq<Option<Card>>, b1: Seq<Option<Card>>, idxs: Seq<usize>, i: int)
    requires
        forall|t: int| 0 <= t < idxs.len() ==> #[trigger] idxs[t] < i,
        forall|t: int| 0 <= t < i ==> #[trigger] b1[t] == b[t],
        i <= b.len(),
        i <= b1.len(),
    ensures
        cards_in_slots(b1, idxs) == cards_in_slots(b, idxs),
    decreases idxs.len(),
{
    if idxs.len() > 0 {
        assert(idxs[0] < i);
        assert forall|t: int| 0 <= t < idxs.drop_first().len() implies #[trigger] idxs.drop_first()[t] < i by {
            assert(idxs.drop_first()[t] == idxs[t + 1]);
        }
        lemma_same_slots(b, b1, idxs.drop_first(), i);
    }
}


/// The cards removed by emptying or removing three distinct slots.
pub(crate) proof fn lemma_three_slots(board: Seq<Option<Card>>, lo: int, mid: int, hi: int)
    requires
        0 <= lo < mid < hi < board.len(),
    ensures
        board_cards(board.update(lo, None).update(mid, None).update(hi, None)).add(
            slot_cards(board[lo]),
        ).add(slot_cards(board[mid])).add(slot_cards(board[hi])) == board_cards(board),
        board_cards(board.remove(hi).remove(mid).remove(lo)).add(slot_cards(board[lo])).add(
            slot_cards(board[mid]),
        ).add(slot_cards(board[hi])) == board_cards(board),
{
    let e1 = board.update(lo, None);
    let e2 = e1.update(mid, None);
    let e3 = e2.update(hi, None);
    lemma_board_update(board, lo, None);
    lemma_board_update(e1, mid, None);
    lemma_board_update(e2, hi, None);
    assert(e1[mid] == board[mid]);
    assert(e2[hi] == board[hi]);
    assert(slot_cards(None) =~= Multiset::<Card>::empty());
    assert(board_cards(e1).add(slot_cards(board[lo])) =~= board_cards(board));
    assert(board_cards(e2).add(slot_cards(board[mid])) =~= board_cards(e1));
    assert(board_cards(e3).add(slot_cards(board[hi])) =~= board_cards(e2));
    assert(board_cards(e3).add(slot_cards(board[lo])).add(slot_cards(board[mid])).add(
        slot_cards(board[hi]),
    ) =~= board_cards(board));
    let r1 = board.remove(hi);
    let r2 = r1.remove(mid);
    let r3 = r2.remove(lo);
    lemma_board_remove(board, hi);
    lemma_board_remove(r1, mid);
    lemma_board_remove(r2, lo);
    assert(r1[mid] == board[mid]);
    assert(r2[lo] == board[lo]);
    assert(board_cards(r3).add(slot_cards(board[lo])).add(slot_cards(board[mid])).add(
        slot_cards(board[hi]),
    ) =~= board_cards(board));
}

/// Removing a slot from a board without gaps leaves none.
proof fn lemma_remove_no_gaps(b: Seq<Option<Card>>, i: int)
    requires
        0 <= i < b.len(),
        no_gaps(b),
    ensures
        no_gaps(b.remove(i)),
{
    assert forall|t: int| 0 <= t < b.remove(i).len() implies #[trigger] b.remove(i)[t] is Some by {
        if t >= i {
            assert(b.remove(i)[t] == b[t + 1]);
        }
    }
}

/// The three sorted slots are the claimed slots.
pub(crate) proof fn lemma_sorted3(i: usize, j: usize, k: usize)
    requires
        i != j,
        j != k,
        i != k,
    ensures
        ({
            let (lo, mid, hi) = sorted3(i, j, k);
            &&& lo < mid < hi
            &&& (lo == i || lo == j || lo == k)
            &&& (mid == i || mid == j || mid == k)
            &&& (hi == i || hi == j || hi == k)
            &&& (i == lo || i == mid || i == hi)
            &&& (j == lo || j == mid || j == hi)
            &&& (k == lo || k == mid || k == hi)
        }),
{
}

/// Static mode: the claimed cards leave play; a Set or an empty deck follows.
proof fn lemma_static_outcome(
    board: Seq<Option<Card>>,
    deck: Seq<Card>,
    lo: usize,
    mid: usize,
    hi: usize,
    r: (Seq<Option<Card>>, Seq<Card>, Seq<usize>),
)
    requires
        lo < mid < hi < board.len(),
        r == ({
            let emptied = board.update(lo as int, None).update(mid as int, None).update(hi as int, None);
            if has_set(emptied) {
                (emptied, deck, Seq::<usize>::empty())
            } else {
                let rf = refilled_from(emptied, deck, 0);
                let f = filled_until_set(rf.0, rf.1);
                (f.0, f.1, rf.2 + index_range(rf.0.len() as int, f.0.len() as int))
            }
        }),
    ensures
        in_play(r.0, r.1).add(slot_cards(board[lo as int])).add(slot_cards(board[mid as int])).add(
            slot_cards(board[hi as int]),
        ) == in_play(board, deck),
        has_set(r.0) || r.1.len() == 0,
        r.0.len() >= board.len(),
        forall|t: int|
            0 <= t < board.len() && t != lo && t != mid && t != hi && board[t] is Some
                ==> #[trigger] r.0[t] == board[t],
{
    let emptied = board.update(lo as int, None).update(mid as int, None).update(hi as int, None);
    lemma_three_slots(board, lo as int, mid as int, hi as int);
    assert(in_play(emptied, deck).add(slot_cards(board[lo as int])).add(
        slot_cards(board[mid as int]),
    ).add(slot_cards(board[hi as int])) =~= in_play(board, deck));
    if !has_set(emptied) {
        let rf = refilled_from(emptied, deck, 0);
        lemma_refilled_in_play(emptied, deck, 0);
        lemma_filled_in_play(rf.0, rf.1);
        lemma_filled_grows(rf.0, rf.1);
        assert forall|t: int|
            0 <= t < board.len() && t != lo && t != mid && t != hi && board[t] is Some
                implies #[trigger] r.0[t] == board[t] by {
            assert(emptied[t] == board[t]);
            assert(rf.0[t] == emptied[t]);
        }
    }
}

/// Default mode, board larger than the initial size: the claimed slots are
/// removed.
proof fn lemma_shrink_outcome(
    board: Seq<Option<Card>>,
    deck: Seq<Card>,
    lo: usize,
    mid: usize,
    hi: usize,
)
    requires
        lo < mid < hi < board.len(),
    ensures
        ({
            let s = board.remove(hi as int).remove(mid as int).remove(lo as int);
            &&& in_play(s, deck).add(slot_cards(board[lo as int])).add(
                slot_cards(board[mid as int]),
            ).add(slot_cards(board[hi as int])) == in_play(board, deck)
            &&& no_gaps(board) ==> no_gaps(s)
        }),
{
    let r1 = board.remove(hi as int);
    let r2 = r1.remove(mid as int);
    lemma_three_slots(board, lo as int, mid as int, hi as int);
    let s = r2.remove(lo as int);
    assert(in_play(s, deck).add(slot_cards(board[lo as int])).add(
        slot_cards(board[mid as int]),
    ).add(slot_cards(board[hi as int])) =~= in_play(board, deck));
    if no_gaps(board) {
        lemma_remove_no_gaps(board, hi as int);
        lemma_remove_no_gaps(r1, mid as int);
        lemma_remove_no_gaps(r2, lo as int);
    }
}

/// Default mode, board of at most the initial size: the claimed slots are
/// replaced or removed.
proof fn lemma_replace_outcome(
    board: Seq<Option<Card>>,
    deck: Seq<Card>,
    lo: usize,
    mid: usize,
    hi: usize,
)
    requires
        lo < mid < hi < board.len(),
    ensures
        ({
            let s = replaced_slots(board, deck, seq![hi, mid, lo]);
            &&& in_play(s.0, s.1).add(slot_cards(board[lo as int])).add(
                slot_cards(board[mid as int]),
            ).add(slot_cards(board[hi as int])) == in_play(board, deck)
            &&& no_gaps(board) ==> no_gaps(s.0)
        }),
{
    let idxs = seq![hi, mid, lo];
    lemma_replaced_in_play(board, deck, idxs);
    assert(idxs.drop_first() =~= seq![mid, lo]);
    assert(seq![mid, lo].drop_first() =~= seq![lo]);
    assert(seq![lo].drop_first() =~= Seq::<usize>::empty());
    assert(cards_in_slots(board, Seq::<usize>::empty()) == Multiset::<Card>::empty());
    assert(cards_in_slots(board, seq![lo]) == slot_cards(board[lo as int]).add(
        cards_in_slots(board, Seq::<usize>::empty()),
    ));
    assert(cards_in_slots(board, seq![mid, lo]) == slot_cards(board[mid as int]).add(
        cards_in_slots(board, seq![lo]),
    ));
    assert(cards_in_slots(board, idxs) == slot_cards(board[hi as int]).add(
        cards_in_slots(board, seq![mid, lo]),
    ));
    let s = replaced_slots(board, deck, idxs);
    assert(in_play(s.0, s.1).add(slot_cards(board[lo as int])).add(
        slot_cards(board[mid as int]),
    ).add(slot_cards(board[hi as int])) =~= in_play(board, deck));
}

/// A claimed Set leaves play, and nothing else does: the cards in play after
/// a successful claim are those before it without the three claimed cards.
/// So no card comes into play twice, each claim takes exactly three cards
/// out of play (a game ends after at most 27 claims), a Set lies on the
/// board afterwards unless the deck is empty, and in the default mode a
/// board without gaps keeps none.
#[verifier::spinoff_prover]
pub proof fn lemma_claim_conserves_cards(
    board: Seq<Option<Card>>,
    deck: Seq<Card>,
    static_mode: bool,
    i: usize,
    j: usize,
    k: usize,
)
    requires
        no_card_twice(board, deck),
        i < board.len(),
        j < board.len(),
        k < board.len(),
        !(i == j && j == k),
        set_in_slots(board, i as int, j as int, k as int),
    ensures
        ({
            let r = claim_outcome(board, deck, static_mode, i, j, k);
            &&& in_play(r.0, r.1).add(slot_cards(board[i as int])).add(
                slot_cards(board[j as int]),
            ).add(slot_cards(board[k as int])) == in_play(board, deck)
            &&& in_play(r.0, r.1).len() + 3 == in_play(board, deck).len()
            &&& no_card_twice(r.0, r.1)
            &&& has_set(r.0) || r.1.len() == 0
            &&& !static_mode && no_gaps(board) ==> no_gaps(r.0)
        }),
{
    lemma_claimed_slots_distinct(board, deck, i as int, j as int, k as int);
    lemma_sorted3(i, j, k);
    let (lo, mid, hi) = sorted3(i, j, k);
    let taken = slot_cards(board[lo as int]).add(slot_cards(board[mid as int])).add(
        slot_cards(board[hi as int]),
    );
    let claimed = slot_cards(board[i as int]).add(slot_cards(board[j as int])).add(
        slot_cards(board[k as int]),
    );
    assert(taken =~= claimed);
    let r = claim_outcome(board, deck, static_mode, i, j, k);
    if static_mode {
        lemma_static_outcome(board, deck, lo, mid, hi, r);
        assert(in_play(r.0, r.1).add(taken) == in_play(board, deck));
    } else {
        let s = if board.len() > INITIAL_BOARD_SIZE {
            (board.remove(hi as int).remove(mid as int).remove(lo as int), deck, Seq::<usize>::empty())
        } else {
            replaced_slots(board, deck, seq![hi, mid, lo])
        };
        if board.len() > INITIAL_BOARD_SIZE {
            lemma_shrink_outcome(board, deck, lo, mid, hi);
        } else {
            lemma_replace_outcome(board, deck, lo, mid, hi);
        }
        lemma_filled_in_play(s.0, s.1);
        assert(in_play(r.0, r.1) == in_play(s.0, s.1));
        assert(in_play(r.0, r.1).add(taken) == in_play(board, deck));
    }
    assert(taken.len() == 3);
    assert forall|c: Card| #[trigger] in_play(r.0, r.1).count(c) <= 1 by {
        assert(in_play(r.0, r.1).add(taken).count(c) == in_play(board, deck).count(c));
    }
}

/// Naming one slot twice and another slot once never claims a Set when no
/// card is in play twice.
pub proof fn lemma_repeated_slot_claim_fails(
    board: Seq<Option<Card>>,
    deck: Seq<Card>,
    i: int,
    j: int,
    k: int,
)
    requires
        no_card_twice(board, deck),
        0 <= i < board.len(),
        0 <= j < board.len(),
        0 <= k < board.len(),
        i == j || j == k || i == k,
        !(i == j && j == k),
    ensures
        !set_in_slots(board, i, j, k),
{
    if set_in_slots(board, i, j, k) {
        lemma_claimed_slots_distinct(board, deck, i, j, k);
    }
}

/// In static mode the board never shrinks and no card moves: every slot
/// other than the claimed ones keeps its card, and the claimed slots no
/// longer hold the claimed cards (they are empty or hold new cards).
pub proof fn lemma_static_claim_keeps_positions(
    board: Seq<Option<Card>>,
    deck: Seq<Card>,
    i: usize,
    j: usize,
    k: usize,
)
    requires
        no_card_twice(board, deck),
        i < board.len(),
        j < board.len(),
        k < board.len(),
        !(i == j && j == k),
        set_in_slots(board, i as int, j as int, k as int),
    ensures
        ({
            let r = claim_outcome(board, deck, true, i, j, k);
            &&& r.0.len() >= board.len()
            &&& forall|t: int|
                0 <= t < board.len() && t != i && t != j && t != k && board[t] is Some
                    ==> #[trigger] r.0[t] == board[t]
            &&& r.0[i as int] != board[i as int]
            &&& r.0[j as int] != board[j as int]
            &&& r.0[k as int] != board[k as int]
        }),
{
    lemma_claimed_slots_distinct(board, deck, i as int, j as int, k as int);
    lemma_claim_conserves_cards(board, deck, true, i, j, k);
    lemma_sorted3(i, j, k);
    let (lo, mid, hi) = sorted3(i, j, k);
    let r = claim_outcome(board, deck, true, i, j, k);
    lemma_static_outcome(board, deck, lo, mid, hi, r);
    let taken = slot_cards(board[i as int]).add(slot_cards(board[j as int])).add(
        slot_cards(board[k as int]),
    );
    assert forall|s: int| s == i || s == j || s == k implies #[trigger] r.0[s] != board[s] by {
        let c = board[s]->0;
        assert(taken.count(c) >= 1);
        assert(in_play(r.0, r.1).add(taken).count(c) == in_play(board, deck).count(c));
        assert(in_play(r.0, r.1).count(c) == 0);
        if r.0[s] == board[s] {
            lemma_slot_counted(r.0, s);
            assert(in_play(r.0, r.1).count(c) >= 1);
        }
    }
    assert(r.0[i as int] != board[i as int]);
    assert(r.0[j as int] != board[j as int]);
    assert(r.0[k as int] != board[k as int]);
}

/// The opening deal keeps every card of the deck in play.
pub proof fn lemma_opening_in_play(d: Seq<Card>)
    ensures
        in_play(opening(d).0, opening(d).1) == d.to_multiset(),
{
    let e = Seq::<Option<Card>>::empty();
    assert(board_cards(e) =~= Multiset::empty());
    assert(in_play(e, d) =~= d.to_multiset());
    lemma_dealt_in_play(e, d, INITIAL_BOARD_SIZE as nat);
    let x = dealt(e, d, INITIAL_BOARD_SIZE as nat);
    lemma_filled_in_play(x.0, x.1);
}

/// A game dealt from a shuffled full deck starts with every card in play
/// once, at least twelve cards on the board and no empty slot, and a Set on
/// the board unless the whole deck was dealt.
pub proof fn lemma_opening(d: Seq<Card>)
    requires
        d.to_multiset() == ordered_deck().to_multiset(),
    ensures
        d.len() == 81,
        in_play(opening(d).0, opening(d).1) == ordered_deck().to_multiset(),
        in_play(opening(d).0, opening(d).1).len() == 81,
        no_card_twice(opening(d).0, opening(d).1),
        no_gaps(opening(d).0),
        opening(d).0.len() >= INITIAL_BOARD_SIZE,
        has_set(opening(d).0) || opening(d).1.len() == 0,
{
    crate::card::lemma_deck_holds_each_card_once();
    let e = Seq::<Option<Card>>::empty();
    assert(board_cards(e) =~= Multiset::empty());
    assert(in_play(e, d) =~= d.to_multiset());
    assert(d.to_multiset().len() == d.len());
    assert(ordered_deck().to_multiset().len() == ordered_deck().len());
    assert(d.len() == 81);
    lemma_dealt_sizes(e, d, INITIAL_BOARD_SIZE as nat);
    lemma_dealt_in_play(e, d, INITIAL_BOARD_SIZE as nat);
    let x = dealt(e, d, INITIAL_BOARD_SIZE as nat);
    lemma_filled_in_play(x.0, x.1);
    lemma_filled_grows(x.0, x.1);
    assert forall|c: Card| #[trigger] in_play(opening(d).0, opening(d).1).count(c) <= 1 by {
        assert(ordered_deck().to_multiset().count(c) == 1);
    }
}

/// How many of the slots `i`, `j`, `k` lie before slot `s`.
pub open spec fn claimed_before(s: int, i: usize, j: usize, k: usize) -> int {
    (if (i as int) < s { 1int } else { 0int }) + (if (j as int) < s { 1int } else { 0int }) + (
    if (k as int) < s {
        1int
    } else {
        0int
    })
}

/// Dealing until a Set appears takes cards from the top of the deck, one
/// for each slot it adds, and deals nothing onto a board that holds a Set.
proof fn lemma_filled_draws(b: Seq<Option<Card>>, d: Seq<Card>)
    ensures
        filled_until_set(b, d).1.len() + filled_until_set(b, d).0.len() == d.len() + b.len(),
        filled_until_set(b, d).1 == d.subrange(0, filled_until_set(b, d).1.len() as int),
        has_set(b) ==> filled_until_set(b, d) == (b, d),
    decreases d.len(),
{
    if !(has_set(b) || d.len() == 0) {
        lemma_dealt_sizes(b, d, 3);
        let r = dealt(b, d, 3);
        lemma_filled_draws(r.0, r.1);
        lemma_filled_grows(r.0, r.1);
        let f = filled_until_set(r.0, r.1);
        assert(r.1.subrange(0, f.1.len() as int) =~= d.subrange(0, f.1.len() as int));
    } else {
        assert(d.subrange(0, d.len() as int) =~= d);
    }
}

/// In the default mode a board grown past the initial size shrinks back:
/// a successful claim takes the three claimed slots out of the board, and
/// every other card moves up past the claimed slots before it, keeping
/// its order. Cards are then dealt onto the end only from the top of the
/// deck, one per added slot, and none at all while the shrunken board
/// holds a Set.
pub proof fn lemma_expanded_board_shrinks(
    board: Seq<Option<Card>>,
    deck: Seq<Card>,
    i: usize,
    j: usize,
    k: usize,
)
    requires
        board.len() > INITIAL_BOARD_SIZE,
        i < board.len(),
        j < board.len(),
        k < board.len(),
        i != j,
        j != k,
        i != k,
    ensures
        ({
            let r = claim_outcome(board, deck, false, i, j, k);
            let kept = board.len() - 3;
            &&& r.0.len() >= kept
            &&& forall|s: int|
                0 <= s < board.len() && s != i && s != j && s != k
                    ==> #[trigger] r.0[s - claimed_before(s, i, j, k)] == board[s]
            &&& r.1.len() + (r.0.len() - kept) == deck.len()
            &&& r.1 == deck.subrange(0, r.1.len() as int)
            &&& r.2 == index_range(kept, r.0.len() as int)
            &&& has_set(r.0.take(kept)) ==> r.0.len() == kept && r.1 == deck
        }),
{
    lemma_sorted3(i, j, k);
    let (lo, mid, hi) = sorted3(i, j, k);
    let s1 = board.remove(hi as int);
    let s2 = s1.remove(mid as int);
    let s3 = s2.remove(lo as int);
    let r = claim_outcome(board, deck, false, i, j, k);
    lemma_filled_grows(s3, deck);
    lemma_filled_draws(s3, deck);
    assert(r.0.take(board.len() - 3) =~= s3);
    assert forall|s: int|
        0 <= s < board.len() && s != i && s != j && s != k implies #[trigger] r.0[s
        - claimed_before(s, i, j, k)] == board[s] by {
        if s < lo {
            assert(s3[s] == board[s]);
        } else if s < mid {
            assert(s3[s - 1] == s2[s]);
            assert(s2[s] == s1[s]);
        } else if s < hi {
            assert(s3[s - 2] == s2[s - 1]);
            assert(s2[s - 1] == s1[s]);
        } else {
            assert(s3[s - 3] == s2[s - 2]);
            assert(s2[s - 2] == s1[s - 1]);
            assert(s1[s - 1] == board[s]);
        }
    }
}

/// In the default mode a board of at most the initial size keeps its
/// slots: a successful claim puts the top three cards of the deck into the
/// claimed slots, the top card into the highest of them and the third into
/// the lowest, and every other slot keeps its card. Cards are then dealt
/// onto the end only from the top of the deck, and none while the board
/// holds a Set. With an empty deck the claimed slots are taken out
/// instead, every other card moving up past the claimed slots before it.
pub proof fn lemma_small_board_refills_in_place(
    board: Seq<Option<Card>>,
    deck: Seq<Card>,
    i: usize,
    j: usize,
    k: usize,
)
    requires
        board.len() <= INITIAL_BOARD_SIZE,
        i < board.len(),
        j < board.len(),
        k < board.len(),
        i != j,
        j != k,
        i != k,
        deck.len() == 0 || deck.len() >= 3,
    ensures
        ({
            let r = claim_outcome(board, deck, false, i, j, k);
            let (lo, mid, hi) = sorted3(i, j, k);
            let kept = if deck.len() == 0 { board.len() - 3 } else { board.len() as int };
            &&& r.0.len() >= kept
            &&& deck.len() > 0 ==> {
                &&& r.1.len() + (r.0.len() - kept) + 3 == deck.len()
                &&& forall|s: int|
                    0 <= s < board.len() && s != i && s != j && s != k ==> #[trigger] r.0[s]
                        == board[s]
                &&& r.0[hi as int] == Some(deck[deck.len() - 1])
                &&& r.0[mid as int] == Some(deck[deck.len() - 2])
                &&& r.0[lo as int] == Some(deck[deck.len() - 3])
                &&& r.1 == deck.subrange(0, r.1.len() as int)
                &&& has_set(r.0.take(kept)) ==> r.0.len() == kept && r.1.len() + 3 == deck.len()
            }
            &&& deck.len() == 0 ==> {
                &&& forall|s: int|
                    0 <= s < board.len() && s != i && s != j && s != k
                        ==> #[trigger] r.0[s - claimed_before(s, i, j, k)] == board[s]
                &&& r.0.len() == kept
                &&& r.1 == deck
            }
        }),
{
    lemma_sorted3(i, j, k);
    let (lo, mid, hi) = sorted3(i, j, k);
    let r = claim_outcome(board, deck, false, i, j, k);
    assert(seq![hi, mid, lo].drop_first() =~= seq![mid, lo]);
    assert(seq![mid, lo].drop_first() =~= seq![lo]);
    assert(seq![lo].drop_first() =~= Seq::<usize>::empty());
    if deck.len() > 0 {
        let s1 = board.update(hi as int, Some(deck.last()));
        let d1 = deck.drop_last();
        let s2 = s1.update(mid as int, Some(d1.last()));
        let d2 = d1.drop_last();
        let s3 = s2.update(lo as int, Some(d2.last()));
        let d3 = d2.drop_last();
        assert(replaced_slots(s3, d3, Seq::<usize>::empty()).1 == d3);
        assert(replaced_slots(s2, d2, seq![lo]).0 == s3);
        assert(replaced_slots(s2, d2, seq![lo]).1 == d3);
        assert(replaced_slots(s1, d1, seq![mid, lo]).0 == s3);
        assert(replaced_slots(s1, d1, seq![mid, lo]).1 == d3);
        lemma_filled_grows(s3, d3);
        lemma_filled_draws(s3, d3);
        assert(r.0.take(board.len() as int) =~= s3);
        assert(d3.subrange(0, r.1.len() as int) =~= deck.subrange(0, r.1.len() as int));
    } else {
        let s1 = board.remove(hi as int);
        let s2 = s1.remove(mid as int);
        let s3 = s2.remove(lo as int);
        assert(replaced_slots(s3, deck, Seq::<usize>::empty()).0 == s3);
        assert(replaced_slots(s2, deck, seq![lo]).0 == s3);
        assert(replaced_slots(s1, deck, seq![mid, lo]).0 == s3);
        assert forall|s: int|
            0 <= s < board.len() && s != i && s != j && s != k implies #[trigger] r.0[s
            - claimed_before(s, i, j, k)] == board[s] by {
            if s < lo {
                assert(s3[s] == board[s]);
            } else if s < mid {
                assert(s3[s - 1] == s2[s]);
                assert(s2[s] == s1[s]);
            } else if s < hi {
                assert(s3[s - 2] == s2[s - 1]);
                assert(s2[s - 1] == s1[s]);
            } else {
                assert(s3[s - 3] == s2[s - 2]);
                assert(s2[s - 2] == s1[s - 1]);
                assert(s1[s - 1] == board[s]);
            }
        }
    }
}

} // verus!
