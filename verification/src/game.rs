use rand::seq::SliceRandom;
use vstd::multiset::Multiset;
use vstd::prelude::*;

use crate::game_end::{in_threes, lemma_claim_keeps_threes, lemma_opening_in_threes};
use crate::card::{find_any_set, full_deck, is_set, ordered_deck, set_at, spec_is_set, Card};

verus! {

/// How many cards a fresh board starts with; in the default mode a board
/// larger than this shrinks back when a Set is claimed.
pub const INITIAL_BOARD_SIZE: usize = 12;

/// The cards a board slot holds: one card, or none for an empty slot.
pub open spec fn slot_cards(o: Option<Card>) -> Multiset<Card> {
    match o {
        Some(c) => Multiset::singleton(c),
        None => Multiset::empty(),
    }
}

/// The cards lying on a board, empty slots skipped.
pub open spec fn board_cards(b: Seq<Option<Card>>) -> Multiset<Card>
    decreases b.len(),
{
    if b.len() == 0 {
        Multiset::empty()
    } else {
        board_cards(b.drop_last()).add(slot_cards(b.last()))
    }
}

/// The cards still in play: those on the board and those left in the deck.
pub open spec fn in_play(board: Seq<Option<Card>>, deck: Seq<Card>) -> Multiset<Card> {
    board_cards(board).add(deck.to_multiset())
}

/// Some Set lies on the board.
pub open spec fn has_set(board: Seq<Option<Card>>) -> bool {
    exists|i: int, j: int, k: int| set_at(board, i, j, k)
}

/// The slots `i`, `j`, `k` (in any order) all hold cards that form a Set.
pub open spec fn set_in_slots(board: Seq<Option<Card>>, i: int, j: int, k: int) -> bool {
    &&& board[i] is Some
    &&& board[j] is Some
    &&& board[k] is Some
    &&& spec_is_set(board[i]->0, board[j]->0, board[k]->0)
}

/// Deals up to `n` cards, one at a time, from the end of the deck onto the
/// end of the board.
pub open spec fn dealt(board: Seq<Option<Card>>, deck: Seq<Card>, n: nat) -> (
    Seq<Option<Card>>,
    Seq<Card>,
)
    decreases n,
{
    if n == 0 || deck.len() == 0 {
        (board, deck)
    } else {
        dealt(board.push(Some(deck.last())), deck.drop_last(), (n - 1) as nat)
    }
}

/// What dealing does to the sizes: `min(n, deck.len())` cards move.
pub proof fn lemma_dealt_sizes(board: Seq<Option<Card>>, deck: Seq<Card>, n: nat)
    ensures
        ({
            let m = if n <= deck.len() { n as int } else { deck.len() as int };
            &&& dealt(board, deck, n).1 == deck.subrange(0, deck.len() - m)
            &&& dealt(board, deck, n).0.len() == board.len() + m
            &&& forall|t: int| 0 <= t < board.len() ==> #[trigger] dealt(board, deck, n).0[t] == board[t]
            &&& forall|t: int| board.len() <= t < board.len() + m ==> #[trigger] dealt(board, deck, n).0[t]
                == Some(deck[deck.len() - 1 - (t - board.len())])
        }),
    decreases n,
{
    if n == 0 || deck.len() == 0 {
        assert(deck.subrange(0, deck.len() as int) =~= deck);
    } else {
        lemma_dealt_sizes(board.push(Some(deck.last())), deck.drop_last(), (n - 1) as nat);
        assert(deck.drop_last().subrange(0, deck.len() - 1 - (if (n - 1) as nat <= deck.len() - 1 { n - 1 } else { deck.len() - 1 }))
            =~= deck.subrange(0, deck.len() - (if n <= deck.len() { n as int } else { deck.len() as int })));
    }
}

/// Deals three cards at a time until a Set lies on the board or the deck
/// is empty.
pub open spec fn filled_until_set(board: Seq<Option<Card>>, deck: Seq<Card>) -> (
    Seq<Option<Card>>,
    Seq<Card>,
)
    decreases deck.len(),
{
    if has_set(board) || deck.len() == 0 {
        (board, deck)
    } else {
        proof {
            lemma_dealt_sizes(board, deck, 3);
        }
        filled_until_set(dealt(board, deck, 3).0, dealt(board, deck, 3).1)
    }
}

/// Walks the board from slot `idx` on and deals one card into each empty
/// slot, stopping when the deck runs out; also gives the filled slots in
/// order.
pub open spec fn refilled_from(board: Seq<Option<Card>>, deck: Seq<Card>, idx: int) -> (
    Seq<Option<Card>>,
    Seq<Card>,
    Seq<usize>,
)
    decreases board.len() - idx,
{
    if idx < 0 || idx >= board.len() {
        (board, deck, Seq::empty())
    } else if board[idx] is Some {
        refilled_from(board, deck, idx + 1)
    } else if deck.len() == 0 {
        (board, deck, Seq::empty())
    } else {
        let r = refilled_from(board.update(idx, Some(deck.last())), deck.drop_last(), idx + 1);
        (r.0, r.1, seq![idx as usize] + r.2)
    }
}

/// Replaces the claimed slots, in the given order, with cards from the end
/// of the deck; once the deck is empty a claimed slot is removed instead.
/// Also gives the replaced slots in order.
pub open spec fn replaced_slots(board: Seq<Option<Card>>, deck: Seq<Card>, idxs: Seq<usize>) -> (
    Seq<Option<Card>>,
    Seq<Card>,
    Seq<usize>,
)
    decreases idxs.len(),
{
    if idxs.len() == 0 {
        (board, deck, Seq::empty())
    } else if deck.len() > 0 {
        let r = replaced_slots(
            board.update(idxs[0] as int, Some(deck.last())),
            deck.drop_last(),
            idxs.drop_first(),
        );
        (r.0, r.1, seq![idxs[0]] + r.2)
    } else {
        replaced_slots(board.remove(idxs[0] as int), deck, idxs.drop_first())
    }
}

/// The indices `lo, lo + 1, ..., hi - 1`.
pub open spec fn index_range(lo: int, hi: int) -> Seq<usize> {
    Seq::new((hi - lo) as nat, |t: int| (lo + t) as usize)
}

/// The three indices in ascending order.
pub open spec fn sorted3(i: usize, j: usize, k: usize) -> (usize, usize, usize) {
    if i <= j {
        if j <= k {
            (i, j, k)
        } else if i <= k {
            (i, k, j)
        } else {
            (k, i, j)
        }
    } else {
        if i <= k {
            (j, i, k)
        } else if j <= k {
            (j, k, i)
        } else {
            (k, j, i)
        }
    }
}

/// Board, deck and newly dealt slots after a successful claim of slots
/// `i`, `j`, `k`.
///
/// In static mode the claimed slots become empty; only when no Set remains
/// are the empty slots refilled (in slot order) and, if still no Set lies
/// on the board, three more cards dealt at a time onto its end. Otherwise a
/// board larger than the initial size loses the claimed slots; a board of
/// at most that size gets a card from the deck in each claimed slot
/// (highest slot first), or loses the slot once the deck is empty; then
/// three cards at a time are dealt onto its end until a Set lies on it or
/// the deck is empty.
pub open spec fn claim_outcome(
    board: Seq<Option<Card>>,
    deck: Seq<Card>,
    static_mode: bool,
    i: usize,
    j: usize,
    k: usize,
) -> (Seq<Option<Card>>, Seq<Card>, Seq<usize>) {
    let (lo, mid, hi) = sorted3(i, j, k);
    if static_mode {
        let emptied = board.update(lo as int, None).update(mid as int, None).update(hi as int, None);
        if has_set(emptied) {
            (emptied, deck, Seq::empty())
        } else {
            let r = refilled_from(emptied, deck, 0);
            let f = filled_until_set(r.0, r.1);
            (f.0, f.1, r.2 + index_range(r.0.len() as int, f.0.len() as int))
        }
    } else {
        let r = if board.len() > INITIAL_BOARD_SIZE {
            (board.remove(hi as int).remove(mid as int).remove(lo as int), deck, Seq::<usize>::empty())
        } else {
            replaced_slots(board, deck, seq![hi, mid, lo])
        };
        let f = filled_until_set(r.0, r.1);
        (f.0, f.1, r.2 + index_range(r.0.len() as int, f.0.len() as int))
    }
}

/// Board and deck at the start of a game dealt from `deck`: twelve cards,
/// then three more at a time until a Set lies on the board or the deck is
/// empty.
pub open spec fn opening(deck: Seq<Card>) -> (Seq<Option<Card>>, Seq<Card>) {
    let d = dealt(Seq::empty(), deck, INITIAL_BOARD_SIZE as nat);
    filled_until_set(d.0, d.1)
}

/// A game in progress.
pub struct Game {
    pub deck: Vec<Card>,
    pub board: Vec<Option<Card>>,
    pub found_sets: u32,
    pub attempts: u32,
    /// Board indices that were dealt or replaced during the most recent
    /// round (including the initial deal), for highlighting new cards.
    pub new_indices: Vec<usize>,
    /// In static mode, claimed cards leave an empty gap at their position
    /// instead of being replaced, and the board only refills (all gaps at
    /// once) once no Set remains among the cards still in play.
    pub static_mode: bool,
}

/// Shuffles the deck with `rand::seq::SliceRandom::shuffle`, drawing from
/// `rand::thread_rng()`. The contract claims only that the result is a
/// rearrangement of the same cards (the shuffle swaps elements in place);
/// which rearrangement comes out depends on the random generator and is
/// left unsaid. (`thread_rng` panics only when the operating system cannot
/// seed it, which no argument decides.)
#[verifier::external_body]
fn shuffle_cards(deck: &mut Vec<Card>)
    ensures
        final(deck)@.to_multiset() == old(deck)@.to_multiset(),
{
    deck.shuffle(&mut rand::thread_rng());
}

/// A card lies in a filled slot of a board.
pub proof fn lemma_slot_counted(b: Seq<Option<Card>>, i: int)
    requires
        0 <= i < b.len(),
        b[i] is Some,
    ensures
        board_cards(b).count(b[i]->0) >= 1,
    decreases b.len(),
{
    if i < b.len() - 1 {
        lemma_slot_counted(b.drop_last(), i);
    }
}

/// A card lying in two different slots is counted twice.
proof fn lemma_two_slots_counted(b: Seq<Option<Card>>, i: int, k: int)
    requires
        0 <= i < k < b.len(),
        b[i] is Some,
        b[k] == b[i],
    ensures
        board_cards(b).count(b[i]->0) >= 2,
    decreases b.len(),
{
    if k < b.len() - 1 {
        lemma_two_slots_counted(b.drop_last(), i, k);
    } else {
        lemma_slot_counted(b.drop_last(), i);
    }
}

/// When no card is in play twice, three slots that hold a Set are three
/// different slots, unless all three are the same slot.
pub proof fn lemma_claimed_slots_distinct(
    board: Seq<Option<Card>>,
    deck: Seq<Card>,
    i: int,
    j: int,
    k: int,
)
    requires
        forall|c: Card| #[trigger] in_play(board, deck).count(c) <= 1,
        0 <= i < board.len(),
        0 <= j < board.len(),
        0 <= k < board.len(),
        !(i == j && j == k),
        set_in_slots(board, i, j, k),
    ensures
        i != j,
        j != k,
        i != k,
{
    let (a, b, c) = (board[i]->0, board[j]->0, board[k]->0);
    crate::card::lemma_repeated_card(a, c);
    crate::card::lemma_repeated_card(b, a);
    crate::card::lemma_repeated_card(c, b);
    crate::card::lemma_is_set_order_free(a, b, c);
    crate::card::lemma_is_set_order_free(b, a, c);
    crate::card::lemma_is_set_order_free(a, c, b);
    if i == j {
        if i < k { lemma_two_slots_counted(board, i, k); } else { lemma_two_slots_counted(board, k, i); }
        assert(in_play(board, deck).count(a) >= 2);
    } else if j == k {
        if i < j { lemma_two_slots_counted(board, i, j); } else { lemma_two_slots_counted(board, j, i); }
        assert(in_play(board, deck).count(b) >= 2);
    } else if i == k {
        if i < j { lemma_two_slots_counted(board, i, j); } else { lemma_two_slots_counted(board, j, i); }
        assert(in_play(board, deck).count(a) >= 2);
    }
}

/// Dealing until a Set appears only appends to the board.
pub proof fn lemma_filled_grows(b: Seq<Option<Card>>, d: Seq<Card>)
    ensures
        filled_until_set(b, d).0.len() >= b.len(),
        forall|t: int| 0 <= t < b.len() ==> #[trigger] filled_until_set(b, d).0[t] == b[t],
    decreases d.len(),
{
    if !(has_set(b) || d.len() == 0) {
        lemma_dealt_sizes(b, d, 3);
        let r = dealt(b, d, 3);
        lemma_filled_grows(r.0, r.1);
    }
}

/// Appends `lo, lo + 1, ..., hi - 1`.
fn push_range(v: &mut Vec<usize>, lo: usize, hi: usize)
    requires
        lo <= hi,
    ensures
        final(v)@ == old(v)@ + index_range(lo as int, hi as int),
{
    let ghost v0 = v@;
    let mut t: usize = lo;
    while t < hi
        invariant
            lo <= t <= hi,
            v@ == v0 + index_range(lo as int, t as int),
        decreases hi - t,
    {
        v.push(t);
        t = t + 1;
        assert(v@ =~= v0 + index_range(lo as int, t as int));
    }
}

/// The three indices in ascending order.
fn sort3(i: usize, j: usize, k: usize) -> (r: (usize, usize, usize))
    ensures
        r == sorted3(i, j, k),
{
    if i <= j {
        if j <= k {
            (i, j, k)
        } else if i <= k {
            (i, k, j)
        } else {
            (k, i, j)
        }
    } else {
        if i <= k {
            (j, i, k)
        } else if j <= k {
            (j, k, i)
        } else {
            (k, j, i)
        }
    }
}

impl Game {
    /// How many cards are still in play, on the board or in the deck.
    pub open spec fn cards_in_play(&self) -> nat {
        in_play(self.board@, self.deck@).len()
    }

    /// No card is in play twice.
    pub open spec fn wf(&self) -> bool {
        forall|c: Card| #[trigger] in_play(self.board@, self.deck@).count(c) <= 1
    }

    /// Starts a game from a shuffled full deck.
    pub fn new(static_mode: bool) -> (game: Game)
        ensures
            exists|d: Seq<Card>|
                {
                    &&& #[trigger] d.to_multiset() == ordered_deck().to_multiset()
                    &&& game.board@ == opening(d).0
                    &&& game.deck@ == opening(d).1
                },
            game.found_sets == 0,
            game.attempts == 0,
            game.new_indices@ == index_range(0, game.board@.len() as int),
            game.static_mode == static_mode,
            game.wf(),
            game.cards_in_play() == 81,
            has_set(game.board@) || game.deck@.len() == 0,
            in_threes(game.board@, game.deck@),
    {
        let mut deck = full_deck();
        shuffle_cards(&mut deck);
        let ghost d = deck@;
        let game = Game::with_deck(deck, static_mode);
        proof {
            crate::game_laws::lemma_opening(d);
            lemma_opening_in_threes(d);
        }
        game
    }

    /// Starts a game from the given deck, whose last card is dealt first.
    pub fn with_deck(deck: Vec<Card>, static_mode: bool) -> (game: Game)
        ensures
            game.board@ == opening(deck@).0,
            game.deck@ == opening(deck@).1,
            game.found_sets == 0,
            game.attempts == 0,
            game.new_indices@ == index_range(0, game.board@.len() as int),
            game.static_mode == static_mode,
            (forall|c: Card| #[trigger] deck@.to_multiset().count(c) <= 1) ==> game.wf(),
    {
        proof {
            crate::game_laws::lemma_opening_in_play(deck@);
        }
        let mut game = Game {
            deck,
            board: Vec::new(),
            found_sets: 0,
            attempts: 0,
            new_indices: Vec::new(),
            static_mode,
        };
        game.deal(INITIAL_BOARD_SIZE);
        game.ensure_set_exists();
        let mut all: Vec<usize> = Vec::new();
        push_range(&mut all, 0, game.board.len());
        assert(all@ =~= index_range(0, game.board@.len() as int));
        game.new_indices = all;
        game
    }

    fn deal(&mut self, n: usize)
        ensures
            (final(self).board@, final(self).deck@) == dealt(old(self).board@, old(self).deck@, n as nat),
            final(self).found_sets == old(self).found_sets,
            final(self).attempts == old(self).attempts,
            final(self).new_indices == old(self).new_indices,
            final(self).static_mode == old(self).static_mode,
    {
        let ghost b0 = self.board@;
        let ghost d0 = self.deck@;
        let mut t: usize = 0;
        while t < n && self.deck.len() > 0
            invariant
                t <= n,
                dealt(b0, d0, n as nat) == dealt(self.board@, self.deck@, (n - t) as nat),
                self.found_sets == old(self).found_sets,
                self.attempts == old(self).attempts,
                self.new_indices == old(self).new_indices,
                self.static_mode == old(self).static_mode,
            decreases n - t,
        {
            let ghost dd = self.deck@;
            match self.deck.pop() {
                Some(c) => self.board.push(Some(c)),
                None => {},
            }
            assert(self.deck@ =~= dd.drop_last());
            t = t + 1;
        }
    }

    /// Deals a new card into every empty slot, in place, stopping if the
    /// deck runs out. Returns the positions that were filled.
    fn refill_empty_slots(&mut self) -> (filled: Vec<usize>)
        ensures
            (final(self).board@, final(self).deck@, filled@) == refilled_from(
                old(self).board@,
                old(self).deck@,
                0,
            ),
            final(self).found_sets == old(self).found_sets,
            final(self).attempts == old(self).attempts,
            final(self).new_indices == old(self).new_indices,
            final(self).static_mode == old(self).static_mode,
    {
        let ghost b0 = self.board@;
        let ghost d0 = self.deck@;
        let mut filled: Vec<usize> = Vec::new();
        let n = self.board.len();
        let mut idx: usize = 0;
        while idx < n
            invariant
                idx <= n,
                n == self.board@.len(),
                refilled_from(b0, d0, 0) == ({
                    let r = refilled_from(self.board@, self.deck@, idx as int);
                    (r.0, r.1, filled@ + r.2)
                }),
                self.found_sets == old(self).found_sets,
                self.attempts == old(self).attempts,
                self.new_indices == old(self).new_indices,
                self.static_mode == old(self).static_mode,
            ensures
                refilled_from(b0, d0, 0) == (self.board@, self.deck@, filled@),
                self.found_sets == old(self).found_sets,
                self.attempts == old(self).attempts,
                self.new_indices == old(self).new_indices,
                self.static_mode == old(self).static_mode,
            decreases n - idx,
        {
            if self.board[idx].is_none() {
                let ghost dd = self.deck@;
                let ghost ff = filled@;
                match self.deck.pop() {
                    Some(card) => {
                        self.board.set(idx, Some(card));
                        filled.push(idx);
                        assert(self.deck@ =~= dd.drop_last());
                        let ghost r = refilled_from(self.board@, self.deck@, idx + 1);
                        assert(ff + (seq![idx] + r.2) =~= filled@ + r.2);
                    },
                    None => {
                        assert(filled@ + Seq::<usize>::empty() =~= filled@);
                        break ;
                    },
                }
            }
            idx = idx + 1;
        }
        proof {
            if idx >= n {
                assert(filled@ + Seq::<usize>::empty() =~= filled@);
            }
        }
        filled
    }

    fn ensure_set_exists(&mut self)
        ensures
            (final(self).board@, final(self).deck@) == filled_until_set(old(self).board@, old(self).deck@),
            final(self).found_sets == old(self).found_sets,
            final(self).attempts == old(self).attempts,
            final(self).new_indices == old(self).new_indices,
            final(self).static_mode == old(self).static_mode,
    {
        let ghost b0 = self.board@;
        let ghost d0 = self.deck@;
        while find_any_set(self.board.as_slice()).is_none() && !self.deck.is_empty()
            invariant
                filled_until_set(b0, d0) == filled_until_set(self.board@, self.deck@),
                self.found_sets == old(self).found_sets,
                self.attempts == old(self).attempts,
                self.new_indices == old(self).new_indices,
                self.static_mode == old(self).static_mode,
            decreases self.deck@.len(),
        {
            proof {
                lemma_dealt_sizes(self.board@, self.deck@, 3);
            }
            self.deal(3);
        }
    }

    /// The game is over when the deck is empty and no Set lies on the board.
    pub fn is_over(&self) -> (over: bool)
        ensures
            over == (self.deck@.len() == 0 && !has_set(self.board@)),
    {
        self.deck.is_empty() && find_any_set(self.board.as_slice()).is_none()
    }

    /// Puts the top card of the deck into slot `idx`, or removes the slot
    /// when the deck is empty.
    fn replace_slot(&mut self, idx: usize, replaced: &mut Vec<usize>)
        requires
            idx < old(self).board@.len(),
        ensures
            old(self).deck@.len() > 0 ==> {
                &&& final(self).board@ == old(self).board@.update(idx as int, Some(old(self).deck@.last()))
                &&& final(self).deck@ == old(self).deck@.drop_last()
                &&& final(replaced)@ == old(replaced)@.push(idx)
            },
            old(self).deck@.len() == 0 ==> {
                &&& final(self).board@ == old(self).board@.remove(idx as int)
                &&& final(self).deck@ == old(self).deck@
                &&& final(replaced)@ == old(replaced)@
            },
            final(self).found_sets == old(self).found_sets,
            final(self).attempts == old(self).attempts,
            final(self).new_indices == old(self).new_indices,
            final(self).static_mode == old(self).static_mode,
    {
        match self.deck.pop() {
            Some(new_card) => {
                self.board.set(idx, Some(new_card));
                replaced.push(idx);
            },
            None => {
                self.board.remove(idx);
            },
        }
    }

    /// Attempts to claim slots `i`, `j`, `k` of the board as a Set. Every
    /// attempt is counted; a failed one changes nothing else, and naming a
    /// slot more than once always fails. A successful
    /// one counts the Set and moves on to `claim_outcome`.
    pub fn try_claim(&mut self, i: usize, j: usize, k: usize) -> (claimed: bool)
        requires
            old(self).wf(),
            i < old(self).board@.len(),
            j < old(self).board@.len(),
            k < old(self).board@.len(),
            old(self).attempts < u32::MAX,
            old(self).found_sets < u32::MAX,
        ensures
            claimed == (i != j && j != k && i != k
                && set_in_slots(old(self).board@, i as int, j as int, k as int)),
            final(self).attempts == old(self).attempts + 1,
            final(self).static_mode == old(self).static_mode,
            final(self).wf(),
            claimed ==> has_set(final(self).board@) || final(self).deck@.len() == 0,
            claimed ==> final(self).cards_in_play() + 3 == old(self).cards_in_play(),
            in_threes(old(self).board@, old(self).deck@) ==> in_threes(final(self).board@, final(self).deck@),
            !claimed ==> {
                &&& final(self).board == old(self).board
                &&& final(self).deck == old(self).deck
                &&& final(self).found_sets == old(self).found_sets
                &&& final(self).new_indices == old(self).new_indices
            },
            claimed ==> {
                &&& final(self).found_sets == old(self).found_sets + 1
                &&& (final(self).board@, final(self).deck@, final(self).new_indices@)
                    == claim_outcome(old(self).board@, old(self).deck@, old(self).static_mode, i, j, k)
            },
    {
        self.attempts = self.attempts + 1;
        // Naming one slot more than once never claims a Set.
        if i == j || j == k || i == k {
            return false;
        }
        if !self.is_set_at(i, j, k) {
            return false;
        }
        proof {
            crate::game_laws::lemma_claim_conserves_cards(
                self.board@,
                self.deck@,
                self.static_mode,
                i,
                j,
                k,
            );
            if in_threes(self.board@, self.deck@) {
                lemma_claim_keeps_threes(self.board@, self.deck@, self.static_mode, i, j, k);
            }
        }
        self.found_sets = self.found_sets + 1;
        let ghost b0 = self.board@;
        let ghost d0 = self.deck@;
        let (lo, mid, hi) = sort3(i, j, k);
        let mut new_indices: Vec<usize> = Vec::new();
        if self.static_mode {
            self.board.set(lo, None);
            self.board.set(mid, None);
            self.board.set(hi, None);
            // Don't deal new cards while a Set still exists among the
            // cards still in play; positions and numbering never shift.
            if find_any_set(self.board.as_slice()).is_none() {
                new_indices = self.refill_empty_slots();
                let before_len = self.board.len();
                let ghost b1 = self.board@;
                let ghost d1 = self.deck@;
                self.ensure_set_exists();
                proof {
                    lemma_filled_grows(b1, d1);
                }
                push_range(&mut new_indices, before_len, self.board.len());
            } else {
                assert(new_indices@ =~= Seq::<usize>::empty());
            }
        } else {
            if self.board.len() > INITIAL_BOARD_SIZE {
                // Board was temporarily expanded because no Set existed at
                // 12 cards; shrink it back down instead of dealing more.
                self.board.remove(hi);
                self.board.remove(mid);
                self.board.remove(lo);
            } else {
                let ghost s0 = seq![hi, mid, lo];
                assert(s0.drop_first() =~= seq![mid, lo]);
                assert(seq![mid, lo].drop_first() =~= seq![lo]);
                assert(seq![lo].drop_first() =~= Seq::<usize>::empty());
                self.replace_slot(hi, &mut new_indices);
                let ghost b1 = self.board@;
                let ghost d1 = self.deck@;
                let ghost n1 = new_indices@;
                self.replace_slot(mid, &mut new_indices);
                let ghost b2 = self.board@;
                let ghost d2 = self.deck@;
                let ghost n2 = new_indices@;
                self.replace_slot(lo, &mut new_indices);
                proof {
                    let r3 = replaced_slots(self.board@, self.deck@, Seq::empty());
                    assert(r3 == (self.board@, self.deck@, Seq::<usize>::empty()));
                    let r2 = replaced_slots(b2, d2, seq![lo]);
                    assert(r2.0 == self.board@ && r2.1 == self.deck@);
                    assert(n2 + r2.2 =~= new_indices@);
                    let r1 = replaced_slots(b1, d1, seq![mid, lo]);
                    assert(r1.0 == self.board@ && r1.1 == self.deck@);
                    assert(n1 + r1.2 =~= new_indices@);
                    let r0 = replaced_slots(b0, d0, s0);
                    assert(r0.0 == self.board@ && r0.1 == self.deck@);
                    assert(r0.2 =~= new_indices@);
                }
            }
            let before_len = self.board.len();
            let ghost b1 = self.board@;
            let ghost d1 = self.deck@;
            self.ensure_set_exists();
            proof {
                lemma_filled_grows(b1, d1);
            }
            push_range(&mut new_indices, before_len, self.board.len());
        }
        self.new_indices = new_indices;
        true
    }

    fn is_set_at(&self, i: usize, j: usize, k: usize) -> (r: bool)
        requires
            i < self.board@.len(),
            j < self.board@.len(),
            k < self.board@.len(),
        ensures
            r == set_in_slots(self.board@, i as int, j as int, k as int),
    {
        match (self.board[i], self.board[j], self.board[k]) {
            (Some(a), Some(b), Some(c)) => is_set(&a, &b, &c),
            _ => false,
        }
    }
}

} // verus!
