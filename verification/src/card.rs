use vstd::prelude::*;

verus! {

/// How many symbols a card shows.
#[derive(Clone, Copy, PartialEq, Eq, Debug, Structural)]
pub enum Number {
    One,
    Two,
    Three,
}

/// The color of a card's symbols.
#[derive(Clone, Copy, PartialEq, Eq, Debug, Structural)]
pub enum Color {
    Red,
    Green,
    Purple,
}

/// The shape of a card's symbols.
#[derive(Clone, Copy, PartialEq, Eq, Debug, Structural)]
pub enum Shape {
    Diamond,
    Squiggle,
    Oval,
}

/// The fill of a card's symbols.
#[derive(Clone, Copy, PartialEq, Eq, Debug, Structural)]
pub enum Shading {
    Solid,
    Striped,
    Empty,
}

/// One card: a value for each of the four attributes.
#[derive(Clone, Copy, PartialEq, Eq, Debug, Structural)]
pub struct Card {
    pub number: Number,
    pub color: Color,
    pub shape: Shape,
    pub shading: Shading,
}

/// Position of a number among `One, Two, Three`.
pub open spec fn number_rank(n: Number) -> int {
    match n {
        Number::One => 0,
        Number::Two => 1,
        Number::Three => 2,
    }
}

/// Position of a color among `Red, Green, Purple`.
pub open spec fn color_rank(c: Color) -> int {
    match c {
        Color::Red => 0,
        Color::Green => 1,
        Color::Purple => 2,
    }
}

/// Position of a shape among `Diamond, Squiggle, Oval`.
pub open spec fn shape_rank(s: Shape) -> int {
    match s {
        Shape::Diamond => 0,
        Shape::Squiggle => 1,
        Shape::Oval => 2,
    }
}

/// Position of a shading among `Solid, Striped, Empty`.
pub open spec fn shading_rank(s: Shading) -> int {
    match s {
        Shading::Solid => 0,
        Shading::Striped => 1,
        Shading::Empty => 2,
    }
}

/// The position of a card in the ordered deck: number, then color, then
/// shape, then shading, each in declaration order.
pub open spec fn card_rank(c: Card) -> int {
    27 * number_rank(c.number) + 9 * color_rank(c.color) + 3 * shape_rank(c.shape)
        + shading_rank(c.shading)
}

/// The card at position `i` (0 <= i < 81) of the ordered deck.
pub open spec fn card_at_rank(i: int) -> Card {
    Card {
        number: if i / 27 == 0 { Number::One } else if i / 27 == 1 { Number::Two } else { Number::Three },
        color: if (i / 9) % 3 == 0 { Color::Red } else if (i / 9) % 3 == 1 { Color::Green } else { Color::Purple },
        shape: if (i / 3) % 3 == 0 { Shape::Diamond } else if (i / 3) % 3 == 1 { Shape::Squiggle } else { Shape::Oval },
        shading: if i % 3 == 0 { Shading::Solid } else if i % 3 == 1 { Shading::Striped } else { Shading::Empty },
    }
}

/// The ordered deck of all 81 cards.
pub open spec fn ordered_deck() -> Seq<Card> {
    Seq::new(81, |i: int| card_at_rank(i))
}

/// Three values are all equal or pairwise different.
pub open spec fn all_same_or_all_different<T>(a: T, b: T, c: T) -> bool {
    (a == b && b == c) || (a != b && b != c && a != c)
}

/// Three cards form a Set: every attribute is all-same or all-different.
pub open spec fn spec_is_set(a: Card, b: Card, c: Card) -> bool {
    &&& all_same_or_all_different(a.number, b.number, c.number)
    &&& all_same_or_all_different(a.color, b.color, c.color)
    &&& all_same_or_all_different(a.shape, b.shape, c.shape)
    &&& all_same_or_all_different(a.shading, b.shading, c.shading)
}

impl Number {
    /// The number of symbols this value stands for.
    pub fn count(self) -> (n: usize)
        ensures
            n == number_rank(self) + 1,
    {
        match self {
            Number::One => 1,
            Number::Two => 2,
            Number::Three => 3,
        }
    }
}

/// Builds the 81 cards, number outermost and shading innermost.
pub fn full_deck() -> (deck: Vec<Card>)
    ensures
        deck@ == ordered_deck(),
{
    let numbers = [Number::One, Number::Two, Number::Three];
    let colors = [Color::Red, Color::Green, Color::Purple];
    let shapes = [Shape::Diamond, Shape::Squiggle, Shape::Oval];
    let shadings = [Shading::Solid, Shading::Striped, Shading::Empty];
    let mut deck: Vec<Card> = Vec::with_capacity(81);
    let mut n: usize = 0;
    while n < 3
        invariant
            n <= 3,
            deck@.len() == 27 * n,
            forall|k: int| 0 <= k < deck@.len() ==> #[trigger] deck@[k] == card_at_rank(k),
            numbers@ == seq![Number::One, Number::Two, Number::Three],
            colors@ == seq![Color::Red, Color::Green, Color::Purple],
            shapes@ == seq![Shape::Diamond, Shape::Squiggle, Shape::Oval],
            shadings@ == seq![Shading::Solid, Shading::Striped, Shading::Empty],
        decreases 3 - n,
    {
        let mut c: usize = 0;
        while c < 3
            invariant
                n < 3,
                c <= 3,
                deck@.len() == 27 * n + 9 * c,
                forall|k: int| 0 <= k < deck@.len() ==> #[trigger] deck@[k] == card_at_rank(k),
                numbers@ == seq![Number::One, Number::Two, Number::Three],
                colors@ == seq![Color::Red, Color::Green, Color::Purple],
                shapes@ == seq![Shape::Diamond, Shape::Squiggle, Shape::Oval],
                shadings@ == seq![Shading::Solid, Shading::Striped, Shading::Empty],
            decreases 3 - c,
        {
            let mut s: usize = 0;
            while s < 3
                invariant
                    n < 3,
                    c < 3,
                    s <= 3,
                    deck@.len() == 27 * n + 9 * c + 3 * s,
                    forall|k: int| 0 <= k < deck@.len() ==> #[trigger] deck@[k] == card_at_rank(k),
                    numbers@ == seq![Number::One, Number::Two, Number::Three],
                    colors@ == seq![Color::Red, Color::Green, Color::Purple],
                    shapes@ == seq![Shape::Diamond, Shape::Squiggle, Shape::Oval],
                    shadings@ == seq![Shading::Solid, Shading::Striped, Shading::Empty],
                decreases 3 - s,
            {
                let mut h: usize = 0;
                while h < 3
                    invariant
                        n < 3,
                        c < 3,
                        s < 3,
                        h <= 3,
                        deck@.len() == 27 * n + 9 * c + 3 * s + h,
                        forall|k: int| 0 <= k < deck@.len() ==> #[trigger] deck@[k] == card_at_rank(k),
                        numbers@ == seq![Number::One, Number::Two, Number::Three],
                        colors@ == seq![Color::Red, Color::Green, Color::Purple],
                        shapes@ == seq![Shape::Diamond, Shape::Squiggle, Shape::Oval],
                        shadings@ == seq![Shading::Solid, Shading::Striped, Shading::Empty],
                    decreases 3 - h,
                {
                    let card = Card {
                        number: numbers[n],
                        color: colors[c],
                        shape: shapes[s],
                        shading: shadings[h],
                    };
                    proof {
                        let k = 27 * n + 9 * c + 3 * s + h;
                        assert(k / 27 == n && (k / 9) % 3 == c && (k / 3) % 3 == s && k % 3 == h)
                            by (nonlinear_arith)
                            requires
                                k == 27 * n + 9 * c + 3 * s + h,
                                n < 3,
                                c < 3,
                                s < 3,
                                h < 3,
                        ;
                    }
                    deck.push(card);
                    h = h + 1;
                }
                s = s + 1;
            }
            c = c + 1;
        }
        n = n + 1;
    }
    assert(deck@ =~= ordered_deck());
    deck
}


/// Decides whether three cards form a Set.
pub fn is_set(a: &Card, b: &Card, c: &Card) -> (r: bool)
    ensures
        r == spec_is_set(*a, *b, *c),
{
    ((a.number == b.number && b.number == c.number) || (a.number != b.number && b.number
        != c.number && a.number != c.number)) && ((a.color == b.color && b.color == c.color) || (
    a.color != b.color && b.color != c.color && a.color != c.color)) && ((a.shape == b.shape
        && b.shape == c.shape) || (a.shape != b.shape && b.shape != c.shape && a.shape
        != c.shape)) && ((a.shading == b.shading && b.shading == c.shading) || (a.shading
        != b.shading && b.shading != c.shading && a.shading != c.shading))
}

/// Slots `i < j < k` of the board all hold cards, and those cards form a Set.
pub open spec fn set_at(cards: Seq<Option<Card>>, i: int, j: int, k: int) -> bool {
    &&& 0 <= i < j
    &&& j < k
    &&& k < cards.len()
    &&& cards[i] is Some
    &&& cards[j] is Some
    &&& cards[k] is Some
    &&& spec_is_set(cards[i]->0, cards[j]->0, cards[k]->0)
}

/// Lexicographic order on index triples.
pub open spec fn triple_before(a: (int, int, int), b: (int, int, int)) -> bool {
    ||| a.0 < b.0
    ||| a.0 == b.0 && a.1 < b.1
    ||| a.0 == b.0 && a.1 == b.1 && a.2 < b.2
}

/// An index triple as a triple of integers.
pub open spec fn as_ints(t: (usize, usize, usize)) -> (int, int, int) {
    (t.0 as int, t.1 as int, t.2 as int)
}

/// Every index triple at which the board holds a Set.
pub open spec fn set_triples(cards: Seq<Option<Card>>) -> Set<(usize, usize, usize)> {
    Set::new(|t: (usize, usize, usize)| set_at(cards, t.0 as int, t.1 as int, t.2 as int))
}

/// Finds the first Set on the board, in lexicographic order of index
/// triples, skipping empty slots.
pub fn find_any_set(cards: &[Option<Card>]) -> (r: Option<(usize, usize, usize)>)
    ensures
        match r {
            None => forall|i: int, j: int, k: int| !set_at(cards@, i, j, k),
            Some(t) => {
                &&& set_at(cards@, t.0 as int, t.1 as int, t.2 as int)
                &&& forall|i: int, j: int, k: int|
                    #![trigger set_at(cards@, i, j, k)]
                    triple_before((i, j, k), as_ints(t)) ==> !set_at(cards@, i, j, k)
            },
        },
{
    let n = cards.len();
    let mut i: usize = 0;
    while i < n
        invariant
            n == cards@.len(),
            i <= n,
            forall|i2: int, j: int, k: int|
                #![trigger set_at(cards@, i2, j, k)]
                i2 < i ==> !set_at(cards@, i2, j, k),
        decreases n - i,
    {
        if let Some(a) = cards[i] {
            let mut j: usize = i + 1;
            while j < n
                invariant
                    n == cards@.len(),
                    i < j <= n,
                    cards@[i as int] == Some(a),
                    forall|i2: int, j2: int, k: int|
                        #![trigger set_at(cards@, i2, j2, k)]
                        (i2 < i || (i2 == i && j2 < j)) ==> !set_at(cards@, i2, j2, k),
                decreases n - j,
            {
                if let Some(b) = cards[j] {
                    let mut k: usize = j + 1;
                    while k < n
                        invariant
                            n == cards@.len(),
                            i < j < k <= n,
                            cards@[i as int] == Some(a),
                            cards@[j as int] == Some(b),
                            forall|i2: int, j2: int, k2: int|
                                #![trigger set_at(cards@, i2, j2, k2)]
                                (i2 < i || (i2 == i && j2 < j) || (i2 == i && j2 == j && k2 < k))
                                    ==> !set_at(cards@, i2, j2, k2),
                        decreases n - k,
                    {
                        if let Some(c) = cards[k] {
                            if is_set(&a, &b, &c) {
                                return Some((i, j, k));
                            }
                        }
                        k = k + 1;
                    }
                }
                j = j + 1;
            }
        }
        i = i + 1;
    }
    None
}

/// Lists every Set on the board as 0-based index triples, in lexicographic
/// order.
pub fn find_all_sets(cards: &[Option<Card>]) -> (sets: Vec<(usize, usize, usize)>)
    ensures
        forall|a: int| 0 <= a < sets@.len() ==> #[trigger] set_triples(cards@).contains(sets@[a]),
        forall|t: (usize, usize, usize)| set_triples(cards@).contains(t) ==> sets@.contains(t),
        forall|a: int, b: int|
            0 <= a < b < sets@.len() ==> triple_before(as_ints(sets@[a]), as_ints(sets@[b])),
{
    let n = cards.len();
    let mut sets: Vec<(usize, usize, usize)> = Vec::new();
    let mut i: usize = 0;
    while i < n
        invariant
            n == cards@.len(),
            i <= n,
            forall|a: int|
                0 <= a < sets@.len() ==> set_triples(cards@).contains(sets@[a])
                    && triple_before(as_ints(sets@[a]), (i as int, 0, 0)),
            forall|t: (usize, usize, usize)|
                set_triples(cards@).contains(t) && triple_before(as_ints(t), (i as int, 0, 0))
                    ==> sets@.contains(t),
            forall|a: int, b: int|
                0 <= a < b < sets@.len() ==> triple_before(as_ints(sets@[a]), as_ints(sets@[b])),
        decreases n - i,
    {
        if let Some(a) = cards[i] {
            let mut j: usize = i + 1;
            while j < n
                invariant
                    n == cards@.len(),
                    i < j <= n,
                    cards@[i as int] == Some(a),
                    forall|x: int|
                        0 <= x < sets@.len() ==> set_triples(cards@).contains(sets@[x])
                            && triple_before(as_ints(sets@[x]), (i as int, j as int, 0)),
                    forall|t: (usize, usize, usize)|
                        set_triples(cards@).contains(t) && triple_before(
                            as_ints(t),
                            (i as int, j as int, 0),
                        ) ==> sets@.contains(t),
                    forall|x: int, y: int|
                        0 <= x < y < sets@.len() ==> triple_before(
                            as_ints(sets@[x]),
                            as_ints(sets@[y]),
                        ),
                decreases n - j,
            {
                if let Some(b) = cards[j] {
                    let mut k: usize = j + 1;
                    while k < n
                        invariant
                            n == cards@.len(),
                            i < j < k <= n,
                            cards@[i as int] == Some(a),
                            cards@[j as int] == Some(b),
                            forall|x: int|
                                0 <= x < sets@.len() ==> set_triples(cards@).contains(
                                    sets@[x],
                                ) && triple_before(
                                    as_ints(sets@[x]),
                                    (i as int, j as int, k as int),
                                ),
                            forall|t: (usize, usize, usize)|
                                set_triples(cards@).contains(t) && triple_before(
                                    as_ints(t),
                                    (i as int, j as int, k as int),
                                ) ==> sets@.contains(t),
                            forall|x: int, y: int|
                                0 <= x < y < sets@.len() ==> triple_before(
                                    as_ints(sets@[x]),
                                    as_ints(sets@[y]),
                                ),
                        decreases n - k,
                    {
                        if let Some(c) = cards[k] {
                            if is_set(&a, &b, &c) {
                                let ghost old_sets = sets@;
                                sets.push((i, j, k));
                                assert(forall|x: int|
                                    0 <= x < old_sets.len() ==> sets@[x] == old_sets[x]);
                                assert(set_triples(cards@).contains((i, j, k)));
                                assert forall|t: (usize, usize, usize)|
                                    set_triples(cards@).contains(t) && triple_before(
                                        as_ints(t),
                                        (i as int, j as int, k + 1),
                                    ) implies sets@.contains(t) by {
                                    if t == (i, j, k) {
                                        assert(sets@[old_sets.len() as int] == t);
                                    } else {
                                        assert(old_sets.contains(t));
                                        let x = choose|x: int|
                                            0 <= x < old_sets.len() && old_sets[x] == t;
                                        assert(sets@[x] == t);
                                    }
                                }
                            }
                        }
                        k = k + 1;
                    }
                }
                j = j + 1;
            }
        }
        i = i + 1;
    }
    sets
}

/// Counts the Sets on the board.
pub fn count_sets(cards: &[Option<Card>]) -> (n: usize)
    ensures
        n == set_triples(cards@).len(),
{
    let sets = find_all_sets(cards);
    proof {
        assert(sets@.no_duplicates()) by {
            assert forall|a: int, b: int|
                0 <= a < sets@.len() && 0 <= b < sets@.len() && a != b implies sets@[a]
                != sets@[b] by {
                if a < b {
                    assert(triple_before(as_ints(sets@[a]), as_ints(sets@[b])));
                } else {
                    assert(triple_before(as_ints(sets@[b]), as_ints(sets@[a])));
                }
            }
        }
        sets@.unique_seq_to_set();
        assert(sets@.to_set() =~= set_triples(cards@));
    }
    sets.len()
}


/// The number that completes `x, y`: `x` itself if they agree, else the
/// remaining third value.
pub open spec fn completing_number(x: Number, y: Number) -> Number {
    if x == y {
        x
    } else if x != Number::One && y != Number::One {
        Number::One
    } else if x != Number::Two && y != Number::Two {
        Number::Two
    } else {
        Number::Three
    }
}

/// The color that completes `x, y`.
pub open spec fn completing_color(x: Color, y: Color) -> Color {
    if x == y {
        x
    } else if x != Color::Red && y != Color::Red {
        Color::Red
    } else if x != Color::Green && y != Color::Green {
        Color::Green
    } else {
        Color::Purple
    }
}

/// The shape that completes `x, y`.
pub open spec fn completing_shape(x: Shape, y: Shape) -> Shape {
    if x == y {
        x
    } else if x != Shape::Diamond && y != Shape::Diamond {
        Shape::Diamond
    } else if x != Shape::Squiggle && y != Shape::Squiggle {
        Shape::Squiggle
    } else {
        Shape::Oval
    }
}

/// The shading that completes `x, y`.
pub open spec fn completing_shading(x: Shading, y: Shading) -> Shading {
    if x == y {
        x
    } else if x != Shading::Solid && y != Shading::Solid {
        Shading::Solid
    } else if x != Shading::Striped && y != Shading::Striped {
        Shading::Striped
    } else {
        Shading::Empty
    }
}

/// The card that completes the pair `a, b` to a Set.
pub open spec fn completing_card(a: Card, b: Card) -> Card {
    Card {
        number: completing_number(a.number, b.number),
        color: completing_color(a.color, b.color),
        shape: completing_shape(a.shape, b.shape),
        shading: completing_shading(a.shading, b.shading),
    }
}

/// Every pair of cards has exactly one completion to a Set: `a, b, c` is a
/// Set exactly when `c` is `completing_card(a, b)`; for two different cards
/// that completion differs from both.
pub proof fn lemma_unique_completion(a: Card, b: Card, c: Card)
    ensures
        spec_is_set(a, b, c) <==> c == completing_card(a, b),
        a != b ==> completing_card(a, b) != a && completing_card(a, b) != b,
{
}

/// Whether three cards form a Set does not depend on their order.
pub proof fn lemma_is_set_order_free(a: Card, b: Card, c: Card)
    ensures
        spec_is_set(a, b, c) == spec_is_set(b, a, c),
        spec_is_set(a, b, c) == spec_is_set(a, c, b),
        spec_is_set(a, b, c) == spec_is_set(c, b, a),
{
}

/// Three copies of one card form a Set; a card repeated with a different
/// card never does.
pub proof fn lemma_repeated_card(a: Card, b: Card)
    ensures
        spec_is_set(a, a, a),
        spec_is_set(a, a, b) <==> a == b,
{
}

/// The ordered deck holds each of the 81 cards exactly once, each card at
/// its rank.
pub proof fn lemma_deck_holds_each_card_once()
    ensures
        ordered_deck().len() == 81,
        forall|i: int| 0 <= i < 81 ==> #[trigger] card_rank(ordered_deck()[i]) == i,
        forall|c: Card| #[trigger] ordered_deck()[card_rank(c)] == c,
        forall|c: Card| #[trigger] ordered_deck().to_multiset().count(c) == 1,
{
    let d = ordered_deck();
    assert forall|i: int| 0 <= i < 81 implies #[trigger] card_rank(d[i]) == i by {
        assert(i == 27 * (i / 27) + 9 * ((i / 9) % 3) + 3 * ((i / 3) % 3) + i % 3
            && 0 <= i / 27 < 3) by (nonlinear_arith)
            requires
                0 <= i < 81,
        ;
    }
    assert forall|c: Card| #[trigger] d[card_rank(c)] == c by {
        let k = card_rank(c);
        let (n, o, s, h) = (number_rank(c.number), color_rank(c.color), shape_rank(c.shape), shading_rank(c.shading));
        assert(k / 27 == n && (k / 9) % 3 == o && (k / 3) % 3 == s && k % 3 == h)
            by (nonlinear_arith)
            requires
                k == 27 * n + 9 * o + 3 * s + h,
                0 <= n < 3,
                0 <= o < 3,
                0 <= s < 3,
                0 <= h < 3,
        ;
    }
    assert(d.no_duplicates()) by {
        assert forall|i: int, j: int|
            0 <= i < d.len() && 0 <= j < d.len() && i != j implies d[i] != d[j] by {
            assert(card_rank(d[i]) == i);
            assert(card_rank(d[j]) == j);
        }
    }
    d.lemma_multiset_has_no_duplicates();
    assert forall|c: Card| #[trigger] d.to_multiset().count(c) == 1 by {
        let k = card_rank(c);
        assert(0 <= k < 81);
        assert(d[k] == c);
        assert(d.contains(c));
        broadcast use vstd::seq_lib::group_to_multiset_ensures;
    }
}

} // verus!
