use vstd::prelude::*;

use crate::card::{as_ints, set_at, set_triples, triple_before, Card};

verus! {

/// The triples are in strictly increasing lexicographic order.
pub open spec fn ascending(s: Seq<(usize, usize, usize)>) -> bool {
    forall|a: int, b: int| 0 <= a < b < s.len() ==> triple_before(as_ints(s[a]), as_ints(s[b]))
}

/// `sets` lists every Set on the board once, in lexicographic order of
/// index triples: what `find_all_sets` returns.
pub open spec fn lists_sets(cards: Seq<Option<Card>>, sets: Seq<(usize, usize, usize)>) -> bool {
    &&& forall|a: int| 0 <= a < sets.len() ==> #[trigger] set_triples(cards).contains(sets[a])
    &&& forall|t: (usize, usize, usize)| set_triples(cards).contains(t) ==> sets.contains(t)
    &&& ascending(sets)
}

/// The triple does not use slot `x`.
pub open spec fn avoids(t: (usize, usize, usize), x: usize) -> bool {
    t.0 != x && t.1 != x && t.2 != x
}

/// Two ascending lists of the same triples are the same list.
proof fn lemma_ascending_unique(a: Seq<(usize, usize, usize)>, b: Seq<(usize, usize, usize)>)
    requires
        ascending(a),
        ascending(b),
        forall|t: (usize, usize, usize)| a.contains(t) <==> b.contains(t),
    ensures
        a == b,
    decreases a.len(),
{
    if a.len() == 0 {
        if b.len() > 0 {
            assert(b.contains(b[0]));
        }
        assert(a =~= b);
    } else if b.len() == 0 {
        assert(a.contains(a[0]));
    } else {
        assert(a.contains(a[0]));
        assert(b.contains(b[0]));
        let m = choose|m: int| 0 <= m < b.len() && b[m] == a[0];
        let l = choose|l: int| 0 <= l < a.len() && a[l] == b[0];
        if m > 0 {
            assert(triple_before(as_ints(b[0]), as_ints(b[m])));
            if l > 0 {
                assert(triple_before(as_ints(a[0]), as_ints(a[l])));
            }
        }
        assert(a[0] == b[0]);
        let a1 = a.drop_first();
        let b1 = b.drop_first();
        assert forall|t: (usize, usize, usize)| a1.contains(t) <==> b1.contains(t) by {
            if a1.contains(t) {
                let s = choose|s: int| 0 <= s < a1.len() && a1[s] == t;
                assert(a[s + 1] == t);
                assert(triple_before(as_ints(a[0]), as_ints(a[s + 1])));
                assert(b.contains(t));
                let r = choose|r: int| 0 <= r < b.len() && b[r] == t;
                assert(r != 0);
                assert(b1[r - 1] == t);
            }
            if b1.contains(t) {
                let s = choose|s: int| 0 <= s < b1.len() && b1[s] == t;
                assert(b[s + 1] == t);
                assert(triple_before(as_ints(b[0]), as_ints(b[s + 1])));
                assert(a.contains(t));
                let r = choose|r: int| 0 <= r < a.len() && a[r] == t;
                assert(r != 0);
                assert(a1[r - 1] == t);
            }
        }
        assert(ascending(a1)) by {
            assert forall|x: int, y: int| 0 <= x < y < a1.len() implies triple_before(
                as_ints(a1[x]),
                as_ints(a1[y]),
            ) by {
                assert(a1[x] == a[x + 1] && a1[y] == a[y + 1]);
            }
        }
        assert(ascending(b1)) by {
            assert forall|x: int, y: int| 0 <= x < y < b1.len() implies triple_before(
                as_ints(b1[x]),
                as_ints(b1[y]),
            ) by {
                assert(b1[x] == b[x + 1] && b1[y] == b[y + 1]);
            }
        }
        lemma_ascending_unique(a1, b1);
        assert(a =~= seq![a[0]] + a1);
        assert(b =~= seq![b[0]] + b1);
    }
}

/// Only one list names every Set of a board once in lexicographic order:
/// `find_all_sets` gives the same list for the same board.
pub proof fn lemma_lists_sets_unique(
    cards: Seq<Option<Card>>,
    a: Seq<(usize, usize, usize)>,
    b: Seq<(usize, usize, usize)>,
)
    requires
        lists_sets(cards, a),
        lists_sets(cards, b),
    ensures
        a == b,
{
    assert forall|t: (usize, usize, usize)| a.contains(t) <==> b.contains(t) by {
        if a.contains(t) {
            let s = choose|s: int| 0 <= s < a.len() && a[s] == t;
            assert(set_triples(cards).contains(a[s]));
        }
        if b.contains(t) {
            let s = choose|s: int| 0 <= s < b.len() && b[s] == t;
            assert(set_triples(cards).contains(b[s]));
        }
    }
    lemma_ascending_unique(a, b);
}

/// Keeping some of an ascending list keeps it ascending.
proof fn lemma_filter_ascending(s: Seq<(usize, usize, usize)>, x: usize)
    requires
        ascending(s),
    ensures
        ascending(s.filter(|t: (usize, usize, usize)| avoids(t, x))),
    decreases s.len(),
{
    broadcast use vstd::seq_lib::group_filter_ensures;

    let p = |t: (usize, usize, usize)| avoids(t, x);
    reveal(Seq::filter);
    if s.len() > 0 {
        let d = s.drop_last();
        assert(ascending(d)) by {
            assert forall|a: int, b: int| 0 <= a < b < d.len() implies triple_before(
                as_ints(d[a]),
                as_ints(d[b]),
            ) by {
                assert(d[a] == s[a] && d[b] == s[b]);
            }
        }
        lemma_filter_ascending(d, x);
        let f = d.filter(p);
        if p(s.last()) {
            assert forall|a: int, b: int| 0 <= a < b < f.push(s.last()).len() implies triple_before(
                as_ints(f.push(s.last())[a]),
                as_ints(f.push(s.last())[b]),
            ) by {
                if b == f.len() {
                    assert(f.contains(f[a]));
                    d.lemma_filter_contains_rev(p, f[a]);
                    let r = choose|r: int| 0 <= r < d.len() && d[r] == f[a];
                    assert(s[r] == f[a]);
                } else {
                    assert(f.push(s.last())[a] == f[a] && f.push(s.last())[b] == f[b]);
                }
            }
        }
    }
}

/// Emptying a slot takes away exactly the Sets that use it and renumbers
/// nothing: the Sets of the board with slot `x` emptied are the Sets of
/// the board before, in the same order, less those that use slot `x`.
pub proof fn lemma_emptied_slot_sets(
    cards: Seq<Option<Card>>,
    x: usize,
    all: Seq<(usize, usize, usize)>,
    fewer: Seq<(usize, usize, usize)>,
)
    requires
        x < cards.len(),
        lists_sets(cards, all),
        lists_sets(cards.update(x as int, None), fewer),
    ensures
        fewer == all.filter(|t: (usize, usize, usize)| avoids(t, x)),
{
    broadcast use vstd::seq_lib::group_filter_ensures;

    let c2 = cards.update(x as int, None);
    let p = |t: (usize, usize, usize)| avoids(t, x);
    let f = all.filter(p);
    assert forall|t: (usize, usize, usize)|
        set_triples(c2).contains(t) <==> set_triples(cards).contains(t) && avoids(t, x) by {
        if set_triples(c2).contains(t) {
            assert(set_at(c2, t.0 as int, t.1 as int, t.2 as int));
        }
    }
    lemma_filter_ascending(all, x);
    assert forall|a: int| 0 <= a < f.len() implies #[trigger] set_triples(c2).contains(f[a]) by {
        assert(p(f[a]));
        assert(f.contains(f[a]));
        all.lemma_filter_contains_rev(p, f[a]);
        let r = choose|r: int| 0 <= r < all.len() && all[r] == f[a];
        assert(set_triples(cards).contains(all[r]));
    }
    assert forall|t: (usize, usize, usize)| set_triples(c2).contains(t) implies f.contains(t) by {
        assert(all.contains(t));
        let r = choose|r: int| 0 <= r < all.len() && all[r] == t;
        all.lemma_filter_contains(p, r);
    }
    lemma_lists_sets_unique(c2, fewer, f);
}

} // verus!
