use vstd::prelude::*;

use crate::text::{
    ascii_lower,
    lemma_folded_order,
    ascii_case_eq, chars_of, concat3, eq_ignore_ascii_case, has_prefix, is_digit, starts_with,
    folded_less, folded_lt, lemma_trimmed_idempotent, to_lowercase, trim, trimmed, unicode_lowercase,
};

verus! {

broadcast use {vstd::seq_lib::group_to_multiset_ensures, vstd::multiset::group_multiset_axioms};

/// A player name is acceptable when, trimmed, it is non-empty and does not
/// start with a digit.
pub open spec fn name_ok(name: Seq<char>) -> bool {
    trimmed(name).len() > 0 && !is_digit(trimmed(name)[0])
}

/// The message for a name that is empty once trimmed.
pub open spec fn empty_name_message() -> Seq<char> {
    "Player name cannot be empty."@
}

/// The message for a name that starts with a digit.
pub open spec fn digit_name_message(trimmed_name: Seq<char>) -> Seq<char> {
    "Player name \""@ + trimmed_name + "\" cannot start with a number."@
}

/// The message for a name that is already registered.
pub open spec fn duplicate_name_message(trimmed_name: Seq<char>) -> Seq<char> {
    "Player \""@ + trimmed_name + "\" is already registered."@
}

/// The message for an empty query.
pub open spec fn empty_query_message() -> Seq<char> {
    "Please enter a player name."@
}

/// The message for a query that matches no player.
pub open spec fn no_match_message(query: Seq<char>) -> Seq<char> {
    "No registered player matches \""@ + query + "\"."@
}

/// The names joined with `", "`.
pub open spec fn joined(names: Seq<Seq<char>>) -> Seq<char>
    decreases names.len(),
{
    if names.len() == 0 {
        Seq::empty()
    } else if names.len() == 1 {
        names[0]
    } else {
        joined(names.drop_last()) + ", "@ + names.last()
    }
}

/// The message for a query that matches several players.
pub open spec fn ambiguous_message(query: Seq<char>, names: Seq<Seq<char>>) -> Seq<char> {
    "\""@ + query + "\" matches multiple players ("@ + joined(names) + "); be more specific."@
}

/// The indices below `n`, in order, whose lowered name starts with the
/// lowered query.
pub open spec fn prefix_indices(lowered: Seq<Seq<char>>, query: Seq<char>, n: int) -> Seq<usize>
    decreases n,
{
    if n <= 0 {
        Seq::empty()
    } else if has_prefix(lowered[n - 1], query) {
        prefix_indices(lowered, query, n - 1).push((n - 1) as usize)
    } else {
        prefix_indices(lowered, query, n - 1)
    }
}

/// The indices, in order, of the lowered names that start with the lowered
/// query.
pub fn prefix_matches(lowered_names: &Vec<String>, lowered_query: &str) -> (m: Vec<usize>)
    ensures
        m@ == prefix_indices(
            lowered_names@.map_values(|s: String| s@),
            lowered_query@,
            lowered_names@.len() as int,
        ),
{
    let ghost lowered = lowered_names@.map_values(|s: String| s@);
    let mut m: Vec<usize> = Vec::new();
    let n = lowered_names.len();
    let mut i: usize = 0;
    while i < n
        invariant
            n == lowered_names@.len(),
            lowered == lowered_names@.map_values(|s: String| s@),
            i <= n,
            m@ == prefix_indices(lowered, lowered_query@, i as int),
        decreases n - i,
    {
        assert(lowered[i as int] == lowered_names@[i as int]@);
        if starts_with(lowered_names[i].as_str(), lowered_query) {
            m.push(i);
        }
        i = i + 1;
    }
    m
}

/// The first index below `n` whose name equals the query up to ASCII case.
pub open spec fn first_exact(names: Seq<Seq<char>>, q: Seq<char>, n: int) -> Option<int>
    decreases n,
{
    if n <= 0 {
        None
    } else {
        match first_exact(names, q, n - 1) {
            Some(i) => Some(i),
            None => if ascii_case_eq(names[n - 1], q) {
                Some(n - 1)
            } else {
                None
            },
        }
    }
}

/// Once found, the first match stays the first match among more names.
proof fn lemma_first_exact_stable(names: Seq<Seq<char>>, q: Seq<char>, a: int, b: int)
    requires
        a <= b,
        first_exact(names, q, a) is Some,
    ensures
        first_exact(names, q, b) == first_exact(names, q, a),
    decreases b - a,
{
    if a < b {
        lemma_first_exact_stable(names, q, a, b - 1);
    }
}

/// What looking up `query` among `names` gives: the index of the player,
/// or the message explaining why none was found. The query is trimmed; an
/// exact match up to ASCII case wins; otherwise the Unicode-lowercased
/// query must be a prefix of exactly one lowercased name.
pub open spec fn lookup(names: Seq<Seq<char>>, query: Seq<char>) -> Result<usize, Seq<char>> {
    let q = trimmed(query);
    if q.len() == 0 {
        Err(empty_query_message())
    } else {
        match first_exact(names, q, names.len() as int) {
            Some(i) => Ok(i as usize),
            None => {
                let lowered = names.map_values(|n: Seq<char>| unicode_lowercase(n));
                let m = prefix_indices(lowered, unicode_lowercase(q), names.len() as int);
                if m.len() == 1 {
                    Ok(m[0])
                } else if m.len() == 0 {
                    Err(no_match_message(q))
                } else {
                    Err(ambiguous_message(q, m.map_values(|i: usize| names[i as int])))
                }
            },
        }
    }
}

proof fn lemma_first_exact_none(names: Seq<Seq<char>>, q: Seq<char>, n: int)
    requires
        forall|t: int| 0 <= t < n ==> !ascii_case_eq(#[trigger] names[t], q),
    ensures
        first_exact(names, q, n) is None,
    decreases n,
{
    if n > 0 {
        lemma_first_exact_none(names, q, n - 1);
    }
}

/// A player is found by their name written in any ASCII letter case (and
/// with any surrounding white space), as long as no two registered names
/// are equal up to ASCII case.
pub proof fn lemma_lookup_by_name(names: Seq<Seq<char>>, query: Seq<char>, i: int)
    requires
        forall|a: int, b: int|
            0 <= a < b < names.len() ==> !ascii_case_eq(#[trigger] names[a], #[trigger] names[b]),
        0 <= i < names.len(),
        trimmed(query).len() > 0,
        ascii_case_eq(names[i], trimmed(query)),
    ensures
        lookup(names, query) == Ok::<usize, Seq<char>>(i as usize),
{
    let q = trimmed(query);
    assert forall|t: int| 0 <= t < i implies !ascii_case_eq(#[trigger] names[t], q) by {
        if ascii_case_eq(names[t], q) {
            assert forall|x: int| 0 <= x < names[t].len() implies #[trigger] ascii_lower(names[t][x])
                == ascii_lower(names[i][x]) by {
                assert(ascii_lower(names[t][x]) == ascii_lower(q[x]));
                assert(ascii_lower(names[i][x]) == ascii_lower(q[x]));
            }
            assert(ascii_case_eq(names[t], names[i]));
        }
    }
    lemma_first_exact_none(names, q, i);
    assert(first_exact(names, q, i + 1) == Some(i));
    lemma_first_exact_stable(names, q, i + 1, names.len() as int);
}

/// After a successful registration the new player is found by the very
/// text that registered them.
pub proof fn lemma_registered_player_found(names: Seq<Seq<char>>, raw: Seq<char>)
    requires
        forall|a: int, b: int|
            0 <= a < b < names.len() ==> !ascii_case_eq(#[trigger] names[a], #[trigger] names[b]),
        name_ok(raw),
        forall|t: int| 0 <= t < names.len() ==> !ascii_case_eq(#[trigger] names[t], trimmed(raw)),
    ensures
        lookup(names.push(trimmed(raw)), raw) == Ok::<usize, Seq<char>>(names.len() as usize),
{
    let all = names.push(trimmed(raw));
    assert forall|a: int, b: int|
        0 <= a < b < all.len() implies !ascii_case_eq(#[trigger] all[a], #[trigger] all[b]) by {
        if b == names.len() {
            assert(all[a] == names[a]);
        } else {
            assert(all[a] == names[a] && all[b] == names[b]);
        }
    }
    lemma_lookup_by_name(all, raw, names.len() as int);
}

/// An executable result agrees with a specified one, messages by their text.
pub open spec fn same_outcome(r: Result<usize, String>, s: Result<usize, Seq<char>>) -> bool {
    match (r, s) {
        (Ok(a), Ok(b)) => a == b,
        (Err(m), Err(t)) => m@ == t,
        _ => false,
    }
}

/// Scoreboard order: higher score first, ties broken alphabetically
/// (ASCII letter case aside).
pub open spec fn row_before(a: (Seq<char>, u32), b: (Seq<char>, u32)) -> bool {
    a.1 > b.1 || (a.1 == b.1 && folded_lt(a.0, b.0))
}

/// Scoreboard order is a strict order, total on rows whose names differ
/// other than in ASCII letter case.
pub proof fn lemma_row_order(a: (Seq<char>, u32), b: (Seq<char>, u32), c: (Seq<char>, u32))
    ensures
        !row_before(a, a),
        !ascii_case_eq(a.0, b.0) ==> row_before(a, b) || row_before(b, a),
        row_before(a, b) ==> !row_before(b, a),
        row_before(a, b) && row_before(b, c) ==> row_before(a, c),
{
    lemma_folded_order(a.0, b.0, c.0);
}

/// Whether the first row comes before the second on the scoreboard.
fn row_comes_before(a: (&str, u32), b: (&str, u32)) -> (r: bool)
    ensures
        r == row_before((a.0@, a.1), (b.0@, b.1)),
{
    a.1 > b.1 || (a.1 == b.1 && folded_less(a.0, b.0))
}

/// The text view of a scoreboard row.
pub open spec fn row_view(r: (&str, u32)) -> (Seq<char>, u32) {
    (r.0@, r.1)
}

/// Every collected index is below the bound.
pub proof fn lemma_prefix_indices_bounded(lowered: Seq<Seq<char>>, query: Seq<char>, n: int)
    requires
        n <= usize::MAX,
    ensures
        forall|t: int|
            0 <= t < prefix_indices(lowered, query, n).len() ==> #[trigger] prefix_indices(
                lowered,
                query,
                n,
            )[t] < n,
    decreases n,
{
    if n > 0 {
        lemma_prefix_indices_bounded(lowered, query, n - 1);
        let p = prefix_indices(lowered, query, n - 1);
        assert(((n - 1) as usize) as int == n - 1);
        if has_prefix(lowered[n - 1], query) {
            assert forall|t: int| 0 <= t < p.push((n - 1) as usize).len() implies #[trigger] p.push(
                (n - 1) as usize,
            )[t] < n by {
                if t < p.len() {
                    assert(p.push((n - 1) as usize)[t] == p[t]);
                }
            }
        }
    }
}

/// Validates a player name: must be non-empty and not start with a digit
/// (so it can never be confused with a card index in a claim).
pub fn validate_name(name: &str) -> (r: Result<(), String>)
    ensures
        r is Ok <==> name_ok(name@),
        r matches Err(msg) ==> msg@ == if trimmed(name@).len() == 0 {
            empty_name_message()
        } else {
            digit_name_message(trimmed(name@))
        },
{
    let tname = trim(name);
    let cs = chars_of(tname);
    if cs.len() == 0 {
        return Err(String::from_str("Player name cannot be empty."));
    }
    if '0' <= cs[0] && cs[0] <= '9' {
        return Err(concat3("Player name \"", tname, "\" cannot start with a number."));
    }
    Ok(())
}

/// No index below `n` is collected when no lowered name there starts with
/// the query.
proof fn lemma_prefix_indices_none(lowered: Seq<Seq<char>>, query: Seq<char>, n: int)
    requires
        forall|t: int| 0 <= t < n ==> !has_prefix(#[trigger] lowered[t], query),
    ensures
        prefix_indices(lowered, query, n).len() == 0,
    decreases n,
{
    if n > 0 {
        lemma_prefix_indices_none(lowered, query, n - 1);
    }
}

/// Exactly one index is collected when exactly one lowered name below `n`
/// starts with the query.
proof fn lemma_prefix_indices_one(lowered: Seq<Seq<char>>, query: Seq<char>, n: int, m: int)
    requires
        0 <= m < n,
        has_prefix(lowered[m], query),
        forall|t: int| 0 <= t < n && t != m ==> !has_prefix(#[trigger] lowered[t], query),
    ensures
        prefix_indices(lowered, query, n) == seq![m as usize],
    decreases n,
{
    if n - 1 == m {
        lemma_prefix_indices_none(lowered, query, m);
        assert(prefix_indices(lowered, query, m).push(m as usize) =~= seq![m as usize]);
    } else {
        lemma_prefix_indices_one(lowered, query, n - 1, m);
    }
}

/// Every lowered name below `n` that starts with the query is collected.
proof fn lemma_prefix_indices_grow(lowered: Seq<Seq<char>>, query: Seq<char>, n: int, a: int, b: int)
    requires
        0 <= a < n,
        has_prefix(lowered[a], query),
        a < b < n ==> has_prefix(lowered[b], query),
    ensures
        prefix_indices(lowered, query, n).len() >= 1,
        a < b < n ==> prefix_indices(lowered, query, n).len() >= 2,
    decreases n,
{
    if n - 1 > a && n - 1 != b {
        lemma_prefix_indices_grow(lowered, query, n - 1, a, b);
    } else if n - 1 == b && a < b {
        lemma_prefix_indices_grow(lowered, query, n - 1, a, a);
    } else if n - 1 > a {
        lemma_prefix_indices_grow(lowered, query, n - 1, a, a);
    }
}

/// A query that equals no registered name up to ASCII case resolves by
/// prefix: when its lowercased form begins the lowercased name of exactly
/// one player, to that player, whatever the length of the query; when it
/// begins none, to the no-match message; when it begins two or more, to
/// an error.
pub proof fn lemma_lookup_by_prefix(names: Seq<Seq<char>>, query: Seq<char>, a: int, b: int)
    requires
        trimmed(query).len() > 0,
        forall|t: int| 0 <= t < names.len() ==> !ascii_case_eq(#[trigger] names[t], trimmed(query)),
    ensures
        ({
            let q = unicode_lowercase(trimmed(query));
            &&& (0 <= a < names.len() && has_prefix(unicode_lowercase(names[a]), q) && (forall|t: int|
                0 <= t < names.len() && t != a ==> !has_prefix(
                    unicode_lowercase(#[trigger] names[t]),
                    q,
                ))) ==> lookup(names, query) == Ok::<usize, Seq<char>>(a as usize)
            &&& (forall|t: int|
                0 <= t < names.len() ==> !has_prefix(unicode_lowercase(#[trigger] names[t]), q))
                ==> lookup(names, query) == Err::<usize, Seq<char>>(no_match_message(trimmed(query)))
            &&& (0 <= a < b < names.len() && has_prefix(unicode_lowercase(names[a]), q)
                && has_prefix(unicode_lowercase(names[b]), q)) ==> lookup(names, query) is Err
        }),
{
    let tq = trimmed(query);
    let q = unicode_lowercase(tq);
    let lowered = names.map_values(|n: Seq<char>| unicode_lowercase(n));
    let n = names.len() as int;
    lemma_first_exact_none(names, tq, n);
    assert forall|t: int| 0 <= t < n implies #[trigger] lowered[t] == unicode_lowercase(names[t]) by {}
    if 0 <= a < n && has_prefix(unicode_lowercase(names[a]), q) && (forall|t: int|
        0 <= t < n && t != a ==> !has_prefix(unicode_lowercase(#[trigger] names[t]), q)) {
        assert forall|t: int| 0 <= t < n && t != a implies !has_prefix(#[trigger] lowered[t], q) by {
            assert(lowered[t] == unicode_lowercase(names[t]));
        }
        lemma_prefix_indices_one(lowered, q, n, a);
    }
    if forall|t: int| 0 <= t < n ==> !has_prefix(unicode_lowercase(#[trigger] names[t]), q) {
        assert forall|t: int| 0 <= t < n implies !has_prefix(#[trigger] lowered[t], q) by {
            assert(lowered[t] == unicode_lowercase(names[t]));
        }
        lemma_prefix_indices_none(lowered, q, n);
    }
    if 0 <= a < b < n && has_prefix(unicode_lowercase(names[a]), q) && has_prefix(
        unicode_lowercase(names[b]),
        q,
    ) {
        assert(lowered[a] == unicode_lowercase(names[a]));
        assert(lowered[b] == unicode_lowercase(names[b]));
        lemma_prefix_indices_grow(lowered, q, n, a, b);
    }
}

/// A name as the registry keeps it: trimmed and acceptable.
pub open spec fn stored_name(name: Seq<char>) -> bool {
    trimmed(name) == name && name_ok(name)
}

/// In every state of a registry, each registered player is found by their
/// own stored name, and by any text that, trimmed, equals it up to ASCII
/// letter case; this holds even where the name is a prefix of another.
pub proof fn lemma_stored_name_found(p: Players, i: int, query: Seq<char>)
    requires
        p.wf(),
        0 <= i < p.name_list().len(),
        ascii_case_eq(trimmed(query), p.name_list()[i]),
    ensures
        lookup(p.name_list(), p.name_list()[i]) == Ok::<usize, Seq<char>>(i as usize),
        lookup(p.name_list(), query) == Ok::<usize, Seq<char>>(i as usize),
{
    let names = p.name_list();
    assert(stored_name(names[i]));
    assert(ascii_case_eq(names[i], trimmed(names[i])));
    lemma_lookup_by_name(names, names[i], i);
    assert(ascii_case_eq(names[i], trimmed(query)));
    lemma_lookup_by_name(names, query, i);
}

/// A registry of players in team mode, tracking each player's score
/// (number of Sets found). Names are matched case-insensitively and by
/// unambiguous prefix.
pub struct Players {
    names: Vec<String>,
    scores: Vec<u32>,
}

impl Players {
    /// The registered names, in order of registration.
    pub closed spec fn name_list(&self) -> Seq<Seq<char>> {
        self.names@.map_values(|s: String| s@)
    }

    /// The scores, index by index with the names.
    pub closed spec fn score_list(&self) -> Seq<u32> {
        self.scores@
    }

    /// One score per name, every name trimmed and acceptable, and no two
    /// names equal up to ASCII case.
    pub open spec fn wf(&self) -> bool {
        &&& self.name_list().len() == self.score_list().len()
        &&& forall|i: int| 0 <= i < self.name_list().len() ==> stored_name(#[trigger] self.name_list()[i])
        &&& forall|i: int, j: int|
            0 <= i < j < self.name_list().len() ==> !ascii_case_eq(
                #[trigger] self.name_list()[i],
                #[trigger] self.name_list()[j],
            )
    }

    /// An empty registry.
    pub fn new() -> (p: Players)
        ensures
            p.wf(),
            p.name_list() == Seq::<Seq<char>>::empty(),
            p.score_list() == Seq::<u32>::empty(),
    {
        let p = Players { names: Vec::new(), scores: Vec::new() };
        assert(p.name_list() =~= Seq::<Seq<char>>::empty());
        p
    }

    /// No player is registered.
    pub fn is_empty(&self) -> (r: bool)
        ensures
            r == (self.name_list().len() == 0),
    {
        self.names.is_empty()
    }

    /// The registered names, in order of registration.
    pub fn names(&self) -> (r: &[String])
        ensures
            r@.map_values(|s: String| s@) == self.name_list(),
    {
        self.names.as_slice()
    }

    /// The (name, score) pairs, in order of registration.
    pub open spec fn rows(&self) -> Seq<(Seq<char>, u32)> {
        Seq::new(self.name_list().len(), |i: int| (self.name_list()[i], self.score_list()[i]))
    }

    /// Adds one to the score of player `idx`.
    pub fn add_score(&mut self, idx: usize)
        requires
            old(self).wf(),
            idx < old(self).name_list().len(),
            old(self).score_list()[idx as int] < u32::MAX,
        ensures
            final(self).wf(),
            final(self).name_list() == old(self).name_list(),
            final(self).score_list() == old(self).score_list().update(
                idx as int,
                (old(self).score_list()[idx as int] + 1) as u32,
            ),
    {
        let s = self.scores[idx];
        self.scores.set(idx, s + 1);
    }

    /// The name of player `idx`.
    pub fn name(&self, idx: usize) -> (r: &str)
        requires
            idx < self.name_list().len(),
        ensures
            r@ == self.name_list()[idx as int],
    {
        self.names[idx].as_str()
    }

    /// The score of player `idx`.
    pub fn score(&self, idx: usize) -> (r: u32)
        requires
            self.wf(),
            idx < self.name_list().len(),
        ensures
            r == self.score_list()[idx as int],
    {
        self.scores[idx]
    }

    /// Returns (name, score) pairs sorted by score descending, ties broken
    /// alphabetically, for display as an end-of-game scoreboard.
    pub fn scoreboard(&self) -> (board: Vec<(&str, u32)>)
        requires
            self.wf(),
        ensures
            board@.map_values(|r: (&str, u32)| row_view(r)).to_multiset() == self.rows().to_multiset(),
            forall|a: int, b: int|
                0 <= a < b < board@.len() ==> row_before(row_view(#[trigger] board@[a]), row_view(#[trigger] board@[b])),
    {
        let ghost all = self.rows();
        let mut board: Vec<(&str, u32)> = Vec::new();
        let n = self.names.len();
        let mut i: usize = 0;
        assert(board@.map_values(|r: (&str, u32)| row_view(r)) =~= all.take(0));
        while i < n
            invariant
                n == self.name_list().len(),
                self.wf(),
                all == self.rows(),
                i <= n,
                board@.len() == i,
                board@.map_values(|r: (&str, u32)| row_view(r)).to_multiset() == all.take(i as int).to_multiset(),
                forall|a: int, b: int|
                    0 <= a < b < board@.len() ==> row_before(row_view(#[trigger] board@[a]), row_view(#[trigger] board@[b])),
            decreases n - i,
        {
            let ghost v = board@.map_values(|r: (&str, u32)| row_view(r));
            assert(self.names@[i as int]@ == self.name_list()[i as int]);
            let x = (self.names[i].as_str(), self.scores[i]);
            assert(row_view(x) == all[i as int]);
            let mut p: usize = 0;
            while p < board.len() && !row_comes_before(x, board[p])
                invariant
                    p <= board@.len(),
                    forall|q: int| 0 <= q < p ==> !row_before(row_view(x), row_view(#[trigger] board@[q])),
                decreases board@.len() - p,
            {
                p = p + 1;
            }
            proof {
                self.lemma_rows_apart(i as int, v);
            }
            board.insert(p, x);
            proof {
                let w = board@.map_values(|r: (&str, u32)| row_view(r));
                assert(w =~= v.insert(p as int, row_view(x)));
                assert(all.take(i + 1) =~= all.take(i as int).push(all[i as int]));
                assert(v.insert(p as int, row_view(x)).to_multiset() == v.to_multiset().insert(row_view(x)));
                assert(all.take(i + 1).to_multiset() == all.take(i as int).to_multiset().insert(all[i as int]));
                assert forall|a: int, b: int|
                    0 <= a < b < board@.len() implies row_before(row_view(#[trigger] board@[a]), row_view(#[trigger] board@[b])) by {
                    let xa = w[a];
                    let xb = w[b];
                    if b < p {
                        assert(xa == v[a] && xb == v[b]);
                    } else if b == p {
                        assert(xa == v[a]);
                        assert(!row_before(row_view(x), v[a]));
                        lemma_row_order(row_view(x), v[a], v[a]);
                    } else if a < p {
                        assert(xa == v[a] && xb == v[b - 1]);
                    } else if a == p {
                        assert(xb == v[b - 1]);
                        if b - 1 > p {
                            lemma_row_order(row_view(x), v[p as int], v[b - 1]);
                        }
                    } else {
                        assert(xa == v[a - 1] && xb == v[b - 1]);
                    }
                }
            }
            i = i + 1;
        }
        assert(all.take(n as int) =~= all);
        board
    }

    /// The rows placed so far all carry names other than that of row `i`.
    proof fn lemma_rows_apart(&self, i: int, v: Seq<(Seq<char>, u32)>)
        requires
            self.wf(),
            0 <= i < self.name_list().len(),
            v.to_multiset() == self.rows().take(i).to_multiset(),
        ensures
            forall|q: int| 0 <= q < v.len() ==> !ascii_case_eq((#[trigger] v[q]).0, self.rows()[i].0),
    {
        broadcast use vstd::seq_lib::group_to_multiset_ensures;
        assert forall|q: int| 0 <= q < v.len() implies !ascii_case_eq((#[trigger] v[q]).0, self.rows()[i].0) by {
            assert(v.contains(v[q]));
            assert(v.to_multiset().count(v[q]) > 0);
            assert(self.rows().take(i).contains(v[q]));
            let t = choose|t: int| 0 <= t < i && self.rows().take(i)[t] == v[q];
            assert(v[q].0 == self.name_list()[t]);
            assert(!ascii_case_eq(self.name_list()[t], self.name_list()[i]));
        }
    }

    /// The given registered names joined with `", "`.
    fn join_names(&self, idxs: &Vec<usize>) -> (r: String)
        requires
            forall|t: int| 0 <= t < idxs@.len() ==> #[trigger] idxs@[t] < self.name_list().len(),
        ensures
            r@ == joined(idxs@.map_values(|i: usize| self.name_list()[i as int])),
    {
        let ghost picked = idxs@.map_values(|i: usize| self.name_list()[i as int]);
        let mut r = String::new();
        let mut t: usize = 0;
        while t < idxs.len()
            invariant
                t <= idxs@.len(),
                picked == idxs@.map_values(|i: usize| self.name_list()[i as int]),
                forall|x: int| 0 <= x < idxs@.len() ==> #[trigger] idxs@[x] < self.name_list().len(),
                r@ == joined(picked.take(t as int)),
            decreases idxs@.len() - t,
        {
            assert(self.names@[idxs@[t as int] as int]@ == picked[t as int]);
            if t > 0 {
                r.append(", ");
            }
            r.append(self.names[idxs[t]].as_str());
            assert(picked.take(t + 1).drop_last() =~= picked.take(t as int));
            assert(picked.take(t + 1).last() == picked[t as int]);
            if t == 0 {
                assert(picked.take(1) =~= seq![picked[0]]);
            }
            t = t + 1;
        }
        assert(picked.take(idxs@.len() as int) =~= picked);
        r
    }

    /// Resolves a name or unambiguous case-insensitive prefix to a
    /// registered player's index. An exact case-insensitive match always
    /// wins over a prefix match, so a name that is itself a prefix of
    /// another registered name still resolves unambiguously. Prefixes are
    /// compared after Unicode lowercasing.
    pub fn find_by_prefix(&self, query: &str) -> (r: Result<usize, String>)
        requires
            self.wf(),
        ensures
            same_outcome(r, lookup(self.name_list(), query@)),
    {
        let tq = trim(query);
        if tq.unicode_len() == 0 {
            return Err(String::from_str("Please enter a player name."));
        }
        let n = self.names.len();
        let mut i: usize = 0;
        while i < n
            invariant
                n == self.name_list().len(),
                i <= n,
                first_exact(self.name_list(), tq@, i as int) is None,
                tq@ == trimmed(query@),
                tq@.len() > 0,
            decreases n - i,
        {
            assert(self.names@[i as int]@ == self.name_list()[i as int]);
            if eq_ignore_ascii_case(self.names[i].as_str(), tq) {
                proof {
                    lemma_first_exact_stable(self.name_list(), tq@, i + 1, n as int);
                }
                return Ok(i);
            }
            i = i + 1;
        }
        let query_lower = to_lowercase(tq);
        let mut lowered: Vec<String> = Vec::new();
        let mut t: usize = 0;
        while t < n
            invariant
                n == self.name_list().len(),
                t <= n,
                lowered@.len() == t,
                forall|x: int| 0 <= x < t ==> #[trigger] lowered@[x]@ == unicode_lowercase(self.name_list()[x]),
            decreases n - t,
        {
            assert(self.names@[t as int]@ == self.name_list()[t as int]);
            lowered.push(to_lowercase(self.names[t].as_str()));
            t = t + 1;
        }
        assert(lowered@.map_values(|s: String| s@) =~= self.name_list().map_values(
            |nm: Seq<char>| unicode_lowercase(nm),
        ));
        let matches = prefix_matches(&lowered, query_lower.as_str());
        proof {
            lemma_prefix_indices_bounded(
                self.name_list().map_values(|nm: Seq<char>| unicode_lowercase(nm)),
                unicode_lowercase(tq@),
                n as int,
            );
        }
        if matches.len() == 0 {
            Err(concat3("No registered player matches \"", tq, "\"."))
        } else if matches.len() == 1 {
            Ok(matches[0])
        } else {
            let listed = self.join_names(&matches);
            let head = concat3("\"", tq, "\" matches multiple players (");
            Err(concat3(head.as_str(), listed.as_str(), "); be more specific."))
        }
    }

    /// Registers a new player. Rejects invalid names and names that
    /// already exist (case-insensitively).
    pub fn register(&mut self, name: &str) -> (r: Result<(), String>)
        requires
            old(self).wf(),
        ensures
            final(self).wf(),
            r is Ok <==> name_ok(name@) && forall|i: int|
                0 <= i < old(self).name_list().len() ==> !ascii_case_eq(
                    #[trigger] old(self).name_list()[i],
                    trimmed(name@),
                ),
            r is Ok ==> final(self).name_list() == old(self).name_list().push(trimmed(name@))
                && final(self).score_list() == old(self).score_list().push(0),
            r is Err ==> final(self).name_list() == old(self).name_list() && final(self).score_list()
                == old(self).score_list(),
            r matches Err(msg) ==> msg@ == if !name_ok(name@) {
                if trimmed(name@).len() == 0 {
                    empty_name_message()
                } else {
                    digit_name_message(trimmed(name@))
                }
            } else {
                duplicate_name_message(trimmed(name@))
            },
    {
        match validate_name(name) {
            Ok(()) => {},
            Err(msg) => return Err(msg),
        }
        let ghost raw = name@;
        let tname = trim(name);
        let n = self.names.len();
        let mut i: usize = 0;
        while i < n
            invariant
                n == self.name_list().len(),
                i <= n,
                tname@ == trimmed(raw),
                raw == name@,
                name_ok(raw),
                self.name_list() == old(self).name_list(),
                self.score_list() == old(self).score_list(),
                self.wf(),
                forall|t: int| 0 <= t < i ==> !ascii_case_eq(#[trigger] self.name_list()[t], tname@),
            decreases n - i,
        {
            if eq_ignore_ascii_case(self.names[i].as_str(), tname) {
                assert(self.names@[i as int]@ == self.name_list()[i as int]);
                assert(ascii_case_eq(old(self).name_list()[i as int], trimmed(raw)));
                return Err(concat3("Player \"", tname, "\" is already registered."));
            }
            i = i + 1;
        }
        proof {
            lemma_trimmed_idempotent(raw);
        }
        self.names.push(String::from_str(tname));
        self.scores.push(0);
        assert(self.name_list() =~= old(self).name_list().push(tname@));
        Ok(())
    }
}

} // verus!
