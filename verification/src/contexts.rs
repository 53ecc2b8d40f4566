//! Specification of contexts, continuations and model orders over a corpus.
//!
//! A corpus is a sequence of characters. A context key of order `k` is a run
//! of `k` consecutive corpus characters; its continuation is the character
//! that follows the run. A key is *ambiguous* when at least two distinct
//! continuations occur for it somewhere in the corpus, and *stored* when it
//! is ambiguous and every shorter suffix of it is stored as well (the empty
//! key included): only stored keys earn an entry in the frequency table.

use vstd::prelude::*;

verus! {

/// The context `key` occurs in `s` at position `j`, with at least one
/// character following the occurrence.
pub open spec fn window_matches(s: Seq<char>, key: Seq<char>, j: int) -> bool {
    &&& 0 <= j
    &&& j + key.len() < s.len()
    &&& s.subrange(j, j + key.len() as int) == key
}

/// The context `key` occurs in `s` at position `j` and is followed by `c`.
pub open spec fn follows_at(s: Seq<char>, key: Seq<char>, c: char, j: int) -> bool {
    &&& window_matches(s, key, j)
    &&& s[j + key.len() as int] == c
}

/// How many positions `j < i` have `key` followed by `c`.
pub open spec fn follow_count_upto(s: Seq<char>, key: Seq<char>, c: char, i: int) -> nat
    decreases i,
{
    if i <= 0 {
        0
    } else {
        follow_count_upto(s, key, c, i - 1) + (if follows_at(s, key, c, i - 1) {
            1nat
        } else {
            0nat
        })
    }
}

/// How many occurrences of `key` in `s` are followed by `c`.
pub open spec fn follow_count(s: Seq<char>, key: Seq<char>, c: char) -> nat {
    follow_count_upto(s, key, c, s.len() as int)
}

/// How many positions `j < i` have `key` occurring with a follower.
pub open spec fn match_count_upto(s: Seq<char>, key: Seq<char>, i: int) -> nat
    decreases i,
{
    if i <= 0 {
        0
    } else {
        match_count_upto(s, key, i - 1) + (if window_matches(s, key, i - 1) {
            1nat
        } else {
            0nat
        })
    }
}

/// `c` follows `key` somewhere in `s`.
pub open spec fn is_follower(s: Seq<char>, key: Seq<char>, c: char) -> bool {
    exists|j: int| follows_at(s, key, c, j)
}

/// At least two distinct characters follow `key` somewhere in `s`.
pub open spec fn ambiguous(s: Seq<char>, key: Seq<char>) -> bool {
    exists|c1: char, c2: char|
        c1 != c2 && is_follower(s, key, c1) && is_follower(s, key, c2)
}

/// The suffix of `key` with its first character dropped.
pub open spec fn key_suffix(key: Seq<char>) -> Seq<char> {
    key.subrange(1, key.len() as int)
}

/// `key` earns an entry in the frequency table: it is ambiguous, and so is
/// every shorter suffix of it, down to and including the empty key.
pub open spec fn stored(s: Seq<char>, key: Seq<char>) -> bool
    decreases key.len(),
{
    &&& ambiguous(s, key)
    &&& (key.len() == 0 || stored(s, key_suffix(key)))
}

/// `key` is worth tallying at all: its one-shorter suffix is itself stored
/// (the empty key is always worth tallying). A stored key is exactly an
/// ambiguous candidate.
pub open spec fn candidate(s: Seq<char>, key: Seq<char>) -> bool {
    key.len() == 0 || stored(s, key_suffix(key))
}

/// Some key of length `k` is stored for `s`.
pub open spec fn order_live(s: Seq<char>, k: nat) -> bool {
    exists|key: Seq<char>| key.len() == k && stored(s, key)
}

/// The position of the first occurrence of `key` (with a follower) in `s` at
/// or after `start`, if any.
pub open spec fn first_match_from(s: Seq<char>, key: Seq<char>, start: int) -> Option<int>
    decreases s.len() - start when start >= 0
{
    if start + key.len() >= s.len() {
        None
    } else if s.subrange(start, start + key.len() as int) == key {
        Some(start)
    } else {
        first_match_from(s, key, start + 1)
    }
}

/// A key followed somewhere has a positive follow count.
pub proof fn lemma_follows_at_count(s: Seq<char>, key: Seq<char>, c: char, j: int, i: int)
    requires
        follows_at(s, key, c, j),
        j < i,
    ensures
        follow_count_upto(s, key, c, i) > 0,
    decreases i,
{
    if j == i - 1 {
        assert(follow_count_upto(s, key, c, i) >= 1);
    } else {
        lemma_follows_at_count(s, key, c, j, i - 1);
    }
}

/// A positive follow count names a position where the key is followed.
pub proof fn lemma_count_pos_follower(s: Seq<char>, key: Seq<char>, c: char, i: int)
    requires
        follow_count_upto(s, key, c, i) > 0,
    ensures
        is_follower(s, key, c),
    decreases i,
{
    if i <= 0 {
    } else if follows_at(s, key, c, i - 1) {
    } else {
        lemma_count_pos_follower(s, key, c, i - 1);
    }
}

/// Follow counts are settled once the scan has passed the last position
/// where a window of this order fits.
pub proof fn lemma_follow_count_tail(s: Seq<char>, key: Seq<char>, c: char, i: int)
    requires
        i >= s.len() - key.len(),
        i >= 0,
    ensures
        follow_count(s, key, c) == follow_count_upto(s, key, c, i),
    decreases s.len() - i,
{
    if i < s.len() {
        assert(!follows_at(s, key, c, i));
        lemma_follow_count_tail(s, key, c, i + 1);
    } else if i == s.len() {
    } else {
        assert(follow_count(s, key, c) == follow_count_upto(s, key, c, i)) by {
            lemma_follow_count_ge(s, key, c, s.len() as int, i);
        }
    }
}

/// Follow counts do not change past the end of the corpus.
proof fn lemma_follow_count_ge(s: Seq<char>, key: Seq<char>, c: char, i: int, j: int)
    requires
        s.len() <= i <= j,
    ensures
        follow_count_upto(s, key, c, i) == follow_count_upto(s, key, c, j),
    decreases j - i,
{
    if i < j {
        assert(!follows_at(s, key, c, j - 1));
        lemma_follow_count_ge(s, key, c, i, j - 1);
    }
}

/// A match count through position `i` never exceeds `i`.
pub proof fn lemma_match_count_bound(s: Seq<char>, key: Seq<char>, i: int)
    ensures
        match_count_upto(s, key, i) <= (if i >= 0 { i as nat } else { 0nat }),
    decreases i,
{
    if i > 0 {
        lemma_match_count_bound(s, key, i - 1);
    }
}

/// A stored key of positive length has a stored suffix one shorter.
pub proof fn lemma_order_live_step(s: Seq<char>, k: nat)
    requires
        order_live(s, k + 1),
    ensures
        order_live(s, k),
{
    let key = choose|key: Seq<char>| key.len() == k + 1 && stored(s, key);
    assert(stored(s, key_suffix(key)));
    assert(key_suffix(key).len() == k);
}

/// Stored orders are contiguous: every order below a live one is live.
pub proof fn lemma_order_live_down(s: Seq<char>, k: nat, m: nat)
    requires
        order_live(s, m),
        k <= m,
    ensures
        order_live(s, k),
    decreases m - k,
{
    if k < m {
        lemma_order_live_step(s, (m - 1) as nat);
        lemma_order_live_down(s, k, (m - 1) as nat);
    }
}

/// Occurrences in a prefix occur in every extension at the same position.
pub proof fn lemma_window_matches_prefix(s: Seq<char>, t: Seq<char>, key: Seq<char>, j: int)
    requires
        s.len() <= t.len(),
        t.subrange(0, s.len() as int) == s,
        window_matches(s, key, j),
    ensures
        window_matches(t, key, j),
{
    assert(t.subrange(j, j + key.len() as int) =~= key) by {
        assert forall|m: int| 0 <= m < key.len() implies t.subrange(
            j,
            j + key.len() as int,
        )[m] == key[m] by {
            assert(t[j + m] == t.subrange(0, s.len() as int)[j + m]);
            assert(s.subrange(j, j + key.len() as int)[m] == key[m]);
        }
    }
}

/// A follower in a prefix corpus is a follower in every extension of it.
pub proof fn lemma_follower_prefix(s: Seq<char>, t: Seq<char>, key: Seq<char>, c: char)
    requires
        s.len() <= t.len(),
        t.subrange(0, s.len() as int) == s,
        is_follower(s, key, c),
    ensures
        is_follower(t, key, c),
{
    let j = choose|j: int| follows_at(s, key, c, j);
    lemma_window_matches_prefix(s, t, key, j);
    assert(t[j + key.len() as int] == t.subrange(0, s.len() as int)[j + key.len() as int]);
    assert(follows_at(t, key, c, j));
}

/// A key stored for a corpus is stored for every extension of the corpus.
pub proof fn lemma_stored_prefix(s: Seq<char>, t: Seq<char>, key: Seq<char>)
    requires
        s.len() <= t.len(),
        t.subrange(0, s.len() as int) == s,
        stored(s, key),
    ensures
        stored(t, key),
    decreases key.len(),
{
    let c1 = choose|c1: char| #[trigger] is_follower(s, key, c1) && exists|c2: char|
        c1 != c2 && is_follower(s, key, c2);
    let c2 = choose|c2: char| c1 != c2 && is_follower(s, key, c2);
    lemma_follower_prefix(s, t, key, c1);
    lemma_follower_prefix(s, t, key, c2);
    assert(ambiguous(t, key));
    if key.len() > 0 {
        lemma_stored_prefix(s, t, key_suffix(key));
    }
}

/// Growing the corpus never loses a live order.
pub proof fn lemma_order_live_prefix(s: Seq<char>, t: Seq<char>, k: nat)
    requires
        s.len() <= t.len(),
        t.subrange(0, s.len() as int) == s,
        order_live(s, k),
    ensures
        order_live(t, k),
{
    let key = choose|key: Seq<char>| key.len() == k && stored(s, key);
    lemma_stored_prefix(s, t, key);
}

/// A first match found is a match, and the least one at or after `start`.
pub proof fn lemma_first_match_some(s: Seq<char>, key: Seq<char>, start: int, p: int)
    requires
        start >= 0,
        first_match_from(s, key, start) == Some(p),
    ensures
        start <= p,
        window_matches(s, key, p),
        forall|j: int| start <= j < p ==> !window_matches(s, key, j),
    decreases s.len() - start,
{
    if start + key.len() >= s.len() {
    } else if s.subrange(start, start + key.len() as int) == key {
    } else {
        lemma_first_match_some(s, key, start + 1, p);
    }
}

/// Where a match exists, the first match is the least matching position.
pub proof fn lemma_first_match_found(s: Seq<char>, key: Seq<char>, start: int, p: int)
    requires
        0 <= start <= p,
        window_matches(s, key, p),
        forall|j: int| start <= j < p ==> !window_matches(s, key, j),
    ensures
        first_match_from(s, key, start) == Some(p),
    decreases p - start,
{
    if start == p {
    } else {
        assert(!window_matches(s, key, start));
        if start + key.len() < s.len() {
            assert(s.subrange(start, start + key.len() as int) != key);
        }
        lemma_first_match_found(s, key, start + 1, p);
    }
}

/// Where no position at or after `start` matches, there is no first match.
pub proof fn lemma_first_match_none(s: Seq<char>, key: Seq<char>, start: int)
    requires
        start >= 0,
        forall|j: int| j >= start ==> !window_matches(s, key, j),
    ensures
        first_match_from(s, key, start) is None,
    decreases s.len() - start,
{
    if start + key.len() >= s.len() {
    } else {
        assert(!window_matches(s, key, start));
        assert(s.subrange(start, start + key.len() as int) != key);
        lemma_first_match_none(s, key, start + 1);
    }
}

} // verus!
