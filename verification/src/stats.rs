//! The Markov model: building the pruned frequency table by iterative order
//! expansion, and sampling a continuation for a context, with fallback to
//! verbatim search through the corpus.

use vstd::prelude::*;

use crate::contexts::{
    ambiguous, candidate, first_match_from, follow_count, follow_count_upto, follows_at,
    is_follower, key_suffix, lemma_count_pos_follower, lemma_first_match_found,
    lemma_first_match_none, lemma_first_match_some, lemma_follow_count_tail,
    lemma_follows_at_count, lemma_match_count_bound,
    lemma_order_live_down, match_count_upto, order_live, stored,
    window_matches,
};
use crate::randomness::draw_below;
use crate::table::{
    char_index, count_in, entry_wf, find_char, find_entry, has_char, keys_distinct,
    lemma_char_index_unique, lemma_sum_counts_ge_len, lemma_table_index_unique, pick_from_counts,
    table_count, table_has, table_index, table_total, table_wf, tally, Entry,
};

verus! {

/// The ceiling on context-key length during order expansion; it bounds the
/// work on pathological corpora and is far above any order real text earns.
pub const ORDER_LIMIT: usize = 1000;

/// Frequency statistics over a corpus of characters: for every stored
/// (ambiguous) context key, the characters seen following it with their
/// occurrence counts, plus the largest stored order and a cursor that speeds
/// up consecutive verbatim searches.
pub struct MarkovStats {
    /// The corpus, one entry per Unicode scalar value.
    pub text: Vec<char>,
    /// The frequency table: one entry per stored context key.
    pub entries: Vec<Entry>,
    /// The largest order at which some context is stored (zero when none is).
    pub max_ord: usize,
    /// Where the last verbatim search matched; a locality hint only.
    pub cache_index: usize,
}

/// The table `t` is exactly the model of corpus `s`: it holds precisely the
/// stored keys shorter than the order ceiling, and each entry's counts equal
/// the corpus's continuation counts for its key.
pub open spec fn table_models(s: Seq<char>, t: Seq<Entry>) -> bool {
    &&& table_wf(t)
    &&& forall|key: Seq<char>|
        #[trigger] table_has(t, key) <==> (stored(s, key) && key.len() < ORDER_LIMIT)
    &&& forall|i: int| 0 <= i < t.len() ==> entry_exact(s, #[trigger] t[i])
}

/// The entry's counts are exactly the corpus's continuation counts for its
/// key, and at least two continuations occur.
pub open spec fn entry_exact(s: Seq<char>, e: Entry) -> bool {
    &&& forall|c: char| #[trigger] count_in(e.counts@, c) == follow_count(s, e.key@, c)
    &&& e.counts@.len() >= 2
}

/// `m` is the largest live order of `s` (zero when none is live), except
/// that a corpus with live orders all the way up to the ceiling reports the
/// largest order below the ceiling.
pub open spec fn max_ord_models(s: Seq<char>, m: usize) -> bool {
    &&& m < ORDER_LIMIT
    &&& m + 1 < ORDER_LIMIT ==> !order_live(s, (m + 1) as nat)
    &&& order_live(s, 0) ==> order_live(s, m as nat)
    &&& !order_live(s, 0) ==> m == 0
}

impl MarkovStats {
    /// The corpus the statistics were built from.
    pub open spec fn corpus(self) -> Seq<char> {
        self.text@
    }

    /// The statistics are exactly the model of their corpus, and the search
    /// cursor points into the corpus.
    pub open spec fn wf(self) -> bool {
        &&& table_models(self.corpus(), self.entries@)
        &&& max_ord_models(self.corpus(), self.max_ord)
        &&& self.cache_index == 0 || self.cache_index < self.corpus().len()
    }

    /// Everything except the search cursor agrees with `other`.
    pub open spec fn same_model(self, other: MarkovStats) -> bool {
        &&& self.text@ == other.text@
        &&& self.entries@ == other.entries@
        &&& self.max_ord == other.max_ord
    }
}

/// Copies the characters of `v` in positions `a..b`.
pub(crate) fn copy_range(v: &Vec<char>, a: usize, b: usize) -> (r: Vec<char>)
    requires
        a <= b <= v@.len(),
    ensures
        r@ == v@.subrange(a as int, b as int),
{
    let mut r: Vec<char> = Vec::new();
    let mut i: usize = a;
    while i < b
        invariant
            a <= i <= b <= v@.len(),
            r@ == v@.subrange(a as int, i as int),
        decreases b - i,
    {
        r.push(v[i]);
        i = i + 1;
        proof {
            assert(r@ =~= v@.subrange(a as int, i as int));
        }
    }
    r
}

/// Reads a string into its sequence of characters.
pub fn chars_of(s: &str) -> (r: Vec<char>)
    ensures
        r@ == s@,
{
    let n = s.unicode_len();
    let mut r: Vec<char> = Vec::new();
    let mut i: usize = 0;
    while i < n
        invariant
            i <= n,
            n == s@.len(),
            r@ == s@.subrange(0, i as int),
        decreases n - i,
    {
        r.push(s.get_char(i));
        i = i + 1;
        proof {
            assert(r@ =~= s@.subrange(0, i as int));
        }
    }
    proof {
        assert(r@ =~= s@);
    }
    r
}

/// Scans all windows of order `k` and tallies, per candidate context of that
/// length, every continuation with its count. `main` must hold exactly the
/// stored keys shorter than `k`, so that candidacy can be decided by lookup.
fn scan_order(text: &Vec<char>, main: &Vec<Entry>, k: usize) -> (scratch: Vec<Entry>)
    requires
        table_wf(main@),
        forall|key: Seq<char>|
            #[trigger] table_has(main@, key) <==> (stored(text@, key) && key.len() < k),
    ensures
        table_wf(scratch@),
        forall|key: Seq<char>|
            #[trigger] table_has(scratch@, key) ==> key.len() == k && candidate(text@, key),
        forall|key: Seq<char>, c: char|
            key.len() == k && candidate(text@, key) ==> #[trigger] table_count(scratch@, key, c)
                == follow_count(text@, key, c),
{
    let ghost s = text@;
    let n = text.len();
    let mut scratch: Vec<Entry> = Vec::new();
    let limit = if n > k {
        n - k
    } else {
        0
    };
    let mut j: usize = 0;
    while j < limit
        invariant
            s == text@,
            limit == if s.len() > k {
                s.len() - k
            } else {
                0int
            },
            n == s.len(),
            0 <= j <= limit,
            table_wf(scratch@),
            table_wf(main@),
            forall|key: Seq<char>|
                #[trigger] table_has(main@, key) <==> (stored(s, key) && key.len() < k),
            forall|key: Seq<char>|
                #[trigger] table_has(scratch@, key) ==> key.len() == k && candidate(s, key),
            forall|key: Seq<char>, c: char|
                key.len() == k && candidate(s, key) ==> #[trigger] table_count(scratch@, key, c)
                    == follow_count_upto(s, key, c, j as int),
            forall|key: Seq<char>|
                key.len() == k && candidate(s, key) ==> #[trigger] table_total(scratch@, key)
                    == match_count_upto(s, key, j as int),
        decreases limit - j,
    {
        let key = copy_range(text, j, j + k);
        let c = text[j + k];
        let ghost kj = s.subrange(j as int, j + k as int);
        let cand = if k == 0 {
            true
        } else {
            let suffix = copy_range(text, j + 1, j + k);
            proof {
                assert(suffix@ =~= key_suffix(kj));
            }
            find_entry(main, &suffix).is_some()
        };
        proof {
            assert(cand == candidate(s, kj)) by {
                if k > 0 {
                    assert(key_suffix(kj).len() == k - 1);
                    if cand {
                        assert(table_has(main@, key_suffix(kj)));
                    } else {
                        assert(!table_has(main@, key_suffix(kj)));
                    }
                }
            }
            // The only key of length k that is followed at position j is the
            // window starting there, and its continuation is the character
            // after the window.
            assert forall|key2: Seq<char>, c2: char| key2.len() == k implies (follows_at(
                s,
                key2,
                c2,
                j as int,
            ) <==> (key2 == kj && c2 == s[j + k])) by {
                if key2 == kj && c2 == s[j + k] {
                    assert(s.subrange(j as int, j + key2.len() as int) == key2);
                    assert(window_matches(s, key2, j as int));
                }
            }
        }
        if cand {
            proof {
                lemma_match_count_bound(s, kj, j as int);
                assert(table_total(scratch@, key@) < u64::MAX);
            }
            let ghost old_scratch = scratch@;
            tally(&mut scratch, key, c);
            proof {
                assert forall|key2: Seq<char>| #[trigger] table_has(scratch@, key2) implies key2.len()
                    == k && candidate(s, key2) by {
                    if key2 != kj {
                        assert(table_has(old_scratch, key2));
                    }
                }
                assert forall|key2: Seq<char>, c2: char| key2.len() == k && candidate(
                    s,
                    key2,
                ) implies #[trigger] table_count(scratch@, key2, c2) == follow_count_upto(
                    s,
                    key2,
                    c2,
                    j + 1int,
                ) by {
                    assert(follow_count_upto(s, key2, c2, j + 1int) == follow_count_upto(
                        s,
                        key2,
                        c2,
                        j as int,
                    ) + (if follows_at(s, key2, c2, j as int) {
                        1nat
                    } else {
                        0nat
                    }));
                }
                assert forall|key2: Seq<char>| key2.len() == k && candidate(
                    s,
                    key2,
                ) implies #[trigger] table_total(scratch@, key2) == match_count_upto(
                    s,
                    key2,
                    j + 1int,
                ) by {
                    assert(match_count_upto(s, key2, j + 1int) == match_count_upto(
                        s,
                        key2,
                        j as int,
                    ) + (if window_matches(s, key2, j as int) {
                        1nat
                    } else {
                        0nat
                    }));
                    if window_matches(s, key2, j as int) {
                        assert(follows_at(s, key2, s[j + k], j as int));
                        assert(key2 == kj);
                    }
                }
            }
        } else {
            proof {
                assert forall|key2: Seq<char>, c2: char| key2.len() == k && candidate(
                    s,
                    key2,
                ) implies #[trigger] table_count(scratch@, key2, c2) == follow_count_upto(
                    s,
                    key2,
                    c2,
                    j + 1int,
                ) by {
                    assert(follow_count_upto(s, key2, c2, j + 1int) == follow_count_upto(
                        s,
                        key2,
                        c2,
                        j as int,
                    ) + (if follows_at(s, key2, c2, j as int) {
                        1nat
                    } else {
                        0nat
                    }));
                    assert(!follows_at(s, key2, c2, j as int));
                }
                assert forall|key2: Seq<char>| key2.len() == k && candidate(
                    s,
                    key2,
                ) implies #[trigger] table_total(scratch@, key2) == match_count_upto(
                    s,
                    key2,
                    j + 1int,
                ) by {
                    assert(match_count_upto(s, key2, j + 1int) == match_count_upto(
                        s,
                        key2,
                        j as int,
                    ) + (if window_matches(s, key2, j as int) {
                        1nat
                    } else {
                        0nat
                    }));
                    if window_matches(s, key2, j as int) {
                        assert(follows_at(s, key2, s[j + k], j as int));
                        assert(key2 == kj);
                    }
                }
            }
        }
        j = j + 1;
    }
    proof {
        assert forall|key: Seq<char>, c: char| key.len() == k && candidate(
            s,
            key,
        ) implies #[trigger] table_count(scratch@, key, c) == follow_count(s, key, c) by {
            lemma_follow_count_tail(s, key, c, limit as int);
        }
    }
    scratch
}

/// Keeps, out of the tallied candidates of order `k`, exactly the ambiguous
/// ones — those with at least two distinct continuations — and moves them
/// into the permanent table. Returns how many were kept; zero means no
/// context of order `k` is worth storing.
fn merge_order(main: &mut Vec<Entry>, scratch: Vec<Entry>, k: usize, Ghost(s): Ghost<Seq<char>>) -> (kept:
    usize)
    requires
        table_wf(old(main)@),
        forall|key: Seq<char>|
            #[trigger] table_has(old(main)@, key) <==> (stored(s, key) && key.len() < k),
        forall|i: int| 0 <= i < old(main)@.len() ==> entry_exact(s, #[trigger] old(main)@[i]),
        table_wf(scratch@),
        forall|key: Seq<char>|
            #[trigger] table_has(scratch@, key) ==> key.len() == k && candidate(s, key),
        forall|key: Seq<char>, c: char|
            key.len() == k && candidate(s, key) ==> #[trigger] table_count(scratch@, key, c)
                == follow_count(s, key, c),
    ensures
        table_wf(final(main)@),
        forall|key: Seq<char>|
            #[trigger] table_has(final(main)@, key) <==> (stored(s, key) && key.len() < k + 1),
        forall|i: int| 0 <= i < final(main)@.len() ==> entry_exact(s, #[trigger] final(main)@[i]),
        (kept == 0) <==> !order_live(s, k as nat),
{
    let ghost orig = scratch@;
    proof {
        // An entry kept for having two distinct continuations names a stored
        // key: both continuations truly follow it in the corpus.
        assert forall|i: int| 0 <= i < orig.len() && orig[i].counts@.len() >= 2 implies stored(
            s,
            #[trigger] orig[i].key@,
        ) by {
            let key = orig[i].key@;
            assert(table_has(orig, key)) by {
                assert(orig[i].key@ == key);
            }
            lemma_table_index_unique(orig, key, i);
            let counts = orig[i].counts@;
            let c1 = counts[0].0;
            let c2 = counts[1].0;
            assert(c1 != c2);
            lemma_char_index_unique(counts, c1, 0);
            lemma_char_index_unique(counts, c2, 1);
            assert(table_count(orig, key, c1) == count_in(counts, c1));
            assert(follow_count(s, key, c1) > 0);
            lemma_count_pos_follower(s, key, c1, s.len() as int);
            assert(table_count(orig, key, c2) == count_in(counts, c2));
            assert(follow_count(s, key, c2) > 0);
            lemma_count_pos_follower(s, key, c2, s.len() as int);
            assert(ambiguous(s, key));
        }
        // Every stored key of this order was tallied and kept: each of its
        // two continuations shows up as a distinct recorded character.
        assert forall|key: Seq<char>| key.len() == k && stored(s, key) implies exists|i: int|
            0 <= i < orig.len() && (#[trigger] orig[i]).key@ == key && orig[i].counts@.len()
                >= 2 by {
            assert(candidate(s, key)) by {
                if k > 0 {
                    assert(stored(s, key_suffix(key)));
                }
            }
            let c1 = choose|c1: char| #[trigger] is_follower(s, key, c1) && exists|c2: char|
                c1 != c2 && is_follower(s, key, c2);
            let c2 = choose|c2: char| c1 != c2 && is_follower(s, key, c2);
            let j1 = choose|j: int| follows_at(s, key, c1, j);
            lemma_follows_at_count(s, key, c1, j1, s.len() as int);
            let j2 = choose|j: int| follows_at(s, key, c2, j);
            lemma_follows_at_count(s, key, c2, j2, s.len() as int);
            assert(table_count(orig, key, c1) == follow_count(s, key, c1));
            assert(table_count(orig, key, c1) > 0);
            assert(table_has(orig, key));
            let w = table_index(orig, key);
            assert(0 <= w < orig.len() && orig[w].key@ == key);
            assert(count_in(orig[w].counts@, c1) > 0);
            assert(has_char(orig[w].counts@, c1));
            assert(table_count(orig, key, c2) == follow_count(s, key, c2));
            assert(count_in(orig[w].counts@, c2) > 0);
            assert(has_char(orig[w].counts@, c2));
            let w1 = char_index(orig[w].counts@, c1);
            let w2 = char_index(orig[w].counts@, c2);
            assert(orig[w].counts@[w1].0 == c1);
            assert(orig[w].counts@[w2].0 == c2);
            assert(w1 != w2);
            assert(orig[w].counts@.len() >= 2);
        }
    }
    proof {
        assert forall|i: int| 0 <= i < orig.len() implies (#[trigger] orig[i]).key@.len() == k
            && candidate(s, orig[i].key@) by {
            assert(orig[i].key@ == orig[i].key@);
            assert(table_has(orig, orig[i].key@));
        }
        assert forall|i: int, c: char| 0 <= i < orig.len() implies #[trigger] count_in(
            orig[i].counts@,
            c,
        ) == follow_count(s, orig[i].key@, c) by {
            assert(orig[i].key@ == orig[i].key@);
            assert(table_has(orig, orig[i].key@));
            lemma_table_index_unique(orig, orig[i].key@, i);
            assert(table_count(orig, orig[i].key@, c) == follow_count(s, orig[i].key@, c));
        }
    }
    let mut rest = scratch;
    let mut kept: usize = 0;
    let _scratch_len = rest.len();
    while rest.len() > 0
        invariant
            rest@ == orig.subrange(0, rest@.len() as int),
            rest@.len() <= orig.len(),
            orig.len() <= usize::MAX,
            keys_distinct(orig),
            forall|i: int| 0 <= i < orig.len() ==> entry_wf(#[trigger] orig[i]),
            forall|i: int|
                0 <= i < orig.len() ==> (#[trigger] orig[i]).key@.len() == k && candidate(
                    s,
                    orig[i].key@,
                ),
            forall|i: int, c: char|
                0 <= i < orig.len() ==> #[trigger] count_in(orig[i].counts@, c) == follow_count(
                    s,
                    orig[i].key@,
                    c,
                ),
            forall|i: int|
                0 <= i < orig.len() && (#[trigger] orig[i]).counts@.len() >= 2 ==> stored(
                    s,
                    orig[i].key@,
                ),
            forall|key: Seq<char>|
                key.len() == k && stored(s, key) ==> exists|i: int|
                    0 <= i < orig.len() && (#[trigger] orig[i]).key@ == key
                        && orig[i].counts@.len() >= 2,
            table_wf(main@),
            forall|key: Seq<char>|
                #[trigger] table_has(main@, key) <==> ((stored(s, key) && key.len() < k) || exists|i: int|
                    rest@.len() <= i < orig.len() && (#[trigger] orig[i]).key@ == key
                        && orig[i].counts@.len() >= 2),
            forall|i: int| 0 <= i < main@.len() ==> entry_exact(s, #[trigger] main@[i]),
            (kept == 0) <==> (forall|i: int|
                rest@.len() <= i < orig.len() ==> (#[trigger] orig[i]).counts@.len() < 2),
            kept <= orig.len() - rest@.len(),
        decreases rest@.len(),
    {
        let ghost old_rest = rest@;
        let e = rest.pop().unwrap();
        let ghost idx = rest@.len() as int;
        proof {
            assert(rest@ =~= orig.subrange(0, idx));
            assert(e == orig[idx]);
        }
        if e.counts.len() >= 2 {
            let ghost old_main = main@;
            proof {
                assert(stored(s, e.key@));
                assert(!table_has(old_main, e.key@)) by {
                    if table_has(old_main, e.key@) {
                        assert(e.key@.len() == k);
                        if exists|i: int|
                            old_rest.len() <= i < orig.len() && (#[trigger] orig[i]).key@ == e.key@
                                && orig[i].counts@.len() >= 2 {
                            let i = choose|i: int|
                                old_rest.len() <= i < orig.len() && (#[trigger] orig[i]).key@
                                    == e.key@ && orig[i].counts@.len() >= 2;
                            assert(orig[idx].key@ == orig[i].key@ && idx < i);
                        }
                    }
                }
            }
            main.push(e);
            kept = kept + 1;
            proof {
                let new_main = main@;
                assert(new_main[old_main.len() as int] == orig[idx]);
                assert(keys_distinct(new_main)) by {
                    assert forall|a: int, b: int| 0 <= a < b < new_main.len() implies new_main[a].key@
                        != new_main[b].key@ by {
                        if b == old_main.len() {
                            assert(old_main[a].key@ == new_main[a].key@);
                            if new_main[a].key@ == e.key@ {
                                assert(table_has(old_main, e.key@));
                            }
                        }
                    }
                }
                assert forall|key: Seq<char>| #[trigger] table_has(new_main, key) <==> ((stored(
                    s,
                    key,
                ) && key.len() < k) || exists|i: int|
                    rest@.len() <= i < orig.len() && (#[trigger] orig[i]).key@ == key
                        && orig[i].counts@.len() >= 2) by {
                    if table_has(new_main, key) {
                        let w = table_index(new_main, key);
                        assert(0 <= w < new_main.len() && new_main[w].key@ == key);
                        if w < old_main.len() {
                            assert(old_main[w].key@ == key);
                            assert(table_has(old_main, key));
                        } else {
                            assert(orig[idx].key@ == key && orig[idx].counts@.len() >= 2);
                        }
                    }
                    if stored(s, key) && key.len() < k {
                        assert(table_has(old_main, key));
                        let w = table_index(old_main, key);
                        assert(0 <= w < old_main.len() && old_main[w].key@ == key);
                        assert(new_main[w].key@ == key);
                    }
                    if exists|i: int|
                        rest@.len() <= i < orig.len() && (#[trigger] orig[i]).key@ == key
                            && orig[i].counts@.len() >= 2 {
                        let i = choose|i: int|
                            rest@.len() <= i < orig.len() && (#[trigger] orig[i]).key@ == key
                                && orig[i].counts@.len() >= 2;
                        if i == idx {
                            assert(new_main[old_main.len() as int].key@ == key);
                        } else {
                            assert(table_has(old_main, key));
                            let w = table_index(old_main, key);
                            assert(new_main[w].key@ == key);
                        }
                    }
                }
                assert(entry_exact(s, orig[idx]));
            }
        } else {
            proof {
                assert forall|key: Seq<char>| #[trigger] table_has(main@, key) <==> ((stored(
                    s,
                    key,
                ) && key.len() < k) || exists|i: int|
                    rest@.len() <= i < orig.len() && (#[trigger] orig[i]).key@ == key
                        && orig[i].counts@.len() >= 2) by {
                    if exists|i: int|
                        rest@.len() <= i < orig.len() && (#[trigger] orig[i]).key@ == key
                            && orig[i].counts@.len() >= 2 {
                        let i = choose|i: int|
                            rest@.len() <= i < orig.len() && (#[trigger] orig[i]).key@ == key
                                && orig[i].counts@.len() >= 2;
                        assert(i != idx);
                        assert(old_rest.len() <= i < orig.len());
                    }
                }
            }
        }
    }
    proof {
        assert(rest@.len() == 0);
        assert forall|key: Seq<char>| #[trigger] table_has(main@, key) <==> (stored(s, key)
            && key.len() < k + 1) by {
            if table_has(main@, key) && !(stored(s, key) && key.len() < k) {
                let i = choose|i: int|
                    0 <= i < orig.len() && (#[trigger] orig[i]).key@ == key
                        && orig[i].counts@.len() >= 2;
                assert(stored(s, orig[i].key@));
                assert(key.len() == k);
            }
            if stored(s, key) && key.len() < k + 1 && !(key.len() < k) {
                assert(key.len() == k);
                let i = choose|i: int|
                    0 <= i < orig.len() && (#[trigger] orig[i]).key@ == key
                        && orig[i].counts@.len() >= 2;
                assert(table_has(main@, key));
            }
        }
        assert((kept == 0) <==> !order_live(s, k as nat)) by {
            if kept == 0 {
                if order_live(s, k as nat) {
                    let key = choose|key: Seq<char>| key.len() == k as nat && stored(s, key);
                    let i = choose|i: int|
                        0 <= i < orig.len() && (#[trigger] orig[i]).key@ == key
                            && orig[i].counts@.len() >= 2;
                    assert(orig[i].counts@.len() < 2);
                }
            } else {
                assert(!(forall|i: int|
                    0 <= i < orig.len() ==> (#[trigger] orig[i]).counts@.len() < 2));
                let i = choose|i: int|
                    0 <= i < orig.len() && !((#[trigger] orig[i]).counts@.len() < 2);
                assert(stored(s, orig[i].key@));
                assert(order_live(s, k as nat)) by {
                    assert(orig[i].key@.len() == k as nat && stored(s, orig[i].key@));
                }
            }
        }
    }
    kept
}

/// Builds the full pruned table by iterative order expansion: tally order
/// `k`, keep the ambiguous contexts, and stop at the first order where
/// nothing is kept — no higher order can be ambiguous then either.
fn build_table(text: &Vec<char>) -> (r: (Vec<Entry>, usize))
    ensures
        table_models(text@, r.0@),
        max_ord_models(text@, r.1),
{
    let ghost s = text@;
    let mut main: Vec<Entry> = Vec::new();
    let mut k: usize = 0;
    while k < ORDER_LIMIT
        invariant
            s == text@,
            0 <= k <= ORDER_LIMIT,
            table_wf(main@),
            forall|key: Seq<char>|
                #[trigger] table_has(main@, key) <==> (stored(s, key) && key.len() < k),
            forall|i: int| 0 <= i < main@.len() ==> entry_exact(s, #[trigger] main@[i]),
            forall|m: nat| m < k ==> order_live(s, m),
        decreases ORDER_LIMIT - k,
    {
        let scratch = scan_order(text, &main, k);
        let kept = merge_order(&mut main, scratch, k, Ghost(s));
        if kept == 0 {
            let max_ord = if k == 0 {
                0
            } else {
                k - 1
            };
            proof {
                assert forall|key: Seq<char>| #[trigger] table_has(main@, key) <==> (stored(
                    s,
                    key,
                ) && key.len() < ORDER_LIMIT) by {
                    if stored(s, key) && key.len() < ORDER_LIMIT && key.len() >= k {
                        assert(order_live(s, key.len())) by {
                            assert(key.len() == key.len() && stored(s, key));
                        }
                        lemma_order_live_down(s, k as nat, key.len());
                    }
                }
                if k == 0 {
                    if 1 < ORDER_LIMIT && order_live(s, 1) {
                        lemma_order_live_down(s, 0, 1);
                    }
                } else {
                    assert(order_live(s, (k - 1) as nat));
                }
            }
            return (main, max_ord);
        }
        k = k + 1;
    }
    proof {
        assert forall|key: Seq<char>| #[trigger] table_has(main@, key) <==> (stored(s, key)
            && key.len() < ORDER_LIMIT) by {}
        assert(order_live(s, 0));
        assert(order_live(s, (ORDER_LIMIT - 1) as nat));
    }
    (main, ORDER_LIMIT - 1)
}

impl MarkovStats {
    /// Builds Markov chain statistics from a corpus: the pruned frequency
    /// table of all stored contexts, and the largest order that stores any.
    pub fn from_corpus(corpus: crate::corpus::Corpus) -> (r: MarkovStats)
        ensures
            r.wf(),
            r.corpus() == corpus.chars@,
            r.cache_index == 0,
    {
        let chars = corpus.chars;
        let (entries, max_ord) = build_table(&chars);
        MarkovStats { text: chars, entries, max_ord, cache_index: 0 }
    }

    /// Builds Markov chain statistics from a string.
    pub fn from_str(text: &str) -> (r: MarkovStats)
        ensures
            r.wf(),
            r.corpus() == text@,
            r.cache_index == 0,
    {
        MarkovStats::from_corpus(crate::corpus::Corpus::from_text(text))
    }

    /// The largest order at which the table stores any context; every
    /// shorter context is stored or was pruned as unambiguous.
    pub fn max_order(&self) -> (r: usize)
        ensures
            r == self.max_ord,
    {
        self.max_ord
    }

    /// Searches the corpus verbatim for the first occurrence of `key` (with
    /// a follower) at or after character position `start`; on a hit, moves
    /// the search cursor to the match and returns the following character.
    fn find_unique(&mut self, key: &Vec<char>, start: usize) -> (r: Option<char>)
        ensures
            final(self).text@ == old(self).text@,
            final(self).entries@ == old(self).entries@,
            final(self).max_ord == old(self).max_ord,
            match first_match_from(old(self).text@, key@, start as int) {
                Some(p) => r == Some(old(self).text@[p + key@.len() as int]) && final(self).cache_index == p,
                None => r is None && final(self).cache_index == old(self).cache_index,
            },
    {
        let ghost s = self.text@;
        let n = self.text.len();
        let k = key.len();
        let mut j: usize = start;
        while j < n && n - j > k
            invariant
                s == self.text@,
                n == s.len(),
                k == key@.len(),
                start <= j,
                *self == *old(self),
                forall|m: int| start <= m < j ==> !window_matches(s, key@, m),
            decreases n - j,
        {
            if range_eq(&self.text, j, key) {
                proof {
                    assert(window_matches(s, key@, j as int));
                    lemma_first_match_found(s, key@, start as int, j as int);
                }
                self.cache_index = j;
                return Some(self.text[j + k]);
            }
            proof {
                assert(!window_matches(s, key@, j as int));
            }
            j = j + 1;
        }
        proof {
            assert forall|m: int| m >= start implies !window_matches(s, key@, m) by {
                if m < j {
                } else {
                    assert(m + k >= n);
                }
            }
            lemma_first_match_none(s, key@, start as int);
        }
        None
    }

    /// Samples a character that may follow the context `key`. A stored
    /// context is answered by weighted random selection over its recorded
    /// continuations, so the returned character follows the context
    /// somewhere in the corpus. An unstored context is answered by verbatim
    /// search — first from the cursor, then from the top — and `None` comes
    /// back exactly when the context never occurs with a follower.
    pub fn markov_char_chars(&mut self, key: &Vec<char>) -> (r: Option<char>)
        requires
            old(self).wf(),
        ensures
            final(self).wf(),
            final(self).same_model(*old(self)),
            ({
                let s = old(self).corpus();
                if stored(s, key@) && key@.len() < ORDER_LIMIT {
                    r matches Some(c) && is_follower(s, key@, c)
                } else {
                    match first_match_from(s, key@, old(self).cache_index as int) {
                        Some(p) => r == Some(s[p + key@.len() as int]) && final(self).cache_index == p,
                        None => match first_match_from(s, key@, 0) {
                            Some(p) => r == Some(s[p + key@.len() as int]) && final(self).cache_index == p,
                            None => r is None && final(self).cache_index == old(self).cache_index,
                        },
                    }
                }
            }),
            (forall|j: int| !window_matches(old(self).corpus(), key@, j)) ==> r is None,
    {
        let ghost s = self.text@;
        match find_entry(&self.entries, key) {
            Some(i) => {
                proof {
                    lemma_table_index_unique(self.entries@, key@, i as int);
                    assert(entry_wf(self.entries@[i as int]));
                    assert(entry_exact(s, self.entries@[i as int]));
                    lemma_sum_counts_ge_len(self.entries@[i as int].counts@);
                }
                let total = self.entries[i].total;
                let draw = draw_below(total);
                let c = pick_from_counts(&self.entries[i].counts, draw);
                proof {
                    let counts = self.entries@[i as int].counts@;
                    let w = char_index(counts, c);
                    assert(0 <= w < counts.len() && counts[w].0 == c);
                    lemma_char_index_unique(counts, c, w);
                    assert(count_in(counts, c) >= 1);
                    assert(follow_count(s, key@, c) > 0);
                    lemma_count_pos_follower(s, key@, c, s.len() as int);
                }
                Some(c)
            },
            None => {
                let cache = self.cache_index;
                let r = match self.find_unique(key, cache) {
                    Some(c) => Some(c),
                    None => self.find_unique(key, 0),
                };
                proof {
                    if r is Some {
                        let p = if first_match_from(s, key@, cache as int) is Some {
                            first_match_from(s, key@, cache as int)->Some_0
                        } else {
                            first_match_from(s, key@, 0)->Some_0
                        };
                        if first_match_from(s, key@, cache as int) is Some {
                            lemma_first_match_some(s, key@, cache as int, p);
                        } else {
                            lemma_first_match_some(s, key@, 0, p);
                        }
                        assert(window_matches(s, key@, p));
                        assert(p < s.len());
                    }
                }
                r
            },
        }
    }

    /// Samples a character that may follow the given text key, as
    /// `markov_char_chars` does, taking the key as a string slice.
    pub fn markov_char(&mut self, key: &str) -> (r: Option<char>)
        requires
            old(self).wf(),
        ensures
            final(self).wf(),
            final(self).same_model(*old(self)),
            ({
                let s = old(self).corpus();
                if stored(s, key@) && key@.len() < ORDER_LIMIT {
                    r matches Some(c) && is_follower(s, key@, c)
                } else {
                    match first_match_from(s, key@, old(self).cache_index as int) {
                        Some(p) => r == Some(s[p + key@.len() as int]) && final(self).cache_index == p,
                        None => match first_match_from(s, key@, 0) {
                            Some(p) => r == Some(s[p + key@.len() as int]) && final(self).cache_index == p,
                            None => r is None && final(self).cache_index == old(self).cache_index,
                        },
                    }
                }
            }),
            (forall|j: int| !window_matches(old(self).corpus(), key@, j)) ==> r is None,
    {
        let key_chars = chars_of(key);
        self.markov_char_chars(&key_chars)
    }

    /// Returns a random character of the corpus: by the stored full-corpus
    /// histogram where the empty context is stored, else the character at
    /// the search cursor.
    pub fn random_char(&mut self) -> (r: char)
        requires
            old(self).wf(),
            old(self).corpus().len() > 0,
        ensures
            final(self).wf(),
            final(self).same_model(*old(self)),
            exists|j: int| 0 <= j < old(self).corpus().len() && r == old(self).corpus()[j],
    {
        let ghost s = self.text@;
        let ghost cache = self.cache_index;
        let empty_key: Vec<char> = Vec::new();
        let r = self.markov_char_chars(&empty_key);
        proof {
            let e = Seq::<char>::empty();
            assert(empty_key@ =~= e);
            if stored(s, e) {
                let c = r->Some_0;
                let j = choose|j: int| follows_at(s, e, c, j);
                assert(0 <= j < s.len() && s[j] == c);
            } else {
                assert(cache < s.len());
                assert(s.subrange(cache as int, cache as int) =~= e);
                assert(window_matches(s, e, cache as int));
                lemma_first_match_found(s, e, cache as int, cache as int);
                assert(r == Some(s[cache as int]));
            }
            assert(r is Some);
        }
        let c = r.unwrap();
        c
    }

    /// Whether the context `key` is stored in the frequency table — that is,
    /// whether it is ambiguous along with all its shorter suffixes.
    pub fn has_context(&self, key: &str) -> (r: bool)
        requires
            self.wf(),
        ensures
            r == (stored(self.corpus(), key@) && key@.len() < ORDER_LIMIT),
    {
        let key_chars = chars_of(key);
        find_entry(&self.entries, &key_chars).is_some()
    }

    /// How often the continuation `c` follows the context `key` in the
    /// corpus, read from the table; zero for a context that is not stored.
    pub fn context_count(&self, key: &str, c: char) -> (r: u64)
        requires
            self.wf(),
        ensures
            r as nat == if stored(self.corpus(), key@) && key@.len() < ORDER_LIMIT {
                follow_count(self.corpus(), key@, c)
            } else {
                0nat
            },
    {
        let key_chars = chars_of(key);
        match find_entry(&self.entries, &key_chars) {
            Some(i) => {
                proof {
                    lemma_table_index_unique(self.entries@, key@, i as int);
                    assert(entry_exact(self.corpus(), self.entries@[i as int]));
                }
                match find_char(&self.entries[i].counts, c) {
                    Some(w) => {
                        proof {
                            lemma_char_index_unique(self.entries@[i as int].counts@, c, w as int);
                        }
                        self.entries[i].counts[w].1
                    },
                    None => {
                        proof {
                            assert(count_in(self.entries@[i as int].counts@, c) == 0);
                        }
                        0
                    },
                }
            },
            None => 0,
        }
    }
}

/// Compares the characters of `v` at positions `a..` with the whole of `key`.
fn range_eq(v: &Vec<char>, a: usize, key: &Vec<char>) -> (r: bool)
    requires
        a + key@.len() <= v@.len(),
    ensures
        r == (v@.subrange(a as int, a + key@.len() as int) == key@),
{
    let mut i: usize = 0;
    let _vn = v.len();
    while i < key.len()
        invariant
            a + key@.len() <= v@.len(),
            v@.len() == _vn,
            i <= key@.len(),
            forall|m: int| 0 <= m < i ==> v@[a + m] == key@[m],
        decreases key@.len() - i,
    {
        if v[a + i] != key[i] {
            proof {
                assert(v@.subrange(a as int, a + key@.len() as int)[i as int] != key@[i as int]);
            }
            return false;
        }
        i = i + 1;
    }
    proof {
        assert(v@.subrange(a as int, a + key@.len() as int) =~= key@);
    }
    true
}

} // verus!
