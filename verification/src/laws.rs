//! Laws of the model, stated and proved once and for all: determinism of the
//! built structure, monotonicity of the maximum order under corpus
//! extension, genuine ambiguity of every stored context, and the behaviour
//! of generation over a one-character corpus.

use vstd::prelude::*;

use crate::contexts::{
    ambiguous, follows_at, is_follower, lemma_order_live_down, lemma_order_live_prefix,
    order_live, stored,
};
use crate::generator::from_corpus;
use crate::stats::{entry_exact, MarkovStats};
use crate::table::{
    chars_distinct, count_in, lemma_char_index_unique, lemma_sum_counts_ge_len, sum_counts,
    table_count, table_has, table_index, table_total,
};

verus! {

/// Building is deterministic in the corpus: any two well-formed statistics
/// over one corpus store the same keys, record the same count for every
/// continuation of every key, and report the same maximum order. Only the
/// character choices during generation are random, never the structure.
pub proof fn lemma_build_deterministic(a: MarkovStats, b: MarkovStats)
    requires
        a.wf(),
        b.wf(),
        a.corpus() == b.corpus(),
    ensures
        forall|key: Seq<char>|
            #[trigger] table_has(a.entries@, key) == table_has(b.entries@, key),
        forall|key: Seq<char>, c: char|
            #[trigger] table_count(a.entries@, key, c) == table_count(b.entries@, key, c),
        a.max_ord == b.max_ord,
{
    let s = a.corpus();
    assert forall|key: Seq<char>, c: char| #[trigger] table_count(a.entries@, key, c)
        == table_count(b.entries@, key, c) by {
        if table_has(a.entries@, key) {
            let wa = table_index(a.entries@, key);
            assert(0 <= wa < a.entries@.len() && a.entries@[wa].key@ == key);
            assert(entry_exact(s, a.entries@[wa]));
            assert(table_has(b.entries@, key));
            let wb = table_index(b.entries@, key);
            assert(0 <= wb < b.entries@.len() && b.entries@[wb].key@ == key);
            assert(entry_exact(s, b.entries@[wb]));
            assert(count_in(a.entries@[wa].counts@, c) == count_in(b.entries@[wb].counts@, c));
        }
    }
    assert(a.max_ord == b.max_ord) by {
        if order_live(s, 0) {
            if a.max_ord < b.max_ord {
                assert(order_live(s, b.max_ord as nat));
                lemma_order_live_down(s, (a.max_ord + 1) as nat, b.max_ord as nat);
            }
            if b.max_ord < a.max_ord {
                assert(order_live(s, a.max_ord as nat));
                lemma_order_live_down(s, (b.max_ord + 1) as nat, a.max_ord as nat);
            }
        }
    }
}

/// More data never lowers the maximum order: when one corpus is a prefix of
/// another, every live order of the prefix is live for the extension, so the
/// extension's maximum stored order is at least the prefix's.
pub proof fn lemma_max_order_monotone(a: MarkovStats, b: MarkovStats)
    requires
        a.wf(),
        b.wf(),
        a.corpus().len() <= b.corpus().len(),
        b.corpus().subrange(0, a.corpus().len() as int) == a.corpus(),
    ensures
        a.max_ord <= b.max_ord,
{
    let s = a.corpus();
    let t = b.corpus();
    if order_live(s, 0) {
        assert(order_live(s, a.max_ord as nat));
        lemma_order_live_prefix(s, t, a.max_ord as nat);
        if b.max_ord < a.max_ord {
            lemma_order_live_prefix(s, t, 0);
            lemma_order_live_down(t, (b.max_ord + 1) as nat, a.max_ord as nat);
        }
    }
}

/// Every context in the table is genuinely ambiguous: its entry records at
/// least two distinct continuation characters, each seen at least once, and
/// the counts sum to at least two.
pub proof fn lemma_stored_context_ambiguous(m: MarkovStats, key: Seq<char>)
    requires
        m.wf(),
        table_has(m.entries@, key),
    ensures
        exists|c1: char, c2: char|
            c1 != c2 && #[trigger] table_count(m.entries@, key, c1) >= 1 && #[trigger] table_count(
                m.entries@,
                key,
                c2,
            ) >= 1,
        table_total(m.entries@, key) >= 2,
{
    let s = m.corpus();
    let w = table_index(m.entries@, key);
    assert(0 <= w < m.entries@.len() && m.entries@[w].key@ == key);
    let counts = m.entries@[w].counts@;
    assert(entry_exact(s, m.entries@[w]));
    assert(counts.len() >= 2);
    let c1 = counts[0].0;
    let c2 = counts[1].0;
    assert(c1 != c2);
    lemma_char_index_unique(counts, c1, 0);
    lemma_char_index_unique(counts, c2, 1);
    assert(table_count(m.entries@, key, c1) >= 1);
    assert(table_count(m.entries@, key, c2) >= 1);
    lemma_sum_counts_ge_len(counts);
    assert(m.entries@[w].total == sum_counts(counts));
}

/// A corpus of one repeated character stores nothing — not even the empty
/// context is ambiguous — so the maximum order is zero.
pub proof fn lemma_degenerate_max_order(m: MarkovStats, c: char)
    requires
        m.wf(),
        forall|j: int| 0 <= j < m.corpus().len() ==> m.corpus()[j] == c,
    ensures
        m.max_ord == 0,
{
    let s = m.corpus();
    assert(!order_live(s, 0)) by {
        if order_live(s, 0) {
            let key = choose|key: Seq<char>| key.len() == 0 && stored(s, key);
            assert(ambiguous(s, key));
            let c1 = choose|c1: char| #[trigger] is_follower(s, key, c1) && exists|c2: char|
                c1 != c2 && is_follower(s, key, c2);
            let c2 = choose|c2: char| c1 != c2 && is_follower(s, key, c2);
            let j1 = choose|j: int| follows_at(s, key, c1, j);
            let j2 = choose|j: int| follows_at(s, key, c2, j);
            assert(c1 == s[j1 + key.len() as int]);
            assert(c2 == s[j2 + key.len() as int]);
        }
    }
}

/// Over a corpus of one repeated character, whatever generation emits is
/// that character: each emitted character is a corpus character, and the
/// corpus holds no other.
pub proof fn lemma_degenerate_generation(s: Seq<char>, out: Seq<char>, c: char)
    requires
        forall|j: int| 0 <= j < s.len() ==> s[j] == c,
        forall|i: int| 0 <= i < out.len() ==> from_corpus(s, #[trigger] out[i]),
    ensures
        forall|i: int| 0 <= i < out.len() ==> out[i] == c,
{
    assert forall|i: int| 0 <= i < out.len() implies out[i] == c by {
        assert(from_corpus(s, out[i]));
        let j = choose|j: int| 0 <= j < s.len() && s[j] == out[i];
        assert(s[j] == c);
    }
}

} // verus!
