//! The generator: drives repeated queries against the sampling engine,
//! keeping a sliding context window over its own output and shrinking the
//! window to a single character whenever a context finds no data at all.

use vstd::prelude::*;

use crate::contexts::{first_match_from, follows_at, is_follower, lemma_first_match_some, stored,
    window_matches};
use crate::stats::{copy_range, MarkovStats, ORDER_LIMIT};

verus! {

/// One generated character occurs somewhere in the corpus `s`.
pub open spec fn from_corpus(s: Seq<char>, c: char) -> bool {
    exists|j: int| 0 <= j < s.len() && s[j] == c
}

/// Generates `length` characters, one query per character. The context for
/// each query is the most recent output, at most `window_cap` characters of
/// it; a query with no data is answered by a random corpus character and
/// shrinks the context to that character alone. On an empty corpus nothing
/// is generated; otherwise exactly `length` characters come out, each of
/// them a character of the corpus.
pub fn generate_text(stats: &mut MarkovStats, length: usize, window_cap: usize) -> (out: Vec<char>)
    requires
        old(stats).wf(),
        window_cap >= 1,
    ensures
        final(stats).wf(),
        final(stats).same_model(*old(stats)),
        out@.len() == if old(stats).corpus().len() == 0 {
            0int
        } else {
            length as int
        },
        forall|i: int| 0 <= i < out@.len() ==> from_corpus(old(stats).corpus(), #[trigger] out@[i]),
{
    let mut out: Vec<char> = Vec::new();
    if stats.text.len() == 0 {
        return out;
    }
    let ghost s = stats.text@;
    let mut st: usize = 0;
    let mut step: usize = 0;
    while step < length
        invariant
            stats.wf(),
            stats.same_model(*old(stats)),
            s == old(stats).corpus(),
            stats.corpus() == s,
            s.len() > 0,
            st <= out@.len(),
            out@.len() == step,
            step <= length,
            out@.len() - st <= window_cap,
            forall|i: int| 0 <= i < out@.len() ==> from_corpus(s, #[trigger] out@[i]),
        decreases length - step,
    {
        let key = copy_range(&out, st, out.len());
        let ghost pre = *stats;
        let r = stats.markov_char_chars(&key);
        match r {
            Some(c) => {
                proof {
                    assert(from_corpus(s, c)) by {
                        if stored(s, key@) && key@.len() < ORDER_LIMIT {
                            assert(is_follower(s, key@, c));
                            let j = choose|j: int| follows_at(s, key@, c, j);
                            assert(s[j + key@.len() as int] == c);
                        } else {
                            match first_match_from(s, key@, pre.cache_index as int) {
                                Some(p) => {
                                    lemma_first_match_some(s, key@, pre.cache_index as int, p);
                                    assert(window_matches(s, key@, p));
                                    assert(s[p + key@.len() as int] == c);
                                },
                                None => {
                                    let p = first_match_from(s, key@, 0)->Some_0;
                                    lemma_first_match_some(s, key@, 0, p);
                                    assert(window_matches(s, key@, p));
                                    assert(s[p + key@.len() as int] == c);
                                },
                            }
                        }
                    }
                }
                out.push(c);
            },
            None => {
                let c = stats.random_char();
                out.push(c);
                st = out.len() - 1;
            },
        }
        if out.len() - st > window_cap {
            st = st + 1;
        }
        step = step + 1;
    }
    out
}

} // verus!
