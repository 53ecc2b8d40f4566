//! Word-level text statistics: a flat mapping from a run of preceding words
//! to the frequency table of the words seen following that run. Instances
//! are sliding windows of a fixed depth over the word stream; a window of
//! words bumps, for each of its proper prefixes, the count of the word that
//! follows the prefix.

use vstd::prelude::*;

use crate::randomness::draw_below;

verus! {

/// The views of a run of words: each word as its character sequence.
pub open spec fn pviews(ws: Seq<String>) -> Seq<Seq<char>> {
    Seq::new(ws.len(), |i: int| ws[i]@)
}

/// Some pair in `counts` carries the word `w`.
pub open spec fn whas(counts: Seq<(String, u64)>, w: Seq<char>) -> bool {
    exists|i: int| 0 <= i < counts.len() && counts[i].0@ == w
}

/// The position of the pair carrying `w`.
pub open spec fn windex(counts: Seq<(String, u64)>, w: Seq<char>) -> int {
    choose|i: int| 0 <= i < counts.len() && counts[i].0@ == w
}

/// No two pairs carry the same word.
pub open spec fn wdistinct(counts: Seq<(String, u64)>) -> bool {
    forall|i: int, j: int| 0 <= i < j < counts.len() ==> counts[i].0@ != counts[j].0@
}

/// The count recorded for `w`, zero where no pair carries it.
pub open spec fn wcount(counts: Seq<(String, u64)>, w: Seq<char>) -> nat {
    if whas(counts, w) {
        counts[windex(counts, w)].1 as nat
    } else {
        0
    }
}

/// The sum of all recorded counts.
pub open spec fn wsum(counts: Seq<(String, u64)>) -> nat
    decreases counts.len(),
{
    if counts.len() == 0 {
        0
    } else {
        counts[0].1 as nat + wsum(counts.drop_first())
    }
}

/// Well-formed word counts: distinct words, positive counts.
pub open spec fn wcounts_wf(counts: Seq<(String, u64)>) -> bool {
    &&& wdistinct(counts)
    &&& forall|i: int| 0 <= i < counts.len() ==> (#[trigger] counts[i]).1 >= 1
}

/// One run of preceding words with the counts of the words following it.
pub struct WordTable {
    /// The run of preceding words.
    pub prefix: Vec<String>,
    /// Each word seen following the run, with its count.
    pub counts: Vec<(String, u64)>,
    /// The sum of all counts, kept alongside.
    pub total: u64,
}

/// Some table of `ts` is keyed by the prefix `p`.
pub open spec fn thas(ts: Seq<WordTable>, p: Seq<Seq<char>>) -> bool {
    exists|i: int| 0 <= i < ts.len() && pviews(ts[i].prefix@) == p
}

/// The position of the table keyed by `p`.
pub open spec fn tindex(ts: Seq<WordTable>, p: Seq<Seq<char>>) -> int {
    choose|i: int| 0 <= i < ts.len() && pviews(ts[i].prefix@) == p
}

/// The count recorded for word `w` after prefix `p`; zero where absent.
pub open spec fn tcount(ts: Seq<WordTable>, p: Seq<Seq<char>>, w: Seq<char>) -> nat {
    if thas(ts, p) {
        wcount(ts[tindex(ts, p)].counts@, w)
    } else {
        0
    }
}

/// The sum of counts recorded after prefix `p`; zero where absent.
pub open spec fn ttotal(ts: Seq<WordTable>, p: Seq<Seq<char>>) -> nat {
    if thas(ts, p) {
        ts[tindex(ts, p)].total as nat
    } else {
        0
    }
}

/// Well-formed tables: distinct prefixes, well-formed counts, exact totals.
pub open spec fn twf(ts: Seq<WordTable>) -> bool {
    &&& forall|i: int, j: int|
        0 <= i < j < ts.len() ==> pviews(ts[i].prefix@) != pviews(ts[j].prefix@)
    &&& forall|i: int| 0 <= i < ts.len() ==> wcounts_wf((#[trigger] ts[i]).counts@)
    &&& forall|i: int| 0 <= i < ts.len() ==> (#[trigger] ts[i]).total == wsum(ts[i].counts@)
}

/// With distinct words, any pair carrying `w` is the pair `wcount` reads.
proof fn lemma_windex_unique(counts: Seq<(String, u64)>, w: Seq<char>, i: int)
    requires
        wdistinct(counts),
        0 <= i < counts.len(),
        counts[i].0@ == w,
    ensures
        windex(counts, w) == i,
        wcount(counts, w) == counts[i].1,
{
    let x = windex(counts, w);
    assert(0 <= x < counts.len() && counts[x].0@ == w);
}

/// With distinct prefixes, any table keyed by `p` is the table read.
proof fn lemma_tindex_unique(ts: Seq<WordTable>, p: Seq<Seq<char>>, i: int)
    requires
        forall|a: int, b: int|
            0 <= a < b < ts.len() ==> pviews(ts[a].prefix@) != pviews(ts[b].prefix@),
        0 <= i < ts.len(),
        pviews(ts[i].prefix@) == p,
    ensures
        tindex(ts, p) == i,
        thas(ts, p),
{
    let x = tindex(ts, p);
    assert(0 <= x < ts.len() && pviews(ts[x].prefix@) == p);
}

/// Appending a pair adds its count to the sum.
proof fn lemma_wsum_push(counts: Seq<(String, u64)>, pr: (String, u64))
    ensures
        wsum(counts.push(pr)) == wsum(counts) + pr.1,
    decreases counts.len(),
{
    if counts.len() == 0 {
        assert(counts.push(pr).drop_first() =~= counts);
    } else {
        assert(counts.push(pr).drop_first() =~= counts.drop_first().push(pr));
        lemma_wsum_push(counts.drop_first(), pr);
    }
}

/// Replacing one pair changes the sum by the difference of the counts.
proof fn lemma_wsum_update(counts: Seq<(String, u64)>, i: int, pr: (String, u64))
    requires
        0 <= i < counts.len(),
    ensures
        wsum(counts.update(i, pr)) == wsum(counts) - counts[i].1 + pr.1,
    decreases counts.len(),
{
    let upd = counts.update(i, pr);
    if i == 0 {
        assert(upd.drop_first() =~= counts.drop_first());
    } else {
        assert(upd.drop_first() =~= counts.drop_first().update(i - 1, pr));
        lemma_wsum_update(counts.drop_first(), i - 1, pr);
    }
}

/// Any one count is bounded by the sum.
proof fn lemma_wcount_at_le_sum(counts: Seq<(String, u64)>, i: int)
    requires
        0 <= i < counts.len(),
    ensures
        counts[i].1 <= wsum(counts),
    decreases counts.len(),
{
    if i > 0 {
        lemma_wcount_at_le_sum(counts.drop_first(), i - 1);
    }
}

/// A sum of positive counts is at least the number of pairs.
proof fn lemma_wsum_ge_len(counts: Seq<(String, u64)>)
    requires
        forall|i: int| 0 <= i < counts.len() ==> (#[trigger] counts[i]).1 >= 1,
    ensures
        wsum(counts) >= counts.len(),
    decreases counts.len(),
{
    if counts.len() > 0 {
        lemma_wsum_ge_len(counts.drop_first());
    }
}

/// Compares two runs of words by their characters.
fn prefix_eq(a: &Vec<String>, b: &Vec<String>) -> (r: bool)
    ensures
        r == (pviews(a@) == pviews(b@)),
{
    if a.len() != b.len() {
        proof {
            assert(pviews(a@).len() != pviews(b@).len());
        }
        return false;
    }
    let mut i: usize = 0;
    while i < a.len()
        invariant
            a@.len() == b@.len(),
            i <= a@.len(),
            forall|m: int| 0 <= m < i ==> a@[m]@ == b@[m]@,
        decreases a@.len() - i,
    {
        if !(a[i] == b[i]) {
            proof {
                assert(pviews(a@)[i as int] != pviews(b@)[i as int]);
            }
            return false;
        }
        i = i + 1;
    }
    proof {
        assert(pviews(a@) =~= pviews(b@));
    }
    true
}

/// Finds the position of the pair carrying `w`, if any.
fn find_word(counts: &Vec<(String, u64)>, w: &String) -> (r: Option<usize>)
    ensures
        match r {
            Some(i) => i < counts@.len() && counts@[i as int].0@ == w@,
            None => !whas(counts@, w@),
        },
{
    let mut i: usize = 0;
    while i < counts.len()
        invariant
            i <= counts@.len(),
            forall|m: int| 0 <= m < i ==> counts@[m].0@ != w@,
        decreases counts@.len() - i,
    {
        if counts[i].0 == *w {
            return Some(i);
        }
        i = i + 1;
    }
    None
}

/// Finds the position of the table keyed by the given prefix, if any.
fn find_table(ts: &Vec<WordTable>, prefix: &Vec<String>) -> (r: Option<usize>)
    ensures
        match r {
            Some(i) => i < ts@.len() && pviews(ts@[i as int].prefix@) == pviews(prefix@),
            None => !thas(ts@, pviews(prefix@)),
        },
{
    let mut i: usize = 0;
    while i < ts.len()
        invariant
            i <= ts@.len(),
            forall|m: int| 0 <= m < i ==> pviews(ts@[m].prefix@) != pviews(prefix@),
        decreases ts@.len() - i,
    {
        if prefix_eq(&ts[i].prefix, prefix) {
            return Some(i);
        }
        i = i + 1;
    }
    None
}

/// Records one more occurrence of `w`: raises its count, or starts it at one.
fn wbump(counts: &mut Vec<(String, u64)>, w: String)
    requires
        wcounts_wf(old(counts)@),
        wsum(old(counts)@) < u64::MAX,
    ensures
        wcounts_wf(final(counts)@),
        wcount(final(counts)@, w@) == wcount(old(counts)@, w@) + 1,
        forall|d: Seq<char>| d != w@ ==> wcount(final(counts)@, d) == wcount(old(counts)@, d),
        wsum(final(counts)@) == wsum(old(counts)@) + 1,
{
    let ghost old_counts = counts@;
    match find_word(counts, &w) {
        Some(i) => {
            proof {
                lemma_windex_unique(old_counts, w@, i as int);
                lemma_wcount_at_le_sum(old_counts, i as int);
            }
            let n = counts[i].1;
            counts.set(i, (w, n + 1));
            proof {
                assert(counts@[i as int].0@ == old_counts[i as int].0@);
                assert(wdistinct(counts@)) by {
                    assert forall|a: int, b: int| 0 <= a < b < counts@.len() implies counts@[a].0@
                        != counts@[b].0@ by {
                        assert(counts@[a].0@ == old_counts[a].0@);
                        assert(counts@[b].0@ == old_counts[b].0@);
                    }
                }
                assert(wsum(counts@) == wsum(old_counts) + 1) by {
                    assert(counts@ =~= old_counts.update(i as int, counts@[i as int]));
                    assert(counts@[i as int].1 == n + 1);
                    lemma_wsum_update(old_counts, i as int, counts@[i as int]);
                }
                lemma_windex_unique(counts@, w@, i as int);
                assert forall|d: Seq<char>| d != w@ implies #[trigger] wcount(counts@, d) == wcount(
                    old_counts,
                    d,
                ) by {
                    if whas(counts@, d) {
                        let x = windex(counts@, d);
                        assert(0 <= x < counts@.len() && counts@[x].0@ == d);
                        assert(x != i);
                        assert(old_counts[x].0@ == d);
                        lemma_windex_unique(old_counts, d, x);
                        lemma_windex_unique(counts@, d, x);
                    } else {
                        if whas(old_counts, d) {
                            let x = windex(old_counts, d);
                            assert(0 <= x < old_counts.len() && old_counts[x].0@ == d);
                            assert(x != i);
                            assert(counts@[x].0@ == d);
                        }
                    }
                }
            }
        },
        None => {
            proof {
                lemma_wsum_push(old_counts, (w, 1u64));
            }
            let ghost wv = w@;
            counts.push((w, 1));
            proof {
                assert(counts@[old_counts.len() as int].0@ == wv);
                assert(wdistinct(counts@)) by {
                    assert forall|a: int, b: int| 0 <= a < b < counts@.len() implies counts@[a].0@
                        != counts@[b].0@ by {
                        if b == old_counts.len() {
                            assert(old_counts[a].0@ == counts@[a].0@);
                            assert(!whas(old_counts, wv));
                        }
                    }
                }
                lemma_windex_unique(counts@, wv, old_counts.len() as int);
                assert(wcount(old_counts, wv) == 0);
                assert forall|d: Seq<char>| d != wv implies #[trigger] wcount(counts@, d) == wcount(
                    old_counts,
                    d,
                ) by {
                    if whas(counts@, d) {
                        let x = windex(counts@, d);
                        assert(0 <= x < counts@.len() && counts@[x].0@ == d);
                        assert(x < old_counts.len());
                        assert(old_counts[x].0@ == d);
                        lemma_windex_unique(old_counts, d, x);
                        lemma_windex_unique(counts@, d, x);
                    } else {
                        if whas(old_counts, d) {
                            let x = windex(old_counts, d);
                            assert(counts@[x].0@ == d);
                        }
                    }
                }
            }
        },
    }
}

/// Records one more occurrence of `w` after `prefix`: bumps the word's count
/// in the table keyed by the prefix, or starts a fresh table.
fn wtally(ts: &mut Vec<WordTable>, prefix: Vec<String>, w: String)
    requires
        twf(old(ts)@),
        ttotal(old(ts)@, pviews(prefix@)) < u64::MAX,
    ensures
        twf(final(ts)@),
        forall|p: Seq<Seq<char>>|
            #[trigger] thas(final(ts)@, p) == (thas(old(ts)@, p) || p == pviews(prefix@)),
        forall|p: Seq<Seq<char>>, d: Seq<char>|
            #[trigger] tcount(final(ts)@, p, d) == tcount(old(ts)@, p, d) + (if p == pviews(
                prefix@,
            ) && d == w@ {
                1int
            } else {
                0int
            }),
        forall|p: Seq<Seq<char>>|
            #[trigger] ttotal(final(ts)@, p) == ttotal(old(ts)@, p) + (if p == pviews(prefix@) {
                1int
            } else {
                0int
            }),
{
    let ghost old_ts = ts@;
    let ghost pv = pviews(prefix@);
    let ghost wv = w@;
    match find_table(ts, &prefix) {
        Some(i) => {
            proof {
                lemma_tindex_unique(old_ts, pv, i as int);
            }
            let e = &mut ts[i];
            wbump(&mut e.counts, w);
            e.total = e.total + 1;
            proof {
                let new_ts = ts@;
                assert(new_ts =~= old_ts.update(i as int, new_ts[i as int]));
                assert(pviews(new_ts[i as int].prefix@) == pv);
                assert forall|a: int, b: int| 0 <= a < b < new_ts.len() implies pviews(
                    new_ts[a].prefix@,
                ) != pviews(new_ts[b].prefix@) by {
                    assert(pviews(new_ts[a].prefix@) == pviews(old_ts[a].prefix@));
                    assert(pviews(new_ts[b].prefix@) == pviews(old_ts[b].prefix@));
                }
                lemma_tindex_unique(new_ts, pv, i as int);
                assert forall|p: Seq<Seq<char>>| #[trigger] thas(new_ts, p) == (thas(old_ts, p) || p
                    == pv) by {
                    if thas(new_ts, p) {
                        let x = tindex(new_ts, p);
                        assert(0 <= x < new_ts.len() && pviews(new_ts[x].prefix@) == p);
                        if x != i {
                            assert(pviews(old_ts[x].prefix@) == p);
                        }
                    }
                    if thas(old_ts, p) {
                        let x = tindex(old_ts, p);
                        assert(0 <= x < old_ts.len() && pviews(old_ts[x].prefix@) == p);
                        if x != i {
                            assert(pviews(new_ts[x].prefix@) == p);
                        }
                    }
                }
                assert forall|p: Seq<Seq<char>>, d: Seq<char>| #[trigger] tcount(new_ts, p, d)
                    == tcount(old_ts, p, d) + (if p == pv && d == wv {
                    1int
                } else {
                    0int
                }) by {
                    if p == pv {
                        lemma_tindex_unique(old_ts, pv, i as int);
                        lemma_tindex_unique(new_ts, pv, i as int);
                    } else {
                        if thas(new_ts, p) {
                            let x = tindex(new_ts, p);
                            assert(0 <= x < new_ts.len() && pviews(new_ts[x].prefix@) == p);
                            assert(x != i);
                            assert(pviews(old_ts[x].prefix@) == p);
                            lemma_tindex_unique(old_ts, p, x);
                            lemma_tindex_unique(new_ts, p, x);
                        } else {
                            assert(!thas(old_ts, p)) by {
                                if thas(old_ts, p) {
                                    let x = tindex(old_ts, p);
                                    assert(0 <= x < old_ts.len() && pviews(old_ts[x].prefix@) == p);
                                    assert(x != i);
                                    assert(pviews(new_ts[x].prefix@) == p);
                                }
                            }
                        }
                    }
                }
                assert forall|p: Seq<Seq<char>>| #[trigger] ttotal(new_ts, p) == ttotal(old_ts, p)
                    + (if p == pv {
                    1int
                } else {
                    0int
                }) by {
                    if p == pv {
                        lemma_tindex_unique(old_ts, pv, i as int);
                        lemma_tindex_unique(new_ts, pv, i as int);
                    } else {
                        if thas(new_ts, p) {
                            let x = tindex(new_ts, p);
                            assert(0 <= x < new_ts.len() && pviews(new_ts[x].prefix@) == p);
                            assert(x != i);
                            assert(pviews(old_ts[x].prefix@) == p);
                            lemma_tindex_unique(old_ts, p, x);
                            lemma_tindex_unique(new_ts, p, x);
                        } else {
                            assert(!thas(old_ts, p)) by {
                                if thas(old_ts, p) {
                                    let x = tindex(old_ts, p);
                                    assert(0 <= x < old_ts.len() && pviews(old_ts[x].prefix@) == p);
                                    assert(x != i);
                                    assert(pviews(new_ts[x].prefix@) == p);
                                }
                            }
                        }
                    }
                }
            }
        },
        None => {
            let mut counts: Vec<(String, u64)> = Vec::new();
            counts.push((w, 1));
            proof {
                assert(counts@.drop_first() =~= Seq::<(String, u64)>::empty());
                assert(wsum(Seq::<(String, u64)>::empty()) == 0);
                assert(wsum(counts@) == 1);
                assert(counts@[0].0@ == wv);
                lemma_windex_unique(counts@, wv, 0);
            }
            let table = WordTable { prefix, counts, total: 1 };
            ts.push(table);
            proof {
                let new_ts = ts@;
                assert(pviews(new_ts[old_ts.len() as int].prefix@) == pv);
                assert forall|a: int, b: int| 0 <= a < b < new_ts.len() implies pviews(
                    new_ts[a].prefix@,
                ) != pviews(new_ts[b].prefix@) by {
                    if b == old_ts.len() {
                        assert(!thas(old_ts, pv));
                        assert(pviews(old_ts[a].prefix@) == pviews(new_ts[a].prefix@));
                    }
                }
                lemma_tindex_unique(new_ts, pv, old_ts.len() as int);
                assert forall|p: Seq<Seq<char>>| #[trigger] thas(new_ts, p) == (thas(old_ts, p) || p
                    == pv) by {
                    if thas(new_ts, p) {
                        let x = tindex(new_ts, p);
                        assert(0 <= x < new_ts.len() && pviews(new_ts[x].prefix@) == p);
                        if x < old_ts.len() {
                            assert(pviews(old_ts[x].prefix@) == p);
                        }
                    }
                    if thas(old_ts, p) {
                        let x = tindex(old_ts, p);
                        assert(0 <= x < old_ts.len() && pviews(old_ts[x].prefix@) == p);
                        assert(pviews(new_ts[x].prefix@) == p);
                    }
                }
                assert forall|p: Seq<Seq<char>>, d: Seq<char>| #[trigger] tcount(new_ts, p, d)
                    == tcount(old_ts, p, d) + (if p == pv && d == wv {
                    1int
                } else {
                    0int
                }) by {
                    if p == pv {
                        assert(tcount(old_ts, p, d) == 0);
                        lemma_tindex_unique(new_ts, pv, old_ts.len() as int);
                        if d != wv {
                            assert(!whas(counts@, d));
                        }
                    } else {
                        if thas(new_ts, p) {
                            let x = tindex(new_ts, p);
                            assert(0 <= x < new_ts.len() && pviews(new_ts[x].prefix@) == p);
                            assert(x < old_ts.len());
                            assert(pviews(old_ts[x].prefix@) == p);
                            lemma_tindex_unique(old_ts, p, x);
                            lemma_tindex_unique(new_ts, p, x);
                        } else {
                            assert(!thas(old_ts, p)) by {
                                if thas(old_ts, p) {
                                    let x = tindex(old_ts, p);
                                    assert(0 <= x < old_ts.len() && pviews(old_ts[x].prefix@) == p);
                                    assert(pviews(new_ts[x].prefix@) == p);
                                }
                            }
                        }
                    }
                }
                assert forall|p: Seq<Seq<char>>| #[trigger] ttotal(new_ts, p) == ttotal(old_ts, p)
                    + (if p == pv {
                    1int
                } else {
                    0int
                }) by {
                    if p == pv {
                        lemma_tindex_unique(new_ts, pv, old_ts.len() as int);
                    } else {
                        if thas(new_ts, p) {
                            let x = tindex(new_ts, p);
                            assert(0 <= x < new_ts.len() && pviews(new_ts[x].prefix@) == p);
                            assert(x < old_ts.len());
                            assert(pviews(old_ts[x].prefix@) == p);
                            lemma_tindex_unique(old_ts, p, x);
                            lemma_tindex_unique(new_ts, p, x);
                        } else {
                            assert(!thas(old_ts, p)) by {
                                if thas(old_ts, p) {
                                    let x = tindex(old_ts, p);
                                    assert(0 <= x < old_ts.len() && pviews(old_ts[x].prefix@) == p);
                                    assert(pviews(new_ts[x].prefix@) == p);
                                }
                            }
                        }
                    }
                }
            }
        },
    }
}

/// The window of `d + 1` words starting at position `t`.
pub open spec fn window_at(wv: Seq<Seq<char>>, d: nat, t: int) -> Seq<Seq<char>> {
    wv.subrange(t, t + d + 1)
}

/// Inserting the window `win` bumps the pair (`p`, `w`): `p` is a proper
/// prefix of the window and `w` is the window's word right after it.
pub open spec fn bumps(win: Seq<Seq<char>>, p: Seq<Seq<char>>, w: Seq<char>) -> bool {
    &&& p.len() < win.len()
    &&& win.subrange(0, p.len() as int) == p
    &&& win[p.len() as int] == w
}

/// Inserting the window `win` raises the total of prefix `p`.
pub open spec fn extends(win: Seq<Seq<char>>, p: Seq<Seq<char>>) -> bool {
    &&& p.len() < win.len()
    &&& win.subrange(0, p.len() as int) == p
}

/// The count the first `i` windows of depth `d` give the pair (`p`, `w`).
pub open spec fn built_count(
    wv: Seq<Seq<char>>,
    d: nat,
    p: Seq<Seq<char>>,
    w: Seq<char>,
    i: int,
) -> nat
    decreases i,
{
    if i <= 0 {
        0
    } else {
        built_count(wv, d, p, w, i - 1) + (if bumps(window_at(wv, d, i - 1), p, w) {
            1nat
        } else {
            0nat
        })
    }
}

/// The total the first `i` windows of depth `d` give the prefix `p`.
pub open spec fn built_total(wv: Seq<Seq<char>>, d: nat, p: Seq<Seq<char>>, i: int) -> nat
    decreases i,
{
    if i <= 0 {
        0
    } else {
        built_total(wv, d, p, i - 1) + (if extends(window_at(wv, d, i - 1), p) {
            1nat
        } else {
            0nat
        })
    }
}

/// How many windows of depth `d` are inserted for a word stream: every full
/// window except the last one.
pub open spec fn num_windows(wv: Seq<Seq<char>>, d: nat) -> int {
    if wv.len() > d + 1 {
        wv.len() - (d + 1)
    } else {
        0
    }
}

/// A total built from `i` windows never exceeds `i`.
proof fn lemma_built_total_bound(wv: Seq<Seq<char>>, d: nat, p: Seq<Seq<char>>, i: int)
    ensures
        built_total(wv, d, p, i) <= (if i >= 0 {
            i as nat
        } else {
            0nat
        }),
    decreases i,
{
    if i > 0 {
        lemma_built_total_bound(wv, d, p, i - 1);
    }
}

/// The word the weighted draw `draw` lands on, by its characters.
pub open spec fn wpick_spec(counts: Seq<(String, u64)>, draw: int) -> Seq<char>
    decreases counts.len(),
{
    if counts.len() == 0 {
        arbitrary()
    } else if draw < counts[0].1 {
        counts[0].0@
    } else {
        wpick_spec(counts.drop_first(), draw - counts[0].1)
    }
}

/// Walks the counts, subtracting each from the draw, and returns the word
/// whose span the draw falls in.
fn wpick(counts: &Vec<(String, u64)>, draw: u64) -> (r: String)
    requires
        (draw as nat) < wsum(counts@),
        wsum(counts@) <= u64::MAX,
    ensures
        r@ == wpick_spec(counts@, draw as int),
        whas(counts@, r@),
{
    let mut i: usize = 0;
    let mut rem: u64 = draw;
    let _len = counts.len();
    proof {
        assert(counts@.skip(0) =~= counts@);
    }
    loop
        invariant
            0 <= i <= counts@.len(),
            counts@.len() == _len,
            (rem as nat) < wsum(counts@.skip(i as int)),
            wsum(counts@.skip(i as int)) <= u64::MAX,
            wpick_spec(counts@.skip(i as int), rem as int) == wpick_spec(counts@, draw as int),
        decreases counts@.len() - i,
    {
        proof {
            assert(i < counts@.len()) by {
                if i == counts@.len() {
                    assert(counts@.skip(i as int) =~= Seq::<(String, u64)>::empty());
                }
            }
            assert(counts@.skip(i as int).drop_first() =~= counts@.skip(i as int + 1));
            assert(counts@.skip(i as int)[0] == counts@[i as int]);
        }
        let n = counts[i].1;
        if rem < n {
            proof {
                assert(wpick_spec(counts@.skip(i as int), rem as int) == counts@[i as int].0@);
                assert(0 <= i < counts@.len() && counts@[i as int].0@ == counts@[i as int].0@);
                assert(whas(counts@, counts@[i as int].0@));
            }
            return counts[i].0.clone();
        }
        rem = rem - n;
        i = i + 1;
        proof {
            lemma_wcount_at_le_sum(counts@.skip(i as int - 1), 0);
        }
    }
}

/// Copies the words of `v` in positions `a..b`.
fn copy_words(v: &Vec<String>, a: usize, b: usize) -> (r: Vec<String>)
    requires
        a <= b <= v@.len(),
    ensures
        pviews(r@) == pviews(v@).subrange(a as int, b as int),
        r@.len() == b - a,
{
    let mut r: Vec<String> = Vec::new();
    let mut j: usize = a;
    while j < b
        invariant
            a <= j <= b <= v@.len(),
            r@.len() == j - a,
            forall|m: int| 0 <= m < r@.len() ==> r@[m]@ == v@[a + m]@,
        decreases b - j,
    {
        r.push(v[j].clone());
        j = j + 1;
    }
    proof {
        assert(pviews(r@) =~= pviews(v@).subrange(a as int, b as int));
    }
    r
}

/// The words of a string, as str::split_whitespace yields them: maximal runs
/// of non-whitespace characters, in order.
pub uninterp spec fn words_of(s: Seq<char>) -> Seq<Seq<char>>;

/// Relies on str::split_whitespace: the words of a string are a function of
/// its characters alone.
#[verifier::external_body]
fn split_words(text: &str) -> (r: Vec<String>)
    ensures
        pviews(r@) == words_of(text@),
{
    text.split_whitespace().map(|w| w.to_string()).collect()
}

/// Word-level statistics over a text: for each run of up to `depth`
/// preceding words, how often each word follows that run.
pub struct TextStatistics {
    /// One frequency table per observed run of preceding words.
    pub tables: Vec<WordTable>,
}

impl TextStatistics {
    /// The tables are well-formed: distinct prefixes, positive counts for
    /// distinct words, exact totals.
    pub open spec fn wf(self) -> bool {
        twf(self.tables@)
    }

    /// How often the word `w` was seen following the run `p`.
    pub open spec fn count(self, p: Seq<Seq<char>>, w: Seq<char>) -> nat {
        tcount(self.tables@, p, w)
    }

    /// How many times any word was seen following the run `p`.
    pub open spec fn total(self, p: Seq<Seq<char>>) -> nat {
        ttotal(self.tables@, p)
    }

    /// Empty statistics.
    fn new() -> (r: TextStatistics)
        ensures
            r.wf(),
            forall|p: Seq<Seq<char>>| !thas(r.tables@, p),
    {
        TextStatistics { tables: Vec::new() }
    }

    /// Records one instance: for every proper prefix of `words`, bumps the
    /// count of the word that follows the prefix.
    fn insert_instance(&mut self, words: &Vec<String>)
        requires
            old(self).wf(),
            forall|p: Seq<Seq<char>>| #[trigger] ttotal(old(self).tables@, p) < u64::MAX,
        ensures
            final(self).wf(),
            forall|p: Seq<Seq<char>>, w: Seq<char>|
                #[trigger] tcount(final(self).tables@, p, w) == tcount(old(self).tables@, p, w) + (
                if bumps(pviews(words@), p, w) {
                    1int
                } else {
                    0int
                }),
            forall|p: Seq<Seq<char>>|
                #[trigger] ttotal(final(self).tables@, p) == ttotal(old(self).tables@, p) + (
                if extends(pviews(words@), p) {
                    1int
                } else {
                    0int
                }),
    {
        let ghost wv = pviews(words@);
        let ghost orig = self.tables@;
        let mut i: usize = 0;
        while i < words.len()
            invariant
                wv == pviews(words@),
                orig == old(self).tables@,
                forall|p: Seq<Seq<char>>| #[trigger] ttotal(orig, p) < u64::MAX,
                i <= words@.len(),
                twf(self.tables@),
                forall|p: Seq<Seq<char>>, w: Seq<char>|
                    #[trigger] tcount(self.tables@, p, w) == tcount(orig, p, w) + (if p.len() < i
                        && bumps(wv, p, w) {
                        1int
                    } else {
                        0int
                    }),
                forall|p: Seq<Seq<char>>|
                    #[trigger] ttotal(self.tables@, p) == ttotal(orig, p) + (if p.len() < i
                        && extends(wv, p) {
                        1int
                    } else {
                        0int
                    }),
            decreases words@.len() - i,
        {
            let prefix = copy_words(words, 0, i);
            let w = words[i].clone();
            let ghost pv = pviews(prefix@);
            proof {
                assert(pv =~= wv.subrange(0, i as int));
                assert(ttotal(self.tables@, pv) < u64::MAX) by {
                    assert(pv.len() == i);
                    assert(ttotal(orig, pv) < u64::MAX);
                }
            }
            let ghost pre = self.tables@;
            wtally(&mut self.tables, prefix, w);
            proof {
                assert forall|p: Seq<Seq<char>>, w2: Seq<char>| #[trigger] tcount(
                    self.tables@,
                    p,
                    w2,
                ) == tcount(orig, p, w2) + (if p.len() < i + 1 && bumps(wv, p, w2) {
                    1int
                } else {
                    0int
                }) by {
                    assert(tcount(self.tables@, p, w2) == tcount(pre, p, w2) + (if p == pv && w2
                        == wv[i as int] {
                        1int
                    } else {
                        0int
                    }));
                    if p.len() == i && bumps(wv, p, w2) {
                        assert(p =~= wv.subrange(0, i as int));
                        assert(p == pv && w2 == wv[i as int]);
                    }
                    if p == pv && w2 == wv[i as int] {
                        assert(p.len() == i && bumps(wv, p, w2));
                    }
                }
                assert forall|p: Seq<Seq<char>>| #[trigger] ttotal(self.tables@, p) == ttotal(
                    orig,
                    p,
                ) + (if p.len() < i + 1 && extends(wv, p) {
                    1int
                } else {
                    0int
                }) by {
                    assert(ttotal(self.tables@, p) == ttotal(pre, p) + (if p == pv {
                        1int
                    } else {
                        0int
                    }));
                    if p.len() == i && extends(wv, p) {
                        assert(p =~= wv.subrange(0, i as int));
                        assert(p == pv);
                    }
                    if p == pv {
                        assert(p.len() == i && extends(wv, p));
                    }
                }
            }
            i = i + 1;
        }
        proof {
            assert forall|p: Seq<Seq<char>>, w: Seq<char>| #[trigger] tcount(self.tables@, p, w)
                == tcount(orig, p, w) + (if bumps(wv, p, w) {
                1int
            } else {
                0int
            }) by {
                if bumps(wv, p, w) {
                    assert(p.len() < wv.len());
                }
            }
            assert forall|p: Seq<Seq<char>>| #[trigger] ttotal(self.tables@, p) == ttotal(orig, p)
                + (if extends(wv, p) {
                1int
            } else {
                0int
            }) by {
                if extends(wv, p) {
                    assert(p.len() < wv.len());
                }
            }
        }
    }

    /// Builds word statistics from a word stream: slides a window of
    /// `depth + 1` words along the stream and records each full window but
    /// the last as one instance.
    pub fn new_from_words(words: &Vec<String>, depth: u32) -> (r: TextStatistics)
        requires
            depth + 1 <= usize::MAX,
        ensures
            r.wf(),
            forall|p: Seq<Seq<char>>, w: Seq<char>|
                #[trigger] r.count(p, w) == built_count(
                    pviews(words@),
                    depth as nat,
                    p,
                    w,
                    num_windows(pviews(words@), depth as nat),
                ),
            forall|p: Seq<Seq<char>>|
                #[trigger] r.total(p) == built_total(
                    pviews(words@),
                    depth as nat,
                    p,
                    num_windows(pviews(words@), depth as nat),
                ),
    {
        let ghost wv = pviews(words@);
        let ghost d = depth as nat;
        let mut stats = TextStatistics::new();
        let win = (depth as usize) + 1;
        let m = words.len();
        if m > win {
            let count = m - win;
            let mut t: usize = 0;
            while t < count
                invariant
                    wv == pviews(words@),
                    d == depth as nat,
                    m == words@.len(),
                    win == d + 1,
                    count == m - win,
                    t <= count,
                    stats.wf(),
                    forall|p: Seq<Seq<char>>, w: Seq<char>|
                        #[trigger] tcount(stats.tables@, p, w) == built_count(wv, d, p, w, t as int),
                    forall|p: Seq<Seq<char>>|
                        #[trigger] ttotal(stats.tables@, p) == built_total(wv, d, p, t as int),
                decreases count - t,
            {
                let window = copy_words(words, t, t + win);
                proof {
                    assert(pviews(window@) == window_at(wv, d, t as int));
                    assert forall|p: Seq<Seq<char>>| #[trigger] ttotal(stats.tables@, p)
                        < u64::MAX by {
                        lemma_built_total_bound(wv, d, p, t as int);
                    }
                }
                let ghost pre = stats;
                stats.insert_instance(&window);
                proof {
                    assert forall|p: Seq<Seq<char>>, w: Seq<char>| #[trigger] tcount(
                        stats.tables@,
                        p,
                        w,
                    ) == built_count(wv, d, p, w, t + 1int) by {
                        assert(built_count(wv, d, p, w, t + 1int) == built_count(wv, d, p, w, t as int)
                            + (if bumps(window_at(wv, d, t as int), p, w) {
                            1nat
                        } else {
                            0nat
                        }));
                    }
                    assert forall|p: Seq<Seq<char>>| #[trigger] ttotal(stats.tables@, p)
                        == built_total(wv, d, p, t + 1int) by {
                        assert(built_total(wv, d, p, t + 1int) == built_total(wv, d, p, t as int) + (
                        if extends(window_at(wv, d, t as int), p) {
                            1nat
                        } else {
                            0nat
                        }));
                    }
                }
                t = t + 1;
            }
            stats
        } else {
            proof {
                assert(num_windows(wv, d) == 0);
                assert forall|p: Seq<Seq<char>>, w: Seq<char>| #[trigger] tcount(
                    stats.tables@,
                    p,
                    w,
                ) == built_count(wv, d, p, w, 0) by {
                    assert(!thas(stats.tables@, p));
                }
                assert forall|p: Seq<Seq<char>>| #[trigger] ttotal(stats.tables@, p) == built_total(
                    wv,
                    d,
                    p,
                    0,
                ) by {
                    assert(!thas(stats.tables@, p));
                }
            }
            stats
        }
    }

    /// Builds a TextStatistics struct from the given source text: splits it
    /// on whitespace and records the sliding windows of its words.
    pub fn new_from_text(text: &str, depth: u32) -> (r: TextStatistics)
        requires
            depth + 1 <= usize::MAX,
        ensures
            r.wf(),
            forall|p: Seq<Seq<char>>, w: Seq<char>|
                #[trigger] r.count(p, w) == built_count(
                    words_of(text@),
                    depth as nat,
                    p,
                    w,
                    num_windows(words_of(text@), depth as nat),
                ),
            forall|p: Seq<Seq<char>>|
                #[trigger] r.total(p) == built_total(
                    words_of(text@),
                    depth as nat,
                    p,
                    num_windows(words_of(text@), depth as nat),
                ),
    {
        let words = split_words(text);
        TextStatistics::new_from_words(&words, depth)
    }

    /// Returns a word from the source text that was seen following the given
    /// run of words: `Some` exactly when the run was recorded with any
    /// continuation at all, and then a word whose count after the run is
    /// positive.
    pub fn random_word_from_word_list(&self, words: &Vec<String>) -> (r: Option<String>)
        requires
            self.wf(),
        ensures
            self.total(pviews(words@)) > 0 ==> (r matches Some(w) && self.count(
                pviews(words@),
                w@,
            ) > 0),
            self.total(pviews(words@)) == 0 ==> r is None,
    {
        let ghost pv = pviews(words@);
        match find_table(&self.tables, words) {
            Some(i) => {
                proof {
                    lemma_tindex_unique(self.tables@, pv, i as int);
                }
                let total = self.tables[i].total;
                if total > 0 {
                    let draw = draw_below(total);
                    let w = wpick(&self.tables[i].counts, draw);
                    proof {
                        let counts = self.tables@[i as int].counts@;
                        let x = windex(counts, w@);
                        assert(0 <= x < counts.len() && counts[x].0@ == w@);
                        lemma_windex_unique(counts, w@, x);
                        assert(wcount(counts, w@) >= 1);
                    }
                    Some(w)
                } else {
                    None
                }
            },
            None => None,
        }
    }

    /// Returns a random word, weighted by how often each word opens a
    /// recorded window.
    pub fn random_word(&self) -> (r: String)
        requires
            self.wf(),
            self.total(Seq::<Seq<char>>::empty()) > 0,
        ensures
            self.count(Seq::<Seq<char>>::empty(), r@) > 0,
    {
        let empty: Vec<String> = Vec::new();
        let r = self.random_word_from_word_list(&empty);
        proof {
            assert(pviews(empty@) =~= Seq::<Seq<char>>::empty());
        }
        r.unwrap()
    }

    /// Returns a word following the longest recorded suffix of the given
    /// run: drops words from the front until some suffix has data, falling
    /// back to the empty run, which the premise guarantees has data.
    pub fn random_word_from_word_list_graceful(&self, words: &Vec<String>) -> (r: String)
        requires
            self.wf(),
            self.total(Seq::<Seq<char>>::empty()) > 0,
        ensures
            exists|i: int|
                0 <= i <= words@.len() && (forall|j: int|
                    0 <= j < i ==> self.total(pviews(words@).skip(j)) == 0) && #[trigger] self.count(
                    pviews(words@).skip(i),
                    r@,
                ) > 0,
    {
        let n = words.len();
        let mut i: usize = 0;
        while i < n
            invariant
                i <= n,
                n == words@.len(),
                self.wf(),
                self.total(Seq::<Seq<char>>::empty()) > 0,
                forall|j: int| 0 <= j < i ==> self.total(pviews(words@).skip(j)) == 0,
            decreases n - i,
        {
            let sub = copy_words(words, i, n);
            proof {
                assert(pviews(sub@) =~= pviews(words@).skip(i as int));
            }
            match self.random_word_from_word_list(&sub) {
                Some(w) => {
                    proof {
                        assert(self.total(pviews(words@).skip(i as int)) > 0);
                        assert(self.count(pviews(words@).skip(i as int), w@) > 0);
                    }
                    return w;
                },
                None => {
                    proof {
                        assert(self.total(pviews(words@).skip(i as int)) == 0);
                    }
                },
            }
            i = i + 1;
        }
        let empty: Vec<String> = Vec::new();
        let r = self.random_word_from_word_list(&empty);
        proof {
            assert(pviews(empty@) =~= Seq::<Seq<char>>::empty());
            assert(pviews(words@).skip(n as int) =~= Seq::<Seq<char>>::empty());
            assert(self.count(pviews(words@).skip(n as int), r->Some_0@) > 0);
        }
        r.unwrap()
    }
}

} // verus!
