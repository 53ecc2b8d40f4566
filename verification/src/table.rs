//! The frequency table: a list of entries, one per stored context key, each
//! holding the continuation characters seen after that key with their
//! occurrence counts and their precomputed sum.

use vstd::prelude::*;

verus! {

/// One stored context with its continuation counts.
pub struct Entry {
    /// The context key, as the run of characters it consists of.
    pub key: Vec<char>,
    /// Each continuation character seen after the key, with its count.
    pub counts: Vec<(char, u64)>,
    /// The sum of all counts, kept alongside to answer totals directly.
    pub total: u64,
}

/// Some pair in `counts` carries the character `c`.
pub open spec fn has_char(counts: Seq<(char, u64)>, c: char) -> bool {
    exists|i: int| 0 <= i < counts.len() && counts[i].0 == c
}

/// The position of the pair carrying `c`.
pub open spec fn char_index(counts: Seq<(char, u64)>, c: char) -> int {
    choose|i: int| 0 <= i < counts.len() && counts[i].0 == c
}

/// No two pairs carry the same character.
pub open spec fn chars_distinct(counts: Seq<(char, u64)>) -> bool {
    forall|i: int, j: int| 0 <= i < j < counts.len() ==> counts[i].0 != counts[j].0
}

/// The count recorded for `c`, zero where `c` carries no pair.
pub open spec fn count_in(counts: Seq<(char, u64)>, c: char) -> nat {
    if has_char(counts, c) {
        counts[char_index(counts, c)].1 as nat
    } else {
        0
    }
}

/// The sum of all recorded counts.
pub open spec fn sum_counts(counts: Seq<(char, u64)>) -> nat
    decreases counts.len(),
{
    if counts.len() == 0 {
        0
    } else {
        counts[0].1 as nat + sum_counts(counts.drop_first())
    }
}

/// A well-formed count list: distinct characters, positive counts.
pub open spec fn counts_wf(counts: Seq<(char, u64)>) -> bool {
    &&& chars_distinct(counts)
    &&& forall|i: int| 0 <= i < counts.len() ==> (#[trigger] counts[i]).1 >= 1
}

/// A well-formed entry: well-formed counts whose sum is `total`.
pub open spec fn entry_wf(e: Entry) -> bool {
    &&& counts_wf(e.counts@)
    &&& e.total == sum_counts(e.counts@)
}

/// Some entry of `t` holds the key `key`.
pub open spec fn table_has(t: Seq<Entry>, key: Seq<char>) -> bool {
    exists|i: int| 0 <= i < t.len() && t[i].key@ == key
}

/// The position of the entry holding `key`.
pub open spec fn table_index(t: Seq<Entry>, key: Seq<char>) -> int {
    choose|i: int| 0 <= i < t.len() && t[i].key@ == key
}

/// No two entries hold the same key.
pub open spec fn keys_distinct(t: Seq<Entry>) -> bool {
    forall|i: int, j: int| 0 <= i < j < t.len() ==> t[i].key@ != t[j].key@
}

/// The count recorded in `t` for continuation `c` of `key`; zero where the
/// key or the continuation is absent.
pub open spec fn table_count(t: Seq<Entry>, key: Seq<char>, c: char) -> nat {
    if table_has(t, key) {
        count_in(t[table_index(t, key)].counts@, c)
    } else {
        0
    }
}

/// The sum of counts recorded in `t` for `key`; zero where the key is absent.
pub open spec fn table_total(t: Seq<Entry>, key: Seq<char>) -> nat {
    if table_has(t, key) {
        t[table_index(t, key)].total as nat
    } else {
        0
    }
}

/// Every entry of `t` is well-formed.
pub open spec fn table_wf(t: Seq<Entry>) -> bool {
    &&& keys_distinct(t)
    &&& forall|i: int| 0 <= i < t.len() ==> entry_wf(#[trigger] t[i])
}

/// With distinct characters, any pair carrying `c` is the pair `count_in`
/// reads.
pub proof fn lemma_char_index_unique(counts: Seq<(char, u64)>, c: char, i: int)
    requires
        chars_distinct(counts),
        0 <= i < counts.len(),
        counts[i].0 == c,
    ensures
        char_index(counts, c) == i,
        count_in(counts, c) == counts[i].1,
{
    let w = char_index(counts, c);
    assert(0 <= w < counts.len() && counts[w].0 == c);
}

/// With distinct keys, any entry holding `key` is the entry the table reads.
pub proof fn lemma_table_index_unique(t: Seq<Entry>, key: Seq<char>, i: int)
    requires
        keys_distinct(t),
        0 <= i < t.len(),
        t[i].key@ == key,
    ensures
        table_index(t, key) == i,
        table_has(t, key),
{
    let w = table_index(t, key);
    assert(0 <= w < t.len() && t[w].key@ == key);
}

/// A sum of positive counts is at least the number of pairs.
pub proof fn lemma_sum_counts_ge_len(counts: Seq<(char, u64)>)
    requires
        forall|i: int| 0 <= i < counts.len() ==> (#[trigger] counts[i]).1 >= 1,
    ensures
        sum_counts(counts) >= counts.len(),
    decreases counts.len(),
{
    if counts.len() > 0 {
        lemma_sum_counts_ge_len(counts.drop_first());
    }
}

/// Appending a pair adds its count to the sum.
pub proof fn lemma_sum_counts_push(counts: Seq<(char, u64)>, p: (char, u64))
    ensures
        sum_counts(counts.push(p)) == sum_counts(counts) + p.1,
    decreases counts.len(),
{
    if counts.len() == 0 {
        assert(counts.push(p).drop_first() =~= counts);
    } else {
        assert(counts.push(p).drop_first() =~= counts.drop_first().push(p));
        lemma_sum_counts_push(counts.drop_first(), p);
    }
}

/// Raising one pair's count raises the sum by the same amount.
pub proof fn lemma_sum_counts_update(counts: Seq<(char, u64)>, i: int, v: u64)
    requires
        0 <= i < counts.len(),
    ensures
        sum_counts(counts.update(i, (counts[i].0, v))) == sum_counts(counts) - counts[i].1 + v,
    decreases counts.len(),
{
    let upd = counts.update(i, (counts[i].0, v));
    if i == 0 {
        assert(upd.drop_first() =~= counts.drop_first());
    } else {
        assert(upd.drop_first() =~= counts.drop_first().update(i - 1, (counts[i].0, v)));
        lemma_sum_counts_update(counts.drop_first(), i - 1, v);
    }
}

/// The count of the pair at position `i` is bounded by the sum.
proof fn lemma_count_at_le_sum(counts: Seq<(char, u64)>, i: int)
    requires
        0 <= i < counts.len(),
    ensures
        counts[i].1 <= sum_counts(counts),
    decreases counts.len(),
{
    if i > 0 {
        lemma_count_at_le_sum(counts.drop_first(), i - 1);
    }
}

/// Finds the position of the pair carrying `c`, if any.
pub fn find_char(counts: &Vec<(char, u64)>, c: char) -> (r: Option<usize>)
    ensures
        match r {
            Some(i) => i < counts@.len() && counts@[i as int].0 == c,
            None => !has_char(counts@, c),
        },
{
    let mut i: usize = 0;
    while i < counts.len()
        invariant
            i <= counts@.len(),
            forall|m: int| 0 <= m < i ==> counts@[m].0 != c,
        decreases counts@.len() - i,
    {
        if counts[i].0 == c {
            return Some(i);
        }
        i = i + 1;
    }
    None
}

/// Records one more occurrence of the continuation `c`: raises its count, or
/// starts it at one.
pub fn bump_count(counts: &mut Vec<(char, u64)>, c: char)
    requires
        counts_wf(old(counts)@),
        sum_counts(old(counts)@) < u64::MAX,
    ensures
        counts_wf(final(counts)@),
        count_in(final(counts)@, c) == count_in(old(counts)@, c) + 1,
        forall|d: char| d != c ==> count_in(final(counts)@, d) == count_in(old(counts)@, d),
        forall|d: char| has_char(final(counts)@, d) == (has_char(old(counts)@, d) || d == c),
        sum_counts(final(counts)@) == sum_counts(old(counts)@) + 1,
{
    let ghost old_counts = counts@;
    match find_char(counts, c) {
        Some(i) => {
            proof {
                lemma_char_index_unique(old_counts, c, i as int);
                lemma_count_at_le_sum(old_counts, i as int);
            }
            let n = counts[i].1;
            counts.set(i, (c, n + 1));
            proof {
                lemma_sum_counts_update(old_counts, i as int, (n + 1) as u64);
                assert forall|d: char| has_char(counts@, d) == (has_char(old_counts, d) || d
                    == c) by {
                    if has_char(counts@, d) {
                        let w = char_index(counts@, d);
                        assert(0 <= w < old_counts.len());
                        if w != i {
                            assert(old_counts[w].0 == d);
                        }
                    }
                    if has_char(old_counts, d) {
                        let w = char_index(old_counts, d);
                        if w != i {
                            assert(counts@[w].0 == d);
                        } else {
                            assert(counts@[w].0 == c && d == c);
                        }
                    }
                    if d == c {
                        assert(counts@[i as int].0 == c);
                    }
                }
                assert forall|d: char| #![auto] d != c implies count_in(counts@, d) == count_in(
                    old_counts,
                    d,
                ) by {
                    if has_char(counts@, d) {
                        let w = char_index(counts@, d);
                        assert(w != i);
                        assert(old_counts[w].0 == d);
                        lemma_char_index_unique(old_counts, d, w);
                        lemma_char_index_unique(counts@, d, w);
                    }
                }
                lemma_char_index_unique(counts@, c, i as int);
            }
        },
        None => {
            proof {
                lemma_sum_counts_push(old_counts, (c, 1u64));
            }
            counts.push((c, 1));
            proof {
                assert(counts@[old_counts.len() as int].0 == c);
                assert forall|d: char| has_char(counts@, d) == (has_char(old_counts, d) || d
                    == c) by {
                    if has_char(counts@, d) {
                        let w = char_index(counts@, d);
                        if w < old_counts.len() {
                            assert(old_counts[w].0 == d);
                        }
                    }
                    if has_char(old_counts, d) {
                        let w = char_index(old_counts, d);
                        assert(counts@[w].0 == d);
                    }
                }
                assert(chars_distinct(counts@)) by {
                    assert forall|i: int, j: int| 0 <= i < j < counts@.len() implies counts@[i].0
                        != counts@[j].0 by {
                        if j < old_counts.len() {
                        } else {
                            assert(counts@[j].0 == c);
                            assert(!has_char(old_counts, c));
                            assert(old_counts[i].0 == counts@[i].0);
                        }
                    }
                }
                lemma_char_index_unique(counts@, c, old_counts.len() as int);
                assert(count_in(old_counts, c) == 0);
                assert forall|d: char| #![auto] d != c implies count_in(counts@, d) == count_in(
                    old_counts,
                    d,
                ) by {
                    if has_char(counts@, d) {
                        let w = char_index(counts@, d);
                        assert(w < old_counts.len());
                        assert(old_counts[w].0 == d);
                        lemma_char_index_unique(old_counts, d, w);
                        lemma_char_index_unique(counts@, d, w);
                    }
                }
            }
        },
    }
}

/// Compares two character runs.
pub fn keys_equal(a: &Vec<char>, b: &Vec<char>) -> (r: bool)
    ensures
        r == (a@ == b@),
{
    if a.len() != b.len() {
        return false;
    }
    let mut i: usize = 0;
    while i < a.len()
        invariant
            a@.len() == b@.len(),
            i <= a@.len(),
            forall|m: int| 0 <= m < i ==> a@[m] == b@[m],
        decreases a@.len() - i,
    {
        if a[i] != b[i] {
            return false;
        }
        i = i + 1;
    }
    proof {
        assert(a@ =~= b@);
    }
    true
}

/// Finds the position of the entry holding `key`, if any.
pub fn find_entry(t: &Vec<Entry>, key: &Vec<char>) -> (r: Option<usize>)
    ensures
        match r {
            Some(i) => i < t@.len() && t@[i as int].key@ == key@ && table_has(t@, key@),
            None => !table_has(t@, key@),
        },
{
    let mut i: usize = 0;
    while i < t.len()
        invariant
            i <= t@.len(),
            forall|m: int| 0 <= m < i ==> t@[m].key@ != key@,
        decreases t@.len() - i,
    {
        if keys_equal(&t[i].key, key) {
            return Some(i);
        }
        i = i + 1;
    }
    None
}

/// Records one occurrence of continuation `c` after `key`: bumps the count
/// in the entry holding `key`, or starts a fresh entry for it.
pub fn tally(t: &mut Vec<Entry>, key: Vec<char>, c: char)
    requires
        table_wf(old(t)@),
        table_total(old(t)@, key@) < u64::MAX,
    ensures
        table_wf(final(t)@),
        forall|k2: Seq<char>|
            #[trigger] table_has(final(t)@, k2) == (table_has(old(t)@, k2) || k2 == key@),
        forall|k2: Seq<char>, d: char|
            #[trigger] table_count(final(t)@, k2, d) == table_count(old(t)@, k2, d) + (
            if k2 == key@ && d == c {
                1int
            } else {
                0int
            }),
        forall|k2: Seq<char>|
            #[trigger] table_total(final(t)@, k2) == table_total(old(t)@, k2) + (if k2 == key@ {
                1int
            } else {
                0int
            }),
{
    let ghost old_t = t@;
    let ghost key_s = key@;
    match find_entry(t, &key) {
        Some(i) => {
            proof {
                lemma_table_index_unique(old_t, key_s, i as int);
                lemma_count_le_sum_all(old_t[i as int].counts@);
            }
            let e = &mut t[i];
            let ghost old_e = *e;
            bump_count(&mut e.counts, c);
            e.total = e.total + 1;
            proof {
                let new_t = t@;
                assert(new_t =~= old_t.update(i as int, new_t[i as int]));
                assert(new_t[i as int].key@ == key_s);
                assert(entry_wf(new_t[i as int]));
                assert forall|m: int| 0 <= m < new_t.len() && m != i implies new_t[m] == old_t[m] by {}
                assert(keys_distinct(new_t)) by {
                    assert forall|a: int, b: int| 0 <= a < b < new_t.len() implies new_t[a].key@
                        != new_t[b].key@ by {
                        assert(new_t[a].key@ == old_t[a].key@);
                        assert(new_t[b].key@ == old_t[b].key@);
                    }
                }
                lemma_table_index_unique(new_t, key_s, i as int);
                assert forall|k2: Seq<char>| #[trigger] table_has(new_t, k2) == (table_has(
                    old_t,
                    k2,
                ) || k2 == key_s) by {
                    if table_has(new_t, k2) {
                        let w = table_index(new_t, k2);
                        assert(0 <= w < new_t.len() && new_t[w].key@ == k2);
                        if w != i {
                            assert(old_t[w].key@ == k2);
                        }
                    }
                    if table_has(old_t, k2) {
                        let w = table_index(old_t, k2);
                        assert(0 <= w < old_t.len() && old_t[w].key@ == k2);
                        if w != i {
                            assert(new_t[w].key@ == k2);
                        }
                    }
                }
                assert forall|k2: Seq<char>, d: char| #[trigger] table_count(new_t, k2, d)
                    == table_count(old_t, k2, d) + (if k2 == key_s && d == c {
                    1int
                } else {
                    0int
                }) by {
                    if k2 == key_s {
                        lemma_table_index_unique(old_t, key_s, i as int);
                        lemma_table_index_unique(new_t, key_s, i as int);
                    } else {
                        if table_has(new_t, k2) {
                            let w = table_index(new_t, k2);
                            assert(0 <= w < new_t.len() && new_t[w].key@ == k2);
                            assert(w != i);
                            assert(old_t[w].key@ == k2);
                            lemma_table_index_unique(old_t, k2, w);
                            lemma_table_index_unique(new_t, k2, w);
                        } else {
                            assert(!table_has(old_t, k2)) by {
                                if table_has(old_t, k2) {
                                    let w = table_index(old_t, k2);
                                    assert(0 <= w < old_t.len() && old_t[w].key@ == k2);
                                    assert(w != i);
                                    assert(new_t[w].key@ == k2);
                                }
                            }
                        }
                    }
                }
                assert forall|k2: Seq<char>| #[trigger] table_total(new_t, k2) == table_total(
                    old_t,
                    k2,
                ) + (if k2 == key_s {
                    1int
                } else {
                    0int
                }) by {
                    if k2 == key_s {
                        lemma_table_index_unique(old_t, key_s, i as int);
                        lemma_table_index_unique(new_t, key_s, i as int);
                    } else {
                        if table_has(new_t, k2) {
                            let w = table_index(new_t, k2);
                            assert(0 <= w < new_t.len() && new_t[w].key@ == k2);
                            assert(w != i);
                            assert(old_t[w].key@ == k2);
                            lemma_table_index_unique(old_t, k2, w);
                            lemma_table_index_unique(new_t, k2, w);
                        } else {
                            assert(!table_has(old_t, k2)) by {
                                if table_has(old_t, k2) {
                                    let w = table_index(old_t, k2);
                                    assert(0 <= w < old_t.len() && old_t[w].key@ == k2);
                                    assert(w != i);
                                    assert(new_t[w].key@ == k2);
                                }
                            }
                        }
                    }
                }
            }
        },
        None => {
            let mut counts: Vec<(char, u64)> = Vec::new();
            counts.push((c, 1));
            proof {
                assert(counts@.drop_first() =~= Seq::<(char, u64)>::empty());
                assert(sum_counts(Seq::<(char, u64)>::empty()) == 0);
                assert(sum_counts(counts@) == 1);
                lemma_char_index_unique(counts@, c, 0);
            }
            let entry = Entry { key, counts, total: 1 };
            t.push(entry);
            proof {
                let new_t = t@;
                assert(new_t[old_t.len() as int].key@ == key_s);
                assert(keys_distinct(new_t)) by {
                    assert forall|a: int, b: int| 0 <= a < b < new_t.len() implies new_t[a].key@
                        != new_t[b].key@ by {
                        if b == old_t.len() {
                            assert(!table_has(old_t, key_s));
                            assert(old_t[a].key@ == new_t[a].key@);
                        }
                    }
                }
                lemma_table_index_unique(new_t, key_s, old_t.len() as int);
                assert forall|k2: Seq<char>| #[trigger] table_has(new_t, k2) == (table_has(
                    old_t,
                    k2,
                ) || k2 == key_s) by {
                    if table_has(new_t, k2) {
                        let w = table_index(new_t, k2);
                        assert(0 <= w < new_t.len() && new_t[w].key@ == k2);
                        if w < old_t.len() {
                            assert(old_t[w].key@ == k2);
                        }
                    }
                    if table_has(old_t, k2) {
                        let w = table_index(old_t, k2);
                        assert(0 <= w < old_t.len() && old_t[w].key@ == k2);
                        assert(new_t[w].key@ == k2);
                    }
                }
                assert forall|k2: Seq<char>, d: char| #[trigger] table_count(new_t, k2, d)
                    == table_count(old_t, k2, d) + (if k2 == key_s && d == c {
                    1int
                } else {
                    0int
                }) by {
                    if k2 == key_s {
                        assert(table_count(old_t, k2, d) == 0);
                        lemma_table_index_unique(new_t, key_s, old_t.len() as int);
                        if d != c {
                            assert(!has_char(counts@, d));
                        }
                    } else {
                        if table_has(new_t, k2) {
                            let w = table_index(new_t, k2);
                            assert(0 <= w < new_t.len() && new_t[w].key@ == k2);
                            assert(w < old_t.len());
                            assert(old_t[w].key@ == k2);
                            lemma_table_index_unique(old_t, k2, w);
                            lemma_table_index_unique(new_t, k2, w);
                        } else {
                            assert(!table_has(old_t, k2)) by {
                                if table_has(old_t, k2) {
                                    let w = table_index(old_t, k2);
                                    assert(0 <= w < old_t.len() && old_t[w].key@ == k2);
                                    assert(new_t[w].key@ == k2);
                                }
                            }
                        }
                    }
                }
                assert forall|k2: Seq<char>| #[trigger] table_total(new_t, k2) == table_total(
                    old_t,
                    k2,
                ) + (if k2 == key_s {
                    1int
                } else {
                    0int
                }) by {
                    if k2 == key_s {
                        lemma_table_index_unique(new_t, key_s, old_t.len() as int);
                    } else {
                        if table_has(new_t, k2) {
                            let w = table_index(new_t, k2);
                            assert(0 <= w < new_t.len() && new_t[w].key@ == k2);
                            assert(w < old_t.len());
                            assert(old_t[w].key@ == k2);
                            lemma_table_index_unique(old_t, k2, w);
                            lemma_table_index_unique(new_t, k2, w);
                        } else {
                            assert(!table_has(old_t, k2)) by {
                                if table_has(old_t, k2) {
                                    let w = table_index(old_t, k2);
                                    assert(0 <= w < old_t.len() && old_t[w].key@ == k2);
                                    assert(new_t[w].key@ == k2);
                                }
                            }
                        }
                    }
                }
            }
        },
    }
}

/// The sum of well-formed counts never falls below any one count.
proof fn lemma_count_le_sum_all(counts: Seq<(char, u64)>)
    ensures
        forall|i: int| 0 <= i < counts.len() ==> (#[trigger] counts[i]).1 <= sum_counts(counts),
{
    assert forall|i: int| 0 <= i < counts.len() implies (#[trigger] counts[i]).1 <= sum_counts(
        counts,
    ) by {
        lemma_count_at_le_sum(counts, i);
    }
}

/// The character the weighted draw `draw` lands on: counts are laid end to
/// end and the draw falls in exactly one pair's span.
pub open spec fn weighted_pick(counts: Seq<(char, u64)>, draw: int) -> char
    decreases counts.len(),
{
    if counts.len() == 0 {
        arbitrary()
    } else if draw < counts[0].1 {
        counts[0].0
    } else {
        weighted_pick(counts.drop_first(), draw - counts[0].1)
    }
}

/// Walks the counts, subtracting each from the draw, and returns the
/// character whose span the draw falls in.
pub fn pick_from_counts(counts: &Vec<(char, u64)>, draw: u64) -> (c: char)
    requires
        (draw as nat) < sum_counts(counts@),
        sum_counts(counts@) <= u64::MAX,
    ensures
        c == weighted_pick(counts@, draw as int),
        has_char(counts@, c),
{
    let mut i: usize = 0;
    let mut rem: u64 = draw;
    let _len = counts.len();
    proof {
        assert(counts@.skip(0) =~= counts@);
    }
    loop
        invariant
            0 <= i <= counts@.len(),
            counts@.len() == _len,
            (rem as nat) < sum_counts(counts@.skip(i as int)),
            sum_counts(counts@.skip(i as int)) <= u64::MAX,
            weighted_pick(counts@.skip(i as int), rem as int) == weighted_pick(
                counts@,
                draw as int,
            ),
        decreases counts@.len() - i,
    {
        proof {
            assert(i < counts@.len()) by {
                if i == counts@.len() {
                    assert(counts@.skip(i as int) =~= Seq::<(char, u64)>::empty());
                }
            }
            assert(counts@.skip(i as int).drop_first() =~= counts@.skip(i as int + 1));
            assert(counts@.skip(i as int)[0] == counts@[i as int]);
        }
        let n = counts[i].1;
        if rem < n {
            proof {
                assert(weighted_pick(counts@.skip(i as int), rem as int) == counts@[i as int].0);
                assert(0 <= i < counts@.len() && counts@[i as int].0 == counts@[i as int].0);
                assert(has_char(counts@, counts@[i as int].0));
            }
            return counts[i].0;
        }
        rem = rem - n;
        i = i + 1;
        proof {
            lemma_count_at_le_sum(counts@.skip(i as int - 1), 0);
        }
    }
}

} // verus!
