use markov_text::words::TextStatistics;

fn word_vec(words: &[&str]) -> Vec<String> {
    let mut v: Vec<String> = Vec::new();
    for w in words {
        v.push(w.to_string());
    }
    v
}

fn count_of(stats: &TextStatistics, prefix: &[&str], word: &str) -> u64 {
    for table in &stats.tables {
        if table.prefix.len() == prefix.len()
            && table.prefix.iter().zip(prefix.iter()).all(|(a, b)| a == b)
        {
            for pair in &table.counts {
                if pair.0 == word {
                    return pair.1;
                }
            }
            return 0;
        }
    }
    0
}

#[test]
fn windows_feed_the_tables() {
    // Depth 1 over six words: the windows are (a b), (b c), (c a), (a b);
    // the final full window (b d) is never inserted.
    let stats = TextStatistics::new_from_text("a b c a b d", 1);
    assert_eq!(count_of(&stats, &[], "a"), 2);
    assert_eq!(count_of(&stats, &[], "b"), 1);
    assert_eq!(count_of(&stats, &[], "c"), 1);
    assert_eq!(count_of(&stats, &[], "d"), 0);
    assert_eq!(count_of(&stats, &["a"], "b"), 2);
    assert_eq!(count_of(&stats, &["b"], "c"), 1);
    assert_eq!(count_of(&stats, &["c"], "a"), 1);
    assert_eq!(count_of(&stats, &["b"], "d"), 0);
}

#[test]
fn short_streams_record_nothing() {
    // With two words and depth 1, the single full window is also the last
    // one and is not inserted.
    let stats = TextStatistics::new_from_text("a b", 1);
    assert!(stats.tables.is_empty());
    let stats2 = TextStatistics::new_from_text("", 0);
    assert!(stats2.tables.is_empty());
}

#[test]
fn following_word_comes_from_the_table() {
    let stats = TextStatistics::new_from_text("a b c a b d", 1);
    // "a" was always followed by "b" in the inserted windows.
    let w = stats.random_word_from_word_list(&word_vec(&["a"])).unwrap();
    assert_eq!(w, "b");
    // An unseen word has no continuation.
    assert_eq!(stats.random_word_from_word_list(&word_vec(&["z"])), None);
}

#[test]
fn random_word_is_a_recorded_opener() {
    let stats = TextStatistics::new_from_text("x y x y x", 0);
    for _ in 0..50 {
        let w = stats.random_word();
        assert!(w == "x" || w == "y");
    }
}

#[test]
fn graceful_lookup_drops_unmatched_front_words() {
    let stats = TextStatistics::new_from_text("a b c a b d", 1);
    // The full run (q, a) is unknown; its suffix (a) is known and always
    // continues with "b".
    let w = stats.random_word_from_word_list_graceful(&word_vec(&["q", "a"]));
    assert_eq!(w, "b");
    // A run with no known suffix falls back to the openers.
    let w2 = stats.random_word_from_word_list_graceful(&word_vec(&["q"]));
    assert!(w2 == "a" || w2 == "b" || w2 == "c");
}

#[test]
fn whitespace_splitting_shapes_the_model() {
    // Runs of whitespace of any kind separate words; a corpus that split
    // into anything but these five words would put different counts here.
    let stats = TextStatistics::new_from_text("one  two\tthree\none two", 1);
    assert_eq!(count_of(&stats, &["one"], "two"), 1);
    assert_eq!(count_of(&stats, &["two"], "three"), 1);
    assert_eq!(count_of(&stats, &["three"], "one"), 1);
    assert_eq!(count_of(&stats, &[], "one"), 1);
    assert_eq!(count_of(&stats, &[], "two"), 1);
    assert_eq!(count_of(&stats, &[], "three"), 1);
}
