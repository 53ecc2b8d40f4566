use markov_text::corpus::{Corpus, CorpusError};
use markov_text::generator::generate_text;
use markov_text::stats::MarkovStats;

#[test]
fn corpus_counts_and_slices_by_character() {
    let corpus = Corpus::from_text("héllo");
    assert_eq!(corpus.char_count(), 5);
    assert_eq!(corpus.char_at(1), Ok('é'));
    assert_eq!(corpus.substring(1, 3), Ok(vec!['é', 'l']));
    assert_eq!(corpus.substring(0, 5), Ok(vec!['h', 'é', 'l', 'l', 'o']));
}

#[test]
fn corpus_refuses_invalid_ranges() {
    let corpus = Corpus::from_text("abc");
    assert_eq!(corpus.substring(2, 1), Err(CorpusError::InvalidRange));
    assert_eq!(corpus.substring(0, 4), Err(CorpusError::InvalidRange));
    assert_eq!(corpus.char_at(3), Err(CorpusError::InvalidRange));
}

#[test]
fn statistics_build_from_a_corpus() {
    let corpus = Corpus::from_text("aaab");
    let stats = MarkovStats::from_corpus(corpus);
    assert_eq!(stats.max_order(), 2);
    assert_eq!(stats.context_count("a", 'a'), 2);
}

#[test]
fn order_one_context_counts() {
    // In "aaab", the context "a" occurs three times with a follower: twice
    // followed by 'a', once by 'b'.
    let stats = MarkovStats::from_str("aaab");
    assert!(stats.has_context("a"));
    assert_eq!(stats.context_count("a", 'a'), 2);
    assert_eq!(stats.context_count("a", 'b'), 1);
}

#[test]
fn sampling_stored_context_stays_in_corpus() {
    let mut stats = MarkovStats::from_str("aaab");
    for _ in 0..100 {
        let c = stats.markov_char("a").unwrap();
        assert!(c == 'a' || c == 'b');
    }
}

#[test]
fn max_order_of_aaab() {
    // "aa" is ambiguous too ('a' at one occurrence, 'b' at the other), and
    // "aaa" has the unique continuation 'b', so expansion stops at order 2.
    let stats = MarkovStats::from_str("aaab");
    assert_eq!(stats.max_order(), 2);
    assert!(stats.has_context("aa"));
    assert_eq!(stats.context_count("aa", 'a'), 1);
    assert_eq!(stats.context_count("aa", 'b'), 1);
}

#[test]
fn worked_example_abcabd() {
    // "a" has the unique continuation 'b' and is pruned; "ab" is stored with
    // continuations 'c' and 'd'; no order-3 context is ambiguous.
    let stats = MarkovStats::from_str("abcabd");
    assert!(!stats.has_context("a"));
    assert!(stats.has_context("ab"));
    assert_eq!(stats.context_count("ab", 'c'), 1);
    assert_eq!(stats.context_count("ab", 'd'), 1);
    assert_eq!(stats.max_order(), 2);
}

#[test]
fn sampling_ab_gives_c_or_d() {
    let mut stats = MarkovStats::from_str("abcabd");
    for _ in 0..100 {
        let c = stats.markov_char("ab").unwrap();
        assert!(c == 'c' || c == 'd');
    }
}

#[test]
fn absent_key_reports_no_data() {
    let mut stats = MarkovStats::from_str("hello world");
    assert_eq!(stats.markov_char("z"), None);
    assert_eq!(stats.markov_char("zz"), None);
    assert_eq!(stats.markov_char("worlds"), None);
}

#[test]
fn verbatim_search_finds_unique_contexts() {
    // Every character of "abcdef" is unique, so nothing but the empty
    // context is stored; longer keys are answered by verbatim search.
    let mut stats = MarkovStats::from_str("abcdef");
    assert_eq!(stats.max_order(), 0);
    assert!(!stats.has_context("abc"));
    assert_eq!(stats.markov_char("abc"), Some('d'));
    assert_eq!(stats.markov_char("cde"), Some('f'));
    // The cursor now points past the start; this key only occurs earlier,
    // so the search must wrap around to the top.
    assert_eq!(stats.markov_char("ab"), Some('c'));
    // A key that occurs only at the very end has no follower.
    assert_eq!(stats.markov_char("f"), None);
}

#[test]
fn rebuilding_is_deterministic() {
    let text = "the quick brown fox jumps over the lazy dog the end";
    let a = MarkovStats::from_str(text);
    let b = MarkovStats::from_str(text);
    assert_eq!(a.max_order(), b.max_order());
    for key in ["t", "th", "he", "e", " ", "o", "q"] {
        assert_eq!(a.has_context(key), b.has_context(key));
        for c in ['a', 'e', 'h', 'o', 'u', ' '] {
            assert_eq!(a.context_count(key, c), b.context_count(key, c));
        }
    }
}

#[test]
fn stored_contexts_are_ambiguous() {
    // Every entry of the table records at least two distinct continuations,
    // each seen at least once.
    let stats = MarkovStats::from_str("the quick brown fox jumps over the lazy dog");
    assert!(!stats.entries.is_empty());
    for entry in &stats.entries {
        assert!(entry.counts.len() >= 2);
        let mut sum: u64 = 0;
        for m in 0..entry.counts.len() {
            assert!(entry.counts[m].1 >= 1);
            for l in 0..m {
                assert_ne!(entry.counts[l].0, entry.counts[m].0);
            }
            sum += entry.counts[m].1;
        }
        assert!(sum >= 2);
        assert_eq!(sum, entry.total);
    }
}

#[test]
fn empty_corpus_has_no_data() {
    let mut stats = MarkovStats::from_str("");
    assert_eq!(stats.max_order(), 0);
    assert_eq!(stats.markov_char(""), None);
    assert_eq!(stats.markov_char("a"), None);
    let out = generate_text(&mut stats, 10, 8);
    assert!(out.is_empty());
}

#[test]
fn single_character_corpus() {
    // Shorter than two characters: order zero and an empty table; the empty
    // key is still answered, by verbatim search from the cursor.
    let mut stats = MarkovStats::from_str("a");
    assert_eq!(stats.max_order(), 0);
    assert!(stats.entries.is_empty());
    assert_eq!(stats.markov_char(""), Some('a'));
}

#[test]
fn random_char_comes_from_corpus() {
    let mut stats = MarkovStats::from_str("ab");
    for _ in 0..50 {
        let c = stats.random_char();
        assert!(c == 'a' || c == 'b');
    }
}

#[test]
fn degenerate_corpus_generates_its_character() {
    // One distinct character: the maximum order is zero and every generated
    // character is that character.
    let mut stats = MarkovStats::from_str("aaaa");
    assert_eq!(stats.max_order(), 0);
    let out = generate_text(&mut stats, 25, 8);
    assert_eq!(out.len(), 25);
    for c in out {
        assert_eq!(c, 'a');
    }
}

#[test]
fn generation_has_requested_length_and_corpus_characters() {
    let mut stats = MarkovStats::from_str("abab");
    let out = generate_text(&mut stats, 40, 3);
    assert_eq!(out.len(), 40);
    for c in out {
        assert!(c == 'a' || c == 'b');
    }
}

#[test]
fn unicode_corpus_counts_characters() {
    // Multi-byte characters are single corpus positions.
    let stats = MarkovStats::from_str("ééx");
    assert!(stats.has_context("é"));
    assert_eq!(stats.context_count("é", 'é'), 1);
    assert_eq!(stats.context_count("é", 'x'), 1);
}
