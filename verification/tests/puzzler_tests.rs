use puzzler::bigramindex::BigramIndex;
use puzzler::puzzlegrid::PuzzleGrid;
use puzzler::solve_puzzle;
use puzzler::types::{PairChar, PairString};
use puzzler::wordstore::WordStore;

fn make_store(words: &[&str]) -> WordStore {
    let mut store = WordStore::new();
    for word in words {
        store.add(word);
    }
    store
}

fn solve(words: &[&str], width: usize, height: usize, blanks: usize) -> Option<PuzzleGrid> {
    let store = make_store(words);
    solve_puzzle(width, height, blanks, &store)
}

fn decoded(list: &Vec<PairString>) -> Vec<String> {
    list.iter().map(|w| w.decode()).collect()
}

#[test]
fn pairchar_roundtrip() {
    assert_eq!(PairChar::encode(b'a', b'a').decode(), "aa");
    assert_eq!(PairChar::encode(b'a', b'b').decode(), "ab");
    assert_eq!(PairChar::encode(b'z', b'z').decode(), "zz");
    assert_eq!(PairChar::encode(b'q', b'x').decode(), "qx");
}

#[test]
fn pairchar_blank_and_unset() {
    let blank = PairChar::encode(b'_', b'_');
    assert!(blank.is_spacer());
    assert_eq!(blank.decode(), "__");
    let unset = PairChar::new();
    assert!(!unset.is_spacer());
    assert_eq!(unset.decode(), "__");
    assert!(!PairChar::encode(b'a', b'b').is_spacer());
}

#[test]
fn pairstring_roundtrip() {
    let word = PairString::encode("puzzle");
    assert_eq!(word.len(), 3);
    assert_eq!(word.decode(), "puzzle");
    assert_eq!(PairString::encode("").decode(), "");
    assert_eq!(PairString::encode("abcdefghij").decode(), "abcdefghij");
    // the blank pair is admitted as a chunk of its own
    assert_eq!(PairString::encode("ab__cd").decode(), "ab__cd");
    assert_eq!(PairString::encode("____").decode(), "____");
}

#[test]
fn pairstring_ops() {
    let mut word = PairString::new();
    word.push(PairChar::encode(b'a', b'b'));
    word.push(PairChar::encode(b'c', b'd'));
    assert_eq!(word.decode(), "abcd");
    assert_eq!(PairString::assemble(word.slice_to(1)).decode(), "ab");
    assert_eq!(PairString::assemble(word.slice()).decode(), "abcd");
    word.reverse();
    assert_eq!(word.decode(), "cdab");
    let built = PairString::build(2);
    assert_eq!(built.len(), 2);
    assert_eq!(built.decode(), "____");
}

#[test]
fn permute_inserts_blanks() {
    let word = PairString::encode("abcd");
    let one = decoded(&word.permute(1));
    assert_eq!(one.len(), 3);
    assert!(one.contains(&"__abcd".to_string()));
    assert!(one.contains(&"ab__cd".to_string()));
    assert!(one.contains(&"abcd__".to_string()));
    // two blanks in a two-symbol word: four slots choose two, six distinct
    let two = word.permute(2);
    assert_eq!(two.len(), 6);
    for padded in &two {
        assert_eq!(padded.len(), 4);
        let text = padded.decode();
        let blanks = text.matches("__").count();
        assert!(blanks >= 2);
    }
    // zero blanks: just the word itself
    let zero = decoded(&word.permute(0));
    assert_eq!(zero, vec!["abcd".to_string()]);
}

#[test]
fn wordstore_buckets() {
    let mut store = WordStore::new();
    store.add("abcd");
    store.add("abc");
    store.add("");
    store.add("abcdef");
    let two = decoded(&store.words_by_length(2));
    assert_eq!(two, vec!["abcd".to_string()]);
    let three = decoded(&store.words_by_length(3));
    assert_eq!(three, vec!["abcdef".to_string()]);
    assert!(store.words_by_length(1).is_empty());
    assert!(store.words_by_length(0).is_empty());
    assert!(store.words_by_length(99).is_empty());
}

#[test]
fn padded_to_length_exact_when_no_blanks() {
    let store = make_store(&["abcd", "abcdef"]);
    let exact = decoded(&store.permuted_words_by_length(3, 0));
    assert_eq!(exact, vec!["abcdef".to_string()]);
}

#[test]
fn padded_to_length_pads_shorter_words() {
    let store = make_store(&["abcd", "abcdef"]);
    let padded = decoded(&store.permuted_words_by_length(3, 1));
    // exact-length words are excluded once blanks are allowed
    assert_eq!(padded.len(), 3);
    assert!(padded.contains(&"__abcd".to_string()));
    assert!(padded.contains(&"ab__cd".to_string()));
    assert!(padded.contains(&"abcd__".to_string()));
}

#[test]
fn padded_to_length_never_duplicates() {
    // even a dictionary that repeats a word yields each padded sequence once
    let store = make_store(&["abcd", "abcd"]);
    assert_eq!(decoded(&store.permuted_words_by_length(2, 0)), vec!["abcd".to_string()]);
    let padded = decoded(&store.permuted_words_by_length(3, 1));
    assert_eq!(padded.len(), 3);
}

#[test]
fn padded_to_length_keeps_first_occurrences() {
    // with no blanks the bucket comes back in order, first occurrences kept
    let store = make_store(&["cdcd", "abab", "cdcd", "efef"]);
    assert_eq!(
        decoded(&store.permuted_words_by_length(2, 0)),
        vec!["cdcd".to_string(), "abab".to_string(), "efef".to_string()]
    );
}

#[test]
fn exclusion_narrowing_cuts_prefix_words() {
    // rows abcd/cdgh/efij with columns abcdef/cdghij form a duplicate-free
    // grid, but after the first row is placed the exclusion narrowing bars
    // "cd" under column 0 — the committed row "abcd" is down to its final
    // symbol there — although that column would have continued to the longer
    // word "abcdef"; the search therefore reports no solution
    let words = ["abcd", "cdgh", "efij", "abcdef", "cdghij"];
    assert!(solve(&words, 2, 3, 0).is_none());
}

#[test]
fn blank_counts_must_balance() {
    // with blanks allowed, every row and every column must take at least
    // one blank (exact-length words are excluded); three columns need three
    // blanks but two rows can carry only two, so no 3x2 grid exists
    let words = ["abcd", "efgh", "ab", "ef", "cd", "gh"];
    assert!(solve(&words, 3, 2, 1).is_none());
}

#[test]
fn trie_keys_and_singleton_filters() {
    let store = make_store(&["abcd", "efgh"]);
    let index = BigramIndex::build(2, &store, 0);
    let mut roots: Vec<String> = index
        .get_keys_as_hashset()
        .iter()
        .map(|k| k.decode())
        .collect();
    roots.sort();
    assert_eq!(roots, vec!["ab".to_string(), "ef".to_string()]);

    // filters built from a word's own symbols return exactly that word
    let filters = vec![
        vec![PairChar::encode(b'a', b'b')],
        vec![PairChar::encode(b'c', b'd')],
    ];
    let found = BigramIndex::get_candidate_words(&index, &filters).expect("word should match");
    assert_eq!(decoded(&found), vec!["abcd".to_string()]);

    // mixed filters that name no whole word find nothing
    let crossed = vec![
        vec![PairChar::encode(b'a', b'b')],
        vec![PairChar::encode(b'g', b'h')],
    ];
    assert!(BigramIndex::get_candidate_words(&index, &crossed).is_none());

    // an empty filter set reports no match at once
    let gap: Vec<Vec<PairChar>> = vec![vec![PairChar::encode(b'a', b'b')], vec![]];
    assert!(BigramIndex::get_candidate_words(&index, &gap).is_none());
}

#[test]
fn possible_pairchars_follow_stems() {
    let store = make_store(&["abcd", "abef"]);
    let index = BigramIndex::build(2, &store, 0);
    let stems = vec![vec![PairChar::encode(b'a', b'b')]];
    let none: Vec<Vec<PairChar>> = Vec::new();
    let possibles = index.get_possible_pairchars(&stems, &none);
    assert_eq!(possibles.len(), 1);
    let mut nexts: Vec<String> = possibles[0].iter().map(|k| k.decode()).collect();
    nexts.sort();
    assert_eq!(nexts, vec!["cd".to_string(), "ef".to_string()]);

    // a stem with no continuation yields an empty set
    let dead = vec![vec![PairChar::encode(b'z', b'z')]];
    let empty = index.get_possible_pairchars(&dead, &none);
    assert_eq!(empty.len(), 1);
    assert!(empty[0].is_empty());
}

#[test]
fn possible_pairchars_respect_exclusions() {
    let store = make_store(&["abcd", "abef"]);
    let index = BigramIndex::build(2, &store, 0);
    let stems = vec![vec![PairChar::encode(b'a', b'b')]];
    // "abcd" is already used elsewhere, so its final symbol is barred
    let exclusions = vec![vec![
        PairChar::encode(b'a', b'b'),
        PairChar::encode(b'c', b'd'),
    ]];
    let possibles = index.get_possible_pairchars(&stems, &exclusions);
    let nexts: Vec<String> = possibles[0].iter().map(|k| k.decode()).collect();
    assert_eq!(nexts, vec!["ef".to_string()]);
}

#[test]
fn possible_pairchars_blank_is_wildcard() {
    let store = make_store(&["abcd"]);
    let index = BigramIndex::build(3, &store, 1);
    let stems = vec![vec![PairChar::encode(b'_', b'_')]];
    // a blank in the stem never narrows the exclusion words: the stripped
    // row "abcd" survives the blank and is still two symbols long, so it
    // bars nothing at this depth
    let exclusions = vec![vec![
        PairChar::encode(b'a', b'b'),
        PairChar::encode(b'c', b'd'),
    ]];
    let possibles = index.get_possible_pairchars(&stems, &exclusions);
    let nexts: Vec<String> = possibles[0].iter().map(|k| k.decode()).collect();
    assert_eq!(nexts, vec!["ab".to_string()]);
}

#[test]
fn grid_add_and_remove_layers() {
    let mut grid = PuzzleGrid::new(2, 2);
    assert!(!grid.is_complete());
    assert!(grid.add_layer(&PairString::encode("abcd")).is_some());
    // a word of the wrong width is rejected
    assert!(grid.add_layer(&PairString::encode("ab")).is_none());
    assert!(grid.add_layer(&PairString::encode("efgh")).is_some());
    assert!(grid.is_complete());
    // the grid is full now
    assert!(grid.add_layer(&PairString::encode("ijkl")).is_none());
    let columns = grid.get_columns();
    assert_eq!(PairString::assemble(&columns[0]).decode(), "abef");
    assert_eq!(PairString::assemble(&columns[1]).decode(), "cdgh");
    let rows = grid.get_rows();
    assert_eq!(PairString::assemble(&rows[0]).decode(), "abcd");
    assert_eq!(PairString::assemble(&rows[1]).decode(), "efgh");
    grid.remove_layer();
    assert!(!grid.is_complete());
    assert_eq!(grid.get_rows().len(), 1);
    grid.reset();
    assert_eq!(grid.get_rows().len(), 0);
    // removing from an empty grid is a no-op
    grid.remove_layer();
    assert_eq!(grid.get_rows().len(), 0);
}

#[test]
fn get_rows_strips_blanks() {
    let mut grid = PuzzleGrid::new(2, 1);
    assert!(grid.add_layer(&PairString::encode("__ab")).is_some());
    let rows = grid.get_rows();
    assert_eq!(PairString::assemble(&rows[0]).decode(), "ab");
}

#[test]
fn duplicate_rows_detected() {
    let mut grid = PuzzleGrid::new(2, 2);
    assert!(grid.add_layer(&PairString::encode("abab")).is_some());
    assert!(grid.add_layer(&PairString::encode("abab")).is_some());
    assert!(grid.has_duplicates());
}

#[test]
fn duplicate_rows_after_stripping_detected() {
    let mut grid = PuzzleGrid::new(2, 2);
    assert!(grid.add_layer(&PairString::encode("__ab")).is_some());
    assert!(grid.add_layer(&PairString::encode("ab__")).is_some());
    assert!(grid.has_duplicates());
}

#[test]
fn duplicate_row_and_column_detected() {
    let mut grid = PuzzleGrid::new(2, 2);
    // row 0 equals column 0 in this symmetric fill
    assert!(grid.add_layer(&PairString::encode("aaab")).is_some());
    assert!(grid.add_layer(&PairString::encode("abbb")).is_some());
    assert!(grid.has_duplicates());
}

#[test]
fn distinct_rows_and_columns_pass() {
    let mut grid = PuzzleGrid::new(2, 2);
    assert!(grid.add_layer(&PairString::encode("aaab")).is_some());
    assert!(grid.add_layer(&PairString::encode("babb")).is_some());
    assert!(!grid.has_duplicates());
}

/// Rows: the eight words of a four-by-four grid whose cell in column x,
/// row y is the letter pair (letter y, letter x).
const GOOD_4X4: [&str; 8] = [
    "aaabacad", "babbbcbd", "cacbcccd", "dadbdcdd", // rows
    "aabacada", "abbbcbdb", "acbcccdc", "adbdcddd", // columns
];

fn assert_valid_solution(words: &[&str], grid: &PuzzleGrid, width: usize, height: usize) {
    assert!(grid.is_complete());
    assert!(!grid.has_duplicates());
    assert_eq!(grid.get_rows().len(), height);
    assert_eq!(grid.get_columns().len(), width);
    let dictionary: Vec<String> = words.iter().map(|w| w.to_string()).collect();
    for row in grid.get_rows() {
        assert!(dictionary.contains(&PairString::assemble(&row).decode()));
    }
    for column in grid.get_columns() {
        let stripped: Vec<PairChar> = column.iter().cloned().filter(|c| !c.is_spacer()).collect();
        assert!(dictionary.contains(&PairString::assemble(&stripped).decode()));
    }
}

#[test]
fn four_by_four_solution() {
    let grid = solve(&GOOD_4X4, 4, 4, 0).expect("this dictionary fills a 4x4 grid");
    assert_valid_solution(&GOOD_4X4, &grid, 4, 4);
}

/// Six-letter words that fill a four-by-four grid once each row and column
/// takes one blank on the diagonal.
const GOOD_SPACES_4X4: [&str; 8] = [
    "abacad", "babcbd", "cacbcd", "dadbdc", // rows, blank at the diagonal
    "bacada", "abcbdb", "acbcdc", "adbdcd", // columns, blank at the diagonal
];

#[test]
fn four_by_four_with_spaces_solution() {
    let grid = solve(&GOOD_SPACES_4X4, 4, 4, 2).expect("padded words fill a 4x4 grid");
    assert_valid_solution(&GOOD_SPACES_4X4, &grid, 4, 4);
}

#[test]
fn no_repeats_rows() {
    // the only way to fill 5x5 repeats the single word on every row
    assert!(solve(&["aaaaaaaaaa"], 5, 5, 0).is_none());
}

#[test]
fn no_repeats_symmetric() {
    // a symmetric fill would reuse each row as a column, which the
    // duplicate-word rule forbids
    let symmetric = [
        "aaabacadae",
        "abbbbcbdbe",
        "acbccccdce",
        "adbdcdddde",
        "aebecedeee",
    ];
    assert!(solve(&symmetric, 5, 5, 0).is_none());
}

#[test]
fn small_dictionary_has_no_crossing() {
    // no word's second symbol begins another word, so no 2x2 grid exists
    assert!(solve(&["abcd", "efgh", "ijkl", "mnop"], 2, 2, 0).is_none());
}

#[test]
fn grid_larger_than_corpus_reports_none() {
    assert!(solve(&["abcd"], 3, 3, 0).is_none());
}

#[test]
fn reused_word_across_orientations_rejected() {
    // the only filling uses "aaaa" as both rows and both columns
    assert!(solve(&["aaaa"], 2, 2, 0).is_none());
}

#[test]
fn single_cell_always_duplicates() {
    // in a 1x1 grid the row and the column are the same word
    assert!(solve(&["ab"], 1, 1, 0).is_none());
}

#[test]
fn rectangle_solution() {
    // 2 columns x 1 row: the row is a two-symbol word, the columns are
    // one-symbol words
    let words = ["abcd", "ab", "cd"];
    let grid = solve(&words, 2, 1, 0).expect("a 2x1 grid exists");
    assert_valid_solution(&words, &grid, 2, 1);
}

#[test]
fn top_words_pruned_by_column_keys() {
    let store = make_store(&["abcd", "cdef"]);
    let index = BigramIndex::build(2, &store, 0);
    // root keys are "ab" and "cd": "abcd" survives, while "cdef" is pruned
    // because no word starts with "ef"
    let tops = decoded(&puzzler::generate_top_words(2, &store, 0, &index));
    assert_eq!(tops, vec!["abcd".to_string()]);
}
