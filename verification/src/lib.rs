//! Builds rectangular grids of letters in which every row and every column,
//! read as a sequence of two-letter units, is a word from a supplied
//! dictionary, with no word used twice anywhere in the grid.

pub mod bigramindex;
pub mod puzzlegrid;
pub mod types;
pub mod wordstore;

use bigramindex::{
    char_in_list, contains_word, has_path, in_char_list, index_wf, index_words, key_in,
    lemma_key_path, lemma_path_iff_prefix, prefix_of_some, BigramIndex,
};
use puzzlegrid::{cols_plus_row, initial_cols, search_succeeds, PuzzleGrid};
use types::{word_views_contain, PairString, WordList};
use wordstore::{padded_set, WordStore};
use vstd::prelude::*;

verus! {

/// The viable starting rows for a grid of the given width: every padded
/// candidate word of that width whose every symbol can begin a word of the
/// column-orientation index, each exactly once, in the order the padded
/// candidates are enumerated. Nothing else can head a solvable grid, so the
/// search starts only from these.
pub fn generate_top_words(
    width: usize,
    word_store: &WordStore,
    max_spaces: usize,
    index: &BigramIndex,
) -> (r: WordList)
    requires
        word_store.wf(),
        1 <= width < usize::MAX,
    ensures
        forall|t: int|
            0 <= t < r@.len() ==> padded_set(word_store@, width as int, max_spaces as int).contains(
                (#[trigger] r@[t])@,
            ) && r@[t]@.len() == width && (forall|i: int|
                0 <= i < width ==> key_in(*index, #[trigger] r@[t]@[i])),
        forall|v: Seq<int>|
            #[trigger] padded_set(word_store@, width as int, max_spaces as int).contains(v) && (
            forall|i: int| 0 <= i < v.len() ==> key_in(*index, #[trigger] v[i]))
                ==> word_views_contain(r@, v),
        forall|t1: int, t2: int| 0 <= t1 < t2 < r@.len() ==> r@[t1]@ != r@[t2]@,
{
    let mut result_set: WordList = Vec::new();
    let first_character_set = index.get_keys_as_hashset();
    let candidates = word_store.permuted_words_by_length(width, max_spaces);
    let mut t: usize = 0;
    while t < candidates.len()
        invariant
            width >= 1,
            t <= candidates@.len(),
            forall|k: int| in_char_list(first_character_set@, k) <==> key_in(*index, k),
            forall|u: int|
                0 <= u < candidates@.len() ==> padded_set(
                    word_store@,
                    width as int,
                    max_spaces as int,
                ).contains((#[trigger] candidates@[u])@) && candidates@[u]@.len() == width,
            forall|v: Seq<int>|
                #[trigger] padded_set(word_store@, width as int, max_spaces as int).contains(v)
                    ==> word_views_contain(candidates@, v),
            forall|u: int|
                0 <= u < result_set@.len() ==> padded_set(
                    word_store@,
                    width as int,
                    max_spaces as int,
                ).contains((#[trigger] result_set@[u])@) && result_set@[u]@.len() == width && (
                forall|i: int| 0 <= i < width ==> key_in(*index, #[trigger] result_set@[u]@[i])),
            forall|u: int|
                0 <= u < t && (forall|i: int|
                    0 <= i < width ==> key_in(*index, (#[trigger] candidates@[u])@[i]))
                    ==> word_views_contain(result_set@, candidates@[u]@),
            forall|u1: int, u2: int|
                0 <= u1 < u2 < candidates@.len() ==> candidates@[u1]@ != candidates@[u2]@,
            forall|u1: int, u2: int|
                0 <= u1 < u2 < result_set@.len() ==> result_set@[u1]@ != result_set@[u2]@,
            forall|u: int|
                0 <= u < result_set@.len() ==> exists|c: int|
                    0 <= c < t && (#[trigger] result_set@[u])@ == (#[trigger] candidates@[c])@,
        decreases candidates@.len() - t,
    {
        let candidate_word = &candidates[t];
        let mut ok = true;
        let mut i: usize = 0;
        let ghost pre = result_set@;
        while i < candidate_word.pair_string.len()
            invariant
                candidate_word@.len() == candidate_word.pair_string@.len(),
                i <= candidate_word@.len(),
                forall|k: int| in_char_list(first_character_set@, k) <==> key_in(*index, k),
                ok == (forall|m: int|
                    0 <= m < i ==> key_in(*index, #[trigger] candidate_word@[m])),
            decreases candidate_word@.len() - i,
        {
            if !char_in_list(&first_character_set, candidate_word.pair_string[i]) {
                proof {
                    assert(!key_in(*index, candidate_word@[i as int]));
                }
                ok = false;
                i = candidate_word.pair_string.len();
            } else {
                i = i + 1;
            }
        }
        if ok {
            let ghost pre_distinct = result_set@;
            result_set.push(candidate_word.clone());
            proof {
                assert forall|u1: int, u2: int|
                    0 <= u1 < u2 < result_set@.len() implies result_set@[u1]@
                    != result_set@[u2]@ by {
                    if u2 == result_set@.len() - 1 {
                        let c = choose|c: int|
                            0 <= c < t && (#[trigger] pre_distinct[u1])@ == (
                            #[trigger] candidates@[c])@;
                        assert(candidates@[c]@ != candidates@[t as int]@);
                    }
                }
            }
        }
        proof {
            assert forall|u: int|
                0 <= u < t + 1 && (forall|i: int|
                    0 <= i < width ==> key_in(
                        *index,
                        (#[trigger] candidates@[u])@[i],
                    )) implies word_views_contain(result_set@, candidates@[u]@) by {
                if u < t {
                    let w = choose|w: int| 0 <= w < pre.len() && #[trigger] pre[w]@ == candidates@[u]@;
                    assert(result_set@[w]@ == candidates@[u]@);
                } else {
                    assert(ok);
                    assert(result_set@[result_set@.len() - 1]@ == candidates@[u]@);
                }
            }
        }
        t = t + 1;
    }
    proof {
        assert forall|v: Seq<int>|
            #[trigger] padded_set(word_store@, width as int, max_spaces as int).contains(v) && (
            forall|i: int|
                0 <= i < v.len() ==> key_in(*index, #[trigger] v[i])) implies word_views_contain(
            result_set@,
            v,
        ) by {
            let u = choose|u: int| 0 <= u < candidates@.len() && #[trigger] candidates@[u]@ == v;
            assert(forall|i: int|
                0 <= i < width ==> key_in(*index, (#[trigger] candidates@[u])@[i]));
            assert(word_views_contain(result_set@, candidates@[u]@));
        }
    }
    result_set
}

/// Tries each starting row in turn, searching a fresh grid below it; the
/// first accepted grid is the answer. Any grid returned is complete, free of
/// duplicate words, and every row reads as a word of the row index while
/// every column reads as a word of the column index; and nothing is returned
/// only when the search fails from every given starting row.
pub fn populate_grid(
    width: usize,
    height: usize,
    top_start_words: &WordList,
    horizontal_index: &BigramIndex,
    vertical_index: &BigramIndex,
) -> (r: Option<PuzzleGrid>)
    requires
        width >= 1,
        height >= 1,
        index_wf(*horizontal_index, width as int),
        index_wf(*vertical_index, height as int),
        forall|t: int|
            0 <= t < top_start_words@.len() ==> (#[trigger] top_start_words@[t])@.len() == width
                && contains_word(*horizontal_index, top_start_words@[t]@) && (forall|i: int|
                0 <= i < width ==> key_in(*vertical_index, #[trigger] top_start_words@[t]@[i])),
    ensures
        match r {
            Option::Some(g) => {
                &&& g.wf()
                &&& g.width == width
                &&& g.depth == height
                &&& g.next_layer == height
                &&& !g.has_dup_spec()
                &&& forall|j: int|
                    0 <= j < height ==> contains_word(*horizontal_index, #[trigger] g.row_syms(j))
                &&& forall|i: int|
                    0 <= i < width ==> contains_word(*vertical_index, #[trigger] g.col_syms(i))
            },
            Option::None => forall|t: int|
                0 <= t < top_start_words@.len() ==> !search_succeeds(
                    index_words(*horizontal_index),
                    index_words(*vertical_index),
                    cols_plus_row(initial_cols(width as int), (#[trigger] top_start_words@[t])@),
                    seq![top_start_words@[t]@],
                    height - 1,
                ),
        },
{
    let mut t: usize = 0;
    while t < top_start_words.len()
        invariant
            width >= 1,
            height >= 1,
            index_wf(*horizontal_index, width as int),
            index_wf(*vertical_index, height as int),
            t <= top_start_words@.len(),
            forall|u: int|
                0 <= u < top_start_words@.len() ==> (#[trigger] top_start_words@[u])@.len() == width
                    && contains_word(*horizontal_index, top_start_words@[u]@) && (forall|i: int|
                    0 <= i < width ==> key_in(
                        *vertical_index,
                        #[trigger] top_start_words@[u]@[i],
                    )),
            forall|u: int|
                0 <= u < t ==> !search_succeeds(
                    index_words(*horizontal_index),
                    index_words(*vertical_index),
                    cols_plus_row(initial_cols(width as int), (#[trigger] top_start_words@[u])@),
                    seq![top_start_words@[u]@],
                    height - 1,
                ),
        decreases top_start_words@.len() - t,
    {
        let mut puzzle_grid = PuzzleGrid::new(width, height);
        let word = &top_start_words[t];
        proof {
            assert forall|i: int| 0 <= i < width implies has_path(
                *vertical_index,
                #[trigger] puzzle_grid.col_syms(i).push(word@[i]),
            ) by {
                assert(puzzle_grid.col_syms(i) =~= Seq::<int>::empty());
                lemma_key_path(*vertical_index, word@[i]);
                assert(puzzle_grid.col_syms(i).push(word@[i]) =~= seq![word@[i]]);
            }
            assert(puzzle_grid.committed_cols() =~~= initial_cols(width as int));
            assert(puzzle_grid.committed_rows() =~= Seq::<Seq<int>>::empty());
            assert(puzzle_grid.committed_rows().push(word@) =~= seq![word@]);
        }
        if puzzle_grid.populate_layer(word, horizontal_index, vertical_index) {
            return Option::Some(puzzle_grid);
        }
        t = t + 1;
    }
    Option::None
}

/// A starting row the search is bound to try: a padded candidate word of
/// the grid's width, each of whose symbols begins some padded candidate
/// column word.
pub open spec fn viable_start(
    store: Seq<Seq<Seq<int>>>,
    width: int,
    height: int,
    blanks: int,
    w: Seq<int>,
) -> bool {
    padded_set(store, width, blanks).contains(w) && forall|i: int|
        0 <= i < w.len() ==> prefix_of_some(padded_set(store, height, blanks), seq![#[trigger] w[i]])
}

/// Solves the whole puzzle for a corpus: builds the row index for the width
/// and the column index for the height (one shared index when the grid is
/// square), prunes the viable starting rows, and searches from each. A
/// returned grid is complete, duplicate-free, and reads as padded corpus
/// words along every row and every column; and when nothing is returned, the
/// backtracking search failed from every viable starting row.
pub fn solve_puzzle(
    width: usize,
    height: usize,
    max_blanks: usize,
    word_store: &WordStore,
) -> (r: Option<PuzzleGrid>)
    requires
        1 <= width < usize::MAX,
        1 <= height < usize::MAX,
    ensures
        match r {
            Option::Some(g) => {
                &&& g.wf()
                &&& g.width == width
                &&& g.depth == height
                &&& g.next_layer == height
                &&& !g.has_dup_spec()
                &&& forall|j: int|
                    0 <= j < height ==> padded_set(
                        word_store@,
                        width as int,
                        max_blanks as int,
                    ).contains(#[trigger] g.row_syms(j))
                &&& forall|i: int|
                    0 <= i < width ==> padded_set(
                        word_store@,
                        height as int,
                        max_blanks as int,
                    ).contains(#[trigger] g.col_syms(i))
            },
            Option::None => !word_store.wf() || (forall|w: Seq<int>|
                viable_start(word_store@, width as int, height as int, max_blanks as int, w)
                    ==> !#[trigger] search_succeeds(
                    padded_set(word_store@, width as int, max_blanks as int),
                    padded_set(word_store@, height as int, max_blanks as int),
                    cols_plus_row(initial_cols(width as int), w),
                    seq![w],
                    height - 1,
                )),
        },
{
    if !word_store.check_wf() {
        return Option::None;
    }
    let horizontal_index = BigramIndex::build(width, word_store, max_blanks);
    if width == height {
        let top_start_words = generate_top_words(width, word_store, max_blanks, &horizontal_index);
        let r = populate_grid(
            width,
            height,
            &top_start_words,
            &horizontal_index,
            &horizontal_index,
        );
        proof {
            if r is None {
                lemma_solver_exhausted(
                    *word_store,
                    width as int,
                    height as int,
                    max_blanks as int,
                    horizontal_index,
                    horizontal_index,
                    top_start_words@,
                );
            }
        }
        r
    } else {
        let vertical_index = BigramIndex::build(height, word_store, max_blanks);
        let top_start_words = generate_top_words(width, word_store, max_blanks, &vertical_index);
        let r = populate_grid(width, height, &top_start_words, &horizontal_index, &vertical_index);
        proof {
            if r is None {
                lemma_solver_exhausted(
                    *word_store,
                    width as int,
                    height as int,
                    max_blanks as int,
                    horizontal_index,
                    vertical_index,
                    top_start_words@,
                );
            }
        }
        r
    }
}

/// When the search has failed from every pruned starting row, it has failed
/// from every viable one: the pruned list is complete, and the trie word
/// sets are exactly the padded candidate sets.
proof fn lemma_solver_exhausted(
    word_store: WordStore,
    width: int,
    height: int,
    blanks: int,
    h_index: BigramIndex,
    v_index: BigramIndex,
    tops: Seq<PairString>,
)
    requires
        word_store.wf(),
        width >= 1,
        height >= 1,
        index_wf(h_index, width),
        index_wf(v_index, height),
        forall|w: Seq<int>|
            #[trigger] contains_word(h_index, w) <==> padded_set(word_store@, width, blanks).contains(w),
        forall|w: Seq<int>|
            #[trigger] contains_word(v_index, w) <==> padded_set(word_store@, height, blanks).contains(w),
        forall|v: Seq<int>|
            #[trigger] padded_set(word_store@, width, blanks).contains(v) && (forall|i: int|
                0 <= i < v.len() ==> key_in(v_index, #[trigger] v[i])) ==> word_views_contain(
                tops,
                v,
            ),
        forall|t: int|
            0 <= t < tops.len() ==> !search_succeeds(
                index_words(h_index),
                index_words(v_index),
                cols_plus_row(initial_cols(width), (#[trigger] tops[t])@),
                seq![tops[t]@],
                height - 1,
            ),
    ensures
        forall|w: Seq<int>|
            viable_start(word_store@, width, height, blanks, w) ==> !#[trigger] search_succeeds(
                padded_set(word_store@, width, blanks),
                padded_set(word_store@, height, blanks),
                cols_plus_row(initial_cols(width), w),
                seq![w],
                height - 1,
            ),
{
    assert(index_words(h_index) =~= padded_set(word_store@, width, blanks));
    assert(index_words(v_index) =~= padded_set(word_store@, height, blanks));
    assert forall|w: Seq<int>|
        viable_start(word_store@, width, height, blanks, w) implies !#[trigger] search_succeeds(
        padded_set(word_store@, width, blanks),
        padded_set(word_store@, height, blanks),
        cols_plus_row(initial_cols(width), w),
        seq![w],
        height - 1,
    ) by {
        assert forall|i: int| 0 <= i < w.len() implies key_in(v_index, #[trigger] w[i]) by {
            assert(prefix_of_some(padded_set(word_store@, height, blanks), seq![w[i]]));
            assert(prefix_of_some(index_words(v_index), seq![w[i]]));
            lemma_path_iff_prefix(v_index, height, seq![w[i]]);
            assert(has_path(v_index, seq![w[i]]));
            let e = choose|e: int|
                0 <= e < v_index.index@.len() && (#[trigger] v_index.index@[e]).0@ == seq![w[i]][0]
                    && (match v_index.index@[e].1 {
                    Option::None => seq![w[i]].len() == 1,
                    Option::Some(c) => has_path(*c, seq![w[i]].drop_first()),
                });
            assert(v_index.index@[e].0@ == w[i]);
        }
        assert(word_views_contain(tops, w));
        let t = choose|t: int| 0 <= t < tops.len() && #[trigger] tops[t]@ == w;
        assert(!search_succeeds(
            index_words(h_index),
            index_words(v_index),
            cols_plus_row(initial_cols(width), tops[t]@),
            seq![tops[t]@],
            height - 1,
        ));
    }
}

} // verus!
