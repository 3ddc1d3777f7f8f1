//! Grid state: a width-by-depth matrix of digraph symbols with a row
//! cursor, supporting append and undo of rows, per-column stem extraction,
//! and duplicate-word detection across both orientations.

use crate::bigramindex::{
    contains_word, has_path, in_char_list, index_wf, index_words, lemma_stem_candidates_words,
    lemma_word_iff_full_path, lemma_word_len, spec_candidates, stem_candidates,
    word_matches_filters, BigramIndex,
};
use crate::types::{strip_blanks, syms, syms_equal, PairChar, PairString, UNSET_SYMBOL};
use vstd::prelude::*;

verus! {

/// Every column prefix grown by the matching symbol of one more row.
pub open spec fn cols_plus_row(cols: Seq<Seq<int>>, w: Seq<int>) -> Seq<Seq<int>> {
    Seq::new(cols.len(), |i: int| cols[i].push(w[i]))
}

/// Each committed row with its blanks stripped: the duplicate-exclusion
/// words the search hands to the column index.
pub open spec fn stripped_rows(rows: Seq<Seq<int>>) -> Seq<Seq<int>> {
    rows.map_values(|r: Seq<int>| strip_blanks(r))
}

/// The blank-stripped words of the given column prefixes and rows, columns
/// first.
pub open spec fn compacted_of(cols: Seq<Seq<int>>, rows: Seq<Seq<int>>) -> Seq<Seq<int>> {
    cols.map_values(|c: Seq<int>| strip_blanks(c)) + stripped_rows(rows)
}

/// Two of the given words coincide.
pub open spec fn dup_among(words: Seq<Seq<int>>) -> bool {
    exists|a: int, b: int| 0 <= a < b < words.len() && #[trigger] words[a] == #[trigger] words[b]
}

/// The empty column prefixes of a grid that holds no rows yet.
pub open spec fn initial_cols(width: int) -> Seq<Seq<int>> {
    Seq::new(width as nat, |i: int| Seq::<int>::empty())
}

/// The backtracking search succeeds from a committed state: with no rows
/// left to fill, exactly when the finished grid carries no duplicate word;
/// otherwise exactly when some admitted next row leads to success — a row
/// word whose every symbol both extends its column prefix toward a column
/// word and escapes the duplicate-exclusion narrowing of the committed rows.
pub open spec fn search_succeeds(
    rowwords: Set<Seq<int>>,
    colwords: Set<Seq<int>>,
    cols: Seq<Seq<int>>,
    rows: Seq<Seq<int>>,
    remaining: int,
) -> bool
    decreases remaining,
{
    if remaining <= 0 {
        !dup_among(compacted_of(cols, rows))
    } else {
        exists|w: Seq<int>|
            #[trigger] rowwords.contains(w) && w.len() == cols.len() && (forall|i: int|
                0 <= i < cols.len() ==> spec_candidates(
                    colwords,
                    #[trigger] cols[i],
                    stripped_rows(rows),
                ).contains(w[i])) && search_succeeds(
                rowwords,
                colwords,
                cols_plus_row(cols, w),
                rows.push(w),
                remaining - 1,
            )
    }
}

/// A puzzle grid under construction: `columns[i][j]` is the cell in column
/// `i`, row `j`; rows `0 .. next_layer` are committed, everything at or
/// above the cursor is dead data that readers never consult.
pub struct PuzzleGrid {
    pub columns: Vec<Vec<PairChar>>,
    pub next_layer: usize,
    pub width: usize,
    pub depth: usize,
}

impl PuzzleGrid {
    /// The grid's shape is intact and the cursor is within bounds.
    pub open spec fn wf(&self) -> bool {
        &&& self.columns@.len() == self.width
        &&& forall|i: int| 0 <= i < self.width ==> (#[trigger] self.columns@[i])@.len() == self.depth
        &&& self.next_layer <= self.depth
    }

    /// The committed prefix of column `i`, as symbols.
    pub open spec fn col_syms(&self, i: int) -> Seq<int> {
        syms(self.columns@[i]@).take(self.next_layer as int)
    }

    /// Row `j` of the grid, as symbols, across all columns.
    pub open spec fn row_syms(&self, j: int) -> Seq<int> {
        Seq::new(self.width as nat, |i: int| self.columns@[i]@[j]@)
    }

    /// The committed rows, oldest first.
    pub open spec fn committed_rows(&self) -> Seq<Seq<int>> {
        Seq::new(self.next_layer as nat, |j: int| self.row_syms(j))
    }

    /// The committed column prefixes, left to right.
    pub open spec fn committed_cols(&self) -> Seq<Seq<int>> {
        Seq::new(self.width as nat, |i: int| self.col_syms(i))
    }

    /// Every committed column prefix and every committed row, each with its
    /// blanks stripped, columns first.
    pub open spec fn compacted_words(&self) -> Seq<Seq<int>> {
        Seq::new(self.width as nat, |i: int| strip_blanks(self.col_syms(i))) + Seq::new(
            self.next_layer as nat,
            |j: int| strip_blanks(self.row_syms(j)),
        )
    }

    /// Two of the compacted words (across both orientations) coincide.
    pub open spec fn has_dup_spec(&self) -> bool {
        dup_among(self.compacted_words())
    }

    /// An empty grid of the given shape: no committed rows, and every cell
    /// holds the unset sentinel (which is distinct from the blank symbol).
    pub fn new(width: usize, depth: usize) -> (r: PuzzleGrid)
        ensures
            r.wf(),
            r.width == width,
            r.depth == depth,
            r.next_layer == 0,
            forall|i: int, j: int|
                0 <= i < width && 0 <= j < depth ==> (#[trigger] r.columns@[i]@[j])@
                    == UNSET_SYMBOL as int,
    {
        let mut columns: Vec<Vec<PairChar>> = Vec::new();
        let mut i: usize = 0;
        while i < width
            invariant
                i <= width,
                columns@.len() == i,
                forall|m: int| 0 <= m < i ==> (#[trigger] columns@[m])@.len() == depth,
                forall|m: int, q: int|
                    0 <= m < i && 0 <= q < depth ==> (#[trigger] columns@[m]@[q])@
                        == UNSET_SYMBOL as int,
            decreases width - i,
        {
            let mut column: Vec<PairChar> = Vec::new();
            let mut j: usize = 0;
            while j < depth
                invariant
                    j <= depth,
                    column@.len() == j,
                    forall|q: int| 0 <= q < j ==> (#[trigger] column@[q])@ == UNSET_SYMBOL as int,
                decreases depth - j,
            {
                column.push(PairChar::new());
                j = j + 1;
            }
            columns.push(column);
            i = i + 1;
        }
        PuzzleGrid { columns, next_layer: 0, width, depth }
    }

    /// The cursor has reached the bottom of the grid.
    pub fn is_complete(&self) -> (r: bool)
        ensures
            r == (self.next_layer >= self.depth),
    {
        self.next_layer >= self.depth
    }

    /// Writes `word` across the current row and advances the cursor;
    /// rejected (grid untouched) when the grid is already full or the word
    /// does not span the width exactly.
    pub fn add_layer(&mut self, word: &PairString) -> (r: Option<()>)
        requires
            old(self).wf(),
        ensures
            final(self).wf(),
            final(self).width == old(self).width,
            final(self).depth == old(self).depth,
            match r {
                Option::None => *final(self) == *old(self) && (old(self).next_layer >= old(
                    self,
                ).depth || word@.len() != old(self).width),
                Option::Some(_) => {
                    &&& old(self).next_layer < old(self).depth
                    &&& word@.len() == old(self).width
                    &&& final(self).next_layer == old(self).next_layer + 1
                    &&& forall|i: int|
                        0 <= i < old(self).width ==> syms((#[trigger] final(self).columns@[i])@)
                            == syms(old(self).columns@[i]@).update(
                            old(self).next_layer as int,
                            word@[i],
                        )
                },
            },
    {
        if self.next_layer >= self.depth {
            return Option::None;
        }
        if word.len() != self.width {
            return Option::None;
        }
        let row = self.next_layer;
        let mut i: usize = 0;
        while i < self.width
            invariant
                old(self).wf(),
                self.width == old(self).width,
                self.depth == old(self).depth,
                self.next_layer == old(self).next_layer,
                row == self.next_layer,
                row < self.depth,
                word@.len() == self.width,
                self.columns@.len() == self.width,
                i <= self.width,
                forall|m: int|
                    0 <= m < self.width ==> (#[trigger] self.columns@[m])@.len() == self.depth,
                forall|m: int|
                    0 <= m < i ==> syms((#[trigger] self.columns@[m])@) == syms(
                        old(self).columns@[m]@,
                    ).update(row as int, word@[m]),
                forall|m: int|
                    i <= m < self.width ==> (#[trigger] self.columns@[m])@ == old(
                        self,
                    ).columns@[m]@,
            decreases self.width - i,
        {
            let mut column = self.columns.remove(i);
            let ghost pre_col = column@;
            let _ = column.remove(row);
            column.insert(row, word.pair_string[i]);
            proof {
                assert(column@ =~= pre_col.update(row as int, word.pair_string@[i as int]));
            }
            self.columns.insert(i, column);
            proof {
                assert(syms(self.columns@[i as int]@) =~= syms(old(self).columns@[i as int]@).update(
                    row as int,
                    word@[i as int],
                ));
            }
            i = i + 1;
        }
        self.next_layer = row + 1;
        Option::Some(())
    }

    /// Retreats the cursor by one committed row; does nothing on an empty
    /// grid. The retired row's cells are not cleared — they are simply no
    /// longer addressed.
    pub fn remove_layer(&mut self)
        requires
            old(self).wf(),
        ensures
            final(self).wf(),
            final(self).columns@ == old(self).columns@,
            final(self).width == old(self).width,
            final(self).depth == old(self).depth,
            final(self).next_layer == if old(self).next_layer > 0 {
                old(self).next_layer - 1
            } else {
                0
            },
    {
        if self.next_layer > 0 {
            self.next_layer = self.next_layer - 1;
        }
    }

    /// Moves the cursor back to the top; the grid data stays.
    pub fn reset(&mut self)
        requires
            old(self).wf(),
        ensures
            final(self).wf(),
            final(self).columns@ == old(self).columns@,
            final(self).width == old(self).width,
            final(self).depth == old(self).depth,
            final(self).next_layer == 0,
    {
        self.next_layer = 0;
    }

    /// The committed prefix of every column, left to right.
    pub fn get_columns(&self) -> (r: Vec<Vec<PairChar>>)
        requires
            self.wf(),
        ensures
            r@.len() == self.width,
            forall|i: int| 0 <= i < self.width ==> syms((#[trigger] r@[i])@) == self.col_syms(i),
            forall|i: int| 0 <= i < self.width ==> (#[trigger] r@[i])@.len() == self.next_layer,
    {
        let mut return_val: Vec<Vec<PairChar>> = Vec::new();
        let mut i: usize = 0;
        while i < self.width
            invariant
                self.wf(),
                i <= self.width,
                return_val@.len() == i,
                forall|m: int|
                    0 <= m < i ==> syms((#[trigger] return_val@[m])@) == self.col_syms(m),
                forall|m: int| 0 <= m < i ==> (#[trigger] return_val@[m])@.len() == self.next_layer,
            decreases self.width - i,
        {
            let column = &self.columns[i];
            let mut stem: Vec<PairChar> = Vec::new();
            let mut j: usize = 0;
            while j < self.next_layer
                invariant
                    self.wf(),
                    i < self.width,
                    j <= self.next_layer,
                    stem@.len() == j,
                    column == &self.columns[i as int],
                    forall|m: int| 0 <= m < j ==> stem@[m] == (#[trigger] column@[m]),
                decreases self.next_layer - j,
            {
                stem.push(column[j]);
                j = j + 1;
            }
            proof {
                assert(syms(stem@) =~= self.col_syms(i as int));
            }
            return_val.push(stem);
            i = i + 1;
        }
        return_val
    }

    /// The committed column prefixes, under the name the search uses.
    pub fn get_stems(&self) -> (r: Vec<Vec<PairChar>>)
        requires
            self.wf(),
        ensures
            r@.len() == self.width,
            forall|i: int| 0 <= i < self.width ==> syms((#[trigger] r@[i])@) == self.col_syms(i),
            forall|i: int| 0 <= i < self.width ==> (#[trigger] r@[i])@.len() == self.next_layer,
    {
        self.get_columns()
    }

    /// Every committed row with its blanks stripped, oldest first.
    pub fn get_rows(&self) -> (r: Vec<Vec<PairChar>>)
        requires
            self.wf(),
        ensures
            r@.len() == self.next_layer,
            forall|j: int|
                0 <= j < self.next_layer ==> syms((#[trigger] r@[j])@) == strip_blanks(
                    self.row_syms(j),
                ),
    {
        let mut rows: Vec<Vec<PairChar>> = Vec::new();
        let mut j: usize = 0;
        while j < self.next_layer
            invariant
                self.wf(),
                j <= self.next_layer,
                rows@.len() == j,
                forall|m: int|
                    0 <= m < j ==> syms((#[trigger] rows@[m])@) == strip_blanks(self.row_syms(m)),
            decreases self.next_layer - j,
        {
            let mut full_row: Vec<PairChar> = Vec::new();
            let mut i: usize = 0;
            while i < self.width
                invariant
                    self.wf(),
                    j < self.next_layer,
                    i <= self.width,
                    full_row@.len() == i,
                    forall|m: int| 0 <= m < i ==> (#[trigger] full_row@[m])@ == self.row_syms(
                        j as int,
                    )[m],
                decreases self.width - i,
            {
                full_row.push(self.columns[i][j]);
                i = i + 1;
            }
            proof {
                assert(syms(full_row@) =~= self.row_syms(j as int));
            }
            let stripped = clone_without_spacers(&full_row);
            rows.push(stripped);
            j = j + 1;
        }
        rows
    }

    /// Two committed words (a row or a column, blanks stripped) coincide
    /// somewhere in the grid, across both orientations.
    pub fn has_duplicates(&self) -> (r: bool)
        requires
            self.wf(),
        ensures
            r == self.has_dup_spec(),
    {
        let cols = self.get_columns();
        let rows = self.get_rows();
        let mut compacted: Vec<Vec<PairChar>> = Vec::new();
        let mut i: usize = 0;
        while i < cols.len()
            invariant
                self.wf(),
                cols@.len() == self.width,
                forall|m: int|
                    0 <= m < self.width ==> syms((#[trigger] cols@[m])@) == self.col_syms(m),
                i <= cols@.len(),
                compacted@.len() == i,
                forall|m: int|
                    0 <= m < i ==> syms((#[trigger] compacted@[m])@) == self.compacted_words()[m],
            decreases cols@.len() - i,
        {
            let stripped = clone_without_spacers(&cols[i]);
            compacted.push(stripped);
            i = i + 1;
        }
        let mut j: usize = 0;
        while j < rows.len()
            invariant
                self.wf(),
                rows@.len() == self.next_layer,
                forall|m: int|
                    0 <= m < self.next_layer ==> syms((#[trigger] rows@[m])@) == strip_blanks(
                        self.row_syms(m),
                    ),
                j <= rows@.len(),
                compacted@.len() == self.width + j,
                forall|m: int|
                    0 <= m < self.width + j ==> syms((#[trigger] compacted@[m])@)
                        == self.compacted_words()[m],
            decreases rows@.len() - j,
        {
            let stripped = clone_without_spacers(&rows[j]);
            proof {
                assert(strip_blanks(strip_blanks(self.row_syms(j as int))) == strip_blanks(
                    self.row_syms(j as int),
                )) by {
                    lemma_strip_idempotent(self.row_syms(j as int));
                }
            }
            compacted.push(stripped);
            j = j + 1;
        }
        let n = compacted.len();
        let mut a: usize = 0;
        while a < n
            invariant
                n == compacted@.len(),
                compacted@.len() == self.compacted_words().len(),
                forall|m: int|
                    0 <= m < compacted@.len() ==> syms((#[trigger] compacted@[m])@)
                        == self.compacted_words()[m],
                a <= n,
                forall|x: int, y: int|
                    0 <= x < a && x < y < compacted@.len() ==> self.compacted_words()[x]
                        != self.compacted_words()[y],
            decreases n - a,
        {
            let mut b: usize = a + 1;
            while b < n
                invariant
                    n == compacted@.len(),
                    compacted@.len() == self.compacted_words().len(),
                    forall|m: int|
                        0 <= m < compacted@.len() ==> syms((#[trigger] compacted@[m])@)
                            == self.compacted_words()[m],
                    a < b,
                    b <= n || a + 1 == b,
                    a < n,
                    forall|y: int|
                        a < y < b ==> self.compacted_words()[a as int] != self.compacted_words()[y],
                    forall|x: int, y: int|
                        0 <= x < a && x < y < compacted@.len() ==> self.compacted_words()[x]
                            != self.compacted_words()[y],
                decreases n - b,
            {
                if syms_equal(compacted[a].as_slice(), compacted[b].as_slice()) {
                    return true;
                }
                b = b + 1;
            }
            a = a + 1;
        }
        false
    }
}

/// The committed rows are determined by the committed column prefixes: two
/// grids of one shape and cursor whose column prefixes agree have the same
/// committed rows.
pub proof fn lemma_rows_from_cols(g1: PuzzleGrid, g2: PuzzleGrid)
    requires
        g1.wf(),
        g2.wf(),
        g1.width == g2.width,
        g1.next_layer == g2.next_layer,
        g1.committed_cols() == g2.committed_cols(),
    ensures
        g1.committed_rows() == g2.committed_rows(),
{
    assert forall|j: int| 0 <= j < g1.next_layer implies g1.row_syms(j) == g2.row_syms(j) by {
        assert forall|i: int| 0 <= i < g1.width implies g1.row_syms(j)[i] == g2.row_syms(j)[i] by {
            assert(g1.committed_cols()[i] == g2.committed_cols()[i]);
            assert(g1.col_syms(i)[j] == g1.row_syms(j)[i]);
            assert(g2.col_syms(i)[j] == g2.row_syms(j)[i]);
        }
        assert(g1.row_syms(j) =~= g2.row_syms(j));
    }
    assert(g1.committed_rows() =~= g2.committed_rows());
}

impl PuzzleGrid {
    /// The recursive backtracking step: commits `word` as the next row, and
    /// either completes the grid (accepting it only without duplicate
    /// words), or searches every legal next row below it. The result is
    /// exactly whether the admitted search below the committed word
    /// succeeds; on failure the grid's committed state is exactly as it was.
    pub fn populate_layer(
        &mut self,
        word: &PairString,
        horizontal_index: &BigramIndex,
        vertical_index: &BigramIndex,
    ) -> (r: bool)
        requires
            old(self).wf(),
            old(self).width >= 1,
            old(self).next_layer < old(self).depth,
            word@.len() == old(self).width,
            index_wf(*horizontal_index, old(self).width as int),
            index_wf(*vertical_index, old(self).depth as int),
            contains_word(*horizontal_index, word@),
            forall|j: int|
                0 <= j < old(self).next_layer ==> contains_word(
                    *horizontal_index,
                    #[trigger] old(self).row_syms(j),
                ),
            forall|i: int|
                0 <= i < old(self).width ==> has_path(
                    *vertical_index,
                    #[trigger] old(self).col_syms(i).push(word@[i]),
                ),
        ensures
            final(self).wf(),
            final(self).width == old(self).width,
            final(self).depth == old(self).depth,
            r ==> final(self).next_layer == final(self).depth && !final(self).has_dup_spec() && (
            forall|j: int|
                0 <= j < final(self).depth ==> contains_word(
                    *horizontal_index,
                    #[trigger] final(self).row_syms(j),
                )) && (forall|i: int|
                0 <= i < final(self).width ==> contains_word(
                    *vertical_index,
                    #[trigger] final(self).col_syms(i),
                )),
            !r ==> final(self).next_layer == old(self).next_layer && final(self).committed_cols()
                == old(self).committed_cols(),
            r == search_succeeds(
                index_words(*horizontal_index),
                index_words(*vertical_index),
                cols_plus_row(old(self).committed_cols(), word@),
                old(self).committed_rows().push(word@),
                old(self).depth - old(self).next_layer - 1,
            ),
        decreases old(self).depth - old(self).next_layer,
    {
        let ghost orig = *old(self);
        let added = self.add_layer(word);
        proof {
            assert(added is Some);
            assert forall|i: int| 0 <= i < self.width implies #[trigger] self.col_syms(i)
                == orig.col_syms(i).push(word@[i]) by {
                assert(self.col_syms(i) =~= orig.col_syms(i).push(word@[i]));
            }
            assert forall|j: int| 0 <= j < orig.next_layer implies #[trigger] self.row_syms(j)
                == orig.row_syms(j) by {
                assert forall|i: int| 0 <= i < self.width implies self.row_syms(j)[i]
                    == orig.row_syms(j)[i] by {
                    assert(syms(self.columns@[i]@) == syms(orig.columns@[i]@).update(
                        orig.next_layer as int,
                        word@[i],
                    ));
                    assert(self.columns@[i]@[j]@ == syms(self.columns@[i]@)[j]);
                    assert(orig.columns@[i]@[j]@ == syms(orig.columns@[i]@)[j]);
                }
                assert(self.row_syms(j) =~= orig.row_syms(j));
            }
            assert forall|i: int| 0 <= i < self.width implies self.row_syms(
                orig.next_layer as int,
            )[i] == word@[i] by {
                assert(syms(self.columns@[i]@) == syms(orig.columns@[i]@).update(
                    orig.next_layer as int,
                    word@[i],
                ));
                assert(self.columns@[i]@[orig.next_layer as int]@ == syms(self.columns@[i]@)[
                    orig.next_layer as int
                ]);
            }
            assert(self.row_syms(orig.next_layer as int) =~= word@);
        }
        let ghost after_add = *self;
        let ghost rw = index_words(*horizontal_index);
        let ghost cw = index_words(*vertical_index);
        let ghost scols = cols_plus_row(orig.committed_cols(), word@);
        let ghost srows = orig.committed_rows().push(word@);
        let ghost rem = orig.depth - orig.next_layer - 1;
        proof {
            assert(after_add.committed_cols() =~= scols);
            assert(after_add.committed_rows() =~= srows);
            assert(after_add.compacted_words() =~= compacted_of(scols, srows));
        }
        if self.is_complete() {
            if self.has_duplicates() {
                proof {
                    assert(rem == 0);
                    assert(dup_among(compacted_of(scols, srows)));
                    assert(!search_succeeds(rw, cw, scols, srows, rem));
                }
                self.remove_layer();
                proof {
                    assert forall|i: int| 0 <= i < self.width implies #[trigger] self.col_syms(i)
                        == orig.col_syms(i) by {
                        assert(self.col_syms(i) =~= after_add.col_syms(i).take(
                            orig.next_layer as int,
                        ));
                        assert(after_add.col_syms(i).take(orig.next_layer as int) =~= orig.col_syms(
                            i,
                        ));
                    }
                    assert(self.committed_cols() =~= orig.committed_cols());
                }
                return false;
            }
            proof {
                assert forall|j: int| 0 <= j < self.depth implies contains_word(
                    *horizontal_index,
                    #[trigger] self.row_syms(j),
                ) by {
                    if j == orig.next_layer {
                        assert(self.row_syms(j) == word@);
                    }
                }
                assert forall|i: int| 0 <= i < self.width implies contains_word(
                    *vertical_index,
                    #[trigger] self.col_syms(i),
                ) by {
                    assert(has_path(*vertical_index, orig.col_syms(i).push(word@[i])));
                    assert(self.col_syms(i).len() == self.depth);
                    lemma_word_iff_full_path(
                        *vertical_index,
                        self.depth as int,
                        self.col_syms(i),
                    );
                }
                assert(rem == 0);
                assert(!dup_among(compacted_of(scols, srows)));
                assert(search_succeeds(rw, cw, scols, srows, rem));
            }
            return true;
        }
        let stems = self.get_stems();
        let current_rows = self.get_rows();
        proof {
            assert(index_wf(*vertical_index, self.depth as int) && forall|i: int|
                0 <= i < stems@.len() ==> 1 <= (#[trigger] stems@[i])@.len() <= self.depth as int
                    - 1);
        }
        let possibles = vertical_index.get_possible_pairchars(&stems, &current_rows);
        proof {
            assert(crate::bigramindex::excl_views(current_rows@) =~= stripped_rows(srows));
            assert forall|i: int, k: int| 0 <= i < possibles@.len() implies (
            #[trigger] in_char_list(possibles@[i]@, k) <==> spec_candidates(
                cw,
                scols[i],
                stripped_rows(srows),
            ).contains(k)) by {
                assert(syms(stems@[i]@) == after_add.col_syms(i));
                assert(after_add.col_syms(i) == scols[i]);
                lemma_stem_candidates_words(
                    *vertical_index,
                    orig.depth as int,
                    scols[i],
                    stripped_rows(srows),
                );
            }
        }
        let candidate_words = BigramIndex::get_candidate_words(horizontal_index, &possibles);
        match candidate_words {
            Option::Some(v) => {
                let mut t: usize = 0;
                while t < v.len()
                    invariant
                        orig == *old(self),
                        word@.len() == orig.width,
                        rw == index_words(*horizontal_index),
                        cw == index_words(*vertical_index),
                        scols == after_add.committed_cols(),
                        srows == after_add.committed_rows(),
                        scols == cols_plus_row(orig.committed_cols(), word@),
                        srows == orig.committed_rows().push(word@),
                        rem == orig.depth - orig.next_layer - 1,
                        rem >= 1,
                        scols.len() == orig.width,
                        srows.len() == orig.next_layer + 1,
                        forall|i: int, k: int|
                            0 <= i < possibles@.len() ==> (#[trigger] in_char_list(
                                possibles@[i]@,
                                k,
                            ) <==> spec_candidates(cw, scols[i], stripped_rows(srows)).contains(k)),
                        forall|u: int|
                            0 <= u < t ==> !search_succeeds(
                                rw,
                                cw,
                                cols_plus_row(scols, (#[trigger] v@[u])@),
                                srows.push(v@[u]@),
                                rem - 1,
                            ),
                        self.wf(),
                        after_add.wf(),
                        self.width == after_add.width,
                        self.depth == after_add.depth,
                        self.next_layer == after_add.next_layer,
                        self.committed_cols() == after_add.committed_cols(),
                        orig.wf(),
                        after_add.width == orig.width,
                        after_add.depth == orig.depth,
                        after_add.next_layer == orig.next_layer + 1,
                        orig.next_layer + 1 < orig.depth,
                        orig.width >= 1,
                        forall|i: int|
                            0 <= i < orig.width ==> #[trigger] after_add.col_syms(i)
                                == orig.col_syms(i).push(word@[i]),
                        index_wf(*horizontal_index, orig.width as int),
                        index_wf(*vertical_index, orig.depth as int),
                        forall|j: int|
                            0 <= j < after_add.next_layer ==> contains_word(
                                *horizontal_index,
                                #[trigger] after_add.row_syms(j),
                            ),
                        stems@.len() == orig.width,
                        forall|i: int|
                            0 <= i < orig.width ==> syms((#[trigger] stems@[i])@)
                                == after_add.col_syms(i),
                        forall|i: int, k: int|
                            0 <= i < possibles@.len() ==> (#[trigger] in_char_list(
                                possibles@[i]@,
                                k,
                            ) <==> stem_candidates(
                                *vertical_index,
                                syms(stems@[i]@),
                                crate::bigramindex::excl_views(current_rows@),
                            ).contains(k)),
                        possibles@.len() == orig.width,
                        t <= v@.len(),
                        forall|u: int|
                            0 <= u < v@.len() ==> contains_word(
                                *horizontal_index,
                                (#[trigger] v@[u])@,
                            ) && v@[u]@.len() == orig.width && word_matches_filters(
                                possibles@,
                                v@[u]@,
                            ),
                    decreases v@.len() - t,
                {
                    proof {
                        assert forall|i: int| 0 <= i < self.width implies has_path(
                            *vertical_index,
                            #[trigger] self.col_syms(i).push(v@[t as int]@[i]),
                        ) by {
                            crate::bigramindex::lemma_matches_at(
                                possibles@,
                                v@[t as int]@,
                                i,
                            );
                            assert(in_char_list(possibles@[i]@, v@[t as int]@[i]));
                            assert(stem_candidates(
                                *vertical_index,
                                syms(stems@[i]@),
                                crate::bigramindex::excl_views(current_rows@),
                            ).contains(v@[t as int]@[i]));
                            assert(self.col_syms(i) == after_add.committed_cols()[i]);
                            assert(self.col_syms(i) == syms(stems@[i]@));
                        }
                        assert forall|j: int| 0 <= j < self.next_layer implies contains_word(
                            *horizontal_index,
                            #[trigger] self.row_syms(j),
                        ) by {
                            lemma_rows_from_cols(*self, after_add);
                            assert(self.row_syms(j) == self.committed_rows()[j]);
                            assert(after_add.row_syms(j) == after_add.committed_rows()[j]);
                        }
                        lemma_rows_from_cols(*self, after_add);
                        assert(self.committed_cols() == scols);
                        assert(self.committed_rows() == srows);
                    }
                    let ghost cur = *self;
                    let word_t = &v[t];
                    let found = self.populate_layer(word_t, horizontal_index, vertical_index);
                    if found {
                        proof {
                            let w = v@[t as int]@;
                            assert(search_succeeds(
                                rw,
                                cw,
                                cols_plus_row(scols, w),
                                srows.push(w),
                                rem - 1,
                            ));
                            assert(rw.contains(w));
                            assert(w.len() == scols.len());
                            assert forall|i: int| 0 <= i < scols.len() implies spec_candidates(
                                cw,
                                #[trigger] scols[i],
                                stripped_rows(srows),
                            ).contains(w[i]) by {
                                crate::bigramindex::lemma_matches_at(possibles@, w, i);
                                assert(in_char_list(possibles@[i]@, w[i]));
                            }
                            assert(search_succeeds(rw, cw, scols, srows, rem));
                        }
                        return true;
                    }
                    proof {
                        assert(!search_succeeds(
                            rw,
                            cw,
                            cols_plus_row(scols, v@[t as int]@),
                            srows.push(v@[t as int]@),
                            rem - 1,
                        ));
                    }
                    t = t + 1;
                }
                proof {
                    assert(!search_succeeds(rw, cw, scols, srows, rem)) by {
                        if search_succeeds(rw, cw, scols, srows, rem) {
                            let w = choose|w: Seq<int>|
                                #[trigger] rw.contains(w) && w.len() == scols.len() && (forall|
                                    i: int,
                                |
                                    0 <= i < scols.len() ==> spec_candidates(
                                        cw,
                                        #[trigger] scols[i],
                                        stripped_rows(srows),
                                    ).contains(w[i])) && search_succeeds(
                                    rw,
                                    cw,
                                    cols_plus_row(scols, w),
                                    srows.push(w),
                                    rem - 1,
                                );
                            assert(contains_word(*horizontal_index, w));
                            assert forall|i2: int|
                                0 <= i2 < w.len() implies #[trigger] in_char_list(
                                possibles@[0 + i2]@,
                                w[i2],
                            ) by {
                                assert(spec_candidates(
                                    cw,
                                    scols[i2],
                                    stripped_rows(srows),
                                ).contains(w[i2]));
                            }
                            assert(word_matches_filters(possibles@, w));
                            assert(crate::types::word_views_contain(v@, w));
                            let u = choose|u: int|
                                0 <= u < v@.len() && #[trigger] v@[u]@ == w;
                            assert(!search_succeeds(
                                rw,
                                cw,
                                cols_plus_row(scols, v@[u]@),
                                srows.push(v@[u]@),
                                rem - 1,
                            ));
                            assert(false);
                        }
                    }
                }
                let ghost before = *self;
                self.remove_layer();
                proof {
                    assert forall|i: int| 0 <= i < self.width implies #[trigger] self.col_syms(i)
                        == orig.col_syms(i) by {
                        assert(before.col_syms(i) == before.committed_cols()[i]);
                        assert(before.col_syms(i) == after_add.col_syms(i));
                        assert(self.col_syms(i) =~= before.col_syms(i).take(
                            orig.next_layer as int,
                        ));
                        assert(after_add.col_syms(i).take(orig.next_layer as int) =~= orig.col_syms(
                            i,
                        ));
                    }
                    assert(self.committed_cols() =~= orig.committed_cols());
                }
                false
            },
            Option::None => {
                proof {
                    assert(!search_succeeds(rw, cw, scols, srows, rem)) by {
                        if search_succeeds(rw, cw, scols, srows, rem) {
                            let w = choose|w: Seq<int>|
                                #[trigger] rw.contains(w) && w.len() == scols.len() && (forall|
                                    i: int,
                                |
                                    0 <= i < scols.len() ==> spec_candidates(
                                        cw,
                                        #[trigger] scols[i],
                                        stripped_rows(srows),
                                    ).contains(w[i])) && search_succeeds(
                                    rw,
                                    cw,
                                    cols_plus_row(scols, w),
                                    srows.push(w),
                                    rem - 1,
                                );
                            assert(contains_word(*horizontal_index, w));
                            assert forall|i2: int|
                                0 <= i2 < w.len() implies #[trigger] in_char_list(
                                possibles@[0 + i2]@,
                                w[i2],
                            ) by {
                                assert(spec_candidates(
                                    cw,
                                    scols[i2],
                                    stripped_rows(srows),
                                ).contains(w[i2]));
                            }
                            assert(word_matches_filters(possibles@, w));
                            assert(false);
                        }
                    }
                }
                self.remove_layer();
                proof {
                    assert forall|i: int| 0 <= i < self.width implies #[trigger] self.col_syms(i)
                        == orig.col_syms(i) by {
                        assert(self.col_syms(i) =~= after_add.col_syms(i).take(
                            orig.next_layer as int,
                        ));
                        assert(after_add.col_syms(i).take(orig.next_layer as int) =~= orig.col_syms(
                            i,
                        ));
                    }
                    assert(self.committed_cols() =~= orig.committed_cols());
                }
                false
            },
        }
    }
}

/// The word with every blank symbol removed, as the duplicate check
/// compares them.
fn clone_without_spacers(pairchar_slice: &Vec<PairChar>) -> (r: Vec<PairChar>)
    ensures
        syms(r@) == strip_blanks(syms(pairchar_slice@)),
{
    let mut pair_vec: Vec<PairChar> = Vec::new();
    let mut i: usize = 0;
    while i < pairchar_slice.len()
        invariant
            i <= pairchar_slice@.len(),
            syms(pair_vec@) == strip_blanks(syms(pairchar_slice@).take(i as int)),
        decreases pairchar_slice@.len() - i,
    {
        let ghost pre = syms(pair_vec@);
        let c = pairchar_slice[i];
        if !c.is_spacer() {
            pair_vec.push(c);
            proof {
                assert(syms(pair_vec@) =~= pre.push(c@));
            }
        }
        proof {
            reveal_with_fuel(Seq::filter, 2);
            let taken = syms(pairchar_slice@).take(i + 1 as int);
            assert(taken.drop_last() =~= syms(pairchar_slice@).take(i as int));
            assert(taken.last() == pairchar_slice@[i as int]@);
            assert(syms(pair_vec@) =~= strip_blanks(taken));
        }
        i = i + 1;
    }
    proof {
        assert(syms(pairchar_slice@).take(pairchar_slice@.len() as int) =~= syms(
            pairchar_slice@,
        ));
    }
    pair_vec
}

/// Stripping blanks twice is the same as stripping them once.
proof fn lemma_strip_idempotent(v: Seq<int>)
    ensures
        strip_blanks(strip_blanks(v)) == strip_blanks(v),
    decreases v.len(),
{
    broadcast use vstd::seq_lib::group_seq_properties;

    reveal_with_fuel(Seq::filter, 2);
    let pred = |x: int| x != crate::types::BLANK_SYMBOL as int;
    if v.len() == 0 {
        assert(strip_blanks(strip_blanks(v)) =~= strip_blanks(v));
    } else {
        lemma_strip_idempotent(v.drop_last());
        let front = strip_blanks(v.drop_last());
        if pred(v.last()) {
            assert(strip_blanks(v) == front.push(v.last()));
            assert(front.push(v.last()).drop_last() =~= front);
            assert(strip_blanks(strip_blanks(v)) == strip_blanks(front).push(v.last()));
        } else {
            assert(strip_blanks(v) == front);
        }
    }
}

} // verus!
