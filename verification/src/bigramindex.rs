//! Trie index keyed by digraph symbols: each node's children are keyed by
//! one symbol, a child entry without a subtree marks the end of a word, and
//! every word of one index has the same symbol length.

use crate::types::{is_word_sym, syms, word_views_contain, PairChar, PairString, WordList, BLANK_SYMBOL};
use crate::wordstore::{padded_set, WordStore};
use vstd::prelude::*;

verus! {

/// Symbol `k` occurs in the character list.
pub open spec fn in_char_list(l: Seq<PairChar>, k: int) -> bool {
    exists|i: int| 0 <= i < l.len() && (#[trigger] l[i])@ == k
}

/// The symbol sequences carried by a list of exclusion words.
pub open spec fn excl_views(e: Seq<Vec<PairChar>>) -> Seq<Seq<int>> {
    e.map_values(|v: Vec<PairChar>| syms(v@))
}

/// One step of narrowing the duplicate-exclusion words by a consumed stem
/// symbol: a blank consumes nothing, and any other symbol keeps exactly the
/// longer words it begins, trimmed by that first symbol.
pub open spec fn prune_exclusions(excl: Seq<Seq<int>>, k: int) -> Seq<Seq<int>>
    decreases excl.len(),
{
    if k == BLANK_SYMBOL as int {
        excl
    } else if excl.len() == 0 {
        Seq::empty()
    } else {
        let front = prune_exclusions(excl.drop_last(), k);
        if excl.last().len() > 1 && excl.last()[0] == k {
            front.push(excl.last().drop_first())
        } else {
            front
        }
    }
}

/// The exclusion words that survive descending the whole stem.
pub open spec fn residual_exclusions(excl: Seq<Seq<int>>, stem: Seq<int>) -> Seq<Seq<int>>
    decreases stem.len(),
{
    if stem.len() == 0 {
        excl
    } else {
        residual_exclusions(prune_exclusions(excl, stem[0]), stem.drop_first())
    }
}

/// Symbol `k` is barred at the final position: some surviving exclusion word
/// is down to exactly that symbol.
pub open spec fn excluded_final(excl: Seq<Seq<int>>, k: int) -> bool {
    exists|i: int| 0 <= i < excl.len() && (#[trigger] excl[i]).len() == 1 && excl[i][0] == k
}

/// The candidate set one stem yields: every symbol that extends the stem
/// along the index, less the symbols barred by the surviving exclusion words.
pub open spec fn stem_candidates(node: BigramIndex, stem: Seq<int>, excl: Seq<Seq<int>>) -> Set<
    int,
> {
    Set::new(
        |k: int|
            has_path(node, stem.push(k)) && !excluded_final(residual_exclusions(excl, stem), k),
    )
}

/// `w` lies in every per-position filter from position `d` on: symbol `i` of
/// `w` is admitted by filter `d + i`.
pub open spec fn tail_matches(filters: Seq<Vec<PairChar>>, d: int, w: Seq<int>) -> bool {
    forall|i: int| 0 <= i < w.len() ==> #[trigger] in_char_list(filters[d + i]@, w[i])
}

/// `w` lies in every per-position filter.
pub open spec fn word_matches_filters(filters: Seq<Vec<PairChar>>, w: Seq<int>) -> bool {
    tail_matches(filters, 0, w)
}

/// One child entry: a symbol key, and either a terminal marker (`None`,
/// a word ends here) or the subtree of longer continuations.
pub type IndexEntry = (PairChar, Option<Box<BigramIndex>>);

/// A trie node at a fixed depth; children are keyed by digraph symbol.
pub struct BigramIndex {
    pub index: Vec<IndexEntry>,
    pub depth: usize,
}

/// The trie below `node` holds the word `w`: its symbols name child entries
/// in turn, and the last one is a terminal marker.
pub open spec fn contains_word(node: BigramIndex, w: Seq<int>) -> bool
    decreases w.len(),
{
    w.len() >= 1 && exists|i: int|
        0 <= i < node.index@.len() && (#[trigger] node.index@[i]).0@ == w[0] && (
        match node.index@[i].1 {
            Option::None => w.len() == 1,
            Option::Some(c) => contains_word(*c, w.drop_first()),
        })
}

/// The trie below `node` can be descended along every symbol of `p`; the
/// last symbol may name either a terminal marker or a subtree.
pub open spec fn has_path(node: BigramIndex, p: Seq<int>) -> bool
    decreases p.len(),
{
    p.len() == 0 || exists|i: int|
        0 <= i < node.index@.len() && (#[trigger] node.index@[i]).0@ == p[0] && (
        match node.index@[i].1 {
            Option::None => p.len() == 1,
            Option::Some(c) => has_path(*c, p.drop_first()),
        })
}

/// Symbol `k` keys a child entry of `node`.
pub open spec fn key_in(node: BigramIndex, k: int) -> bool {
    exists|i: int| 0 <= i < node.index@.len() && (#[trigger] node.index@[i]).0@ == k
}

/// A well-formed index of height `h`: keys are distinct word symbols, every
/// entry at height one is a terminal marker, and every deeper entry is a
/// non-empty, well-formed subtree one level down — so every word held has
/// exactly `h` symbols, and every key leads to at least one word.
pub open spec fn index_wf(node: BigramIndex, h: int) -> bool
    decreases h,
{
    &&& h >= 1
    &&& node.depth + h <= usize::MAX
    &&& forall|i: int, j: int|
        0 <= i < j < node.index@.len() ==> (#[trigger] node.index@[i]).0@ != (
        #[trigger] node.index@[j]).0@
    &&& forall|i: int|
        0 <= i < node.index@.len() ==> is_word_sym((#[trigger] node.index@[i]).0@)
    &&& forall|i: int|
        0 <= i < node.index@.len() ==> (match (#[trigger] node.index@[i]).1 {
            Option::None => h == 1,
            Option::Some(c) => h > 1 && (*c).depth == node.depth + 1 && (*c).index@.len() >= 1
                && index_wf(*c, h - 1),
        })
}

/// In a well-formed index of height `h`, every held word has `h` symbols.
pub proof fn lemma_word_len(node: BigramIndex, h: int, w: Seq<int>)
    requires
        index_wf(node, h),
        contains_word(node, w),
    ensures
        w.len() == h,
    decreases h,
{
    let i = choose|i: int|
        0 <= i < node.index@.len() && (#[trigger] node.index@[i]).0@ == w[0] && (
        match node.index@[i].1 {
            Option::None => w.len() == 1,
            Option::Some(c) => contains_word(*c, w.drop_first()),
        });
    match node.index@[i].1 {
        Option::None => {},
        Option::Some(c) => {
            lemma_word_len(*c, h - 1, w.drop_first());
        },
    }
}

/// In a well-formed index of height `h`, holding a word is the same as
/// having a full-height path.
pub proof fn lemma_word_iff_full_path(node: BigramIndex, h: int, w: Seq<int>)
    requires
        index_wf(node, h),
    ensures
        contains_word(node, w) <==> (has_path(node, w) && w.len() == h),
    decreases h,
{
    if contains_word(node, w) {
        lemma_word_len(node, h, w);
        let i = choose|i: int|
            0 <= i < node.index@.len() && (#[trigger] node.index@[i]).0@ == w[0] && (
            match node.index@[i].1 {
                Option::None => w.len() == 1,
                Option::Some(c) => contains_word(*c, w.drop_first()),
            });
        match node.index@[i].1 {
            Option::None => {},
            Option::Some(c) => {
                lemma_word_iff_full_path(*c, h - 1, w.drop_first());
            },
        }
    }
    if has_path(node, w) && w.len() == h {
        let i = choose|i: int|
            0 <= i < node.index@.len() && (#[trigger] node.index@[i]).0@ == w[0] && (
            match node.index@[i].1 {
                Option::None => w.len() == 1,
                Option::Some(c) => has_path(*c, w.drop_first()),
            });
        match node.index@[i].1 {
            Option::None => {},
            Option::Some(c) => {
                lemma_word_iff_full_path(*c, h - 1, w.drop_first());
            },
        }
    }
}

/// The words an index holds, as a set.
pub open spec fn index_words(t: BigramIndex) -> Set<Seq<int>> {
    Set::new(|w: Seq<int>| contains_word(t, w))
}

/// `p` is a (possibly full) prefix of some word of the set.
pub open spec fn prefix_of_some(words: Set<Seq<int>>, p: Seq<int>) -> bool {
    exists|c: Seq<int>|
        #[trigger] words.contains(c) && p.len() <= c.len() && c.take(p.len() as int) == p
}

/// A well-formed index with at least one child entry holds at least one word.
proof fn lemma_nonempty_has_word(node: BigramIndex, h: int)
    requires
        index_wf(node, h),
        node.index@.len() >= 1,
    ensures
        exists|w: Seq<int>| #[trigger] contains_word(node, w),
    decreases h,
{
    match node.index@[0].1 {
        Option::None => {
            let w = seq![node.index@[0].0@];
            assert(contains_word(node, w));
        },
        Option::Some(c) => {
            lemma_nonempty_has_word(*c, h - 1);
            let w0 = choose|w0: Seq<int>| #[trigger] contains_word(*c, w0);
            let w = seq![node.index@[0].0@] + w0;
            assert(w[0] == node.index@[0].0@);
            assert(w.drop_first() =~= w0);
            assert(contains_word(node, w));
        },
    }
}

/// In a well-formed index, a non-empty path exists exactly when it is a
/// prefix of some held word.
pub proof fn lemma_path_iff_prefix(node: BigramIndex, h: int, p: Seq<int>)
    requires
        index_wf(node, h),
        p.len() >= 1,
    ensures
        has_path(node, p) <==> prefix_of_some(index_words(node), p),
    decreases h,
{
    if has_path(node, p) {
        let i = choose|i: int|
            0 <= i < node.index@.len() && (#[trigger] node.index@[i]).0@ == p[0] && (
            match node.index@[i].1 {
                Option::None => p.len() == 1,
                Option::Some(c) => has_path(*c, p.drop_first()),
            });
        match node.index@[i].1 {
            Option::None => {
                let w = seq![p[0]];
                assert(contains_word(node, w));
                assert(index_words(node).contains(w));
                assert(w.take(p.len() as int) =~= p);
            },
            Option::Some(c) => {
                if p.len() == 1 {
                    lemma_nonempty_has_word(*c, h - 1);
                    let w0 = choose|w0: Seq<int>| #[trigger] contains_word(*c, w0);
                    let w = seq![p[0]] + w0;
                    assert(w[0] == p[0]);
                    assert(w.drop_first() =~= w0);
                    assert(contains_word(node, w));
                    assert(index_words(node).contains(w));
                    lemma_word_len(*c, h - 1, w0);
                    assert(w.take(p.len() as int) =~= p);
                } else {
                    lemma_path_iff_prefix(*c, h - 1, p.drop_first());
                    assert(prefix_of_some(index_words(*c), p.drop_first()));
                    let w0 = choose|w0: Seq<int>|
                        #[trigger] index_words(*c).contains(w0) && p.drop_first().len() <= w0.len()
                            && w0.take(p.drop_first().len() as int) == p.drop_first();
                    let w = seq![p[0]] + w0;
                    assert(w[0] == p[0]);
                    assert(w.drop_first() =~= w0);
                    assert(contains_word(node, w));
                    assert(index_words(node).contains(w));
                    assert forall|q: int| 0 <= q < p.len() implies w[q] == p[q] by {
                        if q > 0 {
                            assert(p.drop_first()[q - 1] == w0.take(
                                p.drop_first().len() as int,
                            )[q - 1]);
                        }
                    }
                    assert(w.take(p.len() as int) =~= p);
                }
            },
        }
    }
    if prefix_of_some(index_words(node), p) {
        let c0 = choose|c0: Seq<int>|
            #[trigger] index_words(node).contains(c0) && p.len() <= c0.len() && c0.take(
                p.len() as int,
            ) == p;
        assert(contains_word(node, c0));
        lemma_prefix_path(node, h, c0, p);
    }
}

/// A prefix of a held word is a path of the index.
proof fn lemma_prefix_path(node: BigramIndex, h: int, w: Seq<int>, p: Seq<int>)
    requires
        index_wf(node, h),
        contains_word(node, w),
        1 <= p.len() <= w.len(),
        w.take(p.len() as int) == p,
    ensures
        has_path(node, p),
    decreases h,
{
    let i = choose|i: int|
        0 <= i < node.index@.len() && (#[trigger] node.index@[i]).0@ == w[0] && (
        match node.index@[i].1 {
            Option::None => w.len() == 1,
            Option::Some(c) => contains_word(*c, w.drop_first()),
        });
    assert(p[0] == w[0]);
    match node.index@[i].1 {
        Option::None => {
            assert(p.len() == 1);
            assert(has_path(node, p));
        },
        Option::Some(c) => {
            if p.len() == 1 {
                assert(has_path(*c, p.drop_first()));
                assert(has_path(node, p));
            } else {
                assert(w.drop_first().take(p.drop_first().len() as int) =~= p.drop_first());
                lemma_prefix_path(*c, h - 1, w.drop_first(), p.drop_first());
                assert(has_path(node, p));
            }
        },
    }
}

/// The candidate set one stem yields, stated over a set of column words: the
/// symbols extending the stem toward some column word, less those barred by
/// the surviving exclusion words.
pub open spec fn spec_candidates(colwords: Set<Seq<int>>, stem: Seq<int>, excl: Seq<Seq<int>>) -> Set<int> {
    Set::new(
        |k: int|
            prefix_of_some(colwords, stem.push(k)) && !excluded_final(
                residual_exclusions(excl, stem),
                k,
            ),
    )
}

/// For a well-formed index, the trie-walk candidate set and the word-set
/// candidate set agree.
pub proof fn lemma_stem_candidates_words(node: BigramIndex, h: int, stem: Seq<int>, excl: Seq<Seq<int>>)
    requires
        index_wf(node, h),
    ensures
        stem_candidates(node, stem, excl) == spec_candidates(index_words(node), stem, excl),
{
    assert forall|k: int|
        stem_candidates(node, stem, excl).contains(k) == spec_candidates(
            index_words(node),
            stem,
            excl,
        ).contains(k) by {
        lemma_path_iff_prefix(node, h, stem.push(k));
    }
    assert(stem_candidates(node, stem, excl) =~= spec_candidates(index_words(node), stem, excl));
}

impl BigramIndex {
    /// An empty index node at the given depth.
    pub fn new(depth: usize) -> (r: BigramIndex)
        ensures
            r.index@.len() == 0,
            r.depth == depth,
    {
        let index: Vec<IndexEntry> = Vec::new();
        BigramIndex { index, depth }
    }

    /// The position of the child entry keyed by `key`, if there is one.
    fn find_key(&self, key: PairChar) -> (r: Option<usize>)
        ensures
            match r {
                Option::Some(j) => j < self.index@.len() && self.index@[j as int].0 == key,
                Option::None => !key_in(*self, key@),
            },
    {
        let mut j: usize = 0;
        while j < self.index.len()
            invariant
                j <= self.index@.len(),
                forall|i: int| 0 <= i < j ==> (#[trigger] self.index@[i]).0@ != key@,
            decreases self.index@.len() - j,
        {
            let entry_key = self.index[j].0;
            if entry_key == key {
                return Option::Some(j);
            }
            proof {
                assert(entry_key@ != key@);
            }
            j = j + 1;
        }
        Option::None
    }

    /// Inserts the tail of `word` starting at `pos` below `node`, threading
    /// ownership through the return value; every other word is kept.
    fn index_word(node: BigramIndex, word: &PairString, pos: usize) -> (r: BigramIndex)
        requires
            pos < word@.len(),
            index_wf(node, word@.len() - pos),
            forall|i: int| pos <= i < word@.len() ==> is_word_sym(#[trigger] word@[i]),
        ensures
            index_wf(r, word@.len() - pos),
            r.depth == node.depth,
            forall|w: Seq<int>|
                #[trigger] contains_word(r, w) <==> (contains_word(node, w) || w == word@.skip(
                    pos as int,
                )),
        decreases word@.len() - pos,
    {
        let ghost suffix = word@.skip(pos as int);
        proof {
            assert(suffix.len() == word@.len() - pos);
            assert(suffix[0] == word@[pos as int]);
            assert(suffix.drop_first() =~= word@.skip(pos + 1 as int));
        }
        let ghost old_node = node;
        let mut node = node;
        let key = word.pair_string[pos];
        let found = node.find_key(key);
        let word_len = word.len();
        let last = pos + 1 == word_len;
        if last {
            match found {
                Option::Some(j) => {
                    proof {
                        assert(node.index@[j as int].0@ == suffix[0]);
                        assert(node.index@[j as int].1 is None);
                        assert(contains_word(node, suffix));
                    }
                    node
                },
                Option::None => {
                    node.index.push((key, Option::None));
                    proof {
                        lemma_push_terminal(old_node, node, key, suffix);
                    }
                    node
                },
            }
        } else {
            match found {
                Option::Some(j) => {
                    let (k0, child_opt) = node.index.remove(j);
                    let child_box = match child_opt {
                        Option::Some(b) => b,
                        Option::None => {
                            proof {
                                assert(false);
                            }
                            Box::new(BigramIndex::new(0))
                        },
                    };
                    let ghost old_child = *child_box;
                    let new_child = BigramIndex::index_word(*child_box, word, pos + 1);
                    node.index.insert(j, (k0, Option::Some(Box::new(new_child))));
                    proof {
                        assert(contains_word(new_child, word@.skip(pos + 1 as int)));
                        assert(new_child.index@.len() >= 1);
                        assert(node.index@ =~= old_node.index@.update(
                            j as int,
                            node.index@[j as int],
                        ));
                        lemma_update_child(
                            old_node,
                            node,
                            j as int,
                            key,
                            old_child,
                            new_child,
                            suffix,
                        );
                    }
                    node
                },
                Option::None => {
                    let empty_child = BigramIndex::new(node.depth + 1);
                    let new_child = BigramIndex::index_word(empty_child, word, pos + 1);
                    node.index.push((key, Option::Some(Box::new(new_child))));
                    proof {
                        assert(contains_word(new_child, word@.skip(pos + 1 as int)));
                        assert(new_child.index@.len() >= 1);
                        lemma_push_subtree(old_node, node, key, new_child, suffix);
                    }
                    node
                },
            }
        }
    }

    /// The symbols keying this node's child entries.
    pub fn get_keys_as_hashset(&self) -> (r: Vec<PairChar>)
        ensures
            r@.len() == self.index@.len(),
            forall|i: int| 0 <= i < r@.len() ==> r@[i] == (#[trigger] self.index@[i]).0,
            forall|k: int| in_char_list(r@, k) <==> key_in(*self, k),
    {
        let mut key_set: Vec<PairChar> = Vec::new();
        let mut i: usize = 0;
        while i < self.index.len()
            invariant
                i <= self.index@.len(),
                key_set@.len() == i,
                forall|j: int| 0 <= j < i ==> key_set@[j] == (#[trigger] self.index@[j]).0,
            decreases self.index@.len() - i,
        {
            key_set.push(self.index[i].0);
            i = i + 1;
        }
        proof {
            assert forall|k: int| in_char_list(key_set@, k) implies key_in(*self, k) by {
                let t = choose|t: int| 0 <= t < key_set@.len() && (#[trigger] key_set@[t])@ == k;
                assert(self.index@[t].0@ == k);
            }
            assert forall|k: int| key_in(*self, k) implies in_char_list(key_set@, k) by {
                let t = choose|t: int|
                    0 <= t < self.index@.len() && (#[trigger] self.index@[t]).0@ == k;
                assert(key_set@[t]@ == k);
            }
        }
        key_set
    }

    /// This node's keys, less the symbols that the surviving exclusion words
    /// bar at the final position.
    fn get_keys_with_exclusions(&self, exclusions: &Vec<Vec<PairChar>>) -> (r: Vec<PairChar>)
        ensures
            forall|k: int|
                #[trigger] in_char_list(r@, k) <==> (key_in(*self, k) && !excluded_final(
                    excl_views(exclusions@),
                    k,
                )),
    {
        let mut trimmed: Vec<PairChar> = Vec::new();
        let mut i: usize = 0;
        while i < self.index.len()
            invariant
                i <= self.index@.len(),
                forall|t: int|
                    0 <= t < trimmed@.len() ==> (exists|j: int|
                        0 <= j < i && (#[trigger] trimmed@[t])@ == (#[trigger] self.index@[j]).0@)
                        && !excluded_final(excl_views(exclusions@), trimmed@[t]@),
                forall|j: int|
                    0 <= j < i && !excluded_final(excl_views(exclusions@), (
                    #[trigger] self.index@[j]).0@) ==> in_char_list(
                        trimmed@,
                        self.index@[j].0@,
                    ),
            decreases self.index@.len() - i,
        {
            let key = self.index[i].0;
            let ghost pre = trimmed@;
            if !excluded_final_exec(exclusions, key) {
                trimmed.push(key);
            }
            proof {
                assert forall|j: int|
                    0 <= j < i + 1 && !excluded_final(excl_views(exclusions@), (
                    #[trigger] self.index@[j]).0@) implies in_char_list(
                    trimmed@,
                    self.index@[j].0@,
                ) by {
                    if j < i {
                        let t = choose|t: int|
                            0 <= t < pre.len() && (#[trigger] pre[t])@ == self.index@[j].0@;
                        assert(trimmed@[t]@ == self.index@[j].0@);
                    } else {
                        assert(trimmed@[trimmed@.len() - 1]@ == self.index@[j].0@);
                    }
                }
            }
            i = i + 1;
        }
        proof {
            assert forall|k: int| #[trigger] in_char_list(trimmed@, k) implies (key_in(*self, k)
                && !excluded_final(excl_views(exclusions@), k)) by {
                let t = choose|t: int| 0 <= t < trimmed@.len() && (#[trigger] trimmed@[t])@ == k;
            }
            assert forall|k: int|
                key_in(*self, k) && !excluded_final(
                    excl_views(exclusions@),
                    k,
                ) implies #[trigger] in_char_list(trimmed@, k) by {
                let j = choose|j: int|
                    0 <= j < self.index@.len() && (#[trigger] self.index@[j]).0@ == k;
            }
        }
        trimmed
    }

    /// Descends the index along `stem` from `pos` on and returns the
    /// admitted next symbols, or nothing when the index runs out first.
    fn next_possible_pairchars(
        node: &BigramIndex,
        stem: &Vec<PairChar>,
        pos: usize,
        exclusions: &Vec<Vec<PairChar>>,
        Ghost(h): Ghost<int>,
    ) -> (r: Vec<PairChar>)
        requires
            index_wf(*node, h),
            pos < stem@.len(),
            stem@.len() - pos <= h - 1,
        ensures
            forall|k: int|
                #[trigger] in_char_list(r@, k) <==> stem_candidates(
                    *node,
                    syms(stem@).skip(pos as int),
                    excl_views(exclusions@),
                ).contains(k),
        decreases stem@.len() - pos,
    {
        let ghost rem = syms(stem@).skip(pos as int);
        proof {
            assert(rem.len() == stem@.len() - pos);
            assert(rem[0] == stem@[pos as int]@);
            assert(rem.drop_first() =~= syms(stem@).skip(pos + 1 as int));
        }
        let stem_len = stem.len();
        let key = stem[pos];
        match node.find_key(key) {
            Option::None => {
                let r: Vec<PairChar> = Vec::new();
                proof {
                    assert forall|k: int| !stem_candidates(
                        *node,
                        rem,
                        excl_views(exclusions@),
                    ).contains(k) by {
                        assert(rem.push(k)[0] == key@);
                        assert(!has_path(*node, rem.push(k)));
                    }
                }
                r
            },
            Option::Some(j) => {
                let new_exclusions = prune_exclusion_words(exclusions, &key);
                let child: &BigramIndex = match &node.index[j].1 {
                    Option::Some(b) => &*b,
                    Option::None => {
                        proof {
                            assert(false);
                        }
                        node
                    },
                };
                proof {
                    assert(index_wf(*child, h - 1));
                    assert forall|k: int| has_path(*node, rem.push(k)) <==> has_path(
                        *child,
                        rem.drop_first().push(k),
                    ) by {
                        assert(rem.push(k).drop_first() =~= rem.drop_first().push(k));
                        if has_path(*node, rem.push(k)) {
                            let i = choose|i: int|
                                0 <= i < node.index@.len() && (#[trigger] node.index@[i]).0@
                                    == rem.push(k)[0] && (match node.index@[i].1 {
                                    Option::None => rem.push(k).len() == 1,
                                    Option::Some(c) => has_path(*c, rem.push(k).drop_first()),
                                });
                            assert(i == j as int);
                        }
                        if has_path(*child, rem.drop_first().push(k)) {
                            assert(node.index@[j as int].0@ == rem.push(k)[0]);
                            assert(has_path(*node, rem.push(k)));
                        }
                    }
                    assert(residual_exclusions(excl_views(exclusions@), rem)
                        == residual_exclusions(excl_views(new_exclusions@), rem.drop_first()));
                }
                if pos + 1 == stem_len {
                    let r = child.get_keys_with_exclusions(&new_exclusions);
                    proof {
                        assert(rem.drop_first() =~= Seq::<int>::empty());
                        assert forall|k: int| key_in(*child, k) <==> has_path(
                            *child,
                            rem.drop_first().push(k),
                        ) by {
                            assert(rem.drop_first().push(k)[0] == k);
                            if key_in(*child, k) {
                                let i = choose|i: int|
                                    0 <= i < child.index@.len() && (#[trigger] child.index@[i]).0@
                                        == k;
                                match child.index@[i].1 {
                                    Option::Some(c) => {
                                        assert(rem.drop_first().push(k).drop_first()
                                            =~= Seq::<int>::empty());
                                        assert(has_path(*c, Seq::<int>::empty()));
                                    },
                                    Option::None => {},
                                }
                                assert(has_path(*child, rem.drop_first().push(k)));
                            }
                        }
                    }
                    r
                } else {
                    BigramIndex::next_possible_pairchars(
                        child,
                        stem,
                        pos + 1,
                        &new_exclusions,
                        Ghost(h - 1),
                    )
                }
            },
        }
    }

    /// The candidate next symbols for each column stem: per stem, the
    /// symbols that extend it along this index, less those that would
    /// complete a word already used elsewhere in the grid. A stem with no
    /// continuation yields an empty set.
    pub fn get_possible_pairchars(
        &self,
        stems: &Vec<Vec<PairChar>>,
        exclusion_words: &Vec<Vec<PairChar>>,
    ) -> (r: Vec<Vec<PairChar>>)
        requires
            exists|h: int|
                index_wf(*self, h) && forall|i: int|
                    0 <= i < stems@.len() ==> 1 <= (#[trigger] stems@[i])@.len() <= h - 1,
        ensures
            r@.len() == stems@.len(),
            forall|i: int, k: int|
                0 <= i < r@.len() ==> (#[trigger] in_char_list(r@[i]@, k) <==> stem_candidates(
                    *self,
                    syms(stems@[i]@),
                    excl_views(exclusion_words@),
                ).contains(k)),
    {
        let ghost h = choose|h: int|
            index_wf(*self, h) && forall|i: int|
                0 <= i < stems@.len() ==> 1 <= (#[trigger] stems@[i])@.len() <= h - 1;
        let mut possible_chars: Vec<Vec<PairChar>> = Vec::new();
        let mut i: usize = 0;
        while i < stems.len()
            invariant
                index_wf(*self, h),
                forall|t: int| 0 <= t < stems@.len() ==> 1 <= (#[trigger] stems@[t])@.len() <= h - 1,
                i <= stems@.len(),
                possible_chars@.len() == i,
                forall|t: int, k: int|
                    0 <= t < i ==> (#[trigger] in_char_list(possible_chars@[t]@, k)
                        <==> stem_candidates(
                        *self,
                        syms(stems@[t]@),
                        excl_views(exclusion_words@),
                    ).contains(k)),
            decreases stems@.len() - i,
        {
            let new_possibles = BigramIndex::next_possible_pairchars(
                self,
                &stems[i],
                0,
                exclusion_words,
                Ghost(h),
            );
            proof {
                assert(syms(stems@[i as int]@).skip(0) =~= syms(stems@[i as int]@));
            }
            possible_chars.push(new_possibles);
            i = i + 1;
        }
        possible_chars
    }

    /// Builds the index of every padded candidate word of `size` symbols
    /// held by the corpus: the words of the finished index are exactly
    /// `paddedToLength(size, max_spaces)`.
    pub fn build(size: usize, word_store: &WordStore, max_spaces: usize) -> (r: BigramIndex)
        requires
            word_store.wf(),
            1 <= size < usize::MAX,
        ensures
            index_wf(r, size as int),
            r.depth == 0,
            forall|w: Seq<int>|
                #[trigger] contains_word(r, w) <==> padded_set(
                    word_store@,
                    size as int,
                    max_spaces as int,
                ).contains(w),
    {
        let words: WordList = word_store.permuted_words_by_length(size, max_spaces);
        let mut root = BigramIndex::new(0);
        let mut i: usize = 0;
        while i < words.len()
            invariant
                word_store.wf(),
                size >= 1,
                index_wf(root, size as int),
                root.depth == 0,
                i <= words@.len(),
                forall|j: int|
                    0 <= j < words@.len() ==> padded_set(
                        word_store@,
                        size as int,
                        max_spaces as int,
                    ).contains(#[trigger] words@[j]@),
                forall|j: int| 0 <= j < words@.len() ==> (#[trigger] words@[j]@).len() == size,
                forall|v: Seq<int>|
                    #[trigger] padded_set(word_store@, size as int, max_spaces as int).contains(v)
                        ==> crate::types::word_views_contain(words@, v),
                forall|w: Seq<int>|
                    #[trigger] contains_word(root, w) <==> exists|j: int|
                        0 <= j < i && words@[j]@ == w,
            decreases words@.len() - i,
        {
            proof {
                crate::wordstore::lemma_padded_word_syms(
                    word_store@,
                    size as int,
                    max_spaces as int,
                    words@[i as int]@,
                );
            }
            let ghost pre_root_words: Set<Seq<int>> = Set::new(|w: Seq<int>| contains_word(root, w));
            let ghost old_root = root;
            root = BigramIndex::index_word(root, &words[i], 0);
            proof {
                assert(words@[i as int]@.skip(0) =~= words@[i as int]@);
                assert forall|w: Seq<int>| #[trigger] contains_word(root, w) implies (exists|j: int|
                    0 <= j < i + 1 && words@[j]@ == w) by {
                    if contains_word(old_root, w) {
                        let j = choose|j: int| 0 <= j < i && #[trigger] words@[j]@ == w;
                        assert(0 <= j < i + 1 && words@[j]@ == w);
                    } else {
                        assert(words@[i as int]@ == w);
                    }
                }
                assert forall|w: Seq<int>| (exists|j: int| 0 <= j < i + 1 && words@[j]@ == w)
                    implies #[trigger] contains_word(root, w) by {
                    let j = choose|j: int| 0 <= j < i + 1 && #[trigger] words@[j]@ == w;
                    if j < i {
                        assert(contains_word(old_root, w));
                    }
                }
            }
            i = i + 1;
        }
        proof {
            assert forall|w: Seq<int>| #[trigger] contains_word(root, w) implies padded_set(
                word_store@,
                size as int,
                max_spaces as int,
            ).contains(w) by {
                let j = choose|j: int| 0 <= j < words@.len() && #[trigger] words@[j]@ == w;
            }
            assert forall|w: Seq<int>| #[trigger] padded_set(
                word_store@,
                size as int,
                max_spaces as int,
            ).contains(w) implies contains_word(root, w) by {
                assert(crate::types::word_views_contain(words@, w));
                let j = choose|j: int| 0 <= j < words@.len() && #[trigger] words@[j]@ == w;
            }
        }
        root
    }
}

/// True exactly when `key` occurs in the list.
pub fn char_in_list(list: &Vec<PairChar>, key: PairChar) -> (r: bool)
    ensures
        r == in_char_list(list@, key@),
{
    let mut i: usize = 0;
    while i < list.len()
        invariant
            i <= list@.len(),
            forall|j: int| 0 <= j < i ==> (#[trigger] list@[j])@ != key@,
        decreases list@.len() - i,
    {
        if list[i] == key {
            return true;
        }
        i = i + 1;
    }
    false
}

/// Narrows the exclusion words by one consumed stem symbol.
fn prune_exclusion_words(exclusions: &Vec<Vec<PairChar>>, key: &PairChar) -> (r: Vec<
    Vec<PairChar>,
>)
    ensures
        excl_views(r@) == prune_exclusions(excl_views(exclusions@), key@),
{
    let mut new_exclusions: Vec<Vec<PairChar>> = Vec::new();
    if key.is_spacer() {
        let mut i: usize = 0;
        while i < exclusions.len()
            invariant
                i <= exclusions@.len(),
                excl_views(new_exclusions@) == excl_views(exclusions@).take(i as int),
            decreases exclusions@.len() - i,
        {
            let ghost pre = new_exclusions@;
            new_exclusions.push(crate::types::clone_pairchar_vec(&exclusions[i]));
            proof {
                assert(excl_views(new_exclusions@) =~= excl_views(pre).push(
                    syms(exclusions@[i as int]@),
                ));
                assert(excl_views(exclusions@).take(i + 1 as int) =~= excl_views(pre).push(
                    syms(exclusions@[i as int]@),
                ));
            }
            i = i + 1;
        }
        proof {
            assert(excl_views(exclusions@).take(exclusions@.len() as int) =~= excl_views(
                exclusions@,
            ));
        }
    } else {
        let mut i: usize = 0;
        while i < exclusions.len()
            invariant
                key@ != BLANK_SYMBOL as int,
                i <= exclusions@.len(),
                excl_views(new_exclusions@) == prune_exclusions(
                    excl_views(exclusions@).take(i as int),
                    key@,
                ),
            decreases exclusions@.len() - i,
        {
                let ghost pre = excl_views(new_exclusions@);
            let e = &exclusions[i];
            if e.len() > 1 && e[0] == *key {
                let tail = vstd::slice::slice_subrange(e.as_slice(), 1, e.len());
                let mut trimmed: Vec<PairChar> = Vec::new();
                let mut t: usize = 0;
                while t < tail.len()
                    invariant
                        t <= tail@.len(),
                        trimmed@ == tail@.take(t as int),
                    decreases tail@.len() - t,
                {
                    trimmed.push(tail[t]);
                    proof {
                        assert(tail@.take(t + 1 as int) =~= tail@.take(t as int).push(
                            tail@[t as int],
                        ));
                    }
                    t = t + 1;
                }
                proof {
                    assert(tail@.take(tail@.len() as int) =~= tail@);
                }
                new_exclusions.push(trimmed);
                proof {
                    assert(syms(trimmed@) =~= syms(exclusions@[i as int]@).drop_first());
                    assert(excl_views(new_exclusions@) =~= pre.push(
                        syms(exclusions@[i as int]@).drop_first(),
                    ));
                }
            }
            proof {
                assert(excl_views(exclusions@).take(i + 1 as int).drop_last() =~= excl_views(
                    exclusions@,
                ).take(i as int));
                assert(excl_views(exclusions@).take(i + 1 as int).last() == syms(
                    exclusions@[i as int]@,
                ));
                assert(excl_views(new_exclusions@) =~= prune_exclusions(
                    excl_views(exclusions@).take(i + 1 as int),
                    key@,
                ));
            }
            i = i + 1;
        }
        proof {
            assert(excl_views(exclusions@).take(exclusions@.len() as int) =~= excl_views(
                exclusions@,
            ));
        }
    }
    new_exclusions
}

/// True exactly when some surviving exclusion word bars `key` at the final
/// position.
fn excluded_final_exec(exclusions: &Vec<Vec<PairChar>>, key: PairChar) -> (r: bool)
    ensures
        r == excluded_final(excl_views(exclusions@), key@),
{
    let mut i: usize = 0;
    while i < exclusions.len()
        invariant
            i <= exclusions@.len(),
            forall|j: int|
                0 <= j < i ==> !((#[trigger] excl_views(exclusions@)[j]).len() == 1 && excl_views(
                    exclusions@,
                )[j][0] == key@),
        decreases exclusions@.len() - i,
    {
        let e = &exclusions[i];
        if e.len() == 1 && e[0] == key {
            proof {
                assert(excl_views(exclusions@)[i as int].len() == 1 && excl_views(exclusions@)[
                    i as int
                ][0] == key@);
            }
            return true;
        }
        i = i + 1;
    }
    false
}

/// `w` runs through the child entry `j` of `node`: the entry's key is its
/// first symbol and the rest of `w` continues below the entry.
pub open spec fn word_via_entry(node: BigramIndex, j: int, w: Seq<int>) -> bool {
    &&& 0 <= j < node.index@.len()
    &&& w.len() >= 1
    &&& node.index@[j].0@ == w[0]
    &&& match node.index@[j].1 {
        Option::None => w.len() == 1,
        Option::Some(c) => contains_word(*c, w.drop_first()),
    }
}

proof fn lemma_tail_matches_at(filters: Seq<Vec<PairChar>>, d: int, w: Seq<int>, i: int)
    requires
        tail_matches(filters, d, w),
        0 <= i < w.len(),
    ensures
        in_char_list(filters[d + i]@, w[i]),
{
}

/// A symbol that keys a child entry of a node starts a one-symbol path.
pub proof fn lemma_key_path(node: BigramIndex, k: int)
    requires
        key_in(node, k),
    ensures
        has_path(node, seq![k]),
{
    let i = choose|i: int| 0 <= i < node.index@.len() && (#[trigger] node.index@[i]).0@ == k;
    assert(seq![k][0] == k);
    match node.index@[i].1 {
        Option::Some(c) => {
            assert(seq![k].drop_first() =~= Seq::<int>::empty());
            assert(has_path(*c, Seq::<int>::empty()));
        },
        Option::None => {},
    }
    assert(has_path(node, seq![k]));
}

/// Corpus-lookup law: in an index holding exactly the padded candidate words
/// of a corpus, every such word is found by descending the index along its
/// own symbols, reaching a terminal marker at the final symbol — the index
/// both holds the word and offers a path spanning its full length.
pub proof fn lemma_corpus_word_descends(
    t: BigramIndex,
    n: int,
    store: Seq<Seq<Seq<int>>>,
    k: int,
    v: Seq<int>,
)
    requires
        index_wf(t, n),
        forall|w: Seq<int>|
            #[trigger] contains_word(t, w) <==> crate::wordstore::padded_set(store, n, k).contains(
                w,
            ),
        crate::wordstore::padded_set(store, n, k).contains(v),
    ensures
        contains_word(t, v),
        has_path(t, v),
        v.len() == n,
{
    assert(contains_word(t, v));
    lemma_word_iff_full_path(t, n, v);
}

/// Singleton-filter law: against filters that admit exactly the symbols of
/// one word `w` held by the index, the words that both lie in the index and
/// match the filters are exactly `w` — no other word survives.
pub proof fn lemma_singleton_filters(
    t: BigramIndex,
    n: int,
    w: Seq<int>,
    filters: Seq<Vec<PairChar>>,
)
    requires
        index_wf(t, n),
        contains_word(t, w),
        filters.len() == n,
        forall|i: int, k: int|
            0 <= i < n ==> (#[trigger] in_char_list(filters[i]@, k) <==> k == w[i]),
    ensures
        forall|w2: Seq<int>|
            (#[trigger] contains_word(t, w2) && word_matches_filters(filters, w2)) <==> w2 == w,
{
    lemma_word_len(t, n, w);
    assert forall|w2: Seq<int>|
        (#[trigger] contains_word(t, w2) && word_matches_filters(filters, w2)) <==> w2 == w by {
        if contains_word(t, w2) && word_matches_filters(filters, w2) {
            lemma_word_len(t, n, w2);
            assert forall|i: int| 0 <= i < w2.len() implies w2[i] == w[i] by {
                lemma_matches_at(filters, w2, i);
                assert(in_char_list(filters[i]@, w2[i]));
            }
            assert(w2 =~= w);
        }
        if w2 == w {
            assert forall|i: int| 0 <= i < w.len() implies #[trigger] in_char_list(
                filters[0 + i]@,
                w[i],
            ) by {
                assert(in_char_list(filters[i]@, w[i]));
            }
            assert(tail_matches(filters, 0, w));
        }
    }
}

/// A word that matches the per-position filters is admitted by each of them.
pub proof fn lemma_matches_at(filters: Seq<Vec<PairChar>>, w: Seq<int>, i: int)
    requires
        word_matches_filters(filters, w),
        0 <= i < w.len(),
    ensures
        in_char_list(filters[i]@, w[i]),
{
    lemma_tail_matches_at(filters, 0, w, i);
}

/// Every filter-matching word through entry `j` occurs in `wordsv`.
spec fn entry_covered(
    wordsv: Seq<PairString>,
    node: BigramIndex,
    filters: Seq<Vec<PairChar>>,
    depth: int,
    j: int,
) -> bool {
    forall|w: Seq<int>|
        #[trigger] word_via_entry(node, j, w) && tail_matches(filters, depth, w)
            ==> word_views_contain(wordsv, w)
}

impl BigramIndex {
    /// Collects every word below `node` whose symbol at each remaining
    /// position lies in the corresponding filter set.
    fn candidate_words_rec(node: &BigramIndex, filters: &Vec<Vec<PairChar>>, depth: usize) -> (r:
        WordList)
        requires
            depth < filters@.len(),
            index_wf(*node, filters@.len() - depth),
        ensures
            forall|t: int|
                0 <= t < r@.len() ==> contains_word(*node, (#[trigger] r@[t])@) && tail_matches(
                    filters@,
                    depth as int,
                    r@[t]@,
                ),
            forall|w: Seq<int>|
                #[trigger] contains_word(*node, w) && tail_matches(filters@, depth as int, w)
                    ==> word_views_contain(r@, w),
            forall|t1: int, t2: int| 0 <= t1 < t2 < r@.len() ==> r@[t1]@ != r@[t2]@,
        decreases filters@.len() - depth,
    {
        let mut words: WordList = Vec::new();
        let filters_len = filters.len();
        let last = depth + 1 == filters_len;
        let mut i: usize = 0;
        while i < node.index.len()
            invariant
                depth < filters@.len(),
                filters_len == filters@.len(),
                index_wf(*node, filters@.len() - depth),
                last == (depth + 1 == filters@.len()),
                i <= node.index@.len(),
                forall|t: int|
                    0 <= t < words@.len() ==> contains_word(*node, (#[trigger] words@[t])@)
                        && tail_matches(filters@, depth as int, words@[t]@),
                forall|j: int| 0 <= j < i ==> #[trigger] entry_covered(
                    words@,
                    *node,
                    filters@,
                    depth as int,
                    j,
                ),
                forall|t1: int, t2: int| 0 <= t1 < t2 < words@.len() ==> words@[t1]@ != words@[t2]@,
                forall|t3: int|
                    0 <= t3 < words@.len() ==> exists|j: int|
                        0 <= j < i && (#[trigger] words@[t3])@[0] == (#[trigger] node.index@[j]).0@,
            decreases node.index@.len() - i,
        {
            let key = node.index[i].0;
            let admitted = char_in_list(&filters[depth], key);
            let ghost before_entry = words@;
            if admitted {
                if last {
                    let mut new_word = PairString::new();
                    new_word.push(key);
                    let ghost pre = words@;
                    words.push(new_word);
                    proof {
                        assert(new_word@ =~= seq![key@]);
                        assert(words@[words@.len() - 1]@ == seq![key@]);
                        assert(contains_word(*node, seq![key@]));
                        assert(tail_matches(filters@, depth as int, seq![key@]));
                        assert forall|t3: int| 0 <= t3 < pre.len() implies pre[t3]@ != seq![key@] by {
                            let j = choose|j: int|
                                0 <= j < i && (#[trigger] pre[t3])@[0] == (
                                #[trigger] node.index@[j]).0@;
                            assert(node.index@[j].0@ != key@);
                        }
                        lemma_covered_mono(pre, words@, *node, filters@, depth as int, i as int);
                        assert forall|w: Seq<int>| #[trigger] word_via_entry(*node, i as int, w)
                            && tail_matches(filters@, depth as int, w) implies word_views_contain(
                            words@,
                            w,
                        ) by {
                            assert(w =~= seq![key@]);
                            assert(words@[words@.len() - 1]@ == w);
                        }
                    }
                } else {
                    let child: &BigramIndex = match &node.index[i].1 {
                        Option::Some(b) => &*b,
                        Option::None => {
                            proof {
                                assert(false);
                            }
                            node
                        },
                    };
                    let sub = BigramIndex::candidate_words_rec(child, filters, depth + 1);
                    let mut t: usize = 0;
                    while t < sub.len()
                        invariant
                            depth + 1 < filters@.len(),
                            index_wf(*node, filters@.len() - depth),
                            i < node.index@.len(),
                            node.index@[i as int].0 == key,
                            node.index@[i as int].1 matches Option::Some(c) && *c == *child,
                            in_char_list(filters@[depth as int]@, key@),
                            t <= sub@.len(),
                            forall|t2: int|
                                0 <= t2 < sub@.len() ==> contains_word(
                                    *child,
                                    (#[trigger] sub@[t2])@,
                                ) && tail_matches(filters@, depth + 1 as int, sub@[t2]@),
                            forall|t2: int|
                                0 <= t2 < t ==> word_views_contain(
                                    words@,
                                    seq![key@] + (#[trigger] sub@[t2])@,
                                ),
                            forall|t3: int|
                                0 <= t3 < words@.len() ==> contains_word(
                                    *node,
                                    (#[trigger] words@[t3])@,
                                ) && tail_matches(filters@, depth as int, words@[t3]@),
                            forall|j: int| 0 <= j < i ==> #[trigger] entry_covered(
                                words@,
                                *node,
                                filters@,
                                depth as int,
                                j,
                            ),
                            forall|t1: int, t2: int|
                                0 <= t1 < t2 < sub@.len() ==> sub@[t1]@ != sub@[t2]@,
                            forall|t1: int, t2: int|
                                0 <= t1 < t2 < words@.len() ==> words@[t1]@ != words@[t2]@,
                            forall|t3: int|
                                0 <= t3 < words@.len() ==> exists|j: int|
                                    0 <= j < i + 1 && (#[trigger] words@[t3])@[0] == (
                                    #[trigger] node.index@[j]).0@,
                            forall|t3: int|
                                0 <= t3 < words@.len() && (#[trigger] words@[t3])@[0] == key@
                                    ==> exists|t2: int|
                                    0 <= t2 < t && words@[t3]@ == seq![key@] + (
                                    #[trigger] sub@[t2])@,
                        decreases sub@.len() - t,
                    {
                        let mut new_word = PairString::new();
                        new_word.push(key);
                        new_word.pair_string.extend_from_slice(sub[t].slice());
                        let ghost pre = words@;
                        words.push(new_word);
                        proof {
                            assert(new_word@ =~= seq![key@] + sub@[t as int]@);
                            assert(words@[words@.len() - 1]@ == seq![key@] + sub@[t as int]@);
                            assert forall|t3: int| 0 <= t3 < pre.len() implies pre[t3]@
                                != new_word@ by {
                                if pre[t3]@[0] == key@ {
                                    let t2 = choose|t2: int|
                                        0 <= t2 < t && pre[t3]@ == seq![key@] + (
                                        #[trigger] sub@[t2])@;
                                    assert(sub@[t2]@ != sub@[t as int]@);
                                    assert((seq![key@] + sub@[t2]@).drop_first() =~= sub@[t2]@);
                                    assert((seq![key@] + sub@[t as int]@).drop_first()
                                        =~= sub@[t as int]@);
                                } else {
                                    assert(new_word@[0] == key@);
                                }
                            }
                            let w = seq![key@] + sub@[t as int]@;
                            assert(w[0] == key@);
                            assert(w.drop_first() =~= sub@[t as int]@);
                            assert(contains_word(*node, w));
                            assert forall|i2: int|
                                0 <= i2 < w.len() implies #[trigger] in_char_list(
                                filters@[depth + i2]@,
                                w[i2],
                            ) by {
                                if i2 > 0 {
                                    assert(in_char_list(
                                        filters@[depth + 1 + (i2 - 1)]@,
                                        sub@[t as int]@[i2 - 1],
                                    ));
                                }
                            }
                            assert(tail_matches(filters@, depth as int, w));
                            lemma_covered_mono(
                                pre,
                                words@,
                                *node,
                                filters@,
                                depth as int,
                                i as int,
                            );
                            assert forall|t2: int| 0 <= t2 < t + 1 implies word_views_contain(
                                words@,
                                seq![key@] + (#[trigger] sub@[t2])@,
                            ) by {
                                if t2 < t {
                                    crate::types::lemma_contain_push(
                                        pre,
                                        words@[words@.len() - 1],
                                        seq![key@] + sub@[t2]@,
                                    );
                                }
                            }
                        }
                        t = t + 1;
                    }
                    proof {
                        assert forall|w: Seq<int>| #[trigger] word_via_entry(*node, i as int, w)
                            && tail_matches(filters@, depth as int, w) implies word_views_contain(
                            words@,
                            w,
                        ) by {
                            assert(contains_word(*child, w.drop_first()));
                            assert forall|i2: int|
                                0 <= i2 < w.drop_first().len() implies #[trigger] in_char_list(
                                filters@[depth + 1 + i2]@,
                                w.drop_first()[i2],
                            ) by {
                                assert(in_char_list(filters@[depth as int + (i2 + 1)]@, w[i2 + 1]));
                            }
                            assert(tail_matches(filters@, depth + 1 as int, w.drop_first()));
                            assert(word_views_contain(sub@, w.drop_first()));
                            let t2 = choose|t2: int|
                                0 <= t2 < sub@.len() && #[trigger] sub@[t2]@ == w.drop_first();
                            assert(word_views_contain(words@, seq![key@] + sub@[t2]@));
                            assert(seq![key@] + sub@[t2]@ =~= w);
                        }
                    }
                }
            } else {
                proof {
                    assert forall|w: Seq<int>| #[trigger] word_via_entry(*node, i as int, w)
                        && tail_matches(filters@, depth as int, w) implies word_views_contain(
                        words@,
                        w,
                    ) by {
                        lemma_tail_matches_at(filters@, depth as int, w, 0);
                        assert(false);
                    }
                }
            }
            proof {
                assert(entry_covered(words@, *node, filters@, depth as int, i as int));
            }
            i = i + 1;
        }
        proof {
            assert forall|w: Seq<int>| #[trigger] contains_word(*node, w) && tail_matches(
                filters@,
                depth as int,
                w,
            ) implies word_views_contain(words@, w) by {
                let j = choose|j: int|
                    0 <= j < node.index@.len() && (#[trigger] node.index@[j]).0@ == w[0] && (
                    match node.index@[j].1 {
                        Option::None => w.len() == 1,
                        Option::Some(c) => contains_word(*c, w.drop_first()),
                    });
                assert(word_via_entry(*node, j, w));
                assert(entry_covered(words@, *node, filters@, depth as int, j));
            }
        }
        words
    }

    /// Every complete word of the index whose symbol at each position lies
    /// in the corresponding filter set, each exactly once, or nothing when
    /// no word does (in particular as soon as any filter set is empty).
    pub fn get_candidate_words(root_index_node: &BigramIndex, filters: &Vec<Vec<PairChar>>) -> (r:
        Option<WordList>)
        requires
            filters@.len() >= 1,
            index_wf(*root_index_node, filters@.len() as int),
        ensures
            match r {
                Option::Some(v) => {
                    &&& v@.len() > 0
                    &&& forall|t: int|
                        0 <= t < v@.len() ==> contains_word(*root_index_node, (#[trigger] v@[t])@)
                            && v@[t]@.len() == filters@.len() && word_matches_filters(
                            filters@,
                            v@[t]@,
                        )
                    &&& forall|w: Seq<int>|
                        #[trigger] contains_word(*root_index_node, w) && word_matches_filters(
                            filters@,
                            w,
                        ) ==> word_views_contain(v@, w)
                    &&& forall|t1: int, t2: int| 0 <= t1 < t2 < v@.len() ==> v@[t1]@ != v@[t2]@
                },
                Option::None => forall|w: Seq<int>|
                    #[trigger] contains_word(*root_index_node, w) ==> !word_matches_filters(
                        filters@,
                        w,
                    ),
            },
    {
        let mut f: usize = 0;
        while f < filters.len()
            invariant
                index_wf(*root_index_node, filters@.len() as int),
                f <= filters@.len(),
                forall|g: int| 0 <= g < f ==> (#[trigger] filters@[g])@.len() > 0,
            decreases filters@.len() - f,
        {
            if filters[f].is_empty() {
                proof {
                    assert forall|w: Seq<int>| #[trigger] contains_word(
                        *root_index_node,
                        w,
                    ) implies !word_matches_filters(filters@, w) by {
                        lemma_word_len(*root_index_node, filters@.len() as int, w);
                        if word_matches_filters(filters@, w) {
                            assert(in_char_list(filters@[0 + f as int]@, w[f as int]));
                        }
                    }
                }
                return Option::None;
            }
            f = f + 1;
        }
        let words = BigramIndex::candidate_words_rec(root_index_node, filters, 0);
        if words.is_empty() {
            proof {
                assert forall|w: Seq<int>| #[trigger] contains_word(
                    *root_index_node,
                    w,
                ) implies !word_matches_filters(filters@, w) by {
                    if word_matches_filters(filters@, w) {
                        assert(word_views_contain(words@, w));
                    }
                }
            }
            Option::None
        } else {
            proof {
                assert forall|t: int| 0 <= t < words@.len() implies contains_word(
                    *root_index_node,
                    (#[trigger] words@[t])@,
                ) && words@[t]@.len() == filters@.len() && word_matches_filters(
                    filters@,
                    words@[t]@,
                ) by {
                    lemma_word_len(*root_index_node, filters@.len() as int, words@[t]@);
                }
            }
            Option::Some(words)
        }
    }
}

proof fn lemma_covered_mono(
    pre: Seq<PairString>,
    post: Seq<PairString>,
    node: BigramIndex,
    filters: Seq<Vec<PairChar>>,
    depth: int,
    upto: int,
)
    requires
        post.len() == pre.len() + 1,
        forall|i: int| 0 <= i < pre.len() ==> post[i] == #[trigger] pre[i],
        forall|j: int| 0 <= j < upto ==> #[trigger] entry_covered(pre, node, filters, depth, j),
    ensures
        forall|j: int| 0 <= j < upto ==> #[trigger] entry_covered(post, node, filters, depth, j),
{
    assert forall|j: int| 0 <= j < upto implies #[trigger] entry_covered(
        post,
        node,
        filters,
        depth,
        j,
    ) by {
        assert forall|w: Seq<int>| #[trigger] word_via_entry(node, j, w) && tail_matches(
            filters,
            depth,
            w,
        ) implies word_views_contain(post, w) by {
            assert(entry_covered(pre, node, filters, depth, j));
            assert(word_views_contain(pre, w));
            let i = choose|i: int| 0 <= i < pre.len() && #[trigger] pre[i]@ == w;
            assert(post[i]@ == w);
        }
    }
}

proof fn lemma_push_terminal(old_node: BigramIndex, node: BigramIndex, key: PairChar, suffix: Seq<int>)
    requires
        suffix.len() == 1,
        suffix[0] == key@,
        node.index@.len() == old_node.index@.len() + 1,
        forall|i: int|
            0 <= i < old_node.index@.len() ==> node.index@[i] == #[trigger] old_node.index@[i],
        node.index@[old_node.index@.len() as int].0 == key,
        node.index@[old_node.index@.len() as int].1 is None,
    ensures
        forall|w: Seq<int>|
            #[trigger] contains_word(node, w) <==> (contains_word(old_node, w) || w == suffix),
{
    let n = old_node.index@.len() as int;
    assert forall|w: Seq<int>| #[trigger] contains_word(node, w) implies (contains_word(old_node, w)
        || w == suffix) by {
        let i = choose|i: int|
            0 <= i < node.index@.len() && (#[trigger] node.index@[i]).0@ == w[0] && (
            match node.index@[i].1 {
                Option::None => w.len() == 1,
                Option::Some(c) => contains_word(*c, w.drop_first()),
            });
        if i < n {
            assert(node.index@[i] == old_node.index@[i]);
            assert(contains_word(old_node, w));
        } else {
            assert(w.len() == 1 && w[0] == key@);
            assert(w =~= suffix);
        }
    }
    assert forall|w: Seq<int>| contains_word(old_node, w) || w == suffix implies #[trigger] contains_word(
        node,
        w,
    ) by {
        if contains_word(old_node, w) {
            let i = choose|i: int|
                0 <= i < old_node.index@.len() && (#[trigger] old_node.index@[i]).0@ == w[0] && (
                match old_node.index@[i].1 {
                    Option::None => w.len() == 1,
                    Option::Some(c) => contains_word(*c, w.drop_first()),
                });
            assert(node.index@[i] == old_node.index@[i]);
            assert(contains_word(node, w));
        } else {
            assert(node.index@[n].0@ == w[0]);
            assert(contains_word(node, w));
        }
    }
}

proof fn lemma_push_subtree(
    old_node: BigramIndex,
    node: BigramIndex,
    key: PairChar,
    child: BigramIndex,
    suffix: Seq<int>,
)
    requires
        suffix.len() >= 2,
        suffix[0] == key@,
        node.index@.len() == old_node.index@.len() + 1,
        forall|i: int|
            0 <= i < old_node.index@.len() ==> node.index@[i] == #[trigger] old_node.index@[i],
        node.index@[old_node.index@.len() as int].0 == key,
        node.index@[old_node.index@.len() as int].1 matches Option::Some(c) && *c == child,
        forall|x: Seq<int>| #[trigger] contains_word(child, x) <==> x == suffix.drop_first(),
    ensures
        forall|w: Seq<int>|
            #[trigger] contains_word(node, w) <==> (contains_word(old_node, w) || w == suffix),
{
    let n = old_node.index@.len() as int;
    assert forall|w: Seq<int>| #[trigger] contains_word(node, w) implies (contains_word(old_node, w)
        || w == suffix) by {
        let i = choose|i: int|
            0 <= i < node.index@.len() && (#[trigger] node.index@[i]).0@ == w[0] && (
            match node.index@[i].1 {
                Option::None => w.len() == 1,
                Option::Some(c) => contains_word(*c, w.drop_first()),
            });
        if i < n {
            assert(node.index@[i] == old_node.index@[i]);
            assert(contains_word(old_node, w));
        } else {
            match node.index@[n].1 {
                Option::Some(c) => {
                    assert(*c == child);
                    assert(contains_word(child, w.drop_first()));
                    assert(w.drop_first() == suffix.drop_first());
                    assert(w.len() == suffix.len());
                    assert forall|q: int| 0 <= q < w.len() implies w[q] == suffix[q] by {
                        if q > 0 {
                            assert(w[q] == w.drop_first()[q - 1]);
                            assert(suffix[q] == suffix.drop_first()[q - 1]);
                        }
                    }
                    assert(w =~= suffix);
                },
                Option::None => {
                    assert(false);
                },
            }
        }
    }
    assert forall|w: Seq<int>| contains_word(old_node, w) || w == suffix implies #[trigger] contains_word(
        node,
        w,
    ) by {
        if contains_word(old_node, w) {
            let i = choose|i: int|
                0 <= i < old_node.index@.len() && (#[trigger] old_node.index@[i]).0@ == w[0] && (
                match old_node.index@[i].1 {
                    Option::None => w.len() == 1,
                    Option::Some(c) => contains_word(*c, w.drop_first()),
                });
            assert(node.index@[i] == old_node.index@[i]);
            assert(contains_word(node, w));
        } else {
            assert(contains_word(child, suffix.drop_first()));
            assert(node.index@[n].0@ == w[0]);
            assert(contains_word(node, w));
        }
    }
}

proof fn lemma_update_child(
    old_node: BigramIndex,
    node: BigramIndex,
    j: int,
    key: PairChar,
    old_child: BigramIndex,
    new_child: BigramIndex,
    suffix: Seq<int>,
)
    requires
        suffix.len() >= 2,
        suffix[0] == key@,
        0 <= j < old_node.index@.len(),
        old_node.index@[j].0 == key,
        old_node.index@[j].1 matches Option::Some(c) && *c == old_child,
        forall|i1: int, i2: int|
            0 <= i1 < i2 < old_node.index@.len() ==> (#[trigger] old_node.index@[i1]).0@ != (
            #[trigger] old_node.index@[i2]).0@,
        node.index@.len() == old_node.index@.len(),
        forall|i: int|
            0 <= i < old_node.index@.len() && i != j ==> node.index@[i]
                == #[trigger] old_node.index@[i],
        node.index@[j].0 == key,
        node.index@[j].1 matches Option::Some(c) && *c == new_child,
        forall|x: Seq<int>|
            #[trigger] contains_word(new_child, x) <==> (contains_word(old_child, x) || x
                == suffix.drop_first()),
    ensures
        forall|w: Seq<int>|
            #[trigger] contains_word(node, w) <==> (contains_word(old_node, w) || w == suffix),
{
    assert forall|w: Seq<int>| #[trigger] contains_word(node, w) implies (contains_word(old_node, w)
        || w == suffix) by {
        let i = choose|i: int|
            0 <= i < node.index@.len() && (#[trigger] node.index@[i]).0@ == w[0] && (
            match node.index@[i].1 {
                Option::None => w.len() == 1,
                Option::Some(c) => contains_word(*c, w.drop_first()),
            });
        if i != j {
            assert(old_node.index@[i] == node.index@[i]);
            assert(contains_word(old_node, w));
        } else {
            assert(contains_word(new_child, w.drop_first()));
            if contains_word(old_child, w.drop_first()) {
                assert(contains_word(old_node, w));
            } else {
                assert(w.drop_first() == suffix.drop_first());
                assert(w.len() == suffix.len());
                assert forall|q: int| 0 <= q < w.len() implies w[q] == suffix[q] by {
                    if q > 0 {
                        assert(w[q] == w.drop_first()[q - 1]);
                        assert(suffix[q] == suffix.drop_first()[q - 1]);
                    }
                }
                assert(w =~= suffix);
            }
        }
    }
    assert forall|w: Seq<int>| contains_word(old_node, w) || w == suffix implies #[trigger] contains_word(
        node,
        w,
    ) by {
        if contains_word(old_node, w) {
            let i = choose|i: int|
                0 <= i < old_node.index@.len() && (#[trigger] old_node.index@[i]).0@ == w[0] && (
                match old_node.index@[i].1 {
                    Option::None => w.len() == 1,
                    Option::Some(c) => contains_word(*c, w.drop_first()),
                });
            if i != j {
                assert(node.index@[i] == old_node.index@[i]);
                assert(contains_word(node, w));
            } else {
                assert(contains_word(old_child, w.drop_first()));
                assert(contains_word(new_child, w.drop_first()));
                assert(contains_word(node, w));
            }
        } else {
            assert(contains_word(new_child, suffix.drop_first()));
            assert(node.index@[j].0@ == w[0]);
            assert(contains_word(node, w));
        }
    }
}

} // verus!
