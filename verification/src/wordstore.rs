//! Word corpus store: encoded words bucketed by symbol length, with
//! padded variants produced on demand.

use crate::types::{
    blank_insertions, is_letter_sym, is_lower_char, lemma_contain_push, list_views,
    spec_encode_word, strip_blanks, word_all_letters, word_list_contains, word_views_contain,
    PairString, WordList,
};
use vstd::prelude::*;

verus! {

/// Every word of the bucket has exactly `len` symbols, all of them letters.
pub open spec fn bucket_wf(b: Seq<Seq<int>>, len: int) -> bool {
    forall|j: int| 0 <= j < b.len() ==> (#[trigger] b[j]).len() == len && word_all_letters(b[j])
}

/// The words of bucket `s` (1-based symbol length), or empty out of range.
pub open spec fn bucket_at(store: Seq<Seq<Seq<int>>>, s: int) -> Seq<Seq<int>> {
    if 1 <= s <= store.len() {
        store[s - 1]
    } else {
        Seq::empty()
    }
}

/// `v` is a variant of the `j`-th word of bucket `s`, padded up to `n` symbols.
pub open spec fn padded_from(store: Seq<Seq<Seq<int>>>, n: int, s: int, j: int, v: Seq<int>) -> bool {
    0 <= j < bucket_at(store, s).len() && blank_insertions(
        bucket_at(store, s)[j],
        (n - s) as nat,
    ).contains(v)
}

/// The smallest source length drawn on when padding to `n` with at most `k`
/// blanks.
pub open spec fn min_source_len(n: int, k: int) -> int {
    if n - k > 1 {
        n - k
    } else {
        1
    }
}

/// The source lengths that padding to `n` with at most `k` blanks draws on:
/// only the exact length when `k == 0`, otherwise every shorter length whose
/// words still fit with at most `k` inserted blanks (exact-length words are
/// deliberately not among them).
pub open spec fn padded_source_range(n: int, k: int, s: int) -> bool {
    if k == 0 {
        s == n
    } else {
        min_source_len(n, k) <= s < n
    }
}

/// Everything `paddedToLength(n, k)` may return: for `k == 0` the exact
/// bucket, otherwise every shorter word padded with blanks up to `n`.
pub open spec fn padded_set(store: Seq<Seq<Seq<int>>>, n: int, k: int) -> Set<Seq<int>> {
    Set::new(
        |v: Seq<int>|
            exists|s: int, j: int|
                padded_source_range(n, k, s) && #[trigger] padded_from(store, n, s, j, v),
    )
}

/// Every bucket of the corpus holds only words of its own length, made of
/// letter symbols alone.
pub open spec fn store_wf(store: Seq<Seq<Seq<int>>>) -> bool {
    forall|k: int| 0 <= k < store.len() ==> bucket_wf(#[trigger] store[k], k + 1)
}

/// A word corpus bucketed by symbol length: bucket `k` (at index `k - 1`)
/// holds the encoded words of exactly `k` symbols.
pub struct WordStore {
    word_store: Vec<WordList>,
}

impl View for WordStore {
    type V = Seq<Seq<Seq<int>>>;

    closed spec fn view(&self) -> Seq<Seq<Seq<int>>> {
        self.word_store@.map_values(|b: WordList| list_views(b@))
    }
}

impl WordStore {
    /// Every bucket holds only words of its own length, made of letter
    /// symbols alone.
    pub open spec fn wf(&self) -> bool {
        store_wf(self@)
    }

    /// An empty store with room for words up to twelve symbols.
    pub fn new() -> (r: WordStore)
        ensures
            r.wf(),
            r@.len() == 12,
            forall|k: int| 0 <= k < r@.len() ==> (#[trigger] r@[k]).len() == 0,
    {
        let mut word_store: Vec<WordList> = Vec::new();
        let mut i: usize = 0;
        while i < 12
            invariant
                i <= 12,
                word_store@.len() == i,
                forall|k: int| 0 <= k < i ==> (#[trigger] word_store@[k])@.len() == 0,
            decreases 12 - i,
        {
            let new_store: WordList = Vec::new();
            word_store.push(new_store);
            i = i + 1;
        }
        let r = WordStore { word_store };
        proof {
            assert(forall|k: int| 0 <= k < r@.len() ==> (#[trigger] r@[k]).len() == 0);
        }
        r
    }

    /// Adds a dictionary word, encoded, to the bucket of its symbol length;
    /// words of odd or zero character length are silently ignored, and the
    /// bucket table grows as needed.
    pub fn add(&mut self, word: &str)
        requires
            old(self).wf(),
            forall|i: int| 0 <= i < word@.len() ==> is_lower_char(#[trigger] word@[i]),
        ensures
            final(self).wf(),
            word@.len() % 2 != 0 || word@.len() == 0 ==> final(self)@ == old(self)@,
            word@.len() % 2 == 0 && word@.len() > 0 ==> {
                let idx = word@.len() / 2 - 1;
                &&& final(self)@.len() == if idx < old(self)@.len() {
                    old(self)@.len() as int
                } else {
                    idx + 1
                }
                &&& forall|m: int|
                    0 <= m < final(self)@.len() && m != idx ==> #[trigger] final(self)@[m] == (
                    if m < old(self)@.len() {
                        old(self)@[m]
                    } else {
                        Seq::<Seq<int>>::empty()
                    })
                &&& final(self)@[idx] == (if idx < old(self)@.len() {
                    old(self)@[idx]
                } else {
                    Seq::<Seq<int>>::empty()
                }).push(spec_encode_word(word@))
            },
    {
        proof {
            assert(vstd::string::is_ascii(word)) by {
                assert(forall|i: int|
                    0 <= i < word@.len() ==> '\0' <= #[trigger] word@[i] <= '\u{7f}');
            }
            vstd::string::is_ascii_spec_bytes(word);
        }
        let word_len: usize = word.as_bytes().len();
        proof {
            assert(word_len == word@.len());
        }
        if word_len % 2 == 1 || word_len == 0 {
            return ;
        }
        let index_pt = word_len / 2 - 1;
        while self.word_store.len() <= index_pt
            invariant
                old(self).wf(),
                self@.len() >= old(self)@.len(),
                self@.len() <= index_pt + 1 || self@.len() == old(self)@.len(),
                forall|m: int| 0 <= m < old(self)@.len() ==> #[trigger] self@[m] == old(self)@[m],
                forall|m: int|
                    old(self)@.len() <= m < self@.len() ==> (#[trigger] self@[m]).len() == 0,
            decreases index_pt + 1 - self.word_store@.len(),
        {
            let ghost pre = self@;
            let empty_bucket: WordList = Vec::new();
            self.word_store.push(empty_bucket);
            proof {
                assert(self@ =~~= pre.push(Seq::<Seq<int>>::empty()));
            }
        }
        let ghost grown = self@;
        proof {
            vstd::arithmetic::div_mod::lemma_fundamental_div_mod(word@.len() as int, 2);
            assert forall|q: int|
                0 <= q < spec_encode_word(word@).len() implies is_letter_sym(
                #[trigger] spec_encode_word(word@)[q],
            ) by {
                assert(is_lower_char(word@[2 * q]) && is_lower_char(word@[2 * q + 1]));
            }
        }
        let encoded = PairString::encode(word);
        let mut bucket = self.word_store.remove(index_pt);
        bucket.push(encoded);
        self.word_store.insert(index_pt, bucket);
        proof {
            assert(final(self)@ =~~= grown.update(index_pt as int, grown[index_pt as int].push(
                spec_encode_word(word@),
            )));
            assert(spec_encode_word(word@).len() == word@.len() / 2);
            assert forall|k: int| 0 <= k < final(self)@.len() implies bucket_wf(
                #[trigger] final(self)@[k],
                k + 1,
            ) by {
                if k != index_pt {
                    assert(final(self)@[k] == grown[k]);
                }
            }
        }
    }

    /// The padded candidates for a row of `pattern_size` symbols: with
    /// `max_blanks == 0` the exact-length bucket itself, keeping the first
    /// occurrence of each distinct word in bucket order; otherwise every
    /// word of each admitted shorter source length, padded with blanks up to
    /// the target length in every possible way. Each distinct symbol
    /// sequence is listed exactly once.
    pub fn permuted_words_by_length(&self, pattern_size: usize, max_blanks: usize) -> (r: WordList)
        requires
            self.wf(),
            pattern_size >= 1,
            pattern_size < usize::MAX,
        ensures
            forall|i: int|
                0 <= i < r@.len() ==> padded_set(
                    self@,
                    pattern_size as int,
                    max_blanks as int,
                ).contains(#[trigger] r@[i]@),
            forall|v: Seq<int>|
                #[trigger] padded_set(self@, pattern_size as int, max_blanks as int).contains(v)
                    ==> word_views_contain(r@, v),
            forall|i: int, j: int| 0 <= i < j < r@.len() ==> r@[i]@ != r@[j]@,
            forall|i: int| 0 <= i < r@.len() ==> (#[trigger] r@[i]@).len() == pattern_size,
            max_blanks == 0 ==> list_views(r@) == dedup_first(
                bucket_at(self@, pattern_size as int),
            ),
    {
        let ghost n = pattern_size as int;
        let ghost k = max_blanks as int;
        if max_blanks == 0 {
            let bucket = self.words_by_length(pattern_size);
            let r = dedup_word_list(&bucket);
            proof {
                assert forall|i: int| 0 <= i < r@.len() implies padded_set(self@, n, k).contains(
                    #[trigger] r@[i]@,
                ) && (r@[i]@).len() == n by {
                    assert(word_views_contain(bucket@, r@[i]@));
                    let j = choose|j: int|
                        0 <= j < bucket@.len() && #[trigger] bucket@[j]@ == r@[i]@;
                    assert(bucket@[j]@ == bucket_at(self@, n)[j]);
                    assert(blank_insertions(bucket_at(self@, n)[j], 0).contains(r@[i]@));
                    assert(padded_source_range(n, k, n) && padded_from(self@, n, n, j, r@[i]@));
                    assert(padded_set(self@, n, k).contains(r@[i]@));
                    lemma_padded_word_shape(self@, n, k, r@[i]@);
                }
                assert forall|v: Seq<int>| #[trigger] padded_set(self@, n, k).contains(
                    v,
                ) implies word_views_contain(r@, v) by {
                    let (s2, j2): (int, int) = choose|s2: int, j2: int|
                        padded_source_range(n, k, s2) && #[trigger] padded_from(self@, n, s2, j2, v);
                    assert(s2 == n);
                    assert(blank_insertions(bucket_at(self@, n)[j2], 0).contains(v));
                    assert(v == bucket_at(self@, n)[j2]);
                    assert(bucket@[j2]@ == v);
                    assert(word_views_contain(bucket@, v));
                }
                assert(list_views(bucket@) == bucket_at(self@, n));
            }
            return r;
        }
        let lo: usize = if pattern_size >= 2 && pattern_size - 1 > max_blanks {
            pattern_size - max_blanks
        } else {
            1
        };
        let hi: usize = pattern_size - 1;
        proof {
            assert(forall|s: int| padded_source_range(n, k, s) <==> lo <= s <= hi);
        }
        let mut gathered: WordList = Vec::new();
        let mut s: usize = lo;
        while s <= hi
            invariant
                self.wf(),
                n == pattern_size as int,
                k == max_blanks as int,
                pattern_size >= 1,
                pattern_size < usize::MAX,
                hi <= pattern_size,
                lo <= s,
                forall|s0: int| padded_source_range(n, k, s0) <==> lo <= s0 <= hi,
                forall|i: int|
                    0 <= i < gathered@.len() ==> padded_set(self@, n, k).contains(
                        #[trigger] gathered@[i]@,
                    ),
                forall|i: int| 0 <= i < gathered@.len() ==> (#[trigger] gathered@[i]@).len() == n,
                forall|s2: int, j2: int|
                    lo <= s2 < s && 0 <= j2 < bucket_at(self@, s2).len()
                        ==> #[trigger] source_covered(gathered@, self@, n, s2, j2),
            decreases hi + 1 - s,
        {
            let bucket = self.words_by_length(s);
            let blanks = pattern_size - s;
            let mut j: usize = 0;
            while j < bucket.len()
                invariant
                    self.wf(),
                    n == pattern_size as int,
                    k == max_blanks as int,
                    pattern_size >= 1,
                    hi <= pattern_size,
                    lo <= s <= hi,
                    blanks == pattern_size - s,
                    forall|s0: int| padded_source_range(n, k, s0) <==> lo <= s0 <= hi,
                    list_views(bucket@) == bucket_at(self@, s as int),
                    j <= bucket@.len(),
                    forall|i: int|
                        0 <= i < gathered@.len() ==> padded_set(self@, n, k).contains(
                            #[trigger] gathered@[i]@,
                        ),
                    forall|i: int|
                        0 <= i < gathered@.len() ==> (#[trigger] gathered@[i]@).len() == n,
                    forall|s2: int, j2: int|
                        lo <= s2 < s && 0 <= j2 < bucket_at(self@, s2).len()
                            ==> #[trigger] source_covered(gathered@, self@, n, s2, j2),
                    forall|j2: int|
                        0 <= j2 < j ==> #[trigger] source_covered(
                            gathered@,
                            self@,
                            n,
                            s as int,
                            j2,
                        ),
                decreases bucket@.len() - j,
            {
                proof {
                    assert(bucket@[j as int]@ == bucket_at(self@, s as int)[j as int]);
                    assert(bucket_at(self@, s as int).len() > 0);
                    assert(1 <= s as int <= self@.len());
                    assert(bucket_wf(self@[s - 1], s as int));
                    assert(bucket@[j as int]@.len() == s as int);
                }
                let variants = bucket[j].permute(blanks);
                let mut t: usize = 0;
                while t < variants.len()
                    invariant
                        self.wf(),
                        n == pattern_size as int,
                        k == max_blanks as int,
                        lo <= s <= hi,
                        blanks == pattern_size - s,
                        forall|s0: int| padded_source_range(n, k, s0) <==> lo <= s0 <= hi,
                        list_views(bucket@) == bucket_at(self@, s as int),
                        j < bucket@.len(),
                        bucket@[j as int]@ == bucket_at(self@, s as int)[j as int],
                        bucket@[j as int]@.len() == s as int,
                        t <= variants@.len(),
                        forall|i: int|
                            0 <= i < variants@.len() ==> blank_insertions(
                                bucket@[j as int]@,
                                blanks as nat,
                            ).contains(#[trigger] variants@[i]@),
                        forall|v: Seq<int>|
                            #[trigger] blank_insertions(bucket@[j as int]@, blanks as nat).contains(
                                v,
                            ) ==> word_views_contain(variants@, v),
                        forall|i: int|
                            0 <= i < gathered@.len() ==> padded_set(self@, n, k).contains(
                                #[trigger] gathered@[i]@,
                            ),
                        forall|i: int|
                            0 <= i < gathered@.len() ==> (#[trigger] gathered@[i]@).len() == n,
                        forall|s2: int, j2: int|
                            lo <= s2 < s && 0 <= j2 < bucket_at(self@, s2).len()
                                ==> #[trigger] source_covered(gathered@, self@, n, s2, j2),
                        forall|j2: int|
                            0 <= j2 < j ==> #[trigger] source_covered(
                                gathered@,
                                self@,
                                n,
                                s as int,
                                j2,
                            ),
                        forall|t2: int|
                            0 <= t2 < t ==> word_views_contain(gathered@, #[trigger] variants@[t2]@),
                    decreases variants@.len() - t,
                {
                    let ghost pre = gathered@;
                    gathered.push(variants[t].clone());
                    proof {
                        let v = variants@[t as int]@;
                        assert(gathered@[gathered@.len() - 1]@ == v);
                        assert(padded_source_range(n, k, s as int) && padded_from(
                            self@,
                            n,
                            s as int,
                            j as int,
                            v,
                        ));
                        assert(padded_set(self@, n, k).contains(v));
                        crate::types::lemma_blank_insertion_shape(
                            bucket@[j as int]@,
                            blanks as nat,
                            v,
                        );
                        assert forall|s2: int, j2: int|
                            lo <= s2 < s && 0 <= j2 < bucket_at(self@, s2).len()
                            implies #[trigger] source_covered(gathered@, self@, n, s2, j2) by {
                            lemma_source_covered_push(
                                pre,
                                gathered@[gathered@.len() - 1],
                                self@,
                                n,
                                s2,
                                j2,
                            );
                        }
                        assert forall|j2: int| 0 <= j2 < j implies #[trigger] source_covered(
                            gathered@,
                            self@,
                            n,
                            s as int,
                            j2,
                        ) by {
                            lemma_source_covered_push(
                                pre,
                                gathered@[gathered@.len() - 1],
                                self@,
                                n,
                                s as int,
                                j2,
                            );
                        }
                        assert forall|t2: int| 0 <= t2 < t + 1 implies word_views_contain(
                            gathered@,
                            #[trigger] variants@[t2]@,
                        ) by {
                            if t2 < t {
                                lemma_contain_push(
                                    pre,
                                    gathered@[gathered@.len() - 1],
                                    variants@[t2]@,
                                );
                            }
                        }
                    }
                    t = t + 1;
                }
                proof {
                    assert forall|v: Seq<int>|
                        #[trigger] blank_insertions(
                            bucket_at(self@, s as int)[j as int],
                            (n - s) as nat,
                        ).contains(v) implies word_views_contain(gathered@, v) by {
                        assert(word_views_contain(variants@, v));
                        let t2 = choose|t2: int|
                            0 <= t2 < variants@.len() && #[trigger] variants@[t2]@ == v;
                        assert(word_views_contain(gathered@, variants@[t2]@));
                    }
                    assert(source_covered(gathered@, self@, n, s as int, j as int));
                }
                j = j + 1;
            }
            s = s + 1;
        }
        let r = dedup_word_list(&gathered);
        proof {
            assert forall|i: int| 0 <= i < r@.len() implies padded_set(self@, n, k).contains(
                #[trigger] r@[i]@,
            ) && (r@[i]@).len() == n by {
                assert(word_views_contain(gathered@, r@[i]@));
                let g = choose|g: int|
                    0 <= g < gathered@.len() && #[trigger] gathered@[g]@ == r@[i]@;
                assert(padded_set(self@, n, k).contains(gathered@[g]@));
            }
            assert forall|v: Seq<int>| #[trigger] padded_set(self@, n, k).contains(
                v,
            ) implies word_views_contain(r@, v) by {
                let (s2, j2): (int, int) = choose|s2: int, j2: int|
                    padded_source_range(n, k, s2) && #[trigger] padded_from(self@, n, s2, j2, v);
                assert(source_covered(gathered@, self@, n, s2, j2));
                assert(word_views_contain(gathered@, v));
                let g = choose|g: int| 0 <= g < gathered@.len() && #[trigger] gathered@[g]@ == v;
                assert(word_views_contain(r@, gathered@[g]@));
            }
        }
        r
    }

    /// Checks the corpus invariant: every bucket holds only words of its own
    /// length, made of letter symbols alone.
    pub fn check_wf(&self) -> (r: bool)
        ensures
            r == self.wf(),
    {
        let n = self.word_store.len();
        let mut k: usize = 0;
        while k < n
            invariant
                n == self@.len(),
                k <= self@.len(),
                self@.len() == self.word_store@.len(),
                forall|m: int| 0 <= m < k ==> bucket_wf(#[trigger] self@[m], m + 1),
            decreases self@.len() - k,
        {
            let bucket = &self.word_store[k];
            let mut j: usize = 0;
            while j < bucket.len()
                invariant
                    n == self@.len(),
                    k < self@.len(),
                    self@.len() == self.word_store@.len(),
                    bucket@ == self.word_store@[k as int]@,
                    j <= bucket@.len(),
                    forall|m: int|
                        0 <= m < j ==> (#[trigger] self@[k as int][m]).len() == k + 1
                            && word_all_letters(self@[k as int][m]),
                decreases bucket@.len() - j,
            {
                let word = &bucket[j];
                proof {
                    assert(self@[k as int][j as int] == word@);
                }
                if word.len() != k + 1 {
                    proof {
                        assert(self@[k as int][j as int].len() != k + 1);
                        assert(!bucket_wf(self@[k as int], k as int + 1));
                    }
                    return false;
                }
                let mut i: usize = 0;
                while i < word.pair_string.len()
                    invariant
                        k < self@.len(),
                        0 <= j < self@[k as int].len(),
                        self@[k as int][j as int] == word@,
                        word@.len() == word.pair_string@.len(),
                        i <= word@.len(),
                        forall|m: int| 0 <= m < i ==> is_letter_sym(#[trigger] word@[m]),
                    decreases word@.len() - i,
                {
                    if word.pair_string[i].pair_char >= 676 {
                        proof {
                            assert(!is_letter_sym(word@[i as int]));
                            assert(!word_all_letters(self@[k as int][j as int]));
                            assert(!bucket_wf(self@[k as int], k as int + 1));
                        }
                        return false;
                    }
                    i = i + 1;
                }
                j = j + 1;
            }
            k = k + 1;
        }
        true
    }

    /// The bucket of words with exactly `pattern_size` symbols, copied, or
    /// an empty list when the store has no such bucket.
    pub fn words_by_length(&self, pattern_size: usize) -> (r: WordList)
        ensures
            list_views(r@) == bucket_at(self@, pattern_size as int),
    {
        if pattern_size == 0 || pattern_size > self.word_store.len() {
            let r: WordList = Vec::new();
            proof {
                assert(list_views(r@) =~= bucket_at(self@, pattern_size as int));
            }
            r
        } else {
            let r = clone_word_list(&self.word_store[pattern_size - 1]);
            proof {
                assert(list_views(r@) =~= bucket_at(self@, pattern_size as int));
            }
            r
        }
    }
}

/// Every padded variant of the `j`-th word of bucket `s` occurs in `r`.
pub open spec fn source_covered(
    r: Seq<PairString>,
    store: Seq<Seq<Seq<int>>>,
    n: int,
    s: int,
    j: int,
) -> bool {
    forall|v: Seq<int>|
        #[trigger] blank_insertions(bucket_at(store, s)[j], (n - s) as nat).contains(v)
            ==> word_views_contain(r, v)
}

proof fn lemma_source_covered_push(
    r: Seq<PairString>,
    x: PairString,
    store: Seq<Seq<Seq<int>>>,
    n: int,
    s: int,
    j: int,
)
    requires
        source_covered(r, store, n, s, j),
    ensures
        source_covered(r.push(x), store, n, s, j),
{
    assert forall|v: Seq<int>|
        #[trigger] blank_insertions(bucket_at(store, s)[j], (n - s) as nat).contains(
            v,
        ) implies word_views_contain(r.push(x), v) by {
        lemma_contain_push(r, x, v);
    }
}

/// A word made of letter symbols alone loses nothing when its blanks are
/// stripped.
pub proof fn lemma_strip_no_blanks(w: Seq<int>)
    requires
        word_all_letters(w),
    ensures
        strip_blanks(w) == w,
    decreases w.len(),
{
    reveal_with_fuel(Seq::filter, 2);
    if w.len() == 0 {
        assert(strip_blanks(w) =~= w);
    } else {
        lemma_strip_no_blanks(w.drop_last());
        assert(strip_blanks(w) =~= w);
    }
}

/// Padding law: every member of `paddedToLength(n, k)` has exactly `n`
/// symbols, carries at most `k` blanks, and strips back to a corpus word of
/// some admitted source length.
pub proof fn lemma_padded_word_shape(store: Seq<Seq<Seq<int>>>, n: int, k: int, v: Seq<int>)
    requires
        store_wf(store),
        n >= 1,
        padded_set(store, n, k).contains(v),
    ensures
        v.len() == n,
        v.len() - strip_blanks(v).len() <= k,
        exists|s: int, j: int|
            padded_source_range(n, k, s) && 0 <= j < bucket_at(store, s).len() && strip_blanks(v)
                == #[trigger] bucket_at(store, s)[j],
{
    let (s, j): (int, int) = choose|s: int, j: int|
        padded_source_range(n, k, s) && #[trigger] padded_from(store, n, s, j, v);
    let w = bucket_at(store, s)[j];
    assert(w.len() == s && word_all_letters(w)) by {
        assert(bucket_at(store, s).len() > 0);
        assert(1 <= s <= store.len());
        assert(bucket_wf(store[s - 1], s));
    }
    crate::types::lemma_blank_insertion_shape(w, (n - s) as nat, v);
    lemma_strip_no_blanks(w);
}

/// Every symbol of a padded candidate word is a letter pair or the blank.
pub proof fn lemma_padded_word_syms(store: Seq<Seq<Seq<int>>>, n: int, k: int, v: Seq<int>)
    requires
        store_wf(store),
        n >= 1,
        padded_set(store, n, k).contains(v),
    ensures
        forall|q: int| 0 <= q < v.len() ==> crate::types::is_word_sym(#[trigger] v[q]),
{
    let (s, j): (int, int) = choose|s: int, j: int|
        padded_source_range(n, k, s) && #[trigger] padded_from(store, n, s, j, v);
    let w = bucket_at(store, s)[j];
    assert(w.len() == s && word_all_letters(w)) by {
        assert(bucket_at(store, s).len() > 0);
        assert(1 <= s <= store.len());
        assert(bucket_wf(store[s - 1], s));
    }
    crate::types::lemma_blank_insertion_shape(w, (n - s) as nat, v);
    assert forall|q: int| 0 <= q < v.len() implies crate::types::is_word_sym(#[trigger] v[q]) by {
        if v[q] != crate::types::BLANK_SYMBOL as int {
            let idx = choose|idx: int| 0 <= idx < w.len() && w[idx] == v[q];
            assert(is_letter_sym(w[idx]));
        }
    }
}

/// The first occurrence of each distinct symbol sequence, in order.
pub open spec fn dedup_first(s: Seq<Seq<int>>) -> Seq<Seq<int>>
    decreases s.len(),
{
    if s.len() == 0 {
        Seq::empty()
    } else {
        let front = dedup_first(s.drop_last());
        if front.contains(s.last()) {
            front
        } else {
            front.push(s.last())
        }
    }
}

/// A copy of `list` keeping the first occurrence of every distinct symbol
/// sequence, in order: nothing is added, nothing distinct is lost.
fn dedup_word_list(list: &WordList) -> (r: WordList)
    ensures
        forall|i: int| 0 <= i < r@.len() ==> word_views_contain(list@, #[trigger] r@[i]@),
        forall|j: int| 0 <= j < list@.len() ==> word_views_contain(r@, #[trigger] list@[j]@),
        forall|i: int, j: int| 0 <= i < j < r@.len() ==> r@[i]@ != r@[j]@,
        list_views(r@) == dedup_first(list_views(list@)),
{
    let mut r: WordList = Vec::new();
    let mut idx: usize = 0;
    while idx < list.len()
        invariant
            idx <= list@.len(),
            forall|i: int| 0 <= i < r@.len() ==> word_views_contain(list@, #[trigger] r@[i]@),
            forall|j: int| 0 <= j < idx ==> word_views_contain(r@, #[trigger] list@[j]@),
            forall|i: int, j: int| 0 <= i < j < r@.len() ==> r@[i]@ != r@[j]@,
            list_views(r@) == dedup_first(list_views(list@).take(idx as int)),
        decreases list@.len() - idx,
    {
        let ghost pre = r@;
        let present = word_list_contains(&r, &list[idx]);
        proof {
            assert(present == list_views(pre).contains(list@[idx as int]@)) by {
                if present {
                    let i = choose|i: int|
                        0 <= i < pre.len() && #[trigger] pre[i]@ == list@[idx as int]@;
                    assert(list_views(pre)[i] == list@[idx as int]@);
                }
                if list_views(pre).contains(list@[idx as int]@) {
                    let i = choose|i: int|
                        0 <= i < list_views(pre).len() && list_views(pre)[i] == list@[idx as int]@;
                    assert(pre[i]@ == list@[idx as int]@);
                }
            }
        }
        if !present {
            r.push(list[idx].clone());
            proof {
                assert(word_views_contain(list@, r@[r@.len() - 1]@));
            }
        }
        proof {
            assert(list_views(list@).take(idx + 1 as int).drop_last() =~= list_views(
                list@,
            ).take(idx as int));
            assert(list_views(list@).take(idx + 1 as int).last() == list@[idx as int]@);
            if present {
                assert(list_views(r@) =~= dedup_first(list_views(list@).take(idx + 1 as int)));
            } else {
                assert(list_views(r@) =~= list_views(pre).push(list@[idx as int]@));
                assert(list_views(r@) =~= dedup_first(list_views(list@).take(idx + 1 as int)));
            }
        }
        proof {
            assert forall|j: int| 0 <= j < idx + 1 implies word_views_contain(
                r@,
                #[trigger] list@[j]@,
            ) by {
                if j < idx {
                    let i = choose|i: int| 0 <= i < pre.len() && #[trigger] pre[i]@ == list@[j]@;
                    assert(r@[i]@ == list@[j]@);
                } else if present {
                    let i = choose|i: int|
                        0 <= i < pre.len() && #[trigger] pre[i]@ == list@[idx as int]@;
                    assert(r@[i]@ == list@[j]@);
                } else {
                    assert(r@[r@.len() - 1]@ == list@[j]@);
                }
            }
        }
        idx = idx + 1;
    }
    proof {
        assert(list_views(list@).take(list@.len() as int) =~= list_views(list@));
    }
    r
}

/// A copy of a word list that carries the same symbol sequences.
fn clone_word_list(list: &WordList) -> (r: WordList)
    ensures
        r@.len() == list@.len(),
        forall|i: int| 0 <= i < r@.len() ==> (#[trigger] r@[i])@ == list@[i]@,
{
    let mut r: WordList = Vec::new();
    let mut i: usize = 0;
    while i < list.len()
        invariant
            i <= list@.len(),
            r@.len() == i,
            forall|j: int| 0 <= j < i ==> (#[trigger] r@[j])@ == list@[j]@,
        decreases list@.len() - i,
    {
        r.push(list[i].clone());
        i = i + 1;
    }
    r
}

} // verus!
