//! Digraph codec: a `PairChar` packs an ordered pair of lowercase letters
//! into one small integer, with one reserved value for the blank spacer and
//! one sentinel for an unset grid cell; a `PairString` is a word encoded as a
//! sequence of such symbols.

use vstd::prelude::*;
use vstd::string::StringExecFns;

verus! {

/// Symbol value of the blank (spacer) pair, decoded as `"__"`.
pub const BLANK_SYMBOL: u16 = 729;

/// Sentinel held by grid cells that no committed row has written yet.
pub const UNSET_SYMBOL: u16 = 65535;

/// True for the byte value of a lowercase ASCII letter.
pub open spec fn is_lower_byte(b: u8) -> bool {
    97 <= b && b <= 122
}

/// True for a lowercase ASCII letter.
pub open spec fn is_lower_char(c: char) -> bool {
    'a' <= c && c <= 'z'
}

/// The symbol value that `PairChar::encode` assigns to a byte pair.
pub open spec fn spec_encode_pair(b1: u8, b2: u8) -> int {
    if b1 == 95 && b2 == 95 {
        BLANK_SYMBOL as int
    } else {
        26 * (b1 - 97) + (b2 - 97)
    }
}

/// A symbol that stands for a pair of letters (not blank, not unset).
pub open spec fn is_letter_sym(v: int) -> bool {
    0 <= v < 676
}

/// A symbol that may appear in an encoded word: a letter pair or the blank.
pub open spec fn is_word_sym(v: int) -> bool {
    is_letter_sym(v) || v == BLANK_SYMBOL as int
}

/// The two characters that `PairChar::decode` yields for a symbol value.
pub open spec fn spec_decode_sym(v: int) -> Seq<char> {
    if v >= 676 {
        seq!['_', '_']
    } else {
        seq![((v / 26 + 97) as u8) as char, ((v % 26 + 97) as u8) as char]
    }
}

/// One digraph symbol: an ordered pair of lowercase letters packed into a
/// `u16`, or the blank value, or the unset sentinel.
#[derive(Clone, Copy, Debug, Eq, Hash, PartialEq, Structural)]
pub struct PairChar {
    pub pair_char: u16,
}

impl View for PairChar {
    type V = int;

    open spec fn view(&self) -> int {
        self.pair_char as int
    }
}

impl PairChar {
    /// A fresh symbol holding the unset sentinel.
    pub fn new() -> (r: PairChar)
        ensures
            r@ == UNSET_SYMBOL as int,
    {
        let pair_char = u16::MAX;
        PairChar { pair_char }
    }

    fn single_char_convert(test_char: u8) -> (r: u16)
        requires
            is_lower_byte(test_char),
        ensures
            r == test_char - 97,
    {
        (test_char - 97) as u16
    }

    /// Packs two lowercase letters (or the `"__"` blank pair) into a symbol.
    pub fn encode(char1: u8, char2: u8) -> (r: PairChar)
        requires
            (is_lower_byte(char1) && is_lower_byte(char2)) || (char1 == 95 && char2 == 95),
        ensures
            r@ == spec_encode_pair(char1, char2),
            is_word_sym(r@),
            (char1 == 95 && char2 == 95) <==> r@ == BLANK_SYMBOL as int,
    {
        if char1 == 95 && char2 == 95 {
            PairChar { pair_char: BLANK_SYMBOL }
        } else {
            let val1: u16 = PairChar::single_char_convert(char1);
            let val2: u16 = PairChar::single_char_convert(char2);
            let pair_char: u16 = 26 * val1 + val2;
            PairChar { pair_char }
        }
    }

    /// True when the symbol is the blank spacer.
    pub fn is_spacer(&self) -> (r: bool)
        ensures
            r == (self@ == BLANK_SYMBOL as int),
    {
        self.pair_char == BLANK_SYMBOL
    }

    /// Unpacks the symbol back into its two characters.
    pub fn decode(&self) -> (r: String)
        ensures
            r@ == spec_decode_sym(self@),
    {
        if self.pair_char >= 676 {
            let r = "__".to_owned();
            proof {
                reveal_strlit("__");
                assert(r@ =~= spec_decode_sym(self@));
            }
            r
        } else {
            let c1 = (self.pair_char / 26) as u8;
            let c2 = (self.pair_char % 26) as u8;
            let mut r = letter_str(c1).to_owned();
            r.append(letter_str(c2));
            proof {
                assert(r@ =~= spec_decode_sym(self@));
            }
            r
        }
    }
}

/// The symbol values carried by a sequence of `PairChar`s.
pub open spec fn syms(s: Seq<PairChar>) -> Seq<int> {
    s.map_values(|c: PairChar| c@)
}

/// True when some entry of `list` carries the symbol sequence `v`.
pub open spec fn word_views_contain(list: Seq<PairString>, v: Seq<int>) -> bool {
    exists|i: int| 0 <= i < list.len() && #[trigger] list[i]@ == v
}

/// A word list keeps everything it contained when one more word is pushed.
pub proof fn lemma_contain_push(l: Seq<PairString>, x: PairString, v: Seq<int>)
    requires
        word_views_contain(l, v),
    ensures
        word_views_contain(l.push(x), v),
{
    let i = choose|i: int| 0 <= i < l.len() && #[trigger] l[i]@ == v;
    assert(l.push(x)[i]@ == v);
}

/// The symbol sequences carried by a list of encoded words.
pub open spec fn list_views(l: Seq<PairString>) -> Seq<Seq<int>> {
    l.map_values(|p: PairString| p@)
}

/// Every symbol of the word stands for a letter pair (no blanks, no unset).
pub open spec fn word_all_letters(w: Seq<int>) -> bool {
    forall|i: int| 0 <= i < w.len() ==> is_letter_sym(#[trigger] w[i])
}

/// The symbol sequence that encoding a chunk of characters two-by-two yields.
pub open spec fn spec_encode_word(cs: Seq<char>) -> Seq<int> {
    Seq::new((cs.len() / 2) as nat, |i: int| spec_encode_pair(cs[2 * i] as u8, cs[2 * i + 1] as u8))
}

/// The text that decoding a symbol sequence yields: two characters per symbol.
pub open spec fn spec_decode_word(v: Seq<int>) -> Seq<char>
    decreases v.len(),
{
    if v.len() == 0 {
        Seq::empty()
    } else {
        spec_decode_sym(v[0]) + spec_decode_word(v.drop_first())
    }
}

proof fn lemma_decode_word_push(a: Seq<int>, x: int)
    ensures
        spec_decode_word(a.push(x)) == spec_decode_word(a) + spec_decode_sym(x),
    decreases a.len(),
{
    if a.len() == 0 {
        assert(a.push(x).drop_first() =~= Seq::<int>::empty());
        assert(spec_decode_word(a.push(x)) == spec_decode_sym(x) + spec_decode_word(
            Seq::<int>::empty(),
        ));
        assert(spec_decode_sym(x) + Seq::<char>::empty() =~= Seq::<char>::empty()
            + spec_decode_sym(x));
    } else {
        lemma_decode_word_push(a.drop_first(), x);
        assert(a.push(x).drop_first() =~= a.drop_first().push(x));
        assert(spec_decode_word(a.push(x)) == spec_decode_sym(a[0]) + (spec_decode_word(
            a.drop_first(),
        ) + spec_decode_sym(x)));
        assert(spec_decode_sym(a[0]) + (spec_decode_word(a.drop_first()) + spec_decode_sym(x)) =~= (
        spec_decode_sym(a[0]) + spec_decode_word(a.drop_first())) + spec_decode_sym(x));
    }
}

proof fn lemma_pair_roundtrip(b1: u8, b2: u8)
    requires
        is_lower_byte(b1),
        is_lower_byte(b2),
    ensures
        spec_decode_sym(spec_encode_pair(b1, b2)) == seq![b1 as char, b2 as char],
{
    let v = spec_encode_pair(b1, b2);
    vstd::arithmetic::div_mod::lemma_fundamental_div_mod_converse(
        v,
        26,
        b1 - 97,
        b2 - 97,
    );
    assert(v / 26 == b1 - 97 && v % 26 == b2 - 97);
    assert(spec_decode_sym(v) =~= seq![b1 as char, b2 as char]);
}

/// Round-trip law: decoding the encoding of an even-length lowercase text
/// gives back exactly that text, two characters per symbol.
pub proof fn lemma_encode_decode_roundtrip(cs: Seq<char>)
    requires
        cs.len() % 2 == 0,
        forall|i: int| 0 <= i < cs.len() ==> is_lower_char(#[trigger] cs[i]),
    ensures
        spec_decode_word(spec_encode_word(cs)) == cs,
    decreases cs.len(),
{
    let v = spec_encode_word(cs);
    if cs.len() == 0 {
        assert(v =~= Seq::<int>::empty());
        assert(spec_decode_word(v) =~= cs);
    } else {
        let rest = cs.skip(2);
        assert(v.drop_first() =~= spec_encode_word(rest));
        lemma_encode_decode_roundtrip(rest);
        lemma_pair_roundtrip(cs[0] as u8, cs[1] as u8);
        assert(cs[0] as u8 as char == cs[0]);
        assert(cs[1] as u8 as char == cs[1]);
        assert(spec_decode_sym(v[0]) == seq![cs[0], cs[1]]);
        assert(spec_decode_word(v) == seq![cs[0], cs[1]] + rest);
        assert(seq![cs[0], cs[1]] + rest =~= cs);
    }
}

/// A word encoded as a sequence of digraph symbols.
#[derive(Debug, Eq, Hash, PartialEq)]
pub struct PairString {
    pub pair_string: Vec<PairChar>,
}

impl View for PairString {
    type V = Seq<int>;

    open spec fn view(&self) -> Seq<int> {
        syms(self.pair_string@)
    }
}

impl Clone for PairString {
    fn clone(&self) -> (r: Self)
        ensures
            r@ == self@,
    {
        PairString { pair_string: clone_pairchar_vec(&self.pair_string) }
    }
}

/// A copy of a symbol vector carrying the same symbols.
pub fn clone_pairchar_vec(v: &Vec<PairChar>) -> (r: Vec<PairChar>)
    ensures
        r@ == v@,
{
    let mut r: Vec<PairChar> = Vec::new();
    let mut i: usize = 0;
    while i < v.len()
        invariant
            i <= v@.len(),
            r@ == v@.take(i as int),
        decreases v@.len() - i,
    {
        r.push(v[i]);
        proof {
            assert(v@.take(i + 1 as int) =~= v@.take(i as int).push(v@[i as int]));
        }
        i = i + 1;
    }
    proof {
        assert(v@.take(v@.len() as int) =~= v@);
    }
    r
}

/// True exactly when two symbol slices carry the same symbol sequence.
pub fn syms_equal(a: &[PairChar], b: &[PairChar]) -> (r: bool)
    ensures
        r == (syms(a@) == syms(b@)),
{
    if a.len() != b.len() {
        assert(syms(a@).len() == a@.len());
        assert(syms(b@).len() == b@.len());
        return false;
    }
    let mut i: usize = 0;
    while i < a.len()
        invariant
            a@.len() == b@.len(),
            i <= a@.len(),
            forall|j: int| 0 <= j < i ==> a@[j]@ == b@[j]@,
        decreases a@.len() - i,
    {
        if a[i] != b[i] {
            assert(syms(a@)[i as int] != syms(b@)[i as int]);
            return false;
        }
        i = i + 1;
    }
    proof {
        assert(syms(a@) =~= syms(b@));
    }
    true
}

impl PairString {
    /// An empty encoded word.
    pub fn new() -> (r: PairString)
        ensures
            r@ == Seq::<int>::empty(),
    {
        let r = PairString { pair_string: Vec::new() };
        proof {
            assert(r@ =~= Seq::<int>::empty());
        }
        r
    }

    /// A word of `length` unset symbols.
    pub fn build(length: usize) -> (r: PairString)
        ensures
            r@.len() == length,
            forall|i: int| 0 <= i < length ==> r@[i] == UNSET_SYMBOL as int,
    {
        let mut pair_string: Vec<PairChar> = Vec::new();
        let mut i: usize = 0;
        while i < length
            invariant
                i <= length,
                pair_string@.len() == i,
                forall|j: int| 0 <= j < i ==> pair_string@[j]@ == UNSET_SYMBOL as int,
            decreases length - i,
        {
            pair_string.push(PairChar::new());
            i = i + 1;
        }
        PairString { pair_string }
    }

    /// Appends one symbol.
    pub fn push(&mut self, pair_char: PairChar)
        ensures
            final(self)@ == old(self)@.push(pair_char@),
    {
        self.pair_string.push(pair_char);
        proof {
            assert(final(self)@ =~= old(self)@.push(pair_char@));
        }
    }

    /// Encodes an even-length lowercase word, two characters per symbol.
    pub fn encode(input_string: &str) -> (r: PairString)
        requires
            input_string@.len() % 2 == 0,
            forall|i: int|
                0 <= i < input_string@.len() / 2 ==> ((is_lower_char(
                    #[trigger] input_string@[2 * i],
                ) && is_lower_char(input_string@[2 * i + 1])) || (input_string@[2 * i] == '_'
                    && input_string@[2 * i + 1] == '_')),
        ensures
            r@ == spec_encode_word(input_string@),
            forall|i: int| 0 <= i < r@.len() ==> is_word_sym(#[trigger] r@[i]),
    {
        proof {
            vstd::arithmetic::div_mod::lemma_fundamental_div_mod(input_string@.len() as int, 2);
            assert(vstd::string::is_ascii(input_string)) by {
                assert forall|p: int|
                    0 <= p < input_string@.len() implies '\0' <= #[trigger] input_string@[p]
                    <= '\u{7f}' by {
                    let i = p / 2;
                    vstd::arithmetic::div_mod::lemma_fundamental_div_mod(p, 2);
                    assert(is_lower_char(input_string@[2 * i]) || input_string@[2 * i] == '_');
                    assert(is_lower_char(input_string@[2 * i + 1]) || input_string@[2 * i + 1]
                        == '_');
                    assert(p == 2 * i || p == 2 * i + 1);
                }
            }
            vstd::string::is_ascii_spec_bytes(input_string);
        }
        let bytes = input_string.as_bytes();
        let n = bytes.len();
        let half = n / 2;
        let mut ps = PairString::new();
        let mut k: usize = 0;
        while k < half
            invariant
                n == bytes@.len(),
                bytes@.len() == input_string@.len(),
                bytes@.len() % 2 == 0,
                half == bytes@.len() / 2,
                forall|i: int| 0 <= i < bytes@.len() ==> bytes@[i] == input_string@[i] as u8,
                forall|i: int|
                    0 <= i < input_string@.len() / 2 ==> ((is_lower_char(
                        #[trigger] input_string@[2 * i],
                    ) && is_lower_char(input_string@[2 * i + 1])) || (input_string@[2 * i] == '_'
                        && input_string@[2 * i + 1] == '_')),
                k <= half,
                ps@ == spec_encode_word(input_string@).take(k as int),
                forall|i: int| 0 <= i < ps@.len() ==> is_word_sym(#[trigger] ps@[i]),
        decreases half - k,
        {
            proof {
                vstd::arithmetic::div_mod::lemma_fundamental_div_mod(bytes@.len() as int, 2);
                assert(2 * k + 1 < bytes@.len());
            }
            let c1 = bytes[2 * k];
            let c2 = bytes[2 * k + 1];
            assert((is_lower_char(input_string@[2 * k as int]) && is_lower_char(
                input_string@[2 * k + 1 as int],
            )) || (input_string@[2 * k as int] == '_' && input_string@[2 * k + 1 as int] == '_'));
            ps.push(PairChar::encode(c1, c2));
            proof {
                assert(spec_encode_word(input_string@).take(k + 1 as int) =~= spec_encode_word(
                    input_string@,
                ).take(k as int).push(spec_encode_pair(c1, c2)));
            }
            k = k + 1;
        }
        proof {
            assert(spec_encode_word(input_string@).take(half as int) =~= spec_encode_word(
                input_string@,
            ));
        }
        ps
    }

    /// Decodes the word back into text, two characters per symbol.
    pub fn decode(&self) -> (r: String)
        ensures
            r@ == spec_decode_word(self@),
    {
        let mut result = String::new();
        let mut i: usize = 0;
        while i < self.pair_string.len()
            invariant
                i <= self@.len(),
                self@.len() == self.pair_string@.len(),
                result@ == spec_decode_word(self@.take(i as int)),
            decreases self@.len() - i,
        {
            let piece = self.pair_string[i].decode();
            result.append(piece.as_str());
            proof {
                lemma_decode_word_push(self@.take(i as int), self@[i as int]);
                assert(self@.take(i + 1 as int) =~= self@.take(i as int).push(self@[i as int]));
            }
            i = i + 1;
        }
        proof {
            assert(self@.take(self@.len() as int) =~= self@);
        }
        result
    }

    /// Number of symbols in the word.
    pub fn len(&self) -> (r: usize)
        ensures
            r == self@.len(),
    {
        self.pair_string.len()
    }

    /// The word's symbols as a slice.
    pub fn slice(&self) -> (r: &[PairChar])
        ensures
            r@ == self.pair_string@,
            syms(r@) == self@,
    {
        self.pair_string.as_slice()
    }

    /// The first `pos` symbols as a slice.
    pub fn slice_to(&self, pos: usize) -> (r: &[PairChar])
        requires
            pos <= self@.len(),
        ensures
            syms(r@) == self@.take(pos as int),
    {
        let r = vstd::slice::slice_subrange(self.pair_string.as_slice(), 0, pos);
        proof {
            assert(syms(r@) =~= self@.take(pos as int));
        }
        r
    }

    /// Builds a word from a slice of symbols.
    pub fn assemble(slice: &[PairChar]) -> (r: PairString)
        ensures
            r@ == syms(slice@),
    {
        let mut return_val = PairString::new();
        let mut i: usize = 0;
        while i < slice.len()
            invariant
                i <= slice@.len(),
                return_val@ == syms(slice@).take(i as int),
            decreases slice@.len() - i,
        {
            return_val.push(slice[i]);
            proof {
                assert(syms(slice@).take(i + 1 as int) =~= syms(slice@).take(i as int).push(
                    slice@[i as int]@,
                ));
            }
            i = i + 1;
        }
        proof {
            assert(syms(slice@).take(slice@.len() as int) =~= syms(slice@));
        }
        return_val
    }

    /// Reverses the order of the symbols in place.
    pub fn reverse(&mut self)
        ensures
            final(self)@ == old(self)@.reverse(),
    {
        let n = self.pair_string.len();
        let mut reversed: Vec<PairChar> = Vec::new();
        let mut i: usize = 0;
        while i < n
            invariant
                n == old(self)@.len(),
                self.pair_string@ == old(self).pair_string@,
                i <= n,
                reversed@.len() == i,
                forall|j: int| 0 <= j < i ==> reversed@[j]@ == old(self)@[n - 1 - j],
            decreases n - i,
        {
            reversed.push(self.pair_string[n - 1 - i]);
            i = i + 1;
        }
        self.pair_string = reversed;
        proof {
            assert(final(self)@ =~= old(self)@.reverse());
        }
    }
}

/// True when `v` arises from some member of `prev` by inserting one blank.
pub open spec fn is_blank_insertion_of(prev: Set<Seq<int>>, v: Seq<int>) -> bool {
    exists|u: Seq<int>, i: int|
        prev.contains(u) && 0 <= i <= u.len() && v == #[trigger] u.insert(i, BLANK_SYMBOL as int)
}

/// All symbol sequences obtained from `w` by inserting exactly `b` blank
/// symbols, one at a time, at any positions (including adjacent ones).
pub open spec fn blank_insertions(w: Seq<int>, b: nat) -> Set<Seq<int>>
    decreases b,
{
    if b == 0 {
        set![w]
    } else {
        Set::new(|v: Seq<int>| is_blank_insertion_of(blank_insertions(w, (b - 1) as nat), v))
    }
}

/// Inserting one more blank into a padded variant gives a padded variant
/// with one more blank.
pub proof fn lemma_blank_insertions_step(w: Seq<int>, b: nat, u: Seq<int>, i: int)
    requires
        b >= 1,
        blank_insertions(w, (b - 1) as nat).contains(u),
        0 <= i <= u.len(),
    ensures
        blank_insertions(w, b).contains(u.insert(i, BLANK_SYMBOL as int)),
{
    let v = u.insert(i, BLANK_SYMBOL as int);
    assert(is_blank_insertion_of(blank_insertions(w, (b - 1) as nat), v));
}

/// The word with its blank symbols removed.
pub open spec fn strip_blanks(v: Seq<int>) -> Seq<int> {
    v.filter(|x: int| x != BLANK_SYMBOL as int)
}

proof fn lemma_strip_blanks_insert(u: Seq<int>, i: int)
    requires
        0 <= i <= u.len(),
    ensures
        strip_blanks(u.insert(i, BLANK_SYMBOL as int)) == strip_blanks(u),
{
    broadcast use vstd::seq_lib::group_seq_properties;

    let pred = |x: int| x != BLANK_SYMBOL as int;
    let left = u.subrange(0, i);
    let right = u.subrange(i, u.len() as int);
    let one = seq![BLANK_SYMBOL as int];
    assert(left.push(BLANK_SYMBOL as int) =~= left + one);
    Seq::filter_distributes_over_add(left, one, pred);
    Seq::filter_distributes_over_add(left + one, right, pred);
    Seq::filter_distributes_over_add(left, right, pred);
    assert(one.filter(pred) =~= Seq::<int>::empty()) by {
        reveal_with_fuel(Seq::filter, 3);
    }
    assert(left + right =~= u);
    assert((left + one) + right =~= u.insert(i, BLANK_SYMBOL as int));
    assert(left.filter(pred) + one.filter(pred) =~= left.filter(pred));
}

/// Every padded variant of `w` has exactly `b` more symbols than `w`, and
/// stripping the blanks out of it gives back exactly the non-blank symbols
/// of `w`.
pub proof fn lemma_blank_insertion_shape(w: Seq<int>, b: nat, v: Seq<int>)
    requires
        blank_insertions(w, b).contains(v),
    ensures
        v.len() == w.len() + b,
        strip_blanks(v) == strip_blanks(w),
        forall|q: int| 0 <= q < v.len() ==> #[trigger] v[q] == BLANK_SYMBOL as int || w.contains(v[q]),
    decreases b,
{
    if b == 0 {
        assert(v == w);
        assert forall|q: int| 0 <= q < v.len() implies #[trigger] v[q] == BLANK_SYMBOL as int
            || w.contains(v[q]) by {
            assert(w[q] == v[q]);
        }
    } else {
        assert(is_blank_insertion_of(blank_insertions(w, (b - 1) as nat), v));
        let (u, i): (Seq<int>, int) = choose|u: Seq<int>, i: int|
            blank_insertions(w, (b - 1) as nat).contains(u) && 0 <= i <= u.len() && v
                == #[trigger] u.insert(i, BLANK_SYMBOL as int);
        lemma_blank_insertion_shape(w, (b - 1) as nat, u);
        lemma_strip_blanks_insert(u, i);
        u.insert_ensures(i, BLANK_SYMBOL as int);
        assert(v.len() == u.len() + 1);
        assert forall|q: int| 0 <= q < v.len() implies #[trigger] v[q] == BLANK_SYMBOL as int
            || w.contains(v[q]) by {
            if q < i {
                assert(v[q] == u[q]);
            } else if q == i {
                assert(v[q] == BLANK_SYMBOL as int);
            } else {
                assert(v[(q - 1) + 1] == u[q - 1]);
            }
        }
    }
}

/// True exactly when some entry of `list` carries the symbol sequence `w`.
pub fn word_list_contains(list: &Vec<PairString>, w: &PairString) -> (r: bool)
    ensures
        r == word_views_contain(list@, w@),
{
    let mut i: usize = 0;
    while i < list.len()
        invariant
            i <= list@.len(),
            forall|j: int| 0 <= j < i ==> list@[j]@ != w@,
        decreases list@.len() - i,
    {
        if syms_equal(list[i].slice(), w.slice()) {
            return true;
        }
        i = i + 1;
    }
    false
}

/// Some entry of `rv` carries `u` with a blank inserted at position `ins`.
pub open spec fn has_inserted_variant(rv: Seq<PairString>, u: Seq<int>, ins: int) -> bool {
    exists|idx: int| 0 <= idx < rv.len() && #[trigger] rv[idx]@ == u.insert(ins, BLANK_SYMBOL as int)
}

impl PairString {
    fn permutation_recursor(word: &PairString, blanks: usize) -> (r: Vec<PairString>)
        requires
            word@.len() + blanks <= usize::MAX,
        ensures
            forall|i: int|
                0 <= i < r@.len() ==> blank_insertions(word@, blanks as nat).contains(
                    #[trigger] r@[i]@,
                ),
            forall|v: Seq<int>|
                #[trigger] blank_insertions(word@, blanks as nat).contains(v)
                    ==> word_views_contain(r@, v),
        decreases blanks,
    {
        let mut return_vec: Vec<PairString> = Vec::new();
        if blanks == 0 {
            return_vec.push(word.clone());
            proof {
                assert(blank_insertions(word@, 0).contains(return_vec@[0]@));
                assert forall|v: Seq<int>| #[trigger] blank_insertions(
                    word@,
                    blanks as nat,
                ).contains(v) implies word_views_contain(return_vec@, v) by {
                    assert(v == word@);
                    assert(return_vec@[0]@ == v);
                }
            }
        } else {
            let lower = PairString::permutation_recursor(word, blanks - 1);
            let mut pi: usize = 0;
            while pi < lower.len()
                invariant
                    blanks >= 1,
                    word@.len() + blanks <= usize::MAX,
                    pi <= lower@.len(),
                    forall|j: int|
                        0 <= j < lower@.len() ==> blank_insertions(
                            word@,
                            (blanks - 1) as nat,
                        ).contains(#[trigger] lower@[j]@),
                    forall|v: Seq<int>|
                        #[trigger] blank_insertions(word@, (blanks - 1) as nat).contains(v)
                            ==> word_views_contain(lower@, v),
                    forall|idx: int|
                        0 <= idx < return_vec@.len() ==> blank_insertions(
                            word@,
                            blanks as nat,
                        ).contains(#[trigger] return_vec@[idx]@),
                    forall|pj: int, ins: int|
                        0 <= pj < pi && 0 <= ins <= lower@[pj]@.len()
                            ==> #[trigger] has_inserted_variant(return_vec@, lower@[pj]@, ins),
                decreases lower@.len() - pi,
            {
                proof {
                    assert(blank_insertions(word@, (blanks - 1) as nat).contains(
                        lower@[pi as int]@,
                    ));
                    lemma_blank_insertion_shape(word@, (blanks - 1) as nat, lower@[pi as int]@);
                    assert(lower@[pi as int]@.len() == word@.len() + blanks - 1);
                }
                let pw_len = lower[pi].len();
                let mut ins: usize = 0;
                while ins <= pw_len
                    invariant
                        blanks >= 1,
                        word@.len() + blanks <= usize::MAX,
                        pi < lower@.len(),
                        pw_len == lower@[pi as int]@.len(),
                        pw_len == word@.len() + blanks - 1,
                        ins <= pw_len + 1,
                        forall|j: int|
                            0 <= j < lower@.len() ==> blank_insertions(
                                word@,
                                (blanks - 1) as nat,
                            ).contains(#[trigger] lower@[j]@),
                        forall|idx: int|
                            0 <= idx < return_vec@.len() ==> blank_insertions(
                                word@,
                                blanks as nat,
                            ).contains(#[trigger] return_vec@[idx]@),
                        forall|pj: int, ins2: int|
                            0 <= pj < pi && 0 <= ins2 <= lower@[pj]@.len()
                                ==> #[trigger] has_inserted_variant(return_vec@, lower@[pj]@, ins2),
                        forall|ins2: int|
                            0 <= ins2 < ins ==> #[trigger] has_inserted_variant(
                                return_vec@,
                                lower@[pi as int]@,
                                ins2,
                            ),
                    decreases pw_len + 1 - ins,
                {
                    let mut new_word = lower[pi].clone();
                    new_word.pair_string.insert(ins, PairChar::encode(95, 95));
                    proof {
                        assert(new_word@ =~= lower@[pi as int]@.insert(
                            ins as int,
                            BLANK_SYMBOL as int,
                        ));
                        lemma_blank_insertions_step(
                            word@,
                            blanks as nat,
                            lower@[pi as int]@,
                            ins as int,
                        );
                        assert(blank_insertions(word@, blanks as nat).contains(new_word@));
                    }
                    let ghost pre = return_vec@;
                    return_vec.push(new_word);
                    proof {
                        assert(return_vec@[return_vec@.len() - 1]@ == lower@[pi as int]@.insert(
                            ins as int,
                            BLANK_SYMBOL as int,
                        ));
                        assert(has_inserted_variant(return_vec@, lower@[pi as int]@, ins as int));
                        assert forall|u: Seq<int>, ins2: int| has_inserted_variant(
                            pre,
                            u,
                            ins2,
                        ) implies #[trigger] has_inserted_variant(return_vec@, u, ins2) by {
                            let idx = choose|idx: int|
                                0 <= idx < pre.len() && #[trigger] pre[idx]@ == u.insert(
                                    ins2,
                                    BLANK_SYMBOL as int,
                                );
                            assert(return_vec@[idx]@ == u.insert(ins2, BLANK_SYMBOL as int));
                        }
                    }
                    ins = ins + 1;
                }
                pi = pi + 1;
            }
            proof {
                assert forall|v: Seq<int>|
                    blank_insertions(word@, blanks as nat).contains(v) implies word_views_contain(
                    return_vec@,
                    v,
                ) by {
                    assert(is_blank_insertion_of(
                        blank_insertions(word@, (blanks - 1) as nat),
                        v,
                    ));
                    let (u, ins): (Seq<int>, int) = choose|u: Seq<int>, ins: int|
                        blank_insertions(word@, (blanks - 1) as nat).contains(u) && 0 <= ins
                            <= u.len() && v == #[trigger] u.insert(ins, BLANK_SYMBOL as int);
                    assert(word_views_contain(lower@, u));
                    let pj = choose|pj: int| 0 <= pj < lower@.len() && #[trigger] lower@[pj]@ == u;
                    assert(has_inserted_variant(return_vec@, lower@[pj]@, ins));
                    let idx = choose|idx: int|
                        0 <= idx < return_vec@.len() && #[trigger] return_vec@[idx]@
                            == lower@[pj]@.insert(ins, BLANK_SYMBOL as int);
                    assert(return_vec@[idx]@ == v);
                }
            }
        }
        return_vec
    }

    /// Every distinct way of inserting `space_count` blank symbols into the
    /// word, each variant listed exactly once.
    pub fn permute(&self, space_count: usize) -> (r: Vec<PairString>)
        requires
            self@.len() + space_count <= usize::MAX,
        ensures
            forall|i: int|
                0 <= i < r@.len() ==> blank_insertions(self@, space_count as nat).contains(
                    #[trigger] r@[i]@,
                ),
            forall|v: Seq<int>|
                #[trigger] blank_insertions(self@, space_count as nat).contains(v)
                    ==> word_views_contain(r@, v),
            forall|i: int, j: int| 0 <= i < j < r@.len() ==> r@[i]@ != r@[j]@,
    {
        let all = PairString::permutation_recursor(self, space_count);
        let mut word_set: Vec<PairString> = Vec::new();
        let mut idx: usize = 0;
        while idx < all.len()
            invariant
                idx <= all@.len(),
                forall|i: int|
                    0 <= i < all@.len() ==> blank_insertions(self@, space_count as nat).contains(
                        #[trigger] all@[i]@,
                    ),
                forall|i: int|
                    0 <= i < word_set@.len() ==> blank_insertions(
                        self@,
                        space_count as nat,
                    ).contains(#[trigger] word_set@[i]@),
                forall|j: int|
                    0 <= j < idx ==> word_views_contain(word_set@, #[trigger] all@[j]@),
                forall|i: int, j: int| 0 <= i < j < word_set@.len() ==> word_set@[i]@ != word_set@[j]@,
            decreases all@.len() - idx,
        {
            let ghost pre = word_set@;
            let present = word_list_contains(&word_set, &all[idx]);
            if !present {
                word_set.push(all[idx].clone());
            }
            proof {
                assert forall|j: int| 0 <= j < idx + 1 implies word_views_contain(
                    word_set@,
                    #[trigger] all@[j]@,
                ) by {
                    if j < idx {
                        let i = choose|i: int| 0 <= i < pre.len() && #[trigger] pre[i]@ == all@[j]@;
                        assert(word_set@[i]@ == all@[j]@);
                    } else if present {
                        let i = choose|i: int|
                            0 <= i < pre.len() && #[trigger] pre[i]@ == all@[idx as int]@;
                        assert(word_set@[i]@ == all@[j]@);
                    } else {
                        assert(word_set@[word_set@.len() - 1]@ == all@[j]@);
                    }
                }
            }
            idx = idx + 1;
        }
        proof {
            assert forall|v: Seq<int>|
                blank_insertions(self@, space_count as nat).contains(v) implies word_views_contain(
                word_set@,
                v,
            ) by {
                assert(word_views_contain(all@, v));
                let j = choose|j: int| 0 <= j < all@.len() && #[trigger] all@[j]@ == v;
                assert(word_views_contain(word_set@, all@[j]@));
            }
        }
        word_set
    }
}

/// A list of encoded words.
pub type WordList = Vec<PairString>;

/// The one-letter string for letter index `x` (0 for `a` through 25 for `z`).
fn letter_str(x: u8) -> (r: &'static str)
    requires
        x < 26,
    ensures
        r@ =~= seq![((x + 97) as u8) as char],
{
    let r = match x {
        0 => "a",
        1 => "b",
        2 => "c",
        3 => "d",
        4 => "e",
        5 => "f",
        6 => "g",
        7 => "h",
        8 => "i",
        9 => "j",
        10 => "k",
        11 => "l",
        12 => "m",
        13 => "n",
        14 => "o",
        15 => "p",
        16 => "q",
        17 => "r",
        18 => "s",
        19 => "t",
        20 => "u",
        21 => "v",
        22 => "w",
        23 => "x",
        24 => "y",
        _ => "z",
    };
    proof {
        reveal_strlit("a");
        reveal_strlit("b");
        reveal_strlit("c");
        reveal_strlit("d");
        reveal_strlit("e");
        reveal_strlit("f");
        reveal_strlit("g");
        reveal_strlit("h");
        reveal_strlit("i");
        reveal_strlit("j");
        reveal_strlit("k");
        reveal_strlit("l");
        reveal_strlit("m");
        reveal_strlit("n");
        reveal_strlit("o");
        reveal_strlit("p");
        reveal_strlit("q");
        reveal_strlit("r");
        reveal_strlit("s");
        reveal_strlit("t");
        reveal_strlit("u");
        reveal_strlit("v");
        reveal_strlit("w");
        reveal_strlit("x");
        reveal_strlit("y");
        reveal_strlit("z");
    }
    r
}

} // verus!
