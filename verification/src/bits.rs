use vstd::prelude::*;
use vstd::string::StringExecFns;
use vstd::string::StringSliceAdditionalSpecFns;

verus! {

/// The `k`-th bit of `v`, counted from the least significant bit.
pub open spec fn bit_of(v: u32, k: u32) -> u32 {
    (v >> k) & 1
}

/// The `n` lowest bits of `v`, most significant first.
pub open spec fn bit_seq(v: u32, n: nat) -> Seq<u32> {
    Seq::new(n, |i: int| bit_of(v, (n - 1 - i) as u32))
}

/// The 32 bits of a word, most significant first.
pub open spec fn word_bits(w: u32) -> Seq<u32> {
    bit_seq(w, 32)
}

/// The bits of a sequence of words, each word most significant bit first.
pub open spec fn words_bits(ws: Seq<u32>) -> Seq<u32>
    decreases ws.len(),
{
    if ws.len() == 0 {
        seq![]
    } else {
        words_bits(ws.drop_last()) + word_bits(ws.last())
    }
}

/// `v` has no bit set at or above position `n`.
pub open spec fn fits_in(v: u32, n: u32) -> bool {
    n >= 32 || v >> n == 0
}

/// The low `32 - used` bits of `w` (those after the first `used` bits) are clear.
pub open spec fn tail_clear(w: u32, used: u32) -> bool {
    used >= 32 || w << used == 0
}

/// The shift that `BitString::offset` computes: how far the string reaches past the end
/// of a word when placed at position `off`.
pub open spec fn place_shift(off: u32, size: u32) -> int {
    (off as i32) as int + size - 32
}

/// The character of the decimal digit `d`.
pub open spec fn digit_char(d: nat) -> char {
    if d == 0 {
        '0'
    } else if d == 1 {
        '1'
    } else if d == 2 {
        '2'
    } else if d == 3 {
        '3'
    } else if d == 4 {
        '4'
    } else if d == 5 {
        '5'
    } else if d == 6 {
        '6'
    } else if d == 7 {
        '7'
    } else if d == 8 {
        '8'
    } else {
        '9'
    }
}

/// `n` in decimal.
pub open spec fn decimal(n: nat) -> Seq<char>
    decreases n,
{
    if n < 10 {
        seq![digit_char(n)]
    } else {
        decimal(n / 10).push(digit_char(n % 10))
    }
}

/// The number written by the decimal digits `s`, most significant first, each digit
/// taken by its character code.
pub open spec fn numeral_value(s: Seq<char>) -> int {
    s.fold_left(0int, |acc: int, c: char| acc * 10 + ((c as u32) as int - 48))
}

proof fn lemma_digit_char(d: nat)
    requires
        d < 10,
    ensures
        (digit_char(d) as u32) as int == 48 + d,
{
    assert('0' as u32 == 48);
    assert('1' as u32 == 49);
    assert('2' as u32 == 50);
    assert('3' as u32 == 51);
    assert('4' as u32 == 52);
    assert('5' as u32 == 53);
    assert('6' as u32 == 54);
    assert('7' as u32 == 55);
    assert('8' as u32 == 56);
    assert('9' as u32 == 57);
}

/// `decimal(n)` is the standard decimal numeral of `n`: at least one character, every
/// character a digit `0`..`9`, no leading zero unless `n` is 0, and the digits read most
/// significant first give `n`.
pub proof fn lemma_decimal_numeral(n: nat)
    ensures
        decimal(n).len() >= 1,
        forall|i: int|
            0 <= i < decimal(n).len() ==> 48 <= (#[trigger] decimal(n)[i] as u32) <= 57,
        n > 0 ==> decimal(n)[0] as u32 != 48,
        numeral_value(decimal(n)) == n,
    decreases n,
{
    let f = |acc: int, c: char| acc * 10 + ((c as u32) as int - 48);
    if n < 10 {
        lemma_digit_char(n);
        let s = decimal(n);
        assert(s.drop_last() =~= Seq::<char>::empty());
        assert(s.fold_left(0int, f) == f(s.drop_last().fold_left(0int, f), s.last()));
    } else {
        lemma_decimal_numeral(n / 10);
        lemma_digit_char(n % 10);
        let p = decimal(n / 10);
        let s = decimal(n);
        assert(s.drop_last() =~= p);
        assert(s.fold_left(0int, f) == f(p.fold_left(0int, f), s.last()));
        assert(forall|i: int| 0 <= i < p.len() ==> s[i] == p[i]);
        assert(n == (n / 10) * 10 + n % 10);
    }
}

/// The character of one bit.
pub open spec fn bit_char(b: u32) -> char {
    if b == 1 {
        '1'
    } else {
        '0'
    }
}

/// A word as `0b` and its 32 bits, most significant first, then a line break.
pub open spec fn word_text(w: u32) -> Seq<char> {
    seq!['0', 'b'] + Seq::new(32, |i: int| bit_char(bit_of(w, (31 - i) as u32))) + seq!['\n']
}

/// The lines of the words `ws`.
pub open spec fn words_text(ws: Seq<u32>) -> Seq<char>
    decreases ws.len(),
{
    if ws.len() == 0 {
        seq![]
    } else {
        words_text(ws.drop_last()) + word_text(ws.last())
    }
}

/// The text of a bit vector: its offset in decimal on a line, then one line per word.
pub open spec fn bitvec_text(v: BitVecView) -> Seq<char> {
    decimal(v.1 as nat) + seq!['\n'] + words_text(v.0)
}

fn push_digit(s: &mut String, d: u32)
    requires
        d < 10,
    ensures
        final(s)@ == old(s)@.push(digit_char(d as nat)),
{
    let ghost s0 = s@;
    if d == 0 {
        s.append("0");
        proof {
            reveal_strlit("0");
        }
    } else if d == 1 {
        s.append("1");
        proof {
            reveal_strlit("1");
        }
    } else if d == 2 {
        s.append("2");
        proof {
            reveal_strlit("2");
        }
    } else if d == 3 {
        s.append("3");
        proof {
            reveal_strlit("3");
        }
    } else if d == 4 {
        s.append("4");
        proof {
            reveal_strlit("4");
        }
    } else if d == 5 {
        s.append("5");
        proof {
            reveal_strlit("5");
        }
    } else if d == 6 {
        s.append("6");
        proof {
            reveal_strlit("6");
        }
    } else if d == 7 {
        s.append("7");
        proof {
            reveal_strlit("7");
        }
    } else if d == 8 {
        s.append("8");
        proof {
            reveal_strlit("8");
        }
    } else {
        s.append("9");
        proof {
            reveal_strlit("9");
        }
    }
    assert(s@ =~= s0.push(digit_char(d as nat)));
}

fn push_decimal(s: &mut String, n: u32)
    ensures
        final(s)@ == old(s)@ + decimal(n as nat),
    decreases n,
{
    let ghost s0 = s@;
    if n >= 10 {
        push_decimal(s, n / 10);
    }
    push_digit(s, n % 10);
    assert(s@ =~= s0 + decimal(n as nat));
}

fn push_word(s: &mut String, w: u32)
    ensures
        final(s)@ == old(s)@ + word_text(w),
{
    let ghost s0 = s@;
    s.append("0b");
    proof {
        reveal_strlit("0b");
    }
    let mut i: u32 = 0;
    while i < 32
        invariant
            i <= 32,
            s@ == s0 + seq!['0', 'b'] + Seq::new(i as nat, |k: int| bit_char(bit_of(w, (31 - k) as u32))),
        decreases 32 - i,
    {
        let bit = (w >> (31 - i)) & 1;
        if bit == 1 {
            s.append("1");
            proof {
                reveal_strlit("1");
            }
        } else {
            s.append("0");
            proof {
                reveal_strlit("0");
            }
        }
        assert(s@ =~= s0 + seq!['0', 'b'] + Seq::new(
            (i + 1) as nat,
            |k: int| bit_char(bit_of(w, (31 - k) as u32)),
        ));
        i = i + 1;
    }
    s.append("\n");
    proof {
        reveal_strlit("\n");
    }
    assert(s@ =~= s0 + word_text(w));
}

/// A string of at most 32 bits, kept right-aligned in a `u32`.
#[derive(Debug, Copy, Clone)]
pub struct BitString {
    bits: u32,
    size: u32,
}

/// How a bit string lands in a word: whole, or cut into a head that fills the word
/// and a tail that starts the next one.
pub enum BitResult {
    All(u32),
    Cut(u32, u32),
}

impl View for BitString {
    type V = (u32, u32);

    /// The value and the number of bits.
    closed spec fn view(&self) -> (u32, u32) {
        (self.bits, self.size)
    }
}

/// The value of a non-empty sequence of binary digit bytes (`b'0'` and `b'1'`).
pub open spec fn binary_value(d: Seq<u8>) -> nat
    decreases d.len(),
{
    if d.len() == 0 {
        0
    } else {
        binary_value(d.drop_last()) * 2 + (if d.last() == 0x31u8 {
            1nat
        } else {
            0nat
        })
    }
}

/// The digits of a binary literal: the text without its optional leading `+`.
pub open spec fn binary_digits(s: Seq<u8>) -> Seq<u8> {
    if s.len() > 0 && s[0] == 0x2bu8 {
        s.drop_first()
    } else {
        s
    }
}

/// The text is a binary literal that `u32::from_str_radix(_, 2)` accepts: an optional
/// `+`, then at least one digit `0` or `1`, with a value below 2^32.
pub open spec fn is_binary_literal(s: Seq<u8>) -> bool {
    let d = binary_digits(s);
    &&& d.len() > 0
    &&& forall|i: int| 0 <= i < d.len() ==> (d[i] == 0x30u8 || d[i] == 0x31u8)
    &&& binary_value(d) <= u32::MAX
}

proof fn lemma_binary_value_prefix(d: Seq<u8>, i: int)
    requires
        0 <= i <= d.len(),
    ensures
        binary_value(d.take(i)) <= binary_value(d),
    decreases d.len() - i,
{
    if i < d.len() {
        lemma_binary_value_prefix(d, i + 1);
        assert(d.take(i + 1).drop_last() =~= d.take(i));
    } else {
        assert(d.take(i) =~= d);
    }
}

proof fn lemma_bit_of_mask(x: u32, i: u32)
    by (bit_vector)
    requires
        i < 32,
    ensures
        (x & (1u32 << i) == 0) == ((x >> i) & 1 == 0),
        (x >> i) & 1 == 0 || (x >> i) & 1 == 1,
{
}

impl BitString {
    /// Parses a binary literal, as `u32::from_str_radix(bit_string, 2)` does; the size
    /// is the length of the text.
    pub fn new(bit_string: &str) -> (r: BitString)
        requires
            is_binary_literal(bit_string.spec_bytes()),
        ensures
            r@.0 == binary_value(binary_digits(bit_string.spec_bytes())),
            r@.1 == #[verifier::truncate] ((bit_string.spec_bytes().len() as usize) as u32),
    {
        let bytes = bit_string.as_bytes();
        let ghost s = bit_string.spec_bytes();
        let ghost d = binary_digits(s);
        let n = bytes.len();
        let mut i: usize = 0;
        if n > 0 && bytes[0] == 0x2bu8 {
            i = 1;
        }
        let start = i;
        assert(d =~= s.skip(start as int));
        let mut acc: u32 = 0;
        while i < n
            invariant
                start <= i <= n,
                n == s.len(),
                bytes@ == s,
                d =~= s.skip(start as int),
                d == binary_digits(s),
                is_binary_literal(s),
                acc == binary_value(d.take(i - start)),
            decreases n - i,
        {
            let ghost k = i - start;
            proof {
                lemma_binary_value_prefix(d, k + 1);
                assert(d.take(k + 1).drop_last() =~= d.take(k));
                assert(d.take(k + 1).last() == d[k]);
                assert(d[k] == s[i as int]);
                assert(binary_value(d.take(k + 1)) == binary_value(d.take(k)) * 2 + (if d[k]
                    == 0x31u8 {
                    1nat
                } else {
                    0nat
                }));
            }
            let digit: u32 = if bytes[i] == 0x31u8 { 1 } else { 0 };
            acc = acc * 2 + digit;
            i = i + 1;
        }
        assert(d.take(n - start) =~= d);
        BitString { bits: acc, size: #[verifier::truncate] (bit_string.len() as u32) }
    }

    /// A bit string of `size` bits with value `num`.
    pub fn from(num: u32, size: u32) -> (r: BitString)
        ensures
            r@ == (num, size),
    {
        BitString { bits: num, size }
    }

    /// The number of bits.
    pub fn size(&self) -> (r: u32)
        ensures
            r == self@.1,
    {
        self.size
    }

    /// The bits, most significant first, as 0s and 1s.
    pub fn nums(&self) -> (r: Vec<u32>)
        requires
            self@.1 <= 32,
        ensures
            r@ == bit_seq(self@.0, self@.1 as nat),
    {
        let mut vec: Vec<u32> = Vec::new();
        let mut i = self.size;
        while i > 0
            invariant
                i <= self.size <= 32,
                vec@ =~= bit_seq(self.bits, self.size as nat).take(self.size - i),
            decreases i,
        {
            i = i - 1;
            proof {
                lemma_bit_of_mask(self.bits, i);
            }
            if self.bits & (1u32 << i) == 0 {
                vec.push(0);
            } else {
                vec.push(1);
            }
            assert(vec@ =~= bit_seq(self.bits, self.size as nat).take(self.size - i));
        }
        vec
    }

    /// The number of unused high bits of the word.
    pub fn leading_zeros(&self) -> (r: u32)
        requires
            self@.1 <= 32,
        ensures
            r == 32 - self@.1,
    {
        32 - self.size
    }

    /// How the string lands in a word when placed at bit position `off` (counted from
    /// the most significant bit): shifted left if it ends inside the word, whole if it
    /// ends with the word, else cut into the head that fills the word and the tail.
    pub fn offset(&self, off: u32) -> (r: BitResult)
        requires
            self@.1 <= 32,
            -32 < place_shift(off, self@.1) < 32,
        ensures
            ({
                let sh = place_shift(off, self@.1);
                r == if sh == 0 {
                    BitResult::All(self@.0)
                } else if sh > 0 {
                    BitResult::Cut(self@.0 >> (sh as u32), (u32::MAX >> ((32 - sh) as u32)) & self@.0)
                } else {
                    BitResult::All(self@.0 << ((-sh) as u32))
                }
            }),
    {
        let shift: i32 = off as i32 - self.leading_zeros() as i32;
        if shift == 0 {
            BitResult::All(self.bits)
        } else if shift > 0 {
            BitResult::Cut(self.bits >> (shift as u32), (u32::MAX >> ((32 - shift) as u32)) & self.bits)
        } else {
            BitResult::All(self.bits << ((-shift) as u32))
        }
    }
}


/// The abstract state of a `BitVec`: its words and the offset of the next free bit.
pub type BitVecView = (Seq<u32>, u32);

/// How many bits of the last word hold data: all of them when the offset is 0.
pub open spec fn used_bits(v: BitVecView) -> u32 {
    if v.0.len() == 0 {
        0
    } else if v.1 == 0 {
        32
    } else {
        v.1
    }
}

/// The bits that have been pushed into the vector, in order.
pub open spec fn stored_bits(v: BitVecView) -> Seq<u32> {
    if v.0.len() == 0 {
        seq![]
    } else {
        words_bits(v.0.drop_last()) + word_bits(v.0.last()).take(used_bits(v) as int)
    }
}

/// The bits that `BitVec::iter` yields: every word but the last whole, then the first
/// `offset` bits of the last word (none when the offset is 0).
pub open spec fn yielded_bits(v: BitVecView) -> Seq<u32> {
    if v.0.len() == 0 {
        seq![]
    } else {
        words_bits(v.0.drop_last()) + word_bits(v.0.last()).take(v.1 as int)
    }
}

/// The invariant of a `BitVec`: the offset is at most 32, 0 when there is no word, and
/// the unused bits of the last word are clear.
pub open spec fn bitvec_wf(v: BitVecView) -> bool {
    &&& v.1 <= 32
    &&& v.0.len() == 0 ==> v.1 == 0
    &&& v.0.len() > 0 ==> tail_clear(v.0.last(), used_bits(v))
}

/// `BitVec::push_bits` can take a string of `size` bits without panicking.
pub open spec fn can_push(v: BitVecView, size: u32) -> bool {
    &&& size <= 32
    &&& if v.0.len() == 0 || v.1 == 0 {
        size >= 1
    } else {
        !(v.1 == 32 && size == 32)
    }
}

/// The words and offset after pushing the bit string `b` (value, size).
pub open spec fn pushed(v: BitVecView, b: (u32, u32)) -> BitVecView {
    let (ws, off) = v;
    let (x, size) = b;
    if ws.len() == 0 {
        (seq![x << ((32 - size) as u32)], size)
    } else if off == 0 {
        (ws.push(x << ((32 - size) as u32)), size % 32)
    } else {
        let sh = off + size - 32;
        let n = ws.len() - 1;
        if sh <= 0 {
            (ws.update(n, ws.last() | (x << ((-sh) as u32))), ((off + size) % 32) as u32)
        } else {
            (
                ws.update(n, ws.last() | (x >> (sh as u32))).push(
                    ((u32::MAX >> ((32 - sh) as u32)) & x) << ((32 - sh) as u32),
                ),
                sh as u32,
            )
        }
    }
}

/// The state after pushing each of the bit strings `ps` in turn.
pub open spec fn pushed_all(v: BitVecView, ps: Seq<(u32, u32)>) -> BitVecView
    decreases ps.len(),
{
    if ps.len() == 0 {
        v
    } else {
        pushed(pushed_all(v, ps.drop_last()), ps.last())
    }
}

/// Each of the bit strings `ps` can be pushed in turn without panicking.
pub open spec fn can_push_all(v: BitVecView, ps: Seq<(u32, u32)>) -> bool
    decreases ps.len(),
{
    if ps.len() == 0 {
        true
    } else {
        can_push_all(v, ps.drop_last()) && can_push(pushed_all(v, ps.drop_last()), ps.last().1)
    }
}

/// Every bit string of `ps` has at most 32 bits and no bit set beyond its size.
pub open spec fn all_fit(ps: Seq<(u32, u32)>) -> bool {
    forall|i: int| #![trigger ps[i]] 0 <= i < ps.len() ==> ps[i].1 <= 32 && fits_in(ps[i].0, ps[i].1)
}

/// The bits of the strings `ps`, one after the other.
pub open spec fn strings_bits(ps: Seq<(u32, u32)>) -> Seq<u32>
    decreases ps.len(),
{
    if ps.len() == 0 {
        seq![]
    } else {
        strings_bits(ps.drop_last()) + bit_seq(ps.last().0, ps.last().1 as nat)
    }
}

proof fn lemma_place_new(x: u32, s: u32, i: u32)
    by (bit_vector)
    requires
        1 <= s <= 32,
        i < s,
    ensures
        (x << ((32 - s) as u32)) >> ((31 - i) as u32) & 1 == (x >> ((s - 1 - i) as u32)) & 1,
        s == 32 || (x << ((32 - s) as u32)) << s == 0,
{
}

proof fn lemma_place_in(last: u32, x: u32, off: u32, s: u32, i: u32)
    by (bit_vector)
    requires
        1 <= off <= 32,
        off + s <= 32,
        off >= 32 || last << off == 0,
        s >= 32 || x >> s == 0,
        i < 32,
    ensures
        i < off ==> (last | (x << ((32 - off - s) as u32))) >> ((31 - i) as u32) & 1 == (last
            >> ((31 - i) as u32)) & 1,
        off <= i < off + s ==> (last | (x << ((32 - off - s) as u32))) >> ((31 - i) as u32) & 1
            == (x >> ((off + s - 1 - i) as u32)) & 1,
{
}

proof fn lemma_place_cut(last: u32, x: u32, off: u32, s: u32, i: u32)
    by (bit_vector)
    requires
        1 <= off <= 32,
        s <= 32,
        off + s > 32,
        off + s < 64,
        off >= 32 || last << off == 0,
        s >= 32 || x >> s == 0,
        i < 32,
    ensures
        i < off ==> (last | (x >> ((off + s - 32) as u32))) >> ((31 - i) as u32) & 1 == (last
            >> ((31 - i) as u32)) & 1,
        off <= i ==> (last | (x >> ((off + s - 32) as u32))) >> ((31 - i) as u32) & 1 == (x
            >> ((off + s - 1 - i) as u32)) & 1,
        i < off + s - 32 ==> ((u32::MAX >> ((64 - off - s) as u32)) & x) << ((64 - off - s) as u32)
            >> ((31 - i) as u32) & 1 == (x >> ((off + s - 33 - i) as u32)) & 1,
{
}

proof fn lemma_shl_zero(x: u32)
    by (bit_vector)
    ensures
        x << 0u32 == x,
{
}

proof fn lemma_tail_in(last: u32, x: u32, off: u32, s: u32)
    by (bit_vector)
    requires
        1 <= off,
        off + s < 32,
        last << off == 0,
    ensures
        (last | (x << ((32 - off - s) as u32))) << ((off + s) as u32) == 0,
{
}

proof fn lemma_tail_cut(x: u32, sh: u32)
    by (bit_vector)
    requires
        1 <= sh < 32,
    ensures
        ((u32::MAX >> ((32 - sh) as u32)) & x) << ((32 - sh) as u32) << sh == 0,
{
}

/// Pushing any bit string the vector can take keeps its invariant.
pub proof fn lemma_pushed_wf(v: BitVecView, b: (u32, u32))
    requires
        bitvec_wf(v),
        can_push(v, b.1),
    ensures
        bitvec_wf(pushed(v, b)),
{
    let (ws, off) = v;
    let (x, s) = b;
    if ws.len() == 0 || off == 0 {
        lemma_place_new(x, s, 0);
    } else {
        let sh = off + s - 32;
        if sh < 0 {
            lemma_tail_in(ws.last(), x, off, s);
        } else if sh > 0 {
            lemma_tail_cut(x, sh as u32);
        }
    }
}

proof fn lemma_words_bits_len(ws: Seq<u32>)
    ensures
        words_bits(ws).len() == 32 * ws.len(),
    decreases ws.len(),
{
    if ws.len() > 0 {
        lemma_words_bits_len(ws.drop_last());
    }
}

/// Pushing a well-formed bit string appends its bits to the stored bits, and keeps the
/// invariant of the vector.
pub proof fn lemma_pushed_appends(v: BitVecView, b: (u32, u32))
    requires
        bitvec_wf(v),
        can_push(v, b.1),
        fits_in(b.0, b.1),
    ensures
        bitvec_wf(pushed(v, b)),
        stored_bits(pushed(v, b)) =~= stored_bits(v) + bit_seq(b.0, b.1 as nat),
{
    lemma_pushed_wf(v, b);
    let (ws, off) = v;
    let (x, s) = b;
    let r = pushed(v, b);
    let bs = bit_seq(x, s as nat);
    if ws.len() == 0 || off == 0 {
        let w = x << ((32 - s) as u32);
        assert forall|i: int| 0 <= i < s implies #[trigger] word_bits(w)[i] == bs[i] by {
            lemma_place_new(x, s, i as u32);
        }
        assert(r.0.last() == w);
        assert(r.0.drop_last() =~= ws);
        if ws.len() > 0 {
            assert(word_bits(ws.last()).take(32) =~= word_bits(ws.last()));
            assert(stored_bits(v) =~= words_bits(ws));
        }
        assert(word_bits(w).take(s as int) =~= bs);
    } else {
        let last = ws.last();
        let n = ws.len() - 1;
        let sh = off + s - 32;
        if sh <= 0 {
            assert(r.0.drop_last() =~= ws.drop_last());
            let m = last | (x << ((32 - off - s) as u32));
            assert(r.0.last() == m);
            assert forall|i: int| 0 <= i < off + s implies #[trigger] word_bits(m)[i] == (
            word_bits(last).take(off as int) + bs)[i] by {
                lemma_place_in(last, x, off, s, i as u32);
            }
                        assert(word_bits(m).take(off + s) =~= word_bits(last).take(off as int) + bs);
        } else {
            let m = last | (x >> (sh as u32));
            let e = ((u32::MAX >> ((32 - sh) as u32)) & x) << ((32 - sh) as u32);
            assert(r.0.last() == e);
            assert(r.0.drop_last().drop_last() =~= ws.drop_last());
            assert(r.0.drop_last().last() == m);
            assert forall|i: int| 0 <= i < 32 implies #[trigger] word_bits(m)[i] == (word_bits(
                last,
            ).take(off as int) + bs)[i] by {
                lemma_place_cut(last, x, off, s, i as u32);
            }
            assert forall|i: int| 0 <= i < sh implies #[trigger] word_bits(e)[i] == bs[32 - off
                + i] by {
                lemma_place_cut(last, x, off, s, i as u32);
            }
                        assert(word_bits(m) =~= (word_bits(last).take(off as int) + bs).take(32));
            assert(word_bits(e).take(sh) =~= bs.skip(32 - off));
            assert(words_bits(r.0.drop_last()) == words_bits(ws.drop_last()) + word_bits(m));
        }
    }
}

/// Pushing well-formed bit strings one after the other appends their bits.
pub proof fn lemma_pushed_all_appends(v: BitVecView, ps: Seq<(u32, u32)>)
    requires
        bitvec_wf(v),
        can_push_all(v, ps),
        all_fit(ps),
    ensures
        bitvec_wf(pushed_all(v, ps)),
        stored_bits(pushed_all(v, ps)) =~= stored_bits(v) + strings_bits(ps),
    decreases ps.len(),
{
    if ps.len() > 0 {
        let init = ps.drop_last();
        assert(all_fit(init)) by {
            assert forall|i: int| #![trigger init[i]] 0 <= i < init.len() implies init[i].1 <= 32
                && fits_in(init[i].0, init[i].1) by {
                assert(init[i] == ps[i]);
                assert(ps[i].1 <= 32 && fits_in(ps[i].0, ps[i].1));
            }
        }
        lemma_pushed_all_appends(v, init);
        let last = ps.last();
        assert(last == ps[ps.len() - 1]);
        lemma_pushed_appends(pushed_all(v, init), last);
    }
}

/// The bit strings that `BitVec::push_bitvec` pushes to copy `v`: each word whole, but
/// the last one cut to its used bits when the offset is not 0.
pub open spec fn word_pieces(v: BitVecView) -> Seq<(u32, u32)> {
    Seq::new(
        v.0.len(),
        |i: int|
            if i == v.0.len() - 1 && v.1 != 0 {
                (v.0[i] >> ((32 - v.1) as u32), v.1)
            } else {
                (v.0[i], 32u32)
            },
    )
}

pub proof fn lemma_can_push_all_prefix(v: BitVecView, ps: Seq<(u32, u32)>, k: int)
    requires
        can_push_all(v, ps),
        0 <= k <= ps.len(),
    ensures
        can_push_all(v, ps.take(k)),
    decreases ps.len() - k,
{
    if k < ps.len() {
        lemma_can_push_all_prefix(v, ps, k + 1);
        assert(ps.take(k + 1).drop_last() =~= ps.take(k));
    } else {
        assert(ps.take(k) =~= ps);
    }
}

proof fn lemma_full_pieces(ws: Seq<u32>)
    ensures
        strings_bits(Seq::new(ws.len(), |i: int| (ws[i], 32u32))) =~= words_bits(ws),
    decreases ws.len(),
{
    if ws.len() > 0 {
        let ps = Seq::new(ws.len(), |i: int| (ws[i], 32u32));
        assert(ps.drop_last() =~= Seq::new(ws.drop_last().len(), |i: int| (ws.drop_last()[i], 32u32)));
        lemma_full_pieces(ws.drop_last());
    }
}

proof fn lemma_cut_word(w: u32, off: u32, j: u32)
    by (bit_vector)
    requires
        1 <= off <= 32,
        j < off,
    ensures
        (w >> ((32 - off) as u32)) >> ((off - 1 - j) as u32) & 1 == (w >> ((31 - j) as u32)) & 1,
        off >= 32 || (w >> ((32 - off) as u32)) >> off == 0,
{
}

/// The pieces of a vector hold exactly its stored bits.
pub proof fn lemma_word_pieces(v: BitVecView)
    requires
        bitvec_wf(v),
    ensures
        all_fit(word_pieces(v)),
        strings_bits(word_pieces(v)) =~= stored_bits(v),
{
    let ps = word_pieces(v);
    let n = v.0.len();
    assert forall|i: int| #![trigger ps[i]] 0 <= i < ps.len() implies ps[i].1 <= 32 && fits_in(
        ps[i].0,
        ps[i].1,
    ) by {
        if i == n - 1 && v.1 != 0 {
            lemma_cut_word(v.0[i], v.1, 0);
        }
    }
    if n > 0 {
        let ws = v.0;
        assert(ps.drop_last() =~= Seq::new(ws.drop_last().len(), |i: int| (ws.drop_last()[i], 32u32)));
        lemma_full_pieces(ws.drop_last());
        let last = ps.last();
        assert(last == ps[n - 1]);
        if v.1 != 0 {
            assert forall|j: int| 0 <= j < v.1 implies #[trigger] bit_seq(last.0, last.1 as nat)[j]
                == word_bits(ws.last())[j] by {
                lemma_cut_word(ws.last(), v.1, j as u32);
            }
            assert(bit_seq(last.0, last.1 as nat) =~= word_bits(ws.last()).take(v.1 as int));
        } else {
            assert(word_bits(ws.last()).take(32) =~= word_bits(ws.last()));
        }
    }
}

/// The bit at index `k * 32 + j` of a run of words is bit `j` of word `k`.
pub proof fn lemma_words_bits_index(ws: Seq<u32>, k: int, j: int)
    requires
        0 <= k < ws.len(),
        0 <= j < 32,
    ensures
        words_bits(ws).len() == 32 * ws.len(),
        words_bits(ws)[k * 32 + j] == word_bits(ws[k])[j],
    decreases ws.len(),
{
    lemma_words_bits_len(ws);
    lemma_words_bits_len(ws.drop_last());
    if k < ws.len() - 1 {
        lemma_words_bits_index(ws.drop_last(), k, j);
    }
}

/// A growable sequence of bits, packed most significant bit first into 32-bit words.
#[derive(Debug)]
pub struct BitVec {
    bits: Vec<u32>,
    offset: u32,
}

impl View for BitVec {
    type V = BitVecView;

    closed spec fn view(&self) -> BitVecView {
        (self.bits@, self.offset)
    }
}

impl BitVec {
    /// An empty bit vector.
    pub fn new() -> (r: BitVec)
        ensures
            r@ == (Seq::<u32>::empty(), 0u32),
            bitvec_wf(r@),
            stored_bits(r@) == Seq::<u32>::empty(),
    {
        BitVec { bits: Vec::new(), offset: 0 }
    }

    /// The number of words.
    pub fn len(&self) -> (r: usize)
        ensures
            r == self@.0.len(),
    {
        self.bits.len()
    }

    /// Appends the bits of a bit string.
    pub fn push_bits(&mut self, bits: &BitString)
        requires
            bitvec_wf(old(self)@),
            can_push(old(self)@, bits@.1),
        ensures
            final(self)@ == pushed(old(self)@, bits@),
            bitvec_wf(final(self)@),
            fits_in(bits@.0, bits@.1) ==> stored_bits(final(self)@) == stored_bits(old(self)@)
                + bit_seq(bits@.0, bits@.1 as nat),
    {
        proof {
            lemma_pushed_wf(self@, bits@);
            if fits_in(bits@.0, bits@.1) {
                lemma_pushed_appends(self@, bits@);
            }
        }
        let ghost v = self@;
        proof {
            lemma_shl_zero(bits@.0);
        }
        let mut add_extra: Option<BitString> = None;
        let n = self.bits.len();
        if n > 0 {
            let new_pos = self.offset;
            self.offset = (new_pos + bits.size) % 32;
            if new_pos == 0 {
                add_extra = Some(*bits);
            } else {
                let method = bits.offset(new_pos);
                match method {
                    BitResult::All(mask) => {
                        let x = self.bits[n - 1] | mask;
                        self.bits.set(n - 1, x);
                        assert(self@ =~= pushed(v, bits@));
                        return ;
                    },
                    BitResult::Cut(mask, extra) => {
                        let x = self.bits[n - 1] | mask;
                        self.bits.set(n - 1, x);
                        add_extra = Some(BitString::from(extra, self.offset));
                    },
                }
            }
        }
        if let Some(extra) = add_extra {
            if let BitResult::All(add) = extra.offset(0) {
                self.bits.push(add);
            }
            assert(self@ =~= pushed(v, bits@));
            return ;
        }
        if let BitResult::All(add) = bits.offset(0) {
            self.bits.push(add);
            self.offset = bits.size;
        }
        assert(self@ =~= pushed(v, bits@));
    }

    /// Appends the stored bits of another vector, one word at a time.
    pub fn push_bitvec(&mut self, bits: &BitVec)
        requires
            bitvec_wf(old(self)@),
            bitvec_wf(bits@),
            can_push_all(old(self)@, word_pieces(bits@)),
        ensures
            final(self)@ == pushed_all(old(self)@, word_pieces(bits@)),
            bitvec_wf(final(self)@),
            stored_bits(final(self)@) == stored_bits(old(self)@) + stored_bits(bits@),
    {
        let ghost v0 = self@;
        let ghost ps = word_pieces(bits@);
        let n = bits.bits.len();
        let mut i: usize = 0;
        assert(ps.take(0) =~= Seq::<(u32, u32)>::empty());
        while i < n
            invariant
                i <= n,
                n == bits@.0.len(),
                ps == word_pieces(bits@),
                bitvec_wf(bits@),
                bitvec_wf(v0),
                can_push_all(v0, ps),
                self@ == pushed_all(v0, ps.take(i as int)),
                bitvec_wf(self@),
            decreases n - i,
        {
            proof {
                lemma_can_push_all_prefix(v0, ps, i + 1);
                assert(ps.take(i + 1).drop_last() =~= ps.take(i as int));
                assert(ps.take(i + 1).last() == ps[i as int]);
            }
            let b = bits.bits[i];
            if i == n - 1 && bits.offset != 0 {
                self.push_bits(&BitString::from(b >> (32 - bits.offset), bits.offset));
            } else {
                self.push_bits(&BitString::from(b, 32));
            }
            i = i + 1;
        }
        proof {
            assert(ps.take(n as int) =~= ps);
            lemma_word_pieces(bits@);
            lemma_pushed_all_appends(v0, ps);
        }
    }

    /// The offset in decimal on a line, then each word as `0b` and its 32 bits on a line.
    pub fn to_string(&self) -> (r: String)
        ensures
            r@ == bitvec_text(self@),
    {
        let mut s = String::new();
        push_decimal(&mut s, self.offset);
        s.append("\n");
        proof {
            reveal_strlit("\n");
        }
        let ghost head = s@;
        let mut i: usize = 0;
        assert(self.bits@.take(0) =~= Seq::<u32>::empty());
        while i < self.bits.len()
            invariant
                i <= self.bits@.len(),
                s@ == head + words_text(self.bits@.take(i as int)),
            decreases self.bits@.len() - i,
        {
            push_word(&mut s, self.bits[i]);
            proof {
                assert(self.bits@.take(i + 1).drop_last() =~= self.bits@.take(i as int));
                assert(s@ =~= head + words_text(self.bits@.take(i + 1)));
            }
            i = i + 1;
        }
        assert(self.bits@.take(self.bits@.len() as int) =~= self.bits@);
        s
    }

    /// An iterator over the bits, as 0s and 1s, most significant bit of each word first.
    pub fn iter(&self) -> (r: BitVecIter)
        requires
            bitvec_wf(self@),
            self@.0.len() <= u32::MAX,
        ensures
            r.wf(),
            r.bits() == yielded_bits(self@),
            r.pos() == 0,
    {
        BitVecIter { bits: &self.bits, offset: self.offset, curr: 0, curr_index: 0 }
    }
}

/// Walks the bits of a `BitVec`.
pub struct BitVecIter<'a> {
    bits: &'a Vec<u32>,
    offset: u32,
    curr: u32,
    curr_index: u32,
}

impl<'a> BitVecIter<'a> {
    /// The bits the walk goes over.
    pub closed spec fn bits(self) -> Seq<u32> {
        yielded_bits((self.bits@, self.offset))
    }

    /// How many bits have been handed out.
    pub closed spec fn pos(self) -> int {
        self.curr_index * 32 + self.curr
    }

    /// The walk is within its bits.
    pub closed spec fn wf(self) -> bool {
        &&& self.curr < 32
        &&& self.bits@.len() <= u32::MAX
        &&& bitvec_wf((self.bits@, self.offset))
        &&& self.pos() <= self.bits().len()
    }

    /// A walk in good order is within its bits.
    pub proof fn lemma_pos_in_range(self)
        requires
            self.wf(),
        ensures
            0 <= self.pos() <= self.bits().len(),
    {
    }

    /// The next bit, or `None` once all bits have been handed out.
    pub fn next(&mut self) -> (r: Option<u32>)
        requires
            old(self).wf(),
        ensures
            final(self).wf(),
            final(self).bits() == old(self).bits(),
            old(self).pos() < old(self).bits().len() ==> r == Some(old(self).bits()[old(self).pos()])
                && final(self).pos() == old(self).pos() + 1,
            old(self).pos() >= old(self).bits().len() ==> r is None && final(self).pos() == old(
                self,
            ).pos(),
    {
        let ghost v: BitVecView = (self.bits@, self.offset);
        proof {
            let n = v.0.len();
            if n > 0 {
                lemma_words_bits_len(v.0.drop_last());
            }
        }
        let len = self.bits.len();
        if (self.curr_index as usize) >= len {
            return None;
        }
        let x = self.bits[self.curr_index as usize];
        if self.curr_index == (len - 1) as u32 && self.curr >= self.offset {
            return None;
        }
        proof {
            let n = v.0.len();
            let k = self.curr_index as int;
            let j = self.curr as int;
            lemma_bit_of_mask(x, (31 - self.curr) as u32);
            if k < n - 1 {
                lemma_words_bits_index(v.0.drop_last(), k, j);
            }
        }
        let ret = if x & (1u32 << (31 - self.curr)) == 0 {
            Some(0)
        } else {
            Some(1)
        };
        self.curr = (self.curr + 1) % 32;
        if self.curr == 0 {
            self.curr_index = self.curr_index + 1;
        }
        ret
    }
}

} // verus!
