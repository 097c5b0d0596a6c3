//! The persisted image of a [`BitMap`]: its length, its number of ones, then
//! its words, each as eight little-endian bytes.

use vstd::prelude::*;

use crate::bitmap::{words_for, BitMap};
use crate::model::{ones_before, ones_of, wbit};
use crate::traits::{BitCount, BitLength};
use crate::word::{
    bit_at, lemma_keep_low_bits, lemma_word_ones_window, popcount, word_ones,
};

verus! {

/// The eight little-endian bytes of `x`.
pub open spec fn le_bytes(x: u64) -> Seq<u8> {
    seq![
        (x & 0xff) as u8,
        ((x >> 8u64) & 0xff) as u8,
        ((x >> 16u64) & 0xff) as u8,
        ((x >> 24u64) & 0xff) as u8,
        ((x >> 32u64) & 0xff) as u8,
        ((x >> 40u64) & 0xff) as u8,
        ((x >> 48u64) & 0xff) as u8,
        ((x >> 56u64) & 0xff) as u8,
    ]
}

/// The value of the eight little-endian bytes of `s` at `at`.
pub open spec fn read_le(s: Seq<u8>, at: int) -> u64 {
    (s[at] as u64) | ((s[at + 1] as u64) << 8u64) | ((s[at + 2] as u64) << 16u64) | ((s[at
        + 3] as u64) << 24u64) | ((s[at + 4] as u64) << 32u64) | ((s[at + 5] as u64) << 40u64)
        | ((s[at + 6] as u64) << 48u64) | ((s[at + 7] as u64) << 56u64)
}

/// The bytes of the words `ws`, one after the other.
pub open spec fn words_bytes(ws: Seq<u64>) -> Seq<u8>
    decreases ws.len(),
{
    if ws.len() == 0 {
        Seq::empty()
    } else {
        words_bytes(ws.drop_last()) + le_bytes(ws.last())
    }
}

/// The image of a container of `len` bits with `ones` ones held by `ws`.
pub open spec fn image(len: u64, ones: u64, ws: Seq<u64>) -> Seq<u8> {
    le_bytes(len) + le_bytes(ones) + words_bytes(ws)
}

/// The `n` words that an image holds after its two counts.
pub open spec fn image_words(s: Seq<u8>, n: nat) -> Seq<u64> {
    Seq::new(n, |j: int| read_le(s, 16 + 8 * j))
}

/// `s` starts with the image of a container: the length fits in `usize`,
/// the words are all there, they hold no ones past the length, and the
/// stored number of ones is theirs.
pub open spec fn is_image(s: Seq<u8>) -> bool {
    &&& s.len() >= 16
    &&& read_le(s, 0) <= usize::MAX
    &&& 16 + 8 * words_for(read_le(s, 0) as nat) <= s.len()
    &&& forall|i: int| read_le(s, 0) <= i ==> !#[trigger] wbit(image_words(s, words_for(read_le(s, 0) as nat)), i)
    &&& read_le(s, 8) == ones_before(image_words(s, words_for(read_le(s, 0) as nat)), read_le(s, 0) as int)
}

/// Reading back the bytes of a value gives the value.
proof fn lemma_read_le_bytes(x: u64)
    ensures
        read_le(le_bytes(x), 0) == x,
{
    let b0 = (x & 0xff) as u8;
    let b1 = ((x >> 8u64) & 0xff) as u8;
    let b2 = ((x >> 16u64) & 0xff) as u8;
    let b3 = ((x >> 24u64) & 0xff) as u8;
    let b4 = ((x >> 32u64) & 0xff) as u8;
    let b5 = ((x >> 40u64) & 0xff) as u8;
    let b6 = ((x >> 48u64) & 0xff) as u8;
    let b7 = ((x >> 56u64) & 0xff) as u8;
    assert((b0 as u64) | ((b1 as u64) << 8u64) | ((b2 as u64) << 16u64) | ((b3 as u64) << 24u64)
        | ((b4 as u64) << 32u64) | ((b5 as u64) << 40u64) | ((b6 as u64) << 48u64) | ((b7 as u64)
        << 56u64) == x) by (bit_vector)
        requires
            b0 == (x & 0xff) as u8,
            b1 == ((x >> 8u64) & 0xff) as u8,
            b2 == ((x >> 16u64) & 0xff) as u8,
            b3 == ((x >> 24u64) & 0xff) as u8,
            b4 == ((x >> 32u64) & 0xff) as u8,
            b5 == ((x >> 40u64) & 0xff) as u8,
            b6 == ((x >> 48u64) & 0xff) as u8,
            b7 == ((x >> 56u64) & 0xff) as u8,
    ;
}

/// Word `j` of `ws` sits at byte `8 * j` of their bytes.
proof fn lemma_words_bytes(ws: Seq<u64>)
    ensures
        words_bytes(ws).len() == 8 * ws.len(),
        forall|j: int, t: int| 0 <= j < ws.len() && 0 <= t < 8 ==> #[trigger] words_bytes(ws)[8 * j + t]
            == le_bytes(ws[j])[t],
    decreases ws.len(),
{
    if ws.len() > 0 {
        let p = ws.drop_last();
        lemma_words_bytes(p);
        assert forall|j: int, t: int| 0 <= j < ws.len() && 0 <= t < 8 implies #[trigger] words_bytes(ws)[8 * j + t]
            == le_bytes(ws[j])[t] by {
            if j < p.len() {
                assert(words_bytes(p)[8 * j + t] == le_bytes(p[j])[t]);
            }
        }
    }
}

/// Appends the bytes of `x`.
fn push_le(out: &mut Vec<u8>, x: u64)
    ensures
        final(out)@ == old(out)@ + le_bytes(x),
{
    out.push((x & 0xff) as u8);
    out.push(((x >> 8u64) & 0xff) as u8);
    out.push(((x >> 16u64) & 0xff) as u8);
    out.push(((x >> 24u64) & 0xff) as u8);
    out.push(((x >> 32u64) & 0xff) as u8);
    out.push(((x >> 40u64) & 0xff) as u8);
    out.push(((x >> 48u64) & 0xff) as u8);
    out.push(((x >> 56u64) & 0xff) as u8);
    assert(final(out)@ =~= old(out)@ + le_bytes(x));
}

/// Reads the eight bytes at `at`.
fn read_le_at(s: &[u8], at: usize) -> (r: u64)
    requires
        at + 8 <= s@.len(),
    ensures
        r == read_le(s@, at as int),
{
    (s[at] as u64) | ((s[at + 1] as u64) << 8u64) | ((s[at + 2] as u64) << 16u64) | ((s[at
        + 3] as u64) << 24u64) | ((s[at + 4] as u64) << 32u64) | ((s[at + 5] as u64) << 40u64)
        | ((s[at + 6] as u64) << 48u64) | ((s[at + 7] as u64) << 56u64)
}

impl BitMap {
    /// Returns the image of the container: its length, its number of ones,
    /// then its words.
    pub fn serialize(&self) -> (r: Vec<u8>)
        requires
            self.wf(),
        ensures
            r@ == image(self@.len() as u64, ones_of(self@) as u64, self.words()),
    {
        let mut out: Vec<u8> = Vec::new();
        push_le(&mut out, self.len() as u64);
        push_le(&mut out, self.count_ones() as u64);
        let words = self.as_ref();
        let ghost head = out@;
        let mut i: usize = 0;
        while i < words.len()
            invariant
                i <= words@.len(),
                out@ == head + words_bytes(words@.subrange(0, i as int)),
            decreases words.len() - i,
        {
            push_le(&mut out, words[i]);
            proof {
                let next = words@.subrange(0, i + 1);
                assert(next.drop_last() =~= words@.subrange(0, i as int));
                assert(next.last() == words@[i as int]);
            }
            i += 1;
        }
        proof {
            assert(words@.subrange(0, words@.len() as int) =~= words@);
        }
        out
    }

    /// Reads a container back from the start of `bytes`, and returns it with
    /// the number of bytes its image takes; `None` if `bytes` does not start
    /// with a valid image.
    pub fn deserialize(bytes: &[u8]) -> (r: Option<(BitMap, usize)>)
        ensures
            r is Some <==> is_image(bytes@),
            r matches Some((b, k)) ==> {
                &&& b.wf()
                &&& b@.len() == read_le(bytes@, 0)
                &&& b.words() == image_words(bytes@, words_for(read_le(bytes@, 0) as nat))
                &&& k == 16 + 8 * b.words().len()
            },
    {
        let total = bytes.len();
        if total < 16 {
            return None;
        }
        let len64 = read_le_at(bytes, 0);
        let ones64 = read_le_at(bytes, 8);
        if len64 > usize::MAX as u64 {
            return None;
        }
        let len = len64 as usize;
        let n = len / 64 + if len % 64 == 0 { 0 } else { 1 };
        if n > (total - 16) / 8 {
            return None;
        }
        let ghost ws = image_words(bytes@, n as nat);
        let mut data: Vec<u64> = Vec::new();
        let mut j: usize = 0;
        while j < n
            invariant
                j <= n,
                total == bytes@.len(),
                n <= (total - 16) / 8,
                ws == image_words(bytes@, n as nat),
                data@ == ws.subrange(0, j as int),
            decreases n - j,
        {
            data.push(read_le_at(bytes, 16 + 8 * j));
            j += 1;
        }
        proof {
            assert(data@ =~= ws);
        }
        // No ones past the length: the last word has no bit set at or above
        // `len % 64`.
        let rem = (len % 64) as u64;
        if rem != 0 {
            let w = data[n - 1];
            assert((1u64 << rem) >= 1u64) by (bit_vector)
                requires
                    rem < 64,
            ;
            let low = w & ((1u64 << rem) - 1u64) as u64;
            let all_ones = popcount(w);
            let low_ones = popcount(low);
            proof {
                lemma_keep_low_bits(w, rem);
                lemma_word_ones_window(w, low, 0, rem as int, 64);
                lemma_high_bits_clear(w, rem as int, 64);
            }
            if all_ones != low_ones {
                proof {
                    if is_image(bytes@) {
                        assert forall|t: int| rem <= t < 64 implies !bit_at(w, t) by {
                            let i = 64 * (n - 1) + t;
                            assert(i / 64 == n - 1 && i % 64 == t);
                            assert(!wbit(ws, i));
                        }
                    }
                }
                return None;
            }
        }
        proof {
            assert forall|i: int| len <= i implies !#[trigger] wbit(ws, i) by {
                if 0 <= i && i / 64 < ws.len() {
                    assert(i / 64 == n - 1);
                    assert(rem != 0);
                    assert(i % 64 >= rem);
                }
            }
            crate::model::lemma_ones_before_bounds(ws, 0, len as int);
        }
        let mut count: usize = 0;
        let mut k: usize = 0;
        while k < n
            invariant
                k <= n,
                data@ == ws,
                ws.len() == n,
                len <= 64 * n,
                forall|i: int| len <= i ==> !#[trigger] wbit(ws, i),
                count == ones_before(ws, 64 * k),
                ones_before(ws, len as int) <= len,
            decreases n - k,
        {
            proof {
                crate::model::lemma_ones_before_word(ws, k as int, 64);
                lemma_tail_constant(ws, len as int, 64 * k + 64);
            }
            count += popcount(data[k]);
            k += 1;
        }
        proof {
            lemma_tail_constant(ws, len as int, 64 * n);
        }
        if count as u64 != ones64 {
            return None;
        }
        let b = BitMap::from_raw_parts(data, len, count);
        Some((b, 16 + 8 * n))
    }
}

/// Past `len` the words hold no ones: counting up to any later position
/// gives the count up to `len`, and no more than that before it.
proof fn lemma_tail_constant(ws: Seq<u64>, len: int, p: int)
    requires
        0 <= len,
        forall|i: int| len <= i ==> !#[trigger] wbit(ws, i),
    ensures
        p >= len ==> ones_before(ws, p) == ones_before(ws, len),
        p < len ==> ones_before(ws, p) <= ones_before(ws, len),
    decreases if p >= len { p - len } else { 0 },
{
    if p > len {
        lemma_tail_constant(ws, len, p - 1);
    } else if p < len {
        crate::model::lemma_ones_before_bounds(ws, p, len);
    }
}

/// Reading back the image of a container succeeds and gives the container
/// back: the same length and the same words, and the whole image is taken.
pub proof fn law_image_round_trip(b: &BitMap)
    requires
        b.wf(),
    ensures
        is_image(image(b@.len() as u64, ones_of(b@) as u64, b.words())),
        read_le(image(b@.len() as u64, ones_of(b@) as u64, b.words()), 0) == b@.len(),
        image_words(image(b@.len() as u64, ones_of(b@) as u64, b.words()), b.words().len()) == b.words(),
        image(b@.len() as u64, ones_of(b@) as u64, b.words()).len() == 16 + 8 * b.words().len(),
{
    let ws = b.words();
    let len = b@.len();
    let s = image(len as u64, ones_of(b@) as u64, ws);
    b.lemma_words();
    lemma_words_bytes(ws);
    lemma_read_le_bytes(len as u64);
    lemma_read_le_bytes(ones_of(b@) as u64);
    crate::model::lemma_rank_bounds(b@, 0, len as int);
    assert(read_le(s, 0) == read_le(le_bytes(len as u64), 0));
    assert(read_le(s, 8) == read_le(le_bytes(ones_of(b@) as u64), 0));
    assert forall|j: int| 0 <= j < ws.len() implies #[trigger] image_words(s, ws.len())[j] == ws[j] by {
        lemma_read_le_bytes(ws[j]);
        assert(read_le(s, 16 + 8 * j) == read_le(le_bytes(ws[j]), 0)) by {
            assert forall|t: int| 0 <= t < 8 implies s[16 + 8 * j + t] == le_bytes(ws[j])[t] by {
                assert(s[16 + 8 * j + t] == words_bytes(ws)[8 * j + t]);
            }
        }
    }
    assert(image_words(s, ws.len()) =~= ws);
    assert(ones_of(b@) == ones_before(ws, len as int));
}

/// The bits of `w` from `r` to `n` are all clear exactly when they add no
/// ones to the count below `r`.
proof fn lemma_high_bits_clear(w: u64, r: int, n: int)
    requires
        0 <= r <= n <= 64,
    ensures
        word_ones(w, n) == word_ones(w, r) <==> forall|t: int| r <= t < n ==> !#[trigger] bit_at(w, t),
    decreases n - r,
{
    if r < n {
        lemma_high_bits_clear(w, r, n - 1);
        crate::word::lemma_word_ones_bounds(w, r, n - 1);
    }
}

} // verus!
