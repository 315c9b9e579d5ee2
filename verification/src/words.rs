//! Two-byte little-endian words: the atomic coding unit, and the
//! correspondence between byte buffers and word sequences.

use vstd::prelude::*;
use vstd::arithmetic::div_mod::lemma_fundamental_div_mod;
use vstd::arithmetic::div_mod::lemma_fundamental_div_mod_converse;

verus! {

/// Low (first) byte of a word in little-endian order.
pub open spec fn word_lo(w: u16) -> u8 {
    (w as int % 256) as u8
}

/// High (second) byte of a word in little-endian order.
pub open spec fn word_hi(w: u16) -> u8 {
    (w as int / 256) as u8
}

/// The word with the given little-endian bytes.
pub open spec fn word_val(lo: u8, hi: u8) -> u16 {
    (lo as int + 256 * hi as int) as u16
}

/// The byte buffer holding the given words, each little-endian.
pub open spec fn bytes_of(ws: Seq<u16>) -> Seq<u8> {
    Seq::new(2 * ws.len(), |i: int| if i % 2 == 0 { word_lo(ws[i / 2]) } else { word_hi(ws[i / 2]) })
}

/// The words held by a byte buffer (of even length), each little-endian.
pub open spec fn words_of(bs: Seq<u8>) -> Seq<u16> {
    Seq::new(bs.len() / 2, |i: int| word_val(bs[2 * i], bs[2 * i + 1]))
}

pub proof fn lemma_word_val_lo_hi(w: u16)
    ensures
        word_val(word_lo(w), word_hi(w)) == w,
{
    lemma_fundamental_div_mod(w as int, 256);
}

pub proof fn lemma_lo_hi_word_val(lo: u8, hi: u8)
    ensures
        word_lo(word_val(lo, hi)) == lo,
        word_hi(word_val(lo, hi)) == hi,
{
    lemma_fundamental_div_mod_converse(lo as int + 256 * hi as int, 256, hi as int, lo as int);
}

/// Reading the bytes of a word sequence back as words is the identity.
pub proof fn lemma_words_of_bytes_of(ws: Seq<u16>)
    ensures
        words_of(bytes_of(ws)) == ws,
{
    assert forall|i: int| 0 <= i < ws.len() implies words_of(bytes_of(ws))[i] == ws[i] by {
        lemma_fundamental_div_mod_converse(2 * i, 2, i, 0);
        lemma_fundamental_div_mod_converse(2 * i + 1, 2, i, 1);
        lemma_word_val_lo_hi(ws[i]);
    }
    assert(words_of(bytes_of(ws)) =~= ws);
}

/// Writing the words of an even-length byte buffer back as bytes is the identity.
pub proof fn lemma_bytes_of_words_of(bs: Seq<u8>)
    requires
        bs.len() % 2 == 0,
    ensures
        bytes_of(words_of(bs)) == bs,
{
    lemma_fundamental_div_mod(bs.len() as int, 2);
    assert forall|i: int| 0 <= i < bs.len() implies bytes_of(words_of(bs))[i] == bs[i] by {
        lemma_fundamental_div_mod(i, 2);
        let q = i / 2;
        let r = i % 2;
        lemma_lo_hi_word_val(bs[2 * q], bs[2 * q + 1]);
    }
    assert(bytes_of(words_of(bs)) =~= bs);
}

/// Builds the word with the given little-endian bytes.
pub fn word_from_bytes(lo: u8, hi: u8) -> (w: u16)
    ensures
        w == word_val(lo, hi),
{
    lo as u16 + 256 * (hi as u16)
}

/// Splits a word into its little-endian bytes.
pub fn word_split(w: u16) -> (r: (u8, u8))
    ensures
        r.0 == word_lo(w),
        r.1 == word_hi(w),
{
    ((w % 256) as u8, (w / 256) as u8)
}

/// Lays a word sequence out as a byte buffer, each word little-endian.
pub fn words_to_bytes(ws: &Vec<u16>) -> (r: Vec<u8>)
    requires
        2 * ws@.len() <= usize::MAX,
    ensures
        r@ == bytes_of(ws@),
{
    let mut r: Vec<u8> = Vec::new();
    let mut i: usize = 0;
    while i < ws.len()
        invariant
            i <= ws@.len(),
            2 * ws@.len() <= usize::MAX,
            r@ == bytes_of(ws@.take(i as int)),
        decreases ws@.len() - i,
    {
        let (lo, hi) = word_split(ws[i]);
        r.push(lo);
        r.push(hi);
        proof {
            let prev = bytes_of(ws@.take(i as int));
            let next = bytes_of(ws@.take(i + 1));
            assert forall|j: int| 0 <= j < next.len() implies next[j] == prev.push(lo).push(hi)[j] by {
                if j < 2 * i {
                    lemma_fundamental_div_mod(j, 2);
                } else {
                    lemma_fundamental_div_mod_converse(2 * (i as int), 2, i as int, 0);
                    lemma_fundamental_div_mod_converse(2 * (i as int) + 1, 2, i as int, 1);
                }
            }
            assert(next =~= prev.push(lo).push(hi));
        }
        i = i + 1;
    }
    proof {
        assert(ws@.take(ws@.len() as int) =~= ws@);
    }
    r
}

} // verus!
