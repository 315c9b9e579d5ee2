//! The laws that tie encode and decode together, proved over the same
//! models the two orchestrators' contracts use.

use vstd::prelude::*;
use crate::model::{
    code_word, encode_spec, encode_words, lemma_padded_layout, lemma_word_offset, pad_spec,
    padded_len, supplied_consistent,
};
use crate::words::{
    bytes_of, lemma_bytes_of_words_of, lemma_words_of_bytes_of, word_val, words_of,
};
use vstd::arithmetic::div_mod::lemma_fundamental_div_mod_converse;

verus! {

/// The `sel` buffer holds, shard-major, the shards of `enc` (each `ss` bytes
/// long) picked out by the logical indices `idx`, in that order.
pub open spec fn selects(sel: Seq<u8>, idx: Seq<usize>, enc: Seq<u8>, ss: int) -> bool {
    &&& sel.len() == idx.len() * ss
    &&& forall|q: int, b: int|
        0 <= q < idx.len() && 0 <= b < ss ==> (#[trigger] sel[q * ss + b]) == enc[idx[q] * ss + b]
}

/// Encoding is deterministic: two encode results for the same payload and
/// the same shard counts are byte-identical.
pub proof fn lemma_encode_deterministic(p: Seq<u8>, k: int, m: int, out1: Seq<u8>, out2: Seq<u8>)
    requires
        out1 == encode_spec(p, k, m),
        out2 == encode_spec(p, k, m),
    ensures
        out1 == out2,
{
}

/// Round trip: take the encoded buffer for payload `p`, hand decode any
/// in-range selection of its shards, and every decode output that matches
/// the supplied shards - which, by `rs_decode`'s contract, a successful
/// decode does - is exactly `p` padded with trailing zero bytes to a
/// multiple of `2 * k`.  Which shards were picked, in which order, and
/// whether they are data or parity does not matter.
#[verifier::rlimit(60)]
pub proof fn lemma_round_trip(p: Seq<u8>, k: int, m: int, idx: Seq<usize>, sel: Seq<u8>, out: Seq<
    u8,
>)
    requires
        1 <= k,
        0 <= m,
        forall|q: int| 0 <= q < idx.len() ==> ((#[trigger] idx[q]) as int) < k + m,
        selects(sel, idx, encode_spec(p, k, m), padded_len(p.len() as int, k) / k),
        forall|dw: Seq<u16>|
            supplied_consistent(sel, idx, dw, k, m, padded_len(p.len() as int, k) / (2 * k))
                ==> out == bytes_of(dw),
    ensures
        out == pad_spec(p, k),
{
    let n = p.len() as int;
    let pl = padded_len(n, k);
    let ss = pl / k;
    let cc = pl / (2 * k);
    let padded = pad_spec(p, k);
    let dw = words_of(padded);
    let enc = encode_spec(p, k, m);
    lemma_padded_layout(n, k);
    assert(padded.len() == pl);
    assert(dw.len() == k * cc);
    assert(enc == bytes_of(encode_words(dw, k, m, cc)));
    lemma_words_of_bytes_of(encode_words(dw, k, m, cc));
    assert(words_of(enc) == encode_words(dw, k, m, cc));
    assert(supplied_consistent(sel, idx, dw, k, m, cc)) by {
        assert forall|q: int, i: int| 0 <= q < idx.len() && 0 <= i < cc implies words_of(sel)[q * cc
            + i] == code_word(dw, k, m, cc, idx[q] as int, i) by {
            lemma_word_offset(q, i, idx.len() as int, cc, ss);
            let s = idx[q] as int;
            lemma_word_offset(s, i, k + m, cc, ss);
            let b0 = 2 * i;
            let b1 = 2 * i + 1;
            assert(sel[q * ss + b0] == enc[s * ss + b0]);
            assert(sel[q * ss + b1] == enc[s * ss + b1]);
            assert(words_of(sel)[q * cc + i] == word_val(
                sel[2 * (q * cc + i)],
                sel[2 * (q * cc + i) + 1],
            ));
            assert(words_of(enc)[s * cc + i] == word_val(
                enc[2 * (s * cc + i)],
                enc[2 * (s * cc + i) + 1],
            ));
            lemma_fundamental_div_mod_converse(s * cc + i, cc, s, i);
            assert(encode_words(dw, k, m, cc)[s * cc + i] == code_word(dw, k, m, cc, s, i));
        }
    }
    assert(out == bytes_of(dw));
    assert(padded.len() % 2 == 0) by {
        assert(pl == 2 * (k * cc)) by (nonlinear_arith)
            requires
                pl == k * ss,
                ss == 2 * cc,
        ;
        vstd::arithmetic::div_mod::lemma_mod_multiples_basic(k * cc, 2);
        assert((2 * (k * cc)) % 2 == 0) by {
            assert((k * cc) * 2 == 2 * (k * cc));
        }
    }
    lemma_bytes_of_words_of(padded);
}

} // verus!
