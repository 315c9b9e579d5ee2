//! The mathematical model of the coding layout: padding, the data-word
//! matrix, per-chunk codewords, and the shard-major output buffer.
//!
//! Throughout, a buffer of `k` data shards of `ss` bytes each is modelled as
//! the word matrix `dw` of length `k * cc` (where `cc = ss / 2` is the chunk
//! count), laid out shard-major: `dw[j * cc + i]` is the word of shard `j` at
//! chunk `i`.

use vstd::prelude::*;
use crate::engine::rs_parity;
use crate::engine::rs_restored;
use crate::words::{bytes_of, words_of};
use vstd::arithmetic::div_mod::lemma_div_multiples_vanish;
use vstd::arithmetic::div_mod::lemma_div_pos_is_pos;
use vstd::arithmetic::div_mod::lemma_fundamental_div_mod;
use vstd::arithmetic::div_mod::lemma_mod_division_less_than_divisor;
use vstd::arithmetic::div_mod::lemma_mod_multiples_basic;
use vstd::arithmetic::mul::lemma_mul_inequality;

verus! {

/// The payload length once padded up to a whole number of words per data
/// shard, that is to a multiple of `2 * k`.
pub open spec fn padded_len(n: int, k: int) -> int {
    if n % (2 * k) == 0 {
        n
    } else {
        n + (2 * k - n % (2 * k))
    }
}

/// The payload with zero bytes appended until its length is a multiple of
/// `2 * k`.
pub open spec fn pad_spec(p: Seq<u8>, k: int) -> Seq<u8> {
    p + Seq::new((padded_len(p.len() as int, k) - p.len()) as nat, |i: int| 0u8)
}

/// Chunk `i`'s column of data words: one word per data shard.
pub open spec fn chunk_col(dw: Seq<u16>, cc: int, k: int, i: int) -> Seq<u16> {
    Seq::new(k as nat, |j: int| dw[j * cc + i])
}

/// The word of logical shard `s` at chunk `i`: a data word for `s < k`, and
/// the engine's parity word `s - k` for chunk `i`'s column otherwise.
pub open spec fn code_word(dw: Seq<u16>, k: int, m: int, cc: int, s: int, i: int) -> u16 {
    if s < k {
        dw[s * cc + i]
    } else {
        rs_parity(k, m, chunk_col(dw, cc, k, i))[s - k]
    }
}

/// Every word of the encoded output, shard-major: word `s * cc + i` is
/// logical shard `s`'s word at chunk `i`.
pub open spec fn encode_words(dw: Seq<u16>, k: int, m: int, cc: int) -> Seq<u16> {
    Seq::new(((k + m) * cc) as nat, |t: int| code_word(dw, k, m, cc, t / cc, t % cc))
}

/// The encoded output buffer for payload `p` with `k` data and `m` parity
/// shards.
pub open spec fn encode_spec(p: Seq<u8>, k: int, m: int) -> Seq<u8> {
    let padded = pad_spec(p, k);
    let cc = padded.len() as int / (2 * k);
    bytes_of(encode_words(words_of(padded), k, m, cc))
}

/// The buffer handed to decode agrees with the data-word matrix `dw`: each
/// supplied physical shard `p` carries, at every chunk `i`, exactly the
/// codeword entry of the logical shard `idx[p]` it claims to be.
pub open spec fn supplied_consistent(
    sh: Seq<u8>,
    idx: Seq<usize>,
    dw: Seq<u16>,
    k: int,
    m: int,
    cc: int,
) -> bool {
    &&& dw.len() == k * cc
    &&& forall|p: int, i: int|
            0 <= p < idx.len() && 0 <= i < cc ==> words_of(sh)[p * cc + i] == code_word(
                dw,
                k,
                m,
                cc,
                idx[p] as int,
                i,
            )
}

/// The original words the supplied buffer feeds to chunk `i`'s decode
/// session, keyed by logical index: the word of the (on usable inputs
/// unique) physical shard claiming each data index below `k`.
pub open spec fn fed_originals(sh: Seq<u8>, idx: Seq<usize>, k: int, cc: int, i: int) -> Map<
    int,
    u16,
> {
    Map::new(
        |l: int| 0 <= l < k && exists|q: int| 0 <= q < idx.len() && (#[trigger] idx[q]) as int == l,
        |l: int|
            words_of(sh)[(choose|q: int|
                0 <= q < idx.len() && (#[trigger] idx[q]) as int == l) * cc + i],
    )
}

/// The recovery words the supplied buffer feeds to chunk `i`'s decode
/// session, keyed by recovery index `idx[q] - k`.
pub open spec fn fed_recoveries(sh: Seq<u8>, idx: Seq<usize>, k: int, m: int, cc: int, i: int) -> Map<
    int,
    u16,
> {
    Map::new(
        |l: int| 0 <= l < m && exists|q: int|
            0 <= q < idx.len() && (#[trigger] idx[q]) as int == l + k,
        |l: int|
            words_of(sh)[(choose|q: int|
                0 <= q < idx.len() && (#[trigger] idx[q]) as int == l + k) * cc + i],
    )
}

/// The word decode resolves for data shard `j` at chunk `i`: the directly
/// supplied word where shard `j` was supplied, else the engine's restored
/// word for the words this chunk was fed.
pub open spec fn decoded_word(
    sh: Seq<u8>,
    idx: Seq<usize>,
    k: int,
    m: int,
    cc: int,
    j: int,
    i: int,
) -> u16 {
    if fed_originals(sh, idx, k, cc, i).dom().contains(j) {
        fed_originals(sh, idx, k, cc, i)[j]
    } else {
        rs_restored(
            k,
            m,
            fed_originals(sh, idx, k, cc, i),
            fed_recoveries(sh, idx, k, m, cc, i),
        )[j]
    }
}

/// The whole decode output: the resolved words of the `k` data shards,
/// shard-major, each little-endian.
pub open spec fn decode_spec(sh: Seq<u8>, idx: Seq<usize>, k: int, m: int, cc: int) -> Seq<u8> {
    bytes_of(Seq::new((k * cc) as nat, |t: int| decoded_word(sh, idx, k, m, cc, t / cc, t % cc)))
}

/// Arithmetic facts about the padded length and the shard layout derived
/// from it.
pub proof fn lemma_padded_layout(n: int, k: int)
    requires
        k >= 1,
        n >= 0,
    ensures
        padded_len(n, k) >= n,
        padded_len(n, k) % (2 * k) == 0,
        n > 0 ==> padded_len(n, k) >= 2 * k,
        n > 0 ==> padded_len(n, k) / (2 * k) >= 1,
        padded_len(n, k) / k == 2 * (padded_len(n, k) / (2 * k)),
        (padded_len(n, k) / k) % 2 == 0,
        (padded_len(n, k) / k) / 2 == padded_len(n, k) / (2 * k),
        padded_len(n, k) == k * (padded_len(n, k) / k),
        padded_len(n, k) / 2 == k * (padded_len(n, k) / (2 * k)),
{
    let w = 2 * k;
    let pl = padded_len(n, k);
    lemma_fundamental_div_mod(n, w);
    lemma_mod_division_less_than_divisor(n, w);
    lemma_div_pos_is_pos(n, w);
    if n % w == 0 {
        assert(pl == w * (n / w));
        lemma_mod_multiples_basic(n / w, w);
        if n > 0 {
            assert(n / w >= 1) by {
                if n / w == 0 {
                    assert(n == w * 0);
                }
            }
            lemma_mul_inequality(1, n / w, w);
        }
    } else {
        assert(pl == w * (n / w) + n % w + (w - n % w));
        assert(pl == w * (n / w + 1)) by (nonlinear_arith)
            requires
                pl == w * (n / w) + n % w + (w - n % w),
        ;
        lemma_mod_multiples_basic(n / w + 1, w);
        assert((w * (n / w + 1)) % w == 0);
        lemma_mul_inequality(1, n / w + 1, w);
    }
    // pl is a non-negative multiple of w = 2 * k
    let cc = pl / w;
    lemma_fundamental_div_mod(pl, w);
    assert(pl == w * cc);
    if n > 0 {
        assert(cc >= 1) by {
            if cc <= 0 {
                assert(w * cc <= 0) by (nonlinear_arith)
                    requires
                        w > 0,
                        cc <= 0,
                ;
            }
        }
    }
    assert(pl == k * (2 * cc)) by (nonlinear_arith)
        requires
            pl == (2 * k) * cc,
    ;
    lemma_div_multiples_vanish(2 * cc, k);
    assert(pl / k == 2 * cc);
    lemma_mod_multiples_basic(cc, 2);
    assert((2 * cc) % 2 == 0) by {
        assert(cc * 2 == 2 * cc);
    }
    lemma_div_multiples_vanish(cc, 2);
    assert((2 * cc) / 2 == cc);
    assert(pl == 2 * (k * cc)) by (nonlinear_arith)
        requires
            pl == k * (2 * cc),
    ;
    lemma_div_multiples_vanish(k * cc, 2);
}

/// Position algebra for the word of data shard `j` at chunk `i` inside a
/// buffer of `k` shards of `ss = 2 * cc` bytes.
pub proof fn lemma_word_offset(j: int, i: int, k: int, cc: int, ss: int)
    by (nonlinear_arith)
    requires
        0 <= j < k,
        0 <= i < cc,
        ss == 2 * cc,
    ensures
        j * ss + 2 * i == 2 * (j * cc + i),
        j * ss + 2 * i + 1 < k * ss,
        0 <= j * cc + i < k * cc,
{
}

} // verus!
