//! The encoder orchestrator: pads the payload, feeds each chunk's data words
//! to a fresh engine session, collects the parity words, and lays the result
//! out shard-major.

use vstd::prelude::*;
use vstd::arithmetic::div_mod::lemma_fundamental_div_mod_converse;
use crate::CodecError;
use crate::engine::{encoder_add, encoder_finish, encoder_new, supported};
use crate::model::{code_word, chunk_col, encode_spec, encode_words, lemma_padded_layout, lemma_word_offset, pad_spec, padded_len};
use crate::words::{word_from_bytes, words_of, words_to_bytes};

verus! {

/// The whole codeword column of chunk `i`: the `k` data words followed by
/// the `m` parity words.
pub open spec fn col_words(dw: Seq<u16>, k: int, m: int, cc: int, i: int) -> Seq<u16> {
    Seq::new((k + m) as nat, |s: int| code_word(dw, k, m, cc, s, i))
}

/// Appends zero bytes to the payload until its length is a multiple of
/// `2 * k`.
#[verifier::loop_isolation(false)]
fn pad_payload(data: &[u8], k: usize) -> (r: Vec<u8>)
    requires
        1 <= k,
        1 <= data@.len(),
        padded_len(data@.len() as int, k as int) <= usize::MAX,
    ensures
        r@ == pad_spec(data@, k as int),
        r@.len() == padded_len(data@.len() as int, k as int),
{
    proof {
        lemma_padded_layout(data@.len() as int, k as int);
    }
    let we: usize = 2 * k;
    let mut out: Vec<u8> = Vec::new();
    let mut i: usize = 0;
    while i < data.len()
        invariant
            i <= data@.len(),
            out@ == data@.take(i as int),
        decreases data@.len() - i,
    {
        out.push(data[i]);
        i = i + 1;
    }
    proof {
        assert(out@ =~= data@);
    }
    let rem: usize = data.len() % we;
    if rem != 0 {
        let pad: usize = we - rem;
        let mut p: usize = 0;
        while p < pad
            invariant
                p <= pad,
                pad == we - rem,
                we == 2 * k,
                rem == data@.len() as int % (2 * k as int),
                rem != 0,
                padded_len(data@.len() as int, k as int) <= usize::MAX,
                out@.len() == data@.len() + p,
                forall|t: int| 0 <= t < out@.len() ==> out@[t] == pad_spec(data@, k as int)[t],
            decreases pad - p,
        {
            out.push(0u8);
            p = p + 1;
        }
    }
    proof {
        assert(out@ =~= pad_spec(data@, k as int));
    }
    out
}

/// Encodes `data` into `data_shard + parity_shard` equal shards, laid out
/// shard-major, each shard `padded_len / data_shard` bytes.
///
/// The result is exactly `encode_spec(data, data_shard, parity_shard)`.  It
/// is `Ok` for every payload the engine's configuration limits allow: an
/// empty payload always succeeds (with an empty output), and a non-empty one
/// succeeds exactly when the shard count pair is supported - in particular
/// whenever both counts are between 1 and 32768 - and never without a
/// parity shard; otherwise the construction error is returned.
#[verifier::loop_isolation(false)]
pub fn rs_encode(data: &[u8], data_shard: usize, parity_shard: usize) -> (r: Result<
    Vec<u8>,
    CodecError,
>)
    requires
        1 <= data_shard,
        padded_len(data@.len() as int, data_shard as int) <= usize::MAX,
        (data_shard + parity_shard) * (padded_len(data@.len() as int, data_shard as int)
            / (data_shard as int)) <= usize::MAX,
    ensures
        r is Ok <==> (data@.len() == 0 || supported(data_shard as int, parity_shard as int)),
        (data@.len() == 0 || (data_shard <= 32768 && 1 <= parity_shard && parity_shard <= 32768))
            ==> r is Ok,
        data@.len() > 0 && parity_shard == 0 ==> r is Err,
        r matches Ok(out) ==> out@ == encode_spec(data@, data_shard as int, parity_shard as int),
        r matches Err(e) ==> e == CodecError::Construct,
{
    let ghost n = data@.len() as int;
    let ghost gk = data_shard as int;
    let ghost gm = parity_shard as int;
    proof {
        lemma_padded_layout(n, gk);
    }
    if data.len() == 0 {
        proof {
            vstd::arithmetic::div_mod::lemma_small_mod(0nat, (2 * gk) as nat);
            assert(padded_len(n, gk) == 0);
            assert(pad_spec(data@, gk) =~= Seq::<u8>::empty());
            assert((gk + gm) * 0 == 0) by (nonlinear_arith);
            assert(encode_words(words_of(pad_spec(data@, gk)), gk, gm, 0).len() == 0);
            assert(encode_words(words_of(pad_spec(data@, gk)), gk, gm, 0) =~= Seq::<u16>::empty());
            assert(encode_spec(data@, gk, gm).len() == 0);
            assert(encode_spec(data@, gk, gm) =~= Seq::<u8>::empty());
        }
        return Ok(Vec::new());
    }
    let padded = pad_payload(data, data_shard);
    let shard_size: usize = padded.len() / data_shard;
    let cc: usize = shard_size / 2;
    let ghost dw = words_of(padded@);
    let ghost pl = padded@.len() as int;
    proof {
        assert(dw.len() == gk * cc);
    }
    let mut chunks: Vec<Vec<u16>> = Vec::new();
    let mut i: usize = 0;
    while i < cc
        invariant
            i <= cc,
            1 <= data_shard,
            cc >= 1,
            shard_size == 2 * cc,
            padded@ == pad_spec(data@, gk),
            pl == padded@.len(),
            pl == gk * shard_size,
            dw == words_of(padded@),
            dw.len() == gk * cc,
            chunks@.len() == i,
            forall|i2: int| 0 <= i2 < i ==> (#[trigger] chunks@[i2])@ == col_words(
                dw,
                gk,
                gm,
                cc as int,
                i2,
            ),
            i > 0 ==> supported(gk, gm) && 1 <= parity_shard && data_shard + parity_shard
                <= 65536,
        decreases cc - i,
    {
        let mut enc = match encoder_new(data_shard, parity_shard, 2) {
            Ok(e) => e,
            Err(_) => {
                return Err(CodecError::Construct);
            },
        };
        let mut col: Vec<u16> = Vec::new();
        let mut j: usize = 0;
        while j < data_shard
            invariant
                j <= data_shard,
                cc >= 1,
                i < cc,
                shard_size == 2 * cc,
                pl == padded@.len(),
                pl == gk * shard_size,
                dw == words_of(padded@),
                dw.len() == gk * cc,
                crate::engine::enc_config(enc) == (gk, gm, 2int),
                crate::engine::enc_fed(enc) == col@,
                col@.len() == j,
                col@ == chunk_col(dw, cc as int, gk, i as int).take(j as int),
            decreases data_shard - j,
        {
            proof {
                lemma_word_offset(j as int, i as int, gk, cc as int, shard_size as int);
            }
            let off: usize = j * shard_size + 2 * i;
            let w = word_from_bytes(padded[off], padded[off + 1]);
            proof {
                assert(dw[j * cc + i] == w);
                assert(chunk_col(dw, cc as int, gk, i as int)[j as int] == w);
                assert(chunk_col(dw, cc as int, gk, i as int).take(j + 1) =~= chunk_col(
                    dw,
                    cc as int,
                    gk,
                    i as int,
                ).take(j as int).push(w));
            }
            col.push(w);
            match encoder_add(&mut enc, w) {
                Ok(_) => (),
                Err(_) => {
                    return Err(CodecError::Ingest);
                },
            }
            j = j + 1;
        }
        proof {
            assert(col@ =~= chunk_col(dw, cc as int, gk, i as int));
        }
        let mut parity = match encoder_finish(&mut enc) {
            Ok(p) => p,
            Err(_) => {
                return Err(CodecError::Compute);
            },
        };
        let ghost colv = col@;
        let ghost parityv = parity@;
        let mut full = col;
        full.append(&mut parity);
        proof {
            assert(full@ == colv + parityv);
            assert forall|s: int| 0 <= s < gk + gm implies full@[s] == col_words(
                dw,
                gk,
                gm,
                cc as int,
                i as int,
            )[s] by {
                if s < gk {
                    assert(full@[s] == colv[s]);
                } else {
                    assert(full@[s] == parityv[s - gk]);
                }
            }
            assert(full@ =~= col_words(dw, gk, gm, cc as int, i as int));
        }
        chunks.push(full);
        i = i + 1;
    }
    let total: usize = data_shard + parity_shard;
    proof {
        assert(total as int * (shard_size as int) <= usize::MAX);
        assert((total as int) * (cc as int) * 2 <= usize::MAX) by (nonlinear_arith)
            requires
                shard_size == 2 * cc,
                total as int * (shard_size as int) <= usize::MAX,
                cc >= 0,
                total >= 0,
        ;
    }
    let mut out_words: Vec<u16> = Vec::new();
    let mut s: usize = 0;
    while s < total
        invariant
            s <= total,
            total == data_shard + parity_shard,
            cc >= 1,
            chunks@.len() == cc,
            dw.len() == gk * cc,
            forall|i2: int| 0 <= i2 < cc ==> (#[trigger] chunks@[i2])@ == col_words(
                dw,
                gk,
                gm,
                cc as int,
                i2,
            ),
            out_words@.len() == s * cc,
            out_words@ == encode_words(dw, gk, gm, cc as int).take(s as int * cc as int),
            (total as int) * (cc as int) * 2 <= usize::MAX,
        decreases total - s,
    {
        let mut i2: usize = 0;
        while i2 < cc
            invariant
                i2 <= cc,
                s < total,
                total == data_shard + parity_shard,
                cc >= 1,
                chunks@.len() == cc,
                dw.len() == gk * cc,
                forall|i3: int| 0 <= i3 < cc ==> (#[trigger] chunks@[i3])@ == col_words(
                    dw,
                    gk,
                    gm,
                    cc as int,
                    i3,
                ),
                out_words@.len() == s * cc + i2,
                out_words@ == encode_words(dw, gk, gm, cc as int).take(
                    s as int * cc as int + i2 as int,
                ),
                (total as int) * (cc as int) * 2 <= usize::MAX,
            decreases cc - i2,
        {
            proof {
                assert(s as int * cc as int + i2 < total as int * cc as int) by (nonlinear_arith)
                    requires
                        0 <= s < total,
                        0 <= i2 < cc,
                ;
                lemma_fundamental_div_mod_converse(
                    s as int * cc as int + i2 as int,
                    cc as int,
                    s as int,
                    i2 as int,
                );
                assert(encode_words(dw, gk, gm, cc as int)[s as int * cc as int + i2 as int]
                    == code_word(dw, gk, gm, cc as int, s as int, i2 as int));
            }
            let w = chunks[i2][s];
            out_words.push(w);
            proof {
                assert(encode_words(dw, gk, gm, cc as int).take(
                    s as int * cc as int + i2 as int + 1,
                ) =~= encode_words(dw, gk, gm, cc as int).take(s as int * cc as int + i2).push(w));
            }
            i2 = i2 + 1;
        }
        s = s + 1;
        proof {
            assert(s as int * cc as int == (s - 1) * cc as int + cc as int) by (nonlinear_arith);
        }
    }
    proof {
        assert(out_words@.len() == total as int * cc as int);
        assert(out_words@ =~= encode_words(dw, gk, gm, cc as int));
        assert(2 * out_words@.len() <= usize::MAX);
    }
    let out = words_to_bytes(&out_words);
    proof {
        assert(pl / (2 * gk) == cc as int);
        assert(out@ == encode_spec(data@, gk, gm));
    }
    Ok(out)
}

} // verus!
