//! The decoder orchestrator: feeds whatever shards were supplied to a fresh
//! engine session per chunk, reconciles directly provided words with the
//! engine's restored words, and reassembles the reconstructed (still padded)
//! payload in logical-shard order.

use vstd::prelude::*;
use vstd::arithmetic::div_mod::lemma_div_multiples_vanish;
use vstd::arithmetic::div_mod::lemma_fundamental_div_mod;
use vstd::arithmetic::div_mod::lemma_fundamental_div_mod_converse;
use crate::CodecError;
use crate::engine::{
    chunk_consistent, dec_config, dec_originals, dec_recoveries, decoder_add_original,
    decoder_add_recovery, decoder_finish, decoder_new, rs_parity, rs_restored, supported,
};
use crate::model::{
    chunk_col, code_word, decode_spec, decoded_word, fed_originals, fed_recoveries,
    lemma_word_offset, supplied_consistent,
};
use crate::words::{
    bytes_of, lemma_word_val_lo_hi, word_from_bytes, word_hi, word_lo, words_of, words_to_bytes,
};

verus! {

/// The supplied logical shard indices are usable: pairwise distinct and all
/// below the total shard count `t`.
pub open spec fn indices_ok(idx: Seq<usize>, t: int) -> bool {
    &&& forall|p: int| 0 <= p < idx.len() ==> (#[trigger] idx[p]) < t
    &&& forall|p: int, q: int| 0 <= p < q < idx.len() ==> idx[p] != idx[q]
}

/// Finds the position of the restored entry for original index `j`, if any.
fn find_restored(restored: &Vec<(usize, Vec<u8>)>, j: usize) -> (o: Option<usize>)
    ensures
        o matches Some(t) ==> t < restored@.len() && restored@[t as int].0 == j,
        o is None ==> forall|t: int|
            0 <= t < restored@.len() ==> (#[trigger] restored@[t]).0 != j,
{
    let mut t: usize = 0;
    while t < restored.len()
        invariant
            t <= restored@.len(),
            forall|u: int| 0 <= u < t ==> (#[trigger] restored@[u]).0 != j,
        decreases restored@.len() - t,
    {
        if restored[t].0 == j {
            return Some(t);
        }
        t = t + 1;
    }
    None
}

/// The words a decode session was fed after processing the first `p`
/// supplied shards of chunk `i` agree exactly with that prefix.
spec fn fed_matches(
    o: Map<int, u16>,
    rmap: Map<int, u16>,
    sh: Seq<u8>,
    idx: Seq<usize>,
    p: int,
    k: int,
    m: int,
    cc: int,
    i: int,
) -> bool {
    &&& forall|l: int| #[trigger]
        o.dom().contains(l) ==> 0 <= l < k && exists|q: int|
            0 <= q < p && (#[trigger] idx[q]) as int == l
    &&& forall|q: int|
        0 <= q < p && ((#[trigger] idx[q]) as int) < k ==> o.dom().contains(idx[q] as int)
            && o[idx[q] as int] == words_of(sh)[q * cc + i]
    &&& forall|l: int| #[trigger]
        rmap.dom().contains(l) ==> 0 <= l < m && exists|q: int|
            0 <= q < p && ((#[trigger] idx[q]) as int) >= k && idx[q] as int - k == l
    &&& forall|q: int|
        0 <= q < p && ((#[trigger] idx[q]) as int) >= k && ((idx[q] as int) < k + m)
            ==> rmap.dom().contains(idx[q] as int - k) && rmap[idx[q] as int - k] == words_of(
            sh,
        )[q * cc + i]
}

/// A decode session fed words that agree with the supplied buffer holds, for
/// chunk `i`, exactly the words of the codeword columns of any consistent
/// data-word matrix.
proof fn lemma_chunk_bridge(
    sh: Seq<u8>,
    idx: Seq<usize>,
    dw: Seq<u16>,
    o: Map<int, u16>,
    rmap: Map<int, u16>,
    k: int,
    m: int,
    cc: int,
    i: int,
)
    requires
        supplied_consistent(sh, idx, dw, k, m, cc),
        0 <= k,
        0 <= m,
        0 <= i < cc,
        fed_matches(o, rmap, sh, idx, idx.len() as int, k, m, cc, i),
    ensures
        chunk_consistent(k, m, chunk_col(dw, cc, k, i), o, rmap),
{
    let col = chunk_col(dw, cc, k, i);
    assert forall|l: int| #[trigger] o.dom().contains(l) implies 0 <= l < k && o[l] == col[l] by {
        let q = choose|q: int| 0 <= q < idx.len() && (#[trigger] idx[q]) as int == l;
        assert(words_of(sh)[q * cc + i] == code_word(dw, k, m, cc, l, i));
    }
    assert forall|l: int| #[trigger] rmap.dom().contains(l) implies 0 <= l < m && rmap[l]
        == rs_parity(k, m, col)[l] by {
        let q = choose|q: int|
            0 <= q < idx.len() && ((#[trigger] idx[q]) as int) >= k && idx[q] as int - k == l;
        assert(words_of(sh)[q * cc + i] == code_word(dw, k, m, cc, l + k, i));
    }
}

/// Decodes `indices.len()` supplied shards, laid out shard-major in
/// `shards` (`shard_size` bytes each, physical shard `p` carrying logical
/// shard `indices[p]`), back into the `data_shards * shard_size` bytes of
/// the still-padded payload.
///
/// The call fails with the odd-shard-size error exactly on odd `shard_size`,
/// with the construction error exactly when the counts are unsupported, with
/// the ingest error exactly when an index repeats or is out of range, and
/// with the compute error exactly when fewer than `data_shards` shards were
/// supplied; otherwise it succeeds.  On success the output is pinned for
/// every input: directly supplied words pass through verbatim and the rest
/// are the engine's restorations (`decode_spec`); and whenever the supplied
/// shards agree with a data-word matrix `dw` - in particular with the
/// shards of an earlier encode - the output is exactly the bytes of `dw`.
#[verifier::loop_isolation(false)]
pub fn rs_decode(
    shards: &[u8],
    indices: &[usize],
    shard_size: usize,
    data_shards: usize,
    parity_shards: usize,
) -> (r: Result<Vec<u8>, CodecError>)
    requires
        shards@.len() == indices@.len() * shard_size,
    ensures
        r == Err::<Vec<u8>, CodecError>(CodecError::OddShardSize) <==> shard_size % 2 != 0,
        r == Err::<Vec<u8>, CodecError>(CodecError::Construct) <==> (shard_size % 2 == 0
            && shard_size > 0 && !supported(data_shards as int, parity_shards as int)),
        r == Err::<Vec<u8>, CodecError>(CodecError::Ingest) <==> (shard_size % 2 == 0 && shard_size
            > 0 && supported(data_shards as int, parity_shards as int) && !indices_ok(
            indices@,
            data_shards as int + parity_shards as int,
        )),
        r == Err::<Vec<u8>, CodecError>(CodecError::Compute) <==> (shard_size % 2 == 0
            && shard_size > 0 && supported(data_shards as int, parity_shards as int) && indices_ok(
            indices@,
            data_shards as int + parity_shards as int,
        ) && indices@.len() < data_shards),
        r is Ok <==> (shard_size % 2 == 0 && (shard_size == 0 || (supported(
            data_shards as int,
            parity_shards as int,
        ) && indices_ok(indices@, data_shards as int + parity_shards as int) && indices@.len()
            >= data_shards))),
        (shard_size % 2 == 0 && (shard_size == 0 || (1 <= data_shards && data_shards <= 32768 && 1
            <= parity_shards && parity_shards <= 32768 && indices_ok(
            indices@,
            data_shards as int + parity_shards as int,
        ) && indices@.len() >= data_shards))) ==> r is Ok,
        r matches Ok(out) ==> out@.len() == data_shards * shard_size,
        r matches Ok(out) ==> out@ == decode_spec(
            shards@,
            indices@,
            data_shards as int,
            parity_shards as int,
            shard_size as int / 2,
        ),
        r matches Ok(out) ==> forall|dw: Seq<u16>|
            supplied_consistent(
                shards@,
                indices@,
                dw,
                data_shards as int,
                parity_shards as int,
                shard_size as int / 2,
            ) ==> out@ == bytes_of(dw),
{
    if shard_size % 2 != 0 {
        return Err(CodecError::OddShardSize);
    }
    let cc: usize = shard_size / 2;
    let n: usize = indices.len();
    let shards_len: usize = shards.len();
    let ghost gk = data_shards as int;
    let ghost gm = parity_shards as int;
    let ghost gcc = cc as int;
    proof {
        lemma_fundamental_div_mod(shard_size as int, 2);
        assert(shard_size == 2 * cc);
    }
    if cc == 0 {
        proof {
            assert forall|dw: Seq<u16>|
                supplied_consistent(shards@, indices@, dw, gk, gm, gcc) implies Seq::<u8>::empty()
                == bytes_of(dw) by {
                assert(dw.len() == gk * 0);
                assert(bytes_of(dw) =~= Seq::<u8>::empty());
            }
            assert(decode_spec(shards@, indices@, gk, gm, gcc) =~= Seq::<u8>::empty()) by {
                assert(gk * gcc == 0);
            }
        }
        return Ok(Vec::new());
    }
    let ghost sw = words_of(shards@);
    proof {
        assert(shards@.len() == 2 * ((n * cc) as int)) by (nonlinear_arith)
            requires
                shards@.len() == (n as int) * (shard_size as int),
                shard_size == 2 * cc,
        ;
        lemma_div_multiples_vanish((n * cc) as int, 2);
        assert(sw.len() == n * cc);
    }
    let mut chunks: Vec<Vec<u16>> = Vec::new();
    let mut chunk: usize = 0;
    while chunk < cc
        invariant
            chunk <= cc,
            chunks@.len() == chunk,
            forall|i2: int| 0 <= i2 < chunk ==> (#[trigger] chunks@[i2])@.len() == gk,
            forall|i2: int, j2: int|
                0 <= i2 < chunk && 0 <= j2 < gk ==> (#[trigger] chunks@[i2]@[j2]) == decoded_word(
                    shards@,
                    indices@,
                    gk,
                    gm,
                    gcc,
                    j2,
                    i2,
                ),
            forall|dw: Seq<u16>| #[trigger]
                supplied_consistent(shards@, indices@, dw, gk, gm, gcc) ==> forall|i2: int, j: int|
                    0 <= i2 < chunk && 0 <= j < gk ==> (#[trigger] chunks@[i2]@[j]) == dw[j * gcc
                        + i2],
            chunk > 0 ==> supported(gk, gm) && indices_ok(indices@, gk + gm) && n >= data_shards
                && data_shards + parity_shards <= 65536,
        decreases cc - chunk,
    {
        let mut dec = match decoder_new(data_shards, parity_shards, 2) {
            Ok(d) => d,
            Err(_) => {
                return Err(CodecError::Construct);
            },
        };
        let mut provided: Vec<Option<u16>> = Vec::new();
        let mut z: usize = 0;
        while z < data_shards
            invariant
                z <= data_shards,
                provided@.len() == z,
                forall|j: int| 0 <= j < z ==> (#[trigger] provided@[j]) is None,
            decreases data_shards - z,
        {
            provided.push(None);
            z = z + 1;
        }
        let mut p: usize = 0;
        while p < n
            invariant
                p <= n,
                dec_config(dec) == (gk, gm, 2int),
                provided@.len() == gk,
                dec_originals(dec).dom().finite(),
                dec_recoveries(dec).dom().finite(),
                dec_originals(dec).dom().len() + dec_recoveries(dec).dom().len() == p,
                forall|q: int| 0 <= q < p ==> ((#[trigger] indices@[q]) as int) < gk + gm,
                forall|q1: int, q2: int| 0 <= q1 < q2 < p ==> indices@[q1] != indices@[q2],
                fed_matches(
                    dec_originals(dec),
                    dec_recoveries(dec),
                    shards@,
                    indices@,
                    p as int,
                    gk,
                    gm,
                    gcc,
                    chunk as int,
                ),
                forall|j: int|
                    0 <= j < gk ==> ((#[trigger] provided@[j]) is Some <==> dec_originals(
                        dec,
                    ).dom().contains(j)),
                forall|j: int|
                    0 <= j < gk && (#[trigger] provided@[j]) is Some ==> provided@[j]
                        == Some(dec_originals(dec)[j]),
            decreases n - p,
        {
            let sidx = indices[p];
            proof {
                lemma_word_offset(p as int, chunk as int, n as int, gcc, shard_size as int);
            }
            let off: usize = p * shard_size + 2 * chunk;
            let w = word_from_bytes(shards[off], shards[off + 1]);
            proof {
                assert(sw[p * cc + chunk] == w);
            }
            if sidx < data_shards {
                provided.set(sidx, Some(w));
                match decoder_add_original(&mut dec, sidx, w) {
                    Ok(_) => (),
                    Err(_) => {
                        proof {
                            let l = sidx as int;
                            let q = choose|q: int|
                                0 <= q < p && (#[trigger] indices@[q]) as int == l;
                            assert(indices@[q] == indices@[p as int]);
                            assert(!indices_ok(indices@, gk + gm));
                        }
                        return Err(CodecError::Ingest);
                    },
                }
            } else {
                // A logical index past the last parity shard is rejected
                // here, before the engine call, whose index argument must
                // stay within the field order.
                let ridx = sidx - data_shards;
                if ridx >= parity_shards {
                    proof {
                        assert(indices@[p as int] as int >= gk + gm);
                        assert(!indices_ok(indices@, gk + gm));
                    }
                    return Err(CodecError::Ingest);
                }
                match decoder_add_recovery(&mut dec, ridx, w) {
                    Ok(_) => (),
                    Err(_) => {
                        proof {
                            let l = sidx as int - gk;
                            let q = choose|q: int|
                                0 <= q < p && ((#[trigger] indices@[q]) as int) >= gk
                                    && indices@[q] as int - gk == l;
                            assert(indices@[q] == indices@[p as int]);
                            assert(!indices_ok(indices@, gk + gm));
                        }
                        return Err(CodecError::Ingest);
                    },
                }
            }
            p = p + 1;
        }
        let ghost go = dec_originals(dec);
        let ghost gr = dec_recoveries(dec);
        let ghost gcfg = dec_config(dec);
        let ghost fo = fed_originals(shards@, indices@, gk, gcc, chunk as int);
        let ghost fr = fed_recoveries(shards@, indices@, gk, gm, gcc, chunk as int);
        proof {
            assert(indices_ok(indices@, gk + gm));
            // The session was fed exactly the words the model ascribes to
            // this chunk.
            assert forall|l: int| #[trigger] fo.dom().contains(l) implies go.dom().contains(l)
                && go[l] == fo[l] by {
                let q = choose|q: int|
                    0 <= q < indices@.len() && (#[trigger] indices@[q]) as int == l;
                assert(0 <= q < n && (indices@[q] as int) < gk);
                assert(go[indices@[q] as int] == words_of(shards@)[q * gcc + chunk]);
            }
            assert forall|l: int| #[trigger] go.dom().contains(l) implies fo.dom().contains(
                l,
            ) by {
                let q = choose|q: int| 0 <= q < n && (#[trigger] indices@[q]) as int == l;
                assert(0 <= q < indices@.len() && indices@[q] as int == l);
            }
            assert(go =~= fo);
            assert forall|l: int| #[trigger] fr.dom().contains(l) implies gr.dom().contains(l)
                && gr[l] == fr[l] by {
                let q = choose|q: int|
                    0 <= q < indices@.len() && (#[trigger] indices@[q]) as int == l + gk;
                assert(0 <= q < n && (indices@[q] as int) >= gk && indices@[q] as int - gk == l);
                assert(gr[indices@[q] as int - gk] == words_of(shards@)[q * gcc + chunk]);
            }
            assert forall|l: int| #[trigger] gr.dom().contains(l) implies fr.dom().contains(
                l,
            ) by {
                let q = choose|q: int|
                    0 <= q < n && ((#[trigger] indices@[q]) as int) >= gk && indices@[q] as int
                        - gk == l;
                assert(0 <= q < indices@.len() && indices@[q] as int == l + gk);
            }
            assert(gr =~= fr);
        }
        let restored = match decoder_finish(&mut dec) {
            Ok(rst) => rst,
            Err(_) => {
                return Err(CodecError::Compute);
            },
        };
        let mut resolved: Vec<u16> = Vec::new();
        let mut j: usize = 0;
        while j < data_shards
            invariant
                j <= data_shards,
                resolved@.len() == j,
                forall|j2: int|
                    0 <= j2 < j ==> (#[trigger] resolved@[j2]) == decoded_word(
                        shards@,
                        indices@,
                        gk,
                        gm,
                        gcc,
                        j2,
                        chunk as int,
                    ),
                forall|dw: Seq<u16>| #[trigger]
                    supplied_consistent(shards@, indices@, dw, gk, gm, gcc) ==> forall|j2: int|
                        0 <= j2 < j ==> resolved@[j2] == dw[j2 * gcc + chunk],
            decreases data_shards - j,
        {
            match provided[j] {
                Some(w) => {
                    proof {
                        assert(go.dom().contains(j as int));
                        assert(provided@[j as int] == Some(go[j as int]));
                        assert(fo.dom().contains(j as int));
                        assert(w == decoded_word(
                            shards@,
                            indices@,
                            gk,
                            gm,
                            gcc,
                            j as int,
                            chunk as int,
                        ));
                        assert forall|dw: Seq<u16>| #[trigger]
                            supplied_consistent(shards@, indices@, dw, gk, gm, gcc) implies w
                            == dw[j as int * gcc + chunk] by {
                            let l = j as int;
                            assert(go.dom().contains(l));
                            let q = choose|q: int|
                                0 <= q < n && (#[trigger] indices@[q]) as int == l;
                            assert(go[l] == words_of(shards@)[q * gcc + chunk]);
                            assert(words_of(shards@)[q * gcc + chunk] == code_word(
                                dw,
                                gk,
                                gm,
                                gcc,
                                l,
                                chunk as int,
                            ));
                        }
                    }
                    resolved.push(w);
                },
                None => {
                    match find_restored(&restored, j) {
                        None => {
                            // The engine returns a restored entry for every
                            // original index that was not fed, so this arm is
                            // provably unreachable; it is kept as a checked
                            // invariant rather than a silent default.
                            proof {
                                assert(!go.dom().contains(j as int));
                                assert(exists|t: int|
                                    0 <= t < restored@.len() && (#[trigger] restored@[t]).0
                                        == j as int);
                                assert(false);
                            }
                            return Err(CodecError::Unresolved);
                        },
                        Some(t) => {
                            let wordbytes = &restored[t].1;
                            // A 2-byte session restores 2-byte words, so this
                            // width check is provably unreachable too.
                            if wordbytes.len() != 2 {
                                proof {
                                    assert(false);
                                }
                                return Err(CodecError::WordLength);
                            }
                            let w = word_from_bytes(wordbytes[0], wordbytes[1]);
                            proof {
                                assert(!go.dom().contains(j as int));
                                assert(!fo.dom().contains(j as int));
                                assert(restored@[t as int].1@ == seq![
                                    word_lo(rs_restored(gcfg.0, gcfg.1, go, gr)[j as int]),
                                    word_hi(rs_restored(gcfg.0, gcfg.1, go, gr)[j as int]),
                                ]);
                                assert(rs_restored(gcfg.0, gcfg.1, go, gr) == rs_restored(
                                    gk,
                                    gm,
                                    fo,
                                    fr,
                                ));
                                lemma_word_val_lo_hi(rs_restored(gk, gm, fo, fr)[j as int]);
                                assert(w == decoded_word(
                                    shards@,
                                    indices@,
                                    gk,
                                    gm,
                                    gcc,
                                    j as int,
                                    chunk as int,
                                ));
                                assert forall|dw: Seq<u16>| #[trigger]
                                    supplied_consistent(shards@, indices@, dw, gk, gm, gcc) implies
                                    w == dw[j as int * gcc + chunk] by {
                                    lemma_chunk_bridge(
                                        shards@,
                                        indices@,
                                        dw,
                                        go,
                                        gr,
                                        gk,
                                        gm,
                                        gcc,
                                        chunk as int,
                                    );
                                    let col = chunk_col(dw, gcc, gk, chunk as int);
                                    assert(chunk_consistent(gcfg.0, gcfg.1, col, go, gr));
                                    assert(restored@[t as int].1@ == seq![
                                        word_lo(col[restored@[t as int].0 as int]),
                                        word_hi(col[restored@[t as int].0 as int]),
                                    ]);
                                    lemma_word_val_lo_hi(col[j as int]);
                                }
                            }
                            resolved.push(w);
                        },
                    }
                },
            }
            j = j + 1;
        }
        chunks.push(resolved);
        chunk = chunk + 1;
    }
    proof {
        assert((data_shards as int) * gcc <= (n as int) * gcc && 0 <= (data_shards as int) * gcc)
            by (nonlinear_arith)
            requires
                0 <= data_shards <= n,
                gcc >= 0,
        ;
        assert(2 * ((data_shards * cc) as int) <= (n as int) * (shard_size as int))
            by (nonlinear_arith)
            requires
                (data_shards as int) * gcc <= (n as int) * gcc,
                gcc == cc as int,
                shard_size == 2 * cc,
        ;
    }
    let ghost dws = Seq::new(
        (gk * gcc) as nat,
        |t: int| decoded_word(shards@, indices@, gk, gm, gcc, t / gcc, t % gcc),
    );
    let mut out_words: Vec<u16> = Vec::new();
    let mut j: usize = 0;
    while j < data_shards
        invariant
            j <= data_shards,
            out_words@.len() == j * cc,
            n >= data_shards,
            chunks@.len() == cc,
            forall|i2: int| 0 <= i2 < cc ==> (#[trigger] chunks@[i2])@.len() == gk,
            forall|i2: int, j2: int|
                0 <= i2 < cc && 0 <= j2 < gk ==> (#[trigger] chunks@[i2]@[j2]) == decoded_word(
                    shards@,
                    indices@,
                    gk,
                    gm,
                    gcc,
                    j2,
                    i2,
                ),
            forall|t: int| 0 <= t < out_words@.len() ==> (#[trigger] out_words@[t]) == dws[t],
            forall|dw: Seq<u16>| #[trigger]
                supplied_consistent(shards@, indices@, dw, gk, gm, gcc) ==> forall|i2: int, j2: int|
                    0 <= i2 < cc && 0 <= j2 < gk ==> (#[trigger] chunks@[i2]@[j2]) == dw[j2 * gcc
                        + i2],
            forall|dw: Seq<u16>| #[trigger]
                supplied_consistent(shards@, indices@, dw, gk, gm, gcc) ==> forall|t: int|
                    0 <= t < out_words@.len() ==> out_words@[t] == dw[t],
        decreases data_shards - j,
    {
        let mut i: usize = 0;
        while i < cc
            invariant
                i <= cc,
                j < data_shards,
                out_words@.len() == j * cc + i,
                chunks@.len() == cc,
                forall|i2: int| 0 <= i2 < cc ==> (#[trigger] chunks@[i2])@.len() == gk,
                forall|i2: int, j2: int|
                    0 <= i2 < cc && 0 <= j2 < gk ==> (#[trigger] chunks@[i2]@[j2])
                        == decoded_word(shards@, indices@, gk, gm, gcc, j2, i2),
                forall|t: int| 0 <= t < out_words@.len() ==> (#[trigger] out_words@[t]) == dws[t],
                forall|dw: Seq<u16>| #[trigger]
                    supplied_consistent(shards@, indices@, dw, gk, gm, gcc) ==> forall|
                        i2: int,
                        j2: int,
                    |
                        0 <= i2 < cc && 0 <= j2 < gk ==> (#[trigger] chunks@[i2]@[j2]) == dw[j2
                            * gcc + i2],
                forall|dw: Seq<u16>| #[trigger]
                    supplied_consistent(shards@, indices@, dw, gk, gm, gcc) ==> forall|t: int|
                        0 <= t < out_words@.len() ==> out_words@[t] == dw[t],
            decreases cc - i,
        {
            proof {
                assert(j as int * gcc + i < gk * gcc) by (nonlinear_arith)
                    requires
                        0 <= j < data_shards,
                        0 <= i < cc,
                        gk == data_shards as int,
                        gcc == cc as int,
                ;
                lemma_fundamental_div_mod_converse(j as int * gcc + i, gcc, j as int, i as int);
                assert(dws[j as int * gcc + i] == decoded_word(
                    shards@,
                    indices@,
                    gk,
                    gm,
                    gcc,
                    j as int,
                    i as int,
                ));
            }
            let w = chunks[i][j];
            out_words.push(w);
            i = i + 1;
        }
        j = j + 1;
        proof {
            assert(j as int * gcc == (j - 1) * gcc + gcc) by (nonlinear_arith);
        }
    }
    proof {
        assert(out_words@.len() == (data_shards as int) * gcc);
    }
    let out = words_to_bytes(&out_words);
    proof {
        assert(out@.len() == (data_shards as int) * (shard_size as int)) by (nonlinear_arith)
            requires
                out@.len() == 2 * ((data_shards as int) * gcc),
                gcc == cc as int,
                shard_size == 2 * cc,
        ;
        assert(out_words@ =~= dws);
        assert(decode_spec(shards@, indices@, gk, gm, gcc) == bytes_of(dws)) by {
            assert(Seq::new(
                (gk * gcc) as nat,
                |t: int| decoded_word(shards@, indices@, gk, gm, gcc, t / gcc, t % gcc),
            ) =~= dws);
        }
        assert(out@ == decode_spec(shards@, indices@, gk, gm, gcc));
        assert forall|dw: Seq<u16>|
            supplied_consistent(shards@, indices@, dw, gk, gm, gcc) implies out@ == bytes_of(
            dw,
        ) by {
            assert(out_words@ =~= dw);
        }
    }
    Ok(out)
}

} // verus!
