//! The trusted boundary to the Reed-Solomon codec engine of the
//! `reed_solomon_simd` crate.
//!
//! One encode or decode session is scoped to a single chunk: it is
//! constructed with `(k, m, word_size)`, fed one 2-byte word per shard, and
//! asked once for parity (encode) or for the missing original words
//! (decode).  The contracts below say no more than the crate's source shows.

use vstd::prelude::*;
use reed_solomon_simd::ReedSolomonDecoder;
use reed_solomon_simd::ReedSolomonEncoder;
use crate::words::{word_hi, word_lo};

verus! {

#[verifier::external_type_specification]
#[verifier::external_body]
pub struct ExReedSolomonEncoder(ReedSolomonEncoder);

#[verifier::external_type_specification]
#[verifier::external_body]
pub struct ExReedSolomonDecoder(ReedSolomonDecoder);

/// Whether the engine supports a configuration of `k` data shards and `m`
/// parity shards; names the result of `ReedSolomonEncoder::supports`, which
/// `ReedSolomonDecoder::supports` equals.
pub uninterp spec fn supported(k: int, m: int) -> bool;

/// The `m` parity words the engine computes for one chunk from its `k` data
/// words; names the result of `ReedSolomonEncoder::encode`, which depends on
/// the configuration and the fed words alone.
pub uninterp spec fn rs_parity(k: int, m: int, data: Seq<u16>) -> Seq<u16>;

/// The configuration (data shard count, parity shard count, shard byte size)
/// an encoder session was constructed with.
pub uninterp spec fn enc_config(e: ReedSolomonEncoder) -> (int, int, int);

/// The original words fed to an encoder session so far, in feeding order.
pub uninterp spec fn enc_fed(e: ReedSolomonEncoder) -> Seq<u16>;

/// The configuration (data shard count, parity shard count, shard byte size)
/// a decoder session was constructed with.
pub uninterp spec fn dec_config(d: ReedSolomonDecoder) -> (int, int, int);

/// The original words fed to a decoder session, keyed by original index.
pub uninterp spec fn dec_originals(d: ReedSolomonDecoder) -> Map<int, u16>;

/// The recovery words fed to a decoder session, keyed by recovery index.
pub uninterp spec fn dec_recoveries(d: ReedSolomonDecoder) -> Map<int, u16>;

/// The restored original words the engine computes for one chunk, keyed by
/// original index; names the result of `ReedSolomonDecoder::decode` for a
/// 2-byte-word session, which depends on the configuration and the fed
/// words alone.
pub uninterp spec fn rs_restored(
    k: int,
    m: int,
    originals: Map<int, u16>,
    recoveries: Map<int, u16>,
) -> Map<int, u16>;

/// The words fed to a decode session agree with the data-word column `col`
/// of one chunk: every fed original word is the column's entry at its index,
/// and every fed recovery word is the engine's parity word at its index.
pub open spec fn chunk_consistent(
    k: int,
    m: int,
    col: Seq<u16>,
    originals: Map<int, u16>,
    recoveries: Map<int, u16>,
) -> bool {
    &&& col.len() == k
    &&& forall|i: int| #[trigger]
            originals.dom().contains(i) ==> 0 <= i < k && originals[i] == col[i]
    &&& forall|j: int| #[trigger]
            recoveries.dom().contains(j) ==> 0 <= j < m && recoveries[j] == rs_parity(k, m, col)[j]
}

/// Relies on `ReedSolomonEncoder::new`: it succeeds exactly when the count
/// pair is supported (`use_high_rate`) and the shard byte size is non-zero
/// and even (`Rate::validate`).  A supported pair has both counts at least 1
/// and sums to at most 65536; any pair of counts up to 32768 each is
/// supported (each power-of-two bound is then at most 32768, so their sum
/// stays within the field order); a zero count is always refused.  A fresh
/// session holds no words.
#[verifier::external_body]
pub(crate) fn encoder_new(k: usize, m: usize, word_size: usize) -> (r: Result<
    ReedSolomonEncoder,
    (),
>)
    ensures
        r is Ok <==> (supported(k as int, m as int) && word_size % 2 == 0 && word_size > 0),
        r matches Ok(e) ==> enc_config(e) == (k as int, m as int, word_size as int) && enc_fed(e)
            == Seq::<u16>::empty(),
        r is Ok ==> 1 <= k && 1 <= m && k + m <= 65536,
        (word_size % 2 == 0 && word_size > 0 && 1 <= k && k <= 32768 && 1 <= m && m <= 32768)
            ==> r is Ok,
        k == 0 ==> r is Err,
        m == 0 ==> r is Err,
{
    match ReedSolomonEncoder::new(k, m, word_size) {
        Ok(e) => Ok(e),
        Err(_) => Err(()),
    }
}

/// Relies on `ReedSolomonEncoder::add_original_shard`: with a 2-byte-word
/// session it succeeds exactly while fewer words have been fed than there
/// are data shards, and appends the word.
#[verifier::external_body]
pub(crate) fn encoder_add(e: &mut ReedSolomonEncoder, w: u16) -> (r: Result<(), ()>)
    requires
        enc_config(*old(e)).2 == 2,
    ensures
        r is Ok <==> enc_fed(*old(e)).len() < enc_config(*old(e)).0,
        r is Ok ==> enc_config(*final(e)) == enc_config(*old(e)) && enc_fed(*final(e)) == enc_fed(
            *old(e),
        ).push(w),
{
    match e.add_original_shard(&w.to_le_bytes()) {
        Ok(()) => Ok(()),
        Err(_) => Err(()),
    }
}

/// Relies on `ReedSolomonEncoder::encode` and `EncoderResult::recovery_iter`:
/// encoding succeeds exactly when every data word was fed, and then yields
/// the `m` parity words in recovery-index order, each 2 bytes long.
#[verifier::external_body]
pub(crate) fn encoder_finish(e: &mut ReedSolomonEncoder) -> (r: Result<Vec<u16>, ()>)
    requires
        enc_config(*old(e)).2 == 2,
    ensures
        r is Ok <==> enc_fed(*old(e)).len() == enc_config(*old(e)).0,
        r matches Ok(p) ==> p@ == rs_parity(
            enc_config(*old(e)).0,
            enc_config(*old(e)).1,
            enc_fed(*old(e)),
        ) && p@.len() == enc_config(*old(e)).1,
{
    match e.encode() {
        Ok(res) => Ok(res.recovery_iter().map(|s| u16::from_le_bytes([s[0], s[1]])).collect()),
        Err(_) => Err(()),
    }
}

/// An empty word map: what a fresh decode session holds.
pub open spec fn no_words(ws: Map<int, u16>) -> bool {
    ws == Map::<int, u16>::empty()
}

/// Relies on `ReedSolomonDecoder::new`: it succeeds exactly when the count
/// pair is supported and the shard byte size is non-zero and even, on the
/// same grounds as the encoder's constructor (the two share one support
/// predicate): both counts of a supported pair are at least 1 and sum to at
/// most 65536, any pair of counts up to 32768 each is supported, and a zero
/// count is always refused.  A fresh session holds no words.
#[verifier::external_body]
pub(crate) fn decoder_new(k: usize, m: usize, word_size: usize) -> (r: Result<
    ReedSolomonDecoder,
    (),
>)
    ensures
        r is Ok <==> (supported(k as int, m as int) && word_size % 2 == 0 && word_size > 0),
        r matches Ok(d) ==> dec_config(d) == (k as int, m as int, word_size as int) && no_words(
            dec_originals(d),
        ) && no_words(dec_recoveries(d)),
        r is Ok ==> 1 <= k && 1 <= m && k + m <= 65536,
        (word_size % 2 == 0 && word_size > 0 && 1 <= k && k <= 32768 && 1 <= m && m <= 32768)
            ==> r is Ok,
        k == 0 ==> r is Err,
        m == 0 ==> r is Err,
{
    match ReedSolomonDecoder::new(k, m, word_size) {
        Ok(d) => Ok(d),
        Err(_) => Err(()),
    }
}

/// Relies on `ReedSolomonDecoder::add_original_shard`: with a 2-byte-word
/// session it succeeds exactly when the index is in range and not yet
/// present, and records the word under that index.  The callee computes a
/// working position `base + index` before its range check; a session's base
/// position is at most 65536 (a power of two no greater than the field
/// order), so the index bound keeps that addition from overflowing.
#[verifier::external_body]
pub(crate) fn decoder_add_original(d: &mut ReedSolomonDecoder, idx: usize, w: u16) -> (r: Result<
    (),
    (),
>)
    requires
        dec_config(*old(d)).2 == 2,
        idx <= 65536,
    ensures
        r is Ok <==> ((idx as int) < dec_config(*old(d)).0 && !dec_originals(
            *old(d),
        ).dom().contains(idx as int)),
        r is Ok ==> dec_config(*final(d)) == dec_config(*old(d)) && dec_originals(*final(d))
            == dec_originals(*old(d)).insert(idx as int, w) && dec_recoveries(*final(d))
            == dec_recoveries(*old(d)),
{
    match d.add_original_shard(idx, &w.to_le_bytes()) {
        Ok(()) => Ok(()),
        Err(_) => Err(()),
    }
}

/// Relies on `ReedSolomonDecoder::add_recovery_shard`: with a 2-byte-word
/// session it succeeds exactly when the index is in range and not yet
/// present, and records the word under that index.  The index bound keeps
/// the callee's `base + index` position arithmetic from overflowing, as for
/// the original-shard case.
#[verifier::external_body]
pub(crate) fn decoder_add_recovery(d: &mut ReedSolomonDecoder, idx: usize, w: u16) -> (r: Result<
    (),
    (),
>)
    requires
        dec_config(*old(d)).2 == 2,
        idx <= 65536,
    ensures
        r is Ok <==> ((idx as int) < dec_config(*old(d)).1 && !dec_recoveries(
            *old(d),
        ).dom().contains(idx as int)),
        r is Ok ==> dec_config(*final(d)) == dec_config(*old(d)) && dec_recoveries(*final(d))
            == dec_recoveries(*old(d)).insert(idx as int, w) && dec_originals(*final(d))
            == dec_originals(*old(d)),
{
    match d.add_recovery_shard(idx, &w.to_le_bytes()) {
        Ok(()) => Ok(()),
        Err(_) => Err(()),
    }
}

/// Relies on `ReedSolomonDecoder::decode` and
/// `DecoderResult::restored_original_iter`: decoding succeeds exactly when at
/// least as many distinct words were fed as there are data shards; it then
/// returns one 2-byte word for exactly each original index that was not fed.
/// Each returned word is the engine's restoration `rs_restored`, a function
/// of the session's configuration and fed words alone; and when the fed
/// words agree with some data-word column, it is that column's entry at its
/// index - the Reed-Solomon guarantee that any `k` of the `k + m` shards
/// determine the original data.
#[verifier::external_body]
pub(crate) fn decoder_finish(d: &mut ReedSolomonDecoder) -> (r: Result<Vec<(usize, Vec<u8>)>, ()>)
    requires
        dec_config(*old(d)).2 == 2,
    ensures
        r is Ok <==> dec_originals(*old(d)).dom().len() + dec_recoveries(*old(d)).dom().len()
            >= dec_config(*old(d)).0,
        r matches Ok(rest) ==> forall|t: int|
            0 <= t < rest@.len() ==> 0 <= (#[trigger] rest@[t]).0 < dec_config(*old(d)).0
                && !dec_originals(*old(d)).dom().contains(rest@[t].0 as int) && rest@[t].1@.len()
                == 2,
        r matches Ok(rest) ==> forall|i: int|
            0 <= i < dec_config(*old(d)).0 && !dec_originals(*old(d)).dom().contains(i)
                ==> exists|t: int| 0 <= t < rest@.len() && (#[trigger] rest@[t]).0 == i,
        r matches Ok(rest) ==> forall|t: int|
            0 <= t < rest@.len() ==> (#[trigger] rest@[t]).1@ == seq![
                word_lo(
                    rs_restored(
                        dec_config(*old(d)).0,
                        dec_config(*old(d)).1,
                        dec_originals(*old(d)),
                        dec_recoveries(*old(d)),
                    )[rest@[t].0 as int],
                ),
                word_hi(
                    rs_restored(
                        dec_config(*old(d)).0,
                        dec_config(*old(d)).1,
                        dec_originals(*old(d)),
                        dec_recoveries(*old(d)),
                    )[rest@[t].0 as int],
                ),
            ],
        r matches Ok(rest) ==> forall|col: Seq<u16>, t: int|
            #![trigger chunk_consistent(dec_config(*old(d)).0, dec_config(*old(d)).1, col, dec_originals(*old(d)), dec_recoveries(*old(d))), rest@[t]]
            chunk_consistent(
                dec_config(*old(d)).0,
                dec_config(*old(d)).1,
                col,
                dec_originals(*old(d)),
                dec_recoveries(*old(d)),
            ) && 0 <= t < rest@.len() ==> rest@[t].1@ == seq![
                word_lo(col[rest@[t].0 as int]),
                word_hi(col[rest@[t].0 as int]),
            ],
{
    match d.decode() {
        Ok(res) => Ok(res.restored_original_iter().map(|(i, s)| (i, s.to_vec())).collect()),
        Err(_) => Err(()),
    }
}

} // verus!
