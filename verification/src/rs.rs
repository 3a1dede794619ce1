//! Reed–Solomon erasure coding over GF(2⁸), from the `reed-solomon-erasure`
//! crate.
//!
//! The coding itself is named, not described: `rs_parity_spec` is the parity
//! the crate computes for a set of data shards, and `rs_reconstructed_spec`
//! what its reconstruction fills in. The one property this library relies
//! on is the one the crate exists to provide: when the shards that are
//! present all belong to one codeword, reconstruction restores that
//! codeword.

use vstd::prelude::*;
use reed_solomon_erasure::galois_8::ReedSolomon;

verus! {

/// The parity shards `reed_solomon_erasure::galois_8::ReedSolomon::encode`
/// computes for `data` with `parity` parity shards.
pub uninterp spec fn rs_parity_spec(data: Seq<Seq<u8>>, parity: nat) -> Seq<Seq<u8>>;

/// The shards `reed_solomon_erasure::galois_8::ReedSolomon::reconstruct`
/// leaves in `shards` (for `data` data and `parity` parity shards) when it
/// succeeds.
pub uninterp spec fn rs_reconstructed_spec(shards: Seq<Option<Seq<u8>>>, data: nat, parity: nat) -> Seq<Seq<u8>>;

/// A codec with these counts can be built: at least one data and one
/// parity shard, and no more than the field's 256 shards in all.
pub open spec fn rs_config_ok(data: nat, parity: nat) -> bool {
    data > 0 && parity > 0 && data + parity <= 256
}

/// The full codeword of `data`: the data shards, then their parity.
pub open spec fn rs_codeword(data: Seq<Seq<u8>>, parity: nat) -> Seq<Seq<u8>> {
    data + rs_parity_spec(data, parity)
}

/// `data` is a set of equally long, nonempty data shards.
pub open spec fn uniform_shards(data: Seq<Seq<u8>>) -> bool {
    data.len() > 0 && data[0].len() > 0 && forall|i: int| 0 <= i < data.len() ==> #[trigger] data[i].len()
        == data[0].len()
}

/// Every shard present in `shards` is the corresponding shard of the
/// codeword of `data`.
pub open spec fn agrees_with_codeword(shards: Seq<Option<Seq<u8>>>, data: Seq<Seq<u8>>, parity: nat) -> bool {
    &&& shards.len() == data.len() + parity
    &&& forall|i: int| 0 <= i < shards.len() && (#[trigger] shards[i]) is Some ==> shards[i]->0 == rs_codeword(
        data,
        parity,
    )[i]
}

/// Number of present shards.
pub open spec fn count_present(shards: Seq<Option<Seq<u8>>>) -> nat
    decreases shards.len(),
{
    if shards.len() == 0 {
        0
    } else {
        count_present(shards.drop_last()) + if shards.last() is Some { 1nat } else { 0nat }
    }
}

/// The present shards are all nonempty and of one length.
pub open spec fn present_uniform(shards: Seq<Option<Seq<u8>>>) -> bool {
    forall|i: int, j: int| 0 <= i < shards.len() && 0 <= j < shards.len() && (#[trigger] shards[i]) is Some
        && (#[trigger] shards[j]) is Some ==> shards[i]->0.len() > 0 && shards[i]->0.len() == shards[j]->0.len()
}

/// Builds a codec with `ReedSolomon::new(data_shards, parity_shards)` and
/// calls its `encode` on `shards`.
///
/// Trusted, from the crate's source: `new` fails exactly when there is no
/// data or no parity shard or more than 256 shards; `encode` fails exactly
/// when the shard count differs from the codec's, or the first shard is
/// empty, or the shards differ in length, and then touches nothing. On
/// success the data shards are unchanged, every shard keeps its length, and
/// the parity shards hold `rs_parity_spec` of the data shards.
#[verifier::external_body]
pub(crate) fn rs_encode(data_shards: usize, parity_shards: usize, shards: &mut Vec<Vec<u8>>) -> (ok: bool)
    ensures
        ({
            let before = old(shards)@;
            let after = final(shards)@;
            &&& ok == (rs_config_ok(data_shards as nat, parity_shards as nat) && before.len() == data_shards
                + parity_shards && before[0]@.len() > 0 && forall|i: int|
                0 <= i < before.len() ==> (#[trigger] before[i])@.len() == before[0]@.len())
            &&& !ok ==> after == before
            &&& ok ==> after.len() == before.len()
            &&& ok ==> rs_parity_spec(Seq::new(data_shards as nat, |j: int| before[j]@), parity_shards as nat).len()
                == parity_shards
            &&& ok ==> forall|i: int| 0 <= i < data_shards ==> (#[trigger] after[i]) == before[i]
            &&& ok ==> forall|i: int| 0 <= i < parity_shards ==> (#[trigger] after[data_shards + i])@
                == rs_parity_spec(Seq::new(data_shards as nat, |j: int| before[j]@), parity_shards as nat)[i]
            &&& ok ==> forall|i: int| 0 <= i < before.len() ==> (#[trigger] after[i])@.len() == before[i]@.len()
        }),
{
    match ReedSolomon::new(data_shards, parity_shards) {
        Ok(rs) => rs.encode(shards).is_ok(),
        Err(_) => false,
    }
}

/// The views of a vector of optional shards.
pub open spec fn option_shards_view(s: Seq<Option<Vec<u8>>>) -> Seq<Option<Seq<u8>>> {
    Seq::new(
        s.len(),
        |i: int|
            match s[i] {
                Some(v) => Some(v@),
                None => None,
            },
    )
}

/// Builds a codec with `ReedSolomon::new(data_shards, parity_shards)` and
/// calls its `reconstruct` on `shards`.
///
/// Trusted, from the crate's source: it fails exactly when `new` fails, the
/// shard count differs from the codec's, a present shard is empty or present
/// shards differ in length, or fewer than `data_shards` are present (unless
/// all are), and then touches nothing. On success every slot holds a shard:
/// the present ones unchanged, the rest from `rs_reconstructed_spec`. And
/// the crate's purpose: when the present shards all agree with the codeword
/// of some uniform data, the result is that codeword.
#[verifier::external_body]
pub(crate) fn rs_reconstruct(data_shards: usize, parity_shards: usize, shards: &mut Vec<Option<Vec<u8>>>) -> (ok: bool)
    ensures
        ({
            let before = option_shards_view(old(shards)@);
            let after = final(shards)@;
            let r = rs_reconstructed_spec(before, data_shards as nat, parity_shards as nat);
            &&& ok == (rs_config_ok(data_shards as nat, parity_shards as nat) && before.len() == data_shards
                + parity_shards && present_uniform(before) && count_present(before) >= data_shards)
            &&& !ok ==> after == old(shards)@
            &&& ok ==> after.len() == before.len()
            &&& ok ==> r.len() == before.len()
            &&& ok ==> forall|i: int| 0 <= i < before.len() ==> (#[trigger] after[i]) is Some && after[i]->0@ == r[i]
            &&& ok ==> forall|i: int| 0 <= i < before.len() && (#[trigger] before[i]) is Some ==> r[i] == before[i]->0
            &&& ok ==> forall|data: Seq<Seq<u8>>| #![trigger rs_codeword(data, parity_shards as nat)]
                data.len() == data_shards && uniform_shards(data) && agrees_with_codeword(before, data, parity_shards as nat)
                ==> r == rs_codeword(data, parity_shards as nat)
        }),
{
    match ReedSolomon::new(data_shards, parity_shards) {
        Ok(rs) => rs.reconstruct(shards.as_mut_slice()).is_ok(),
        Err(_) => false,
    }
}

} // verus!
