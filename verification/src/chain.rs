//! What the rules of the chain give for plain values: the coin of a
//! proposer's reward, the order of the two denominations of a pool, and
//! the base fee of a transaction.

use vstd::prelude::*;
use crate::structs::{BlockHeight, CoinID, Denom, HashVal};

verus! {

/// The hash under which the chain keeps the reward of the proposer of the
/// block at a height: a keyed hash of the height.
pub uninterp spec fn reward_coin_hash(height: u64) -> Seq<u8>;

/// `CoinID::proposer_reward` of melstructs: the pseudo-coin that holds the
/// reward of the proposer of the block at `height`. Its hash is a keyed
/// hash of the height, and so depends on the height alone; its index is
/// zero.
#[verifier::external_body]
pub(crate) fn reward_coin(height: BlockHeight) -> (coinid: CoinID)
    ensures
        coinid.txhash.bytes@ == reward_coin_hash(height),
        coinid.index == 0,
{
    let reward = melstructs::CoinID::proposer_reward(melstructs::BlockHeight(height));
    CoinID { txhash: HashVal { bytes: reward.txhash.0.0 }, index: reward.index }
}

/// The bytes that stand for a denomination on the chain: one letter for
/// each of the three built-in ones, nothing for a denomination yet to be
/// named, and the 32 bytes of its hash for a custom one.
pub open spec fn denom_bytes(denom: Denom) -> Seq<u8> {
    match denom {
        Denom::Mel => seq![109u8],
        Denom::Sym => seq![115u8],
        Denom::Erg => seq![100u8],
        Denom::NewCoin => Seq::empty(),
        Denom::Custom(hash) => hash.bytes@,
    }
}

/// `a` comes before `b` in the order of byte strings: at the first place
/// where they differ `a` has the smaller byte, or `a` ends there and `b`
/// goes on.
pub open spec fn bytes_before(a: Seq<u8>, b: Seq<u8>) -> bool
    decreases a.len(),
{
    if a.len() == 0 {
        b.len() > 0
    } else if b.len() == 0 {
        false
    } else if a[0] != b[0] {
        a[0] < b[0]
    } else {
        bytes_before(a.skip(1), b.skip(1))
    }
}

/// The bytes stand for a denomination.
pub open spec fn is_denom_bytes(bytes: Seq<u8>) -> bool {
    ||| bytes == seq![109u8]
    ||| bytes == seq![115u8]
    ||| bytes == seq![100u8]
    ||| bytes.len() == 0
    ||| bytes.len() == 32
}

/// The bytes that stand for a denomination.
pub fn denom_to_bytes(denom: Denom) -> (bytes: Vec<u8>)
    ensures
        bytes@ == denom_bytes(denom),
        is_denom_bytes(bytes@),
{
    let mut bytes: Vec<u8> = Vec::new();
    match denom {
        Denom::Mel => {
            bytes.push(109);
        },
        Denom::Sym => {
            bytes.push(115);
        },
        Denom::Erg => {
            bytes.push(100);
        },
        Denom::NewCoin => {},
        Denom::Custom(hash) => {
            let mut i: usize = 0;
            while i < 32
                invariant
                    i <= 32,
                    bytes@ == hash.bytes@.take(i as int),
                decreases 32 - i,
            {
                bytes.push(hash.bytes[i]);
                assert(hash.bytes@.take(i + 1) =~= hash.bytes@.take(i as int).push(
                    hash.bytes@[i as int],
                ));
                i = i + 1;
            }
            assert(hash.bytes@.take(32) =~= hash.bytes@);
        },
    }
    assert(bytes@ =~= denom_bytes(denom));
    bytes
}

/// `PoolKey::new` of melstructs, and `PoolKey::left` of the key it makes:
/// the left-hand denomination of the pool of two denominations, each
/// given by its bytes. The crate puts first the one whose bytes come
/// first in the order of byte strings. It does not return for two equal
/// denominations.
#[verifier::external_body]
fn canonical_left(x: &Vec<u8>, y: &Vec<u8>) -> (left: Vec<u8>)
    requires
        is_denom_bytes(x@),
        is_denom_bytes(y@),
        x@ != y@,
    ensures
        left@ == (if bytes_before(x@, y@) {
            x@
        } else {
            y@
        }),
{
    let a = melstructs::Denom::from_bytes(x).unwrap();
    let b = melstructs::Denom::from_bytes(y).unwrap();
    melstructs::PoolKey::new(a, b).left().to_bytes().to_vec()
}

proof fn lemma_denom_bytes_differ(a: Denom, b: Denom)
    requires
        a != b,
    ensures
        denom_bytes(a) != denom_bytes(b),
{
    let x = denom_bytes(a);
    let y = denom_bytes(b);
    match (a, b) {
        (Denom::Custom(h1), Denom::Custom(h2)) => {
            if x == y {
                assert(h1.bytes =~= h2.bytes);
            }
        },
        (Denom::Custom(h), _) => {
            assert(x.len() == 32);
        },
        (_, Denom::Custom(h)) => {
            assert(y.len() == 32);
        },
        _ => {
            if x.len() == 1 && y.len() == 1 {
                assert(x[0] != y[0]);
            }
        },
    }
}

/// Whether the price of a pool has to be turned upside down to be the
/// price that a graph from `from` to `to` shows: it has to where `from` is
/// the left-hand denomination of the pool, which is the one whose bytes
/// come first.
pub fn price_is_inverted(from: Denom, to: Denom) -> (inverted: bool)
    requires
        from != to,
    ensures
        inverted == bytes_before(denom_bytes(from), denom_bytes(to)),
{
    let x = denom_to_bytes(from);
    let y = denom_to_bytes(to);
    proof {
        lemma_denom_bytes_differ(from, to);
    }
    let left = canonical_left(&x, &y);
    let mut same = left.len() == x.len();
    let mut i: usize = 0;
    while same && i < left.len()
        invariant
            left@.len() == x@.len() ==> i <= left@.len(),
            same ==> left@.len() == x@.len(),
            same ==> forall|k: int| 0 <= k < i ==> left@[k] == x@[k],
            !same ==> left@ != x@,
        decreases left@.len() - i,
    {
        if left[i] != x[i] {
            same = false;
        }
        i = i + 1;
    }
    proof {
        if same {
            assert(left@ =~= x@);
        }
    }
    same
}

/// The least fee that a transaction of a weight has to pay at a fee
/// multiplier, which counts in parts of 65536: the weight and the ballast,
/// times the multiplier, both held at the top of 128 bits.
pub open spec fn base_fee_of(weight: u128, fee_multiplier: u128, ballast: u128) -> int {
    let loaded = if weight + ballast > u128::MAX {
        u128::MAX as int
    } else {
        weight + ballast
    };
    let scaled = if loaded * fee_multiplier > u128::MAX {
        u128::MAX as int
    } else {
        loaded * fee_multiplier
    };
    scaled / 65536
}

/// The base fee of a transaction of a weight at a fee multiplier.
pub fn base_fee(weight: u128, fee_multiplier: u128, ballast: u128) -> (fee: u128)
    ensures
        fee == base_fee_of(weight, fee_multiplier, ballast),
{
    let loaded = match weight.checked_add(ballast) {
        Some(loaded) => loaded,
        None => u128::MAX,
    };
    let scaled = match loaded.checked_mul(fee_multiplier) {
        Some(scaled) => scaled,
        None => u128::MAX,
    };
    scaled / 65536
}

} // verus!
