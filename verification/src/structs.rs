//! Plain ledger values: hashes, coins, transactions and blocks, each with its
//! mathematical view.

use vstd::prelude::*;
use crate::hexcode::{encode, hex_text};

verus! {

/// Sequential index of a block.
pub type BlockHeight = u64;

/// A 32-byte hash value.
#[derive(Clone, Copy, Debug, Eq)]
pub struct HashVal {
    pub bytes: [u8; 32],
}

/// Hash that names a transaction.
pub type TxHash = HashVal;

/// Hash of the covenant that guards a coin.
pub type Address = HashVal;

impl PartialEq for HashVal {
    fn eq(&self, other: &Self) -> (r: bool) {
        let mut i: usize = 0;
        while i < 32
            invariant
                i <= 32,
                forall|j: int| 0 <= j < i ==> self.bytes[j] == other.bytes[j],
            decreases 32 - i,
        {
            if self.bytes[i] != other.bytes[i] {
                return false;
            }
            i = i + 1;
        }
        assert(self.bytes =~= other.bytes);
        true
    }
}

impl vstd::std_specs::cmp::PartialEqSpecImpl for HashVal {
    open spec fn obeys_eq_spec() -> bool {
        true
    }

    open spec fn eq_spec(&self, other: &Self) -> bool {
        *self == *other
    }
}

impl HashVal {
    /// The first `count` bytes of the hash.
    fn leading_bytes(&self, count: usize) -> (bytes: Vec<u8>)
        requires
            count <= 32,
        ensures
            bytes@ == self.bytes@.take(count as int),
    {
        let mut bytes: Vec<u8> = Vec::new();
        let mut i: usize = 0;
        while i < count
            invariant
                i <= count <= 32,
                bytes@ == self.bytes@.take(i as int),
            decreases count - i,
        {
            bytes.push(self.bytes[i]);
            assert(self.bytes@.take(i + 1) =~= self.bytes@.take(i as int).push(self.bytes@[i as int]));
            i = i + 1;
        }
        bytes
    }

    /// The hash in hexadecimal digits, 64 of them.
    pub fn to_hex(&self) -> (text: String)
        ensures
            text@ == hex_text(self.bytes@),
    {
        let bytes = self.leading_bytes(32);
        assert(self.bytes@.take(32) =~= self.bytes@);
        encode(&bytes)
    }

    /// The first five bytes of the hash in hexadecimal digits.
    pub fn to_short_hex(&self) -> (text: String)
        ensures
            text@ == hex_text(self.bytes@.take(5)),
    {
        let bytes = self.leading_bytes(5);
        encode(&bytes)
    }
}

/// A coin is named by the transaction that produced it and its place among
/// that transaction's outputs.
#[derive(Clone, Copy, Debug, Eq)]
pub struct CoinID {
    pub txhash: TxHash,
    pub index: u8,
}

impl PartialEq for CoinID {
    fn eq(&self, other: &Self) -> (r: bool) {
        self.txhash == other.txhash && self.index == other.index
    }
}

impl vstd::std_specs::cmp::PartialEqSpecImpl for CoinID {
    open spec fn obeys_eq_spec() -> bool {
        true
    }

    open spec fn eq_spec(&self, other: &Self) -> bool {
        *self == *other
    }
}

/// An asset type. `Mel` is the primary denomination, in which block rewards
/// and fees are paid.
#[derive(Clone, Copy, Debug, Eq)]
pub enum Denom {
    Mel,
    Sym,
    Erg,
    NewCoin,
    Custom(TxHash),
}

impl PartialEq for Denom {
    fn eq(&self, other: &Self) -> (r: bool) {
        match (self, other) {
            (Denom::Mel, Denom::Mel) => true,
            (Denom::Sym, Denom::Sym) => true,
            (Denom::Erg, Denom::Erg) => true,
            (Denom::NewCoin, Denom::NewCoin) => true,
            (Denom::Custom(a), Denom::Custom(b)) => *a == *b,
            _ => false,
        }
    }
}

impl vstd::std_specs::cmp::PartialEqSpecImpl for Denom {
    open spec fn obeys_eq_spec() -> bool {
        true
    }

    open spec fn eq_spec(&self, other: &Self) -> bool {
        *self == *other
    }
}

/// What a coin holds.
#[derive(Debug)]
pub struct CoinData {
    pub covhash: Address,
    pub value: u128,
    pub denom: Denom,
    pub additional_data: Vec<u8>,
}

/// Mathematical value of a [`CoinData`].
pub struct CoinDataView {
    pub covhash: Address,
    pub value: u128,
    pub denom: Denom,
    pub additional_data: Seq<u8>,
}

impl View for CoinData {
    type V = CoinDataView;

    open spec fn view(&self) -> CoinDataView {
        CoinDataView {
            covhash: self.covhash,
            value: self.value,
            denom: self.denom,
            additional_data: self.additional_data@,
        }
    }
}

impl DeepView for CoinData {
    type V = CoinDataView;

    open spec fn deep_view(&self) -> CoinDataView {
        self@
    }
}

impl Clone for CoinData {
    fn clone(&self) -> (r: Self)
        ensures
            r@ == self@,
    {
        CoinData {
            covhash: self.covhash,
            value: self.value,
            denom: self.denom,
            additional_data: self.additional_data.clone(),
        }
    }
}

/// A coin together with the height at which it was created.
#[derive(Debug)]
pub struct CoinDataHeight {
    pub coin_data: CoinData,
    pub height: BlockHeight,
}

/// Mathematical value of a [`CoinDataHeight`].
pub struct CoinDataHeightView {
    pub coin_data: CoinDataView,
    pub height: BlockHeight,
}

impl View for CoinDataHeight {
    type V = CoinDataHeightView;

    open spec fn view(&self) -> CoinDataHeightView {
        CoinDataHeightView { coin_data: self.coin_data@, height: self.height }
    }
}

impl DeepView for CoinDataHeight {
    type V = CoinDataHeightView;

    open spec fn deep_view(&self) -> CoinDataHeightView {
        self@
    }
}

/// A transaction, as far as the index and the resolver read it. `hash` is
/// the hash that names the transaction and `weight` its weight under the
/// fee rules, both computed where the transaction was decoded.
#[derive(Debug)]
pub struct Transaction {
    pub hash: TxHash,
    pub inputs: Vec<CoinID>,
    pub outputs: Vec<CoinData>,
    pub fee: u128,
    pub weight: u128,
}

/// Mathematical value of a [`Transaction`].
pub struct TransactionView {
    pub hash: TxHash,
    pub inputs: Seq<CoinID>,
    pub outputs: Seq<CoinDataView>,
    pub fee: u128,
    pub weight: u128,
}

impl View for Transaction {
    type V = TransactionView;

    open spec fn view(&self) -> TransactionView {
        TransactionView {
            hash: self.hash,
            inputs: self.inputs@,
            outputs: self.outputs.deep_view(),
            fee: self.fee,
            weight: self.weight,
        }
    }
}

impl DeepView for Transaction {
    type V = TransactionView;

    open spec fn deep_view(&self) -> TransactionView {
        self@
    }
}

/// The header fields that summaries read, with the header's canonical
/// encoding and its hash.
#[derive(Debug)]
pub struct Header {
    pub height: BlockHeight,
    pub fee_pool: u128,
    pub fee_multiplier: u128,
    pub hash: HashVal,
    pub encoded: Vec<u8>,
}

/// Mathematical value of a [`Header`].
pub struct HeaderView {
    pub height: BlockHeight,
    pub fee_pool: u128,
    pub fee_multiplier: u128,
    pub hash: HashVal,
    pub encoded: Seq<u8>,
}

impl View for Header {
    type V = HeaderView;

    open spec fn view(&self) -> HeaderView {
        HeaderView {
            height: self.height,
            fee_pool: self.fee_pool,
            fee_multiplier: self.fee_multiplier,
            hash: self.hash,
            encoded: self.encoded@,
        }
    }
}

/// A full block: its header and its transactions in their recorded order.
#[derive(Debug)]
pub struct Block {
    pub header: Header,
    pub transactions: Vec<Transaction>,
}

/// Mathematical value of a [`Block`].
pub struct BlockView {
    pub header: HeaderView,
    pub transactions: Seq<TransactionView>,
}

impl View for Block {
    type V = BlockView;

    open spec fn view(&self) -> BlockView {
        BlockView { header: self.header@, transactions: self.transactions.deep_view() }
    }
}

} // verus!
