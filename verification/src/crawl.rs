//! Provenance of coins: where a coin was spent, found by binary search over
//! a monotonic existence oracle, and the picture of coins around one
//! transaction.

use vstd::prelude::*;
use vstd::arithmetic::power2::{lemma2_to64, lemma_pow2_unfold, pow2};
use crate::structs::{
    Block, BlockHeight, BlockView, CoinData, CoinDataHeight, CoinDataHeightView, CoinDataView,
    CoinID, Transaction, TransactionView, TxHash,
};

verus! {

/// Bisection between `lo`, where the coin exists, and `hi`, where it is
/// gone: halves the gap until it is at most one and takes the upper end.
/// `spent` tells whether the coin is gone at a height.
pub open spec fn bisect(lo: u64, hi: u64, spent: spec_fn(u64) -> bool) -> u64
    decreases hi - lo,
{
    if hi - lo <= 1 {
        hi
    } else {
        let mid = (lo + (hi - lo) / 2) as u64;
        if spent(mid) {
            bisect(lo, mid, spent)
        } else {
            bisect(mid, hi, spent)
        }
    }
}

/// The height in `[low, high]` that the search reports as the one where
/// the coin was spent. An empty range, and a coin that still exists at
/// `high`, give "not spent in range". A coin that is gone at `low`
/// already was spent there at the latest, and `low` is reported.
/// Otherwise bisection decides.
pub open spec fn spend_height(low: u64, high: u64, spent: spec_fn(u64) -> bool) -> Option<u64> {
    if high < low {
        None
    } else if !spent(high) {
        None
    } else if spent(low) {
        Some(low)
    } else {
        Some(bisect(low, high, spent))
    }
}

/// How often a gap between two heights can be halved, the longer half
/// taken each time, until the two are neighbours.
pub open spec fn halvings(gap: nat) -> nat
    decreases gap,
{
    if gap <= 1 {
        0
    } else {
        1 + halvings((gap - gap / 2) as nat)
    }
}

proof fn lemma_halvings_grow(a: nat, b: nat)
    requires
        a <= b,
    ensures
        halvings(a) <= halvings(b),
    decreases b,
{
    if a > 1 {
        lemma_halvings_grow((a - a / 2) as nat, (b - b / 2) as nat);
    }
}

/// The search is logarithmic: a gap of at most two to the power of `k`
/// is halved at most `k` times.
pub proof fn lemma_halvings_bound(gap: nat, k: nat)
    requires
        gap <= pow2(k),
    ensures
        halvings(gap) <= k,
    decreases k,
{
    if gap > 1 {
        if k == 0 {
            lemma2_to64();
        } else {
            lemma_pow2_unfold(k);
            lemma_halvings_bound((gap - gap / 2) as nat, (k - 1) as nat);
        }
    }
}

/// The most questions that a search over `[low, high]` asks: none about
/// an empty range, one about a single height, and otherwise one about
/// each bound and one for each halving of the gap.
pub open spec fn most_questions(low: u64, high: u64) -> nat {
    if high < low {
        0
    } else if high == low {
        1
    } else {
        2 + halvings((high - low) as nat)
    }
}

/// The search over a range asks a logarithmic number of questions: where
/// the bounds lie at most two to the power of `k` apart, at most `k + 2`.
pub proof fn lemma_most_questions_bound(low: u64, high: u64, k: nat)
    requires
        high - low <= pow2(k),
    ensures
        most_questions(low, high) <= k + 2,
{
    if low < high {
        lemma_halvings_bound((high - low) as nat, k);
    }
}

/// What the search wants next.
#[derive(Clone, Copy, Debug, PartialEq, Eq, Structural)]
pub enum SearchStep {
    /// Ask whether the coin is gone at this height, and answer.
    Probe(BlockHeight),
    /// The search is over: the height where the coin was spent, if any.
    Done(Option<BlockHeight>),
}

/// Where a search stands.
#[derive(Clone, Copy, Debug)]
enum Phase {
    /// The upper bound has not been asked about yet.
    CheckHigh,
    /// The coin is gone at the upper bound, which lies above the lower
    /// bound; the lower bound has not been asked about yet.
    CheckLow,
    /// The coin exists at the lower end and is gone at the upper end.
    Bisect,
    /// Nothing is left to ask.
    Finished(Option<BlockHeight>),
}

/// A search for the height at which a coin was spent, advanced one answer
/// at a time, so that whoever owns the connection to the ledger can put
/// each question to it.
#[derive(Clone, Copy, Debug)]
pub struct SpendSearch {
    lo: BlockHeight,
    hi: BlockHeight,
    phase: Phase,
}

impl SpendSearch {
    #[verifier::type_invariant]
    spec fn ordered(self) -> bool {
        self.phase is Bisect || self.phase is CheckLow ==> self.lo < self.hi
    }

    /// What the search will report if every question is answered by `spent`.
    pub closed spec fn outcome(self, spent: spec_fn(u64) -> bool) -> Option<u64> {
        match self.phase {
            Phase::CheckHigh => spend_height(self.lo, self.hi, spent),
            Phase::CheckLow => if spent(self.lo) {
                Some(self.lo)
            } else {
                Some(bisect(self.lo, self.hi, spent))
            },
            Phase::Bisect => Some(bisect(self.lo, self.hi, spent)),
            Phase::Finished(found) => found,
        }
    }

    /// What the search wants next.
    pub closed spec fn step(self) -> SearchStep {
        match self.phase {
            Phase::CheckHigh => if self.hi < self.lo {
                SearchStep::Done(None)
            } else {
                SearchStep::Probe(self.hi)
            },
            Phase::CheckLow => SearchStep::Probe(self.lo),
            Phase::Bisect => if self.hi - self.lo <= 1 {
                SearchStep::Done(Some(self.hi))
            } else {
                SearchStep::Probe((self.lo + (self.hi - self.lo) / 2) as u64)
            },
            Phase::Finished(found) => SearchStep::Done(found),
        }
    }

    /// The most questions that can still come.
    pub closed spec fn questions_left(self) -> nat {
        match self.phase {
            Phase::CheckHigh => most_questions(self.lo, self.hi),
            Phase::CheckLow => 1 + halvings((self.hi - self.lo) as nat),
            Phase::Bisect => halvings((self.hi - self.lo) as nat),
            Phase::Finished(_) => 0,
        }
    }

    /// Every question that the search can still ask is about a height in
    /// `[low, high]`, and so is the height that it can still report.
    pub closed spec fn within(self, low: BlockHeight, high: BlockHeight) -> bool {
        match self.phase {
            Phase::Finished(found) => found matches Some(h) ==> low <= h <= high,
            _ => low <= self.lo && self.hi <= high,
        }
    }

    /// A search for the spend of a coin within `[low, high]`. Its first
    /// question is about the upper bound; an empty range needs none. A
    /// coin that is gone there is asked about at the lower bound next,
    /// and between the two after that.
    pub fn new(low: BlockHeight, high: BlockHeight) -> (search: SpendSearch)
        ensures
            forall|spent: spec_fn(u64) -> bool|
                #[trigger] search.outcome(spent) == spend_height(low, high, spent),
            search.within(low, high),
            search.questions_left() == most_questions(low, high),
            search.step() == (if high < low {
                SearchStep::Done(None)
            } else {
                SearchStep::Probe(high)
            }),
    {
        SpendSearch { lo: low, hi: high, phase: Phase::CheckHigh }
    }

    /// What the search wants next: a height to ask about, or its result.
    pub fn next(&self) -> (step: SearchStep)
        ensures
            step == self.step(),
            step matches SearchStep::Done(found) ==> forall|spent: spec_fn(u64) -> bool|
                #[trigger] self.outcome(spent) == found,
            step is Probe <==> self.questions_left() > 0,
            forall|low: u64, high: u64|
                #[trigger] self.within(low, high) && step is Probe ==> low <= step->Probe_0 <= high,
            forall|low: u64, high: u64|
                #[trigger] self.within(low, high) ==> (step matches SearchStep::Done(Some(h)) ==> low
                    <= h <= high),
    {
        proof {
            use_type_invariant(self);
        }
        match self.phase {
            Phase::CheckHigh => if self.hi < self.lo {
                SearchStep::Done(None)
            } else {
                SearchStep::Probe(self.hi)
            },
            Phase::CheckLow => SearchStep::Probe(self.lo),
            Phase::Bisect => if self.hi - self.lo <= 1 {
                SearchStep::Done(Some(self.hi))
            } else {
                SearchStep::Probe(self.lo + (self.hi - self.lo) / 2)
            },
            Phase::Finished(found) => SearchStep::Done(found),
        }
    }

    /// Takes the answer to the question that [`SpendSearch::next`] asked:
    /// whether the coin is gone at that height. Whatever answers the later
    /// questions, the search reports what it would have reported before,
    /// and fewer questions are left.
    pub fn answer(&mut self, spent_there: bool)
        requires
            old(self).step() is Probe,
        ensures
            forall|spent: spec_fn(u64) -> bool|
                spent(old(self).step()->Probe_0) == spent_there ==> #[trigger] final(self).outcome(
                    spent,
                ) == old(self).outcome(spent),
            final(self).questions_left() < old(self).questions_left(),
            forall|low: u64, high: u64|
                old(self).within(low, high) ==> #[trigger] final(self).within(low, high),
    {
        proof {
            use_type_invariant(&*self);
        }
        let lo = self.lo;
        let hi = self.hi;
        match self.phase {
            Phase::CheckHigh => {
                if !spent_there {
                    *self = SpendSearch { lo, hi, phase: Phase::Finished(None) };
                } else if lo == hi {
                    *self = SpendSearch { lo, hi, phase: Phase::Finished(Some(hi)) };
                } else {
                    *self = SpendSearch { lo, hi, phase: Phase::CheckLow };
                }
            },
            Phase::CheckLow => {
                if spent_there {
                    *self = SpendSearch { lo, hi, phase: Phase::Finished(Some(lo)) };
                } else {
                    *self = SpendSearch { lo, hi, phase: Phase::Bisect };
                }
            },
            Phase::Bisect => {
                let mid = lo + (hi - lo) / 2;
                proof {
                    let gap = (hi - lo) as nat;
                    lemma_halvings_grow(gap / 2, (gap - gap / 2) as nat);
                }
                if spent_there {
                    *self = SpendSearch { lo, hi: mid, phase: Phase::Bisect };
                } else {
                    *self = SpendSearch { lo: mid, hi, phase: Phase::Bisect };
                }
            },
            Phase::Finished(_) => {},
        }
    }
}

/// `oracle` agrees with every answer that the question `is_spent` can give
/// about a height in `[low, high]`.
pub open spec fn answers<E, F: Fn(BlockHeight) -> Result<bool, E>>(
    is_spent: F,
    low: BlockHeight,
    high: BlockHeight,
    oracle: spec_fn(u64) -> bool,
) -> bool {
    forall|height: u64, gone: bool|
        low <= height <= high && call_ensures(is_spent, (height,), Ok(gone)) ==> gone == oracle(
            height,
        )
}

/// The search over `[low, high]` that asks `is_spent` ends at `found`:
/// whatever `is_spent` answers within the range, that is what the search
/// reports.
pub open spec fn search_ends<E, F: Fn(BlockHeight) -> Result<bool, E>>(
    is_spent: F,
    low: BlockHeight,
    high: BlockHeight,
    found: Option<BlockHeight>,
) -> bool {
    forall|oracle: spec_fn(u64) -> bool|
        answers(is_spent, low, high, oracle) ==> #[trigger] spend_height(low, high, oracle) == found
}

/// The question `is_spent` can fail with `e` at a height in `[low, high]`.
pub open spec fn fails_with<E, F: Fn(BlockHeight) -> Result<bool, E>>(
    is_spent: F,
    low: BlockHeight,
    high: BlockHeight,
    e: E,
) -> bool {
    exists|height: u64|
        low <= height <= high && #[trigger] call_ensures(is_spent, (height,), Err::<bool, E>(e))
}

/// Finds the smallest height in `[low, high]` at which a coin is gone,
/// asking `is_spent` whether the coin is gone at a height. An empty range
/// gives "not spent" with no question. Otherwise the upper bound is asked
/// about first; a coin that still exists there counts as not spent in the
/// range, with no further question. A coin that is gone at the lower
/// bound was spent there at the latest. No height outside the range is
/// asked about. The first error of `is_spent` ends the search and is
/// returned.
pub fn find_spending_height<E, F: Fn(BlockHeight) -> Result<bool, E>>(
    low: BlockHeight,
    high: BlockHeight,
    is_spent: F,
) -> (found: Result<Option<BlockHeight>, E>)
    requires
        forall|height: u64| low <= height <= high ==> call_requires(is_spent, (height,)),
    ensures
        high < low ==> found == Ok::<Option<BlockHeight>, E>(None),
        found matches Ok(height) ==> search_ends(is_spent, low, high, height),
        found matches Ok(Some(height)) ==> low <= height <= high,
        found matches Err(e) ==> fails_with(is_spent, low, high, e),
{
    let mut search = SpendSearch::new(low, high);
    loop
        invariant
            forall|height: u64| low <= height <= high ==> call_requires(is_spent, (height,)),
            forall|oracle: spec_fn(u64) -> bool|
                answers(is_spent, low, high, oracle) ==> #[trigger] search.outcome(oracle)
                    == spend_height(low, high, oracle),
            search.within(low, high),
            high < low ==> search.step() == SearchStep::Done(None),
        decreases search.questions_left(),
    {
        match search.next() {
            SearchStep::Done(found) => {
                proof {
                    assert forall|oracle: spec_fn(u64) -> bool|
                        answers(is_spent, low, high, oracle) implies #[trigger] spend_height(
                        low,
                        high,
                        oracle,
                    ) == found by {
                        assert(search.outcome(oracle) == found);
                    }
                }
                return Ok(found);
            },
            SearchStep::Probe(height) => {
                assert(low <= height <= high);
                match is_spent(height) {
                    Err(e) => {
                        assert(call_ensures(is_spent, (height,), Err::<bool, E>(e)));
                        assert(fails_with(is_spent, low, high, e));
                        return Err(e);
                    },
                    Ok(gone) => {
                        let ghost before = search;
                        search.answer(gone);
                        proof {
                            assert forall|oracle: spec_fn(u64) -> bool|
                                answers(is_spent, low, high, oracle) implies #[trigger] search.outcome(
                                oracle,
                            ) == spend_height(low, high, oracle) by {
                                assert(oracle(height) == gone);
                                assert(before.outcome(oracle) == spend_height(low, high, oracle));
                            }
                        }
                    },
                }
            },
        }
    }
}

proof fn lemma_bisect_threshold(lo: u64, hi: u64, k: u64, spent: spec_fn(u64) -> bool)
    requires
        lo < k <= hi,
        forall|h: u64| lo <= h <= hi ==> #[trigger] spent(h) == (h >= k),
    ensures
        bisect(lo, hi, spent) == k,
    decreases hi - lo,
{
    if hi - lo > 1 {
        let mid = (lo + (hi - lo) / 2) as u64;
        if spent(mid) {
            lemma_bisect_threshold(lo, mid, k, spent);
        } else {
            lemma_bisect_threshold(mid, hi, k, spent);
        }
    }
}

/// The search finds the threshold of a monotonic oracle. Let the coin
/// exist at the heights of `[low, high]` below `k` and be gone at those
/// from `k` on. Then the search over `[low, high]` reports `k` where `k`
/// lies in the range, and "not spent" where `k` lies above `high`. Where
/// `k` lies below a range that is not empty, the coin is gone in all of
/// it and `low` is reported.
pub proof fn lemma_spend_height_threshold(
    low: u64,
    high: u64,
    k: u64,
    spent: spec_fn(u64) -> bool,
)
    requires
        forall|h: u64| low <= h <= high ==> #[trigger] spent(h) == (h >= k),
    ensures
        low <= k <= high ==> spend_height(low, high, spent) == Some(k),
        k > high ==> spend_height(low, high, spent) is None,
        k < low <= high ==> spend_height(low, high, spent) == Some(low),
{
    if low < k <= high {
        lemma_bisect_threshold(low, high, k, spent);
    }
}

proof fn lemma_bisect_edge(lo: u64, hi: u64, spent: spec_fn(u64) -> bool)
    requires
        lo < hi,
        !spent(lo),
        spent(hi),
    ensures
        lo < bisect(lo, hi, spent) <= hi,
        spent(bisect(lo, hi, spent)),
        !spent((bisect(lo, hi, spent) - 1) as u64),
    decreases hi - lo,
{
    if hi - lo > 1 {
        let mid = (lo + (hi - lo) / 2) as u64;
        if spent(mid) {
            lemma_bisect_edge(lo, mid, spent);
        } else {
            lemma_bisect_edge(mid, hi, spent);
        }
    }
}

/// Whatever the oracle answers, a reported height lies in the range, the
/// coin is gone there, and it is the lower bound or the coin still
/// exists at the height below. "Not spent" is reported for an empty range
/// and for a coin that exists at the upper bound, and for nothing else.
pub proof fn lemma_spend_height_edge(low: u64, high: u64, spent: spec_fn(u64) -> bool)
    ensures
        match spend_height(low, high, spent) {
            Some(h) => {
                &&& low <= h <= high
                &&& spent(h)
                &&& (h == low || !spent((h - 1) as u64))
            },
            None => high < low || !spent(high),
        },
{
    if low <= high && spent(high) && !spent(low) {
        lemma_bisect_edge(low, high, spent);
    }
}

/// The coin, once gone, stays gone: `spent` is monotonic over `[low, high]`.
pub open spec fn stays_spent(low: u64, high: u64, spent: spec_fn(u64) -> bool) -> bool {
    forall|g: u64, h: u64|
        #![trigger spent(g), spent(h)]
        low <= g <= h <= high && spent(g) ==> spent(h)
}

/// With a monotonic oracle the search reports the smallest height of the
/// range at which the coin is gone: the coin exists at every height of
/// the range below the reported one, and "not spent" means that it
/// exists at every height of the range.
pub proof fn lemma_spend_height_smallest(low: u64, high: u64, spent: spec_fn(u64) -> bool)
    requires
        stays_spent(low, high, spent),
    ensures
        match spend_height(low, high, spent) {
            Some(h) => {
                &&& low <= h <= high
                &&& spent(h)
                &&& forall|g: u64| low <= g < h ==> !#[trigger] spent(g)
            },
            None => forall|g: u64| low <= g <= high ==> !#[trigger] spent(g),
        },
{
    lemma_spend_height_edge(low, high, spent);
    match spend_height(low, high, spent) {
        Some(h) => {
            assert forall|g: u64| low <= g < h implies !#[trigger] spent(g) by {
                if spent(g) {
                    assert(spent((h - 1) as u64));
                }
            }
        },
        None => {
            assert forall|g: u64| low <= g <= high implies !#[trigger] spent(g) by {
                if spent(g) {
                    assert(spent(high));
                }
            }
        },
    }
}

/// Whether a spend that is known to have been at `known` settles the
/// search over `[low, high]` without a question: it does where `known`
/// lies in the range. The search then reports `known`, given that the
/// coin exists at the heights of the range below `known` and is gone
/// from there on.
pub fn settles_search(low: BlockHeight, high: BlockHeight, known: BlockHeight) -> (settles: bool)
    ensures
        settles == (low <= known <= high),
        settles ==> forall|spent: spec_fn(u64) -> bool|
            (forall|h: u64| low <= h <= high ==> #[trigger] spent(h) == (h >= known))
                ==> #[trigger] spend_height(low, high, spent) == Some(known),
{
    let settles = low <= known && known <= high;
    proof {
        if settles {
            assert forall|spent: spec_fn(u64) -> bool|
                (forall|h: u64| low <= h <= high ==> #[trigger] spent(h) == (h >= known))
                implies #[trigger] spend_height(low, high, spent) == Some(known) by {
                lemma_spend_height_threshold(low, high, known, spent);
            }
        }
    }
    settles
}

/// The transaction spends the coin: the coin is among its inputs.
pub open spec fn spends(tx: TransactionView, coinid: CoinID) -> bool {
    tx.inputs.contains(coinid)
}

/// The transaction at place `i` spends the coin and none before it does.
pub open spec fn is_first_spender(txs: Seq<TransactionView>, coinid: CoinID, i: int) -> bool {
    &&& 0 <= i < txs.len()
    &&& spends(txs[i], coinid)
    &&& forall|j: int| 0 <= j < i ==> !spends(#[trigger] txs[j], coinid)
}

/// Place of the first transaction of the block that spends the coin.
pub open spec fn spender_position(txs: Seq<TransactionView>, coinid: CoinID) -> Option<int> {
    if exists|i: int| is_first_spender(txs, coinid, i) {
        Some(choose|i: int| is_first_spender(txs, coinid, i))
    } else {
        None
    }
}

/// Whether the coin is among the inputs.
fn has_input(inputs: &Vec<CoinID>, coinid: CoinID) -> (found: bool)
    ensures
        found == inputs@.contains(coinid),
{
    let mut i: usize = 0;
    while i < inputs.len()
        invariant
            i <= inputs.len(),
            forall|k: int| 0 <= k < i ==> inputs@[k] != coinid,
        decreases inputs.len() - i,
    {
        if inputs[i] == coinid {
            return true;
        }
        i = i + 1;
    }
    false
}

/// The first transaction of the block whose inputs include the coin.
pub fn find_spending_transaction<'a>(block: &'a Block, coinid: CoinID) -> (found: Option<
    &'a Transaction,
>)
    ensures
        match found {
            Some(tx) => {
                &&& spender_position(block@.transactions, coinid) matches Some(i)
                &&& is_first_spender(block@.transactions, coinid, i)
                &&& tx@ == block@.transactions[i]
            },
            None => spender_position(block@.transactions, coinid) is None,
        },
{
    let ghost txs = block@.transactions;
    let mut i: usize = 0;
    while i < block.transactions.len()
        invariant
            i <= block.transactions.len(),
            txs == block@.transactions,
            forall|k: int| 0 <= k < i ==> !spends(#[trigger] txs[k], coinid),
        decreases block.transactions.len() - i,
    {
        assert(txs[i as int] == block.transactions@[i as int]@);
        if has_input(&block.transactions[i].inputs, coinid) {
            proof {
                assert(is_first_spender(txs, coinid, i as int));
                let chosen = spender_position(txs, coinid)->Some_0;
                assert(is_first_spender(txs, coinid, chosen));
                if chosen < i {
                    assert(!spends(txs[chosen], coinid));
                } else if i < chosen {
                    assert(!spends(txs[i as int], coinid));
                }
            }
            return Some(&block.transactions[i]);
        }
        i = i + 1;
    }
    proof {
        if exists|k: int| is_first_spender(txs, coinid, k) {
            let k = choose|k: int| is_first_spender(txs, coinid, k);
            assert(!spends(txs[k], coinid));
        }
    }
    None
}

/// Why a crawl could not be put together from what the ledger returned.
#[derive(Clone, Copy, Debug, PartialEq, Eq, Structural)]
pub enum CrawlError {
    /// The block at the spend height holds no transaction that spends the
    /// coin: the ledger contradicts itself.
    SpenderMissing,
    /// The coin data handed over do not match the inputs one for one.
    InputCountMismatch,
    /// The spenders handed over do not match the outputs one for one.
    OutputCountMismatch,
    /// The transaction has more outputs than a coin index can name.
    TooManyOutputs,
    /// The ledger does not hold an input as spent by the transaction.
    NotSpentHere,
    /// The ledger returned a transaction with another hash than the one
    /// that was asked for.
    HashMismatch,
}

/// Whether a coin is gone at a height, from what the ledger returned for
/// the coin at that height. It is assumed that the coin existed before.
pub fn is_spent(coin: &Option<CoinDataHeight>) -> (gone: bool)
    ensures
        gone == (coin is None),
{
    coin.is_none()
}

/// Who spent the coin, from the block at the height where it was spent.
pub open spec fn spender_in(block: BlockView, coinid: CoinID, height: BlockHeight) -> Result<
    (BlockHeight, TxHash),
    CrawlError,
> {
    match spender_position(block.transactions, coinid) {
        Some(i) => Ok((height, block.transactions[i].hash)),
        None => Err(CrawlError::SpenderMissing),
    }
}

/// Names the spend of a coin that the search placed at `height`: the hash
/// of the first transaction of `block`, the block at that height, whose
/// inputs include the coin. A block without such a transaction is an
/// inconsistency of the ledger and is reported as an error.
pub fn locate_spender(block: &Block, coinid: CoinID, height: BlockHeight) -> (spender: Result<
    (BlockHeight, TxHash),
    CrawlError,
>)
    ensures
        spender == spender_in(block@, coinid, height),
{
    match find_spending_transaction(block, coinid) {
        Some(tx) => Ok((height, tx.hash)),
        None => Err(CrawlError::SpenderMissing),
    }
}

/// A failed search for a spender: the ledger failed, or contradicted itself.
#[derive(Debug)]
pub enum SearchFailure<E> {
    Ledger(E),
    Inconsistent(CrawlError),
}

/// `get_block` can return, for `height`, a block from which the spender of
/// the coin is located as `located`.
pub open spec fn located_by<E, G: Fn(BlockHeight) -> Result<Block, E>>(
    get_block: G,
    coinid: CoinID,
    height: BlockHeight,
    located: Result<(BlockHeight, TxHash), CrawlError>,
) -> bool {
    exists|block: Block|
        #[trigger] call_ensures(get_block, (height,), Ok::<Block, E>(block)) && spender_in(
            block@,
            coinid,
            height,
        ) == located
}

/// The search for the spender of a coin can fail with `e`: the search
/// for the height can, or the search ends at a height whose block cannot
/// be had.
pub open spec fn spender_search_fails<
    E,
    F: Fn(BlockHeight) -> Result<bool, E>,
    G: Fn(BlockHeight) -> Result<Block, E>,
>(is_spent: F, get_block: G, low: BlockHeight, high: BlockHeight, e: E) -> bool {
    ||| fails_with(is_spent, low, high, e)
    ||| exists|height: u64|
        low <= height <= high && search_ends(is_spent, low, high, Some(height))
            && #[trigger] call_ensures(get_block, (height,), Err::<Block, E>(e))
}

/// The search for the spender of a coin can end at a height whose block
/// does not name a spender.
pub open spec fn spender_search_lost<
    E,
    F: Fn(BlockHeight) -> Result<bool, E>,
    G: Fn(BlockHeight) -> Result<Block, E>,
>(
    is_spent: F,
    get_block: G,
    coinid: CoinID,
    low: BlockHeight,
    high: BlockHeight,
    e: CrawlError,
) -> bool {
    exists|height: u64|
        low <= height <= high && search_ends(is_spent, low, high, Some(height))
            && #[trigger] located_by(get_block, coinid, height, Err(e))
}

/// Finds where and by which transaction a coin was spent within
/// `[low, high]`: the height by [`find_spending_height`], the transaction
/// from the block that `get_block` returns for that height. Nothing is
/// asked about a height outside the range.
pub fn find_spend_within_range<
    E,
    F: Fn(BlockHeight) -> Result<bool, E>,
    G: Fn(BlockHeight) -> Result<Block, E>,
>(coinid: CoinID, low: BlockHeight, high: BlockHeight, is_spent: F, get_block: G) -> (found: Result<
    Option<(BlockHeight, TxHash)>,
    SearchFailure<E>,
>)
    requires
        forall|height: u64| low <= height <= high ==> call_requires(is_spent, (height,)),
        forall|height: u64| low <= height <= high ==> call_requires(get_block, (height,)),
    ensures
        high < low ==> found matches Ok(None),
        found matches Ok(None) ==> search_ends(is_spent, low, high, None),
        found matches Ok(Some(spender)) ==> {
            &&& low <= spender.0 <= high
            &&& search_ends(is_spent, low, high, Some(spender.0))
            &&& located_by(get_block, coinid, spender.0, Ok(spender))
        },
        found matches Err(SearchFailure::Inconsistent(e)) ==> e == CrawlError::SpenderMissing
            && spender_search_lost(is_spent, get_block, coinid, low, high, e),
        found matches Err(SearchFailure::Ledger(e)) ==> spender_search_fails(
            is_spent,
            get_block,
            low,
            high,
            e,
        ),
{
    let height = match find_spending_height(low, high, is_spent) {
        Err(e) => {
            return Err(SearchFailure::Ledger(e));
        },
        Ok(None) => {
            return Ok(None);
        },
        Ok(Some(height)) => height,
    };
    let block = match get_block(height) {
        Err(e) => {
            assert(call_ensures(get_block, (height,), Err::<Block, E>(e)));
            return Err(SearchFailure::Ledger(e));
        },
        Ok(block) => block,
    };
    assert(call_ensures(get_block, (height,), Ok::<Block, E>(block)));
    match locate_spender(&block, coinid, height) {
        Ok(spender) => {
            assert(spender.0 == height);
            assert(located_by(get_block, coinid, height, Ok(spender)));
            Ok(Some(spender))
        },
        Err(e) => {
            assert(located_by(get_block, coinid, height, Err(e)));
            Err(SearchFailure::Inconsistent(e))
        },
    }
}

/// One coin around a transaction: what it holds, where it was created,
/// and where and by which transaction it was spent, if it was.
#[derive(Debug)]
pub struct CrawlItem {
    pub coinid: CoinID,
    pub coindata: CoinData,
    pub coinheight: BlockHeight,
    pub spender: Option<(BlockHeight, TxHash)>,
}

/// Mathematical value of a [`CrawlItem`].
pub struct CrawlItemView {
    pub coinid: CoinID,
    pub coindata: CoinDataView,
    pub coinheight: BlockHeight,
    pub spender: Option<(BlockHeight, TxHash)>,
}

impl View for CrawlItem {
    type V = CrawlItemView;

    open spec fn view(&self) -> CrawlItemView {
        CrawlItemView {
            coinid: self.coinid,
            coindata: self.coindata@,
            coinheight: self.coinheight,
            spender: self.spender,
        }
    }
}

impl DeepView for CrawlItem {
    type V = CrawlItemView;

    open spec fn deep_view(&self) -> CrawlItemView {
        self@
    }
}

/// A crawl of coin activity around one transaction: the coins that it
/// spent, then the coins that it created.
#[derive(Debug)]
pub struct CoinCrawl {
    pub crawls: Vec<CrawlItem>,
}

impl View for CoinCrawl {
    type V = Seq<CrawlItemView>;

    open spec fn view(&self) -> Seq<CrawlItemView> {
        self.crawls.deep_view()
    }
}

/// The item of the input at place `i`: the coin as it was before the
/// transaction spent it, spent by this transaction at this height.
pub open spec fn input_item(
    height: BlockHeight,
    tx: TransactionView,
    spent_inputs: Seq<CoinDataHeightView>,
    i: int,
) -> CrawlItemView {
    CrawlItemView {
        coinid: tx.inputs[i],
        coindata: spent_inputs[i].coin_data,
        coinheight: spent_inputs[i].height,
        spender: Some((height, tx.hash)),
    }
}

/// The item of the output at place `i`: the coin created at this height,
/// with the spender that the search found for it.
pub open spec fn output_item(
    height: BlockHeight,
    tx: TransactionView,
    output_spenders: Seq<Option<(BlockHeight, TxHash)>>,
    i: int,
) -> CrawlItemView {
    CrawlItemView {
        coinid: CoinID { txhash: tx.hash, index: i as u8 },
        coindata: tx.outputs[i],
        coinheight: height,
        spender: output_spenders[i],
    }
}

/// The items of a crawl: one per input, then one per output.
pub open spec fn crawl_items(
    height: BlockHeight,
    tx: TransactionView,
    spent_inputs: Seq<CoinDataHeightView>,
    output_spenders: Seq<Option<(BlockHeight, TxHash)>>,
) -> Seq<CrawlItemView> {
    Seq::new(
        tx.inputs.len(),
        |i: int| input_item(height, tx, spent_inputs, i),
    ) + Seq::new(tx.outputs.len(), |i: int| output_item(height, tx, output_spenders, i))
}

/// What [`CoinCrawl::assemble`] returns.
pub open spec fn assembled_crawl(
    height: BlockHeight,
    tx: TransactionView,
    spent_inputs: Seq<CoinDataHeightView>,
    output_spenders: Seq<Option<(BlockHeight, TxHash)>>,
) -> Result<Seq<CrawlItemView>, CrawlError> {
    if spent_inputs.len() != tx.inputs.len() {
        Err(CrawlError::InputCountMismatch)
    } else if output_spenders.len() != tx.outputs.len() {
        Err(CrawlError::OutputCountMismatch)
    } else if tx.outputs.len() > 256 {
        Err(CrawlError::TooManyOutputs)
    } else {
        Ok(crawl_items(height, tx, spent_inputs, output_spenders))
    }
}

/// The coin that the output at place `index` of a transaction creates.
pub fn output_coinid(txhash: TxHash, index: u8) -> (coinid: CoinID)
    ensures
        coinid == (CoinID { txhash, index }),
{
    CoinID { txhash, index }
}

impl CoinCrawl {
    /// Puts the crawl around `transaction`, found at `height`, together:
    /// `spent_inputs` holds, input by input, the coin as it was before
    /// the transaction spent it; `output_spenders` holds, output by
    /// output, where the created coin was spent, if it was.
    pub fn assemble(
        height: BlockHeight,
        transaction: Transaction,
        spent_inputs: Vec<CoinDataHeight>,
        output_spenders: Vec<Option<(BlockHeight, TxHash)>>,
    ) -> (crawl: Result<CoinCrawl, CrawlError>)
        ensures
            match assembled_crawl(
                height,
                transaction@,
                spent_inputs.deep_view(),
                output_spenders@,
            ) {
                Ok(items) => crawl matches Ok(c) && c@ == items,
                Err(e) => crawl matches Err(f) && f == e,
            },
    {
        if spent_inputs.len() != transaction.inputs.len() {
            return Err(CrawlError::InputCountMismatch);
        }
        if output_spenders.len() != transaction.outputs.len() {
            return Err(CrawlError::OutputCountMismatch);
        }
        if transaction.outputs.len() > 256 {
            return Err(CrawlError::TooManyOutputs);
        }
        let ghost tx = transaction@;
        let ghost inputs = spent_inputs.deep_view();
        let ghost items = crawl_items(height, tx, inputs, output_spenders@);
        let txhash = transaction.hash;
        let mut crawls: Vec<CrawlItem> = Vec::new();
        let mut place: usize = 0;
        let input_count = transaction.inputs.len();
        for spent in it: spent_inputs.into_iter()
            invariant
                it.seq() == spent_inputs@,
                spent_inputs@.len() == input_count,
                inputs == spent_inputs.deep_view(),
                place == it.index(),
                tx == transaction@,
                txhash == tx.hash,
                spent_inputs@.len() == transaction.inputs@.len(),
                crawls@.len() == place,
                forall|k: int|
                    0 <= k < place ==> (#[trigger] crawls@[k])@ == input_item(height, tx, inputs, k),
        {
            assert(inputs[place as int] == spent@);
            crawls.push(
                CrawlItem {
                    coinid: transaction.inputs[place],
                    coindata: spent.coin_data,
                    coinheight: spent.height,
                    spender: Some((height, txhash)),
                },
            );
            place = place + 1;
        }
        let ghost n = tx.inputs.len() as int;
        let mut index: usize = 0;
        for output in it: transaction.outputs.into_iter()
            invariant
                it.seq() == transaction.outputs@,
                index == it.index(),
                tx == transaction@,
                txhash == tx.hash,
                n == tx.inputs.len(),
                output_spenders@.len() == transaction.outputs@.len(),
                transaction.outputs@.len() <= 256,
                crawls@.len() == n + index,
                forall|k: int|
                    0 <= k < n ==> (#[trigger] crawls@[k])@ == input_item(height, tx, inputs, k),
                forall|k: int|
                    0 <= k < index ==> (#[trigger] crawls@[n + k])@ == output_item(
                        height,
                        tx,
                        output_spenders@,
                        k,
                    ),
        {
            assert(tx.outputs[index as int] == output@);
            crawls.push(
                CrawlItem {
                    coinid: output_coinid(txhash, index as u8),
                    coindata: output,
                    coinheight: height,
                    spender: output_spenders[index],
                },
            );
            index = index + 1;
        }
        let crawl = CoinCrawl { crawls };
        proof {
            assert forall|k: int| 0 <= k < items.len() implies crawl@[k] == items[k] by {
                if k < n {
                    assert(crawl@[k] == crawls@[k]@);
                } else {
                    assert(crawl@[k] == crawls@[n + (k - n)]@);
                }
            }
            assert(crawl@ =~= items);
        }
        Ok(crawl)
    }

    /// Whether the crawl may be kept for later requests: only where every
    /// coin in it has a spender, for an unspent coin may be spent by a
    /// later block, and a kept crawl would then be out of date.
    pub fn is_cacheable(&self) -> (cacheable: bool)
        ensures
            cacheable == (forall|i: int| 0 <= i < self@.len() ==> (#[trigger] self@[i]).spender is Some),
    {
        let mut i: usize = 0;
        while i < self.crawls.len()
            invariant
                i <= self.crawls.len(),
                forall|k: int| 0 <= k < i ==> (#[trigger] self@[k]).spender is Some,
            decreases self.crawls.len() - i,
        {
            if self.crawls[i].spender.is_none() {
                assert(self@[i as int] == self.crawls@[i as int]@);
                return false;
            }
            assert(self@[i as int] == self.crawls@[i as int]@);
            i = i + 1;
        }
        true
    }
}

/// `oracle` agrees with every answer that `is_spent` can give for the coin
/// at a height in `[low, high]`.
pub open spec fn answers_for<E, X: Fn(CoinID, BlockHeight) -> Result<bool, E>>(
    is_spent: X,
    coinid: CoinID,
    low: BlockHeight,
    high: BlockHeight,
    oracle: spec_fn(u64) -> bool,
) -> bool {
    forall|height: u64, gone: bool|
        low <= height <= high && call_ensures(is_spent, (coinid, height), Ok(gone)) ==> gone
            == oracle(height)
}

/// The search for the spend of the coin over `[low, high]` ends at
/// `found`, whatever `is_spent` answers for the coin within the range.
pub open spec fn search_ends_for<E, X: Fn(CoinID, BlockHeight) -> Result<bool, E>>(
    is_spent: X,
    coinid: CoinID,
    low: BlockHeight,
    high: BlockHeight,
    found: Option<BlockHeight>,
) -> bool {
    forall|oracle: spec_fn(u64) -> bool|
        answers_for(is_spent, coinid, low, high, oracle) ==> #[trigger] spend_height(
            low,
            high,
            oracle,
        ) == found
}

/// `spender` is what the search for the spend of the coin within
/// `[low, high]` finds, given what the ledger can answer.
pub open spec fn spender_found<
    E,
    X: Fn(CoinID, BlockHeight) -> Result<bool, E>,
    B: Fn(BlockHeight) -> Result<Block, E>,
>(
    is_spent: X,
    get_block: B,
    coinid: CoinID,
    low: BlockHeight,
    high: BlockHeight,
    spender: Option<(BlockHeight, TxHash)>,
) -> bool {
    match spender {
        None => search_ends_for(is_spent, coinid, low, high, None),
        Some(found) => {
            &&& low <= found.0 <= high
            &&& search_ends_for(is_spent, coinid, low, high, Some(found.0))
            &&& located_by(get_block, coinid, found.0, Ok(found))
        },
    }
}

/// The search for the spender of the coin can end at a height whose block
/// names no spender.
pub open spec fn spender_lost<
    E,
    X: Fn(CoinID, BlockHeight) -> Result<bool, E>,
    B: Fn(BlockHeight) -> Result<Block, E>,
>(is_spent: X, get_block: B, coinid: CoinID, low: BlockHeight, high: BlockHeight) -> bool {
    exists|at: u64|
        low <= at <= high && search_ends_for(is_spent, coinid, low, high, Some(at))
            && #[trigger] located_by(get_block, coinid, at, Err(CrawlError::SpenderMissing))
}

/// The search for the spender of the coin can fail with `e`: a question
/// about the coin within the range can, or the search ends at a height
/// whose block cannot be had.
pub open spec fn search_fails_for<
    E,
    X: Fn(CoinID, BlockHeight) -> Result<bool, E>,
    B: Fn(BlockHeight) -> Result<Block, E>,
>(is_spent: X, get_block: B, coinid: CoinID, low: BlockHeight, high: BlockHeight, e: E) -> bool {
    ||| exists|at: u64|
        low <= at <= high && #[trigger] call_ensures(is_spent, (coinid, at), Err::<bool, E>(e))
    ||| exists|at: u64|
        low <= at <= high && search_ends_for(is_spent, coinid, low, high, Some(at))
            && #[trigger] call_ensures(get_block, (at,), Err::<Block, E>(e))
}

/// The ledger can return `spent` as the coin that was spent.
pub open spec fn input_found<E, S: Fn(CoinID) -> Result<Option<CoinDataHeight>, E>>(
    get_coin_spent_here: S,
    input: CoinID,
    spent: CoinDataHeightView,
) -> bool {
    exists|coin: CoinDataHeight|
        #[trigger] call_ensures(get_coin_spent_here, (input,), Ok(Some(coin))) && coin@ == spent
}

/// The ledger can return the coin data `spent` for the inputs, one for
/// one, as the coins that were spent.
pub open spec fn inputs_found<E, S: Fn(CoinID) -> Result<Option<CoinDataHeight>, E>>(
    get_coin_spent_here: S,
    inputs: Seq<CoinID>,
    spent: Seq<CoinDataHeightView>,
) -> bool {
    &&& spent.len() == inputs.len()
    &&& forall|i: int|
        0 <= i < inputs.len() ==> #[trigger] input_found(get_coin_spent_here, inputs[i], spent[i])
}

/// The ledger can answer that one of the inputs was not spent here.
pub open spec fn input_unspent<E, S: Fn(CoinID) -> Result<Option<CoinDataHeight>, E>>(
    get_coin_spent_here: S,
    inputs: Seq<CoinID>,
) -> bool {
    exists|i: int|
        0 <= i < inputs.len() && call_ensures(
            get_coin_spent_here,
            (#[trigger] inputs[i],),
            Ok::<Option<CoinDataHeight>, E>(None),
        )
}

/// The ledger can fail with `e` when asked for one of the inputs.
pub open spec fn input_fails<E, S: Fn(CoinID) -> Result<Option<CoinDataHeight>, E>>(
    get_coin_spent_here: S,
    inputs: Seq<CoinID>,
    e: E,
) -> bool {
    exists|i: int|
        0 <= i < inputs.len() && call_ensures(
            get_coin_spent_here,
            (#[trigger] inputs[i],),
            Err::<Option<CoinDataHeight>, E>(e),
        )
}

/// The ledger can return `tx` as the transaction `txhash` at `height`.
pub open spec fn fetched<E, T: Fn(BlockHeight, TxHash) -> Result<Option<Transaction>, E>>(
    get_transaction: T,
    height: BlockHeight,
    txhash: TxHash,
    tx: Transaction,
) -> bool {
    call_ensures(get_transaction, (height, txhash), Ok::<Option<Transaction>, E>(Some(tx)))
}

/// The transaction is the one that was asked for, and each of its outputs
/// can be named by a coin index.
pub open spec fn crawlable(tx: TransactionView, txhash: TxHash) -> bool {
    tx.hash == txhash && tx.outputs.len() <= 256
}

/// What stands against a crawl around a transaction that the ledger
/// returned for `txhash`: another hash, or more outputs than coin indexes.
pub open spec fn refusal_of(tx: TransactionView, txhash: TxHash) -> Option<CrawlError> {
    if tx.hash != txhash {
        Some(CrawlError::HashMismatch)
    } else if tx.outputs.len() > 256 {
        Some(CrawlError::TooManyOutputs)
    } else {
        None
    }
}

/// Why a transaction that the ledger returned for `txhash` is refused, if
/// it is: a crawl goes on only around a transaction that is not.
pub fn refusal(transaction: &Transaction, txhash: TxHash) -> (refused: Option<CrawlError>)
    ensures
        refused == refusal_of(transaction@, txhash),
        refused is None <==> crawlable(transaction@, txhash),
{
    if !(transaction.hash == txhash) {
        Some(CrawlError::HashMismatch)
    } else if transaction.outputs.len() > 256 {
        Some(CrawlError::TooManyOutputs)
    } else {
        None
    }
}

/// The crawl `items` is what the ledger's answers give for the
/// transaction `txhash` at `height`.
pub open spec fn crawl_found<
    E,
    T: Fn(BlockHeight, TxHash) -> Result<Option<Transaction>, E>,
    S: Fn(CoinID) -> Result<Option<CoinDataHeight>, E>,
    L: Fn(()) -> Result<BlockHeight, E>,
    X: Fn(CoinID, BlockHeight) -> Result<bool, E>,
    B: Fn(BlockHeight) -> Result<Block, E>,
>(
    height: BlockHeight,
    txhash: TxHash,
    get_transaction: T,
    get_coin_spent_here: S,
    latest: L,
    is_spent: X,
    get_block: B,
    items: Seq<CrawlItemView>,
) -> bool {
    exists|
        tx: Transaction,
        tip: BlockHeight,
        spent: Seq<CoinDataHeightView>,
        spenders: Seq<Option<(BlockHeight, TxHash)>>,
    |
        {
            &&& #[trigger] fetched(get_transaction, height, txhash, tx)
            &&& crawlable(tx@, txhash)
            &&& #[trigger] call_ensures(latest, ((),), Ok::<BlockHeight, E>(tip))
            &&& inputs_found(get_coin_spent_here, tx@.inputs, spent)
            &&& spenders.len() == tx@.outputs.len()
            &&& forall|i: int|
                0 <= i < spenders.len() ==> spender_found(
                    is_spent,
                    get_block,
                    CoinID { txhash, index: i as u8 },
                    height,
                    tip,
                    #[trigger] spenders[i],
                )
            &&& #[trigger] assembled_crawl(height, tx@, spent, spenders) == Ok::<
                Seq<CrawlItemView>,
                CrawlError,
            >(items)
        }
}

/// The search for the spender of one of the first `outputs` outputs of
/// the transaction can end at a height whose block names no spender.
pub open spec fn output_lost<
    E,
    X: Fn(CoinID, BlockHeight) -> Result<bool, E>,
    B: Fn(BlockHeight) -> Result<Block, E>,
>(
    is_spent: X,
    get_block: B,
    txhash: TxHash,
    outputs: nat,
    low: BlockHeight,
    high: BlockHeight,
) -> bool {
    exists|index: u8|
        index < outputs && #[trigger] spender_lost(
            is_spent,
            get_block,
            CoinID { txhash, index },
            low,
            high,
        )
}

/// The search for the spender of one of the first `outputs` outputs of
/// the transaction can fail with `e`.
pub open spec fn output_fails<
    E,
    X: Fn(CoinID, BlockHeight) -> Result<bool, E>,
    B: Fn(BlockHeight) -> Result<Block, E>,
>(
    is_spent: X,
    get_block: B,
    txhash: TxHash,
    outputs: nat,
    low: BlockHeight,
    high: BlockHeight,
    e: E,
) -> bool {
    exists|index: u8|
        index < outputs && #[trigger] search_fails_for(
            is_spent,
            get_block,
            CoinID { txhash, index },
            low,
            high,
            e,
        )
}

/// After the transaction `tx` was had, the ledger can fail with `e`: when
/// asked for an input, for the tip, or in the search for the spender of
/// an output.
pub open spec fn fails_after<
    E,
    S: Fn(CoinID) -> Result<Option<CoinDataHeight>, E>,
    L: Fn(()) -> Result<BlockHeight, E>,
    X: Fn(CoinID, BlockHeight) -> Result<bool, E>,
    B: Fn(BlockHeight) -> Result<Block, E>,
>(
    tx: TransactionView,
    height: BlockHeight,
    get_coin_spent_here: S,
    latest: L,
    is_spent: X,
    get_block: B,
    e: E,
) -> bool {
    ||| input_fails(get_coin_spent_here, tx.inputs, e)
    ||| call_ensures(latest, ((),), Err::<BlockHeight, E>(e))
    ||| exists|tip: BlockHeight|
        #[trigger] call_ensures(latest, ((),), Ok::<BlockHeight, E>(tip)) && output_fails(
            is_spent,
            get_block,
            tx.hash,
            tx.outputs.len(),
            height,
            tip,
            e,
        )
}

/// The crawl around the transaction `txhash` at `height` can fail with
/// `failure`, given what the ledger can answer.
///
/// - The ledger's own failure is handed on from the question that failed.
/// - `HashMismatch`: the ledger returned a transaction with another hash.
/// - `TooManyOutputs`: the transaction has more than 256 outputs.
/// - `NotSpentHere`: the ledger does not hold an input as spent here.
/// - `SpenderMissing`: the search for the spender of an output ended at a
///   height whose block names no spender.
/// - The two errors of mismatched counts do not arise.
pub open spec fn crawl_failed<
    E,
    T: Fn(BlockHeight, TxHash) -> Result<Option<Transaction>, E>,
    S: Fn(CoinID) -> Result<Option<CoinDataHeight>, E>,
    L: Fn(()) -> Result<BlockHeight, E>,
    X: Fn(CoinID, BlockHeight) -> Result<bool, E>,
    B: Fn(BlockHeight) -> Result<Block, E>,
>(
    height: BlockHeight,
    txhash: TxHash,
    get_transaction: T,
    get_coin_spent_here: S,
    latest: L,
    is_spent: X,
    get_block: B,
    failure: SearchFailure<E>,
) -> bool {
    match failure {
        SearchFailure::Ledger(e) => {
            ||| call_ensures(get_transaction, (height, txhash), Err::<Option<Transaction>, E>(e))
            ||| exists|tx: Transaction|
                #[trigger] fetched(get_transaction, height, txhash, tx) && crawlable(tx@, txhash)
                    && fails_after(tx@, height, get_coin_spent_here, latest, is_spent, get_block, e)
        },
        SearchFailure::Inconsistent(CrawlError::HashMismatch) => exists|tx: Transaction|
            #[trigger] fetched(get_transaction, height, txhash, tx) && tx@.hash != txhash,
        SearchFailure::Inconsistent(CrawlError::TooManyOutputs) => exists|tx: Transaction|
            #[trigger] fetched(get_transaction, height, txhash, tx) && tx@.hash == txhash
                && tx@.outputs.len() > 256,
        SearchFailure::Inconsistent(CrawlError::NotSpentHere) => exists|tx: Transaction|
            #[trigger] fetched(get_transaction, height, txhash, tx) && crawlable(tx@, txhash)
                && input_unspent(get_coin_spent_here, tx@.inputs),
        SearchFailure::Inconsistent(CrawlError::SpenderMissing) => exists|
            tx: Transaction,
            tip: BlockHeight,
        |
            #[trigger] fetched(get_transaction, height, txhash, tx) && crawlable(tx@, txhash)
                && #[trigger] call_ensures(latest, ((),), Ok::<BlockHeight, E>(tip)) && output_lost(
                is_spent,
                get_block,
                txhash,
                tx@.outputs.len(),
                height,
                tip,
            ),
        SearchFailure::Inconsistent(CrawlError::InputCountMismatch) => false,
        SearchFailure::Inconsistent(CrawlError::OutputCountMismatch) => false,
    }
}

/// The ledger can answer that it holds no transaction `txhash` at
/// `height`.
pub open spec fn absent<E, T: Fn(BlockHeight, TxHash) -> Result<Option<Transaction>, E>>(
    get_transaction: T,
    height: BlockHeight,
    txhash: TxHash,
) -> bool {
    call_ensures(get_transaction, (height, txhash), Ok::<Option<Transaction>, E>(None))
}

/// The ledger holds no transaction `txhash` at `height`: it can only
/// answer so.
pub open spec fn surely_absent<E, T: Fn(BlockHeight, TxHash) -> Result<Option<Transaction>, E>>(
    get_transaction: T,
    height: BlockHeight,
    txhash: TxHash,
) -> bool {
    forall|answer: Result<Option<Transaction>, E>|
        #[trigger] call_ensures(get_transaction, (height, txhash), answer) ==> answer == Ok::<
            Option<Transaction>,
            E,
        >(None)
}

/// Every question of a crawl around the transaction `txhash` at `height`
/// may be put to the ledger: the one for the transaction; for a
/// transaction that can come back, the one for each of its inputs; the
/// one for the tip; and for a tip that can come back, the one for each
/// output of the transaction at each height from `height` to the tip,
/// and the one for the block at each of these heights.
pub open spec fn may_ask<
    E,
    T: Fn(BlockHeight, TxHash) -> Result<Option<Transaction>, E>,
    S: Fn(CoinID) -> Result<Option<CoinDataHeight>, E>,
    L: Fn(()) -> Result<BlockHeight, E>,
    X: Fn(CoinID, BlockHeight) -> Result<bool, E>,
    B: Fn(BlockHeight) -> Result<Block, E>,
>(
    height: BlockHeight,
    txhash: TxHash,
    get_transaction: T,
    get_coin_spent_here: S,
    latest: L,
    is_spent: X,
    get_block: B,
) -> bool {
    &&& call_requires(get_transaction, (height, txhash))
    &&& forall|tx: Transaction, i: int|
        fetched(get_transaction, height, txhash, tx) && 0 <= i < tx@.inputs.len()
            ==> call_requires(get_coin_spent_here, (#[trigger] tx@.inputs[i],))
    &&& call_requires(latest, ((),))
    &&& forall|tx: Transaction, index: u8, tip: BlockHeight, at: BlockHeight|
        #![trigger
            fetched(get_transaction, height, txhash, tx),
            call_ensures(latest, ((),), Ok::<BlockHeight, E>(tip)),
            call_requires(is_spent, (CoinID { txhash, index }, at)),
        ]
        fetched(get_transaction, height, txhash, tx) && index < tx@.outputs.len() && call_ensures(
            latest,
            ((),),
            Ok::<BlockHeight, E>(tip),
        ) && height <= at <= tip ==> call_requires(is_spent, (CoinID { txhash, index }, at))
    &&& forall|tip: BlockHeight, at: BlockHeight|
        #![trigger
            call_ensures(latest, ((),), Ok::<BlockHeight, E>(tip)),
            call_requires(get_block, (at,)),
        ]
        call_ensures(latest, ((),), Ok::<BlockHeight, E>(tip)) && height <= at <= tip
            ==> call_requires(get_block, (at,))
}

/// The ledger answers every question of a crawl around the transaction
/// `txhash` at `height`, and contradicts itself nowhere: it has the
/// transaction, under its hash and with no more outputs than coin
/// indexes; it has each input as spent here; it tells the tip; from
/// `height` to the tip it tells whether each output is spent at a height,
/// and has the block of each height; and the block where the search for
/// an output's spender ends names the spender.
pub open spec fn ledger_answers<
    E,
    T: Fn(BlockHeight, TxHash) -> Result<Option<Transaction>, E>,
    S: Fn(CoinID) -> Result<Option<CoinDataHeight>, E>,
    L: Fn(()) -> Result<BlockHeight, E>,
    X: Fn(CoinID, BlockHeight) -> Result<bool, E>,
    B: Fn(BlockHeight) -> Result<Block, E>,
>(
    height: BlockHeight,
    txhash: TxHash,
    get_transaction: T,
    get_coin_spent_here: S,
    latest: L,
    is_spent: X,
    get_block: B,
) -> bool {
    &&& forall|answer: Result<Option<Transaction>, E>| #[trigger]
        call_ensures(get_transaction, (height, txhash), answer) ==> (answer matches Ok(Some(tx))
            && crawlable(tx@, txhash))
    &&& forall|tx: Transaction, i: int, answer: Result<Option<CoinDataHeight>, E>|
        fetched(get_transaction, height, txhash, tx) && 0 <= i < tx@.inputs.len()
            && #[trigger] call_ensures(get_coin_spent_here, (tx@.inputs[i],), answer)
            ==> (answer matches Ok(found) && found is Some)
    &&& forall|answer: Result<BlockHeight, E>| #[trigger]
        call_ensures(latest, ((),), answer) ==> answer is Ok
    &&& forall|tx: Transaction, index: u8, tip: BlockHeight, at: BlockHeight, answer: Result<bool, E>|
        #![trigger
            fetched(get_transaction, height, txhash, tx),
            call_ensures(latest, ((),), Ok::<BlockHeight, E>(tip)),
            call_ensures(is_spent, (CoinID { txhash, index }, at), answer),
        ]
        fetched(get_transaction, height, txhash, tx) && index < tx@.outputs.len() && call_ensures(
            latest,
            ((),),
            Ok::<BlockHeight, E>(tip),
        ) && height <= at <= tip && call_ensures(is_spent, (CoinID { txhash, index }, at), answer)
            ==> answer is Ok
    &&& forall|tip: BlockHeight, at: BlockHeight, answer: Result<Block, E>|
        #![trigger
            call_ensures(latest, ((),), Ok::<BlockHeight, E>(tip)),
            call_ensures(get_block, (at,), answer),
        ]
        call_ensures(latest, ((),), Ok::<BlockHeight, E>(tip)) && height <= at <= tip
            && call_ensures(get_block, (at,), answer) ==> answer is Ok
    &&& forall|tx: Transaction, index: u8, tip: BlockHeight, at: BlockHeight|
        #![trigger
            fetched(get_transaction, height, txhash, tx),
            search_ends_for(is_spent, CoinID { txhash, index }, height, tip, Some(at)),
        ]
        fetched(get_transaction, height, txhash, tx) && index < tx@.outputs.len() && call_ensures(
            latest,
            ((),),
            Ok::<BlockHeight, E>(tip),
        ) && search_ends_for(is_spent, CoinID { txhash, index }, height, tip, Some(at))
            ==> !located_by(
            get_block,
            CoinID { txhash, index },
            at,
            Err(CrawlError::SpenderMissing),
        )
}

/// A crawl cannot fail where the ledger answers every question and
/// contradicts itself nowhere.
pub proof fn lemma_crawl_cannot_fail<
    E,
    T: Fn(BlockHeight, TxHash) -> Result<Option<Transaction>, E>,
    S: Fn(CoinID) -> Result<Option<CoinDataHeight>, E>,
    L: Fn(()) -> Result<BlockHeight, E>,
    X: Fn(CoinID, BlockHeight) -> Result<bool, E>,
    B: Fn(BlockHeight) -> Result<Block, E>,
>(
    height: BlockHeight,
    txhash: TxHash,
    get_transaction: T,
    get_coin_spent_here: S,
    latest: L,
    is_spent: X,
    get_block: B,
    failure: SearchFailure<E>,
)
    requires
        ledger_answers(
            height,
            txhash,
            get_transaction,
            get_coin_spent_here,
            latest,
            is_spent,
            get_block,
        ),
    ensures
        !crawl_failed(
            height,
            txhash,
            get_transaction,
            get_coin_spent_here,
            latest,
            is_spent,
            get_block,
            failure,
        ),
{
}

impl CoinCrawl {
    /// Creates a coin crawl surrounding the transaction `txhash` at
    /// `height`, asking the ledger through the five questions given.
    ///
    /// The transaction is fetched. Where the ledger holds none, there is
    /// no crawl, which is no failure. A transaction with another hash, or
    /// with more outputs than coin indexes, is refused. Each of its
    /// inputs was spent by it at this height: the coin as it was is
    /// fetched. Each of its outputs was created at this height: its
    /// spender is searched for between this height and the tip of the
    /// chain, both included.
    /// The first failure of the ledger ends the crawl and is returned, as
    /// is the first answer that contradicts the others. The crawl is
    /// returned where nothing fails and nothing contradicts.
    pub fn crawl<
        E,
        T: Fn(BlockHeight, TxHash) -> Result<Option<Transaction>, E>,
        S: Fn(CoinID) -> Result<Option<CoinDataHeight>, E>,
        L: Fn(()) -> Result<BlockHeight, E>,
        X: Fn(CoinID, BlockHeight) -> Result<bool, E>,
        B: Fn(BlockHeight) -> Result<Block, E>,
    >(
        height: BlockHeight,
        txhash: TxHash,
        get_transaction: T,
        get_coin_spent_here: S,
        latest: L,
        is_spent: X,
        get_block: B,
    ) -> (crawl: Result<Option<CoinCrawl>, SearchFailure<E>>)
        requires
            may_ask(
                height,
                txhash,
                get_transaction,
                get_coin_spent_here,
                latest,
                is_spent,
                get_block,
            ),
        ensures
            match crawl {
                Ok(Some(c)) => crawl_found(
                    height,
                    txhash,
                    get_transaction,
                    get_coin_spent_here,
                    latest,
                    is_spent,
                    get_block,
                    c@,
                ),
                Ok(None) => absent(get_transaction, height, txhash),
                Err(failure) => crawl_failed(
                    height,
                    txhash,
                    get_transaction,
                    get_coin_spent_here,
                    latest,
                    is_spent,
                    get_block,
                    failure,
                ),
            },
            surely_absent(get_transaction, height, txhash) ==> crawl matches Ok(None),
            ledger_answers(
                height,
                txhash,
                get_transaction,
                get_coin_spent_here,
                latest,
                is_spent,
                get_block,
            ) ==> crawl matches Ok(Some(_)),
    {
        let crawl = CoinCrawl::gather(
            height,
            txhash,
            get_transaction,
            get_coin_spent_here,
            latest,
            is_spent,
            get_block,
        );
        proof {
            if crawl is Err && ledger_answers(
                height,
                txhash,
                get_transaction,
                get_coin_spent_here,
                latest,
                is_spent,
                get_block,
            ) {
                lemma_crawl_cannot_fail(
                    height,
                    txhash,
                    get_transaction,
                    get_coin_spent_here,
                    latest,
                    is_spent,
                    get_block,
                    crawl->Err_0,
                );
            }
        }
        crawl
    }

    /// The steps of [`CoinCrawl::crawl`], one after the other.
    fn gather<
        E,
        T: Fn(BlockHeight, TxHash) -> Result<Option<Transaction>, E>,
        S: Fn(CoinID) -> Result<Option<CoinDataHeight>, E>,
        L: Fn(()) -> Result<BlockHeight, E>,
        X: Fn(CoinID, BlockHeight) -> Result<bool, E>,
        B: Fn(BlockHeight) -> Result<Block, E>,
    >(
        height: BlockHeight,
        txhash: TxHash,
        get_transaction: T,
        get_coin_spent_here: S,
        latest: L,
        is_spent: X,
        get_block: B,
    ) -> (crawl: Result<Option<CoinCrawl>, SearchFailure<E>>)
        requires
            may_ask(
                height,
                txhash,
                get_transaction,
                get_coin_spent_here,
                latest,
                is_spent,
                get_block,
            ),
        ensures
            match crawl {
                Ok(Some(c)) => crawl_found(
                    height,
                    txhash,
                    get_transaction,
                    get_coin_spent_here,
                    latest,
                    is_spent,
                    get_block,
                    c@,
                ),
                Ok(None) => absent(get_transaction, height, txhash),
                Err(failure) => crawl_failed(
                    height,
                    txhash,
                    get_transaction,
                    get_coin_spent_here,
                    latest,
                    is_spent,
                    get_block,
                    failure,
                ),
            },
            surely_absent(get_transaction, height, txhash) ==> crawl matches Ok(None),
    {
        let transaction = match get_transaction(height, txhash) {
            Err(e) => {
                return Err(SearchFailure::Ledger(e));
            },
            Ok(None) => {
                return Ok(None);
            },
            Ok(Some(transaction)) => transaction,
        };
        let ghost tx = transaction;
        assert(fetched(get_transaction, height, txhash, tx));
        if let Some(error) = refusal(&transaction, txhash) {
            return Err(SearchFailure::Inconsistent(error));
        }
        assert(crawlable(tx@, txhash));
        let mut spent_inputs: Vec<CoinDataHeight> = Vec::new();
        let mut i: usize = 0;
        while i < transaction.inputs.len()
            invariant
                i <= transaction.inputs.len(),
                tx == transaction,
                fetched(get_transaction, height, txhash, tx),
                crawlable(tx@, txhash),
                may_ask(
                    height,
                    txhash,
                    get_transaction,
                    get_coin_spent_here,
                    latest,
                    is_spent,
                    get_block,
                ),
                inputs_found(
                    get_coin_spent_here,
                    transaction.inputs@.take(i as int),
                    spent_inputs.deep_view(),
                ),
            decreases transaction.inputs.len() - i,
        {
            let ghost before = spent_inputs.deep_view();
            assert(tx@.inputs[i as int] == transaction.inputs@[i as int]);
            match get_coin_spent_here(transaction.inputs[i]) {
                Err(e) => {
                    proof {
                        assert(call_ensures(
                            get_coin_spent_here,
                            (tx@.inputs[i as int],),
                            Err::<Option<CoinDataHeight>, E>(e),
                        ));
                        assert(input_fails(get_coin_spent_here, tx@.inputs, e));
                        assert(fails_after(
                            tx@,
                            height,
                            get_coin_spent_here,
                            latest,
                            is_spent,
                            get_block,
                            e,
                        ));
                    }
                    return Err(SearchFailure::Ledger(e));
                },
                Ok(None) => {
                    proof {
                        assert(call_ensures(
                            get_coin_spent_here,
                            (tx@.inputs[i as int],),
                            Ok::<Option<CoinDataHeight>, E>(None),
                        ));
                        assert(input_unspent(get_coin_spent_here, tx@.inputs));
                    }
                    return Err(SearchFailure::Inconsistent(CrawlError::NotSpentHere));
                },
                Ok(Some(coin)) => {
                    assert(call_ensures(
                        get_coin_spent_here,
                        (transaction.inputs@[i as int],),
                        Ok::<Option<CoinDataHeight>, E>(Some(coin)),
                    ));
                    spent_inputs.push(coin);
                    proof {
                        let after = spent_inputs.deep_view();
                        let inputs = transaction.inputs@.take(i + 1);
                        assert forall|k: int| 0 <= k < inputs.len() implies #[trigger] input_found(
                            get_coin_spent_here,
                            inputs[k],
                            after[k],
                        ) by {
                            if k < i {
                                assert(inputs[k] == transaction.inputs@.take(i as int)[k]);
                                assert(after[k] == before[k]);
                                assert(input_found(
                                    get_coin_spent_here,
                                    transaction.inputs@.take(i as int)[k],
                                    before[k],
                                ));
                            } else {
                                assert(call_ensures(get_coin_spent_here, (inputs[k],), Ok(Some(coin))));
                                assert(after[k] == coin@);
                            }
                        }
                    }
                },
            }
            i = i + 1;
        }
        assert(transaction.inputs@.take(transaction.inputs@.len() as int) =~= transaction.inputs@);
        let tip = match latest(()) {
            Err(e) => {
                proof {
                    assert(call_ensures(latest, ((),), Err::<BlockHeight, E>(e)));
                    assert(fails_after(
                        tx@,
                        height,
                        get_coin_spent_here,
                        latest,
                        is_spent,
                        get_block,
                        e,
                    ));
                }
                return Err(SearchFailure::Ledger(e));
            },
            Ok(tip) => tip,
        };
        assert(call_ensures(latest, ((),), Ok::<BlockHeight, E>(tip)));
        let mut spenders: Vec<Option<(BlockHeight, TxHash)>> = Vec::new();
        let mut index: usize = 0;
        while index < transaction.outputs.len()
            invariant
                index <= transaction.outputs.len() <= 256,
                tx == transaction,
                fetched(get_transaction, height, txhash, tx),
                crawlable(tx@, txhash),
                call_ensures(latest, ((),), Ok::<BlockHeight, E>(tip)),
                may_ask(
                    height,
                    txhash,
                    get_transaction,
                    get_coin_spent_here,
                    latest,
                    is_spent,
                    get_block,
                ),
                spenders@.len() == index,
                forall|k: int|
                    0 <= k < index ==> spender_found(
                        is_spent,
                        get_block,
                        CoinID { txhash, index: k as u8 },
                        height,
                        tip,
                        #[trigger] spenders@[k],
                    ),
            decreases transaction.outputs.len() - index,
        {
            let place = index as u8;
            let coinid = output_coinid(transaction.hash, place);
            assert(coinid == (CoinID { txhash, index: place }));
            let asked = &is_spent;
            let probe = |at: BlockHeight| -> (gone: Result<bool, E>)
                requires
                    call_requires(asked, (coinid, at)),
                ensures
                    call_ensures(asked, (coinid, at), gone),
                { asked(coinid, at) };
            proof {
                assert forall|at: u64| height <= at <= tip implies call_requires(probe, (at,)) by {
                    assert(call_requires(is_spent, (CoinID { txhash, index: place }, at)));
                }
                assert forall|at: u64| height <= at <= tip implies call_requires(&get_block, (at,)) by {
                    assert(call_requires(get_block, (at,)));
                }
            }
            let searched = find_spend_within_range(coinid, height, tip, probe, &get_block);
            proof {
                assert forall|oracle: spec_fn(u64) -> bool|
                    answers_for(is_spent, coinid, height, tip, oracle) implies answers(
                    probe,
                    height,
                    tip,
                    oracle,
                ) by {
                    assert forall|at: u64, gone: bool|
                        height <= at <= tip && call_ensures(probe, (at,), Ok(gone)) implies gone
                        == oracle(at) by {
                        assert(call_ensures(is_spent, (coinid, at), Ok::<bool, E>(gone)));
                    }
                }
                assert forall|ended: Option<BlockHeight>|
                    search_ends(probe, height, tip, ended) implies #[trigger] search_ends_for(
                    is_spent,
                    coinid,
                    height,
                    tip,
                    ended,
                ) by {
                    assert forall|oracle: spec_fn(u64) -> bool|
                        answers_for(is_spent, coinid, height, tip, oracle) implies #[trigger] spend_height(
                        height,
                        tip,
                        oracle,
                    ) == ended by {
                        assert(answers(probe, height, tip, oracle));
                    }
                }
                assert forall|at: u64, located: Result<(BlockHeight, TxHash), CrawlError>|
                    located_by(&get_block, coinid, at, located) implies #[trigger] located_by(
                    get_block,
                    coinid,
                    at,
                    located,
                ) by {
                    let block = choose|block: Block|
                        #[trigger] call_ensures(&get_block, (at,), Ok::<Block, E>(block))
                            && spender_in(block@, coinid, at) == located;
                    assert(call_ensures(get_block, (at,), Ok::<Block, E>(block)));
                }
            }
            let found = match searched {
                Err(SearchFailure::Ledger(e)) => {
                    proof {
                        if fails_with(probe, height, tip, e) {
                            let at = choose|at: u64|
                                height <= at <= tip && #[trigger] call_ensures(
                                    probe,
                                    (at,),
                                    Err::<bool, E>(e),
                                );
                            assert(call_ensures(is_spent, (coinid, at), Err::<bool, E>(e)));
                        } else {
                            let at = choose|at: u64|
                                height <= at <= tip && search_ends(probe, height, tip, Some(at))
                                    && #[trigger] call_ensures(&get_block, (at,), Err::<Block, E>(e));
                            assert(search_ends_for(is_spent, coinid, height, tip, Some(at)));
                            assert(call_ensures(get_block, (at,), Err::<Block, E>(e)));
                        }
                        assert(search_fails_for(is_spent, get_block, coinid, height, tip, e));
                        assert(output_fails(
                            is_spent,
                            get_block,
                            txhash,
                            tx@.outputs.len(),
                            height,
                            tip,
                            e,
                        ));
                        assert(fails_after(
                            tx@,
                            height,
                            get_coin_spent_here,
                            latest,
                            is_spent,
                            get_block,
                            e,
                        ));
                    }
                    return Err(SearchFailure::Ledger(e));
                },
                Err(SearchFailure::Inconsistent(e)) => {
                    proof {
                        let at = choose|at: u64|
                            height <= at <= tip && search_ends(probe, height, tip, Some(at))
                                && #[trigger] located_by(&get_block, coinid, at, Err(e));
                        assert(search_ends_for(is_spent, coinid, height, tip, Some(at)));
                        assert(located_by(get_block, coinid, at, Err(CrawlError::SpenderMissing)));
                        assert(spender_lost(is_spent, get_block, coinid, height, tip));
                        assert(output_lost(
                            is_spent,
                            get_block,
                            txhash,
                            tx@.outputs.len(),
                            height,
                            tip,
                        ));
                    }
                    return Err(SearchFailure::Inconsistent(CrawlError::SpenderMissing));
                },
                Ok(found) => found,
            };
            proof {
                match found {
                    Some(f) => {
                        assert(search_ends_for(is_spent, coinid, height, tip, Some(f.0)));
                        assert(located_by(get_block, coinid, f.0, Ok(f)));
                    },
                    None => {
                        assert(search_ends_for(is_spent, coinid, height, tip, None));
                    },
                }
                assert(spender_found(is_spent, get_block, coinid, height, tip, found));
            }
            spenders.push(found);
            index = index + 1;
        }
        let ghost spent_views = spent_inputs.deep_view();
        let ghost spender_views = spenders@;
        match CoinCrawl::assemble(height, transaction, spent_inputs, spenders) {
            Err(_) => {
                assert(false);
                Err(SearchFailure::Inconsistent(CrawlError::SpenderMissing))
            },
            Ok(crawl) => {
                proof {
                    assert(assembled_crawl(height, tx@, spent_views, spender_views) == Ok::<
                        Seq<CrawlItemView>,
                        CrawlError,
                    >(crawl@));
                }
                Ok(Some(crawl))
            },
        }
    }
}

} // verus!
