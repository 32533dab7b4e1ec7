//! What a transaction took from and gave to each address, by denomination.

use vstd::prelude::*;
use crate::structs::{Address, CoinData, CoinDataView, Denom};
use crate::tally::{is_tally, keys_of, tally, tally_of, tally_overflows};

verus! {

/// An address and a denomination.
#[derive(Clone, Copy, Debug, Eq)]
pub struct FlowKey {
    pub address: Address,
    pub denom: Denom,
}

impl PartialEq for FlowKey {
    fn eq(&self, other: &Self) -> (r: bool) {
        self.address == other.address && self.denom == other.denom
    }
}

impl vstd::std_specs::cmp::PartialEqSpecImpl for FlowKey {
    open spec fn obeys_eq_spec() -> bool {
        true
    }

    open spec fn eq_spec(&self, other: &Self) -> bool {
        *self == *other
    }
}

/// An amount of a denomination that an address lost or gained.
#[derive(Clone, Copy, Debug, PartialEq, Eq)]
pub struct NetFlow {
    pub address: Address,
    pub denom: Denom,
    pub amount: u128,
}

/// What the addresses lost and gained in a transaction.
#[derive(Debug)]
pub struct TransactionFlows {
    pub net_loss: Vec<NetFlow>,
    pub net_gain: Vec<NetFlow>,
}

/// Some output has the denomination.
pub open spec fn is_output_denom(outputs: Seq<CoinDataView>, denom: Denom) -> bool {
    exists|i: int| 0 <= i < outputs.len() && (#[trigger] outputs[i]).denom == denom
}

/// What the outputs give, output by output.
pub open spec fn credits(outputs: Seq<CoinDataView>) -> Seq<(FlowKey, i128)> {
    Seq::new(
        outputs.len(),
        |i: int|
            (
                FlowKey { address: outputs[i].covhash, denom: outputs[i].denom },
                outputs[i].value as i128,
            ),
    )
}

/// What the inputs take, input by input. Only the denominations of the
/// outputs are looked at.
pub open spec fn debits(inputs: Seq<CoinDataView>, outputs: Seq<CoinDataView>) -> Seq<(FlowKey, i128)>
    decreases inputs.len(),
{
    if inputs.len() == 0 {
        Seq::empty()
    } else {
        let input = inputs.last();
        let earlier = debits(inputs.drop_last(), outputs);
        if is_output_denom(outputs, input.denom) {
            earlier.push(
                (
                    FlowKey { address: input.covhash, denom: input.denom },
                    (-(input.value as int)) as i128,
                ),
            )
        } else {
            earlier
        }
    }
}

/// What a transaction gives and takes: first what its outputs give, then
/// what its inputs take.
pub open spec fn flow_events(inputs: Seq<CoinDataView>, outputs: Seq<CoinDataView>) -> Seq<
    (FlowKey, i128),
> {
    credits(outputs) + debits(inputs, outputs)
}

/// Every value that is looked at fits in a signed number of 128 bits.
pub open spec fn flows_fit(inputs: Seq<CoinDataView>, outputs: Seq<CoinDataView>) -> bool {
    &&& forall|i: int| 0 <= i < outputs.len() ==> (#[trigger] outputs[i]).value <= i128::MAX
    &&& forall|i: int|
        0 <= i < inputs.len() && is_output_denom(outputs, (#[trigger] inputs[i]).denom)
            ==> inputs[i].value <= i128::MAX
    &&& !tally_overflows(flow_events(inputs, outputs))
}

/// The losses among the sums: the negative ones, as positive amounts.
pub open spec fn losses_of(sums: Seq<(FlowKey, i128)>) -> Seq<NetFlow>
    decreases sums.len(),
{
    if sums.len() == 0 {
        Seq::empty()
    } else {
        let (key, amount) = sums.last();
        let earlier = losses_of(sums.drop_last());
        if amount < 0 {
            earlier.push(NetFlow { address: key.address, denom: key.denom, amount: (-amount) as u128 })
        } else {
            earlier
        }
    }
}

/// The gains among the sums: the positive ones.
pub open spec fn gains_of(sums: Seq<(FlowKey, i128)>) -> Seq<NetFlow>
    decreases sums.len(),
{
    if sums.len() == 0 {
        Seq::empty()
    } else {
        let (key, amount) = sums.last();
        let earlier = gains_of(sums.drop_last());
        if amount > 0 {
            earlier.push(NetFlow { address: key.address, denom: key.denom, amount: amount as u128 })
        } else {
            earlier
        }
    }
}

/// `flows` tells what the addresses lost and gained in a transaction with
/// these inputs and outputs.
pub open spec fn tells_flows(
    inputs: Seq<CoinDataView>,
    outputs: Seq<CoinDataView>,
    flows: TransactionFlows,
) -> bool {
    exists|sums: Seq<(FlowKey, i128)>|
        {
            &&& #[trigger] is_tally(flow_events(inputs, outputs), sums)
            &&& flows.net_loss@ == losses_of(sums)
            &&& flows.net_gain@ == gains_of(sums)
        }
}

/// Whether some output has the denomination.
fn has_output_denom(outputs: &Vec<CoinData>, denom: Denom) -> (found: bool)
    ensures
        found == is_output_denom(outputs.deep_view(), denom),
{
    let ghost views = outputs.deep_view();
    let mut i: usize = 0;
    while i < outputs.len()
        invariant
            i <= outputs.len(),
            views == outputs.deep_view(),
            forall|k: int| 0 <= k < i ==> (#[trigger] views[k]).denom != denom,
        decreases outputs.len() - i,
    {
        assert(views[i as int] == outputs@[i as int]@);
        if outputs[i].denom == denom {
            return true;
        }
        i = i + 1;
    }
    false
}

/// The net flows of a transaction: for each address and each denomination
/// of the outputs, what the outputs gave to the address less what the
/// inputs took from it. `inputs` holds the coins that the transaction
/// spent. Addresses whose sum is zero are left out. `None` where a number
/// does not fit.
pub fn net_flows(inputs: &Vec<CoinData>, outputs: &Vec<CoinData>) -> (flows: Option<TransactionFlows>)
    ensures
        match flows {
            Some(f) => flows_fit(inputs.deep_view(), outputs.deep_view()) && tells_flows(
                inputs.deep_view(),
                outputs.deep_view(),
                f,
            ),
            None => !flows_fit(inputs.deep_view(), outputs.deep_view()),
        },
{
    let ghost ins = inputs.deep_view();
    let ghost outs = outputs.deep_view();
    let mut events: Vec<(FlowKey, i128)> = Vec::new();
    let mut i: usize = 0;
    while i < outputs.len()
        invariant
            i <= outputs.len(),
            outs == outputs.deep_view(),
            events@.len() == i,
            forall|k: int| 0 <= k < i ==> (#[trigger] outs[k]).value <= i128::MAX,
            forall|k: int| 0 <= k < i ==> events@[k] == credits(outs)[k],
        decreases outputs.len() - i,
    {
        assert(outs[i as int] == outputs@[i as int]@);
        if outputs[i].value > 0x7fff_ffff_ffff_ffff_ffff_ffff_ffff_ffffu128 {
            return None;
        }
        events.push(
            (
                FlowKey { address: outputs[i].covhash, denom: outputs[i].denom },
                outputs[i].value as i128,
            ),
        );
        i = i + 1;
    }
    assert(events@ =~= credits(outs));
    let mut j: usize = 0;
    assert(ins.take(0) =~= Seq::<CoinDataView>::empty());
    assert(credits(outs) + Seq::<(FlowKey, i128)>::empty() =~= credits(outs));
    while j < inputs.len()
        invariant
            j <= inputs.len(),
            ins == inputs.deep_view(),
            outs == outputs.deep_view(),
            forall|k: int| 0 <= k < outs.len() ==> (#[trigger] outs[k]).value <= i128::MAX,
            forall|k: int|
                0 <= k < j && is_output_denom(outs, (#[trigger] ins[k]).denom) ==> ins[k].value
                    <= i128::MAX,
            events@ == credits(outs) + debits(ins.take(j as int), outs),
        decreases inputs.len() - j,
    {
        assert(ins[j as int] == inputs@[j as int]@);
        assert(ins.take(j + 1).drop_last() =~= ins.take(j as int));
        assert(ins.take(j + 1).last() == ins[j as int]);
        if has_output_denom(outputs, inputs[j].denom) {
            if inputs[j].value > 0x7fff_ffff_ffff_ffff_ffff_ffff_ffff_ffffu128 {
                return None;
            }
            let ghost before = events@;
            events.push(
                (
                    FlowKey { address: inputs[j].covhash, denom: inputs[j].denom },
                    -(inputs[j].value as i128),
                ),
            );
            assert(events@ =~= credits(outs) + debits(ins.take(j + 1), outs));
        }
        j = j + 1;
    }
    assert(ins.take(ins.len() as int) =~= ins);
    let sums = match tally(&events) {
        None => {
            return None;
        },
        Some(sums) => sums,
    };
    let mut net_loss: Vec<NetFlow> = Vec::new();
    let mut net_gain: Vec<NetFlow> = Vec::new();
    let mut k: usize = 0;
    assert(sums@.take(0) =~= Seq::<(FlowKey, i128)>::empty());
    while k < sums.len()
        invariant
            k <= sums@.len(),
            net_loss@ == losses_of(sums@.take(k as int)),
            net_gain@ == gains_of(sums@.take(k as int)),
        decreases sums@.len() - k,
    {
        assert(sums@.take(k + 1).drop_last() =~= sums@.take(k as int));
        assert(sums@.take(k + 1).last() == sums@[k as int]);
        let (key, amount) = sums[k];
        if amount < 0 {
            let lost: u128 = if amount == -0x8000_0000_0000_0000_0000_0000_0000_0000i128 {
                0x8000_0000_0000_0000_0000_0000_0000_0000u128
            } else {
                (-amount) as u128
            };
            net_loss.push(NetFlow { address: key.address, denom: key.denom, amount: lost });
        } else if amount > 0 {
            net_gain.push(NetFlow { address: key.address, denom: key.denom, amount: amount as u128 });
        }
        k = k + 1;
    }
    assert(sums@.take(sums@.len() as int) =~= sums@);
    let flows = TransactionFlows { net_loss, net_gain };
    assert(is_tally(flow_events(ins, outs), sums@));
    Some(flows)
}

/// What of a fee goes to the proposer beyond the base fee.
pub fn tips(fee: u128, base_fee: u128) -> (tip: u128)
    ensures
        tip == (if fee >= base_fee {
            fee - base_fee
        } else {
            0
        }),
{
    if fee >= base_fee {
        fee - base_fee
    } else {
        0
    }
}

} // verus!
