//! The builder of the transaction that folds a batch of stake cells into
//! the stake tree: it applies each cell's change to the leaves, keeps the
//! top stakers, withdraws what leaves the tree, and lays out the inputs,
//! outputs and witnesses of the transaction.

use crate::addr_map::{entries_map, lemma_key_index, lemma_take_step, AddrMap};
use crate::codec::{le_bytes, le_decode, le_encode, le_nat, lemma_le_bytes, lemma_pow256_values};
use crate::tx_types::{
    Amount, Cell, CkbTxErr, Epoch, NonTopStakers, OutPoint, PrivateKey, StakeInfo, StakeSmtTypeIds,
    Staker, UserAmount, INAUGURATION, TOKEN_BYTES,
};
use crate::types::H256;
use vstd::prelude::*;
use vstd::slice::slice_subrange;

verus! {

/// What a transaction needs of a token cell that it spends: where the cell
/// is, and the amount that its data starts with.
#[derive(Clone, Copy, Debug, PartialEq, Eq)]
pub struct TokenInput {
    pub out_point: OutPoint,
    pub total: Amount,
}

/// The amount that the data of a token cell starts with.
pub open spec fn token_total(data: Seq<u8>) -> Amount {
    le_nat(data.subrange(0, 16)) as u128
}

/// The data of a token cell: the amount in 16 bytes, least significant
/// first, then the payload.
pub open spec fn token_data(amount: Amount, payload: Seq<u8>) -> Seq<u8> {
    le_bytes(amount as nat, 16) + payload
}

/// The data of a token cell that holds `amount` and carries `payload`.
pub fn token_cell_data(amount: Amount, payload: &[u8]) -> (data: Vec<u8>)
    ensures
        data@ == token_data(amount, payload@),
        data@.len() == 16 + payload@.len(),
        token_total(data@) == amount,
        data@.subrange(16, data@.len() as int) == payload@,
{
    let mut data = le_encode(amount, TOKEN_BYTES);
    let mut i: usize = 0;
    while i < payload.len()
        invariant
            i <= payload@.len(),
            data@ == le_bytes(amount as nat, 16) + payload@.take(i as int),
        decreases payload@.len() - i,
    {
        proof {
            assert(payload@.take(i as int).push(payload@[i as int]) =~= payload@.take(i + 1));
        }
        data.push(payload[i]);
        i = i + 1;
    }
    proof {
        assert(payload@.take(payload@.len() as int) =~= payload@);
        lemma_le_bytes(amount as nat, 16);
        lemma_pow256_values();
        assert(data@.subrange(0, 16) =~= le_bytes(amount as nat, 16));
        assert(data@.subrange(16, data@.len() as int) =~= payload@);
    }
    data
}

/// The running result of applying stake cells to the leaves: the leaves as
/// they now stand, what each staker withdraws, and the cell that the
/// transaction spends for each staker.
pub struct Tally {
    pub new_smt: Map<Staker, Amount>,
    pub withdraw_amounts: Map<Staker, Amount>,
    pub inputs: Map<Staker, TokenInput>,
}

/// What the transaction spends of a stake cell.
pub open spec fn cell_input(cell: Cell) -> TokenInput {
    TokenInput { out_point: cell.out_point, total: token_total(cell.output_data@) }
}

/// The result of applying one stake cell, where changes take effect at the
/// epoch `inauguration`.
///
/// A cell whose data cannot hold an amount is an error. A cell whose change
/// was meant for an earlier epoch is passed over. Any other cell becomes
/// the staker's input. An increase adds to the leaf, or makes it. A
/// decrease below the leaf takes its amount from the leaf and withdraws
/// it. A decrease of the whole leaf or more withdraws the leaf's amount and
/// leaves the leaf as it is. A decrease without a leaf is an error.
pub open spec fn apply_cell(t: Tally, cell: Cell, inauguration: int) -> Result<Tally, CkbTxErr> {
    let staker = cell.staker;
    let amount = cell.item.amount;
    let inputs = t.inputs.insert(staker, cell_input(cell));
    if cell.output_data@.len() < 16 {
        Err(CkbTxErr::Decode)
    } else if cell.item.inauguration_epoch < inauguration {
        Ok(t)
    } else if t.new_smt.contains_key(staker) {
        let leaf = t.new_smt[staker];
        if cell.item.is_increase {
            if leaf + amount > u128::MAX {
                Err(CkbTxErr::Overflow(staker))
            } else {
                Ok(
                    Tally {
                        new_smt: t.new_smt.insert(staker, (leaf + amount) as u128),
                        withdraw_amounts: t.withdraw_amounts,
                        inputs,
                    },
                )
            }
        } else if amount >= leaf {
            Ok(
                Tally {
                    new_smt: t.new_smt,
                    withdraw_amounts: t.withdraw_amounts.insert(staker, leaf),
                    inputs,
                },
            )
        } else {
            Ok(
                Tally {
                    new_smt: t.new_smt.insert(staker, (leaf - amount) as u128),
                    withdraw_amounts: t.withdraw_amounts.insert(staker, amount),
                    inputs,
                },
            )
        }
    } else if !cell.item.is_increase {
        Err(CkbTxErr::Increase(false))
    } else {
        Ok(
            Tally {
                new_smt: t.new_smt.insert(staker, amount),
                withdraw_amounts: t.withdraw_amounts,
                inputs,
            },
        )
    }
}

/// The result of applying the cells of `cells` in their order, from `start`
/// on. The first error ends it.
pub open spec fn apply_cells(start: Tally, cells: Seq<Cell>, inauguration: int) -> Result<
    Tally,
    CkbTxErr,
>
    decreases cells.len(),
{
    if cells.len() == 0 {
        Ok(start)
    } else {
        match apply_cells(start, cells.drop_last(), inauguration) {
            Ok(t) => apply_cell(t, cells.last(), inauguration),
            Err(e) => Err(e),
        }
    }
}

/// An error among the first cells is the result for all of them.
pub proof fn lemma_first_error_stays(start: Tally, cells: Seq<Cell>, inauguration: int, n: int)
    requires
        0 <= n <= cells.len(),
        apply_cells(start, cells.take(n), inauguration) is Err,
    ensures
        apply_cells(start, cells, inauguration) == apply_cells(start, cells.take(n), inauguration),
    decreases cells.len(),
{
    if n == cells.len() {
        assert(cells.take(n) =~= cells);
    } else {
        assert(cells.drop_last().take(n) =~= cells.take(n));
        lemma_first_error_stays(start, cells.drop_last(), inauguration, n);
    }
}

/// A decrease never takes more than the leaf holds: whatever a cell
/// withdraws for a staker that has a leaf is at most that leaf, and a
/// decrease that asks for more than the leaf withdraws exactly the leaf
/// and leaves it in place.
pub proof fn lemma_withdraw_within_leaf(t: Tally, cell: Cell, inauguration: int)
    requires
        cell.output_data@.len() >= 16,
        cell.item.inauguration_epoch >= inauguration,
        !cell.item.is_increase,
        t.new_smt.contains_key(cell.staker),
    ensures
        apply_cell(t, cell, inauguration) is Ok,
        ({
            let after = apply_cell(t, cell, inauguration)->Ok_0;
            let leaf = t.new_smt[cell.staker];
            &&& after.withdraw_amounts.contains_key(cell.staker)
            &&& after.withdraw_amounts[cell.staker] <= leaf
            &&& after.new_smt.contains_key(cell.staker)
            &&& after.new_smt[cell.staker] + after.withdraw_amounts[cell.staker] == leaf
                || after.new_smt[cell.staker] == leaf
            &&& cell.item.amount > leaf ==> after.withdraw_amounts[cell.staker] == leaf
                && after.new_smt[cell.staker] == leaf
        }),
{
}

/// The leaves, withdrawals and inputs of an aggregation while the stake
/// cells are applied to them.
#[derive(Debug)]
pub struct StakeTally {
    pub new_smt: AddrMap<Amount>,
    pub withdraw_amounts: AddrMap<Amount>,
    pub inputs_stake_cells: AddrMap<TokenInput>,
}

impl View for StakeTally {
    type V = Tally;

    open spec fn view(&self) -> Tally {
        Tally {
            new_smt: self.new_smt@,
            withdraw_amounts: self.withdraw_amounts@,
            inputs: self.inputs_stake_cells@,
        }
    }
}

impl StakeTally {
    /// Whether the three maps are valid.
    pub open spec fn wf(&self) -> bool {
        &&& self.new_smt.wf()
        &&& self.withdraw_amounts.wf()
        &&& self.inputs_stake_cells.wf()
    }

    /// The tally before any cell: the leaves as the tree holds them, no
    /// withdrawal and no input.
    pub open spec fn start(old_smt: Map<Staker, Amount>) -> Tally {
        Tally { new_smt: old_smt, withdraw_amounts: Map::empty(), inputs: Map::empty() }
    }

    /// The tally that starts from the leaves of `old_smt`.
    pub fn new(old_smt: &AddrMap<Amount>) -> (tally: StakeTally)
        requires
            old_smt.wf(),
        ensures
            tally.wf(),
            tally@ == Self::start(old_smt@),
    {
        StakeTally {
            new_smt: old_smt.duplicate(),
            withdraw_amounts: AddrMap::new(),
            inputs_stake_cells: AddrMap::new(),
        }
    }

    /// Applies one stake cell, where changes take effect at the epoch
    /// `current_epoch + 2`. On an error the tally is left as it was.
    pub fn apply(&mut self, cell: &Cell, current_epoch: Epoch) -> (res: Result<(), CkbTxErr>)
        requires
            old(self).wf(),
        ensures
            final(self).wf(),
            match apply_cell(old(self)@, *cell, current_epoch + INAUGURATION) {
                Ok(t) => res is Ok && final(self)@ == t,
                Err(e) => res == Err::<(), CkbTxErr>(e) && final(self)@ == old(self)@,
            },
    {
        let total = match parse_token_data(cell.output_data.as_slice()) {
            Ok(parsed) => parsed.0,
            Err(e) => {
                return Err(e);
            },
        };
        if (cell.item.inauguration_epoch as u128) < current_epoch as u128 + INAUGURATION as u128 {
            return Ok(());
        }
        let staker = cell.staker;
        let amount = cell.item.amount;
        let input = TokenInput { out_point: cell.out_point, total };
        match self.new_smt.get(&staker) {
            Some(leaf) => {
                let leaf: Amount = *leaf;
                if cell.item.is_increase {
                    match leaf.checked_add(amount) {
                        Some(sum) => {
                            self.new_smt.insert(staker, sum);
                        },
                        None => {
                            return Err(CkbTxErr::Overflow(staker));
                        },
                    }
                } else if amount >= leaf {
                    self.withdraw_amounts.insert(staker, leaf);
                } else {
                    self.new_smt.insert(staker, leaf - amount);
                    self.withdraw_amounts.insert(staker, amount);
                }
            },
            None => {
                if !cell.item.is_increase {
                    return Err(CkbTxErr::Increase(false));
                }
                self.new_smt.insert(staker, amount);
            },
        }
        self.inputs_stake_cells.insert(staker, input);
        Ok(())
    }
}

/// The amount that the data of a token cell starts with, and the payload
/// after it. Data of fewer than 16 bytes is refused.
pub fn parse_token_data(data: &[u8]) -> (res: Result<(Amount, Vec<u8>), CkbTxErr>)
    ensures
        data@.len() >= 16 ==> res is Ok && res->Ok_0.0 == token_total(data@) && res->Ok_0.1@
            == data@.subrange(16, data@.len() as int),
        data@.len() < 16 ==> res == Err::<(Amount, Vec<u8>), CkbTxErr>(CkbTxErr::Decode),
{
    if data.len() < TOKEN_BYTES {
        return Err(CkbTxErr::Decode);
    }
    let total = le_decode(slice_subrange(data, 0, TOKEN_BYTES));
    let mut payload: Vec<u8> = Vec::new();
    let mut i: usize = TOKEN_BYTES;
    while i < data.len()
        invariant
            16 <= i <= data@.len(),
            payload@ == data@.subrange(16, i as int),
        decreases data@.len() - i,
    {
        proof {
            assert(data@.subrange(16, i as int).push(data@[i as int]) =~= data@.subrange(16, i + 1));
        }
        payload.push(data[i]);
        i = i + 1;
    }
    Ok((total, payload))
}

/// Whether the staker `a` with the amount `a_amount` ranks below the staker
/// `b` with the amount `b_amount`: by the amount, and for equal amounts by
/// the address.
pub open spec fn ranks_below(a_amount: Amount, a: Staker, b_amount: Amount, b: Staker) -> bool {
    a_amount < b_amount || (a_amount == b_amount && a.key() < b.key())
}

/// Whether `kept` and `removed` split the leaves `all` at the top `k`:
/// `removed` holds the lowest-ranking stakers beyond the `k` that stay, and
/// `kept` holds the others with their amounts.
pub open spec fn is_top_split(
    all: Map<Staker, Amount>,
    kept: Map<Staker, Amount>,
    removed: Set<Staker>,
    k: nat,
) -> bool {
    &&& removed.subset_of(all.dom())
    &&& kept == all.remove_keys(removed)
    &&& kept.dom().len() == (if all.dom().len() <= k {
        all.dom().len()
    } else {
        k
    })
    &&& forall|r: Staker, s: Staker|
        removed.contains(r) && kept.contains_key(s) ==> #[trigger] ranks_below(
            all[r],
            r,
            all[s],
            s,
        )
}

/// After a split at the top `k` at most `k` stakers stay, and no staker
/// that left holds more than one that stays.
pub proof fn lemma_top_split(
    all: Map<Staker, Amount>,
    kept: Map<Staker, Amount>,
    removed: Set<Staker>,
    k: nat,
)
    requires
        is_top_split(all, kept, removed, k),
    ensures
        kept.dom().len() <= k,
        forall|r: Staker, s: Staker|
            #![trigger removed.contains(r), kept.contains_key(s)]
            removed.contains(r) && kept.contains_key(s) ==> all[r] <= kept[s]
                && !kept.contains_key(r),
{
    assert forall|r: Staker, s: Staker|
        #![trigger removed.contains(r), kept.contains_key(s)]
        removed.contains(r) && kept.contains_key(s) implies all[r] <= kept[s]
        && !kept.contains_key(r) by {
        assert(ranks_below(all[r], r, all[s], s));
    }
}

/// The index of the entry that ranks below all others.
fn lowest(leaves: &AddrMap<Amount>) -> (p: usize)
    requires
        leaves.wf(),
        leaves.entries().len() > 0,
    ensures
        p < leaves.entries().len(),
        forall|j: int|
            0 <= j < leaves.entries().len() && j != p ==> ranks_below(
                leaves.entries()[p as int].1,
                leaves.entries()[p as int].0,
                (#[trigger] leaves.entries()[j]).1,
                leaves.entries()[j].0,
            ),
{
    let n: usize = leaves.len();
    let mut p: usize = 0;
    let mut best: Amount = *leaves.value_at(0);
    let mut i: usize = 1;
    while i < n
        invariant
            1 <= i <= n,
            n == leaves.entries().len(),
            leaves.wf(),
            p < i,
            best == leaves.entries()[p as int].1,
            forall|j: int| 0 <= j < p ==> best < (#[trigger] leaves.entries()[j]).1,
            forall|j: int| p <= j < i ==> best <= (#[trigger] leaves.entries()[j]).1,
        decreases n - i,
    {
        let amount: Amount = *leaves.value_at(i);
        if amount < best {
            p = i;
            best = amount;
        }
        i = i + 1;
    }
    proof {
        let s = leaves.entries();
        assert forall|j: int| 0 <= j < s.len() && j != p implies ranks_below(
            s[p as int].1,
            s[p as int].0,
            (#[trigger] s[j]).1,
            s[j].0,
        ) by {
            if p < j {
                assert(s[p as int].0.key() < s[j].0.key());
            }
        }
    }
    p
}

/// The builder of the transaction that aggregates the changes of a batch
/// of stake cells into the stake tree.
#[derive(Debug)]
pub struct StakeSmtTxBuilder {
    kicker: PrivateKey,
    current_epoch: Epoch,
    quorum: u16,
    stake_cells: Vec<Cell>,
    type_ids: StakeSmtTypeIds,
}

impl StakeSmtTxBuilder {
    /// The key that signs for the operator.
    pub closed spec fn spec_kicker(&self) -> PrivateKey {
        self.kicker
    }

    /// The epoch in which the transaction is built.
    pub closed spec fn spec_current_epoch(&self) -> Epoch {
        self.current_epoch
    }

    /// The size of the committee.
    pub closed spec fn spec_quorum(&self) -> u16 {
        self.quorum
    }

    /// The stake cells of the batch, in the order in which they are applied.
    pub closed spec fn stake_cells(&self) -> Seq<Cell> {
        self.stake_cells@
    }

    /// The identifiers of the cells that the transaction refers to.
    pub closed spec fn spec_type_ids(&self) -> StakeSmtTypeIds {
        self.type_ids
    }

    /// The key that signs for the operator.
    #[verifier::when_used_as_spec(spec_kicker)]
    pub fn kicker(&self) -> (key: PrivateKey)
        ensures
            key == self.spec_kicker(),
    {
        self.kicker
    }

    /// The epoch in which the transaction is built.
    #[verifier::when_used_as_spec(spec_current_epoch)]
    pub fn current_epoch(&self) -> (epoch: Epoch)
        ensures
            epoch == self.spec_current_epoch(),
    {
        self.current_epoch
    }

    /// The size of the committee.
    #[verifier::when_used_as_spec(spec_quorum)]
    pub fn quorum(&self) -> (quorum: u16)
        ensures
            quorum == self.spec_quorum(),
    {
        self.quorum
    }

    /// The identifiers of the cells that the transaction refers to.
    #[verifier::when_used_as_spec(spec_type_ids)]
    pub fn type_ids(&self) -> (type_ids: StakeSmtTypeIds)
        ensures
            type_ids == self.spec_type_ids(),
    {
        self.type_ids
    }

    /// The epoch at which the changes of this batch take effect.
    pub open spec fn inauguration_epoch(&self) -> int {
        self.current_epoch() + INAUGURATION
    }

    /// What holds of every builder: the epoch at which its changes take
    /// effect is an epoch that 64 bits hold.
    pub open spec fn wf(&self) -> bool {
        self.inauguration_epoch() <= u64::MAX
    }

    /// The number of stakers that stay in the tree: three times the quorum.
    pub open spec fn top_count(&self) -> nat {
        3 * self.quorum() as nat
    }

    /// A builder for the batch `stake_cells` in the epoch `current_epoch`.
    pub fn new(
        kicker: PrivateKey,
        current_epoch: Epoch,
        type_ids: StakeSmtTypeIds,
        quorum: u16,
        stake_cells: Vec<Cell>,
    ) -> (builder: StakeSmtTxBuilder)
        requires
            current_epoch + INAUGURATION <= u64::MAX,
        ensures
            builder.wf(),
            builder.kicker() == kicker,
            builder.current_epoch() == current_epoch,
            builder.type_ids() == type_ids,
            builder.quorum() == quorum,
            builder.stake_cells() == stake_cells@,
    {
        StakeSmtTxBuilder { kicker, current_epoch, quorum, stake_cells, type_ids }
    }

    /// The amount that the data of a stake cell starts with, and the
    /// payload after it. Data of fewer than 16 bytes is refused.
    pub fn parse_stake_data(&self, cell: &Cell) -> (res: Result<(Amount, Vec<u8>), CkbTxErr>)
        ensures
            cell.output_data@.len() >= 16 ==> res is Ok && res->Ok_0.0 == token_total(
                cell.output_data@,
            ) && res->Ok_0.1@ == cell.output_data@.subrange(16, cell.output_data@.len() as int),
            cell.output_data@.len() < 16 ==> res == Err::<(Amount, Vec<u8>), CkbTxErr>(
                CkbTxErr::Decode,
            ),
    {
        parse_token_data(cell.output_data.as_slice())
    }

    /// Takes the stakers beyond the top `3 * quorum` out of `new_smt`, the
    /// lowest-ranking first, and hands them back, each with the flag that
    /// says whether `old_smt` holds it.
    pub fn collect_non_top_stakers(
        &self,
        old_smt: &AddrMap<Amount>,
        new_smt: &mut AddrMap<Amount>,
    ) -> (non_top: NonTopStakers)
        requires
            old_smt.wf(),
            old(new_smt).wf(),
        ensures
            final(new_smt).wf(),
            non_top.wf(),
            is_top_split(old(new_smt)@, final(new_smt)@, non_top@.dom(), self.top_count()),
            non_top@.dom().len() + final(new_smt)@.dom().len() == old(new_smt)@.dom().len(),
            forall|r: Staker| #[trigger]
                non_top@.contains_key(r) ==> non_top@[r] == old_smt@.contains_key(r),
    {
        let ghost all = new_smt@;
        let k: usize = 3 * (self.quorum as usize);
        let mut non_top: NonTopStakers = AddrMap::new();
        let total: usize = new_smt.len();
        proof {
            new_smt.lemma_finite();
            assert(all.remove_keys(non_top@.dom()) =~= all);
        }
        if total <= k {
            return non_top;
        }
        let delete_count: usize = total - k;
        let mut taken: usize = 0;
        while taken < delete_count
            invariant
                taken <= delete_count,
                delete_count == total - k,
                k < total,
                total == all.dom().len(),
                all.dom().finite(),
                old_smt.wf(),
                new_smt.wf(),
                non_top.wf(),
                non_top@.dom().len() == taken,
                new_smt@.dom().len() == total - taken,
                non_top@.dom().subset_of(all.dom()),
                new_smt@ == all.remove_keys(non_top@.dom()),
                forall|r: Staker, s: Staker|
                    non_top@.contains_key(r) && new_smt@.contains_key(s) ==> #[trigger] ranks_below(
                        all[r],
                        r,
                        all[s],
                        s,
                    ),
                forall|r: Staker| #[trigger]
                    non_top@.contains_key(r) ==> non_top@[r] == old_smt@.contains_key(r),
            decreases delete_count - taken,
        {
            proof {
                new_smt.lemma_finite();
                non_top.lemma_finite();
            }
            let ghost before = new_smt@;
            let ghost before_entries = new_smt.entries();
            let ghost gone = non_top@;
            let p = lowest(new_smt);
            let staker = new_smt.key_at(p);
            let in_smt = old_smt.contains_key(&staker);
            new_smt.remove(&staker);
            non_top.insert(staker, in_smt);
            proof {
                assert(before.contains_key(staker));
                assert(!gone.contains_key(staker));
                assert(new_smt@ =~= all.remove_keys(non_top@.dom()));
                assert forall|r: Staker, s: Staker|
                    non_top@.contains_key(r) && new_smt@.contains_key(s) implies #[trigger] ranks_below(
                    all[r],
                    r,
                    all[s],
                    s,
                ) by {
                    assert(before.contains_key(s));
                    if r == staker {
                        let j = lemma_key_index(before_entries, s);
                        assert(before_entries[j].0 == s);
                        assert(j != p);
                        assert(ranks_below(
                            before_entries[p as int].1,
                            before_entries[p as int].0,
                            before_entries[j].1,
                            before_entries[j].0,
                        ));
                    } else {
                        assert(gone.contains_key(r));
                    }
                }
                assert(new_smt@.dom() =~= before.dom().remove(staker));
                assert(non_top@.dom() =~= gone.dom().insert(staker));
            }
            taken = taken + 1;
        }
        non_top
    }
}

/// What the stakers withdraw once the top set is settled: a staker that
/// leaves the tree withdraws the whole leaf that the tree held for it, and
/// any other staker what its cells asked for.
pub open spec fn settled_withdraw(
    asked: Map<Staker, Amount>,
    old_smt: Map<Staker, Amount>,
    non_top: Map<Staker, bool>,
) -> Map<Staker, Amount> {
    Map::new(
        |s: Staker| asked.contains_key(s) || (non_top.contains_key(s) && non_top[s]),
        |s: Staker|
            if non_top.contains_key(s) && non_top[s] {
                old_smt[s]
            } else {
                asked[s]
            },
    )
}

/// The inputs once the top set is settled: a staker that never had a leaf
/// and did not reach the top set changes nothing on chain, so its cell is
/// not spent.
pub open spec fn settled_inputs(
    inputs: Map<Staker, TokenInput>,
    non_top: Map<Staker, bool>,
) -> Map<Staker, TokenInput> {
    Map::new(
        |s: Staker| inputs.contains_key(s) && !(non_top.contains_key(s) && !non_top[s]),
        |s: Staker| inputs[s],
    )
}

/// Whether the stake cell of `s` is still to be fetched: `s` leaves the
/// tree, and no cell of the batch is its.
pub open spec fn must_fetch(
    inputs: Map<Staker, TokenInput>,
    non_top: Map<Staker, bool>,
    s: Staker,
) -> bool {
    non_top.contains_key(s) && non_top[s] && !inputs.contains_key(s)
}

/// Whether the addresses of `s` strictly ascend.
pub open spec fn stakers_ascend(s: Seq<Staker>) -> bool {
    forall|a: int, b: int| 0 <= a < b < s.len() ==> (#[trigger] s[a]).key() < (#[trigger] s[b]).key()
}

/// Settles the withdrawals and inputs for the stakers that left the top
/// set, and lists, in the order of their addresses, those whose stake cell
/// is still to be fetched.
fn settle(
    old_smt: &AddrMap<Amount>,
    non_top: &NonTopStakers,
    withdraw_amounts: &mut AddrMap<Amount>,
    inputs: &mut AddrMap<TokenInput>,
) -> (pending: Vec<Staker>)
    requires
        old_smt.wf(),
        non_top.wf(),
        old(withdraw_amounts).wf(),
        old(inputs).wf(),
        forall|r: Staker| #[trigger]
            non_top@.contains_key(r) ==> non_top@[r] == old_smt@.contains_key(r),
    ensures
        final(withdraw_amounts).wf(),
        final(inputs).wf(),
        final(withdraw_amounts)@ == settled_withdraw(old(withdraw_amounts)@, old_smt@, non_top@),
        final(inputs)@ == settled_inputs(old(inputs)@, non_top@),
        stakers_ascend(pending@),
        forall|s: Staker| #[trigger] pending@.contains(s) <==> must_fetch(old(inputs)@, non_top@, s),
{
    let ghost asked = withdraw_amounts@;
    let ghost offered = inputs@;
    let ghost list = non_top.entries();
    let mut pending: Vec<Staker> = Vec::new();
    let n: usize = non_top.len();
    let mut i: usize = 0;
    proof {
        assert(entries_map(list.take(0)) =~= Map::<Staker, bool>::empty());
        assert(withdraw_amounts@ =~= settled_withdraw(asked, old_smt@, entries_map(list.take(0))));
        assert(inputs@ =~= settled_inputs(offered, entries_map(list.take(0))));
    }
    while i < n
        invariant
            i <= n,
            n == list.len(),
            list == non_top.entries(),
            old_smt.wf(),
            non_top.wf(),
            withdraw_amounts.wf(),
            inputs.wf(),
            forall|r: Staker| #[trigger]
                non_top@.contains_key(r) ==> non_top@[r] == old_smt@.contains_key(r),
            withdraw_amounts@ == settled_withdraw(asked, old_smt@, entries_map(list.take(i as int))),
            inputs@ == settled_inputs(offered, entries_map(list.take(i as int))),
            stakers_ascend(pending@),
            forall|s: Staker| #[trigger]
                pending@.contains(s) <==> must_fetch(offered, entries_map(list.take(i as int)), s),
        decreases n - i,
    {
        let staker = non_top.key_at(i);
        let in_smt: bool = *non_top.value_at(i);
        let ghost seen = entries_map(list.take(i as int));
        let ghost next = entries_map(list.take(i + 1));
        let ghost queue = pending@;
        proof {
            lemma_take_step(list, i as int);
            assert(next == seen.insert(staker, in_smt));
            assert forall|a: int| 0 <= a < queue.len() implies (#[trigger] queue[a]).key()
                < staker.key() by {
                assert(queue.contains(queue[a]));
                let j = lemma_key_index(list.take(i as int), queue[a]);
                assert(list.take(i as int)[j] == list[j]);
                assert(list[j].0.key() < list[i as int].0.key());
            }
        }
        if in_smt {
            match old_smt.get(&staker) {
                Some(leaf) => {
                    withdraw_amounts.insert(staker, *leaf);
                },
                None => {},
            }
            if !inputs.contains_key(&staker) {
                pending.push(staker);
                proof {
                    assert(pending@[queue.len() as int] == staker);
                    assert forall|s: Staker| #[trigger] pending@.contains(s) <==> must_fetch(
                        offered,
                        next,
                        s,
                    ) by {
                        if pending@.contains(s) {
                            let a = choose|a: int| 0 <= a < pending@.len() && pending@[a] == s;
                            if a < queue.len() {
                                assert(queue[a] == s);
                                assert(queue.contains(s));
                            }
                        }
                        if must_fetch(offered, next, s) {
                            if s != staker {
                                assert(queue.contains(s));
                                let a = choose|a: int| 0 <= a < queue.len() && queue[a] == s;
                                assert(pending@[a] == s);
                            }
                        }
                    }
                    assert(stakers_ascend(pending@)) by {
                        assert forall|a: int, b: int| 0 <= a < b < pending@.len() implies (
                        #[trigger] pending@[a]).key() < (#[trigger] pending@[b]).key() by {
                            assert(pending@[a] == queue[a]);
                            if b < queue.len() {
                                assert(pending@[b] == queue[b]);
                            }
                        }
                    }
                }
            } else {
                proof {
                    assert forall|s: Staker| #[trigger] pending@.contains(s) <==> must_fetch(
                        offered,
                        next,
                        s,
                    ) by {
                        if pending@.contains(s) {
                            assert(must_fetch(offered, seen, s));
                        }
                    }
                }
            }
        } else {
            inputs.remove(&staker);
            proof {
                assert forall|s: Staker| #[trigger] pending@.contains(s) <==> must_fetch(
                    offered,
                    next,
                    s,
                ) by {
                    if pending@.contains(s) {
                        assert(must_fetch(offered, seen, s));
                    }
                }
            }
        }
        proof {
            assert(withdraw_amounts@ =~= settled_withdraw(asked, old_smt@, next));
            assert(inputs@ =~= settled_inputs(offered, next));
        }
        i = i + 1;
    }
    proof {
        assert(list.take(n as int) =~= list);
    }
    pending
}

/// What an aggregation leaves the stake tree without, and what it
/// withdraws.
#[derive(Debug)]
pub struct Statistics {
    pub non_top_stakers: NonTopStakers,
    pub withdraw_amounts: AddrMap<Amount>,
}

/// What an aggregation has decided once the batch is applied and the top
/// set is settled.
#[derive(Debug)]
pub struct Collected {
    /// The leaves of the tree after the aggregation.
    pub new_smt: AddrMap<Amount>,
    /// The stake cell that the transaction spends for each staker.
    pub inputs_stake_cells: AddrMap<TokenInput>,
    pub statistics: Statistics,
    /// The stakers whose stake cell is still to be fetched, in the order of
    /// their addresses.
    pub pending: Vec<Staker>,
}

impl Collected {
    /// Whether the maps are valid and the pending stakers ascend.
    pub open spec fn wf(&self) -> bool {
        &&& self.new_smt.wf()
        &&& self.inputs_stake_cells.wf()
        &&& self.statistics.non_top_stakers.wf()
        &&& self.statistics.withdraw_amounts.wf()
        &&& stakers_ascend(self.pending@)
    }

    /// Hands in the stake cell of a staker that left the tree. A cell whose
    /// data cannot hold an amount is refused. The cell of a pending staker
    /// becomes that staker's input, and the staker is pending no more; the
    /// result then is `true`. Any other cell is passed over.
    pub fn supply(&mut self, cell: &Cell) -> (res: Result<bool, CkbTxErr>)
        requires
            old(self).wf(),
        ensures
            final(self).wf(),
            final(self).new_smt == old(self).new_smt,
            final(self).statistics == old(self).statistics,
            cell.output_data@.len() < 16 ==> res == Err::<bool, CkbTxErr>(CkbTxErr::Decode),
            cell.output_data@.len() >= 16 ==> res == Ok::<bool, CkbTxErr>(
                old(self).pending@.contains(cell.staker),
            ),
            res == Ok::<bool, CkbTxErr>(true) ==> final(self).inputs_stake_cells@
                == old(self).inputs_stake_cells@.insert(cell.staker, cell_input(*cell))
                && final(self).pending@ == old(self).pending@.remove(
                old(self).pending@.index_of(cell.staker),
            ),
            res != Ok::<bool, CkbTxErr>(true) ==> final(self).inputs_stake_cells@
                == old(self).inputs_stake_cells@ && final(self).pending@ == old(self).pending@,
    {
        let total = match parse_token_data(cell.output_data.as_slice()) {
            Ok(parsed) => parsed.0,
            Err(e) => {
                return Err(e);
            },
        };
        let n: usize = self.pending.len();
        let mut i: usize = 0;
        while i < n && !self.pending[i].equals(&cell.staker)
            invariant
                i <= n,
                n == self.pending@.len(),
                forall|j: int| 0 <= j < i ==> self.pending@[j] != cell.staker,
            decreases n - i,
        {
            i = i + 1;
        }
        if i == n {
            return Ok(false);
        }
        proof {
            let queue = self.pending@;
            assert(queue[i as int] == cell.staker);
            assert(queue.contains(cell.staker));
            let first = queue.index_of(cell.staker);
            assert(0 <= first < queue.len() && queue[first] == cell.staker);
            if first < i {
                assert(false);
            }
            if i < first {
                assert(queue[i as int].key() < queue[first].key());
            }
            let rest = queue.remove(i as int);
            assert(stakers_ascend(rest)) by {
                assert forall|a: int, b: int| 0 <= a < b < rest.len() implies (
                #[trigger] rest[a]).key() < (#[trigger] rest[b]).key() by {
                    let x = if a < i { a } else { a + 1 };
                    let y = if b < i { b } else { b + 1 };
                    assert(rest[a] == queue[x]);
                    assert(rest[b] == queue[y]);
                }
            }
        }
        self.pending.remove(i);
        self.inputs_stake_cells.insert(
            cell.staker,
            TokenInput { out_point: cell.out_point, total },
        );
        Ok(true)
    }
}

impl StakeSmtTxBuilder {
    /// Whether `c` is what the aggregation decides from the tally `t` of
    /// the batch over the leaves `old_smt`: the leaves are split at the top
    /// `3 * quorum`, each staker that left is flagged by whether it had a
    /// leaf, and the withdrawals, the inputs and the pending stakers are
    /// settled for those that left.
    pub open spec fn decides(&self, old_smt: Map<Staker, Amount>, t: Tally, c: Collected) -> bool {
        let non_top = c.statistics.non_top_stakers@;
        &&& is_top_split(t.new_smt, c.new_smt@, non_top.dom(), self.top_count())
        &&& forall|r: Staker| #[trigger]
            non_top.contains_key(r) ==> non_top[r] == old_smt.contains_key(r)
        &&& c.statistics.withdraw_amounts@ == settled_withdraw(t.withdraw_amounts, old_smt, non_top)
        &&& c.inputs_stake_cells@ == settled_inputs(t.inputs, non_top)
        &&& forall|s: Staker| #[trigger] c.pending@.contains(s) <==> must_fetch(t.inputs, non_top, s)
    }

    /// Applies the batch to the leaves `old_smt` of the epoch at which the
    /// changes take effect, keeps the top stakers, and settles what the
    /// others withdraw. The first cell that cannot be applied ends it with
    /// that cell's error.
    pub fn collect(&self, old_smt: &AddrMap<Amount>) -> (res: Result<Collected, CkbTxErr>)
        requires
            self.wf(),
            old_smt.wf(),
        ensures
            match apply_cells(
                StakeTally::start(old_smt@),
                self.stake_cells(),
                self.inauguration_epoch(),
            ) {
                Ok(t) => res is Ok && res->Ok_0.wf() && self.decides(old_smt@, t, res->Ok_0),
                Err(e) => res is Err && res->Err_0 == e,
            },
    {
        let ghost start = StakeTally::start(old_smt@);
        let ghost cells = self.stake_cells@;
        let ghost at = self.inauguration_epoch();
        let mut tally = StakeTally::new(old_smt);
        let n: usize = self.stake_cells.len();
        let mut i: usize = 0;
        proof {
            assert(cells.take(0) =~= Seq::<Cell>::empty());
        }
        while i < n
            invariant
                i <= n,
                n == cells.len(),
                cells == self.stake_cells@,
                at == self.current_epoch + INAUGURATION,
                start == StakeTally::start(old_smt@),
                tally.wf(),
                apply_cells(start, cells.take(i as int), at) == Ok::<Tally, CkbTxErr>(tally@),
            decreases n - i,
        {
            proof {
                assert(cells.take(i + 1).drop_last() =~= cells.take(i as int));
                assert(cells.take(i + 1).last() == cells[i as int]);
            }
            let ghost before = tally@;
            match tally.apply(&self.stake_cells[i], self.current_epoch) {
                Ok(_) => {},
                Err(e) => {
                    proof {
                        assert(apply_cell(before, cells[i as int], at) == Err::<Tally, CkbTxErr>(e));
                        assert(apply_cells(start, cells.take(i + 1), at) == Err::<Tally, CkbTxErr>(e));
                        lemma_first_error_stays(start, cells, at, i + 1);
                    }
                    return Err(e);
                },
            }
            i = i + 1;
        }
        proof {
            assert(cells.take(n as int) =~= cells);
        }
        let StakeTally { mut new_smt, mut withdraw_amounts, mut inputs_stake_cells } = tally;
        let non_top_stakers = self.collect_non_top_stakers(old_smt, &mut new_smt);
        let pending = settle(
            old_smt,
            &non_top_stakers,
            &mut withdraw_amounts,
            &mut inputs_stake_cells,
        );
        Ok(
            Collected {
                new_smt,
                inputs_stake_cells,
                statistics: Statistics { non_top_stakers, withdraw_amounts },
                pending,
            },
        )
    }

    /// The leaf updates that write the leaves of `new_smt` to the tree: one
    /// for each staker, in the order of the addresses, each an increase by
    /// the staker's amount.
    pub fn update_stake_smt(&self, new_smt: &AddrMap<Amount>) -> (updates: Vec<UserAmount>)
        requires
            new_smt.wf(),
        ensures
            updates@.len() == new_smt.entries().len(),
            forall|i: int|
                0 <= i < updates@.len() ==> #[trigger] updates@[i] == (UserAmount {
                    user: new_smt.entries()[i].0,
                    amount: new_smt.entries()[i].1,
                    is_increase: true,
                }),
    {
        let mut updates: Vec<UserAmount> = Vec::new();
        let n: usize = new_smt.len();
        let mut i: usize = 0;
        while i < n
            invariant
                i <= n,
                n == new_smt.entries().len(),
                new_smt.wf(),
                updates@.len() == i,
                forall|j: int|
                    0 <= j < i ==> #[trigger] updates@[j] == (UserAmount {
                        user: new_smt.entries()[j].0,
                        amount: new_smt.entries()[j].1,
                        is_increase: true,
                    }),
            decreases n - i,
        {
            updates.push(
                UserAmount { user: new_smt.key_at(i), amount: *new_smt.value_at(i), is_increase: true },
            );
            i = i + 1;
        }
        updates
    }

    /// The leaves of `old_smt` as the witness of the aggregation lists
    /// them, in the order of the addresses.
    pub fn witness_leaves(&self, old_smt: &AddrMap<Amount>) -> (leaves: Vec<StakeInfo>)
        requires
            old_smt.wf(),
        ensures
            leaves@.len() == old_smt.entries().len(),
            forall|i: int|
                0 <= i < leaves@.len() ==> #[trigger] leaves@[i] == (StakeInfo {
                    addr: old_smt.entries()[i].0,
                    amount: old_smt.entries()[i].1,
                }),
    {
        let mut leaves: Vec<StakeInfo> = Vec::new();
        let n: usize = old_smt.len();
        let mut i: usize = 0;
        while i < n
            invariant
                i <= n,
                n == old_smt.entries().len(),
                old_smt.wf(),
                leaves@.len() == i,
                forall|j: int|
                    0 <= j < i ==> #[trigger] leaves@[j] == (StakeInfo {
                        addr: old_smt.entries()[j].0,
                        amount: old_smt.entries()[j].1,
                    }),
            decreases n - i,
        {
            leaves.push(StakeInfo { addr: old_smt.key_at(i), amount: *old_smt.value_at(i) });
            i = i + 1;
        }
        leaves
    }
}

/// A cell that the transaction spends.
#[derive(Clone, Copy, Debug, PartialEq, Eq)]
pub enum PlannedInput {
    /// The cell that holds the root of the stake tree.
    StakeSmt(OutPoint),
    /// The stake cell of a staker.
    StakeAt(Staker, OutPoint),
    /// The withdraw cell of a staker.
    WithdrawAt(Staker, OutPoint),
}

/// A cell that the transaction makes.
#[derive(Clone, Copy, Debug, PartialEq, Eq)]
pub enum PlannedOutput {
    /// The cell of the stake tree, with the new root.
    StakeSmt(H256),
    /// The stake cell of a staker with the amount that it now holds; its
    /// payload asks for no change any more.
    StakeAt { staker: Staker, amount: Amount },
    /// The withdraw cell of a staker: the amount that it gains, the epoch
    /// from which that amount can be taken out, and what it now holds.
    WithdrawAt { staker: Staker, epoch: Epoch, amount: Amount, total: Amount },
}

/// A witness of the transaction, by the lock or type that reads it.
#[derive(Clone, Copy, Debug, PartialEq, Eq)]
pub enum PlannedWitness {
    /// The leaves of the tree before the aggregation and the proofs of its
    /// root before and after.
    StakeSmt,
    /// The witness of a stake cell that the aggregation spends.
    StakeLock,
    /// The witness of a withdraw cell that the aggregation spends.
    WithdrawLock,
    /// The place of the operator's signature.
    CapacityProvider,
}

/// A cell that the transaction depends on.
#[derive(Clone, Copy, Debug, PartialEq, Eq)]
pub enum CellDep {
    OmniEthLock,
    Secp256k1Lock,
    XudtType,
    AlwaysSuccessLock,
    StakeLock,
    StakeSmtType,
    Checkpoint,
    Metadata,
    WithdrawLock,
}

/// The layout of an aggregation transaction before it is balanced and
/// signed.
#[derive(Debug)]
pub struct TxPlan {
    pub inputs: Vec<PlannedInput>,
    pub outputs: Vec<PlannedOutput>,
    pub witnesses: Vec<PlannedWitness>,
    pub cell_deps: Vec<CellDep>,
}

/// The inputs, outputs and witnesses of a transaction, side by side.
pub struct Rows {
    pub inputs: Seq<PlannedInput>,
    pub outputs: Seq<PlannedOutput>,
    pub witnesses: Seq<PlannedWitness>,
}

/// The rows after those of one staker are added, where what is withdrawn
/// can be taken out from the epoch `epoch` on.
///
/// A staker that withdraws nothing spends its stake cell and gets it back
/// with the same amount. A staker that withdraws spends its withdraw cell
/// too; the amount moves from the stake cell to the withdraw cell. It is an
/// error if that staker has no withdraw cell, if its stake cell holds less
/// than it withdraws, or if its withdraw cell cannot hold the sum.
pub open spec fn fill_staker(
    rows: Rows,
    staker: Staker,
    input: TokenInput,
    withdraw_amounts: Map<Staker, Amount>,
    withdraw_cells: Map<Staker, TokenInput>,
    epoch: Epoch,
) -> Result<Rows, CkbTxErr> {
    if !withdraw_amounts.contains_key(staker) {
        Ok(
            Rows {
                inputs: rows.inputs.push(PlannedInput::StakeAt(staker, input.out_point)),
                outputs: rows.outputs.push(PlannedOutput::StakeAt { staker, amount: input.total }),
                witnesses: rows.witnesses.push(PlannedWitness::StakeLock),
            },
        )
    } else if !withdraw_cells.contains_key(staker) {
        Err(CkbTxErr::CellNotFound(staker))
    } else if input.total < withdraw_amounts[staker] {
        Err(CkbTxErr::Underflow(staker))
    } else if withdraw_cells[staker].total + withdraw_amounts[staker] > u128::MAX {
        Err(CkbTxErr::Overflow(staker))
    } else {
        let amount = withdraw_amounts[staker];
        let cell = withdraw_cells[staker];
        Ok(
            Rows {
                inputs: rows.inputs.push(PlannedInput::StakeAt(staker, input.out_point)).push(
                    PlannedInput::WithdrawAt(staker, cell.out_point),
                ),
                outputs: rows.outputs.push(
                    PlannedOutput::StakeAt { staker, amount: (input.total - amount) as u128 },
                ).push(
                    PlannedOutput::WithdrawAt {
                        staker,
                        epoch,
                        amount,
                        total: (cell.total + amount) as u128,
                    },
                ),
                witnesses: rows.witnesses.push(PlannedWitness::StakeLock).push(
                    PlannedWitness::WithdrawLock,
                ),
            },
        )
    }
}

/// The rows after those of the stakers of `stakers` are added in their
/// order. The first error ends it.
pub open spec fn fill_rows(
    start: Rows,
    stakers: Seq<(Staker, TokenInput)>,
    withdraw_amounts: Map<Staker, Amount>,
    withdraw_cells: Map<Staker, TokenInput>,
    epoch: Epoch,
) -> Result<Rows, CkbTxErr>
    decreases stakers.len(),
{
    if stakers.len() == 0 {
        Ok(start)
    } else {
        match fill_rows(start, stakers.drop_last(), withdraw_amounts, withdraw_cells, epoch) {
            Ok(rows) => fill_staker(
                rows,
                stakers.last().0,
                stakers.last().1,
                withdraw_amounts,
                withdraw_cells,
                epoch,
            ),
            Err(e) => Err(e),
        }
    }
}

/// An error among the first stakers is the result for all of them.
pub proof fn lemma_fill_error_stays(
    start: Rows,
    stakers: Seq<(Staker, TokenInput)>,
    withdraw_amounts: Map<Staker, Amount>,
    withdraw_cells: Map<Staker, TokenInput>,
    epoch: Epoch,
    n: int,
)
    requires
        0 <= n <= stakers.len(),
        fill_rows(start, stakers.take(n), withdraw_amounts, withdraw_cells, epoch) is Err,
    ensures
        fill_rows(start, stakers, withdraw_amounts, withdraw_cells, epoch) == fill_rows(
            start,
            stakers.take(n),
            withdraw_amounts,
            withdraw_cells,
            epoch,
        ),
    decreases stakers.len(),
{
    if n == stakers.len() {
        assert(stakers.take(n) =~= stakers);
    } else {
        assert(stakers.drop_last().take(n) =~= stakers.take(n));
        lemma_fill_error_stays(
            start,
            stakers.drop_last(),
            withdraw_amounts,
            withdraw_cells,
            epoch,
            n,
        );
    }
}

/// What a cell that the transaction makes holds, where it is a token cell.
pub open spec fn held_by_output(output: PlannedOutput) -> int {
    match output {
        PlannedOutput::StakeSmt(_) => 0,
        PlannedOutput::StakeAt { amount, .. } => amount as int,
        PlannedOutput::WithdrawAt { total, .. } => total as int,
    }
}

/// What the token cells among `outputs` hold together.
pub open spec fn held_by_outputs(outputs: Seq<PlannedOutput>) -> int
    decreases outputs.len(),
{
    if outputs.len() == 0 {
        0
    } else {
        held_by_outputs(outputs.drop_last()) + held_by_output(outputs.last())
    }
}

/// One more output adds what it holds.
proof fn lemma_held_push(outputs: Seq<PlannedOutput>, output: PlannedOutput)
    ensures
        held_by_outputs(outputs.push(output)) == held_by_outputs(outputs) + held_by_output(output),
{
    assert(outputs.push(output).drop_last() =~= outputs);
}

/// What the cells that the transaction spends for `stakers` hold together:
/// the stake cell of each, and the withdraw cell of each one that
/// withdraws.
pub open spec fn held_by_inputs(
    stakers: Seq<(Staker, TokenInput)>,
    withdraw_amounts: Map<Staker, Amount>,
    withdraw_cells: Map<Staker, TokenInput>,
) -> int
    decreases stakers.len(),
{
    if stakers.len() == 0 {
        0
    } else {
        let staker = stakers.last().0;
        held_by_inputs(stakers.drop_last(), withdraw_amounts, withdraw_cells)
            + stakers.last().1.total + if withdraw_amounts.contains_key(staker) {
            withdraw_cells[staker].total as int
        } else {
            0
        }
    }
}

/// An aggregation moves amounts from stake cells to withdraw cells and
/// makes or loses none: the stake and withdraw cells that it makes hold
/// together what those that it spends held.
pub proof fn lemma_conservation(
    start: Rows,
    stakers: Seq<(Staker, TokenInput)>,
    withdraw_amounts: Map<Staker, Amount>,
    withdraw_cells: Map<Staker, TokenInput>,
    epoch: Epoch,
)
    requires
        fill_rows(start, stakers, withdraw_amounts, withdraw_cells, epoch) is Ok,
    ensures
        held_by_outputs(
            fill_rows(start, stakers, withdraw_amounts, withdraw_cells, epoch)->Ok_0.outputs,
        ) == held_by_outputs(start.outputs) + held_by_inputs(
            stakers,
            withdraw_amounts,
            withdraw_cells,
        ),
    decreases stakers.len(),
{
    if stakers.len() > 0 {
        let head = stakers.drop_last();
        lemma_conservation(start, head, withdraw_amounts, withdraw_cells, epoch);
        let rows = fill_rows(start, head, withdraw_amounts, withdraw_cells, epoch)->Ok_0;
        let staker = stakers.last().0;
        let input = stakers.last().1;
        let after = fill_staker(rows, staker, input, withdraw_amounts, withdraw_cells, epoch)->Ok_0;
        assert(fill_rows(start, stakers, withdraw_amounts, withdraw_cells, epoch) == Ok::<
            Rows,
            CkbTxErr,
        >(after));
        if withdraw_amounts.contains_key(staker) {
            let amount = withdraw_amounts[staker];
            let cell = withdraw_cells[staker];
            let stake = PlannedOutput::StakeAt { staker, amount: (input.total - amount) as u128 };
            let withdraw = PlannedOutput::WithdrawAt {
                staker,
                epoch,
                amount,
                total: (cell.total + amount) as u128,
            };
            lemma_held_push(rows.outputs, stake);
            lemma_held_push(rows.outputs.push(stake), withdraw);
            assert(after.outputs == rows.outputs.push(stake).push(withdraw));
        } else {
            lemma_held_push(rows.outputs, PlannedOutput::StakeAt { staker, amount: input.total });
        }
    }
}

/// The rows that every aggregation starts with: the cell of the stake
/// tree is spent and made again with the new root, and its witness comes
/// first.
pub open spec fn first_rows(smt_cell: OutPoint, new_root: H256) -> Rows {
    Rows {
        inputs: seq![PlannedInput::StakeSmt(smt_cell)],
        outputs: seq![PlannedOutput::StakeSmt(new_root)],
        witnesses: seq![PlannedWitness::StakeSmt],
    }
}

/// The cells that an aggregation depends on. The withdraw lock is among
/// them only where something is withdrawn.
pub open spec fn aggregation_deps(withdraws: bool) -> Seq<CellDep> {
    let fixed = seq![
        CellDep::OmniEthLock,
        CellDep::Secp256k1Lock,
        CellDep::XudtType,
        CellDep::AlwaysSuccessLock,
        CellDep::StakeLock,
        CellDep::StakeSmtType,
        CellDep::Checkpoint,
        CellDep::Metadata,
    ];
    if withdraws {
        fixed.push(CellDep::WithdrawLock)
    } else {
        fixed
    }
}

impl StakeSmtTxBuilder {
    /// Adds to the transaction the stake cells of `inputs_stake_cells`, in
    /// the order of the stakers, and for each staker that withdraws its
    /// withdraw cell from `withdraw_cells`. On an error the transaction is
    /// left as it was.
    pub fn fill_tx(
        &self,
        statistics: &Statistics,
        inputs_stake_cells: &AddrMap<TokenInput>,
        withdraw_cells: &AddrMap<TokenInput>,
        inputs: &mut Vec<PlannedInput>,
        outputs: &mut Vec<PlannedOutput>,
        witnesses: &mut Vec<PlannedWitness>,
    ) -> (res: Result<(), CkbTxErr>)
        requires
            self.wf(),
            statistics.withdraw_amounts.wf(),
            inputs_stake_cells.wf(),
            withdraw_cells.wf(),
        ensures
            match fill_rows(
                Rows { inputs: old(inputs)@, outputs: old(outputs)@, witnesses: old(witnesses)@ },
                inputs_stake_cells.entries(),
                statistics.withdraw_amounts@,
                withdraw_cells@,
                self.inauguration_epoch() as u64,
            ) {
                Ok(rows) => res is Ok && final(inputs)@ == rows.inputs && final(outputs)@
                    == rows.outputs && final(witnesses)@ == rows.witnesses,
                Err(e) => res == Err::<(), CkbTxErr>(e) && final(inputs)@ == old(inputs)@
                    && final(outputs)@ == old(outputs)@ && final(witnesses)@ == old(witnesses)@,
            },
    {
        let ghost start = Rows {
            inputs: inputs@,
            outputs: outputs@,
            witnesses: witnesses@,
        };
        let ghost stakers = inputs_stake_cells.entries();
        let ghost asked = statistics.withdraw_amounts@;
        let ghost cells = withdraw_cells@;
        let epoch: Epoch = self.current_epoch + INAUGURATION;
        let inputs_len: usize = inputs.len();
        let outputs_len: usize = outputs.len();
        let witnesses_len: usize = witnesses.len();
        let n: usize = inputs_stake_cells.len();
        let mut i: usize = 0;
        proof {
            assert(stakers.take(0) =~= Seq::<(Staker, TokenInput)>::empty());
            assert(inputs@.take(inputs_len as int) =~= start.inputs);
            assert(outputs@.take(outputs_len as int) =~= start.outputs);
            assert(witnesses@.take(witnesses_len as int) =~= start.witnesses);
        }
        while i < n
            invariant
                i <= n,
                n == stakers.len(),
                stakers == inputs_stake_cells.entries(),
                asked == statistics.withdraw_amounts@,
                cells == withdraw_cells@,
                epoch == self.inauguration_epoch(),
                start.inputs == old(inputs)@,
                start.outputs == old(outputs)@,
                start.witnesses == old(witnesses)@,
                statistics.withdraw_amounts.wf(),
                inputs_stake_cells.wf(),
                withdraw_cells.wf(),
                inputs_len == start.inputs.len(),
                outputs_len == start.outputs.len(),
                witnesses_len == start.witnesses.len(),
                inputs_len <= inputs@.len(),
                outputs_len <= outputs@.len(),
                witnesses_len <= witnesses@.len(),
                inputs@.take(inputs_len as int) == start.inputs,
                outputs@.take(outputs_len as int) == start.outputs,
                witnesses@.take(witnesses_len as int) == start.witnesses,
                fill_rows(start, stakers.take(i as int), asked, cells, epoch) == Ok::<
                    Rows,
                    CkbTxErr,
                >(Rows { inputs: inputs@, outputs: outputs@, witnesses: witnesses@ }),
            decreases n - i,
        {
            let staker = inputs_stake_cells.key_at(i);
            let input: TokenInput = *inputs_stake_cells.value_at(i);
            let ghost rows = Rows { inputs: inputs@, outputs: outputs@, witnesses: witnesses@ };
            proof {
                assert(stakers.take(i + 1).drop_last() =~= stakers.take(i as int));
                assert(stakers.take(i + 1).last() == stakers[i as int]);
                assert(fill_rows(start, stakers.take(i + 1), asked, cells, epoch) == fill_staker(
                    rows,
                    staker,
                    input,
                    asked,
                    cells,
                    epoch,
                ));
            }
            let failure: Option<CkbTxErr> = match statistics.withdraw_amounts.get(&staker) {
                None => {
                    inputs.push(PlannedInput::StakeAt(staker, input.out_point));
                    witnesses.push(PlannedWitness::StakeLock);
                    outputs.push(PlannedOutput::StakeAt { staker, amount: input.total });
                    None
                },
                Some(amount) => {
                    let amount: Amount = *amount;
                    match withdraw_cells.get(&staker) {
                        None => Some(CkbTxErr::CellNotFound(staker)),
                        Some(cell) => {
                            let cell: TokenInput = *cell;
                            if input.total < amount {
                                Some(CkbTxErr::Underflow(staker))
                            } else {
                                match cell.total.checked_add(amount) {
                                    None => Some(CkbTxErr::Overflow(staker)),
                                    Some(total) => {
                                        inputs.push(PlannedInput::StakeAt(staker, input.out_point));
                                        witnesses.push(PlannedWitness::StakeLock);
                                        inputs.push(PlannedInput::WithdrawAt(staker, cell.out_point));
                                        witnesses.push(PlannedWitness::WithdrawLock);
                                        outputs.push(
                                            PlannedOutput::StakeAt {
                                                staker,
                                                amount: input.total - amount,
                                            },
                                        );
                                        outputs.push(
                                            PlannedOutput::WithdrawAt { staker, epoch, amount, total },
                                        );
                                        None
                                    },
                                }
                            }
                        },
                    }
                },
            };
            match failure {
                Some(e) => {
                    proof {
                        lemma_fill_error_stays(start, stakers, asked, cells, epoch, i + 1);
                    }
                    inputs.truncate(inputs_len);
                    outputs.truncate(outputs_len);
                    witnesses.truncate(witnesses_len);
                    proof {
                        assert(rows.inputs.subrange(0, inputs_len as int) =~= rows.inputs.take(
                            inputs_len as int,
                        ));
                        assert(rows.outputs.subrange(0, outputs_len as int) =~= rows.outputs.take(
                            outputs_len as int,
                        ));
                        assert(rows.witnesses.subrange(0, witnesses_len as int)
                            =~= rows.witnesses.take(witnesses_len as int));
                    }
                    return Err(e);
                },
                None => {
                    proof {
                        assert(inputs@.take(inputs_len as int) =~= rows.inputs.take(
                            inputs_len as int,
                        ));
                        assert(outputs@.take(outputs_len as int) =~= rows.outputs.take(
                            outputs_len as int,
                        ));
                        assert(witnesses@.take(witnesses_len as int) =~= rows.witnesses.take(
                            witnesses_len as int,
                        ));
                    }
                },
            }
            i = i + 1;
        }
        proof {
            assert(stakers.take(n as int) =~= stakers);
        }
        Ok(())
    }

    /// Lays out the aggregation transaction: the cell of the stake tree at
    /// `smt_cell` is spent and made again with `new_root`, then come the
    /// cells of the stakers, and last the place of the operator's
    /// signature. It hands back the layout and the stakers that left the
    /// tree. While a staker's cell is pending nothing can be laid out.
    pub fn build_tx(
        &self,
        smt_cell: OutPoint,
        new_root: H256,
        collected: &Collected,
        withdraw_cells: &AddrMap<TokenInput>,
    ) -> (res: Result<(TxPlan, NonTopStakers), CkbTxErr>)
        requires
            self.wf(),
            collected.wf(),
            withdraw_cells.wf(),
        ensures
            collected.pending@.len() > 0 ==> res is Err && res->Err_0 == CkbTxErr::CellNotFound(
                collected.pending@[0],
            ),
            collected.pending@.len() == 0 ==> match fill_rows(
                first_rows(smt_cell, new_root),
                collected.inputs_stake_cells.entries(),
                collected.statistics.withdraw_amounts@,
                withdraw_cells@,
                self.inauguration_epoch() as u64,
            ) {
                Ok(rows) => res is Ok && res->Ok_0.0.inputs@ == rows.inputs && res->Ok_0.0.outputs@
                    == rows.outputs && res->Ok_0.0.witnesses@ == rows.witnesses.push(
                    PlannedWitness::CapacityProvider,
                ) && res->Ok_0.0.cell_deps@ == aggregation_deps(
                    collected.statistics.withdraw_amounts@.dom().len() > 0,
                ) && res->Ok_0.1.wf() && res->Ok_0.1@ == collected.statistics.non_top_stakers@,
                Err(e) => res is Err && res->Err_0 == e,
            },
    {
        if collected.pending.len() > 0 {
            return Err(CkbTxErr::CellNotFound(collected.pending[0]));
        }
        let mut inputs: Vec<PlannedInput> = Vec::new();
        let mut outputs: Vec<PlannedOutput> = Vec::new();
        let mut witnesses: Vec<PlannedWitness> = Vec::new();
        inputs.push(PlannedInput::StakeSmt(smt_cell));
        outputs.push(PlannedOutput::StakeSmt(new_root));
        witnesses.push(PlannedWitness::StakeSmt);
        proof {
            assert(inputs@ =~= first_rows(smt_cell, new_root).inputs);
            assert(outputs@ =~= first_rows(smt_cell, new_root).outputs);
            assert(witnesses@ =~= first_rows(smt_cell, new_root).witnesses);
        }
        match self.fill_tx(
            &collected.statistics,
            &collected.inputs_stake_cells,
            withdraw_cells,
            &mut inputs,
            &mut outputs,
            &mut witnesses,
        ) {
            Ok(_) => {},
            Err(e) => {
                return Err(e);
            },
        }
        witnesses.push(PlannedWitness::CapacityProvider);
        let mut cell_deps: Vec<CellDep> = Vec::new();
        cell_deps.push(CellDep::OmniEthLock);
        cell_deps.push(CellDep::Secp256k1Lock);
        cell_deps.push(CellDep::XudtType);
        cell_deps.push(CellDep::AlwaysSuccessLock);
        cell_deps.push(CellDep::StakeLock);
        cell_deps.push(CellDep::StakeSmtType);
        cell_deps.push(CellDep::Checkpoint);
        cell_deps.push(CellDep::Metadata);
        if !collected.statistics.withdraw_amounts.is_empty() {
            cell_deps.push(CellDep::WithdrawLock);
        }
        proof {
            assert(cell_deps@ =~= aggregation_deps(
                collected.statistics.withdraw_amounts@.dom().len() > 0,
            ));
        }
        let non_top = collected.statistics.non_top_stakers.duplicate();
        Ok((TxPlan { inputs, outputs, witnesses, cell_deps }, non_top))
    }
}

} // verus!
