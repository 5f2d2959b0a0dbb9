//! The leaves of a tree of amounts, epoch by epoch: what each address holds
//! at each epoch. The roots and proofs of the tree are computed elsewhere,
//! over these leaves.

use crate::addr_map::AddrMap;
use crate::tx_types::{Amount, Epoch, UserAmount};
use crate::types::H160;
use vstd::prelude::*;

verus! {

/// Why an update of the leaves is refused.
#[derive(Clone, Copy, Debug, PartialEq, Eq)]
pub enum SmtError {
    /// The update takes more from the leaf of this address than it holds.
    Underflow(H160),
    /// The update adds to the leaf of this address beyond the largest
    /// amount.
    Overflow(H160),
}

/// What the leaf of `user` holds; an address without a leaf holds nothing.
pub open spec fn held(leaves: Map<H160, Amount>, user: H160) -> Amount {
    if leaves.contains_key(user) {
        leaves[user]
    } else {
        0
    }
}

/// The leaves after one update: the amount is added to the leaf of the
/// user, or taken from it. Taking more than the leaf holds is an error, as
/// is adding beyond the largest amount.
pub open spec fn apply_update(leaves: Map<H160, Amount>, update: UserAmount) -> Result<
    Map<H160, Amount>,
    SmtError,
> {
    let before = held(leaves, update.user);
    if update.is_increase {
        if before + update.amount > u128::MAX {
            Err(SmtError::Overflow(update.user))
        } else {
            Ok(leaves.insert(update.user, (before + update.amount) as u128))
        }
    } else if update.amount > before {
        Err(SmtError::Underflow(update.user))
    } else {
        Ok(leaves.insert(update.user, (before - update.amount) as u128))
    }
}

/// The leaves after the updates of `updates` in their order. The first
/// error ends it.
pub open spec fn apply_updates(leaves: Map<H160, Amount>, updates: Seq<UserAmount>) -> Result<
    Map<H160, Amount>,
    SmtError,
>
    decreases updates.len(),
{
    if updates.len() == 0 {
        Ok(leaves)
    } else {
        match apply_updates(leaves, updates.drop_last()) {
            Ok(before) => apply_update(before, updates.last()),
            Err(e) => Err(e),
        }
    }
}

/// An error among the first updates is the result for all of them.
pub proof fn lemma_update_error_stays(leaves: Map<H160, Amount>, updates: Seq<UserAmount>, n: int)
    requires
        0 <= n <= updates.len(),
        apply_updates(leaves, updates.take(n)) is Err,
    ensures
        apply_updates(leaves, updates) == apply_updates(leaves, updates.take(n)),
    decreases updates.len(),
{
    if n == updates.len() {
        assert(updates.take(n) =~= updates);
    } else {
        assert(updates.drop_last().take(n) =~= updates.take(n));
        lemma_update_error_stays(leaves, updates.drop_last(), n);
    }
}

/// No update leaves a leaf below zero: after an update that is accepted,
/// the leaf of its user holds the old amount with the update's amount
/// added or taken, and every other leaf is as it was.
pub proof fn lemma_update_is_exact(leaves: Map<H160, Amount>, update: UserAmount)
    requires
        apply_update(leaves, update) is Ok,
    ensures
        ({
            let after = apply_update(leaves, update)->Ok_0;
            &&& held(after, update.user) == held(leaves, update.user) + (if update.is_increase {
                update.amount as int
            } else {
                -(update.amount as int)
            })
            &&& forall|other: H160| other != update.user ==> held(after, other) == held(leaves, other)
        }),
{
}

/// Applies `updates` to `leaves` in their order. On an error the leaves
/// are left as they were.
pub fn update_leaves(
    leaves: &mut AddrMap<Amount>,
    updates: &Vec<UserAmount>,
) -> (res: Result<(), SmtError>)
    requires
        old(leaves).wf(),
    ensures
        final(leaves).wf(),
        match apply_updates(old(leaves)@, updates@) {
            Ok(after) => res is Ok && final(leaves)@ == after,
            Err(e) => res == Err::<(), SmtError>(e) && final(leaves)@ == old(leaves)@,
        },
{
    let ghost start = leaves@;
    let mut working = leaves.duplicate();
    let n: usize = updates.len();
    let mut i: usize = 0;
    proof {
        assert(updates@.take(0) =~= Seq::<UserAmount>::empty());
    }
    while i < n
        invariant
            i <= n,
            n == updates@.len(),
            working.wf(),
            leaves.wf(),
            leaves@ == start,
            start == old(leaves)@,
            apply_updates(start, updates@.take(i as int)) == Ok::<Map<H160, Amount>, SmtError>(
                working@,
            ),
        decreases n - i,
    {
        let update: UserAmount = updates[i];
        proof {
            assert(updates@.take(i + 1).drop_last() =~= updates@.take(i as int));
            assert(updates@.take(i + 1).last() == update);
        }
        let before: Amount = match working.get(&update.user) {
            Some(amount) => *amount,
            None => 0,
        };
        if update.is_increase {
            match before.checked_add(update.amount) {
                Some(sum) => {
                    working.insert(update.user, sum);
                },
                None => {
                    proof {
                        lemma_update_error_stays(start, updates@, i + 1);
                    }
                    return Err(SmtError::Overflow(update.user));
                },
            }
        } else if update.amount > before {
            proof {
                lemma_update_error_stays(start, updates@, i + 1);
            }
            return Err(SmtError::Underflow(update.user));
        } else {
            working.insert(update.user, before - update.amount);
        }
        i = i + 1;
    }
    proof {
        assert(updates@.take(n as int) =~= updates@);
    }
    *leaves = working;
    Ok(())
}

/// The leaves of a tree at each of its epochs.
#[derive(Debug)]
pub struct SmtLeaves {
    epochs: Vec<Epoch>,
    sets: Vec<AddrMap<Amount>>,
}

impl View for SmtLeaves {
    type V = Map<Epoch, Map<H160, Amount>>;

    closed spec fn view(&self) -> Map<Epoch, Map<H160, Amount>> {
        Map::new(
            |epoch: Epoch| self.epochs@.contains(epoch),
            |epoch: Epoch| self.sets@[self.epochs@.index_of(epoch)]@,
        )
    }
}

/// The leaves of the epoch `epoch`; an epoch that has not begun has none.
pub open spec fn leaves_at(tree: Map<Epoch, Map<H160, Amount>>, epoch: Epoch) -> Map<H160, Amount> {
    if tree.contains_key(epoch) {
        tree[epoch]
    } else {
        Map::empty()
    }
}

/// The leaves that an epoch begins with: those of the epoch before it.
pub open spec fn carried_over(tree: Map<Epoch, Map<H160, Amount>>, epoch: Epoch) -> Map<
    H160,
    Amount,
> {
    if epoch > 0 {
        leaves_at(tree, (epoch - 1) as u64)
    } else {
        Map::empty()
    }
}

/// The tree once the epoch has begun: an epoch that had begun already is
/// left as it is, and a new one begins with the leaves of the epoch before
/// it.
pub open spec fn with_epoch(tree: Map<Epoch, Map<H160, Amount>>, epoch: Epoch) -> Map<
    Epoch,
    Map<H160, Amount>,
> {
    if tree.contains_key(epoch) {
        tree
    } else {
        tree.insert(epoch, carried_over(tree, epoch))
    }
}

/// Beginning an epoch twice is beginning it once.
pub proof fn lemma_new_epoch_idempotent(tree: Map<Epoch, Map<H160, Amount>>, epoch: Epoch)
    ensures
        with_epoch(with_epoch(tree, epoch), epoch) == with_epoch(tree, epoch),
{
}

impl SmtLeaves {
    /// What holds of every value that this module hands out: each epoch
    /// stands once, with a valid set of leaves.
    pub closed spec fn wf(&self) -> bool {
        &&& self.epochs@.len() == self.sets@.len()
        &&& self.epochs@.no_duplicates()
        &&& forall|i: int| 0 <= i < self.sets@.len() ==> (#[trigger] self.sets@[i]).wf()
    }

    /// A tree in which no epoch has begun.
    pub fn new() -> (tree: SmtLeaves)
        ensures
            tree.wf(),
            tree@ == Map::<Epoch, Map<H160, Amount>>::empty(),
    {
        let tree = SmtLeaves { epochs: Vec::new(), sets: Vec::new() };
        assert(tree@ =~= Map::<Epoch, Map<H160, Amount>>::empty());
        tree
    }

    /// The place of the epoch among those that have begun.
    fn position(&self, epoch: Epoch) -> (place: Option<usize>)
        requires
            self.wf(),
        ensures
            place matches Some(i) ==> i < self.epochs@.len() && self.epochs@[i as int] == epoch
                && self@.contains_key(epoch) && self@[epoch] == self.sets@[i as int]@,
            place is None ==> !self@.contains_key(epoch) && !self.epochs@.contains(epoch),
    {
        let n: usize = self.epochs.len();
        let mut i: usize = 0;
        while i < n
            invariant
                i <= n,
                n == self.epochs@.len(),
                self.wf(),
                forall|j: int| 0 <= j < i ==> self.epochs@[j] != epoch,
            decreases n - i,
        {
            if self.epochs[i] == epoch {
                proof {
                    assert(self.epochs@.contains(epoch));
                    let first = self.epochs@.index_of(epoch);
                    assert(self.epochs@[first] == epoch);
                    assert(first == i);
                }
                return Some(i);
            }
            i = i + 1;
        }
        None
    }

    /// Begins the epoch with the leaves of the epoch before it. An epoch
    /// that has begun already is left as it is.
    pub fn new_epoch(&mut self, epoch: Epoch)
        requires
            old(self).wf(),
        ensures
            final(self).wf(),
            final(self)@ == with_epoch(old(self)@, epoch),
    {
        if self.position(epoch).is_some() {
            return ;
        }
        let carried: AddrMap<Amount> = if epoch > 0 {
            match self.position(epoch - 1) {
                Some(i) => self.sets[i].duplicate(),
                None => AddrMap::new(),
            }
        } else {
            AddrMap::new()
        };
        proof {
            assert(carried@ == carried_over(self@, epoch));
        }
        self.begin(epoch, carried);
    }

    /// Adds an epoch that has not begun, with its leaves.
    fn begin(&mut self, epoch: Epoch, leaves: AddrMap<Amount>)
        requires
            old(self).wf(),
            leaves.wf(),
            !old(self).epochs@.contains(epoch),
        ensures
            final(self).wf(),
            final(self)@ == old(self)@.insert(epoch, leaves@),
    {
        let ghost before = *self;
        self.epochs.push(epoch);
        self.sets.push(leaves);
        proof {
            let n = before.epochs@.len() as int;
            assert(self.epochs@.no_duplicates()) by {
                assert forall|a: int, b: int|
                    0 <= a < self.epochs@.len() && 0 <= b < self.epochs@.len() && a
                        != b implies self.epochs@[a] != self.epochs@[b] by {
                    if a < n && b < n {
                        assert(before.epochs@[a] != before.epochs@[b]);
                    } else if a < n {
                        assert(before.epochs@.contains(before.epochs@[a]));
                    } else {
                        assert(before.epochs@.contains(before.epochs@[b]));
                    }
                }
            }
            assert forall|e: Epoch| #[trigger] self@.contains_key(e) == before@.insert(
                epoch,
                leaves@,
            ).contains_key(e) by {
                if self.epochs@.contains(e) {
                    let i = self.epochs@.index_of(e);
                    if i < n {
                        assert(before.epochs@[i] == e);
                        assert(before.epochs@.contains(e));
                    }
                }
                if before.epochs@.contains(e) {
                    let i = before.epochs@.index_of(e);
                    assert(self.epochs@[i] == e);
                    assert(self.epochs@.contains(e));
                }
                if e == epoch {
                    assert(self.epochs@[n] == e);
                    assert(self.epochs@.contains(e));
                }
            }
            assert forall|e: Epoch| self@.contains_key(e) implies #[trigger] self@[e]
                == before@.insert(epoch, leaves@)[e] by {
                let i = self.epochs@.index_of(e);
                assert(self.epochs@[i] == e);
                if e == epoch {
                    if i < n {
                        assert(before.epochs@[i] == e);
                        assert(before.epochs@.contains(e));
                    }
                    assert(i == n);
                } else {
                    assert(i < n);
                    assert(before.epochs@[i] == e);
                    assert(before.epochs@.contains(e));
                    let j = before.epochs@.index_of(e);
                    assert(before.epochs@[j] == e);
                    assert(self.epochs@[j] == e);
                    assert(i == j);
                }
            }
            assert(self@ =~= before@.insert(epoch, leaves@));
        }
    }

    /// Applies `updates` to the leaves of the epoch in their order, and
    /// begins the epoch without leaves if it has not begun. On an error
    /// nothing is changed.
    pub fn insert(&mut self, epoch: Epoch, updates: &Vec<UserAmount>) -> (res: Result<(), SmtError>)
        requires
            old(self).wf(),
        ensures
            final(self).wf(),
            match apply_updates(leaves_at(old(self)@, epoch), updates@) {
                Ok(after) => res is Ok && final(self)@ == old(self)@.insert(epoch, after),
                Err(e) => res == Err::<(), SmtError>(e) && final(self)@ == old(self)@,
            },
    {
        match self.position(epoch) {
            Some(i) => {
                let mut leaves = self.sets[i].duplicate();
                match update_leaves(&mut leaves, updates) {
                    Ok(_) => {},
                    Err(e) => {
                        return Err(e);
                    },
                }
                let ghost before = *self;
                self.sets.set(i, leaves);
                proof {
                    assert forall|e: Epoch| self@.contains_key(e) implies #[trigger] self@[e]
                        == before@.insert(epoch, leaves@)[e] by {
                        let j = self.epochs@.index_of(e);
                        assert(self.epochs@[j] == e);
                        if e == epoch {
                            assert(j == i);
                        }
                    }
                    assert(self@ =~= before@.insert(epoch, leaves@));
                }
                Ok(())
            },
            None => {
                let mut leaves: AddrMap<Amount> = AddrMap::new();
                match update_leaves(&mut leaves, updates) {
                    Ok(_) => {},
                    Err(e) => {
                        return Err(e);
                    },
                }
                self.begin(epoch, leaves);
                Ok(())
            },
        }
    }

    /// What the leaf of `user` holds at the epoch, if there is such a leaf.
    pub fn get_amount(&self, epoch: Epoch, user: &H160) -> (amount: Option<Amount>)
        requires
            self.wf(),
        ensures
            amount == if leaves_at(self@, epoch).contains_key(*user) {
                Some(leaves_at(self@, epoch)[*user])
            } else {
                None
            },
    {
        match self.position(epoch) {
            Some(i) => match self.sets[i].get(user) {
                Some(amount) => Some(*amount),
                None => None,
            },
            None => None,
        }
    }

    /// All leaves of the epoch.
    pub fn get_sub_leaves(&self, epoch: Epoch) -> (leaves: AddrMap<Amount>)
        requires
            self.wf(),
        ensures
            leaves.wf(),
            leaves@ == leaves_at(self@, epoch),
    {
        match self.position(epoch) {
            Some(i) => self.sets[i].duplicate(),
            None => AddrMap::new(),
        }
    }
}

/// The leaves of the delegate tree: for each staker a tree of what its
/// delegators hold at each epoch.
#[derive(Debug)]
pub struct DelegateSmtLeaves {
    stakers: AddrMap<SmtLeaves>,
}

impl DelegateSmtLeaves {
    /// The tree of the delegators of `staker`; a staker without delegators
    /// has a tree in which no epoch has begun.
    pub closed spec fn tree_of(&self, staker: H160) -> Map<Epoch, Map<H160, Amount>> {
        if self.stakers@.contains_key(staker) {
            self.stakers@[staker]@
        } else {
            Map::empty()
        }
    }

    /// What holds of every value that this module hands out: the tree of
    /// each staker is valid.
    pub closed spec fn wf(&self) -> bool {
        &&& self.stakers.wf()
        &&& forall|staker: H160| #[trigger]
            self.stakers@.contains_key(staker) ==> self.stakers@[staker].wf()
    }

    /// A tree without delegators.
    pub fn new() -> (tree: DelegateSmtLeaves)
        ensures
            tree.wf(),
            forall|staker: H160| #[trigger]
                tree.tree_of(staker) == Map::<Epoch, Map<H160, Amount>>::empty(),
    {
        DelegateSmtLeaves { stakers: AddrMap::new() }
    }

    /// Takes the tree of the staker out, or a new one if it has none.
    fn take(&mut self, staker: &H160) -> (tree: SmtLeaves)
        requires
            old(self).wf(),
        ensures
            final(self).wf(),
            tree.wf(),
            tree@ == old(self).tree_of(*staker),
            final(self).stakers@ == old(self).stakers@.remove(*staker),
    {
        match self.stakers.remove(staker) {
            Some(tree) => tree,
            None => SmtLeaves::new(),
        }
    }

    /// Begins the epoch for the delegators of every staker, each with the
    /// leaves of the epoch before it. Where the epoch has begun already it
    /// is left as it is.
    pub fn new_epoch(&mut self, epoch: Epoch)
        requires
            old(self).wf(),
        ensures
            final(self).wf(),
            forall|staker: H160| #[trigger]
                final(self).tree_of(staker) == with_epoch_of_delegators(
                    old(self).tree_of(staker),
                    old(self).has_delegators(staker),
                    epoch,
                ),
            forall|staker: H160| #[trigger]
                final(self).has_delegators(staker) == old(self).has_delegators(staker),
    {
        let n: usize = self.stakers.len();
        let mut keys: Vec<H160> = Vec::new();
        let mut i: usize = 0;
        while i < n
            invariant
                i <= n,
                n == self.stakers.entries().len(),
                self.stakers.wf(),
                keys@.len() == i,
                forall|j: int| 0 <= j < i ==> #[trigger] keys@[j] == self.stakers.entries()[j].0,
            decreases n - i,
        {
            keys.push(self.stakers.key_at(i));
            i = i + 1;
        }
        proof {
            assert forall|staker: H160| self.stakers@.contains_key(staker) implies keys@.contains(
                staker,
            ) by {
                let j = crate::addr_map::lemma_key_index(self.stakers.entries(), staker);
                assert(keys@[j] == staker);
            }
        }
        let ghost before = *self;
        let mut k: usize = 0;
        while k < n
            invariant
                k <= n,
                n == keys@.len(),
                self.wf(),
                before.wf(),
                before == *old(self),
                self.stakers@.dom() == before.stakers@.dom(),
                forall|staker: H160| #[trigger]
                    before.stakers@.contains_key(staker) ==> keys@.contains(staker),
                forall|staker: H160| #[trigger]
                    self.stakers@.contains_key(staker) ==> self.stakers@[staker]@
                        == before.stakers@[staker]@ || self.stakers@[staker]@ == with_epoch(
                        before.stakers@[staker]@,
                        epoch,
                    ),
                forall|j: int|
                    0 <= j < k && before.stakers@.contains_key(#[trigger] keys@[j])
                        ==> self.stakers@[keys@[j]]@ == with_epoch(
                        before.stakers@[keys@[j]]@,
                        epoch,
                    ),
            decreases n - k,
        {
            let staker: H160 = keys[k];
            let ghost mid = self.stakers@;
            if self.stakers.contains_key(&staker) {
                let mut tree = self.take(&staker);
                tree.new_epoch(epoch);
                proof {
                    lemma_new_epoch_idempotent(before.stakers@[staker]@, epoch);
                }
                self.stakers.insert(staker, tree);
                proof {
                    assert(self.stakers@.dom() =~= mid.dom());
                    assert forall|j: int|
                        0 <= j < k + 1 && before.stakers@.contains_key(
                            #[trigger] keys@[j],
                        ) implies self.stakers@[keys@[j]]@ == with_epoch(
                        before.stakers@[keys@[j]]@,
                        epoch,
                    ) by {
                        if keys@[j] != staker {
                            assert(self.stakers@[keys@[j]] == mid[keys@[j]]);
                        }
                    }
                }
            }
            k = k + 1;
        }
        proof {
            assert forall|staker: H160| #[trigger]
                self.tree_of(staker) == with_epoch_of_delegators(
                    before.tree_of(staker),
                    before.has_delegators(staker),
                    epoch,
                ) by {
                if before.stakers@.contains_key(staker) {
                    assert(keys@.contains(staker));
                    let j = choose|j: int| 0 <= j < keys@.len() && keys@[j] == staker;
                    assert(self.stakers@[keys@[j]]@ == with_epoch(before.stakers@[keys@[j]]@, epoch));
                }
            }
        }
    }

    /// Whether a tree is kept for the delegators of `staker`.
    pub closed spec fn has_delegators(&self, staker: H160) -> bool {
        self.stakers@.contains_key(staker)
    }

    /// Applies `updates` to what the delegators of `staker` hold at the
    /// epoch, in their order. On an error no leaf is changed.
    pub fn insert(
        &mut self,
        epoch: Epoch,
        staker: H160,
        updates: &Vec<UserAmount>,
    ) -> (res: Result<(), SmtError>)
        requires
            old(self).wf(),
        ensures
            final(self).wf(),
            final(self).has_delegators(staker) == (res is Ok || old(self).has_delegators(staker)),
            forall|other: H160|
                other != staker ==> #[trigger] final(self).tree_of(other) == old(self).tree_of(other)
                    && final(self).has_delegators(other) == old(self).has_delegators(other),
            match apply_updates(leaves_at(old(self).tree_of(staker), epoch), updates@) {
                Ok(after) => res is Ok && final(self).tree_of(staker) == old(self).tree_of(
                    staker,
                ).insert(epoch, after),
                Err(e) => res == Err::<(), SmtError>(e) && final(self).tree_of(staker) == old(
                    self,
                ).tree_of(staker),
            },
    {
        let kept: bool = self.stakers.contains_key(&staker);
        let mut tree = self.take(&staker);
        let res = tree.insert(epoch, updates);
        if kept || res.is_ok() {
            self.stakers.insert(staker, tree);
        }
        res
    }

    /// What the leaf of `delegator` under `staker` holds at the epoch, if
    /// there is such a leaf.
    pub fn get_amount(
        &self,
        epoch: Epoch,
        staker: &H160,
        delegator: &H160,
    ) -> (amount: Option<Amount>)
        requires
            self.wf(),
        ensures
            amount == if leaves_at(self.tree_of(*staker), epoch).contains_key(*delegator) {
                Some(leaves_at(self.tree_of(*staker), epoch)[*delegator])
            } else {
                None
            },
    {
        match self.stakers.get(staker) {
            Some(tree) => tree.get_amount(epoch, delegator),
            None => None,
        }
    }
}

/// The tree of the delegators of one staker once the epoch has begun for
/// all stakers of which a tree is kept.
pub open spec fn with_epoch_of_delegators(
    tree: Map<Epoch, Map<H160, Amount>>,
    kept: bool,
    epoch: Epoch,
) -> Map<Epoch, Map<H160, Amount>> {
    if kept {
        with_epoch(tree, epoch)
    } else {
        tree
    }
}

} // verus!
