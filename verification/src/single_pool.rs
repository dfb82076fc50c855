//! One pool whose users' holdings are kept in an internal ledger.
//!
//! A swap debits the caller's holding of the input asset, prices the input
//! against the pool's two reserves, and credits the output to the caller's
//! holding of the other asset. A swap that fails changes nothing.

use crate::account::AccountId;
use crate::ledger::Ledger;
use crate::pricing::{
    amount_out, lemma_kept_at_most_reserve, lemma_nothing_in_nothing_out, quote_swap,
};
use crate::wide::Wide;
use vstd::prelude::*;

verus! {

/// Why a call was refused.
#[derive(Clone, Copy, Debug, PartialEq, Eq, Structural)]
pub enum Error {
    /// Kept for hosts that tell a lack of funds apart. The operations here
    /// report a holding that is too small as `Math`, as the underflow it is.
    NotEnoughBalance,
    /// The asset index is neither 0 nor 1.
    WrongIndex,
    /// An amount went below zero or beyond 128 bits, or the pricing rule
    /// had to divide by zero.
    Math,
}

/// The record of one swap, for the host to publish.
#[derive(Clone, Copy, Debug, PartialEq, Eq)]
pub struct Swapped {
    pub index_in: u32,
    pub amount_in: u128,
    pub amount_out: u128,
    pub who: AccountId,
}

/// The pool and the ledger of its users.
#[derive(Clone, Debug, PartialEq, Eq)]
pub struct Contract {
    balances: Ledger,
    pool_balances: [u128; 2],
}

/// What a [`Contract`] holds: the holdings by account and asset index, and
/// the two reserves.
pub struct State {
    pub balances: Map<(AccountId, u32), u128>,
    pub pool_balances: Seq<u128>,
}

/// What `who` holds of the asset at `index`: zero where nothing was written.
pub open spec fn held(balances: Map<(AccountId, u32), u128>, who: AccountId, index: u32) -> nat {
    if balances.dom().contains((who, index)) {
        balances[(who, index)] as nat
    } else {
        0
    }
}

/// Whether a swap with a valid index must be refused for its arithmetic: the
/// caller holds less than the input, the input side would stay empty, or the
/// caller's holding of the output asset or the input reserve would pass the
/// largest 128-bit amount.
pub open spec fn swap_overflows(s: State, caller: AccountId, amount_in: u128, index_in: u32) -> bool
    recommends
        index_in <= 1,
        s.pool_balances.len() == 2,
{
    let index_out = (1 - index_in) as u32;
    let reserve_in = s.pool_balances[index_in as int] as nat;
    let reserve_out = s.pool_balances[index_out as int] as nat;
    ||| held(s.balances, caller, index_in) < amount_in
    ||| reserve_in + amount_in == 0
    ||| held(s.balances, caller, index_out) + amount_out(reserve_in, reserve_out, amount_in as nat)
        > u128::MAX
    ||| reserve_in + amount_in > u128::MAX
}

/// The state that a successful swap leaves.
pub open spec fn state_after_swap(
    s: State,
    caller: AccountId,
    amount_in: u128,
    index_in: u32,
) -> State
    recommends
        index_in <= 1,
        s.pool_balances.len() == 2,
        !swap_overflows(s, caller, amount_in, index_in),
{
    let index_out = (1 - index_in) as u32;
    let reserve_in = s.pool_balances[index_in as int] as nat;
    let reserve_out = s.pool_balances[index_out as int] as nat;
    let paid = amount_out(reserve_in, reserve_out, amount_in as nat);
    State {
        balances: s.balances.insert(
            (caller, index_in),
            (held(s.balances, caller, index_in) - amount_in) as u128,
        ).insert((caller, index_out), (held(s.balances, caller, index_out) + paid) as u128),
        pool_balances: s.pool_balances.update(
            index_in as int,
            (reserve_in + amount_in) as u128,
        ).update(index_out as int, (reserve_out - paid) as u128),
    }
}

/// A swap of nothing, where it is accepted, leaves both reserves as they
/// were.
pub proof fn lemma_empty_swap(s: State, caller: AccountId, index_in: u32)
    requires
        s.pool_balances.len() == 2,
        index_in <= 1,
        !swap_overflows(s, caller, 0, index_in),
    ensures
        state_after_swap(s, caller, 0, index_in).pool_balances == s.pool_balances,
{
    let index_out = (1 - index_in) as u32;
    lemma_nothing_in_nothing_out(
        s.pool_balances[index_in as int] as nat,
        s.pool_balances[index_out as int] as nat,
    );
    assert(state_after_swap(s, caller, 0, index_in).pool_balances =~= s.pool_balances);
}

/// A swap moves the input from the caller's holding to the reserve of the
/// input asset, and the output from the reserve of the other asset to the
/// caller's holding of it: of each asset, holding and reserve together are
/// what they were.
pub proof fn lemma_swap_conserves(s: State, caller: AccountId, amount_in: u128, index_in: u32)
    requires
        s.pool_balances.len() == 2,
        index_in <= 1,
        !swap_overflows(s, caller, amount_in, index_in),
    ensures
        ({
            let after = state_after_swap(s, caller, amount_in, index_in);
            forall|index: u32|
                index <= 1 ==> #[trigger] held(after.balances, caller, index)
                    + after.pool_balances[index as int] == held(s.balances, caller, index)
                    + s.pool_balances[index as int]
        }),
{
    let index_out = (1 - index_in) as u32;
    lemma_kept_at_most_reserve(
        s.pool_balances[index_in as int] as nat,
        s.pool_balances[index_out as int] as nat,
        amount_in as nat,
    );
}

impl Contract {
    /// The ledger keeps each key once.
    pub closed spec fn wf(&self) -> bool {
        self.balances.wf()
    }

    /// The holdings and the reserves.
    pub closed spec fn view(&self) -> State {
        State { balances: self.balances@, pool_balances: self.pool_balances@ }
    }

    /// A pool with the reserves `balance_0` and `balance_1`, in whose ledger
    /// `caller` holds `holding` of each asset.
    pub fn new(caller: AccountId, balance_0: u128, balance_1: u128, holding: u128) -> (contract:
        Contract)
        ensures
            contract.wf(),
            contract@.balances == Map::<(AccountId, u32), u128>::empty().insert(
                (caller, 0u32),
                holding,
            ).insert((caller, 1u32), holding),
            contract@.pool_balances == seq![balance_0, balance_1],
    {
        let mut balances = Ledger::new();
        balances.insert(caller, 0, holding);
        balances.insert(caller, 1, holding);
        let contract = Contract { balances, pool_balances: [balance_0, balance_1] };
        proof {
            assert(contract@.pool_balances =~= seq![balance_0, balance_1]);
        }
        contract
    }

    /// The contract that holds the ledger `balances` and the reserves
    /// `pool_balances`.
    pub fn from_parts(balances: Ledger, pool_balances: [u128; 2]) -> (contract: Contract)
        requires
            balances.wf(),
        ensures
            contract.wf(),
            contract@ == (State { balances: balances@, pool_balances: pool_balances@ }),
    {
        Contract { balances, pool_balances }
    }

    /// The ledger of the contract.
    pub fn balances(&self) -> (ledger: &Ledger)
        ensures
            ledger@ == self@.balances,
            ledger.wf() == self.wf(),
    {
        &self.balances
    }

    /// What `who` holds of the asset at `index`.
    pub fn balance_of(&self, who: AccountId, index: u32) -> (amount: u128)
        requires
            self.wf(),
        ensures
            amount == held(self@.balances, who, index),
    {
        match self.balances.get(who, index) {
            Some(amount) => amount,
            None => 0,
        }
    }

    /// The two reserves.
    pub fn pool_balances(&self) -> (reserves: [u128; 2])
        ensures
            reserves@ == self@.pool_balances,
    {
        self.pool_balances
    }

    /// Adds `amount` to what `who` holds at `index`. Refused with `Math`,
    /// and nothing written, where the sum passes the largest 128-bit amount.
    pub fn increase_balance(&mut self, who: AccountId, index: u32, amount: u128) -> (r: Result<
        (),
        Error,
    >)
        requires
            old(self).wf(),
        ensures
            final(self).wf(),
            r.is_ok() <==> held(old(self)@.balances, who, index) + amount <= u128::MAX,
            r.is_ok() ==> final(self)@ == (State {
                balances: old(self)@.balances.insert(
                    (who, index),
                    (held(old(self)@.balances, who, index) + amount) as u128,
                ),
                pool_balances: old(self)@.pool_balances,
            }),
            r.is_err() ==> r == Err::<(), Error>(Error::Math) && *final(self) == *old(self),
    {
        let balance = self.balance_of(who, index);
        match balance.checked_add(amount) {
            Some(sum) => {
                self.balances.insert(who, index, sum);
                Ok(())
            },
            None => Err(Error::Math),
        }
    }

    /// Takes `amount` from what `who` holds at `index`. Refused with `Math`,
    /// and nothing written, where `who` holds less than `amount`.
    pub fn decrease_balance(&mut self, who: AccountId, index: u32, amount: u128) -> (r: Result<
        (),
        Error,
    >)
        requires
            old(self).wf(),
        ensures
            final(self).wf(),
            r.is_ok() <==> held(old(self)@.balances, who, index) >= amount,
            r.is_ok() ==> final(self)@ == (State {
                balances: old(self)@.balances.insert(
                    (who, index),
                    (held(old(self)@.balances, who, index) - amount) as u128,
                ),
                pool_balances: old(self)@.pool_balances,
            }),
            r.is_err() ==> r == Err::<(), Error>(Error::Math) && *final(self) == *old(self),
    {
        let balance = self.balance_of(who, index);
        match balance.checked_sub(amount) {
            Some(rest) => {
                self.balances.insert(who, index, rest);
                Ok(())
            },
            None => Err(Error::Math),
        }
    }

    /// A second contract in the same state, for work that may yet fail.
    fn snapshot(&self) -> (copy: Contract)
        ensures
            copy@ == self@,
            copy.wf() == self.wf(),
    {
        Contract { balances: self.balances.snapshot(), pool_balances: self.pool_balances }
    }

    /// Swaps `amount_in` of the asset at `index_in` for the other asset, on
    /// behalf of `caller`, and returns the record to publish.
    ///
    /// Refused with `WrongIndex` where `index_in` is neither 0 nor 1, and
    /// with `Math` where [`swap_overflows`] holds. A refused swap leaves the
    /// contract as it was.
    pub fn swap(&mut self, caller: AccountId, amount_in: u128, index_in: u32) -> (r: Result<
        Swapped,
        Error,
    >)
        requires
            old(self).wf(),
        ensures
            final(self).wf(),
            index_in > 1 ==> r == Err::<Swapped, Error>(Error::WrongIndex),
            index_in <= 1 && swap_overflows(old(self)@, caller, amount_in, index_in) ==> r
                == Err::<Swapped, Error>(Error::Math),
            index_in <= 1 && !swap_overflows(old(self)@, caller, amount_in, index_in) ==> r == Ok::<
                Swapped,
                Error,
            >(
                Swapped {
                    index_in,
                    amount_in,
                    amount_out: amount_out(
                        old(self)@.pool_balances[index_in as int] as nat,
                        old(self)@.pool_balances[1 - index_in] as nat,
                        amount_in as nat,
                    ) as u128,
                    who: caller,
                },
            ) && final(self)@ == state_after_swap(old(self)@, caller, amount_in, index_in),
            r.is_err() ==> *final(self) == *old(self),
    {
        if index_in > 1 {
            return Err(Error::WrongIndex);
        }
        let index_out: u32 = 1 - index_in;
        let mut work = self.snapshot();
        match work.decrease_balance(caller, index_in, amount_in) {
            Ok(()) => {},
            Err(e) => { return Err(e); },
        }
        let reserve_in: u128 = work.pool_balances[index_in as usize];
        let reserve_out: u128 = work.pool_balances[index_out as usize];
        let paid: u128 = match quote_swap(reserve_in, reserve_out, amount_in) {
            Some(paid) => paid,
            None => { return Err(Error::Math); },
        };
        match work.increase_balance(caller, index_out, paid) {
            Ok(()) => {},
            Err(e) => { return Err(e); },
        }
        let reserve_in_after: u128 = match Wide::from_u128(reserve_in).checked_add(
            Wide::from_u128(amount_in),
        ) {
            Some(sum) => match sum.to_u128() {
                Some(sum) => sum,
                None => { return Err(Error::Math); },
            },
            None => { return Err(Error::Math); },
        };
        let reserve_out_after: u128 = match Wide::from_u128(reserve_out).checked_sub(
            Wide::from_u128(paid),
        ) {
            Some(rest) => match rest.to_u128() {
                Some(rest) => rest,
                None => { return Err(Error::Math); },
            },
            None => { return Err(Error::Math); },
        };
        work.pool_balances[index_in as usize] = reserve_in_after;
        work.pool_balances[index_out as usize] = reserve_out_after;
        proof {
            assert(work@.balances =~= state_after_swap(
                old(self)@,
                caller,
                amount_in,
                index_in,
            ).balances);
            assert(work@.pool_balances =~= state_after_swap(
                old(self)@,
                caller,
                amount_in,
                index_in,
            ).pool_balances);
        }
        *self = work;
        Ok(Swapped { index_in, amount_in, amount_out: paid, who: caller })
    }
}

} // verus!
