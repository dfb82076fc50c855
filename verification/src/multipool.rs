//! A registry of pools over pairs of assets, with pool creation, liquidity
//! provision and swaps routed through several pools.
//!
//! The registry moves no assets itself. Deposits are taken into custody by
//! its host, which tells [`Contract::new_pool`] and
//! [`Contract::provide_liquidity`] how each of the two deposits went; the
//! input of a swap is taken before [`Contract::swap`] is called and its
//! output paid after. A call that fails changes nothing.

use crate::account::AccountId;
use crate::pricing::{
    amount_out, initial_shares, lemma_kept_at_most_reserve, lemma_nothing_in_nothing_out,
    quote_shares, quote_swap, shares_for,
};
use crate::wide::is_floor_sqrt;
use vstd::prelude::*;

verus! {

/// The fee of a pool is given in parts of this number.
pub const FEE_DENOMINATOR: u32 = 10000;

/// Why a call was refused.
#[derive(Clone, Copy, Debug, PartialEq, Eq, Structural)]
pub enum Error {
    /// A deposit is empty.
    NotEnoughBalance,
    /// There is no pool with that identifier, or the pool does not hold the
    /// asset.
    WrongIndex,
    /// An amount went beyond 128 bits, a division was by zero, or the
    /// registry has no identifier left.
    Math,
    /// The two assets of a new pool are the same.
    EqualTokens,
    /// Kept for hosts that allow one pool per pair of assets. No operation
    /// here returns it.
    PoolAlreadyExists,
    /// Custody did not move a deposit.
    PSP22Error,
    /// The fee is zero or not below [`FEE_DENOMINATOR`].
    WrongFee,
    /// The chain of hops ends in another asset than the one asked for.
    WrongSwapArgs,
    /// The chain of hops gives less than the least amount asked for.
    ReceivedTooLowAmount,
}

/// The record of one routed swap, for the host to publish.
#[derive(Clone, Copy, Debug, PartialEq, Eq)]
pub struct Swapped {
    pub token_in: AccountId,
    pub token_out: AccountId,
    pub amount_in: u128,
    pub amount_out: u128,
    pub who: AccountId,
}

/// One pool: two assets, what the pool holds of each, the shares issued when
/// it was created, and its fee. The fee is stored with the pool; the pricing
/// rule does not apply it.
#[derive(Clone, Copy, Debug, PartialEq, Eq)]
pub struct Pool {
    pub fee: u32,
    pub total_shares: u128,
    pub tokens: [AccountId; 2],
    pub balances: [u128; 2],
}

/// One deposit that custody is to take from the caller of an operation.
#[derive(Clone, Copy, Debug, PartialEq, Eq)]
pub struct Deposit {
    pub token: AccountId,
    pub amount: u128,
}

/// A pool as mathematics: its two assets and its two reserves as sequences
/// of length two.
pub struct PoolView {
    pub fee: u32,
    pub total_shares: u128,
    pub tokens: Seq<AccountId>,
    pub balances: Seq<u128>,
}

impl View for Pool {
    type V = PoolView;

    open spec fn view(&self) -> PoolView {
        PoolView {
            fee: self.fee,
            total_shares: self.total_shares,
            tokens: self.tokens@,
            balances: self.balances@,
        }
    }
}

/// The registry: the pools in the order of their creation. A pool's
/// identifier is its place in that order, and `pool_counter` is the
/// identifier that the next pool will get.
#[derive(Clone, Debug, PartialEq, Eq)]
pub struct Contract {
    pool_counter: u32,
    pools: Vec<Pool>,
}

/// A pool has two assets, which differ, and a reserve of each.
pub open spec fn valid_pool(pool: PoolView) -> bool {
    &&& pool.tokens.len() == 2
    &&& pool.balances.len() == 2
    &&& pool.tokens[0] != pool.tokens[1]
}

/// Every pool of `pools` is a valid one.
pub open spec fn valid_pools(pools: Seq<PoolView>) -> bool {
    forall|i: int| 0 <= i < pools.len() ==> valid_pool(#[trigger] pools[i])
}

/// The side of `pool` that holds `token`.
pub open spec fn side_of(pool: PoolView, token: AccountId) -> Option<int> {
    if pool.tokens[0] == token {
        Some(0int)
    } else if pool.tokens[1] == token {
        Some(1int)
    } else {
        None
    }
}

/// One hop: a swap of `amount_in` of `token_in` in the pool `pool_index`.
/// It gives the pools after the swap, the asset that came out and how much
/// of it, or the reason for which the hop is refused.
pub open spec fn hop(pools: Seq<PoolView>, token_in: AccountId, amount_in: u128, pool_index: u32)
    -> Result<(Seq<PoolView>, AccountId, u128), Error> {
    if pool_index >= pools.len() {
        Err(Error::WrongIndex)
    } else {
        let pool = pools[pool_index as int];
        match side_of(pool, token_in) {
            None => Err(Error::WrongIndex),
            Some(index_in) => {
                let index_out = 1 - index_in;
                let reserve_in = pool.balances[index_in] as nat;
                let reserve_out = pool.balances[index_out] as nat;
                if reserve_in + amount_in == 0 || reserve_in + amount_in > u128::MAX {
                    Err(Error::Math)
                } else {
                    let paid = amount_out(reserve_in, reserve_out, amount_in as nat);
                    Ok(
                        (
                            pools.update(
                                pool_index as int,
                                PoolView {
                                    balances: pool.balances.update(
                                        index_in,
                                        (reserve_in + amount_in) as u128,
                                    ).update(index_out, (reserve_out - paid) as u128),
                                    ..pool
                                },
                            ),
                            pool.tokens[index_out],
                            paid as u128,
                        ),
                    )
                }
            },
        }
    }
}

/// A chain of hops through the pools of `path`, each taking what the one
/// before it gave. It stops at the first hop that is refused.
pub open spec fn route(pools: Seq<PoolView>, token_in: AccountId, amount_in: u128, path: Seq<u32>)
    -> Result<(Seq<PoolView>, AccountId, u128), Error>
    decreases path.len(),
{
    if path.len() == 0 {
        Ok((pools, token_in, amount_in))
    } else {
        match hop(pools, token_in, amount_in, path[0]) {
            Err(e) => Err(e),
            Ok((after, token, amount)) => route(after, token, amount, path.drop_first()),
        }
    }
}

/// Why a new pool is refused before any deposit is taken, if it is: equal
/// assets, then an empty deposit, then a fee outside the range.
pub open spec fn new_pool_invalid(
    token_0: AccountId,
    balance_0: u128,
    token_1: AccountId,
    balance_1: u128,
    fee: u32,
) -> Option<Error> {
    if token_0 == token_1 {
        Some(Error::EqualTokens)
    } else if balance_0 == 0 || balance_1 == 0 {
        Some(Error::NotEnoughBalance)
    } else if fee == 0 || fee >= FEE_DENOMINATOR {
        Some(Error::WrongFee)
    } else {
        None
    }
}

/// Why a new pool is refused, if it is: for what [`new_pool_invalid`] says,
/// then for a deposit that custody did not receive, then because the
/// registry has given out its last identifier.
pub open spec fn new_pool_refusal(
    pools: Seq<PoolView>,
    token_0: AccountId,
    balance_0: u128,
    token_1: AccountId,
    balance_1: u128,
    fee: u32,
    received: Seq<bool>,
) -> Option<Error> {
    match new_pool_invalid(token_0, balance_0, token_1, balance_1, fee) {
        Some(e) => Some(e),
        None => if !received[0] || !received[1] {
            Some(Error::PSP22Error)
        } else if pools.len() >= u32::MAX {
            Some(Error::Math)
        } else {
            None
        },
    }
}

/// Why a provision of liquidity is refused before any deposit is taken, if
/// it is: no such pool, then an empty deposit.
pub open spec fn liquidity_invalid(
    pools: Seq<PoolView>,
    pool_index: u32,
    balance_0: u128,
    balance_1: u128,
) -> Option<Error> {
    if pool_index >= pools.len() {
        Some(Error::WrongIndex)
    } else if balance_0 == 0 || balance_1 == 0 {
        Some(Error::NotEnoughBalance)
    } else {
        None
    }
}

/// Whether a deposit into one side of a pool is beyond its arithmetic: the
/// side is empty, or the shares it is worth or the reserve after it pass the
/// largest 128-bit amount.
pub open spec fn deposit_overflows(pool: PoolView, side: int, deposit: u128) -> bool {
    let reserve = pool.balances[side] as nat;
    ||| reserve == 0
    ||| shares_for(deposit as nat, pool.total_shares as nat, reserve) > u128::MAX
    ||| reserve + deposit > u128::MAX
}

/// Why a provision of liquidity is refused, if it is: for what
/// [`liquidity_invalid`] says, or for one of the two deposits, taken in
/// turn. Each must have been received and be within the arithmetic before
/// the next one is looked at.
pub open spec fn liquidity_refusal(
    pools: Seq<PoolView>,
    pool_index: u32,
    balance_0: u128,
    balance_1: u128,
    received: Seq<bool>,
) -> Option<Error> {
    match liquidity_invalid(pools, pool_index, balance_0, balance_1) {
        Some(e) => Some(e),
        None => if !received[0] {
            Some(Error::PSP22Error)
        } else if deposit_overflows(pools[pool_index as int], 0, balance_0) {
            Some(Error::Math)
        } else if !received[1] {
            Some(Error::PSP22Error)
        } else if deposit_overflows(pools[pool_index as int], 1, balance_1) {
            Some(Error::Math)
        } else {
            None
        },
    }
}

/// The shares that an accepted provision of liquidity mints: the smaller of
/// what the two deposits are worth.
pub open spec fn liquidity_shares(pool: PoolView, balance_0: u128, balance_1: u128) -> nat {
    let shares_0 = shares_for(balance_0 as nat, pool.total_shares as nat, pool.balances[0] as nat);
    let shares_1 = shares_for(balance_1 as nat, pool.total_shares as nat, pool.balances[1] as nat);
    if shares_0 <= shares_1 {
        shares_0
    } else {
        shares_1
    }
}

/// A hop of nothing, where it is accepted, pays out nothing and leaves every
/// pool as it was.
pub proof fn lemma_empty_hop(pools: Seq<PoolView>, token_in: AccountId, pool_index: u32)
    requires
        valid_pools(pools),
        hop(pools, token_in, 0, pool_index).is_ok(),
    ensures
        hop(pools, token_in, 0, pool_index).unwrap().0 == pools,
        hop(pools, token_in, 0, pool_index).unwrap().2 == 0,
{
    let pool = pools[pool_index as int];
    assert(valid_pool(pool));
    let index_in = side_of(pool, token_in).unwrap();
    let index_out = 1 - index_in;
    lemma_nothing_in_nothing_out(pool.balances[index_in] as nat, pool.balances[index_out] as nat);
    let after = hop(pools, token_in, 0, pool_index).unwrap().0;
    assert(after[pool_index as int].balances =~= pool.balances);
    assert(after =~= pools);
}

/// A chain without hops gives back what was put in and touches no pool.
pub proof fn lemma_empty_route(pools: Seq<PoolView>, token_in: AccountId, amount_in: u128)
    ensures
        route(pools, token_in, amount_in, Seq::<u32>::empty()) == Ok::<
            (Seq<PoolView>, AccountId, u128),
            Error,
        >((pools, token_in, amount_in)),
{
}

/// A hop changes no pool but the one it goes through, and of that one only
/// the two reserves: what goes in is added to one, what comes out is taken
/// from the other.
pub proof fn lemma_hop_frame(
    pools: Seq<PoolView>,
    token_in: AccountId,
    amount_in: u128,
    pool_index: u32,
)
    requires
        valid_pools(pools),
        hop(pools, token_in, amount_in, pool_index).is_ok(),
    ensures
        ({
            let (after, token, amount) = hop(pools, token_in, amount_in, pool_index).unwrap();
            let index_in = side_of(pools[pool_index as int], token_in).unwrap();
            &&& after.len() == pools.len()
            &&& valid_pools(after)
            &&& forall|i: int| 0 <= i < pools.len() && i != pool_index ==> after[i] == pools[i]
            &&& after[pool_index as int].fee == pools[pool_index as int].fee
            &&& after[pool_index as int].total_shares == pools[pool_index as int].total_shares
            &&& after[pool_index as int].tokens == pools[pool_index as int].tokens
            &&& token == pools[pool_index as int].tokens[1 - index_in]
            &&& after[pool_index as int].balances[index_in] == pools[pool_index as int].balances[index_in]
                + amount_in
            &&& after[pool_index as int].balances[1 - index_in] + amount
                == pools[pool_index as int].balances[1 - index_in]
        }),
{
    let pool = pools[pool_index as int];
    assert(valid_pool(pool));
    let index_in = side_of(pool, token_in).unwrap();
    lemma_kept_at_most_reserve(
        pool.balances[index_in] as nat,
        pool.balances[1 - index_in] as nat,
        amount_in as nat,
    );
}

/// A chain of one hop is that hop.
pub proof fn lemma_route_one(
    pools: Seq<PoolView>,
    token_in: AccountId,
    amount_in: u128,
    pool_index: u32,
)
    ensures
        route(pools, token_in, amount_in, seq![pool_index]) == hop(
            pools,
            token_in,
            amount_in,
            pool_index,
        ),
{
    let path = seq![pool_index];
    assert(path.drop_first() =~= Seq::<u32>::empty());
    match hop(pools, token_in, amount_in, pool_index) {
        Ok((after, token, amount)) => {
            lemma_empty_route(after, token, amount);
        },
        Err(_) => {},
    }
}

/// A chain through `first` and then `second` is the chain through `first`,
/// followed from where it ends by the chain through `second`.
pub proof fn lemma_route_append(
    pools: Seq<PoolView>,
    token_in: AccountId,
    amount_in: u128,
    first: Seq<u32>,
    second: Seq<u32>,
)
    ensures
        route(pools, token_in, amount_in, first + second) == match route(
            pools,
            token_in,
            amount_in,
            first,
        ) {
            Err(e) => Err(e),
            Ok((after, token, amount)) => route(after, token, amount, second),
        },
    decreases first.len(),
{
    if first.len() == 0 {
        assert(first + second =~= second);
    } else {
        assert((first + second)[0] == first[0]);
        assert((first + second).drop_first() =~= first.drop_first() + second);
        match hop(pools, token_in, amount_in, first[0]) {
            Ok((after, token, amount)) => {
                lemma_route_append(after, token, amount, first.drop_first(), second);
            },
            Err(_) => {},
        }
    }
}

/// A chain of hops, where it is accepted, keeps the number of pools, and of
/// every pool its assets, its fee and its shares: only reserves move.
pub proof fn lemma_route_frame(
    pools: Seq<PoolView>,
    token_in: AccountId,
    amount_in: u128,
    path: Seq<u32>,
)
    requires
        valid_pools(pools),
        route(pools, token_in, amount_in, path).is_ok(),
    ensures
        ({
            let after = route(pools, token_in, amount_in, path).unwrap().0;
            &&& after.len() == pools.len()
            &&& valid_pools(after)
            &&& forall|i: int|
                0 <= i < pools.len() ==> (#[trigger] after[i]).fee == pools[i].fee
                    && after[i].total_shares == pools[i].total_shares && after[i].tokens
                    == pools[i].tokens
        }),
    decreases path.len(),
{
    if path.len() > 0 {
        lemma_hop_frame(pools, token_in, amount_in, path[0]);
        let (mid, token, amount) = hop(pools, token_in, amount_in, path[0]).unwrap();
        lemma_route_frame(mid, token, amount, path.drop_first());
    }
}

/// The side of `pool` that holds `token`.
fn token_side(pool: &Pool, token: AccountId) -> (side: Option<usize>)
    ensures
        match side {
            Some(i) => side_of(pool@, token) == Some(i as int),
            None => side_of(pool@, token).is_none(),
        },
{
    if pool.tokens[0] == token {
        Some(0)
    } else if pool.tokens[1] == token {
        Some(1)
    } else {
        None
    }
}

impl Contract {
    /// The counter is the number of pools, and the two assets of each pool
    /// differ.
    pub closed spec fn wf(&self) -> bool {
        &&& self.pools@.len() == self.pool_counter
        &&& forall|i: int|
            0 <= i < self.pools@.len() ==> (#[trigger] self.pools@[i]).tokens@[0]
                != self.pools@[i].tokens@[1]
    }

    /// The pools by identifier.
    pub closed spec fn view(&self) -> Seq<PoolView> {
        Seq::new(self.pools@.len(), |i: int| self.pools@[i]@)
    }

    /// A registry without pools.
    pub fn new() -> (contract: Contract)
        ensures
            contract.wf(),
            contract@ == Seq::<PoolView>::empty(),
    {
        let contract = Contract { pool_counter: 0, pools: Vec::new() };
        proof {
            assert(contract@ =~= Seq::<PoolView>::empty());
        }
        contract
    }

    /// Every pool of a registry is a valid one, and there are no more of
    /// them than identifiers.
    pub proof fn lemma_valid(&self)
        requires
            self.wf(),
        ensures
            valid_pools(self@),
            self@.len() <= u32::MAX,
    {
    }

    /// The identifier that the next pool will get, which is the number of
    /// pools so far.
    pub fn pool_counter(&self) -> (counter: u32)
        requires
            self.wf(),
        ensures
            counter == self@.len(),
    {
        self.pool_counter
    }

    /// The pool with the identifier `pool_index`, if there is one.
    pub fn pool(&self, pool_index: u32) -> (pool: Option<Pool>)
        requires
            self.wf(),
        ensures
            pool_index < self@.len() ==> pool.is_some() && pool.unwrap()@ == self@[pool_index as int],
            pool_index >= self@.len() ==> pool.is_none(),
    {
        if pool_index < self.pool_counter {
            Some(self.pools[pool_index as usize])
        } else {
            None
        }
    }

    /// The registry that holds `pools`, each under its place as identifier.
    /// There is none where a pool has the same asset twice, nor for more
    /// pools than there are identifiers.
    pub fn from_pools(pools: Vec<Pool>) -> (contract: Option<Contract>)
        ensures
            match contract {
                Some(c) => c.wf() && c@.len() == pools@.len() && (forall|i: int|
                    0 <= i < pools@.len() ==> #[trigger] c@[i] == pools@[i]@),
                None => pools@.len() > u32::MAX || exists|i: int|
                    0 <= i < pools@.len() && !valid_pool(#[trigger] pools@[i]@),
            },
    {
        if pools.len() > u32::MAX as usize {
            return None;
        }
        let mut i: usize = 0;
        while i < pools.len()
            invariant
                i <= pools@.len(),
                forall|k: int| 0 <= k < i ==> valid_pool(#[trigger] pools@[k]@),
            decreases pools@.len() - i,
        {
            if pools[i].tokens[0] == pools[i].tokens[1] {
                proof {
                    assert(!valid_pool(pools@[i as int]@));
                }
                return None;
            }
            i += 1;
        }
        proof {
            assert forall|k: int| 0 <= k < pools@.len() implies (#[trigger] pools@[k]).tokens@[0]
                != pools@[k].tokens@[1] by {
                assert(valid_pool(pools@[k]@));
            }
        }
        Some(Contract { pool_counter: pools.len() as u32, pools })
    }

    /// The deposits that custody must take from the caller before a pool
    /// of `token_0` and `token_1` is created: each first deposit, in the
    /// order of the two assets. Where [`new_pool_invalid`] gives a reason
    /// there are none, and the call is refused for it.
    pub fn new_pool_deposits(
        token_0: AccountId,
        balance_0: u128,
        token_1: AccountId,
        balance_1: u128,
        fee: u32,
    ) -> (r: Result<[Deposit; 2], Error>)
        ensures
            match new_pool_invalid(token_0, balance_0, token_1, balance_1, fee) {
                Some(e) => r == Err::<[Deposit; 2], Error>(e),
                None => r.is_ok() && r.unwrap()@ == seq![
                    Deposit { token: token_0, amount: balance_0 },
                    Deposit { token: token_1, amount: balance_1 },
                ],
            },
    {
        if token_0 == token_1 {
            return Err(Error::EqualTokens);
        }
        if balance_0 == 0 || balance_1 == 0 {
            return Err(Error::NotEnoughBalance);
        }
        if fee == 0 || fee >= FEE_DENOMINATOR {
            return Err(Error::WrongFee);
        }
        let deposits = [
            Deposit { token: token_0, amount: balance_0 },
            Deposit { token: token_1, amount: balance_1 },
        ];
        proof {
            assert(deposits@ =~= seq![
                Deposit { token: token_0, amount: balance_0 },
                Deposit { token: token_1, amount: balance_1 },
            ]);
        }
        Ok(deposits)
    }

    /// The deposits that custody must take from the caller before
    /// liquidity is added to the pool `pool_index`: one for each of the
    /// pool's assets, in their order. Where [`liquidity_invalid`] gives a
    /// reason there are none, and the call is refused for it.
    pub fn liquidity_deposits(&self, pool_index: u32, balance_0: u128, balance_1: u128) -> (r:
        Result<[Deposit; 2], Error>)
        requires
            self.wf(),
        ensures
            match liquidity_invalid(self@, pool_index, balance_0, balance_1) {
                Some(e) => r == Err::<[Deposit; 2], Error>(e),
                None => r.is_ok() && r.unwrap()@ == seq![
                    Deposit { token: self@[pool_index as int].tokens[0], amount: balance_0 },
                    Deposit { token: self@[pool_index as int].tokens[1], amount: balance_1 },
                ],
            },
    {
        if pool_index >= self.pool_counter {
            return Err(Error::WrongIndex);
        }
        let pool: Pool = self.pools[pool_index as usize];
        if balance_0 == 0 || balance_1 == 0 {
            return Err(Error::NotEnoughBalance);
        }
        let deposits = [
            Deposit { token: pool.tokens[0], amount: balance_0 },
            Deposit { token: pool.tokens[1], amount: balance_1 },
        ];
        proof {
            assert(deposits@ =~= seq![
                Deposit { token: self@[pool_index as int].tokens[0], amount: balance_0 },
                Deposit { token: self@[pool_index as int].tokens[1], amount: balance_1 },
            ]);
        }
        Ok(deposits)
    }

    /// A second registry in the same state, for work that may yet fail.
    fn snapshot(&self) -> (copy: Contract)
        ensures
            copy@ == self@,
            copy.wf() == self.wf(),
    {
        let mut pools: Vec<Pool> = Vec::new();
        let mut i: usize = 0;
        while i < self.pools.len()
            invariant
                i <= self.pools@.len(),
                pools@ == self.pools@.subrange(0, i as int),
            decreases self.pools@.len() - i,
        {
            pools.push(self.pools[i]);
            proof {
                assert(pools@ =~= self.pools@.subrange(0, i + 1));
            }
            i += 1;
        }
        proof {
            assert(pools@ =~= self.pools@);
        }
        Contract { pool_counter: self.pool_counter, pools }
    }

    /// Issues shares to a caller. Shares are not kept by the registry: this
    /// always succeeds and records nothing.
    fn mint_shares(&mut self, _caller: AccountId, _amount: u128) -> (r: Result<(), Error>)
        ensures
            r.is_ok(),
            *final(self) == *old(self),
    {
        Ok(())
    }

    /// Creates a pool of `token_0` and `token_1` with the first deposits
    /// `balance_0` and `balance_1`, on behalf of `caller`. `received` says
    /// of each deposit whether custody took it from the caller.
    ///
    /// The call is refused for the reason that [`new_pool_refusal`] gives.
    /// Otherwise the pool is added under the next identifier, with shares
    /// that are the integer square root of the product of the two deposits.
    pub fn new_pool(
        &mut self,
        caller: AccountId,
        token_0: AccountId,
        balance_0: u128,
        token_1: AccountId,
        balance_1: u128,
        fee: u32,
        received: [bool; 2],
    ) -> (r: Result<(), Error>)
        requires
            old(self).wf(),
        ensures
            final(self).wf(),
            match new_pool_refusal(
                old(self)@,
                token_0,
                balance_0,
                token_1,
                balance_1,
                fee,
                received@,
            ) {
                Some(e) => r == Err::<(), Error>(e) && *final(self) == *old(self),
                None => {
                    &&& r.is_ok()
                    &&& final(self)@.len() == old(self)@.len() + 1
                    &&& final(self)@.drop_last() == old(self)@
                    &&& final(self)@.last().fee == fee
                    &&& final(self)@.last().tokens == seq![token_0, token_1]
                    &&& final(self)@.last().balances == seq![balance_0, balance_1]
                    &&& is_floor_sqrt(
                        final(self)@.last().total_shares as nat,
                        (balance_0 * balance_1) as nat,
                    )
                },
            },
    {
        match Contract::new_pool_deposits(token_0, balance_0, token_1, balance_1, fee) {
            Ok(_) => {},
            Err(e) => { return Err(e); },
        }
        if !received[0] || !received[1] {
            return Err(Error::PSP22Error);
        }
        let shares_amount: u128 = match initial_shares(balance_0, balance_1) {
            Some(shares) => shares,
            None => { return Err(Error::Math); },
        };
        if self.pool_counter == u32::MAX {
            return Err(Error::Math);
        }
        match self.mint_shares(caller, shares_amount) {
            Ok(()) => {},
            Err(_) => { return Err(Error::PSP22Error); },
        }
        let pool = Pool {
            total_shares: shares_amount,
            tokens: [token_0, token_1],
            balances: [balance_0, balance_1],
            fee,
        };
        self.pools.push(pool);
        self.pool_counter += 1;
        proof {
            assert(self@.drop_last() =~= old(self)@);
            assert(self@.last() == pool@);
            assert(pool@.tokens =~= seq![token_0, token_1]);
            assert(pool@.balances =~= seq![balance_0, balance_1]);
        }
        Ok(())
    }

    /// Adds the deposits `balance_0` and `balance_1` to the two reserves of
    /// the pool `pool_index`, on behalf of `caller`, and returns the shares
    /// minted for them. `received` says of each deposit whether custody took
    /// it from the caller.
    ///
    /// The call is refused for the reason that [`liquidity_refusal`] gives.
    /// Otherwise each deposit is worth its part of the reserve in shares,
    /// the smaller of the two counts is minted, and the pool is written back
    /// with both reserves increased.
    pub fn provide_liquidity(
        &mut self,
        caller: AccountId,
        pool_index: u32,
        balance_0: u128,
        balance_1: u128,
        received: [bool; 2],
    ) -> (r: Result<u128, Error>)
        requires
            old(self).wf(),
        ensures
            final(self).wf(),
            match liquidity_refusal(old(self)@, pool_index, balance_0, balance_1, received@) {
                Some(e) => r == Err::<u128, Error>(e) && *final(self) == *old(self),
                None => {
                    let pool = old(self)@[pool_index as int];
                    &&& r == Ok::<u128, Error>(
                        liquidity_shares(pool, balance_0, balance_1) as u128,
                    )
                    &&& final(self)@ == old(self)@.update(
                        pool_index as int,
                        PoolView {
                            balances: seq![
                                (pool.balances[0] + balance_0) as u128,
                                (pool.balances[1] + balance_1) as u128,
                            ],
                            ..pool
                        },
                    )
                },
            },
    {
        match self.liquidity_deposits(pool_index, balance_0, balance_1) {
            Ok(_) => {},
            Err(e) => { return Err(e); },
        }
        let mut pool: Pool = self.pools[pool_index as usize];
        let mut shares: u128 = u128::MAX;
        let deposits: [u128; 2] = [balance_0, balance_1];
        let mut i: usize = 0;
        while i < 2
            invariant
                i <= 2,
                *self == *old(self),
                self.wf(),
                pool_index < self.pool_counter,
                deposits@ == seq![balance_0, balance_1],
                balance_0 != 0 && balance_1 != 0,
                pool.fee == self.pools@[pool_index as int].fee,
                pool.total_shares == self.pools@[pool_index as int].total_shares,
                pool.tokens == self.pools@[pool_index as int].tokens,
                forall|k: int|
                    0 <= k < i ==> received@[k] && !deposit_overflows(
                        old(self)@[pool_index as int],
                        k,
                        #[trigger] deposits@[k],
                    ),
                forall|k: int|
                    0 <= k < 2 ==> #[trigger] pool.balances@[k] == if k < i {
                        (self.pools@[pool_index as int].balances@[k] + deposits@[k]) as u128
                    } else {
                        self.pools@[pool_index as int].balances@[k]
                    },
                i == 0 ==> shares == u128::MAX,
                i == 1 ==> shares == shares_for(
                    balance_0 as nat,
                    pool.total_shares as nat,
                    self.pools@[pool_index as int].balances@[0] as nat,
                ),
                i == 2 ==> shares == liquidity_shares(
                    old(self)@[pool_index as int],
                    balance_0,
                    balance_1,
                ),
            decreases 2 - i,
        {
            if !received[i] {
                return Err(Error::PSP22Error);
            }
            let balance_in: u128 = deposits[i];
            let pool_token_balance: u128 = pool.balances[i];
            let maybe_shares: u128 = match quote_shares(
                balance_in,
                pool.total_shares,
                pool_token_balance,
            ) {
                Some(count) => count,
                None => { return Err(Error::Math); },
            };
            pool.balances[i] = match pool_token_balance.checked_add(balance_in) {
                Some(sum) => sum,
                None => { return Err(Error::Math); },
            };
            if maybe_shares < shares {
                shares = maybe_shares;
            }
            i += 1;
        }
        match self.mint_shares(caller, shares) {
            Ok(()) => {},
            Err(_) => { return Err(Error::PSP22Error); },
        }
        self.pools[pool_index as usize] = pool;
        proof {
            let before = old(self)@[pool_index as int];
            let after = PoolView {
                balances: seq![
                    (before.balances[0] + balance_0) as u128,
                    (before.balances[1] + balance_1) as u128,
                ],
                ..before
            };
            assert(pool@.balances =~= after.balances);
            assert(pool@ == after);
            assert(self@ =~= old(self)@.update(pool_index as int, after));
        }
        Ok(shares)
    }

    /// Swaps `amount_in` of `token_in` in the pool `pool_index` and returns
    /// the asset that came out and how much of it.
    ///
    /// The outcome is that of [`hop`]: refused with `WrongIndex` where there
    /// is no such pool or it does not hold `token_in`, and with `Math` where
    /// the input reserve would stay empty or pass the largest 128-bit
    /// amount. A refused swap leaves the registry as it was.
    pub fn swap_in_pool(&mut self, token_in: AccountId, amount_in: u128, pool_index: u32) -> (r:
        Result<(AccountId, u128), Error>)
        requires
            old(self).wf(),
        ensures
            final(self).wf(),
            match hop(old(self)@, token_in, amount_in, pool_index) {
                Ok((after, token, amount)) => r == Ok::<(AccountId, u128), Error>((token, amount))
                    && final(self)@ == after,
                Err(e) => r == Err::<(AccountId, u128), Error>(e) && *final(self) == *old(self),
            },
    {
        if pool_index >= self.pool_counter {
            return Err(Error::WrongIndex);
        }
        let mut pool: Pool = self.pools[pool_index as usize];
        let index_in: usize = match token_side(&pool, token_in) {
            Some(side) => side,
            None => { return Err(Error::WrongIndex); },
        };
        let index_out: usize = 1 - index_in;
        let reserve_in: u128 = pool.balances[index_in];
        let reserve_out: u128 = pool.balances[index_out];
        let paid: u128 = match quote_swap(reserve_in, reserve_out, amount_in) {
            Some(paid) => paid,
            None => { return Err(Error::Math); },
        };
        pool.balances[index_in] = match reserve_in.checked_add(amount_in) {
            Some(sum) => sum,
            None => { return Err(Error::Math); },
        };
        pool.balances[index_out] = reserve_out - paid;
        self.pools[pool_index as usize] = pool;
        proof {
            let expected = hop(old(self)@, token_in, amount_in, pool_index);
            assert(expected.is_ok());
            let after = expected.unwrap().0;
            assert(pool@.balances =~= after[pool_index as int].balances);
            assert(pool@ == after[pool_index as int]);
            assert(self@ =~= after);
        }
        Ok((pool.tokens[index_out], paid))
    }

    /// Swaps `amount_in` of `token_in` through the pools of `pools`, one
    /// after the other, for `caller`, and returns the record to publish.
    /// The host takes `amount_in` into custody before the call and pays
    /// `amount_out` of `token_out` to the caller after it.
    ///
    /// The chain is that of [`route`]. Where a hop is refused the call is
    /// refused for the same reason; where the chain gives less than
    /// `min_amount_out`, with `ReceivedTooLowAmount`; where it ends in
    /// another asset than `token_out`, with `WrongSwapArgs`. A refused call
    /// leaves every pool as it was, also those of the hops that were made.
    pub fn swap(
        &mut self,
        caller: AccountId,
        token_in: AccountId,
        token_out: AccountId,
        amount_in: u128,
        min_amount_out: u128,
        pools: Vec<u32>,
    ) -> (r: Result<Swapped, Error>)
        requires
            old(self).wf(),
        ensures
            final(self).wf(),
            match route(old(self)@, token_in, amount_in, pools@) {
                Err(e) => r == Err::<Swapped, Error>(e),
                Ok((after, token, amount)) => if amount < min_amount_out {
                    r == Err::<Swapped, Error>(Error::ReceivedTooLowAmount)
                } else if token != token_out {
                    r == Err::<Swapped, Error>(Error::WrongSwapArgs)
                } else {
                    r == Ok::<Swapped, Error>(
                        Swapped { token_in, token_out, amount_in, amount_out: amount, who: caller },
                    ) && final(self)@ == after
                },
            },
            r.is_err() ==> *final(self) == *old(self),
    {
        let mut work = self.snapshot();
        let mut current_token: AccountId = token_in;
        let mut current_amount: u128 = amount_in;
        let mut i: usize = 0;
        proof {
            assert(pools@.subrange(0, pools@.len() as int) =~= pools@);
        }
        while i < pools.len()
            invariant
                i <= pools@.len(),
                work.wf(),
                self.wf(),
                *self == *old(self),
                route(old(self)@, token_in, amount_in, pools@) == route(
                    work@,
                    current_token,
                    current_amount,
                    pools@.subrange(i as int, pools@.len() as int),
                ),
            decreases pools@.len() - i,
        {
            proof {
                let rest = pools@.subrange(i as int, pools@.len() as int);
                assert(rest[0] == pools@[i as int]);
                assert(rest.drop_first() =~= pools@.subrange(i + 1, pools@.len() as int));
            }
            match work.swap_in_pool(current_token, current_amount, pools[i]) {
                Ok((token, amount)) => {
                    current_token = token;
                    current_amount = amount;
                },
                Err(e) => { return Err(e); },
            }
            i += 1;
        }
        proof {
            assert(pools@.subrange(i as int, pools@.len() as int).len() == 0);
        }
        if current_amount < min_amount_out {
            return Err(Error::ReceivedTooLowAmount);
        }
        if current_token != token_out {
            return Err(Error::WrongSwapArgs);
        }
        *self = work;
        Ok(Swapped { token_in, token_out, amount_in, amount_out: current_amount, who: caller })
    }
}

} // verus!
