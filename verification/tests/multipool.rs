use uniswap_pools::account::AccountId;
use uniswap_pools::multipool::{Contract, Deposit, Error, Pool, Swapped, FEE_DENOMINATOR};

fn caller() -> AccountId {
    AccountId { bytes: [0xca; 32] }
}

fn token(tag: u8) -> AccountId {
    AccountId { bytes: [tag; 32] }
}

const BOTH: [bool; 2] = [true, true];

/// Pool 0 holds 1000 of token 1 and 1000 of token 2; pool 1 holds 500 of
/// token 2 and 2000 of token 3.
fn two_pools() -> Contract {
    let mut contract = Contract::new();
    assert_eq!(contract.new_pool(caller(), token(1), 1000, token(2), 1000, 30, BOTH), Ok(()));
    assert_eq!(contract.new_pool(caller(), token(2), 500, token(3), 2000, 30, BOTH), Ok(()));
    contract
}

#[test]
fn registry_starts_empty() {
    let contract = Contract::new();
    assert_eq!(contract.pool_counter(), 0);
    assert_eq!(contract.pool(0), None);
}

#[test]
fn new_pool_of_400_and_900_issues_600_shares() {
    let mut contract = Contract::new();
    assert_eq!(contract.new_pool(caller(), token(1), 400, token(2), 900, 30, BOTH), Ok(()));
    assert_eq!(contract.pool_counter(), 1);
    assert_eq!(
        contract.pool(0),
        Some(Pool {
            fee: 30,
            total_shares: 600,
            tokens: [token(1), token(2)],
            balances: [400, 900],
        })
    );
    assert_eq!(contract.pool(1), None);
}

#[test]
fn new_pool_gives_identifiers_in_order() {
    let contract = two_pools();
    assert_eq!(contract.pool_counter(), 2);
    assert_eq!(contract.pool(0).unwrap().tokens, [token(1), token(2)]);
    assert_eq!(contract.pool(1).unwrap().tokens, [token(2), token(3)]);
    assert_eq!(contract.pool(1).unwrap().total_shares, 1000);
    assert_eq!(contract.pool(2), None);
}

#[test]
fn new_pool_rounds_the_shares_down() {
    let mut contract = Contract::new();
    assert_eq!(contract.new_pool(caller(), token(1), 10, token(2), 12, 1, BOTH), Ok(()));
    assert_eq!(contract.pool(0).unwrap().total_shares, 10);
    assert_eq!(
        contract.new_pool(caller(), token(1), u128::MAX, token(2), u128::MAX, 9999, BOTH),
        Ok(())
    );
    assert_eq!(contract.pool(1).unwrap().total_shares, u128::MAX);
}

#[test]
fn new_pool_refuses_equal_tokens() {
    let mut contract = two_pools();
    let before = contract.clone();
    assert_eq!(
        contract.new_pool(caller(), token(1), 400, token(1), 900, 30, BOTH),
        Err(Error::EqualTokens)
    );
    // the first reason wins over those that follow
    assert_eq!(
        contract.new_pool(caller(), token(1), 0, token(1), 900, 0, [false, false]),
        Err(Error::EqualTokens)
    );
    assert_eq!(contract, before);
}

#[test]
fn new_pool_refuses_an_empty_deposit() {
    let mut contract = two_pools();
    let before = contract.clone();
    assert_eq!(
        contract.new_pool(caller(), token(1), 0, token(2), 900, 30, BOTH),
        Err(Error::NotEnoughBalance)
    );
    assert_eq!(
        contract.new_pool(caller(), token(1), 400, token(2), 0, 30, BOTH),
        Err(Error::NotEnoughBalance)
    );
    assert_eq!(
        contract.new_pool(caller(), token(1), 0, token(2), 0, 0, [false, false]),
        Err(Error::NotEnoughBalance)
    );
    assert_eq!(contract, before);
}

#[test]
fn new_pool_refuses_a_fee_outside_the_range() {
    let mut contract = two_pools();
    let before = contract.clone();
    for fee in [0, FEE_DENOMINATOR, FEE_DENOMINATOR + 1, u32::MAX] {
        assert_eq!(
            contract.new_pool(caller(), token(1), 400, token(2), 900, fee, BOTH),
            Err(Error::WrongFee)
        );
        assert_eq!(
            contract.new_pool(caller(), token(1), 400, token(2), 900, fee, [false, true]),
            Err(Error::WrongFee)
        );
    }
    assert_eq!(contract, before);
    for fee in [1, FEE_DENOMINATOR - 1] {
        assert_eq!(contract.new_pool(caller(), token(1), 400, token(2), 900, fee, BOTH), Ok(()));
    }
}

#[test]
fn new_pool_refuses_a_deposit_that_was_not_received() {
    let mut contract = two_pools();
    let before = contract.clone();
    for received in [[false, true], [true, false], [false, false]] {
        assert_eq!(
            contract.new_pool(caller(), token(1), 400, token(2), 900, 30, received),
            Err(Error::PSP22Error)
        );
    }
    assert_eq!(contract, before);
}

#[test]
fn new_pool_deposits_are_the_two_first_balances() {
    assert_eq!(
        Contract::new_pool_deposits(token(1), 400, token(2), 900, 30),
        Ok([Deposit { token: token(1), amount: 400 }, Deposit { token: token(2), amount: 900 }])
    );
    assert_eq!(
        Contract::new_pool_deposits(token(1), 400, token(1), 900, 30),
        Err(Error::EqualTokens)
    );
    assert_eq!(
        Contract::new_pool_deposits(token(1), 400, token(2), 0, 30),
        Err(Error::NotEnoughBalance)
    );
    assert_eq!(
        Contract::new_pool_deposits(token(1), 400, token(2), 900, 10_000),
        Err(Error::WrongFee)
    );
}

#[test]
fn from_pools_numbers_the_pools_by_place() {
    let first =
        Pool { fee: 3, total_shares: 5, tokens: [token(1), token(2)], balances: [5, 5] };
    let second =
        Pool { fee: 4, total_shares: 6, tokens: [token(2), token(3)], balances: [4, 9] };
    let mut contract = Contract::from_pools(vec![first, second]).unwrap();
    assert_eq!(contract.pool_counter(), 2);
    assert_eq!(contract.pool(0), Some(first));
    assert_eq!(contract.pool(1), Some(second));
    assert_eq!(contract.new_pool(caller(), token(7), 1, token(8), 1, 1, BOTH), Ok(()));
    assert_eq!(contract.pool_counter(), 3);
    assert_eq!(contract.pool(2).unwrap().tokens, [token(7), token(8)]);
    assert_eq!(Contract::from_pools(Vec::new()), Some(Contract::new()));
}

#[test]
fn provide_liquidity_mints_the_smaller_count() {
    let mut contract = Contract::new();
    assert_eq!(contract.new_pool(caller(), token(1), 400, token(2), 900, 30, BOTH), Ok(()));
    // 40 * 600 / 400 = 60 and 180 * 600 / 900 = 120
    assert_eq!(contract.provide_liquidity(caller(), 0, 40, 180, BOTH), Ok(60));
    assert_eq!(
        contract.pool(0),
        Some(Pool {
            fee: 30,
            total_shares: 600,
            tokens: [token(1), token(2)],
            balances: [440, 1080],
        })
    );
    // 44 * 600 / 440 = 60 and 54 * 600 / 1080 = 30
    assert_eq!(contract.provide_liquidity(caller(), 0, 44, 54, BOTH), Ok(30));
    assert_eq!(contract.pool(0).unwrap().balances, [484, 1134]);
}

#[test]
fn provide_liquidity_rounds_each_count_down() {
    let mut contract = Contract::new();
    assert_eq!(contract.new_pool(caller(), token(1), 3, token(2), 7, 30, BOTH), Ok(()));
    // the shares are 4; 2 * 4 / 3 = 2.66.. and 5 * 4 / 7 = 2.85..
    assert_eq!(contract.pool(0).unwrap().total_shares, 4);
    assert_eq!(contract.provide_liquidity(caller(), 0, 2, 5, BOTH), Ok(2));
    assert_eq!(contract.pool(0).unwrap().balances, [5, 12]);
}

#[test]
fn provide_liquidity_touches_one_pool() {
    let mut contract = two_pools();
    let other = contract.pool(0);
    assert_eq!(contract.provide_liquidity(caller(), 1, 50, 200, BOTH), Ok(100));
    assert_eq!(contract.pool(0), other);
    assert_eq!(contract.pool(1).unwrap().balances, [550, 2200]);
    assert_eq!(contract.pool_counter(), 2);
}

#[test]
fn provide_liquidity_refuses_an_unknown_pool() {
    let mut contract = two_pools();
    let before = contract.clone();
    assert_eq!(contract.provide_liquidity(caller(), 2, 40, 90, BOTH), Err(Error::WrongIndex));
    assert_eq!(contract.provide_liquidity(caller(), u32::MAX, 0, 0, BOTH), Err(Error::WrongIndex));
    assert_eq!(contract, before);
}

#[test]
fn provide_liquidity_refuses_an_empty_deposit() {
    let mut contract = two_pools();
    let before = contract.clone();
    assert_eq!(contract.provide_liquidity(caller(), 0, 0, 90, BOTH), Err(Error::NotEnoughBalance));
    assert_eq!(contract.provide_liquidity(caller(), 0, 40, 0, BOTH), Err(Error::NotEnoughBalance));
    assert_eq!(
        contract.provide_liquidity(caller(), 0, 0, 0, [false, false]),
        Err(Error::NotEnoughBalance)
    );
    assert_eq!(contract, before);
}

#[test]
fn provide_liquidity_refuses_a_deposit_that_was_not_received() {
    let mut contract = two_pools();
    let before = contract.clone();
    for received in [[false, true], [true, false], [false, false]] {
        assert_eq!(
            contract.provide_liquidity(caller(), 0, 40, 90, received),
            Err(Error::PSP22Error)
        );
    }
    assert_eq!(contract, before);
}

#[test]
fn provide_liquidity_refuses_a_reserve_beyond_128_bits() {
    let mut contract = Contract::new();
    assert_eq!(
        contract.new_pool(caller(), token(1), u128::MAX - 5, token(2), 1000, 30, BOTH),
        Ok(())
    );
    let before = contract.clone();
    assert_eq!(contract.provide_liquidity(caller(), 0, 6, 10, BOTH), Err(Error::Math));
    // the first deposit is judged before the second is looked at
    assert_eq!(contract.provide_liquidity(caller(), 0, 6, 10, [true, false]), Err(Error::Math));
    assert_eq!(contract, before);
    assert!(contract.provide_liquidity(caller(), 0, 5, 10, BOTH).is_ok());
    assert_eq!(contract.pool(0).unwrap().balances, [u128::MAX, 1010]);
}

#[test]
fn provide_liquidity_refuses_shares_beyond_128_bits() {
    // the shares of the pool are 2^100, its second reserve is 1
    let pool = Pool {
        fee: 30,
        total_shares: 1 << 100,
        tokens: [token(1), token(2)],
        balances: [1 << 100, 1],
    };
    let mut contract = Contract::from_pools(vec![pool]).unwrap();
    let before = contract.clone();
    assert_eq!(contract.provide_liquidity(caller(), 0, 1, 1 << 28, BOTH), Err(Error::Math));
    assert_eq!(contract, before);
    assert_eq!(contract.provide_liquidity(caller(), 0, 1, 1 << 27, BOTH), Ok(1));
}

#[test]
fn provide_liquidity_refuses_an_empty_reserve() {
    let pool =
        Pool { fee: 30, total_shares: 10, tokens: [token(1), token(2)], balances: [0, 10] };
    let mut contract = Contract::from_pools(vec![pool]).unwrap();
    let before = contract.clone();
    assert_eq!(contract.provide_liquidity(caller(), 0, 1, 1, BOTH), Err(Error::Math));
    assert_eq!(contract, before);
}

#[test]
fn liquidity_deposits_follow_the_pools_tokens() {
    let contract = two_pools();
    assert_eq!(
        contract.liquidity_deposits(1, 40, 90),
        Ok([Deposit { token: token(2), amount: 40 }, Deposit { token: token(3), amount: 90 }])
    );
    assert_eq!(contract.liquidity_deposits(2, 40, 90), Err(Error::WrongIndex));
    assert_eq!(contract.liquidity_deposits(0, 40, 0), Err(Error::NotEnoughBalance));
    assert_eq!(contract.liquidity_deposits(2, 0, 0), Err(Error::WrongIndex));
}

#[test]
fn swap_in_pool_of_100_against_1000_and_1000() {
    let mut contract = two_pools();
    assert_eq!(contract.swap_in_pool(token(1), 100, 0), Ok((token(2), 91)));
    assert_eq!(contract.pool(0).unwrap().balances, [1100, 909]);
    assert_eq!(contract.pool(0).unwrap().total_shares, 1000);
    assert_eq!(contract.pool(1).unwrap().balances, [500, 2000]);
}

#[test]
fn swap_in_pool_from_the_second_side() {
    let mut contract = two_pools();
    // 2000 * 500 / 2500 = 400 is kept of token 2
    assert_eq!(contract.swap_in_pool(token(3), 500, 1), Ok((token(2), 100)));
    assert_eq!(contract.pool(1).unwrap().balances, [400, 2500]);
    assert_eq!(contract.pool(0).unwrap().balances, [1000, 1000]);
}

#[test]
fn swap_in_pool_of_nothing_changes_nothing() {
    let mut contract = two_pools();
    let before = contract.clone();
    assert_eq!(contract.swap_in_pool(token(1), 0, 0), Ok((token(2), 0)));
    assert_eq!(contract, before);
}

#[test]
fn swap_in_pool_refuses_an_unknown_pool_or_token() {
    let mut contract = two_pools();
    let before = contract.clone();
    assert_eq!(contract.swap_in_pool(token(1), 100, 2), Err(Error::WrongIndex));
    assert_eq!(contract.swap_in_pool(token(3), 100, 0), Err(Error::WrongIndex));
    assert_eq!(contract.swap_in_pool(token(1), 100, 1), Err(Error::WrongIndex));
    assert_eq!(contract, before);
}

#[test]
fn swap_in_pool_refuses_what_the_arithmetic_cannot_hold() {
    let full = Pool {
        fee: 30,
        total_shares: 10,
        tokens: [token(1), token(2)],
        balances: [u128::MAX, 10],
    };
    let empty =
        Pool { fee: 30, total_shares: 10, tokens: [token(1), token(2)], balances: [0, 10] };
    let mut contract = Contract::from_pools(vec![full, empty]).unwrap();
    let before = contract.clone();
    assert_eq!(contract.swap_in_pool(token(1), 1, 0), Err(Error::Math));
    assert_eq!(contract.swap_in_pool(token(1), 0, 1), Err(Error::Math));
    assert_eq!(contract, before);
    // an empty input side takes the whole output reserve for any input
    assert_eq!(contract.swap_in_pool(token(1), 1, 1), Ok((token(2), 10)));
    assert_eq!(contract.pool(1).unwrap().balances, [1, 0]);
}

#[test]
fn swap_through_one_pool() {
    let mut contract = two_pools();
    let record = contract.swap(caller(), token(1), token(2), 100, 91, vec![0]);
    assert_eq!(
        record,
        Ok(Swapped {
            token_in: token(1),
            token_out: token(2),
            amount_in: 100,
            amount_out: 91,
            who: caller(),
        })
    );
    assert_eq!(contract.pool(0).unwrap().balances, [1100, 909]);
    assert_eq!(contract.pool(1).unwrap().balances, [500, 2000]);
}

#[test]
fn swap_through_two_pools_carries_the_output_on() {
    let mut contract = two_pools();
    // 91 of token 2 come out of pool 0; 500 * 2000 / 591 = 1692.04.. is kept
    // of token 3 in pool 1, and 308 are paid
    let record = contract.swap(caller(), token(1), token(3), 100, 300, vec![0, 1]);
    assert_eq!(
        record,
        Ok(Swapped {
            token_in: token(1),
            token_out: token(3),
            amount_in: 100,
            amount_out: 308,
            who: caller(),
        })
    );
    assert_eq!(contract.pool(0).unwrap().balances, [1100, 909]);
    assert_eq!(contract.pool(1).unwrap().balances, [591, 1692]);
}

#[test]
fn swap_there_and_back_through_the_same_pool() {
    let mut contract = two_pools();
    // 91 come out; going back, 1100 * 909 / 1000 = 999.9 is kept of token 1
    let record = contract.swap(caller(), token(1), token(1), 100, 0, vec![0, 0]);
    assert_eq!(record.map(|r| r.amount_out), Ok(101));
    assert_eq!(contract.pool(0).unwrap().balances, [999, 1000]);
}

#[test]
fn swap_without_hops_gives_the_input_back() {
    let mut contract = two_pools();
    let before = contract.clone();
    let record = contract.swap(caller(), token(1), token(1), 100, 100, Vec::new());
    assert_eq!(record.map(|r| r.amount_out), Ok(100));
    assert_eq!(contract, before);
    assert_eq!(
        contract.swap(caller(), token(1), token(2), 100, 100, Vec::new()),
        Err(Error::WrongSwapArgs)
    );
    assert_eq!(contract, before);
}

#[test]
fn swap_refuses_another_final_asset_and_rolls_back() {
    let mut contract = two_pools();
    let before = contract.clone();
    assert_eq!(
        contract.swap(caller(), token(1), token(2), 100, 0, vec![0, 1]),
        Err(Error::WrongSwapArgs)
    );
    assert_eq!(contract, before);
    assert_eq!(
        contract.swap(caller(), token(1), token(3), 100, 0, vec![0]),
        Err(Error::WrongSwapArgs)
    );
    assert_eq!(contract, before);
}

#[test]
fn swap_refuses_too_low_an_amount_and_rolls_back() {
    let mut contract = two_pools();
    let before = contract.clone();
    assert_eq!(
        contract.swap(caller(), token(1), token(3), 100, 309, vec![0, 1]),
        Err(Error::ReceivedTooLowAmount)
    );
    assert_eq!(contract, before);
    // too low an amount is found before another final asset
    assert_eq!(
        contract.swap(caller(), token(1), token(2), 100, 309, vec![0, 1]),
        Err(Error::ReceivedTooLowAmount)
    );
    assert_eq!(contract, before);
    assert!(contract.swap(caller(), token(1), token(3), 100, 308, vec![0, 1]).is_ok());
}

#[test]
fn swap_refuses_a_broken_chain_and_rolls_back() {
    let mut contract = two_pools();
    let before = contract.clone();
    // the second hop names a pool that does not exist
    assert_eq!(
        contract.swap(caller(), token(1), token(3), 100, 0, vec![0, 5]),
        Err(Error::WrongIndex)
    );
    assert_eq!(contract, before);
    // the second hop goes through a pool that does not hold what came out
    assert_eq!(
        contract.swap(caller(), token(3), token(1), 100, 0, vec![1, 1, 0, 1, 1]),
        Err(Error::WrongIndex)
    );
    assert_eq!(contract, before);
    // the first hop is refused
    assert_eq!(
        contract.swap(caller(), token(3), token(1), 100, 0, vec![0, 1]),
        Err(Error::WrongIndex)
    );
    assert_eq!(contract, before);
}

#[test]
fn swap_refuses_an_overflow_in_a_later_hop_and_rolls_back() {
    let first =
        Pool { fee: 30, total_shares: 10, tokens: [token(1), token(2)], balances: [10, 10] };
    let second = Pool {
        fee: 30,
        total_shares: 10,
        tokens: [token(2), token(3)],
        balances: [u128::MAX, 10],
    };
    let mut contract = Contract::from_pools(vec![first, second]).unwrap();
    let before = contract.clone();
    assert_eq!(
        contract.swap(caller(), token(1), token(3), 10, 0, vec![0, 1]),
        Err(Error::Math)
    );
    assert_eq!(contract, before);
}

#[test]
fn from_pools_refuses_a_pool_of_one_asset() {
    let good =
        Pool { fee: 3, total_shares: 5, tokens: [token(1), token(2)], balances: [5, 5] };
    let bad = Pool { fee: 3, total_shares: 5, tokens: [token(4), token(4)], balances: [5, 5] };
    assert_eq!(Contract::from_pools(vec![good, bad]), None);
    assert_eq!(Contract::from_pools(vec![bad]), None);
    assert!(Contract::from_pools(vec![good, good]).is_some());
}

#[test]
fn swap_through_two_pools_is_one_hop_after_the_other() {
    let mut routed = two_pools();
    let mut stepped = two_pools();
    let record = routed.swap(caller(), token(1), token(3), 250, 0, vec![0, 1]).unwrap();
    let (middle, amount) = stepped.swap_in_pool(token(1), 250, 0).unwrap();
    assert_eq!(middle, token(2));
    assert_eq!(stepped.swap_in_pool(middle, amount, 1), Ok((token(3), record.amount_out)));
    assert_eq!(routed, stepped);
}

#[test]
fn swap_keeps_assets_fee_and_shares_of_every_pool() {
    let mut contract = two_pools();
    let before = contract.clone();
    assert!(contract.swap(caller(), token(3), token(1), 700, 0, vec![1, 0]).is_ok());
    assert_eq!(contract.pool_counter(), before.pool_counter());
    for pool_index in 0..2 {
        let was = before.pool(pool_index).unwrap();
        let is = contract.pool(pool_index).unwrap();
        assert_eq!((is.fee, is.total_shares, is.tokens), (was.fee, was.total_shares, was.tokens));
        assert_ne!(is.balances, was.balances);
    }
}
