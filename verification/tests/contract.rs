use cosmoburn_tracker::contract::{
    execute, instantiate, sudo, track_balances, try_exclude_wallet, try_include_wallet,
};
use cosmoburn_tracker::error::ContractError;
use cosmoburn_tracker::functions::check_is_admin;
use cosmoburn_tracker::history::Checkpoint;
use cosmoburn_tracker::msg::{Coin, ExecuteMsg, InstantiateMsg, QueryMsg, QueryReply, SudoMsg};
use cosmoburn_tracker::query::{balance_at, query, total_supply_at};
use cosmoburn_tracker::state::{Config, Store};

const USER: &str = "neutron1";
const ADMIN: &str = "neutron2";
const OTHER: &str = "neutron3";
const TOKEN_FACTORY: &str = "neutron4";
const NATIVE_DENOM: &str = "untrn";
const BLOCK_SECONDS: u64 = 1_571_797_419;

fn proper_initialization() -> Store {
    instantiate(InstantiateMsg {
        admin_addr: ADMIN.to_string(),
        tokenfactory_module_address: TOKEN_FACTORY.to_string(),
        tracked_denom: NATIVE_DENOM.to_string(),
    })
}

fn config() -> Config {
    Config {
        d: NATIVE_DENOM.to_string(),
        m: TOKEN_FACTORY.to_string(),
        admin_addr: ADMIN.to_string(),
    }
}

fn transfer(storage: &mut Store, at: u64, from: &str, to: &str, amount: u128) -> Result<(), ContractError> {
    assert!(storage.last_version() <= at);
    track_balances(storage, at, &config(), from.to_string(), to.to_string(), amount)
}

fn balance(storage: &Store, now: u64, addr: &str, at: Option<u64>) -> u128 {
    balance_at(storage, now, addr.to_string(), at)
}

#[test]
fn track_mint() {
    let mut storage = proper_initialization();
    let config = config();

    let _res: Result<(), ContractError> = track_balances(
        &mut storage,
        BLOCK_SECONDS,
        &config,
        TOKEN_FACTORY.to_string(),
        USER.to_string(),
        999,
    );

    assert_eq!(storage.total_supply_history().read_current(), 999);
}

#[test]
fn track_burn() {
    let mut storage = proper_initialization();
    let config = config();

    let _res: Result<(), ContractError> = track_balances(
        &mut storage,
        BLOCK_SECONDS,
        &config,
        TOKEN_FACTORY.to_string(),
        USER.to_string(),
        100,
    );

    let _res: Result<(), ContractError> = track_balances(
        &mut storage,
        BLOCK_SECONDS,
        &config,
        USER.to_string(),
        TOKEN_FACTORY.to_string(),
        10,
    );

    assert_eq!(storage.total_supply_history().read_current(), 90);
}

#[test]
fn track_balance() {
    let mut storage = proper_initialization();
    let config = config();

    let _res: Result<(), ContractError> = track_balances(
        &mut storage,
        BLOCK_SECONDS,
        &config,
        TOKEN_FACTORY.to_string(),
        USER.to_string(),
        100,
    );

    assert_eq!(
        storage.balances().get(USER).map(|h| h.read_current()),
        Some(100)
    );
}

#[test]
fn exclude_wallet() {
    let mut storage = proper_initialization();

    let msg = ExecuteMsg::ExcludeWallet {
        addr: "untrn".to_string(),
        memo: "native1".to_string(),
    };
    execute(&mut storage, ADMIN, msg).unwrap();

    let excluded = match query(&storage, BLOCK_SECONDS, QueryMsg::GetExcludedWallets {}) {
        QueryReply::ExcludedWallets(w) => w,
        other => panic!("unexpected reply {:?}", other),
    };
    assert_eq!(excluded.excludedwallets.len(), 1);

    let msg = ExecuteMsg::IncludeWallet {
        addr: "untrn".to_string(),
    };
    execute(&mut storage, ADMIN, msg).unwrap();

    let excluded = match query(&storage, BLOCK_SECONDS, QueryMsg::GetExcludedWallets {}) {
        QueryReply::ExcludedWallets(w) => w,
        other => panic!("unexpected reply {:?}", other),
    };
    assert_eq!(excluded.excludedwallets.len(), 0);
}

#[test]
fn instantiate_gives_an_empty_store() {
    let storage = proper_initialization();
    assert_eq!(storage.config(), &config());
    assert_eq!(storage.state().excluded_wallets.len(), 0);
    assert_eq!(storage.balances().len(), 0);
    assert_eq!(storage.total_supply_history().len(), 0);
    assert_eq!(storage.last_version(), 0);
}

#[test]
fn boundary_mint_is_seen_at_its_version() {
    let mut storage = proper_initialization();
    let t = 500;
    transfer(&mut storage, t, TOKEN_FACTORY, "alice", 999).unwrap();
    assert_eq!(balance(&storage, t, "alice", Some(t)), 999);
    assert_eq!(balance(&storage, t, "alice", None), 999);
    assert_eq!(total_supply_at(&storage, t, Some(t)), 999);
    // later on, the value as of the version of the mint is the same
    assert_eq!(balance(&storage, t + 100, "alice", Some(t)), 999);
    assert_eq!(total_supply_at(&storage, t + 100, Some(t)), 999);
    assert_eq!(balance(&storage, t + 100, "alice", Some(t - 1)), 0);
    assert_eq!(total_supply_at(&storage, t + 100, Some(t - 1)), 0);
    // the mint address itself has no entry in the ledger
    assert!(storage.balances().get(TOKEN_FACTORY).is_none());
    assert_eq!(storage.last_version(), t);
}

#[test]
fn boundary_burn_after_transfer() {
    let mut storage = proper_initialization();
    transfer(&mut storage, 7, TOKEN_FACTORY, "alice", 100).unwrap();
    transfer(&mut storage, 7, "alice", TOKEN_FACTORY, 10).unwrap();
    assert_eq!(total_supply_at(&storage, 7, None), 90);
    assert_eq!(balance(&storage, 7, "alice", None), 90);
    // both writes were at one version: one checkpoint each
    assert_eq!(storage.total_supply_history().len(), 1);
    assert_eq!(
        storage.balances().get("alice").unwrap().checkpoints(),
        vec![Checkpoint { version: 7, value: 90 }]
    );
}

#[test]
fn underflow_is_rejected_and_changes_nothing() {
    let mut storage = proper_initialization();
    transfer(&mut storage, 10, TOKEN_FACTORY, "alice", 50).unwrap();
    let before = storage.clone();
    let r = transfer(&mut storage, 20, "alice", "bob", 51);
    assert_eq!(r, Err(ContractError::ArithmeticUnderflow {}));
    assert_eq!(storage, before);
    assert_eq!(balance(&storage, 20, "alice", None), 50);
    assert_eq!(balance(&storage, 20, "bob", None), 0);
    assert!(storage.balances().get("bob").is_none());
    assert_eq!(total_supply_at(&storage, 20, None), 50);
    // an address without balance cannot send either
    let r = transfer(&mut storage, 20, "carol", "alice", 1);
    assert_eq!(r, Err(ContractError::ArithmeticUnderflow {}));
    assert_eq!(storage, before);
    // all of the balance can be sent
    transfer(&mut storage, 20, "alice", "bob", 50).unwrap();
    assert_eq!(balance(&storage, 20, "alice", None), 0);
    assert_eq!(balance(&storage, 20, "bob", None), 50);
}

#[test]
fn overflow_is_rejected_and_changes_nothing() {
    let mut storage = proper_initialization();
    transfer(&mut storage, 1, TOKEN_FACTORY, "alice", u128::MAX).unwrap();
    assert_eq!(total_supply_at(&storage, 1, None), u128::MAX);
    let before = storage.clone();
    let r = transfer(&mut storage, 2, TOKEN_FACTORY, "bob", 1);
    assert_eq!(r, Err(ContractError::ArithmeticOverflow {}));
    assert_eq!(storage, before);
}

#[test]
fn failure_of_the_credit_leg_undoes_the_debit_leg() {
    // A store whose supply is less than a balance: the credit leg of a burn fails.
    let mut storage = Store::restore(
        config(),
        &vec![],
        &vec![("alice".to_string(), vec![Checkpoint { version: 1, value: 10 }])],
        vec![Checkpoint { version: 1, value: 4 }],
        1,
    )
    .unwrap();
    let before = storage.clone();
    let r = transfer(&mut storage, 2, "alice", TOKEN_FACTORY, 5);
    assert_eq!(r, Err(ContractError::ArithmeticUnderflow {}));
    assert_eq!(storage, before);
    assert_eq!(balance(&storage, 2, "alice", None), 10);
    // A balance at the largest number: the credit leg of a transfer to it fails.
    let mut storage = Store::restore(
        config(),
        &vec![],
        &vec![
            ("alice".to_string(), vec![Checkpoint { version: 1, value: u128::MAX }]),
            ("bob".to_string(), vec![Checkpoint { version: 1, value: 3 }]),
        ],
        vec![],
        1,
    )
    .unwrap();
    let before = storage.clone();
    let r = transfer(&mut storage, 2, "bob", "alice", 1);
    assert_eq!(r, Err(ContractError::ArithmeticOverflow {}));
    assert_eq!(storage, before);
}

#[test]
fn transfer_between_holders_moves_the_amount() {
    let mut storage = proper_initialization();
    transfer(&mut storage, 1, TOKEN_FACTORY, "alice", 100).unwrap();
    transfer(&mut storage, 2, "alice", "bob", 30).unwrap();
    assert_eq!(balance(&storage, 2, "alice", None), 70);
    assert_eq!(balance(&storage, 2, "bob", None), 30);
    assert_eq!(total_supply_at(&storage, 2, None), 100);
    assert_eq!(
        storage.balances().get("alice").unwrap().checkpoints(),
        vec![
            Checkpoint { version: 1, value: 100 },
            Checkpoint { version: 2, value: 70 }
        ]
    );
    // the supply was written once
    assert_eq!(
        storage.total_supply_history().checkpoints(),
        vec![Checkpoint { version: 1, value: 100 }]
    );
}

#[test]
fn transfer_to_oneself_keeps_the_balance() {
    let mut storage = proper_initialization();
    transfer(&mut storage, 1, TOKEN_FACTORY, "alice", 100).unwrap();
    transfer(&mut storage, 2, "alice", "alice", 40).unwrap();
    assert_eq!(balance(&storage, 2, "alice", None), 100);
    assert_eq!(
        storage.balances().get("alice").unwrap().checkpoints(),
        vec![
            Checkpoint { version: 1, value: 100 },
            Checkpoint { version: 2, value: 100 }
        ]
    );
    let before = storage.clone();
    let r = transfer(&mut storage, 3, "alice", "alice", 101);
    assert_eq!(r, Err(ContractError::ArithmeticUnderflow {}));
    assert_eq!(storage, before);
    // from the mint address to the mint address: the supply is written and stays
    transfer(&mut storage, 3, TOKEN_FACTORY, TOKEN_FACTORY, 5).unwrap();
    assert_eq!(total_supply_at(&storage, 3, None), 100);
    assert_eq!(storage.total_supply_history().len(), 2);
}

#[test]
fn transfer_of_nothing_still_writes() {
    let mut storage = proper_initialization();
    transfer(&mut storage, 5, "alice", "bob", 0).unwrap();
    assert_eq!(
        storage.balances().get("alice").unwrap().checkpoints(),
        vec![Checkpoint { version: 5, value: 0 }]
    );
    assert_eq!(
        storage.balances().get("bob").unwrap().checkpoints(),
        vec![Checkpoint { version: 5, value: 0 }]
    );
    assert_eq!(storage.total_supply_history().len(), 0);
    assert_eq!(storage.last_version(), 5);
}

#[test]
fn excluded_wallets_go_through_the_supply() {
    let mut storage = proper_initialization();
    transfer(&mut storage, 1, TOKEN_FACTORY, "alice", 100).unwrap();
    try_exclude_wallet(&mut storage, ADMIN, "vault".to_string(), "treasury".to_string()).unwrap();
    // to an excluded wallet: the amount leaves the supply
    transfer(&mut storage, 2, "alice", "vault", 60).unwrap();
    assert_eq!(balance(&storage, 2, "alice", None), 40);
    assert_eq!(balance(&storage, 2, "vault", None), 0);
    assert!(storage.balances().get("vault").is_none());
    assert_eq!(total_supply_at(&storage, 2, None), 40);
    // from an excluded wallet: the amount enters the supply
    transfer(&mut storage, 3, "vault", "bob", 25).unwrap();
    assert_eq!(balance(&storage, 3, "bob", None), 25);
    assert_eq!(total_supply_at(&storage, 3, None), 65);
    // between excluded wallets and the mint address: nothing changes but a checkpoint
    transfer(&mut storage, 4, "vault", TOKEN_FACTORY, 7).unwrap();
    assert_eq!(total_supply_at(&storage, 4, None), 65);
}

#[test]
fn exclusion_freezes_the_history_of_a_holder() {
    let mut storage = proper_initialization();
    transfer(&mut storage, 1, TOKEN_FACTORY, "alice", 100).unwrap();
    try_exclude_wallet(&mut storage, ADMIN, "alice".to_string(), "frozen".to_string()).unwrap();
    transfer(&mut storage, 2, TOKEN_FACTORY, "alice", 50).unwrap();
    assert_eq!(balance(&storage, 2, "alice", None), 100);
    assert_eq!(balance(&storage, 2, "alice", Some(1)), 100);
    try_include_wallet(&mut storage, ADMIN, "alice".to_string()).unwrap();
    transfer(&mut storage, 3, TOKEN_FACTORY, "alice", 50).unwrap();
    assert_eq!(balance(&storage, 3, "alice", None), 150);
}

#[test]
fn supply_is_the_sum_of_the_balances_at_every_version() {
    let mut storage = proper_initialization();
    let people = ["alice", "bob", "carol", "dave"];
    transfer(&mut storage, 10, TOKEN_FACTORY, "alice", 1000).unwrap();
    transfer(&mut storage, 10, "alice", "bob", 300).unwrap();
    transfer(&mut storage, 20, TOKEN_FACTORY, "carol", 77).unwrap();
    transfer(&mut storage, 30, "bob", "dave", 120).unwrap();
    assert!(transfer(&mut storage, 30, "dave", "alice", 121).is_err());
    transfer(&mut storage, 40, "carol", TOKEN_FACTORY, 70).unwrap();
    try_exclude_wallet(&mut storage, ADMIN, "vault".to_string(), "".to_string()).unwrap();
    transfer(&mut storage, 50, "alice", "vault", 500).unwrap();
    transfer(&mut storage, 60, "vault", "dave", 200).unwrap();
    let now = 60;
    let expected: [(u64, u128); 9] = [
        (0, 0),
        (9, 0),
        (10, 1000),
        (15, 1000),
        (20, 1077),
        (30, 1077),
        (40, 1007),
        (50, 507),
        (60, 707),
    ];
    for (version, supply) in expected {
        let sum: u128 = people
            .iter()
            .map(|p| balance(&storage, now, p, Some(version)))
            .sum();
        assert_eq!(total_supply_at(&storage, now, Some(version)), supply);
        assert_eq!(sum, supply);
    }
    assert_eq!(storage.balances().len(), 4);
}

#[test]
fn later_transfers_leave_history_as_it_was() {
    let mut storage = proper_initialization();
    transfer(&mut storage, 10, TOKEN_FACTORY, "alice", 100).unwrap();
    let at_the_time = balance(&storage, 10, "alice", Some(10));
    let supply_at_the_time = total_supply_at(&storage, 10, None);
    assert_eq!(at_the_time, 100);
    transfer(&mut storage, 11, "alice", "bob", 40).unwrap();
    transfer(&mut storage, 25, TOKEN_FACTORY, "alice", 5).unwrap();
    transfer(&mut storage, 25, "alice", TOKEN_FACTORY, 65).unwrap();
    assert_eq!(balance(&storage, 25, "alice", Some(10)), at_the_time);
    assert_eq!(total_supply_at(&storage, 25, Some(10)), supply_at_the_time);
    assert_eq!(balance(&storage, 25, "alice", Some(11)), 60);
    assert_eq!(balance(&storage, 25, "alice", Some(24)), 60);
    assert_eq!(balance(&storage, 25, "alice", Some(25)), 0);
    assert_eq!(balance(&storage, 25, "alice", Some(u64::MAX)), 0);
    assert_eq!(balance(&storage, 25, "bob", Some(10)), 0);
    assert_eq!(balance(&storage, 25, "bob", Some(11)), 40);
}

#[test]
fn exclusion_round_trip() {
    let mut storage = proper_initialization();
    try_exclude_wallet(&mut storage, ADMIN, "bbb".to_string(), "kept".to_string()).unwrap();
    let before = storage.clone();
    try_exclude_wallet(&mut storage, ADMIN, "aaa".to_string(), "memo".to_string()).unwrap();
    assert!(storage.state().excluded_wallets.contains_key("aaa"));
    assert_eq!(
        storage.state().excluded_wallets.get("aaa"),
        Some(&"memo".to_string())
    );
    assert_eq!(
        storage.state().excluded_wallets.entries(),
        vec![
            ("aaa".to_string(), "memo".to_string()),
            ("bbb".to_string(), "kept".to_string())
        ]
    );
    let excluded = storage.clone();
    assert_eq!(
        try_exclude_wallet(&mut storage, ADMIN, "aaa".to_string(), "again".to_string()),
        Err(ContractError::TokenAlreadyWhitelisted {})
    );
    assert_eq!(storage, excluded);
    try_include_wallet(&mut storage, ADMIN, "aaa".to_string()).unwrap();
    assert_eq!(storage, before);
    assert_eq!(
        try_include_wallet(&mut storage, ADMIN, "aaa".to_string()),
        Err(ContractError::TokenNotFound {})
    );
    assert_eq!(storage, before);
}

#[test]
fn only_the_administrator_may_exclude_and_include() {
    let mut storage = proper_initialization();
    assert_eq!(check_is_admin(&storage, ADMIN), Ok(()));
    assert_eq!(
        check_is_admin(&storage, USER),
        Err(ContractError::Unauthorized {})
    );
    assert_eq!(
        check_is_admin(&storage, ""),
        Err(ContractError::Unauthorized {})
    );
    let before = storage.clone();
    assert_eq!(
        try_exclude_wallet(&mut storage, OTHER, "aaa".to_string(), "memo".to_string()),
        Err(ContractError::Unauthorized {})
    );
    assert_eq!(storage, before);
    try_exclude_wallet(&mut storage, ADMIN, "aaa".to_string(), "memo".to_string()).unwrap();
    let before = storage.clone();
    assert_eq!(
        try_include_wallet(&mut storage, OTHER, "aaa".to_string()),
        Err(ContractError::Unauthorized {})
    );
    assert_eq!(
        execute(
            &mut storage,
            USER,
            ExecuteMsg::IncludeWallet { addr: "aaa".to_string() }
        ),
        Err(ContractError::Unauthorized {})
    );
    // the caller is checked before the address
    assert_eq!(
        execute(
            &mut storage,
            USER,
            ExecuteMsg::ExcludeWallet { addr: "aaa".to_string(), memo: "x".to_string() }
        ),
        Err(ContractError::Unauthorized {})
    );
    assert_eq!(storage, before);
}

#[test]
fn sudo_accounts_transfers_of_the_tracked_asset_only() {
    let mut storage = proper_initialization();
    let coin = |denom: &str, amount: u128| Coin { denom: denom.to_string(), amount };
    sudo(
        &mut storage,
        100,
        SudoMsg::BlockBeforeSend {
            from: TOKEN_FACTORY.to_string(),
            to: USER.to_string(),
            amount: coin(NATIVE_DENOM, 12),
        },
    )
    .unwrap();
    assert_eq!(balance(&storage, 100, USER, None), 12);
    assert_eq!(total_supply_at(&storage, 100, None), 12);
    let before = storage.clone();
    let r = sudo(
        &mut storage,
        101,
        SudoMsg::BlockBeforeSend {
            from: TOKEN_FACTORY.to_string(),
            to: USER.to_string(),
            amount: coin("uatom", 12),
        },
    );
    assert_eq!(
        r,
        Err(ContractError::InvalidDenom { expected_denom: NATIVE_DENOM.to_string() })
    );
    assert_eq!(storage, before);
    sudo(
        &mut storage,
        102,
        SudoMsg::TrackBeforeSend {
            from: TOKEN_FACTORY.to_string(),
            to: USER.to_string(),
            amount: coin(NATIVE_DENOM, 12),
        },
    )
    .unwrap();
    assert_eq!(storage, before);
    let r = sudo(
        &mut storage,
        103,
        SudoMsg::BlockBeforeSend {
            from: USER.to_string(),
            to: OTHER.to_string(),
            amount: coin(NATIVE_DENOM, 13),
        },
    );
    assert_eq!(r, Err(ContractError::ArithmeticUnderflow {}));
    assert_eq!(storage, before);
}

#[test]
fn error_messages() {
    assert_eq!(ContractError::Unauthorized {}.message(), "Unauthorized");
    assert_eq!(
        ContractError::InvalidDenom { expected_denom: "untrn".to_string() }.message(),
        "Invalid denom, expected untrn"
    );
    assert_eq!(
        ContractError::TokenAlreadyWhitelisted {}.message(),
        "Token already whitelisted"
    );
    assert_eq!(ContractError::TokenNotFound {}.message(), "Token not found");
    assert_eq!(
        ContractError::ArithmeticUnderflow {}.message(),
        "Arithmetic underflow"
    );
    assert_eq!(
        ContractError::ArithmeticOverflow {}.message(),
        "Arithmetic overflow"
    );
}

#[test]
fn a_store_taken_apart_is_restored() {
    let mut storage = proper_initialization();
    transfer(&mut storage, 10, TOKEN_FACTORY, "alice", 1000).unwrap();
    transfer(&mut storage, 20, "alice", "bob", 300).unwrap();
    try_exclude_wallet(&mut storage, ADMIN, "vault".to_string(), "memo".to_string()).unwrap();
    let again = Store::restore(
        storage.config().clone(),
        &storage.state().excluded_wallets.entries(),
        &storage.balances().entries(),
        storage.total_supply_history().checkpoints(),
        storage.last_version(),
    );
    assert_eq!(again, Some(storage));
}

#[test]
fn parts_out_of_order_are_not_restored() {
    let cp = |version: u64, value: u128| Checkpoint { version, value };
    let pair = |a: &str, b: &str| (a.to_string(), b.to_string());
    // addresses of the registry out of order, or twice
    assert!(Store::restore(config(), &vec![pair("b", ""), pair("a", "")], &vec![], vec![], 0).is_none());
    assert!(Store::restore(config(), &vec![pair("a", ""), pair("a", "")], &vec![], vec![], 0).is_none());
    assert!(Store::restore(config(), &vec![pair("a", ""), pair("b", "")], &vec![], vec![], 0).is_some());
    // holders out of order
    let holders = vec![("b".to_string(), vec![cp(1, 1)]), ("a".to_string(), vec![cp(1, 1)])];
    assert!(Store::restore(config(), &vec![], &holders, vec![], 1).is_none());
    // a holder without checkpoint
    let holders = vec![("a".to_string(), vec![])];
    assert!(Store::restore(config(), &vec![], &holders, vec![], 1).is_none());
    // checkpoints out of order, or two at one version
    let holders = vec![("a".to_string(), vec![cp(2, 1), cp(1, 1)])];
    assert!(Store::restore(config(), &vec![], &holders, vec![], 2).is_none());
    assert!(Store::restore(config(), &vec![], &vec![], vec![cp(1, 1), cp(1, 2)], 2).is_none());
    // a checkpoint later than the last version
    let holders = vec![("a".to_string(), vec![cp(1, 1), cp(3, 1)])];
    assert!(Store::restore(config(), &vec![], &holders, vec![], 2).is_none());
    assert!(Store::restore(config(), &vec![], &holders, vec![], 3).is_some());
    assert!(Store::restore(config(), &vec![], &vec![], vec![cp(4, 1)], 3).is_none());
    assert!(Store::restore(config(), &vec![], &vec![], vec![cp(4, 1)], 4).is_some());
}
