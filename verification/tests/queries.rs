use cosmoburn_tracker::contract::{instantiate, track_balances, try_exclude_wallet};
use cosmoburn_tracker::msg::{
    ConfigResponse, ExcludedWalletsResponse, HolderBalanceResponse, InstantiateMsg,
    ListHoldersResponse, QueryMsg, QueryReply,
};
use cosmoburn_tracker::query::{
    balance_at, query, query_excludedwallets, query_list_holders, total_supply_at, DEFAULT_LIMIT,
};
use cosmoburn_tracker::state::Store;

const ADMIN: &str = "neutron2";
const TOKEN_FACTORY: &str = "neutron4";
const NATIVE_DENOM: &str = "untrn";
const BLOCK_SECONDS: u64 = 1_571_797_419;

fn proper_instantiate() -> Store {
    instantiate(InstantiateMsg {
        admin_addr: ADMIN.to_string(),
        tokenfactory_module_address: TOKEN_FACTORY.to_string(),
        tracked_denom: NATIVE_DENOM.to_string(),
    })
}

fn mint(storage: &mut Store, at: u64, to: &str, amount: u128) {
    assert!(storage.last_version() <= at);
    let config = storage.config().clone();
    track_balances(storage, at, &config, TOKEN_FACTORY.to_string(), to.to_string(), amount).unwrap();
}

fn holder(address: &str, balance: u128) -> HolderBalanceResponse {
    HolderBalanceResponse { address: address.to_string(), balance }
}

fn addresses(r: &ListHoldersResponse) -> Vec<String> {
    r.holders.iter().map(|h| h.address.clone()).collect()
}

#[test]
fn queries() {
    let storage = proper_instantiate();

    let query_res = query(
        &storage,
        BLOCK_SECONDS,
        QueryMsg::BalanceAt { address: ADMIN.to_string(), timestamp: Some(1u64) },
    );
    assert_eq!(query_res, QueryReply::Balance(0));

    let query_res = query(
        &storage,
        BLOCK_SECONDS,
        QueryMsg::TotalSupplyAt { timestamp: Some(1u64) },
    );
    assert_eq!(query_res, QueryReply::TotalSupply(0));

    let query_res = match query(
        &storage,
        BLOCK_SECONDS,
        QueryMsg::GetHolders { from: None, limit: Some(10), timestamp: None },
    ) {
        QueryReply::Holders(l) => l,
        other => panic!("unexpected reply {:?}", other),
    };
    assert_eq!(query_res.holders.len(), 0);
}

#[test]
fn query_of_the_configuration_leaves_out_the_administrator() {
    let storage = proper_instantiate();
    assert_eq!(
        query(&storage, BLOCK_SECONDS, QueryMsg::Config {}),
        QueryReply::Config(ConfigResponse {
            tracked_denom: NATIVE_DENOM.to_string(),
            token_factory_module: TOKEN_FACTORY.to_string(),
        })
    );
}

#[test]
fn query_of_the_excluded_wallets_gives_all_of_them() {
    let mut storage = proper_instantiate();
    assert_eq!(
        query_excludedwallets(&storage),
        ExcludedWalletsResponse { excludedwallets: vec![] }
    );
    try_exclude_wallet(&mut storage, ADMIN, "zed".to_string(), "last".to_string()).unwrap();
    try_exclude_wallet(&mut storage, ADMIN, "abe".to_string(), "first".to_string()).unwrap();
    let expected = ExcludedWalletsResponse {
        excludedwallets: vec![
            ("abe".to_string(), "first".to_string()),
            ("zed".to_string(), "last".to_string()),
        ],
    };
    assert_eq!(query_excludedwallets(&storage), expected);
    assert_eq!(
        query(&storage, BLOCK_SECONDS, QueryMsg::GetExcludedWallets {}),
        QueryReply::ExcludedWallets(expected)
    );
}

#[test]
fn balance_and_supply_now_and_then() {
    let mut storage = proper_instantiate();
    mint(&mut storage, 100, "alice", 5);
    mint(&mut storage, 200, "alice", 7);
    let now = 300;
    assert_eq!(balance_at(&storage, now, "alice".to_string(), None), 12);
    assert_eq!(balance_at(&storage, now, "alice".to_string(), Some(now)), 12);
    assert_eq!(balance_at(&storage, now, "alice".to_string(), Some(99)), 0);
    assert_eq!(balance_at(&storage, now, "alice".to_string(), Some(100)), 5);
    assert_eq!(balance_at(&storage, now, "alice".to_string(), Some(199)), 5);
    assert_eq!(balance_at(&storage, now, "alice".to_string(), Some(200)), 12);
    assert_eq!(balance_at(&storage, now, "alice".to_string(), Some(1000)), 12);
    assert_eq!(balance_at(&storage, now, "nobody".to_string(), None), 0);
    assert_eq!(balance_at(&storage, now, "nobody".to_string(), Some(150)), 0);
    assert_eq!(total_supply_at(&storage, now, None), 12);
    assert_eq!(total_supply_at(&storage, now, Some(now)), 12);
    assert_eq!(total_supply_at(&storage, now, Some(0)), 0);
    assert_eq!(total_supply_at(&storage, now, Some(150)), 5);
    assert_eq!(
        query(
            &storage,
            now,
            QueryMsg::BalanceAt { address: "alice".to_string(), timestamp: Some(150) }
        ),
        QueryReply::Balance(5)
    );
    assert_eq!(
        query(&storage, now, QueryMsg::TotalSupplyAt { timestamp: None }),
        QueryReply::TotalSupply(12)
    );
    // a timestamp that is the current time reads the latest value
    assert_eq!(balance_at(&storage, 150, "alice".to_string(), Some(150)), 12);
    assert_eq!(total_supply_at(&storage, 150, Some(150)), 12);
}

#[test]
fn holders_of_an_empty_ledger() {
    let storage = proper_instantiate();
    let r = query_list_holders(&storage, BLOCK_SECONDS, None, Some(10), None);
    assert_eq!(r, ListHoldersResponse { holders: vec![] });
    let r = query_list_holders(&storage, BLOCK_SECONDS, Some("a".to_string()), None, Some(5));
    assert_eq!(r, ListHoldersResponse { holders: vec![] });
}

#[test]
fn holders_come_in_ascending_order_page_by_page() {
    let mut storage = proper_instantiate();
    let names = ["h07", "h02", "h05", "h01", "h06", "h03", "h04"];
    for (i, name) in names.iter().enumerate() {
        mint(&mut storage, 10 + i as u64, name, 100 + i as u128);
    }
    let now = 50;
    let all = query_list_holders(&storage, now, None, Some(100), None);
    assert_eq!(
        all,
        ListHoldersResponse {
            holders: vec![
                holder("h01", 103),
                holder("h02", 101),
                holder("h03", 105),
                holder("h04", 106),
                holder("h05", 102),
                holder("h06", 104),
                holder("h07", 100),
            ]
        }
    );
    // exactly min(k, N) entries
    for k in 0..10u32 {
        let r = query_list_holders(&storage, now, None, Some(k), None);
        assert_eq!(r.holders.len(), std::cmp::min(k as usize, 7));
        assert_eq!(r.holders[..], all.holders[..r.holders.len()]);
    }
    // chained pages: no duplicates, no gaps
    let mut seen: Vec<String> = Vec::new();
    let mut start: Option<String> = None;
    let mut pages = 0;
    loop {
        let r = query_list_holders(&storage, now, start.clone(), Some(3), None);
        if r.holders.is_empty() {
            break;
        }
        assert!(r.holders.len() <= 3);
        start = Some(r.holders.last().unwrap().address.clone());
        seen.extend(addresses(&r));
        pages += 1;
    }
    assert_eq!(pages, 3);
    assert_eq!(seen, addresses(&all));
    // the bound is exclusive, and need not be a holder
    let r = query_list_holders(&storage, now, Some("h05".to_string()), Some(10), None);
    assert_eq!(addresses(&r), vec!["h06", "h07"]);
    let r = query_list_holders(&storage, now, Some("h045".to_string()), Some(1), None);
    assert_eq!(addresses(&r), vec!["h05"]);
    let r = query_list_holders(&storage, now, Some("h07".to_string()), Some(10), None);
    assert!(r.holders.is_empty());
    let r = query_list_holders(&storage, now, Some("".to_string()), Some(2), None);
    assert_eq!(addresses(&r), vec!["h01", "h02"]);
}

#[test]
fn holders_are_listed_with_their_balance_at_the_timestamp() {
    let mut storage = proper_instantiate();
    mint(&mut storage, 10, "bob", 5);
    mint(&mut storage, 20, "alice", 8);
    mint(&mut storage, 30, "bob", 1);
    let r = query_list_holders(&storage, 40, None, None, Some(15));
    assert_eq!(r.holders, vec![holder("alice", 0), holder("bob", 5)]);
    let r = query_list_holders(&storage, 40, None, None, Some(20));
    assert_eq!(r.holders, vec![holder("alice", 8), holder("bob", 5)]);
    let r = query_list_holders(&storage, 40, None, None, None);
    assert_eq!(r.holders, vec![holder("alice", 8), holder("bob", 6)]);
    assert_eq!(
        query(
            &storage,
            40,
            QueryMsg::GetHolders { from: Some("alice".to_string()), limit: Some(5), timestamp: Some(10) }
        ),
        QueryReply::Holders(ListHoldersResponse { holders: vec![holder("bob", 5)] })
    );
}

#[test]
fn a_holder_with_balance_zero_is_still_listed() {
    let mut storage = proper_instantiate();
    mint(&mut storage, 10, "alice", 5);
    let config = storage.config().clone();
    track_balances(&mut storage, 11, &config, "alice".to_string(), TOKEN_FACTORY.to_string(), 5)
        .unwrap();
    let r = query_list_holders(&storage, 12, None, None, None);
    assert_eq!(r.holders, vec![holder("alice", 0)]);
}

#[test]
fn the_default_limit_is_ten() {
    assert_eq!(DEFAULT_LIMIT, 10);
    let mut storage = proper_instantiate();
    for i in 0..12u64 {
        mint(&mut storage, i, &format!("holder{:02}", i), 1);
    }
    let r = query_list_holders(&storage, 20, None, None, None);
    assert_eq!(r.holders.len(), 10);
    assert_eq!(r.holders[9].address, "holder09");
    let r = query_list_holders(&storage, 20, Some("holder09".to_string()), None, None);
    assert_eq!(addresses(&r), vec!["holder10", "holder11"]);
    let r = query_list_holders(&storage, 20, None, Some(u32::MAX), None);
    assert_eq!(r.holders.len(), 12);
}
