use afterlife_core::config::{Chain, Contract, IndexerConfig};
use afterlife_core::fetch::{chunk_ranges, look_back_start, merge_ranges, plan_scan_start, RetryPolicy};
use afterlife_core::leaderboard::{build_leaderboard, top_k_desc, user_points_and_level, RarityTable};
use afterlife_core::level::points_to_level;
use afterlife_core::replay::{FullEntry, UserCollection};
use afterlife_core::store::{EventGroup, EventStore, StoredEvent};
use afterlife_core::users::{
    get_addresses_by_input, get_all_addresses_for_username, get_username_or_checksummed_address,
    UserEntry,
};

fn b(s: &str) -> Vec<u8> {
    s.as_bytes().to_vec()
}

fn addr(c: char) -> String {
    let mut s = String::from("0x");
    for _ in 0..40 {
        s.push(c);
    }
    s
}

#[test]
fn level_thresholds_are_exact() {
    assert_eq!(points_to_level(0), 0);
    assert_eq!(points_to_level(1), 0);
    assert_eq!(points_to_level(99), 0);
    assert_eq!(points_to_level(100), 1);
    assert_eq!(points_to_level(206), 1);
    assert_eq!(points_to_level(207), 2);
    assert_eq!(points_to_level(59193), 59);
    assert_eq!(points_to_level(59194), 60);
    assert_eq!(points_to_level(1_000_000_000), 60);
    assert_eq!(points_to_level(u32::MAX), 60);
}

#[test]
fn levels_are_monotone_and_capped() {
    let mut prev = 0;
    for score in (0..70000u32).step_by(7) {
        let l = points_to_level(score);
        assert!(l >= prev);
        assert!(l <= 60);
        prev = l;
    }
}

fn stored(cid: u64, block: u64, id: u64) -> StoredEvent {
    StoredEvent {
        contract_id: cid,
        operator: b(&addr('0')),
        from_address: b(&addr('0')),
        to_address: b(&addr('a')),
        ids_json: format!("[\"{}\"]", id).into_bytes(),
        values_json: b("[\"1\"]"),
        block_number: block,
        tx_hash: b("0xhash"),
    }
}

#[test]
fn shallow_reorg_rewrites_the_window() {
    let mut store = EventStore::new();
    let chain = Chain {
        id: 1,
        name: b("ethereum"),
        rpc_url: b("http://localhost:8545"),
        chunk_size: 2000,
        contracts: vec![],
    };
    let contract = Contract {
        name: b("afterlife"),
        address: b(&addr('c')),
        startblock: 0,
        kind: b("ERC721"),
    };
    let cid = store.contract_and_chain_to_contractid(&contract, &chain);
    // first tick sees an event at block 990
    let groups1 = vec![EventGroup { contract_id: cid, events: vec![stored(cid, 990, 7)] }];
    store.nuke_and_process_events_for_chain(&vec![cid], &groups1, 0, 1000);
    assert_eq!(store.events.len(), 1);
    // the second tick re-scans a window covering 990 and no longer sees it
    let groups2 = vec![EventGroup { contract_id: cid, events: vec![] }];
    store.nuke_and_process_events_for_chain(&vec![cid], &groups2, 988, 1050);
    assert_eq!(store.events.len(), 0);
    assert_eq!(store.get_last_processed_block(&b(&addr('c'))), Some(1050));
}

#[test]
fn reconciling_twice_changes_nothing() {
    let mut store = EventStore::new();
    let chain = Chain {
        id: 1,
        name: b("ethereum"),
        rpc_url: b("http://localhost:8545"),
        chunk_size: 2000,
        contracts: vec![],
    };
    let contract = Contract {
        name: b("afterlife"),
        address: b(&addr('c')),
        startblock: 0,
        kind: b("ERC721"),
    };
    let cid = store.contract_and_chain_to_contractid(&contract, &chain);
    store.insert_event(stored(cid, 5, 1));
    let groups = vec![EventGroup {
        contract_id: cid,
        events: vec![stored(cid, 100, 2), stored(cid, 150, 3)],
    }];
    store.nuke_and_process_events_for_chain(&vec![cid], &groups, 100, 200);
    let snapshot: Vec<(u64, u64, Vec<u8>)> = store
        .events
        .iter()
        .map(|e| (e.contract_id, e.block_number, e.ids_json.clone()))
        .collect();
    store.nuke_and_process_events_for_chain(&vec![cid], &groups, 100, 200);
    let again: Vec<(u64, u64, Vec<u8>)> = store
        .events
        .iter()
        .map(|e| (e.contract_id, e.block_number, e.ids_json.clone()))
        .collect();
    assert_eq!(snapshot, again);
    assert_eq!(store.events.len(), 3);
}

#[test]
fn a_contract_without_a_group_still_loses_its_window() {
    let mut store = EventStore::new();
    let chain = Chain {
        id: 1,
        name: b("ethereum"),
        rpc_url: b("http://localhost:8545"),
        chunk_size: 2000,
        contracts: vec![],
    };
    let contract = Contract {
        name: b("afterlife"),
        address: b(&addr('c')),
        startblock: 0,
        kind: b("ERC721"),
    };
    let cid = store.contract_and_chain_to_contractid(&contract, &chain);
    let groups1 = vec![EventGroup { contract_id: cid, events: vec![stored(cid, 990, 7)] }];
    store.nuke_and_process_events_for_chain(&vec![cid], &groups1, 0, 1000);
    assert_eq!(store.events.len(), 1);
    // the next tick carries no group at all for the contract
    let groups2: Vec<EventGroup> = vec![];
    store.nuke_and_process_events_for_chain(&vec![cid], &groups2, 900, 1050);
    assert_eq!(store.events.len(), 0);
}

#[test]
fn repeat_upserts_return_the_same_id_and_insert_nothing() {
    let mut store = EventStore::new();
    let chain = Chain {
        id: 1,
        name: b("ethereum"),
        rpc_url: b("url"),
        chunk_size: 2000,
        contracts: vec![],
    };
    let contract = Contract {
        name: b("afterlife"),
        address: b(&addr('c')),
        startblock: 0,
        kind: b("ERC721"),
    };
    let id1 = store.contract_and_chain_to_contractid(&contract, &chain);
    let chains = store.chains.len();
    let contracts = store.contracts.len();
    let id2 = store.contract_and_chain_to_contractid(&contract, &chain);
    assert_eq!(id1, id2);
    assert_eq!(store.chains.len(), chains);
    assert_eq!(store.contracts.len(), contracts);
}

#[test]
fn upserts_find_existing_rows() {
    let mut store = EventStore::new();
    let id1 = store.upsert_chain(&b("Ethereum"), &b("url"), 2000);
    let id2 = store.upsert_chain(&b("ethereum"), &b("url2"), 500);
    assert_eq!(id1, id2);
    let c1 = store.upsert_contract(id1, &b("one"), &b(&addr('c')), &b("ERC721"), 7);
    let upper = addr('c').to_uppercase().replace("0X", "0x");
    let c2 = store.upsert_contract(id1, &b("one"), &b(&upper), &b("ERC721"), 9);
    assert_eq!(c1, c2);
    assert_eq!(store.get_earliest_last_processed_block(id1), Some(7));
}

#[test]
fn retry_schedule_doubles_and_gives_up() {
    let mut p = RetryPolicy::new();
    let mut delays = Vec::new();
    loop {
        match p.next_retry() {
            Some((d, n)) => {
                delays.push(d);
                p = n;
            }
            None => break,
        }
    }
    assert_eq!(delays, vec![2000, 4000, 8000, 16000, 32000]);
}

#[test]
fn chunking_covers_the_range() {
    assert_eq!(chunk_ranges(0, 10, 3), vec![(0, 2), (3, 5), (6, 8), (9, 10)]);
    assert_eq!(chunk_ranges(10, 10, 3), vec![]);
    assert_eq!(chunk_ranges(0, 1, 2000), vec![(0, 1)]);
    let (f, t) = merge_ranges(&vec![(3, 5), (0, 2), (9, 10)]);
    assert_eq!((f, t), (0, 10));
}

#[test]
fn look_back_rescans_near_the_head() {
    assert_eq!(look_back_start(5000, 6000), 3000);
    assert_eq!(look_back_start(5000, 8000), 5000);
    assert_eq!(look_back_start(1000, 1500), 0);
    assert_eq!(plan_scan_start(5000, 6000, 4000), 4000);
    assert_eq!(plan_scan_start(5000, 6000, 100), 3000);
}

#[test]
fn earliest_start_block_is_the_minimum() {
    let chain = Chain {
        id: 1,
        name: b("ethereum"),
        rpc_url: b("url"),
        chunk_size: 2000,
        contracts: vec![
            Contract { name: b("one"), address: b(&addr('c')), startblock: 500, kind: b("ERC721") },
            Contract { name: b("two"), address: b(&addr('d')), startblock: 30, kind: b("ERC1155") },
        ],
    };
    let cfg = IndexerConfig { chains: vec![] };
    assert_eq!(cfg.get_earliest_start_block_for_chain(&chain), 30);
}

fn users_fixture() -> Vec<UserEntry> {
    vec![
        UserEntry { username: b("alice"), addresses: vec![b(&addr('a')), b(&addr('1'))] },
        UserEntry { username: b("bob"), addresses: vec![b(&addr('b'))] },
    ]
}

#[test]
fn wallets_resolve_to_usernames_or_checksums() {
    let users = users_fixture();
    let upper = addr('a').to_uppercase().replace("0X", "0x");
    let r = get_username_or_checksummed_address(&b(&upper), &users).unwrap().unwrap();
    assert_eq!(r, b("alice"));
    let unknown = addr('e');
    let r2 = get_username_or_checksummed_address(&b(&unknown), &users).unwrap().unwrap();
    assert_eq!(r2, eth_checksum::checksum(&unknown).into_bytes());
    assert!(get_username_or_checksummed_address(&b("not-an-address"), &users).is_err());
}

#[test]
fn usernames_resolve_to_their_addresses() {
    let users = users_fixture();
    let addrs = get_all_addresses_for_username(&b("alice"), &users);
    assert_eq!(addrs, vec![b(&addr('1')), b(&addr('a'))]);
    // an unclaimed but valid address resolves to itself
    let lone = addr('e');
    assert_eq!(get_all_addresses_for_username(&b(&lone), &users), vec![b(&lone)]);
    assert_eq!(get_all_addresses_for_username(&b("nobody"), &users), Vec::<Vec<u8>>::new());
    // the owners of an address, by reverse lookup
    let names = get_addresses_by_input(&b(&addr('b')), &users);
    assert_eq!(names, vec![b("bob")]);
}

#[test]
fn leaderboard_scores_names_and_filters() {
    let chain = "ethereum";
    let c1 = addr('c');
    let collections = vec![
        UserCollection {
            wallet: b(&addr('a')),
            entries: vec![FullEntry { chain: b(chain), contract: b(&c1), token_id: 7, balance: 1 }],
        },
        UserCollection {
            wallet: b(&addr('b')),
            entries: vec![FullEntry { chain: b(chain), contract: b(&c1), token_id: 8, balance: 1 }],
        },
        UserCollection {
            wallet: b(&addr('e')),
            entries: vec![FullEntry { chain: b(chain), contract: b(&c1), token_id: 99, balance: 1 }],
        },
    ];
    let users = users_fixture();
    let tables = vec![RarityTable {
        chain: b(chain),
        contract: b(&c1),
        scores: vec![(7, 123400), (8, 50000)],
    }];
    let deny = vec![b("bob")];
    let board = build_leaderboard(&collections, &users, &tables, &deny);
    // bob is denied, the unpriced wallet scores zero: only alice remains
    assert_eq!(board.len(), 1);
    assert_eq!(board[0].0, b("alice"));
    assert_eq!(board[0].1, 123400);
}

#[test]
fn points_feed_the_level_curve() {
    let chain = "ethereum";
    let c1 = addr('c');
    let entries = vec![
        FullEntry { chain: b(chain), contract: b(&c1), token_id: 7, balance: 2 },
    ];
    let tables = vec![RarityTable { chain: b(chain), contract: b(&c1), scores: vec![(7, 150)] }];
    let (points, level) = user_points_and_level(&tables, &entries);
    assert_eq!(points, 300);
    assert_eq!(level, 2);
}

#[test]
fn top_k_picks_the_highest_scores() {
    let items = vec![(5u64, 1u64), (9, 2), (7, 3), (9, 4)];
    let top2 = top_k_desc(&items, 2);
    assert_eq!(top2.len(), 2);
    assert_eq!(top2[0].0, 9);
    assert_eq!(top2[1].0, 9);
    let top3 = top_k_desc(&items, 3);
    assert_eq!(top3[2], (7, 3));
    let all = top_k_desc(&items, 10);
    assert_eq!(all.len(), 4);
    assert_eq!(all[3], (5, 1));
}
