use afterlife_core::replay::{
    get_all_users_collections, get_entire_collection, get_entire_collection_for_address,
    get_token_owners, get_user_full_collection, CollectionRow, ReplayEvent,
};

fn b(s: &str) -> Vec<u8> {
    s.as_bytes().to_vec()
}

fn addr(c: char) -> String {
    let mut s = String::from("0x");
    for _ in 0..40 {
        s.push(c);
    }
    s
}

fn zero() -> String {
    addr('0')
}

fn dead() -> String {
    let mut s = String::from("0x");
    for _ in 0..36 {
        s.push('0');
    }
    s.push_str("dEaD");
    s
}

fn ev(from: &str, to: &str, ids: Vec<u64>, values: Vec<u64>) -> ReplayEvent {
    ReplayEvent { from_address: b(from), to_address: b(to), ids, values }
}

#[test]
fn erc721_mint_then_transfer() {
    let a = addr('a');
    let bb = addr('b');
    let events = vec![
        ev(&zero(), &a, vec![7], vec![1]),
        ev(&a, &bb, vec![7], vec![1]),
    ];
    let bal_a = get_entire_collection_for_address(&events, &b(&a));
    assert_eq!(bal_a, vec![]);
    let bal_b = get_entire_collection_for_address(&events, &b(&bb));
    assert_eq!(bal_b, vec![(7u64, 1u64)]);
    let existing = get_entire_collection(&events);
    assert_eq!(existing, vec![7u64]);
    let owners = get_token_owners(&events, 7);
    assert_eq!(owners.len(), 1);
    assert_eq!(owners[0], eth_checksum::checksum(&bb).into_bytes());
}

#[test]
fn erc1155_batch_and_burn() {
    let a = addr('a');
    let events = vec![
        ev(&zero(), &a, vec![1, 2], vec![10, 5]),
        ev(&a, &dead(), vec![1], vec![3]),
    ];
    let bal_a = get_entire_collection_for_address(&events, &b(&a));
    assert_eq!(bal_a, vec![(1u64, 7u64), (2u64, 5u64)]);
    let existing = get_entire_collection(&events);
    assert_eq!(existing, vec![1u64, 2u64]);
    let owners = get_token_owners(&events, 1);
    assert_eq!(owners.len(), 1);
    assert_eq!(owners[0], eth_checksum::checksum(&addr('a')).into_bytes());
    // the dead address never appears as an owner
    for o in &owners {
        assert_ne!(o, &eth_checksum::checksum(&dead()).into_bytes());
    }
}

#[test]
fn balances_are_case_insensitive() {
    let a_lower = addr('a');
    let a_upper = a_lower.to_uppercase().replace("0X", "0x");
    let events = vec![ev(&zero(), &a_lower, vec![3], vec![4])];
    let low = get_entire_collection_for_address(&events, &b(&a_lower));
    let up = get_entire_collection_for_address(&events, &b(&a_upper));
    assert_eq!(low, up);
    assert_eq!(low, vec![(3u64, 4u64)]);
}

#[test]
fn a_mint_straight_into_a_burn_sink_nets_to_nothing() {
    // minted from the zero address and burnt in the same event:
    // +v and -v cancel, so the token never exists
    let events = vec![ev(&zero(), &dead(), vec![9], vec![1])];
    assert_eq!(get_entire_collection(&events), Vec::<u64>::new());
}

#[test]
fn negative_balances_never_reach_the_full_collection() {
    let a = addr('a');
    let bb = addr('b');
    let c1 = addr('c');
    // b sends a token it was never credited with: its net is negative
    let rows = vec![
        CollectionRow {
            chain: b("ethereum"),
            contract: b(&c1),
            event: ev(&bb, &a, vec![5], vec![5]),
        },
    ];
    assert!(get_user_full_collection(&rows, &b(&bb)).is_empty());
    let fa = get_user_full_collection(&rows, &b(&a));
    assert_eq!(fa.len(), 1);
    assert_eq!(fa[0].balance, 5u64);
    // the sender-only wallet holds nothing, so it is no user either
    let all = get_all_users_collections(&rows);
    assert_eq!(all.len(), 1);
    assert_eq!(all[0].wallet, b(&addr('a')));
}

#[test]
fn existing_tokens_ignore_event_order() {
    let a = addr('a');
    let bb = addr('b');
    let e1 = || ev(&zero(), &a, vec![1, 2], vec![3, 1]);
    let e2 = || ev(&a, &bb, vec![1], vec![2]);
    let e3 = || ev(&bb, &dead(), vec![2], vec![1]);
    let one = get_entire_collection(&vec![e1(), e2(), e3()]);
    let two = get_entire_collection(&vec![e3(), e1(), e2()]);
    let three = get_entire_collection(&vec![e2(), e3(), e1()]);
    assert_eq!(one, two);
    assert_eq!(two, three);
    assert_eq!(one, vec![1u64]);
}

#[test]
fn balance_is_net_of_sends_and_receives() {
    let a = addr('a');
    let bb = addr('b');
    let events = vec![
        ev(&zero(), &a, vec![9], vec![10]),
        ev(&a, &bb, vec![9], vec![4]),
        ev(&bb, &a, vec![9], vec![1]),
    ];
    let bal = get_entire_collection_for_address(&events, &b(&a));
    assert_eq!(bal, vec![(9u64, 7u64)]);
    // an id whose balance sinks to zero disappears
    let drained = vec![
        ev(&zero(), &a, vec![9], vec![4]),
        ev(&a, &bb, vec![9], vec![4]),
    ];
    assert_eq!(get_entire_collection_for_address(&drained, &b(&a)), vec![]);
}

fn row(chain: &str, contract: &str, e: ReplayEvent) -> CollectionRow {
    CollectionRow { chain: b(chain), contract: b(contract), event: e }
}

#[test]
fn full_collection_groups_and_prunes() {
    let a = addr('a');
    let bb = addr('b');
    let c1 = addr('c');
    let c2 = addr('d');
    let rows = vec![
        row("ethereum", &c1, ev(&zero(), &a, vec![7], vec![1])),
        row("polygon", &c2, ev(&zero(), &a, vec![8], vec![2])),
        // nets to zero, must vanish
        row("ethereum", &c1, ev(&zero(), &a, vec![5], vec![1])),
        row("ethereum", &c1, ev(&a, &bb, vec![5], vec![1])),
    ];
    let fc = get_user_full_collection(&rows, &b(&a));
    assert_eq!(fc.len(), 2);
    assert_eq!(fc[0].chain, b("ethereum"));
    assert_eq!(fc[0].contract, b(&c1));
    assert_eq!(fc[0].token_id, 7);
    assert_eq!(fc[0].balance, 1);
    assert_eq!(fc[1].chain, b("polygon"));
    assert_eq!(fc[1].token_id, 8);
    assert_eq!(fc[1].balance, 2);
    // the receiver of the zero-net token holds it
    let fb = get_user_full_collection(&rows, &b(&bb));
    assert_eq!(fb.len(), 1);
    assert_eq!(fb[0].token_id, 5);
    assert_eq!(fb[0].balance, 1);
}

#[test]
fn all_users_collections_drop_empty_wallets() {
    let a = addr('a');
    let bb = addr('b');
    let c1 = addr('c');
    let rows = vec![
        row("ethereum", &c1, ev(&zero(), &a, vec![7], vec![1])),
        // b receives and sends everything away: net nothing
        row("ethereum", &c1, ev(&zero(), &bb, vec![6], vec![1])),
        row("ethereum", &c1, ev(&bb, &dead(), vec![6], vec![1])),
    ];
    let all = get_all_users_collections(&rows);
    assert_eq!(all.len(), 1);
    assert_eq!(all[0].wallet, b(&addr('a')));
    assert_eq!(all[0].entries.len(), 1);
    assert_eq!(all[0].entries[0].token_id, 7);
}

#[test]
fn empty_event_lists_give_empty_results() {
    let events: Vec<ReplayEvent> = vec![];
    assert_eq!(get_entire_collection_for_address(&events, &b(&addr('a'))), vec![]);
    assert_eq!(get_entire_collection(&events), Vec::<u64>::new());
    assert_eq!(get_token_owners(&events, 1), Vec::<Vec<u8>>::new());
    let rows: Vec<CollectionRow> = vec![];
    assert!(get_user_full_collection(&rows, &b(&addr('a'))).is_empty());
    assert!(get_all_users_collections(&rows).is_empty());
}

#[test]
fn repeated_ids_in_one_event_accumulate() {
    let a = addr('a');
    let events = vec![ev(&zero(), &a, vec![7, 7], vec![2, 3])];
    assert_eq!(get_entire_collection_for_address(&events, &b(&a)), vec![(7u64, 5u64)]);
    assert_eq!(get_entire_collection(&events), vec![7u64]);
}

#[test]
fn large_ids_and_values_survive() {
    let a = addr('a');
    let events = vec![ev(&zero(), &a, vec![u64::MAX], vec![u64::MAX])];
    assert_eq!(
        get_entire_collection_for_address(&events, &b(&a)),
        vec![(u64::MAX, u64::MAX)]
    );
}
