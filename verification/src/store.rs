//! The event store, and overlap-and-rewrite reconciliation.
//!
//! The store keeps chains, watched contracts and their decoded transfer
//! events. One reconciliation tick replaces, for every listed contract,
//! the events inside the fetched block window with the fetched ones —
//! none where the fetch carried no group for it — and advances every
//! listed contract's high-water mark; events outside the window are never
//! touched. Running a tick twice with the same fetched data leaves the
//! store exactly as after the first run.

use vstd::prelude::*;
use vstd::seq_lib::*;

verus! {

pub struct ChainRow {
    pub id: u64,
    pub name: Vec<u8>,
    pub rpc_url: Vec<u8>,
    pub chunk_size: u32,
}

pub struct ContractRow {
    pub id: u64,
    pub chain_id: u64,
    pub name: Vec<u8>,
    pub address: Vec<u8>,
    pub kind: Vec<u8>,
    pub last_processed_block: u64,
}

pub struct StoredEvent {
    pub contract_id: u64,
    pub operator: Vec<u8>,
    pub from_address: Vec<u8>,
    pub to_address: Vec<u8>,
    pub ids_json: Vec<u8>,
    pub values_json: Vec<u8>,
    pub block_number: u64,
    pub tx_hash: Vec<u8>,
}

/// The mathematical value of a stored event.
pub struct Ev {
    pub contract_id: u64,
    pub operator: Seq<u8>,
    pub from_address: Seq<u8>,
    pub to_address: Seq<u8>,
    pub ids_json: Seq<u8>,
    pub values_json: Seq<u8>,
    pub block_number: u64,
    pub tx_hash: Seq<u8>,
}

impl View for StoredEvent {
    type V = Ev;

    open spec fn view(&self) -> Ev {
        Ev {
            contract_id: self.contract_id,
            operator: self.operator@,
            from_address: self.from_address@,
            to_address: self.to_address@,
            ids_json: self.ids_json@,
            values_json: self.values_json@,
            block_number: self.block_number,
            tx_hash: self.tx_hash@,
        }
    }
}

pub open spec fn evs_view(s: Seq<StoredEvent>) -> Seq<Ev> {
    s.map_values(|e: StoredEvent| e@)
}

/// The fetched events of one contract, keyed by its row id.
pub struct EventGroup {
    pub contract_id: u64,
    pub events: Vec<StoredEvent>,
}

/// The mathematical value of a fetched group.
pub struct GroupV {
    pub contract_id: u64,
    pub events: Seq<Ev>,
}

impl View for EventGroup {
    type V = GroupV;

    open spec fn view(&self) -> GroupV {
        GroupV { contract_id: self.contract_id, events: evs_view(self.events@) }
    }
}

pub open spec fn groups_view(s: Seq<EventGroup>) -> Seq<GroupV> {
    s.map_values(|g: EventGroup| g@)
}

pub struct EventStore {
    pub chains: Vec<ChainRow>,
    pub contracts: Vec<ContractRow>,
    pub events: Vec<StoredEvent>,
}

/// An event that a rewrite of `[from, to]` for contract `cid` replaces.
pub open spec fn in_window(e: Ev, cid: u64, from: u64, to: u64) -> bool {
    e.contract_id == cid && from <= e.block_number <= to
}

/// Rewrite one contract's window: drop what the window held, append the
/// fetched events.
pub open spec fn rewrite_one(evts: Seq<Ev>, cid: u64, from: u64, to: u64, new: Seq<Ev>) -> Seq<
    Ev,
> {
    evts.filter(|e: Ev| !in_window(e, cid, from, to)) + new
}

/// The fetched events for `cid`, where a group carries them.
pub open spec fn group_opt(groups: Seq<GroupV>, cid: u64) -> Option<Seq<Ev>>
    decreases groups.len(),
{
    if groups.len() == 0 {
        None
    } else if groups[0].contract_id == cid {
        Some(groups[0].events)
    } else {
        group_opt(groups.drop_first(), cid)
    }
}

/// What replaces a contract's window: its fetched events, or nothing.
pub open spec fn group_events(groups: Seq<GroupV>, cid: u64) -> Seq<Ev> {
    match group_opt(groups, cid) {
        Some(new) => new,
        None => Seq::empty(),
    }
}

/// One tick's effect on the event table: for each listed contract in
/// order, drop its window and insert what the fetch carried for it.
pub open spec fn rewrite_all(
    evts: Seq<Ev>,
    cids: Seq<u64>,
    groups: Seq<GroupV>,
    from: u64,
    to: u64,
) -> Seq<Ev>
    decreases cids.len(),
{
    if cids.len() == 0 {
        evts
    } else {
        let step = rewrite_one(evts, cids[0], from, to, group_events(groups, cids[0]));
        rewrite_all(step, cids.drop_first(), groups, from, to)
    }
}

/// Membership of an id in a list.
pub open spec fn cid_in(cids: Seq<u64>, c: u64) -> bool {
    exists|i: int| 0 <= i < cids.len() && cids[i] == c
}

/// A well-formed stored row: the id and value arrays are canonical JSON
/// decimal-string arrays that pair up, and the parties are hexadecimal
/// address strings (the display form the reconciler writes).
pub open spec fn stored_wf(e: Ev) -> bool {
    &&& crate::event::spec_parse_json(e.ids_json) is Some
    &&& crate::event::spec_parse_json(e.values_json) is Some
    &&& crate::event::spec_parse_json(e.ids_json)->Some_0.len()
        == crate::event::spec_parse_json(e.values_json)->Some_0.len()
    &&& crate::event::spec_parse_json(e.ids_json)->Some_0.len() > 0
    &&& crate::ascii::is_hex_address(e.operator)
    &&& crate::ascii::is_hex_address(e.from_address)
    &&& crate::ascii::is_hex_address(e.to_address)
}

/// A group list that belongs to a window: every event sits under its
/// group's contract and inside `[from, to]`.
pub open spec fn groups_wf(groups: Seq<GroupV>, from: u64, to: u64) -> bool {
    forall|g: int, i: int|
        0 <= g < groups.len() && 0 <= i < (#[trigger] groups[g]).events.len() ==> in_window(
            #[trigger] groups[g].events[i],
            groups[g].contract_id,
            from,
            to,
        )
}

proof fn lemma_filter_all_true<A>(s: Seq<A>, p: spec_fn(A) -> bool)
    requires
        forall|i: int| 0 <= i < s.len() ==> p(#[trigger] s[i]),
    ensures
        s.filter(p) == s,
    decreases s.len(),
{
    reveal(Seq::filter);
    if s.len() > 0 {
        assert(forall|i: int| 0 <= i < s.len() - 1 ==> s.drop_last()[i] == s[i]);
        lemma_filter_all_true(s.drop_last(), p);
        assert(s.filter(p) =~= s);
    }
}

proof fn lemma_filter_all_false<A>(s: Seq<A>, p: spec_fn(A) -> bool)
    requires
        forall|i: int| 0 <= i < s.len() ==> !p(#[trigger] s[i]),
    ensures
        s.filter(p) == Seq::<A>::empty(),
    decreases s.len(),
{
    reveal(Seq::filter);
    if s.len() > 0 {
        assert(forall|i: int| 0 <= i < s.len() - 1 ==> s.drop_last()[i] == s[i]);
        lemma_filter_all_false(s.drop_last(), p);
    }
}

proof fn lemma_filter_compose<A>(s: Seq<A>, p: spec_fn(A) -> bool, q: spec_fn(A) -> bool)
    ensures
        s.filter(p).filter(q) == s.filter(|e: A| p(e) && q(e)),
    decreases s.len(),
{
    reveal(Seq::filter);
    if s.len() == 0 {
        assert(s.filter(p).filter(q) =~= s.filter(|e: A| p(e) && q(e)));
    } else {
        lemma_filter_compose(s.drop_last(), p, q);
        if p(s.last()) {
            assert(s.filter(p) == s.drop_last().filter(p).push(s.last()));
            assert(s.filter(p).drop_last() =~= s.drop_last().filter(p));
            assert(s.filter(p).last() == s.last());
        }
        assert(s.filter(p).filter(q) =~= s.filter(|e: A| p(e) && q(e)));
    }
}

proof fn lemma_filter_equiv<A>(s: Seq<A>, p: spec_fn(A) -> bool, q: spec_fn(A) -> bool)
    requires
        forall|i: int| 0 <= i < s.len() ==> p(#[trigger] s[i]) == q(s[i]),
    ensures
        s.filter(p) == s.filter(q),
    decreases s.len(),
{
    reveal(Seq::filter);
    if s.len() > 0 {
        assert(forall|i: int| 0 <= i < s.len() - 1 ==> s.drop_last()[i] == s[i]);
        lemma_filter_equiv(s.drop_last(), p, q);
        assert(p(s.last()) == q(s.last()));
        assert(s.filter(p) =~= s.filter(q));
    } else {
        assert(s.filter(p) =~= s.filter(q));
    }
}

/// Outside every listed contract's window: what a tick never touches.
pub open spec fn untouched(e: Ev, cids: Seq<u64>, from: u64, to: u64) -> bool {
    forall|i: int| 0 <= i < cids.len() ==> !in_window(e, #[trigger] cids[i], from, to)
}

/// The concatenation of the fetched events of the listed contracts.
pub open spec fn all_new(cids: Seq<u64>, groups: Seq<GroupV>, from: u64, to: u64) -> Seq<
    Ev,
>
    decreases cids.len(),
{
    if cids.len() == 0 {
        Seq::empty()
    } else {
        group_events(groups, cids[0]) + all_new(cids.drop_first(), groups, from, to)
    }
}

/// The events a group carries sit in the window of its contract.
proof fn lemma_group_events_in_window(
    groups: Seq<GroupV>,
    cid: u64,
    from: u64,
    to: u64,
    i: int,
)
    requires
        groups_wf(groups, from, to),
        0 <= i < group_events(groups, cid).len(),
    ensures
        in_window(group_events(groups, cid)[i], cid, from, to),
    decreases groups.len(),
{
    if groups.len() > 0 {
        if groups[0].contract_id == cid {
            assert(in_window(groups[0].events[i], groups[0].contract_id, from, to));
        } else {
            assert(groups_wf(groups.drop_first(), from, to)) by {
                assert(forall|g: int|
                    0 <= g < groups.len() - 1 ==> groups.drop_first()[g] == groups[g + 1]);
            }
            lemma_group_events_in_window(groups.drop_first(), cid, from, to, i);
        }
    }
}

/// The normal form of a tick: keep everything outside every listed
/// window, then append the fetched events contract by contract.
proof fn lemma_rewrite_normal_form(
    evts: Seq<Ev>,
    cids: Seq<u64>,
    groups: Seq<GroupV>,
    from: u64,
    to: u64,
)
    requires
        groups_wf(groups, from, to),
        forall|i: int, j: int| 0 <= i < j < cids.len() ==> cids[i] != cids[j],
    ensures
        rewrite_all(evts, cids, groups, from, to) == evts.filter(
            |e: Ev| untouched(e, cids, from, to),
        ) + all_new(cids, groups, from, to),
    decreases cids.len(),
{
    let pall = |e: Ev| untouched(e, cids, from, to);
    if cids.len() == 0 {
        lemma_filter_all_true(evts, pall);
        assert(rewrite_all(evts, cids, groups, from, to) =~= evts.filter(pall) + all_new(
            cids,
            groups,
            from,
            to,
        ));
    } else {
        let c0 = cids[0];
        let rest = cids.drop_first();
        let new = group_events(groups, c0);
        let prest = |e: Ev| untouched(e, rest, from, to);
        let p0 = |e: Ev| !in_window(e, c0, from, to);
        assert(forall|i: int, j: int| 0 <= i < j < rest.len() ==> rest[i] != rest[j]) by {
            assert(forall|i: int| 0 <= i < rest.len() ==> rest[i] == cids[i + 1]);
        }
        let step = rewrite_one(evts, c0, from, to, new);
        lemma_rewrite_normal_form(step, rest, groups, from, to);
        Seq::filter_distributes_over_add(evts.filter(p0), new, prest);
        lemma_filter_compose(evts, p0, prest);
        let pcomb = |e: Ev| p0(e) && prest(e);
        assert forall|t: int| 0 <= t < evts.len() implies pcomb(#[trigger] evts[t]) == pall(
            evts[t],
        ) by {
            let e = evts[t];
            if p0(e) && prest(e) {
                assert forall|i: int| 0 <= i < cids.len() implies !in_window(
                    e,
                    #[trigger] cids[i],
                    from,
                    to,
                ) by {
                    if i > 0 {
                        assert(rest[i - 1] == cids[i]);
                    }
                }
                assert(pall(e));
            }
            if pall(e) {
                assert forall|i: int| 0 <= i < rest.len() implies !in_window(
                    e,
                    #[trigger] rest[i],
                    from,
                    to,
                ) by {
                    assert(rest[i] == cids[i + 1]);
                }
                assert(!in_window(e, cids[0], from, to));
                assert(pcomb(e));
            }
        }
        lemma_filter_equiv(evts, pcomb, pall);
        assert(evts.filter(|e: Ev| p0(e) && prest(e)) == evts.filter(pall));
        assert(new.filter(prest) == new) by {
            assert forall|i: int| 0 <= i < new.len() implies prest(#[trigger] new[i]) by {
                lemma_group_events_in_window(groups, c0, from, to, i);
                assert(in_window(new[i], c0, from, to));
                assert forall|j: int| 0 <= j < rest.len() implies !in_window(
                    new[i],
                    #[trigger] rest[j],
                    from,
                    to,
                ) by {
                    assert(rest[j] == cids[j + 1]);
                    assert(cids[j + 1] != c0);
                }
            }
            lemma_filter_all_true(new, prest);
        }
        assert(rewrite_all(evts, cids, groups, from, to) =~= evts.filter(pall) + all_new(
            cids,
            groups,
            from,
            to,
        ));
    }
}

/// Every fetched event lies in a listed window.
proof fn lemma_all_new_in_windows(
    cids: Seq<u64>,
    groups: Seq<GroupV>,
    from: u64,
    to: u64,
    i: int,
)
    requires
        groups_wf(groups, from, to),
        0 <= i < all_new(cids, groups, from, to).len(),
    ensures
        !untouched(all_new(cids, groups, from, to)[i], cids, from, to),
    decreases cids.len(),
{
    let n = all_new(cids, groups, from, to);
    if cids.len() > 0 {
        let rest = cids.drop_first();
        let head = group_events(groups, cids[0]);
        if i < head.len() {
            lemma_group_events_in_window(groups, cids[0], from, to, i);
            assert(in_window(n[i], cids[0], from, to));
        } else {
            lemma_all_new_in_windows(rest, groups, from, to, i - head.len());
            let e = all_new(rest, groups, from, to)[i - head.len()];
            assert(n[i] == e);
            let j = choose|j: int|
                0 <= j < rest.len() && in_window(e, #[trigger] rest[j], from, to);
            assert(rest[j] == cids[j + 1]);
            assert(in_window(e, cids[j + 1], from, to));
        }
    }
}

/// Reconciliation is idempotent: with the same fetched data, rewriting the
/// windows a second time leaves the event table exactly as one rewrite
/// left it.
pub proof fn lemma_reconcile_idempotent(
    evts: Seq<Ev>,
    cids: Seq<u64>,
    groups: Seq<GroupV>,
    from: u64,
    to: u64,
)
    requires
        groups_wf(groups, from, to),
        forall|i: int, j: int| 0 <= i < j < cids.len() ==> cids[i] != cids[j],
    ensures
        rewrite_all(rewrite_all(evts, cids, groups, from, to), cids, groups, from, to)
            == rewrite_all(evts, cids, groups, from, to),
{
    broadcast use vstd::seq_lib::group_filter_ensures;

    let pall = |e: Ev| untouched(e, cids, from, to);
    let once = rewrite_all(evts, cids, groups, from, to);
    let base = evts.filter(pall);
    let n = all_new(cids, groups, from, to);
    lemma_rewrite_normal_form(evts, cids, groups, from, to);
    lemma_rewrite_normal_form(once, cids, groups, from, to);
    Seq::filter_distributes_over_add(base, n, pall);
    assert(base.filter(pall) == base) by {
        lemma_filter_all_true(base, pall);
    }
    assert(n.filter(pall) == Seq::<Ev>::empty()) by {
        assert forall|i: int| 0 <= i < n.len() implies !pall(#[trigger] n[i]) by {
            lemma_all_new_in_windows(cids, groups, from, to, i);
        }
        lemma_filter_all_false(n, pall);
    }
    assert(once.filter(pall) =~= base);
    assert(rewrite_all(once, cids, groups, from, to) =~= once);
}

/// Processing one more contract extends a tick from the right.
proof fn lemma_rewrite_snoc(
    evts: Seq<Ev>,
    cids: Seq<u64>,
    c: u64,
    groups: Seq<GroupV>,
    from: u64,
    to: u64,
)
    ensures
        rewrite_all(evts, cids.push(c), groups, from, to) == rewrite_one(
            rewrite_all(evts, cids, groups, from, to),
            c,
            from,
            to,
            group_events(groups, c),
        ),
    decreases cids.len(),
{
    let s = cids.push(c);
    if cids.len() == 0 {
        assert(s.drop_first() =~= cids);
        assert(s[0] == c);
        let step = rewrite_one(evts, c, from, to, group_events(groups, c));
        assert(rewrite_all(step, cids, groups, from, to) == step);
        assert(rewrite_all(evts, s, groups, from, to) == step);
    } else {
        let step = rewrite_one(evts, cids[0], from, to, group_events(groups, cids[0]));
        assert(s[0] == cids[0]);
        assert(s.drop_first() =~= cids.drop_first().push(c));
        lemma_rewrite_snoc(step, cids.drop_first(), c, groups, from, to);
        assert(rewrite_all(evts, s, groups, from, to) == rewrite_all(
            step,
            cids.drop_first().push(c),
            groups,
            from,
            to,
        ));
        assert(rewrite_all(evts, cids, groups, from, to) == rewrite_all(
            step,
            cids.drop_first(),
            groups,
            from,
            to,
        ));
    }
}

/// Copy a byte vector.
fn dup_bytes(v: &Vec<u8>) -> (r: Vec<u8>)
    ensures
        r@ == v@,
{
    let mut r: Vec<u8> = Vec::new();
    let mut i: usize = 0;
    while i < v.len()
        invariant
            i <= v@.len(),
            r@ == v@.take(i as int),
        decreases v@.len() - i,
    {
        r.push(v[i]);
        i += 1;
        proof {
            assert(r@ =~= v@.take(i as int));
        }
    }
    proof {
        assert(v@.take(v@.len() as int) =~= v@);
    }
    r
}

/// Copy a stored event; the copy has the same value.
fn dup_event(e: &StoredEvent) -> (r: StoredEvent)
    ensures
        r@ == e@,
{
    StoredEvent {
        contract_id: e.contract_id,
        operator: dup_bytes(&e.operator),
        from_address: dup_bytes(&e.from_address),
        to_address: dup_bytes(&e.to_address),
        ids_json: dup_bytes(&e.ids_json),
        values_json: dup_bytes(&e.values_json),
        block_number: e.block_number,
        tx_hash: dup_bytes(&e.tx_hash),
    }
}

/// The first group carrying `cid`, as an index into `groups`.
fn find_group(groups: &Vec<EventGroup>, cid: u64) -> (r: Option<usize>)
    ensures
        match r {
            Some(gi) => gi < groups@.len() && groups@[gi as int].contract_id == cid && group_opt(
                groups_view(groups@),
                cid,
            ) == Some(evs_view(groups@[gi as int].events@)),
            None => group_opt(groups_view(groups@), cid) is None,
        },
{
    let n = groups.len();
    let mut i: usize = 0;
    proof {
        assert(groups_view(groups@).skip(0) =~= groups_view(groups@));
    }
    while i < n
        invariant
            i <= n,
            n == groups@.len(),
            group_opt(groups_view(groups@), cid) == group_opt(
                groups_view(groups@).skip(i as int),
                cid,
            ),
        decreases n - i,
    {
        if groups[i].contract_id == cid {
            proof {
                assert(groups_view(groups@).skip(i as int)[0] == groups@[i as int]@);
            }
            return Some(i);
        }
        proof {
            assert(groups_view(groups@).skip(i as int)[0] == groups@[i as int]@);
            assert(groups_view(groups@).skip(i as int).drop_first() =~= groups_view(
                groups@,
            ).skip(i as int + 1));
        }
        i += 1;
    }
    None
}

impl EventStore {
    /// An empty store.
    pub fn new() -> (r: EventStore)
        ensures
            r.chains@.len() == 0,
            r.contracts@.len() == 0,
            r.events@.len() == 0,
    {
        EventStore { chains: Vec::new(), contracts: Vec::new(), events: Vec::new() }
    }

    /// Drop every event of `cid` in `[from, to]`; nothing else moves.
    pub fn delete_events(&mut self, cid: u64, from: u64, to: u64)
        ensures
            evs_view(final(self).events@) == evs_view(old(self).events@).filter(
                |e: Ev| !in_window(e, cid, from, to),
            ),
            final(self).chains@ == old(self).chains@,
            final(self).contracts@ == old(self).contracts@,
    {
        let n = self.events.len();
        let mut kept: Vec<StoredEvent> = Vec::new();
        let mut i: usize = 0;
        while i < n
            invariant
                i <= n,
                n == self.events@.len(),
                self.events@ == old(self).events@,
                self.chains@ == old(self).chains@,
                self.contracts@ == old(self).contracts@,
                evs_view(kept@) == evs_view(self.events@.take(i as int)).filter(
                    |e: Ev| !in_window(e, cid, from, to),
                ),
            decreases n - i,
        {
            let e = &self.events[i];
            let keep = !(e.contract_id == cid && from <= e.block_number && e.block_number <= to);
            proof {
                reveal(Seq::filter);
                let pf = |e2: Ev| !in_window(e2, cid, from, to);
                assert(evs_view(self.events@.take(i as int + 1)).drop_last() =~= evs_view(
                    self.events@.take(i as int),
                ));
                assert(evs_view(self.events@.take(i as int + 1)).last() == self.events@[i as int]@);
            }
            if keep {
                let c = dup_event(e);
                kept.push(c);
            }
            i += 1;
            proof {
                assert(evs_view(kept@) =~= evs_view(self.events@.take(i as int)).filter(
                    |e2: Ev| !in_window(e2, cid, from, to),
                ));
            }
        }
        proof {
            assert(self.events@.take(n as int) =~= self.events@);
        }
        self.events = kept;
    }

    /// Append one event; only well-formed rows enter the store.
    pub fn insert_event(&mut self, e: StoredEvent)
        requires
            stored_wf(e@),
        ensures
            final(self).events@ == old(self).events@.push(e),
            final(self).chains@ == old(self).chains@,
            final(self).contracts@ == old(self).contracts@,
    {
        self.events.push(e);
    }

    /// Set the high-water mark of every contract row with id `cid`.
    pub fn set_last_processed_block(&mut self, cid: u64, to: u64)
        ensures
            final(self).events@ == old(self).events@,
            final(self).chains@ == old(self).chains@,
            final(self).contracts@.len() == old(self).contracts@.len(),
            forall|j: int|
                0 <= j < old(self).contracts@.len() ==> {
                    let o = old(self).contracts@[j];
                    let f = #[trigger] final(self).contracts@[j];
                    &&& f.id == o.id
                    &&& f.chain_id == o.chain_id
                    &&& f.name@ == o.name@
                    &&& f.address@ == o.address@
                    &&& f.kind@ == o.kind@
                    &&& f.last_processed_block == if o.id == cid {
                        to
                    } else {
                        o.last_processed_block
                    }
                },
    {
        let n = self.contracts.len();
        let mut j: usize = 0;
        while j < n
            invariant
                j <= n,
                n == self.contracts@.len(),
                self.events@ == old(self).events@,
                self.chains@ == old(self).chains@,
                self.contracts@.len() == old(self).contracts@.len(),
                forall|t: int|
                    j <= t < n ==> #[trigger] self.contracts@[t] == old(self).contracts@[t],
                forall|t: int|
                    0 <= t < j ==> {
                        let o = old(self).contracts@[t];
                        let f = #[trigger] self.contracts@[t];
                        &&& f.id == o.id
                        &&& f.chain_id == o.chain_id
                        &&& f.name@ == o.name@
                        &&& f.address@ == o.address@
                        &&& f.kind@ == o.kind@
                        &&& f.last_processed_block == if o.id == cid {
                            to
                        } else {
                            o.last_processed_block
                        }
                    },
            decreases n - j,
        {
            if self.contracts[j].id == cid {
                self.contracts[j].last_processed_block = to;
            }
            j += 1;
        }
    }

    /// The smallest high-water mark among a chain's contracts, if any.
    pub fn get_earliest_last_processed_block(&self, chain_id: u64) -> (r: Option<u64>)
        ensures
            r == min_lpb(self.contracts@, chain_id),
    {
        let n = self.contracts.len();
        let mut best: Option<u64> = None;
        let mut j: usize = 0;
        while j < n
            invariant
                j <= n,
                n == self.contracts@.len(),
                best == min_lpb(self.contracts@.take(j as int), chain_id),
            decreases n - j,
        {
            let c = &self.contracts[j];
            proof {
                assert(self.contracts@.take(j as int + 1).drop_last() =~= self.contracts@.take(
                    j as int,
                ));
                assert(self.contracts@.take(j as int + 1).last() == self.contracts@[j as int]);
            }
            if c.chain_id == chain_id {
                best = match best {
                    None => Some(c.last_processed_block),
                    Some(b) => if c.last_processed_block < b {
                        Some(c.last_processed_block)
                    } else {
                        Some(b)
                    },
                };
            }
            j += 1;
        }
        proof {
            assert(self.contracts@.take(n as int) =~= self.contracts@);
        }
        best
    }

    /// One reconciliation tick for one chain: for every listed contract,
    /// delete the events of `[from, to]` and insert the fetched ones — so
    /// a contract the fetch carried nothing for ends with an empty window,
    /// and a reorged-out event disappears — then advance every listed
    /// contract's high-water mark to `to`. Doing this twice with the same
    /// arguments gives the same store (`lemma_reconcile_idempotent`).
    pub fn nuke_and_process_events_for_chain(
        &mut self,
        cids: &Vec<u64>,
        groups: &Vec<EventGroup>,
        from: u64,
        to: u64,
    )
        requires
            forall|g: int, i: int|
                0 <= g < groups@.len() && 0 <= i < (#[trigger] groups@[g]).events@.len()
                    ==> stored_wf(#[trigger] groups@[g].events@[i]@),
        ensures
            evs_view(final(self).events@) == rewrite_all(
                evs_view(old(self).events@),
                cids@,
                groups_view(groups@),
                from,
                to,
            ),
            final(self).chains@ == old(self).chains@,
            final(self).contracts@.len() == old(self).contracts@.len(),
            forall|j: int|
                0 <= j < old(self).contracts@.len() ==> {
                    let o = old(self).contracts@[j];
                    let f = #[trigger] final(self).contracts@[j];
                    &&& f.id == o.id
                    &&& f.chain_id == o.chain_id
                    &&& f.name@ == o.name@
                    &&& f.address@ == o.address@
                    &&& f.kind@ == o.kind@
                    &&& f.last_processed_block == if cid_in(cids@, o.id) {
                        to
                    } else {
                        o.last_processed_block
                    }
                },
    {
        let n = cids.len();
        let mut t: usize = 0;
        while t < n
            invariant
                t <= n,
                n == cids@.len(),
                forall|g: int, i: int|
                    0 <= g < groups@.len() && 0 <= i < (#[trigger] groups@[g]).events@.len()
                        ==> stored_wf(#[trigger] groups@[g].events@[i]@),
                evs_view(self.events@) == rewrite_all(
                    evs_view(old(self).events@),
                    cids@.take(t as int),
                    groups_view(groups@),
                    from,
                    to,
                ),
                self.chains@ == old(self).chains@,
                self.contracts@ == old(self).contracts@,
            decreases n - t,
        {
            let cid = cids[t];
            self.delete_events(cid, from, to);
            match find_group(groups, cid) {
                Some(gi) => {
                    let m = groups[gi].events.len();
                    let mut k: usize = 0;
                    let ghost after_del = evs_view(self.events@);
                    proof {
                        assert(evs_view(self.events@) =~= after_del + evs_view(
                            groups@[gi as int].events@,
                        ).take(0));
                    }
                    while k < m
                        invariant
                            k <= m,
                            gi < groups@.len(),
                            m == groups@[gi as int].events@.len(),
                            forall|g: int, i: int|
                                0 <= g < groups@.len() && 0 <= i < (
                                #[trigger] groups@[g]).events@.len() ==> stored_wf(
                                    #[trigger] groups@[g].events@[i]@,
                                ),
                            evs_view(self.events@) == after_del + evs_view(
                                groups@[gi as int].events@,
                            ).take(k as int),
                            self.chains@ == old(self).chains@,
                            self.contracts@ == old(self).contracts@,
                        decreases m - k,
                    {
                        let e = dup_event(&groups[gi].events[k]);
                        proof {
                            assert(e@ == groups@[gi as int].events@[k as int]@);
                            assert(stored_wf(groups@[gi as int].events@[k as int]@));
                            assert(evs_view(groups@[gi as int].events@)[k as int]
                                == groups@[gi as int].events@[k as int]@);
                            assert(evs_view(self.events@).len() == self.events@.len());
                        }
                        let ghost prev = self.events@;
                        self.insert_event(e);
                        k += 1;
                        proof {
                            let gev = evs_view(groups@[gi as int].events@);
                            assert(self.events@ == prev.push(e));
                            assert(evs_view(self.events@) =~= evs_view(prev).push(e@));
                            assert(gev.len() == groups@[gi as int].events@.len());
                            assert(gev[k - 1] == e@);
                            assert(gev.take(k as int) =~= gev.take(k - 1).push(gev[k - 1]));
                            assert(evs_view(self.events@) =~= after_del + gev.take(k as int));
                        }
                    }
                    proof {
                        assert(evs_view(groups@[gi as int].events@).take(m as int) =~= evs_view(
                            groups@[gi as int].events@,
                        ));
                    }
                },
                None => {
                },
            }
            t += 1;
            proof {
                assert(cids@.take(t as int) =~= cids@.take(t - 1).push(cids@[t - 1]));
                lemma_rewrite_snoc(
                    evs_view(old(self).events@),
                    cids@.take(t - 1),
                    cids@[t - 1],
                    groups_view(groups@),
                    from,
                    to,
                );
                assert(evs_view(self.events@) =~= rewrite_all(
                    evs_view(old(self).events@),
                    cids@.take(t as int),
                    groups_view(groups@),
                    from,
                    to,
                ));
            }
        }
        proof {
            assert(cids@.take(n as int) =~= cids@);
        }
        let ghost contracts_before = self.contracts@;
        let mut t2: usize = 0;
        while t2 < n
            invariant
                t2 <= n,
                n == cids@.len(),
                evs_view(self.events@) == rewrite_all(
                    evs_view(old(self).events@),
                    cids@,
                    groups_view(groups@),
                    from,
                    to,
                ),
                self.chains@ == old(self).chains@,
                self.contracts@.len() == old(self).contracts@.len(),
                forall|j: int|
                    0 <= j < old(self).contracts@.len() ==> {
                        let o = old(self).contracts@[j];
                        let f = #[trigger] self.contracts@[j];
                        &&& f.id == o.id
                        &&& f.chain_id == o.chain_id
                        &&& f.name@ == o.name@
                        &&& f.address@ == o.address@
                        &&& f.kind@ == o.kind@
                        &&& f.last_processed_block == if cid_in(cids@.take(t2 as int), o.id) {
                            to
                        } else {
                            o.last_processed_block
                        }
                    },
            decreases n - t2,
        {
            let cid = cids[t2];
            let ghost before = self.contracts@;
            self.set_last_processed_block(cid, to);
            t2 += 1;
            proof {
                assert forall|j: int| 0 <= j < old(self).contracts@.len() implies {
                    let o = old(self).contracts@[j];
                    let f = #[trigger] self.contracts@[j];
                    &&& f.id == o.id
                    &&& f.chain_id == o.chain_id
                    &&& f.name@ == o.name@
                    &&& f.address@ == o.address@
                    &&& f.kind@ == o.kind@
                    &&& f.last_processed_block == if cid_in(cids@.take(t2 as int), o.id) {
                        to
                    } else {
                        o.last_processed_block
                    }
                } by {
                    let o = old(self).contracts@[j];
                    if cid_in(cids@.take(t2 as int), o.id) {
                        let w = choose|w: int|
                            0 <= w < t2 && #[trigger] cids@.take(t2 as int)[w] == o.id;
                        if w < t2 - 1 {
                            assert(cid_in(cids@.take(t2 - 1), o.id)) by {
                                assert(cids@.take(t2 - 1)[w] == o.id);
                            }
                        }
                    } else {
                        assert(!cid_in(cids@.take(t2 - 1), o.id)) by {
                            if cid_in(cids@.take(t2 - 1), o.id) {
                                let w = choose|w: int|
                                    0 <= w < t2 - 1 && #[trigger] cids@.take(t2 - 1)[w] == o.id;
                                assert(cids@.take(t2 as int)[w] == o.id);
                            }
                        }
                        assert(o.id != cid) by {
                            if o.id == cid {
                                assert(cids@.take(t2 as int)[t2 - 1] == o.id);
                            }
                        }
                    }
                }
            }
        }
        proof {
            assert(cids@.take(n as int) =~= cids@);
        }
    }
}

/// The smallest high-water mark among the contracts of a chain.
pub open spec fn min_lpb(contracts: Seq<ContractRow>, chain_id: u64) -> Option<u64>
    decreases contracts.len(),
{
    if contracts.len() == 0 {
        None
    } else {
        let prev = min_lpb(contracts.drop_last(), chain_id);
        let c = contracts.last();
        if c.chain_id == chain_id {
            match prev {
                None => Some(c.last_processed_block),
                Some(b) => if c.last_processed_block < b {
                    Some(c.last_processed_block)
                } else {
                    Some(b)
                },
            }
        } else {
            prev
        }
    }
}


/// The first chain row whose name matches case-insensitively.
pub open spec fn chain_id_by_name(chains: Seq<ChainRow>, name: Seq<u8>) -> Option<u64>
    decreases chains.len(),
{
    if chains.len() == 0 {
        None
    } else if crate::ascii::eq_fold(chains[0].name@, name) {
        Some(chains[0].id)
    } else {
        chain_id_by_name(chains.drop_first(), name)
    }
}

/// The first contract row of the chain whose address matches
/// case-insensitively.
pub open spec fn contract_id_by(contracts: Seq<ContractRow>, chain_id: u64, addr: Seq<u8>) -> Option<u64>
    decreases contracts.len(),
{
    if contracts.len() == 0 {
        None
    } else if contracts[0].chain_id == chain_id && crate::ascii::eq_fold(
        contracts[0].address@,
        addr,
    ) {
        Some(contracts[0].id)
    } else {
        contract_id_by(contracts.drop_first(), chain_id, addr)
    }
}

impl EventStore {
    /// The chain's row id, creating the row on first observation.
    pub fn upsert_chain(&mut self, name: &Vec<u8>, rpc_url: &Vec<u8>, chunk_size: u32) -> (r: u64)
        requires
            old(self).chains@.len() < 0xFFFFFFFFFFFFFFFF,
        ensures
            final(self).events@ == old(self).events@,
            final(self).contracts@ == old(self).contracts@,
            chain_id_by_name(final(self).chains@, name@) == Some(r),
            match chain_id_by_name(old(self).chains@, name@) {
                Some(id) => final(self).chains@ == old(self).chains@ && r == id,
                None => {
                    &&& final(self).chains@.len() == old(self).chains@.len() + 1
                    &&& final(self).chains@.take(old(self).chains@.len() as int) == old(
                        self,
                    ).chains@
                    &&& final(self).chains@.last().id == r
                    &&& final(self).chains@.last().name@ == name@
                    &&& final(self).chains@.last().rpc_url@ == rpc_url@
                    &&& final(self).chains@.last().chunk_size == chunk_size
                    &&& r == old(self).chains@.len() + 1
                },
            },
    {
        let n = self.chains.len();
        let mut i: usize = 0;
        proof {
            assert(self.chains@.skip(0) =~= self.chains@);
        }
        while i < n
            invariant
                i <= n,
                n == self.chains@.len(),
                self.chains@ == old(self).chains@,
                self.events@ == old(self).events@,
                self.contracts@ == old(self).contracts@,
                chain_id_by_name(self.chains@, name@) == chain_id_by_name(
                    self.chains@.skip(i as int),
                    name@,
                ),
            decreases n - i,
        {
            proof {
                assert(self.chains@.skip(i as int)[0] == self.chains@[i as int]);
                assert(self.chains@.skip(i as int).drop_first() =~= self.chains@.skip(
                    i as int + 1,
                ));
            }
            if crate::ascii::eq_ignore_case(&self.chains[i].name, name) {
                return self.chains[i].id;
            }
            i += 1;
        }
        let id = (n as u64) + 1;
        let row = ChainRow {
            id,
            name: dup_bytes(name),
            rpc_url: dup_bytes(rpc_url),
            chunk_size,
        };
        self.chains.push(row);
        proof {
            assert(self.chains@.take(n as int) =~= old(self).chains@);
            assert(chain_id_by_name(self.chains@, name@) == Some(id)) by {
                lemma_chain_lookup_push(old(self).chains@, self.chains@.last(), name@);
            }
        }
        id
    }

    /// The contract's row id under its chain, creating the row (with the
    /// address lowercased and the high-water mark at its start block) on
    /// first observation.
    pub fn upsert_contract(
        &mut self,
        chain_id: u64,
        name: &Vec<u8>,
        address: &Vec<u8>,
        kind: &Vec<u8>,
        start_block: u64,
    ) -> (r: u64)
        requires
            old(self).contracts@.len() < 0xFFFFFFFFFFFFFFFF,
        ensures
            final(self).events@ == old(self).events@,
            final(self).chains@ == old(self).chains@,
            contract_id_by(final(self).contracts@, chain_id, address@) == Some(r),
            match contract_id_by(old(self).contracts@, chain_id, address@) {
                Some(id) => final(self).contracts@ == old(self).contracts@ && r == id,
                None => {
                    &&& final(self).contracts@.len() == old(self).contracts@.len() + 1
                    &&& final(self).contracts@.take(old(self).contracts@.len() as int) == old(
                        self,
                    ).contracts@
                    &&& final(self).contracts@.last().id == r
                    &&& final(self).contracts@.last().chain_id == chain_id
                    &&& final(self).contracts@.last().name@ == name@
                    &&& final(self).contracts@.last().address@ == crate::ascii::lower_seq(
                        address@,
                    )
                    &&& final(self).contracts@.last().kind@ == kind@
                    &&& final(self).contracts@.last().last_processed_block == start_block
                    &&& r == old(self).contracts@.len() + 1
                },
            },
    {
        let n = self.contracts.len();
        let mut i: usize = 0;
        proof {
            assert(self.contracts@.skip(0) =~= self.contracts@);
        }
        while i < n
            invariant
                i <= n,
                n == self.contracts@.len(),
                self.contracts@ == old(self).contracts@,
                self.events@ == old(self).events@,
                self.chains@ == old(self).chains@,
                contract_id_by(self.contracts@, chain_id, address@) == contract_id_by(
                    self.contracts@.skip(i as int),
                    chain_id,
                    address@,
                ),
            decreases n - i,
        {
            proof {
                assert(self.contracts@.skip(i as int)[0] == self.contracts@[i as int]);
                assert(self.contracts@.skip(i as int).drop_first() =~= self.contracts@.skip(
                    i as int + 1,
                ));
            }
            if self.contracts[i].chain_id == chain_id && crate::ascii::eq_ignore_case(
                &self.contracts[i].address,
                address,
            ) {
                return self.contracts[i].id;
            }
            i += 1;
        }
        let id = (n as u64) + 1;
        let row = ContractRow {
            id,
            chain_id,
            name: dup_bytes(name),
            address: crate::ascii::to_lowercase(address),
            kind: dup_bytes(kind),
            last_processed_block: start_block,
        };
        self.contracts.push(row);
        proof {
            assert(self.contracts@.take(n as int) =~= old(self).contracts@);
            crate::ascii::lemma_lower_idempotent(address@);
            lemma_contract_lookup_push(old(self).contracts@, self.contracts@.last(), chain_id, address@);
        }
        id
    }

    /// The row id for a configured contract on a configured chain,
    /// creating either row only where its key — lowercased chain name,
    /// lowercased address under that chain — is not yet present. A repeat
    /// call with the same arguments finds both rows, changes nothing and
    /// returns the same id.
    pub fn contract_and_chain_to_contractid(
        &mut self,
        contract: &crate::config::Contract,
        chain: &crate::config::Chain,
    ) -> (r: u64)
        requires
            old(self).chains@.len() < 0xFFFFFFFFFFFFFFFF,
            old(self).contracts@.len() < 0xFFFFFFFFFFFFFFFF,
        ensures
            final(self).events@ == old(self).events@,
            chain_id_by_name(final(self).chains@, chain.name@) is Some,
            contract_id_by(
                final(self).contracts@,
                chain_id_by_name(final(self).chains@, chain.name@)->Some_0,
                contract.address@,
            ) == Some(r),
            match chain_id_by_name(old(self).chains@, chain.name@) {
                Some(id) => final(self).chains@ == old(self).chains@ && chain_id_by_name(
                    final(self).chains@,
                    chain.name@,
                ) == Some(id),
                None => {
                    &&& final(self).chains@.len() == old(self).chains@.len() + 1
                    &&& final(self).chains@.take(old(self).chains@.len() as int) == old(
                        self,
                    ).chains@
                    &&& final(self).chains@.last().name@ == chain.name@
                    &&& final(self).chains@.last().rpc_url@ == chain.rpc_url@
                    &&& final(self).chains@.last().chunk_size == chain.chunk_size
                },
            },
            match contract_id_by(
                old(self).contracts@,
                chain_id_by_name(final(self).chains@, chain.name@)->Some_0,
                contract.address@,
            ) {
                Some(id) => final(self).contracts@ == old(self).contracts@ && r == id,
                None => {
                    &&& final(self).contracts@.len() == old(self).contracts@.len() + 1
                    &&& final(self).contracts@.take(old(self).contracts@.len() as int) == old(
                        self,
                    ).contracts@
                    &&& final(self).contracts@.last().id == r
                    &&& final(self).contracts@.last().chain_id == chain_id_by_name(
                        final(self).chains@,
                        chain.name@,
                    )->Some_0
                    &&& final(self).contracts@.last().name@ == contract.name@
                    &&& final(self).contracts@.last().address@ == crate::ascii::lower_seq(
                        contract.address@,
                    )
                    &&& final(self).contracts@.last().kind@ == contract.kind@
                    &&& final(self).contracts@.last().last_processed_block
                        == contract.startblock
                },
            },
    {
        let chid = self.upsert_chain(&chain.name, &chain.rpc_url, chain.chunk_size);
        self.upsert_contract(
            chid,
            &contract.name,
            &contract.address,
            &contract.kind,
            contract.startblock,
        )
    }
}

/// A lookup that failed stays on the old rows after a push of a match.
proof fn lemma_chain_lookup_push(chains: Seq<ChainRow>, row: ChainRow, name: Seq<u8>)
    requires
        chain_id_by_name(chains, name) is None,
        crate::ascii::eq_fold(row.name@, name),
    ensures
        chain_id_by_name(chains.push(row), name) == Some(row.id),
    decreases chains.len(),
{
    if chains.len() == 0 {
        assert(chains.push(row)[0] == row);
    } else {
        assert(chains.push(row)[0] == chains[0]);
        assert(chains.push(row).drop_first() =~= chains.drop_first().push(row));
        lemma_chain_lookup_push(chains.drop_first(), row, name);
    }
}

proof fn lemma_contract_lookup_push(
    contracts: Seq<ContractRow>,
    row: ContractRow,
    chain_id: u64,
    addr: Seq<u8>,
)
    requires
        contract_id_by(contracts, chain_id, addr) is None,
        row.chain_id == chain_id,
        crate::ascii::eq_fold(row.address@, addr),
    ensures
        contract_id_by(contracts.push(row), chain_id, addr) == Some(row.id),
    decreases contracts.len(),
{
    if contracts.len() == 0 {
        assert(contracts.push(row)[0] == row);
    } else {
        assert(contracts.push(row)[0] == contracts[0]);
        assert(contracts.push(row).drop_first() =~= contracts.drop_first().push(row));
        lemma_contract_lookup_push(contracts.drop_first(), row, chain_id, addr);
    }
}


/// The high-water mark of the first contract whose address matches
/// case-insensitively.
pub open spec fn lpb_by_address(contracts: Seq<ContractRow>, addr: Seq<u8>) -> Option<u64>
    decreases contracts.len(),
{
    if contracts.len() == 0 {
        None
    } else if crate::ascii::eq_fold(contracts[0].address@, addr) {
        Some(contracts[0].last_processed_block)
    } else {
        lpb_by_address(contracts.drop_first(), addr)
    }
}

impl EventStore {
    /// The contract's high-water mark, found by its address.
    pub fn get_last_processed_block(&self, address: &Vec<u8>) -> (r: Option<u64>)
        ensures
            r == lpb_by_address(self.contracts@, address@),
    {
        let n = self.contracts.len();
        let mut i: usize = 0;
        proof {
            assert(self.contracts@.skip(0) =~= self.contracts@);
        }
        while i < n
            invariant
                i <= n,
                n == self.contracts@.len(),
                lpb_by_address(self.contracts@, address@) == lpb_by_address(
                    self.contracts@.skip(i as int),
                    address@,
                ),
            decreases n - i,
        {
            proof {
                assert(self.contracts@.skip(i as int)[0] == self.contracts@[i as int]);
                assert(self.contracts@.skip(i as int).drop_first() =~= self.contracts@.skip(
                    i as int + 1,
                ));
            }
            if crate::ascii::eq_ignore_case(&self.contracts[i].address, address) {
                return Some(self.contracts[i].last_processed_block);
            }
            i += 1;
        }
        None
    }
}

} // verus!
