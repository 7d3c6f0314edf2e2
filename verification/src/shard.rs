//! The table-shard handler: initialization from the init payload and the
//! mandatory checkpoint, bridge-event dispatch with address filtering, and
//! checkpoint rebuilding at every settlement boundary.

use vstd::prelude::*;
use crate::base;
use crate::base::{
    clone_checkpoint, clone_players, contains_id, lowest_free, remove_ids, remove_ids_exec,
    lemma_lowest_free_is, seats_distinct, HoldemBridgeEvent, InitTableData, MttTableCheckpoint,
    MttTablePlayer, Settle, TableView,
};
use crate::codec::{dec_bridge, dec_init, dec_table};
use crate::errors::HandleError;
use vstd::multiset::Multiset;

verus! {

/// How long the host waits before starting the next hand, in the time
/// units of the host's scheduler, when no immediate start is called for.
pub const WAIT_TIMEOUT_DEFAULT: u64 = 10_000;

/// One declarative instruction handed back to the host; the shard never
/// blocks, it only asks.
#[derive(Debug, Clone, PartialEq, Eq)]
pub enum Action {
    /// Start the embedded engine dealing.
    StartGame,
    /// Wake the shard after the given number of time units.
    WaitTimeout(u64),
    /// Persist this checkpoint as the shard's durable state.
    Checkpoint(MttTableCheckpoint),
    /// Send a bridge event; destination `0` is the orchestrator.
    BridgeEvent { dest: u64, event: HoldemBridgeEvent },
}

/// The players sorted by ascending identity: the canonical, iteration-order
/// independent ordering of a checkpoint's player list.
pub open spec fn sort_insert(p: MttTablePlayer, s: Seq<MttTablePlayer>) -> Seq<MttTablePlayer>
    decreases s.len(),
{
    if s.len() == 0 {
        seq![p]
    } else if p.id <= s[0].id {
        seq![p] + s
    } else {
        seq![s[0]] + sort_insert(p, s.drop_first())
    }
}

pub open spec fn sort_by_id(s: Seq<MttTablePlayer>) -> Seq<MttTablePlayer>
    decreases s.len(),
{
    if s.len() == 0 {
        Seq::empty()
    } else {
        sort_insert(s[0], sort_by_id(s.drop_first()))
    }
}

/// Identities ascend along `s`.
pub open spec fn ids_sorted(s: Seq<MttTablePlayer>) -> bool {
    forall|i: int, j: int| 0 <= i < j < s.len() ==> s[i].id <= s[j].id
}

proof fn lemma_sort_insert_at(p: MttTablePlayer, s: Seq<MttTablePlayer>, idx: int)
    requires
        0 <= idx <= s.len(),
        forall|j: int| 0 <= j < idx ==> s[j].id < p.id,
        idx < s.len() ==> p.id <= s[idx].id,
    ensures
        sort_insert(p, s) == s.insert(idx, p),
    decreases idx,
{
    if idx == 0 {
        if s.len() == 0 {
            assert(sort_insert(p, s) =~= s.insert(0, p));
        } else {
            assert(sort_insert(p, s) =~= s.insert(0, p));
        }
    } else {
        assert(s[0].id < p.id);
        lemma_sort_insert_at(p, s.drop_first(), idx - 1);
        assert(sort_insert(p, s) == seq![s[0]] + sort_insert(p, s.drop_first()));
        assert(seq![s[0]] + s.drop_first().insert(idx - 1, p) =~= s.insert(idx, p));
    }
}

/// Insert `p` in front of the first record whose identity is not below
/// `p`'s, keeping the list sorted.
fn insert_sorted(out: &mut Vec<MttTablePlayer>, p: MttTablePlayer)
    ensures
        final(out)@ == sort_insert(p, old(out)@),
{
    let n = out.len();
    let mut idx: usize = 0;
    while idx < n
        invariant
            idx <= n,
            n == out@.len(),
            out@ == old(out)@,
            forall|j: int| 0 <= j < idx ==> out@[j].id < p.id,
        ensures
            idx <= n,
            out@ == old(out)@,
            forall|j: int| 0 <= j < idx ==> out@[j].id < p.id,
            idx < n ==> p.id <= out@[idx as int].id,
        decreases n - idx,
    {
        if p.id <= out[idx].id {
            break;
        }
        idx = idx + 1;
    }
    out.insert(idx, p);
    proof {
        lemma_sort_insert_at(p, old(out)@, idx as int);
    }
}

/// Sort a player list by ascending identity.
pub fn sort_players_by_id(players: &Vec<MttTablePlayer>) -> (r: Vec<MttTablePlayer>)
    ensures
        r@ == sort_by_id(players@),
{
    let mut out: Vec<MttTablePlayer> = Vec::new();
    let mut k: usize = players.len();
    while k > 0
        invariant
            k <= players@.len(),
            out@ == sort_by_id(players@.skip(k as int)),
        decreases k,
    {
        k = k - 1;
        insert_sorted(&mut out, players[k]);
        proof {
            assert(players@.skip(k as int).drop_first() =~= players@.skip(k as int + 1));
            assert(players@.skip(k as int)[0] == players@[k as int]);
        }
    }
    proof {
        assert(players@.skip(0) =~= players@);
    }
    out
}

/// No two records of `s` carry the same identity.
pub open spec fn ids_distinct(s: Seq<MttTablePlayer>) -> bool {
    forall|i: int, j: int| 0 <= i < j < s.len() ==> s[i].id != s[j].id
}

/// Sorting yields an ascending-id permutation of its input.
pub proof fn lemma_sort_insert_props(p: MttTablePlayer, s: Seq<MttTablePlayer>)
    ensures
        ids_sorted(s) ==> ids_sorted(sort_insert(p, s)),
        sort_insert(p, s).to_multiset() == s.to_multiset().insert(p),
    decreases s.len(),
{
    broadcast use vstd::seq_lib::group_seq_properties;

    let out = sort_insert(p, s);
    if s.len() == 0 {
        assert(out =~= Seq::<MttTablePlayer>::empty().push(p));
        assert(out.to_multiset() =~= s.to_multiset().insert(p));
    } else if p.id <= s[0].id {
        assert(out =~= seq![p] + s);
        assert(out.drop_first() =~= s);
        lemma_first_plus_multiset(out);
        assert(out.to_multiset() =~= s.to_multiset().insert(p));
        if ids_sorted(s) {
            assert forall|i: int, j: int| 0 <= i < j < out.len() implies out[i].id <= out[j].id by {
                if i > 0 {
                    assert(out[i] == s[i - 1] && out[j] == s[j - 1]);
                }
            }
        }
    } else {
        let tail = s.drop_first();
        lemma_sort_insert_props(p, tail);
        let rec = sort_insert(p, tail);
        assert(out =~= seq![s[0]] + rec);
        assert(out.drop_first() =~= rec);
        lemma_first_plus_multiset(out);
        lemma_first_plus_multiset(s);
        assert(out.to_multiset() =~= s.to_multiset().insert(p));
        if ids_sorted(s) {
            assert(ids_sorted(tail)) by {
                assert forall|i: int, j: int| 0 <= i < j < tail.len() implies tail[i].id
                    <= tail[j].id by {
                    assert(tail[i] == s[i + 1] && tail[j] == s[j + 1]);
                }
            }
            assert(ids_sorted(rec));
            assert forall|i: int, j: int| 0 <= i < j < out.len() implies out[i].id <= out[j].id by {
                if i > 0 {
                    assert(out[i] == rec[i - 1] && out[j] == rec[j - 1]);
                } else {
                    assert(out[j] == rec[j - 1]);
                    assert(rec.to_multiset().count(rec[j - 1]) > 0);
                    assert(tail.to_multiset().insert(p).count(rec[j - 1]) > 0);
                    if rec[j - 1] == p {
                    } else {
                        assert(tail.to_multiset().count(rec[j - 1]) > 0);
                        assert(tail.contains(rec[j - 1]));
                        let m = choose|m: int| 0 <= m < tail.len() && tail[m] == rec[j - 1];
                        assert(s[m + 1] == rec[j - 1]);
                    }
                }
            }
        }
    }
}

/// A sequence is its first element joined onto the rest, in multiset terms.
proof fn lemma_first_plus_multiset(s: Seq<MttTablePlayer>)
    requires
        s.len() > 0,
    ensures
        s.to_multiset() == s.drop_first().to_multiset().insert(s[0]),
{
    broadcast use vstd::seq_lib::group_seq_properties;

    assert(s =~= seq![s[0]] + s.drop_first());
    vstd::seq_lib::lemma_multiset_commutative(seq![s[0]], s.drop_first());
    assert(seq![s[0]].to_multiset() =~= Multiset::<MttTablePlayer>::empty().insert(s[0])) by {
        assert(seq![s[0]] =~= Seq::<MttTablePlayer>::empty().push(s[0]));
        Seq::<MttTablePlayer>::empty().to_multiset_ensures();
    }
    assert(Multiset::<MttTablePlayer>::empty().insert(s[0]).add(s.drop_first().to_multiset())
        =~= s.drop_first().to_multiset().insert(s[0]));
}

/// The canonical order is an ascending-id permutation of the registry.
pub proof fn lemma_sort_by_id_props(s: Seq<MttTablePlayer>)
    ensures
        ids_sorted(sort_by_id(s)),
        sort_by_id(s).to_multiset() == s.to_multiset(),
    decreases s.len(),
{
    if s.len() == 0 {
        assert(s =~= Seq::<MttTablePlayer>::empty());
        assert(sort_by_id(s) == s);
    } else {
        lemma_sort_by_id_props(s.drop_first());
        lemma_sort_insert_props(s[0], sort_by_id(s.drop_first()));
        lemma_first_plus_multiset(s);
        assert(sort_by_id(s) == sort_insert(s[0], sort_by_id(s.drop_first())));
        assert(sort_by_id(s).to_multiset() =~= s.to_multiset());
    }
}

/// Two ascending-id lists over the same records with pairwise distinct
/// identities are one and the same list.
proof fn lemma_sorted_unique(a: Seq<MttTablePlayer>, b: Seq<MttTablePlayer>)
    requires
        ids_sorted(a),
        ids_sorted(b),
        ids_distinct(a),
        a.to_multiset() == b.to_multiset(),
    ensures
        a == b,
    decreases a.len(),
{
    broadcast use vstd::seq_lib::group_seq_properties;

    a.to_multiset_ensures();
    b.to_multiset_ensures();
    assert(a.len() == b.len());
    if a.len() == 0 {
        assert(a =~= b);
    } else {
        assert(a[0] == b[0]) by {
            assert(a.to_multiset().count(a[0]) > 0);
            assert(b.contains(a[0]));
            let j = choose|j: int| 0 <= j < b.len() && b[j] == a[0];
            assert(b[0].id <= a[0].id);
            assert(b.to_multiset().count(b[0]) > 0);
            assert(a.contains(b[0]));
            let i = choose|i: int| 0 <= i < a.len() && a[i] == b[0];
            assert(a[0].id <= b[0].id);
            assert(a[i].id == a[0].id);
            if i != 0 {
                assert(false);
            }
        }
        let ta = a.drop_first();
        let tb = b.drop_first();
        assert(a.remove(0) =~= ta);
        assert(b.remove(0) =~= tb);
        assert(ta.to_multiset() =~= a.to_multiset().remove(a[0]));
        assert(tb.to_multiset() =~= b.to_multiset().remove(b[0]));
        assert(ids_sorted(ta) && ids_distinct(ta)) by {
            assert(forall|i: int| 0 <= i < ta.len() ==> ta[i] == a[i + 1]);
        }
        assert(ids_sorted(tb)) by {
            assert(forall|i: int| 0 <= i < tb.len() ==> tb[i] == b[i + 1]);
        }
        lemma_sorted_unique(ta, tb);
        assert(a =~= b) by {
            assert(forall|i: int| 0 < i < a.len() ==> a[i] == ta[i - 1] && b[i] == tb[i - 1]);
        }
    }
}

/// Checkpoint determinism: the canonical player order depends only on
/// which records are seated, never on the order the registry was walked
/// in, as long as identities are distinct.
pub proof fn lemma_sort_by_id_deterministic(s1: Seq<MttTablePlayer>, s2: Seq<MttTablePlayer>)
    requires
        s1.to_multiset() == s2.to_multiset(),
        ids_distinct(s1),
    ensures
        sort_by_id(s1) == sort_by_id(s2),
{
    broadcast use vstd::seq_lib::group_seq_properties;

    lemma_sort_by_id_props(s1);
    lemma_sort_by_id_props(s2);
    let a = sort_by_id(s1);
    let b = sort_by_id(s2);
    a.to_multiset_ensures();
    s1.to_multiset_ensures();
    lemma_ids_distinct_permutation(s1, a);
    lemma_sorted_unique(a, b);
}

/// Distinct identities survive any permutation of the records.
proof fn lemma_ids_distinct_permutation(s1: Seq<MttTablePlayer>, a: Seq<MttTablePlayer>)
    requires
        ids_distinct(s1),
        a.to_multiset() == s1.to_multiset(),
    ensures
        ids_distinct(a),
{
    broadcast use vstd::seq_lib::group_seq_properties;

    a.to_multiset_ensures();
    s1.to_multiset_ensures();
    assert forall|i: int, j: int| 0 <= i < j < a.len() implies a[i].id != a[j].id by {
        if a[i].id == a[j].id {
            if a[i] == a[j] {
                let a2 = a.remove(j);
                a2.to_multiset_ensures();
                assert(a2.to_multiset() =~= a.to_multiset().remove(a[j]));
                assert(a2[i] == a[i]);
                assert(a2.contains(a[i]));
                assert(a2.to_multiset().count(a[i]) > 0);
                assert(s1.to_multiset().remove(a[i]).count(a[i]) > 0);
                assert(s1.contains(a[i]));
                let s12 = remove_first_eq(s1, a[i]);
                lemma_remove_first_eq(s1, a[i]);
                s12.to_multiset_ensures();
                assert(s12.to_multiset().count(a[i]) > 0);
                assert(s12.contains(a[i]));
                let m = choose|m: int| 0 <= m < s12.len() && s12[m] == a[i];
                lemma_remove_first_eq_no_id(s1, a[i]);
                assert(false);
            } else {
                assert(a.contains(a[i]));
                assert(a.to_multiset().count(a[i]) > 0);
                assert(s1.contains(a[i]));
                assert(a.contains(a[j]));
                assert(a.to_multiset().count(a[j]) > 0);
                assert(s1.contains(a[j]));
                let m = choose|m: int| 0 <= m < s1.len() && s1[m] == a[i];
                let n = choose|n: int| 0 <= n < s1.len() && s1[n] == a[j];
                assert(m != n);
                if m < n {
                    assert(s1[m].id != s1[n].id);
                } else {
                    assert(s1[n].id != s1[m].id);
                }
                assert(false);
            }
        }
    }
}

/// `s` without its first record equal to `x`; `s` must contain `x`.
spec fn remove_first_eq(s: Seq<MttTablePlayer>, x: MttTablePlayer) -> Seq<MttTablePlayer>
    decreases s.len(),
{
    if s.len() == 0 {
        s
    } else if s[0] == x {
        s.drop_first()
    } else {
        seq![s[0]] + remove_first_eq(s.drop_first(), x)
    }
}

proof fn lemma_remove_first_eq(s: Seq<MttTablePlayer>, x: MttTablePlayer)
    requires
        s.contains(x),
    ensures
        remove_first_eq(s, x).to_multiset() == s.to_multiset().remove(x),
    decreases s.len(),
{
    broadcast use vstd::seq_lib::group_seq_properties;

    s.to_multiset_ensures();
    if s[0] == x {
        assert(s.remove(0) =~= s.drop_first());
        assert(s.drop_first().to_multiset() =~= s.to_multiset().remove(x));
    } else {
        let tail = s.drop_first();
        assert(tail.contains(x)) by {
            let i = choose|i: int| 0 <= i < s.len() && s[i] == x;
            assert(tail[i - 1] == x);
        }
        lemma_remove_first_eq(tail, x);
        let out = seq![s[0]] + remove_first_eq(tail, x);
        lemma_first_plus_multiset(out);
        lemma_first_plus_multiset(s);
        assert(out.drop_first() =~= remove_first_eq(tail, x));
        assert(out.to_multiset() =~= s.to_multiset().remove(x));
    }
}

/// With pairwise distinct identities, removing the one record equal to `x`
/// leaves no record carrying the identity of `x`.
proof fn lemma_remove_first_eq_no_id(s: Seq<MttTablePlayer>, x: MttTablePlayer)
    requires
        s.contains(x),
        ids_distinct(s),
    ensures
        forall|m: int|
            0 <= m < remove_first_eq(s, x).len() ==> (#[trigger] remove_first_eq(s, x)[m]).id
                != x.id,
    decreases s.len(),
{
    let out = remove_first_eq(s, x);
    assert forall|m: int| 0 <= m < out.len() implies (#[trigger] out[m]).id != x.id by {
        if s[0] == x {
            assert(out[m] == s[m + 1]);
            if s[m + 1].id == x.id {
                assert(s[0].id == s[m + 1].id);
                assert(false);
            }
        } else {
            let tail = s.drop_first();
            assert(tail.contains(x)) by {
                let i = choose|i: int| 0 <= i < s.len() && s[i] == x;
                assert(tail[i - 1] == x);
            }
            assert(ids_distinct(tail)) by {
                assert(forall|i: int| 0 <= i < tail.len() ==> tail[i] == s[i + 1]);
            }
            if m == 0 {
                assert(out[0] == s[0]);
                if s[0].id == x.id {
                    let i = choose|i: int| 0 <= i < s.len() && s[i] == x;
                    assert(i > 0);
                    assert(s[0].id == s[i].id);
                    assert(false);
                }
            } else {
                assert(out[m] == remove_first_eq(tail, x)[m - 1]);
                lemma_remove_first_eq_no_id(tail, x);
            }
        }
    }
}

/// One incoming relocation: any record with the same identity is replaced,
/// and the newcomer takes the lowest free seat.
pub open spec fn relocate_one(players: Seq<MttTablePlayer>, p: MttTablePlayer) -> Seq<
    MttTablePlayer,
> {
    let without = remove_ids(players, seq![p.id]);
    without.push(
        MttTablePlayer { id: p.id, chips: p.chips, table_position: lowest_free(without) },
    )
}

/// The registry after seating each incoming record in arrival order.
pub open spec fn relocate_players(
    players: Seq<MttTablePlayer>,
    incoming: Seq<MttTablePlayer>,
) -> Seq<MttTablePlayer>
    decreases incoming.len(),
{
    if incoming.len() == 0 {
        players
    } else {
        relocate_players(relocate_one(players, incoming[0]), incoming.drop_first())
    }
}

proof fn lemma_relocate_players_snoc(
    t: Seq<MttTablePlayer>,
    inc: Seq<MttTablePlayer>,
    x: MttTablePlayer,
)
    ensures
        relocate_players(t, inc.push(x)) == relocate_one(relocate_players(t, inc), x),
    decreases inc.len(),
{
    if inc.len() == 0 {
        assert(inc.push(x)[0] == x);
        assert(inc.push(x).drop_first() =~= Seq::<MttTablePlayer>::empty());
        assert(relocate_players(t, inc.push(x)) == relocate_players(
            relocate_one(t, x),
            Seq::<MttTablePlayer>::empty(),
        ));
        assert(relocate_players(relocate_one(t, x), Seq::<MttTablePlayer>::empty())
            == relocate_one(t, x));
        assert(relocate_players(t, inc) == t);
    } else {
        assert(inc.push(x)[0] == inc[0]);
        assert(inc.push(x).drop_first() =~= inc.drop_first().push(x));
        assert(relocate_players(t, inc.push(x)) == relocate_players(
            relocate_one(t, inc[0]),
            inc.drop_first().push(x),
        ));
        lemma_relocate_players_snoc(relocate_one(t, inc[0]), inc.drop_first(), x);
        assert(relocate_players(t, inc) == relocate_players(
            relocate_one(t, inc[0]),
            inc.drop_first(),
        ));
    }
}

/// What an addressed bridge event does to the table-level state, and the
/// instructions it leaves for the host. `None` marks a protocol violation:
/// an inbound `GameResult`.
pub open spec fn bridge_step(t: TableView, e: base::BridgeEventView, pre_first_hand: bool) -> Option<
    (TableView, Seq<Action>),
> {
    match e {
        base::BridgeEventView::StartGame { sb, bb, moved_players } => Some(
            (
                TableView { sb, bb, players: remove_ids(t.players, moved_players), ..t },
                seq![Action::WaitTimeout(WAIT_TIMEOUT_DEFAULT)],
            ),
        ),
        base::BridgeEventView::Relocate { players } => Some(
            (
                TableView { players: relocate_players(t.players, players), ..t },
                if pre_first_hand {
                    seq![Action::WaitTimeout(0)]
                } else {
                    Seq::empty()
                },
            ),
        ),
        base::BridgeEventView::CloseTable => Some(
            (TableView { players: Seq::empty(), ..t }, Seq::empty()),
        ),
        base::BridgeEventView::GameResult { .. } => None,
    }
}

/// The table-level state after a settlement boundary: the hand counter
/// ticks once and the registry read back from the engine is adopted.
pub open spec fn settle_view(t: TableView, registry: Seq<MttTablePlayer>) -> TableView {
    TableView { hand_id: (t.hand_id + 1) as u64, players: registry, ..t }
}

/// The checkpoint projected from a table: same table-level fields, players
/// in canonical order.
pub open spec fn checkpoint_of(t: TableView) -> TableView {
    TableView { players: sort_by_id(t.players), ..t }
}

/// One table shard: the immutable configuration and the table-level state
/// it coordinates around the embedded engine.
#[derive(Debug, Clone, PartialEq, Eq)]
pub struct MttTable {
    pub table_id: u8,
    pub table_size: u8,
    pub table: base::MttTable,
}

impl MttTable {
    /// Build the shard from the init payload and the mandatory checkpoint,
    /// both still encoded. A missing checkpoint is a fatal configuration
    /// error; the one action of a fresh shard is to start dealing.
    pub fn init_state(init_data: &Vec<u8>, checkpoint_data: &Vec<u8>) -> (r: Result<
        (MttTable, Vec<Action>),
        HandleError,
    >)
        ensures
            match r {
                Ok((shard, actions)) => {
                    &&& dec_init(init_data@) matches Some((d, rem)) && rem.len() == 0
                        && shard.table_id == d.table_id && shard.table_size == d.table_size
                    &&& checkpoint_data@.len() > 0
                    &&& dec_table(checkpoint_data@) matches Some((t, rem2)) && rem2.len() == 0
                        && shard.table@ == t
                    &&& actions@ == seq![Action::StartGame]
                },
                Err(e) => {
                    &&& (e == HandleError::MalformedData || e == HandleError::MissingCheckpoint)
                    &&& (e == HandleError::MissingCheckpoint <==> ((dec_init(init_data@) matches Some(
                        (d, rem),
                    ) && rem.len() == 0) && checkpoint_data@.len() == 0))
                    &&& (e == HandleError::MalformedData ==> ((dec_init(init_data@) matches Some(
                        (d, rem),
                    ) ==> rem.len() > 0) || (checkpoint_data@.len() > 0 && (dec_table(
                        checkpoint_data@,
                    ) matches Some((t, rem2)) ==> rem2.len() > 0))))
                },
            },
    {
        let d = match InitTableData::try_from_slice(init_data) {
            Ok(d) => d,
            Err(e) => {
                return Err(e);
            },
        };
        if checkpoint_data.len() == 0 {
            return Err(HandleError::MissingCheckpoint);
        }
        let cp = match MttTableCheckpoint::try_from_slice(checkpoint_data) {
            Ok(c) => c,
            Err(e) => {
                return Err(e);
            },
        };
        let players = clone_players(&cp.players);
        let table = base::MttTable::new(&cp, players);
        let shard = MttTable { table_id: d.table_id, table_size: d.table_size, table };
        let mut actions: Vec<Action> = Vec::new();
        actions.push(Action::StartGame);
        proof {
            assert(shard.table@ =~= cp@);
            assert(actions@ =~= seq![Action::StartGame]);
        }
        Ok((shard, actions))
    }

    /// Apply one decoded bridge event addressed to this shard.
    /// `pre_first_hand` says whether the embedded engine still sits in its
    /// pre-first-hand state, in which case an arriving relocation schedules
    /// an immediate start instead of waiting out the idle clock.
    pub fn handle_bridge_event(&mut self, event: HoldemBridgeEvent, pre_first_hand: bool) -> (r:
        Result<Vec<Action>, HandleError>)
        ensures
            final(self).table_id == old(self).table_id,
            final(self).table_size == old(self).table_size,
            match bridge_step(old(self).table@, event@, pre_first_hand) {
                Some((t2, acts)) => r matches Ok(a) && a@ == acts && final(self).table@ == t2,
                None => r matches Err(e) && e == HandleError::InvalidBridgeEvent && *final(self)
                    == *old(self),
            },
            seats_distinct(old(self).table.players@) ==> seats_distinct(final(self).table.players@),
    {
        match event {
            HoldemBridgeEvent::StartGame { sb, bb, moved_players } => {
                self.table.sb = sb;
                self.table.bb = bb;
                let remaining = remove_ids_exec(&self.table.players, &moved_players);
                self.table.players = remaining;
                let mut actions: Vec<Action> = Vec::new();
                actions.push(Action::WaitTimeout(WAIT_TIMEOUT_DEFAULT));
                proof {
                    lemma_remove_ids_props(old(self).table.players@, moved_players@);
                    assert(self.table@ =~= (TableView {
                        sb,
                        bb,
                        players: remove_ids(old(self).table.players@, moved_players@),
                        ..old(self).table@
                    }));
                    assert(actions@ =~= seq![Action::WaitTimeout(WAIT_TIMEOUT_DEFAULT)]);
                }
                Ok(actions)
            },
            HoldemBridgeEvent::Relocate { players } => {
                let n = players.len();
                let mut k: usize = 0;
                proof {
                    assert(players@.take(0) =~= Seq::<MttTablePlayer>::empty());
                }
                while k < n
                    invariant
                        k <= n,
                        n == players@.len(),
                        self.table.players@ == relocate_players(
                            old(self).table.players@,
                            players@.take(k as int),
                        ),
                        self.table.hand_id == old(self).table.hand_id,
                        self.table.btn == old(self).table.btn,
                        self.table.sb == old(self).table.sb,
                        self.table.bb == old(self).table.bb,
                        self.table.next_game_start == old(self).table.next_game_start,
                        self.table_id == old(self).table_id,
                        self.table_size == old(self).table_size,
                        seats_distinct(old(self).table.players@) ==> seats_distinct(
                            self.table.players@,
                        ),
                    decreases n - k,
                {
                    let ghost pre_players = self.table.players@;
                    let mut p = players[k];
                    let mut one_id: Vec<u64> = Vec::new();
                    one_id.push(p.id);
                    let without = remove_ids_exec(&self.table.players, &one_id);
                    self.table.players = without;
                    proof {
                        assert(one_id@ =~= seq![p.id]);
                        lemma_remove_ids_props(pre_players, seq![p.id]);
                    }
                    self.table.add_player(&mut p);
                    proof {
                        let w = remove_ids(pre_players, seq![players@[k as int].id]);
                        lemma_lowest_free_is(w, p.table_position);
                        assert(self.table.players@ =~= relocate_one(
                            pre_players,
                            players@[k as int],
                        ));
                        lemma_relocate_players_snoc(
                            old(self).table.players@,
                            players@.take(k as int),
                            players@[k as int],
                        );
                        assert(players@.take(k as int).push(players@[k as int]) =~= players@.take(
                            k as int + 1,
                        ));
                    }
                    k = k + 1;
                }
                proof {
                    assert(players@.take(n as int) =~= players@);
                }
                let mut actions: Vec<Action> = Vec::new();
                if pre_first_hand {
                    actions.push(Action::WaitTimeout(0));
                    proof {
                        assert(actions@ =~= seq![Action::WaitTimeout(0)]);
                    }
                }
                Ok(actions)
            },
            HoldemBridgeEvent::CloseTable => {
                self.table.players = Vec::new();
                let actions: Vec<Action> = Vec::new();
                proof {
                    assert(self.table@ =~= (TableView {
                        players: Seq::<MttTablePlayer>::empty(),
                        ..old(self).table@
                    }));
                }
                Ok(actions)
            },
            HoldemBridgeEvent::GameResult { .. } => Err(HandleError::InvalidBridgeEvent),
        }
    }

    /// Handle one bridge frame as delivered by the host. A frame addressed
    /// to another table is routed past this shard and changes nothing; an
    /// addressed frame is decoded against the closed wire format and
    /// dispatched.
    pub fn handle_bridge_message(&mut self, dest: u64, raw: &Vec<u8>, pre_first_hand: bool) -> (r:
        Result<Vec<Action>, HandleError>)
        ensures
            final(self).table_id == old(self).table_id,
            final(self).table_size == old(self).table_size,
            dest != old(self).table_id as u64 ==> *final(self) == *old(self) && (r matches Ok(a)
                && a@ == Seq::<Action>::empty()),
            dest == old(self).table_id as u64 ==> match dec_bridge(raw@) {
                Some((b, rem)) => {
                    if rem.len() == 0 {
                        match bridge_step(old(self).table@, b, pre_first_hand) {
                            Some((t2, acts)) => r matches Ok(a) && a@ == acts && final(self).table@
                                == t2,
                            None => r matches Err(e) && e == HandleError::InvalidBridgeEvent
                                && *final(self) == *old(self),
                        }
                    } else {
                        r matches Err(e) && e == HandleError::MalformedData && *final(self) == *old(
                            self,
                        )
                    }
                },
                None => r matches Err(e) && e == HandleError::MalformedData && *final(self) == *old(
                    self,
                ),
            },
            seats_distinct(old(self).table.players@) ==> seats_distinct(final(self).table.players@),
    {
        if dest != self.table_id as u64 {
            let actions: Vec<Action> = Vec::new();
            return Ok(actions);
        }
        let event = match HoldemBridgeEvent::try_parse(raw) {
            Ok(e) => e,
            Err(e) => {
                return Err(e);
            },
        };
        self.handle_bridge_event(event, pre_first_hand)
    }

    /// Project the checkpoint out of the current table state: the same
    /// table-level fields, the players in canonical ascending-id order.
    pub fn build_checkpoint(&self) -> (r: MttTableCheckpoint)
        ensures
            r@ == checkpoint_of(self.table@),
    {
        let players = sort_players_by_id(&self.table.players);
        let r = MttTableCheckpoint {
            hand_id: self.table.hand_id,
            btn: self.table.btn,
            sb: self.table.sb,
            bb: self.table.bb,
            next_game_start: self.table.next_game_start,
            players,
        };
        proof {
            assert(r@ =~= checkpoint_of(self.table@));
        }
        r
    }

    /// Observe one settlement boundary: adopt the registry read back from
    /// the engine, tick the hand counter, rebuild the checkpoint, and hand
    /// back exactly one persist instruction and one outbound game result
    /// carrying that same checkpoint.
    pub fn handle_settlement(&mut self, registry: Vec<MttTablePlayer>, settles: Vec<Settle>) -> (r:
        Vec<Action>)
        requires
            old(self).table.hand_id < u64::MAX,
        ensures
            final(self).table_id == old(self).table_id,
            final(self).table_size == old(self).table_size,
            final(self).table@ == settle_view(old(self).table@, registry@),
            r@.len() == 2,
            r@[0] matches Action::Checkpoint(cp) && cp@ == checkpoint_of(final(self).table@),
            r@[1] matches Action::BridgeEvent { dest, event } && dest == 0 && (
            event matches HoldemBridgeEvent::GameResult {
                hand_id,
                table_id,
                settles: s2,
                checkpoint,
            } && hand_id == old(self).table.hand_id + 1 && table_id == old(self).table_id && s2@
                == settles@ && checkpoint@ == checkpoint_of(final(self).table@)),
    {
        self.table.hand_id = self.table.hand_id + 1;
        self.table.players = registry;
        proof {
            assert(self.table@ =~= settle_view(old(self).table@, self.table.players@));
        }
        let cp = self.build_checkpoint();
        let cp2 = clone_checkpoint(&cp);
        let hand_id = self.table.hand_id;
        let table_id = self.table_id;
        let mut actions: Vec<Action> = Vec::new();
        actions.push(Action::Checkpoint(cp));
        actions.push(
            Action::BridgeEvent {
                dest: 0,
                event: HoldemBridgeEvent::GameResult {
                    hand_id,
                    table_id,
                    settles,
                    checkpoint: cp2,
                },
            },
        );
        actions
    }
}

/// Shorthand for the removal lemma of the data model.
proof fn lemma_remove_ids_props(players: Seq<MttTablePlayer>, ids: Seq<u64>)
    ensures
        seats_distinct(players) ==> seats_distinct(remove_ids(players, ids)),
        forall|p: u64|
            #[trigger] base::position_occupied(remove_ids(players, ids), p)
                ==> base::position_occupied(players, p),
        forall|x: u64| ids.contains(x) ==> !#[trigger] contains_id(remove_ids(players, ids), x),
{
    base::lemma_remove_ids(players, ids);
}

} // verus!
