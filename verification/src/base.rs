//! Data model of a tournament table: player records, the runtime table
//! state, its checkpoint projection, and seat assignment.

use vstd::prelude::*;
use vstd::set_lib::{lemma_int_range, lemma_len_subset, set_int_range};
use vstd::assert_by_contradiction;

verus! {

/// One seated player: tournament-wide identity, chip stack, and the seat
/// index held at this table.
#[derive(Debug, Clone, Copy, PartialEq, Eq)]
pub struct MttTablePlayer {
    pub id: u64,
    pub chips: u64,
    pub table_position: u64,
}

impl MttTablePlayer {
    pub fn new(id: u64, chips: u64, table_position: u64) -> (r: Self)
        ensures
            r == (MttTablePlayer { id, chips, table_position }),
    {
        Self { id, chips, table_position }
    }
}

/// Immutable configuration handed to a shard exactly once at creation.
#[derive(Debug, Clone, Copy, PartialEq, Eq)]
pub struct InitTableData {
    pub table_id: u8,
    pub table_size: u8,
}

/// Table-level runtime state: the logical hand counter, dealer button,
/// blinds, the seated players, and the scheduled start of the next hand.
#[derive(Debug, Clone, PartialEq, Eq)]
pub struct MttTable {
    pub hand_id: u64,
    pub btn: u64,
    pub sb: u64,
    pub bb: u64,
    pub players: Vec<MttTablePlayer>,
    pub next_game_start: u64,
}

/// The durable snapshot of a table: the same table-level fields as the
/// runtime state, with the player list flattened in. This is the only
/// representation ever persisted or transmitted.
#[derive(Debug, Clone, PartialEq, Eq)]
pub struct MttTableCheckpoint {
    pub hand_id: u64,
    pub btn: u64,
    pub sb: u64,
    pub bb: u64,
    pub next_game_start: u64,
    pub players: Vec<MttTablePlayer>,
}

/// One chip movement of a settled hand: the player it concerns and the
/// direction of the change.
#[derive(Debug, Clone, Copy, PartialEq, Eq)]
pub enum SettleOp {
    Add(u64),
    Sub(u64),
    Eject,
}

/// A finalized chip delta for one player, reported upward once a hand
/// settles.
#[derive(Debug, Clone, Copy, PartialEq, Eq)]
pub struct Settle {
    pub id: u64,
    pub op: SettleOp,
}

impl Settle {
    pub fn add(id: u64, amount: u64) -> (r: Self)
        ensures
            r == (Settle { id, op: SettleOp::Add(amount) }),
    {
        Self { id, op: SettleOp::Add(amount) }
    }

    pub fn sub(id: u64, amount: u64) -> (r: Self)
        ensures
            r == (Settle { id, op: SettleOp::Sub(amount) }),
    {
        Self { id, op: SettleOp::Sub(amount) }
    }
}

/// The closed set of messages exchanged between the orchestrator and the
/// table shards. `GameResult` is outbound only: a shard produces it at a
/// settlement boundary and never legitimately receives it.
#[derive(Debug, Clone, PartialEq, Eq)]
pub enum HoldemBridgeEvent {
    /// Start the next hand with the given blinds; the listed players are
    /// being relocated away and must be removed first.
    StartGame { sb: u64, bb: u64, moved_players: Vec<u64> },
    /// Seat the given incoming players at this table.
    Relocate { players: Vec<MttTablePlayer> },
    /// Remove every player; the table is being retired.
    CloseTable,
    /// Outbound report of a settled hand: the chip deltas and the freshly
    /// rebuilt checkpoint.
    GameResult { hand_id: u64, table_id: u8, settles: Vec<Settle>, checkpoint: MttTableCheckpoint },
}

/// The mathematical model of a table's table-level state: what a runtime
/// table and a checkpoint both project to.
#[verifier::ext_equal]
pub struct TableView {
    pub hand_id: u64,
    pub btn: u64,
    pub sb: u64,
    pub bb: u64,
    pub next_game_start: u64,
    pub players: Seq<MttTablePlayer>,
}

impl View for MttTable {
    type V = TableView;

    open spec fn view(&self) -> TableView {
        TableView {
            hand_id: self.hand_id,
            btn: self.btn,
            sb: self.sb,
            bb: self.bb,
            next_game_start: self.next_game_start,
            players: self.players@,
        }
    }
}

impl View for MttTableCheckpoint {
    type V = TableView;

    open spec fn view(&self) -> TableView {
        TableView {
            hand_id: self.hand_id,
            btn: self.btn,
            sb: self.sb,
            bb: self.bb,
            next_game_start: self.next_game_start,
            players: self.players@,
        }
    }
}

/// The mathematical model of a bridge event.
#[verifier::ext_equal]
pub enum BridgeEventView {
    StartGame { sb: u64, bb: u64, moved_players: Seq<u64> },
    Relocate { players: Seq<MttTablePlayer> },
    CloseTable,
    GameResult { hand_id: u64, table_id: u8, settles: Seq<Settle>, checkpoint: TableView },
}

impl View for HoldemBridgeEvent {
    type V = BridgeEventView;

    open spec fn view(&self) -> BridgeEventView {
        match self {
            HoldemBridgeEvent::StartGame { sb, bb, moved_players } => BridgeEventView::StartGame {
                sb: *sb,
                bb: *bb,
                moved_players: moved_players@,
            },
            HoldemBridgeEvent::Relocate { players } => BridgeEventView::Relocate {
                players: players@,
            },
            HoldemBridgeEvent::CloseTable => BridgeEventView::CloseTable,
            HoldemBridgeEvent::GameResult { hand_id, table_id, settles, checkpoint } => BridgeEventView::GameResult {
                hand_id: *hand_id,
                table_id: *table_id,
                settles: settles@,
                checkpoint: checkpoint@,
            },
        }
    }
}

/// Whether some player of `players` holds seat index `pos`.
pub open spec fn position_occupied(players: Seq<MttTablePlayer>, pos: u64) -> bool {
    exists|i: int| 0 <= i < players.len() && players[i].table_position == pos
}

/// No two players of `players` share a seat index.
pub open spec fn seats_distinct(players: Seq<MttTablePlayer>) -> bool {
    forall|i: int, j: int|
        0 <= i < j < players.len() ==> players[i].table_position != players[j].table_position
}

/// Among any `n` players at most `n` seat indices are taken, so one of the
/// indices `0 ..= n` is always free.
proof fn lemma_free_position_exists(players: Seq<MttTablePlayer>)
    requires
        players.len() <= u64::MAX,
    ensures
        exists|p: u64| p <= players.len() && !position_occupied(players, p),
{
    assert_by_contradiction!(
        exists|p: u64| p <= players.len() && !position_occupied(players, p),
        {
            let n = players.len() as int;
            let positions = players.map_values(|pl: MttTablePlayer| pl.table_position as int);
            let occ = positions.to_set();
            positions.lemma_cardinality_of_set();
            lemma_int_range(0, n + 1);
            assert forall|q: int| set_int_range(0, n + 1).contains(q) implies occ.contains(q) by {
                let qu = q as u64;
                assert(qu <= players.len());
                assert(position_occupied(players, qu));
                let i = choose|i: int| 0 <= i < players.len() && players[i].table_position == qu;
                assert(positions[i] == q);
                assert(positions.contains(q));
            }
            lemma_len_subset(set_int_range(0, n + 1), occ);
        }
    );
}

/// Whether seat index `pos` is currently held by some player of `players`.
pub fn position_is_occupied(players: &Vec<MttTablePlayer>, pos: u64) -> (r: bool)
    ensures
        r == position_occupied(players@, pos),
{
    let n = players.len();
    let mut j: usize = 0;
    while j < n
        invariant
            j <= n,
            n == players@.len(),
            forall|k: int| 0 <= k < j ==> players@[k].table_position != pos,
        decreases n - j,
    {
        if players[j].table_position == pos {
            return true;
        }
        j = j + 1;
    }
    false
}

/// The lowest seat index not currently held by any player of `players`:
/// seat indices are scanned from `0` upward and the first free one wins.
pub fn lowest_free_position(players: &Vec<MttTablePlayer>) -> (r: u64)
    ensures
        !position_occupied(players@, r),
        forall|p: u64| p < r ==> position_occupied(players@, p),
        r <= players@.len(),
{
    let n: usize = players.len();
    let mut i: u64 = 0;
    loop
        invariant
            i <= players@.len(),
            players@.len() == n as nat,
            forall|p: u64| p < i ==> position_occupied(players@, p),
        ensures
            !position_occupied(players@, i),
            forall|p: u64| p < i ==> position_occupied(players@, p),
            i <= players@.len(),
        decreases players@.len() - i,
    {
        if !position_is_occupied(players, i) {
            break;
        }
        proof {
            if i as nat == players@.len() {
                lemma_free_position_exists(players@);
                let w = choose|p: u64| p <= players@.len() && !position_occupied(players@, p);
                assert(w == i);
                assert(false);
            }
        }
        i = i + 1;
    }
    i
}

impl MttTable {
    /// Rebuild a runtime table from a checkpoint's table-level fields and
    /// a caller-supplied player list.
    pub fn new(checkpoint: &MttTableCheckpoint, players: Vec<MttTablePlayer>) -> (r: Self)
        ensures
            r.hand_id == checkpoint.hand_id,
            r.btn == checkpoint.btn,
            r.sb == checkpoint.sb,
            r.bb == checkpoint.bb,
            r.next_game_start == checkpoint.next_game_start,
            r.players == players,
    {
        Self {
            sb: checkpoint.sb,
            bb: checkpoint.bb,
            btn: checkpoint.btn,
            players,
            next_game_start: checkpoint.next_game_start,
            hand_id: checkpoint.hand_id,
        }
    }

    /// Seat a player at the lowest free seat index and append the record.
    /// The caller-provided record is updated with the assigned seat, since
    /// the index it arrived with is not honoured.
    pub fn add_player(&mut self, player: &mut MttTablePlayer)
        ensures
            final(self).players@ == old(self).players@.push(
                MttTablePlayer {
                    id: old(player).id,
                    chips: old(player).chips,
                    table_position: final(player).table_position,
                },
            ),
            final(player).id == old(player).id,
            final(player).chips == old(player).chips,
            !position_occupied(old(self).players@, final(player).table_position),
            forall|p: u64|
                p < final(player).table_position ==> position_occupied(old(self).players@, p),
            seats_distinct(old(self).players@) ==> seats_distinct(final(self).players@),
            final(self).hand_id == old(self).hand_id,
            final(self).btn == old(self).btn,
            final(self).sb == old(self).sb,
            final(self).bb == old(self).bb,
            final(self).next_game_start == old(self).next_game_start,
    {
        let table_position = lowest_free_position(&self.players);
        self.players.push(MttTablePlayer { id: player.id, chips: player.chips, table_position });
        player.table_position = table_position;
        proof {
            let oldp = old(self).players@;
            let newp = self.players@;
            if seats_distinct(oldp) {
                assert forall|i: int, j: int| 0 <= i < j < newp.len() implies
                    newp[i].table_position != newp[j].table_position by {
                    if j == newp.len() - 1 {
                        assert(newp[i] == oldp[i]);
                        if oldp[i].table_position == table_position {
                            assert(position_occupied(oldp, table_position));
                        }
                    } else {
                        assert(newp[i] == oldp[i] && newp[j] == oldp[j]);
                    }
                }
            }
        }
    }
}

impl MttTableCheckpoint {
    /// Project the durable snapshot out of a runtime table. The player
    /// list is carried over verbatim.
    pub fn new(table: &MttTable) -> (r: Self)
        ensures
            r.hand_id == table.hand_id,
            r.btn == table.btn,
            r.sb == table.sb,
            r.bb == table.bb,
            r.next_game_start == table.next_game_start,
            r.players@ == table.players@,
    {
        MttTableCheckpoint {
            btn: table.btn,
            sb: table.sb,
            bb: table.bb,
            next_game_start: table.next_game_start,
            hand_id: table.hand_id,
            players: clone_players(&table.players),
        }
    }
}

/// The lowest seat index that no player of `players` holds.
pub open spec fn lowest_free(players: Seq<MttTablePlayer>) -> u64 {
    choose|p: u64|
        !position_occupied(players, p) && (forall|q: u64| q < p ==> position_occupied(players, q))
}

/// A seat index that is free while every lower one is taken is the lowest
/// free seat index.
pub proof fn lemma_lowest_free_is(players: Seq<MttTablePlayer>, r: u64)
    requires
        !position_occupied(players, r),
        forall|q: u64| q < r ==> position_occupied(players, q),
    ensures
        lowest_free(players) == r,
{
    assert(!position_occupied(players, r) && (forall|q: u64|
        q < r ==> position_occupied(players, q)));
    let w = lowest_free(players);
    assert(!position_occupied(players, w) && (forall|q: u64|
        q < w ==> position_occupied(players, q)));
    if w < r {
        assert(position_occupied(players, w));
    }
    if r < w {
        assert(position_occupied(players, r));
    }
}

/// Whether some player of `players` carries identity `id`.
pub open spec fn contains_id(players: Seq<MttTablePlayer>, id: u64) -> bool {
    exists|i: int| 0 <= i < players.len() && players[i].id == id
}

/// `players` without every record whose identity stands in `ids`, order
/// otherwise kept.
pub open spec fn remove_ids(players: Seq<MttTablePlayer>, ids: Seq<u64>) -> Seq<MttTablePlayer>
    decreases players.len(),
{
    if players.len() == 0 {
        Seq::empty()
    } else if ids.contains(players[0].id) {
        remove_ids(players.drop_first(), ids)
    } else {
        seq![players[0]] + remove_ids(players.drop_first(), ids)
    }
}

/// Removal keeps only records of `players`: every remaining record stands
/// in the input list, a removed identity is gone, every other identity is
/// kept, and seat distinctness is preserved.
pub proof fn lemma_remove_ids(players: Seq<MttTablePlayer>, ids: Seq<u64>)
    ensures
        forall|i: int|
            0 <= i < remove_ids(players, ids).len() ==> players.contains(
                #[trigger] remove_ids(players, ids)[i],
            ),
        forall|p: u64|
            #[trigger] position_occupied(remove_ids(players, ids), p) ==> position_occupied(
                players,
                p,
            ),
        seats_distinct(players) ==> seats_distinct(remove_ids(players, ids)),
        forall|x: u64| ids.contains(x) ==> !#[trigger] contains_id(remove_ids(players, ids), x),
        forall|x: u64|
            !ids.contains(x) ==> (#[trigger] contains_id(remove_ids(players, ids), x)
                <==> contains_id(players, x)),
    decreases players.len(),
{
    let out = remove_ids(players, ids);
    if players.len() == 0 {
    } else {
        let tail = players.drop_first();
        let rec = remove_ids(tail, ids);
        lemma_remove_ids(tail, ids);
        assert(forall|i: int| 0 <= i < tail.len() ==> players[i + 1] == tail[i]);
        assert forall|i: int| 0 <= i < out.len() implies players.contains(#[trigger] out[i]) by {
            if ids.contains(players[0].id) {
                let j = choose|j: int| 0 <= j < tail.len() && tail[j] == out[i];
                assert(players[j + 1] == out[i]);
            } else {
                if i > 0 {
                    assert(out[i] == rec[i - 1]);
                    let j = choose|j: int| 0 <= j < tail.len() && tail[j] == rec[i - 1];
                    assert(players[j + 1] == out[i]);
                } else {
                    assert(players[0] == out[0]);
                }
            }
        }
        assert forall|p: u64| #[trigger] position_occupied(out, p) implies position_occupied(
            players,
            p,
        ) by {
            let i = choose|i: int| 0 <= i < out.len() && out[i].table_position == p;
            if ids.contains(players[0].id) {
                assert(position_occupied(tail, p));
                let j = choose|j: int| 0 <= j < tail.len() && tail[j].table_position == p;
                assert(players[j + 1].table_position == p);
            } else {
                if i > 0 {
                    assert(rec[i - 1].table_position == p);
                    assert(position_occupied(tail, p));
                    let j = choose|j: int| 0 <= j < tail.len() && tail[j].table_position == p;
                    assert(players[j + 1].table_position == p);
                } else {
                    assert(players[0].table_position == p);
                }
            }
        }
        if seats_distinct(players) {
            assert(seats_distinct(tail)) by {
                assert forall|i: int, j: int| 0 <= i < j < tail.len() implies tail[i].table_position
                    != tail[j].table_position by {
                    assert(tail[i] == players[i + 1] && tail[j] == players[j + 1]);
                }
            }
            if !ids.contains(players[0].id) {
                assert forall|i: int, j: int| 0 <= i < j < out.len() implies out[i].table_position
                    != out[j].table_position by {
                    if i == 0 {
                        assert(out[j] == rec[j - 1]);
                        if out[j].table_position == players[0].table_position {
                            assert(position_occupied(rec, players[0].table_position));
                            assert(position_occupied(tail, players[0].table_position));
                            let m = choose|m: int|
                                0 <= m < tail.len() && tail[m].table_position
                                    == players[0].table_position;
                            assert(players[m + 1].table_position == players[0].table_position);
                        }
                    } else {
                        assert(out[i] == rec[i - 1] && out[j] == rec[j - 1]);
                    }
                }
            }
        }
        assert forall|x: u64| ids.contains(x) implies !#[trigger] contains_id(out, x) by {
            if contains_id(out, x) {
                let i = choose|i: int| 0 <= i < out.len() && out[i].id == x;
                if ids.contains(players[0].id) {
                    assert(out == rec);
                    assert(0 <= i < rec.len() && rec[i].id == x);
                    assert(contains_id(rec, x));
                } else if i == 0 {
                    assert(out[0] == players[0]);
                } else {
                    assert(out == seq![players[0]] + rec);
                    assert(out[i] == rec[i - 1]);
                    assert(0 <= i - 1 < rec.len() && rec[i - 1].id == x);
                    assert(contains_id(rec, x));
                }
            }
        }
        assert forall|x: u64| !ids.contains(x) implies (#[trigger] contains_id(out, x)
            <==> contains_id(players, x)) by {
            if contains_id(players, x) {
                let i = choose|i: int| 0 <= i < players.len() && players[i].id == x;
                if i == 0 {
                    assert(out[0].id == x);
                } else {
                    assert(tail[i - 1].id == x);
                    assert(0 <= i - 1 < tail.len() && tail[i - 1].id == x);
                    assert(contains_id(tail, x));
                    assert(contains_id(rec, x));
                    let j = choose|j: int| 0 <= j < rec.len() && rec[j].id == x;
                    if ids.contains(players[0].id) {
                        assert(out == rec);
                        assert(out[j].id == x);
                    } else {
                        assert(out == seq![players[0]] + rec);
                        assert(out[j + 1].id == x);
                    }
                    assert(contains_id(out, x));
                }
            }
            if contains_id(out, x) {
                let i = choose|i: int| 0 <= i < out.len() && out[i].id == x;
                if !ids.contains(players[0].id) && i == 0 {
                    assert(out[0] == players[0]);
                    assert(players[0].id == x);
                } else {
                    let k: int = if ids.contains(players[0].id) {
                        i
                    } else {
                        i - 1
                    };
                    if ids.contains(players[0].id) {
                        assert(out == rec);
                        assert(rec[k].id == x);
                    } else {
                        assert(out == seq![players[0]] + rec);
                        assert(out[i] == rec[i - 1]);
                        assert(rec[k].id == x);
                    }
                    assert(0 <= k < rec.len() && rec[k].id == x);
                    assert(contains_id(rec, x));
                    assert(contains_id(tail, x));
                    let j = choose|j: int| 0 <= j < tail.len() && tail[j].id == x;
                    assert(players[j + 1].id == x);
                    assert(contains_id(players, x));
                }
            }
        }
    }
}

/// Whether identity `id` stands in `ids`.
pub fn id_in_list(ids: &Vec<u64>, id: u64) -> (r: bool)
    ensures
        r == ids@.contains(id),
{
    let n = ids.len();
    let mut j: usize = 0;
    while j < n
        invariant
            j <= n,
            n == ids@.len(),
            forall|k: int| 0 <= k < j ==> ids@[k] != id,
        decreases n - j,
    {
        if ids[j] == id {
            return true;
        }
        j = j + 1;
    }
    false
}

/// The player list without every record whose identity stands in `ids`.
pub fn remove_ids_exec(players: &Vec<MttTablePlayer>, ids: &Vec<u64>) -> (r: Vec<MttTablePlayer>)
    ensures
        r@ == remove_ids(players@, ids@),
{
    let n = players.len();
    let mut out: Vec<MttTablePlayer> = Vec::new();
    let mut k: usize = 0;
    proof {
        assert(players@.skip(0) =~= players@);
    }
    while k < n
        invariant
            k <= n,
            n == players@.len(),
            remove_ids(players@, ids@) == out@ + remove_ids(players@.skip(k as int), ids@),
        decreases n - k,
    {
        let ghost pre_out = out@;
        proof {
            assert(players@.skip(k as int)[0] == players@[k as int]);
            assert(players@.skip(k as int).drop_first() =~= players@.skip(k as int + 1));
        }
        if !id_in_list(ids, players[k].id) {
            out.push(players[k]);
            proof {
                assert(out@ + remove_ids(players@.skip(k as int + 1), ids@) =~= pre_out + (seq![
                    players@[k as int],
                ] + remove_ids(players@.skip(k as int + 1), ids@)));
            }
        }
        k = k + 1;
    }
    proof {
        assert(players@.skip(n as int) =~= Seq::<MttTablePlayer>::empty());
        assert(out@ + remove_ids(players@.skip(n as int), ids@) =~= out@);
    }
    out
}

/// A field-for-field copy of a checkpoint.
pub fn clone_checkpoint(c: &MttTableCheckpoint) -> (r: MttTableCheckpoint)
    ensures
        r@ == c@,
{
    MttTableCheckpoint {
        hand_id: c.hand_id,
        btn: c.btn,
        sb: c.sb,
        bb: c.bb,
        next_game_start: c.next_game_start,
        players: clone_players(&c.players),
    }
}

/// An element-for-element copy of a player list.
pub fn clone_players(players: &Vec<MttTablePlayer>) -> (r: Vec<MttTablePlayer>)
    ensures
        r@ == players@,
{
    let n = players.len();
    let mut out: Vec<MttTablePlayer> = Vec::new();
    let mut j: usize = 0;
    while j < n
        invariant
            j <= n,
            n == players@.len(),
            out@ == players@.take(j as int),
        decreases n - j,
    {
        out.push(players[j]);
        proof {
            assert(out@ =~= players@.take(j as int + 1));
        }
        j = j + 1;
    }
    proof {
        assert(out@ =~= players@);
    }
    out
}

} // verus!
