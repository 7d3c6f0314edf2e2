//! The compact deterministic binary encoding of the data model: field
//! order fixed, integers little-endian, lists length-prefixed with a
//! 32-bit count, enums tagged with one leading byte. The same layout
//! serves the persisted checkpoint and the bridge-event wire format.

use vstd::prelude::*;
use vstd::arithmetic::div_mod::lemma_fundamental_div_mod;
use crate::base::{
    BridgeEventView, HoldemBridgeEvent, InitTableData, MttTableCheckpoint, MttTablePlayer, Settle,
    SettleOp, TableView,
};
use crate::errors::HandleError;

verus! {

/// 256 to the `n`th power: the number of values `n` bytes can hold.
pub open spec fn pow256(n: nat) -> nat
    decreases n,
{
    if n == 0 {
        1
    } else {
        256 * pow256((n - 1) as nat)
    }
}

/// The `n` little-endian bytes of `x`: lowest byte first.
pub open spec fn le_bytes(x: nat, n: nat) -> Seq<u8>
    decreases n,
{
    if n == 0 {
        Seq::empty()
    } else {
        seq![(x % 256) as u8] + le_bytes(x / 256, (n - 1) as nat)
    }
}

/// The number read from a little-endian byte string.
pub open spec fn from_le(s: Seq<u8>) -> nat
    decreases s.len(),
{
    if s.len() == 0 {
        0
    } else {
        (s[0] + 256 * from_le(s.drop_first())) as nat
    }
}

pub proof fn lemma_pow256_values()
    ensures
        pow256(4) == 0x1_0000_0000,
        pow256(8) == 0x1_0000_0000_0000_0000,
{
    assert(pow256(0) == 1);
    assert(pow256(1) == 256);
    assert(pow256(2) == 0x1_0000);
    assert(pow256(3) == 0x100_0000);
    assert(pow256(4) == 0x1_0000_0000);
    assert(pow256(5) == 0x100_0000_0000);
    assert(pow256(6) == 0x1_0000_0000_0000);
    assert(pow256(7) == 0x100_0000_0000_0000);
    assert(pow256(8) == 0x1_0000_0000_0000_0000);
}

pub proof fn lemma_le_bytes_len(x: nat, n: nat)
    ensures
        le_bytes(x, n).len() == n,
    decreases n,
{
    if n > 0 {
        lemma_le_bytes_len(x / 256, (n - 1) as nat);
    }
}

pub proof fn lemma_pow256_mono(m: nat, n: nat)
    requires
        m <= n,
    ensures
        pow256(m) <= pow256(n),
    decreases n,
{
    if m < n && n > 0 {
        lemma_pow256_mono(m, (n - 1) as nat);
    }
}

pub proof fn lemma_le_round_trip(x: nat, n: nat)
    requires
        x < pow256(n),
    ensures
        from_le(le_bytes(x, n)) == x,
    decreases n,
{
    if n == 0 {
        assert(x == 0);
    } else {
        let b = le_bytes(x, n);
        assert(b == seq![(x % 256) as u8] + le_bytes(x / 256, (n - 1) as nat));
        lemma_le_bytes_len(x / 256, (n - 1) as nat);
        assert(b.drop_first() =~= le_bytes(x / 256, (n - 1) as nat));
        assert(x / 256 < pow256((n - 1) as nat)) by {
            let p = pow256((n - 1) as nat);
            assert(x < 256 * p);
            assert(x / 256 < p) by (nonlinear_arith)
                requires
                    x < 256 * p,
                    p > 0,
            ;
        }
        lemma_le_round_trip(x / 256, (n - 1) as nat);
        lemma_fundamental_div_mod(x as int, 256);
    }
}

/// The one-byte encoding.
pub open spec fn enc_u8(x: u8) -> Seq<u8> {
    seq![x]
}

/// The four-byte little-endian encoding.
pub open spec fn enc_u32(x: u32) -> Seq<u8> {
    le_bytes(x as nat, 4)
}

/// The eight-byte little-endian encoding.
pub open spec fn enc_u64(x: u64) -> Seq<u8> {
    le_bytes(x as nat, 8)
}

/// Read one byte; yield it and the remainder.
pub open spec fn dec_u8(s: Seq<u8>) -> Option<(u8, Seq<u8>)> {
    if s.len() < 1 {
        None
    } else {
        Some((s[0], s.drop_first()))
    }
}

/// Read four little-endian bytes; yield the number and the remainder.
pub open spec fn dec_u32(s: Seq<u8>) -> Option<(u32, Seq<u8>)> {
    if s.len() < 4 {
        None
    } else {
        Some((from_le(s.take(4)) as u32, s.skip(4)))
    }
}

/// Read eight little-endian bytes; yield the number and the remainder.
pub open spec fn dec_u64(s: Seq<u8>) -> Option<(u64, Seq<u8>)> {
    if s.len() < 8 {
        None
    } else {
        Some((from_le(s.take(8)) as u64, s.skip(8)))
    }
}

pub proof fn lemma_dec_u8(x: u8, rest: Seq<u8>)
    ensures
        dec_u8(enc_u8(x) + rest) == Some((x, rest)),
{
    let s = enc_u8(x) + rest;
    assert(s.drop_first() =~= rest);
}

pub proof fn lemma_dec_u32(x: u32, rest: Seq<u8>)
    ensures
        dec_u32(enc_u32(x) + rest) == Some((x, rest)),
{
    lemma_le_bytes_len(x as nat, 4);
    let s = enc_u32(x) + rest;
    assert(s.take(4) =~= enc_u32(x));
    assert(s.skip(4) =~= rest);
    lemma_pow256_values();
    lemma_le_round_trip(x as nat, 4);
}

pub proof fn lemma_dec_u64(x: u64, rest: Seq<u8>)
    ensures
        dec_u64(enc_u64(x) + rest) == Some((x, rest)),
{
    lemma_le_bytes_len(x as nat, 8);
    let s = enc_u64(x) + rest;
    assert(s.take(8) =~= enc_u64(x));
    assert(s.skip(8) =~= rest);
    lemma_pow256_values();
    lemma_le_round_trip(x as nat, 8);
}

/// The encoding of one player record: id, chips, seat index.
pub open spec fn enc_player(p: MttTablePlayer) -> Seq<u8> {
    enc_u64(p.id) + enc_u64(p.chips) + enc_u64(p.table_position)
}

pub open spec fn dec_player(s: Seq<u8>) -> Option<(MttTablePlayer, Seq<u8>)> {
    match dec_u64(s) {
        None => None,
        Some((id, s)) => match dec_u64(s) {
            None => None,
            Some((chips, s)) => match dec_u64(s) {
                None => None,
                Some((table_position, s)) => Some(
                    (MttTablePlayer { id, chips, table_position }, s),
                ),
            },
        },
    }
}

pub proof fn lemma_dec_player(p: MttTablePlayer, rest: Seq<u8>)
    ensures
        dec_player(enc_player(p) + rest) == Some((p, rest)),
{
    assert(enc_player(p) + rest =~= enc_u64(p.id) + (enc_u64(p.chips) + (enc_u64(
        p.table_position,
    ) + rest)));
    lemma_dec_u64(p.id, enc_u64(p.chips) + (enc_u64(p.table_position) + rest));
    lemma_dec_u64(p.chips, enc_u64(p.table_position) + rest);
    lemma_dec_u64(p.table_position, rest);
}

/// The bytes of `n` player records laid end to end.
pub open spec fn enc_player_seq(ps: Seq<MttTablePlayer>) -> Seq<u8>
    decreases ps.len(),
{
    if ps.len() == 0 {
        Seq::empty()
    } else {
        enc_player(ps[0]) + enc_player_seq(ps.drop_first())
    }
}

pub open spec fn dec_player_seq(s: Seq<u8>, n: nat) -> Option<(Seq<MttTablePlayer>, Seq<u8>)>
    decreases n,
{
    if n == 0 {
        Some((Seq::empty(), s))
    } else {
        match dec_player(s) {
            None => None,
            Some((p, s)) => match dec_player_seq(s, (n - 1) as nat) {
                None => None,
                Some((ps, s)) => Some((seq![p] + ps, s)),
            },
        }
    }
}

pub proof fn lemma_dec_player_seq(ps: Seq<MttTablePlayer>, rest: Seq<u8>)
    ensures
        dec_player_seq(enc_player_seq(ps) + rest, ps.len()) == Some((ps, rest)),
    decreases ps.len(),
{
    if ps.len() == 0 {
        assert(enc_player_seq(ps) + rest =~= rest);
        assert(ps =~= Seq::<MttTablePlayer>::empty());
    } else {
        let tail = ps.drop_first();
        assert(enc_player_seq(ps) + rest =~= enc_player(ps[0]) + (enc_player_seq(tail) + rest));
        lemma_dec_player(ps[0], enc_player_seq(tail) + rest);
        lemma_dec_player_seq(tail, rest);
        assert(seq![ps[0]] + tail =~= ps);
    }
}

/// A player list on the wire: a 32-bit count, then the records.
pub open spec fn enc_players(ps: Seq<MttTablePlayer>) -> Seq<u8> {
    enc_u32(ps.len() as u32) + enc_player_seq(ps)
}

pub open spec fn dec_players(s: Seq<u8>) -> Option<(Seq<MttTablePlayer>, Seq<u8>)> {
    match dec_u32(s) {
        None => None,
        Some((n, s)) => dec_player_seq(s, n as nat),
    }
}

pub proof fn lemma_dec_players(ps: Seq<MttTablePlayer>, rest: Seq<u8>)
    requires
        ps.len() <= u32::MAX,
    ensures
        dec_players(enc_players(ps) + rest) == Some((ps, rest)),
{
    assert(enc_players(ps) + rest =~= enc_u32(ps.len() as u32) + (enc_player_seq(ps) + rest));
    lemma_dec_u32(ps.len() as u32, enc_player_seq(ps) + rest);
    lemma_dec_player_seq(ps, rest);
}

/// The ids of the players moved away, laid end to end.
pub open spec fn enc_u64_seq(xs: Seq<u64>) -> Seq<u8>
    decreases xs.len(),
{
    if xs.len() == 0 {
        Seq::empty()
    } else {
        enc_u64(xs[0]) + enc_u64_seq(xs.drop_first())
    }
}

pub open spec fn dec_u64_seq(s: Seq<u8>, n: nat) -> Option<(Seq<u64>, Seq<u8>)>
    decreases n,
{
    if n == 0 {
        Some((Seq::empty(), s))
    } else {
        match dec_u64(s) {
            None => None,
            Some((x, s)) => match dec_u64_seq(s, (n - 1) as nat) {
                None => None,
                Some((xs, s)) => Some((seq![x] + xs, s)),
            },
        }
    }
}

pub proof fn lemma_dec_u64_seq(xs: Seq<u64>, rest: Seq<u8>)
    ensures
        dec_u64_seq(enc_u64_seq(xs) + rest, xs.len()) == Some((xs, rest)),
    decreases xs.len(),
{
    if xs.len() == 0 {
        assert(enc_u64_seq(xs) + rest =~= rest);
        assert(xs =~= Seq::<u64>::empty());
    } else {
        let tail = xs.drop_first();
        assert(enc_u64_seq(xs) + rest =~= enc_u64(xs[0]) + (enc_u64_seq(tail) + rest));
        lemma_dec_u64(xs[0], enc_u64_seq(tail) + rest);
        lemma_dec_u64_seq(tail, rest);
        assert(seq![xs[0]] + tail =~= xs);
    }
}

/// An id list on the wire: a 32-bit count, then the ids.
pub open spec fn enc_u64s(xs: Seq<u64>) -> Seq<u8> {
    enc_u32(xs.len() as u32) + enc_u64_seq(xs)
}

pub open spec fn dec_u64s(s: Seq<u8>) -> Option<(Seq<u64>, Seq<u8>)> {
    match dec_u32(s) {
        None => None,
        Some((n, s)) => dec_u64_seq(s, n as nat),
    }
}

pub proof fn lemma_dec_u64s(xs: Seq<u64>, rest: Seq<u8>)
    requires
        xs.len() <= u32::MAX,
    ensures
        dec_u64s(enc_u64s(xs) + rest) == Some((xs, rest)),
{
    assert(enc_u64s(xs) + rest =~= enc_u32(xs.len() as u32) + (enc_u64_seq(xs) + rest));
    lemma_dec_u32(xs.len() as u32, enc_u64_seq(xs) + rest);
    lemma_dec_u64_seq(xs, rest);
}

/// A settlement entry: the player id, then the tagged chip delta.
pub open spec fn enc_settle(x: Settle) -> Seq<u8> {
    enc_u64(x.id) + match x.op {
        SettleOp::Add(a) => seq![0u8] + enc_u64(a),
        SettleOp::Sub(a) => seq![1u8] + enc_u64(a),
        SettleOp::Eject => seq![2u8],
    }
}

pub open spec fn dec_settle(s: Seq<u8>) -> Option<(Settle, Seq<u8>)> {
    match dec_u64(s) {
        None => None,
        Some((id, s)) => match dec_u8(s) {
            None => None,
            Some((tag, s)) => if tag == 0 {
                match dec_u64(s) {
                    None => None,
                    Some((a, s)) => Some((Settle { id, op: SettleOp::Add(a) }, s)),
                }
            } else if tag == 1 {
                match dec_u64(s) {
                    None => None,
                    Some((a, s)) => Some((Settle { id, op: SettleOp::Sub(a) }, s)),
                }
            } else if tag == 2 {
                Some((Settle { id, op: SettleOp::Eject }, s))
            } else {
                None
            },
        },
    }
}

pub proof fn lemma_dec_settle(x: Settle, rest: Seq<u8>)
    ensures
        dec_settle(enc_settle(x) + rest) == Some((x, rest)),
{
    match x.op {
        SettleOp::Add(a) => {
            assert(enc_settle(x) + rest =~= enc_u64(x.id) + (enc_u8(0u8) + (enc_u64(a) + rest)));
            lemma_dec_u64(x.id, enc_u8(0u8) + (enc_u64(a) + rest));
            lemma_dec_u8(0u8, enc_u64(a) + rest);
            lemma_dec_u64(a, rest);
        },
        SettleOp::Sub(a) => {
            assert(enc_settle(x) + rest =~= enc_u64(x.id) + (enc_u8(1u8) + (enc_u64(a) + rest)));
            lemma_dec_u64(x.id, enc_u8(1u8) + (enc_u64(a) + rest));
            lemma_dec_u8(1u8, enc_u64(a) + rest);
            lemma_dec_u64(a, rest);
        },
        SettleOp::Eject => {
            assert(enc_settle(x) + rest =~= enc_u64(x.id) + (enc_u8(2u8) + rest));
            lemma_dec_u64(x.id, enc_u8(2u8) + rest);
            lemma_dec_u8(2u8, rest);
        },
    }
}

/// The bytes of `n` settlement entries laid end to end.
pub open spec fn enc_settle_seq(xs: Seq<Settle>) -> Seq<u8>
    decreases xs.len(),
{
    if xs.len() == 0 {
        Seq::empty()
    } else {
        enc_settle(xs[0]) + enc_settle_seq(xs.drop_first())
    }
}

pub open spec fn dec_settle_seq(s: Seq<u8>, n: nat) -> Option<(Seq<Settle>, Seq<u8>)>
    decreases n,
{
    if n == 0 {
        Some((Seq::empty(), s))
    } else {
        match dec_settle(s) {
            None => None,
            Some((x, s)) => match dec_settle_seq(s, (n - 1) as nat) {
                None => None,
                Some((xs, s)) => Some((seq![x] + xs, s)),
            },
        }
    }
}

pub proof fn lemma_dec_settle_seq(xs: Seq<Settle>, rest: Seq<u8>)
    ensures
        dec_settle_seq(enc_settle_seq(xs) + rest, xs.len()) == Some((xs, rest)),
    decreases xs.len(),
{
    if xs.len() == 0 {
        assert(enc_settle_seq(xs) + rest =~= rest);
        assert(xs =~= Seq::<Settle>::empty());
    } else {
        let tail = xs.drop_first();
        assert(enc_settle_seq(xs) + rest =~= enc_settle(xs[0]) + (enc_settle_seq(tail) + rest));
        lemma_dec_settle(xs[0], enc_settle_seq(tail) + rest);
        lemma_dec_settle_seq(tail, rest);
        assert(seq![xs[0]] + tail =~= xs);
    }
}

/// A settlement list on the wire: a 32-bit count, then the entries.
pub open spec fn enc_settles(xs: Seq<Settle>) -> Seq<u8> {
    enc_u32(xs.len() as u32) + enc_settle_seq(xs)
}

pub open spec fn dec_settles(s: Seq<u8>) -> Option<(Seq<Settle>, Seq<u8>)> {
    match dec_u32(s) {
        None => None,
        Some((n, s)) => dec_settle_seq(s, n as nat),
    }
}

pub proof fn lemma_dec_settles(xs: Seq<Settle>, rest: Seq<u8>)
    requires
        xs.len() <= u32::MAX,
    ensures
        dec_settles(enc_settles(xs) + rest) == Some((xs, rest)),
{
    assert(enc_settles(xs) + rest =~= enc_u32(xs.len() as u32) + (enc_settle_seq(xs) + rest));
    lemma_dec_u32(xs.len() as u32, enc_settle_seq(xs) + rest);
    lemma_dec_settle_seq(xs, rest);
}

/// The persisted layout of a table snapshot: hand counter, button, blinds,
/// next start time, then the player list.
pub open spec fn enc_table(t: TableView) -> Seq<u8> {
    enc_u64(t.hand_id) + enc_u64(t.btn) + enc_u64(t.sb) + enc_u64(t.bb) + enc_u64(
        t.next_game_start,
    ) + enc_players(t.players)
}

pub open spec fn dec_table(s: Seq<u8>) -> Option<(TableView, Seq<u8>)> {
    match dec_u64(s) {
        None => None,
        Some((hand_id, s)) => match dec_u64(s) {
            None => None,
            Some((btn, s)) => match dec_u64(s) {
                None => None,
                Some((sb, s)) => match dec_u64(s) {
                    None => None,
                    Some((bb, s)) => match dec_u64(s) {
                        None => None,
                        Some((next_game_start, s)) => match dec_players(s) {
                            None => None,
                            Some((players, s)) => Some(
                                (TableView { hand_id, btn, sb, bb, next_game_start, players }, s),
                            ),
                        },
                    },
                },
            },
        },
    }
}

pub proof fn lemma_dec_table(t: TableView, rest: Seq<u8>)
    requires
        t.players.len() <= u32::MAX,
    ensures
        dec_table(enc_table(t) + rest) == Some((t, rest)),
{
    let s4 = enc_players(t.players) + rest;
    let s3 = enc_u64(t.next_game_start) + s4;
    let s2 = enc_u64(t.bb) + s3;
    let s1 = enc_u64(t.sb) + s2;
    let s0 = enc_u64(t.btn) + s1;
    assert(enc_table(t) + rest =~= enc_u64(t.hand_id) + s0);
    lemma_dec_u64(t.hand_id, s0);
    assert(s0 =~= enc_u64(t.btn) + s1);
    lemma_dec_u64(t.btn, s1);
    lemma_dec_u64(t.sb, s2);
    lemma_dec_u64(t.bb, s3);
    lemma_dec_u64(t.next_game_start, s4);
    lemma_dec_players(t.players, rest);
}

/// The two-byte init payload: table id, then seat capacity.
pub open spec fn enc_init(d: InitTableData) -> Seq<u8> {
    seq![d.table_id, d.table_size]
}

pub open spec fn dec_init(s: Seq<u8>) -> Option<(InitTableData, Seq<u8>)> {
    match dec_u8(s) {
        None => None,
        Some((table_id, s)) => match dec_u8(s) {
            None => None,
            Some((table_size, s)) => Some((InitTableData { table_id, table_size }, s)),
        },
    }
}

pub proof fn lemma_dec_init(d: InitTableData, rest: Seq<u8>)
    ensures
        dec_init(enc_init(d) + rest) == Some((d, rest)),
{
    assert(enc_init(d) + rest =~= enc_u8(d.table_id) + (enc_u8(d.table_size) + rest));
    lemma_dec_u8(d.table_id, enc_u8(d.table_size) + rest);
    lemma_dec_u8(d.table_size, rest);
}

/// A bridge event on the wire: one tag byte, then the variant's fields in
/// declaration order.
pub open spec fn enc_bridge(e: BridgeEventView) -> Seq<u8> {
    match e {
        BridgeEventView::StartGame { sb, bb, moved_players } => seq![0u8] + enc_u64(sb) + enc_u64(
            bb,
        ) + enc_u64s(moved_players),
        BridgeEventView::Relocate { players } => seq![1u8] + enc_players(players),
        BridgeEventView::CloseTable => seq![2u8],
        BridgeEventView::GameResult { hand_id, table_id, settles, checkpoint } => seq![3u8]
            + enc_u64(hand_id) + enc_u8(table_id) + enc_settles(settles) + enc_table(checkpoint),
    }
}

pub open spec fn dec_bridge(s: Seq<u8>) -> Option<(BridgeEventView, Seq<u8>)> {
    match dec_u8(s) {
        None => None,
        Some((tag, s)) => if tag == 0 {
            match dec_u64(s) {
                None => None,
                Some((sb, s)) => match dec_u64(s) {
                    None => None,
                    Some((bb, s)) => match dec_u64s(s) {
                        None => None,
                        Some((moved_players, s)) => Some(
                            (BridgeEventView::StartGame { sb, bb, moved_players }, s),
                        ),
                    },
                },
            }
        } else if tag == 1 {
            match dec_players(s) {
                None => None,
                Some((players, s)) => Some((BridgeEventView::Relocate { players }, s)),
            }
        } else if tag == 2 {
            Some((BridgeEventView::CloseTable, s))
        } else if tag == 3 {
            match dec_u64(s) {
                None => None,
                Some((hand_id, s)) => match dec_u8(s) {
                    None => None,
                    Some((table_id, s)) => match dec_settles(s) {
                        None => None,
                        Some((settles, s)) => match dec_table(s) {
                            None => None,
                            Some((checkpoint, s)) => Some(
                                (
                                    BridgeEventView::GameResult {
                                        hand_id,
                                        table_id,
                                        settles,
                                        checkpoint,
                                    },
                                    s,
                                ),
                            ),
                        },
                    },
                },
            }
        } else {
            None
        },
    }
}

#[verifier::rlimit(60)]
proof fn lemma_dec_bridge_start_game(sb: u64, bb: u64, moved_players: Seq<u64>, rest: Seq<u8>)
    requires
        moved_players.len() <= u32::MAX,
    ensures
        dec_bridge(enc_bridge(BridgeEventView::StartGame { sb, bb, moved_players }) + rest)
            == Some((BridgeEventView::StartGame { sb, bb, moved_players }, rest)),
{
    let e = BridgeEventView::StartGame { sb, bb, moved_players };
    let s2 = enc_u64s(moved_players) + rest;
    let s1 = enc_u64(bb) + s2;
    let s0 = enc_u64(sb) + s1;
    assert(enc_bridge(e) + rest =~= enc_u8(0u8) + s0);
    lemma_dec_u8(0u8, s0);
    lemma_dec_u64(sb, s1);
    lemma_dec_u64(bb, s2);
    lemma_dec_u64s(moved_players, rest);
}

#[verifier::rlimit(60)]
proof fn lemma_dec_bridge_relocate(players: Seq<MttTablePlayer>, rest: Seq<u8>)
    requires
        players.len() <= u32::MAX,
    ensures
        dec_bridge(enc_bridge(BridgeEventView::Relocate { players }) + rest) == Some(
            (BridgeEventView::Relocate { players }, rest),
        ),
{
    let e = BridgeEventView::Relocate { players };
    let s0 = enc_players(players) + rest;
    assert(enc_bridge(e) + rest =~= enc_u8(1u8) + s0);
    lemma_dec_u8(1u8, s0);
    lemma_dec_players(players, rest);
}

#[verifier::rlimit(60)]
proof fn lemma_dec_bridge_close_table(rest: Seq<u8>)
    ensures
        dec_bridge(enc_bridge(BridgeEventView::CloseTable) + rest) == Some(
            (BridgeEventView::CloseTable, rest),
        ),
{
    assert(enc_bridge(BridgeEventView::CloseTable) + rest =~= enc_u8(2u8) + rest);
    lemma_dec_u8(2u8, rest);
}

#[verifier::rlimit(60)]
proof fn lemma_dec_bridge_game_result(
    hand_id: u64,
    table_id: u8,
    settles: Seq<Settle>,
    checkpoint: TableView,
    rest: Seq<u8>,
)
    requires
        settles.len() <= u32::MAX,
        checkpoint.players.len() <= u32::MAX,
    ensures
        dec_bridge(
            enc_bridge(BridgeEventView::GameResult { hand_id, table_id, settles, checkpoint })
                + rest,
        ) == Some((BridgeEventView::GameResult { hand_id, table_id, settles, checkpoint }, rest)),
{
    let e = BridgeEventView::GameResult { hand_id, table_id, settles, checkpoint };
    let s3 = enc_table(checkpoint) + rest;
    let s2 = enc_settles(settles) + s3;
    let s1 = enc_u8(table_id) + s2;
    let s0 = enc_u64(hand_id) + s1;
    assert(enc_bridge(e) + rest =~= enc_u8(3u8) + s0);
    lemma_dec_u8(3u8, s0);
    lemma_dec_u64(hand_id, s1);
    lemma_dec_u8(table_id, s2);
    lemma_dec_settles(settles, s3);
    lemma_dec_table(checkpoint, rest);
}

/// Every bridge event decodes back to itself: the wire format is lossless.
pub proof fn lemma_dec_bridge(e: BridgeEventView, rest: Seq<u8>)
    requires
        e matches BridgeEventView::StartGame { moved_players, .. } ==> moved_players.len()
            <= u32::MAX,
        e matches BridgeEventView::Relocate { players } ==> players.len() <= u32::MAX,
        e matches BridgeEventView::GameResult { settles, checkpoint, .. } ==> settles.len()
            <= u32::MAX && checkpoint.players.len() <= u32::MAX,
    ensures
        dec_bridge(enc_bridge(e) + rest) == Some((e, rest)),
{
    match e {
        BridgeEventView::StartGame { sb, bb, moved_players } => {
            lemma_dec_bridge_start_game(sb, bb, moved_players, rest);
        },
        BridgeEventView::Relocate { players } => {
            lemma_dec_bridge_relocate(players, rest);
        },
        BridgeEventView::CloseTable => {
            lemma_dec_bridge_close_table(rest);
        },
        BridgeEventView::GameResult { hand_id, table_id, settles, checkpoint } => {
            lemma_dec_bridge_game_result(hand_id, table_id, settles, checkpoint, rest);
        },
    }
}

/// Encoding a table checkpoint and decoding the bytes reproduces the
/// checkpoint, with nothing left over.
pub proof fn lemma_checkpoint_round_trip(t: TableView)
    requires
        t.players.len() <= u32::MAX,
    ensures
        dec_table(enc_table(t)) == Some((t, Seq::<u8>::empty())),
{
    assert(enc_table(t) =~= enc_table(t) + Seq::<u8>::empty());
    lemma_dec_table(t, Seq::<u8>::empty());
}

fn write_u8(out: &mut Vec<u8>, x: u8)
    ensures
        final(out)@ == old(out)@ + enc_u8(x),
{
    out.push(x);
    proof {
        assert(out@ =~= old(out)@ + enc_u8(x));
    }
}

fn write_u32(out: &mut Vec<u8>, x: u32)
    ensures
        final(out)@ == old(out)@ + enc_u32(x),
{
    let mut v: u32 = x;
    let mut k: usize = 0;
    while k < 4
        invariant
            k <= 4,
            out@ + le_bytes(v as nat, (4 - k) as nat) == old(out)@ + enc_u32(x),
        decreases 4 - k,
    {
        let ghost pre_out = out@;
        let ghost pre_v = v as nat;
        out.push((v % 256) as u8);
        v = v / 256;
        proof {
            assert(out@ + le_bytes(v as nat, (3 - k) as nat) =~= pre_out + le_bytes(
                pre_v,
                (4 - k) as nat,
            ));
        }
        k = k + 1;
    }
    proof {
        assert(out@ + le_bytes(v as nat, 0) =~= out@);
    }
}

fn write_u64(out: &mut Vec<u8>, x: u64)
    ensures
        final(out)@ == old(out)@ + enc_u64(x),
{
    let mut v: u64 = x;
    let mut k: usize = 0;
    while k < 8
        invariant
            k <= 8,
            out@ + le_bytes(v as nat, (8 - k) as nat) == old(out)@ + enc_u64(x),
        decreases 8 - k,
    {
        let ghost pre_out = out@;
        let ghost pre_v = v as nat;
        out.push((v % 256) as u8);
        v = v / 256;
        proof {
            assert(out@ + le_bytes(v as nat, (7 - k) as nat) =~= pre_out + le_bytes(
                pre_v,
                (8 - k) as nat,
            ));
        }
        k = k + 1;
    }
    proof {
        assert(out@ + le_bytes(v as nat, 0) =~= out@);
    }
}

fn write_player(out: &mut Vec<u8>, p: &MttTablePlayer)
    ensures
        final(out)@ == old(out)@ + enc_player(*p),
{
    write_u64(out, p.id);
    write_u64(out, p.chips);
    write_u64(out, p.table_position);
    proof {
        assert(out@ =~= old(out)@ + enc_player(*p));
    }
}

fn write_players(out: &mut Vec<u8>, ps: &Vec<MttTablePlayer>)
    requires
        ps@.len() <= u32::MAX,
    ensures
        final(out)@ == old(out)@ + enc_players(ps@),
{
    write_u32(out, ps.len() as u32);
    proof {
        assert(ps@.skip(0) =~= ps@);
        assert(out@ + enc_player_seq(ps@) =~= old(out)@ + enc_players(ps@));
    }
    let n = ps.len();
    let mut k: usize = 0;
    while k < n
        invariant
            k <= n,
            n == ps@.len(),
            old(out)@ + enc_players(ps@) == out@ + enc_player_seq(ps@.skip(k as int)),
        decreases n - k,
    {
        let ghost pre_out = out@;
        write_player(out, &ps[k]);
        proof {
            assert(ps@.skip(k as int).drop_first() =~= ps@.skip(k as int + 1));
            assert(ps@.skip(k as int)[0] == ps@[k as int]);
            assert(out@ + enc_player_seq(ps@.skip(k as int + 1)) =~= pre_out + enc_player_seq(
                ps@.skip(k as int),
            ));
        }
        k = k + 1;
    }
    proof {
        assert(ps@.skip(n as int) =~= Seq::<MttTablePlayer>::empty());
        assert(out@ + enc_player_seq(ps@.skip(n as int)) =~= out@);
    }
}

fn write_u64s(out: &mut Vec<u8>, xs: &Vec<u64>)
    requires
        xs@.len() <= u32::MAX,
    ensures
        final(out)@ == old(out)@ + enc_u64s(xs@),
{
    write_u32(out, xs.len() as u32);
    proof {
        assert(xs@.skip(0) =~= xs@);
        assert(out@ + enc_u64_seq(xs@) =~= old(out)@ + enc_u64s(xs@));
    }
    let n = xs.len();
    let mut k: usize = 0;
    while k < n
        invariant
            k <= n,
            n == xs@.len(),
            old(out)@ + enc_u64s(xs@) == out@ + enc_u64_seq(xs@.skip(k as int)),
        decreases n - k,
    {
        let ghost pre_out = out@;
        write_u64(out, xs[k]);
        proof {
            assert(xs@.skip(k as int).drop_first() =~= xs@.skip(k as int + 1));
            assert(xs@.skip(k as int)[0] == xs@[k as int]);
            assert(out@ + enc_u64_seq(xs@.skip(k as int + 1)) =~= pre_out + enc_u64_seq(
                xs@.skip(k as int),
            ));
        }
        k = k + 1;
    }
    proof {
        assert(xs@.skip(n as int) =~= Seq::<u64>::empty());
        assert(out@ + enc_u64_seq(xs@.skip(n as int)) =~= out@);
    }
}

fn write_settle(out: &mut Vec<u8>, x: &Settle)
    ensures
        final(out)@ == old(out)@ + enc_settle(*x),
{
    write_u64(out, x.id);
    match x.op {
        SettleOp::Add(a) => {
            write_u8(out, 0);
            write_u64(out, a);
        },
        SettleOp::Sub(a) => {
            write_u8(out, 1);
            write_u64(out, a);
        },
        SettleOp::Eject => {
            write_u8(out, 2);
        },
    }
    proof {
        assert(out@ =~= old(out)@ + enc_settle(*x));
    }
}

fn write_settles(out: &mut Vec<u8>, xs: &Vec<Settle>)
    requires
        xs@.len() <= u32::MAX,
    ensures
        final(out)@ == old(out)@ + enc_settles(xs@),
{
    write_u32(out, xs.len() as u32);
    proof {
        assert(xs@.skip(0) =~= xs@);
        assert(out@ + enc_settle_seq(xs@) =~= old(out)@ + enc_settles(xs@));
    }
    let n = xs.len();
    let mut k: usize = 0;
    while k < n
        invariant
            k <= n,
            n == xs@.len(),
            old(out)@ + enc_settles(xs@) == out@ + enc_settle_seq(xs@.skip(k as int)),
        decreases n - k,
    {
        let ghost pre_out = out@;
        write_settle(out, &xs[k]);
        proof {
            assert(xs@.skip(k as int).drop_first() =~= xs@.skip(k as int + 1));
            assert(xs@.skip(k as int)[0] == xs@[k as int]);
            assert(out@ + enc_settle_seq(xs@.skip(k as int + 1)) =~= pre_out + enc_settle_seq(
                xs@.skip(k as int),
            ));
        }
        k = k + 1;
    }
    proof {
        assert(xs@.skip(n as int) =~= Seq::<Settle>::empty());
        assert(out@ + enc_settle_seq(xs@.skip(n as int)) =~= out@);
    }
}

fn read_u8(bytes: &Vec<u8>, pos: usize) -> (r: Option<(u8, usize)>)
    requires
        pos <= bytes@.len(),
    ensures
        match r {
            Some((v, p2)) => pos <= p2 <= bytes@.len() && dec_u8(bytes@.skip(pos as int)) == Some(
                (v, bytes@.skip(p2 as int)),
            ),
            None => dec_u8(bytes@.skip(pos as int)) is None,
        },
{
    if pos < bytes.len() {
        proof {
            assert(bytes@.skip(pos as int)[0] == bytes@[pos as int]);
            assert(bytes@.skip(pos as int).drop_first() =~= bytes@.skip(pos as int + 1));
        }
        Some((bytes[pos], pos + 1))
    } else {
        None
    }
}

fn read_u32(bytes: &Vec<u8>, pos: usize) -> (r: Option<(u32, usize)>)
    requires
        pos <= bytes@.len(),
    ensures
        match r {
            Some((v, p2)) => pos <= p2 <= bytes@.len() && dec_u32(bytes@.skip(pos as int)) == Some(
                (v, bytes@.skip(p2 as int)),
            ),
            None => dec_u32(bytes@.skip(pos as int)) is None,
        },
{
    let n = bytes.len();
    if n - pos < 4 {
        return None;
    }
    let mut v: u32 = 0;
    let mut k: usize = 0;
    while k < 4
        invariant
            k <= 4,
            pos + 4 <= bytes@.len(),
            bytes@.len() <= usize::MAX,
            v as nat == from_le(bytes@.subrange(pos as int + 4 - k, pos as int + 4)),
            v < pow256(k as nat),
        decreases 4 - k,
    {
        proof {
            lemma_pow256_values();
            lemma_pow256_mono(k as nat, 3);
            assert(pow256((k + 1) as nat) == 256 * pow256(k as nat));
        }
        let b = bytes[pos + 3 - k];
        v = v * 256 + (b as u32);
        proof {
            assert(bytes@.subrange(pos as int + 3 - k, pos as int + 4).drop_first()
                =~= bytes@.subrange(pos as int + 4 - k, pos as int + 4));
            assert(bytes@.subrange(pos as int + 3 - k, pos as int + 4)[0] == bytes@[pos as int + 3
                - k]);
        }
        k = k + 1;
    }
    proof {
        assert(bytes@.subrange(pos as int, pos as int + 4) =~= bytes@.skip(pos as int).take(4));
        assert(bytes@.skip(pos as int).skip(4) =~= bytes@.skip(pos as int + 4));
    }
    Some((v, pos + 4))
}

fn read_u64(bytes: &Vec<u8>, pos: usize) -> (r: Option<(u64, usize)>)
    requires
        pos <= bytes@.len(),
    ensures
        match r {
            Some((v, p2)) => pos <= p2 <= bytes@.len() && dec_u64(bytes@.skip(pos as int)) == Some(
                (v, bytes@.skip(p2 as int)),
            ),
            None => dec_u64(bytes@.skip(pos as int)) is None,
        },
{
    let n = bytes.len();
    if n - pos < 8 {
        return None;
    }
    let mut v: u64 = 0;
    let mut k: usize = 0;
    while k < 8
        invariant
            k <= 8,
            pos + 8 <= bytes@.len(),
            bytes@.len() <= usize::MAX,
            v as nat == from_le(bytes@.subrange(pos as int + 8 - k, pos as int + 8)),
            v < pow256(k as nat),
        decreases 8 - k,
    {
        proof {
            lemma_pow256_values();
            lemma_pow256_mono(k as nat, 7);
            assert(pow256((k + 1) as nat) == 256 * pow256(k as nat));
        }
        let b = bytes[pos + 7 - k];
        v = v * 256 + (b as u64);
        proof {
            assert(bytes@.subrange(pos as int + 7 - k, pos as int + 8).drop_first()
                =~= bytes@.subrange(pos as int + 8 - k, pos as int + 8));
            assert(bytes@.subrange(pos as int + 7 - k, pos as int + 8)[0] == bytes@[pos as int + 7
                - k]);
        }
        k = k + 1;
    }
    proof {
        assert(bytes@.subrange(pos as int, pos as int + 8) =~= bytes@.skip(pos as int).take(8));
        assert(bytes@.skip(pos as int).skip(8) =~= bytes@.skip(pos as int + 8));
    }
    Some((v, pos + 8))
}

fn read_player(bytes: &Vec<u8>, pos: usize) -> (r: Option<(MttTablePlayer, usize)>)
    requires
        pos <= bytes@.len(),
    ensures
        match r {
            Some((p, p2)) => pos <= p2 <= bytes@.len() && dec_player(bytes@.skip(pos as int))
                == Some((p, bytes@.skip(p2 as int))),
            None => dec_player(bytes@.skip(pos as int)) is None,
        },
{
    let (id, pos) = match read_u64(bytes, pos) {
        Some(x) => x,
        None => {
            return None;
        },
    };
    let (chips, pos) = match read_u64(bytes, pos) {
        Some(x) => x,
        None => {
            return None;
        },
    };
    let (table_position, pos) = match read_u64(bytes, pos) {
        Some(x) => x,
        None => {
            return None;
        },
    };
    Some((MttTablePlayer { id, chips, table_position }, pos))
}

fn read_players(bytes: &Vec<u8>, pos: usize) -> (r: Option<(Vec<MttTablePlayer>, usize)>)
    requires
        pos <= bytes@.len(),
    ensures
        match r {
            Some((ps, p2)) => pos <= p2 <= bytes@.len() && dec_players(bytes@.skip(pos as int))
                == Some((ps@, bytes@.skip(p2 as int))),
            None => dec_players(bytes@.skip(pos as int)) is None,
        },
{
    let (n, start) = match read_u32(bytes, pos) {
        Some(x) => x,
        None => {
            return None;
        },
    };
    let mut out: Vec<MttTablePlayer> = Vec::new();
    let mut cur: usize = start;
    let mut k: u32 = 0;
    while k < n
        invariant
            k <= n,
            pos <= cur,
            cur <= bytes@.len(),
            dec_players(bytes@.skip(pos as int)) == (match dec_player_seq(
                bytes@.skip(cur as int),
                (n - k) as nat,
            ) {
                None => None::<(Seq<MttTablePlayer>, Seq<u8>)>,
                Some((tail, rem)) => Some((out@ + tail, rem)),
            }),
        decreases n - k,
    {
        let ghost pre_out = out@;
        match read_player(bytes, cur) {
            None => {
                return None;
            },
            Some((p, c2)) => {
                proof {
                    match dec_player_seq(bytes@.skip(c2 as int), (n - k - 1) as nat) {
                        None => {},
                        Some((tail, rem)) => {
                            assert(pre_out + (seq![p] + tail) =~= pre_out.push(p) + tail);
                        },
                    }
                }
                out.push(p);
                cur = c2;
            },
        }
        k = k + 1;
    }
    proof {
        assert(out@ + Seq::<MttTablePlayer>::empty() =~= out@);
    }
    Some((out, cur))
}

fn read_u64s(bytes: &Vec<u8>, pos: usize) -> (r: Option<(Vec<u64>, usize)>)
    requires
        pos <= bytes@.len(),
    ensures
        match r {
            Some((xs, p2)) => pos <= p2 <= bytes@.len() && dec_u64s(bytes@.skip(pos as int))
                == Some((xs@, bytes@.skip(p2 as int))),
            None => dec_u64s(bytes@.skip(pos as int)) is None,
        },
{
    let (n, start) = match read_u32(bytes, pos) {
        Some(x) => x,
        None => {
            return None;
        },
    };
    let mut out: Vec<u64> = Vec::new();
    let mut cur: usize = start;
    let mut k: u32 = 0;
    while k < n
        invariant
            k <= n,
            pos <= cur,
            cur <= bytes@.len(),
            dec_u64s(bytes@.skip(pos as int)) == (match dec_u64_seq(
                bytes@.skip(cur as int),
                (n - k) as nat,
            ) {
                None => None::<(Seq<u64>, Seq<u8>)>,
                Some((tail, rem)) => Some((out@ + tail, rem)),
            }),
        decreases n - k,
    {
        let ghost pre_out = out@;
        match read_u64(bytes, cur) {
            None => {
                return None;
            },
            Some((x, c2)) => {
                proof {
                    match dec_u64_seq(bytes@.skip(c2 as int), (n - k - 1) as nat) {
                        None => {},
                        Some((tail, rem)) => {
                            assert(pre_out + (seq![x] + tail) =~= pre_out.push(x) + tail);
                        },
                    }
                }
                out.push(x);
                cur = c2;
            },
        }
        k = k + 1;
    }
    proof {
        assert(out@ + Seq::<u64>::empty() =~= out@);
    }
    Some((out, cur))
}

fn read_settle(bytes: &Vec<u8>, pos: usize) -> (r: Option<(Settle, usize)>)
    requires
        pos <= bytes@.len(),
    ensures
        match r {
            Some((x, p2)) => pos <= p2 <= bytes@.len() && dec_settle(bytes@.skip(pos as int))
                == Some((x, bytes@.skip(p2 as int))),
            None => dec_settle(bytes@.skip(pos as int)) is None,
        },
{
    let (id, pos) = match read_u64(bytes, pos) {
        Some(x) => x,
        None => {
            return None;
        },
    };
    let (tag, pos) = match read_u8(bytes, pos) {
        Some(x) => x,
        None => {
            return None;
        },
    };
    if tag == 0 {
        match read_u64(bytes, pos) {
            Some((a, pos)) => Some((Settle { id, op: SettleOp::Add(a) }, pos)),
            None => None,
        }
    } else if tag == 1 {
        match read_u64(bytes, pos) {
            Some((a, pos)) => Some((Settle { id, op: SettleOp::Sub(a) }, pos)),
            None => None,
        }
    } else if tag == 2 {
        Some((Settle { id, op: SettleOp::Eject }, pos))
    } else {
        None
    }
}

fn read_settles(bytes: &Vec<u8>, pos: usize) -> (r: Option<(Vec<Settle>, usize)>)
    requires
        pos <= bytes@.len(),
    ensures
        match r {
            Some((xs, p2)) => pos <= p2 <= bytes@.len() && dec_settles(bytes@.skip(pos as int))
                == Some((xs@, bytes@.skip(p2 as int))),
            None => dec_settles(bytes@.skip(pos as int)) is None,
        },
{
    let (n, start) = match read_u32(bytes, pos) {
        Some(x) => x,
        None => {
            return None;
        },
    };
    let mut out: Vec<Settle> = Vec::new();
    let mut cur: usize = start;
    let mut k: u32 = 0;
    while k < n
        invariant
            k <= n,
            pos <= cur,
            cur <= bytes@.len(),
            dec_settles(bytes@.skip(pos as int)) == (match dec_settle_seq(
                bytes@.skip(cur as int),
                (n - k) as nat,
            ) {
                None => None::<(Seq<Settle>, Seq<u8>)>,
                Some((tail, rem)) => Some((out@ + tail, rem)),
            }),
        decreases n - k,
    {
        let ghost pre_out = out@;
        match read_settle(bytes, cur) {
            None => {
                return None;
            },
            Some((x, c2)) => {
                proof {
                    match dec_settle_seq(bytes@.skip(c2 as int), (n - k - 1) as nat) {
                        None => {},
                        Some((tail, rem)) => {
                            assert(pre_out + (seq![x] + tail) =~= pre_out.push(x) + tail);
                        },
                    }
                }
                out.push(x);
                cur = c2;
            },
        }
        k = k + 1;
    }
    proof {
        assert(out@ + Seq::<Settle>::empty() =~= out@);
    }
    Some((out, cur))
}

fn read_table(bytes: &Vec<u8>, pos: usize) -> (r: Option<(MttTableCheckpoint, usize)>)
    requires
        pos <= bytes@.len(),
    ensures
        match r {
            Some((c, p2)) => pos <= p2 <= bytes@.len() && dec_table(bytes@.skip(pos as int))
                == Some((c@, bytes@.skip(p2 as int))),
            None => dec_table(bytes@.skip(pos as int)) is None,
        },
{
    let (hand_id, pos) = match read_u64(bytes, pos) {
        Some(x) => x,
        None => {
            return None;
        },
    };
    let (btn, pos) = match read_u64(bytes, pos) {
        Some(x) => x,
        None => {
            return None;
        },
    };
    let (sb, pos) = match read_u64(bytes, pos) {
        Some(x) => x,
        None => {
            return None;
        },
    };
    let (bb, pos) = match read_u64(bytes, pos) {
        Some(x) => x,
        None => {
            return None;
        },
    };
    let (next_game_start, pos) = match read_u64(bytes, pos) {
        Some(x) => x,
        None => {
            return None;
        },
    };
    let (players, pos) = match read_players(bytes, pos) {
        Some(x) => x,
        None => {
            return None;
        },
    };
    Some((MttTableCheckpoint { hand_id, btn, sb, bb, next_game_start, players }, pos))
}

impl InitTableData {
    /// Encode the init payload in the wire layout.
    pub fn try_to_vec(&self) -> (r: Vec<u8>)
        ensures
            r@ == enc_init(*self),
    {
        let mut out: Vec<u8> = Vec::new();
        write_u8(&mut out, self.table_id);
        write_u8(&mut out, self.table_size);
        proof {
            assert(out@ =~= enc_init(*self));
        }
        out
    }

    /// Decode an init payload; the whole input must be consumed.
    pub fn try_from_slice(bytes: &Vec<u8>) -> (r: Result<InitTableData, HandleError>)
        ensures
            match r {
                Ok(d) => dec_init(bytes@) == Some((d, Seq::<u8>::empty())),
                Err(e) => e == HandleError::MalformedData && (dec_init(bytes@) matches Some(
                    (d, rem),
                ) ==> rem.len() > 0),
            },
    {
        proof {
            assert(bytes@.skip(0) =~= bytes@);
        }
        let (table_id, pos) = match read_u8(bytes, 0) {
            Some(x) => x,
            None => {
                return Err(HandleError::MalformedData);
            },
        };
        let (table_size, pos) = match read_u8(bytes, pos) {
            Some(x) => x,
            None => {
                return Err(HandleError::MalformedData);
            },
        };
        if pos == bytes.len() {
            proof {
                assert(bytes@.skip(pos as int) =~= Seq::<u8>::empty());
            }
            Ok(InitTableData { table_id, table_size })
        } else {
            Err(HandleError::MalformedData)
        }
    }
}

impl MttTableCheckpoint {
    /// Encode the checkpoint in the persisted wire layout.
    pub fn try_to_vec(&self) -> (r: Vec<u8>)
        requires
            self.players@.len() <= u32::MAX,
        ensures
            r@ == enc_table(self@),
    {
        let mut out: Vec<u8> = Vec::new();
        write_u64(&mut out, self.hand_id);
        write_u64(&mut out, self.btn);
        write_u64(&mut out, self.sb);
        write_u64(&mut out, self.bb);
        write_u64(&mut out, self.next_game_start);
        write_players(&mut out, &self.players);
        proof {
            assert(out@ =~= enc_table(self@));
        }
        out
    }

    /// Decode a checkpoint; the whole input must be consumed.
    pub fn try_from_slice(bytes: &Vec<u8>) -> (r: Result<MttTableCheckpoint, HandleError>)
        ensures
            match r {
                Ok(c) => dec_table(bytes@) == Some((c@, Seq::<u8>::empty())),
                Err(e) => e == HandleError::MalformedData && (dec_table(bytes@) matches Some(
                    (t, rem),
                ) ==> rem.len() > 0),
            },
    {
        proof {
            assert(bytes@.skip(0) =~= bytes@);
        }
        match read_table(bytes, 0) {
            Some((c, pos)) => {
                if pos == bytes.len() {
                    proof {
                        assert(bytes@.skip(pos as int) =~= Seq::<u8>::empty());
                    }
                    Ok(c)
                } else {
                    Err(HandleError::MalformedData)
                }
            },
            None => Err(HandleError::MalformedData),
        }
    }
}

impl HoldemBridgeEvent {
    /// Encode the bridge event in the wire layout.
    pub fn try_to_vec(&self) -> (r: Vec<u8>)
        requires
            self matches HoldemBridgeEvent::StartGame { moved_players, .. } ==> moved_players@.len()
                <= u32::MAX,
            self matches HoldemBridgeEvent::Relocate { players } ==> players@.len() <= u32::MAX,
            self matches HoldemBridgeEvent::GameResult { settles, checkpoint, .. } ==> settles@.len()
                <= u32::MAX && checkpoint.players@.len() <= u32::MAX,
        ensures
            r@ == enc_bridge(self@),
    {
        let mut out: Vec<u8> = Vec::new();
        match self {
            HoldemBridgeEvent::StartGame { sb, bb, moved_players } => {
                write_u8(&mut out, 0);
                write_u64(&mut out, *sb);
                write_u64(&mut out, *bb);
                write_u64s(&mut out, moved_players);
            },
            HoldemBridgeEvent::Relocate { players } => {
                write_u8(&mut out, 1);
                write_players(&mut out, players);
            },
            HoldemBridgeEvent::CloseTable => {
                write_u8(&mut out, 2);
            },
            HoldemBridgeEvent::GameResult { hand_id, table_id, settles, checkpoint } => {
                write_u8(&mut out, 3);
                write_u64(&mut out, *hand_id);
                write_u8(&mut out, *table_id);
                write_settles(&mut out, settles);
                write_u64(&mut out, checkpoint.hand_id);
                write_u64(&mut out, checkpoint.btn);
                write_u64(&mut out, checkpoint.sb);
                write_u64(&mut out, checkpoint.bb);
                write_u64(&mut out, checkpoint.next_game_start);
                write_players(&mut out, &checkpoint.players);
            },
        }
        proof {
            assert(out@ =~= enc_bridge(self@));
        }
        out
    }

    /// Decode an inbound bridge event; the whole input must be consumed.
    pub fn try_parse(bytes: &Vec<u8>) -> (r: Result<HoldemBridgeEvent, HandleError>)
        ensures
            match r {
                Ok(e) => dec_bridge(bytes@) == Some((e@, Seq::<u8>::empty())),
                Err(e) => e == HandleError::MalformedData && (dec_bridge(bytes@) matches Some(
                    (b, rem),
                ) ==> rem.len() > 0),
            },
    {
        proof {
            assert(bytes@.skip(0) =~= bytes@);
        }
        let (tag, pos) = match read_u8(bytes, 0) {
            Some(x) => x,
            None => {
                return Err(HandleError::MalformedData);
            },
        };
        let (event, pos) = if tag == 0 {
            let (sb, pos) = match read_u64(bytes, pos) {
                Some(x) => x,
                None => {
                    return Err(HandleError::MalformedData);
                },
            };
            let (bb, pos) = match read_u64(bytes, pos) {
                Some(x) => x,
                None => {
                    return Err(HandleError::MalformedData);
                },
            };
            let (moved_players, pos) = match read_u64s(bytes, pos) {
                Some(x) => x,
                None => {
                    return Err(HandleError::MalformedData);
                },
            };
            (HoldemBridgeEvent::StartGame { sb, bb, moved_players }, pos)
        } else if tag == 1 {
            let (players, pos) = match read_players(bytes, pos) {
                Some(x) => x,
                None => {
                    return Err(HandleError::MalformedData);
                },
            };
            (HoldemBridgeEvent::Relocate { players }, pos)
        } else if tag == 2 {
            (HoldemBridgeEvent::CloseTable, pos)
        } else if tag == 3 {
            let (hand_id, pos) = match read_u64(bytes, pos) {
                Some(x) => x,
                None => {
                    return Err(HandleError::MalformedData);
                },
            };
            let (table_id, pos) = match read_u8(bytes, pos) {
                Some(x) => x,
                None => {
                    return Err(HandleError::MalformedData);
                },
            };
            let (settles, pos) = match read_settles(bytes, pos) {
                Some(x) => x,
                None => {
                    return Err(HandleError::MalformedData);
                },
            };
            let (checkpoint, pos) = match read_table(bytes, pos) {
                Some(x) => x,
                None => {
                    return Err(HandleError::MalformedData);
                },
            };
            (HoldemBridgeEvent::GameResult { hand_id, table_id, settles, checkpoint }, pos)
        } else {
            return Err(HandleError::MalformedData);
        };
        if pos == bytes.len() {
            proof {
                assert(bytes@.skip(pos as int) =~= Seq::<u8>::empty());
            }
            Ok(event)
        } else {
            Err(HandleError::MalformedData)
        }
    }
}

} // verus!

