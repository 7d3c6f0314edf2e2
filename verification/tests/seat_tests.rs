use mtt_table::base::{MttTable, MttTableCheckpoint, MttTablePlayer};

fn table_with(players: Vec<MttTablePlayer>) -> MttTable {
    MttTable { hand_id: 0, btn: 0, sb: 10, bb: 20, players, next_game_start: 0 }
}

#[test]
fn lowest_free_seat_fills_gap() {
    // seats {0, 2, 3} occupied: the newcomer takes seat 1
    let mut table = table_with(vec![
        MttTablePlayer::new(1, 100, 0),
        MttTablePlayer::new(2, 100, 2),
        MttTablePlayer::new(3, 100, 3),
    ]);
    let mut p = MttTablePlayer::new(9, 500, 7);
    table.add_player(&mut p);
    assert_eq!(p.table_position, 1);
    assert_eq!(table.players.len(), 4);
    assert_eq!(table.players[3], MttTablePlayer::new(9, 500, 1));
}

#[test]
fn first_player_takes_seat_zero() {
    let mut table = table_with(vec![]);
    let mut p = MttTablePlayer::new(4, 1000, 3);
    table.add_player(&mut p);
    assert_eq!(p.table_position, 0);
}

#[test]
fn dense_table_appends_next_seat() {
    let mut table = table_with(vec![
        MttTablePlayer::new(1, 100, 0),
        MttTablePlayer::new(2, 100, 1),
    ]);
    let mut p = MttTablePlayer::new(3, 100, 0);
    table.add_player(&mut p);
    assert_eq!(p.table_position, 2);
}

#[test]
fn seats_stay_unique_across_adds() {
    let mut table = table_with(vec![]);
    for id in 0..6u64 {
        let mut p = MttTablePlayer::new(id, 100, 9);
        table.add_player(&mut p);
    }
    for i in 0..table.players.len() {
        for j in 0..table.players.len() {
            if i != j {
                assert_ne!(table.players[i].table_position, table.players[j].table_position);
            }
        }
    }
}

#[test]
fn checkpoint_projects_table_fields() {
    let table = table_with(vec![MttTablePlayer::new(8, 700, 0)]);
    let cp = MttTableCheckpoint::new(&table);
    assert_eq!(cp.hand_id, table.hand_id);
    assert_eq!(cp.btn, table.btn);
    assert_eq!(cp.sb, table.sb);
    assert_eq!(cp.bb, table.bb);
    assert_eq!(cp.next_game_start, table.next_game_start);
    assert_eq!(cp.players, table.players);
}

#[test]
fn table_rebuilds_from_checkpoint() {
    let players = vec![MttTablePlayer::new(5, 300, 0), MttTablePlayer::new(6, 400, 1)];
    let cp = MttTableCheckpoint {
        hand_id: 42,
        btn: 1,
        sb: 50,
        bb: 100,
        next_game_start: 777,
        players: players.clone(),
    };
    let table = MttTable::new(&cp, players.clone());
    assert_eq!(table.hand_id, 42);
    assert_eq!(table.btn, 1);
    assert_eq!(table.sb, 50);
    assert_eq!(table.bb, 100);
    assert_eq!(table.next_game_start, 777);
    assert_eq!(table.players, players);
}
