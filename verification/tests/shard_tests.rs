use mtt_table::base::{
    HoldemBridgeEvent, InitTableData, MttTableCheckpoint, MttTablePlayer, Settle,
};
use mtt_table::errors::HandleError;
use mtt_table::shard::{Action, MttTable, WAIT_TIMEOUT_DEFAULT};

fn sample_checkpoint() -> MttTableCheckpoint {
    MttTableCheckpoint {
        hand_id: 0,
        btn: 0,
        sb: 10,
        bb: 20,
        next_game_start: 0,
        players: vec![
            MttTablePlayer::new(1, 10000, 0),
            MttTablePlayer::new(2, 10000, 1),
            MttTablePlayer::new(3, 10000, 2),
        ],
    }
}

fn sample_shard() -> MttTable {
    let init = InitTableData { table_id: 1, table_size: 6 }.try_to_vec();
    let cp = sample_checkpoint().try_to_vec();
    let (shard, _) = MttTable::init_state(&init, &cp).unwrap();
    shard
}

#[test]
fn test_init_state() {
    let init = InitTableData { table_id: 1, table_size: 6 }.try_to_vec();
    let cp_bytes = sample_checkpoint().try_to_vec();
    let (shard, actions) = MttTable::init_state(&init, &cp_bytes).unwrap();
    assert_eq!(shard.table_id, 1);
    assert_eq!(shard.table_size, 6);
    assert_eq!(shard.table.players, sample_checkpoint().players);
    assert_eq!(shard.table.sb, 10);
    assert_eq!(shard.table.bb, 20);
    assert_eq!(actions, vec![Action::StartGame]);
}

#[test]
fn init_without_checkpoint_is_fatal() {
    let init = InitTableData { table_id: 1, table_size: 6 }.try_to_vec();
    let empty: Vec<u8> = vec![];
    assert_eq!(MttTable::init_state(&init, &empty), Err(HandleError::MissingCheckpoint));
}

#[test]
fn init_with_malformed_data_fails() {
    let cp = sample_checkpoint().try_to_vec();
    let bad_init = vec![1u8];
    assert_eq!(MttTable::init_state(&bad_init, &cp), Err(HandleError::MalformedData));
    let init = InitTableData { table_id: 1, table_size: 6 }.try_to_vec();
    let bad_cp = vec![1u8, 2, 3];
    assert_eq!(MttTable::init_state(&init, &bad_cp), Err(HandleError::MalformedData));
}

#[test]
fn start_game_removes_movers_and_updates_blinds() {
    let mut shard = sample_shard();
    let event = HoldemBridgeEvent::StartGame { sb: 50, bb: 100, moved_players: vec![2] };
    let actions = shard.handle_bridge_event(event, false).unwrap();
    assert!(shard.table.players.iter().all(|p| p.id != 2));
    assert_eq!(shard.table.players.len(), 2);
    assert_eq!(shard.table.sb, 50);
    assert_eq!(shard.table.bb, 100);
    assert_eq!(actions, vec![Action::WaitTimeout(WAIT_TIMEOUT_DEFAULT)]);
}

#[test]
fn relocate_into_forming_table_starts_immediately() {
    let mut shard = sample_shard();
    let event = HoldemBridgeEvent::Relocate { players: vec![MttTablePlayer::new(9, 4000, 0)] };
    let actions = shard.handle_bridge_event(event, true).unwrap();
    assert_eq!(actions, vec![Action::WaitTimeout(0)]);
}

#[test]
fn relocate_into_running_table_waits_its_turn() {
    let mut shard = sample_shard();
    let event = HoldemBridgeEvent::Relocate { players: vec![MttTablePlayer::new(9, 4000, 0)] };
    let actions = shard.handle_bridge_event(event, false).unwrap();
    assert_eq!(actions, vec![]);
    assert_eq!(shard.table.players.len(), 4);
    // seats 0, 1, 2 are taken: the newcomer sits at seat 3 whatever its
    // record asked for
    assert_eq!(shard.table.players[3], MttTablePlayer::new(9, 4000, 3));
}

#[test]
fn relocate_replaces_record_with_same_id() {
    let mut shard = sample_shard();
    let event = HoldemBridgeEvent::Relocate { players: vec![MttTablePlayer::new(2, 777, 5)] };
    shard.handle_bridge_event(event, false).unwrap();
    assert_eq!(shard.table.players.len(), 3);
    let moved: Vec<&MttTablePlayer> =
        shard.table.players.iter().filter(|p| p.id == 2).collect();
    assert_eq!(moved.len(), 1);
    assert_eq!(moved[0].chips, 777);
    // seat 1 freed by the replaced record is the lowest free seat again
    assert_eq!(moved[0].table_position, 1);
}

#[test]
fn close_table_empties_registry() {
    let mut shard = sample_shard();
    let actions = shard.handle_bridge_event(HoldemBridgeEvent::CloseTable, false).unwrap();
    assert_eq!(shard.table.players, vec![]);
    assert_eq!(actions, vec![]);
}

#[test]
fn inbound_game_result_is_rejected() {
    let mut shard = sample_shard();
    let event = HoldemBridgeEvent::GameResult {
        hand_id: 1,
        table_id: 1,
        settles: vec![],
        checkpoint: sample_checkpoint(),
    };
    let r = shard.handle_bridge_event(event, false);
    assert_eq!(r, Err(HandleError::InvalidBridgeEvent));
    assert_eq!(shard.table.players, sample_checkpoint().players);
}

#[test]
fn inbound_game_result_frame_is_rejected() {
    let mut shard = sample_shard();
    let event = HoldemBridgeEvent::GameResult {
        hand_id: 1,
        table_id: 1,
        settles: vec![],
        checkpoint: sample_checkpoint(),
    };
    let raw = event.try_to_vec();
    let r = shard.handle_bridge_message(1, &raw, false);
    assert_eq!(r, Err(HandleError::InvalidBridgeEvent));
}

#[test]
fn bridge_event_for_another_table_changes_nothing() {
    let mut shard = sample_shard();
    let before = shard.clone();
    let raw = HoldemBridgeEvent::CloseTable.try_to_vec();
    let actions = shard.handle_bridge_message(2, &raw, false).unwrap();
    assert_eq!(actions, vec![]);
    assert_eq!(shard, before);
}

#[test]
fn addressed_bridge_frame_is_dispatched() {
    let mut shard = sample_shard();
    let raw = HoldemBridgeEvent::CloseTable.try_to_vec();
    let actions = shard.handle_bridge_message(1, &raw, false).unwrap();
    assert_eq!(actions, vec![]);
    assert_eq!(shard.table.players, vec![]);
}

#[test]
fn malformed_bridge_frame_is_surfaced() {
    let mut shard = sample_shard();
    let raw = vec![0u8, 1, 2];
    let r = shard.handle_bridge_message(1, &raw, false);
    assert_eq!(r, Err(HandleError::MalformedData));
}

#[test]
fn settle_should_emit_game_result() {
    // two players seated with 10000 chips each; the hand moves the whole
    // stack from the first to the second
    let mut shard = sample_shard();
    let registry = vec![MttTablePlayer::new(2, 20000, 1), MttTablePlayer::new(1, 0, 0)];
    let settles = vec![Settle::sub(1, 10000), Settle::add(2, 10000)];
    let actions = shard.handle_settlement(registry, settles.clone());
    assert_eq!(actions.len(), 2);
    let cp = match &actions[0] {
        Action::Checkpoint(cp) => cp.clone(),
        other => panic!("expected a checkpoint instruction, got {:?}", other),
    };
    match &actions[1] {
        Action::BridgeEvent { dest, event } => {
            assert_eq!(*dest, 0);
            match event {
                HoldemBridgeEvent::GameResult { hand_id, table_id, settles: s, checkpoint } => {
                    assert_eq!(*hand_id, 1);
                    assert_eq!(*table_id, 1);
                    assert_eq!(*s, settles);
                    // the persisted checkpoint and the reported one are the
                    // same value
                    assert_eq!(*checkpoint, cp);
                },
                other => panic!("expected a game result, got {:?}", other),
            }
        },
        other => panic!("expected a bridge event instruction, got {:?}", other),
    }
    assert_eq!(shard.table.hand_id, 1);
    // canonical order: ascending id, whatever order the registry came in
    assert_eq!(
        cp.players,
        vec![MttTablePlayer::new(1, 0, 0), MttTablePlayer::new(2, 20000, 1)]
    );
}

#[test]
fn checkpoint_order_ignores_registry_order() {
    let mut shard_a = sample_shard();
    let mut shard_b = sample_shard();
    let settles: Vec<Settle> = vec![];
    let a1 = shard_a.handle_settlement(
        vec![MttTablePlayer::new(5, 100, 1), MttTablePlayer::new(2, 50, 0)],
        settles.clone(),
    );
    let b1 = shard_b.handle_settlement(
        vec![MttTablePlayer::new(2, 50, 0), MttTablePlayer::new(5, 100, 1)],
        settles,
    );
    let cp_a = match &a1[0] {
        Action::Checkpoint(cp) => cp.clone(),
        other => panic!("expected a checkpoint instruction, got {:?}", other),
    };
    let cp_b = match &b1[0] {
        Action::Checkpoint(cp) => cp.clone(),
        other => panic!("expected a checkpoint instruction, got {:?}", other),
    };
    assert_eq!(cp_a, cp_b);
    assert_eq!(cp_a.players[0].id, 2);
    assert_eq!(cp_a.players[1].id, 5);
}

#[test]
fn settlement_checkpoint_round_trips() {
    let mut shard = sample_shard();
    let actions =
        shard.handle_settlement(vec![MttTablePlayer::new(1, 30000, 0)], vec![Settle::add(1, 0)]);
    let cp = match &actions[0] {
        Action::Checkpoint(cp) => cp.clone(),
        other => panic!("expected a checkpoint instruction, got {:?}", other),
    };
    let bytes = cp.try_to_vec();
    assert_eq!(MttTableCheckpoint::try_from_slice(&bytes).unwrap(), cp);
}

#[test]
fn seats_stay_unique_across_relocations() {
    let mut shard = sample_shard();
    shard
        .handle_bridge_event(
            HoldemBridgeEvent::StartGame { sb: 20, bb: 40, moved_players: vec![2] },
            false,
        )
        .unwrap();
    shard
        .handle_bridge_event(
            HoldemBridgeEvent::Relocate {
                players: vec![MttTablePlayer::new(7, 500, 0), MttTablePlayer::new(8, 600, 0)],
            },
            false,
        )
        .unwrap();
    let ps = &shard.table.players;
    for i in 0..ps.len() {
        for j in 0..ps.len() {
            if i != j {
                assert_ne!(ps[i].table_position, ps[j].table_position);
                assert_ne!(ps[i].id, ps[j].id);
            }
        }
    }
}
