use mtt_table::base::{
    HoldemBridgeEvent, InitTableData, MttTableCheckpoint, MttTablePlayer, Settle, SettleOp,
};
use mtt_table::errors::HandleError;

fn sample_checkpoint() -> MttTableCheckpoint {
    MttTableCheckpoint {
        hand_id: 3,
        btn: 1,
        sb: 500,
        bb: 1000,
        next_game_start: 123456789,
        players: vec![
            MttTablePlayer::new(2, 50, 0),
            MttTablePlayer::new(5, 100, 1),
        ],
    }
}

#[test]
fn checkpoint_round_trip() {
    let cp = sample_checkpoint();
    let bytes = cp.try_to_vec();
    let back = MttTableCheckpoint::try_from_slice(&bytes).unwrap();
    assert_eq!(back, cp);
}

#[test]
fn empty_checkpoint_round_trip() {
    let cp = MttTableCheckpoint {
        hand_id: 0,
        btn: 0,
        sb: 0,
        bb: 0,
        next_game_start: 0,
        players: vec![],
    };
    let bytes = cp.try_to_vec();
    assert_eq!(bytes.len(), 44);
    let back = MttTableCheckpoint::try_from_slice(&bytes).unwrap();
    assert_eq!(back, cp);
}

#[test]
fn checkpoint_exact_bytes() {
    let cp = MttTableCheckpoint {
        hand_id: 1,
        btn: 2,
        sb: 50,
        bb: 100,
        next_game_start: 0,
        players: vec![MttTablePlayer::new(7, 300, 0)],
    };
    let bytes = cp.try_to_vec();
    let expected: Vec<u8> = vec![
        1, 0, 0, 0, 0, 0, 0, 0, // hand_id
        2, 0, 0, 0, 0, 0, 0, 0, // btn
        50, 0, 0, 0, 0, 0, 0, 0, // sb
        100, 0, 0, 0, 0, 0, 0, 0, // bb
        0, 0, 0, 0, 0, 0, 0, 0, // next_game_start
        1, 0, 0, 0, // player count
        7, 0, 0, 0, 0, 0, 0, 0, // id
        44, 1, 0, 0, 0, 0, 0, 0, // chips = 300
        0, 0, 0, 0, 0, 0, 0, 0, // table_position
    ];
    assert_eq!(bytes, expected);
}

#[test]
fn init_table_data_round_trip() {
    let d = InitTableData { table_id: 3, table_size: 9 };
    let bytes = d.try_to_vec();
    assert_eq!(bytes, vec![3, 9]);
    let back = InitTableData::try_from_slice(&bytes).unwrap();
    assert_eq!(back, d);
}

#[test]
fn init_table_data_rejects_trailing_bytes() {
    let bytes = vec![3, 9, 0];
    assert_eq!(InitTableData::try_from_slice(&bytes), Err(HandleError::MalformedData));
}

#[test]
fn start_game_round_trip() {
    let e = HoldemBridgeEvent::StartGame { sb: 50, bb: 100, moved_players: vec![2, 9] };
    let bytes = e.try_to_vec();
    let back = HoldemBridgeEvent::try_parse(&bytes).unwrap();
    assert_eq!(back, e);
}

#[test]
fn start_game_exact_bytes() {
    let e = HoldemBridgeEvent::StartGame { sb: 50, bb: 100, moved_players: vec![2] };
    let bytes = e.try_to_vec();
    let expected: Vec<u8> = vec![
        0, // tag
        50, 0, 0, 0, 0, 0, 0, 0, // sb
        100, 0, 0, 0, 0, 0, 0, 0, // bb
        1, 0, 0, 0, // count
        2, 0, 0, 0, 0, 0, 0, 0, // moved id
    ];
    assert_eq!(bytes, expected);
}

#[test]
fn relocate_round_trip() {
    let e = HoldemBridgeEvent::Relocate {
        players: vec![MttTablePlayer::new(11, 2000, 4), MttTablePlayer::new(12, 3000, 5)],
    };
    let bytes = e.try_to_vec();
    let back = HoldemBridgeEvent::try_parse(&bytes).unwrap();
    assert_eq!(back, e);
}

#[test]
fn close_table_is_one_tag_byte() {
    let e = HoldemBridgeEvent::CloseTable;
    let bytes = e.try_to_vec();
    assert_eq!(bytes, vec![2]);
    assert_eq!(HoldemBridgeEvent::try_parse(&bytes).unwrap(), HoldemBridgeEvent::CloseTable);
}

#[test]
fn game_result_round_trip() {
    let e = HoldemBridgeEvent::GameResult {
        hand_id: 4,
        table_id: 1,
        settles: vec![Settle::sub(2, 50), Settle::add(5, 50), Settle { id: 9, op: SettleOp::Eject }],
        checkpoint: sample_checkpoint(),
    };
    let bytes = e.try_to_vec();
    let back = HoldemBridgeEvent::try_parse(&bytes).unwrap();
    assert_eq!(back, e);
}

#[test]
fn truncated_payload_is_malformed() {
    let e = HoldemBridgeEvent::StartGame { sb: 50, bb: 100, moved_players: vec![2] };
    let mut bytes = e.try_to_vec();
    bytes.pop();
    assert_eq!(HoldemBridgeEvent::try_parse(&bytes), Err(HandleError::MalformedData));
}

#[test]
fn trailing_byte_is_malformed() {
    let e = HoldemBridgeEvent::CloseTable;
    let mut bytes = e.try_to_vec();
    bytes.push(0);
    assert_eq!(HoldemBridgeEvent::try_parse(&bytes), Err(HandleError::MalformedData));
}

#[test]
fn unknown_tag_is_malformed() {
    let bytes = vec![9u8];
    assert_eq!(HoldemBridgeEvent::try_parse(&bytes), Err(HandleError::MalformedData));
    let empty: Vec<u8> = vec![];
    assert_eq!(HoldemBridgeEvent::try_parse(&empty), Err(HandleError::MalformedData));
}

#[test]
fn settle_tag_three_is_malformed() {
    // id, then an op tag outside the closed set
    let mut bytes = vec![3u8]; // GameResult tag
    bytes.extend_from_slice(&[4, 0, 0, 0, 0, 0, 0, 0]); // hand_id
    bytes.push(1); // table_id
    bytes.extend_from_slice(&[1, 0, 0, 0]); // one settle
    bytes.extend_from_slice(&[2, 0, 0, 0, 0, 0, 0, 0]); // settle id
    bytes.push(3); // bad op tag
    assert_eq!(HoldemBridgeEvent::try_parse(&bytes), Err(HandleError::MalformedData));
}

#[test]
fn layout_matches_reference_encoder() {
    // the wire layout of integers, tuples of integers and length-prefixed
    // lists agrees with the borsh encoder the hosts use
    let cp = sample_checkpoint();
    let mine = cp.try_to_vec();
    let mut reference: Vec<u8> = Vec::new();
    reference.extend(borsh::to_vec(&cp.hand_id).unwrap());
    reference.extend(borsh::to_vec(&cp.btn).unwrap());
    reference.extend(borsh::to_vec(&cp.sb).unwrap());
    reference.extend(borsh::to_vec(&cp.bb).unwrap());
    reference.extend(borsh::to_vec(&cp.next_game_start).unwrap());
    let triples: Vec<(u64, u64, u64)> =
        cp.players.iter().map(|p| (p.id, p.chips, p.table_position)).collect();
    reference.extend(borsh::to_vec(&triples).unwrap());
    assert_eq!(mine, reference);
}

#[test]
fn test_checkpoint() {
    let data = vec![
        1, 0, 0, 0, 0, 0, 0, 0, 0, 32, 161, 7, 0, 0, 0, 0, 0, 64, 66, 15, 0, 0, 0, 0, 0, 0, 0,
        0, 0, 0, 0, 0, 0, 0, 0, 0, 0, 0, 0, 0, 0, 0, 0, 0, 0, 0, 0, 0, 0, 0, 0, 0, 0, 0, 0, 0,
        0, 0, 0, 0, 0, 0, 0, 0, 0, 0, 0, 0, 0, 0, 0, 0, 0, 0, 0, 2, 0, 0, 0, 2, 0, 0, 0, 0, 0, 0,
        0, 2, 0, 0, 0, 0, 0, 0, 0, 224, 63, 238, 5, 0, 0, 0, 0, 0, 0, 0, 0, 0, 0, 0, 0, 0, 0,
        4, 0, 0, 0, 0, 0, 0, 0, 4, 0, 0, 0, 0, 0, 0, 0, 32, 130, 253, 5, 0, 0, 0, 0, 1, 0, 0,
        0, 0, 0, 0, 0, 0, 0, 0, 0, 0, 0, 0, 0, 0, 0, 0, 0, 0, 0, 0, 0, 0, 0, 0, 2, 2, 0, 0, 0,
        0, 0, 0, 0, 0, 0, 0, 0, 0, 0, 0, 0, 0, 0, 0, 0, 0, 0, 0, 0, 0, 0, 0, 0, 0, 0, 0, 0, 0, 0,
        0, 0, 0, 0, 0, 0, 0, 0, 0, 0, 0, 0, 0, 0, 0, 0, 0, 0, 0, 0, 0, 0, 0, 0, 0, 0, 0, 0, 0, 0,
        0, 0, 0,
    ];
    let checkpoint = MttTableCheckpoint::try_from_slice(&data);
    println!("{:?}", checkpoint);
}
