use std::collections::VecDeque;

use netcode::game::ReconcileError;
use netcode::player::{GRAVITY_STEP, GROUND_Y, LAUNCH_VELOCITY, MAX_X, MOVE_STEP};
use netcode::{
    frames_from_parts, intents_from_keys, intents_from_tags, Accumulator, Buffer, CommandFrame, Game, InboundQueue, NetType, Player,
    PlayerIntent, Role, Tick, TICK_MICROS,
};

fn frame(owner: u8, intents: Vec<PlayerIntent>) -> CommandFrame {
    CommandFrame { owner, intents }
}

fn same_frames(a: &[CommandFrame], b: &[CommandFrame]) -> bool {
    a.len() == b.len()
        && a.iter().zip(b.iter()).all(|(x, y)| x.owner == y.owner && x.intents == y.intents)
}

fn encode<T: NetType>(value: &T) -> Vec<u8> {
    let mut buffer = Buffer::new();
    value.to_bytes(&mut buffer);
    buffer.into_iter().collect()
}

#[test]
fn intent_tags_are_canonical() {
    assert_eq!(encode(&PlayerIntent::MoveLeft), vec![0]);
    assert_eq!(encode(&PlayerIntent::MoveRight), vec![1]);
    assert_eq!(encode(&PlayerIntent::Jump), vec![2]);
}

#[test]
fn intent_round_trip() {
    for v in [PlayerIntent::MoveLeft, PlayerIntent::MoveRight, PlayerIntent::Jump] {
        let mut buffer: Buffer = encode(&v).into_iter().collect();
        buffer.push_back(9);
        assert_eq!(PlayerIntent::from_bytes(&mut buffer), Ok(v));
        assert_eq!(buffer, VecDeque::from(vec![9]));
    }
}

#[test]
fn intent_decode_rejects_empty_and_unknown_tags() {
    let mut empty = Buffer::new();
    assert_eq!(PlayerIntent::from_bytes(&mut empty), Err(()));
    let mut unknown: Buffer = VecDeque::from(vec![3]);
    assert_eq!(PlayerIntent::from_bytes(&mut unknown), Err(()));
}

#[test]
fn frame_round_trip_keeps_intent_order() {
    let f = frame(42, vec![PlayerIntent::Jump, PlayerIntent::MoveLeft, PlayerIntent::Jump]);
    let bytes = encode(&f);
    assert_eq!(bytes, vec![42, 3, 2, 0, 2]);
    let mut buffer: Buffer = bytes.into_iter().collect();
    let g = CommandFrame::from_bytes(&mut buffer).unwrap();
    assert_eq!(g.owner, 42);
    assert_eq!(g.intents, f.intents);
    assert!(buffer.is_empty());
}

#[test]
fn frame_round_trip_with_the_largest_count() {
    let f = frame(1, vec![PlayerIntent::MoveRight; 255]);
    let mut buffer: Buffer = encode(&f).into_iter().collect();
    let g = CommandFrame::from_bytes(&mut buffer).unwrap();
    assert_eq!(g.intents.len(), 255);
    assert_eq!(g.intents, f.intents);
}

#[test]
fn frame_decode_rejects_truncated_input() {
    for bytes in [vec![], vec![1], vec![1, 2, 0], vec![1, 1, 7]] {
        let mut buffer: Buffer = bytes.into_iter().collect();
        assert!(CommandFrame::from_bytes(&mut buffer).is_err());
    }
}

#[test]
fn tick_encoding_is_the_fixed_byte_sequence() {
    let t = Tick::new(5, vec![frame(3, vec![PlayerIntent::MoveLeft, PlayerIntent::Jump])]);
    assert_eq!(encode(&t), vec![5, 0, 0, 0, 0, 0, 0, 0, 1, 3, 2, 0, 2]);
}

#[test]
fn tick_checksum_is_sha256_of_the_canonical_bytes() {
    let t = Tick::new(5, vec![frame(3, vec![PlayerIntent::MoveLeft, PlayerIntent::Jump])]);
    let expected: [u8; 32] = [
        246, 120, 73, 252, 74, 227, 183, 63, 43, 46, 175, 182, 182, 177, 7, 228, 93, 94, 141,
        227, 248, 156, 245, 159, 85, 217, 46, 151, 107, 121, 54, 52,
    ];
    assert_eq!(t.hash, expected);
}

#[test]
fn tick_checksum_recomputes_and_detects_mutation() {
    let mut t = Tick::new(0, vec![frame(7, vec![PlayerIntent::MoveRight])]);
    let original = t.hash;
    let mut again = t.clone();
    again.recalculate_hash();
    assert_eq!(again.hash, original);
    let expected: [u8; 32] = [
        93, 17, 77, 47, 73, 45, 162, 79, 210, 39, 47, 42, 102, 112, 211, 138, 248, 127, 31,
        158, 125, 151, 86, 171, 151, 253, 185, 6, 81, 86, 174, 145,
    ];
    assert_eq!(original, expected);
    t.command_frames[0].intents.push(PlayerIntent::Jump);
    let mut fresh = t.clone();
    fresh.recalculate_hash();
    assert_ne!(fresh.hash, t.hash);
}

#[test]
fn tick_round_trip() {
    let t = Tick::new(
        0x0102_0304_0506_0708,
        vec![frame(1, vec![PlayerIntent::Jump]), frame(9, vec![]), frame(4, vec![PlayerIntent::MoveLeft])],
    );
    let mut buffer: Buffer = encode(&t).into_iter().collect();
    buffer.push_back(77);
    let u = Tick::from_bytes(&mut buffer).unwrap();
    assert_eq!(u.index, t.index);
    assert!(same_frames(&u.command_frames, &t.command_frames));
    assert_eq!(u.hash, t.hash);
    assert_eq!(buffer, VecDeque::from(vec![77]));
}

#[test]
fn tick_decode_rejects_truncated_and_malformed_input() {
    let t = Tick::new(2, vec![frame(1, vec![PlayerIntent::Jump, PlayerIntent::MoveRight])]);
    let bytes = encode(&t);
    for cut in 0..bytes.len() {
        let mut buffer: Buffer = bytes[..cut].iter().copied().collect();
        assert!(Tick::from_bytes(&mut buffer).is_err());
    }
    let mut bad = bytes.clone();
    bad[11] = 5;
    let mut buffer: Buffer = bad.into_iter().collect();
    assert!(Tick::from_bytes(&mut buffer).is_err());
}

#[test]
fn prediction_copies_remote_frames_and_replaces_the_local_one() {
    let a: u8 = 1;
    let b: u8 = 2;
    let mut game = Game::new(a);
    let first = game.predict_tick(vec![PlayerIntent::MoveRight]);
    assert_eq!(first.index, 0);
    assert!(same_frames(&first.command_frames, &[frame(a, vec![PlayerIntent::MoveRight])]));

    let remote = vec![frame(a, vec![PlayerIntent::MoveRight]), frame(b, vec![PlayerIntent::Jump])];
    let sent = game.step(vec![PlayerIntent::MoveRight], &remote);
    assert_eq!(sent.index, 0);
    assert!(same_frames(&sent.command_frames, &first.command_frames));
    assert!(same_frames(&game.ticks()[0].command_frames, &remote));

    let next = game.predict_tick(vec![PlayerIntent::MoveLeft]);
    assert_eq!(next.index, 1);
    assert!(same_frames(
        &next.command_frames,
        &[frame(b, vec![PlayerIntent::Jump]), frame(a, vec![PlayerIntent::MoveLeft])]
    ));
    assert_eq!(next.hash, Tick::new(1, next.command_frames.clone()).hash);
}

#[test]
fn jump_then_one_step_of_physics() {
    let mut p = Player::local();
    p.grounded = true;
    assert_eq!(p.y, 0);
    p.execute_intent(&PlayerIntent::Jump);
    assert_eq!(p.vertical_velocity, LAUNCH_VELOCITY);
    assert!(!p.grounded);
    p.update_physics();
    assert_eq!(p.y, LAUNCH_VELOCITY);
    assert_eq!(p.vertical_velocity, LAUNCH_VELOCITY + GRAVITY_STEP);
    assert_eq!(LAUNCH_VELOCITY, -250_000);
    assert_eq!(GRAVITY_STEP, 24_525);
}

#[test]
fn jump_in_the_air_does_nothing() {
    let mut p = Player::enemy();
    let before = p;
    p.execute_intent(&PlayerIntent::Jump);
    assert_eq!(p, before);
}

#[test]
fn moves_are_clamped_to_the_playfield() {
    let mut p = Player::local();
    p.execute_intent(&PlayerIntent::MoveLeft);
    assert_eq!(p.x, 0);
    p.execute_intent(&PlayerIntent::MoveRight);
    assert_eq!(p.x, MOVE_STEP);
    for _ in 0..40 {
        p.execute_intent(&PlayerIntent::MoveRight);
    }
    assert_eq!(p.x, MAX_X);
}

#[test]
fn falling_player_lands_on_the_ground() {
    let mut p = Player::enemy();
    for _ in 0..200 {
        p.update_physics();
    }
    assert_eq!(p.y, GROUND_Y);
    assert_eq!(p.vertical_velocity, 0);
    assert!(p.grounded);
}

#[test]
fn simulate_snapshots_applies_and_integrates_every_player() {
    let mut game = Game::new(1);
    let tick = Tick::new(0, vec![frame(5, vec![PlayerIntent::MoveRight, PlayerIntent::MoveRight])]);
    game.simulate(&tick);
    let local = game.player(1).unwrap();
    assert_eq!(local.role, Role::Local);
    assert_eq!(local.x, 0);
    assert_eq!(local.vertical_velocity, GRAVITY_STEP);
    let remote = game.player(5).unwrap();
    assert_eq!(remote.role, Role::Enemy);
    assert_eq!(remote.x, 2 * MOVE_STEP);
    assert_eq!(remote.last_tick_x, 0);
    assert_eq!(remote.vertical_velocity, GRAVITY_STEP);
    assert!(game.player(6).is_none());
    game.simulate(&Tick::new(1, vec![]));
    let remote = game.player(5).unwrap();
    assert_eq!(remote.last_tick_x, 2 * MOVE_STEP);
    assert_eq!(remote.y, GRAVITY_STEP);
}

#[test]
fn step_indices_increase_by_one_from_zero() {
    let mut game = Game::new(3);
    for i in 0..10u64 {
        let sent = game.step(vec![], &vec![]);
        assert_eq!(sent.index, i);
    }
    let indices: Vec<u64> = game.ticks().iter().map(|t| t.index).collect();
    assert_eq!(indices, (0..10).collect::<Vec<u64>>());
}

#[test]
fn step_ignores_inbound_frames_of_the_local_client() {
    let mut game = Game::new(3);
    game.step(vec![PlayerIntent::Jump], &vec![frame(3, vec![PlayerIntent::MoveLeft])]);
    assert!(same_frames(&game.ticks()[0].command_frames, &[frame(3, vec![PlayerIntent::Jump])]));
}

#[test]
fn confirm_checks_the_checksum() {
    let mut game = Game::new(3);
    game.step(vec![], &vec![]);
    game.step(vec![], &vec![]);
    game.step(vec![], &vec![]);
    assert_eq!(game.divergence(), 2);
    let good = game.ticks()[1].hash;
    let mut bad = good;
    bad[0] ^= 1;
    assert_eq!(game.confirm(1, &bad), Err(ReconcileError::IntegrityMismatch));
    assert_eq!(game.accepted_head(), 0);
    assert_eq!(game.confirm(7, &good), Err(ReconcileError::UnknownTick));
    assert_eq!(game.confirm(1, &good), Ok(()));
    assert_eq!(game.accepted_head(), 1);
    assert_eq!(game.divergence(), 1);
    let first = game.ticks()[0].hash;
    assert_eq!(game.confirm(0, &first), Ok(()));
    assert_eq!(game.accepted_head(), 1);
}

#[test]
fn divergence_is_zero_without_history() {
    let game = Game::new(0);
    assert_eq!(game.divergence(), 0);
    assert_eq!(game.client_id(), 0);
}

#[test]
fn intents_follow_key_order() {
    assert_eq!(
        intents_from_keys(true, true, true),
        vec![PlayerIntent::Jump, PlayerIntent::MoveLeft, PlayerIntent::MoveRight]
    );
    assert_eq!(intents_from_keys(false, false, true), vec![PlayerIntent::MoveRight]);
    assert!(intents_from_keys(false, false, false).is_empty());
}

#[test]
fn queue_drains_every_pushed_item_once() {
    let mut q: InboundQueue<u32> = InboundQueue::new();
    let mut drained: Vec<u32> = Vec::new();
    for i in 0..10u32 {
        q.push(i);
        if i % 3 == 2 {
            drained.extend(q.drain());
        }
    }
    assert_eq!(q.len(), 1);
    drained.extend(q.drain());
    assert_eq!(drained, (0..10).collect::<Vec<u32>>());
    assert!(q.drain().is_empty());
}

#[test]
fn accumulator_runs_every_owed_step() {
    let mut acc = Accumulator::new();
    assert_eq!(acc.advance(TICK_MICROS - 1), 0);
    assert_eq!(acc.owed_micros(), TICK_MICROS - 1);
    assert_eq!(acc.advance(1), 1);
    assert_eq!(acc.owed_micros(), 0);
    assert_eq!(acc.advance(7 * TICK_MICROS + 30), 7);
    assert_eq!(acc.owed_micros(), 30);
    assert_eq!(acc.advance(u64::MAX) as u128, (30 + u64::MAX as u128) / TICK_MICROS as u128);
}

#[test]
fn intents_from_tags_decodes_or_refuses() {
    assert_eq!(
        intents_from_tags(&vec![2, 0, 1]),
        Some(vec![PlayerIntent::Jump, PlayerIntent::MoveLeft, PlayerIntent::MoveRight])
    );
    assert_eq!(intents_from_tags(&vec![]), Some(vec![]));
    assert_eq!(intents_from_tags(&vec![0, 3]), None);
}

#[test]
fn frames_from_parts_pairs_ids_with_intents() {
    let frames = frames_from_parts(&vec![4, 9], &vec![vec![1], vec![2, 2]]).unwrap();
    assert!(same_frames(
        &frames,
        &[frame(4, vec![PlayerIntent::MoveRight]), frame(9, vec![PlayerIntent::Jump, PlayerIntent::Jump])]
    ));
    assert!(frames_from_parts(&vec![4], &vec![]).is_err());
    assert!(frames_from_parts(&vec![4, 9], &vec![vec![1], vec![7]]).is_err());
}

#[test]
fn step_merges_remote_frames_by_owner() {
    let mut game = Game::new(1);
    game.step(vec![], &vec![frame(2, vec![PlayerIntent::MoveLeft])]);
    game.step(
        vec![PlayerIntent::MoveRight],
        &vec![frame(3, vec![PlayerIntent::Jump]), frame(2, vec![PlayerIntent::MoveRight])],
    );
    assert!(same_frames(
        &game.ticks()[1].command_frames,
        &[
            frame(2, vec![PlayerIntent::MoveRight]),
            frame(1, vec![PlayerIntent::MoveRight]),
            frame(3, vec![PlayerIntent::Jump]),
        ]
    ));
    let recorded = &game.ticks()[1];
    assert_eq!(recorded.hash, Tick::new(1, recorded.command_frames.clone()).hash);
}
