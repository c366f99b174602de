use lib::client::Phase;
use lib::session::{
    attack_packet, chat_packet, dig_packet, eat_packet, held_packet, move_packet, next_frame, packet_fits,
    packet_of_frame, place_packet, respawn_packet, FrameSplit, SB_CHAT_COMMAND, SB_CHAT_MESSAGE,
};
use lib::session::{
    handle_step, packet_frame, ClientAction, ClientState, CB_ENTITY_DESTROY, CB_GAME_STATE_CHANGE,
    CB_KEEP_ALIVE, CB_KICK_DISCONNECT, CB_LOGIN, CB_MAP_CHUNK, CB_PLAYER_INFO, CB_PLAYER_REMOVE,
    CB_POSITION, CB_RESPAWN, CB_UNLOAD_CHUNK, CB_UPDATE_HEALTH, SB_KEEP_ALIVE, SB_TELEPORT_CONFIRM,
};

fn login_payload(id: i32, gm: u8) -> Vec<u8> {
    let mut p = Vec::new();
    p.extend_from_slice(&id.to_be_bytes());
    p.push(0); // hardcore
    p.push(1); // one world name
    p.extend_from_slice(&[9]);
    p.extend_from_slice(b"overworld");
    p.extend_from_slice(&[20, 10, 10]); // max players, view, simulation
    p.extend_from_slice(&[0, 1, 0]); // three flags
    p.push(0); // dimension type
    p.extend_from_slice(&[9]);
    p.extend_from_slice(b"overworld");
    p.extend_from_slice(&7i64.to_be_bytes());
    p.push(gm);
    p
}

/// A chunk packet whose 24 sections each hold one block state.
fn chunk_payload(cx: i32, cz: i32) -> Vec<u8> {
    let mut data = Vec::new();
    for _ in 0..24 {
        data.extend_from_slice(&[0, 0, 0, 1, 0, 0, 0, 0]);
    }
    let mut p = Vec::new();
    p.extend_from_slice(&cx.to_be_bytes());
    p.extend_from_slice(&cz.to_be_bytes());
    p.extend_from_slice(&[0x0A, 0x00]); // empty heightmaps
    p.push((data.len() & 0x7F) as u8 | 0x80);
    p.push(((data.len() >> 7) & 0x7F) as u8);
    p.extend_from_slice(&data);
    p
}

#[test]
fn packets_before_login_wait_in_the_backlog() {
    let st = ClientState::new(2);
    let (st, acts) = handle_step(st, CB_KEEP_ALIVE, &[0, 0, 0, 0, 0, 0, 0, 9]);
    assert!(acts.is_empty());
    assert_eq!(st.backlog.len(), 1);
    assert!(st.phase == Phase::Connecting);
    let (st, acts) = handle_step(st, CB_LOGIN, &login_payload(42, 0));
    assert!(st.phase == Phase::Downloading);
    assert_eq!(st.id, 42);
    assert!(!st.creative);
    assert!(st.backlog.is_empty());
    assert_eq!(acts.len(), 1);
    match &acts[0] {
        ClientAction::Send(id, p) => {
            assert_eq!(*id, SB_KEEP_ALIVE);
            assert_eq!(p, &vec![0, 0, 0, 0, 0, 0, 0, 9]);
        }
        _ => panic!("keep-alive answer expected"),
    }
}

#[test]
fn chunks_count_up_to_playing() {
    let st = ClientState::new(2);
    let (st, _) = handle_step(st, CB_LOGIN, &login_payload(1, 1));
    assert!(st.creative);
    let (st, acts) = handle_step(st, CB_MAP_CHUNK, &chunk_payload(3, -4));
    assert_eq!(st.chunks_have, 1);
    assert!(st.phase == Phase::Downloading);
    assert_eq!(acts.len(), 1);
    match &acts[0] {
        ClientAction::LoadChunk(x, z, secs) => {
            assert_eq!((*x, *z), (3, -4));
            assert_eq!(secs.len(), 24);
            assert!(secs.iter().all(|s| s.len() == 4096 && s.iter().all(|&v| v == 1)));
        }
        _ => panic!("chunk expected"),
    }
    let (st, acts) = handle_step(st, CB_MAP_CHUNK, &[1, 2]);
    assert_eq!(st.chunks_have, 2);
    assert!(st.phase == Phase::Playing);
    assert_eq!(acts.len(), 1);
    assert!(matches!(acts[0], ClientAction::EnterWorld));
}

#[test]
fn position_is_confirmed() {
    let st = ClientState::new(1);
    let (st, _) = handle_step(st, CB_LOGIN, &login_payload(1, 1));
    let mut p = Vec::new();
    p.extend_from_slice(&1.5f64.to_bits().to_be_bytes());
    p.extend_from_slice(&64.0f64.to_bits().to_be_bytes());
    p.extend_from_slice(&(-2.0f64).to_bits().to_be_bytes());
    p.extend_from_slice(&90.0f32.to_bits().to_be_bytes());
    p.extend_from_slice(&0.0f32.to_bits().to_be_bytes());
    p.push(0);
    p.extend_from_slice(&[0xAC, 0x02]); // teleport id 300
    let (_st, acts) = handle_step(st, CB_POSITION, &p);
    assert_eq!(acts.len(), 2);
    match &acts[0] {
        ClientAction::Send(id, body) => {
            assert_eq!(*id, SB_TELEPORT_CONFIRM);
            assert_eq!(body, &vec![0xAC, 0x02]);
        }
        _ => panic!("confirmation expected"),
    }
    match &acts[1] {
        ClientAction::SetPosition { x_bits, y_bits, z_bits, yaw_bits, .. } => {
            assert_eq!(f64::from_bits(*x_bits), 1.5);
            assert_eq!(f64::from_bits(*y_bits), 64.0);
            assert_eq!(f64::from_bits(*z_bits), -2.0);
            assert_eq!(f32::from_bits(*yaw_bits), 90.0);
        }
        _ => panic!("position expected"),
    }
    // cut short: y reads as 80
    let st = ClientState::new(1);
    let (st, _) = handle_step(st, CB_LOGIN, &login_payload(1, 1));
    let (_st, acts) = handle_step(st, CB_POSITION, &[]);
    match &acts[1] {
        ClientAction::SetPosition { y_bits, .. } => assert_eq!(f64::from_bits(*y_bits), 80.0),
        _ => panic!("position expected"),
    }
}

#[test]
fn player_list_and_entities() {
    let st = ClientState::new(1);
    let (mut st, _) = handle_step(st, CB_LOGIN, &login_payload(1, 1));
    let uuid = [7u8; 16];
    let mut p = vec![0x01, 1];
    p.extend_from_slice(&uuid);
    p.push(5);
    p.extend_from_slice(b"Alice");
    p.extend_from_slice(&[0, 1, 0]); // no properties, game mode, ping
    let (st2, _) = handle_step(st, CB_PLAYER_INFO, &p);
    st = st2;
    assert_eq!(st.uuid_names.len(), 1);
    assert_eq!(st.uuid_names[0].1, "Alice");
    st.note_player(12, &uuid);
    st.note_player(12, &uuid);
    assert_eq!(st.players, vec![(12u32, "Alice".to_string())]);
    assert_eq!(st.spawned_players, vec![12u32]);
    let (st, acts) = handle_step(st, CB_ENTITY_DESTROY, &[2, 12, 13]);
    assert!(st.players.is_empty());
    assert!(st.spawned_players.is_empty());
    assert_eq!(acts.len(), 2);
    assert!(matches!(acts[0], ClientAction::RemoveEntity(12)));
    assert!(matches!(acts[1], ClientAction::RemoveEntity(13)));
    let mut rm = vec![1];
    rm.extend_from_slice(&uuid);
    let (st, _) = handle_step(st, CB_PLAYER_REMOVE, &rm);
    assert!(st.uuid_names.is_empty());
}

#[test]
fn health_game_mode_respawn_and_kick() {
    let st = ClientState::new(1);
    let (st, _) = handle_step(st, CB_LOGIN, &login_payload(1, 0));
    let mut h = 0.0f32.to_bits().to_be_bytes().to_vec();
    h.push(6);
    let (st, acts) = handle_step(st, CB_UPDATE_HEALTH, &h);
    assert!(st.dead);
    assert_eq!(st.hunger, 6);
    assert!(matches!(acts[0], ClientAction::Health { hp_bits: 0 }));
    let mut h = 12.5f32.to_bits().to_be_bytes().to_vec();
    h.push(20);
    let (st, _) = handle_step(st, CB_UPDATE_HEALTH, &h);
    assert!(!st.dead);
    let mut h = (-3.0f32).to_bits().to_be_bytes().to_vec();
    h.push(20);
    let (st, _) = handle_step(st, CB_UPDATE_HEALTH, &h);
    assert!(st.dead);
    let (st, acts) = handle_step(st, CB_RESPAWN, &[]);
    assert!(!st.dead);
    assert_eq!(st.hp, 20);
    assert!(matches!(acts[0], ClientAction::Respawned));
    let mut g = vec![3u8];
    g.extend_from_slice(&1.0f32.to_bits().to_be_bytes());
    let (st, _) = handle_step(st, CB_GAME_STATE_CHANGE, &g);
    assert!(st.creative);
    let mut g = vec![3u8];
    g.extend_from_slice(&0.0f32.to_bits().to_be_bytes());
    let (st, _) = handle_step(st, CB_GAME_STATE_CHANGE, &g);
    assert!(!st.creative);
    let (st, acts) = handle_step(st, CB_UNLOAD_CHUNK, &[0, 0, 0, 5, 0, 0, 0, 6]);
    assert!(matches!(acts[0], ClientAction::UnloadChunk(6, 5)));
    let kick = [0x0A, 0x08, 0x00, 0x04, b't', b'e', b'x', b't', 0x00, 0x03, b'b', b'y', b'e', 0x00];
    let (st, _) = handle_step(st, CB_KICK_DISCONNECT, &kick);
    assert_eq!(st.kick.as_deref(), Some("bye"));
    let (st, _) = handle_step(st, CB_KICK_DISCONNECT, &[]);
    assert_eq!(st.kick.as_deref(), Some("expulsé"));
}

#[test]
fn frames_carry_their_length() {
    assert_eq!(packet_frame(0x18, &[1, 2, 3]), vec![4, 0x18, 1, 2, 3]);
    assert_eq!(packet_frame(0x00, &[0xAC, 0x02]), vec![3, 0x00, 0xAC, 0x02]);
    let big = vec![5u8; 200];
    let f = packet_frame(0x38, &big);
    assert_eq!(&f[..3], &[0xC9, 0x01, 0x38]);
    assert_eq!(f.len(), 203);
}

#[test]
fn received_bytes_split_into_frames() {
    assert!(matches!(next_frame(&[]), FrameSplit::Incomplete));
    assert!(matches!(next_frame(&[3, 1, 2]), FrameSplit::Incomplete));
    assert!(matches!(next_frame(&[3, 1, 2, 3, 9]), FrameSplit::Frame(1, 3)));
    assert!(matches!(next_frame(&[0, 1]), FrameSplit::Invalid));
    assert!(matches!(next_frame(&[0x80, 0x80, 0x80, 0x08]), FrameSplit::Invalid));
    assert!(matches!(next_frame(&[0x80]), FrameSplit::Incomplete));
    let (pid, payload) = packet_of_frame(&[0x26, 1, 2]);
    assert_eq!((pid, payload), (0x26, vec![1, 2]));
    assert!(!packet_fits(&[0x80, 0x80]));
    assert!(packet_fits(&[0x00]));
    assert_eq!(packet_of_frame(&[0x00]), (0, vec![]));
}

#[test]
fn play_packets_are_built() {
    let (pid, p) = chat_packet("/time set day");
    assert_eq!(pid, SB_CHAT_COMMAND);
    let mut want = vec![12u8];
    want.extend_from_slice(b"time set day");
    assert_eq!(p, want);
    let (pid, p) = chat_packet("hi");
    assert_eq!(pid, SB_CHAT_MESSAGE);
    assert_eq!(p, vec![2, b'h', b'i', 0, 0, 0, 0, 0, 0, 0, 0, 0, 0, 0, 0, 0, 0, 0, 0, 0, 0, 0, 0, 0]);
    let (_, p) = dig_packet(1, 2, 3);
    assert_eq!(p.len(), 11);
    assert_eq!(p[0], 0);
    let (_, p) = place_packet(0, 64, 0);
    assert_eq!(&p[10..14], &0.5f32.to_be_bytes());
    assert_eq!(held_packet(12).0, 8);
    assert_eq!(held_packet(3).2, vec![0, 3]);
    assert_eq!(attack_packet(300).1, vec![0xAC, 0x02, 1, 0]);
    assert_eq!(eat_packet().1, vec![0, 0]);
    assert_eq!(respawn_packet().1, vec![0]);
    let (_, p) = move_packet(1.0f64.to_bits(), 2.0f64.to_bits(), 3.0f64.to_bits(), 0, 0, true);
    assert_eq!(p.len(), 33);
    assert_eq!(&p[8..16], &2.0f64.to_be_bytes());
    assert_eq!(p[32], 1);
}
