//! What a multiplayer client does with each packet from the server: a step
//! from the session state and one packet to the next state and the actions
//! that the game loop carries out (sending, world edits, entity updates).
use vstd::prelude::*;
use vstd::string::{StrSliceExecFns, StringExecFns};
use crate::bytes::{be_bytes, push_be};
use crate::client::{
    chunk_packet_data, chunk_packet_spec, decode_chunk, sections_scan, vi_or, Phase,
};
use crate::mcproto::{
    be_field, position_word, string_bytes, string_scan, varint_bytes, varint_len, varint_scan, write_varint, R2,
    MAX_PACKET, W2,
};
use crate::text::{chars_of, string_of};
use crate::nbt::{key_pos, nbt_view, parse_network, NbtRdr, NbtV};

verus! {

// ---------------------------------------------------------------- packet ids

/// Clientbound: entity spawned.
pub const CB_SPAWN_ENTITY: i32 = 0x01;
/// Clientbound: one block changed.
pub const CB_BLOCK_CHANGE: i32 = 0x09;
/// Clientbound: disconnected by the server.
pub const CB_KICK_DISCONNECT: i32 = 0x1D;
/// Clientbound: chunk unloaded.
pub const CB_UNLOAD_CHUNK: i32 = 0x21;
/// Clientbound: game state change (game mode among others).
pub const CB_GAME_STATE_CHANGE: i32 = 0x22;
/// Clientbound: keep-alive.
pub const CB_KEEP_ALIVE: i32 = 0x26;
/// Clientbound: chunk data.
pub const CB_MAP_CHUNK: i32 = 0x27;
/// Clientbound: login (play).
pub const CB_LOGIN: i32 = 0x2B;
/// Clientbound: relative entity move.
pub const CB_REL_ENTITY_MOVE: i32 = 0x2E;
/// Clientbound: relative entity move with look.
pub const CB_ENTITY_MOVE_LOOK: i32 = 0x2F;
/// Clientbound: players removed from the list.
pub const CB_PLAYER_REMOVE: i32 = 0x3D;
/// Clientbound: player list update.
pub const CB_PLAYER_INFO: i32 = 0x3E;
/// Clientbound: player position.
pub const CB_POSITION: i32 = 0x40;
/// Clientbound: entities destroyed.
pub const CB_ENTITY_DESTROY: i32 = 0x42;
/// Clientbound: respawn.
pub const CB_RESPAWN: i32 = 0x47;
/// Clientbound: entity head rotation.
pub const CB_ENTITY_HEAD_ROTATION: i32 = 0x48;
/// Clientbound: experience.
pub const CB_EXPERIENCE: i32 = 0x5C;
/// Clientbound: health and food.
pub const CB_UPDATE_HEALTH: i32 = 0x5D;
/// Clientbound: world time.
pub const CB_UPDATE_TIME: i32 = 0x64;
/// Clientbound: system chat message.
pub const CB_SYSTEM_CHAT: i32 = 0x6C;
/// Clientbound: entity teleport.
pub const CB_ENTITY_TELEPORT: i32 = 0x70;
/// Serverbound: teleport confirmation.
pub const SB_TELEPORT_CONFIRM: i32 = 0x00;
/// Serverbound: keep-alive answer.
pub const SB_KEEP_ALIVE: i32 = 0x18;

/// IEEE 754 bits of the f64 80.0, the spawn height read when a position
/// packet is cut short.
pub const F64_BITS_80: u64 = 0x4054_0000_0000_0000;
/// IEEE 754 bits of the f32 20.0, the health read when a health packet is
/// cut short.
pub const F32_BITS_20: u32 = 0x41A0_0000;

// ---------------------------------------------------------------- state

/// The part of a client session that packets decide. Its lists stand for
/// maps and sets: each key occurs once (`state_wf`), which every packet and
/// `note_player` keep (`handle_keeps_wf`, `note_player_keeps_wf`).
pub struct ClientState {
    pub phase: Phase,
    pub chunks_have: u32,
    pub chunks_needed: u32,
    pub id: u32,
    pub creative: bool,
    pub hp: i32,
    pub hunger: i32,
    pub level: u32,
    pub xp: u32,
    pub dead: bool,
    /// Packets received before the login packet, kept to be handled after it.
    pub backlog: Vec<(i32, Vec<u8>)>,
    /// Player names by UUID, from the player list.
    pub uuid_names: Vec<([u8; 16], String)>,
    /// Players in sight: entity id and name.
    pub players: Vec<(u32, String)>,
    /// Entity ids of the players spawned in sight.
    pub spawned_players: Vec<u32>,
    /// Why the server closed the session, once it has.
    pub kick: Option<String>,
}

/// A `ClientState` as plain values.
#[verifier::ext_equal]
pub struct ClientStateV {
    pub phase: Phase,
    pub chunks_have: u32,
    pub chunks_needed: u32,
    pub id: u32,
    pub creative: bool,
    pub hp: i32,
    pub hunger: i32,
    pub level: u32,
    pub xp: u32,
    pub dead: bool,
    pub backlog: Seq<(i32, Seq<u8>)>,
    pub uuid_names: Seq<(Seq<u8>, Seq<char>)>,
    pub players: Seq<(u32, Seq<char>)>,
    pub spawned_players: Seq<u32>,
    pub kick: Option<Seq<char>>,
}

impl View for ClientState {
    type V = ClientStateV;

    open spec fn view(&self) -> ClientStateV {
        ClientStateV {
            phase: self.phase,
            chunks_have: self.chunks_have,
            chunks_needed: self.chunks_needed,
            id: self.id,
            creative: self.creative,
            hp: self.hp,
            hunger: self.hunger,
            level: self.level,
            xp: self.xp,
            dead: self.dead,
            backlog: self.backlog@.map_values(|e: (i32, Vec<u8>)| (e.0, e.1@)),
            uuid_names: self.uuid_names@.map_values(|e: ([u8; 16], String)| (e.0@, e.1@)),
            players: self.players@.map_values(|e: (u32, String)| (e.0, e.1@)),
            spawned_players: self.spawned_players@,
            kick: match self.kick {
                Some(k) => Some(k@),
                None => None,
            },
        }
    }
}

/// What the game loop does after a packet. Floating-point values travel as
/// their IEEE 754 bits.
pub enum ClientAction {
    /// Send packet `id` with this payload.
    Send(i32, Vec<u8>),
    /// Place the player (the position packet).
    SetPosition { x_bits: u64, y_bits: u64, z_bits: u64, yaw_bits: u32, pitch_bits: u32 },
    /// Store the block states of the chunk at (x, z), 24 sections bottom up.
    LoadChunk(i32, i32, Vec<Vec<u32>>),
    /// The world is loaded: put the player at the spawn point, at rest.
    EnterWorld,
    /// Drop the chunk at (x, z).
    UnloadChunk(i32, i32),
    /// Set the block at (x, y, z) to a vanilla block state.
    SetBlock(i32, i32, i32, u32),
    /// An entity appeared.
    SpawnEntity { eid: u32, uuid: [u8; 16], etype: i32, x_bits: u64, y_bits: u64, z_bits: u64, yaw: u8 },
    /// An entity moved to a position.
    MoveEntityTo { eid: u32, x_bits: u64, y_bits: u64, z_bits: u64, yaw: u8 },
    /// An entity moved by a delta in 1/4096 blocks.
    MoveEntityBy { eid: u32, dx: i16, dy: i16, dz: i16, yaw: u8 },
    /// An entity left.
    RemoveEntity(u32),
    /// The world time in ticks.
    DayTime(i64),
    /// A chat line to show.
    Chat(String),
    /// The player's health (the f32 sent by the server).
    Health { hp_bits: u32 },
    /// The player respawned: drop every remote entity.
    Respawned,
}

/// A `ClientAction` as plain values.
pub enum ActionV {
    Send(i32, Seq<u8>),
    SetPosition(u64, u64, u64, u32, u32),
    LoadChunk(i32, i32, Seq<Seq<u32>>),
    EnterWorld,
    UnloadChunk(i32, i32),
    SetBlock(i32, i32, i32, u32),
    SpawnEntity(u32, Seq<u8>, i32, u64, u64, u64, u8),
    MoveEntityTo(u32, u64, u64, u64, u8),
    MoveEntityBy(u32, i16, i16, i16, u8),
    RemoveEntity(u32),
    DayTime(i64),
    Chat(Seq<char>),
    Health(u32),
    Respawned,
}

pub open spec fn action_view(a: ClientAction) -> ActionV {
    match a {
        ClientAction::Send(id, p) => ActionV::Send(id, p@),
        ClientAction::SetPosition { x_bits, y_bits, z_bits, yaw_bits, pitch_bits } => ActionV::SetPosition(
            x_bits,
            y_bits,
            z_bits,
            yaw_bits,
            pitch_bits,
        ),
        ClientAction::LoadChunk(x, z, s) => ActionV::LoadChunk(x, z, s@.map_values(|v: Vec<u32>| v@)),
        ClientAction::EnterWorld => ActionV::EnterWorld,
        ClientAction::UnloadChunk(x, z) => ActionV::UnloadChunk(x, z),
        ClientAction::SetBlock(x, y, z, s) => ActionV::SetBlock(x, y, z, s),
        ClientAction::SpawnEntity { eid, uuid, etype, x_bits, y_bits, z_bits, yaw } => ActionV::SpawnEntity(
            eid,
            uuid@,
            etype,
            x_bits,
            y_bits,
            z_bits,
            yaw,
        ),
        ClientAction::MoveEntityTo { eid, x_bits, y_bits, z_bits, yaw } => ActionV::MoveEntityTo(
            eid,
            x_bits,
            y_bits,
            z_bits,
            yaw,
        ),
        ClientAction::MoveEntityBy { eid, dx, dy, dz, yaw } => ActionV::MoveEntityBy(eid, dx, dy, dz, yaw),
        ClientAction::RemoveEntity(e) => ActionV::RemoveEntity(e),
        ClientAction::DayTime(t) => ActionV::DayTime(t),
        ClientAction::Chat(s) => ActionV::Chat(s@),
        ClientAction::Health { hp_bits } => ActionV::Health(hp_bits),
        ClientAction::Respawned => ActionV::Respawned,
    }
}

pub open spec fn actions_view(v: Seq<ClientAction>) -> Seq<ActionV> {
    v.map_values(|a: ClientAction| action_view(a))
}

fn emit(acts: &mut Vec<ClientAction>, a: ClientAction)
    ensures
        actions_view(final(acts)@) == actions_view(old(acts)@).push(action_view(a)),
{
    let ghost a0 = action_view(a);
    acts.push(a);
    proof {
        assert(actions_view(acts@) =~= actions_view(old(acts)@).push(a0));
    }
}

// ---------------------------------------------------------------- reading

/// A big-endian i32 at `p`, or `d` when the payload ends first.
pub open spec fn i32_or(b: Seq<u8>, p: int, d: i32) -> (i32, int) {
    let (v, q) = be_field(b, p, 4);
    (match v { Some(n) => (n as u32) as i32, None => d }, q)
}

/// A big-endian i64 at `p`, or `d`.
pub open spec fn i64_or(b: Seq<u8>, p: int, d: i64) -> (i64, int) {
    let (v, q) = be_field(b, p, 8);
    (match v { Some(n) => (n as u64) as i64, None => d }, q)
}

/// The 64 bits at `p` (an f64), or `d`.
pub open spec fn u64_or(b: Seq<u8>, p: int, d: u64) -> (u64, int) {
    let (v, q) = be_field(b, p, 8);
    (match v { Some(n) => n as u64, None => d }, q)
}

/// The 32 bits at `p` (an f32), or `d`.
pub open spec fn u32_or(b: Seq<u8>, p: int, d: u32) -> (u32, int) {
    let (v, q) = be_field(b, p, 4);
    (match v { Some(n) => n as u32, None => d }, q)
}

/// A big-endian i16 at `p`, or `d`.
pub open spec fn i16_or(b: Seq<u8>, p: int, d: i16) -> (i16, int) {
    let (v, q) = be_field(b, p, 2);
    (match v { Some(n) => (n as u16) as i16, None => d }, q)
}

/// The byte at `p`, or `d`.
pub open spec fn u8_or(b: Seq<u8>, p: int, d: u8) -> (u8, int) {
    if 0 <= p < b.len() { (b[p], p + 1) } else { (d, p) }
}

/// A boolean byte at `p` (any non-zero byte is true), or `d`.
pub open spec fn bool_or(b: Seq<u8>, p: int, d: bool) -> (bool, int) {
    if 0 <= p < b.len() { (b[p] != 0, p + 1) } else { (d, p) }
}

/// Sixteen zero bytes.
pub open spec fn zero_uuid() -> Seq<u8> {
    Seq::new(16, |i: int| 0u8)
}

/// A UUID at `p`, or sixteen zero bytes.
pub open spec fn uuid_or(b: Seq<u8>, p: int) -> (Seq<u8>, int) {
    if 0 <= p && p + 16 <= b.len() { (b.subrange(p, p + 16), p + 16) } else { (zero_uuid(), p) }
}

/// A protocol string of at most `max` bytes at `p`, or the empty string.
pub open spec fn str_or(b: Seq<u8>, p: int, max: usize) -> (Seq<char>, int) {
    let (v, q) = string_scan(b, p, max);
    (match v { Some(t) => t, None => Seq::empty() }, q)
}

/// The `text` string of a network NBT compound at the start of `b`.
pub open spec fn nbt_text(b: Seq<u8>) -> Option<Seq<char>> {
    match parse_network(b, 0) {
        Some((v, _q)) => match v {
            NbtV::Compound(m) => if key_pos(m, "text"@, 0) >= 0 {
                match m[key_pos(m, "text"@, 0)].1 {
                    NbtV::Str(t) => Some(t),
                    _ => None,
                }
            } else {
                None
            },
            _ => None,
        },
        None => None,
    }
}

fn rd_vi(r: &mut R2, d: i32) -> (v: i32)
    ensures
        final(r).b@ == old(r).b@,
        (v, final(r).p as int) == vi_or(old(r).b@, old(r).p as int, d),
{
    match r.vi() {
        Some(v) => v,
        None => d,
    }
}

fn rd_i32(r: &mut R2, d: i32) -> (v: i32)
    ensures
        final(r).b@ == old(r).b@,
        (v, final(r).p as int) == i32_or(old(r).b@, old(r).p as int, d),
{
    match r.i32v() {
        Some(v) => v,
        None => d,
    }
}

fn rd_i64(r: &mut R2, d: i64) -> (v: i64)
    ensures
        final(r).b@ == old(r).b@,
        (v, final(r).p as int) == i64_or(old(r).b@, old(r).p as int, d),
{
    match r.i64v() {
        Some(v) => v,
        None => d,
    }
}

fn rd_u64(r: &mut R2, d: u64) -> (v: u64)
    ensures
        final(r).b@ == old(r).b@,
        (v, final(r).p as int) == u64_or(old(r).b@, old(r).p as int, d),
{
    match r.f64_bits() {
        Some(v) => v,
        None => d,
    }
}

fn rd_u32(r: &mut R2, d: u32) -> (v: u32)
    ensures
        final(r).b@ == old(r).b@,
        (v, final(r).p as int) == u32_or(old(r).b@, old(r).p as int, d),
{
    match r.f32_bits() {
        Some(v) => v,
        None => d,
    }
}

fn rd_i16(r: &mut R2, d: i16) -> (v: i16)
    ensures
        final(r).b@ == old(r).b@,
        (v, final(r).p as int) == i16_or(old(r).b@, old(r).p as int, d),
{
    match r.i16v() {
        Some(v) => v,
        None => d,
    }
}

fn rd_u8(r: &mut R2, d: u8) -> (v: u8)
    ensures
        final(r).b@ == old(r).b@,
        (v, final(r).p as int) == u8_or(old(r).b@, old(r).p as int, d),
{
    match r.u8v() {
        Some(v) => v,
        None => d,
    }
}

fn rd_bool(r: &mut R2, d: bool) -> (v: bool)
    ensures
        final(r).b@ == old(r).b@,
        (v, final(r).p as int) == bool_or(old(r).b@, old(r).p as int, d),
{
    match r.b() {
        Some(v) => v,
        None => d,
    }
}

fn rd_uuid(r: &mut R2) -> (v: [u8; 16])
    ensures
        final(r).b@ == old(r).b@,
        (v@, final(r).p as int) == uuid_or(old(r).b@, old(r).p as int),
{
    match r.uuid() {
        Some(v) => v,
        None => {
            let z = [0u8; 16];
            assert(z@ =~= zero_uuid());
            z
        },
    }
}

fn rd_str(r: &mut R2, max: usize) -> (v: String)
    ensures
        final(r).b@ == old(r).b@,
        (v@, final(r).p as int) == str_or(old(r).b@, old(r).p as int, max),
{
    match r.s(max) {
        Some(v) => v,
        None => String::new(),
    }
}

/// The `text` of a network NBT compound at the start of `b`.
fn nbt_text_of(b: &[u8]) -> (r: Option<String>)
    ensures
        match nbt_text(b@) {
            Some(t) => r matches Some(s) && s@ == t,
            None => r is None,
        },
{
    let mut nr = NbtRdr::new(b);
    match nr.read_network() {
        Some(n) => match n.get("text") {
            Some(t) => match t.as_str() {
                Some(s) => Some(String::from_str(s)),
                None => None,
            },
            None => None,
        },
        None => None,
    }
}

// ---------------------------------------------------------------- helpers

/// IEEE 754 bits of an f32 at most zero: plus or minus zero, or a negative
/// number (negative infinity included, NaN not).
pub open spec fn f32_at_most_zero(bits: u32) -> bool {
    bits == 0 || (0x8000_0000 <= bits <= 0xFF80_0000)
}

/// IEEE 754 bits of an f32 that truncates to the integer 1: the values from
/// 1.0 up to, not including, 2.0.
pub open spec fn f32_truncates_to_one(bits: u32) -> bool {
    0x3F80_0000 <= bits < 0x4000_0000
}

/// `s` without the occurrences of `e`.
pub open spec fn without_id(s: Seq<u32>, e: u32) -> Seq<u32>
    decreases s.len(),
{
    if s.len() == 0 {
        Seq::empty()
    } else if s.last() == e {
        without_id(s.drop_last(), e)
    } else {
        without_id(s.drop_last(), e).push(s.last())
    }
}

/// `s` without the players whose entity id is `e`.
pub open spec fn without_player(s: Seq<(u32, Seq<char>)>, e: u32) -> Seq<(u32, Seq<char>)>
    decreases s.len(),
{
    if s.len() == 0 {
        Seq::empty()
    } else if s.last().0 == e {
        without_player(s.drop_last(), e)
    } else {
        without_player(s.drop_last(), e).push(s.last())
    }
}

/// The first index from `i` on whose UUID is `u`, or -1.
pub open spec fn uuid_pos(m: Seq<(Seq<u8>, Seq<char>)>, u: Seq<u8>, i: int) -> int
    decreases m.len() - i,
{
    if i < 0 || i >= m.len() {
        -1
    } else if m[i].0 == u {
        i
    } else {
        uuid_pos(m, u, i + 1)
    }
}

/// The names with `u` named `n`: its entry replaced, or a new one at the end.
pub open spec fn names_insert(m: Seq<(Seq<u8>, Seq<char>)>, u: Seq<u8>, n: Seq<char>) -> Seq<(Seq<u8>, Seq<char>)> {
    let i = uuid_pos(m, u, 0);
    if i < 0 { m.push((u, n)) } else { m.update(i, (u, n)) }
}

/// The names without the entry of `u`.
pub open spec fn names_remove(m: Seq<(Seq<u8>, Seq<char>)>, u: Seq<u8>) -> Seq<(Seq<u8>, Seq<char>)> {
    let i = uuid_pos(m, u, 0);
    if i < 0 { m } else { m.remove(i) }
}

fn same_uuid(a: &[u8; 16], b: &[u8; 16]) -> (r: bool)
    ensures
        r == (a@ == b@),
{
    let mut i: usize = 0;
    while i < 16
        invariant
            i <= 16,
            a@.len() == 16,
            b@.len() == 16,
            forall|k: int| 0 <= k < i ==> a@[k] == b@[k],
        decreases 16 - i,
    {
        if a[i] != b[i] {
            return false;
        }
        i += 1;
    }
    assert(a@ =~= b@);
    true
}

fn find_uuid(m: &Vec<([u8; 16], String)>, u: &[u8; 16]) -> (r: Option<usize>)
    ensures
        ({
            let mv = m@.map_values(|e: ([u8; 16], String)| (e.0@, e.1@));
            match r {
                Some(i) => i as int == uuid_pos(mv, u@, 0) && i < m@.len(),
                None => uuid_pos(mv, u@, 0) < 0,
            }
        }),
{
    let ghost mv = m@.map_values(|e: ([u8; 16], String)| (e.0@, e.1@));
    let mut i: usize = 0;
    while i < m.len()
        invariant
            i <= m@.len(),
            mv == m@.map_values(|e: ([u8; 16], String)| (e.0@, e.1@)),
            uuid_pos(mv, u@, 0) == uuid_pos(mv, u@, i as int),
        decreases m.len() - i,
    {
        if same_uuid(&m[i].0, u) {
            return Some(i);
        }
        i += 1;
    }
    None
}

// ---------------------------------------------------------------- one packet

/// The player's position: answered with a teleport confirmation.
pub open spec fn position_step(s: ClientStateV, b: Seq<u8>) -> (ClientStateV, Seq<ActionV>) {
    let (x, p1) = u64_or(b, 0, 0);
    let (y, p2) = u64_or(b, p1, F64_BITS_80);
    let (z, p3) = u64_or(b, p2, 0);
    let (yaw, p4) = u32_or(b, p3, 0);
    let (pitch, p5) = u32_or(b, p4, 0);
    let (_flags, p6) = u8_or(b, p5, 0);
    let (tele, _p7) = vi_or(b, p6, 0);
    (
        ClientStateV {
            phase: if s.phase == Phase::Connecting { Phase::Downloading } else { s.phase },
            ..s
        },
        seq![ActionV::Send(SB_TELEPORT_CONFIRM, varint_bytes(tele as u32)), ActionV::SetPosition(x, y, z, yaw, pitch)],
    )
}

fn on_position(st: &mut ClientState, acts: &mut Vec<ClientAction>, b: &[u8])
    ensures
        final(st)@ == position_step(old(st)@, b@).0,
        actions_view(final(acts)@) == actions_view(old(acts)@) + position_step(old(st)@, b@).1,
{
    let mut r = R2::new(b);
    let x = rd_u64(&mut r, 0);
    let y = rd_u64(&mut r, F64_BITS_80);
    let z = rd_u64(&mut r, 0);
    let yaw = rd_u32(&mut r, 0);
    let pitch = rd_u32(&mut r, 0);
    let _flags = rd_u8(&mut r, 0);
    let tele = rd_vi(&mut r, 0);
    let mut out: Vec<u8> = Vec::new();
    write_varint(&mut out, tele);
    let ghost a0 = actions_view(acts@);
    emit(acts, ClientAction::Send(SB_TELEPORT_CONFIRM, out));
    emit(acts, ClientAction::SetPosition { x_bits: x, y_bits: y, z_bits: z, yaw_bits: yaw, pitch_bits: pitch });
    if st.phase == Phase::Connecting {
        st.phase = Phase::Downloading;
    }
    proof {
        assert(actions_view(acts@) =~= a0 + position_step(old(st)@, b@).1);
        assert(st@ =~= position_step(old(st)@, b@).0);
    }
}

/// A chunk: its sections stored when they decode, the count of chunks
/// received raised, and the world entered once enough have come.
pub open spec fn chunk_step(s: ClientStateV, b: Seq<u8>) -> (ClientStateV, Seq<ActionV>) {
    let (cx, cz, data) = chunk_packet_spec(b);
    let load = match sections_scan(data, 0, 24).0 {
        Some(t) => seq![ActionV::LoadChunk(cx, cz, t)],
        None => Seq::empty(),
    };
    let have = if s.chunks_have < u32::MAX { (s.chunks_have + 1) as u32 } else { s.chunks_have };
    if s.phase == Phase::Downloading && have >= s.chunks_needed {
        (ClientStateV { chunks_have: have, phase: Phase::Playing, ..s }, load.push(ActionV::EnterWorld))
    } else {
        (ClientStateV { chunks_have: have, ..s }, load)
    }
}

fn on_chunk(st: &mut ClientState, acts: &mut Vec<ClientAction>, b: &[u8])
    ensures
        final(st)@ == chunk_step(old(st)@, b@).0,
        actions_view(final(acts)@) == actions_view(old(acts)@) + chunk_step(old(st)@, b@).1,
{
    let ghost a0 = actions_view(acts@);
    let (cx, cz, data) = chunk_packet_data(b);
    match decode_chunk(data.as_slice()) {
        Some(secs) => {
            let ghost t = sections_scan(data@, 0, 24).0->Some_0;
            proof {
                assert(secs@.map_values(|v: Vec<u32>| v@) =~= t);
            }
            emit(acts, ClientAction::LoadChunk(cx, cz, secs));
        },
        None => {},
    }
    if st.chunks_have < u32::MAX {
        st.chunks_have = st.chunks_have + 1;
    }
    if st.phase == Phase::Downloading && st.chunks_have >= st.chunks_needed {
        st.phase = Phase::Playing;
        emit(acts, ClientAction::EnterWorld);
    }
    proof {
        assert(actions_view(acts@) =~= a0 + chunk_step(old(st)@, b@).1);
        assert(st@ =~= chunk_step(old(st)@, b@).0);
    }
}


/// A chunk dropped.
pub open spec fn unload_step(s: ClientStateV, b: Seq<u8>) -> (ClientStateV, Seq<ActionV>) {
    let (cz, p1) = i32_or(b, 0, 0);
    let (cx, _p2) = i32_or(b, p1, 0);
    (s, seq![ActionV::UnloadChunk(cx, cz)])
}

fn on_unload(st: &mut ClientState, acts: &mut Vec<ClientAction>, b: &[u8])
    ensures
        final(st)@ == unload_step(old(st)@, b@).0,
        actions_view(final(acts)@) == actions_view(old(acts)@) + unload_step(old(st)@, b@).1,
{
    let ghost a0 = actions_view(acts@);
    let mut r = R2::new(b);
    let cz = rd_i32(&mut r, 0);
    let cx = rd_i32(&mut r, 0);
    emit(acts, ClientAction::UnloadChunk(cx, cz));
    proof { assert(actions_view(acts@) =~= a0 + unload_step(old(st)@, b@).1); }
}

/// A packed block position at `p` as (x, y, z), or the origin.
pub open spec fn pos_or(b: Seq<u8>, p: int) -> ((i32, i32, i32), int) {
    let (v, q) = be_field(b, p, 8);
    (match v {
        Some(n) => {
            let w = (n as u64) as i64;
            ((w >> 38) as i32, ((w << 52) >> 52) as i32, ((w << 26) >> 38) as i32)
        },
        None => (0i32, 0i32, 0i32),
    }, q)
}

/// One block changed, to a vanilla block state.
pub open spec fn block_step(s: ClientStateV, b: Seq<u8>) -> (ClientStateV, Seq<ActionV>) {
    let (xyz, p1) = pos_or(b, 0);
    let (state, _p2) = vi_or(b, p1, 0);
    (s, seq![ActionV::SetBlock(xyz.0, xyz.1, xyz.2, state as u32)])
}

fn on_block(st: &mut ClientState, acts: &mut Vec<ClientAction>, b: &[u8])
    ensures
        final(st)@ == block_step(old(st)@, b@).0,
        actions_view(final(acts)@) == actions_view(old(acts)@) + block_step(old(st)@, b@).1,
{
    let ghost a0 = actions_view(acts@);
    let mut r = R2::new(b);
    let (x, y, z) = match r.pos() {
        Some(t) => t,
        None => (0, 0, 0),
    };
    let state = rd_vi(&mut r, 0);
    emit(acts, ClientAction::SetBlock(x, y, z, state as u32));
    proof { assert(actions_view(acts@) =~= a0 + block_step(old(st)@, b@).1); }
}

/// An entity appeared (none for entity id 0).
pub open spec fn spawn_step(s: ClientStateV, b: Seq<u8>) -> (ClientStateV, Seq<ActionV>) {
    let (e, p1) = vi_or(b, 0, 0);
    let (u, p2) = uuid_or(b, p1);
    let (etype, p3) = vi_or(b, p2, 0);
    let (x, p4) = u64_or(b, p3, 0);
    let (y, p5) = u64_or(b, p4, 0);
    let (z, p6) = u64_or(b, p5, 0);
    let (_pitch, p7) = u8_or(b, p6, 0);
    let (yaw, _p8) = u8_or(b, p7, 0);
    if e as u32 == 0 {
        (s, Seq::empty())
    } else {
        (s, seq![ActionV::SpawnEntity(e as u32, u, etype, x, y, z, yaw)])
    }
}

fn on_spawn(st: &mut ClientState, acts: &mut Vec<ClientAction>, b: &[u8])
    ensures
        final(st)@ == spawn_step(old(st)@, b@).0,
        actions_view(final(acts)@) == actions_view(old(acts)@) + spawn_step(old(st)@, b@).1,
{
    let ghost a0 = actions_view(acts@);
    let mut r = R2::new(b);
    let e = rd_vi(&mut r, 0);
    let u = rd_uuid(&mut r);
    let etype = rd_vi(&mut r, 0);
    let x = rd_u64(&mut r, 0);
    let y = rd_u64(&mut r, 0);
    let z = rd_u64(&mut r, 0);
    let _pitch = rd_u8(&mut r, 0);
    let yaw = rd_u8(&mut r, 0);
    if e as u32 != 0 {
        emit(acts, ClientAction::SpawnEntity { eid: e as u32, uuid: u, etype, x_bits: x, y_bits: y, z_bits: z, yaw });
    }
    proof { assert(actions_view(acts@) =~= a0 + spawn_step(old(st)@, b@).1); }
}

/// An entity moved: to a position for a teleport, by a delta otherwise.
pub open spec fn move_step(s: ClientStateV, pid: i32, b: Seq<u8>) -> (ClientStateV, Seq<ActionV>) {
    let (e, p1) = vi_or(b, 0, 0);
    if pid == CB_ENTITY_TELEPORT {
        let (x, p2) = u64_or(b, p1, 0);
        let (y, p3) = u64_or(b, p2, 0);
        let (z, p4) = u64_or(b, p3, 0);
        let (yaw, _p5) = u8_or(b, p4, 0);
        (s, seq![ActionV::MoveEntityTo(e as u32, x, y, z, yaw)])
    } else {
        let (dx, p2) = i16_or(b, p1, 0);
        let (dy, p3) = i16_or(b, p2, 0);
        let (dz, p4) = i16_or(b, p3, 0);
        let (yaw, _p5) = u8_or(b, p4, 0);
        (s, seq![ActionV::MoveEntityBy(e as u32, dx, dy, dz, yaw)])
    }
}

fn on_move(st: &mut ClientState, acts: &mut Vec<ClientAction>, pid: i32, b: &[u8])
    ensures
        final(st)@ == move_step(old(st)@, pid, b@).0,
        actions_view(final(acts)@) == actions_view(old(acts)@) + move_step(old(st)@, pid, b@).1,
{
    let ghost a0 = actions_view(acts@);
    let mut r = R2::new(b);
    let e = rd_vi(&mut r, 0);
    if pid == CB_ENTITY_TELEPORT {
        let x = rd_u64(&mut r, 0);
        let y = rd_u64(&mut r, 0);
        let z = rd_u64(&mut r, 0);
        let yaw = rd_u8(&mut r, 0);
        emit(acts, ClientAction::MoveEntityTo { eid: e as u32, x_bits: x, y_bits: y, z_bits: z, yaw });
    } else {
        let dx = rd_i16(&mut r, 0);
        let dy = rd_i16(&mut r, 0);
        let dz = rd_i16(&mut r, 0);
        let yaw = rd_u8(&mut r, 0);
        emit(acts, ClientAction::MoveEntityBy { eid: e as u32, dx, dy, dz, yaw });
    }
    proof { assert(actions_view(acts@) =~= a0 + move_step(old(st)@, pid, b@).1); }
}

/// A keep-alive: its i64 sent back.
pub open spec fn keep_alive_step(s: ClientStateV, b: Seq<u8>) -> (ClientStateV, Seq<ActionV>) {
    let (t, _p1) = i64_or(b, 0, 0);
    (s, seq![ActionV::Send(SB_KEEP_ALIVE, be_bytes((t as u64) as nat, 8))])
}

fn on_keep_alive(st: &mut ClientState, acts: &mut Vec<ClientAction>, b: &[u8])
    ensures
        final(st)@ == keep_alive_step(old(st)@, b@).0,
        actions_view(final(acts)@) == actions_view(old(acts)@) + keep_alive_step(old(st)@, b@).1,
{
    let ghost a0 = actions_view(acts@);
    let mut r = R2::new(b);
    let t = rd_i64(&mut r, 0);
    let mut out: Vec<u8> = Vec::new();
    push_be(&mut out, t as u64, 8);
    assert(out@ =~= be_bytes((t as u64) as nat, 8));
    emit(acts, ClientAction::Send(SB_KEEP_ALIVE, out));
    proof { assert(actions_view(acts@) =~= a0 + keep_alive_step(old(st)@, b@).1); }
}

/// The world time: the second i64 of the packet.
pub open spec fn time_step(s: ClientStateV, b: Seq<u8>) -> (ClientStateV, Seq<ActionV>) {
    let (_age, p1) = i64_or(b, 0, 0);
    let (t, _p2) = i64_or(b, p1, 6000);
    (s, seq![ActionV::DayTime(t)])
}

fn on_time(st: &mut ClientState, acts: &mut Vec<ClientAction>, b: &[u8])
    ensures
        final(st)@ == time_step(old(st)@, b@).0,
        actions_view(final(acts)@) == actions_view(old(acts)@) + time_step(old(st)@, b@).1,
{
    let ghost a0 = actions_view(acts@);
    let mut r = R2::new(b);
    let _age = rd_i64(&mut r, 0);
    let t = rd_i64(&mut r, 6000);
    emit(acts, ClientAction::DayTime(t));
    proof { assert(actions_view(acts@) =~= a0 + time_step(old(st)@, b@).1); }
}

/// A system chat message: its text, when there is some.
pub open spec fn chat_step(s: ClientStateV, b: Seq<u8>) -> (ClientStateV, Seq<ActionV>) {
    match nbt_text(b) {
        Some(t) => if t.len() > 0 { (s, seq![ActionV::Chat(t)]) } else { (s, Seq::empty()) },
        None => (s, Seq::empty()),
    }
}

fn on_chat(st: &mut ClientState, acts: &mut Vec<ClientAction>, b: &[u8])
    ensures
        final(st)@ == chat_step(old(st)@, b@).0,
        actions_view(final(acts)@) == actions_view(old(acts)@) + chat_step(old(st)@, b@).1,
{
    let ghost a0 = actions_view(acts@);
    match nbt_text_of(b) {
        Some(t) => {
            if t.as_str().unicode_len() > 0 {
                emit(acts, ClientAction::Chat(t));
            }
        },
        None => {},
    }
    proof { assert(actions_view(acts@) =~= a0 + chat_step(old(st)@, b@).1); }
}

/// Health and food: the food kept, death decided, the health handed on.
pub open spec fn health_step(s: ClientStateV, b: Seq<u8>) -> (ClientStateV, Seq<ActionV>) {
    let (hp, p1) = u32_or(b, 0, F32_BITS_20);
    let (food, _p2) = vi_or(b, p1, 20);
    (ClientStateV { hunger: food, dead: f32_at_most_zero(hp), ..s }, seq![ActionV::Health(hp)])
}

fn on_health(st: &mut ClientState, acts: &mut Vec<ClientAction>, b: &[u8])
    ensures
        final(st)@ == health_step(old(st)@, b@).0,
        actions_view(final(acts)@) == actions_view(old(acts)@) + health_step(old(st)@, b@).1,
{
    let ghost a0 = actions_view(acts@);
    let mut r = R2::new(b);
    let hp = rd_u32(&mut r, F32_BITS_20);
    let food = rd_vi(&mut r, 20);
    st.hunger = food;
    st.dead = hp == 0 || (0x8000_0000 <= hp && hp <= 0xFF80_0000);
    emit(acts, ClientAction::Health { hp_bits: hp });
    proof {
        assert(actions_view(acts@) =~= a0 + health_step(old(st)@, b@).1);
        assert(st@ =~= health_step(old(st)@, b@).0);
    }
}

/// Experience: level and points.
pub open spec fn experience_step(s: ClientStateV, b: Seq<u8>) -> (ClientStateV, Seq<ActionV>) {
    let (_bar, p1) = u32_or(b, 0, 0);
    let (lv, p2) = vi_or(b, p1, 0);
    let (xp, _p3) = vi_or(b, p2, 0);
    (ClientStateV { level: lv as u32, xp: xp as u32, ..s }, Seq::empty())
}

fn on_experience(st: &mut ClientState, b: &[u8])
    ensures
        final(st)@ == experience_step(old(st)@, b@).0,
{
    let mut r = R2::new(b);
    let _bar = rd_u32(&mut r, 0);
    let lv = rd_vi(&mut r, 0);
    let xp = rd_vi(&mut r, 0);
    st.level = lv as u32;
    st.xp = xp as u32;
    proof { assert(st@ =~= experience_step(old(st)@, b@).0); }
}

/// A respawn: alive at full health, no other player in sight, the world
/// still loaded.
pub open spec fn respawn_step(s: ClientStateV) -> (ClientStateV, Seq<ActionV>) {
    (
        ClientStateV {
            dead: false,
            hp: 20,
            players: Seq::empty(),
            spawned_players: Seq::empty(),
            chunks_have: s.chunks_needed,
            ..s
        },
        seq![ActionV::Respawned],
    )
}

fn on_respawn(st: &mut ClientState, acts: &mut Vec<ClientAction>)
    ensures
        final(st)@ == respawn_step(old(st)@).0,
        actions_view(final(acts)@) == actions_view(old(acts)@) + respawn_step(old(st)@).1,
{
    let ghost a0 = actions_view(acts@);
    st.dead = false;
    st.hp = 20;
    st.players = Vec::new();
    st.spawned_players = Vec::new();
    st.chunks_have = st.chunks_needed;
    emit(acts, ClientAction::Respawned);
    proof {
        assert(actions_view(acts@) =~= a0 + respawn_step(old(st)@).1);
        assert(st@ =~= respawn_step(old(st)@).0);
    }
}

/// A game state change: reason 3 sets the game mode, creative when the value
/// truncates to 1.
pub open spec fn game_state_step(s: ClientStateV, b: Seq<u8>) -> (ClientStateV, Seq<ActionV>) {
    let (reason, p1) = u8_or(b, 0, 0);
    let (val, _p2) = u32_or(b, p1, 0);
    if reason == 3 {
        (ClientStateV { creative: f32_truncates_to_one(val), ..s }, Seq::empty())
    } else {
        (s, Seq::empty())
    }
}

fn on_game_state(st: &mut ClientState, b: &[u8])
    ensures
        final(st)@ == game_state_step(old(st)@, b@).0,
{
    let mut r = R2::new(b);
    let reason = rd_u8(&mut r, 0);
    let val = rd_u32(&mut r, 0);
    if reason == 3 {
        st.creative = 0x3F80_0000 <= val && val < 0x4000_0000;
    }
    proof { assert(st@ =~= game_state_step(old(st)@, b@).0); }
}

/// The reason given when a kick has no text.
pub open spec fn kick_default() -> Seq<char> {
    "expulsé"@
}

/// A kick: its text, or a default reason.
pub open spec fn kick_step(s: ClientStateV, b: Seq<u8>) -> (ClientStateV, Seq<ActionV>) {
    let reason = match nbt_text(b) {
        Some(t) => t,
        None => kick_default(),
    };
    (ClientStateV { kick: Some(reason), ..s }, Seq::empty())
}

fn on_kick(st: &mut ClientState, b: &[u8])
    ensures
        final(st)@ == kick_step(old(st)@, b@).0,
{
    let reason = match nbt_text_of(b) {
        Some(t) => t,
        None => String::from_str("expulsé"),
    };
    st.kick = Some(reason);
    proof { assert(st@ =~= kick_step(old(st)@, b@).0); }
}

/// The state after one entity left: a player in sight drops from the lists.
pub open spec fn drop_entity(s: ClientStateV, eid: u32) -> ClientStateV {
    if s.spawned_players.contains(eid) {
        ClientStateV {
            spawned_players: without_id(s.spawned_players, eid),
            players: without_player(s.players, eid),
            ..s
        }
    } else {
        s
    }
}

/// `k` entity ids read from `p`, each entity removed in turn.
pub open spec fn destroy_scan(b: Seq<u8>, p: int, k: nat, s: ClientStateV, a: Seq<ActionV>) -> (ClientStateV, Seq<ActionV>)
    decreases k,
{
    if k == 0 {
        (s, a)
    } else {
        let (e, q) = vi_or(b, p, 0);
        destroy_scan(b, q, (k - 1) as nat, drop_entity(s, e as u32), a.push(ActionV::RemoveEntity(e as u32)))
    }
}

/// Entities destroyed: a count, then the ids.
pub open spec fn destroy_step(s: ClientStateV, b: Seq<u8>) -> (ClientStateV, Seq<ActionV>) {
    let (n, p1) = vi_or(b, 0, 0);
    destroy_scan(b, p1, if n > 0 { n as nat } else { 0 }, s, Seq::empty())
}

fn without_id_exec(v: &Vec<u32>, e: u32) -> (r: Vec<u32>)
    ensures
        r@ == without_id(v@, e),
{
    let mut out: Vec<u32> = Vec::new();
    let mut i: usize = 0;
    while i < v.len()
        invariant
            i <= v@.len(),
            out@ == without_id(v@.subrange(0, i as int), e),
        decreases v.len() - i,
    {
        proof {
            assert(v@.subrange(0, i + 1).drop_last() =~= v@.subrange(0, i as int));
        }
        if v[i] != e {
            out.push(v[i]);
        }
        i += 1;
    }
    proof { assert(v@.subrange(0, v@.len() as int) =~= v@); }
    out
}

fn without_player_exec(v: &Vec<(u32, String)>, e: u32) -> (r: Vec<(u32, String)>)
    ensures
        r@.map_values(|p: (u32, String)| (p.0, p.1@)) == without_player(v@.map_values(|p: (u32, String)| (p.0, p.1@)), e),
{
    let ghost vv = v@.map_values(|p: (u32, String)| (p.0, p.1@));
    let mut out: Vec<(u32, String)> = Vec::new();
    let mut i: usize = 0;
    while i < v.len()
        invariant
            i <= v@.len(),
            vv == v@.map_values(|p: (u32, String)| (p.0, p.1@)),
            out@.map_values(|p: (u32, String)| (p.0, p.1@)) == without_player(vv.subrange(0, i as int), e),
        decreases v.len() - i,
    {
        proof {
            assert(vv.subrange(0, i + 1).drop_last() =~= vv.subrange(0, i as int));
        }
        if v[i].0 != e {
            let name = v[i].1.clone();
            let ghost before = out@;
            out.push((v[i].0, name));
            proof {
                assert(out@.map_values(|p: (u32, String)| (p.0, p.1@)) =~= before.map_values(
                    |p: (u32, String)| (p.0, p.1@),
                ).push(vv[i as int]));
            }
        }
        i += 1;
    }
    proof { assert(vv.subrange(0, vv.len() as int) =~= vv); }
    out
}

fn contains_id(v: &Vec<u32>, e: u32) -> (r: bool)
    ensures
        r == v@.contains(e),
{
    let mut i: usize = 0;
    while i < v.len()
        invariant
            i <= v@.len(),
            forall|k: int| 0 <= k < i ==> v@[k] != e,
        decreases v.len() - i,
    {
        if v[i] == e {
            return true;
        }
        i += 1;
    }
    false
}

fn on_destroy(st: &mut ClientState, acts: &mut Vec<ClientAction>, b: &[u8])
    ensures
        final(st)@ == destroy_step(old(st)@, b@).0,
        actions_view(final(acts)@) == actions_view(old(acts)@) + destroy_step(old(st)@, b@).1,
{
    let ghost a0 = actions_view(acts@);
    let mut r = R2::new(b);
    let n = rd_vi(&mut r, 0);
    let ghost total = destroy_step(old(st)@, b@);
    proof {
        assert(actions_view(acts@).subrange(a0.len() as int, actions_view(acts@).len() as int) =~= Seq::<ActionV>::empty());
        assert(actions_view(acts@).subrange(0, a0.len() as int) =~= a0);
    }
    let mut k: i32 = 0;
    while k < n
        invariant
            0 <= k,
            n > 0 ==> k <= n,
            n <= 0 ==> k == 0,
            r.b@ == b@,
            total == destroy_scan(b@, r.p as int, if n > 0 { (n - k) as nat } else { 0 }, st@,
                actions_view(acts@).subrange(a0.len() as int, actions_view(acts@).len() as int)),
            actions_view(acts@).subrange(0, a0.len() as int) == a0,
            a0.len() <= actions_view(acts@).len(),
            total == destroy_step(old(st)@, b@),
            a0 == actions_view(old(acts)@),
        decreases n - k,
    {
        let e = rd_vi(&mut r, 0);
        let eid = e as u32;
        let ghost s0 = st@;
        if contains_id(&st.spawned_players, eid) {
            let sp = without_id_exec(&st.spawned_players, eid);
            let pl = without_player_exec(&st.players, eid);
            st.spawned_players = sp;
            st.players = pl;
        }
        proof { assert(st@ =~= drop_entity(s0, eid)); }
        let ghost av = actions_view(acts@);
        emit(acts, ClientAction::RemoveEntity(eid));
        proof {
            assert(actions_view(acts@).subrange(a0.len() as int, actions_view(acts@).len() as int) =~= av.subrange(
                a0.len() as int,
                av.len() as int,
            ).push(ActionV::RemoveEntity(eid)));
            assert(actions_view(acts@).subrange(0, a0.len() as int) =~= av.subrange(0, a0.len() as int));
        }
        k += 1;
    }
    proof {
        let av = actions_view(acts@);
        assert(av =~= a0 + av.subrange(a0.len() as int, av.len() as int));
    }
}

/// `k` UUIDs read from `p`, each removed from the names.
pub open spec fn remove_scan(b: Seq<u8>, p: int, k: nat, m: Seq<(Seq<u8>, Seq<char>)>) -> Seq<(Seq<u8>, Seq<char>)>
    decreases k,
{
    if k == 0 {
        m
    } else {
        let (u, q) = uuid_or(b, p);
        remove_scan(b, q, (k - 1) as nat, names_remove(m, u))
    }
}

/// Players removed from the list: a count, then the UUIDs.
pub open spec fn player_remove_step(s: ClientStateV, b: Seq<u8>) -> (ClientStateV, Seq<ActionV>) {
    let (n, p1) = vi_or(b, 0, 0);
    (ClientStateV { uuid_names: remove_scan(b, p1, if n > 0 { n as nat } else { 0 }, s.uuid_names), ..s }, Seq::empty())
}

fn on_player_remove(st: &mut ClientState, b: &[u8])
    ensures
        final(st)@ == player_remove_step(old(st)@, b@).0,
{
    let mut r = R2::new(b);
    let n = rd_vi(&mut r, 0);
    let ghost total = player_remove_step(old(st)@, b@).0.uuid_names;
    let mut k: i32 = 0;
    while k < n
        invariant
            0 <= k,
            n > 0 ==> k <= n,
            r.b@ == b@,
            total == remove_scan(b@, r.p as int, if n > 0 { (n - k) as nat } else { 0 }, st@.uuid_names),
            st@ == (ClientStateV { uuid_names: st@.uuid_names, ..old(st)@ }),
        decreases n - k,
    {
        let u = rd_uuid(&mut r);
        match find_uuid(&st.uuid_names, &u) {
            Some(i) => {
                let ghost m0 = st@.uuid_names;
                st.uuid_names.remove(i);
                proof { assert(st@.uuid_names =~= m0.remove(i as int)); }
            },
            None => {},
        }
        proof { assert(st@ =~= (ClientStateV { uuid_names: st@.uuid_names, ..old(st)@ })); }
        k += 1;
    }
    proof { assert(st@ =~= player_remove_step(old(st)@, b@).0); }
}

/// The bytes from `p` on (none past the end).
pub open spec fn rest_at(b: Seq<u8>, p: int) -> Seq<u8> {
    if 0 <= p <= b.len() { b.subrange(p, b.len() as int) } else { Seq::empty() }
}

/// `k` profile properties skipped from `p`: name, value, and an optional
/// signature.
pub open spec fn props_scan(b: Seq<u8>, p: int, k: nat) -> int
    decreases k,
{
    if k == 0 {
        p
    } else {
        let q1 = string_scan(b, p, 64).1;
        let q2 = string_scan(b, q1, 1024).1;
        let (signed, q3) = bool_or(b, q2, false);
        let q4 = if signed { string_scan(b, q3, 1024).1 } else { q3 };
        props_scan(b, q4, (k - 1) as nat)
    }
}

/// One player list entry at `p` under the action bits `actions`: where it
/// ends and the names after it, or `None` for an action that cannot be read.
pub open spec fn info_entry(b: Seq<u8>, p: int, actions: u8, m: Seq<(Seq<u8>, Seq<char>)>) -> Option<(int, Seq<(Seq<u8>, Seq<char>)>)> {
    let (u, p1) = uuid_or(b, p);
    if actions & 0x01 != 0 {
        let (name, p2) = str_or(b, p1, 16);
        let (props, p3) = vi_or(b, p2, 0);
        let p4 = props_scan(b, p3, if props > 0 { props as nat } else { 0 });
        let p5 = vi_or(b, p4, 0).1;
        let p6 = vi_or(b, p5, 0).1;
        Some((p6, names_insert(m, u, name)))
    } else if actions & 0x04 != 0 || actions & 0x08 != 0 || actions & 0x10 != 0 {
        Some((vi_or(b, p1, 0).1, m))
    } else if actions & 0x20 != 0 {
        let (shown, p2) = bool_or(b, p1, false);
        let p3 = if shown {
            match parse_network(rest_at(b, p2), 0) {
                Some((_v, q)) => p2 + q,
                None => p2,
            }
        } else {
            p2
        };
        Some((p3, m))
    } else {
        None
    }
}

/// `k` player list entries read from `p`, the names updated; reading stops
/// at the first entry of an action that cannot be read.
pub open spec fn info_scan(b: Seq<u8>, p: int, actions: u8, k: nat, m: Seq<(Seq<u8>, Seq<char>)>) -> Seq<(Seq<u8>, Seq<char>)>
    decreases k,
{
    if k == 0 {
        m
    } else {
        match info_entry(b, p, actions, m) {
            Some((q, m2)) => info_scan(b, q, actions, (k - 1) as nat, m2),
            None => m,
        }
    }
}

/// A player list update: action bits, a count, then the entries.
pub open spec fn player_info_step(s: ClientStateV, b: Seq<u8>) -> (ClientStateV, Seq<ActionV>) {
    let (actions, p1) = u8_or(b, 0, 0);
    let (n, p2) = vi_or(b, p1, 0);
    (ClientStateV { uuid_names: info_scan(b, p2, actions, if n > 0 { n as nat } else { 0 }, s.uuid_names), ..s }, Seq::empty())
}

fn skip_props(r: &mut R2, k: i32)
    ensures
        final(r).b@ == old(r).b@,
        final(r).p as int == props_scan(old(r).b@, old(r).p as int, if k > 0 { k as nat } else { 0 }),
{
    let ghost b = r.b@;
    let ghost total = props_scan(b, r.p as int, if k > 0 { k as nat } else { 0 });
    let mut j: i32 = 0;
    while j < k
        invariant
            0 <= j,
            k > 0 ==> j <= k,
            r.b@ == b,
            total == props_scan(b, r.p as int, if k > 0 { (k - j) as nat } else { 0 }),
        decreases k - j,
    {
        let _name = r.s(64);
        let _value = r.s(1024);
        if rd_bool(r, false) {
            let _sig = r.s(1024);
        }
        j += 1;
    }
}

fn names_set(m: &mut Vec<([u8; 16], String)>, u: [u8; 16], name: String)
    ensures
        final(m)@.map_values(|e: ([u8; 16], String)| (e.0@, e.1@)) == names_insert(
            old(m)@.map_values(|e: ([u8; 16], String)| (e.0@, e.1@)),
            u@,
            name@,
        ),
{
    let ghost m0 = m@.map_values(|e: ([u8; 16], String)| (e.0@, e.1@));
    let ghost nv = (u@, name@);
    match find_uuid(m, &u) {
        Some(i) => {
            m.set(i, (u, name));
            proof {
                assert(m@.map_values(|e: ([u8; 16], String)| (e.0@, e.1@)) =~= m0.update(i as int, nv));
            }
        },
        None => {
            m.push((u, name));
            proof {
                assert(m@.map_values(|e: ([u8; 16], String)| (e.0@, e.1@)) =~= m0.push(nv));
            }
        },
    }
}

fn read_info_entry(r: &mut R2, names: &mut Vec<([u8; 16], String)>, actions: u8) -> (go: bool)
    ensures
        final(r).b@ == old(r).b@,
        match info_entry(old(r).b@, old(r).p as int, actions, old(names)@.map_values(|e: ([u8; 16], String)| (e.0@, e.1@))) {
            Some((q, m2)) => go && final(r).p as int == q
                && final(names)@.map_values(|e: ([u8; 16], String)| (e.0@, e.1@)) == m2,
            None => !go && final(names)@ == old(names)@,
        },
{
    let u = rd_uuid(r);
    if actions & 0x01 != 0 {
        let name = rd_str(r, 16);
        let props = rd_vi(r, 0);
        skip_props(r, props);
        let _gm = rd_vi(r, 0);
        let _ping = rd_vi(r, 0);
        names_set(names, u, name);
        true
    } else if actions & 0x04 != 0 || actions & 0x08 != 0 || actions & 0x10 != 0 {
        let _v = rd_vi(r, 0);
        true
    } else if actions & 0x20 != 0 {
        if rd_bool(r, false) {
            let blen = r.b.len();
            let rest = r.rest();
            let mut nr = NbtRdr::new(rest);
            if nr.read_network().is_some() {
                proof {
                    assert(rest@.len() > 0);
                    assert(r.p <= blen);
                    assert(rest@.len() == blen - r.p);
                }
                r.p = r.p + nr.pos();
            }
        }
        true
    } else {
        false
    }
}

fn on_player_info(st: &mut ClientState, b: &[u8])
    ensures
        final(st)@ == player_info_step(old(st)@, b@).0,
{
    let mut r = R2::new(b);
    let actions = rd_u8(&mut r, 0);
    let n = rd_vi(&mut r, 0);
    let ghost total = player_info_step(old(st)@, b@).0.uuid_names;
    let mut k: i32 = 0;
    while k < n
        invariant
            0 <= k,
            n > 0 ==> k <= n,
            r.b@ == b@,
            total == info_scan(b@, r.p as int, actions, if n > 0 { (n - k) as nat } else { 0 }, st@.uuid_names),
            total == player_info_step(old(st)@, b@).0.uuid_names,
            st@ == (ClientStateV { uuid_names: st@.uuid_names, ..old(st)@ }),
        decreases n - k,
    {
        let ghost p0 = r.p as int;
        let ghost m0 = st@.uuid_names;
        let go = read_info_entry(&mut r, &mut st.uuid_names, actions);
        proof { assert(st@ =~= (ClientStateV { uuid_names: st@.uuid_names, ..old(st)@ })); }
        if !go {
            proof {
                assert(info_scan(b@, p0, actions, (n - k) as nat, m0) == m0);
                assert(st@.uuid_names == m0);
                assert(st@ =~= player_info_step(old(st)@, b@).0);
            }
            return;
        }
        k += 1;
    }
    proof { assert(st@ =~= player_info_step(old(st)@, b@).0); }
}

/// `k` strings of at most `max` bytes skipped from `p`.
pub open spec fn skip_strings(b: Seq<u8>, p: int, k: nat, max: usize) -> int
    decreases k,
{
    if k == 0 {
        p
    } else {
        skip_strings(b, string_scan(b, p, max).1, (k - 1) as nat, max)
    }
}

/// The login packet's entity id and whether its game mode is creative (a
/// packet cut short before the game mode counts as creative).
pub open spec fn login_fields(b: Seq<u8>) -> (u32, bool) {
    let (id, p1) = i32_or(b, 0, 0);
    let p2 = bool_or(b, p1, false).1;
    let (worlds, p3) = vi_or(b, p2, 0);
    let p4 = skip_strings(b, p3, if worlds > 0 { worlds as nat } else { 0 }, 64);
    let p5 = vi_or(b, p4, 0).1;
    let p6 = vi_or(b, p5, 0).1;
    let p7 = vi_or(b, p6, 0).1;
    let p8 = bool_or(b, p7, false).1;
    let p9 = bool_or(b, p8, false).1;
    let p10 = bool_or(b, p9, false).1;
    let p11 = vi_or(b, p10, 0).1;
    let p12 = string_scan(b, p11, 64).1;
    let p13 = i64_or(b, p12, 0).1;
    let (gm, _p14) = u8_or(b, p13, 1);
    (id as u32, gm == 1)
}

/// The login packet: the entity id and game mode kept, the world to be
/// downloaded from no chunk on, the backlog emptied.
pub open spec fn login_step(s: ClientStateV, b: Seq<u8>) -> (ClientStateV, Seq<ActionV>) {
    let (id, creative) = login_fields(b);
    (
        ClientStateV {
            id: id,
            creative: creative,
            phase: Phase::Downloading,
            chunks_have: 0,
            backlog: Seq::empty(),
            ..s
        },
        Seq::empty(),
    )
}

fn on_login(st: &mut ClientState, b: &[u8])
    ensures
        final(st)@ == login_step(old(st)@, b@).0,
{
    let mut r = R2::new(b);
    let id = rd_i32(&mut r, 0);
    let _hardcore = rd_bool(&mut r, false);
    let worlds = rd_vi(&mut r, 0);
    let ghost b0 = r.b@;
    let ghost total = skip_strings(b@, r.p as int, if worlds > 0 { worlds as nat } else { 0 }, 64);
    let mut j: i32 = 0;
    while j < worlds
        invariant
            0 <= j,
            worlds > 0 ==> j <= worlds,
            r.b@ == b@,
            total == skip_strings(b@, r.p as int, if worlds > 0 { (worlds - j) as nat } else { 0 }, 64),
        decreases worlds - j,
    {
        let _w = r.s(64);
        j += 1;
    }
    let _max = rd_vi(&mut r, 0);
    let _view = rd_vi(&mut r, 0);
    let _sim = rd_vi(&mut r, 0);
    let _b1 = rd_bool(&mut r, false);
    let _b2 = rd_bool(&mut r, false);
    let _b3 = rd_bool(&mut r, false);
    let _dim_type = rd_vi(&mut r, 0);
    let _dim = r.s(64);
    let _seed = rd_i64(&mut r, 0);
    let gm = rd_u8(&mut r, 1);
    st.id = id as u32;
    st.creative = gm == 1;
    st.phase = Phase::Downloading;
    st.chunks_have = 0;
    st.backlog = Vec::new();
    proof { assert(st@ =~= login_step(old(st)@, b@).0); }
}

/// One packet handled, the backlog aside.
pub open spec fn play_once(s: ClientStateV, pid: i32, b: Seq<u8>) -> (ClientStateV, Seq<ActionV>) {
    if pid == CB_LOGIN {
        login_step(s, b)
    } else if pid == CB_POSITION {
        position_step(s, b)
    } else if pid == CB_MAP_CHUNK {
        chunk_step(s, b)
    } else if pid == CB_UNLOAD_CHUNK {
        unload_step(s, b)
    } else if pid == CB_BLOCK_CHANGE {
        block_step(s, b)
    } else if pid == CB_SPAWN_ENTITY {
        spawn_step(s, b)
    } else if pid == CB_ENTITY_MOVE_LOOK || pid == CB_REL_ENTITY_MOVE || pid == CB_ENTITY_TELEPORT {
        move_step(s, pid, b)
    } else if pid == CB_ENTITY_DESTROY {
        destroy_step(s, b)
    } else if pid == CB_KEEP_ALIVE {
        keep_alive_step(s, b)
    } else if pid == CB_UPDATE_TIME {
        time_step(s, b)
    } else if pid == CB_SYSTEM_CHAT {
        chat_step(s, b)
    } else if pid == CB_PLAYER_INFO {
        player_info_step(s, b)
    } else if pid == CB_PLAYER_REMOVE {
        player_remove_step(s, b)
    } else if pid == CB_UPDATE_HEALTH {
        health_step(s, b)
    } else if pid == CB_EXPERIENCE {
        experience_step(s, b)
    } else if pid == CB_RESPAWN {
        respawn_step(s)
    } else if pid == CB_GAME_STATE_CHANGE {
        game_state_step(s, b)
    } else if pid == CB_KICK_DISCONNECT {
        kick_step(s, b)
    } else {
        (s, Seq::empty())
    }
}

fn play_packet(st: &mut ClientState, acts: &mut Vec<ClientAction>, pid: i32, b: &[u8])
    ensures
        final(st)@ == play_once(old(st)@, pid, b@).0,
        actions_view(final(acts)@) == actions_view(old(acts)@) + play_once(old(st)@, pid, b@).1,
{
    let ghost a0 = actions_view(acts@);
    if pid == CB_LOGIN {
        on_login(st, b);
    } else if pid == CB_POSITION {
        on_position(st, acts, b);
    } else if pid == CB_MAP_CHUNK {
        on_chunk(st, acts, b);
    } else if pid == CB_UNLOAD_CHUNK {
        on_unload(st, acts, b);
    } else if pid == CB_BLOCK_CHANGE {
        on_block(st, acts, b);
    } else if pid == CB_SPAWN_ENTITY {
        on_spawn(st, acts, b);
    } else if pid == CB_ENTITY_MOVE_LOOK || pid == CB_REL_ENTITY_MOVE || pid == CB_ENTITY_TELEPORT {
        on_move(st, acts, pid, b);
    } else if pid == CB_ENTITY_DESTROY {
        on_destroy(st, acts, b);
    } else if pid == CB_KEEP_ALIVE {
        on_keep_alive(st, acts, b);
    } else if pid == CB_UPDATE_TIME {
        on_time(st, acts, b);
    } else if pid == CB_SYSTEM_CHAT {
        on_chat(st, acts, b);
    } else if pid == CB_PLAYER_INFO {
        on_player_info(st, b);
    } else if pid == CB_PLAYER_REMOVE {
        on_player_remove(st, b);
    } else if pid == CB_UPDATE_HEALTH {
        on_health(st, acts, b);
    } else if pid == CB_EXPERIENCE {
        on_experience(st, b);
    } else if pid == CB_RESPAWN {
        on_respawn(st, acts);
    } else if pid == CB_GAME_STATE_CHANGE {
        on_game_state(st, b);
    } else if pid == CB_KICK_DISCONNECT {
        on_kick(st, b);
    }
    proof {
        if play_once(old(st)@, pid, b@).1.len() == 0 {
            assert(a0 + play_once(old(st)@, pid, b@).1 =~= a0);
        }
    }
}

/// The packets `items` handled one after the other from `s`.
pub open spec fn replay_spec(s: ClientStateV, items: Seq<(i32, Seq<u8>)>) -> (ClientStateV, Seq<ActionV>)
    decreases items.len(),
{
    if items.len() == 0 {
        (s, Seq::empty())
    } else {
        let (s1, a1) = replay_spec(s, items.drop_last());
        let (s2, a2) = play_once(s1, items.last().0, items.last().1);
        (s2, a1 + a2)
    }
}

/// One packet `pid` with payload `b` from state `s`: before login, packets
/// other than login and kick are kept in the backlog and nothing else
/// changes; the login packet is handled, then the backlog in order; every
/// other packet is handled at once.
pub open spec fn handle_spec(s: ClientStateV, pid: i32, b: Seq<u8>) -> (ClientStateV, Seq<ActionV>) {
    if s.phase == Phase::Connecting && pid != CB_LOGIN && pid != CB_KICK_DISCONNECT {
        (ClientStateV { backlog: s.backlog.push((pid, b)), ..s }, Seq::empty())
    } else if pid == CB_LOGIN {
        let (s1, a1) = login_step(s, b);
        let (s2, a2) = replay_spec(s1, s.backlog);
        (s2, a1 + a2)
    } else {
        play_once(s, pid, b)
    }
}

/// Handles one packet from the server: the next state and what the game
/// loop is to do.
pub fn handle_step(st: ClientState, pid: i32, payload: &[u8]) -> (r: (ClientState, Vec<ClientAction>))
    ensures
        r.0@ == handle_spec(st@, pid, payload@).0,
        actions_view(r.1@) == handle_spec(st@, pid, payload@).1,
        state_wf(st@) ==> state_wf(r.0@),
{
    let ghost s0 = st@;
    proof {
        if state_wf(s0) {
            handle_keeps_wf(s0, pid, payload@);
        }
    }
    let mut st = st;
    let mut acts: Vec<ClientAction> = Vec::new();
    proof { assert(actions_view(acts@) =~= Seq::<ActionV>::empty()); }
    if st.phase == Phase::Connecting && pid != CB_LOGIN && pid != CB_KICK_DISCONNECT {
        let copy = vstd::slice::slice_to_vec(payload);
        st.backlog.push((pid, copy));
        proof { assert(st@ =~= handle_spec(s0, pid, payload@).0); }
        return (st, acts);
    }
    if pid == CB_LOGIN {
        let mut backlog: Vec<(i32, Vec<u8>)> = Vec::new();
        std::mem::swap(&mut backlog, &mut st.backlog);
        let ghost bl = backlog@.map_values(|e: (i32, Vec<u8>)| (e.0, e.1@));
        assert(bl == s0.backlog);
        on_login(&mut st, payload);
        let ghost s1 = st@;
        assert(s1 == login_step(s0, payload@).0);
        proof { assert(bl.subrange(0, 0) =~= Seq::<(i32, Seq<u8>)>::empty()); }
        let mut i: usize = 0;
        while i < backlog.len()
            invariant
                i <= backlog@.len(),
                bl == backlog@.map_values(|e: (i32, Vec<u8>)| (e.0, e.1@)),
                st@ == replay_spec(s1, bl.subrange(0, i as int)).0,
                actions_view(acts@) == replay_spec(s1, bl.subrange(0, i as int)).1,
            decreases backlog.len() - i,
        {
            proof {
                assert(bl.subrange(0, i + 1).drop_last() =~= bl.subrange(0, i as int));
                assert(bl.subrange(0, i + 1).last() == bl[i as int]);
            }
            play_packet(&mut st, &mut acts, backlog[i].0, backlog[i].1.as_slice());
            i += 1;
        }
        proof {
            assert(bl.subrange(0, bl.len() as int) =~= bl);
            assert(Seq::<ActionV>::empty() + replay_spec(s1, bl).1 =~= replay_spec(s1, bl).1);
        }
        return (st, acts);
    }
    play_packet(&mut st, &mut acts, pid, payload);
    proof { assert(Seq::<ActionV>::empty() + play_once(s0, pid, payload@).1 =~= play_once(s0, pid, payload@).1); }
    (st, acts)
}

impl ClientState {
    /// A fresh session: connecting, with no chunk yet out of the `needed`
    /// that make the world playable, at full health.
    pub fn new(needed: u32) -> (r: ClientState)
        ensures
            r@.phase == Phase::Connecting,
            r@.chunks_have == 0,
            r@.chunks_needed == needed,
            r@.id == 0,
            r@.creative,
            r@.hp == 20,
            r@.hunger == 20,
            r@.level == 0,
            r@.xp == 0,
            !r@.dead,
            r@.backlog.len() == 0,
            r@.uuid_names.len() == 0,
            r@.players.len() == 0,
            r@.spawned_players.len() == 0,
            r@.kick is None,
            state_wf(r@),
    {
        ClientState {
            phase: Phase::Connecting,
            chunks_have: 0,
            chunks_needed: needed,
            id: 0,
            creative: true,
            hp: 20,
            hunger: 20,
            level: 0,
            xp: 0,
            dead: false,
            backlog: Vec::new(),
            uuid_names: Vec::new(),
            players: Vec::new(),
            spawned_players: Vec::new(),
            kick: None,
        }
    }
}

/// The players in sight after a player entity `eid` with UUID `u` appeared:
/// its id among the spawned players, and its name, when the list has one,
/// among the players in sight (each entity once).
pub open spec fn note_player_spec(s: ClientStateV, eid: u32, u: Seq<u8>) -> ClientStateV {
    let spawned = if s.spawned_players.contains(eid) { s.spawned_players } else { s.spawned_players.push(eid) };
    let i = uuid_pos(s.uuid_names, u, 0);
    let players = if i >= 0 && !(exists|k: int| 0 <= k < s.players.len() && s.players[k].0 == eid) {
        s.players.push((eid, s.uuid_names[i].1))
    } else {
        s.players
    };
    ClientStateV { spawned_players: spawned, players: players, ..s }
}

fn has_player(v: &Vec<(u32, String)>, eid: u32) -> (r: bool)
    ensures
        r == (exists|j: int| 0 <= j < v@.len() && v@[j].0 == eid),
{
    let mut k: usize = 0;
    while k < v.len()
        invariant
            k <= v@.len(),
            forall|j: int| 0 <= j < k ==> v@[j].0 != eid,
        decreases v.len() - k,
    {
        if v[k].0 == eid {
            return true;
        }
        k += 1;
    }
    false
}

impl ClientState {
    /// Records that the entity `eid` that appeared with UUID `uuid` is a
    /// player (which entity types are players is the game's table).
    pub fn note_player(&mut self, eid: u32, uuid: &[u8; 16])
        ensures
            final(self)@ == note_player_spec(old(self)@, eid, uuid@),
            state_wf(old(self)@) ==> state_wf(final(self)@),
    {
        let ghost s0 = self@;
        proof {
            if state_wf(s0) {
                note_player_keeps_wf(s0, eid, uuid@);
            }
        }
        if !contains_id(&self.spawned_players, eid) {
            self.spawned_players.push(eid);
        }
        let ghost sp = self@.spawned_players;
        assert(sp == note_player_spec(s0, eid, uuid@).spawned_players);
        match find_uuid(&self.uuid_names, uuid) {
            Some(i) => {
                let seen = has_player(&self.players, eid);
                proof {
                    if seen {
                        let j = choose|j: int| 0 <= j < self.players@.len() && self.players@[j].0 == eid;
                        assert(s0.players[j].0 == eid);
                    } else {
                        assert forall|k: int| 0 <= k < s0.players.len() implies s0.players[k].0 != eid by {
                            assert(s0.players[k].0 == self.players@[k].0);
                        }
                    }
                }
                if !seen {
                    let name = self.uuid_names[i].1.clone();
                    assert(name@ == s0.uuid_names[i as int].1);
                    let ghost pl0 = self@.players;
                    self.players.push((eid, name));
                    assert(self@.players =~= pl0.push((eid, s0.uuid_names[i as int].1)));
                }
                assert(self@.players == note_player_spec(s0, eid, uuid@).players);
            },
            None => {
                assert(self@.players == note_player_spec(s0, eid, uuid@).players);
            },
        }
        proof { assert(self@ =~= note_player_spec(s0, eid, uuid@)); }
    }
}

// ---------------------------------------------------------------- framing

/// The frame of packet `pid` with `payload`: the VarInt length of what
/// follows, the VarInt id, the payload.
pub open spec fn packet_frame_spec(pid: i32, payload: Seq<u8>) -> Seq<u8> {
    let body = varint_bytes(pid as u32) + payload;
    varint_bytes(body.len() as u32) + body
}

/// Frames a packet for sending: every packet after login goes out with its
/// length in front.
pub fn packet_frame(pid: i32, payload: &[u8]) -> (r: Vec<u8>)
    requires
        payload@.len() + 5 <= i32::MAX,
    ensures
        r@ == packet_frame_spec(pid, payload@),
{
    let mut body: Vec<u8> = Vec::new();
    write_varint(&mut body, pid);
    let mut i: usize = 0;
    while i < payload.len()
        invariant
            i <= payload@.len(),
            body@ == varint_bytes(pid as u32) + payload@.subrange(0, i as int),
        decreases payload.len() - i,
    {
        body.push(payload[i]);
        i += 1;
        proof {
            assert(body@ =~= varint_bytes(pid as u32) + payload@.subrange(0, i as int));
        }
    }
    proof {
        assert(payload@.subrange(0, payload@.len() as int) =~= payload@);
        crate::mcproto::lemma_varint_bytes_len(pid as u32);
    }
    let mut framed: Vec<u8> = Vec::new();
    let n = body.len();
    write_varint(&mut framed, n as i32);
    let mut j: usize = 0;
    while j < body.len()
        invariant
            j <= body@.len(),
            n == body@.len(),
            framed@ == varint_bytes((n as i32) as u32) + body@.subrange(0, j as int),
        decreases body.len() - j,
    {
        framed.push(body[j]);
        j += 1;
        proof {
            assert(framed@ =~= varint_bytes((n as i32) as u32) + body@.subrange(0, j as int));
        }
    }
    proof {
        assert(body@.subrange(0, body@.len() as int) =~= body@);
        assert((n as i32) as u32 == n as u32);
    }
    framed
}

// ---------------------------------------------------------------- laws

/// A framed packet reads back: its length, then its id, then the payload,
/// which ends the frame.
pub proof fn packet_frame_reads_back(pid: i32, payload: Seq<u8>)
    requires
        payload.len() + 5 <= i32::MAX,
    ensures
        ({
            let f = packet_frame_spec(pid, payload);
            let (len, p1) = varint_scan(f, 0, 0, 0);
            let (id, p2) = varint_scan(f, p1, 0, 0);
            &&& len == Some((f.len() - p1) as u32)
            &&& id == Some(pid as u32)
            &&& f.subrange(p2, f.len() as int) == payload
        }),
{
    let idb = varint_bytes(pid as u32);
    let body = idb + payload;
    crate::mcproto::lemma_varint_bytes_len(pid as u32);
    let n = body.len() as i32;
    assert((n as u32) == body.len() as u32);
    let lb = varint_bytes(n as u32);
    let f = lb + body;
    crate::mcproto::varint_roundtrip(Seq::empty(), n, body);
    assert(Seq::<u8>::empty() + lb + body =~= f);
    assert(f.len() - lb.len() == body.len());
    crate::mcproto::varint_roundtrip(lb, pid, payload);
    assert(lb + idb + payload =~= f);
    assert(f.subrange((lb.len() + idb.len()) as int, f.len() as int) =~= payload);
}

proof fn lemma_u64_i64(x: u64)
    by (bit_vector)
    ensures
        ((x as i64) as u64) == x,
{
}

proof fn lemma_be_bytes_of_value(x: Seq<u8>)
    ensures
        be_bytes(crate::bytes::be_value(x), x.len()) == x,
    decreases x.len(),
{
    if x.len() > 0 {
        lemma_be_bytes_of_value(x.drop_last());
        let v = crate::bytes::be_value(x);
        let a = crate::bytes::be_value(x.drop_last());
        assert(v / 256 == a && v % 256 == x.last() as nat);
        assert(x.drop_last().push(x.last()) =~= x);
    } else {
        assert(x =~= Seq::<u8>::empty());
    }
}

/// Before the login packet, any packet but login and kick goes to the end of
/// the backlog, and nothing else changes.
pub proof fn backlog_before_login(s: ClientStateV, pid: i32, b: Seq<u8>)
    requires
        s.phase == Phase::Connecting,
        pid != CB_LOGIN,
        pid != CB_KICK_DISCONNECT,
    ensures
        handle_spec(s, pid, b).0 == (ClientStateV { backlog: s.backlog.push((pid, b)), ..s }),
        handle_spec(s, pid, b).1.len() == 0,
{
}

/// The login packet sets the phase to downloading with no chunk counted and
/// then handles the backlog, in order, from that state.
pub proof fn login_replays_backlog(s: ClientStateV, b: Seq<u8>)
    ensures
        handle_spec(s, CB_LOGIN, b) == replay_spec(
            (ClientStateV {
                id: login_fields(b).0,
                creative: login_fields(b).1,
                phase: Phase::Downloading,
                chunks_have: 0,
                backlog: Seq::empty(),
                ..s
            }),
            s.backlog,
        ),
{
    let (s2, a2) = replay_spec(login_step(s, b).0, s.backlog);
    assert(Seq::<ActionV>::empty() + a2 =~= a2);
}

/// A chunk counts one more chunk; while downloading, the world is entered
/// exactly when the count reaches the number needed.
pub proof fn chunk_counts(s: ClientStateV, b: Seq<u8>)
    requires
        s.phase != Phase::Connecting,
        s.chunks_have < u32::MAX,
    ensures
        handle_spec(s, CB_MAP_CHUNK, b).0.chunks_have == s.chunks_have + 1,
        handle_spec(s, CB_MAP_CHUNK, b).0.phase == if s.phase == Phase::Downloading && s.chunks_have + 1
            >= s.chunks_needed {
            Phase::Playing
        } else {
            s.phase
        },
        (s.phase == Phase::Downloading && s.chunks_have + 1 >= s.chunks_needed) == (handle_spec(
            s,
            CB_MAP_CHUNK,
            b,
        ).1.last() == ActionV::EnterWorld && handle_spec(s, CB_MAP_CHUNK, b).1.len() > 0),
{
    let load = match sections_scan(chunk_packet_spec(b).2, 0, 24).0 {
        Some(t) => seq![ActionV::LoadChunk(chunk_packet_spec(b).0, chunk_packet_spec(b).1, t)],
        None => Seq::<ActionV>::empty(),
    };
    if load.len() > 0 {
        assert(load[0] != ActionV::EnterWorld);
    }
}

/// A keep-alive is answered with its first eight bytes.
pub proof fn keep_alive_echo(s: ClientStateV, b: Seq<u8>)
    requires
        s.phase != Phase::Connecting,
        b.len() >= 8,
    ensures
        handle_spec(s, CB_KEEP_ALIVE, b) == (s, seq![ActionV::Send(SB_KEEP_ALIVE, b.subrange(0, 8))]),
{
    let x = b.subrange(0, 8);
    let n = crate::bytes::be_value(x);
    crate::bytes::lemma_be_value_bound(x);
    assert(crate::bytes::pow256(8) == 0x1_0000_0000_0000_0000) by {
        reveal_with_fuel(crate::bytes::pow256, 9);
    }
    lemma_u64_i64(n as u64);
    lemma_be_bytes_of_value(x);
}

/// A position packet is answered with a teleport confirmation carrying its
/// id, and places the player.
pub proof fn position_confirms(s: ClientStateV, b: Seq<u8>)
    requires
        s.phase != Phase::Connecting,
    ensures
        handle_spec(s, CB_POSITION, b).1.len() == 2,
        handle_spec(s, CB_POSITION, b).1[0] == ActionV::Send(
            SB_TELEPORT_CONFIRM,
            varint_bytes(vi_or(b, u8_or(b, u32_or(b, u32_or(b, u64_or(b, u64_or(b, u64_or(b, 0, 0).1,
                F64_BITS_80).1, 0).1, 0).1, 0).1, 0).1, 0).0 as u32),
        ),
        handle_spec(s, CB_POSITION, b).1[1] is SetPosition,
{
}

// ---------------------------------------------------------------- receiving

proof fn lemma_u32_i32(u: u32)
    by (bit_vector)
    ensures
        (u as i32) as u32 == u,
{
}

/// What the bytes received so far begin with.
pub enum FrameSplit {
    /// Not yet a whole frame: wait for more bytes.
    Incomplete,
    /// A frame length of 0 or over `MAX_PACKET`: the stream is not the
    /// protocol.
    Invalid,
    /// A whole frame: the length of its header and of its body.
    Frame(usize, usize),
}

/// The first frame of `buf`: its VarInt length (not readable yet makes it
/// incomplete), checked, then the whole body.
pub open spec fn frame_split_spec(buf: Seq<u8>) -> FrameSplit {
    let (v, q) = varint_scan(buf, 0, 0, 0);
    match v {
        None => FrameSplit::Incomplete,
        Some(len) => if len == 0 || len > MAX_PACKET {
            FrameSplit::Invalid
        } else if buf.len() < q + len {
            FrameSplit::Incomplete
        } else {
            FrameSplit::Frame(q as usize, len as usize)
        },
    }
}

/// Splits the first frame off the bytes received.
pub fn next_frame(buf: &[u8]) -> (r: FrameSplit)
    ensures
        r == frame_split_spec(buf@),
{
    let mut p: usize = 0;
    let v = crate::mcproto::read_varint(buf, &mut p);
    match v {
        None => FrameSplit::Incomplete,
        Some(l) => {
            let len = l as u32;
            proof {
                let u = varint_scan(buf@, 0, 0, 0).0->Some_0;
                lemma_u32_i32(u);
            }
            if len == 0 || len as usize > MAX_PACKET {
                FrameSplit::Invalid
            } else if buf.len() < p || buf.len() - p < len as usize {
                FrameSplit::Incomplete
            } else {
                FrameSplit::Frame(p, len as usize)
            }
        },
    }
}

/// A frame's packet id (-1 when it cannot be read) and where its payload
/// starts: after as many bytes as the id's shortest VarInt takes.
pub open spec fn frame_packet_spec(frame: Seq<u8>) -> (i32, int) {
    let (pid, _q) = vi_or(frame, 0, -1i32);
    (pid, varint_bytes(pid as u32).len() as int)
}

/// Whether `packet_of_frame` can split `frame`: the payload start lies in it.
pub fn packet_fits(frame: &[u8]) -> (r: bool)
    ensures
        r == (frame_packet_spec(frame@).1 <= frame@.len()),
{
    let mut p: usize = 0;
    let pid = match crate::mcproto::read_varint(frame, &mut p) {
        Some(v) => v,
        None => -1,
    };
    varint_len(pid as u32) <= frame.len()
}

/// The packet id and payload of a frame.
pub fn packet_of_frame(frame: &[u8]) -> (r: (i32, Vec<u8>))
    requires
        frame_packet_spec(frame@).1 <= frame@.len(),
    ensures
        r.0 == frame_packet_spec(frame@).0,
        r.1@ == frame@.subrange(frame_packet_spec(frame@).1, frame@.len() as int),
{
    let mut p: usize = 0;
    let pid = match crate::mcproto::read_varint(frame, &mut p) {
        Some(v) => v,
        None => -1,
    };
    let start = varint_len(pid as u32);
    let payload = vstd::slice::slice_to_vec(&frame[start..frame.len()]);
    (pid, payload)
}

// ---------------------------------------------------------------- sending

/// Serverbound: chat command.
pub const SB_CHAT_COMMAND: i32 = 0x04;
/// Serverbound: chat message.
pub const SB_CHAT_MESSAGE: i32 = 0x06;
/// Serverbound: client command (respawn).
pub const SB_CLIENT_COMMAND: i32 = 0x09;
/// Serverbound: attack an entity.
pub const SB_USE_ENTITY: i32 = 0x16;
/// Serverbound: position and look.
pub const SB_POSITION_LOOK: i32 = 0x1B;
/// Serverbound: start digging.
pub const SB_BLOCK_DIG: i32 = 0x24;
/// Serverbound: hotbar slot selected.
pub const SB_HELD_ITEM_SLOT: i32 = 0x2F;
/// Serverbound: creative inventory slot.
pub const SB_SET_CREATIVE_SLOT: i32 = 0x32;
/// Serverbound: place a block.
pub const SB_BLOCK_PLACE: i32 = 0x38;
/// Serverbound: use the held item.
pub const SB_USE_ITEM: i32 = 0x39;

/// IEEE 754 bits of the f32 0.5: the cursor at a face's centre.
pub const F32_BITS_HALF: u32 = 0x3F00_0000;

/// The chat packet for `msg`: a command without its leading `/`, or a
/// message with zero timestamp, salt, no signature and an empty
/// acknowledgement.
pub open spec fn chat_spec(msg: Seq<char>) -> (i32, Seq<u8>) {
    if msg.len() > 0 && msg[0] == '/' {
        (SB_CHAT_COMMAND, string_bytes(msg.drop_first()))
    } else {
        (
            SB_CHAT_MESSAGE,
            string_bytes(msg) + be_bytes(0, 8) + be_bytes(0, 8) + seq![0u8] + varint_bytes(0) + seq![0u8, 0u8, 0u8],
        )
    }
}

/// The chat packet for `msg`.
pub fn chat_packet(msg: &str) -> (r: (i32, Vec<u8>))
    ensures
        (r.0, r.1@) == chat_spec(msg@),
{
    let cs = chars_of(msg);
    if cs.len() > 0 && cs[0] == '/' {
        let rest = string_of(&cs.as_slice()[1..cs.len()]);
        proof { assert(cs@.subrange(1, cs@.len() as int) =~= msg@.drop_first()); }
        let v = W2::new().s(rest.as_str()).done();
        (SB_CHAT_COMMAND, v)
    } else {
        let z: [u8; 3] = [0, 0, 0];
        let v = W2::new().s(msg).i64v(0).i64v(0).b(false).vi(0).bytes(z.as_slice()).done();
        proof { assert(z@ =~= seq![0u8, 0u8, 0u8]); }
        (SB_CHAT_MESSAGE, v)
    }
}

/// Start digging the block at (x, y, z), on face 0, sequence 0.
pub fn dig_packet(x: i32, y: i32, z: i32) -> (r: (i32, Vec<u8>))
    ensures
        r.0 == SB_BLOCK_DIG,
        r.1@ == varint_bytes(0) + be_bytes((position_word(x, y, z) as u64) as nat, 8) + seq![0u8] + varint_bytes(0),
{
    (SB_BLOCK_DIG, W2::new().vi(0).pos(x, y, z).i8v(0).vi(0).done())
}

/// Put one item `item` in the creative inventory slot of hotbar `slot`.
pub fn creative_slot_packet(slot: u8, item: i32) -> (r: (i32, Vec<u8>))
    requires
        slot <= 8,
    ensures
        r.0 == SB_SET_CREATIVE_SLOT,
        r.1@ == be_bytes((36 + slot) as nat, 2) + seq![1u8] + varint_bytes(item as u32) + varint_bytes(0) + varint_bytes(0),
{
    let v = W2::new().i16v(36 + slot as i16).i8v(1).vi(item).vi(0).vi(0).done();
    (SB_SET_CREATIVE_SLOT, v)
}

/// Place a block against (x, y, z), main hand, cursor at the face's centre.
pub fn place_packet(x: i32, y: i32, z: i32) -> (r: (i32, Vec<u8>))
    ensures
        r.0 == SB_BLOCK_PLACE,
        r.1@ == varint_bytes(0) + be_bytes((position_word(x, y, z) as u64) as nat, 8) + varint_bytes(1)
            + be_bytes(F32_BITS_HALF as nat, 4) + be_bytes(F32_BITS_HALF as nat, 4) + be_bytes(F32_BITS_HALF as nat, 4)
            + seq![0u8] + varint_bytes(0),
{
    let v = W2::new().vi(0).pos(x, y, z).vi(1).f32_bits(F32_BITS_HALF).f32_bits(F32_BITS_HALF).f32_bits(
        F32_BITS_HALF,
    ).b(false).vi(0).done();
    (SB_BLOCK_PLACE, v)
}

/// Select hotbar slot `slot` (at most 8): the slot chosen and its packet.
pub fn held_packet(slot: usize) -> (r: (usize, i32, Vec<u8>))
    ensures
        r.0 == if slot < 8 { slot } else { 8 },
        r.1 == SB_HELD_ITEM_SLOT,
        r.2@ == be_bytes(r.0 as nat, 2),
{
    let s = if slot < 8 { slot } else { 8 };
    let v = W2::new().i16v(s as i16).done();
    (s, SB_HELD_ITEM_SLOT, v)
}

/// Attack entity `uid`, not sneaking.
pub fn attack_packet(uid: u32) -> (r: (i32, Vec<u8>))
    ensures
        r.0 == SB_USE_ENTITY,
        r.1@ == varint_bytes(uid) + varint_bytes(1) + seq![0u8],
{
    proof { lemma_u32_i32(uid); }
    (SB_USE_ENTITY, W2::new().vi(uid as i32).vi(1).b(false).done())
}

/// Use (eat) the held item, main hand, sequence 0.
pub fn eat_packet() -> (r: (i32, Vec<u8>))
    ensures
        r.0 == SB_USE_ITEM,
        r.1@ == varint_bytes(0) + varint_bytes(0),
{
    (SB_USE_ITEM, W2::new().vi(0).vi(0).done())
}

/// Ask to respawn.
pub fn respawn_packet() -> (r: (i32, Vec<u8>))
    ensures
        r.0 == SB_CLIENT_COMMAND,
        r.1@ == varint_bytes(0),
{
    (SB_CLIENT_COMMAND, W2::new().vi(0).done())
}

/// The player's position and look (floats given by their IEEE 754 bits).
pub fn move_packet(x_bits: u64, y_bits: u64, z_bits: u64, yaw_bits: u32, pitch_bits: u32, on_ground: bool) -> (r: (i32, Vec<u8>))
    ensures
        r.0 == SB_POSITION_LOOK,
        r.1@ == be_bytes(x_bits as nat, 8) + be_bytes(y_bits as nat, 8) + be_bytes(z_bits as nat, 8) + be_bytes(
            yaw_bits as nat,
            4,
        ) + be_bytes(pitch_bits as nat, 4) + seq![if on_ground { 1u8 } else { 0u8 }],
{
    let v = W2::new().f64_bits(x_bits).f64_bits(y_bits).f64_bits(z_bits).f32_bits(yaw_bits).f32_bits(pitch_bits).b(
        on_ground,
    ).done();
    (SB_POSITION_LOOK, v)
}

// ---------------------------------------------------------------- invariant

/// No UUID is named twice.
pub open spec fn keys_distinct(m: Seq<(Seq<u8>, Seq<char>)>) -> bool {
    forall|i: int, j: int| 0 <= i < j < m.len() ==> #[trigger] m[i].0 != #[trigger] m[j].0
}

/// No id occurs twice.
pub open spec fn ids_distinct(s: Seq<u32>) -> bool {
    forall|i: int, j: int| 0 <= i < j < s.len() ==> #[trigger] s[i] != #[trigger] s[j]
}

/// No entity id occurs twice among the players in sight.
pub open spec fn player_ids_distinct(p: Seq<(u32, Seq<char>)>) -> bool {
    forall|i: int, j: int| 0 <= i < j < p.len() ==> #[trigger] p[i].0 != #[trigger] p[j].0
}

/// The session's lists hold each key once, as the maps and sets they stand
/// for.
pub open spec fn state_wf(s: ClientStateV) -> bool {
    keys_distinct(s.uuid_names) && ids_distinct(s.spawned_players) && player_ids_distinct(s.players)
}

proof fn lemma_uuid_pos(m: Seq<(Seq<u8>, Seq<char>)>, u: Seq<u8>, i: int)
    requires
        0 <= i,
    ensures
        uuid_pos(m, u, i) >= 0 ==> i <= uuid_pos(m, u, i) < m.len() && m[uuid_pos(m, u, i)].0 == u,
        uuid_pos(m, u, i) < 0 ==> forall|k: int| i <= k < m.len() ==> m[k].0 != u,
    decreases m.len() - i,
{
    if i < m.len() && m[i].0 != u {
        lemma_uuid_pos(m, u, i + 1);
    }
}

proof fn lemma_insert_wf(m: Seq<(Seq<u8>, Seq<char>)>, u: Seq<u8>, n: Seq<char>)
    requires
        keys_distinct(m),
    ensures
        keys_distinct(names_insert(m, u, n)),
{
    lemma_uuid_pos(m, u, 0);
    let r = names_insert(m, u, n);
    let p = uuid_pos(m, u, 0);
    assert forall|i: int, j: int| 0 <= i < j < r.len() implies #[trigger] r[i].0 != #[trigger] r[j].0 by {
        if p < 0 {
            if j == m.len() {
                assert(r[i] == m[i]);
            } else {
                assert(r[i] == m[i] && r[j] == m[j]);
            }
        } else {
            if i != p && j != p {
                assert(r[i] == m[i] && r[j] == m[j]);
            } else if i == p {
                assert(r[j] == m[j]);
                assert(m[i].0 != m[j].0);
            } else {
                assert(r[i] == m[i]);
                assert(m[i].0 != m[j].0);
            }
        }
    }
}

proof fn lemma_remove_wf(m: Seq<(Seq<u8>, Seq<char>)>, u: Seq<u8>)
    requires
        keys_distinct(m),
    ensures
        keys_distinct(names_remove(m, u)),
{
    lemma_uuid_pos(m, u, 0);
    let p = uuid_pos(m, u, 0);
    if p >= 0 {
        let r = m.remove(p);
        assert forall|i: int, j: int| 0 <= i < j < r.len() implies #[trigger] r[i].0 != #[trigger] r[j].0 by {
            let ii = if i < p { i } else { i + 1 };
            let jj = if j < p { j } else { j + 1 };
            assert(r[i] == m[ii] && r[j] == m[jj]);
            assert(ii < jj);
        }
    }
}

proof fn lemma_info_wf(b: Seq<u8>, p: int, actions: u8, k: nat, m: Seq<(Seq<u8>, Seq<char>)>)
    requires
        keys_distinct(m),
    ensures
        keys_distinct(info_scan(b, p, actions, k, m)),
    decreases k,
{
    if k > 0 {
        match info_entry(b, p, actions, m) {
            Some((q, m2)) => {
                let (u, p1) = uuid_or(b, p);
                if actions & 0x01 != 0 {
                    let (name, _p2) = str_or(b, p1, 16);
                    lemma_insert_wf(m, u, name);
                }
                lemma_info_wf(b, q, actions, (k - 1) as nat, m2);
            },
            None => {},
        }
    }
}

proof fn lemma_remove_scan_wf(b: Seq<u8>, p: int, k: nat, m: Seq<(Seq<u8>, Seq<char>)>)
    requires
        keys_distinct(m),
    ensures
        keys_distinct(remove_scan(b, p, k, m)),
    decreases k,
{
    if k > 0 {
        let (u, q) = uuid_or(b, p);
        lemma_remove_wf(m, u);
        lemma_remove_scan_wf(b, q, (k - 1) as nat, names_remove(m, u));
    }
}

proof fn lemma_without_id(s: Seq<u32>, e: u32)
    requires
        ids_distinct(s),
    ensures
        ids_distinct(without_id(s, e)),
        forall|x: u32| without_id(s, e).contains(x) ==> s.contains(x),
    decreases s.len(),
{
    if s.len() > 0 {
        let d = s.drop_last();
        assert(ids_distinct(d));
        lemma_without_id(d, e);
        let w = without_id(d, e);
        assert forall|x: u32| d.contains(x) implies s.contains(x) by {
            let k = choose|k: int| 0 <= k < d.len() && d[k] == x;
            assert(s[k] == x);
        }
        if s.last() != e {
            assert(!w.contains(s.last())) by {
                if w.contains(s.last()) {
                    assert(d.contains(s.last()));
                    let k = choose|k: int| 0 <= k < d.len() && d[k] == s.last();
                    assert(s[k] == s[s.len() - 1]);
                    assert(k < s.len() - 1);
                }
            }
            let r = w.push(s.last());
            assert forall|i: int, j: int| 0 <= i < j < r.len() implies #[trigger] r[i] != #[trigger] r[j] by {
                if j == w.len() {
                    assert(r[i] == w[i]);
                    assert(w.contains(w[i]));
                } else {
                    assert(r[i] == w[i] && r[j] == w[j]);
                }
            }
            assert forall|x: u32| r.contains(x) implies s.contains(x) by {
                let k = choose|k: int| 0 <= k < r.len() && r[k] == x;
                if k < w.len() {
                    assert(w[k] == x);
                    assert(w.contains(x));
                } else {
                    assert(s[s.len() - 1] == x);
                }
            }
        }
    }
}

proof fn lemma_without_player(s: Seq<(u32, Seq<char>)>, e: u32)
    requires
        player_ids_distinct(s),
    ensures
        player_ids_distinct(without_player(s, e)),
        forall|k: int| 0 <= k < without_player(s, e).len() ==> exists|j: int| 0 <= j < s.len() && s[j].0 == #[trigger] without_player(s, e)[k].0,
    decreases s.len(),
{
    if s.len() > 0 {
        let d = s.drop_last();
        assert(player_ids_distinct(d));
        lemma_without_player(d, e);
        let w = without_player(d, e);
        assert forall|k: int| 0 <= k < w.len() implies exists|j: int| 0 <= j < s.len() && s[j].0 == #[trigger] w[k].0 by {
            let j = choose|j: int| 0 <= j < d.len() && d[j].0 == w[k].0;
            assert(s[j] == d[j]);
        }
        if s.last().0 != e {
            let r = w.push(s.last());
            assert forall|i: int, j: int| 0 <= i < j < r.len() implies #[trigger] r[i].0 != #[trigger] r[j].0 by {
                if j == w.len() {
                    assert(r[i] == w[i]);
                    let jj = choose|jj: int| 0 <= jj < d.len() && d[jj].0 == w[i].0;
                    assert(s[jj] == d[jj]);
                    assert(s[jj].0 != s[s.len() - 1].0);
                } else {
                    assert(r[i] == w[i] && r[j] == w[j]);
                }
            }
            assert forall|k: int| 0 <= k < r.len() implies exists|j: int| 0 <= j < s.len() && s[j].0 == #[trigger] r[k].0 by {
                if k < w.len() {
                    assert(r[k] == w[k]);
                } else {
                    assert(s[s.len() - 1].0 == r[k].0);
                }
            }
        }
    }
}

proof fn lemma_destroy_wf(b: Seq<u8>, p: int, k: nat, s: ClientStateV, a: Seq<ActionV>)
    requires
        state_wf(s),
    ensures
        state_wf(destroy_scan(b, p, k, s, a).0),
    decreases k,
{
    if k > 0 {
        let (e, q) = vi_or(b, p, 0);
        if s.spawned_players.contains(e as u32) {
            lemma_without_id(s.spawned_players, e as u32);
            lemma_without_player(s.players, e as u32);
        }
        lemma_destroy_wf(b, q, (k - 1) as nat, drop_entity(s, e as u32), a.push(ActionV::RemoveEntity(e as u32)));
    }
}

proof fn lemma_play_once_wf(s: ClientStateV, pid: i32, b: Seq<u8>)
    requires
        state_wf(s),
    ensures
        state_wf(play_once(s, pid, b).0),
{
    if pid == CB_PLAYER_INFO {
        let (actions, p1) = u8_or(b, 0, 0);
        let (n, p2) = vi_or(b, p1, 0);
        lemma_info_wf(b, p2, actions, if n > 0 { n as nat } else { 0 }, s.uuid_names);
    } else if pid == CB_PLAYER_REMOVE {
        let (n, p1) = vi_or(b, 0, 0);
        lemma_remove_scan_wf(b, p1, if n > 0 { n as nat } else { 0 }, s.uuid_names);
    } else if pid == CB_ENTITY_DESTROY {
        let (n, p1) = vi_or(b, 0, 0);
        lemma_destroy_wf(b, p1, if n > 0 { n as nat } else { 0 }, s, Seq::empty());
    }
}

proof fn lemma_replay_wf(s: ClientStateV, items: Seq<(i32, Seq<u8>)>)
    requires
        state_wf(s),
    ensures
        state_wf(replay_spec(s, items).0),
    decreases items.len(),
{
    if items.len() > 0 {
        lemma_replay_wf(s, items.drop_last());
        let s1 = replay_spec(s, items.drop_last()).0;
        lemma_play_once_wf(s1, items.last().0, items.last().1);
    }
}

/// Every packet keeps the session's lists free of repeated keys.
pub proof fn handle_keeps_wf(s: ClientStateV, pid: i32, b: Seq<u8>)
    requires
        state_wf(s),
    ensures
        state_wf(handle_spec(s, pid, b).0),
{
    if s.phase == Phase::Connecting && pid != CB_LOGIN && pid != CB_KICK_DISCONNECT {
    } else if pid == CB_LOGIN {
        let s1 = login_step(s, b).0;
        assert(state_wf(s1));
        lemma_replay_wf(s1, s.backlog);
    } else {
        lemma_play_once_wf(s, pid, b);
    }
}

/// Noting a player keeps the session's lists free of repeated keys.
pub proof fn note_player_keeps_wf(s: ClientStateV, eid: u32, u: Seq<u8>)
    requires
        state_wf(s),
    ensures
        state_wf(note_player_spec(s, eid, u)),
{
    let r = note_player_spec(s, eid, u);
    if !s.spawned_players.contains(eid) {
        assert forall|i: int, j: int| 0 <= i < j < r.spawned_players.len() implies #[trigger] r.spawned_players[i]
            != #[trigger] r.spawned_players[j] by {
            if j == s.spawned_players.len() {
                assert(r.spawned_players[i] == s.spawned_players[i]);
            } else {
                assert(r.spawned_players[i] == s.spawned_players[i]);
                assert(r.spawned_players[j] == s.spawned_players[j]);
            }
        }
    }
    let i0 = uuid_pos(s.uuid_names, u, 0);
    if i0 >= 0 && !(exists|k: int| 0 <= k < s.players.len() && s.players[k].0 == eid) {
        assert forall|i: int, j: int| 0 <= i < j < r.players.len() implies #[trigger] r.players[i].0
            != #[trigger] r.players[j].0 by {
            if j == s.players.len() {
                assert(r.players[i] == s.players[i]);
            } else {
                assert(r.players[i] == s.players[i]);
                assert(r.players[j] == s.players[j]);
            }
        }
    }
}

proof fn lemma_i64_field(pre: Seq<u8>, v: i64, rest: Seq<u8>)
    ensures
        i64_or(pre + be_bytes((v as u64) as nat, 8) + rest, pre.len() as int, 6000) == (v, pre.len() as int + 8),
        i64_or(pre + be_bytes((v as u64) as nat, 8) + rest, pre.len() as int, 0) == (v, pre.len() as int + 8),
{
    let bb = be_bytes((v as u64) as nat, 8);
    let b = pre + bb + rest;
    crate::bytes::lemma_be_roundtrip((v as u64) as nat, 8);
    assert(crate::bytes::pow256(8) == 0x1_0000_0000_0000_0000) by {
        reveal_with_fuel(crate::bytes::pow256, 9);
    }
    assert(b.subrange(pre.len() as int, pre.len() as int + 8) =~= bb);
    crate::mcproto::lemma_cast64(v);
}

/// A time update carries the world's age, then the time of day: the time
/// of day is what the client is given (6000 when it is missing), and the
/// state does not change.
pub proof fn time_update_gives_time_of_day(s: ClientStateV, age: i64, t: i64, rest: Seq<u8>)
    requires
        s.phase != Phase::Connecting,
    ensures
        handle_spec(s, CB_UPDATE_TIME, be_bytes((age as u64) as nat, 8) + be_bytes((t as u64) as nat, 8) + rest)
            == (s, seq![ActionV::DayTime(t)]),
        rest.len() < 8 ==> handle_spec(s, CB_UPDATE_TIME, be_bytes((age as u64) as nat, 8) + rest) == (
            s,
            seq![ActionV::DayTime(6000)],
        ),
{
    let a = be_bytes((age as u64) as nat, 8);
    let tb = be_bytes((t as u64) as nat, 8);
    let b = a + tb + rest;
    lemma_i64_field(Seq::empty(), age, tb + rest);
    assert(Seq::<u8>::empty() + a + (tb + rest) =~= b);
    lemma_i64_field(a, t, rest);
    crate::bytes::lemma_be_roundtrip((age as u64) as nat, 8);
    if rest.len() < 8 {
        let b2 = a + rest;
        lemma_i64_field(Seq::empty(), age, rest);
        assert(Seq::<u8>::empty() + a + rest =~= b2);
    }
}

proof fn lemma_i32_field(pre: Seq<u8>, v: i32, rest: Seq<u8>, d: i32)
    ensures
        i32_or(pre + be_bytes((v as u32) as nat, 4) + rest, pre.len() as int, d) == (v, pre.len() as int + 4),
{
    let bb = be_bytes((v as u32) as nat, 4);
    let b = pre + bb + rest;
    crate::bytes::lemma_be_roundtrip((v as u32) as nat, 4);
    assert(crate::bytes::pow256(4) == 0x1_0000_0000) by {
        reveal_with_fuel(crate::bytes::pow256, 5);
    }
    assert(b.subrange(pre.len() as int, pre.len() as int + 4) =~= bb);
    crate::mcproto::lemma_cast32(v);
}

proof fn lemma_u32_field(pre: Seq<u8>, v: u32, rest: Seq<u8>, d: u32)
    ensures
        u32_or(pre + be_bytes(v as nat, 4) + rest, pre.len() as int, d) == (v, pre.len() as int + 4),
{
    let bb = be_bytes(v as nat, 4);
    let b = pre + bb + rest;
    crate::bytes::lemma_be_roundtrip(v as nat, 4);
    assert(crate::bytes::pow256(4) == 0x1_0000_0000) by {
        reveal_with_fuel(crate::bytes::pow256, 5);
    }
    assert(b.subrange(pre.len() as int, pre.len() as int + 4) =~= bb);
}

proof fn lemma_vi_field(pre: Seq<u8>, v: i32, rest: Seq<u8>, d: i32)
    ensures
        vi_or(pre + varint_bytes(v as u32) + rest, pre.len() as int, d) == (v, pre.len() as int + varint_bytes(v as u32).len() as int),
{
    crate::mcproto::varint_roundtrip(pre, v, rest);
}

/// A chunk unload carries z, then x: the client drops the chunk at (x, z)
/// and its state does not change.
pub proof fn unload_names_the_chunk(s: ClientStateV, cx: i32, cz: i32, rest: Seq<u8>)
    requires
        s.phase != Phase::Connecting,
    ensures
        handle_spec(s, CB_UNLOAD_CHUNK, be_bytes((cz as u32) as nat, 4) + be_bytes((cx as u32) as nat, 4) + rest)
            == (s, seq![ActionV::UnloadChunk(cx, cz)]),
{
    let zb = be_bytes((cz as u32) as nat, 4);
    let xb = be_bytes((cx as u32) as nat, 4);
    lemma_i32_field(Seq::empty(), cz, xb + rest, 0);
    assert(Seq::<u8>::empty() + zb + (xb + rest) =~= zb + xb + rest);
    crate::bytes::lemma_be_roundtrip((cz as u32) as nat, 4);
    lemma_i32_field(zb, cx, rest, 0);
}

/// An experience update carries the bar (an f32), the level, then the
/// points: the client keeps the level and the points, nothing else.
pub proof fn experience_sets_level_and_points(s: ClientStateV, bar: u32, level: i32, xp: i32, rest: Seq<u8>)
    requires
        s.phase != Phase::Connecting,
    ensures
        handle_spec(s, CB_EXPERIENCE, be_bytes(bar as nat, 4) + varint_bytes(level as u32) + varint_bytes(xp as u32) + rest)
            == (ClientStateV { level: level as u32, xp: xp as u32, ..s }, Seq::<ActionV>::empty()),
{
    let bb = be_bytes(bar as nat, 4);
    let lb = varint_bytes(level as u32);
    let xb = varint_bytes(xp as u32);
    lemma_u32_field(Seq::empty(), bar, lb + xb + rest, 0);
    assert(Seq::<u8>::empty() + bb + (lb + xb + rest) =~= bb + lb + xb + rest);
    crate::bytes::lemma_be_roundtrip(bar as nat, 4);
    lemma_vi_field(bb, level, xb + rest, 0);
    assert(bb + lb + (xb + rest) =~= bb + lb + xb + rest);
    lemma_vi_field(bb + lb, xp, rest, 0);
}

/// A health update carries the health (an f32), then the food: the client
/// keeps the food, is dead exactly when the health is at most zero, and
/// hands the health on.
pub proof fn health_sets_food(s: ClientStateV, hp: u32, food: i32, rest: Seq<u8>)
    requires
        s.phase != Phase::Connecting,
    ensures
        handle_spec(s, CB_UPDATE_HEALTH, be_bytes(hp as nat, 4) + varint_bytes(food as u32) + rest) == (
            ClientStateV { hunger: food, dead: f32_at_most_zero(hp), ..s },
            seq![ActionV::Health(hp)],
        ),
{
    let hb = be_bytes(hp as nat, 4);
    lemma_u32_field(Seq::empty(), hp, varint_bytes(food as u32) + rest, 0);
    assert(Seq::<u8>::empty() + hb + (varint_bytes(food as u32) + rest) =~= hb + varint_bytes(food as u32) + rest);
    crate::bytes::lemma_be_roundtrip(hp as nat, 4);
    lemma_vi_field(hb, food, rest, 20);
}

/// A block change carries the packed position, then the new block state:
/// the client sets that block to that state.
pub proof fn block_change_sets_the_block(s: ClientStateV, x: i32, y: i32, z: i32, state: i32, rest: Seq<u8>)
    requires
        s.phase != Phase::Connecting,
        -0x200_0000 <= x < 0x200_0000,
        -0x800 <= y < 0x800,
        -0x200_0000 <= z < 0x200_0000,
    ensures
        handle_spec(
            s,
            CB_BLOCK_CHANGE,
            be_bytes((position_word(x, y, z) as u64) as nat, 8) + varint_bytes(state as u32) + rest,
        ) == (s, seq![ActionV::SetBlock(x, y, z, state as u32)]),
{
    let pb = be_bytes((position_word(x, y, z) as u64) as nat, 8);
    let sb = varint_bytes(state as u32);
    crate::mcproto::position_field_roundtrip(Seq::empty(), x, y, z, sb + rest);
    assert(Seq::<u8>::empty() + pb + (sb + rest) =~= pb + sb + rest);
    crate::bytes::lemma_be_roundtrip((position_word(x, y, z) as u64) as nat, 8);
    lemma_vi_field(pb, state, rest, 0);
}

} // verus!
