//! Per-frame player input and its fixed-size wire encoding.
use vstd::prelude::*;

verus! {

/// Button bit for "up".
pub const INPUT_UP: u8 = 1;
/// Button bit for "down".
pub const INPUT_DOWN: u8 = 2;
/// Button bit for "left".
pub const INPUT_LEFT: u8 = 4;
/// Button bit for "right".
pub const INPUT_RIGHT: u8 = 8;
/// Button bit for "fire".
pub const INPUT_FIRE: u8 = 16;

/// Size in bytes of an encoded input record: two 4-byte cursor coordinates,
/// the cursor-present byte, the button byte and six padding bytes.
pub const INPUT_SIZE: usize = 16;

/// One player's controls for one frame.
///
/// The cursor coordinates are kept as the IEEE-754 bit patterns of 32-bit
/// floats, so that the record compares and encodes identically on every
/// platform.
#[derive(Clone, Copy, Debug, PartialEq, Eq, Structural)]
pub struct GameInput {
    pub mouse_x: u32,
    pub mouse_y: u32,
    pub has_mouse: u8,
    pub keys: u8,
}

/// Decoding failure.
#[derive(Clone, Copy, Debug, PartialEq, Eq, Structural)]
pub enum InputError {
    /// The byte length differs from `INPUT_SIZE`.
    MalformedInput,
}

/// The all-zero input: no cursor, no button held.
pub open spec fn spec_default_input() -> GameInput {
    GameInput { mouse_x: 0, mouse_y: 0, has_mouse: 0, keys: 0 }
}

/// The button bitset for the given pressed states.
pub open spec fn spec_keys(up: bool, down: bool, left: bool, right: bool, fire: bool) -> u8 {
    ((if up { INPUT_UP } else { 0u8 }) | (if down { INPUT_DOWN } else { 0u8 })
        | (if left { INPUT_LEFT } else { 0u8 }) | (if right { INPUT_RIGHT } else { 0u8 })
        | (if fire { INPUT_FIRE } else { 0u8 }))
}

/// The four little-endian bytes of `v`.
pub open spec fn spec_le_bytes(v: u32) -> Seq<u8> {
    seq![
        (v % 256) as u8,
        ((v / 256) % 256) as u8,
        ((v / 65536) % 256) as u8,
        ((v / 16777216) % 256) as u8,
    ]
}

/// The number whose little-endian bytes are `b[at..at + 4]`.
pub open spec fn spec_le_value(b: Seq<u8>, at: int) -> u32 {
    (b[at] as int + 256 * b[at + 1] as int + 65536 * b[at + 2] as int + 16777216 * b[at
        + 3] as int) as u32
}

/// The wire form of an input record.
pub open spec fn spec_encode(i: GameInput) -> Seq<u8> {
    spec_le_bytes(i.mouse_x) + spec_le_bytes(i.mouse_y) + seq![i.has_mouse, i.keys] + seq![
        0u8,
        0u8,
        0u8,
        0u8,
        0u8,
        0u8,
    ]
}

/// The record that a well-sized byte string stands for.
pub open spec fn spec_decode(b: Seq<u8>) -> GameInput {
    GameInput {
        mouse_x: spec_le_value(b, 0),
        mouse_y: spec_le_value(b, 4),
        has_mouse: b[8],
        keys: b[9],
    }
}

impl GameInput {
    /// The all-zero input.
    pub fn zero() -> (r: GameInput)
        ensures
            r == spec_default_input(),
    {
        GameInput { mouse_x: 0, mouse_y: 0, has_mouse: 0, keys: 0 }
    }

    /// Whether every button of `mask` is held.
    pub fn pressed(&self, mask: u8) -> (r: bool)
        ensures
            r == (self.keys & mask == mask),
    {
        self.keys & mask == mask
    }
}

/// Builds this frame's input from the control-device state: the cursor's
/// world position as float bit patterns, if the cursor is over the window,
/// and whether each button is held. Total; never fails.
pub fn encode(
    cursor: Option<(u32, u32)>,
    up: bool,
    down: bool,
    left: bool,
    right: bool,
    fire: bool,
) -> (r: GameInput)
    ensures
        r.keys == spec_keys(up, down, left, right, fire),
        r.has_mouse == (if cursor.is_some() { 1u8 } else { 0u8 }),
        cursor matches Some(c) ==> r.mouse_x == c.0 && r.mouse_y == c.1,
        cursor is None ==> r.mouse_x == 0 && r.mouse_y == 0,
{
    let mut input = GameInput::zero();
    if let Some(c) = cursor {
        input.mouse_x = c.0;
        input.mouse_y = c.1;
        input.has_mouse = 1;
    }
    let keys: u8 = (if up { INPUT_UP } else { 0u8 }) | (if down { INPUT_DOWN } else { 0u8 })
        | (if left { INPUT_LEFT } else { 0u8 }) | (if right { INPUT_RIGHT } else { 0u8 })
        | (if fire { INPUT_FIRE } else { 0u8 });
    input.keys = keys;
    input
}

fn push_le(out: &mut Vec<u8>, v: u32)
    ensures
        final(out)@ == old(out)@ + spec_le_bytes(v),
{
    out.push((v % 256) as u8);
    out.push(((v / 256) % 256) as u8);
    out.push(((v / 65536) % 256) as u8);
    out.push(((v / 16777216) % 256) as u8);
    assert(final(out)@ =~= old(out)@ + spec_le_bytes(v));
}

fn read_le(b: &[u8], at: usize) -> (r: u32)
    requires
        at + 4 <= b@.len(),
    ensures
        r == spec_le_value(b@, at as int),
{
    let v: u32 = b[at] as u32 + 256 * (b[at + 1] as u32) + 65536 * (b[at + 2] as u32)
        + 16777216 * (b[at + 3] as u32);
    v
}

/// Encodes a record as `INPUT_SIZE` bytes: cursor x and y little-endian,
/// cursor-present byte, button byte, six zero bytes.
pub fn to_bytes(i: &GameInput) -> (r: Vec<u8>)
    ensures
        r@ == spec_encode(*i),
        r@.len() == INPUT_SIZE,
{
    let mut out: Vec<u8> = Vec::new();
    push_le(&mut out, i.mouse_x);
    push_le(&mut out, i.mouse_y);
    out.push(i.has_mouse);
    out.push(i.keys);
    let mut k: usize = 0;
    while k < 6
        invariant
            k <= 6,
            out@ == spec_le_bytes(i.mouse_x) + spec_le_bytes(i.mouse_y) + seq![i.has_mouse, i.keys]
                + Seq::new(k as nat, |j: int| 0u8),
        decreases 6 - k,
    {
        out.push(0);
        k = k + 1;
        assert(out@ =~= spec_le_bytes(i.mouse_x) + spec_le_bytes(i.mouse_y) + seq![
            i.has_mouse,
            i.keys,
        ] + Seq::new(k as nat, |j: int| 0u8));
    }
    assert(out@ =~= spec_encode(*i));
    out
}

/// Decodes a record; fails with `MalformedInput` exactly when the length is
/// not `INPUT_SIZE`.
pub fn from_bytes(b: &[u8]) -> (r: Result<GameInput, InputError>)
    ensures
        b@.len() != INPUT_SIZE ==> r == Err::<GameInput, InputError>(InputError::MalformedInput),
        b@.len() == INPUT_SIZE ==> r == Ok::<GameInput, InputError>(spec_decode(b@)),
{
    if b.len() != INPUT_SIZE {
        return Err(InputError::MalformedInput);
    }
    Ok(GameInput { mouse_x: read_le(b, 0), mouse_y: read_le(b, 4), has_mouse: b[8], keys: b[9] })
}

/// Decoding an encoded record gives the record back.
pub proof fn lemma_decode_encode(i: GameInput)
    ensures
        spec_encode(i).len() == INPUT_SIZE,
        spec_decode(spec_encode(i)) == i,
{
    let e = spec_encode(i);
    assert(e[8] == i.has_mouse);
    assert(e[9] == i.keys);
    assert(spec_le_value(e, 0) == i.mouse_x) by {
        assert(e[0] == (i.mouse_x % 256) as u8);
        assert(e[1] == ((i.mouse_x / 256) % 256) as u8);
        assert(e[2] == ((i.mouse_x / 65536) % 256) as u8);
        assert(e[3] == ((i.mouse_x / 16777216) % 256) as u8);
        lemma_le_round(i.mouse_x);
    }
    assert(spec_le_value(e, 4) == i.mouse_y) by {
        assert(e[4] == (i.mouse_y % 256) as u8);
        assert(e[5] == ((i.mouse_y / 256) % 256) as u8);
        assert(e[6] == ((i.mouse_y / 65536) % 256) as u8);
        assert(e[7] == ((i.mouse_y / 16777216) % 256) as u8);
        lemma_le_round(i.mouse_y);
    }
}

proof fn lemma_le_round(v: u32)
    ensures
        (v % 256) as u8 as int + 256 * ((v / 256) % 256) as u8 as int + 65536 * ((v / 65536)
            % 256) as u8 as int + 16777216 * ((v / 16777216) % 256) as u8 as int == v,
{
    assert((v % 256) as u8 as int + 256 * ((v / 256) % 256) as u8 as int + 65536 * ((v / 65536)
        % 256) as u8 as int + 16777216 * ((v / 16777216) % 256) as u8 as int == v)
        by (nonlinear_arith);
}

} // verus!
