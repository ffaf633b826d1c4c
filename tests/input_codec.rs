use extreme_bevy::input::{
    encode, from_bytes, to_bytes, GameInput, InputError, INPUT_DOWN, INPUT_FIRE, INPUT_LEFT,
    INPUT_RIGHT, INPUT_SIZE, INPUT_UP,
};

#[test]
fn encode_sets_button_bits() {
    let i = encode(None, true, false, true, false, true);
    assert_eq!(i.keys, INPUT_UP | INPUT_LEFT | INPUT_FIRE);
    assert_eq!(i.keys, 21);
    assert_eq!(i.has_mouse, 0);
    assert_eq!((i.mouse_x, i.mouse_y), (0, 0));
    let all = encode(None, true, true, true, true, true);
    assert_eq!(all.keys, INPUT_UP | INPUT_DOWN | INPUT_LEFT | INPUT_RIGHT | INPUT_FIRE);
}

#[test]
fn encode_takes_cursor() {
    let x = 12.5f32.to_bits();
    let y = (-3.25f32).to_bits();
    let i = encode(Some((x, y)), false, false, false, false, false);
    assert_eq!(i.has_mouse, 1);
    assert_eq!(i.mouse_x, x);
    assert_eq!(i.mouse_y, y);
    assert_eq!(i.keys, 0);
    assert!(!i.pressed(INPUT_UP));
}

#[test]
fn to_bytes_layout_is_fixed() {
    let i = GameInput { mouse_x: 0x0403_0201, mouse_y: 0x0807_0605, has_mouse: 1, keys: 0x11 };
    let b = to_bytes(&i);
    assert_eq!(b.len(), INPUT_SIZE);
    assert_eq!(b, vec![1, 2, 3, 4, 5, 6, 7, 8, 1, 0x11, 0, 0, 0, 0, 0, 0]);
}

#[test]
fn bytes_round_trip() {
    let i = encode(Some((1.5f32.to_bits(), 2.0f32.to_bits())), true, false, false, true, false);
    let b = to_bytes(&i);
    assert_eq!(from_bytes(&b), Ok(i));
    assert!(i.pressed(INPUT_UP | INPUT_RIGHT));
    assert!(!i.pressed(INPUT_FIRE));
}

#[test]
fn from_bytes_rejects_wrong_length() {
    assert_eq!(from_bytes(&[0u8; 15]), Err(InputError::MalformedInput));
    assert_eq!(from_bytes(&[0u8; 17]), Err(InputError::MalformedInput));
    assert_eq!(from_bytes(&[]), Err(InputError::MalformedInput));
    assert_eq!(from_bytes(&[0u8; 16]), Ok(GameInput::zero()));
}
