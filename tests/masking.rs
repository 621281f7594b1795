use ws_core::decode;

#[test]
fn unmasks_hello() {
    let source = [0x7fu8, 0x9f, 0x4d, 0x51, 0x58];
    let mut target = [0u8; 5];
    decode(&mut target, &source, [0x37, 0xfa, 0x21, 0x3d], 5);
    assert_eq!(&target, b"Hello");
}

#[test]
fn masking_twice_gives_the_payload_back() {
    let payload: Vec<u8> = (0..37u32).map(|i| (i * 13 + 5) as u8).collect();
    let key = [0xa5, 0x00, 0xff, 0x3c];
    let mut once = vec![0u8; payload.len()];
    decode(&mut once, &payload, key, payload.len());
    assert_ne!(once, payload);
    let mut twice = vec![0u8; payload.len()];
    decode(&mut twice, &once, key, payload.len());
    assert_eq!(twice, payload);
}

#[test]
fn leaves_the_rest_of_the_target() {
    let source = [0xffu8; 8];
    let mut target = [0x11u8; 8];
    decode(&mut target, &source, [0x0f, 0xf0, 0x00, 0xff], 3);
    assert_eq!(target, [0xf0, 0x0f, 0xff, 0x11, 0x11, 0x11, 0x11, 0x11]);
}

#[test]
fn zero_length_changes_nothing() {
    let mut target = [7u8; 2];
    decode(&mut target, &[], [1, 2, 3, 4], 0);
    assert_eq!(target, [7, 7]);
}
