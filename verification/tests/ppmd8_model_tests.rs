use sevenz_codecs::error::RestoreMethod;
use sevenz_codecs::ppmd8::{stats_tables, unit_tables, Ppmd8};

#[test]
fn unit_tables_match_ppmd8() {
    let (index2units, units2index) = unit_tables();
    let expected: Vec<u8> = vec![
        1, 2, 3, 4, 6, 8, 10, 12, 15, 18, 21, 24, 28, 32, 36, 40, 44, 48, 52, 56, 60, 64, 68, 72,
        76, 80, 84, 88, 92, 96, 100, 104, 108, 112, 116, 120, 124, 128, 0, 0,
    ];
    assert_eq!(index2units, expected);
    assert_eq!(units2index.len(), 128);
    assert_eq!(units2index[0], 0);
    assert_eq!(units2index[4], 4);
    assert_eq!(units2index[5], 4);
    assert_eq!(units2index[6], 5);
    assert_eq!(units2index[127], 37);
    for t in 0..128usize {
        let i = units2index[t] as usize;
        let below = if i == 0 { 0 } else { index2units[i - 1] as usize };
        assert!(below <= t && t < index2units[i] as usize);
    }
}

#[test]
fn stats_tables_match_ppmd8() {
    let (ns2bs, ns2index) = stats_tables();
    assert_eq!(ns2bs.len(), 256);
    assert_eq!(&ns2bs[..12], &[0, 2, 4, 4, 4, 4, 4, 4, 4, 4, 4, 6]);
    assert!(ns2bs[11..].iter().all(|&b| b == 6));
    assert_eq!(ns2index.len(), 260);
    assert_eq!(&ns2index[..15], &[0, 1, 2, 3, 4, 5, 6, 6, 7, 7, 7, 8, 8, 8, 8]);
    assert_eq!(ns2index[259], 27);
}

#[test]
fn removing_after_inserting_gives_the_block_back() {
    let mut p = Ppmd8::construct(1 << 16, 6, RestoreMethod::Restart).ok().unwrap();
    assert_eq!(p.i2u(0), 1);
    assert_eq!(p.i2u(37), 128);
    assert_eq!(p.i2u(38), 0);
    let head = p.fl(3);
    p.insert_node(1200, 3);
    assert_eq!(p.fl(3), 1200);
    p.insert_node(2400, 3);
    assert_eq!(p.fl(3), 2400);
    assert_eq!(p.remove_node(3), 2400);
    assert_eq!(p.remove_node(3), 1200);
    assert_eq!(p.fl(3), head);
}

#[test]
fn swapping_states_twice_restores_them() {
    let mut p = Ppmd8::construct(1 << 16, 6, RestoreMethod::Restart).ok().unwrap();
    assert_eq!(p.fl(3), 0);
    p.insert_node(1200, 3);
    p.insert_node(1212, 3);
    let a = p.state(1200);
    let b = p.state(1212);
    // each node starts with the 0xFFFFFFFF stamp, then the link to the next node
    assert_eq!(a, (0xFF, 0xFF, 0x0000_FFFF));
    assert_eq!(b, (0xFF, 0xFF, (1200 << 16) | 0xFFFF));
    p.swap_states(1200, 1212);
    assert_eq!(p.state(1200), b);
    assert_eq!(p.state(1212), a);
    p.swap_states(1200, 1212);
    assert_eq!(p.state(1200), a);
    assert_eq!(p.state(1212), b);
}
