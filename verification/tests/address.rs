use ipmap::address::Address;

fn v4(a: u8, b: u8, c: u8, d: u8) -> u32 {
    u32::from_be_bytes([a, b, c, d])
}

#[test]
fn address_ipv4_mask() {
    let ip = v4(1, 2, 3, 4);
    assert_eq!(ip.mask(0), v4(0, 0, 0, 0));
    assert_eq!(ip.mask(24), v4(1, 2, 3, 0));
    assert_eq!(ip.mask(23), v4(1, 2, 2, 0));
    assert_eq!(ip.mask(32), v4(1, 2, 3, 4));
}

#[test]
fn address_ipv6_mask() {
    let ip: u128 = 0x2001_0db8_aaaa_bbbb_cccc_dddd_eeee_ffff;
    let expected1: u128 = 0x2001_0db8_aaaa_0000_0000_0000_0000_0000;
    let expected2: u128 = 0x2001_0db8_aaaa_bbbb_cccc_dddd_0000_0000;
    let expected3: u128 = 0;
    let expected4: u128 = 0x2000_0000_0000_0000_0000_0000_0000_0000;
    assert_ne!(ip.mask(46), expected1);
    assert_eq!(ip.mask(47), expected1);
    assert_eq!(ip.mask(48), expected1);
    assert_ne!(ip.mask(49), expected1);
    assert_eq!(ip.mask(96), expected2);
    assert_eq!(ip.mask(0), expected3);
    assert_ne!(ip.mask(2), expected4);
    assert_eq!(ip.mask(3), expected4);
    assert_eq!(ip.mask(4), expected4);
    assert_eq!(ip.mask(15), expected4);
    assert_ne!(ip.mask(16), expected4);
    assert_eq!(ip.mask(128), ip);
}

#[test]
fn address_ipv4_nibbles() {
    let ip: u32 = 0x12345678;
    assert_eq!(ip.nibbles(), [1, 2, 3, 4, 5, 6, 7, 8]);
}

#[test]
fn address_ipv6_nibbles() {
    let ip: u128 = 0x2001_0db8_aaaa_bbbb_cccc_dddd_eeee_ffff;
    assert_eq!(
        ip.nibbles(),
        [
            0x2, 0x0, 0x0, 0x1, 0x0, 0xd, 0xb, 0x8, 0xa, 0xa, 0xa, 0xa, 0xb, 0xb, 0xb, 0xb, 0xc, 0xc, 0xc, 0xc,
            0xd, 0xd, 0xd, 0xd, 0xe, 0xe, 0xe, 0xe, 0xf, 0xf, 0xf, 0xf,
        ]
    );
}

#[test]
fn address_ipv4_from_nibbles() {
    let ip: u32 = Address::from_nibbles(&[1, 2, 3, 4, 5, 6, 7, 8]);
    assert_eq!(ip.to_be_bytes(), [0x12, 0x34, 0x56, 0x78]);
}

#[test]
fn address_ipv4_from_nibbles_short() {
    let ip: u32 = Address::from_nibbles(&[]);
    assert_eq!(ip.to_be_bytes(), [0, 0, 0, 0]);
}

#[test]
fn address_ipv4_from_nibbles_long() {
    let ip: u32 = Address::from_nibbles(&[1, 2, 3, 4, 5, 6, 7, 8, 9, 10]);
    assert_eq!(ip.to_be_bytes(), [0x12, 0x34, 0x56, 0x78]);
}

#[test]
fn address_ipv6_from_nibbles() {
    let ip: u128 = Address::from_nibbles(&[
        0, 1, 2, 3, 4, 5, 6, 7, 8, 9, 10, 11, 12, 13, 14, 15, 15, 14, 13, 12, 11, 10, 9, 8, 7, 6, 5, 4, 3, 2, 1, 0,
    ]);
    let expected: u128 = 0x0123_4567_89ab_cdef_fedc_ba98_7654_3210;
    assert_eq!(ip, expected);
}

#[test]
fn address_nibbles_round_trip() {
    for ip in [0u32, 1, 0x8000_0000, 0xdead_beef, u32::MAX] {
        let ns = ip.nibbles();
        assert_eq!(ns.len(), 8);
        assert_eq!(<u32 as Address>::from_nibbles(&ns), ip);
    }
    for ip in [0u128, 1, 0x2001_0db8_0000_0000_0000_0000_0000_0001, u128::MAX] {
        let ns = ip.nibbles();
        assert_eq!(ns.len(), 32);
        assert_eq!(<u128 as Address>::from_nibbles(&ns), ip);
    }
}

#[test]
fn address_mask_laws() {
    let ip = v4(203, 0, 113, 77);
    assert_eq!(ip.mask(32), ip);
    assert_eq!(ip.mask(0), 0);
    for m2 in 0..=32u32 {
        for m1 in 0..=m2 {
            assert_eq!(ip.mask(m2).mask(m1), ip.mask(m1));
        }
    }
    assert_eq!(<u32 as Address>::nibble_count(), 8);
    assert_eq!(<u128 as Address>::nibble_count(), 32);
}

#[test]
fn address_ipv6_from_nibbles_short() {
    let ip: u128 = Address::from_nibbles(&[0xf, 0xe]);
    assert_eq!(ip, 0xfe00_0000_0000_0000_0000_0000_0000_0000);
}

#[test]
fn address_from_nibbles_then_nibbles() {
    let ns: Vec<u8> = vec![0xf, 0, 0xa, 5, 1, 2, 3, 0xc];
    let ip: u32 = Address::from_nibbles(&ns);
    assert_eq!(ip.nibbles(), ns);
}
