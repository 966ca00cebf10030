use ipmap::address::Address;
use ipmap::IpLookupTable;

fn v4(a: u8, b: u8, c: u8, d: u8) -> u32 {
    u32::from_be_bytes([a, b, c, d])
}

fn v6(a: u16, b: u16, c: u16, d: u16, e: u16, f: u16, g: u16, h: u16) -> u128 {
    let segs = [a, b, c, d, e, f, g, h];
    let mut r: u128 = 0;
    for s in segs {
        r = (r << 16) | s as u128;
    }
    r
}

#[test]
fn test_partial_eq() {
    let mut tbl1 = IpLookupTable::<u32, i32>::new();
    tbl1.insert(v4(10, 0, 0, 1), 17, 1);
    tbl1.insert(v4(172, 16, 0, 1), 17, 2);
    tbl1.insert(v4(192, 168, 1, 1), 17, 3);
    tbl1.insert(v4(8, 8, 8, 8), 17, 4);

    // insertion order shouldn't affect equality
    let mut tbl2 = IpLookupTable::<u32, i32>::new();
    tbl2.insert(v4(172, 16, 0, 1), 17, 2);
    tbl2.insert(v4(10, 0, 0, 1), 17, 1);
    tbl2.insert(v4(8, 8, 8, 8), 17, 4);
    tbl2.insert(v4(192, 168, 1, 1), 17, 3);
    assert_eq!(tbl1, tbl2);

    // mismatching data
    let mut tbl3 = IpLookupTable::<u32, i32>::new();
    tbl3.insert(v4(10, 0, 0, 1), 17, 100);
    tbl3.insert(v4(172, 16, 0, 1), 17, 2);
    tbl3.insert(v4(192, 168, 1, 1), 17, 3);
    tbl3.insert(v4(8, 8, 8, 8), 17, 4);
    assert_ne!(tbl1, tbl3);

    // IP missing
    let mut tbl4 = IpLookupTable::<u32, i32>::new();
    tbl4.insert(v4(10, 0, 0, 1), 17, 1);
    tbl4.insert(v4(172, 16, 0, 1), 17, 2);
    tbl4.insert(v4(192, 168, 1, 1), 17, 3);
    assert_ne!(tbl1, tbl4);

    // Extra IP
    let mut tbl5 = IpLookupTable::<u32, i32>::new();
    tbl5.insert(v4(10, 0, 0, 1), 17, 1);
    tbl5.insert(v4(172, 16, 0, 1), 17, 2);
    tbl5.insert(v4(192, 168, 1, 1), 17, 3);
    tbl5.insert(v4(8, 8, 8, 8), 17, 4);
    tbl5.insert(v4(1, 1, 1, 1), 17, 4);
    assert_ne!(tbl1, tbl5);


    // IPV6
    let mut tbl6 = IpLookupTable::<u128, i32>::new();
    tbl6.insert(v6(0x2001, 0x0db8, 0x85a3, 0, 0, 0x8a2e, 0x0370, 0x7334), 128, 1);
    tbl6.insert(v6(0x2607, 0xf8b0, 0x400d, 0x0, 0x0, 0x0, 0x0, 0x200e), 128, 2);
    tbl6.insert(v6(0x2a00, 0x1450, 0x4001, 0x80b, 0x0, 0x0, 0x0, 0x2003), 128, 3);
    tbl6.insert(v6(0x2404, 0x6800, 0x4003, 0x802, 0x0, 0x0, 0x0, 0x200e), 128, 4);

    let mut tbl7 = IpLookupTable::<u128, i32>::new();
    tbl7.insert(v6(0x2607, 0xf8b0, 0x400d, 0x0, 0x0, 0x0, 0x0, 0x200e), 128, 2);
    tbl7.insert(v6(0x2001, 0x0db8, 0x85a3, 0, 0, 0x8a2e, 0x0370, 0x7334), 128, 1);
    tbl7.insert(v6(0x2404, 0x6800, 0x4003, 0x802, 0x0, 0x0, 0x0, 0x200e), 128, 4);
    tbl7.insert(v6(0x2a00, 0x1450, 0x4001, 0x80b, 0x0, 0x0, 0x0, 0x2003), 128, 3);
    assert_eq!(tbl6, tbl7);

    let mut tbl8 = IpLookupTable::<u128, i32>::new();
    tbl8.insert(v6(0x2001, 0x0db8, 0x85a3, 0, 0, 0x8a2e, 0x0370, 0x7334), 128, 1);
    tbl8.insert(v6(0x2607, 0xf8b0, 0x400d, 0x0, 0x0, 0x0, 0x0, 0x200e), 128, 200);
    tbl8.insert(v6(0x2a00, 0x1450, 0x4001, 0x80b, 0x0, 0x0, 0x0, 0x2003), 128, 3);
    tbl8.insert(v6(0x2404, 0x6800, 0x4003, 0x802, 0x0, 0x0, 0x0, 0x200e), 128, 4);
    assert_ne!(tbl6, tbl8);

}

#[test]
fn table_insert_returns_previous() {
    let mut table = IpLookupTable::<u128, &str>::new();
    let prefix = v6(0x2001, 0xdb8, 0xdead, 0xbeef, 0, 0, 0, 0);
    assert_eq!(table.insert(prefix, 32, "foo"), None);
    assert_eq!(table.insert(prefix, 32, "bar"), Some("foo"));
    assert_eq!(table.len(), 1);
}

#[test]
fn table_remove() {
    let mut table = IpLookupTable::<u128, &str>::new();
    let prefix = v6(0x2001, 0xdb8, 0xdead, 0xbeef, 0, 0, 0, 0);
    table.insert(prefix, 32, "foo");
    assert_eq!(table.remove(prefix, 32), Some("foo"));
    assert_eq!(table.remove(prefix, 32), None);
    assert!(table.is_empty());
}

#[test]
fn table_exact_match() {
    let mut table = IpLookupTable::<u128, &str>::new();
    let prefix = v6(0x2001, 0xdb8, 0, 0, 0, 0, 0, 0);
    table.insert(prefix, 32, "foo");
    assert_eq!(table.exact_match(prefix, 32), Some(&"foo"));
    assert_eq!(table.exact_match(prefix, 48), None);
}

#[test]
fn table_exact_match_mut() {
    let mut table = IpLookupTable::<u128, &str>::new();
    let prefix = v6(0x2001, 0xdb8, 0, 0, 0, 0, 0, 0);
    table.insert(prefix, 32, "foo");
    if let Some(value) = table.exact_match_mut(prefix, 32) {
        *value = "bar";
    }
    assert_eq!(table.exact_match(prefix, 32), Some(&"bar"));
    assert_eq!(table.exact_match_mut(prefix, 33), None);
}

#[test]
fn table_longest_match() {
    let mut table = IpLookupTable::<u128, &str>::new();
    let less_specific = v6(0x2001, 0xdb8, 0, 0, 0, 0, 0, 0);
    let more_specific = v6(0x2001, 0xdb8, 0xdead, 0, 0, 0, 0, 0);
    table.insert(less_specific, 32, "foo");
    table.insert(more_specific, 48, "bar");

    let lookupip = v6(0x2001, 0xdb8, 0xdead, 0xbeef, 0xcafe, 0xbabe, 0, 1);
    assert_eq!(table.longest_match(lookupip), Some((more_specific, 48, &"bar")));

    let lookupip = v6(0x2001, 0xdb8, 0xcafe, 0xf00, 0xf00, 0xf00, 0, 1);
    assert_eq!(table.longest_match(lookupip), Some((less_specific, 32, &"foo")));

    let lookupip = v6(0x2002, 0, 0, 0, 0, 0, 0, 1);
    assert_eq!(table.longest_match(lookupip), None);
}

#[test]
fn table_longest_match_mut() {
    let mut table = IpLookupTable::<u128, &str>::new();
    let less_specific = v6(0x2001, 0xdb8, 0, 0, 0, 0, 0, 0);
    let more_specific = v6(0x2001, 0xdb8, 0xdead, 0, 0, 0, 0, 0);
    table.insert(less_specific, 32, "foo");
    table.insert(more_specific, 48, "bar");

    let lookupip = v6(0x2001, 0xdb8, 0xdead, 0xbeef, 0xcafe, 0xbabe, 0, 1);
    if let Some((_, _, value)) = table.longest_match_mut(lookupip) {
        assert_eq!(value, &"bar");
        *value = "foo";
    }
    assert_eq!(table.longest_match(lookupip), Some((more_specific, 48, &"foo")));
}

#[test]
fn table_matches() {
    let mut table = IpLookupTable::<u128, &str>::new();
    let less_specific = v6(0x2001, 0xdb8, 0, 0, 0, 0, 0, 0);
    let more_specific = v6(0x2001, 0xdb8, 0xdead, 0, 0, 0, 0, 0);
    table.insert(less_specific, 32, "foo");
    table.insert(more_specific, 48, "bar");

    let lookupip = v6(0x2001, 0xdb8, 0xdead, 0xbeef, 0xcafe, 0xbabe, 0, 1);
    let matches = table.matches(lookupip);
    assert_eq!(matches.len(), 2);
    assert_eq!(matches, vec![(less_specific, 32, "foo"), (more_specific, 48, "bar")]);

    let lookupip = v6(0x2001, 0xdb8, 0xcafe, 0xf00, 0xf00, 0xf00, 0, 1);
    let matches = table.matches(lookupip);
    assert_eq!(matches.len(), 1);
}

#[test]
fn table_matches_mut() {
    let mut table = IpLookupTable::<u32, u32>::new();
    table.insert(v4(10, 0, 0, 0), 8, 1);
    table.insert(v4(10, 1, 0, 0), 16, 2);
    table.insert(v4(11, 0, 0, 0), 8, 3);
    {
        let mut it = table.matches_mut(v4(10, 1, 2, 3));
        while let Some((_, _, v)) = it.next() {
            *v += 100;
        }
    }
    assert_eq!(table.exact_match(v4(10, 0, 0, 0), 8), Some(&101));
    assert_eq!(table.exact_match(v4(10, 1, 0, 0), 16), Some(&102));
    assert_eq!(table.exact_match(v4(11, 0, 0, 0), 8), Some(&3));
}

#[test]
fn table_iter() {
    let mut table = IpLookupTable::<u128, &str>::new();
    let less_specific = v6(0x2001, 0xdb8, 0, 0, 0, 0, 0, 0);
    let more_specific = v6(0x2001, 0xdb8, 0xdead, 0, 0, 0, 0, 0);
    table.insert(less_specific, 32, "foo");
    table.insert(more_specific, 48, "bar");

    let mut iter = table.iter();
    assert_eq!(iter.next(), Some((less_specific, 32, &"foo")));
    assert_eq!(iter.next(), Some((more_specific, 48, &"bar")));
    assert_eq!(iter.next(), None);
}

#[test]
fn table_iter_mut() {
    let x = v6(0x2001, 0xdb8, 0x100, 0, 0, 0, 0, 0);
    let y = v6(0x2001, 0xdb8, 0x100, 0, 0, 0, 0, 0);
    let z = v6(0x2001, 0xdb8, 0x102, 0, 0, 0, 0, 0);
    let mut table = IpLookupTable::<u128, i32>::new();

    table.insert(x, 48, 1);
    table.insert(y, 56, 2);
    table.insert(z, 56, 3);

    {
        let mut it = table.iter_mut();
        while let Some((_ip, _mask, val)) = it.next() {
            *val += 10;
        }
    }

    assert_eq!(table.exact_match(x, 48), Some(&11));
    assert_eq!(table.exact_match(y, 56), Some(&12));
    assert_eq!(table.exact_match(z, 56), Some(&13));
}

#[test]
fn table_into_iter() {
    let mut table = IpLookupTable::<u32, u8>::new();
    table.insert(v4(192, 168, 0, 0), 16, 1);
    table.insert(v4(192, 168, 7, 9), 24, 2);
    let mut it = table.into_iter();
    let mut seen = Vec::new();
    while let Some(item) = it.next() {
        seen.push(item);
    }
    seen.sort();
    assert_eq!(seen, vec![(v4(192, 168, 0, 0), 16, 1), (v4(192, 168, 7, 0), 24, 2)]);
}

#[test]
fn table_host_bits_ignored() {
    // 10.0.0.1/17 and 10.0.127.255/17 are the same prefix
    let mut table = IpLookupTable::<u32, i32>::new();
    assert_eq!(table.insert(v4(10, 0, 0, 1), 17, 1), None);
    assert_eq!(table.insert(v4(10, 0, 127, 255), 17, 2), Some(1));
    assert_eq!(table.exact_match(v4(10, 0, 0, 0), 17), Some(&2));
    assert_eq!(table.len(), 1);
    // the prefix comes back masked
    let mut it = table.iter();
    assert_eq!(it.next(), Some((v4(10, 0, 0, 0), 17, &2)));
}

#[test]
fn table_default_route_and_full_length() {
    let mut table: IpLookupTable<u32, u8> = Default::default();
    table.insert(0, 0, 1);
    table.insert(v4(1, 2, 3, 4), 32, 2);
    assert_eq!(table.longest_match(v4(9, 9, 9, 9)), Some((0, 0, &1)));
    assert_eq!(table.longest_match(v4(1, 2, 3, 4)), Some((v4(1, 2, 3, 4), 32, &2)));
    assert_eq!(table.longest_match(v4(1, 2, 3, 5)), Some((0, 0, &1)));
    assert_eq!(table.matches(v4(1, 2, 3, 4)).len(), 2);
}

#[test]
fn table_with_capacity_and_mem_usage() {
    let mut table = IpLookupTable::<u32, u64>::with_capacity(16);
    assert!(table.is_empty());
    table.insert(v4(10, 0, 0, 0), 8, 1);
    table.insert(v4(10, 0, 0, 0), 9, 2);
    let (nodes, values) = table.mem_usage();
    assert!(nodes > 0);
    assert_eq!(values, 2 * 8);
}

#[test]
fn table_nibble_boundaries() {
    // prefixes that end inside a nibble, on one, and right after one
    let mut table = IpLookupTable::<u32, u32>::new();
    for len in 0..=32u32 {
        table.insert(v4(0xff, 0xff, 0xff, 0xff), len, len);
    }
    assert_eq!(table.len(), 33);
    for len in 0..=32u32 {
        let ip = v4(0xff, 0xff, 0xff, 0xff).mask(len);
        assert_eq!(table.exact_match(ip, len), Some(&len));
    }
    assert_eq!(table.matches(v4(0xff, 0xff, 0xff, 0xff)).len(), 33);
    assert_eq!(table.matches(v4(0x7f, 0xff, 0xff, 0xff)).len(), 1);
    for len in (0..=32u32).rev() {
        assert_eq!(table.remove(v4(0xff, 0xff, 0xff, 0xff), len), Some(len));
    }
    assert!(table.is_empty());
    assert_eq!(table.longest_match(v4(0xff, 0xff, 0xff, 0xff)), None);
}

#[test]
fn table_longest_is_last_of_matches_and_names_its_prefix() {
    let mut table = IpLookupTable::<u32, u32>::new();
    table.insert(v4(10, 0, 0, 0), 8, 8);
    table.insert(v4(10, 128, 0, 0), 9, 9);
    table.insert(v4(10, 128, 64, 0), 18, 18);
    let ip = v4(10, 200, 77, 1);
    let matches = table.matches(ip);
    let (a, len, v) = table.longest_match(ip).unwrap();
    assert_eq!(matches.last(), Some(&(a, len, *v)));
    assert_eq!((a, len, *v), (v4(10, 128, 0, 0), 9, 9));
    // the masked address names the stored prefix
    assert_eq!(table.exact_match(a, len), Some(&9));
}

#[test]
fn table_iter_yields_len_items_once_each() {
    let mut table = IpLookupTable::<u128, u16>::new();
    for i in 0..40u16 {
        table.insert((i as u128) << 100, 8 + (i as u32 % 20), i);
    }
    let mut seen = Vec::new();
    let mut it = table.iter();
    while let Some((a, len, v)) = it.next() {
        seen.push((a, len, *v));
    }
    assert_eq!(seen.len(), table.len());
    seen.sort();
    seen.dedup();
    assert_eq!(seen.len(), table.len());
}

#[test]
fn iter_puts_less_specific_prefixes_first() {
    let mut table = IpLookupTable::<u128, &str>::new();
    let less_specific = v6(0x2001, 0xdb8, 0, 0, 0, 0, 0, 0);
    let more_specific = v6(0x2001, 0xdb8, 0xdead, 0, 0, 0, 0, 0);
    let most_specific = v6(0x2001, 0xdb8, 0xdead, 0xbeef, 0, 0, 0, 0);
    table.insert(most_specific, 64, "baz");
    table.insert(more_specific, 48, "bar");
    table.insert(less_specific, 32, "foo");
    let mut iter = table.iter();
    assert_eq!(iter.next(), Some((less_specific, 32, &"foo")));
    assert_eq!(iter.next(), Some((more_specific, 48, &"bar")));
    assert_eq!(iter.next(), Some((most_specific, 64, &"baz")));
    assert_eq!(iter.next(), None);

    let mut t4 = IpLookupTable::<u32, u8>::new();
    t4.insert(v4(10, 1, 0, 0), 16, 2);
    t4.insert(v4(10, 0, 0, 0), 8, 1);
    t4.insert(v4(10, 1, 2, 0), 24, 3);
    t4.insert(v4(10, 1, 2, 0), 23, 4);
    let mut order: Vec<(u32, u32)> = Vec::new();
    let mut it = t4.iter();
    while let Some((a, l, _)) = it.next() {
        order.push((a, l));
    }
    let pos = |p: (u32, u32)| order.iter().position(|q| *q == p).unwrap();
    assert!(pos((v4(10, 0, 0, 0), 8)) < pos((v4(10, 1, 0, 0), 16)));
    assert!(pos((v4(10, 1, 0, 0), 16)) < pos((v4(10, 1, 2, 0), 23)));
    assert!(pos((v4(10, 1, 2, 0), 23)) < pos((v4(10, 1, 2, 0), 24)));
}

#[test]
fn remove_updates_the_length() {
    let mut t = IpLookupTable::<u32, u8>::new();
    t.insert(v4(10, 0, 0, 0), 8, 1);
    t.insert(v4(10, 1, 0, 0), 16, 2);
    assert_eq!(t.len(), 2);
    assert_eq!(t.remove(v4(10, 1, 0, 0), 16), Some(2));
    assert_eq!(t.len(), 1);
    assert_eq!(t.remove(v4(10, 1, 0, 0), 16), None);
    assert_eq!(t.len(), 1);
    assert_eq!(t.exact_match(v4(10, 0, 0, 0), 8), Some(&1));
}
