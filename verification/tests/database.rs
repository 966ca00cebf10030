use ipmap::database::{
    insert_range, insert_subnets, store_row, CombinedDatabase, GenericIp, IpAddress, PackedCoordinate, RecordError, SingleDatabase,
};
use ipmap::locations::{Location, LocationStore};
use ipmap::IpLookupTable;

fn v4(a: u8, b: u8, c: u8, d: u8) -> u32 {
    u32::from_be_bytes([a, b, c, d])
}

#[test]
fn subnets_of_ranges() {
    assert_eq!(<u32 as GenericIp>::range_subnets(v4(10, 0, 0, 0), v4(10, 0, 0, 255)), vec![(v4(10, 0, 0, 0), 24)]);
    assert_eq!(
        <u32 as GenericIp>::range_subnets(v4(10, 0, 0, 0), v4(10, 0, 0, 239)),
        vec![(v4(10, 0, 0, 0), 25), (v4(10, 0, 0, 128), 26), (v4(10, 0, 0, 192), 27), (v4(10, 0, 0, 224), 28)]
    );
    assert_eq!(<u32 as GenericIp>::range_subnets(v4(1, 2, 3, 4), v4(1, 2, 3, 4)), vec![(v4(1, 2, 3, 4), 32)]);
    assert_eq!(<u32 as GenericIp>::range_subnets(v4(1, 2, 3, 5), v4(1, 2, 3, 4)), vec![]);
    assert_eq!(<u32 as GenericIp>::range_subnets(0, u32::MAX), vec![(0, 0)]);
    assert_eq!(<u128 as GenericIp>::range_subnets(0, u128::MAX), vec![(0, 0)]);
    assert_eq!(<u128 as GenericIp>::range_subnets(1, 2), vec![(1, 128), (2, 128)]);
}

#[test]
fn database_range_lookup() {
    let here = PackedCoordinate { lat_u: 1000, lng_u: 2000 };
    let there = PackedCoordinate { lat_u: 3, lng_u: 4 };
    let mut db = SingleDatabase::<u32>::new();
    assert!(db.insert_range(v4(1, 0, 8, 0), v4(1, 0, 15, 255), here));
    assert!(db.insert_range(v4(1, 0, 16, 0), v4(1, 0, 16, 9), there));
    assert_eq!(db.get_coordinate(v4(1, 0, 9, 80)), Some(here));
    assert_eq!(db.get_coordinate(v4(1, 0, 8, 0)), Some(here));
    assert_eq!(db.get_coordinate(v4(1, 0, 15, 255)), Some(here));
    assert_eq!(db.get_coordinate(v4(1, 0, 16, 9)), Some(there));
    assert_eq!(db.get_coordinate(v4(1, 0, 16, 10)), None);
    assert_eq!(db.get_coordinate(v4(19, 0, 9, 80)), None);
}

#[test]
fn database_ipv6_range_lookup() {
    let c = PackedCoordinate { lat_u: 7, lng_u: 8 };
    let start: u128 = 0x2001_0002_0000_0000_0000_0000_0000_0000;
    let end: u128 = 0x2001_0002_0000_ffff_ffff_ffff_ffff_ffff;
    let mut db = SingleDatabase::<u128>::new();
    assert!(db.insert_range(start, end, c));
    assert_eq!(db.get_coordinate(start + 9), Some(c));
    assert_eq!(db.get_coordinate(0x3001_0002_0000_0000_0000_0000_0000_0009), None);
}

#[test]
fn insert_subnets_and_range_on_a_table() {
    let mut t = IpLookupTable::<u32, u8>::new();
    insert_subnets(&mut t, &[(v4(10, 0, 0, 0), 8), (v4(11, 0, 0, 0), 8)], 5);
    assert_eq!(t.len(), 2);
    assert!(insert_range(&mut t, v4(12, 0, 0, 0), v4(13, 255, 255, 255), 6));
    assert_eq!(t.exact_match(v4(12, 0, 0, 0), 7), Some(&6));
    assert_eq!(t.len(), 3);
    assert!(t.has_room(100));
}

fn info_location() -> Location {
    Location {
        city: Some("Guangzhou".to_string()),
        region: Some("Guangdong".to_string()),
        country_code: "CN".to_string(),
    }
}

fn csv_fields(lower: String, higher: String) -> Vec<Vec<u8>> {
    let line = format!("{lower},{higher},CN,Guangdong,,Guangzhou,,23.1317,113.266,");
    line.split(',').map(|f| f.as_bytes().to_vec()).collect()
}

const GUANGZHOU: PackedCoordinate = PackedCoordinate { lat_u: 40529, lng_u: 53385 };

#[test]
fn parse_ipv4() {
    let ipv4_lower: core::net::Ipv4Addr = "1.0.8.0".parse().unwrap();
    let ipv4_higher: core::net::Ipv4Addr = "1.0.15.255".parse().unwrap();
    let ipv4_valid: core::net::Ipv4Addr = "1.0.9.80".parse().unwrap();
    let ipv4_invalid: core::net::Ipv4Addr = "19.0.9.80".parse().unwrap();

    let mut ipv4_db = SingleDatabase::<u32>::new();
    assert_eq!(ipv4_db.store_row(&csv_fields(ipv4_lower.to_string(), ipv4_higher.to_string()), false, GUANGZHOU), Ok(()));
    let result = ipv4_db.get(u32::from(ipv4_valid)).unwrap();
    assert_eq!(result.crd, GUANGZHOU);
    assert_eq!(result.loc, info_location());
    assert_eq!(None, ipv4_db.get(u32::from(ipv4_invalid)));

    let mut ipv4_num_db = SingleDatabase::<u32>::new();
    assert_eq!(
        ipv4_num_db.store_row(
            &csv_fields(u32::from(ipv4_lower).to_string(), u32::from(ipv4_higher).to_string()),
            true,
            GUANGZHOU
        ),
        Ok(())
    );
    let result = ipv4_num_db.get(u32::from(ipv4_valid)).unwrap();
    assert_eq!(result.crd, GUANGZHOU);
    assert_eq!(result.loc, info_location());
    assert_eq!(None, ipv4_num_db.get(u32::from(ipv4_invalid)));
}

#[test]
fn parse_ipv6() {
    let ipv6_lower: core::net::Ipv6Addr = "2001:2::".parse().unwrap();
    let ipv6_higher: core::net::Ipv6Addr = "2001:2::ffff:ffff:ffff:ffff:ffff".parse().unwrap();
    let ipv6_valid: core::net::Ipv6Addr = "2001:2::9".parse().unwrap();
    let ipv6_invalid: core::net::Ipv6Addr = "3001:2::9".parse().unwrap();

    let mut ipv6_db = SingleDatabase::<u128>::new();
    assert_eq!(ipv6_db.store_row(&csv_fields(ipv6_lower.to_string(), ipv6_higher.to_string()), false, GUANGZHOU), Ok(()));
    let result = ipv6_db.get(u128::from(ipv6_valid)).unwrap();
    assert_eq!(result.crd, GUANGZHOU);
    assert_eq!(result.loc, info_location());
    assert_eq!(None, ipv6_db.get(u128::from(ipv6_invalid)));

    let mut ipv6_num_db = SingleDatabase::<u128>::new();
    assert_eq!(
        ipv6_num_db.store_row(
            &csv_fields(u128::from(ipv6_lower).to_string(), u128::from(ipv6_higher).to_string()),
            true,
            GUANGZHOU
        ),
        Ok(())
    );
    let result = ipv6_num_db.get(u128::from(ipv6_valid)).unwrap();
    assert_eq!(result.crd, GUANGZHOU);
    assert_eq!(result.loc, info_location());
    assert_eq!(None, ipv6_num_db.get(u128::from(ipv6_invalid)));
}

#[test]
fn store_row_errors() {
    let mut ips = ipmap::IpLookupTable::<u32, PackedCoordinate>::new();
    let mut locations = LocationStore::new();
    let short: Vec<Vec<u8>> = vec![b"1.0.0.0".to_vec(), b"1.0.0.255".to_vec()];
    assert_eq!(store_row(&mut ips, &mut locations, &short, false, GUANGZHOU), Err(RecordError::NotEnoughColumns));
    assert_eq!(locations.get(GUANGZHOU), None);

    let bad = csv_fields("1.0.0.x".to_string(), "1.0.0.255".to_string());
    assert_eq!(store_row(&mut ips, &mut locations, &bad, false, GUANGZHOU), Err(RecordError::MalformedIp));
    assert_eq!(ips.len(), 0);
    assert_eq!(locations.get(GUANGZHOU), Some(info_location()));

    let text_as_num = csv_fields("1.0.0.0".to_string(), "1.0.0.255".to_string());
    assert_eq!(store_row(&mut ips, &mut locations, &text_as_num, true, GUANGZHOU), Err(RecordError::MalformedIp));
    let too_big = csv_fields("1".to_string(), "4294967296".to_string());
    assert_eq!(store_row(&mut ips, &mut locations, &too_big, true, GUANGZHOU), Err(RecordError::MalformedIp));

    let ok = csv_fields("16777216".to_string(), "+16777471".to_string());
    assert_eq!(store_row(&mut ips, &mut locations, &ok, true, GUANGZHOU), Ok(()));
    assert_eq!(ips.len(), 1);
    assert_eq!(ips.exact_match(16777216, 24), Some(&GUANGZHOU));
}

#[test]
fn combined_database_shares_its_locations() {
    let mut db = CombinedDatabase::new();
    assert_eq!(db.store_ipv4_row(&csv_fields("1.0.8.0".to_string(), "1.0.15.255".to_string()), false, GUANGZHOU), Ok(()));
    assert_eq!(
        db.store_ipv6_row(&csv_fields("2001:2::".to_string(), "2001:2::ffff:ffff:ffff:ffff:ffff".to_string()), false, GUANGZHOU),
        Ok(())
    );
    assert_eq!(db.locations.strings_len(), 2);
    let v4 = db.get(IpAddress::V4(u32::from_be_bytes([1, 0, 9, 80]))).unwrap();
    assert_eq!((v4.crd, v4.loc), (GUANGZHOU, info_location()));
    let v6 = db.get(IpAddress::V6(0x2001_0002_0000_0000_0000_0000_0000_0009)).unwrap();
    assert_eq!((v6.crd, v6.loc), (GUANGZHOU, info_location()));
    assert_eq!(db.get(IpAddress::V4(u32::from_be_bytes([19, 0, 9, 80]))), None);
    assert_eq!(db.get_coordinate(IpAddress::V6(0x3001_0002_0000_0000_0000_0000_0000_0009)), None);
    assert_eq!(db.get_location(PackedCoordinate { lat_u: 1, lng_u: 1 }), None);
}

#[test]
fn parse() {
    let ipv4_lower: core::net::Ipv4Addr = "1.0.8.0".parse().unwrap();
    let ipv4_higher: core::net::Ipv4Addr = "1.0.15.255".parse().unwrap();
    let ipv4_valid: core::net::Ipv4Addr = "1.0.9.80".parse().unwrap();
    let ipv4_invalid: core::net::Ipv4Addr = "19.0.9.80".parse().unwrap();

    let mut ipv4_db = SingleDatabase::<u32>::new();
    ipv4_db.store_row(&csv_fields(ipv4_lower.to_string(), ipv4_higher.to_string()), false, GUANGZHOU).unwrap();
    let found = ipv4_db.get(u32::from(ipv4_valid)).unwrap();
    assert_eq!((found.crd, found.loc), (GUANGZHOU, info_location()));
    assert_eq!(None, ipv4_db.get(u32::from(ipv4_invalid)));

    let mut ipv4_num_db = SingleDatabase::<u32>::new();
    ipv4_num_db
        .store_row(&csv_fields(ipv4_lower.to_bits().to_string(), ipv4_higher.to_bits().to_string()), true, GUANGZHOU)
        .unwrap();
    let found = ipv4_num_db.get(u32::from(ipv4_valid)).unwrap();
    assert_eq!((found.crd, found.loc), (GUANGZHOU, info_location()));
    assert_eq!(None, ipv4_num_db.get(u32::from(ipv4_invalid)));

    let ipv6_lower: core::net::Ipv6Addr = "2001:2::".parse().unwrap();
    let ipv6_higher: core::net::Ipv6Addr = "2001:2::ffff:ffff:ffff:ffff:ffff".parse().unwrap();
    let ipv6_valid: core::net::Ipv6Addr = "2001:2::9".parse().unwrap();
    let ipv6_invalid: core::net::Ipv6Addr = "3001:2::9".parse().unwrap();

    let mut ipv6_db = SingleDatabase::<u128>::new();
    ipv6_db.store_row(&csv_fields(ipv6_lower.to_string(), ipv6_higher.to_string()), false, GUANGZHOU).unwrap();
    let found = ipv6_db.get(u128::from(ipv6_valid)).unwrap();
    assert_eq!((found.crd, found.loc), (GUANGZHOU, info_location()));
    assert_eq!(None, ipv6_db.get(u128::from(ipv6_invalid)));

    let mut ipv6_num_db = SingleDatabase::<u128>::new();
    ipv6_num_db
        .store_row(&csv_fields(ipv6_lower.to_bits().to_string(), ipv6_higher.to_bits().to_string()), true, GUANGZHOU)
        .unwrap();
    let found = ipv6_num_db.get(u128::from(ipv6_valid)).unwrap();
    assert_eq!((found.crd, found.loc), (GUANGZHOU, info_location()));
    assert_eq!(None, ipv6_num_db.get(u128::from(ipv6_invalid)));
}
