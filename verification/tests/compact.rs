use ipmap::compact::{CompactDatabase, CompactError};
use ipmap::ipdb::{DatabaseType, IpType};

fn row(line: &str) -> Vec<Vec<u8>> {
    line.split(',').map(|f| f.as_bytes().to_vec()).collect()
}

#[test]
fn compact_database_reads_rows() {
    let mut db = CompactDatabase::<u32>::new("dbs/city-ipv4-num.csv", None, "today".to_string());
    assert_eq!(db.store_row(&row("16779264,16781311,CN,Guangdong,,Guangzhou,,23.1,113.3"), Some((1, 2))), Ok(()));
    assert_eq!(db.store_row(&row("16781312,16785407,JP,Tokyo,,Shinjuku,,35.7,139.7"), Some((1, 2))), Ok(()));
    assert_eq!(db.store_row(&row("16785408,16793599,JP,,,,,,"), None), Ok(()));
    assert_eq!(db.store_row(&row("x,16793599,JP,,,,,1,1"), Some((3, 4))), Err(CompactError::MalformedRange));

    assert_eq!(db.get(16779264), Some((1, 2)));
    assert_eq!(db.get(16785407), Some((1, 2)));
    assert_eq!(db.get(16785408), None);
    assert_eq!(db.get(1), None);

    // the first location read for a coordinate is kept
    let info = db.get_location_info((1, 2)).unwrap();
    assert_eq!(info.city, Some("Guangzhou".to_string()));
    assert_eq!(info.state, Some("Guangdong".to_string()));
    assert_eq!(info.country_code, "CN");
    assert_eq!(db.get_location_info((3, 4)), None);

    let meta = db.get_db_info();
    assert_eq!(meta.name, "city-ipv4-num");
    assert_eq!(meta.kind, IpType::IPv4);
    assert_eq!(meta.query, DatabaseType::Loaded("dbs/city-ipv4-num.csv".to_string()));
    assert_eq!(meta.attribution_text, None);
    assert_eq!(meta.build_time, "today");
    assert_eq!(meta.unique_locations, 1);
    // the empty name, then "guangzhou" and "guangdong"
    assert_eq!(meta.strings, 3);
}

#[test]
fn compact_database_built_in_and_backwards_ranges() {
    let mut db = CompactDatabase::<u128>::new("/x/city-ipv6-num.csv.gz", Some("data by someone".to_string()), String::new());
    let meta = db.get_db_info();
    assert_eq!(meta.name, "city-ipv6-num.csv (built in)");
    assert_eq!(meta.kind, IpType::IPv6);
    assert_eq!(meta.query, DatabaseType::Internal);
    assert_eq!(meta.attribution_text, Some("data by someone".to_string()));
    assert_eq!(db.try_store_row(&row("9,2,US,,,,,1,1"), Some((5, 6))), None);
    assert_eq!(db.get(5), None);
    assert_eq!(db.try_store_row(&row("2,9,US,,,,,1,1"), Some((5, 6))), Some(Ok(())));
    assert_eq!(db.get(5), Some((5, 6)));
    let info = db.get_location_info((5, 6)).unwrap();
    assert_eq!(info.city, Some(String::new()));
    assert_eq!(info.state, Some(String::new()));
    assert_eq!(info.country_code, "US");
}

#[test]
fn compact_rows_without_coordinate_are_skipped_whatever_their_range() {
    let mut db = CompactDatabase::<u32>::new("a.csv", None, String::new());
    assert_eq!(db.try_store_row(&row("9,2,US,,,,,,"), None), Some(Ok(())));
    assert_eq!(db.try_store_row(&row("x,2,US,,,,,,"), None), Some(Err(CompactError::MalformedRange)));
    assert_eq!(db.get(5), None);
    assert_eq!(db.names_len(), 1);
}
