use ipmap::database::PackedCoordinate;
use ipmap::locations::{CountryCode, Location, LocationStore, StringDict};

#[test]
fn location_country_code() {
    assert_eq!("us", CountryCode::from("us").to_string());
    assert_eq!("us", CountryCode::from("usa").to_string());
    assert_eq!("??", CountryCode::from("!").to_string());
}

#[test]
fn locations_country_code() {
    assert_eq!("us", CountryCode::from("us").to_string());
    assert_eq!("us", CountryCode::from("usa").to_string());
    assert_eq!("??", CountryCode::from("!").to_string());
}

#[test]
fn country_code_from_bytes() {
    let bytes: &[u8] = b"DE";
    assert_eq!(CountryCode::from(bytes).to_string(), "DE");
    assert_eq!(CountryCode::from_bytes(b"").to_string(), "??");
    assert_eq!(CountryCode::from_bytes(&[0, 0, 7]).to_string(), "??");
    assert_eq!(CountryCode::from_bytes(b"fr"), CountryCode::from("fr"));
    assert_ne!(CountryCode::from("fr"), CountryCode::from("de"));
}

#[test]
fn location_record() {
    let loc = Location { city: Some("Paris".to_string()), region: None, country_code: CountryCode::from("FR").to_string() };
    assert_eq!(loc.country_code, "FR");
    assert_eq!(loc.clone(), loc);
}

#[test]
fn string_dict() {
    let mut s = StringDict::new();

    let city = "A Region".to_string();
    let region = "City Name Here".to_string();

    let city_idx = s.insert_str(city.clone()).unwrap();
    let region_idx = s.insert_bytes(region.as_bytes()).unwrap();

    assert_eq!(Some(city), s.get(city_idx));
    assert_eq!(Some(region), s.get(region_idx));
}

#[test]
fn string_dict_stores_each_string_once() {
    let mut s = StringDict::new();
    assert_eq!(s.insert_bytes(b"Berlin"), Some(1));
    assert_eq!(s.insert_bytes(b"Paris"), Some(2));
    assert_eq!(s.insert_bytes(b"BERLIN"), Some(1));
    assert_eq!(s.insert_str("paris".to_string()), Some(2));
    assert_eq!(s.len(), 2);
    assert_eq!(s.insert_bytes(b""), None);
    assert_eq!(s.insert_str(String::new()), None);
    assert_eq!(s.insert_bytes(&[0xff, 0xfe]), None);
    assert_eq!(s.len(), 2);
    assert_eq!(s.get(1), Some("Berlin".to_string()));
    assert_eq!(s.get(3), None);
}

#[test]
fn location_store_keeps_the_first_location() {
    let here = PackedCoordinate { lat_u: 100, lng_u: 200 };
    let there = PackedCoordinate { lat_u: 200, lng_u: 100 };
    let mut store = LocationStore::new();
    assert_eq!(store.get(here), None);
    store.insert(here, b"Guangzhou", b"Guangdong", b"CN");
    store.insert(here, b"Shenzhen", b"Guangdong", b"CN");
    store.insert(there, b"", b"new york", b"US");
    assert_eq!(store.strings_len(), 3);
    assert_eq!(
        store.get(here),
        Some(Location {
            city: Some("Guangzhou".to_string()),
            region: Some("Guangdong".to_string()),
            country_code: "CN".to_string(),
        })
    );
    assert_eq!(
        store.get(there),
        Some(Location { city: None, region: Some("New York".to_string()), country_code: "US".to_string() })
    );
    assert_eq!(store.get(PackedCoordinate { lat_u: 100, lng_u: 201 }), None);
}
