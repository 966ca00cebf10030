use ipmap::ipdb::str_from_byte_record;
use ipmap::sources::{url_filename_guess, DatabaseSource, DbSetInfo};

#[test]
fn filename_guess_cases() {
    assert_eq!(url_filename_guess("https://example.com/dbs/city.csv"), "city.csv");
    assert_eq!(url_filename_guess(r"C:\Users\me\geo.mmdb"), "geo.mmdb");
    assert_eq!(url_filename_guess(r"mixed/path\last"), "last");
    assert_eq!(url_filename_guess("plainname"), "unknown");
    assert_eq!(url_filename_guess(""), "unknown");
    assert_eq!(url_filename_guess("ends/with/"), "");
    assert_eq!(url_filename_guess("dir/ünïcödé.csv"), "ünïcödé.csv");
}

#[test]
fn database_source_names() {
    assert_eq!(DatabaseSource::DbIpCombined.to_string(), "DB-IP City");
    assert_eq!(DatabaseSource::Geolite2Combined.to_string(), "Geolite2 City");
    assert_eq!(DatabaseSource::File("/home/me/dbip.csv".to_string()).to_string(), "dbip.csv");
    assert_eq!(DatabaseSource::File("nofolder".to_string()).to_string(), "unknown");
    let info = DbSetInfo { selected: Some(DatabaseSource::DbIpCombined), loaded: vec![DatabaseSource::DbIpCombined] };
    assert_eq!(info.clone(), info);
}

#[test]
fn byte_record_fields() {
    assert_eq!(str_from_byte_record(b""), None);
    assert_eq!(str_from_byte_record(b"Berlin"), Some("Berlin".to_string()));
    assert_eq!(str_from_byte_record(&[0x61, 0xff, 0x62]), Some("a\u{fffd}b".to_string()));
}
