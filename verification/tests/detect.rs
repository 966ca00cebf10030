use ipmap::detect::{csv_kind, detect_csv_kind, first_field, is_gzip, CsvKind, DetectError};
use ipmap::progress::{ProgressReporter, SharedProgress};
use ipmap::trace::{latest_round, merge_hops};

#[test]
fn gzip_magic() {
    assert!(is_gzip(&[0x1f, 0x8b, 0x08]));
    assert!(!is_gzip(&[0x1f]));
    assert!(!is_gzip(b"1.0.0.0,1.0.0.255"));
}

#[test]
fn first_fields() {
    assert_eq!(first_field(b"1.0.8.0,1.0.15.255,CN"), b"1.0.8.0");
    assert_eq!(first_field(b"16779264"), b"16779264");
    assert_eq!(first_field(b",x"), b"");
    assert_eq!(first_field(b""), b"");
}

#[test]
fn csv_kinds() {
    // "1.0.8.0" reads as an IPv4 address
    assert_eq!(csv_kind(Some(false), false, false), Ok(CsvKind { is_num: false, is_ipv6: false }));
    // "2001:2::" reads as an IPv6 address
    assert_eq!(csv_kind(Some(true), false, false), Ok(CsvKind { is_num: false, is_ipv6: true }));
    // "16779264" is a number that fits 32 bits
    assert_eq!(csv_kind(None, true, true), Ok(CsvKind { is_num: true, is_ipv6: false }));
    // a number that needs more than 32 bits
    assert_eq!(csv_kind(None, false, true), Ok(CsvKind { is_num: true, is_ipv6: true }));
    assert_eq!(csv_kind(None, false, false), Err(DetectError::InvalidFormat));
}

#[test]
fn progress_reports_are_spaced() {
    let mut p = ProgressReporter::new(Some(1000), 0, 500);
    assert_eq!(p.on_chunk(100, 100), None);
    assert_eq!(p.on_chunk(100, 499), None);
    assert_eq!(p.on_chunk(100, 500), Some((300, 1000)));
    assert_eq!(p.on_chunk(100, 900), None);
    assert_eq!(p.on_chunk(100, 1000), Some((500, 1000)));
    let mut unknown = ProgressReporter::new(None, 0, 0);
    assert_eq!(unknown.on_chunk(7, 10_000), None);
    assert_eq!(unknown.count, 7);
}

#[test]
fn traceroute_rounds() {
    assert_eq!(latest_round(&[]), None);
    assert_eq!(latest_round(&[None, None]), None);
    assert_eq!(latest_round(&[Some(1), None, Some(3), Some(2)]), Some(3));
}

#[test]
fn detect_text_and_number_databases() {
    assert_eq!(detect_csv_kind(b"1.0.0.0,1.0.0.255,AU,Queensland,,Brisbane"), Ok(CsvKind { is_num: false, is_ipv6: false }));
    assert_eq!(detect_csv_kind(b"2001:200::,2001:200::ffff,JP,Tokyo,,Tokyo,,35.6"), Ok(CsvKind { is_num: false, is_ipv6: true }));
    assert_eq!(detect_csv_kind(b"16777216,16777471,AU,Queensland,,Brisbane,,-27"), Ok(CsvKind { is_num: true, is_ipv6: false }));
    assert_eq!(
        detect_csv_kind(b"42540528726795050063891204319802818560,42540528726795050063891204319802818561,JP"),
        Ok(CsvKind { is_num: true, is_ipv6: true })
    );
    assert_eq!(detect_csv_kind(b"+7,9,AU"), Ok(CsvKind { is_num: true, is_ipv6: false }));
    assert_eq!(detect_csv_kind(b"4294967296,x"), Ok(CsvKind { is_num: true, is_ipv6: true }));
}

#[test]
fn detect_refuses_what_is_no_database() {
    assert_eq!(detect_csv_kind(b"hello,world"), Err(DetectError::InvalidFormat));
    assert_eq!(detect_csv_kind(b"-1,2"), Err(DetectError::InvalidFormat));
    assert_eq!(detect_csv_kind(b",1.0.0.0"), Err(DetectError::InvalidFormat));
    assert_eq!(detect_csv_kind(&[0xff, 0xfe, b',', b'1']), Err(DetectError::NoRecords));
    assert_eq!(detect_csv_kind(&[b'1', 0xc3, b',']), Err(DetectError::NoRecords));
}

#[test]
fn merge_hops_folds_runs_of_one_location() {
    let hops = vec![
        (vec![1u128], Some(7u32)),
        (vec![2, 3], Some(7)),
        (vec![4], None),
        (vec![], None),
        (vec![5], Some(7)),
        (vec![6], Some(8)),
    ];
    assert_eq!(
        merge_hops(hops),
        vec![(vec![1u128, 2, 3], Some(7u32)), (vec![4], None), (vec![5], Some(7)), (vec![6], Some(8))]
    );
    assert_eq!(merge_hops(vec![]), vec![]);
    assert_eq!(merge_hops(vec![(vec![9u128], None)]), vec![(vec![9u128], None)]);
}

#[test]
fn merged_hops_keep_every_address_and_differ_from_their_neighbours() {
    let hops = vec![(vec![10u128], Some(1u32)), (vec![11], Some(1)), (vec![12], Some(2)), (vec![13], Some(2)), (vec![14], Some(1))];
    let all: Vec<u128> = hops.iter().flat_map(|h| h.0.clone()).collect();
    let merged = merge_hops(hops);
    let merged_all: Vec<u128> = merged.iter().flat_map(|h| h.0.clone()).collect();
    assert_eq!(all, merged_all);
    assert_eq!(merged.len(), 3);
    for w in merged.windows(2) {
        assert_ne!(w[0].1, w[1].1);
    }
}

#[test]
fn shared_progress_sums_downloads() {
    let mut p = SharedProgress::new(500);
    p.add_total(100);
    p.add_total(50);
    assert_eq!(p.on_chunk(10, 100), None);
    assert_eq!(p.on_chunk(20, 600), Some((30, 150)));
    assert_eq!(p.on_chunk(5, 700), None);
    assert_eq!(p.on_chunk(5, 1100), Some((40, 150)));
    assert_eq!(p.last_reported, 1100);
    let mut q = SharedProgress::new(0);
    assert_eq!(q.on_chunk(7, 0), Some((7, 0)));
}
