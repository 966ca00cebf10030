use ipmap::capture::{changed_coordinates, group_by_coordinate};
use ipmap::database::PackedCoordinate;

#[test]
fn group_connections_by_coordinate() {
    let a = PackedCoordinate { lat_u: 1, lng_u: 2 };
    let b = PackedCoordinate { lat_u: 3, lng_u: 4 };
    let ips = vec![10u128, 11, 12, 13, 14, 15];
    let coords = vec![Some(a), None, Some(b), Some(a), None, Some(a)];
    let (groups, not_found) = group_by_coordinate(&ips, &coords);
    assert_eq!(groups, vec![(a, vec![10u128, 13, 15]), (b, vec![12])]);
    assert_eq!(not_found, vec![11u128, 14]);
}

#[test]
fn group_nothing() {
    let (groups, not_found) = group_by_coordinate(&vec![], &vec![]);
    assert!(groups.is_empty());
    assert!(not_found.is_empty());
    let (groups, not_found) = group_by_coordinate(&vec![1u128, 2], &vec![None, None]);
    assert!(groups.is_empty());
    assert_eq!(not_found, vec![1u128, 2]);
}

#[test]
fn changed_coordinates_once_each() {
    let a = PackedCoordinate { lat_u: 1, lng_u: 2 };
    let b = PackedCoordinate { lat_u: 3, lng_u: 4 };
    assert_eq!(changed_coordinates(&vec![Some(a), None, Some(b), Some(a), None]), vec![a, b]);
    assert_eq!(changed_coordinates(&vec![None, None]), vec![]);
    assert_eq!(changed_coordinates(&vec![]), vec![]);
}
