use ipmap::traffic::{
    packet_direction, ActiveConnectionTracker, ConnectionDirection, InactiveConnectionRecord, PacketDirection,
    ThroughputTracker,
};

#[test]
fn throughput_add_sample_and_info() {
    let mut t = ThroughputTracker::new();
    t.add_sample(100, 1_000);
    t.add_sample(50, 2_000);
    t.add_sample(25, 3_000);
    // at 3_500 with a window of 3_000 nothing is older than the window
    assert_eq!(t.info(3_500, 3_000), (175, 175));
    // with a window of 2_000 the first sample (2_500 old) is too old
    assert_eq!(t.info(3_500, 2_000), (175, 75));
    // at 3_500 with a window of 1_000 the first two samples are too old
    assert_eq!(t.info(3_500, 1_000), (175, 25));
    // much later nothing is left in the window, the total stays
    assert_eq!(t.info(1_000_000, 1_000), (175, 0));
    assert_eq!(t.info(1_000_000, 1_000), (175, 0));
}

#[test]
fn throughput_sample_exactly_at_the_window_edge_stays() {
    let mut t = ThroughputTracker::new();
    t.add_sample(10, 1_000);
    // 1_000 ns old with a 1_000 ns window: not older than the window
    assert_eq!(t.info(2_000, 1_000), (10, 10));
    assert_eq!(t.info(2_001, 1_000), (10, 0));
    // a clock reading before the sample counts as no time at all
    t.add_sample(5, 5_000);
    assert_eq!(t.info(4_000, 0), (15, 5));
}

#[test]
fn active_connection_directions() {
    let mut c = ActiveConnectionTracker::new();
    c.add_sample(PacketDirection::Up, 1500, 10);
    c.add_sample(PacketDirection::Down, 40, 11);
    c.add_sample(PacketDirection::Up, 500, 12);
    assert_eq!(c.info(12, 100), ((2000, 2000), (40, 40)));
    let record = InactiveConnectionRecord::from(c);
    assert_eq!(record, InactiveConnectionRecord { up_total: 2000, down_total: 40 });
    let mut back = ActiveConnectionTracker::from_record(record);
    assert_eq!(back.info(10_000, 100), ((2000, 0), (40, 0)));
    back.add_sample(PacketDirection::Down, 2, 10_001);
    assert_eq!(back.info(10_001, 100), ((2000, 0), (42, 2)));
}

#[test]
fn packet_direction_cases() {
    assert_eq!(packet_direction(1u8, 2u8, false, true), Some((PacketDirection::Up, 2)));
    assert_eq!(packet_direction(1u8, 2u8, true, false), Some((PacketDirection::Down, 1)));
    assert_eq!(packet_direction(1u8, 2u8, true, true), None);
    assert_eq!(packet_direction(1u8, 2u8, false, false), None);
}

#[test]
fn connection_direction_default() {
    assert_eq!(ConnectionDirection::default(), ConnectionDirection::Mixed);
}
