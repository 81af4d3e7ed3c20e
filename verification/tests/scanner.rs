use alioth::backend::drm::scanner::{
    collect_drivers, lookup, Assignment, ConnectorReading, ConnectorScanner, ScanEvent,
};

fn reading(connector: u32, connected: bool, crtc: Option<u32>) -> ConnectorReading {
    ConnectorReading { connector, connected, crtc }
}

#[test]
fn first_scan_reports_each_driven_connector() {
    let mut scanner = ConnectorScanner::new();
    let events = scanner.scan_connectors(&vec![
        reading(31, true, Some(7)),
        reading(32, false, None),
        reading(33, true, Some(9)),
    ]);
    assert_eq!(
        events,
        vec![
            ScanEvent::Connected { connector: 31, crtc: 7 },
            ScanEvent::Connected { connector: 33, crtc: 9 },
        ]
    );
    assert_eq!(scanner.crtc_for_connector(31), Some(7));
    assert_eq!(scanner.crtc_for_connector(32), None);
    assert_eq!(scanner.crtc_for_connector(33), Some(9));
}

#[test]
fn connected_connector_without_crtc_yields_nothing() {
    let mut scanner = ConnectorScanner::new();
    let events = scanner.scan_connectors(&vec![reading(31, true, None)]);
    assert_eq!(events, Vec::new());
    assert_eq!(scanner.assignments, Vec::new());
}

#[test]
fn disconnected_connector_with_crtc_yields_nothing() {
    let mut scanner = ConnectorScanner::new();
    let events = scanner.scan_connectors(&vec![reading(31, false, Some(7))]);
    assert_eq!(events, Vec::new());
}

#[test]
fn second_scan_of_the_same_reading_finds_nothing() {
    let snapshot = vec![reading(31, true, Some(7)), reading(33, true, Some(9))];
    let mut scanner = ConnectorScanner::new();
    let first = scanner.scan_connectors(&snapshot);
    assert_eq!(first.len(), 2);
    let held = scanner.assignments.clone();
    let second = scanner.scan_connectors(&snapshot);
    assert_eq!(second, Vec::new());
    assert_eq!(scanner.assignments, held);
}

#[test]
fn disconnects_come_before_connects() {
    let mut scanner = ConnectorScanner::new();
    scanner.scan_connectors(&vec![reading(31, true, Some(7)), reading(32, true, Some(8))]);
    let events = scanner.scan_connectors(&vec![
        reading(31, false, None),
        reading(32, true, Some(8)),
        reading(33, true, Some(7)),
    ]);
    assert_eq!(
        events,
        vec![
            ScanEvent::Disconnected { connector: 31, crtc: 7 },
            ScanEvent::Connected { connector: 33, crtc: 7 },
        ]
    );
    assert_eq!(
        scanner.assignments,
        vec![
            Assignment { connector: 32, crtc: 8 },
            Assignment { connector: 33, crtc: 7 },
        ]
    );
}

#[test]
fn connector_that_vanishes_from_the_reading_is_disconnected() {
    let mut scanner = ConnectorScanner::new();
    scanner.scan_connectors(&vec![reading(31, true, Some(7))]);
    let events = scanner.scan_connectors(&Vec::new());
    assert_eq!(events, vec![ScanEvent::Disconnected { connector: 31, crtc: 7 }]);
}

#[test]
fn change_of_crtc_is_a_disconnect_and_a_connect() {
    let mut scanner = ConnectorScanner::new();
    scanner.scan_connectors(&vec![reading(31, true, Some(7))]);
    let events = scanner.scan_connectors(&vec![reading(31, true, Some(9))]);
    assert_eq!(
        events,
        vec![
            ScanEvent::Disconnected { connector: 31, crtc: 7 },
            ScanEvent::Connected { connector: 31, crtc: 9 },
        ]
    );
}

#[test]
fn first_driving_reading_of_a_connector_counts() {
    let now = collect_drivers(&vec![
        reading(31, true, None),
        reading(31, true, Some(7)),
        reading(31, true, Some(9)),
    ]);
    assert_eq!(now, vec![Assignment { connector: 31, crtc: 7 }]);
}

#[test]
fn lookup_takes_the_last_entry_of_a_connector() {
    let list = vec![
        Assignment { connector: 31, crtc: 7 },
        Assignment { connector: 32, crtc: 8 },
        Assignment { connector: 31, crtc: 9 },
    ];
    assert_eq!(lookup(&list, 31), Some(9));
    assert_eq!(lookup(&list, 32), Some(8));
    assert_eq!(lookup(&list, 33), None);
}
