//! The connector scanner: what changed between two readings of a device's connectors.

use vstd::prelude::*;

verus! {

/// What the driver reports of one connector: whether a monitor is connected to it, and
/// the CRTC that is assigned to it, if any.
#[derive(Clone, Copy, Debug, PartialEq, Eq, Structural)]
pub struct ConnectorReading {
    pub connector: u32,
    pub connected: bool,
    pub crtc: Option<u32>,
}

/// A connected connector and the CRTC that drives it.
#[derive(Clone, Copy, Debug, PartialEq, Eq, Structural)]
pub struct Assignment {
    pub connector: u32,
    pub crtc: u32,
}

/// A change that a scan found.
#[derive(Clone, Copy, Debug, PartialEq, Eq, Structural)]
pub enum ScanEvent {
    /// The connector now drives a monitor through this CRTC.
    Connected { connector: u32, crtc: u32 },
    /// The connector no longer drives a monitor through this CRTC.
    Disconnected { connector: u32, crtc: u32 },
}

impl ConnectorReading {
    /// A reading drives a monitor if one is connected and a CRTC is assigned.
    pub open spec fn driving(self) -> bool {
        self.connected && self.crtc is Some
    }
}

/// The CRTC that the list assigns to the connector. Where the connector occurs more than
/// once the last entry counts; in a list without repetition there is only one.
pub open spec fn assigned(list: Seq<Assignment>, connector: u32) -> Option<u32>
    decreases list.len(),
{
    if list.len() == 0 {
        None
    } else if list.last().connector == connector {
        Some(list.last().crtc)
    } else {
        assigned(list.drop_last(), connector)
    }
}

/// No connector occurs twice in the list.
pub open spec fn distinct_connectors(list: Seq<Assignment>) -> bool {
    forall|i: int, j: int|
        0 <= i < j < list.len() ==> (#[trigger] list[i]).connector != (#[trigger] list[j]).connector
}

/// The assignments that a reading of all connectors amounts to: one for each connector
/// that drives a monitor, in the order of the reading. Of several readings of one
/// connector the first that drives a monitor counts.
pub open spec fn drivers(snapshot: Seq<ConnectorReading>) -> Seq<Assignment>
    decreases snapshot.len(),
{
    if snapshot.len() == 0 {
        Seq::empty()
    } else {
        let before = drivers(snapshot.drop_last());
        let reading = snapshot.last();
        if reading.driving() && assigned(before, reading.connector) is None {
            before.push(Assignment { connector: reading.connector, crtc: reading.crtc.unwrap() })
        } else {
            before
        }
    }
}

/// The `Disconnected` events of a scan: one for each earlier assignment that the new
/// assignments no longer hold, in the earlier order.
pub open spec fn departures(earlier: Seq<Assignment>, now: Seq<Assignment>) -> Seq<ScanEvent>
    decreases earlier.len(),
{
    if earlier.len() == 0 {
        Seq::empty()
    } else {
        let before = departures(earlier.drop_last(), now);
        let entry = earlier.last();
        if assigned(now, entry.connector) == Some(entry.crtc) {
            before
        } else {
            before.push(ScanEvent::Disconnected { connector: entry.connector, crtc: entry.crtc })
        }
    }
}

/// The `Connected` events of a scan: one for each new assignment that the earlier
/// assignments did not hold, in the new order.
pub open spec fn arrivals(earlier: Seq<Assignment>, now: Seq<Assignment>) -> Seq<ScanEvent>
    decreases now.len(),
{
    if now.len() == 0 {
        Seq::empty()
    } else {
        let before = arrivals(earlier, now.drop_last());
        let entry = now.last();
        if assigned(earlier, entry.connector) == Some(entry.crtc) {
            before
        } else {
            before.push(ScanEvent::Connected { connector: entry.connector, crtc: entry.crtc })
        }
    }
}

/// What a reading shows of a connector: the CRTC of the first of its readings that
/// drives a monitor.
pub open spec fn shows(snapshot: Seq<ConnectorReading>, connector: u32) -> Option<u32>
    decreases snapshot.len(),
{
    if snapshot.len() == 0 {
        None
    } else {
        match shows(snapshot.drop_last(), connector) {
            Some(crtc) => Some(crtc),
            None => if snapshot.last().connector == connector && snapshot.last().driving() {
                snapshot.last().crtc
            } else {
                None
            },
        }
    }
}

/// The assignments as a map from the connector to the CRTC that drives it.
pub open spec fn assignment_map(list: Seq<Assignment>) -> Map<u32, u32> {
    Map::new(|connector: u32| assigned(list, connector) is Some, |connector: u32|
        assigned(list, connector).unwrap())
}

/// The events of a scan: what left, then what came.
pub open spec fn scan_events(earlier: Seq<Assignment>, now: Seq<Assignment>) -> Seq<ScanEvent> {
    departures(earlier, now) + arrivals(earlier, now)
}

/// An assigned connector occurs in the list with that CRTC, and each entry of the list
/// names a connector that is assigned.
pub proof fn lemma_assigned_occurs(list: Seq<Assignment>, connector: u32)
    ensures
        assigned(list, connector) matches Some(crtc) ==> list.contains(
            Assignment { connector, crtc },
        ),
        assigned(list, connector) is None ==> forall|i: int|
            0 <= i < list.len() ==> (#[trigger] list[i]).connector != connector,
    decreases list.len(),
{
    if list.len() > 0 {
        let front = list.drop_last();
        lemma_assigned_occurs(front, connector);
        if list.last().connector == connector {
            assert(list[list.len() - 1] == Assignment { connector, crtc: list.last().crtc });
        } else {
            if let Some(crtc) = assigned(front, connector) {
                let entry = Assignment { connector, crtc };
                let i = choose|i: int| 0 <= i < front.len() && front[i] == entry;
                assert(list[i] == entry);
            } else {
                assert forall|i: int| 0 <= i < list.len() implies (
                #[trigger] list[i]).connector != connector by {
                    if i < front.len() {
                        assert(list[i] == front[i]);
                    }
                }
            }
        }
    }
}

/// In a list without repetition each entry is what the list assigns to its connector.
pub proof fn lemma_distinct_assigned(list: Seq<Assignment>, i: int)
    requires
        distinct_connectors(list),
        0 <= i < list.len(),
    ensures
        assigned(list, list[i].connector) == Some(list[i].crtc),
    decreases list.len(),
{
    if i < list.len() - 1 {
        let front = list.drop_last();
        assert(list[i].connector != list[list.len() - 1].connector);
        assert(forall|k: int| 0 <= k < front.len() ==> front[k] == list[k]);
        lemma_distinct_assigned(front, i);
    }
}

/// The assignments of a reading name no connector twice, and each comes from a reading
/// that drives a monitor.
pub proof fn lemma_drivers(snapshot: Seq<ConnectorReading>)
    ensures
        distinct_connectors(drivers(snapshot)),
        forall|i: int|
            0 <= i < drivers(snapshot).len() ==> snapshot.contains(
                ConnectorReading {
                    connector: (#[trigger] drivers(snapshot)[i]).connector,
                    connected: true,
                    crtc: Some(drivers(snapshot)[i].crtc),
                },
            ),
    decreases snapshot.len(),
{
    if snapshot.len() > 0 {
        let front = snapshot.drop_last();
        let before = drivers(front);
        let reading = snapshot.last();
        lemma_drivers(front);
        lemma_assigned_occurs(before, reading.connector);
        let now = drivers(snapshot);
        assert forall|i: int| 0 <= i < now.len() implies snapshot.contains(
            ConnectorReading {
                connector: (#[trigger] now[i]).connector,
                connected: true,
                crtc: Some(now[i].crtc),
            },
        ) by {
            let wanted = ConnectorReading {
                connector: now[i].connector,
                connected: true,
                crtc: Some(now[i].crtc),
            };
            if i < before.len() {
                assert(now[i] == before[i]);
                let k = choose|k: int| 0 <= k < front.len() && front[k] == wanted;
                assert(snapshot[k] == wanted);
            } else {
                assert(snapshot[snapshot.len() - 1] == wanted);
            }
        }
    }
}

/// The assignments of a reading give each connector what the reading shows of it.
pub proof fn lemma_drivers_show(snapshot: Seq<ConnectorReading>, connector: u32)
    ensures
        assigned(drivers(snapshot), connector) == shows(snapshot, connector),
    decreases snapshot.len(),
{
    if snapshot.len() > 0 {
        let front = snapshot.drop_last();
        let reading = snapshot.last();
        lemma_drivers_show(front, connector);
        lemma_drivers_show(front, reading.connector);
        let before = drivers(front);
        if reading.driving() && assigned(before, reading.connector) is None {
            let now = before.push(
                Assignment { connector: reading.connector, crtc: reading.crtc.unwrap() },
            );
            assert(now.drop_last() =~= before);
        }
    }
}

/// What a scan reports, said of each event: a connector is reported as disconnected
/// from a CRTC exactly if it drove that CRTC before and does not now, and as connected
/// to a CRTC exactly if it drives that CRTC now and did not before.
pub proof fn lemma_scan_events(earlier: Seq<Assignment>, now: Seq<Assignment>, event: ScanEvent)
    ensures
        scan_events(earlier, now).contains(event) <==> match event {
            ScanEvent::Disconnected { connector, crtc } => earlier.contains(
                Assignment { connector, crtc },
            ) && assigned(now, connector) != Some(crtc),
            ScanEvent::Connected { connector, crtc } => now.contains(
                Assignment { connector, crtc },
            ) && assigned(earlier, connector) != Some(crtc),
        },
{
    let left = departures(earlier, now);
    let came = arrivals(earlier, now);
    let all = scan_events(earlier, now);
    lemma_departures(earlier, now, event);
    lemma_arrivals(earlier, now, event);
    if all.contains(event) {
        let k = choose|k: int| 0 <= k < all.len() && all[k] == event;
        if k < left.len() {
            assert(left[k] == event);
        } else {
            assert(came[k - left.len()] == event);
        }
    }
    if left.contains(event) {
        let k = choose|k: int| 0 <= k < left.len() && left[k] == event;
        assert(all[k] == event);
    }
    if came.contains(event) {
        let k = choose|k: int| 0 <= k < came.len() && came[k] == event;
        assert(all[k + left.len()] == event);
    }
}

/// The `Disconnected` events are those of the earlier assignments that no longer hold.
proof fn lemma_departures(earlier: Seq<Assignment>, now: Seq<Assignment>, event: ScanEvent)
    ensures
        departures(earlier, now).contains(event) <==> (event matches ScanEvent::Disconnected {
            connector,
            crtc,
        } && earlier.contains(Assignment { connector, crtc }) && assigned(now, connector) != Some(
            crtc,
        )),
    decreases earlier.len(),
{
    let all = departures(earlier, now);
    if earlier.len() > 0 {
        let front = earlier.drop_last();
        let before = departures(front, now);
        let entry = earlier.last();
        let told = ScanEvent::Disconnected { connector: entry.connector, crtc: entry.crtc };
        lemma_departures(front, now, event);
        assert(forall|k: int| 0 <= k < front.len() ==> front[k] == earlier[k]);
        if all.contains(event) {
            let k = choose|k: int| 0 <= k < all.len() && all[k] == event;
            if k < before.len() {
                assert(before[k] == event);
                assert(before.contains(event));
                if let ScanEvent::Disconnected { connector, crtc } = event {
                    let wanted = Assignment { connector, crtc };
                    let j = choose|j: int| 0 <= j < front.len() && front[j] == wanted;
                    assert(earlier[j] == wanted);
                }
            } else {
                assert(event == told);
                assert(earlier[earlier.len() - 1] == entry);
            }
        }
        if let ScanEvent::Disconnected { connector, crtc } = event {
            let wanted = Assignment { connector, crtc };
            if earlier.contains(wanted) && assigned(now, connector) != Some(crtc) {
                let j = choose|j: int| 0 <= j < earlier.len() && earlier[j] == wanted;
                if j < front.len() {
                    assert(front[j] == wanted);
                    assert(front.contains(wanted));
                    assert(before.contains(event));
                    let k = choose|k: int| 0 <= k < before.len() && before[k] == event;
                    assert(all[k] == event);
                } else {
                    assert(all[all.len() - 1] == event);
                }
            }
        }
    }
}

/// The `Connected` events are those of the new assignments that did not hold before.
proof fn lemma_arrivals(earlier: Seq<Assignment>, now: Seq<Assignment>, event: ScanEvent)
    ensures
        arrivals(earlier, now).contains(event) <==> (event matches ScanEvent::Connected {
            connector,
            crtc,
        } && now.contains(Assignment { connector, crtc }) && assigned(earlier, connector) != Some(
            crtc,
        )),
    decreases now.len(),
{
    let all = arrivals(earlier, now);
    if now.len() > 0 {
        let front = now.drop_last();
        let before = arrivals(earlier, front);
        let entry = now.last();
        let told = ScanEvent::Connected { connector: entry.connector, crtc: entry.crtc };
        lemma_arrivals(earlier, front, event);
        assert(forall|k: int| 0 <= k < front.len() ==> front[k] == now[k]);
        if all.contains(event) {
            let k = choose|k: int| 0 <= k < all.len() && all[k] == event;
            if k < before.len() {
                assert(before[k] == event);
                assert(before.contains(event));
                if let ScanEvent::Connected { connector, crtc } = event {
                    let wanted = Assignment { connector, crtc };
                    let j = choose|j: int| 0 <= j < front.len() && front[j] == wanted;
                    assert(now[j] == wanted);
                }
            } else {
                assert(event == told);
                assert(now[now.len() - 1] == entry);
            }
        }
        if let ScanEvent::Connected { connector, crtc } = event {
            let wanted = Assignment { connector, crtc };
            if now.contains(wanted) && assigned(earlier, connector) != Some(crtc) {
                let j = choose|j: int| 0 <= j < now.len() && now[j] == wanted;
                if j < front.len() {
                    assert(front[j] == wanted);
                    assert(front.contains(wanted));
                    assert(before.contains(event));
                    let k = choose|k: int| 0 <= k < before.len() && before[k] == event;
                    assert(all[k] == event);
                } else {
                    assert(all[all.len() - 1] == event);
                }
            }
        }
    }
}

/// Against themselves, assignments without repetition show no change.
pub proof fn lemma_no_change(list: Seq<Assignment>)
    requires
        distinct_connectors(list),
    ensures
        scan_events(list, list) == Seq::<ScanEvent>::empty(),
{
    lemma_no_departures(list, list.len() as int);
    lemma_no_arrivals(list, list.len() as int);
    assert(list.take(list.len() as int) =~= list);
    assert(scan_events(list, list) =~= Seq::<ScanEvent>::empty());
}

/// Against assignments without repetition, none of their first `n` has left.
proof fn lemma_no_departures(list: Seq<Assignment>, n: int)
    requires
        distinct_connectors(list),
        0 <= n <= list.len(),
    ensures
        departures(list.take(n), list) == Seq::<ScanEvent>::empty(),
    decreases n,
{
    if n > 0 {
        lemma_no_departures(list, n - 1);
        assert(list.take(n).drop_last() =~= list.take(n - 1));
        lemma_distinct_assigned(list, n - 1);
    }
}

/// Against assignments without repetition, none of their first `n` has come.
proof fn lemma_no_arrivals(list: Seq<Assignment>, n: int)
    requires
        distinct_connectors(list),
        0 <= n <= list.len(),
    ensures
        arrivals(list, list.take(n)) == Seq::<ScanEvent>::empty(),
    decreases n,
{
    if n > 0 {
        lemma_no_arrivals(list, n - 1);
        assert(list.take(n).drop_last() =~= list.take(n - 1));
        lemma_distinct_assigned(list, n - 1);
    }
}

/// A second scan of the same reading finds nothing: whatever the scanner held before,
/// after a scan it holds the assignments of the reading, and scanning the same reading
/// again yields no event and leaves those assignments.
pub proof fn lemma_scan_idempotent(snapshot: Seq<ConnectorReading>)
    ensures
        scan_events(drivers(snapshot), drivers(snapshot)) == Seq::<ScanEvent>::empty(),
{
    lemma_drivers(snapshot);
    lemma_no_change(drivers(snapshot));
}

/// Remembers which connectors of a device drove a monitor at the last scan.
#[derive(Clone, Debug, PartialEq, Eq)]
pub struct ConnectorScanner {
    /// The assignments found by the last scan.
    pub assignments: Vec<Assignment>,
}

impl View for ConnectorScanner {
    type V = Map<u32, u32>;

    /// The CRTC that drove each connector at the last scan.
    open spec fn view(&self) -> Map<u32, u32> {
        assignment_map(self.assignments@)
    }
}

impl ConnectorScanner {
    /// No connector is remembered twice.
    pub open spec fn wf(&self) -> bool {
        distinct_connectors(self.assignments@)
    }

    /// A scanner that has seen nothing yet.
    pub fn new() -> (scanner: ConnectorScanner)
        ensures
            scanner.assignments@ == Seq::<Assignment>::empty(),
            scanner.wf(),
    {
        ConnectorScanner { assignments: Vec::new() }
    }

    /// The CRTC that drove the connector at the last scan.
    pub fn crtc_for_connector(&self, connector: u32) -> (crtc: Option<u32>)
        ensures
            crtc == assigned(self.assignments@, connector),
            crtc is Some <==> self@.dom().contains(connector),
            crtc matches Some(found) ==> self@[connector] == found,
    {
        lookup(&self.assignments, connector)
    }

    /// Compares a reading of all connectors with the last one, remembers it, and returns
    /// what changed: first a `Disconnected` for each connector that no longer drives its
    /// CRTC, then a `Connected` for each that newly drives one. A connected connector
    /// without a CRTC yields nothing.
    pub fn scan_connectors(&mut self, snapshot: &Vec<ConnectorReading>) -> (events: Vec<ScanEvent>)
        ensures
            final(self).assignments@ == drivers(snapshot@),
            final(self).wf(),
            forall|connector: u32|
                final(self)@.dom().contains(connector) <==> #[trigger] shows(
                    snapshot@,
                    connector,
                ) is Some,
            forall|connector: u32|
                final(self)@.dom().contains(connector) ==> Some(final(self)@[connector])
                    == #[trigger] shows(snapshot@, connector),
            events@ == scan_events(old(self).assignments@, drivers(snapshot@)),
    {
        let now = collect_drivers(snapshot);
        let mut events: Vec<ScanEvent> = Vec::new();
        let mut i: usize = 0;
        while i < self.assignments.len()
            invariant
                0 <= i <= self.assignments@.len(),
                self.assignments@ == old(self).assignments@,
                events@ == departures(self.assignments@.take(i as int), now@),
            decreases self.assignments@.len() - i,
        {
            proof {
                assert(self.assignments@.take(i + 1).drop_last() =~= self.assignments@.take(
                    i as int,
                ));
            }
            let entry = self.assignments[i];
            if lookup(&now, entry.connector) != Some(entry.crtc) {
                events.push(ScanEvent::Disconnected { connector: entry.connector, crtc: entry.crtc });
            }
            i += 1;
        }
        proof {
            assert(self.assignments@.take(i as int) =~= self.assignments@);
        }
        let mut k: usize = 0;
        while k < now.len()
            invariant
                0 <= k <= now@.len(),
                self.assignments@ == old(self).assignments@,
                events@ == departures(self.assignments@, now@) + arrivals(
                    self.assignments@,
                    now@.take(k as int),
                ),
            decreases now@.len() - k,
        {
            proof {
                assert(now@.take(k + 1).drop_last() =~= now@.take(k as int));
            }
            let entry = now[k];
            if lookup(&self.assignments, entry.connector) != Some(entry.crtc) {
                events.push(ScanEvent::Connected { connector: entry.connector, crtc: entry.crtc });
            }
            k += 1;
        }
        proof {
            assert(now@.take(k as int) =~= now@);
            lemma_drivers(snapshot@);
            assert forall|connector: u32|
                assigned(drivers(snapshot@), connector) == #[trigger] shows(
                    snapshot@,
                    connector,
                ) by {
                lemma_drivers_show(snapshot@, connector);
            }
        }
        self.assignments = now;
        events
    }
}

/// Looks a connector up in a list of assignments.
pub fn lookup(list: &Vec<Assignment>, connector: u32) -> (crtc: Option<u32>)
    ensures
        crtc == assigned(list@, connector),
{
    let mut found: Option<u32> = None;
    let mut i: usize = 0;
    while i < list.len()
        invariant
            0 <= i <= list@.len(),
            found == assigned(list@.take(i as int), connector),
        decreases list@.len() - i,
    {
        proof {
            assert(list@.take(i + 1).drop_last() =~= list@.take(i as int));
        }
        if list[i].connector == connector {
            found = Some(list[i].crtc);
        }
        i += 1;
    }
    proof {
        assert(list@.take(i as int) =~= list@);
    }
    found
}

/// The assignments that a reading of all connectors amounts to.
pub fn collect_drivers(snapshot: &Vec<ConnectorReading>) -> (now: Vec<Assignment>)
    ensures
        now@ == drivers(snapshot@),
{
    let mut now: Vec<Assignment> = Vec::new();
    let mut i: usize = 0;
    while i < snapshot.len()
        invariant
            0 <= i <= snapshot@.len(),
            now@ == drivers(snapshot@.take(i as int)),
        decreases snapshot@.len() - i,
    {
        proof {
            assert(snapshot@.take(i + 1).drop_last() =~= snapshot@.take(i as int));
        }
        let reading = snapshot[i];
        if reading.connected {
            if let Some(crtc) = reading.crtc {
                if lookup(&now, reading.connector).is_none() {
                    now.push(Assignment { connector: reading.connector, crtc });
                }
            }
        }
        i += 1;
    }
    proof {
        assert(snapshot@.take(i as int) =~= snapshot@);
    }
    now
}

} // verus!
