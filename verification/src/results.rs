use vstd::prelude::*;

use crate::config::ScanConfig;
use crate::ip::{ip_text, format_ip, IpAddress};
use crate::text::{dec_of, fmt_u64};

verus! {

/// The terminal outcome for one probed port.  `response_time` is in
/// whole milliseconds, measured from the first attempt's start to the
/// terminal transition.
#[derive(Clone, Debug, PartialEq, Eq)]
pub struct PortStatus {
    pub port: u16,
    pub is_open: bool,
    pub service: Option<String>,
    pub response_time: u64,
    pub attempts: u8,
}

impl PortStatus {
    /// A fresh, not-yet-probed entry.
    pub fn new(port: u16) -> (r: PortStatus)
        ensures
            r.port == port,
            !r.is_open,
            r.service is None,
            r.response_time == 0,
            r.attempts == 0,
    {
        PortStatus { port, is_open: false, service: None, response_time: 0, attempts: 0 }
    }

    /// An open outcome.
    pub fn open(port: u16, service: Option<String>, response_time: u64, attempts: u8) -> (r:
        PortStatus)
        ensures
            r.port == port,
            r.is_open,
            r.service == service,
            r.response_time == response_time,
            r.attempts == attempts,
    {
        PortStatus { port, is_open: true, service, response_time, attempts }
    }

    /// A closed outcome.
    pub fn closed(port: u16, response_time: u64, attempts: u8) -> (r: PortStatus)
        ensures
            r.port == port,
            !r.is_open,
            r.service is None,
            r.response_time == response_time,
            r.attempts == attempts,
    {
        PortStatus { port, is_open: false, service: None, response_time, attempts }
    }
}

// ---------------------------------------------------------------------------
// Cumulative statistics
// ---------------------------------------------------------------------------
/// Process-lifetime counters, folded once per completed scan.  All
/// durations are whole milliseconds.
#[derive(Clone, Copy, Debug, PartialEq, Eq, Structural)]
pub struct ScanStatistics {
    pub total_scans: u64,
    pub total_ports_scanned: u64,
    pub total_open_ports: u64,
    pub total_time: u64,
    pub average_scan_time: u64,
    pub fastest_scan: u64,
    pub slowest_scan: u64,
}

impl ScanStatistics {
    /// The state before any scan: `fastest_scan` starts at the largest
    /// representable duration so that the first scan always sets it.
    pub open spec fn initial_spec() -> ScanStatistics {
        ScanStatistics {
            total_scans: 0,
            total_ports_scanned: 0,
            total_open_ports: 0,
            total_time: 0,
            average_scan_time: 0,
            fastest_scan: 0xffffffffffffffffu64,
            slowest_scan: 0,
        }
    }

    pub fn new() -> (r: ScanStatistics)
        ensures
            r == ScanStatistics::initial_spec(),
    {
        ScanStatistics {
            total_scans: 0,
            total_ports_scanned: 0,
            total_open_ports: 0,
            total_time: 0,
            average_scan_time: 0,
            fastest_scan: 0xffffffffffffffff,
            slowest_scan: 0,
        }
    }

    /// The state after folding in one scan of `ports` probed ports,
    /// `open` open ports and duration `duration`: counters grow,
    /// extremes are min/max-updated, the average is recomputed.
    pub open spec fn updated_spec(s: ScanStatistics, ports: int, open: int, duration: int) -> ScanStatistics {
        let scans = s.total_scans + 1;
        let time = s.total_time + duration;
        ScanStatistics {
            total_scans: scans as u64,
            total_ports_scanned: (s.total_ports_scanned + ports) as u64,
            total_open_ports: (s.total_open_ports + open) as u64,
            total_time: time as u64,
            average_scan_time: (time / scans) as u64,
            fastest_scan: if duration < s.fastest_scan {
                duration as u64
            } else {
                s.fastest_scan
            },
            slowest_scan: if duration > s.slowest_scan {
                duration as u64
            } else {
                s.slowest_scan
            },
        }
    }

    /// Whether one more scan with these counts still fits the counters.
    pub open spec fn update_fits(s: ScanStatistics, ports: int, open: int, duration: int) -> bool {
        &&& s.total_scans + 1 <= 0xffffffffffffffff
        &&& s.total_ports_scanned + ports <= 0xffffffffffffffff
        &&& s.total_open_ports + open <= 0xffffffffffffffff
        &&& s.total_time + duration <= 0xffffffffffffffff
    }

    /// Folds one completed scan into the counters.
    pub fn update(&mut self, scan_result: &ScanResult)
        requires
            ScanStatistics::update_fits(
                *old(self),
                count_ports(scan_result.results@),
                count_open(scan_result.results@),
                scan_result.duration as int,
            ),
            count_ports(scan_result.results@) <= 0xffffffffffffffff,
            count_open(scan_result.results@) <= 0xffffffffffffffff,
        ensures
            *final(self) == ScanStatistics::updated_spec(
                *old(self),
                count_ports(scan_result.results@),
                count_open(scan_result.results@),
                scan_result.duration as int,
            ),
    {
        let ports = scan_result.get_total_ports_scanned();
        let open = scan_result.get_total_open_ports();
        self.total_scans = self.total_scans + 1;
        self.total_ports_scanned = self.total_ports_scanned + ports;
        self.total_open_ports = self.total_open_ports + open;
        self.total_time = self.total_time + scan_result.duration;
        if scan_result.duration < self.fastest_scan {
            self.fastest_scan = scan_result.duration;
        }
        if scan_result.duration > self.slowest_scan {
            self.slowest_scan = scan_result.duration;
        }
        self.average_scan_time = self.total_time / self.total_scans;
    }
}

/// Folding two scans into the statistics gives the same state in
/// either order: every counter, both extremes and the average are
/// order-independent.
pub proof fn lemma_update_order_independent(
    s: ScanStatistics,
    p1: int,
    o1: int,
    d1: int,
    p2: int,
    o2: int,
    d2: int,
)
    requires
        0 <= p1 && 0 <= o1 && 0 <= d1 && 0 <= p2 && 0 <= o2 && 0 <= d2,
        ScanStatistics::update_fits(s, p1 + p2, o1 + o2, d1 + d2),
        s.total_scans + 2 <= 0xffffffffffffffff,
    ensures
        ScanStatistics::updated_spec(ScanStatistics::updated_spec(s, p1, o1, d1), p2, o2, d2)
            == ScanStatistics::updated_spec(
            ScanStatistics::updated_spec(s, p2, o2, d2),
            p1,
            o1,
            d1,
        ),
{
}

/// After exactly two scans of durations `d1` and `d2` on fresh
/// statistics: two scans counted, total time is the sum, the average
/// is half the sum, and the extremes are the minimum and maximum.
pub proof fn lemma_two_scans(p1: int, o1: int, d1: int, p2: int, o2: int, d2: int)
    requires
        0 <= p1 && 0 <= o1 && 0 <= d1 && 0 <= p2 && 0 <= o2 && 0 <= d2,
        p1 + p2 <= 0xffffffffffffffff,
        o1 + o2 <= 0xffffffffffffffff,
        d1 + d2 <= 0xffffffffffffffff,
    ensures
        ({
            let s = ScanStatistics::updated_spec(
                ScanStatistics::updated_spec(ScanStatistics::initial_spec(), p1, o1, d1),
                p2,
                o2,
                d2,
            );
            &&& s.total_scans == 2
            &&& s.total_ports_scanned == p1 + p2
            &&& s.total_open_ports == o1 + o2
            &&& s.total_time == d1 + d2
            &&& s.average_scan_time == (d1 + d2) / 2
            &&& s.fastest_scan == if d1 < d2 {
                d1
            } else {
                d2
            }
            &&& s.slowest_scan == if d1 > d2 {
                d1
            } else {
                d2
            }
        }),
{
}

// ---------------------------------------------------------------------------
// Scan results
// ---------------------------------------------------------------------------
/// The number of probed ports recorded over all addresses.
pub open spec fn count_ports(rs: Seq<(IpAddress, Vec<PortStatus>)>) -> int
    decreases rs.len(),
{
    if rs.len() == 0 {
        0
    } else {
        count_ports(rs.drop_last()) + rs.last().1@.len()
    }
}

/// The number of open ports in one address's outcomes.
pub open spec fn count_open_in(ps: Seq<PortStatus>) -> int
    decreases ps.len(),
{
    if ps.len() == 0 {
        0
    } else {
        count_open_in(ps.drop_last()) + if ps.last().is_open {
            1int
        } else {
            0int
        }
    }
}

/// The number of open ports recorded over all addresses.
pub open spec fn count_open(rs: Seq<(IpAddress, Vec<PortStatus>)>) -> int
    decreases rs.len(),
{
    if rs.len() == 0 {
        0
    } else {
        count_open(rs.drop_last()) + count_open_in(rs.last().1@)
    }
}

pub proof fn lemma_count_ports_bounds(rs: Seq<(IpAddress, Vec<PortStatus>)>)
    ensures
        count_ports(rs) >= 0,
        count_open(rs) >= 0,
        count_open(rs) <= count_ports(rs),
    decreases rs.len(),
{
    if rs.len() > 0 {
        lemma_count_ports_bounds(rs.drop_last());
        lemma_count_open_in_bounds(rs.last().1@);
    }
}

pub proof fn lemma_count_open_in_bounds(ps: Seq<PortStatus>)
    ensures
        0 <= count_open_in(ps) <= ps.len(),
    decreases ps.len(),
{
    if ps.len() > 0 {
        lemma_count_open_in_bounds(ps.drop_last());
    }
}

/// The latest timestamp a result may carry, in milliseconds (the last
/// moment of year 9999).
pub const MAX_TIMESTAMP_MILLIS: i64 = 253402300799999;

/// One finished scan: a unique identifier, the target as given, the
/// per-address port outcomes, the total duration in milliseconds, the
/// start timestamp in milliseconds since the epoch, and the
/// configuration in effect.
#[derive(Clone, Debug)]
pub struct ScanResult {
    pub id: String,
    pub target: String,
    pub results: Vec<(IpAddress, Vec<PortStatus>)>,
    pub duration: u64,
    pub timestamp: i64,
    pub scan_config: ScanConfig,
}

/// Whether an address already has an entry.
pub open spec fn has_address(rs: Seq<(IpAddress, Vec<PortStatus>)>, ip: IpAddress) -> bool {
    exists|i: int| 0 <= i < rs.len() && (#[trigger] rs[i]).0 == ip
}

/// Addresses are unique keys of the result mapping.
pub open spec fn results_wf(rs: Seq<(IpAddress, Vec<PortStatus>)>) -> bool {
    forall|i: int, j: int| 0 <= i < j < rs.len() ==> (#[trigger] rs[i]).0 != (#[trigger] rs[j]).0
}

/// Relies on uuid's `Uuid::new_v4` and its hyphenated `Display` form:
/// a fresh random identifier always renders as 36 characters.  The
/// identifier is random, so nothing else is promised.
#[verifier::external_body]
fn new_scan_id() -> (r: String)
    ensures
        r@.len() == 36,
{
    uuid::Uuid::new_v4().to_string()
}

/// Relies on chrono's `Utc::now`: the clock may return any value, so
/// nothing is promised of it.
#[verifier::external_body]
fn now_unix_millis() -> (r: i64) {
    chrono::Utc::now().timestamp_millis()
}

impl ScanResult {
    /// A fresh, empty result for a scan that is starting now.  The
    /// timestamp is clamped into the representable range.
    pub fn new(target: String, scan_config: ScanConfig) -> (r: ScanResult)
        ensures
            r.id@.len() == 36,
            r.target@ == target@,
            r.results@.len() == 0,
            r.duration == 0,
            0 <= r.timestamp <= MAX_TIMESTAMP_MILLIS,
            r.scan_config == scan_config,
    {
        let now = now_unix_millis();
        let timestamp: i64 = if now < 0 {
            0
        } else if now > MAX_TIMESTAMP_MILLIS {
            MAX_TIMESTAMP_MILLIS
        } else {
            now
        };
        ScanResult {
            id: new_scan_id(),
            target,
            results: Vec::new(),
            duration: 0,
            timestamp,
            scan_config,
        }
    }

    /// Appends one address's outcomes; the address must be new.
    pub fn insert_address_results(&mut self, ip: IpAddress, statuses: Vec<PortStatus>)
        requires
            !has_address(old(self).results@, ip),
        ensures
            final(self).results@ == old(self).results@.push((ip, statuses)),
            results_wf(old(self).results@) ==> results_wf(final(self).results@),
            final(self).id == old(self).id,
            final(self).target == old(self).target,
            final(self).duration == old(self).duration,
            final(self).timestamp == old(self).timestamp,
            final(self).scan_config == old(self).scan_config,
    {
        self.results.push((ip, statuses));
    }

    /// Sets the total duration once the scan is finished.
    pub fn set_duration(&mut self, duration: u64)
        ensures
            final(self).duration == duration,
            final(self).results == old(self).results,
            final(self).id == old(self).id,
            final(self).target == old(self).target,
            final(self).timestamp == old(self).timestamp,
            final(self).scan_config == old(self).scan_config,
    {
        self.duration = duration;
    }

    /// The sum of the per-address outcome counts.
    pub fn get_total_ports_scanned(&self) -> (r: u64)
        requires
            count_ports(self.results@) <= 0xffffffffffffffff,
        ensures
            r as int == count_ports(self.results@),
    {
        let mut sum: u64 = 0;
        let mut i: usize = 0;
        let n = self.results.len();
        proof {
            assert(self.results@.subrange(0, 0) =~= Seq::<(IpAddress, Vec<PortStatus>)>::empty());
        }
        while i < n
            invariant
                i <= n == self.results@.len(),
                count_ports(self.results@) <= 0xffffffffffffffff,
                sum as int == count_ports(self.results@.subrange(0, i as int)),
            decreases n - i,
        {
            proof {
                lemma_count_prefix_step(self.results@, i as int);
                lemma_count_suffix_bound(self.results@, i + 1);
            }
            sum = sum + (self.results[i].1.len() as u64);
            i = i + 1;
        }
        proof {
            assert(self.results@.subrange(0, n as int) =~= self.results@);
        }
        sum
    }

    /// The number of open ports over all addresses.
    pub fn get_total_open_ports(&self) -> (r: u64)
        requires
            count_ports(self.results@) <= 0xffffffffffffffff,
        ensures
            r as int == count_open(self.results@),
    {
        let mut sum: u64 = 0;
        let mut i: usize = 0;
        let n = self.results.len();
        proof {
            assert(self.results@.subrange(0, 0) =~= Seq::<(IpAddress, Vec<PortStatus>)>::empty());
        }
        while i < n
            invariant
                i <= n == self.results@.len(),
                count_ports(self.results@) <= 0xffffffffffffffff,
                sum as int == count_open(self.results@.subrange(0, i as int)),
            decreases n - i,
        {
            proof {
                lemma_count_prefix_step(self.results@, i as int);
                lemma_count_suffix_bound(self.results@, i + 1);
                lemma_count_open_in_bounds(self.results@[i as int].1@);
            }
            let entry = &self.results[i];
            let mut c: u64 = 0;
            let mut j: usize = 0;
            let m = entry.1.len();
            proof {
                assert(entry.1@.subrange(0, 0) =~= Seq::<PortStatus>::empty());
            }
            while j < m
                invariant
                    j <= m == entry.1@.len(),
                    c as int == count_open_in(entry.1@.subrange(0, j as int)),
                    c <= j,
                decreases m - j,
            {
                proof {
                    let cur = entry.1@.subrange(0, j + 1);
                    assert(cur.drop_last() =~= entry.1@.subrange(0, j as int));
                    lemma_count_open_in_bounds(entry.1@.subrange(0, j as int));
                }
                if entry.1[j].is_open {
                    c = c + 1;
                }
                j = j + 1;
            }
            proof {
                assert(entry.1@.subrange(0, m as int) =~= entry.1@);
            }
            sum = sum + c;
            i = i + 1;
        }
        proof {
            assert(self.results@.subrange(0, n as int) =~= self.results@);
        }
        sum
    }
}

/// One step of the prefix sums: extending the prefix by entry `i`.
proof fn lemma_count_prefix_step(rs: Seq<(IpAddress, Vec<PortStatus>)>, i: int)
    requires
        0 <= i < rs.len(),
    ensures
        count_ports(rs.subrange(0, i + 1)) == count_ports(rs.subrange(0, i)) + rs[i].1@.len(),
        count_open(rs.subrange(0, i + 1)) == count_open(rs.subrange(0, i)) + count_open_in(
            rs[i].1@,
        ),
{
    let cur = rs.subrange(0, i + 1);
    assert(cur.drop_last() =~= rs.subrange(0, i));
    assert(cur.last() == rs[i]);
}

/// A prefix never counts more than the whole.
proof fn lemma_count_suffix_bound(rs: Seq<(IpAddress, Vec<PortStatus>)>, i: int)
    requires
        0 <= i <= rs.len(),
    ensures
        count_ports(rs.subrange(0, i)) <= count_ports(rs),
        count_open(rs.subrange(0, i)) <= count_open(rs),
        count_open(rs.subrange(0, i)) <= count_ports(rs.subrange(0, i)),
    decreases rs.len() - i,
{
    lemma_count_ports_bounds(rs.subrange(0, i));
    if i == rs.len() {
        assert(rs.subrange(0, i) =~= rs);
    } else {
        lemma_count_prefix_step(rs, i);
        lemma_count_suffix_bound(rs, i + 1);
        lemma_count_open_in_bounds(rs[i].1@);
    }
}

// ---------------------------------------------------------------------------
// Tabular rendering
// ---------------------------------------------------------------------------
/// The status column.
pub open spec fn status_text(open: bool) -> Seq<char> {
    if open {
        "Open"@
    } else {
        "Closed"@
    }
}

/// The service column; unlabelled ports carry the sentinel.
pub open spec fn service_text(s: Option<String>) -> Seq<char> {
    match s {
        Some(x) => x@,
        None => "Unknown"@,
    }
}

/// One delimited row for one port of one address.
pub open spec fn csv_row(ip: IpAddress, ps: PortStatus) -> Seq<char> {
    ip_text(ip) + ","@ + dec_of(ps.port as int) + ","@ + status_text(ps.is_open) + ","@
        + service_text(ps.service) + ","@ + dec_of(ps.response_time as int) + ","@ + dec_of(
        ps.attempts as int,
    ) + "\n"@
}

/// The rows of one address, in recorded order.
pub open spec fn csv_rows_in(ip: IpAddress, ps: Seq<PortStatus>) -> Seq<char>
    decreases ps.len(),
{
    if ps.len() == 0 {
        Seq::empty()
    } else {
        csv_rows_in(ip, ps.drop_last()) + csv_row(ip, ps.last())
    }
}

/// The rows of all addresses, in recorded order.
pub open spec fn csv_rows(rs: Seq<(IpAddress, Vec<PortStatus>)>) -> Seq<char>
    decreases rs.len(),
{
    if rs.len() == 0 {
        Seq::empty()
    } else {
        csv_rows(rs.drop_last()) + csv_rows_in(rs.last().0, rs.last().1@)
    }
}

/// The whole delimited document: a fixed header, then one row per
/// recorded port.
pub open spec fn csv_text(r: ScanResult) -> Seq<char> {
    "IP,Port,Status,Service,ResponseTime,Attempts\n"@ + csv_rows(r.results@)
}

// ---------------------------------------------------------------------------
// Markup rendering
// ---------------------------------------------------------------------------
/// Relies on chrono's `DateTime::<Utc>::from_timestamp_millis` and
/// `to_rfc3339`: the rendering of an in-range timestamp in the fixed
/// zone is a function of the millisecond value alone.
pub uninterp spec fn rfc3339_of(ms: int) -> Seq<char>;

/// Relies on chrono's `DateTime::<Utc>::from_timestamp_millis` (`Some`
/// for every in-range value) composed with `to_rfc3339`.
#[verifier::external_body]
fn format_rfc3339_utc(ms: i64) -> (r: String)
    requires
        0 <= ms <= MAX_TIMESTAMP_MILLIS,
    ensures
        r@ == rfc3339_of(ms as int),
{
    match chrono::DateTime::<chrono::Utc>::from_timestamp_millis(ms) {
        Some(d) => d.to_rfc3339(),
        None => String::new(),
    }
}

/// The service attribute; unlabelled ports carry the sentinel.
pub open spec fn xml_service_text(s: Option<String>) -> Seq<char> {
    match s {
        Some(x) => x@,
        None => "unknown"@,
    }
}

/// One port element with its fields as attributes.
pub open spec fn xml_port_line(ps: PortStatus) -> Seq<char> {
    "      <port number=\""@ + dec_of(ps.port as int) + "\" status=\""@ + (if ps.is_open {
        "open"@
    } else {
        "closed"@
    }) + "\" service=\""@ + xml_service_text(ps.service) + "\" response_time_ms=\""@ + dec_of(
        ps.response_time as int,
    ) + "\" attempts=\""@ + dec_of(ps.attempts as int) + "\"/>\n"@
}

/// The port elements of one address, in recorded order.
pub open spec fn xml_ports(ps: Seq<PortStatus>) -> Seq<char>
    decreases ps.len(),
{
    if ps.len() == 0 {
        Seq::empty()
    } else {
        xml_ports(ps.drop_last()) + xml_port_line(ps.last())
    }
}

/// One host element holding its port elements.
pub open spec fn xml_host(ip: IpAddress, ps: Seq<PortStatus>) -> Seq<char> {
    "    <host ip=\""@ + ip_text(ip) + "\">\n"@ + xml_ports(ps) + "    </host>\n"@
}

/// The host elements of all addresses, in recorded order.
pub open spec fn xml_hosts(rs: Seq<(IpAddress, Vec<PortStatus>)>) -> Seq<char>
    decreases rs.len(),
{
    if rs.len() == 0 {
        Seq::empty()
    } else {
        xml_hosts(rs.drop_last()) + xml_host(rs.last().0, rs.last().1@)
    }
}

/// Everything before the host elements.
pub open spec fn xml_prefix(r: ScanResult) -> Seq<char> {
    "<?xml version=\"1.0\" encoding=\"UTF-8\"?>\n"@ + "<scan_result>\n"@ + "  <id>"@ + r.id@
        + "</id>\n"@ + "  <target>"@ + r.target@ + "</target>\n"@ + "  <timestamp>"@ + rfc3339_of(
        r.timestamp as int,
    ) + "</timestamp>\n"@ + "  <duration_ms>"@ + dec_of(r.duration as int) + "</duration_ms>\n"@
        + "  <results>\n"@
}

/// The whole markup document.
pub open spec fn xml_text(r: ScanResult) -> Seq<char> {
    xml_prefix(r) + xml_hosts(r.results@) + "  </results>\n"@ + "</scan_result>\n"@
}

/// Renders one delimited row.
fn csv_row_exec(ip: &IpAddress, ps: &PortStatus) -> (r: String)
    ensures
        r@ == csv_row(*ip, *ps),
{
    let mut s = String::new();
    let ipt = format_ip(ip);
    s.append(ipt.as_str());
    s.append(",");
    let t = fmt_u64(ps.port as u64);
    s.append(t.as_str());
    s.append(",");
    if ps.is_open {
        s.append("Open");
    } else {
        s.append("Closed");
    }
    s.append(",");
    match &ps.service {
        Some(x) => s.append(x.as_str()),
        None => s.append("Unknown"),
    }
    s.append(",");
    let t2 = fmt_u64(ps.response_time);
    s.append(t2.as_str());
    s.append(",");
    let t3 = fmt_u64(ps.attempts as u64);
    s.append(t3.as_str());
    s.append("\n");
    proof {
        assert(s@ =~= csv_row(*ip, *ps));
    }
    s
}

/// Renders one port element.
fn xml_port_exec(ps: &PortStatus) -> (r: String)
    ensures
        r@ == xml_port_line(*ps),
{
    let mut s = String::new();
    s.append("      <port number=\"");
    let t = fmt_u64(ps.port as u64);
    s.append(t.as_str());
    s.append("\" status=\"");
    if ps.is_open {
        s.append("open");
    } else {
        s.append("closed");
    }
    s.append("\" service=\"");
    match &ps.service {
        Some(x) => s.append(x.as_str()),
        None => s.append("unknown"),
    }
    s.append("\" response_time_ms=\"");
    let t2 = fmt_u64(ps.response_time);
    s.append(t2.as_str());
    s.append("\" attempts=\"");
    let t3 = fmt_u64(ps.attempts as u64);
    s.append(t3.as_str());
    s.append("\"/>\n");
    proof {
        assert(s@ =~= xml_port_line(*ps));
    }
    s
}

impl ScanResult {
    /// Renders the result as the delimited tabular form, one row per
    /// recorded port.
    #[verifier::rlimit(80)]
    pub fn to_csv(&self) -> (r: String)
        ensures
            r@ == csv_text(*self),
    {
        let mut s = String::new();
        s.append("IP,Port,Status,Service,ResponseTime,Attempts\n");
        let n = self.results.len();
        let mut i: usize = 0;
        proof {
            assert(self.results@.subrange(0, 0) =~= Seq::<(IpAddress, Vec<PortStatus>)>::empty());
            assert(s@ =~= "IP,Port,Status,Service,ResponseTime,Attempts\n"@ + csv_rows(
                self.results@.subrange(0, 0),
            ));
        }
        while i < n
            invariant
                i <= n == self.results@.len(),
                s@ == "IP,Port,Status,Service,ResponseTime,Attempts\n"@ + csv_rows(
                    self.results@.subrange(0, i as int),
                ),
            decreases n - i,
        {
            let entry = &self.results[i];
            let ip = entry.0;
            let m = entry.1.len();
            let mut j: usize = 0;
            proof {
                assert(entry.1@.subrange(0, 0) =~= Seq::<PortStatus>::empty());
            }
            while j < m
                invariant
                    j <= m == entry.1@.len(),
                    i < self.results@.len(),
                    entry == self.results@[i as int],
                    ip == entry.0,
                    s@ == "IP,Port,Status,Service,ResponseTime,Attempts\n"@ + csv_rows(
                        self.results@.subrange(0, i as int),
                    ) + csv_rows_in(ip, entry.1@.subrange(0, j as int)),
                decreases m - j,
            {
                let ps = &entry.1[j];
                let row = csv_row_exec(&ip, ps);
                s.append(row.as_str());
                j = j + 1;
                proof {
                    let cur = entry.1@.subrange(0, j as int);
                    assert(cur.drop_last() =~= entry.1@.subrange(0, j - 1));
                    assert(cur.last() == entry.1@[j - 1]);
                    assert(s@ =~= "IP,Port,Status,Service,ResponseTime,Attempts\n"@ + csv_rows(
                        self.results@.subrange(0, i as int),
                    ) + csv_rows_in(ip, cur));
                }
            }
            i = i + 1;
            proof {
                let cur = self.results@.subrange(0, i as int);
                assert(cur.drop_last() =~= self.results@.subrange(0, i - 1));
                assert(cur.last() == self.results@[i - 1]);
                assert(entry.1@.subrange(0, m as int) =~= entry.1@);
                assert(s@ =~= "IP,Port,Status,Service,ResponseTime,Attempts\n"@ + csv_rows(cur));
            }
        }
        proof {
            assert(self.results@.subrange(0, n as int) =~= self.results@);
        }
        s
    }

    /// Renders the result as the markup document, one element per
    /// address with one sub-element per port.
    #[verifier::rlimit(80)]
    pub fn to_xml(&self) -> (r: String)
        requires
            0 <= self.timestamp <= MAX_TIMESTAMP_MILLIS,
        ensures
            r@ == xml_text(*self),
    {
        let mut s = String::new();
        s.append("<?xml version=\"1.0\" encoding=\"UTF-8\"?>\n");
        s.append("<scan_result>\n");
        s.append("  <id>");
        s.append(self.id.as_str());
        s.append("</id>\n");
        s.append("  <target>");
        s.append(self.target.as_str());
        s.append("</target>\n");
        s.append("  <timestamp>");
        let ts = format_rfc3339_utc(self.timestamp);
        s.append(ts.as_str());
        s.append("</timestamp>\n");
        s.append("  <duration_ms>");
        let d = fmt_u64(self.duration);
        s.append(d.as_str());
        s.append("</duration_ms>\n");
        s.append("  <results>\n");
        proof {
            assert(s@ =~= xml_prefix(*self));
            assert(self.results@.subrange(0, 0) =~= Seq::<(IpAddress, Vec<PortStatus>)>::empty());
        }
        let n = self.results.len();
        let mut i: usize = 0;
        while i < n
            invariant
                i <= n == self.results@.len(),
                s@ == xml_prefix(*self) + xml_hosts(self.results@.subrange(0, i as int)),
            decreases n - i,
        {
            let entry = &self.results[i];
            let ip = entry.0;
            s.append("    <host ip=\"");
            let ipt = format_ip(&ip);
            s.append(ipt.as_str());
            s.append("\">\n");
            let ghost host_open = s@;
            let m = entry.1.len();
            let mut j: usize = 0;
            proof {
                assert(entry.1@.subrange(0, 0) =~= Seq::<PortStatus>::empty());
            }
            while j < m
                invariant
                    j <= m == entry.1@.len(),
                    i < self.results@.len(),
                    entry == self.results@[i as int],
                    ip == entry.0,
                    host_open == xml_prefix(*self) + xml_hosts(self.results@.subrange(0, i as int))
                        + "    <host ip=\""@ + ip_text(ip) + "\">\n"@,
                    s@ == host_open + xml_ports(entry.1@.subrange(0, j as int)),
                decreases m - j,
            {
                let ps = &entry.1[j];
                let line = xml_port_exec(ps);
                s.append(line.as_str());
                j = j + 1;
                proof {
                    let cur = entry.1@.subrange(0, j as int);
                    assert(cur.drop_last() =~= entry.1@.subrange(0, j - 1));
                    assert(cur.last() == entry.1@[j - 1]);
                    assert(s@ =~= host_open + xml_ports(cur));
                }
            }
            s.append("    </host>\n");
            i = i + 1;
            proof {
                let cur = self.results@.subrange(0, i as int);
                assert(cur.drop_last() =~= self.results@.subrange(0, i - 1));
                assert(cur.last() == self.results@[i - 1]);
                assert(entry.1@.subrange(0, m as int) =~= entry.1@);
                assert(s@ =~= xml_prefix(*self) + xml_hosts(cur));
            }
        }
        s.append("  </results>\n");
        s.append("</scan_result>\n");
        proof {
            assert(self.results@.subrange(0, n as int) =~= self.results@);
            assert(s@ =~= xml_text(*self));
        }
        s
    }
}

// ---------------------------------------------------------------------------
// The interchange document
// ---------------------------------------------------------------------------
/// One element of the structured document: an address and its port
/// outcomes.
#[derive(Clone, Debug, PartialEq, Eq)]
pub struct HostEntry {
    pub address: IpAddress,
    pub ports: Vec<PortStatus>,
}

/// The structured interchange form of a result, mirroring it
/// field for field.
#[derive(Clone, Debug)]
pub struct ScanDocument {
    pub id: String,
    pub target: String,
    pub hosts: Vec<HostEntry>,
    pub duration: u64,
    pub timestamp: i64,
    pub scan_config: ScanConfig,
}

/// The document's host elements carry exactly the result's entries, in
/// order.
pub open spec fn hosts_match(
    rs: Seq<(IpAddress, Vec<PortStatus>)>,
    hosts: Seq<HostEntry>,
) -> bool {
    &&& hosts.len() == rs.len()
    &&& forall|i: int|
        0 <= i < rs.len() ==> (#[trigger] hosts[i]).address == rs[i].0 && hosts[i].ports@
            == rs[i].1@
}

/// A field-for-field copy of one outcome.
fn clone_status(ps: &PortStatus) -> (r: PortStatus)
    ensures
        r == *ps,
{
    PortStatus {
        port: ps.port,
        is_open: ps.is_open,
        service: match &ps.service {
            Some(x) => Some(x.clone()),
            None => None,
        },
        response_time: ps.response_time,
        attempts: ps.attempts,
    }
}

/// A copy of one address's outcomes with an identical view.
fn clone_statuses(ps: &Vec<PortStatus>) -> (r: Vec<PortStatus>)
    ensures
        r@ == ps@,
{
    let mut r: Vec<PortStatus> = Vec::new();
    let n = ps.len();
    let mut i: usize = 0;
    while i < n
        invariant
            i <= n == ps@.len(),
            r@ =~= ps@.subrange(0, i as int),
        decreases n - i,
    {
        r.push(clone_status(&ps[i]));
        i = i + 1;
        proof {
            assert(r@ =~= ps@.subrange(0, i as int));
        }
    }
    proof {
        assert(r@ =~= ps@);
    }
    r
}

impl ScanResult {
    /// Exports the result to its structured document form.
    pub fn to_document(&self) -> (d: ScanDocument)
        ensures
            d.id@ == self.id@,
            d.target@ == self.target@,
            hosts_match(self.results@, d.hosts@),
            d.duration == self.duration,
            d.timestamp == self.timestamp,
            d.scan_config == self.scan_config,
    {
        let mut hosts: Vec<HostEntry> = Vec::new();
        let n = self.results.len();
        let mut i: usize = 0;
        while i < n
            invariant
                i <= n == self.results@.len(),
                hosts@.len() == i,
                forall|t: int|
                    0 <= t < i ==> (#[trigger] hosts@[t]).address == self.results@[t].0
                        && hosts@[t].ports@ == self.results@[t].1@,
            decreases n - i,
        {
            let entry = &self.results[i];
            hosts.push(HostEntry { address: entry.0, ports: clone_statuses(&entry.1) });
            i = i + 1;
        }
        ScanDocument {
            id: self.id.clone(),
            target: self.target.clone(),
            hosts,
            duration: self.duration,
            timestamp: self.timestamp,
            scan_config: self.scan_config,
        }
    }

    /// Reconstructs a result from its structured document form.
    pub fn from_document(doc: &ScanDocument) -> (r: ScanResult)
        ensures
            r.id@ == doc.id@,
            r.target@ == doc.target@,
            hosts_match(r.results@, doc.hosts@),
            r.duration == doc.duration,
            r.timestamp == doc.timestamp,
            r.scan_config == doc.scan_config,
    {
        let mut results: Vec<(IpAddress, Vec<PortStatus>)> = Vec::new();
        let n = doc.hosts.len();
        let mut i: usize = 0;
        while i < n
            invariant
                i <= n == doc.hosts@.len(),
                results@.len() == i,
                forall|t: int|
                    0 <= t < i ==> (#[trigger] doc.hosts@[t]).address == results@[t].0
                        && doc.hosts@[t].ports@ == results@[t].1@,
            decreases n - i,
        {
            let h = &doc.hosts[i];
            results.push((h.address, clone_statuses(&h.ports)));
            i = i + 1;
        }
        ScanResult {
            id: doc.id.clone(),
            target: doc.target.clone(),
            results,
            duration: doc.duration,
            timestamp: doc.timestamp,
            scan_config: doc.scan_config,
        }
    }
}

/// Round trip: a result exported to the structured document form and
/// reconstructed from that document carries the identical set of
/// per-address port outcomes, entry for entry.
pub proof fn lemma_document_round_trip(
    rs: Seq<(IpAddress, Vec<PortStatus>)>,
    hosts: Seq<HostEntry>,
    rs2: Seq<(IpAddress, Vec<PortStatus>)>,
)
    requires
        hosts_match(rs, hosts),
        hosts_match(rs2, hosts),
    ensures
        rs2.len() == rs.len(),
        forall|i: int|
            0 <= i < rs.len() ==> (#[trigger] rs2[i]).0 == rs[i].0 && rs2[i].1@ == rs[i].1@,
{
    assert forall|i: int|
        0 <= i < rs.len() implies (#[trigger] rs2[i]).0 == rs[i].0 && rs2[i].1@ == rs[i].1@ by {
        assert(hosts[i].address == rs[i].0 && hosts[i].ports@ == rs[i].1@);
        assert(hosts[i].address == rs2[i].0 && hosts[i].ports@ == rs2[i].1@);
    }
}

// ---------------------------------------------------------------------------
// Derived views
// ---------------------------------------------------------------------------
/// The open (address, port) pairs of one address, in recorded order.
pub open spec fn open_pairs_in(ip: IpAddress, ps: Seq<PortStatus>) -> Seq<(IpAddress, u16)>
    decreases ps.len(),
{
    if ps.len() == 0 {
        Seq::empty()
    } else {
        open_pairs_in(ip, ps.drop_last()) + if ps.last().is_open {
            seq![(ip, ps.last().port)]
        } else {
            Seq::empty()
        }
    }
}

/// The open (address, port) pairs of all addresses, in recorded order.
pub open spec fn open_pairs(rs: Seq<(IpAddress, Vec<PortStatus>)>) -> Seq<(IpAddress, u16)>
    decreases rs.len(),
{
    if rs.len() == 0 {
        Seq::empty()
    } else {
        open_pairs(rs.drop_last()) + open_pairs_in(rs.last().0, rs.last().1@)
    }
}

/// The pairs of `all` carrying port `p`, in order.
pub open spec fn with_port(all: Seq<(IpAddress, u16)>, p: u16) -> Seq<(IpAddress, u16)>
    decreases all.len(),
{
    if all.len() == 0 {
        Seq::empty()
    } else {
        with_port(all.drop_last(), p) + if all.last().1 == p {
            seq![all.last()]
        } else {
            Seq::empty()
        }
    }
}

/// The pairs of `all` with port below `p`, grouped by port ascending,
/// each group in the order of `all`.
pub open spec fn sorted_upto(all: Seq<(IpAddress, u16)>, p: int) -> Seq<(IpAddress, u16)>
    decreases p when p <= 65536
{
    if p <= 0 {
        Seq::empty()
    } else {
        sorted_upto(all, p - 1) + with_port(all, (p - 1) as u16)
    }
}

impl ScanResult {
    /// The open (address, port) pairs, ascending by port number
    /// whatever the internal order; pairs sharing a port keep the
    /// recorded order.
    pub fn get_open_ports(&self) -> (r: Vec<(IpAddress, u16)>)
        ensures
            r@ == sorted_upto(open_pairs(self.results@), 65536),
            forall|a: int, b: int| 0 <= a < b < r@.len() ==> (#[trigger] r@[a]).1 <= (#[trigger] r@[b]).1,
    {
        // collect the open pairs in recorded order
        let mut all: Vec<(IpAddress, u16)> = Vec::new();
        let n = self.results.len();
        let mut i: usize = 0;
        proof {
            assert(self.results@.subrange(0, 0) =~= Seq::<(IpAddress, Vec<PortStatus>)>::empty());
        }
        while i < n
            invariant
                i <= n == self.results@.len(),
                all@ == open_pairs(self.results@.subrange(0, i as int)),
            decreases n - i,
        {
            let entry = &self.results[i];
            let ip = entry.0;
            let m = entry.1.len();
            let mut j: usize = 0;
            proof {
                assert(entry.1@.subrange(0, 0) =~= Seq::<PortStatus>::empty());
            }
            while j < m
                invariant
                    j <= m == entry.1@.len(),
                    i < self.results@.len(),
                    entry == self.results@[i as int],
                    ip == entry.0,
                    all@ == open_pairs(self.results@.subrange(0, i as int)) + open_pairs_in(
                        ip,
                        entry.1@.subrange(0, j as int),
                    ),
                decreases m - j,
            {
                let ps = &entry.1[j];
                if ps.is_open {
                    all.push((ip, ps.port));
                }
                j = j + 1;
                proof {
                    let cur = entry.1@.subrange(0, j as int);
                    assert(cur.drop_last() =~= entry.1@.subrange(0, j - 1));
                    assert(cur.last() == entry.1@[j - 1]);
                    assert(all@ =~= open_pairs(self.results@.subrange(0, i as int))
                        + open_pairs_in(ip, cur));
                }
            }
            i = i + 1;
            proof {
                let cur = self.results@.subrange(0, i as int);
                assert(cur.drop_last() =~= self.results@.subrange(0, i - 1));
                assert(cur.last() == self.results@[i - 1]);
                assert(entry.1@.subrange(0, m as int) =~= entry.1@);
                assert(all@ =~= open_pairs(cur));
            }
        }
        proof {
            assert(self.results@.subrange(0, n as int) =~= self.results@);
        }
        // emit ports ascending, keeping the recorded order within a port
        let mut out: Vec<(IpAddress, u16)> = Vec::new();
        let mut p: u32 = 0;
        while p <= 65535
            invariant
                p <= 65536,
                all@ == open_pairs(self.results@),
                out@ == sorted_upto(all@, p as int),
                forall|a: int| 0 <= a < out@.len() ==> ((#[trigger] out@[a]).1 as int) < p,
                forall|a: int, b: int|
                    0 <= a < b < out@.len() ==> (#[trigger] out@[a]).1 <= (#[trigger] out@[b]).1,
            decreases 65536 - p,
        {
            let na = all.len();
            let mut k: usize = 0;
            let ghost base = out@;
            proof {
                assert(all@.subrange(0, 0) =~= Seq::<(IpAddress, u16)>::empty());
            }
            while k < na
                invariant
                    k <= na == all@.len(),
                    p <= 65535,
                    out@ == base + with_port(all@.subrange(0, k as int), p as u16),
                    forall|a: int| 0 <= a < out@.len() ==> ((#[trigger] out@[a]).1 as int) <= p,
                    forall|a: int, b: int|
                        0 <= a < b < out@.len() ==> (#[trigger] out@[a]).1 <= (#[trigger] out@[b]).1,
                    forall|a: int| 0 <= a < base.len() ==> ((#[trigger] base[a]).1 as int) < p,
                    base.len() <= out@.len(),
                decreases na - k,
            {
                let pair = all[k];
                if pair.1 == p as u16 {
                    out.push(pair);
                }
                k = k + 1;
                proof {
                    let cur = all@.subrange(0, k as int);
                    assert(cur.drop_last() =~= all@.subrange(0, k - 1));
                    assert(cur.last() == all@[k - 1]);
                    assert(out@ =~= base + with_port(cur, p as u16));
                }
            }
            p = p + 1;
            proof {
                assert(all@.subrange(0, na as int) =~= all@);
                assert(out@ =~= sorted_upto(all@, p as int));
            }
        }
        out
    }
}

// ---------------------------------------------------------------------------
// Grouping by service label
// ---------------------------------------------------------------------------
/// The labelled open ports of one address, in recorded order: label,
/// address, port.
pub open spec fn labelled_triples_in(ip: IpAddress, ps: Seq<PortStatus>) -> Seq<
    (String, IpAddress, u16),
>
    decreases ps.len(),
{
    if ps.len() == 0 {
        Seq::empty()
    } else {
        labelled_triples_in(ip, ps.drop_last()) + (if ps.last().is_open && ps.last().service
            is Some {
            seq![(ps.last().service.unwrap(), ip, ps.last().port)]
        } else {
            Seq::empty()
        })
    }
}

/// The labelled open ports of all addresses, in recorded order.
pub open spec fn labelled_triples(rs: Seq<(IpAddress, Vec<PortStatus>)>) -> Seq<
    (String, IpAddress, u16),
>
    decreases rs.len(),
{
    if rs.len() == 0 {
        Seq::empty()
    } else {
        labelled_triples(rs.drop_last()) + labelled_triples_in(rs.last().0, rs.last().1@)
    }
}

/// The (address, port) pairs among `ts` carrying label `l`, in order.
pub open spec fn pairs_with_label(ts: Seq<(String, IpAddress, u16)>, l: Seq<char>) -> Seq<
    (IpAddress, u16),
>
    decreases ts.len(),
{
    if ts.len() == 0 {
        Seq::empty()
    } else {
        pairs_with_label(ts.drop_last(), l) + (if ts.last().0@ == l {
            seq![(ts.last().1, ts.last().2)]
        } else {
            Seq::empty()
        })
    }
}

/// Whether some triple carries label `l`.
pub open spec fn label_in(ts: Seq<(String, IpAddress, u16)>, l: Seq<char>) -> bool {
    exists|k: int| 0 <= k < ts.len() && (#[trigger] ts[k]).0@ == l
}

/// Whether some group entry is keyed by `l`.
pub open spec fn key_in(entries: Seq<(String, Vec<(IpAddress, u16)>)>, l: Seq<char>) -> bool {
    exists|a: int| 0 <= a < entries.len() && (#[trigger] entries[a]).0@ == l
}

/// Whether `x`'s view occurs among the labels collected so far.
fn contains_label(labels: &Vec<String>, x: &String) -> (b: bool)
    ensures
        b == exists|a: int| 0 <= a < labels@.len() && (#[trigger] labels@[a])@ == x@,
{
    let n = labels.len();
    let mut i: usize = 0;
    while i < n
        invariant
            i <= n == labels@.len(),
            forall|a: int| 0 <= a < i ==> (#[trigger] labels@[a])@ != x@,
        decreases n - i,
    {
        if labels[i] == *x {
            return true;
        }
        i = i + 1;
    }
    false
}

impl ScanResult {
    /// Collects the labelled open ports in recorded order.
    fn collect_labelled(&self) -> (ts: Vec<(String, IpAddress, u16)>)
        ensures
            ts@ == labelled_triples(self.results@),
    {
        let mut ts: Vec<(String, IpAddress, u16)> = Vec::new();
        let n = self.results.len();
        let mut i: usize = 0;
        proof {
            assert(self.results@.subrange(0, 0) =~= Seq::<(IpAddress, Vec<PortStatus>)>::empty());
        }
        while i < n
            invariant
                i <= n == self.results@.len(),
                ts@ == labelled_triples(self.results@.subrange(0, i as int)),
            decreases n - i,
        {
            let entry = &self.results[i];
            let ip = entry.0;
            let m = entry.1.len();
            let mut j: usize = 0;
            proof {
                assert(entry.1@.subrange(0, 0) =~= Seq::<PortStatus>::empty());
            }
            while j < m
                invariant
                    j <= m == entry.1@.len(),
                    i < self.results@.len(),
                    entry == self.results@[i as int],
                    ip == entry.0,
                    ts@ == labelled_triples(self.results@.subrange(0, i as int))
                        + labelled_triples_in(ip, entry.1@.subrange(0, j as int)),
                decreases m - j,
            {
                let ps = &entry.1[j];
                if ps.is_open {
                    match &ps.service {
                        Some(x) => {
                            ts.push((x.clone(), ip, ps.port));
                        },
                        None => {},
                    }
                }
                j = j + 1;
                proof {
                    let cur = entry.1@.subrange(0, j as int);
                    assert(cur.drop_last() =~= entry.1@.subrange(0, j - 1));
                    assert(cur.last() == entry.1@[j - 1]);
                    assert(ts@ =~= labelled_triples(self.results@.subrange(0, i as int))
                        + labelled_triples_in(ip, cur));
                }
            }
            i = i + 1;
            proof {
                let cur = self.results@.subrange(0, i as int);
                assert(cur.drop_last() =~= self.results@.subrange(0, i - 1));
                assert(cur.last() == self.results@[i - 1]);
                assert(entry.1@.subrange(0, m as int) =~= entry.1@);
                assert(ts@ =~= labelled_triples(cur));
            }
        }
        proof {
            assert(self.results@.subrange(0, n as int) =~= self.results@);
        }
        ts
    }

    /// Groups the open, labelled (address, port) pairs by service
    /// label: one entry per occurring label, each holding its pairs in
    /// recorded order.  The order of the entries themselves is not part
    /// of the contract.
    pub fn get_services(&self) -> (r: Vec<(String, Vec<(IpAddress, u16)>)>)
        ensures
            ({
                let ts = labelled_triples(self.results@);
                &&& forall|a: int, b: int|
                    0 <= a < b < r@.len() ==> (#[trigger] r@[a]).0@ != (#[trigger] r@[b]).0@
                &&& forall|a: int|
                    0 <= a < r@.len() ==> (#[trigger] r@[a]).1@ == pairs_with_label(
                        ts,
                        r@[a].0@,
                    ) && label_in(ts, r@[a].0@)
                &&& forall|k: int| 0 <= k < ts.len() ==> key_in(r@, (#[trigger] ts[k]).0@)
            }),
    {
        let ts = self.collect_labelled();
        let nt = ts.len();
        // the distinct labels, in first-appearance order
        let mut labels: Vec<String> = Vec::new();
        let mut k: usize = 0;
        while k < nt
            invariant
                k <= nt == ts@.len(),
                forall|a: int, b: int|
                    0 <= a < b < labels@.len() ==> (#[trigger] labels@[a])@ != (
                    #[trigger] labels@[b])@,
                forall|a: int|
                    0 <= a < labels@.len() ==> label_in(ts@, (#[trigger] labels@[a])@),
                forall|t: int|
                    0 <= t < k ==> exists|a: int|
                        0 <= a < labels@.len() && (#[trigger] labels@[a])@ == (#[trigger] ts@[t]).0@,
            decreases nt - k,
        {
            let x = &ts[k].0;
            let ghost old_labels = labels@;
            let present = contains_label(&labels, x);
            if !present {
                labels.push(x.clone());
            }
            k = k + 1;
            proof {
                assert forall|t: int| 0 <= t < k implies exists|a: int|
                    0 <= a < labels@.len() && (#[trigger] labels@[a])@ == (#[trigger] ts@[t]).0@ by {
                    if t < k - 1 {
                        let w = choose|w: int|
                            0 <= w < old_labels.len() && (#[trigger] old_labels[w])@ == ts@[t].0@;
                        assert(labels@[w]@ == ts@[t].0@);
                    } else if present {
                        let w = choose|w: int|
                            0 <= w < old_labels.len() && (#[trigger] old_labels[w])@ == x@;
                        assert(labels@[w]@ == ts@[t].0@);
                    } else {
                        assert(labels@[labels@.len() - 1]@ == ts@[t].0@);
                    }
                }
            }
        }
        // one group per label
        let mut r: Vec<(String, Vec<(IpAddress, u16)>)> = Vec::new();
        let nl = labels.len();
        let mut a: usize = 0;
        while a < nl
            invariant
                a <= nl == labels@.len(),
                nt == ts@.len(),
                r@.len() == a,
                forall|x: int, y: int|
                    0 <= x < y < labels@.len() ==> (#[trigger] labels@[x])@ != (
                    #[trigger] labels@[y])@,
                forall|x: int|
                    0 <= x < labels@.len() ==> label_in(ts@, (#[trigger] labels@[x])@),
                forall|x: int| 0 <= x < a ==> (#[trigger] r@[x]).0@ == labels@[x]@,
                forall|x: int|
                    0 <= x < a ==> (#[trigger] r@[x]).1@ == pairs_with_label(ts@, r@[x].0@),
            decreases nl - a,
        {
            let l = &labels[a];
            let mut group: Vec<(IpAddress, u16)> = Vec::new();
            let mut t: usize = 0;
            proof {
                assert(ts@.subrange(0, 0) =~= Seq::<(String, IpAddress, u16)>::empty());
            }
            while t < nt
                invariant
                    t <= nt == ts@.len(),
                    a < labels@.len(),
                    l == labels@[a as int],
                    group@ == pairs_with_label(ts@.subrange(0, t as int), l@),
                decreases nt - t,
            {
                let trip = &ts[t];
                if trip.0 == *l {
                    group.push((trip.1, trip.2));
                }
                t = t + 1;
                proof {
                    let cur = ts@.subrange(0, t as int);
                    assert(cur.drop_last() =~= ts@.subrange(0, t - 1));
                    assert(cur.last() == ts@[t - 1]);
                    assert(group@ =~= pairs_with_label(cur, l@));
                }
            }
            proof {
                assert(ts@.subrange(0, nt as int) =~= ts@);
            }
            r.push((l.clone(), group));
            a = a + 1;
        }
        proof {
            assert forall|t: int| 0 <= t < ts@.len() implies key_in(r@, (#[trigger] ts@[t]).0@) by {
                let w = choose|w: int|
                    0 <= w < labels@.len() && (#[trigger] labels@[w])@ == ts@[t].0@;
                assert(r@[w].0@ == ts@[t].0@);
            }
        }
        r
    }
}

} // verus!
