use vstd::prelude::*;

use crate::config::{valid_config, ScanConfig};
use crate::results::{count_open, count_ports, PortStatus, ScanResult, ScanStatistics};

verus! {

// ---------------------------------------------------------------------------
// The per-port attempt state machine
// ---------------------------------------------------------------------------
/// What one connection attempt came back with.
#[derive(Clone, Copy, Debug, PartialEq, Eq, Structural)]
pub enum AttemptOutcome {
    /// The connection opened within the timeout.
    Connected,
    /// The connection was refused.
    Refused,
    /// The timeout elapsed first.
    TimedOut,
}

/// What the engine does after one attempt.
#[derive(Clone, Copy, Debug, PartialEq, Eq, Structural)]
pub enum ScanAction {
    /// The port is open: record it, terminal.
    RecordOpen,
    /// Attempts remain: wait the retry delay, then attempt again.
    RetryAfterDelay,
    /// Attempts are exhausted: record the port closed, terminal.
    RecordClosed,
}

/// The transition taken after an attempt: success opens the port;
/// otherwise the engine retries while attempts remain and closes the
/// port when they are exhausted.
pub open spec fn next_action_spec(
    outcome: AttemptOutcome,
    attempts_made: u8,
    max_retries: u8,
) -> ScanAction {
    if outcome is Connected {
        ScanAction::RecordOpen
    } else if attempts_made < max_retries {
        ScanAction::RetryAfterDelay
    } else {
        ScanAction::RecordClosed
    }
}

/// Decides what follows one attempt; `attempts_made` counts this one.
pub fn next_action(outcome: AttemptOutcome, attempts_made: u8, max_retries: u8) -> (r: ScanAction)
    ensures
        r == next_action_spec(outcome, attempts_made, max_retries),
{
    match outcome {
        AttemptOutcome::Connected => ScanAction::RecordOpen,
        _ => {
            if attempts_made < max_retries {
                ScanAction::RetryAfterDelay
            } else {
                ScanAction::RecordClosed
            }
        },
    }
}

/// An outcome trace the state machine can produce under `max`
/// attempts: only the last attempt may connect; the trace is full
/// length unless it ended in a connection.
pub open spec fn complete_trace(t: Seq<AttemptOutcome>, max: u8) -> bool {
    &&& t.len() <= max
    &&& forall|i: int| 0 <= i < t.len() - 1 ==> !((#[trigger] t[i]) is Connected)
    &&& (t.len() < max ==> t.len() > 0 && t.last() is Connected)
}

/// Whether a trace ends in a successful connection.
pub open spec fn trace_open(t: Seq<AttemptOutcome>) -> bool {
    t.len() > 0 && t.last() is Connected
}

// ---------------------------------------------------------------------------
// Service labels
// ---------------------------------------------------------------------------
/// The static well-known-port table used for labelling; no live
/// protocol probing stands behind it.
pub open spec fn service_label(port: u16) -> Option<Seq<char>> {
    if port == 21 {
        Some("FTP"@)
    } else if port == 22 {
        Some("SSH"@)
    } else if port == 23 {
        Some("Telnet"@)
    } else if port == 25 {
        Some("SMTP"@)
    } else if port == 53 {
        Some("DNS"@)
    } else if port == 80 {
        Some("HTTP"@)
    } else if port == 110 {
        Some("POP3"@)
    } else if port == 143 {
        Some("IMAP"@)
    } else if port == 443 {
        Some("HTTPS"@)
    } else if port == 993 {
        Some("IMAPS"@)
    } else if port == 995 {
        Some("POP3S"@)
    } else if port == 3389 {
        Some("RDP"@)
    } else if port == 5432 {
        Some("PostgreSQL"@)
    } else if port == 3306 {
        Some("MySQL"@)
    } else if port == 1433 {
        Some("MSSQL"@)
    } else if port == 6379 {
        Some("Redis"@)
    } else if port == 27017 {
        Some("MongoDB"@)
    } else {
        None
    }
}

/// Looks a port up in the well-known-port table.
pub fn identify_service(port: u16) -> (r: Option<String>)
    ensures
        match r {
            Some(s) => service_label(port) == Some(s@),
            None => service_label(port) is None,
        },
{
    match port {
        21 => Some("FTP".to_owned()),
        22 => Some("SSH".to_owned()),
        23 => Some("Telnet".to_owned()),
        25 => Some("SMTP".to_owned()),
        53 => Some("DNS".to_owned()),
        80 => Some("HTTP".to_owned()),
        110 => Some("POP3".to_owned()),
        143 => Some("IMAP".to_owned()),
        443 => Some("HTTPS".to_owned()),
        993 => Some("IMAPS".to_owned()),
        995 => Some("POP3S".to_owned()),
        3389 => Some("RDP".to_owned()),
        5432 => Some("PostgreSQL".to_owned()),
        3306 => Some("MySQL".to_owned()),
        1433 => Some("MSSQL".to_owned()),
        6379 => Some("Redis".to_owned()),
        27017 => Some("MongoDB".to_owned()),
        _ => None,
    }
}

/// Folds a complete attempt trace into the port's terminal outcome:
/// the port is open exactly when the trace ended in a connection, the
/// attempt count is the number of attempts made, and an open port is
/// labelled from the well-known table when detection is on.
pub fn evaluate_attempts(
    port: u16,
    outcomes: &Vec<AttemptOutcome>,
    response_time: u64,
    max_retries: u8,
    detect_services: bool,
) -> (r: PortStatus)
    requires
        complete_trace(outcomes@, max_retries),
    ensures
        r.port == port,
        r.response_time == response_time,
        r.is_open == trace_open(outcomes@),
        r.attempts as int == outcomes@.len(),
        !trace_open(outcomes@) ==> r.attempts == max_retries,
        match r.service {
            Some(s) => trace_open(outcomes@) && detect_services && service_label(port) == Some(s@),
            None => !(trace_open(outcomes@) && detect_services) || service_label(port) is None,
        },
{
    let n = outcomes.len();
    let open = if n == 0 {
        false
    } else {
        matches!(outcomes[n - 1], AttemptOutcome::Connected)
    };
    if open {
        let service = if detect_services {
            identify_service(port)
        } else {
            None
        };
        PortStatus::open(port, service, response_time, n as u8)
    } else {
        PortStatus::closed(port, response_time, max_retries)
    }
}

/// A closed outcome means every allowed attempt was made: on a
/// complete trace that did not connect, the attempt count equals the
/// retry bound.
pub proof fn lemma_closed_takes_all_retries(t: Seq<AttemptOutcome>, max: u8)
    requires
        complete_trace(t, max),
        !trace_open(t),
    ensures
        t.len() == max,
{
}

/// A trace that connects immediately is complete after one attempt.
pub proof fn lemma_first_attempt_success(o: AttemptOutcome, max: u8)
    requires
        o is Connected,
        max >= 1,
    ensures
        complete_trace(seq![o], max),
        trace_open(seq![o]),
{
}

// ---------------------------------------------------------------------------
// Batching
// ---------------------------------------------------------------------------
/// Splits `[0, len)` into consecutive chunks of `batch_size`, the last
/// possibly shorter.  All attempts within one chunk run together; the
/// engine waits for the whole chunk before the next one starts.
pub fn chunk_bounds(len: usize, batch_size: usize) -> (r: Vec<(usize, usize)>)
    requires
        batch_size > 0,
    ensures
        len == 0 ==> r@.len() == 0,
        len > 0 ==> r@.len() >= 1 && (#[trigger] r@[0]).0 == 0 && r@[r@.len() - 1].1 == len,
        forall|i: int|
            0 <= i < r@.len() ==> (#[trigger] r@[i]).0 < r@[i].1 && r@[i].1 - r@[i].0
                <= batch_size,
        forall|i: int|
            0 <= i < r@.len() - 1 ==> (#[trigger] r@[i]).1 == r@[i + 1].0 && r@[i].1 - r@[i].0
                == batch_size,
{
    let mut r: Vec<(usize, usize)> = Vec::new();
    let mut pos: usize = 0;
    while pos < len
        invariant
            pos <= len,
            batch_size > 0,
            pos == 0 ==> r@.len() == 0,
            pos > 0 ==> r@.len() >= 1 && (#[trigger] r@[0]).0 == 0 && r@[r@.len() - 1].1 == pos,
            forall|i: int|
                0 <= i < r@.len() ==> (#[trigger] r@[i]).0 < r@[i].1 && r@[i].1 - r@[i].0
                    <= batch_size,
            forall|i: int|
                0 <= i < r@.len() - 1 ==> (#[trigger] r@[i]).1 == r@[i + 1].0 && r@[i].1 - r@[i].0
                    == batch_size,
            pos < len ==> (r@.len() > 0 ==> r@[r@.len() - 1].1 - r@[r@.len() - 1].0 == batch_size),
        decreases len - pos,
    {
        let end = if len - pos > batch_size {
            pos + batch_size
        } else {
            len
        };
        r.push((pos, end));
        pos = end;
    }
    r
}

// ---------------------------------------------------------------------------
// The scanner
// ---------------------------------------------------------------------------
/// One long-lived engine instance: the active configuration and the
/// process-lifetime statistics.  The pure scanning computation holds no
/// other state; callers serialise access to an instance.
#[derive(Clone, Debug)]
pub struct Scanner {
    pub config: ScanConfig,
    pub stats: ScanStatistics,
}

impl Scanner {
    /// An engine with the default configuration and fresh statistics.
    pub fn new() -> (r: Scanner)
        ensures
            r.config == ScanConfig::default_spec(),
            r.stats == ScanStatistics::initial_spec(),
    {
        Scanner { config: ScanConfig::default(), stats: ScanStatistics::new() }
    }

    /// An engine with the given configuration and fresh statistics.
    pub fn with_config(config: ScanConfig) -> (r: Scanner)
        ensures
            r.config == config,
            r.stats == ScanStatistics::initial_spec(),
    {
        Scanner { config, stats: ScanStatistics::new() }
    }

    /// Replaces the active configuration; an invalid one is rejected
    /// silently and the prior configuration is retained.
    pub fn update_config(&mut self, config: ScanConfig)
        ensures
            valid_config(config) ==> final(self).config == config,
            !valid_config(config) ==> final(self).config == old(self).config,
            final(self).stats == old(self).stats,
    {
        if config.validate().is_ok() {
            self.config = config;
        }
    }

    /// A snapshot copy of the statistics.
    pub fn get_statistics(&self) -> (r: ScanStatistics)
        ensures
            r == self.stats,
    {
        self.stats
    }

    /// Folds one completed scan into the statistics.
    pub fn record_scan(&mut self, result: &ScanResult)
        requires
            ScanStatistics::update_fits(
                old(self).stats,
                count_ports(result.results@),
                count_open(result.results@),
                result.duration as int,
            ),
            count_ports(result.results@) <= 0xffffffffffffffff,
            count_open(result.results@) <= 0xffffffffffffffff,
        ensures
            final(self).stats == ScanStatistics::updated_spec(
                old(self).stats,
                count_ports(result.results@),
                count_open(result.results@),
                result.duration as int,
            ),
            final(self).config == old(self).config,
    {
        self.stats.update(result);
    }
}

impl Default for Scanner {
    fn default() -> (r: Scanner)
        ensures
            r.config == ScanConfig::default_spec(),
            r.stats == ScanStatistics::initial_spec(),
    {
        Scanner::new()
    }
}

} // verus!
