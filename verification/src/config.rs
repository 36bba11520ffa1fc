use vstd::prelude::*;

use crate::error::ScanError;

verus! {

/// Tunable parameters of one scan.
///
/// All durations are whole milliseconds.  A configuration is immutable
/// once a scan runs with it; it is replaced wholesale, never patched.
#[derive(Clone, Copy, Debug)]
pub struct ScanConfig {
    /// Number of ports probed concurrently within one batch.
    pub batch_size: usize,
    /// Upper bound on a single connection attempt, in milliseconds.
    pub timeout: u64,
    /// Maximum number of connection attempts per port.
    pub max_retries: u8,
    /// Pause between two attempts on the same port, in milliseconds.
    pub retry_delay: u64,
    /// Pause between two batches, in milliseconds.
    pub delay_between_batches: u64,
    /// Whether open ports are labelled with a well-known service name.
    pub detect_services: bool,
    /// Whether the secondary (datagram) transport is scanned as well.
    pub scan_udp: bool,
    /// Whether the port order is shuffled before batching.
    pub randomize_ports: bool,
    /// Whether hostnames are resolved at all.
    pub resolve_hostnames: bool,
    /// Nominal cap on addresses taken from a block.  Expansion applies
    /// fixed per-family caps instead (see `resolve_target`); the field
    /// is kept for interface compatibility.
    pub max_ips_from_cidr: usize,
}

/// The configuration invariant that `validate` enforces.
pub open spec fn valid_config(c: ScanConfig) -> bool {
    &&& 0 < c.batch_size <= 10000
    &&& 100 <= c.timeout <= 60000
    &&& c.max_retries <= 10
}

impl ScanConfig {
    /// The balanced default parameter set.
    pub open spec fn default_spec() -> ScanConfig {
        ScanConfig {
            batch_size: 1000,
            timeout: 3000,
            max_retries: 1,
            retry_delay: 100,
            delay_between_batches: 10,
            detect_services: true,
            scan_udp: false,
            randomize_ports: false,
            resolve_hostnames: true,
            max_ips_from_cidr: 1024,
        }
    }

    /// The low-timeout, high-concurrency profile.
    pub open spec fn fast_spec() -> ScanConfig {
        ScanConfig {
            batch_size: 2000,
            timeout: 1000,
            max_retries: 1,
            retry_delay: 50,
            delay_between_batches: 5,
            ..ScanConfig::default_spec()
        }
    }

    /// The high-retry profile with service detection and the secondary
    /// transport enabled.
    pub open spec fn thorough_spec() -> ScanConfig {
        ScanConfig {
            batch_size: 500,
            timeout: 5000,
            max_retries: 3,
            retry_delay: 200,
            delay_between_batches: 50,
            detect_services: true,
            scan_udp: true,
            ..ScanConfig::default_spec()
        }
    }

    /// The low-concurrency, high-delay profile.
    pub open spec fn stealth_spec() -> ScanConfig {
        ScanConfig {
            batch_size: 100,
            timeout: 10000,
            max_retries: 1,
            retry_delay: 500,
            delay_between_batches: 1000,
            randomize_ports: true,
            ..ScanConfig::default_spec()
        }
    }

    pub fn fast() -> (r: ScanConfig)
        ensures
            r == ScanConfig::fast_spec(),
            valid_config(r),
    {
        ScanConfig {
            batch_size: 2000,
            timeout: 1000,
            max_retries: 1,
            retry_delay: 50,
            delay_between_batches: 5,
            ..ScanConfig::default()
        }
    }

    pub fn thorough() -> (r: ScanConfig)
        ensures
            r == ScanConfig::thorough_spec(),
            valid_config(r),
    {
        ScanConfig {
            batch_size: 500,
            timeout: 5000,
            max_retries: 3,
            retry_delay: 200,
            delay_between_batches: 50,
            detect_services: true,
            scan_udp: true,
            ..ScanConfig::default()
        }
    }

    pub fn stealth() -> (r: ScanConfig)
        ensures
            r == ScanConfig::stealth_spec(),
            valid_config(r),
    {
        ScanConfig {
            batch_size: 100,
            timeout: 10000,
            max_retries: 1,
            retry_delay: 500,
            delay_between_batches: 1000,
            randomize_ports: true,
            ..ScanConfig::default()
        }
    }

    /// Checks the configuration invariant: accepts exactly the in-bound
    /// parameter sets and rejects every other one with the
    /// configuration error kind.
    pub fn validate(&self) -> (r: Result<(), ScanError>)
        ensures
            r is Ok <==> valid_config(*self),
            r is Err ==> r == Err::<(), ScanError>(ScanError::ConfigError),
    {
        if self.batch_size == 0 {
            return Err(ScanError::ConfigError);
        }
        if self.batch_size > 10000 {
            return Err(ScanError::ConfigError);
        }
        if self.timeout < 100 {
            return Err(ScanError::ConfigError);
        }
        if self.timeout > 60000 {
            return Err(ScanError::ConfigError);
        }
        if self.max_retries > 10 {
            return Err(ScanError::ConfigError);
        }
        Ok(())
    }
}

impl ScanConfig {
    /// The batch size after system tuning: four fifths of the
    /// descriptor budget, clamped to [100, 5000], then scaled by a
    /// quarter of the processor count, never below 100.  A reading
    /// that is unavailable leaves its step out.
    pub open spec fn tuned_batch_size(
        batch: int,
        fd_limit: Option<usize>,
        cpu_count: Option<usize>,
    ) -> int {
        let by_fds = match fd_limit {
            Some(l) => {
                let raw = l * 4 / 5;
                if raw < 100 {
                    100
                } else if raw > 5000 {
                    5000
                } else {
                    raw
                }
            },
            None => batch,
        };
        match cpu_count {
            Some(c) => {
                let scaled = by_fds * c / 4;
                if scaled < 100 {
                    100
                } else {
                    scaled
                }
            },
            None => by_fds,
        }
    }

    /// Adjusts the concurrency cap to the host: the caller hands in
    /// the descriptor limit and processor count it could read.
    pub fn optimize_for_system(&mut self, fd_limit: Option<usize>, cpu_count: Option<usize>)
        requires
            old(self).batch_size <= 10000,
            fd_limit matches Some(l) ==> l <= usize::MAX / 4,
            cpu_count matches Some(c) ==> c <= usize::MAX / 10000,
        ensures
            *final(self) == (ScanConfig {
                batch_size: (ScanConfig::tuned_batch_size(
                    old(self).batch_size as int,
                    fd_limit,
                    cpu_count,
                )) as usize,
                ..*old(self)
            }),
    {
        let mut batch = self.batch_size;
        if let Some(l) = fd_limit {
            let raw = l * 4 / 5;
            batch = if raw < 100 {
                100
            } else if raw > 5000 {
                5000
            } else {
                raw
            };
        }
        if let Some(c) = cpu_count {
            proof {
                assert(batch <= 10000);
                assert(batch * (c as int) <= 10000 * (usize::MAX as int / 10000))
                    by (nonlinear_arith)
                    requires
                        batch <= 10000,
                        c as int <= usize::MAX as int / 10000,
                        0 <= c as int,
                        0 <= batch,
                ;
                assert(10000 * (usize::MAX as int / 10000) <= usize::MAX as int) by (nonlinear_arith);
            }
            let scaled = batch * c / 4;
            batch = if scaled < 100 {
                100
            } else {
                scaled
            };
        }
        self.batch_size = batch;
    }
}

impl Default for ScanConfig {
    fn default() -> (r: ScanConfig)
        ensures
            r == ScanConfig::default_spec(),
            valid_config(r),
    {
        ScanConfig {
            batch_size: 1000,
            timeout: 3000,
            max_retries: 1,
            retry_delay: 100,
            delay_between_batches: 10,
            detect_services: true,
            scan_udp: false,
            randomize_ports: false,
            resolve_hostnames: true,
            max_ips_from_cidr: 1024,
        }
    }
}

/// A named parameter bundle offered to callers.
#[derive(Clone, Debug)]
pub struct PresetConfig {
    pub name: String,
    pub description: String,
    pub config: ScanConfig,
}

impl PresetConfig {
    /// The four built-in profiles, each independently satisfying the
    /// configuration invariant.
    pub fn get_presets() -> (r: Vec<PresetConfig>)
        ensures
            r@.len() == 4,
            r@[0].name@ == "Fast"@ && r@[0].config == ScanConfig::fast_spec(),
            r@[1].name@ == "Default"@ && r@[1].config == ScanConfig::default_spec(),
            r@[2].name@ == "Thorough"@ && r@[2].config == ScanConfig::thorough_spec(),
            r@[3].name@ == "Stealth"@ && r@[3].config == ScanConfig::stealth_spec(),
            forall|i: int| 0 <= i < 4 ==> valid_config(#[trigger] r@[i].config),
    {
        let mut v: Vec<PresetConfig> = Vec::new();
        v.push(PresetConfig {
            name: "Fast".to_owned(),
            description: "Quick scan with minimal timeouts".to_owned(),
            config: ScanConfig::fast(),
        });
        v.push(PresetConfig {
            name: "Default".to_owned(),
            description: "Balanced speed and accuracy".to_owned(),
            config: ScanConfig::default(),
        });
        v.push(PresetConfig {
            name: "Thorough".to_owned(),
            description: "Comprehensive scan with service detection".to_owned(),
            config: ScanConfig::thorough(),
        });
        v.push(PresetConfig {
            name: "Stealth".to_owned(),
            description: "Slow and careful to avoid detection".to_owned(),
            config: ScanConfig::stealth(),
        });
        v
    }
}

} // verus!
