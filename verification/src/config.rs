//! Runtime configuration: sane defaults, overlaid with what the environment sets.
//!
//! All knobs are optional; the engine runs out of the box.

use crate::model::MATCH_SIZE;
use crate::number::{Real, INFINITY_BITS};
use vstd::prelude::*;

verus! {

/// Listen address when the environment names none.
pub const DEFAULT_BIND: &'static str = "0.0.0.0:3000";

/// Workers when the machine's parallelism is unknown.
pub const FALLBACK_WORKERS: usize = 4;

/// Default skill window width at t=0: the bits of 5.0.
pub const DEFAULT_INITIAL_WINDOW: u32 = 0x40a0_0000;

/// Default skill window width after relaxing: the bits of 40.0.
pub const DEFAULT_MAX_WINDOW: u32 = 0x4220_0000;

/// Default seconds of relaxing: the bits of 30.0.
pub const DEFAULT_RELAX_SECS: u32 = 0x41f0_0000;

/// Default wait before cross-region fills: the bits of 8.0.
pub const DEFAULT_CROSS_REGION_AFTER_SECS: u32 = 0x4100_0000;

/// Default hard deadline: the bits of 45.0.
pub const DEFAULT_HARD_DEADLINE_SECS: u32 = 0x4234_0000;

/// Default candidates pulled per scan.
pub const DEFAULT_CANDIDATE_CAP: usize = 256;

/// Default sleep between scans of a thin pool.
pub const DEFAULT_IDLE_SLEEP_MS: u64 = 5;

/// Least admissible seconds of relaxing: the bits of 0.001.
pub const MIN_RELAX_SECS: u32 = 0x3a83_126f;

#[derive(Debug, Clone)]
pub struct Config {
    /// Socket address the HTTP API binds to.
    pub bind_addr: String,
    /// Number of concurrent matching workers.
    pub workers: usize,
    /// Skill window width at t=0 (tight). The window is `+-initial_window/2`.
    pub initial_window: Real,
    /// Skill window width after `relax_secs` of waiting (loose).
    pub max_window: Real,
    /// Seconds over which the window relaxes from initial to max.
    pub relax_secs: Real,
    /// After waiting this many seconds, the anchor accepts cross-region fills.
    pub cross_region_after_secs: Real,
    /// Hard anti-starvation deadline. Once the anchor has waited this long, the
    /// skill window is unbounded and region is ignored: the oldest player is
    /// matched with the 9 nearest available players, whoever they are.
    pub hard_deadline_secs: Real,
    /// Max candidates of an attempt (caps work under load).
    pub candidate_cap: usize,
    /// Sleep between scans when fewer than 10 candidates are available.
    pub idle_sleep_ms: u64,
}

/// What the environment sets, already read as numbers; `None` where a variable
/// is absent or does not read as one.
#[derive(Debug)]
pub struct Overrides {
    /// `MM_BIND`
    pub bind: Option<String>,
    /// `MM_WORKERS`
    pub workers: Option<usize>,
    /// `MM_INITIAL_WINDOW`
    pub initial_window: Option<Real>,
    /// `MM_MAX_WINDOW`
    pub max_window: Option<Real>,
    /// `MM_RELAX_SECS`
    pub relax_secs: Option<Real>,
    /// `MM_CROSS_REGION_AFTER_SECS`
    pub cross_region_after_secs: Option<Real>,
    /// `MM_HARD_DEADLINE_SECS`
    pub hard_deadline_secs: Option<Real>,
    /// `MM_CANDIDATE_CAP`
    pub candidate_cap: Option<usize>,
    /// `MM_IDLE_SLEEP_MS`
    pub idle_sleep_ms: Option<u64>,
}

/// `value` if it is set, else `default`.
pub open spec fn or_default<T>(value: Option<T>, default: T) -> T {
    match value {
        Some(v) => v,
        None => default,
    }
}

/// `n`, or 1 if that is zero.
pub open spec fn one_or_more(n: usize) -> usize {
    if n >= 1 {
        n
    } else {
        1
    }
}

/// The workers of a machine of the given parallelism, if that is known.
pub open spec fn default_workers(parallelism: Option<usize>) -> usize {
    match parallelism {
        Some(n) => one_or_more(n),
        None => FALLBACK_WORKERS,
    }
}

/// `n`, or 1 if that is zero.
fn at_least_one(n: usize) -> (r: usize)
    ensures
        r == one_or_more(n),
{
    if n >= 1 {
        n
    } else {
        1
    }
}

impl Config {
    /// The defaults on a machine of the given parallelism, if that is known.
    pub fn with_parallelism(parallelism: Option<usize>) -> (r: Config)
        ensures
            r.bind_addr@ == DEFAULT_BIND@,
            r.workers == default_workers(parallelism),
            r.workers >= 1,
            parallelism matches Some(n) ==> r.workers == n || (n == 0 && r.workers == 1),
            parallelism is None ==> r.workers == FALLBACK_WORKERS,
            r.initial_window.bits == DEFAULT_INITIAL_WINDOW,
            r.max_window.bits == DEFAULT_MAX_WINDOW,
            r.relax_secs.bits == DEFAULT_RELAX_SECS,
            r.cross_region_after_secs.bits == DEFAULT_CROSS_REGION_AFTER_SECS,
            r.hard_deadline_secs.bits == DEFAULT_HARD_DEADLINE_SECS,
            r.candidate_cap == DEFAULT_CANDIDATE_CAP,
            r.idle_sleep_ms == DEFAULT_IDLE_SLEEP_MS,
    {
        Config {
            bind_addr: DEFAULT_BIND.to_owned(),
            workers: match parallelism {
                Some(n) => at_least_one(n),
                None => FALLBACK_WORKERS,
            },
            initial_window: Real { bits: DEFAULT_INITIAL_WINDOW },
            max_window: Real { bits: DEFAULT_MAX_WINDOW },
            relax_secs: Real { bits: DEFAULT_RELAX_SECS },
            cross_region_after_secs: Real { bits: DEFAULT_CROSS_REGION_AFTER_SECS },
            hard_deadline_secs: Real { bits: DEFAULT_HARD_DEADLINE_SECS },
            candidate_cap: DEFAULT_CANDIDATE_CAP,
            idle_sleep_ms: DEFAULT_IDLE_SLEEP_MS,
        }
    }

    /// The defaults, overlaid with what the environment sets. At least one
    /// worker, at least a match's worth of candidates, and a relaxing time that
    /// can be divided by.
    pub fn from_env(parallelism: Option<usize>, env: Overrides) -> (r: Config)
        ensures
            r.bind_addr@ == (match env.bind {
                Some(v) => v@,
                None => DEFAULT_BIND@,
            }),
            r.workers == (match env.workers {
                Some(n) => one_or_more(n),
                None => default_workers(parallelism),
            }),
            r.workers >= 1,
            r.initial_window == or_default(
                env.initial_window,
                (Real { bits: DEFAULT_INITIAL_WINDOW }),
            ),
            r.max_window == or_default(env.max_window, (Real { bits: DEFAULT_MAX_WINDOW })),
            r.relax_secs == (match env.relax_secs {
                Some(v) => v.at_least_floor_spec((Real { bits: MIN_RELAX_SECS })),
                None => (Real { bits: DEFAULT_RELAX_SECS }),
            }),
            r.cross_region_after_secs == or_default(
                env.cross_region_after_secs,
                (Real { bits: DEFAULT_CROSS_REGION_AFTER_SECS }),
            ),
            r.hard_deadline_secs == or_default(
                env.hard_deadline_secs,
                (Real { bits: DEFAULT_HARD_DEADLINE_SECS }),
            ),
            r.candidate_cap == (match env.candidate_cap {
                Some(n) => if n >= MATCH_SIZE {
                    n
                } else {
                    MATCH_SIZE
                },
                None => DEFAULT_CANDIDATE_CAP,
            }),
            r.idle_sleep_ms == or_default(env.idle_sleep_ms, DEFAULT_IDLE_SLEEP_MS),
            r.candidate_cap >= MATCH_SIZE,
            r.relax_secs.at_least_spec((Real { bits: MIN_RELAX_SECS })),
            env.workers matches Some(n) ==> r.workers == n || (n == 0 && r.workers == 1),
            env.workers is None ==> (parallelism matches Some(n) ==> r.workers == n || (n == 0
                && r.workers == 1)),
            env.workers is None && parallelism is None ==> r.workers == FALLBACK_WORKERS,
            env.initial_window matches Some(v) ==> r.initial_window.bits == v.bits,
            env.initial_window is None ==> r.initial_window.bits == DEFAULT_INITIAL_WINDOW,
            env.max_window matches Some(v) ==> r.max_window.bits == v.bits,
            env.max_window is None ==> r.max_window.bits == DEFAULT_MAX_WINDOW,
            env.relax_secs matches Some(v) ==> (Real { bits: MIN_RELAX_SECS }).order() <= v.order()
                && v.order() <= (Real { bits: INFINITY_BITS }).order() ==> r.relax_secs.bits
                == v.bits,
            env.relax_secs matches Some(v) ==> v.order() < (Real { bits: MIN_RELAX_SECS }).order()
                || v.order() > (Real { bits: INFINITY_BITS }).order() ==> r.relax_secs.bits
                == MIN_RELAX_SECS,
            env.relax_secs is None ==> r.relax_secs.bits == DEFAULT_RELAX_SECS,
            env.cross_region_after_secs matches Some(v) ==> r.cross_region_after_secs.bits
                == v.bits,
            env.cross_region_after_secs is None ==> r.cross_region_after_secs.bits
                == DEFAULT_CROSS_REGION_AFTER_SECS,
            env.hard_deadline_secs matches Some(v) ==> r.hard_deadline_secs.bits == v.bits,
            env.hard_deadline_secs is None ==> r.hard_deadline_secs.bits
                == DEFAULT_HARD_DEADLINE_SECS,
            env.candidate_cap matches Some(n) ==> r.candidate_cap == n || (n < MATCH_SIZE
                && r.candidate_cap == MATCH_SIZE),
            env.candidate_cap is None ==> r.candidate_cap == DEFAULT_CANDIDATE_CAP,
            env.idle_sleep_ms matches Some(v) ==> r.idle_sleep_ms == v,
            env.idle_sleep_ms is None ==> r.idle_sleep_ms == DEFAULT_IDLE_SLEEP_MS,
    {
        let mut c = Config::with_parallelism(parallelism);
        if let Some(v) = env.bind {
            c.bind_addr = v;
        }
        if let Some(n) = env.workers {
            c.workers = at_least_one(n);
        }
        if let Some(v) = env.initial_window {
            c.initial_window = v;
        }
        if let Some(v) = env.max_window {
            c.max_window = v;
        }
        if let Some(v) = env.relax_secs {
            c.relax_secs = v.at_least_floor(Real { bits: MIN_RELAX_SECS });
        }
        if let Some(v) = env.cross_region_after_secs {
            c.cross_region_after_secs = v;
        }
        if let Some(v) = env.hard_deadline_secs {
            c.hard_deadline_secs = v;
        }
        if let Some(n) = env.candidate_cap {
            c.candidate_cap = if n >= MATCH_SIZE {
                n
            } else {
                MATCH_SIZE
            };
        }
        if let Some(v) = env.idle_sleep_ms {
            c.idle_sleep_ms = v;
        }
        c
    }
}

} // verus!
