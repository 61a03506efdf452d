use vstd::prelude::*;
use crate::errors::Error;

verus! {

/// Identity of an oracle data-feed provider.
#[derive(Clone, Copy, PartialEq, Eq, Debug)]
pub enum OracleProvider {
    Reflector,
    Pyth,
}

/// How an observed feed value is held against the configured threshold.
#[derive(Clone, Copy, PartialEq, Eq, Debug)]
pub enum Comparison {
    GreaterThan,
    LessThan,
    EqualTo,
}

/// Configuration of one oracle feed: where the observation comes from
/// and how it decides the market.
pub struct OracleConfig {
    pub provider: OracleProvider,
    pub oracle_address: u64,
    pub feed_id: String,
    pub threshold: i128,
    pub comparison: Comparison,
}

/// Whether `value` satisfies `comparison` against `threshold`.
pub open spec fn compare_spec(comparison: Comparison, value: i128, threshold: i128) -> bool {
    match comparison {
        Comparison::GreaterThan => value > threshold,
        Comparison::LessThan => value < threshold,
        Comparison::EqualTo => value == threshold,
    }
}

pub fn compare(comparison: Comparison, value: i128, threshold: i128) -> (r: bool)
    ensures
        r == compare_spec(comparison, value, threshold),
{
    match comparison {
        Comparison::GreaterThan => value > threshold,
        Comparison::LessThan => value < threshold,
        Comparison::EqualTo => value == threshold,
    }
}

/// The index of the outcome a configuration awards for an observed
/// value: the first outcome when the comparison holds, the second when
/// it does not.
pub open spec fn awarded_outcome(config: OracleConfig, value: i128) -> usize {
    if compare_spec(config.comparison, value, config.threshold) {
        0
    } else {
        1
    }
}

/// The adapter's decision from the raw observations alone.  A primary
/// observation decides directly.  Without one, the fallback
/// configuration's observation decides, but only once the resolution
/// timeout has elapsed since the end time and a fallback is configured;
/// otherwise no resolution is available and the market stays as it is,
/// awaiting a later attempt or a manual resolution.
pub open spec fn oracle_outcome_spec(
    primary: OracleConfig,
    fallback: Option<OracleConfig>,
    primary_obs: Option<i128>,
    fallback_obs: Option<i128>,
    now: u64,
    end_time: u64,
    resolution_timeout: u64,
) -> Result<usize, Error> {
    match primary_obs {
        Some(v) => Ok(awarded_outcome(primary, v)),
        None => if now >= end_time + resolution_timeout {
            match (fallback, fallback_obs) {
                (Some(fb), Some(w)) => Ok(awarded_outcome(fb, w)),
                _ => Err(Error::OracleUnavailable),
            }
        } else {
            Err(Error::OracleUnavailable)
        },
    }
}

/// Converts raw oracle observations into the winning outcome index.
pub fn oracle_outcome(
    primary: &OracleConfig,
    fallback: &Option<OracleConfig>,
    primary_obs: Option<i128>,
    fallback_obs: Option<i128>,
    now: u64,
    end_time: u64,
    resolution_timeout: u64,
) -> (r: Result<usize, Error>)
    ensures
        r == oracle_outcome_spec(
            *primary,
            *fallback,
            primary_obs,
            fallback_obs,
            now,
            end_time,
            resolution_timeout,
        ),
        r matches Ok(ix) ==> ix < 2,
{
    match primary_obs {
        Some(v) => {
            if compare(primary.comparison, v, primary.threshold) {
                Ok(0)
            } else {
                Ok(1)
            }
        },
        None => {
            let timed_out = (now as u128) >= (end_time as u128) + (resolution_timeout as u128);
            if timed_out {
                match (fallback, fallback_obs) {
                    (Some(fb), Some(w)) => {
                        if compare(fb.comparison, w, fb.threshold) {
                            Ok(0)
                        } else {
                            Ok(1)
                        }
                    },
                    _ => Err(Error::OracleUnavailable),
                }
            } else {
                Err(Error::OracleUnavailable)
            }
        },
    }
}

} // verus!
