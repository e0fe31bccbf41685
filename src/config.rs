//! Configuration values of the agent that the core and its neighbours read.
use vstd::prelude::*;

use crate::trace::L7LogDynamicConfig;

verus! {

/// One mebibyte.
pub const MB: u64 = 1048576;

/// A span of time: whole seconds and the nanoseconds beyond them.
#[derive(Clone, Copy, PartialEq, Eq, Debug, Structural)]
pub struct Duration {
    pub secs: u64,
    pub nanos: u32,
}

impl Duration {
    pub fn from_secs(secs: u64) -> (r: Duration)
        ensures
            r == (Duration { secs, nanos: 0 }),
    {
        Duration { secs, nanos: 0 }
    }
}

/// Limits on the agent's own resource use.
#[derive(Clone, PartialEq, Eq, Debug)]
pub struct EnvironmentConfig {
    pub max_memory: u64,
    pub max_cpus: u32,
    pub process_threshold: u32,
    pub thread_threshold: u32,
    pub sys_free_memory_limit: u32,
    pub log_file_size: u32,
}

/// Clock synchronisation with the controller.
#[derive(Clone, PartialEq, Eq, Debug)]
pub struct SynchronizerConfig {
    pub sync_interval: Duration,
    pub ntp_enabled: bool,
    pub max_escape: Duration,
    pub output_vlan: u16,
}

/// Where and how often statistics are sent.
#[derive(Clone, PartialEq, Eq, Debug)]
pub struct StatsConfig {
    pub interval: Duration,
    pub host: String,
}

/// L7 log parsing.
#[derive(Clone, PartialEq, Eq, Debug)]
pub struct LogParserConfig {
    pub l7_log_collect_nps_threshold: u64,
    pub l7_log_session_aggr_timeout: Duration,
    pub l7_log_dynamic: L7LogDynamicConfig,
}

/// Severity of a log record.
#[derive(Clone, Copy, PartialEq, Eq, Debug, Structural)]
pub enum LogLevel {
    Error,
    Warn,
    Info,
    Debug,
    Trace,
}

/// The agent's own logging.
#[derive(Clone, PartialEq, Eq, Debug)]
pub struct LogConfig {
    pub log_level: LogLevel,
    pub log_threshold: u32,
    pub log_retention: u32,
    pub rsyslog_enabled: bool,
    pub host: String,
}

/// Diagnosis of the host's virtual machines.
#[derive(Clone, PartialEq, Eq, Debug)]
pub struct DiagnoseConfig {
    pub enabled: bool,
    pub libvirt_xml_path: String,
}

/// The HTTP proxy for external agents.
#[derive(Clone, PartialEq, Eq, Debug)]
pub struct MetricServerConfig {
    pub enabled: bool,
    pub port: u16,
    pub compressed: bool,
}

/// The fast-path map size: the configured one when set, else one derived
/// from the memory limit, 32000 entries per 128 MiB, kept within
/// `[32000, 2^20]`.
pub open spec fn fast_path_map_size_spec(configured: usize, mem_size: u64) -> int {
    if configured > 0 {
        configured as int
    } else {
        let derived = mem_size as int / MB as int / 128 * 32000;
        if derived < 32000 {
            32000
        } else if derived > 0x10_0000 {
            0x10_0000
        } else {
            derived
        }
    }
}

/// The fast-path map size for a configured size (0 for none) and a memory
/// limit in bytes.
pub fn get_fast_path_map_size(configured: usize, mem_size: u64) -> (r: usize)
    ensures
        r == fast_path_map_size_spec(configured, mem_size),
{
    if configured > 0 {
        return configured;
    }
    let derived: u64 = mem_size / MB / 128;
    if derived >= 0x10_0000 / 32000 + 1 {
        return 0x10_0000;
    }
    let derived = derived * 32000;
    if derived < 32000 {
        32000
    } else if derived > 0x10_0000 {
        0x10_0000
    } else {
        derived as usize
    }
}

/// How the agent captures traffic.
#[derive(Clone, Copy, PartialEq, Eq, Debug, Structural)]
pub enum TapMode {
    Local,
    Mirror,
    Analyzer,
    Decap,
}

/// The number of AF_PACKET blocks: the configured number (at least 8) in
/// analyzer mode or when configured explicitly, else one block per 16
/// blocks of `block_size` bytes that the memory limit allows, at most 128.
pub open spec fn af_packet_blocks_spec(tap_mode: TapMode, blocks_enabled: bool, blocks: usize, mem_size: u64, block_size: usize) -> int {
    if tap_mode == TapMode::Analyzer || blocks_enabled {
        if blocks < 8 {
            8
        } else {
            blocks as int
        }
    } else {
        let derived = (mem_size as usize) as int / block_size as int / 16;
        if derived > 128 {
            128
        } else {
            derived
        }
    }
}

/// The number of AF_PACKET blocks; see `af_packet_blocks_spec`.
pub fn get_af_packet_blocks(tap_mode: TapMode, blocks_enabled: bool, blocks: usize, mem_size: u64, block_size: usize) -> (r: usize)
    requires
        block_size > 0,
    ensures
        r == af_packet_blocks_spec(tap_mode, blocks_enabled, blocks, mem_size, block_size),
{
    if tap_mode == TapMode::Analyzer || blocks_enabled {
        if blocks < 8 {
            8
        } else {
            blocks
        }
    } else {
        let derived = #[verifier::truncate] (mem_size as usize) / block_size / 16;
        if derived > 128 {
            128
        } else {
            derived
        }
    }
}

} // verus!
