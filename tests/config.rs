use agent_policy::config::{get_af_packet_blocks, Duration, LogConfig, LogLevel, SynchronizerConfig, TapMode, MB};

#[test]
fn durations_from_seconds() {
    let d = Duration::from_secs(60);
    assert_eq!(d, Duration { secs: 60, nanos: 0 });
    let c = SynchronizerConfig { sync_interval: d, ntp_enabled: true, max_escape: Duration::from_secs(3600), output_vlan: 0 };
    assert_eq!(c.clone(), c);
    let l = LogConfig { log_level: LogLevel::Info, log_threshold: 300, log_retention: 30, rsyslog_enabled: false, host: String::new() };
    assert_eq!(l.log_level, LogLevel::Info);
}

#[test]
fn af_packet_blocks() {
    assert_eq!(get_af_packet_blocks(TapMode::Analyzer, false, 4, 0, 1 << 20), 8);
    assert_eq!(get_af_packet_blocks(TapMode::Local, true, 64, 0, 1 << 20), 64);
    assert_eq!(get_af_packet_blocks(TapMode::Local, false, 64, 512 * MB, 1 << 20), 32);
    assert_eq!(get_af_packet_blocks(TapMode::Mirror, false, 64, 1 << 40, 1 << 20), 128);
}
