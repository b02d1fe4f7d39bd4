use warehouse_lab::config::{bind_setting, BindAddress, Config, ConfigError, ConfigTexts};

const LOCAL: BindAddress = BindAddress::V4 { octets: [127, 0, 0, 1], port: 8080 };

fn texts() -> ConfigTexts {
    ConfigTexts {
        bind: Some(LOCAL),
        data_dir: None,
        shards: None,
        wal_batch: None,
        wal_flush_ms: None,
        nats_url: None,
        live_tail: None,
        fail_after_replicate_id: None,
        instance_id: None,
        writer_priority_delay_ms: None,
    }
}

fn error(change: impl Fn(&mut ConfigTexts)) -> ConfigError {
    let mut texts = texts();
    change(&mut texts);
    Config::from_env(&texts).unwrap_err()
}

#[test]
fn defaults_hold_where_nothing_is_said() {
    let config = Config::from_env(&texts()).unwrap();
    assert_eq!(config.bind, LOCAL);
    assert_eq!(config.data_dir, "data");
    assert_eq!((config.shards, config.wal_batch, config.wal_flush_ms), (16, 1024, 2));
    assert_eq!(config.nats_url, None);
    assert!(!config.live_tail);
    assert_eq!(config.fail_after_replicate_id, None);
    assert_eq!(config.instance_id, "warehouse-local");
    assert_eq!(config.writer_priority_delay_ms, 0);
}

#[test]
fn what_is_said_is_taken() {
    let mut said = texts();
    said.shards = Some("4".into());
    said.wal_batch = Some("7".into());
    said.nats_url = Some("nats://host".into());
    said.live_tail = Some("true".into());
    said.fail_after_replicate_id = Some("  ".into());
    said.writer_priority_delay_ms = Some("250".into());
    let config = Config::from_env(&said).unwrap();
    assert_eq!((config.shards, config.wal_batch), (4, 7));
    assert_eq!(config.nats_url.as_deref(), Some("nats://host"));
    assert!(config.live_tail);
    assert_eq!(config.fail_after_replicate_id, None);
    assert_eq!(config.writer_priority_delay_ms, 250);
    said.live_tail = Some("TRUE".into());
    said.nats_url = Some(" \t".into());
    let config = Config::from_env(&said).unwrap();
    assert!(!config.live_tail);
    assert_eq!(config.nats_url, None);
}

#[test]
fn each_wrong_setting_has_its_error() {
    assert_eq!(error(|t| t.bind = None), ConfigError::InvalidBind);
    assert_eq!(error(|t| t.shards = Some("x".into())), ConfigError::InvalidShards);
    assert_eq!(error(|t| t.shards = Some("12".into())), ConfigError::ShardsNotPowerOfTwo);
    assert_eq!(error(|t| t.shards = Some("0".into())), ConfigError::ShardsNotPowerOfTwo);
    assert_eq!(error(|t| t.wal_batch = Some("-1".into())), ConfigError::InvalidWalBatch);
    assert_eq!(error(|t| t.wal_batch = Some("0".into())), ConfigError::WalBatchNotPositive);
    assert_eq!(error(|t| t.wal_flush_ms = Some("".into())), ConfigError::InvalidWalFlush);
    assert_eq!(error(|t| t.writer_priority_delay_ms = Some("1s".into())), ConfigError::InvalidWriterPriorityDelay);
}

#[test]
fn first_wrong_setting_is_reported() {
    assert_eq!(
        error(|t| {
            t.shards = Some("12".into());
            t.wal_flush_ms = Some("x".into());
        }),
        ConfigError::InvalidWalFlush
    );
}

#[test]
fn node_listens_at_an_address_only() {
    assert_eq!(bind_setting(&None), "127.0.0.1:8080");
    assert_eq!(bind_setting(&Some("localhost".into())), "localhost");
    let everywhere = BindAddress::V6 { segments: [0; 8], port: 80, flow_info: 0, scope_id: 0 };
    let mut said = texts();
    said.bind = Some(everywhere);
    assert_eq!(Config::from_env(&said).unwrap().bind, everywhere);
    said.shards = Some("12".into());
    assert_eq!(Config::from_env(&said).unwrap_err(), ConfigError::ShardsNotPowerOfTwo);
    said.bind = None;
    assert_eq!(Config::from_env(&said).unwrap_err(), ConfigError::InvalidBind);
}
