use chuangshi::config::{handle_config_command, CliConfig, ClientConfig, ConfigCommand, ConfigSetting};

#[test]
fn defaults() {
    let c = CliConfig::default();
    assert_eq!(c.endpoint, "http://127.0.0.1:50051");
    assert_eq!(c.timeout_ms, 30000);
    assert_eq!(c.retry_attempts, 3);
    assert!(c.auto_retry);
    let k = ClientConfig::default();
    assert_eq!(k.endpoint, "http://127.0.0.1:50051");
    assert_eq!(k.retry_attempts, 3);
}

#[test]
fn retry_pauses_grow_linearly() {
    let k = ClientConfig::default();
    assert_eq!(k.retry_delay_ms(0), Some(100));
    assert_eq!(k.retry_delay_ms(1), Some(200));
    assert_eq!(k.retry_delay_ms(2), None);
    let none = ClientConfig { endpoint: String::new(), timeout_ms: 1, retry_attempts: 0 };
    assert_eq!(none.retry_delay_ms(0), None);
}

#[test]
fn config_commands() {
    let mut c = CliConfig::default();
    assert!(!handle_config_command(&ConfigCommand::Show, &mut c));
    assert!(handle_config_command(
        &ConfigCommand::Update(ConfigSetting::Endpoint("http://h:1".to_string())),
        &mut c
    ));
    assert!(handle_config_command(&ConfigCommand::Update(ConfigSetting::TimeoutMs(5)), &mut c));
    assert!(handle_config_command(&ConfigCommand::Update(ConfigSetting::RetryAttempts(9)), &mut c));
    assert!(handle_config_command(&ConfigCommand::Update(ConfigSetting::AutoRetry(false)), &mut c));
    assert_eq!(c.endpoint, "http://h:1");
    assert_eq!(c.timeout_ms, 5);
    assert_eq!(c.retry_attempts, 9);
    assert!(!c.auto_retry);
    assert!(handle_config_command(&ConfigCommand::Reset, &mut c));
    assert_eq!(c.endpoint, "http://127.0.0.1:50051");
    assert_eq!(c.retry_attempts, 3);
}
