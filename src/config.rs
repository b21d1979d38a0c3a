//! Client-side settings: the command-line client's configuration, the
//! client's connection settings, and the pause between attempts of an
//! operation that failed.
use vstd::prelude::*;

verus! {

/// Address of the metadata service that clients use by default.
pub open spec fn default_endpoint() -> Seq<char> {
    seq!['h', 't', 't', 'p', ':', '/', '/', '1', '2', '7', '.', '0', '.', '0', '.', '1', ':', '5', '0', '0', '5', '1']
}

fn default_endpoint_string() -> (r: String)
    ensures
        r@ == default_endpoint(),
{
    proof {
        reveal_strlit("http://127.0.0.1:50051");
    }
    let s = String::from_str("http://127.0.0.1:50051");
    assert(s@ =~= default_endpoint());
    s
}

/// The command-line client's configuration file.
pub struct CliConfig {
    pub endpoint: String,
    pub timeout_ms: u64,
    pub retry_attempts: u32,
    pub auto_retry: bool,
}

impl Default for CliConfig {
    /// The default service address, a 30 s timeout, 3 attempts, retrying on.
    fn default() -> (r: CliConfig)
        ensures
            r.endpoint@ == default_endpoint(),
            r.timeout_ms == 30000,
            r.retry_attempts == 3,
            r.auto_retry,
    {
        CliConfig {
            endpoint: default_endpoint_string(),
            timeout_ms: 30000,
            retry_attempts: 3,
            auto_retry: true,
        }
    }
}

/// A client's connection settings.
pub struct ClientConfig {
    pub endpoint: String,
    /// Time allowed for each attempt, in milliseconds.
    pub timeout_ms: u64,
    /// How many times an operation is tried before its error is returned.
    pub retry_attempts: u32,
}

impl Default for ClientConfig {
    /// The default service address, a 30 s timeout, 3 attempts.
    fn default() -> (r: ClientConfig)
        ensures
            r.endpoint@ == default_endpoint(),
            r.timeout_ms == 30000,
            r.retry_attempts == 3,
    {
        ClientConfig { endpoint: default_endpoint_string(), timeout_ms: 30000, retry_attempts: 3 }
    }
}

impl ClientConfig {
    /// After attempt number `attempt` (from 0) has failed: the pause before
    /// the next attempt, `100 * (attempt + 1)` ms, or `None` when that was the
    /// last attempt allowed and its error is to be returned.
    pub fn retry_delay_ms(&self, attempt: u32) -> (r: Option<u64>)
        ensures
            attempt + 1 < self.retry_attempts ==> r == Some((100 * (attempt + 1)) as u64),
            attempt + 1 >= self.retry_attempts ==> r is None,
    {
        if (attempt as u64) + 1 < self.retry_attempts as u64 {
            Some(100 * ((attempt as u64) + 1))
        } else {
            None
        }
    }
}


/// One setting of the command-line client's configuration, with its new value.
pub enum ConfigSetting {
    Endpoint(String),
    TimeoutMs(u64),
    RetryAttempts(u32),
    AutoRetry(bool),
}

/// A `config` subcommand of the command-line client.
pub enum ConfigCommand {
    /// Print the configuration.
    Show,
    /// Change one setting.
    Update(ConfigSetting),
    /// Go back to the defaults.
    Reset,
}

/// The configuration (endpoint, timeout, attempts, retrying) after `cmd`.
pub open spec fn config_after(
    cmd: ConfigCommand,
    endpoint: Seq<char>,
    timeout_ms: u64,
    retry_attempts: u32,
    auto_retry: bool,
) -> (Seq<char>, u64, u32, bool) {
    match cmd {
        ConfigCommand::Show => (endpoint, timeout_ms, retry_attempts, auto_retry),
        ConfigCommand::Reset => (default_endpoint(), 30000, 3, true),
        ConfigCommand::Update(ConfigSetting::Endpoint(e)) => (e@, timeout_ms, retry_attempts, auto_retry),
        ConfigCommand::Update(ConfigSetting::TimeoutMs(t)) => (endpoint, t, retry_attempts, auto_retry),
        ConfigCommand::Update(ConfigSetting::RetryAttempts(n)) => (endpoint, timeout_ms, n, auto_retry),
        ConfigCommand::Update(ConfigSetting::AutoRetry(b)) => (endpoint, timeout_ms, retry_attempts, b),
    }
}

/// Applies `cmd` to `config`. Returns whether the configuration changed
/// and is to be saved: false for `Show`, true otherwise.
pub fn handle_config_command(cmd: &ConfigCommand, config: &mut CliConfig) -> (r: bool)
    ensures
        r == !(cmd is Show),
        ({
            let (e, t, n, b) = config_after(
                *cmd,
                old(config).endpoint@,
                old(config).timeout_ms,
                old(config).retry_attempts,
                old(config).auto_retry,
            );
            &&& final(config).endpoint@ == e
            &&& final(config).timeout_ms == t
            &&& final(config).retry_attempts == n
            &&& final(config).auto_retry == b
        }),
{
    match cmd {
        ConfigCommand::Show => false,
        ConfigCommand::Reset => {
            *config = CliConfig::default();
            true
        },
        ConfigCommand::Update(setting) => {
            match setting {
                ConfigSetting::Endpoint(e) => {
                    config.endpoint = e.clone();
                },
                ConfigSetting::TimeoutMs(t) => {
                    config.timeout_ms = *t;
                },
                ConfigSetting::RetryAttempts(n) => {
                    config.retry_attempts = *n;
                },
                ConfigSetting::AutoRetry(b) => {
                    config.auto_retry = *b;
                },
            }
            true
        },
    }
}

} // verus!
