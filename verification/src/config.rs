//! The node's configuration and the commands that concern it.

use vstd::prelude::*;

verus! {

/// Limits on the node's network use, as rate strings such as `1Mbps`.
#[derive(Debug, PartialEq, Eq)]
pub struct NetworkConfig {
    pub max_download_speed: String,
    pub max_upload_speed: String,
}

/// How bursts above the limits are treated.
#[derive(Debug, PartialEq, Eq)]
pub struct ThrottlingConfig {
    pub enabled: bool,
    pub burst_limit: String,
    pub burst_duration: String,
}

/// The configuration that a node is started with.
#[derive(Debug, PartialEq, Eq)]
pub struct Config {
    /// Directory whose files are served.
    pub html_dir: String,
    pub network: NetworkConfig,
    pub throttling: ThrottlingConfig,
}

/// The limits as mathematical values.
pub struct NetworkConfigView {
    pub max_download_speed: Seq<char>,
    pub max_upload_speed: Seq<char>,
}

/// The treatment of bursts as mathematical values.
pub struct ThrottlingConfigView {
    pub enabled: bool,
    pub burst_limit: Seq<char>,
    pub burst_duration: Seq<char>,
}

/// A configuration as mathematical values.
pub struct ConfigView {
    pub html_dir: Seq<char>,
    pub network: NetworkConfigView,
    pub throttling: ThrottlingConfigView,
}

impl View for NetworkConfig {
    type V = NetworkConfigView;

    open spec fn view(&self) -> NetworkConfigView {
        NetworkConfigView {
            max_download_speed: self.max_download_speed@,
            max_upload_speed: self.max_upload_speed@,
        }
    }
}

impl View for ThrottlingConfig {
    type V = ThrottlingConfigView;

    open spec fn view(&self) -> ThrottlingConfigView {
        ThrottlingConfigView {
            enabled: self.enabled,
            burst_limit: self.burst_limit@,
            burst_duration: self.burst_duration@,
        }
    }
}

impl View for Config {
    type V = ConfigView;

    open spec fn view(&self) -> ConfigView {
        ConfigView {
            html_dir: self.html_dir@,
            network: self.network@,
            throttling: self.throttling@,
        }
    }
}

impl Clone for NetworkConfig {
    fn clone(&self) -> (copy: NetworkConfig)
        ensures
            copy@ == self@,
    {
        NetworkConfig {
            max_download_speed: self.max_download_speed.clone(),
            max_upload_speed: self.max_upload_speed.clone(),
        }
    }
}

impl Clone for ThrottlingConfig {
    fn clone(&self) -> (copy: ThrottlingConfig)
        ensures
            copy@ == self@,
    {
        ThrottlingConfig {
            enabled: self.enabled,
            burst_limit: self.burst_limit.clone(),
            burst_duration: self.burst_duration.clone(),
        }
    }
}

impl Clone for Config {
    fn clone(&self) -> (copy: Config)
        ensures
            copy@ == self@,
    {
        Config {
            html_dir: self.html_dir.clone(),
            network: self.network.clone(),
            throttling: self.throttling.clone(),
        }
    }
}

/// The configuration that a node has when none was written yet.
pub open spec fn default_config() -> ConfigView {
    ConfigView {
        html_dir: "./html"@,
        network: NetworkConfigView {
            max_download_speed: "1Mbps"@,
            max_upload_speed: "512kbps"@,
        },
        throttling: ThrottlingConfigView {
            enabled: true,
            burst_limit: "200kbps"@,
            burst_duration: "5s"@,
        },
    }
}

impl Default for Config {
    fn default() -> (config: Config)
        ensures
            config@ == default_config(),
    {
        Config {
            html_dir: "./html".to_owned(),
            network: NetworkConfig {
                max_download_speed: "1Mbps".to_owned(),
                max_upload_speed: "512kbps".to_owned(),
            },
            throttling: ThrottlingConfig {
                enabled: true,
                burst_limit: "200kbps".to_owned(),
                burst_duration: "5s".to_owned(),
            },
        }
    }
}

/// What a `config` command asks for.
#[derive(Clone, Copy, Debug, PartialEq, Eq, Structural)]
pub enum ConfigCommand {
    /// Print the configuration.
    Show,
    /// Anything else: report it as unknown.
    Unknown,
}

/// What the words after `config` ask for.
pub open spec fn config_command(args: Seq<String>) -> ConfigCommand {
    if args.len() > 0 && args[0]@ == "show"@ {
        ConfigCommand::Show
    } else {
        ConfigCommand::Unknown
    }
}

impl Config {
    /// The configuration to run with, given the one that was found
    /// written, if any, and whether the defaults are to be written:
    /// they are when none was found.
    pub fn load(found: Option<Config>) -> (loaded: (Config, bool))
        ensures
            loaded.1 == found.is_none(),
            loaded.0@ == match found {
                Some(config) => config@,
                None => default_config(),
            },
    {
        match found {
            Some(config) => (config, false),
            None => (Config::default(), true),
        }
    }

    /// Reads the words after `config` on the command line.
    pub fn handle_config_command(args: &[String]) -> (command: ConfigCommand)
        ensures
            command == config_command(args@),
    {
        if args.len() > 0 && args[0] == "show".to_owned() {
            ConfigCommand::Show
        } else {
            ConfigCommand::Unknown
        }
    }
}

} // verus!
