use overlay_node::cli::{parse_command, Command};
use overlay_node::config::{Config, ConfigCommand, NetworkConfig, ThrottlingConfig};

fn words(list: &[&str]) -> Vec<String> {
    list.iter().map(|w| w.to_string()).collect()
}

#[test]
fn the_default_configuration_has_the_documented_values() {
    let config = Config::default();
    assert_eq!(
        config,
        Config {
            html_dir: "./html".to_string(),
            network: NetworkConfig {
                max_download_speed: "1Mbps".to_string(),
                max_upload_speed: "512kbps".to_string(),
            },
            throttling: ThrottlingConfig {
                enabled: true,
                burst_limit: "200kbps".to_string(),
                burst_duration: "5s".to_string(),
            },
        }
    );
}

#[test]
fn a_copy_of_a_configuration_is_equal_to_it() {
    let mut config = Config::default();
    config.html_dir = "/srv/www".to_string();
    config.throttling.enabled = false;
    assert_eq!(config.clone(), config);
    assert_eq!(config.network.clone(), config.network);
    assert_eq!(config.throttling.clone(), config.throttling);
}

#[test]
fn a_missing_configuration_is_made_of_the_defaults_and_written() {
    assert_eq!(Config::load(None), (Config::default(), true));
    let mut found = Config::default();
    found.html_dir = "/srv/www".to_string();
    assert_eq!(Config::load(Some(found.clone())), (found, false));
}

#[test]
fn config_show_is_known_and_nothing_else() {
    assert_eq!(Config::handle_config_command(&words(&["show"])), ConfigCommand::Show);
    assert_eq!(Config::handle_config_command(&words(&["show", "all"])), ConfigCommand::Show);
    assert_eq!(Config::handle_config_command(&words(&["set"])), ConfigCommand::Unknown);
    assert_eq!(Config::handle_config_command(&words(&["Show"])), ConfigCommand::Unknown);
    assert_eq!(Config::handle_config_command(&words(&[])), ConfigCommand::Unknown);
}

#[test]
fn the_command_line_is_read() {
    assert_eq!(parse_command(&words(&["node", "start"])), Command::Start);
    assert_eq!(
        parse_command(&words(&["node", "config", "show"])),
        Command::Config(ConfigCommand::Show)
    );
    assert_eq!(
        parse_command(&words(&["node", "config"])),
        Command::Config(ConfigCommand::Unknown)
    );
    assert_eq!(
        parse_command(&words(&["node", "config", "edit"])),
        Command::Config(ConfigCommand::Unknown)
    );
    assert_eq!(
        parse_command(&words(&["node", "announce", "file123"])),
        Command::Announce("file123".to_string())
    );
    assert_eq!(
        parse_command(&words(&["node", "announce", "file123", "more"])),
        Command::Announce("file123".to_string())
    );
}

#[test]
fn what_is_missing_or_unknown_is_told() {
    assert_eq!(parse_command(&words(&["node"])), Command::Usage);
    assert_eq!(parse_command(&words(&[])), Command::Usage);
    assert_eq!(parse_command(&words(&["node", "announce"])), Command::AnnounceUsage);
    assert_eq!(parse_command(&words(&["node", "stop"])), Command::Unknown("stop".to_string()));
    assert_eq!(parse_command(&words(&["node", ""])), Command::Unknown("".to_string()));
    assert_eq!(
        parse_command(&words(&["node", "START"])),
        Command::Unknown("START".to_string())
    );
}
