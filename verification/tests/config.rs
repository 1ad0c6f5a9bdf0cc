use nfs_mirror::cli::{Cli, CliError, LogLevel};
use nfs_mirror::config::{
    default_ip, default_log_level, default_max_connections, default_port, default_read_timeout,
    default_write_timeout, Config, ConfigError, MountConfig, ServerConfig, SourceKind,
};
use std::path::PathBuf;

fn mount_at(target: &str) -> MountConfig {
    MountConfig {
        source: PathBuf::from("/tmp/test"),
        target: target.to_string(),
        read_only: false,
        description: Some("Test mount".to_string()),
    }
}

fn config_with(targets: &[&str]) -> Config {
    Config {
        server: ServerConfig::default(),
        mounts: targets.iter().map(|t| mount_at(t)).collect(),
    }
}

fn dirs(n: usize) -> Vec<SourceKind> {
    vec![SourceKind::Directory; n]
}

fn cli() -> Cli {
    Cli {
        config: None,
        directory: None,
        target: None,
        ip: "127.0.0.1".to_string(),
        port: 11451,
        log_level: "error".to_string(),
        verbose: false,
        daemon: false,
        pid_file: None,
        work_dir: None,
        max_connections: 100,
        read_timeout: 30,
        write_timeout: 30,
        read_only: false,
        allow_ips: None,
        no_color: false,
        generate_config: None,
    }
}

#[test]
fn test_default_config() {
    let config = Config::default();
    assert!(config.validate(&Vec::new()).is_err()); // No mounts configured
}

#[test]
fn defaults() {
    assert_eq!(default_ip(), "127.0.0.1");
    assert_eq!(default_port(), 11451);
    assert_eq!(default_log_level(), "error");
    assert_eq!(default_max_connections(), 100);
    assert_eq!(default_read_timeout(), 30);
    assert_eq!(default_write_timeout(), 30);
    let server = ServerConfig::default();
    assert_eq!(server.port, 11451);
    assert_eq!(server.ip, "127.0.0.1");
    assert!(!server.read_only && !server.verbose && !server.daemon && !server.no_color);
    assert!(server.pid_file.is_none() && server.work_dir.is_none() && server.allow_ips.is_none());
    assert!(Config::default().mounts.is_empty());
}

#[test]
fn a_valid_configuration_passes() {
    let config = config_with(&["/test", "/other"]);
    assert_eq!(config.validate(&dirs(2)), Ok(()));
}

#[test]
fn each_rule_is_reported() {
    assert_eq!(Config::default().validate(&Vec::new()), Err(ConfigError::NoMounts));
    let config = config_with(&["/a", "/b"]);
    assert_eq!(
        config.validate(&vec![SourceKind::Directory, SourceKind::Missing]),
        Err(ConfigError::SourceMissing(1))
    );
    assert_eq!(
        config.validate(&vec![SourceKind::NotDirectory, SourceKind::Missing]),
        Err(ConfigError::SourceNotDirectory(0))
    );
    assert_eq!(config_with(&["/a", ""]).validate(&dirs(2)), Err(ConfigError::EmptyTarget(1)));
    assert_eq!(
        config_with(&["a", "/b"]).validate(&dirs(2)),
        Err(ConfigError::TargetNotAbsolute(0))
    );
    assert_eq!(
        config_with(&["/a", "/b", "/a"]).validate(&dirs(3)),
        Err(ConfigError::DuplicateTarget(2))
    );
    let mut config = config_with(&["/a"]);
    config.server.port = 0;
    assert_eq!(config.validate(&dirs(1)), Err(ConfigError::PortZero));
}

#[test]
fn the_first_broken_rule_wins() {
    // A fault of a later mount comes before a duplicate, and both before the port.
    let mut config = config_with(&["/a", "/a", "b"]);
    config.server.port = 0;
    assert_eq!(config.validate(&dirs(3)), Err(ConfigError::TargetNotAbsolute(2)));
    let mut config = config_with(&["/a", "/a"]);
    config.server.port = 0;
    assert_eq!(config.validate(&dirs(2)), Err(ConfigError::DuplicateTarget(1)));
    let config = config_with(&["", "/b"]);
    assert_eq!(
        config.validate(&vec![SourceKind::Missing, SourceKind::Missing]),
        Err(ConfigError::SourceMissing(0))
    );
}

#[test]
fn mounts_are_found_by_target() {
    let mut config = config_with(&["/a", "/b", "/a"]);
    config.mounts[2].read_only = true;
    assert_eq!(config.get_mount_targets(), vec!["/a", "/b", "/a"]);
    assert_eq!(config.get_mount_by_target("/b").unwrap().target, "/b");
    assert!(!config.get_mount_by_target("/a").unwrap().read_only);
    assert!(config.get_mount_by_target("/c").is_none());
    assert!(Config::default().get_mount_targets().is_empty());
}

#[test]
fn the_log_level_follows_the_verbose_flag() {
    let mut args = cli();
    assert_eq!(args.get_log_level(), LogLevel::Error);
    args.log_level = "trace".to_string();
    assert_eq!(args.get_log_level(), LogLevel::Trace);
    args.log_level = "info".to_string();
    assert_eq!(args.get_log_level(), LogLevel::Info);
    args.log_level = "warn".to_string();
    assert_eq!(args.get_log_level(), LogLevel::Warn);
    args.log_level = "debug".to_string();
    assert_eq!(args.get_log_level(), LogLevel::Debug);
    args.log_level = "loud".to_string();
    assert_eq!(args.get_log_level(), LogLevel::Error);
    args.log_level = "trace".to_string();
    args.verbose = true;
    assert_eq!(args.get_log_level(), LogLevel::Debug);
}

#[test]
fn single_directory_mode_makes_one_mount() {
    let mut args = cli();
    assert_eq!(args.to_config(None).err(), Some(CliError::NoDirectory));
    args.directory = Some(PathBuf::from("/srv/data"));
    assert_eq!(args.to_config(None).err(), Some(CliError::TargetRequired));
    args.target = Some("/data".to_string());
    args.read_only = true;
    args.port = 2049;
    let config = args.to_config(Some("Mount from /srv/data to /data".to_string())).unwrap();
    assert_eq!(config.mounts.len(), 1);
    assert_eq!(config.mounts[0].source, PathBuf::from("/srv/data"));
    assert_eq!(config.mounts[0].target, "/data");
    assert!(config.mounts[0].read_only);
    assert_eq!(
        config.mounts[0].description.as_deref(),
        Some("Mount from /srv/data to /data")
    );
    assert_eq!(config.server.port, 2049);
    assert!(config.server.read_only);
    assert_eq!(config.server.ip, "127.0.0.1");
}

#[test]
fn the_command_line_overrides_only_where_it_differs() {
    let mut file = config_with(&["/a"]);
    file.server.port = 3000;
    file.server.ip = "10.0.0.1".to_string();
    file.server.log_level = "info".to_string();
    file.server.max_connections = 5;
    file.server.read_timeout = 7;
    file.server.write_timeout = 8;
    file.server.read_only = true;
    file.server.pid_file = Some(PathBuf::from("/run/file.pid"));
    file.server.allow_ips = Some("10.0.0.2".to_string());

    let mut untouched = file.clone();
    cli().override_config(&mut untouched);
    assert_eq!(untouched.server.port, 3000);
    assert_eq!(untouched.server.ip, "10.0.0.1");
    assert_eq!(untouched.server.log_level, "info");
    assert_eq!(untouched.server.max_connections, 5);
    assert_eq!(untouched.server.read_timeout, 7);
    assert_eq!(untouched.server.write_timeout, 8);
    assert!(untouched.server.read_only);
    assert_eq!(untouched.server.pid_file, Some(PathBuf::from("/run/file.pid")));
    assert_eq!(untouched.server.allow_ips.as_deref(), Some("10.0.0.2"));
    assert_eq!(untouched.mounts.len(), 1);

    let mut args = cli();
    args.port = 4000;
    args.ip = "0.0.0.0".to_string();
    args.log_level = "debug".to_string();
    args.verbose = true;
    args.daemon = true;
    args.max_connections = 9;
    args.read_timeout = 1;
    args.write_timeout = 2;
    args.no_color = true;
    args.work_dir = Some(PathBuf::from("/work"));
    args.pid_file = Some(PathBuf::from("/run/cli.pid"));
    args.allow_ips = Some("1.2.3.4".to_string());
    let mut merged = file.clone();
    args.override_config(&mut merged);
    assert_eq!(merged.server.port, 4000);
    assert_eq!(merged.server.ip, "0.0.0.0");
    assert_eq!(merged.server.log_level, "debug");
    assert!(merged.server.verbose && merged.server.daemon && merged.server.no_color);
    assert_eq!(merged.server.max_connections, 9);
    assert_eq!(merged.server.read_timeout, 1);
    assert_eq!(merged.server.write_timeout, 2);
    assert!(merged.server.read_only);
    assert_eq!(merged.server.work_dir, Some(PathBuf::from("/work")));
    assert_eq!(merged.server.pid_file, Some(PathBuf::from("/run/cli.pid")));
    assert_eq!(merged.server.allow_ips.as_deref(), Some("1.2.3.4"));
    assert_eq!(merged.mounts[0].target, "/a");
}
