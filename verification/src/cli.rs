//! The command line as plain values, and the rules by which it becomes a
//! configuration.

use crate::config::Config;
use crate::config::MountConfig;
use crate::config::ServerConfig;
use std::path::PathBuf;
use vstd::prelude::*;

verus! {

/// The log levels.
#[derive(Clone, Copy, Debug, PartialEq, Eq, Structural)]
pub enum LogLevel {
    Trace,
    Debug,
    Info,
    Warn,
    Error,
}

/// Why the command line gives no configuration.
#[derive(Clone, Copy, Debug, PartialEq, Eq, Structural)]
pub enum CliError {
    /// A directory was given without a target.
    TargetRequired,
    /// No directory was given.
    NoDirectory,
}

/// The arguments of the command line.
#[derive(Debug, Clone)]
pub struct Cli {
    /// The configuration file.
    pub config: Option<PathBuf>,
    /// The directory to mirror, in single directory mode.
    pub directory: Option<PathBuf>,
    /// The target of the mount, in single directory mode.
    pub target: Option<String>,
    /// The address to listen on, as text.
    pub ip: String,
    /// The port to listen on.
    pub port: u16,
    /// The log level.
    pub log_level: String,
    /// Whether to log at debug level at least.
    pub verbose: bool,
    /// Whether to run in the background.
    pub daemon: bool,
    /// Where to write the process id when running in the background.
    pub pid_file: Option<PathBuf>,
    /// The working directory.
    pub work_dir: Option<PathBuf>,
    /// The largest number of connections.
    pub max_connections: usize,
    /// The read timeout in seconds.
    pub read_timeout: u64,
    /// The write timeout in seconds.
    pub write_timeout: u64,
    /// Whether the server refuses all modification.
    pub read_only: bool,
    /// The client addresses that are let in, separated by commas.
    pub allow_ips: Option<String>,
    /// Whether the log goes without colors.
    pub no_color: bool,
    /// Where to write a sample configuration.
    pub generate_config: Option<PathBuf>,
}

/// The log level that a name stands for; an unknown name stands for the
/// level of errors.
pub open spec fn named_level(name: Seq<char>) -> LogLevel {
    if name == "trace"@ {
        LogLevel::Trace
    } else if name == "debug"@ {
        LogLevel::Debug
    } else if name == "info"@ {
        LogLevel::Info
    } else if name == "warn"@ {
        LogLevel::Warn
    } else {
        LogLevel::Error
    }
}

/// A copy of a path that may be absent.
fn clone_path(path: &Option<PathBuf>) -> (out: Option<PathBuf>)
    ensures
        out == *path,
{
    match path {
        Some(p) => Some(p.clone()),
        None => None,
    }
}

/// A copy of a text that may be absent.
fn clone_text(text: &Option<String>) -> (out: Option<String>)
    ensures
        out == *text,
{
    match text {
        Some(t) => Some(t.clone()),
        None => None,
    }
}

/// The text of the command line where it differs from the built-in default,
/// else the text of the configuration file.
fn pick_text(given: &String, default: &str, file: String) -> (out: String)
    ensures
        out@ == if given@ != default@ {
            given@
        } else {
            file@
        },
{
    if *given == default.to_owned() {
        file
    } else {
        given.clone()
    }
}

/// The number of the command line where it differs from the built-in
/// default, else the number of the configuration file.
fn pick_number(given: u64, default: u64, file: u64) -> (out: u64)
    ensures
        out == if given != default {
            given
        } else {
            file
        },
{
    if given != default {
        given
    } else {
        file
    }
}

/// The path of the command line where one is given, else the path of the
/// configuration file.
fn pick_path(given: &Option<PathBuf>, file: Option<PathBuf>) -> (out: Option<PathBuf>)
    ensures
        out == if given is Some {
            *given
        } else {
            file
        },
{
    if given.is_some() {
        clone_path(given)
    } else {
        file
    }
}

/// The text of the command line where one is given, else the text of the
/// configuration file.
fn pick_given(given: &Option<String>, file: Option<String>) -> (out: Option<String>)
    ensures
        out == if given is Some {
            *given
        } else {
            file
        },
{
    if given.is_some() {
        clone_text(given)
    } else {
        file
    }
}

impl Cli {
    /// The settings that the command line gives.
    pub open spec fn settings(self) -> ServerConfig {
        ServerConfig {
            ip: self.ip,
            port: self.port,
            log_level: self.log_level,
            verbose: self.verbose,
            daemon: self.daemon,
            pid_file: self.pid_file,
            work_dir: self.work_dir,
            max_connections: self.max_connections,
            read_timeout: self.read_timeout,
            write_timeout: self.write_timeout,
            read_only: self.read_only,
            allow_ips: self.allow_ips,
            no_color: self.no_color,
        }
    }

    /// The effective log level: the verbose flag raises it to debug, else the
    /// named level holds.
    pub fn get_log_level(&self) -> (out: LogLevel)
        ensures
            out == if self.verbose {
                LogLevel::Debug
            } else {
                named_level(self.log_level@)
            },
    {
        if self.verbose {
            LogLevel::Debug
        } else if self.log_level == "trace".to_owned() {
            LogLevel::Trace
        } else if self.log_level == "debug".to_owned() {
            LogLevel::Debug
        } else if self.log_level == "info".to_owned() {
            LogLevel::Info
        } else if self.log_level == "warn".to_owned() {
            LogLevel::Warn
        } else {
            LogLevel::Error
        }
    }

    fn server(&self) -> (out: ServerConfig)
        ensures
            out == self.settings(),
    {
        ServerConfig {
            ip: self.ip.clone(),
            port: self.port,
            log_level: self.log_level.clone(),
            verbose: self.verbose,
            daemon: self.daemon,
            pid_file: clone_path(&self.pid_file),
            work_dir: clone_path(&self.work_dir),
            max_connections: self.max_connections,
            read_timeout: self.read_timeout,
            write_timeout: self.write_timeout,
            read_only: self.read_only,
            allow_ips: clone_text(&self.allow_ips),
            no_color: self.no_color,
        }
    }

    /// The configuration of single directory mode: the one mount that the
    /// directory and the target make, under the settings of the command line.
    /// A directory needs a target; without a directory there is nothing to
    /// configure from.
    pub fn to_config(&self, description: Option<String>) -> (out: Result<Config, CliError>)
        ensures
            match out {
                Ok(config) => {
                    &&& self.directory is Some
                    &&& self.target is Some
                    &&& config.server == self.settings()
                    &&& config.mounts@ == seq![
                        MountConfig {
                            source: self.directory->Some_0,
                            target: self.target->Some_0,
                            read_only: self.read_only,
                            description,
                        },
                    ]
                },
                Err(e) => e == if self.directory is Some {
                    CliError::TargetRequired
                } else {
                    CliError::NoDirectory
                } && !(self.directory is Some && self.target is Some),
            },
    {
        let directory = match &self.directory {
            Some(directory) => directory,
            None => {
                return Err(CliError::NoDirectory);
            },
        };
        let target = match &self.target {
            Some(target) => target,
            None => {
                return Err(CliError::TargetRequired);
            },
        };
        let mount = MountConfig {
            source: directory.clone(),
            target: target.clone(),
            read_only: self.read_only,
            description,
        };
        let mut mounts: Vec<MountConfig> = Vec::new();
        mounts.push(mount);
        assert(mounts@ =~= seq![mount]);
        Ok(Config { server: self.server(), mounts })
    }

    /// Overrides the settings of a configuration file by the command line. A
    /// value of the command line counts only where it differs from the
    /// built-in default; a flag only where it is set; an optional value only
    /// where it is given. The mounts stay as they are.
    pub fn override_config(&self, config: &mut Config)
        ensures
            final(config).mounts == old(config).mounts,
            final(config).server.ip@ == if self.ip@ != "127.0.0.1"@ {
                self.ip@
            } else {
                old(config).server.ip@
            },
            final(config).server.port == if self.port != 11451 {
                self.port
            } else {
                old(config).server.port
            },
            final(config).server.log_level@ == if self.log_level@ != "error"@ {
                self.log_level@
            } else {
                old(config).server.log_level@
            },
            final(config).server.verbose == (self.verbose || old(config).server.verbose),
            final(config).server.daemon == (self.daemon || old(config).server.daemon),
            final(config).server.pid_file == if self.pid_file is Some {
                self.pid_file
            } else {
                old(config).server.pid_file
            },
            final(config).server.work_dir == if self.work_dir is Some {
                self.work_dir
            } else {
                old(config).server.work_dir
            },
            final(config).server.max_connections == if self.max_connections != 100 {
                self.max_connections
            } else {
                old(config).server.max_connections
            },
            final(config).server.read_timeout == if self.read_timeout != 30 {
                self.read_timeout
            } else {
                old(config).server.read_timeout
            },
            final(config).server.write_timeout == if self.write_timeout != 30 {
                self.write_timeout
            } else {
                old(config).server.write_timeout
            },
            final(config).server.read_only == (self.read_only || old(config).server.read_only),
            final(config).server.allow_ips == if self.allow_ips is Some {
                self.allow_ips
            } else {
                old(config).server.allow_ips
            },
            final(config).server.no_color == (self.no_color || old(config).server.no_color),
    {
        let mut server = ServerConfig::default();
        std::mem::swap(&mut server, &mut config.server);
        let ServerConfig {
            ip,
            port,
            log_level,
            verbose,
            daemon,
            pid_file,
            work_dir,
            max_connections,
            read_timeout,
            write_timeout,
            read_only,
            allow_ips,
            no_color,
        } = server;
        config.server = ServerConfig {
            ip: pick_text(&self.ip, "127.0.0.1", ip),
            port: if self.port != 11451 {
                self.port
            } else {
                port
            },
            log_level: pick_text(&self.log_level, "error", log_level),
            verbose: self.verbose || verbose,
            daemon: self.daemon || daemon,
            pid_file: pick_path(&self.pid_file, pid_file),
            work_dir: pick_path(&self.work_dir, work_dir),
            max_connections: if self.max_connections != 100 {
                self.max_connections
            } else {
                max_connections
            },
            read_timeout: pick_number(self.read_timeout, 30, read_timeout),
            write_timeout: pick_number(self.write_timeout, 30, write_timeout),
            read_only: self.read_only || read_only,
            allow_ips: pick_given(&self.allow_ips, allow_ips),
            no_color: self.no_color || no_color,
        };
    }
}

} // verus!
