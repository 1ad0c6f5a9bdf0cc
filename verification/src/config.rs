//! The configuration of the server: its settings, its mounts, and the rules
//! that a configuration has to meet.

use std::path::PathBuf;
use vstd::prelude::*;

verus! {

/// One export: a host directory grafted into the namespace.
#[derive(Debug, Clone)]
pub struct MountConfig {
    /// The host directory to mirror.
    pub source: PathBuf,
    /// The path under which clients see it.
    pub target: String,
    /// Whether the export refuses modification, whatever the server-wide
    /// setting.
    pub read_only: bool,
    /// A description of the export.
    pub description: Option<String>,
}

/// The settings of the server.
#[derive(Debug, Clone)]
pub struct ServerConfig {
    /// The address to listen on, as text.
    pub ip: String,
    /// The port to listen on.
    pub port: u16,
    /// The log level: trace, debug, info, warn or error.
    pub log_level: String,
    /// Whether to log at debug level at least.
    pub verbose: bool,
    /// Whether to run in the background.
    pub daemon: bool,
    /// Where to write the process id when running in the background.
    pub pid_file: Option<PathBuf>,
    /// The working directory.
    pub work_dir: Option<PathBuf>,
    /// The largest number of connections.
    pub max_connections: usize,
    /// The read timeout in seconds.
    pub read_timeout: u64,
    /// The write timeout in seconds.
    pub write_timeout: u64,
    /// Whether the server refuses all modification.
    pub read_only: bool,
    /// The client addresses that are let in, separated by commas.
    pub allow_ips: Option<String>,
    /// Whether the log goes without colors.
    pub no_color: bool,
}

/// A configuration: the settings of the server and its mounts, in order.
#[derive(Debug, Clone)]
pub struct Config {
    pub server: ServerConfig,
    pub mounts: Vec<MountConfig>,
}

/// What the host shows at a mount's source.
#[derive(Clone, Copy, Debug, PartialEq, Eq, Structural)]
pub enum SourceKind {
    /// Nothing exists there.
    Missing,
    /// Something exists there that is no directory.
    NotDirectory,
    /// A directory.
    Directory,
}

/// The rule that a configuration breaks; the number is the position of the
/// mount at fault.
#[derive(Clone, Copy, Debug, PartialEq, Eq, Structural)]
pub enum ConfigError {
    /// No mount is configured.
    NoMounts,
    /// The source of the mount does not exist.
    SourceMissing(usize),
    /// The source of the mount is no directory.
    SourceNotDirectory(usize),
    /// The target of the mount is empty.
    EmptyTarget(usize),
    /// The target of the mount does not begin with a slash.
    TargetNotAbsolute(usize),
    /// The target of the mount is that of an earlier mount.
    DuplicateTarget(usize),
    /// The port is 0.
    PortZero,
}

/// The default address: the loopback address.
pub fn default_ip() -> (out: String)
    ensures
        out@ == "127.0.0.1"@,
{
    "127.0.0.1".to_owned()
}

/// The default port.
pub fn default_port() -> (out: u16)
    ensures
        out == 11451,
{
    11451
}

/// The default log level.
pub fn default_log_level() -> (out: String)
    ensures
        out@ == "error"@,
{
    "error".to_owned()
}

/// The default for the largest number of connections.
pub fn default_max_connections() -> (out: usize)
    ensures
        out == 100,
{
    100
}

/// The default read timeout in seconds.
pub fn default_read_timeout() -> (out: u64)
    ensures
        out == 30,
{
    30
}

/// The default write timeout in seconds.
pub fn default_write_timeout() -> (out: u64)
    ensures
        out == 30,
{
    30
}

/// Whether the settings are the built-in defaults.
pub open spec fn is_default_server(s: ServerConfig) -> bool {
    &&& s.ip@ == "127.0.0.1"@
    &&& s.port == 11451
    &&& s.log_level@ == "error"@
    &&& !s.verbose
    &&& !s.daemon
    &&& s.pid_file is None
    &&& s.work_dir is None
    &&& s.max_connections == 100
    &&& s.read_timeout == 30
    &&& s.write_timeout == 30
    &&& !s.read_only
    &&& s.allow_ips is None
    &&& !s.no_color
}

impl Default for ServerConfig {
    fn default() -> (out: Self)
        ensures
            is_default_server(out),
    {
        ServerConfig {
            ip: default_ip(),
            port: default_port(),
            log_level: default_log_level(),
            verbose: false,
            daemon: false,
            pid_file: None,
            work_dir: None,
            max_connections: default_max_connections(),
            read_timeout: default_read_timeout(),
            write_timeout: default_write_timeout(),
            read_only: false,
            allow_ips: None,
            no_color: false,
        }
    }
}

/// The bytes of a mount's target.
pub open spec fn target_bytes(m: MountConfig) -> Seq<u8> {
    vstd::utf8::encode_utf8(m.target@)
}

/// The rule that the mount at position `i` breaks by itself, if any: its
/// source must be a directory that exists, its target must not be empty and
/// must begin with a slash. The rules are tested in this order.
pub open spec fn mount_fault(
    mounts: Seq<MountConfig>,
    sources: Seq<SourceKind>,
    i: int,
) -> Option<ConfigError> {
    if sources[i] == SourceKind::Missing {
        Some(ConfigError::SourceMissing(i as usize))
    } else if sources[i] == SourceKind::NotDirectory {
        Some(ConfigError::SourceNotDirectory(i as usize))
    } else if mounts[i].target@.len() == 0 {
        Some(ConfigError::EmptyTarget(i as usize))
    } else if target_bytes(mounts[i]).len() == 0 || target_bytes(mounts[i])[0] != 47u8 {
        Some(ConfigError::TargetNotAbsolute(i as usize))
    } else {
        None
    }
}

/// The first rule that one of the first `n` mounts breaks by itself.
pub open spec fn first_fault(
    mounts: Seq<MountConfig>,
    sources: Seq<SourceKind>,
    n: nat,
) -> Option<ConfigError>
    decreases n,
{
    if n == 0 {
        None
    } else {
        match first_fault(mounts, sources, (n - 1) as nat) {
            Some(e) => Some(e),
            None => mount_fault(mounts, sources, n - 1),
        }
    }
}

/// Whether the target of the mount at position `i` is that of an earlier
/// mount.
pub open spec fn repeats(mounts: Seq<MountConfig>, i: int) -> bool {
    exists|j: int| 0 <= j < i && (#[trigger] mounts[j]).target@ == mounts[i].target@
}

/// The first of the first `n` mounts whose target repeats an earlier one.
pub open spec fn first_repeat(mounts: Seq<MountConfig>, n: nat) -> Option<ConfigError>
    decreases n,
{
    if n == 0 {
        None
    } else {
        match first_repeat(mounts, (n - 1) as nat) {
            Some(e) => Some(e),
            None => if repeats(mounts, n - 1) {
                Some(ConfigError::DuplicateTarget((n - 1) as usize))
            } else {
                None
            },
        }
    }
}

/// Whether a configuration is valid, given what the host shows at each
/// mount's source: there is a mount, no mount breaks a rule by itself, no
/// target occurs twice, and the port is not 0. The first rule broken, in this
/// order, is reported.
pub open spec fn validation(config: Config, sources: Seq<SourceKind>) -> Result<(), ConfigError> {
    let mounts = config.mounts@;
    if mounts.len() == 0 {
        Err(ConfigError::NoMounts)
    } else {
        match first_fault(mounts, sources, mounts.len()) {
            Some(e) => Err(e),
            None => match first_repeat(mounts, mounts.len()) {
                Some(e) => Err(e),
                None => if config.server.port == 0 {
                    Err(ConfigError::PortZero)
                } else {
                    Ok(())
                },
            },
        }
    }
}

/// A configuration without faults has mounts with distinct targets, each
/// not empty and beginning with a slash, over sources that are directories.
pub proof fn lemma_valid_config(config: Config, sources: Seq<SourceKind>)
    requires
        validation(config, sources) is Ok,
    ensures
        config.mounts@.len() > 0,
        config.server.port != 0,
        forall|i: int|
            0 <= i < config.mounts@.len() ==> mount_fault(config.mounts@, sources, i) is None,
        forall|i: int, j: int|
            0 <= j < i < config.mounts@.len() ==> (#[trigger] config.mounts@[j]).target@
                != (#[trigger] config.mounts@[i]).target@,
{
    let mounts = config.mounts@;
    assert forall|i: int| 0 <= i < mounts.len() implies mount_fault(mounts, sources, i) is None by {
        lemma_no_fault_before(mounts, sources, mounts.len(), i);
    }
    assert forall|i: int, j: int| 0 <= j < i < mounts.len() implies (#[trigger] mounts[j]).target@
        != (#[trigger] mounts[i]).target@ by {
        lemma_no_repeat_before(mounts, mounts.len(), i);
    }
}

proof fn lemma_no_fault_before(
    mounts: Seq<MountConfig>,
    sources: Seq<SourceKind>,
    n: nat,
    i: int,
)
    requires
        first_fault(mounts, sources, n) is None,
        0 <= i < n,
    ensures
        mount_fault(mounts, sources, i) is None,
    decreases n,
{
    if i < n - 1 {
        lemma_no_fault_before(mounts, sources, (n - 1) as nat, i);
    }
}

proof fn lemma_no_repeat_before(mounts: Seq<MountConfig>, n: nat, i: int)
    requires
        first_repeat(mounts, n) is None,
        0 <= i < n,
    ensures
        !repeats(mounts, i),
    decreases n,
{
    if i < n - 1 {
        lemma_no_repeat_before(mounts, (n - 1) as nat, i);
    }
}

impl Config {
    /// The configuration with the default settings and no mount.
    pub fn default() -> (out: Config)
        ensures
            is_default_server(out.server),
            out.mounts@.len() == 0,
    {
        Config { server: ServerConfig::default(), mounts: Vec::new() }
    }

    /// Validates the configuration against what the host shows at each
    /// mount's source, and reports the first rule that is broken.
    pub fn validate(&self, sources: &Vec<SourceKind>) -> (out: Result<(), ConfigError>)
        requires
            sources.len() == self.mounts.len(),
        ensures
            out == validation(*self, sources@),
    {
        let n = self.mounts.len();
        if n == 0 {
            return Err(ConfigError::NoMounts);
        }
        let mut i: usize = 0;
        while i < n
            invariant
                i <= n,
                n == self.mounts.len(),
                n == sources.len(),
                first_fault(self.mounts@, sources@, i as nat) is None,
            decreases n - i,
        {
            let mount = &self.mounts[i];
            match sources[i] {
                SourceKind::Missing => {
                    proof {
                        lemma_fault_found(self.mounts@, sources@, n as nat, i as int);
                    }
                    return Err(ConfigError::SourceMissing(i));
                },
                SourceKind::NotDirectory => {
                    proof {
                        lemma_fault_found(self.mounts@, sources@, n as nat, i as int);
                    }
                    return Err(ConfigError::SourceNotDirectory(i));
                },
                SourceKind::Directory => {},
            }
            let target = mount.target.as_str();
            if target.is_empty() {
                proof {
                    lemma_fault_found(self.mounts@, sources@, n as nat, i as int);
                }
                return Err(ConfigError::EmptyTarget(i));
            }
            let bytes = target.as_bytes();
            if bytes.len() == 0 || bytes[0] != 47u8 {
                proof {
                    lemma_fault_found(self.mounts@, sources@, n as nat, i as int);
                }
                return Err(ConfigError::TargetNotAbsolute(i));
            }
            i = i + 1;
        }
        let mut i: usize = 0;
        while i < n
            invariant
                i <= n,
                n == self.mounts.len(),
                first_fault(self.mounts@, sources@, n as nat) is None,
                first_repeat(self.mounts@, i as nat) is None,
            decreases n - i,
        {
            let mut j: usize = 0;
            while j < i
                invariant
                    j <= i < n,
                    n == self.mounts.len(),
                    first_fault(self.mounts@, sources@, n as nat) is None,
                    first_repeat(self.mounts@, i as nat) is None,
                    forall|k: int|
                        0 <= k < j ==> (#[trigger] self.mounts@[k]).target@
                            != self.mounts@[i as int].target@,
                decreases i - j,
            {
                if self.mounts[j].target == self.mounts[i].target {
                    proof {
                        assert(repeats(self.mounts@, i as int));
                        lemma_repeat_found(self.mounts@, n as nat, i as int);
                    }
                    return Err(ConfigError::DuplicateTarget(i));
                }
                j = j + 1;
            }
            i = i + 1;
        }
        if self.server.port == 0 {
            return Err(ConfigError::PortZero);
        }
        Ok(())
    }

    /// The first mount with the target `target`.
    pub fn get_mount_by_target(&self, target: &str) -> (out: Option<&MountConfig>)
        ensures
            match out {
                Some(mount) => exists|i: int|
                    0 <= i < self.mounts@.len() && *mount == self.mounts@[i]
                        && self.mounts@[i].target@ == target@ && forall|j: int|
                        0 <= j < i ==> (#[trigger] self.mounts@[j]).target@ != target@,
                None => forall|j: int|
                    0 <= j < self.mounts@.len() ==> (#[trigger] self.mounts@[j]).target@
                        != target@,
            },
    {
        let wanted = target.to_owned();
        let mut i: usize = 0;
        while i < self.mounts.len()
            invariant
                i <= self.mounts.len(),
                wanted@ == target@,
                forall|j: int| 0 <= j < i ==> (#[trigger] self.mounts@[j]).target@ != target@,
            decreases self.mounts.len() - i,
        {
            if self.mounts[i].target == wanted {
                return Some(&self.mounts[i]);
            }
            i = i + 1;
        }
        None
    }

    /// The targets of all mounts, in order.
    pub fn get_mount_targets(&self) -> (out: Vec<&str>)
        ensures
            out@.len() == self.mounts@.len(),
            forall|i: int| 0 <= i < out@.len() ==> out@[i]@ == self.mounts@[i].target@,
    {
        let mut out: Vec<&str> = Vec::new();
        let mut i: usize = 0;
        while i < self.mounts.len()
            invariant
                i <= self.mounts.len(),
                out@.len() == i,
                forall|k: int| 0 <= k < i ==> out@[k]@ == self.mounts@[k].target@,
            decreases self.mounts.len() - i,
        {
            out.push(self.mounts[i].target.as_str());
            i = i + 1;
        }
        out
    }
}

proof fn lemma_fault_found(mounts: Seq<MountConfig>, sources: Seq<SourceKind>, n: nat, i: int)
    requires
        0 <= i < n,
        first_fault(mounts, sources, i as nat) is None,
        mount_fault(mounts, sources, i) is Some,
    ensures
        first_fault(mounts, sources, n) == mount_fault(mounts, sources, i),
    decreases n,
{
    if i < n - 1 {
        lemma_fault_found(mounts, sources, (n - 1) as nat, i);
    }
}

proof fn lemma_repeat_found(mounts: Seq<MountConfig>, n: nat, i: int)
    requires
        0 <= i < n,
        first_repeat(mounts, i as nat) is None,
        repeats(mounts, i),
    ensures
        first_repeat(mounts, n) == Some(ConfigError::DuplicateTarget(i as usize)),
    decreases n,
{
    if i < n - 1 {
        lemma_repeat_found(mounts, (n - 1) as nat, i);
    }
}

} // verus!
