//! Configuration and its resolution.
//!
//! Settings come from an optional file; any field may be overridden on the
//! command line. [`FileConfig`] mirrors the layout of the file (everything
//! optional); [`Config`] is the fully resolved, validated result used by the
//! rest of the program.

use vstd::prelude::*;
use vstd::string::*;

use crate::article;
use crate::paths;
use crate::rate;
use crate::text;

pub use crate::rate::{parse_upload_rate, RateError};

verus! {

/// Default NNTP-over-TLS port.
pub const DEFAULT_PORT: u16 = 563;

/// Default number of parallel connections.
pub const DEFAULT_CONNECTIONS: usize = 4;

/// Default target size of each article body, in bytes.
pub const DEFAULT_ARTICLE_SIZE: usize = 768_000;

/// Default yEnc line length, in encoded characters.
pub const DEFAULT_LINE_LENGTH: usize = 128;

/// Default number of post attempts per segment before giving up.
pub const DEFAULT_RETRIES: u32 = 3;

/// Default pause between failed post attempts, in seconds.
pub const DEFAULT_RETRY_DELAY: u64 = 1;

/// Default percentage of PAR2 recovery data to generate.
pub const DEFAULT_PAR2: u8 = 10;

/// Default wait before the articles are checked, in seconds.
pub const DEFAULT_CHECK_DELAY: u64 = 30;

/// Default number of attempts to find each article in the check.
pub const DEFAULT_CHECK_RETRIES: u32 = 2;

/// A fully resolved per-server entry used for failover.
///
/// The primary server's fields live directly on [`Config`]. Additional
/// failover servers are stored in [`Config::extra_servers`].
#[derive(Debug, Clone)]
pub struct ServerEntry {
    pub host: String,
    pub port: u16,
    pub ssl: bool,
    pub connections: usize,
    pub username: Option<String>,
    pub password: Option<String>,
    pub retry_delay: u64,
}

/// How much of a post to obfuscate.
#[derive(Debug, Clone, Copy, PartialEq, Eq, Structural)]
pub enum ObfuscateMode {
    /// No obfuscation: the real file name appears in the subject and the
    /// yEnc header.
    Off,
    /// Random subject; the yEnc `name=` field keeps the real file name, so a
    /// standard client still names the download correctly.
    Subject,
    /// Random subject *and* random yEnc `name=` field. Nothing on the wire
    /// reveals the real name: recover it from the `.nzb` or from PAR2 files.
    Full,
}

impl Default for ObfuscateMode {
    fn default() -> (mode: ObfuscateMode)
        ensures
            mode == ObfuscateMode::Off,
    {
        ObfuscateMode::Off
    }
}

/// A server of the `[[servers]]` list of the file. It holds its credentials
/// itself.
#[derive(Debug)]
pub struct FileServerEntry {
    pub host: Option<String>,
    pub port: Option<u16>,
    pub ssl: Option<bool>,
    pub connections: Option<usize>,
    pub username: Option<String>,
    pub password: Option<String>,
    pub retry_delay: Option<u64>,
}

/// The `[server]` section.
#[derive(Debug)]
pub struct ServerSection {
    pub host: Option<String>,
    pub port: Option<u16>,
    pub ssl: Option<bool>,
    pub connections: Option<usize>,
    /// Seconds to wait between failed post attempts.
    pub retry_delay: Option<u64>,
}

/// The `[auth]` section.
#[derive(Debug)]
pub struct AuthSection {
    pub username: Option<String>,
    pub password: Option<String>,
}

/// The `[posting]` section.
#[derive(Debug)]
pub struct PostingSection {
    pub from: Option<String>,
    pub groups: Option<Vec<String>>,
    pub article_size: Option<usize>,
    /// yEnc line length, in encoded characters.
    pub line_length: Option<usize>,
    /// Post attempts per segment before it is recorded as failed.
    pub retries: Option<u32>,
    pub obfuscate: Option<ObfuscateMode>,
    pub par2: Option<u8>,
    /// Confirm each posted article via STAT after posting.
    pub verify: Option<bool>,
    /// Maximum upload rate as a human-readable string, e.g. `"50 MiB/s"`.
    pub upload_rate: Option<String>,
    /// `Date:` header mode: `"now"`, `"random"`, or an RFC 2822 timestamp.
    pub date: Option<String>,
    /// Add `X-No-Archive: yes` to every posted article.
    pub no_archive: Option<bool>,
    /// Fixed domain for `Message-ID` generation. When absent a random domain
    /// is generated per article.
    pub message_id_domain: Option<String>,
    /// Run a deferred STAT check on every posted article after upload finishes.
    pub check: Option<bool>,
    /// Seconds to wait before running the post-check STAT pass.
    pub check_delay: Option<u64>,
    /// Number of STAT attempts per article during post-check.
    pub check_retries: Option<u32>,
}

/// The `[output]` section.
#[derive(Debug)]
pub struct OutputSection {
    /// Append a record to the history catalog after each upload.
    pub history: Option<bool>,
    /// Directory of the history catalog.
    pub history_dir: Option<String>,
    /// Default path for the generated `.nzb`. Overridden by `--out`.
    pub nzb: Option<String>,
    /// Directory where `.nzb` files are written by default. The filename is
    /// derived from the upload name. Overridden by `--out` or `output.nzb`.
    pub nzb_dir: Option<String>,
    /// Friendly name emitted as `<meta type="name">` in the `.nzb`.
    pub nzb_name: Option<String>,
    /// Extraction password emitted as `<meta type="password">` in the `.nzb`.
    /// Defaults to the archive password when `--password` is set.
    pub nzb_password: Option<String>,
    /// Category emitted as `<meta type="category">` in the `.nzb`.
    pub nzb_category: Option<String>,
    /// Newznab indexer upload configuration.
    pub indexer: IndexerSection,
    /// Shell command to execute after a successful upload.
    pub post_hook: Option<String>,
    /// Generate a `.nfo` file alongside the `.nzb` after posting.
    pub nfo: Option<bool>,
    /// Resume interrupted uploads from a saved state file.
    pub resume: Option<bool>,
    /// Show only a single spinner line instead of the full panel.
    pub quiet: Option<bool>,
    /// Ring the terminal bell on completion.
    pub bell: Option<bool>,
}

/// Newznab API configuration for automatic NZB upload after posting.
#[derive(Debug)]
pub struct IndexerSection {
    /// Base URL of the indexer (e.g. `https://my.indexer.example`).
    pub url: Option<String>,
    /// Newznab API key.
    pub api_key: Option<String>,
    /// Category ID or name to assign the upload.
    pub category: Option<String>,
}

/// The `[compression]` section.
#[derive(Debug)]
pub struct CompressionSection {
    /// Archive format: `"7z"` (default), `"zip"`, or `"rar"`.
    pub format: Option<String>,
}

/// `[notify]` config section for completion notifications.
#[derive(Debug)]
pub struct NotifySection {
    /// HTTP webhook URL (Discord, Slack, Telegram, or generic).
    pub webhook_url: Option<String>,
    /// ntfy.sh topic name or full topic URL.
    pub ntfy_topic: Option<String>,
}

/// Configuration as parsed from the file. Every field is optional so the file
/// may be partial and the remainder supplied on the command line.
#[derive(Debug)]
pub struct FileConfig {
    pub server: ServerSection,
    pub auth: AuthSection,
    /// Optional array of failover servers (`[[servers]]`). When non-empty,
    /// the first entry becomes the primary server; `[server]` / `[auth]` are
    /// ignored.
    pub extra_servers: Vec<FileServerEntry>,
    pub posting: PostingSection,
    pub output: OutputSection,
    pub compression: CompressionSection,
    pub notify: NotifySection,
}

/// Overrides from the command line. A `Some` value wins over the file; `None`
/// defers to the file (or the built-in default).
#[derive(Debug)]
pub struct Overrides {
    pub host: Option<String>,
    pub port: Option<u16>,
    pub ssl: Option<bool>,
    pub connections: Option<usize>,
    pub username: Option<String>,
    pub password: Option<String>,
    pub from: Option<String>,
    pub groups: Option<Vec<String>>,
    pub article_size: Option<usize>,
    pub line_length: Option<usize>,
    pub retries: Option<u32>,
    pub retry_delay: Option<u64>,
    pub obfuscate: Option<ObfuscateMode>,
    pub dry_run: Option<bool>,
    pub par2: Option<u8>,
    pub par2_only: Option<bool>,
    /// `false` disables resume (equivalent to `--no-resume`).
    pub resume: Option<bool>,
    /// `false` disables post-verification via `STAT` (equivalent to `--no-verify`).
    pub verify: Option<bool>,
    /// Maximum upload rate in bytes/sec; `0` means unlimited.
    pub upload_rate: Option<u64>,
    /// Archive format to use when compressing (`"7z"`, `"zip"`, `"rar"`).
    /// `None` means no compression unless `compress_password` is set.
    pub compress_format: Option<String>,
    /// Password for the archive, already resolved (random generation done by caller).
    pub compress_password: Option<String>,
    /// Friendly name for the `.nzb` `<meta type="name">` element.
    pub nzb_name: Option<String>,
    /// Explicit `.nzb` password meta. Falls back to `compress_password`.
    pub nzb_password: Option<String>,
    /// `.nzb` category meta.
    pub nzb_category: Option<String>,
    /// Directory where `.nzb` files are saved by default.
    pub nzb_dir: Option<String>,
    /// When true, skip the indexer NZB upload for this run.
    pub no_upload: bool,
    /// Override history writing: `Some(false)` = `--no-history`.
    pub history: Option<bool>,
    /// `--no-notify`: suppress notifications for this run.
    pub notify: Option<bool>,
    /// `Date:` header mode: `"now"`, `"random"`, or a fixed RFC 2822 string.
    pub date: Option<String>,
    /// Add `X-No-Archive: yes` to every posted article.
    pub no_archive: Option<bool>,
    /// Fixed domain for `Message-ID`. `None` = random per article.
    pub message_id_domain: Option<String>,
    /// Shell command to run after a successful upload.
    pub post_hook: Option<String>,
    /// When true, run no command after the upload.
    pub no_hooks: bool,
    /// Generate a `.nfo` file next to the `.nzb` after posting.
    pub nfo: Option<bool>,
    /// Check every article once the upload is done.
    pub check: Option<bool>,
    /// Seconds to wait before the check.
    pub check_delay_secs: Option<u64>,
    /// Attempts per article during the check.
    pub check_retries: Option<u32>,
}

/// Fully resolved, validated configuration.
#[derive(Debug, Clone)]
pub struct Config {
    /// Primary server (index 0 of the server pool).
    pub host: String,
    pub port: u16,
    pub ssl: bool,
    pub connections: usize,
    pub username: Option<String>,
    pub password: Option<String>,
    /// Seconds to wait between failed post attempts (primary server).
    pub retry_delay: u64,
    /// Failover servers. Workers rotate into these when the primary fails.
    /// The primary's fields above are always tried first.
    pub extra_servers: Vec<ServerEntry>,
    pub from: String,
    pub groups: Vec<String>,
    pub article_size: usize,
    /// yEnc line length, in encoded characters.
    pub line_length: usize,
    /// Post attempts per segment before it is recorded as failed.
    pub retries: u32,
    /// How much of each post to obfuscate.
    pub obfuscate: ObfuscateMode,
    /// `Date:` header mode: `"now"`, `"random"`, or an RFC 2822 timestamp.
    /// `None` means omit the header (server fills it in).
    pub date: Option<String>,
    /// Add `X-No-Archive: yes` to every posted article.
    pub no_archive: bool,
    /// Fixed domain for `Message-ID`. `None` = random per article.
    pub message_id_domain: Option<String>,
    /// If true, skip the network and just simulate posting.
    pub dry_run: bool,
    /// Percentage of PAR2 recovery data to generate (0 to disable).
    pub par2: u8,
    /// Only generate PAR2 files without uploading them.
    pub par2_only: bool,
    /// Confirm each posted article with `STAT` and repost on failure.
    pub verify: bool,
    /// Load and save a resume state file to skip already-posted segments.
    pub resume: bool,
    /// Maximum upload rate in bytes/sec across all connections; 0 = unlimited.
    pub upload_rate: u64,
    /// Archive format to use before posting. `None` = no compression.
    pub compress_format: Option<String>,
    /// Password for the archive. `None` = no password.
    /// Set by `--password`; stored in the `.nzb` `<meta type="password">`.
    pub compress_password: Option<String>,
    /// Friendly name for `<meta type="name">` in the `.nzb`.
    pub nzb_name: Option<String>,
    /// Explicit password for `<meta type="password">` in the `.nzb`.
    /// Falls back to `compress_password` when absent.
    pub nzb_password: Option<String>,
    /// Category for `<meta type="category">` in the `.nzb`.
    pub nzb_category: Option<String>,
    /// Newznab indexer to upload the `.nzb` to after posting.
    pub indexer_url: Option<String>,
    pub indexer_api_key: Option<String>,
    pub indexer_category: Option<String>,
    /// Default directory for `.nzb` output. The filename is derived from the
    /// upload name. Overridden by `--out` or `output.nzb`.
    pub nzb_dir: Option<String>,
    /// Skip the indexer upload for this run.
    pub no_upload: bool,
    /// Append a record to the shared history catalog after each upload.
    pub history: bool,
    /// Directory of the history catalog, where one is set.
    pub history_dir: Option<String>,
    /// Webhook URL for completion notifications.
    pub notify_webhook: Option<String>,
    /// ntfy.sh topic name or URL for completion notifications.
    pub notify_ntfy: Option<String>,
    /// When `Some(false)`, skip notifications for this run (`--no-notify`).
    /// When `Some(true)`, force notifications even if no URL is configured
    /// in the file config (rarely useful; `--notify` does nothing without a URL).
    pub notify: Option<bool>,
    /// Shell command to run after a successful upload.
    pub post_hook: Option<String>,
    /// Run no command after the upload.
    pub no_hooks: bool,
    /// Generate a `.nfo` file next to the `.nzb` after posting.
    pub nfo: bool,
    /// Show only a single spinner line (quiet mode).
    pub quiet: bool,
    /// Ring the terminal bell on completion.
    pub bell: bool,
    /// Check every article once the upload is done.
    pub check: bool,
    /// Seconds to wait before the check.
    pub check_delay_secs: u64,
    /// Attempts per article during the check.
    pub check_retries: u32,
}

impl Default for FileServerEntry {
    fn default() -> (e: FileServerEntry)
        ensures
            e == (FileServerEntry {
                host: None,
                port: None,
                ssl: None,
                connections: None,
                username: None,
                password: None,
                retry_delay: None,
            }),
    {
        FileServerEntry {
            host: None,
            port: None,
            ssl: None,
            connections: None,
            username: None,
            password: None,
            retry_delay: None,
        }
    }
}

impl Default for ServerSection {
    fn default() -> (s: ServerSection)
        ensures
            s == (ServerSection {
                host: None,
                port: None,
                ssl: None,
                connections: None,
                retry_delay: None,
            }),
    {
        ServerSection { host: None, port: None, ssl: None, connections: None, retry_delay: None }
    }
}

impl Default for AuthSection {
    fn default() -> (s: AuthSection)
        ensures
            s == (AuthSection { username: None, password: None }),
    {
        AuthSection { username: None, password: None }
    }
}

impl Default for PostingSection {
    fn default() -> (s: PostingSection)
        ensures
            s == (PostingSection {
                from: None,
                groups: None,
                article_size: None,
                line_length: None,
                retries: None,
                obfuscate: None,
                par2: None,
                verify: None,
                upload_rate: None,
                date: None,
                no_archive: None,
                message_id_domain: None,
                check: None,
                check_delay: None,
                check_retries: None,
            }),
    {
        PostingSection {
            from: None,
            groups: None,
            article_size: None,
            line_length: None,
            retries: None,
            obfuscate: None,
            par2: None,
            verify: None,
            upload_rate: None,
            date: None,
            no_archive: None,
            message_id_domain: None,
            check: None,
            check_delay: None,
            check_retries: None,
        }
    }
}

impl Default for IndexerSection {
    fn default() -> (s: IndexerSection)
        ensures
            s == (IndexerSection { url: None, api_key: None, category: None }),
    {
        IndexerSection { url: None, api_key: None, category: None }
    }
}

impl Default for OutputSection {
    fn default() -> (s: OutputSection)
        ensures
            s == (OutputSection {
                history: None,
                history_dir: None,
                nzb: None,
                nzb_dir: None,
                nzb_name: None,
                nzb_password: None,
                nzb_category: None,
                indexer: IndexerSection { url: None, api_key: None, category: None },
                post_hook: None,
                nfo: None,
                resume: None,
                quiet: None,
                bell: None,
            }),
    {
        OutputSection {
            history: None,
            history_dir: None,
            nzb: None,
            nzb_dir: None,
            nzb_name: None,
            nzb_password: None,
            nzb_category: None,
            indexer: IndexerSection::default(),
            post_hook: None,
            nfo: None,
            resume: None,
            quiet: None,
            bell: None,
        }
    }
}

impl Default for CompressionSection {
    fn default() -> (s: CompressionSection)
        ensures
            s == (CompressionSection { format: None }),
    {
        CompressionSection { format: None }
    }
}

impl Default for NotifySection {
    fn default() -> (s: NotifySection)
        ensures
            s == (NotifySection { webhook_url: None, ntfy_topic: None }),
    {
        NotifySection { webhook_url: None, ntfy_topic: None }
    }
}

impl Default for FileConfig {
    fn default() -> (f: FileConfig)
        ensures
            f.extra_servers@.len() == 0,
            f.server == (ServerSection {
                host: None,
                port: None,
                ssl: None,
                connections: None,
                retry_delay: None,
            }),
            f.auth == (AuthSection { username: None, password: None }),
            f.posting == (PostingSection {
                from: None,
                groups: None,
                article_size: None,
                line_length: None,
                retries: None,
                obfuscate: None,
                par2: None,
                verify: None,
                upload_rate: None,
                date: None,
                no_archive: None,
                message_id_domain: None,
                check: None,
                check_delay: None,
                check_retries: None,
            }),
            f.output == (OutputSection {
                history: None,
                history_dir: None,
                nzb: None,
                nzb_dir: None,
                nzb_name: None,
                nzb_password: None,
                nzb_category: None,
                indexer: IndexerSection { url: None, api_key: None, category: None },
                post_hook: None,
                nfo: None,
                resume: None,
                quiet: None,
                bell: None,
            }),
            f.compression == (CompressionSection { format: None }),
            f.notify == (NotifySection { webhook_url: None, ntfy_topic: None }),
    {
        FileConfig {
            server: ServerSection::default(),
            auth: AuthSection::default(),
            extra_servers: Vec::new(),
            posting: PostingSection::default(),
            output: OutputSection::default(),
            compression: CompressionSection::default(),
            notify: NotifySection::default(),
        }
    }
}

impl Default for Overrides {
    fn default() -> (o: Overrides)
        ensures
            o == (Overrides {
                host: None,
                port: None,
                ssl: None,
                connections: None,
                username: None,
                password: None,
                from: None,
                groups: None,
                article_size: None,
                line_length: None,
                retries: None,
                retry_delay: None,
                obfuscate: None,
                dry_run: None,
                par2: None,
                par2_only: None,
                resume: None,
                verify: None,
                upload_rate: None,
                compress_format: None,
                compress_password: None,
                nzb_name: None,
                nzb_password: None,
                nzb_category: None,
                nzb_dir: None,
                no_upload: false,
                history: None,
                notify: None,
                date: None,
                no_archive: None,
                message_id_domain: None,
                post_hook: None,
                no_hooks: false,
                nfo: None,
                check: None,
                check_delay_secs: None,
                check_retries: None,
            }),
    {
        Overrides {
            host: None,
            port: None,
            ssl: None,
            connections: None,
            username: None,
            password: None,
            from: None,
            groups: None,
            article_size: None,
            line_length: None,
            retries: None,
            retry_delay: None,
            obfuscate: None,
            dry_run: None,
            par2: None,
            par2_only: None,
            resume: None,
            verify: None,
            upload_rate: None,
            compress_format: None,
            compress_password: None,
            nzb_name: None,
            nzb_password: None,
            nzb_category: None,
            nzb_dir: None,
            no_upload: false,
            history: None,
            notify: None,
            date: None,
            no_archive: None,
            message_id_domain: None,
            post_hook: None,
            no_hooks: false,
            nfo: None,
            check: None,
            check_delay_secs: None,
            check_retries: None,
        }
    }
}

/// Why a configuration could not be resolved.
#[derive(Debug)]
pub enum ConfigError {
    /// The first entry of the server list has no host.
    FirstServerHost,
    /// A later entry of the server list has no host.
    ServerHost,
    /// No host is set.
    Host,
    /// No groups are set.
    Groups,
    /// The upload rate of the file cannot be read.
    Rate(RateError),
}

impl ConfigError {
    /// What went wrong, in words.
    pub fn message(&self) -> (message: String)
        ensures
            match *self {
                ConfigError::FirstServerHost => message@
                    == "first [[servers]] entry has no `host`"@,
                ConfigError::ServerHost => message@ == "[[servers]] entry missing `host`"@,
                ConfigError::Host => message@
                    == "no `host` set: provide [server].host or --host"@,
                ConfigError::Groups => message@
                    == "no `groups` set: provide [posting].groups or --groups"@,
                ConfigError::Rate(e) => message@ == e.shown(),
            },
    {
        match self {
            ConfigError::FirstServerHost => String::from_str(
                "first [[servers]] entry has no `host`",
            ),
            ConfigError::ServerHost => String::from_str("[[servers]] entry missing `host`"),
            ConfigError::Host => String::from_str(
                "no `host` set: provide [server].host or --host",
            ),
            ConfigError::Groups => String::from_str(
                "no `groups` set: provide [posting].groups or --groups",
            ),
            ConfigError::Rate(e) => e.message(),
        }
    }
}

/// The first value that is set.
pub open spec fn first_set<A>(a: Option<A>, b: Option<A>) -> Option<A> {
    if a is Some {
        a
    } else {
        b
    }
}

/// The first value that is set, or a default.
pub open spec fn set_or<A>(a: Option<A>, b: Option<A>, default: A) -> A {
    if a is Some {
        a->0
    } else if b is Some {
        b->0
    } else {
        default
    }
}

fn pick<A>(a: Option<A>, b: Option<A>) -> (r: Option<A>)
    ensures
        r == first_set(a, b),
{
    match a {
        Some(v) => Some(v),
        None => b,
    }
}

fn pick_or<A>(a: Option<A>, b: Option<A>, default: A) -> (r: A)
    ensures
        r == set_or(a, b, default),
{
    match a {
        Some(v) => v,
        None => match b {
            Some(w) => w,
            None => default,
        },
    }
}

/// The values of the primary server, as the file gives them: those of the
/// first entry of the server list, or else those of `[server]` and `[auth]`.
pub open spec fn primary_of(file: FileConfig) -> FileServerEntry {
    if file.extra_servers@.len() > 0 {
        file.extra_servers@[0]
    } else {
        FileServerEntry {
            host: file.server.host,
            port: file.server.port,
            ssl: file.server.ssl,
            connections: file.server.connections,
            username: file.auth.username,
            password: file.auth.password,
            retry_delay: file.server.retry_delay,
        }
    }
}

/// A run that touches no server.
pub open spec fn is_offline(cli: Overrides) -> bool {
    set_or(cli.dry_run, None, false) || set_or(cli.par2_only, None, false)
}

/// An entry of the server list has no host.
pub open spec fn lacks_host(e: FileServerEntry) -> bool {
    e.host is None
}

/// Which of the errors a configuration brings, apart from one in its rate.
pub open spec fn setting_error(file: FileConfig, cli: Overrides) -> Option<ConfigError> {
    let hosted = first_set(cli.host, primary_of(file).host) is Some;
    let groups = first_set(cli.groups, file.posting.groups);
    if file.extra_servers@.len() > 0 && !hosted {
        Some(ConfigError::FirstServerHost)
    } else if exists|i: int|
        1 <= i < file.extra_servers@.len() && lacks_host(#[trigger] file.extra_servers@[i]) {
        Some(ConfigError::ServerHost)
    } else if !hosted && !is_offline(cli) {
        Some(ConfigError::Host)
    } else if !set_or(cli.par2_only, None, false) && (groups is None || groups->0@.len() == 0) {
        Some(ConfigError::Groups)
    } else {
        None
    }
}

/// `entry` is a failover server with the defaults filled in.
pub open spec fn is_entry(e: FileServerEntry, entry: ServerEntry) -> bool {
    &&& e.host == Some(entry.host)
    &&& entry.port == set_or(e.port, None, DEFAULT_PORT)
    &&& entry.ssl == set_or(e.ssl, None, true)
    &&& entry.connections == set_or(e.connections, None, DEFAULT_CONNECTIONS)
    &&& entry.username == e.username
    &&& entry.password == e.password
    &&& entry.retry_delay == set_or(e.retry_delay, None, DEFAULT_RETRY_DELAY)
}

/// The server settings of `cfg` follow from the file and the overrides.
pub open spec fn servers_resolved(file: FileConfig, cli: Overrides, cfg: Config) -> bool {
    let primary = primary_of(file);
    &&& match first_set(cli.host, primary.host) {
        Some(host) => cfg.host == host,
        None => cfg.host@ == "localhost"@,
    }
    &&& cfg.port == set_or(cli.port, primary.port, DEFAULT_PORT)
    &&& cfg.ssl == set_or(cli.ssl, primary.ssl, true)
    &&& cfg.connections == set_or(cli.connections, primary.connections, DEFAULT_CONNECTIONS)
    &&& cfg.username == first_set(cli.username, primary.username)
    &&& cfg.password == first_set(cli.password, primary.password)
    &&& cfg.retry_delay == set_or(cli.retry_delay, primary.retry_delay, DEFAULT_RETRY_DELAY)
    &&& cfg.extra_servers@.len() == if file.extra_servers@.len() > 0 {
        file.extra_servers@.len() - 1
    } else {
        0
    }
    &&& forall|i: int|
        0 <= i < cfg.extra_servers@.len() ==> is_entry(
            file.extra_servers@[i + 1],
            #[trigger] cfg.extra_servers@[i],
        )
}

/// The posting settings of `cfg` follow from the file and the overrides; an
/// identity that neither pins is `identity`.
pub open spec fn posting_resolved(
    file: FileConfig,
    cli: Overrides,
    identity: Seq<char>,
    cfg: Config,
) -> bool {
    let posting = file.posting;
    &&& match first_set(cli.from, posting.from) {
        Some(from) => cfg.from == from,
        None => cfg.from@ == identity,
    }
    &&& match first_set(cli.groups, posting.groups) {
        Some(groups) => cfg.groups == groups,
        None => cfg.groups@.len() == 1 && cfg.groups@[0]@ == "none"@,
    }
    &&& cfg.article_size == set_or(cli.article_size, posting.article_size, DEFAULT_ARTICLE_SIZE)
    &&& cfg.line_length == set_or(cli.line_length, posting.line_length, DEFAULT_LINE_LENGTH)
    &&& cfg.retries == if set_or(cli.retries, posting.retries, DEFAULT_RETRIES) == 0 {
        1
    } else {
        set_or(cli.retries, posting.retries, DEFAULT_RETRIES)
    }
    &&& cfg.obfuscate == set_or(cli.obfuscate, posting.obfuscate, ObfuscateMode::Off)
    &&& cfg.dry_run == set_or(cli.dry_run, None, false)
    &&& cfg.par2 == set_or(cli.par2, posting.par2, DEFAULT_PAR2)
    &&& cfg.par2_only == set_or(cli.par2_only, None, false)
    &&& cfg.verify == set_or(cli.verify, posting.verify, false)
    &&& match cli.upload_rate {
        Some(rate) => cfg.upload_rate == rate,
        None => match posting.upload_rate {
            Some(s) => rate::is_rate(s@, cfg.upload_rate),
            None => cfg.upload_rate == 0,
        },
    }
    &&& cfg.date == first_set(cli.date, posting.date)
    &&& cfg.no_archive == set_or(cli.no_archive, posting.no_archive, false)
    &&& cfg.message_id_domain == first_set(cli.message_id_domain, posting.message_id_domain)
    &&& cfg.check == set_or(cli.check, posting.check, false)
    &&& cfg.check_delay_secs == set_or(
        cli.check_delay_secs,
        posting.check_delay,
        DEFAULT_CHECK_DELAY,
    )
    &&& cfg.check_retries == set_or(
        cli.check_retries,
        posting.check_retries,
        DEFAULT_CHECK_RETRIES,
    )
}

/// The other settings of `cfg` follow from the file and the overrides.
pub open spec fn output_resolved(file: FileConfig, cli: Overrides, cfg: Config) -> bool {
    let output = file.output;
    &&& cfg.resume == set_or(cli.resume, output.resume, false)
    &&& cfg.compress_format == first_set(cli.compress_format, file.compression.format)
    &&& cfg.compress_password == cli.compress_password
    &&& cfg.nzb_name == first_set(cli.nzb_name, output.nzb_name)
    &&& cfg.nzb_password == first_set(cli.nzb_password, output.nzb_password)
    &&& cfg.nzb_category == first_set(cli.nzb_category, output.nzb_category)
    &&& cfg.nzb_dir == first_set(cli.nzb_dir, output.nzb_dir)
    &&& cfg.indexer_url == output.indexer.url
    &&& cfg.indexer_api_key == output.indexer.api_key
    &&& cfg.indexer_category == output.indexer.category
    &&& cfg.no_upload == cli.no_upload
    &&& cfg.history == set_or(cli.history, output.history, true)
    &&& cfg.history_dir == output.history_dir
    &&& cfg.notify_webhook == file.notify.webhook_url
    &&& cfg.notify_ntfy == file.notify.ntfy_topic
    &&& cfg.notify == cli.notify
    &&& cfg.post_hook == first_set(cli.post_hook, output.post_hook)
    &&& cfg.no_hooks == cli.no_hooks
    &&& cfg.nfo == set_or(cli.nfo, output.nfo, false)
    &&& cfg.quiet == set_or(output.quiet, None, false)
    &&& cfg.bell == set_or(output.bell, None, false)
}

/// The rate of the file counts, because no other is given.
pub open spec fn uses_file_rate(file: FileConfig, cli: Overrides) -> bool {
    cli.upload_rate is None && file.posting.upload_rate is Some
}

/// An identity that stands for nobody.
pub open spec fn is_random_identity(from: Seq<char>) -> bool {
    exists|name: Seq<char>, local: Seq<char>, domain: Seq<char>, tld: Seq<char>|
        from == #[trigger] article::address_text(name, local, domain, tld) && article::all_letters(
            name,
        ) && article::all_letters(local) && article::all_letters(domain) && article::is_tld(tld)
            && 5 <= name.len() <= 12 && 6 <= local.len() <= 14 && 5 <= domain.len() <= 12
}

fn copy_text(s: &Option<String>) -> (r: Option<String>)
    ensures
        r == *s,
{
    match s {
        Some(t) => Some(t.clone()),
        None => None,
    }
}

/// The failover servers: all but the first entry of the list.
fn failover_servers(list: &[FileServerEntry]) -> (r: Result<Vec<ServerEntry>, ConfigError>)
    ensures
        match r {
            Ok(extras) => {
                &&& extras@.len() == if list@.len() > 0 {
                    list@.len() - 1
                } else {
                    0
                }
                &&& forall|i: int|
                    0 <= i < extras@.len() ==> is_entry(list@[i + 1], #[trigger] extras@[i])
            },
            Err(e) => e == ConfigError::ServerHost,
        },
        r is Err <==> exists|i: int| 1 <= i < list@.len() && lacks_host(#[trigger] list@[i]),
{
    let n: usize = list.len();
    let mut extras: Vec<ServerEntry> = Vec::new();
    let mut i: usize = 1;
    while i < n
        invariant
            1 <= i,
            i <= n || i == 1,
            n == list@.len(),
            extras@.len() == i - 1,
            forall|k: int| 0 <= k < i - 1 ==> is_entry(list@[k + 1], #[trigger] extras@[k]),
            forall|k: int| 1 <= k < i ==> !lacks_host(#[trigger] list@[k]),
        decreases n - i,
    {
        let e: &FileServerEntry = &list[i];
        match &e.host {
            Some(host) => {
                extras.push(
                    ServerEntry {
                        host: host.clone(),
                        port: pick_or(e.port, None, DEFAULT_PORT),
                        ssl: pick_or(e.ssl, None, true),
                        connections: pick_or(e.connections, None, DEFAULT_CONNECTIONS),
                        username: copy_text(&e.username),
                        password: copy_text(&e.password),
                        retry_delay: pick_or(e.retry_delay, None, DEFAULT_RETRY_DELAY),
                    },
                );
            },
            None => {
                assert(lacks_host(list@[i as int]));
                return Err(ConfigError::ServerHost);
            },
        }
        i = i + 1;
    }
    Ok(extras)
}

impl Config {
    /// Resolve a [`Config`] from a file config plus overrides, under a freshly
    /// generated random identity where none is pinned.
    ///
    /// Precedence, highest first: override, file value, built-in default.
    pub fn resolve(file: FileConfig, cli: Overrides) -> (r: Result<Config, ConfigError>)
        ensures
            match r {
                Ok(cfg) => {
                    &&& setting_error(file, cli) is None
                    &&& uses_file_rate(file, cli) ==> rate::is_valid(
                        file.posting.upload_rate->0@,
                    )
                    &&& servers_resolved(file, cli, cfg)
                    &&& exists|identity: Seq<char>| #[trigger]
                        is_random_identity(identity) && posting_resolved(file, cli, identity, cfg)
                    &&& output_resolved(file, cli, cfg)
                },
                Err(ConfigError::Rate(e)) => {
                    &&& setting_error(file, cli) is None
                    &&& uses_file_rate(file, cli)
                    &&& rate::is_error(file.posting.upload_rate->0@, e)
                },
                Err(e) => setting_error(file, cli) == Some(e),
            },
    {
        let identity: String = article::random_from();
        assert(is_random_identity(identity@));
        Config::resolve_as(file, cli, identity)
    }

    /// Resolve a [`Config`] from a file config plus overrides. An identity that
    /// neither pins is `identity`.
    pub fn resolve_as(file: FileConfig, cli: Overrides, identity: String) -> (r: Result<
        Config,
        ConfigError,
    >)
        ensures
            match r {
                Ok(cfg) => {
                    &&& setting_error(file, cli) is None
                    &&& uses_file_rate(file, cli) ==> rate::is_valid(
                        file.posting.upload_rate->0@,
                    )
                    &&& servers_resolved(file, cli, cfg)
                    &&& posting_resolved(file, cli, identity@, cfg)
                    &&& output_resolved(file, cli, cfg)
                },
                Err(ConfigError::Rate(e)) => {
                    &&& setting_error(file, cli) is None
                    &&& uses_file_rate(file, cli)
                    &&& rate::is_error(file.posting.upload_rate->0@, e)
                },
                Err(e) => setting_error(file, cli) == Some(e),
            },
    {
        let dry_run: bool = pick_or(cli.dry_run, None, false);
        let par2_only: bool = pick_or(cli.par2_only, None, false);
        let listed: bool = file.extra_servers.len() > 0;
        let primary: FileServerEntry = if listed {
            let e: &FileServerEntry = &file.extra_servers[0];
            FileServerEntry {
                host: copy_text(&e.host),
                port: e.port,
                ssl: e.ssl,
                connections: e.connections,
                username: copy_text(&e.username),
                password: copy_text(&e.password),
                retry_delay: e.retry_delay,
            }
        } else {
            FileServerEntry {
                host: file.server.host,
                port: file.server.port,
                ssl: file.server.ssl,
                connections: file.server.connections,
                username: file.auth.username,
                password: file.auth.password,
                retry_delay: file.server.retry_delay,
            }
        };
        assert(primary == primary_of(file));
        let wanted_host: Option<String> = pick(cli.host, primary.host);
        if listed && wanted_host.is_none() {
            return Err(ConfigError::FirstServerHost);
        }
        let extra_servers: Vec<ServerEntry> = match failover_servers(
            file.extra_servers.as_slice(),
        ) {
            Ok(extras) => extras,
            Err(e) => {
                return Err(e);
            },
        };
        let host: String = match wanted_host {
            Some(host) => host,
            None => {
                if !dry_run && !par2_only {
                    return Err(ConfigError::Host);
                }
                String::from_str("localhost")
            },
        };
        let from: String = pick_or(cli.from, file.posting.from, identity);
        let groups: Vec<String> = match pick(cli.groups, file.posting.groups) {
            Some(groups) => {
                if !par2_only && groups.len() == 0 {
                    return Err(ConfigError::Groups);
                }
                groups
            },
            None => {
                if !par2_only {
                    return Err(ConfigError::Groups);
                }
                let mut groups: Vec<String> = Vec::new();
                groups.push(String::from_str("none"));
                groups
            },
        };
        let upload_rate: u64 = match cli.upload_rate {
            Some(rate) => rate,
            None => match file.posting.upload_rate {
                Some(s) => match parse_upload_rate(s.as_str()) {
                    Ok(rate) => rate,
                    Err(e) => {
                        return Err(ConfigError::Rate(e));
                    },
                },
                None => 0,
            },
        };
        let retries: u32 = pick_or(cli.retries, file.posting.retries, DEFAULT_RETRIES);
        Ok(
            Config {
                host,
                port: pick_or(cli.port, primary.port, DEFAULT_PORT),
                ssl: pick_or(cli.ssl, primary.ssl, true),
                connections: pick_or(cli.connections, primary.connections, DEFAULT_CONNECTIONS),
                username: pick(cli.username, primary.username),
                password: pick(cli.password, primary.password),
                retry_delay: pick_or(cli.retry_delay, primary.retry_delay, DEFAULT_RETRY_DELAY),
                extra_servers,
                from,
                groups,
                article_size: pick_or(
                    cli.article_size,
                    file.posting.article_size,
                    DEFAULT_ARTICLE_SIZE,
                ),
                line_length: pick_or(
                    cli.line_length,
                    file.posting.line_length,
                    DEFAULT_LINE_LENGTH,
                ),
                retries: if retries == 0 {
                    1
                } else {
                    retries
                },
                obfuscate: pick_or(cli.obfuscate, file.posting.obfuscate, ObfuscateMode::Off),
                date: pick(cli.date, file.posting.date),
                no_archive: pick_or(cli.no_archive, file.posting.no_archive, false),
                message_id_domain: pick(cli.message_id_domain, file.posting.message_id_domain),
                dry_run,
                par2: pick_or(cli.par2, file.posting.par2, DEFAULT_PAR2),
                par2_only,
                verify: pick_or(cli.verify, file.posting.verify, false),
                resume: pick_or(cli.resume, file.output.resume, false),
                upload_rate,
                compress_format: pick(cli.compress_format, file.compression.format),
                compress_password: cli.compress_password,
                nzb_name: pick(cli.nzb_name, file.output.nzb_name),
                nzb_password: pick(cli.nzb_password, file.output.nzb_password),
                nzb_category: pick(cli.nzb_category, file.output.nzb_category),
                indexer_url: file.output.indexer.url,
                indexer_api_key: file.output.indexer.api_key,
                indexer_category: file.output.indexer.category,
                nzb_dir: pick(cli.nzb_dir, file.output.nzb_dir),
                no_upload: cli.no_upload,
                history: pick_or(cli.history, file.output.history, true),
                history_dir: file.output.history_dir,
                notify_webhook: file.notify.webhook_url,
                notify_ntfy: file.notify.ntfy_topic,
                notify: cli.notify,
                post_hook: pick(cli.post_hook, file.output.post_hook),
                no_hooks: cli.no_hooks,
                nfo: pick_or(cli.nfo, file.output.nfo, false),
                quiet: pick_or(file.output.quiet, None, false),
                bell: pick_or(file.output.bell, None, false),
                check: pick_or(cli.check, file.posting.check, false),
                check_delay_secs: pick_or(
                    cli.check_delay_secs,
                    file.posting.check_delay,
                    DEFAULT_CHECK_DELAY,
                ),
                check_retries: pick_or(
                    cli.check_retries,
                    file.posting.check_retries,
                    DEFAULT_CHECK_RETRIES,
                ),
            },
        )
    }

    /// The primary server.
    pub open spec fn primary_server(&self) -> ServerEntry {
        ServerEntry {
            host: self.host,
            port: self.port,
            ssl: self.ssl,
            connections: self.connections,
            username: self.username,
            password: self.password,
            retry_delay: self.retry_delay,
        }
    }

    /// All servers in priority order: primary first, then
    /// [`Config::extra_servers`].
    pub fn all_servers(&self) -> (servers: Vec<ServerEntry>)
        ensures
            servers@ == seq![self.primary_server()] + self.extra_servers@,
    {
        let mut servers: Vec<ServerEntry> = Vec::new();
        servers.push(
            ServerEntry {
                host: self.host.clone(),
                port: self.port,
                ssl: self.ssl,
                connections: self.connections,
                username: copy_text(&self.username),
                password: copy_text(&self.password),
                retry_delay: self.retry_delay,
            },
        );
        let n: usize = self.extra_servers.len();
        let mut i: usize = 0;
        assert(servers@ =~= seq![self.primary_server()] + self.extra_servers@.take(0));
        while i < n
            invariant
                i <= n,
                n == self.extra_servers@.len(),
                servers@ == seq![self.primary_server()] + self.extra_servers@.take(i as int),
            decreases n - i,
        {
            let e: &ServerEntry = &self.extra_servers[i];
            servers.push(
                ServerEntry {
                    host: e.host.clone(),
                    port: e.port,
                    ssl: e.ssl,
                    connections: e.connections,
                    username: copy_text(&e.username),
                    password: copy_text(&e.password),
                    retry_delay: e.retry_delay,
                },
            );
            assert(servers@ =~= seq![self.primary_server()] + self.extra_servers@.take(i + 1));
            i = i + 1;
        }
        assert(self.extra_servers@.take(n as int) =~= self.extra_servers@);
        servers
    }

    /// Total number of parallel connections across all servers.
    pub fn total_connections(&self) -> (total: usize)
        requires
            connections_of(self.connections as nat, self.extra_servers@) <= usize::MAX,
        ensures
            total == connections_of(self.connections as nat, self.extra_servers@),
    {
        let n: usize = self.extra_servers.len();
        let mut total: usize = self.connections;
        let mut i: usize = 0;
        assert(self.extra_servers@.take(0) =~= Seq::empty());
        while i < n
            invariant
                i <= n,
                n == self.extra_servers@.len(),
                connections_of(self.connections as nat, self.extra_servers@) <= usize::MAX,
                total == connections_of(
                    self.connections as nat,
                    self.extra_servers@.take(i as int),
                ),
            decreases n - i,
        {
            proof {
                lemma_connections_grow(self.connections as nat, self.extra_servers@, i + 1);
                assert(self.extra_servers@.take(i + 1).drop_last() =~= self.extra_servers@.take(
                    i as int,
                ));
            }
            total = total + self.extra_servers[i].connections;
            i = i + 1;
        }
        assert(self.extra_servers@.take(n as int) =~= self.extra_servers@);
        total
    }
}

/// Connections of the primary server and of all others.
pub open spec fn connections_of(primary: nat, extras: Seq<ServerEntry>) -> nat
    decreases extras.len(),
{
    if extras.len() == 0 {
        primary
    } else {
        connections_of(primary, extras.drop_last()) + extras.last().connections as nat
    }
}

proof fn lemma_connections_grow(primary: nat, extras: Seq<ServerEntry>, i: int)
    requires
        0 <= i <= extras.len(),
    ensures
        connections_of(primary, extras.take(i)) <= connections_of(primary, extras),
    decreases extras.len() - i,
{
    if i < extras.len() {
        lemma_connections_grow(primary, extras, i + 1);
        assert(extras.take(i + 1).drop_last() =~= extras.take(i));
    } else {
        assert(extras.take(i) =~= extras);
    }
}

/// Where the configuration file is, given `$XDG_CONFIG_HOME` and `$HOME`.
pub open spec fn config_path_of(xdg: Option<&str>, home: Option<&str>) -> Option<Seq<char>> {
    if xdg is Some && xdg->0@.len() > 0 {
        Some(paths::joined_path(paths::joined_path(xdg->0@, "pesto"@), "config.toml"@))
    } else {
        match home {
            Some(h) => Some(
                paths::joined_path(paths::joined_path(paths::joined_path(h@, ".config"@), "pesto"@),
                    "config.toml"@),
            ),
            None => None,
        }
    }
}

/// Path of the config file that is loaded when `--config` is not given:
/// `$XDG_CONFIG_HOME/pesto/config.toml`, falling back to
/// `$HOME/.config/pesto/config.toml`. `None` when neither variable is set.
pub fn default_config_path(xdg: Option<&str>, home: Option<&str>) -> (path: Option<String>)
    ensures
        match path {
            Some(p) => config_path_of(xdg, home) == Some(p@),
            None => config_path_of(xdg, home) is None,
        },
{
    match xdg {
        Some(x) => {
            if x.unicode_len() > 0 {
                let dir: String = paths::join_path(x, "pesto");
                return Some(paths::join_path(dir.as_str(), "config.toml"));
            }
        },
        None => {},
    }
    match home {
        Some(h) => {
            let base: String = paths::join_path(h, ".config");
            let dir: String = paths::join_path(base.as_str(), "pesto");
            Some(paths::join_path(dir.as_str(), "config.toml"))
        },
        None => None,
    }
}

/// The config directory: the parent folder of [`default_config_path`].
pub fn config_dir(xdg: Option<&str>, home: Option<&str>) -> (path: Option<String>)
    ensures
        match path {
            Some(p) => config_path_of(xdg, home) is Some && paths::parent_of(
                config_path_of(xdg, home)->0,
            ) == Some(p@),
            None => config_path_of(xdg, home) is None || paths::parent_of(
                config_path_of(xdg, home)->0,
            ) is None,
        },
{
    match default_config_path(xdg, home) {
        Some(file) => {
            let all: Vec<char> = text::chars_of(file.as_str());
            match paths::parent(all.as_slice()) {
                Some(dir) => Some(text::string_of(dir)),
                None => None,
            }
        },
        None => None,
    }
}

/// A run without network needs no host, and one that only makes recovery files
/// needs no groups either.
pub proof fn law_offline_runs_need_no_server(file: FileConfig, cli: Overrides)
    requires
        file.extra_servers@.len() == 0,
        is_offline(cli),
    ensures
        setting_error(file, cli) !is Some || setting_error(file, cli)->0 is Groups,
        set_or(cli.par2_only, None, false) ==> setting_error(file, cli) is None,
{
}

/// Settings resolve when there is a host and a group, wherever they come from, and
/// every other server of the list has a host too.
pub proof fn law_complete_settings_resolve(file: FileConfig, cli: Overrides)
    requires
        cli.host is Some || (file.extra_servers@.len() == 0 && file.server.host is Some) || (
        file.extra_servers@.len() > 0 && file.extra_servers@[0].host is Some),
        forall|i: int|
            1 <= i < file.extra_servers@.len() ==> (#[trigger] file.extra_servers@[i]).host is Some,
        cli.groups matches Some(g) ==> g@.len() > 0,
        cli.groups is None ==> file.posting.groups is Some && file.posting.groups->0@.len() > 0,
    ensures
        setting_error(file, cli) is None,
{
}

/// What is missing is named: the host of the first server of a list before that of
/// another one, then a host, then the groups; and nothing else is an error.
pub proof fn law_missing_settings_are_named(file: FileConfig, cli: Overrides)
    ensures
        ({
            let listed = file.extra_servers@.len() > 0;
            let first = if listed {
                file.extra_servers@[0].host
            } else {
                file.server.host
            };
            let hosted = cli.host is Some || first is Some;
            let offline = cli.dry_run == Some(true) || cli.par2_only == Some(true);
            let grouped = match cli.groups {
                Some(g) => g@.len() > 0,
                None => file.posting.groups is Some && file.posting.groups->0@.len() > 0,
            };
            match setting_error(file, cli) {
                Some(ConfigError::FirstServerHost) => listed && !hosted,
                Some(ConfigError::ServerHost) => exists|i: int|
                    1 <= i < file.extra_servers@.len() && (
                    #[trigger] file.extra_servers@[i]).host is None,
                Some(ConfigError::Host) => !listed && !hosted && !offline,
                Some(ConfigError::Groups) => !grouped && cli.par2_only != Some(true),
                Some(ConfigError::Rate(_)) => false,
                None => (hosted || (!listed && offline)) && (grouped || cli.par2_only == Some(
                    true,
                )),
            }
        }),
{
    if exists|i: int|
        1 <= i < file.extra_servers@.len() && lacks_host(#[trigger] file.extra_servers@[i]) {
        let i = choose|i: int|
            1 <= i < file.extra_servers@.len() && lacks_host(#[trigger] file.extra_servers@[i]);
        assert(file.extra_servers@[i].host is None);
    }
}

/// `cfg` is what a file and overrides resolve to, where they bring no error.
pub open spec fn is_resolved(
    file: FileConfig,
    cli: Overrides,
    identity: Seq<char>,
    cfg: Config,
) -> bool {
    &&& servers_resolved(file, cli, cfg)
    &&& posting_resolved(file, cli, identity, cfg)
    &&& output_resolved(file, cli, cfg)
}

/// Overrides win, whatever the file says.
pub proof fn law_overrides_win(
    file: FileConfig,
    cli: Overrides,
    identity: Seq<char>,
    cfg: Config,
)
    requires
        is_resolved(file, cli, identity, cfg),
    ensures
        cli.host matches Some(v) ==> cfg.host == v,
        cli.from matches Some(v) ==> cfg.from == v,
        cli.groups matches Some(v) ==> cfg.groups == v,
        cli.upload_rate matches Some(v) ==> cfg.upload_rate == v,
        cli.dry_run matches Some(v) ==> cfg.dry_run == v,
        cli.par2_only matches Some(v) ==> cfg.par2_only == v,
        cli.retries is Some && cli.retries->0 > 0 ==> cfg.retries == cli.retries->0,
        cli.port matches Some(v) ==> cfg.port == v,
        cli.ssl matches Some(v) ==> cfg.ssl == v,
        cli.connections matches Some(v) ==> cfg.connections == v,
        cli.retry_delay matches Some(v) ==> cfg.retry_delay == v,
        cli.article_size matches Some(v) ==> cfg.article_size == v,
        cli.line_length matches Some(v) ==> cfg.line_length == v,
        cli.obfuscate matches Some(v) ==> cfg.obfuscate == v,
        cli.par2 matches Some(v) ==> cfg.par2 == v,
        cli.verify matches Some(v) ==> cfg.verify == v,
        cli.no_archive matches Some(v) ==> cfg.no_archive == v,
        cli.check matches Some(v) ==> cfg.check == v,
        cli.check_delay_secs matches Some(v) ==> cfg.check_delay_secs == v,
        cli.check_retries matches Some(v) ==> cfg.check_retries == v,
        cli.resume matches Some(v) ==> cfg.resume == v,
        cli.history matches Some(v) ==> cfg.history == v,
        cli.nfo matches Some(v) ==> cfg.nfo == v,
        cli.username is Some ==> cfg.username == cli.username,
        cli.password is Some ==> cfg.password == cli.password,
        cli.date is Some ==> cfg.date == cli.date,
        cli.message_id_domain is Some ==> cfg.message_id_domain == cli.message_id_domain,
        cli.compress_format is Some ==> cfg.compress_format == cli.compress_format,
        cli.nzb_name is Some ==> cfg.nzb_name == cli.nzb_name,
        cli.nzb_password is Some ==> cfg.nzb_password == cli.nzb_password,
        cli.nzb_category is Some ==> cfg.nzb_category == cli.nzb_category,
        cli.nzb_dir is Some ==> cfg.nzb_dir == cli.nzb_dir,
        cli.post_hook is Some ==> cfg.post_hook == cli.post_hook,
        cfg.no_upload == cli.no_upload,
        cfg.no_hooks == cli.no_hooks,
        cfg.notify == cli.notify,
        cfg.compress_password == cli.compress_password,
{
}

/// What is not overridden is as the file says: the first entry of its server list
/// stands in for `[server]` and `[auth]` where there is one.
pub proof fn law_file_values_come_next(
    file: FileConfig,
    cli: Overrides,
    identity: Seq<char>,
    cfg: Config,
)
    requires
        is_resolved(file, cli, identity, cfg),
    ensures
        file.extra_servers@.len() > 0 && cli.port is None
            && file.extra_servers@[0].port is Some ==> cfg.port == file.extra_servers@[0].port->0,
        file.extra_servers@.len() == 0 && cli.port is None && file.server.port is Some ==> cfg.port
            == file.server.port->0,
        file.extra_servers@.len() > 0 && cli.ssl is None
            && file.extra_servers@[0].ssl is Some ==> cfg.ssl == file.extra_servers@[0].ssl->0,
        file.extra_servers@.len() == 0 && cli.ssl is None && file.server.ssl is Some ==> cfg.ssl
            == file.server.ssl->0,
        file.extra_servers@.len() > 0 && cli.connections is None
            && file.extra_servers@[0].connections is Some ==> cfg.connections
            == file.extra_servers@[0].connections->0,
        file.extra_servers@.len() == 0 && cli.connections is None
            && file.server.connections is Some ==> cfg.connections == file.server.connections->0,
        file.extra_servers@.len() > 0 && cli.retry_delay is None
            && file.extra_servers@[0].retry_delay is Some ==> cfg.retry_delay
            == file.extra_servers@[0].retry_delay->0,
        file.extra_servers@.len() == 0 && cli.retry_delay is None
            && file.server.retry_delay is Some ==> cfg.retry_delay == file.server.retry_delay->0,
        file.extra_servers@.len() > 0 && cli.username is None
            && file.extra_servers@[0].username is Some ==> cfg.username
            == file.extra_servers@[0].username,
        file.extra_servers@.len() == 0 && cli.username is None
            && file.auth.username is Some ==> cfg.username == file.auth.username,
        file.extra_servers@.len() > 0 && cli.password is None
            && file.extra_servers@[0].password is Some ==> cfg.password
            == file.extra_servers@[0].password,
        file.extra_servers@.len() == 0 && cli.password is None
            && file.auth.password is Some ==> cfg.password == file.auth.password,
        file.extra_servers@.len() > 0 && cli.host is None
            && file.extra_servers@[0].host is Some ==> cfg.host == file.extra_servers@[0].host->0,
        file.extra_servers@.len() == 0 && cli.host is None && file.server.host is Some ==> cfg.host
            == file.server.host->0,
        cli.article_size is None && file.posting.article_size is Some ==> cfg.article_size
            == file.posting.article_size->0,
        cli.line_length is None && file.posting.line_length is Some ==> cfg.line_length
            == file.posting.line_length->0,
        cli.obfuscate is None && file.posting.obfuscate is Some ==> cfg.obfuscate
            == file.posting.obfuscate->0,
        cli.par2 is None && file.posting.par2 is Some ==> cfg.par2 == file.posting.par2->0,
        cli.verify is None && file.posting.verify is Some ==> cfg.verify == file.posting.verify->0,
        cli.no_archive is None && file.posting.no_archive is Some ==> cfg.no_archive
            == file.posting.no_archive->0,
        cli.check is None && file.posting.check is Some ==> cfg.check == file.posting.check->0,
        cli.check_delay_secs is None && file.posting.check_delay is Some ==> cfg.check_delay_secs
            == file.posting.check_delay->0,
        cli.check_retries is None && file.posting.check_retries is Some ==> cfg.check_retries
            == file.posting.check_retries->0,
        cli.resume is None && file.output.resume is Some ==> cfg.resume == file.output.resume->0,
        cli.history is None && file.output.history is Some ==> cfg.history
            == file.output.history->0,
        cli.nfo is None && file.output.nfo is Some ==> cfg.nfo == file.output.nfo->0,
        cli.date is None && file.posting.date is Some ==> cfg.date == file.posting.date,
        cli.message_id_domain is None
            && file.posting.message_id_domain is Some ==> cfg.message_id_domain
            == file.posting.message_id_domain,
        cli.compress_format is None && file.compression.format is Some ==> cfg.compress_format
            == file.compression.format,
        cli.nzb_name is None && file.output.nzb_name is Some ==> cfg.nzb_name
            == file.output.nzb_name,
        cli.nzb_password is None && file.output.nzb_password is Some ==> cfg.nzb_password
            == file.output.nzb_password,
        cli.nzb_category is None && file.output.nzb_category is Some ==> cfg.nzb_category
            == file.output.nzb_category,
        cli.nzb_dir is None && file.output.nzb_dir is Some ==> cfg.nzb_dir == file.output.nzb_dir,
        cli.post_hook is None && file.output.post_hook is Some ==> cfg.post_hook
            == file.output.post_hook,
        cli.from is None && file.posting.from is Some ==> cfg.from == file.posting.from->0,
        cli.groups is None && file.posting.groups is Some ==> cfg.groups == file.posting.groups->0,
        cli.retries is None && file.posting.retries is Some
            && file.posting.retries->0 > 0 ==> cfg.retries == file.posting.retries->0,
        cfg.indexer_url == file.output.indexer.url,
        cfg.indexer_api_key == file.output.indexer.api_key,
        cfg.indexer_category == file.output.indexer.category,
        cfg.notify_webhook == file.notify.webhook_url,
        cfg.notify_ntfy == file.notify.ntfy_topic,
        cfg.history_dir == file.output.history_dir,
        file.output.quiet is Some ==> cfg.quiet == file.output.quiet->0,
        file.output.bell is Some ==> cfg.bell == file.output.bell->0,
{
}

/// What neither sets has its default.
pub proof fn law_defaults_fill_the_rest(
    file: FileConfig,
    cli: Overrides,
    identity: Seq<char>,
    cfg: Config,
)
    requires
        is_resolved(file, cli, identity, cfg),
    ensures
        file.extra_servers@.len() == 0 && cli.port is None && file.server.port is None ==> cfg.port
            == 563,
        file.extra_servers@.len() == 0 && cli.ssl is None && file.server.ssl is None ==> cfg.ssl
            == true,
        file.extra_servers@.len() == 0 && cli.connections is None
            && file.server.connections is None ==> cfg.connections == 4,
        file.extra_servers@.len() == 0 && cli.retry_delay is None
            && file.server.retry_delay is None ==> cfg.retry_delay == 1,
        cli.article_size is None && file.posting.article_size is None ==> cfg.article_size
            == 768_000,
        cli.line_length is None && file.posting.line_length is None ==> cfg.line_length == 128,
        cli.obfuscate is None && file.posting.obfuscate is None ==> cfg.obfuscate
            == ObfuscateMode::Off,
        cli.par2 is None && file.posting.par2 is None ==> cfg.par2 == 10,
        cli.verify is None && file.posting.verify is None ==> cfg.verify == false,
        cli.no_archive is None && file.posting.no_archive is None ==> cfg.no_archive == false,
        cli.check is None && file.posting.check is None ==> cfg.check == false,
        cli.check_delay_secs is None && file.posting.check_delay is None ==> cfg.check_delay_secs
            == 30,
        cli.check_retries is None && file.posting.check_retries is None ==> cfg.check_retries == 2,
        cli.resume is None && file.output.resume is None ==> cfg.resume == false,
        cli.history is None && file.output.history is None ==> cfg.history == true,
        cli.nfo is None && file.output.nfo is None ==> cfg.nfo == false,
        file.extra_servers@.len() == 0 && cli.username is None
            && file.auth.username is None ==> cfg.username is None,
        file.extra_servers@.len() == 0 && cli.password is None
            && file.auth.password is None ==> cfg.password is None,
        cli.date is None && file.posting.date is None ==> cfg.date is None,
        cli.message_id_domain is None
            && file.posting.message_id_domain is None ==> cfg.message_id_domain is None,
        cli.compress_format is None
            && file.compression.format is None ==> cfg.compress_format is None,
        cli.nzb_name is None && file.output.nzb_name is None ==> cfg.nzb_name is None,
        cli.nzb_password is None && file.output.nzb_password is None ==> cfg.nzb_password is None,
        cli.nzb_category is None && file.output.nzb_category is None ==> cfg.nzb_category is None,
        cli.nzb_dir is None && file.output.nzb_dir is None ==> cfg.nzb_dir is None,
        cli.post_hook is None && file.output.post_hook is None ==> cfg.post_hook is None,
        cli.retries is None && file.posting.retries is None ==> cfg.retries == 3,
        cfg.retries >= 1,
        cli.dry_run is None ==> !cfg.dry_run,
        cli.par2_only is None ==> !cfg.par2_only,
        cli.upload_rate is None && file.posting.upload_rate is None ==> cfg.upload_rate == 0,
        file.output.quiet is None ==> !cfg.quiet,
        file.output.bell is None ==> !cfg.bell,
        cli.from is None && file.posting.from is None ==> cfg.from@ == identity,
        file.extra_servers@.len() == 0 ==> cfg.extra_servers@.len() == 0,
{
}

/// The servers of the list follow in their order, each as the list gives it, with
/// the same defaults.
pub proof fn law_failover_servers_keep_their_order(
    file: FileConfig,
    cli: Overrides,
    identity: Seq<char>,
    cfg: Config,
    i: int,
)
    requires
        is_resolved(file, cli, identity, cfg),
        1 <= i < file.extra_servers@.len(),
    ensures
        cfg.extra_servers@.len() == file.extra_servers@.len() - 1,
        ({
            let listed = file.extra_servers@[i];
            let server = cfg.extra_servers@[i - 1];
            &&& listed.host == Some(server.host)
            &&& listed.port is Some ==> server.port == listed.port->0
            &&& listed.port is None ==> server.port == 563
            &&& listed.ssl is Some ==> server.ssl == listed.ssl->0
            &&& listed.ssl is None ==> server.ssl
            &&& listed.connections is Some ==> server.connections == listed.connections->0
            &&& listed.connections is None ==> server.connections == 4
            &&& server.username == listed.username
            &&& server.password == listed.password
            &&& listed.retry_delay is Some ==> server.retry_delay == listed.retry_delay->0
            &&& listed.retry_delay is None ==> server.retry_delay == 1
        }),
{
    assert(is_entry(file.extra_servers@[i - 1 + 1], cfg.extra_servers@[i - 1]));
}

} // verus!
