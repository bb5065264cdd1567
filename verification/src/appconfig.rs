//! Service configuration from the ERP bench site files and the environment.
use vstd::prelude::*;
use std::num::ParseIntError;
use std::path::PathBuf;
use crate::text::{self, trimmed};

verus! {

/// The standard library's owned path type, carried through unchanged.
#[verifier::external_type_specification]
#[verifier::external_body]
pub struct ExPathBuf(std::path::PathBuf);

/// The standard library's I/O error, carried through unchanged.
#[verifier::external_type_specification]
#[verifier::external_body]
pub struct ExIoError(std::io::Error);

/// The JSON error of `serde_json`, carried through unchanged.
#[verifier::external_type_specification]
#[verifier::external_body]
pub struct ExJsonError(serde_json::Error);

/// The standard library's integer parse error, carried through unchanged.
#[verifier::external_type_specification]
#[verifier::external_body]
pub struct ExParseIntError(std::num::ParseIntError);

/// The address the service listens on unless told otherwise.
pub const DEFAULT_ADDR: &'static str = "127.0.0.1:8090";

/// The database host used when the site names none.
pub const DEFAULT_DB_HOST: &'static str = "127.0.0.1";

/// The database port used when the site names none.
pub const DEFAULT_DB_PORT: u16 = 3306;

/// `Clone::clone` on an owned path. Nothing is stated of the copy.
pub assume_specification[ <std::path::PathBuf as Clone>::clone ](p: &PathBuf) -> PathBuf;

/// The resolved service configuration.
#[derive(Debug, Clone, PartialEq, Eq)]
pub struct Config {
    pub addr: String,
    pub bench_root: PathBuf,
    pub site_name: String,
    pub site_config: PathBuf,
    pub db_host: String,
    pub db_port: u16,
    pub db_name: String,
    pub db_user: String,
    pub db_password: String,
}

/// Why the configuration could not be loaded.
#[derive(Debug)]
#[allow(inconsistent_fields)]
pub enum ConfigError {
    Read { path: PathBuf, source: std::io::Error },
    Json { path: PathBuf, source: serde_json::Error },
    InvalidDbPort(ParseIntError),
    EmptySiteName,
    EmptyDbName(PathBuf),
    EmptyDbPassword(PathBuf),
    Getwd(std::io::Error),
}

/// The bench-wide site settings (`sites/common_site_config.json`).
pub struct CommonSiteConfig {
    pub default_site: String,
}

/// The settings of one site (`sites/<site>/site_config.json`); absent
/// entries are empty or zero.
pub struct SiteConfig {
    pub db_host: String,
    pub db_port: u16,
    pub db_name: String,
    pub db_password: String,
}

/// The settings taken from the environment, each already trimmed and
/// present only when not empty.
pub struct EnvOverrides {
    pub read_addr: Option<String>,
    pub db_host: Option<String>,
    pub db_port: Option<String>,
    pub db_user: Option<String>,
}

/// An environment value as the service uses it: trimmed, and absent when empty.
pub fn trimmed_env_value(raw: Option<String>) -> (r: Option<String>)
    ensures
        match raw {
            None => r is None,
            Some(s) => if text::trim_seq(s@).len() == 0 {
                r is None
            } else {
                r matches Some(v) && v@ == text::trim_seq(s@)
            },
        },
{
    match raw {
        None => None,
        Some(s) => {
            let t = trimmed(s.as_str());
            if t.as_str().is_empty() {
                None
            } else {
                Some(t)
            }
        },
    }
}

/// The site to serve: the one named in the environment, else the bench's
/// default site (trimmed); an empty name is refused.
pub fn resolve_site_name(env_site: Option<String>, common: Option<&CommonSiteConfig>) -> (r: Result<
    String,
    ConfigError,
>)
    requires
        env_site is Some || common is Some,
    ensures
        ({
            let name = match env_site {
                Some(s) => s@,
                None => text::trim_seq(common.unwrap().default_site@),
            };
            match r {
                Ok(v) => v@ == name && name.len() > 0,
                Err(e) => name.len() == 0 && e is EmptySiteName,
            }
        }),
{
    let name = match env_site {
        Some(s) => s,
        None => trimmed(common.unwrap().default_site.as_str()),
    };
    if name.as_str().is_empty() {
        Err(ConfigError::EmptySiteName)
    } else {
        Ok(name)
    }
}

/// The port that `s` spells: an optional `+` followed by at least one ASCII
/// digit, at most 65535; nothing otherwise.
pub open spec fn spec_parse_u16(s: Seq<char>) -> Option<u16> {
    let d = if s.len() > 0 && s[0] == '+' {
        s.drop_first()
    } else {
        s
    };
    if d.len() == 0 || !text::all_ascii_digits(d) || text::decimal_value(d) > 65535 {
        None
    } else {
        Some(text::decimal_value(d) as u16)
    }
}

/// Parses a decimal `u16` (`str::parse::<u16>`); the standard documentation
/// gives the accepted form: an optional `+` followed by digits, in range.
#[verifier::external_body]
fn parse_u16(s: &str) -> (r: Result<u16, ParseIntError>)
    ensures
        r is Ok <==> spec_parse_u16(s@) is Some,
        r matches Ok(v) ==> spec_parse_u16(s@) == Some(v),
{
    s.parse::<u16>()
}

/// The database host: the environment's, else the site's (trimmed), else the default.
pub open spec fn chosen_db_host(site: Seq<char>, env: Option<Seq<char>>) -> Seq<char> {
    match env {
        Some(h) => h,
        None => if text::trim_seq(site).len() == 0 {
            DEFAULT_DB_HOST@
        } else {
            text::trim_seq(site)
        },
    }
}

/// The views of an optional string.
pub open spec fn opt_view(o: Option<String>) -> Option<Seq<char>> {
    match o {
        Some(s) => Some(s@),
        None => None,
    }
}

/// Assembles the configuration from the bench root, the site, its settings
/// and the environment overrides. The port from the environment must parse;
/// the site must name a database and a password.
pub fn config_from_site(
    bench_root: PathBuf,
    site_name: String,
    site_config: PathBuf,
    site: SiteConfig,
    env: EnvOverrides,
) -> (r: Result<Config, ConfigError>)
    ensures
        ({
            let port_ok = match env.db_port {
                Some(p) => spec_parse_u16(p@) is Some,
                None => true,
            };
            let name = text::trim_seq(site.db_name@);
            let password = text::trim_seq(site.db_password@);
            match r {
                Ok(c) => {
                    &&& port_ok && name.len() > 0 && password.len() > 0
                    &&& c.addr@ == match env.read_addr {
                        Some(a) => a@,
                        None => DEFAULT_ADDR@,
                    }
                    &&& c.bench_root == bench_root
                    &&& c.site_name == site_name
                    &&& c.site_config == site_config
                    &&& c.db_host@ == chosen_db_host(site.db_host@, opt_view(env.db_host))
                    &&& c.db_port == match env.db_port {
                        Some(p) => spec_parse_u16(p@).unwrap(),
                        None => if site.db_port == 0 {
                            DEFAULT_DB_PORT
                        } else {
                            site.db_port
                        },
                    }
                    &&& c.db_name@ == name
                    &&& c.db_password@ == password
                    &&& c.db_user@ == match env.db_user {
                        Some(u) => u@,
                        None => name,
                    }
                },
                Err(e) => if !port_ok {
                    e is InvalidDbPort
                } else if name.len() == 0 {
                    e matches ConfigError::EmptyDbName(p) && p == site_config
                } else {
                    password.len() == 0 && (e matches ConfigError::EmptyDbPassword(p) && p
                        == site_config)
                },
            }
        }),
{
    let mut db_host = trimmed(site.db_host.as_str());
    if db_host.as_str().is_empty() {
        db_host = DEFAULT_DB_HOST.to_owned();
    }
    let mut db_port = if site.db_port == 0 {
        DEFAULT_DB_PORT
    } else {
        site.db_port
    };
    match &env.db_port {
        Some(raw) => match parse_u16(raw.as_str()) {
            Ok(p) => {
                db_port = p;
            },
            Err(e) => {
                return Err(ConfigError::InvalidDbPort(e));
            },
        },
        None => {},
    }
    let EnvOverrides { read_addr, db_host: env_host, db_port: _, db_user } = env;
    match env_host {
        Some(h) => {
            db_host = h;
        },
        None => {},
    }
    let db_name = trimmed(site.db_name.as_str());
    if db_name.as_str().is_empty() {
        return Err(ConfigError::EmptyDbName(site_config));
    }
    let db_password = trimmed(site.db_password.as_str());
    if db_password.as_str().is_empty() {
        return Err(ConfigError::EmptyDbPassword(site_config));
    }
    let db_user = match db_user {
        Some(u) => u,
        None => db_name.clone(),
    };
    let addr = match read_addr {
        Some(a) => a,
        None => DEFAULT_ADDR.to_owned(),
    };
    Ok(
        Config {
            addr,
            bench_root,
            site_name,
            site_config,
            db_host,
            db_port,
            db_name,
            db_user,
            db_password,
        },
    )
}

} // verus!

verus! {

/// The character set the service connects with.
pub const DB_CHARSET: &'static str = "utf8mb4";

/// The settings of the database connection, as plain values.
pub struct ConnectSettings {
    pub host: String,
    pub port: u16,
    pub username: String,
    pub password: String,
    pub database: String,
    pub charset: String,
}

impl Config {
    /// The database connection settings for this configuration: host, port,
    /// user, password and database from it, character set `utf8mb4`.
    pub fn connect_options(&self) -> (r: ConnectSettings)
        ensures
            r.host@ == self.db_host@,
            r.port == self.db_port,
            r.username@ == self.db_user@,
            r.password@ == self.db_password@,
            r.database@ == self.db_name@,
            r.charset@ == DB_CHARSET@,
    {
        ConnectSettings {
            host: self.db_host.clone(),
            port: self.db_port,
            username: self.db_user.clone(),
            password: self.db_password.clone(),
            database: self.db_name.clone(),
            charset: DB_CHARSET.to_owned(),
        }
    }
}

} // verus!
