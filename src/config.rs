//! Where packages, metadata and downloads live.
use crate::text::{append_chars, chars_of, string_of};
use vstd::prelude::*;

verus! {

/// Locations the engine works with.
#[derive(Debug, Clone)]
pub struct Config {
    pub pantry_dir: String,
    pub pantry_db_file: String,
    pub dist_url: String,
    pub pkgx_dir: String,
}

/// `a/b`.
pub open spec fn joined(a: Seq<char>, b: Seq<char>) -> Seq<char> {
    a + seq!['/'] + b
}

/// Joins two path parts with `/`.
pub fn join(a: &str, b: &str) -> (r: String)
    ensures
        r@ == joined(a@, b@),
{
    let mut t = chars_of(a);
    t.push('/');
    let u = chars_of(b);
    append_chars(&mut t, &u);
    string_of(&t)
}


/// What the configuration is read from: environment variables, the working directory and
/// the platform's standard directories.
#[derive(Debug, Clone)]
pub struct ConfigEnv {
    /// `PKGX_PANTRY_DIR`.
    pub pantry_dir_var: Option<String>,
    /// `PKGX_DIR`.
    pub pkgx_dir_var: Option<String>,
    /// `PKGX_DIST_URL`.
    pub dist_url_var: Option<String>,
    /// `XDG_DATA_HOME`.
    pub xdg_data_home: Option<String>,
    pub current_dir: Option<String>,
    pub home_dir: Option<String>,
    /// Whether `<home>/.pkgx` exists.
    pub home_pkgx_exists: bool,
    pub data_local_dir: Option<String>,
    pub cache_dir: Option<String>,
    /// The distribution server used when `PKGX_DIST_URL` is not set.
    pub default_dist_url: String,
}

/// A directory the configuration needs could not be determined.
#[derive(Debug, Clone, Copy, PartialEq, Eq, Structural)]
pub enum ConfigError {
    NoDataDir,
    NoCacheDir,
    NoHomeDir,
}

pub open spec fn is_absolute(p: Seq<char>) -> bool {
    p.len() > 0 && p[0] == '/'
}

/// The pantry named by `PKGX_PANTRY_DIR`, made absolute against the working directory.
pub open spec fn pantry_var_dir(e: ConfigEnv) -> Option<Seq<char>> {
    match e.pantry_dir_var {
        Some(p) => if is_absolute(p@) { Some(p@) } else {
            match e.current_dir {
                Some(c) => Some(joined(c@, p@)),
                None => None,
            }
        },
        None => None,
    }
}

pub open spec fn pantry_dir_of(e: ConfigEnv) -> Result<Seq<char>, ConfigError> {
    match pantry_var_dir(e) {
        Some(p) => Ok(p),
        None => match e.data_local_dir {
            Some(d) => Ok(joined(d@, "pkgx/pantry"@)),
            None => Err(ConfigError::NoDataDir),
        },
    }
}

pub open spec fn pantry_db_of(e: ConfigEnv) -> Result<Seq<char>, ConfigError> {
    match pantry_var_dir(e) {
        Some(p) => Ok(joined(p, "pantry.2.db"@)),
        None => match e.cache_dir {
            Some(d) => Ok(joined(d@, "pkgx/pantry.2.db"@)),
            None => Err(ConfigError::NoCacheDir),
        },
    }
}

pub open spec fn pkgx_dir_of(e: ConfigEnv) -> Result<Seq<char>, ConfigError> {
    if e.pkgx_dir_var matches Some(p) && is_absolute(p@) {
        Ok(e.pkgx_dir_var->0@)
    } else {
        match e.home_dir {
            Some(h) => if e.home_pkgx_exists { Ok(joined(h@, ".pkgx"@)) } else {
                match e.xdg_data_home {
                    Some(x) => Ok(joined(x@, "pkgx"@)),
                    None => Ok(joined(h@, ".pkgx"@)),
                }
            },
            None => match e.xdg_data_home {
                Some(x) => Ok(joined(x@, "pkgx"@)),
                None => Err(ConfigError::NoHomeDir),
            },
        }
    }
}

fn absolute(p: &String) -> (r: bool)
    ensures
        r == is_absolute(p@),
{
    let c = chars_of(p.as_str());
    c.len() > 0 && c[0] == '/'
}

fn pantry_var(e: &ConfigEnv) -> (r: Option<String>)
    ensures
        match r {
            Some(p) => pantry_var_dir(*e) == Some(p@),
            None => pantry_var_dir(*e) is None,
        },
{
    match &e.pantry_dir_var {
        Some(p) => if absolute(p) { Some(p.clone()) } else {
            match &e.current_dir {
                Some(c) => Some(join(c.as_str(), p.as_str())),
                None => None,
            }
        },
        None => None,
    }
}

impl Config {
    /// The configuration: the pantry from `PKGX_PANTRY_DIR` (made absolute) or the local
    /// data directory; the package store from an absolute `PKGX_DIR`, else `~/.pkgx` where
    /// it exists, else `$XDG_DATA_HOME/pkgx`, else `~/.pkgx`; the distribution server from
    /// `PKGX_DIST_URL` or the default.
    pub fn new(e: &ConfigEnv) -> (r: Result<Config, ConfigError>)
        ensures
            match r {
                Ok(c) => pantry_dir_of(*e) == Ok::<_, ConfigError>(c.pantry_dir@)
                    && pantry_db_of(*e) == Ok::<_, ConfigError>(c.pantry_db_file@)
                    && pkgx_dir_of(*e) == Ok::<_, ConfigError>(c.pkgx_dir@)
                    && c.dist_url@ == match e.dist_url_var { Some(u) => u@, None => e.default_dist_url@ },
                Err(x) => pantry_dir_of(*e) == Err::<Seq<char>, _>(x) || (pantry_dir_of(*e) is Ok
                    && pantry_db_of(*e) == Err::<Seq<char>, _>(x)) || (pantry_dir_of(*e) is Ok
                    && pantry_db_of(*e) is Ok && pkgx_dir_of(*e) == Err::<Seq<char>, _>(x)),
            },
    {
        let pv = pantry_var(e);
        let pantry_dir = match &pv {
            Some(p) => p.clone(),
            None => match &e.data_local_dir {
                Some(d) => join(d.as_str(), "pkgx/pantry"),
                None => {
                    return Err(ConfigError::NoDataDir);
                },
            },
        };
        let pantry_db_file = match &pv {
            Some(p) => join(p.as_str(), "pantry.2.db"),
            None => match &e.cache_dir {
                Some(d) => join(d.as_str(), "pkgx/pantry.2.db"),
                None => {
                    return Err(ConfigError::NoCacheDir);
                },
            },
        };
        let dist_url = match &e.dist_url_var {
            Some(u) => u.clone(),
            None => e.default_dist_url.clone(),
        };
        let direct = match &e.pkgx_dir_var {
            Some(p) => if absolute(p) { Some(p.clone()) } else { None },
            None => None,
        };
        let pkgx_dir = match direct {
            Some(p) => p,
            None => match &e.home_dir {
                Some(h) => if e.home_pkgx_exists { join(h.as_str(), ".pkgx") } else {
                    match &e.xdg_data_home {
                        Some(x) => join(x.as_str(), "pkgx"),
                        None => join(h.as_str(), ".pkgx"),
                    }
                },
                None => match &e.xdg_data_home {
                    Some(x) => join(x.as_str(), "pkgx"),
                    None => {
                        return Err(ConfigError::NoHomeDir);
                    },
                },
            },
        };
        Ok(Config { pantry_dir, pantry_db_file, dist_url, pkgx_dir })
    }
}

} // verus!
