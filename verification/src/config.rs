//! The program's configuration: where it lives and what it must say (the
//! SSID of the office network).
use vstd::prelude::*;

verus! {

/// The `[office]` section of the configuration file.
#[derive(Debug, Clone)]
pub struct OfficeSection {
    pub ssid: Option<String>,
}

/// The configuration file as read.
#[derive(Debug, Clone)]
pub struct RawConfig {
    pub office: Option<OfficeSection>,
}

/// The configuration.
#[derive(Debug, Clone)]
pub struct Config {
    pub office_ssid: String,
}

/// Where a base directory lies: the directory an XDG variable names, or a
/// fixed directory (`.config`, `.cache`) under the home directory.
#[derive(Debug, Clone)]
pub enum BaseDir {
    Xdg(String),
    UnderHome(String),
}

/// Where the configuration directories lie, from `$XDG_CONFIG_HOME` and
/// `$HOME` (`None` when unset): a non-empty `$XDG_CONFIG_HOME`, else
/// `.config` under a non-empty `$HOME`, else `None` (no home directory).
pub fn config_base_dir(xdg: Option<String>, home: Option<String>) -> (r: Option<BaseDir>)
    ensures
        match xdg {
            Some(x) if x@.len() > 0 => r matches Some(BaseDir::Xdg(p)) && p@ == x@,
            _ => match home {
                Some(h) if h@.len() > 0 => r matches Some(BaseDir::UnderHome(p)) && p@ == h@,
                _ => r is None,
            },
        },
{
    if let Some(x) = xdg {
        if x.unicode_len() > 0 {
            return Some(BaseDir::Xdg(x));
        }
    }
    match home {
        Some(h) => {
            if h.unicode_len() > 0 {
                Some(BaseDir::UnderHome(h))
            } else {
                None
            }
        },
        None => None,
    }
}

/// Where the cache directories lie, from `$XDG_CACHE_HOME` and `$HOME`
/// (`None` when unset): a non-empty `$XDG_CACHE_HOME`, else `.cache` under
/// `$HOME`, else `None` (`$HOME` is not set).
pub fn cache_base_dir(xdg: Option<String>, home: Option<String>) -> (r: Option<BaseDir>)
    ensures
        match xdg {
            Some(x) if x@.len() > 0 => r matches Some(BaseDir::Xdg(p)) && p@ == x@,
            _ => match home {
                Some(h) => r matches Some(BaseDir::UnderHome(p)) && p@ == h@,
                None => r is None,
            },
        },
{
    if let Some(x) = xdg {
        if x.unicode_len() > 0 {
            return Some(BaseDir::Xdg(x));
        }
    }
    match home {
        Some(h) => Some(BaseDir::UnderHome(h)),
        None => None,
    }
}

/// The configuration a file gives: its `[office]` section must set a
/// non-empty `ssid`; `None` when it does not.
pub fn config_from_raw(raw: RawConfig) -> (r: Option<Config>)
    ensures
        match raw.office {
            Some(OfficeSection { ssid: Some(s) }) if s@.len() > 0 => r matches Some(c)
                && c.office_ssid@ == s@,
            _ => r is None,
        },
{
    match raw.office {
        Some(section) => match section.ssid {
            Some(s) => {
                if s.unicode_len() > 0 {
                    Some(Config { office_ssid: s })
                } else {
                    None
                }
            },
            None => None,
        },
        None => None,
    }
}

} // verus!
