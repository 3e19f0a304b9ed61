//! Application configuration: where the memo directory lives and how
//! long the UI waits before autosaving.  Reading and writing the config
//! document is the caller's I/O; the merge rules live here.

use crate::MemoError;
use crate::ext;
use vstd::prelude::*;
use vstd::string::StringExecFns;

verus! {

/// The persisted settings.
pub struct AppConfig {
    pub memo_directory: String,
    pub auto_save_delay: u32,
}

impl AppConfig {
    /// The built-in settings under a given home directory: notes in
    /// `Documents/Memos`, autosave after one second.
    pub fn default_under(home: &str) -> (r: AppConfig)
        ensures
            r.memo_directory@ == home@ + "/Documents/Memos"@,
            r.auto_save_delay == 1000,
    {
        let mut d = home.to_owned();
        d.append("/Documents/Memos");
        AppConfig { memo_directory: d, auto_save_delay: 1000 }
    }
}

impl Clone for AppConfig {
    fn clone(&self) -> (r: AppConfig)
        ensures
            r.memo_directory@ == self.memo_directory@,
            r.auto_save_delay == self.auto_save_delay,
    {
        AppConfig {
            memo_directory: self.memo_directory.clone(),
            auto_save_delay: self.auto_save_delay,
        }
    }
}

impl Default for AppConfig {
    /// The built-in settings, under the platform's home directory (or
    /// the current directory when the platform reports none).
    fn default() -> (r: AppConfig)
        ensures
            r.auto_save_delay == 1000,
            exists|h: Seq<char>| r.memo_directory@ == h + "/Documents/Memos"@,
    {
        let home = match ext::home_dir_string() {
            Some(h) => h,
            None => ".".to_owned(),
        };
        let ghost hv = home@;
        let r = AppConfig::default_under(home.as_str());
        proof {
            assert(r.memo_directory@ == hv + "/Documents/Memos"@);
        }
        r
    }
}

/// The home directory, or the error the caller reports.
pub fn get_home_dir() -> (r: Result<String, MemoError>)
    ensures
        r matches Err(e) ==> e == MemoError::NoHomeDirectory,
{
    match ext::home_dir_string() {
        Some(h) => Ok(h),
        None => Err(MemoError::NoHomeDirectory),
    }
}

/// The per-user configuration directory: `.memo-app` under home.
pub fn get_config_dir() -> (r: Result<String, MemoError>)
    ensures
        match r {
            Ok(p) => exists|h: Seq<char>| p@ == h + "/.memo-app"@,
            Err(e) => e == MemoError::NoHomeDirectory,
        },
{
    match get_home_dir() {
        Ok(h) => {
            let ghost hv = h@;
            let mut p = h;
            p.append("/.memo-app");
            proof {
                assert(p@ == hv + "/.memo-app"@);
            }
            Ok(p)
        },
        Err(e) => Err(e),
    }
}

/// The configuration document's path: `config.json` in the
/// configuration directory.
pub fn get_config_file() -> (r: Result<String, MemoError>)
    ensures
        match r {
            Ok(p) => exists|h: Seq<char>| p@ == h + "/.memo-app"@ + "/config.json"@,
            Err(e) => e == MemoError::NoHomeDirectory,
        },
{
    match get_config_dir() {
        Ok(d) => {
            let ghost dv = d@;
            let mut p = d;
            p.append("/config.json");
            proof {
                let h = choose|h: Seq<char>| dv == h + "/.memo-app"@;
                assert(p@ == h + "/.memo-app"@ + "/config.json"@);
            }
            Ok(p)
        },
        Err(e) => Err(e),
    }
}

/// The memo directory the configuration names.  The caller creates it
/// when it is missing.
pub fn get_memo_directory(config: &AppConfig) -> (r: String)
    ensures
        r@ == config.memo_directory@,
{
    config.memo_directory.clone()
}

/// The pin store's path: the dot-file `.pins.json` in the memo
/// directory.
pub fn get_pins_file(memo_dir: &str) -> (r: String)
    ensures
        r@ == memo_dir@ + "/.pins.json"@,
{
    let mut p = memo_dir.to_owned();
    p.append("/.pins.json");
    p
}

/// The order store's path: the dot-file `.order.json` in the memo
/// directory.
pub fn get_order_file(memo_dir: &str) -> (r: String)
    ensures
        r@ == memo_dir@ + "/.order.json"@,
{
    let mut p = memo_dir.to_owned();
    p.append("/.order.json");
    p
}

/// Applies a partial update: each recognized field that is present
/// replaces the current value; everything else is kept.
pub fn merge_config(
    config: AppConfig,
    memo_directory: Option<String>,
    auto_save_delay: Option<u32>,
) -> (r: AppConfig)
    ensures
        r.memo_directory@ == match memo_directory {
            Option::Some(d) => d@,
            Option::None => config.memo_directory@,
        },
        r.auto_save_delay == match auto_save_delay {
            Option::Some(x) => x,
            Option::None => config.auto_save_delay,
        },
{
    let memo_directory = match memo_directory {
        Some(d) => d,
        None => config.memo_directory,
    };
    let auto_save_delay = match auto_save_delay {
        Some(x) => x,
        None => config.auto_save_delay,
    };
    AppConfig { memo_directory, auto_save_delay }
}

/// `(r_dir, r_delay)` is `(config_dir, config_delay)` with each field
/// kept, or replaced by the given option's value.
pub open spec fn spec_merged(
    config_dir: Seq<char>,
    config_delay: u32,
    md: Option<Seq<char>>,
    asd: Option<u32>,
    r_dir: Seq<char>,
    r_delay: u32,
) -> bool {
    &&& r_dir == match md {
        Option::Some(d) => d,
        Option::None => config_dir,
    }
    &&& r_delay == match asd {
        Option::Some(x) => x,
        Option::None => config_delay,
    }
}

/// Reads the two recognized fields out of a parsed partial document
/// (`memoDirectory` as a string, `autoSaveDelay` as an integer,
/// truncated to 32 bits as the stored type demands), merges them, and
/// hands the extracted options back beside the result, so the contract
/// can tie the merge to what was actually read out of the document.
pub fn update_config(config: AppConfig, partial: &serde_json::Value) -> (r: (
    AppConfig,
    Option<String>,
    Option<u32>,
))
    ensures
        spec_merged(
            config.memo_directory@,
            config.auto_save_delay,
            match r.1 {
                Option::Some(d) => Some(d@),
                Option::None => None,
            },
            r.2,
            r.0.memo_directory@,
            r.0.auto_save_delay,
        ),
{
    let md = match ext::value_get(partial, "memoDirectory") {
        Some(v) => ext::value_as_str(v),
        None => None,
    };
    let asd = match ext::value_get(partial, "autoSaveDelay") {
        Some(v) => match ext::value_as_u64(v) {
            Some(x) => Some(#[verifier::truncate] (x as u32)),
            None => None,
        },
        None => None,
    };
    let md_kept = match &md {
        Some(d) => Some(d.clone()),
        None => None,
    };
    let merged = merge_config(config, md, asd);
    (merged, md_kept, asd)
}

} // verus!
