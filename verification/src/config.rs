//! The per-invocation configuration: every directory and file the tool
//! touches, derived once from the user's base directories and passed by
//! reference — no ambient global state.

use vstd::prelude::*;
use vstd::string::StringExecFns;

verus! {

/// Every path the tool works under.
pub struct Config {
    pub appimages_dir: String,
    pub desktop_files_dir: String,
    pub bin_dir: String,
    pub config_dir: String,
    pub cache_dir: String,
    pub sources_file: String,
    pub collectives_file: String,
    pub unified_index_cache: String,
    pub database_file: String,
}

/// The mathematical value of a configuration.
#[verifier::ext_equal]
pub ghost struct ConfigV {
    pub appimages_dir: Seq<char>,
    pub desktop_files_dir: Seq<char>,
    pub bin_dir: Seq<char>,
    pub config_dir: Seq<char>,
    pub cache_dir: Seq<char>,
    pub sources_file: Seq<char>,
    pub collectives_file: Seq<char>,
    pub unified_index_cache: Seq<char>,
    pub database_file: Seq<char>,
}

impl View for Config {
    type V = ConfigV;

    open spec fn view(&self) -> ConfigV {
        ConfigV {
            appimages_dir: self.appimages_dir@,
            desktop_files_dir: self.desktop_files_dir@,
            bin_dir: self.bin_dir@,
            config_dir: self.config_dir@,
            cache_dir: self.cache_dir@,
            sources_file: self.sources_file@,
            collectives_file: self.collectives_file@,
            unified_index_cache: self.unified_index_cache@,
            database_file: self.database_file@,
        }
    }
}

/// Optional overrides read from the user's configuration file.
pub struct ConfigFile {
    pub appimages_dir: Option<String>,
    pub desktop_files_dir: Option<String>,
    pub bin_dir: Option<String>,
}

/// Two path segments joined by a separator.
pub open spec fn joined(a: Seq<char>, b: Seq<char>) -> Seq<char> {
    a + seq!['/'] + b
}

/// Joins two path segments.
pub fn join_path(a: &str, b: &str) -> (r: String)
    ensures
        r@ == joined(a@, b@),
{
    let mut s = String::new();
    s.append(a);
    s.append("/");
    s.append(b);
    proof {
        reveal_strlit("/");
        assert("/"@ =~= seq!['/']);
        assert(s@ =~= joined(a@, b@));
    }
    s
}

pub open spec fn seg_app() -> Seq<char> {
    seq!['a', 'i', 'p', 'k', 'g']
}

impl Config {
    /// The layout under the user's configuration, cache, data and home
    /// directories: the tool's own subtree of each, the desktop-entry
    /// directory, the personal executable directory, and the persisted
    /// files inside the subtrees.
    pub fn from_dirs(config_base: &str, cache_base: &str, data_base: &str, home: &str) -> (r:
        Config)
        ensures
            r@.config_dir == joined(config_base@, seg_app()),
            r@.cache_dir == joined(cache_base@, seg_app()),
            r@.appimages_dir == joined(joined(data_base@, seg_app()), "appimages"@),
            r@.desktop_files_dir == joined(data_base@, "applications"@),
            r@.bin_dir == joined(home@, ".local/bin"@),
            r@.sources_file == joined(r@.config_dir, "sources.yaml"@),
            r@.collectives_file == joined(r@.config_dir, "collectives.yaml"@),
            r@.unified_index_cache == joined(r@.cache_dir, "unified_index.yaml"@),
            r@.database_file == joined(r@.config_dir, "database.yaml"@),
    {
        let app = {
            let a = "aipkg";
            proof {
                reveal_strlit("aipkg");
                assert(a@ =~= seg_app());
            }
            a
        };
        let config_dir = join_path(config_base, app);
        let cache_dir = join_path(cache_base, app);
        let data_dir = join_path(data_base, app);
        let appimages_dir = join_path(data_dir.as_str(), "appimages");
        let desktop_files_dir = join_path(data_base, "applications");
        let bin_dir = join_path(home, ".local/bin");
        let sources_file = join_path(config_dir.as_str(), "sources.yaml");
        let collectives_file = join_path(config_dir.as_str(), "collectives.yaml");
        let unified_index_cache = join_path(cache_dir.as_str(), "unified_index.yaml");
        let database_file = join_path(config_dir.as_str(), "database.yaml");
        Config {
            appimages_dir,
            desktop_files_dir,
            bin_dir,
            config_dir,
            cache_dir,
            sources_file,
            collectives_file,
            unified_index_cache,
            database_file,
        }
    }

    /// Replaces each directory for which the configuration file names an
    /// override; everything else stays.
    pub fn apply_overrides(&mut self, overrides: ConfigFile)
        ensures
            final(self)@.appimages_dir == (match overrides.appimages_dir {
                Some(d) => d@,
                None => old(self)@.appimages_dir,
            }),
            final(self)@.desktop_files_dir == (match overrides.desktop_files_dir {
                Some(d) => d@,
                None => old(self)@.desktop_files_dir,
            }),
            final(self)@.bin_dir == (match overrides.bin_dir {
                Some(d) => d@,
                None => old(self)@.bin_dir,
            }),
            final(self)@.config_dir == old(self)@.config_dir,
            final(self)@.cache_dir == old(self)@.cache_dir,
            final(self)@.sources_file == old(self)@.sources_file,
            final(self)@.collectives_file == old(self)@.collectives_file,
            final(self)@.unified_index_cache == old(self)@.unified_index_cache,
            final(self)@.database_file == old(self)@.database_file,
    {
        match overrides.appimages_dir {
            Some(d) => {
                self.appimages_dir = d;
            },
            None => {},
        }
        match overrides.desktop_files_dir {
            Some(d) => {
                self.desktop_files_dir = d;
            },
            None => {},
        }
        match overrides.bin_dir {
            Some(d) => {
                self.bin_dir = d;
            },
            None => {},
        }
    }
}

} // verus!
