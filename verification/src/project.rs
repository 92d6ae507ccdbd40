use chrono::{DateTime, Utc};
use sha2::{Digest, Sha256};
use vstd::prelude::*;

use crate::files::{get_paths, listing_view, selected_paths, FilterBy, GlobEntry, Timestamp};
use crate::index::{index_file_of, index_file_path};
use crate::paths::{file_name, join_path, path_file_name, path_join};
use crate::text::{lower_hex, lower_hex_string};

verus! {

/// An Elixir project: where its sources are, where its index is kept, and since when sources
/// count as changed.
#[derive(Debug)]
pub struct Project {
    pub root_path: String,
    pub config_path: String,
    pub index_path: String,
    pub modified_since: Option<Timestamp>,
}

/// The glob pattern that selects the Elixir sources under a project root.
pub open spec fn source_pattern_of(root_path: Seq<char>) -> Seq<char> {
    join_path(root_path, "lib"@) + "/**/*.ex"@
}

impl Project {
    /// A project rooted at `project_root_path`, with its index kept in `config_path`.
    pub fn new(project_root_path: String, config_path: String, modified_since: Option<Timestamp>) -> (project: Project)
        ensures
            project.root_path@ == project_root_path@,
            project.config_path@ == config_path@,
            project.index_path@ == index_file_of(config_path@),
            project.modified_since == modified_since,
    {
        let index_path = index_file_path(config_path.as_str());
        Project { root_path: project_root_path, config_path, index_path, modified_since }
    }

    /// The glob pattern for the project's Elixir sources: `<root>/lib/**/*.ex`.
    pub fn source_glob_pattern(&self) -> (pattern: String)
        ensures
            pattern@ == source_pattern_of(self.root_path@),
    {
        let mut pattern = path_join(self.root_path.as_str(), "lib");
        pattern.append("/**/*.ex");
        pattern
    }

    /// The source paths to index, from what a listing of the source pattern gave: the readable
    /// ones, and only those modified since `modified_since` when it is set.
    pub fn get_elixir_source_paths(&self, listing: Vec<GlobEntry>) -> (paths: Option<Vec<String>>)
        ensures
            paths matches Some(ps) && ps@.map_values(|p: String| p@) == selected_paths(
                listing_view(listing@),
                FilterBy::for_last_update(self.modified_since),
            ),
    {
        get_paths(listing, self.modified_since)
    }
}

/// The SHA-256 digest of the UTF-8 bytes of a text.
pub uninterp spec fn sha256(data: Seq<char>) -> Seq<u8>;

/// `Sha256::digest` over the UTF-8 bytes of `data`. Claimed: the digest is a function of the
/// text, and it is 32 bytes long.
#[verifier::external_body]
fn sha256_digest(data: &str) -> (digest: Vec<u8>)
    ensures
        digest@ == sha256(data@),
        digest@.len() == 32,
{
    Sha256::digest(data.as_bytes()).to_vec()
}

/// The SHA-256 digest of a path, in lower-case hexadecimal.
pub fn hash_abspath(path: &str) -> (hash: String)
    ensures
        hash@ == lower_hex(sha256(path@)),
{
    let digest = sha256_digest(path);
    lower_hex_string(digest.as_slice())
}

/// Where the per-project directories live, under the home directory.
pub fn config_root_path(home_path: &str) -> (path: String)
    ensures
        path@ == join_path(home_path@, ".config/exmodhop"@),
{
    path_join(home_path, ".config/exmodhop")
}

/// The name of a project's directory of index files: the project directory's name, a hyphen,
/// and the digest of the project path.
pub open spec fn config_dir_name(project_name: Seq<char>, project_root_path: Seq<char>) -> Seq<char> {
    project_name + "-"@ + lower_hex(sha256(project_root_path))
}

/// The directory for a project's index files: `<project_dirname>-<project_path_hash>` inside
/// `config_root_path`.
pub fn project_config_dir(config_root_path: &str, project_dirname: &str, project_path_hash: &str) -> (path: String)
    ensures
        path@ == join_path(config_root_path@, project_dirname@ + "-"@ + project_path_hash@),
{
    let mut project_config_pathname = project_dirname.to_owned();
    project_config_pathname.append("-");
    project_config_pathname.append(project_path_hash);
    path_join(config_root_path, project_config_pathname.as_str())
}

/// The directory for a project's index files, inside `config_root_path`; none when the project
/// path does not end in a name.
pub fn project_config_path(project_root_path: &str, config_root_path: &str) -> (path: Option<String>)
    ensures
        match file_name(project_root_path@) {
            Some(name) => path matches Some(p) && p@ == join_path(
                config_root_path@,
                config_dir_name(name, project_root_path@),
            ),
            None => path is None,
        },
{
    let project_dirname = match path_file_name(project_root_path) {
        Some(name) => name,
        None => {
            return None;
        },
    };
    let project_path_hash = hash_abspath(project_root_path);
    Some(project_config_dir(config_root_path, project_dirname.as_str(), project_path_hash.as_str()))
}

/// The instant, in whole seconds since the Unix epoch and nanoseconds within the second, that
/// chrono reads from a text as a `DateTime<Utc>`.
pub uninterp spec fn utc_instant(input: Seq<char>) -> Option<(i64, u32)>;

/// `str::parse::<DateTime<Utc>>` (chrono's relaxed RFC 3339), then `DateTime::timestamp` and
/// `DateTime::timestamp_subsec_nanos`. Claimed: the result is a function of the text.
#[verifier::external_body]
fn parse_utc(input: &str) -> (instant: Option<(i64, u32)>)
    ensures
        instant == utc_instant(input@),
{
    match input.parse::<DateTime<Utc>>() {
        Ok(datetime) => Some((datetime.timestamp(), datetime.timestamp_subsec_nanos())),
        Err(_) => None,
    }
}

/// The instant `secs` seconds and `nanos` nanoseconds after the Unix epoch (what
/// `SystemTime::from` a `DateTime` gives).
pub fn timestamp_of(secs: i64, nanos: u32) -> (t: Timestamp)
    ensures
        t.nanos == secs * 1_000_000_000 + nanos,
{
    assert(-0x8000_0000_0000_0000 * 1_000_000_000 <= secs * 1_000_000_000 <= 0x7fff_ffff_ffff_ffff
        * 1_000_000_000) by (nonlinear_arith)
        requires
            -0x8000_0000_0000_0000 <= secs <= 0x7fff_ffff_ffff_ffff,
    ;
    Timestamp { nanos: (secs as i128) * 1_000_000_000 + (nanos as i128) }
}

/// The instant a text names, read as a UTC date and time; none when it names none.
pub fn parse_datetime(input: String) -> (t: Option<Timestamp>)
    ensures
        match utc_instant(input@) {
            Some((secs, nanos)) => t matches Some(x) && x.nanos == secs * 1_000_000_000 + nanos,
            None => t is None,
        },
{
    match parse_utc(input.as_str()) {
        Some((secs, nanos)) => Some(timestamp_of(secs, nanos)),
        None => None,
    }
}

/// Since when sources count as changed: the instant in the `MODIFIED_SINCE` setting when it is
/// set (none if it does not parse), otherwise when the module listing was last written.
pub fn modified_since(setting: Option<String>, index_modified: Option<Timestamp>) -> (t: Option<Timestamp>)
    ensures
        match setting {
            Some(input) => match utc_instant(input@) {
                Some((secs, nanos)) => t matches Some(x) && x.nanos == secs * 1_000_000_000 + nanos,
                None => t is None,
            },
            None => t == index_modified,
        },
{
    match setting {
        Some(input) => parse_datetime(input),
        None => index_modified,
    }
}

} // verus!
