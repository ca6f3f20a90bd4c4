//! Where the caches and the retry queue are kept, below the user's data
//! directory. Paths are texts with `/` between their parts.

use vstd::prelude::*;
use vstd::string::*;

verus! {

/// `base` with the relative `name` below it: a `/` goes between the two
/// unless `base` is empty or ends in one.
pub open spec fn joined(base: Seq<char>, name: Seq<char>) -> Seq<char> {
    if base.len() == 0 || base.last() == '/' {
        base + name
    } else {
        base + seq!['/'] + name
    }
}

/// The data directory: the configured one where there is one, else
/// `.local/share` below the home directory, else below the working directory.
pub open spec fn data_home(xdg: Option<Seq<char>>, home: Option<Seq<char>>) -> Seq<char> {
    match xdg {
        Some(dir) => dir,
        None => match home {
            Some(dir) => joined(joined(dir, ".local"@), "share"@),
            None => joined(".local"@, "share"@),
        },
    }
}

/// The directory of this tool below the data directory.
pub open spec fn tool_dir(data_home: Seq<char>) -> Seq<char> {
    joined(data_home, "godspeed-cli"@)
}

/// The path of the relative `name` below `base`.
pub fn join_path(base: &str, name: &str) -> (r: String)
    ensures
        r@ == joined(base@, name@),
{
    let n: usize = base.unicode_len();
    let mut r = base.to_owned();
    if n > 0 && base.get_char(n - 1) != '/' {
        proof {
            reveal_strlit("/");
        }
        assert("/"@ =~= seq!['/']);
        r.append("/");
    }
    r.append(name);
    r
}

/// The data directory, given what the environment holds under
/// `XDG_DATA_HOME` and under `HOME`.
pub fn get_xdg_data_home(xdg: Option<&str>, home: Option<&str>) -> (r: String)
    ensures
        r@ == data_home(
            match xdg {
                Some(s) => Some(s@),
                None => None,
            },
            match home {
                Some(s) => Some(s@),
                None => None,
            },
        ),
{
    match xdg {
        Some(dir) => dir.to_owned(),
        None => match home {
            Some(dir) => {
                let local = join_path(dir, ".local");
                join_path(local.as_str(), "share")
            },
            None => join_path(".local", "share"),
        },
    }
}

/// The file of the retry queue.
pub fn get_cache_path(data_home: &str) -> (r: String)
    ensures
        r@ == joined(tool_dir(data_home@), "cache"@),
{
    let dir = join_path(data_home, "godspeed-cli");
    join_path(dir.as_str(), "cache")
}

/// The file of the list cache.
pub fn get_lists_path(data_home: &str) -> (r: String)
    ensures
        r@ == joined(tool_dir(data_home@), "lists.toml"@),
{
    let dir = join_path(data_home, "godspeed-cli");
    join_path(dir.as_str(), "lists.toml")
}

/// The file of the label cache.
pub fn get_labels_path(data_home: &str) -> (r: String)
    ensures
        r@ == joined(tool_dir(data_home@), "labels.toml"@),
{
    let dir = join_path(data_home, "godspeed-cli");
    join_path(dir.as_str(), "labels.toml")
}

} // verus!
