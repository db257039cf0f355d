//! Derivation of the default configuration and output paths.
//!
//! Paths are plain strings here, with `/` as the separator: the
//! directory part of a path is everything up to and including its last
//! slash (empty when there is none), and the file name is the rest.
//! The surrounding program performs the actual file-system checks and
//! hands their outcome in.

use vstd::prelude::*;

verus! {

/// Why a path could not be derived.
#[derive(Debug)]
pub enum PathError {
    /// The input path has no usable file name.
    NoFileName,
    /// The input path has no parent directory.
    NoParent,
    /// No configuration file exists at the derived default path
    /// (carried along).
    ConfigNotFound(String),
}

impl PathError {
    /// A human-readable description of the failure.
    pub fn message(&self) -> (r: String)
        ensures
            self matches PathError::ConfigNotFound(p) ==> r@ == "Config file not found at "@
                + p@ + ". Please create it or specify with --config"@,
    {
        match self {
            PathError::NoFileName => "Cannot determine filename from input path".to_owned(),
            PathError::NoParent => "Cannot determine parent directory of input file".to_owned(),
            PathError::ConfigNotFound(p) => {
                let mut m = "Config file not found at ".to_owned();
                m.append(p.as_str());
                m.append(". Please create it or specify with --config");
                m
            },
        }
    }
}

/// Index of the last occurrence of `c` in `s`, or `-1` if absent.
pub open spec fn last_index_of(s: Seq<char>, c: char) -> int
    decreases s.len(),
{
    if s.len() == 0 {
        -1
    } else if s.last() == c {
        s.len() - 1
    } else {
        last_index_of(s.drop_last(), c)
    }
}

/// The file-name part of a path: everything after the last slash.
pub open spec fn file_name_spec(p: Seq<char>) -> Seq<char> {
    p.skip(last_index_of(p, '/') + 1)
}

/// The directory part of a path: everything up to and including the
/// last slash, empty when there is none.
pub open spec fn dir_spec(p: Seq<char>) -> Seq<char> {
    p.take(last_index_of(p, '/') + 1)
}

/// The stem of a file name: everything before the last dot, except
/// that a lone leading dot does not start an extension.
pub open spec fn stem_spec(name: Seq<char>) -> Seq<char> {
    let d = last_index_of(name, '.');
    if d <= 0 {
        name
    } else {
        name.take(d)
    }
}

/// Whether a default output path can be derived: the input must have a
/// file name that is not `.` or `..`.
pub open spec fn output_path_ok(input: Seq<char>) -> bool {
    let name = file_name_spec(input);
    name.len() > 0 && name != "."@ && name != ".."@
}

/// The default output path: the input with its file name replaced by
/// `<stem>-orders.csv`.
pub open spec fn output_path_spec(input: Seq<char>) -> Seq<char> {
    dir_spec(input) + stem_spec(file_name_spec(input)) + "-orders.csv"@
}

/// Whether a default configuration path can be derived: the input must
/// have a parent directory.
pub open spec fn config_path_ok(input: Seq<char>) -> bool {
    input.len() > 0 && input != "/"@
}

/// The default configuration path: `config.toml` beside the input.
pub open spec fn config_path_spec(input: Seq<char>) -> Seq<char> {
    dir_spec(input) + "config.toml"@
}

/// `last_index_of` is a position within the string.
proof fn lemma_last_index_range(s: Seq<char>, c: char)
    ensures
        -1 <= last_index_of(s, c) < s.len(),
        last_index_of(s, c) >= 0 ==> s[last_index_of(s, c)] == c,
    decreases s.len(),
{
    if s.len() > 0 && s.last() != c {
        lemma_last_index_range(s.drop_last(), c);
    }
}

/// One past the last occurrence of `c` in `s`, or `0` if absent.
fn last_index_plus1(s: &str, c: char) -> (r: usize)
    ensures
        r as int == last_index_of(s@, c) + 1,
        r <= s@.len(),
{
    let n = s.unicode_len();
    let mut j = n;
    proof {
        assert(s@.take(n as int) =~= s@);
    }
    while j > 0
        invariant
            j <= n,
            n == s@.len(),
            last_index_of(s@, c) == last_index_of(s@.take(j as int), c),
        decreases j,
    {
        proof {
            assert(s@.take(j as int).last() == s@[j as int - 1]);
            assert(s@.take(j as int).drop_last() =~= s@.take(j as int - 1));
        }
        let ch = s.get_char(j - 1);
        if ch == c {
            return j;
        }
        j = j - 1;
    }
    proof {
        assert(s@.take(0) =~= Seq::<char>::empty());
    }
    0
}

/// The output path for the orders: the `--output` argument when given,
/// else the input path with its file name replaced by
/// `<stem>-orders.csv`.  Fails when no file name can be made out.
pub fn determine_output_path(path_buf: Option<String>, path: &String) -> (r: Result<
    String,
    PathError,
>)
    ensures
        path_buf matches Some(p) ==> (r matches Ok(q) && q@ == p@),
        path_buf is None ==> match r {
            Ok(q) => output_path_ok(path@) && q@ == output_path_spec(path@),
            Err(e) => (e matches PathError::NoFileName) && !output_path_ok(path@),
        },
{
    match path_buf {
        Some(p) => Ok(p),
        None => {
            let s = path.as_str();
            let n = s.unicode_len();
            let ls = last_index_plus1(s, '/');
            let name = s.substring_char(ls, n);
            proof {
                assert(name@ =~= file_name_spec(path@));
            }
            if name.unicode_len() == 0 || crate::extract::str_eq(name, ".") || crate::extract::str_eq(
                name,
                "..",
            ) {
                return Err(PathError::NoFileName);
            }
            let nn = name.unicode_len();
            let ld = last_index_plus1(name, '.');
            let stem = if ld <= 1 {
                name
            } else {
                name.substring_char(0, ld - 1)
            };
            proof {
                assert(name@.take(nn as int) =~= name@);
                if last_index_of(name@, '.') > 0 {
                    assert(stem@ =~= stem_spec(file_name_spec(path@)));
                } else {
                    assert(stem@ =~= stem_spec(file_name_spec(path@)));
                }
            }
            let dir = s.substring_char(0, ls);
            let mut out = dir.to_owned();
            out.append(stem);
            out.append("-orders.csv");
            proof {
                assert(dir@ =~= dir_spec(path@));
                assert(out@ =~= output_path_spec(path@));
            }
            Ok(out)
        },
    }
}

/// The configuration path: the `--config` argument when given, else
/// `config.toml` beside the input.  `default_exists` reports whether a
/// file exists at that default path; when it does not, the derived
/// path is handed back inside the error.
pub fn determine_config_path(
    input_path: &String,
    config_arg: Option<String>,
    default_exists: bool,
) -> (r: Result<String, PathError>)
    ensures
        config_arg matches Some(p) ==> (r matches Ok(q) && q@ == p@),
        config_arg is None ==> match r {
            Ok(q) => config_path_ok(input_path@) && default_exists && q@ == config_path_spec(
                input_path@,
            ),
            Err(e) => match e {
                PathError::NoParent => !config_path_ok(input_path@),
                PathError::ConfigNotFound(p) => config_path_ok(input_path@) && !default_exists
                    && p@ == config_path_spec(input_path@),
                PathError::NoFileName => false,
            },
        },
{
    match config_arg {
        Some(p) => Ok(p),
        None => {
            let s = input_path.as_str();
            let n = s.unicode_len();
            if n == 0 || crate::extract::str_eq(s, "/") {
                return Err(PathError::NoParent);
            }
            let ls = last_index_plus1(s, '/');
            let dir = s.substring_char(0, ls);
            let mut out = dir.to_owned();
            out.append("config.toml");
            proof {
                assert(dir@ =~= dir_spec(input_path@));
                assert(out@ =~= config_path_spec(input_path@));
            }
            if !default_exists {
                return Err(PathError::ConfigNotFound(out));
            }
            Ok(out)
        },
    }
}

} // verus!
