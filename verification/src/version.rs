//! The text that `--version` prints.
use vstd::prelude::*;

use vstd::string::StringExecFns;

verus! {

pub open spec fn or_unknown(s: Option<&str>) -> Seq<char> {
    match s {
        Some(t) => t@,
        None => "unknown"@,
    }
}

/// `<name> <version> (<commit> <date>)`, with `unknown` for a commit or a
/// date that the build did not record.
pub open spec fn version_text(name: &str, pkg_version: &str, commit: Option<&str>, date: Option<&str>) -> Seq<char> {
    name@ + " "@ + pkg_version@ + " ("@ + or_unknown(commit) + " "@ + or_unknown(date) + ")"@
}

/// The version line of the program named `name` at `pkg_version`, built from
/// `commit` on `date`.
pub fn version(name: &str, pkg_version: &str, commit: Option<&str>, date: Option<&str>) -> (s: String)
    ensures
        s@ == version_text(name, pkg_version, commit, date),
{
    let commit = match commit {
        Some(c) => c,
        None => "unknown",
    };
    let date = match date {
        Some(d) => d,
        None => "unknown",
    };
    let mut s = String::from_str(name);
    s.append(" ");
    s.append(pkg_version);
    s.append(" (");
    s.append(commit);
    s.append(" ");
    s.append(date);
    s.append(")");
    s
}

} // verus!
