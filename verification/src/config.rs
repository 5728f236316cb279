//! Configuration bootstrap: the default configuration, the search-path
//! candidates for locating a configuration file, and the classification
//! of a file by its extension.  Reading the file itself, and probing the
//! disk for the candidates, belong to the embedding program.

use vstd::prelude::*;
use vstd::string::StringExecFns;

use crate::model::Configuration;
use crate::model::s_eq;

verus! {

/// The structured text formats a configuration file may use.
#[derive(Clone, Copy, Debug, PartialEq, Eq, Structural)]
pub enum FileFormat {
    Json,
    Yaml,
    Unknown,
}

/// Classify a configuration file by its lower-cased extension.
pub fn format_of_extension(ext: &str) -> (r: FileFormat)
    ensures
        match r {
            FileFormat::Json => ext@ == "json"@,
            FileFormat::Yaml => ext@ == "yaml"@,
            FileFormat::Unknown => !(ext@ == "json"@ || ext@ == "yaml"@),
        },
{
    proof {
        reveal_strlit("json");
        reveal_strlit("yaml");
    }
    if s_eq(ext, "json") {
        FileFormat::Json
    } else if s_eq(ext, "yaml") {
        FileFormat::Yaml
    } else {
        FileFormat::Unknown
    }
}

/// The places where a configuration file is looked for, in priority
/// order: the current directory, `garden` and `etc/garden` under it, the
/// user's `.config/garden` and `etc/garden`, and the system-wide
/// `/etc/garden`.  The embedding program keeps the first entry and every
/// later one that exists on disk.
pub fn search_path_candidates(current_dir: &str, home_dir: &str) -> (r: Vec<String>)
    ensures
        r@.len() == 6,
        r@[0]@ == current_dir@,
        r@[1]@ == current_dir@ + "/garden"@,
        r@[2]@ == current_dir@ + "/etc/garden"@,
        r@[3]@ == home_dir@ + "/.config/garden"@,
        r@[4]@ == home_dir@ + "/etc/garden"@,
        r@[5]@ == "/etc/garden"@,
{
    let mut out: Vec<String> = Vec::new();
    out.push(String::from_str(current_dir));

    let mut p = String::from_str(current_dir);
    p.append("/garden");
    out.push(p);

    let mut p = String::from_str(current_dir);
    p.append("/etc/garden");
    out.push(p);

    let mut p = String::from_str(home_dir);
    p.append("/.config/garden");
    out.push(p);

    let mut p = String::from_str(home_dir);
    p.append("/etc/garden");
    out.push(p);

    out.push(String::from_str("/etc/garden"));
    out
}

/// A freshly loaded, unevaluated configuration: the defaults, the
/// verbosity, and the file it will be read from, when one was found.
/// Configurations built here use `/bin/sh` as their shell.  The
/// embedding program fills in the entities from the file and then calls
/// `initialize`.
pub fn new(path: Option<String>, verbose: bool) -> (r: Configuration)
    ensures
        r.verbose == verbose,
        path is Some ==> r.path == path,
        path is None ==> r.path is None && r.dirname is None,
        r.shell@ == "/bin/sh"@,
        r.root.expr@.len() == 0,
        r.root.value is None,
        r.variables@.len() == 0,
        r.environment@.len() == 0,
        r.commands@.len() == 0,
        r.trees@.len() == 0,
        r.gardens@.len() == 0,
        r.groups@.len() == 0,
        r.templates@.len() == 0,
{
    let mut config = Configuration::new();
    config.shell = String::from_str("/bin/sh");
    config.verbose = verbose;
    if let Some(p) = path {
        config.set_path(p);
    }
    config
}

} // verus!
