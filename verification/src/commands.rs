//! The arguments of the generator's `generate` and `batch` commands and
//! the decisions taken on them: which config format a file is read in,
//! whether XML is written, and the seeds and names of a batch's models.

use vstd::prelude::*;

use crate::text::{decimal, owned, push_decimal};

verus! {

/// The format of a configuration file.
#[derive(Debug, Clone, Copy, PartialEq, Eq)]
pub enum ConfigFormat {
    Toml,
    Json,
}

/// What `generate` writes.
#[derive(Debug, Clone, Copy, PartialEq, Eq)]
pub enum GenerateOutputFormat {
    /// An Open-PSA MEF XML file.
    Xml,
    /// No model file, only a summary (`none` on the command line).
    SummaryOnly,
}

/// The arguments of `generate`.
#[derive(Debug, Clone, PartialEq, Eq)]
pub struct GenerateArgs {
    /// Path of the configuration file.
    pub config: String,
    /// Where to write the model, if anywhere.
    pub out: Option<String>,
    pub format: GenerateOutputFormat,
    /// Whether to build an event tree too.
    pub event_tree: bool,
}

/// The arguments of `batch`.
#[derive(Debug, Clone, PartialEq, Eq)]
pub struct BatchArgs {
    /// Path of the configuration file.
    pub config: String,
    /// Number of models (at least 1).
    pub count: usize,
    /// Directory the model files go to.
    pub out_dir: String,
    /// Whether to write the batch's list of models (`manifest` plus `.json`).
    pub manifest: bool,
    /// Whether to build event trees too.
    pub event_tree: bool,
}

// ─── Config format ───────────────────────────────────────────────────────────

/// `c` with an ASCII upper-case letter made lower case.
pub open spec fn ascii_lower(c: char) -> char {
    if 'A' <= c && c <= 'Z' {
        ((c as u32) + 32) as char
    } else {
        c
    }
}

/// `e` is `json` up to ASCII case.
pub open spec fn is_json_extension(e: Seq<char>) -> bool {
    e.len() == 4 && ascii_lower(e[0]) == 'j' && ascii_lower(e[1]) == 's' && ascii_lower(e[2]) == 'o'
        && ascii_lower(e[3]) == 'n'
}

fn lower(c: char) -> (r: char)
    ensures
        r == ascii_lower(c),
{
    if 'A' <= c && c <= 'Z' {
        proof {
            assert((c as u32) + 32 <= 'z' as u32);
        }
        ((c as u32 + 32) as u8) as char
    } else {
        c
    }
}

/// `path` is a file name alone, `p.e`: it holds no character that any
/// platform reads as a separator of components or as a prefix (`/`, `\`,
/// `:`), its stem `p` is not empty, and `e` is a non-empty text without a dot.
pub open spec fn is_plain_name_with_extension(path: Seq<char>, e: Seq<char>) -> bool {
    &&& !path.contains('/') && !path.contains('\\') && !path.contains(':')
    &&& e.len() > 0 && !e.contains('.')
    &&& exists|p: Seq<char>| p.len() > 0 && #[trigger] (p + "."@ + e) == path
}

/// `path` is directories and then, after a `/`, the file name `n`, a plain
/// name `p.e`; the path holds no `\` or `:` and does not start with `//`,
/// so no platform reads a prefix (a drive, a network share, a verbatim
/// path) in it, and `/` separates components everywhere.
pub open spec fn is_path_with_extension(path: Seq<char>, e: Seq<char>) -> bool {
    &&& !path.contains('\\') && !path.contains(':')
    &&& !(path.len() >= 2 && path[0] == '/' && path[1] == '/')
    &&& exists|d: Seq<char>, n: Seq<char>|
        #[trigger] (d + "/"@ + n) == path && is_plain_name_with_extension(n, e)
}

/// `path`'s file name is `p.e`, alone or after directories, in a form that
/// reads the same on every platform.
pub open spec fn names_extension(path: Seq<char>, e: Seq<char>) -> bool {
    is_plain_name_with_extension(path, e) || is_path_with_extension(path, e)
}

/// `Path::extension` on a path given as text: the part of its file name
/// (its last component, trailing separators and `.` components set aside)
/// after the last dot, when the part before it is not empty.  What
/// separates components and what makes a prefix depends on the platform,
/// so the contract states what holds everywhere: an extension follows a dot
/// in the path and holds no dot; and a path whose file name is `p.e` (`p`
/// not empty, `e` a non-empty text without a dot), alone or after
/// directories and a `/`, with no `\` or `:` and no leading `//`, has the
/// extension `e`.  Of a path with a drive, a share or `\` separators it
/// does not say which extension comes back.
#[verifier::external_body]
fn file_extension(path: &str) -> (r: Option<String>)
    ensures
        r matches Some(e) ==> (exists|p: Seq<char>, q: Seq<char>|
            #[trigger] (p + "."@ + e@ + q) == path@) && !e@.contains('.'),
        match r {
            Some(x) => forall|e: Seq<char>| #[trigger] names_extension(path@, e) ==> x@ == e,
            None => forall|e: Seq<char>| !#[trigger] names_extension(path@, e),
        },
{
    std::path::Path::new(path).extension().and_then(|e| e.to_str()).map(|e| e.to_string())
}

/// The format of a configuration file with this extension: JSON for
/// `json` in any ASCII case, TOML otherwise.
pub fn config_format_for_extension(extension: Option<&str>) -> (f: ConfigFormat)
    ensures
        f == (if extension matches Some(e) && is_json_extension(e@) {
            ConfigFormat::Json
        } else {
            ConfigFormat::Toml
        }),
{
    match extension {
        Some(e) => {
            if e.unicode_len() == 4 && lower(e.get_char(0)) == 'j' && lower(e.get_char(1)) == 's'
                && lower(e.get_char(2)) == 'o' && lower(e.get_char(3)) == 'n' {
                ConfigFormat::Json
            } else {
                ConfigFormat::Toml
            }
        },
        None => ConfigFormat::Toml,
    }
}

/// The format of the configuration file at `path`: JSON when its extension
/// is `json` in any ASCII case, TOML otherwise (stated for every path whose
/// file name reads the same on every platform, see [`names_extension`]).
pub fn config_format_for_path(path: &str) -> (f: ConfigFormat)
    ensures
        f == ConfigFormat::Json ==> exists|p: Seq<char>, e: Seq<char>, q: Seq<char>|
            #[trigger] (p + "."@ + e + q) == path@ && is_json_extension(e),
        forall|e: Seq<char>|
            #[trigger] names_extension(path@, e) ==> f == (if is_json_extension(e) {
                ConfigFormat::Json
            } else {
                ConfigFormat::Toml
            }),
{
    let extension = file_extension(path);
    match extension {
        Some(e) => config_format_for_extension(Some(e.as_str())),
        None => config_format_for_extension(None),
    }
}

// ─── generate ────────────────────────────────────────────────────────────────

impl GenerateArgs {
    /// The path to write XML to: `out`, when it is given and the format is
    /// XML.
    pub fn xml_output_path(&self) -> (r: Option<String>)
        ensures
            match r {
                Some(p) => self.format == GenerateOutputFormat::Xml && (self.out matches Some(o)
                    && p@ == o@),
                None => self.format != GenerateOutputFormat::Xml || self.out is None,
            },
    {
        match (&self.out, self.format) {
            (Some(o), GenerateOutputFormat::Xml) => Some(o.clone()),
            _ => None,
        }
    }
}

// ─── batch ───────────────────────────────────────────────────────────────────

/// The outcome of checking a batch's model count.
pub open spec fn batch_count_check(count: usize) -> Result<(), Seq<char>> {
    if count == 0 {
        Err("--count must be >= 1"@)
    } else {
        Ok(())
    }
}

impl BatchArgs {
    /// Fails when the batch has no model.
    pub fn check_count(&self) -> (r: Result<(), String>)
        ensures
            match batch_count_check(self.count) {
                Ok(()) => r is Ok,
                Err(m) => r matches Err(s) && s@ == m,
            },
    {
        if self.count == 0 {
            return Err(owned("--count must be >= 1"));
        }
        Ok(())
    }
}

/// The seed of model `index` of a batch: the base seed plus the index.
pub fn batch_seed(base_seed: u64, index: usize) -> (s: u64)
    requires
        base_seed + index <= u64::MAX,
    ensures
        s == base_seed + index,
{
    base_seed + index as u64
}

/// The name of model `index`'s fault tree base: `{model_name}-{index + 1}`.
pub fn batch_tree_name(model_name: &str, index: usize) -> (s: String)
    requires
        index < usize::MAX,
    ensures
        s@ == model_name@ + "-"@ + decimal((index + 1) as nat),
{
    let mut s = owned(model_name);
    s.append("-");
    push_decimal(&mut s, index as u64 + 1);
    s
}

/// The file name of model `index`: `{model_name}_{index + 1}.xml`.
pub fn batch_file_name(model_name: &str, index: usize) -> (s: String)
    requires
        index < usize::MAX,
    ensures
        s@ == model_name@ + "_"@ + decimal((index + 1) as nat) + ".xml"@,
{
    let mut s = owned(model_name);
    s.append("_");
    push_decimal(&mut s, index as u64 + 1);
    s.append(".xml");
    s
}

} // verus!
