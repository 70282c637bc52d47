//! Where the converted output of each input file is written.

use vstd::prelude::*;

verus! {

/// The path that `Path::with_extension` gives for `p` and `ext`.
pub uninterp spec fn with_extension_of(p: Seq<char>, ext: Seq<char>) -> Seq<char>;

/// The path that `Path::join` gives for `base` and `name`.
pub uninterp spec fn join_of(base: Seq<char>, name: Seq<char>) -> Seq<char>;

/// The last component that `Path::file_name` finds in `p`, if any.
pub uninterp spec fn file_name_of(p: Seq<char>) -> Option<Seq<char>>;

/// Relies on `std::path::Path::with_extension`: the result depends on the
/// path and the extension alone. It panics on an extension that holds a
/// path separator.
#[verifier::external_body]
fn path_with_extension(p: &str, ext: &str) -> (r: String)
    requires
        forall|i: int| 0 <= i < ext@.len() ==> ext@[i] != '/' && ext@[i] != '\\',
    ensures
        r@ == with_extension_of(p@, ext@),
{
    std::path::Path::new(p).with_extension(ext).to_string_lossy().into_owned()
}

/// Relies on `std::path::Path::join`: the result depends on the two paths
/// alone.
#[verifier::external_body]
fn path_join(base: &str, name: &str) -> (r: String)
    ensures
        r@ == join_of(base@, name@),
{
    std::path::Path::new(base).join(name).to_string_lossy().into_owned()
}

/// Relies on `std::path::Path::file_name`: the result depends on the path
/// alone.
#[verifier::external_body]
fn path_file_name(p: &str) -> (r: Option<String>)
    ensures
        match r {
            Some(n) => file_name_of(p@) == Some(n@),
            None => file_name_of(p@) is None,
        },
{
    std::path::Path::new(p).file_name().map(|n| n.to_string_lossy().into_owned())
}

/// Where output goes.
#[derive(Clone, Debug, PartialEq, Eq)]
pub enum OutputLocation {
    /// Beside each input file, with the same name and a `json` extension.
    Inplace,
    /// Into this directory, one file per input, named after the input with a
    /// `json` extension.
    LocalDirectory(String),
    /// Into this one file, all inputs together.
    LocalFile(String),
}

/// The form of the text written for `n` decoded files.
#[derive(Clone, Copy, Debug, PartialEq, Eq)]
pub enum JsonShape {
    /// The one file's data on its own.
    Single,
    /// An array with each file's data.
    Array,
}

impl OutputLocation {
    /// The location named by an output path; `is_dir` tells whether that
    /// path is an existing directory.
    pub fn new(location: String, is_dir: bool) -> (r: OutputLocation)
        ensures
            is_dir ==> r == OutputLocation::LocalDirectory(location),
            !is_dir ==> r == OutputLocation::LocalFile(location),
    {
        if is_dir {
            OutputLocation::LocalDirectory(location)
        } else {
            OutputLocation::LocalFile(location)
        }
    }

    /// The location for an optional output path: beside the inputs when
    /// there is none.
    pub fn from_output(output: Option<String>, is_dir: bool) -> (r: OutputLocation)
        ensures
            match output {
                None => r == OutputLocation::Inplace,
                Some(l) => r == (if is_dir {
                    OutputLocation::LocalDirectory(l)
                } else {
                    OutputLocation::LocalFile(l)
                }),
            },
    {
        match output {
            None => OutputLocation::Inplace,
            Some(l) => OutputLocation::new(l, is_dir),
        }
    }

    /// Whether the data of all inputs is gathered into one output.
    pub fn collects_all(&self) -> (r: bool)
        ensures
            r == (self is LocalFile),
    {
        match self {
            OutputLocation::LocalFile(_) => true,
            _ => false,
        }
    }

    /// The file that the output for the input `filename` goes to; `None`
    /// when the output goes into a directory and `filename` names no file.
    pub fn output_name(&self, filename: &str) -> (r: Option<String>)
        ensures
            match self {
                OutputLocation::Inplace => r matches Some(n) && n@ == with_extension_of(
                    filename@,
                    "json"@,
                ),
                OutputLocation::LocalDirectory(d) => match file_name_of(filename@) {
                    None => r is None,
                    Some(f) => r matches Some(n) && n@ == with_extension_of(
                        join_of(d@, f),
                        "json"@,
                    ),
                },
                OutputLocation::LocalFile(d) => r matches Some(n) && n@ == d@,
            },
    {
        match self {
            OutputLocation::Inplace => {
                proof {
                    reveal_strlit("json");
                }
                Some(path_with_extension(filename, "json"))
            },
            OutputLocation::LocalDirectory(d) => match path_file_name(filename) {
                None => None,
                Some(f) => {
                    let joined = path_join(d.as_str(), f.as_str());
                    proof {
                        reveal_strlit("json");
                    }
                    Some(path_with_extension(joined.as_str(), "json"))
                },
            },
            OutputLocation::LocalFile(d) => Some(d.clone()),
        }
    }
}

/// The form of the text written for `n` decoded files: one file's data
/// stands alone, any other count makes an array.
pub fn json_shape(n: usize) -> (r: JsonShape)
    ensures
        r == (if n == 1 {
            JsonShape::Single
        } else {
            JsonShape::Array
        }),
{
    if n == 1 {
        JsonShape::Single
    } else {
        JsonShape::Array
    }
}

} // verus!
