//! The options of the command line, and the paths that follow from them.
//!
//! Paths are taken apart and put together by `std::path`. What its functions
//! return is named here, not spelled out: the contracts of the wrappers
//! around them are believed, and everything built on them is proved. The
//! names stand for what those functions return on the platform that the
//! library is built for.

use vstd::prelude::*;
use vstd::string::StringExecFns;

verus! {

/// The options that one run was started with.
#[derive(Debug)]
pub struct Cli {
    /// The images to work on.
    pub paths: Vec<String>,
    /// What is appended to the name of each output file, in place of
    /// `_fixed`.
    pub append: Option<String>,
    /// The directory for the output files, in place of that of the input.
    pub dir: Option<String>,
    /// Do not wait for a key at the end.
    pub auto: bool,
    /// Say more about what is done.
    pub verbose: bool,
    /// Make the resolved pixels opaque.
    pub opaque: bool,
}

/// What `Path::parent` returns for the path spelled `path`.
pub uninterp spec fn path_parent(path: Seq<char>) -> Option<Seq<char>>;

/// What `Path::file_stem` returns for the path spelled `path`.
pub uninterp spec fn path_file_stem(path: Seq<char>) -> Option<Seq<char>>;

/// What `Path::extension` returns for the path spelled `path`.
pub uninterp spec fn path_extension(path: Seq<char>) -> Option<Seq<char>>;

/// The path spelled `base` after `PathBuf::push` of `tail`.
pub uninterp spec fn path_push(base: Seq<char>, tail: Seq<char>) -> Seq<char>;

/// The path spelled `path` after `PathBuf::set_extension` of `ext`.
pub uninterp spec fn path_set_extension(path: Seq<char>, ext: Seq<char>) -> Seq<char>;

/// What `std::path::is_separator` returns for `c`.
pub uninterp spec fn path_is_separator(c: char) -> bool;

/// The characters of a string that may be absent.
pub open spec fn text_of(s: Option<String>) -> Option<Seq<char>> {
    match s {
        Some(t) => Some(t@),
        None => None,
    }
}

/// `Path::parent` of `path`. A part of a path that was given as text is
/// text again.
#[verifier::external_body]
fn parent_of(path: &str) -> (r: Option<String>)
    ensures
        text_of(r) == path_parent(path@),
{
    std::path::Path::new(path).parent().map(|p| p.to_string_lossy().into_owned())
}

/// `Path::file_stem` of `path`.
#[verifier::external_body]
fn file_stem_of(path: &str) -> (r: Option<String>)
    ensures
        text_of(r) == path_file_stem(path@),
{
    std::path::Path::new(path).file_stem().map(|s| s.to_string_lossy().into_owned())
}

/// `Path::extension` of `path`.
#[verifier::external_body]
fn extension_of(path: &str) -> (r: Option<String>)
    ensures
        text_of(r) == path_extension(path@),
{
    std::path::Path::new(path).extension().map(|s| s.to_string_lossy().into_owned())
}

/// `PathBuf::push`: the path `base` extended by `tail`.
#[verifier::external_body]
fn push_path(base: &str, tail: &str) -> (r: String)
    ensures
        r@ == path_push(base@, tail@),
{
    let mut p = std::path::PathBuf::from(base);
    p.push(tail);
    p.to_string_lossy().into_owned()
}

/// `std::path::is_separator`: whether `c` parts the components of a path.
#[verifier::external_body]
fn is_separator(c: char) -> (r: bool)
    ensures
        r == path_is_separator(c),
{
    std::path::is_separator(c)
}

/// `PathBuf::set_extension`, which panics on an extension that holds a path
/// separator.
#[verifier::external_body]
fn set_extension(path: &str, ext: &str) -> (r: String)
    requires
        forall|i: int| 0 <= i < ext@.len() ==> !path_is_separator(#[trigger] ext@[i]),
    ensures
        r@ == path_set_extension(path@, ext@),
{
    let mut p = std::path::PathBuf::from(path);
    p.set_extension(ext);
    p.to_string_lossy().into_owned()
}

/// No character of `s` is a path separator.
pub open spec fn no_separator(s: Seq<char>) -> bool {
    forall|i: int| 0 <= i < s.len() ==> !path_is_separator(#[trigger] s[i])
}

/// The stem of the output file: that of the input, then `append` or, for
/// want of it, `_fixed`, then `_opaque` if the pixels are made opaque.
pub open spec fn save_stem(stem: Seq<char>, append: Option<Seq<char>>, opaque: bool) -> Seq<char> {
    stem + match append {
        Some(a) => a,
        None => "_fixed"@,
    } + if opaque {
        "_opaque"@
    } else {
        Seq::empty()
    }
}

/// Whether no character of `s` is a path separator.
pub fn has_no_separator(s: &str) -> (r: bool)
    ensures
        r == no_separator(s@),
{
    let n = s.unicode_len();
    let mut i: usize = 0;
    while i < n
        invariant
            i <= n,
            n == s@.len(),
            forall|j: int| 0 <= j < i ==> !path_is_separator(#[trigger] s@[j]),
        decreases n - i,
    {
        let c = s.get_char(i);
        if is_separator(c) {
            return false;
        }
        i += 1;
    }
    true
}

/// The stem of the output file for the stem `stem` of the input: `append`
/// or, for want of it, `_fixed` is put behind it, and then `_opaque` if the
/// pixels are made opaque.
pub fn save_stem_of(stem: &str, append: &Option<String>, opaque: bool) -> (r: String)
    ensures
        r@ == save_stem(stem@, text_of(*append), opaque),
{
    let mut file_stem = String::from_str(stem);
    match append {
        Some(a) => file_stem.append(a.as_str()),
        None => file_stem.append("_fixed"),
    }
    if opaque {
        file_stem.append("_opaque");
    }
    file_stem
}

impl Cli {
    /// None of the options that change the output path is set.
    pub open spec fn keeps_path(&self) -> bool {
        self.dir is None && self.append is None && !self.opaque
    }

    /// An output path can be derived from `path`: either the path is kept,
    /// or it has a parent, a file stem and an extension, and the extension
    /// holds no path separator.
    pub open spec fn can_derive(&self, path: Seq<char>) -> bool {
        self.keeps_path() || (path_parent(path) is Some && path_file_stem(path) is Some
            && path_extension(path) is Some && no_separator(path_extension(path)->0))
    }

    /// The directory of the output file: `dir` or, for want of it, the
    /// parent of the input.
    pub open spec fn save_dir(&self, parent: Seq<char>) -> Seq<char> {
        match self.dir {
            Some(d) => d@,
            None => parent,
        }
    }

    /// The output path for an input with the given parent, stem and
    /// extension: the directory of `save_dir`, then the stem of
    /// `save_stem`, then the extension.
    pub open spec fn assembled(&self, parent: Seq<char>, stem: Seq<char>, ext: Seq<char>) -> Seq<
        char,
    > {
        path_set_extension(
            path_push(
                path_push(""@, self.save_dir(parent)),
                save_stem(stem, text_of(self.append), self.opaque),
            ),
            ext,
        )
    }

    /// The output path for the input `path`. With no option set it is
    /// `path`. Otherwise it is assembled from the parent, the stem and the
    /// extension of `path`.
    pub open spec fn save_path_spec(&self, path: Seq<char>) -> Seq<char> {
        if self.keeps_path() {
            path
        } else {
            self.assembled(path_parent(path)->0, path_file_stem(path)->0, path_extension(path)->0)
        }
    }

    /// The path to open for an argument of the command line: the argument
    /// itself.
    pub fn get_open_path(&self, path_str: &str) -> (r: String)
        ensures
            r@ == path_str@,
    {
        String::from_str(path_str)
    }

    /// The output path for an input whose parent, stem and extension are
    /// given.
    pub fn save_path_from_parts(&self, parent: &str, stem: &str, ext: &str) -> (r: String)
        requires
            no_separator(ext@),
        ensures
            r@ == self.assembled(parent@, stem@, ext@),
    {
        let new_path = match &self.dir {
            Some(d) => push_path("", d.as_str()),
            None => push_path("", parent),
        };
        let file_stem = save_stem_of(stem, &self.append, self.opaque);
        let new_path = push_path(new_path.as_str(), file_stem.as_str());
        set_extension(new_path.as_str(), ext)
    }

    /// The path under which the result for the input `path` is saved.
    pub fn get_save_path(&self, path: &str) -> (r: String)
        requires
            self.can_derive(path@),
        ensures
            r@ == self.save_path_spec(path@),
    {
        if !(self.dir.is_some() || self.append.is_some() || self.opaque) {
            return String::from_str(path);
        }
        let file_parent = parent_of(path).unwrap();
        let file_stem = file_stem_of(path).unwrap();
        let file_ext = extension_of(path).unwrap();
        self.save_path_from_parts(file_parent.as_str(), file_stem.as_str(), file_ext.as_str())
    }

    /// The path under which the result for the input `path` is saved, or
    /// `None` where `path` lacks a part that the output path is made of, or
    /// has an extension with a path separator in it.
    pub fn try_get_save_path(&self, path: &str) -> (r: Option<String>)
        ensures
            r is Some <==> self.can_derive(path@),
            r matches Some(p) ==> p@ == self.save_path_spec(path@),
    {
        if !(self.dir.is_some() || self.append.is_some() || self.opaque) {
            return Some(self.get_save_path(path));
        }
        let has_parts = parent_of(path).is_some() && file_stem_of(path).is_some();
        let has_extension = match extension_of(path) {
            Some(file_ext) => has_no_separator(file_ext.as_str()),
            None => false,
        };
        if has_parts && has_extension {
            Some(self.get_save_path(path))
        } else {
            None
        }
    }
}

} // verus!
