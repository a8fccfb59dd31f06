use path_slash::PathBufExt;
use std::path::PathBuf;
use vstd::prelude::*;

verus! {

/// A relative path whose components are separated by `/`, whatever the
/// system.
#[derive(Debug, PartialEq, Eq)]
pub struct RelativeUnixPath<'a> {
    pub inner: &'a str,
}

impl<'a> View for RelativeUnixPath<'a> {
    type V = Seq<char>;

    open spec fn view(&self) -> Seq<char> {
        self.inner@
    }
}

impl<'a> From<&'a str> for RelativeUnixPath<'a> {
    fn from(value: &'a str) -> (r: Self) {
        Self { inner: value }
    }
}

impl<'a> vstd::std_specs::convert::FromSpecImpl<&'a str> for RelativeUnixPath<'a> {
    open spec fn obeys_from_spec() -> bool {
        true
    }

    open spec fn from_spec(value: &'a str) -> Self {
        RelativeUnixPath { inner: value }
    }
}

/// A relative path whose components are separated as the system separates
/// them.
#[derive(Debug, PartialEq, Eq)]
pub struct RelativeSystemPathBuf {
    pub path: String,
}

impl View for RelativeSystemPathBuf {
    type V = Seq<char>;

    open spec fn view(&self) -> Seq<char> {
        self.path@
    }
}

impl RelativeSystemPathBuf {
    /// Takes the text for a relative system path without looking at it.
    pub fn new_unchecked(path: String) -> (r: Self)
        ensures
            r@ == path@,
    {
        RelativeSystemPathBuf { path }
    }

    pub fn as_str(&self) -> (r: &str)
        ensures
            r@ == self@,
    {
        self.path.as_str()
    }
}

/// Whether `system` is `unix` with each `/` replaced by `separator`.
pub open spec fn has_separator(unix: Seq<char>, system: Seq<char>, separator: char) -> bool {
    &&& system.len() == unix.len()
    &&& forall|i: int|
        0 <= i < unix.len() ==> #[trigger] system[i] == if unix[i] == '/' {
            separator
        } else {
            unix[i]
        }
}

/// Whether `system` is `unix` with each `/` replaced by one and the same
/// separator, which is `/` or `\`.
pub open spec fn is_system_form(unix: Seq<char>, system: Seq<char>) -> bool {
    has_separator(unix, system, '/') || has_separator(unix, system, '\\')
}

/// Calls `PathBuf::from_slash` of the crate `path_slash` and hands back the
/// text of the path it made. The contract claims what holds on every
/// system: the path is the argument with each `/` replaced by the
/// separator of the system, which is `\` on Windows and `/` elsewhere, so
/// that elsewhere nothing is replaced.
#[verifier::external_body]
fn from_slash(path: &str) -> (r: String)
    ensures
        is_system_form(path@, r@),
{
    PathBuf::from_slash(path).to_string_lossy().into_owned()
}

impl<'a> RelativeUnixPath<'a> {
    /// The path as the system writes it.
    pub fn to_system_path(&self) -> (r: RelativeSystemPathBuf)
        ensures
            is_system_form(self@, r@),
    {
        RelativeSystemPathBuf::new_unchecked(from_slash(self.inner))
    }
}

} // verus!
