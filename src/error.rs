use vstd::prelude::*;

verus! {

/// Everything that parsing a diagram or laying out a structure can fail with.
/// Paths are relative to the output directory, components joined by `/`.
#[derive(Debug, Clone, PartialEq, Eq)]
pub enum ForgeTreeError {
    /// The text holds no non-blank line.
    EmptyInput,
    /// The first non-blank line names nothing.
    InvalidRoot,
    /// A line below the root names nothing; it carries the line.
    EmptyName(String),
    /// Something that is not a directory stands where a directory belongs.
    PathTypeConflict(String),
    /// A file stands where a file is to be written, and overwriting is off.
    FileExists(String),
    /// The template renderer refused a template; it carries the cause.
    TemplateError(String),
    /// Any other filesystem failure; it carries the cause.
    Io(String),
}

} // verus!
