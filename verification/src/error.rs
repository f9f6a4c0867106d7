use vstd::prelude::*;
use crate::text::Text;

verus! {

/// The failures the engine can report. Every variant names the offending
/// path, template or expression, so a caller can act on it.
#[derive(Debug, PartialEq, Eq)]
pub enum ScaffoldError {
    /// A lookup against a tree missed.
    PathNotFound { path: Text },
    /// A path would have to be a file and hold children at the same time.
    TreeConflict { path: Text },
    /// The templating engine could not render the template aimed at this path.
    RenderError { path: Text },
    /// A template fragment could not be registered, or a wrapped template
    /// body came back in a shape the engine cannot use.
    MalformedTemplate { message: Text },
    /// The named template was not found under the templates directory.
    TemplateNotFound { name: Text },
    /// No templates directory, or nothing usable inside it.
    NoTemplatesFound,
}

pub type ScaffoldResult<T> = Result<T, ScaffoldError>;

} // verus!
