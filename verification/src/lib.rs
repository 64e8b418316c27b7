//! An in-memory, per-locale hierarchical store for localized strings.
//!
//! Translations live in a tree of nodes: a node is either a leaf holding a
//! string or a branch mapping names to further nodes.  Dotted paths such as
//! `"menu.file.open"` address nodes inside a locale's tree.  Bulk inserts
//! deep-merge into existing data, and leaf strings may carry `{name}`
//! placeholders that are substituted in a single left-to-right pass.

pub mod errors;
pub mod format;
pub mod helpers;
pub mod laws;
pub mod manager;
pub mod merge;
pub mod node;
pub mod ops;
pub mod path;

pub use errors::I18nError;
pub use manager::TranslationManager;
pub use node::Node;
pub use node::TreeV;

use vstd::prelude::*;

verus! {

/// Formats `template` by substituting the arguments into its
/// placeholders; see [`crate::format::format_string`].
pub fn format_string(template: &str, args: &Vec<(String, String)>) -> (r: Result<
    String,
    I18nError,
>)
    requires
        crate::format::args_unique(args@),
    ensures
        r is Ok,
        r matches Ok(out) ==> out@ == crate::format::format_spec(
            template@,
            crate::format::args_view(args@),
        ),
{
    format::format_string(template, args)
}

} // verus!
