//! Unified diffs of the output a dry run would write, made with the
//! `similar` crate.

use vstd::prelude::*;
use crate::strings::{str_eq, to_owned_string};

verus! {

/// The unified diff `similar` writes for two texts compared line by line,
/// with the given headers and lines of context.
pub uninterp spec fn unified_diff_text(
    old_label: Seq<char>,
    old_content: Seq<char>,
    new_label: Seq<char>,
    new_content: Seq<char>,
    context: nat,
) -> Seq<char>;

/// Lines of context around each change.
pub const CONTEXT_LINES: usize = 3;

/// `similar::TextDiff::from_lines` of the two texts, formatted by its
/// `unified_diff` with the given context radius and header. Claimed: the
/// text is a function of the arguments.
#[verifier::external_body]
fn similar_unified_diff(
    old_label: &str,
    old_content: &str,
    new_label: &str,
    new_content: &str,
    context: usize,
) -> (r: String)
    ensures
        r@ == unified_diff_text(old_label@, old_content@, new_label@, new_content@, context as nat),
{
    let diff = similar::TextDiff::from_lines(old_content, new_content);
    diff.unified_diff().context_radius(context).header(old_label, new_label).to_string()
}

/// The unified diff from `old_content` to `new_content`, empty when they are
/// equal.
pub fn format_diff(old_label: &str, old_content: &str, new_label: &str, new_content: &str) -> (r: String)
    ensures
        old_content@ == new_content@ ==> r@ == Seq::<char>::empty(),
        old_content@ != new_content@ ==> r@ == unified_diff_text(
            old_label@,
            old_content@,
            new_label@,
            new_content@,
            CONTEXT_LINES as nat,
        ),
{
    if str_eq(old_content, new_content) {
        let r = to_owned_string("");
        proof {
            reveal_strlit("");
        }
        return r;
    }
    similar_unified_diff(old_label, old_content, new_label, new_content, CONTEXT_LINES)
}

} // verus!
