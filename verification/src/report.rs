//! The run report marks every setting that differs from its default.

use vstd::prelude::*;

verus! {

/// `text` followed by two spaces when it is the default, or by ` *` when it
/// is a custom value.
pub open spec fn marked(text: Seq<char>, is_default: bool) -> Seq<char> {
    text + if is_default {
        "  "@
    } else {
        " *"@
    }
}

/// `text`, marked as a default or a custom value.
pub fn mark_default(text: &str, is_default: bool) -> (r: String)
    ensures
        r@ == marked(text@, is_default),
{
    let mut s = text.to_owned();
    if is_default {
        s.append("  ");
    } else {
        s.append(" *");
    }
    s
}

/// Format a flag as one of two words, marked when it differs from its default.
pub fn fmt_bool(value: bool, default: bool, true_str: &str, false_str: &str) -> (r: String)
    ensures
        r@ == marked(
            if value {
                true_str@
            } else {
                false_str@
            },
            value == default,
        ),
{
    let display = if value {
        true_str
    } else {
        false_str
    };
    mark_default(display, value == default)
}

} // verus!
