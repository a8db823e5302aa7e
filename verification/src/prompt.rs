//! Reading the answer to a yes-or-no question.

use vstd::prelude::*;
use crate::text::{chars_of, trim_bounds, trimmed};

verus! {

/// The way `str::to_lowercase` writes a text in lower case.
pub uninterp spec fn lowercase_of(s: Seq<char>) -> Seq<char>;

/// `str::to_lowercase` returns the lower-case form of its argument, which
/// depends on the characters of the argument alone.
pub assume_specification[ str::to_lowercase ](s: &str) -> (lowered: String)
    ensures
        lowered@ == lowercase_of(s@),
;

/// Whether a text in lower case says yes: `y` or `yes`.
pub open spec fn says_yes(lowered: Seq<char>) -> bool {
    lowered == seq!['y'] || lowered == seq!['y', 'e', 's']
}

/// Whether `lowered`, an answer already trimmed and in lower case, says yes.
pub fn is_yes(lowered: &str) -> (yes: bool)
    ensures
        yes == says_yes(lowered@),
{
    let chars = chars_of(lowered);
    if chars.len() == 1 {
        assert(chars@ =~= seq![chars@[0]]);
        chars[0] == 'y'
    } else if chars.len() == 3 {
        assert(chars@ =~= seq![chars@[0], chars@[1], chars@[2]]);
        chars[0] == 'y' && chars[1] == 'e' && chars[2] == 's'
    } else {
        false
    }
}

/// Whether an answer as it was typed says yes: white space at its ends and
/// the case of its letters do not count.
pub fn is_affirmative(response: &str) -> (yes: bool)
    ensures
        yes == says_yes(lowercase_of(trimmed(response@))),
{
    let chars = chars_of(response);
    let (a, b) = trim_bounds(&chars);
    let core = response.substring_char(a, b);
    let lowered = core.to_lowercase();
    is_yes(lowered.as_str())
}

} // verus!
