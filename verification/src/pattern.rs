//! Matching activity labels against glob patterns: `*` for any run of
//! characters, `{A,B}` for alternatives.

use vstd::prelude::*;

verus! {

/// Patterns and labels are matched only below this length in bytes: the
/// matcher keeps its positions in 32 bits.
pub const LENGTH_LIMIT: usize = 0xffff_ffff;

/// The byte a backslash is written with.
pub const BACKSLASH: u8 = 0x5c;

/// Whether the glob `pattern` matches `text`, as the `glob-match` crate
/// decides it, for a text without a backslash. The crate asks the standard
/// library which characters of the text separate the parts of a path; a
/// slash does so on every target, a backslash on some only, and no other
/// character anywhere. Without a backslash in the text the answer is the
/// same on every target.
pub uninterp spec fn glob_verdict(pattern: Seq<char>, text: Seq<char>) -> bool;

/// The length of a text in bytes stays below the limit.
pub open spec fn within_limit(text: Seq<char>) -> bool {
    vstd::utf8::encode_utf8(text).len() < LENGTH_LIMIT
}

/// The text holds no backslash.
pub open spec fn is_portable(text: Seq<char>) -> bool {
    forall|i: int|
        0 <= i < vstd::utf8::encode_utf8(text).len() ==> #[trigger] vstd::utf8::encode_utf8(text)[i]
            != BACKSLASH
}

/// The match of `pattern` against `label` is settled beforehand: a text is
/// too long to be matched at all, or the label holds no backslash.
pub open spec fn is_settled(pattern: Seq<char>, label: Seq<char>) -> bool {
    !(within_limit(pattern) && within_limit(label)) || is_portable(label)
}

/// `matched` is an answer that matching `pattern` against `label` can give.
/// A pattern or a label at or above the length limit matches nothing. Below
/// it, a label without a backslash matches exactly when the verdict on the
/// two texts says so. For a label with a backslash the matcher is asked all
/// the same, and its answer, which is that of the target the program was
/// built for, stands.
pub open spec fn is_match_outcome(pattern: Seq<char>, label: Seq<char>, matched: bool) -> bool {
    &&& !(within_limit(pattern) && within_limit(label)) ==> !matched
    &&& (within_limit(pattern) && within_limit(label) && is_portable(label)) ==> matched
        == glob_verdict(pattern, label)
}

/// Where the match is settled beforehand, it has one answer only.
pub proof fn lemma_settled_match_has_one_outcome(
    pattern: Seq<char>,
    label: Seq<char>,
    first: bool,
    second: bool,
)
    requires
        is_settled(pattern, label),
        is_match_outcome(pattern, label, first),
        is_match_outcome(pattern, label, second),
    ensures
        first == second,
{
}

/// Calls `glob_match::glob_match`. Trusted: for a text without a backslash
/// the answer depends on the two texts alone, so it is the named verdict on
/// them; nothing is claimed about which texts match, and nothing at all
/// about the answer for a text with a backslash, which depends on the target
/// the crate was built for. Texts of 4 GiB or more are left out, because the
/// crate narrows its positions to 32 bits.
#[verifier::external_body]
fn glob_match_texts(pattern: &str, text: &str) -> (r: bool)
    requires
        within_limit(pattern@),
        within_limit(text@),
    ensures
        is_portable(text@) ==> r == glob_verdict(pattern@, text@),
{
    glob_match::glob_match(pattern, text)
}

/// Whether the glob `pattern` matches `label`.
pub fn matches_label(pattern: &str, label: &str) -> (r: bool)
    ensures
        is_match_outcome(pattern@, label@, r),
{
    if pattern.as_bytes().len() < LENGTH_LIMIT && label.as_bytes().len() < LENGTH_LIMIT {
        glob_match_texts(pattern, label)
    } else {
        false
    }
}

} // verus!
