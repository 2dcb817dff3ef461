//! The tools built from a kind, and what the option bars' Mode drop-downs
//! name: the key of a blend mode.
use vstd::prelude::*;
use vstd::string::StrSliceExecFns;

use crate::strings::str_eq;
use crate::tools::ToolKind;

verus! {

/// The tools built from a kind, by UI tool id.
pub open spec fn spec_registered(id: Seq<char>) -> Option<ToolKind> {
    if id == "paint-bucket"@ {
        Some(ToolKind::PaintBucket)
    } else if id == "eraser-magic"@ {
        Some(ToolKind::MagicEraser)
    } else if id == "gradient"@ {
        Some(ToolKind::Gradient)
    } else if id == "red-eye"@ {
        Some(ToolKind::RedEye)
    } else {
        None
    }
}

/// The tools built from a kind (paint bucket, magic eraser, gradient, red
/// eye), by UI tool id. `None` for any other id.
pub fn registered(id: &str) -> (kind: Option<ToolKind>)
    ensures
        kind == spec_registered(id@),
{
    if str_eq(id, "paint-bucket") {
        Some(ToolKind::PaintBucket)
    } else if str_eq(id, "eraser-magic") {
        Some(ToolKind::MagicEraser)
    } else if str_eq(id, "gradient") {
        Some(ToolKind::Gradient)
    } else if str_eq(id, "red-eye") {
        Some(ToolKind::RedEye)
    } else {
        None
    }
}


/// The lower-case form of `s`, as Rust's `str::to_lowercase` gives it
/// (Unicode's full case mapping).
pub uninterp spec fn lowercase(s: Seq<char>) -> Seq<char>;

/// Lower-cases `s` with `str::to_lowercase`; the contract only names the
/// result ([`lowercase`]), it does not state the case mapping.
#[verifier::external_body]
fn to_lowercase(s: &str) -> (lower: String)
    ensures
        lower@ == lowercase(s@),
{
    s.to_lowercase()
}

/// Whether `" ("` starts at position `i` of `s`.
pub open spec fn paren_at(s: Seq<char>, i: int) -> bool {
    0 <= i && i + 1 < s.len() && s[i] == ' ' && s[i + 1] == '('
}

/// The name of a menu entry: what comes before its first `" ("` (an
/// explanation such as `"(Add)"`), or all of it.
pub open spec fn name_part(s: Seq<char>) -> Seq<char> {
    if exists|i: int| paren_at(s, i) {
        s.take(choose|i: int| paren_at(s, i) && forall|j: int| 0 <= j < i ==> !paren_at(s, j))
    } else {
        s
    }
}

/// `s` with every space and hyphen turned into an underscore.
pub open spec fn underscored(s: Seq<char>) -> Seq<char> {
    s.map_values(|c: char| if c == ' ' || c == '-' { '_' } else { c })
}

/// The key a Mode drop-down's entry names: its name part, lower-cased, with
/// spaces and hyphens as underscores ("Linear Dodge (Add)" → `linear_dodge`).
pub open spec fn spec_blend_key(entry: Seq<char>) -> Seq<char> {
    underscored(lowercase(name_part(entry)))
}

/// Where the first `" ("` of `s` starts.
fn first_paren(s: &str) -> (at: Option<usize>)
    ensures
        at matches Some(i) ==> paren_at(s@, i as int) && forall|j: int| 0 <= j < i ==> !paren_at(s@, j),
        at is None ==> forall|j: int| !paren_at(s@, j),
{
    let n = s.unicode_len();
    let mut i: usize = 0;
    while i < n
        invariant
            n == s@.len(),
            i <= n,
            forall|j: int| 0 <= j < i ==> !paren_at(s@, j),
        decreases n - i,
    {
        if i + 1 < n && s.get_char(i) == ' ' && s.get_char(i + 1) == '(' {
            return Some(i);
        }
        i = i + 1;
    }
    None
}

/// The key a Mode drop-down's entry names (see [`spec_blend_key`]); the
/// engine looks the blend mode up by it, and takes Normal for anything
/// unknown.
pub fn blend_key(entry: &str) -> (key: Vec<char>)
    ensures
        key@ == spec_blend_key(entry@),
{
    let n = entry.unicode_len();
    let cut = match first_paren(entry) {
        Some(i) => i,
        None => n,
    };
    proof {
        if cut == n {
            assert(entry@.take(n as int) =~= entry@);
        } else {
            let k = choose|k: int| paren_at(entry@, k) && forall|j: int| 0 <= j < k ==> !paren_at(entry@, j);
            if k < cut {
            } else if k > cut {
            }
            assert(k == cut);
        }
    }
    let name = entry.substring_char(0, cut);
    let lower = to_lowercase(name);
    let text = lower.as_str();
    let m = text.unicode_len();
    let mut key: Vec<char> = Vec::new();
    let mut j: usize = 0;
    while j < m
        invariant
            m == text@.len(),
            text@ == lowercase(name_part(entry@)),
            j <= m,
            key@ == underscored(text@.take(j as int)),
        decreases m - j,
    {
        let c = text.get_char(j);
        key.push(if c == ' ' || c == '-' { '_' } else { c });
        proof {
            assert(key@ =~= underscored(text@.take(j + 1)));
        }
        j = j + 1;
    }
    proof {
        assert(text@.take(m as int) =~= text@);
    }
    key
}

} // verus!
