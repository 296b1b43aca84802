use vstd::prelude::*;
use crate::render::push_char;

verus! {

/// `s` with every `/` and `\` replaced by `sep`.
pub open spec fn with_separator(s: Seq<char>, sep: char) -> Seq<char> {
    Seq::new(s.len(), |i: int| if s[i] == '/' || s[i] == '\\' { sep } else { s[i] })
}

/// Relies on `std::path::MAIN_SEPARATOR`, the separator of the host platform.
#[verifier::external_body]
fn host_separator() -> (c: char)
    ensures
        c == '/' || c == '\\',
{
    std::path::MAIN_SEPARATOR
}

/// Rewrites every path separator of `path` as `sep`.
pub fn normalize_separators(path: &str, sep: char) -> (r: String)
    ensures
        r@ == with_separator(path@, sep),
{
    let n = path.unicode_len();
    let mut out = String::new();
    let mut i: usize = 0;
    while i < n
        invariant
            n == path@.len(),
            0 <= i <= n,
            out@ == with_separator(path@, sep).subrange(0, i as int),
        decreases n - i,
    {
        let c = path.get_char(i);
        if c == '/' || c == '\\' {
            push_char(&mut out, sep);
        } else {
            push_char(&mut out, c);
        }
        assert(out@ =~= with_separator(path@, sep).subrange(0, i as int + 1));
        i = i + 1;
    }
    assert(with_separator(path@, sep).subrange(0, i as int) =~= with_separator(path@, sep));
    out
}

/// Rewrites every path separator of `path` as the host platform's.
pub fn normalize_path_arg(path: &str) -> (r: String)
    ensures
        r@ == with_separator(path@, '/') || r@ == with_separator(path@, '\\'),
{
    normalize_separators(path, host_separator())
}

} // verus!
