//! Strings as sequences of characters: the helpers the rest of the library
//! builds symbols and tokens with, and the names of output files.

use vstd::prelude::*;

verus! {

/// The lower-case form of a string, as `str::to_lowercase` computes it.
pub uninterp spec fn lower_of(s: Seq<char>) -> Seq<char>;

/// Relies on `str::to_lowercase`: the lower-case form depends on the
/// characters of `s` alone.
#[verifier::external_body]
pub(crate) fn lowercase(s: &str) -> (r: String)
    ensures
        r@ == lower_of(s@),
{
    s.to_lowercase()
}

/// The end-of-word marker that closes every corpus word.
pub open spec fn end_marker() -> Seq<char> {
    seq!['<', '/', 'w', '>']
}

/// A fresh copy of the end-of-word marker.
pub(crate) fn end_marker_string() -> (r: String)
    ensures
        r@ == end_marker(),
{
    let r = String::from_str("</w>");
    proof {
        reveal_strlit("</w>");
    }
    r
}

/// The characters of `s`, in order.
pub(crate) fn chars_of(s: &str) -> (r: Vec<char>)
    ensures
        r@ == s@,
{
    let n = s.unicode_len();
    let mut r: Vec<char> = Vec::new();
    let mut i: usize = 0;
    while i < n
        invariant
            n == s@.len(),
            i <= n,
            r@ == s@.take(i as int),
        decreases n - i,
    {
        let c = s.get_char(i);
        r.push(c);
        i += 1;
        assert(r@ =~= s@.take(i as int));
    }
    assert(s@.take(n as int) =~= s@);
    r
}

/// The one-character string holding the character at position `i` of `s`.
pub(crate) fn char_string(s: &str, i: usize) -> (r: String)
    requires
        i < s@.len() <= usize::MAX,
    ensures
        r@ == seq![s@[i as int]],
{
    let sub = s.substring_char(i, i + 1);
    let r = String::from_str(sub);
    assert(r@ =~= seq![s@[i as int]]);
    r
}

/// The concatenation of `a` and `b`.
pub(crate) fn concat(a: &String, b: &String) -> (r: String)
    ensures
        r@ == a@ + b@,
{
    a.clone().concat(b.as_str())
}

/// The name of the file a result for `infile` is saved to: `prefix`, then
/// `infile` with a `.csv` extension turned into `.txt`.
pub open spec fn output_name(prefix: Seq<char>, infile: Seq<char>) -> Seq<char> {
    if infile.len() >= 4 && infile.skip(infile.len() - 4) == seq!['.', 'c', 's', 'v'] {
        prefix + infile.take(infile.len() - 4) + seq!['.', 't', 'x', 't']
    } else {
        prefix + infile
    }
}

/// Names the file that a result computed from `infile` is saved to.
pub fn output_file_name(prefix: &str, infile: &str) -> (r: String)
    ensures
        r@ == output_name(prefix@, infile@),
{
    let chars = chars_of(infile);
    let n = chars.len();
    let start = String::from_str(prefix);
    if n >= 4 && chars[n - 4] == '.' && chars[n - 3] == 'c' && chars[n - 2] == 's' && chars[n - 1] == 'v' {
        assert(infile@.skip(n - 4) =~= seq!['.', 'c', 's', 'v']);
        let stem = String::from_str(infile.substring_char(0, n - 4));
        let ext = String::from_str(".txt");
        proof {
            reveal_strlit(".txt");
        }
        assert(ext@ =~= seq!['.', 't', 'x', 't']);
        concat(&concat(&start, &stem), &ext)
    } else {
        assert(n >= 4 ==> infile@.skip(n - 4) != seq!['.', 'c', 's', 'v']) by {
            if n >= 4 && infile@.skip(n - 4) == seq!['.', 'c', 's', 'v'] {
                assert(infile@.skip(n - 4)[0] == chars@[n - 4]);
                assert(infile@.skip(n - 4)[1] == chars@[n - 3]);
                assert(infile@.skip(n - 4)[2] == chars@[n - 2]);
                assert(infile@.skip(n - 4)[3] == chars@[n - 1]);
            }
        }
        let whole = String::from_str(infile);
        concat(&start, &whole)
    }
}

} // verus!
