//! The `path[=offset]` form in which MIDI files are named on the command line.
use vstd::prelude::*;
use vstd::string::StrSliceExecFns;

verus! {

/// `k` is the position of the last `=` in `s`.
pub open spec fn is_last_equals(s: Seq<char>, k: int) -> bool {
    &&& 0 <= k < s.len()
    &&& s[k] == '='
    &&& forall|j: int| k < j < s.len() ==> #[trigger] s[j] != '='
}

/// Splits a `<path>` or `<path>=<offset>` specification on its **last** `=`
/// (so that a path may itself contain `=`). Returns the path and, where
/// there is an `=`, the text of the offset.
pub fn split_midi_file_spec(s: &str) -> (r: (String, Option<String>))
    ensures
        match r.1 {
            Some(offset) => exists|k: int|
                is_last_equals(s@, k) && r.0@ == s@.subrange(0, k) && offset@ == s@.subrange(k + 1, s@.len() as int),
            None => r.0@ == s@ && forall|j: int| 0 <= j < s@.len() ==> #[trigger] s@[j] != '=',
        },
{
    let n = s.unicode_len();
    let mut k = n;
    while k > 0
        invariant
            k <= n,
            n == s@.len(),
            forall|j: int| k <= j < n ==> #[trigger] s@[j] != '=',
        decreases k,
    {
        if s.get_char(k - 1) == '=' {
            let path = s.substring_char(0, k - 1).to_owned();
            let offset = s.substring_char(k, n).to_owned();
            assert(is_last_equals(s@, k - 1));
            return (path, Some(offset));
        }
        k = k - 1;
    }
    (s.to_owned(), None)
}

} // verus!
