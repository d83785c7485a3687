//! Template variables given as `key=value`.
use vstd::prelude::*;
use crate::text::{chars_of, string_from_chars};

verus! {

/// The first index at or after `i` that holds `=` (or the end).
pub open spec fn first_equals(s: Seq<char>, i: int) -> int
    decreases s.len() - i,
{
    if 0 <= i < s.len() && s[i] != '=' {
        first_equals(s, i + 1)
    } else {
        i
    }
}

fn copy_range(v: &Vec<char>, lo: usize, hi: usize) -> (r: String)
    requires
        lo <= hi <= v@.len(),
    ensures
        r@ == v@.subrange(lo as int, hi as int),
{
    let mut out: Vec<char> = Vec::new();
    let mut k = lo;
    while k < hi
        invariant
            lo <= k <= hi <= v@.len(),
            out@ == v@.subrange(lo as int, k as int),
        decreases hi - k,
    {
        out.push(v[k]);
        k += 1;
        assert(out@ =~= v@.subrange(lo as int, k as int));
    }
    string_from_chars(out.as_slice())
}

/// Splits `key=value` at its first `=`; `None` when there is no `=`.
pub fn split_assignment(s: &str) -> (r: Option<(String, String)>)
    ensures
        ({
            let i = first_equals(s@, 0);
            &&& (r is Some <==> i < s@.len())
            &&& r is Some ==> r->Some_0.0@ == s@.subrange(0, i) && r->Some_0.1@ == s@.subrange(i + 1, s@.len() as int)
        }),
{
    let cs = chars_of(s);
    let mut i: usize = 0;
    while i < cs.len() && cs[i] != '='
        invariant
            cs@ == s@,
            i <= cs@.len(),
            first_equals(s@, 0) == first_equals(s@, i as int),
        decreases cs.len() - i,
    {
        i += 1;
    }
    if i == cs.len() {
        None
    } else {
        Some((copy_range(&cs, 0, i), copy_range(&cs, i + 1, cs.len())))
    }
}

} // verus!
