//! Case conversions offered to templates: `snake_case` and `PascalCase`.
use vstd::prelude::*;
use crate::text::{chars_of, string_from_chars};

verus! {

/// Whether a character is upper case (Unicode's Uppercase property).
pub uninterp spec fn upper_case_char(c: char) -> bool;

/// The lower-case mapping of a character (one or more characters).
pub uninterp spec fn lower_mapping(c: char) -> Seq<char>;

/// The upper-case mapping of a character (one or more characters).
pub uninterp spec fn upper_mapping(c: char) -> Seq<char>;

/// Relies on `char::is_uppercase`.
#[verifier::external_body]
fn is_upper(c: char) -> (r: bool)
    ensures
        r == upper_case_char(c),
{
    c.is_uppercase()
}

/// Relies on `char::to_lowercase`, collected: the mapping depends on the
/// character alone.
#[verifier::external_body]
fn lower_chars(c: char) -> (r: Vec<char>)
    ensures
        r@ == lower_mapping(c),
{
    c.to_lowercase().collect()
}

/// Relies on `char::to_uppercase`, collected: the mapping depends on the
/// character alone.
#[verifier::external_body]
fn upper_chars(c: char) -> (r: Vec<char>)
    ensures
        r@ == upper_mapping(c),
{
    c.to_uppercase().collect()
}

/// Each upper-case character becomes `_` and its lower-case mapping.
pub open spec fn underscored(s: Seq<char>) -> Seq<char>
    decreases s.len(),
{
    if s.len() == 0 {
        seq![]
    } else {
        underscored(s.drop_last()) + if upper_case_char(s.last()) {
            seq!['_'] + lower_mapping(s.last())
        } else {
            seq![s.last()]
        }
    }
}

/// The first index at or after `i` that does not hold `_`.
pub open spec fn underscores_end(s: Seq<char>, i: int) -> int
    decreases s.len() - i,
{
    if 0 <= i < s.len() && s[i] == '_' {
        underscores_end(s, i + 1)
    } else {
        i
    }
}

/// `s` in snake case: upper-case characters marked with `_` and lowered,
/// then every leading `_` removed.
pub open spec fn snake_spec(s: Seq<char>) -> Seq<char> {
    let u = underscored(s);
    u.subrange(underscores_end(u, 0), u.len() as int)
}

pub open spec fn is_word_break(c: char) -> bool {
    c == '_' || c == '-' || c == ' '
}

/// `s` in Pascal case: the breaks `_`, `-` and space removed, and the first
/// character of each word replaced by its upper-case mapping.
pub open spec fn pascal_spec(s: Seq<char>) -> Seq<char>
    decreases s.len(),
{
    if s.len() == 0 {
        seq![]
    } else {
        let c = s.last();
        let starts_word = s.len() == 1 || is_word_break(s[s.len() - 2]);
        pascal_spec(s.drop_last()) + if is_word_break(c) {
            Seq::<char>::empty()
        } else if starts_word {
            upper_mapping(c)
        } else {
            seq![c]
        }
    }
}

fn push_all(out: &mut Vec<char>, more: &Vec<char>)
    ensures
        final(out)@ == old(out)@ + more@,
{
    let mut i: usize = 0;
    while i < more.len()
        invariant
            i <= more@.len(),
            out@ == old(out)@ + more@.subrange(0, i as int),
        decreases more.len() - i,
    {
        out.push(more[i]);
        i += 1;
        assert(out@ =~= old(out)@ + more@.subrange(0, i as int));
    }
    assert(more@.subrange(0, i as int) =~= more@);
}

/// `s` in snake case.
pub fn snake_case(s: &str) -> (r: String)
    ensures
        r@ == snake_spec(s@),
{
    let cs = chars_of(s);
    let mut u: Vec<char> = Vec::new();
    let mut i: usize = 0;
    while i < cs.len()
        invariant
            cs@ == s@,
            i <= cs@.len(),
            u@ == underscored(cs@.subrange(0, i as int)),
        decreases cs.len() - i,
    {
        let c = cs[i];
        assert(cs@.subrange(0, i + 1).drop_last() =~= cs@.subrange(0, i as int));
        if is_upper(c) {
            u.push('_');
            let low = lower_chars(c);
            push_all(&mut u, &low);
        } else {
            u.push(c);
        }
        i += 1;
        assert(u@ =~= underscored(cs@.subrange(0, i as int)));
    }
    assert(cs@.subrange(0, i as int) =~= s@);
    let ghost us = u@;
    let mut start: usize = 0;
    while start < u.len() && u[start] == '_'
        invariant
            us == u@,
            start <= u@.len(),
            underscores_end(us, 0) == underscores_end(us, start as int),
        decreases u.len() - start,
    {
        start += 1;
    }
    let mut kept: Vec<char> = Vec::new();
    let mut k = start;
    while k < u.len()
        invariant
            us == u@,
            start <= k <= u@.len(),
            kept@ == us.subrange(start as int, k as int),
        decreases u.len() - k,
    {
        kept.push(u[k]);
        k += 1;
        assert(kept@ =~= us.subrange(start as int, k as int));
    }
    string_from_chars(kept.as_slice())
}

/// `s` in Pascal case.
pub fn pascal_case(s: &str) -> (r: String)
    ensures
        r@ == pascal_spec(s@),
{
    let cs = chars_of(s);
    let mut out: Vec<char> = Vec::new();
    let mut i: usize = 0;
    while i < cs.len()
        invariant
            cs@ == s@,
            i <= cs@.len(),
            out@ == pascal_spec(cs@.subrange(0, i as int)),
        decreases cs.len() - i,
    {
        let c = cs[i];
        let ghost pre = cs@.subrange(0, i + 1);
        assert(pre.drop_last() =~= cs@.subrange(0, i as int));
        let brk = c == '_' || c == '-' || c == ' ';
        if !brk {
            if i == 0 || cs[i - 1] == '_' || cs[i - 1] == '-' || cs[i - 1] == ' ' {
                let up = upper_chars(c);
                push_all(&mut out, &up);
            } else {
                out.push(c);
            }
        }
        i += 1;
        assert(out@ =~= pascal_spec(cs@.subrange(0, i as int)));
    }
    assert(cs@.subrange(0, i as int) =~= s@);
    string_from_chars(out.as_slice())
}

} // verus!
