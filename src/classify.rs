//! Reading one line of a tree diagram: its depth, its name and a guess at its kind.
use vstd::prelude::*;
use crate::text::string_from_chars;

verus! {

/// White space as `char::is_whitespace` defines it (the Unicode White_Space set).
pub open spec fn is_space(c: char) -> bool {
    let u = c as u32;
    (0x9 <= u && u <= 0xD) || u == 0x20 || u == 0x85 || u == 0xA0 || u == 0x1680
        || (0x2000 <= u && u <= 0x200A) || u == 0x2028 || u == 0x2029 || u == 0x202F
        || u == 0x205F || u == 0x3000
}

/// A connector glyph: a vertical bar or a branch corner. Each one is one level.
pub open spec fn is_connector(c: char) -> bool {
    c == '│' || c == '├' || c == '└'
}

/// A character that may stand before a line's name: a connector, a horizontal
/// dash or white space.
pub open spec fn is_lead(c: char) -> bool {
    is_connector(c) || c == '─' || is_space(c)
}

/// The first index at or after `i` that is not a lead character (or the end).
pub open spec fn lead_end(s: Seq<char>, i: int) -> int
    decreases s.len() - i,
{
    if 0 <= i < s.len() && is_lead(s[i]) {
        lead_end(s, i + 1)
    } else {
        i
    }
}

/// The number of connector glyphs among the first `j` characters.
pub open spec fn connectors(s: Seq<char>, j: int) -> nat
    decreases j,
{
    if j <= 0 {
        0
    } else {
        connectors(s, j - 1) + if is_connector(s[j - 1]) { 1nat } else { 0nat }
    }
}

/// The end of `s[lo..hi]` once trailing white space is cut off.
pub open spec fn trimmed_end(s: Seq<char>, lo: int, hi: int) -> int
    decreases hi - lo,
{
    if lo < hi && is_space(s[hi - 1]) {
        trimmed_end(s, lo, hi - 1)
    } else {
        hi
    }
}

/// What stands after the leading glyphs, without trailing white space.
pub open spec fn line_body(s: Seq<char>) -> Seq<char> {
    let b = lead_end(s, 0);
    s.subrange(b, trimmed_end(s, b, s.len() as int))
}

pub open spec fn ends_with_slash(b: Seq<char>) -> bool {
    b.len() > 0 && b.last() == '/'
}

/// The line's name: its body less one trailing `/`.
pub open spec fn line_name(s: Seq<char>) -> Seq<char> {
    let b = line_body(s);
    if ends_with_slash(b) {
        b.drop_last()
    } else {
        b
    }
}

/// The line's depth: the connector glyphs before its name.
pub open spec fn line_depth(s: Seq<char>) -> nat {
    connectors(s, lead_end(s, 0))
}

/// The default guess at a kind: a directory when marked with a trailing `/`
/// or when the name holds no `.`.
pub open spec fn directory_guess(name: Seq<char>, slash: bool) -> bool {
    slash || !name.contains('.')
}

/// The mathematical value of a classified line.
pub struct LineModel {
    pub name: Seq<char>,
    pub depth: nat,
    pub is_directory: bool,
}

pub open spec fn classify_spec(s: Seq<char>) -> LineModel {
    LineModel {
        name: line_name(s),
        depth: line_depth(s),
        is_directory: directory_guess(line_name(s), ends_with_slash(line_body(s))),
    }
}

/// One line of a diagram, classified.
#[derive(Debug)]
pub struct ClassifiedLine {
    pub name: String,
    pub depth: usize,
    pub is_directory: bool,
}

impl View for ClassifiedLine {
    type V = LineModel;

    open spec fn view(&self) -> LineModel {
        LineModel { name: self.name@, depth: self.depth as nat, is_directory: self.is_directory }
    }
}

/// White space as `char::is_whitespace` defines it.
pub fn is_space_char(c: char) -> (r: bool)
    ensures
        r == is_space(c),
{
    let u = c as u32;
    (0x9 <= u && u <= 0xD) || u == 0x20 || u == 0x85 || u == 0xA0 || u == 0x1680
        || (0x2000 <= u && u <= 0x200A) || u == 0x2028 || u == 0x2029 || u == 0x202F
        || u == 0x205F || u == 0x3000
}

/// Whether a line holds nothing but white space.
pub fn is_blank(line: &Vec<char>) -> (r: bool)
    ensures
        r == (forall|i: int| 0 <= i < line@.len() ==> is_space(#[trigger] line@[i])),
{
    let mut i: usize = 0;
    while i < line.len()
        invariant
            i <= line@.len(),
            forall|k: int| 0 <= k < i ==> is_space(#[trigger] line@[k]),
        decreases line.len() - i,
    {
        if !is_space_char(line[i]) {
            return false;
        }
        i += 1;
    }
    true
}

/// The kind policy on its own: a name marked with a trailing `/`, or one
/// without a `.`, is taken for a directory.
pub fn looks_like_directory(name: &Vec<char>, slash: bool) -> (r: bool)
    ensures
        r == directory_guess(name@, slash),
{
    if slash {
        return true;
    }
    let mut i: usize = 0;
    while i < name.len()
        invariant
            !slash,
            i <= name@.len(),
            forall|k: int| 0 <= k < i ==> name@[k] != '.',
        decreases name.len() - i,
    {
        if name[i] == '.' {
            assert(name@[i as int] == '.');
            assert(name@.contains('.'));
            return false;
        }
        i += 1;
    }
    assert(!name@.contains('.'));
    true
}

/// Classifies one line: counts the connector glyphs before the name, strips
/// glyphs, dashes, white space and one trailing `/`, and guesses the kind.
pub fn classify(line: &Vec<char>) -> (r: ClassifiedLine)
    ensures
        r@ == classify_spec(line@),
{
    let ghost s = line@;
    let n = line.len();
    let mut i: usize = 0;
    let mut depth: usize = 0;
    while i < n && (line[i] == '│' || line[i] == '├' || line[i] == '└' || line[i] == '─' || is_space_char(line[i]))
        invariant
            s == line@,
            n == s.len(),
            i <= n,
            depth == connectors(s, i as int),
            depth <= i,
            lead_end(s, 0) == lead_end(s, i as int),
        decreases n - i,
    {
        if line[i] == '│' || line[i] == '├' || line[i] == '└' {
            depth += 1;
        }
        i += 1;
    }
    let start = i;
    let mut end = n;
    while end > start && is_space_char(line[end - 1])
        invariant
            s == line@,
            n == s.len(),
            start <= end <= n,
            trimmed_end(s, start as int, n as int) == trimmed_end(s, start as int, end as int),
        decreases end - start,
    {
        end -= 1;
    }
    let slash = end > start && line[end - 1] == '/';
    let stop = if slash { end - 1 } else { end };
    let mut name_chars: Vec<char> = Vec::new();
    let mut k = start;
    while k < stop
        invariant
            s == line@,
            n == s.len(),
            start <= k <= stop,
            stop <= n,
            name_chars@ == s.subrange(start as int, k as int),
        decreases stop - k,
    {
        name_chars.push(line[k]);
        k += 1;
        assert(name_chars@ =~= s.subrange(start as int, k as int));
    }
    let is_directory = looks_like_directory(&name_chars, slash);
    let name = string_from_chars(name_chars.as_slice());
    let ghost b = line_body(s);
    assert(b =~= s.subrange(start as int, end as int));
    assert(name_chars@ =~= line_name(s));
    ClassifiedLine { name, depth, is_directory }
}

} // verus!
