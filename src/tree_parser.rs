//! Turning a whole diagram into a `ProjectStructure`.
use vstd::prelude::*;
use std::collections::HashMap;
use crate::classify::{classify, classify_spec, is_blank, is_space, line_name, ClassifiedLine, LineModel};
use crate::error::ForgeTreeError;
use crate::structure::{dirs_hold_children, models, ItemModel, ItemType, ProjectStructure, StructureItem};
use crate::text::{chars_of, string_from_chars};

verus! {

/// The text cut at each `\n`, the last piece included (it may be empty).
pub open spec fn split_lines(s: Seq<char>) -> Seq<Seq<char>>
    decreases s.len(),
{
    if s.len() == 0 {
        seq![seq![]]
    } else {
        let r = split_lines(s.drop_last());
        if s.last() == '\n' {
            r.push(seq![])
        } else {
            r.update(r.len() - 1, r.last().push(s.last()))
        }
    }
}

pub open spec fn is_blank_line(l: Seq<char>) -> bool {
    forall|i: int| 0 <= i < l.len() ==> is_space(#[trigger] l[i])
}

/// The lines that are not blank, in order.
pub open spec fn nonblank(ls: Seq<Seq<char>>) -> Seq<Seq<char>>
    decreases ls.len(),
{
    if ls.len() == 0 {
        seq![]
    } else if is_blank_line(ls.last()) {
        nonblank(ls.drop_last())
    } else {
        nonblank(ls.drop_last()).push(ls.last())
    }
}

/// The non-blank lines of a text: the root line first, then the items.
pub open spec fn content_lines(s: Seq<char>) -> Seq<Seq<char>> {
    nonblank(split_lines(s))
}

/// The first index at or after `j` whose line names nothing (or the end).
pub open spec fn first_unnamed(ls: Seq<Seq<char>>, j: int) -> int
    decreases ls.len() - j,
{
    if j < 0 {
        first_unnamed(ls, 0)
    } else if j < ls.len() {
        if line_name(ls[j]).len() == 0 {
            j
        } else {
            first_unnamed(ls, j + 1)
        }
    } else {
        ls.len() as int
    }
}

/// The item lines (all but the root line), classified.
pub open spec fn item_lines(ls: Seq<Seq<char>>) -> Seq<LineModel> {
    ls.drop_first().map_values(|l: Seq<char>| classify_spec(l))
}

/// The first index at or after `j`, below `hi`, whose depth is not greater than `d`.
pub open spec fn run_end(ls: Seq<LineModel>, d: nat, j: int, hi: int) -> int
    decreases hi - j,
{
    if j < hi && ls[j].depth > d {
        run_end(ls, d, j + 1, hi)
    } else {
        j
    }
}

/// The item that a line and its children make: with children it is always a
/// directory, otherwise the line's guess decides.
pub open spec fn node(l: LineModel, children: Seq<ItemModel>) -> ItemModel {
    ItemModel {
        name: l.name,
        path: l.name,
        kind: if children.len() > 0 || l.is_directory {
            ItemType::Directory
        } else {
            ItemType::File
        },
        template: None,
        content: None,
        children,
    }
}

/// The items that `ls[lo..hi]` make. The first line starts an item whose
/// children are the lines right after it that are deeper than it; the next
/// line that is not deeper starts the next sibling.
pub open spec fn forest(ls: Seq<LineModel>, lo: int, hi: int) -> Seq<ItemModel>
    decreases hi - lo,
    via forest_decreases
{
    if lo < hi {
        let k = run_end(ls, ls[lo].depth, lo + 1, hi);
        seq![node(ls[lo], forest(ls, lo + 1, k))] + forest(ls, k, hi)
    } else {
        seq![]
    }
}

#[via_fn]
proof fn forest_decreases(ls: Seq<LineModel>, lo: int, hi: int) {
    if lo < hi {
        lemma_run_end_bounds(ls, ls[lo].depth, lo + 1, hi);
    }
}

/// What parsing a text yields, when it succeeds.
pub open spec fn parsed_items(text: Seq<char>) -> Seq<ItemModel> {
    let ls = content_lines(text);
    forest(item_lines(ls), 0, ls.len() - 1)
}

pub proof fn lemma_run_end_bounds(ls: Seq<LineModel>, d: nat, j: int, hi: int)
    requires
        j <= hi,
    ensures
        j <= run_end(ls, d, j, hi) <= hi,
        run_end(ls, d, j, hi) < hi ==> ls[run_end(ls, d, j, hi)].depth <= d,
    decreases hi - j,
{
    if j < hi && ls[j].depth > d {
        lemma_run_end_bounds(ls, d, j + 1, hi);
    }
}

proof fn lemma_split_nonempty(s: Seq<char>)
    ensures
        split_lines(s).len() >= 1,
    decreases s.len(),
{
    if s.len() > 0 {
        lemma_split_nonempty(s.drop_last());
    }
}

proof fn lemma_models_push(items: Seq<StructureItem>, x: StructureItem)
    ensures
        models(items.push(x)) == models(items).push(x.model()),
    decreases items.len(),
{
    let p = items.push(x);
    if items.len() > 0 {
        let rest = items.subrange(1, items.len() as int);
        lemma_models_push(rest, x);
        assert(p.subrange(1, p.len() as int) =~= rest.push(x));
        assert(p[0] == items[0]);
        assert(models(p) == seq![items[0].model()] + models(rest.push(x)));
        assert(models(items) == seq![items[0].model()] + models(rest));
        assert(models(p) =~= models(items).push(x.model()));
    } else {
        assert(p.subrange(1, 1) =~= Seq::<StructureItem>::empty());
        assert(models(Seq::<StructureItem>::empty()) == Seq::<ItemModel>::empty());
        assert(models(p) == seq![x.model()] + models(Seq::<StructureItem>::empty()));
        assert(models(p) =~= models(items).push(x.model()));
    }
}

pub open spec fn line_views(v: Seq<ClassifiedLine>) -> Seq<LineModel> {
    v.map_values(|l: ClassifiedLine| l@)
}

/// The indices of the lines that start the top-level items of `forest(ls, lo, hi)`.
pub open spec fn starts(ls: Seq<LineModel>, lo: int, hi: int) -> Seq<int>
    decreases hi - lo,
    via starts_decreases
{
    if lo < hi {
        seq![lo] + starts(ls, run_end(ls, ls[lo].depth, lo + 1, hi), hi)
    } else {
        seq![]
    }
}

#[via_fn]
proof fn starts_decreases(ls: Seq<LineModel>, lo: int, hi: int) {
    if lo < hi {
        lemma_run_end_bounds(ls, ls[lo].depth, lo + 1, hi);
    }
}

/// A run that would stop at `k` anyway stops at the same place when cut off at `k`.
proof fn lemma_run_end_cut(ls: Seq<LineModel>, d: nat, j: int, k: int, hi: int)
    requires
        j <= k <= hi,
        k == hi || ls[k].depth <= d,
    ensures
        run_end(ls, d, j, hi) == run_end(ls, d, j, k),
    decreases k - j,
{
    if j < k && ls[j].depth > d {
        lemma_run_end_cut(ls, d, j + 1, k, hi);
    }
}

proof fn lemma_starts_shape(ls: Seq<LineModel>, lo: int, hi: int)
    requires
        lo <= hi,
    ensures
        starts(ls, lo, hi).len() == forest(ls, lo, hi).len(),
        forall|j: int| 0 <= j < starts(ls, lo, hi).len() ==> lo <= #[trigger] starts(ls, lo, hi)[j] < hi,
        lo < hi ==> starts(ls, lo, hi)[0] == lo,
    decreases hi - lo,
{
    if lo < hi {
        let k = run_end(ls, ls[lo].depth, lo + 1, hi);
        lemma_run_end_bounds(ls, ls[lo].depth, lo + 1, hi);
        lemma_starts_shape(ls, k, hi);
        let s = starts(ls, lo, hi);
        assert forall|j: int| 0 <= j < s.len() implies lo <= #[trigger] s[j] < hi by {
            if j > 0 {
                assert(s[j] == starts(ls, k, hi)[j - 1]);
            }
        }
    }
}

/// Lines `[lo, k)` all deeper than `dd`, and line `k` (if any) not deeper:
/// the items of `[lo, hi)` are those of `[lo, k)` followed by those of `[k, hi)`.
proof fn lemma_forest_split(ls: Seq<LineModel>, lo: int, k: int, hi: int, dd: nat)
    requires
        0 <= lo <= k <= hi <= ls.len(),
        forall|m: int| lo <= m < k ==> #[trigger] ls[m].depth > dd,
        k == hi || ls[k].depth <= dd,
    ensures
        forest(ls, lo, hi) == forest(ls, lo, k) + forest(ls, k, hi),
        starts(ls, lo, hi) == starts(ls, lo, k) + starts(ls, k, hi),
    decreases k - lo,
{
    if lo == k {
        assert(forest(ls, lo, hi) =~= forest(ls, lo, k) + forest(ls, k, hi));
        assert(starts(ls, lo, hi) =~= starts(ls, lo, k) + starts(ls, k, hi));
    } else {
        let d0 = ls[lo].depth;
        lemma_run_end_cut(ls, d0, lo + 1, k, hi);
        let k1 = run_end(ls, d0, lo + 1, k);
        lemma_run_end_bounds(ls, d0, lo + 1, k);
        lemma_forest_split(ls, k1, k, hi, dd);
        assert(forest(ls, lo, hi) =~= forest(ls, lo, k) + forest(ls, k, hi));
        assert(starts(ls, lo, hi) =~= starts(ls, lo, k) + starts(ls, k, hi));
    }
}

/// The stack holds the items of `f`, the first on top, each with the depth
/// of the line that starts it.
pub open spec fn stack_holds(st: Seq<(usize, StructureItem)>, f: Seq<ItemModel>, s: Seq<int>, ls: Seq<LineModel>) -> bool {
    &&& st.len() == f.len()
    &&& st.len() == s.len()
    &&& forall|j: int| 0 <= j < st.len() ==> (#[trigger] st[st.len() - 1 - j]).1.model() == f[j]
        && st[st.len() - 1 - j].0 == ls[s[j]].depth
}

/// Builds the items of all `lines`. The lines are read from the last to the
/// first over a stack of finished items; a line takes as its children the
/// items on top of the stack that are deeper than it. No recursion: deep
/// diagrams need no deep call stack.
fn build_items(lines: &Vec<ClassifiedLine>) -> (r: Vec<StructureItem>)
    ensures
        models(r@) == forest(line_views(lines@), 0, lines@.len() as int),
{
    let ghost ls = line_views(lines@);
    let n = lines.len();
    let mut stack: Vec<(usize, StructureItem)> = Vec::new();
    let mut i = n;
    proof {
        assert(forest(ls, n as int, n as int) =~= Seq::<ItemModel>::empty());
        assert(starts(ls, n as int, n as int) =~= Seq::<int>::empty());
    }
    while i > 0
        invariant
            ls == line_views(lines@),
            n == lines@.len(),
            i <= n,
            stack_holds(stack@, forest(ls, i as int, n as int), starts(ls, i as int, n as int), ls),
        decreases i,
    {
        i -= 1;
        let d = lines[i].depth;
        let ghost big = forest(ls, i + 1, n as int);
        let ghost bst = starts(ls, i + 1, n as int);
        let ghost k = run_end(ls, d as nat, i + 1, n as int);
        let ghost st0 = stack@;
        proof {
            assert(ls[i as int].depth == d);
            lemma_run_end_bounds(ls, d as nat, i + 1, n as int);
            assert forall|m: int| i + 1 <= m < k implies #[trigger] ls[m].depth > d by {
                lemma_run_end_all_deeper(ls, d as nat, i + 1, n as int, m);
            }
            lemma_forest_split(ls, i + 1, k, n as int, d as nat);
            lemma_starts_shape(ls, i + 1, k);
            lemma_starts_shape(ls, k, n as int);
            lemma_starts_shape(ls, i + 1, n as int);
        }
        let ghost c1 = forest(ls, i + 1, k).len();
        let mut children: Vec<StructureItem> = Vec::new();
        while stack.len() > 0 && stack[stack.len() - 1].0 > d
            invariant
                ls == line_views(lines@),
                n == lines@.len(),
                i < n,
                d == ls[i as int].depth,
                i + 1 <= k <= n,
                big == forest(ls, i + 1, k) + forest(ls, k, n as int),
                bst == starts(ls, i + 1, k) + starts(ls, k, n as int),
                starts(ls, i + 1, k).len() == c1,
                starts(ls, k, n as int).len() == forest(ls, k, n as int).len(),
                forall|j: int| 0 <= j < c1 ==> i + 1 <= #[trigger] starts(ls, i + 1, k)[j] < k,
                forall|m: int| i + 1 <= m < k ==> #[trigger] ls[m].depth > d,
                k < n ==> starts(ls, k, n as int)[0] == k,
                k < n ==> ls[k].depth <= d,
                stack_holds(st0, big, bst, ls),
                children@.len() <= c1,
                stack@ == st0.take(st0.len() - children@.len()),
                models(children@) == big.take(children@.len() as int),
            decreases stack.len(),
        {
            let c = children.len();
            proof {
                assert(stack@[stack@.len() - 1] == st0[st0.len() - 1 - c]);
                if c >= c1 {
                    assert(c == c1);
                    assert(forest(ls, k, n as int).len() > 0);
                    assert(bst[c as int] == starts(ls, k, n as int)[0]);
                }
            }
            let (_, it) = stack.pop().unwrap();
            let ghost before = children@;
            children.push(it);
            proof {
                lemma_models_push(before, it);
                assert(it.model() == big[c as int]);
                assert(big.take(c + 1) =~= big.take(c as int).push(big[c as int]));
                assert(stack@ =~= st0.take(st0.len() - (c + 1)));
            }
        }
        proof {
            let c = children@.len();
            if c < c1 {
                assert(stack@.len() > 0);
                assert(stack@[stack@.len() - 1] == st0[st0.len() - 1 - c]);
                assert(bst[c as int] == starts(ls, i + 1, k)[c as int]);
            }
            assert(c == c1);
            assert(big.take(c as int) =~= forest(ls, i + 1, k));
        }
        let is_dir = children.len() > 0 || lines[i].is_directory;
        let item = StructureItem {
            name: lines[i].name.clone(),
            path: lines[i].name.clone(),
            item_type: if is_dir { ItemType::Directory } else { ItemType::File },
            template: None,
            content: None,
            children,
        };
        let ghost rest = stack@;
        stack.push((d, item));
        proof {
            let f = forest(ls, i as int, n as int);
            let s = starts(ls, i as int, n as int);
            assert(item.model() == node(ls[i as int], forest(ls, i + 1, k)));
            assert(f == seq![item.model()] + forest(ls, k, n as int));
            assert(s == seq![i as int] + starts(ls, k, n as int));
            assert forall|j: int| 0 <= j < stack@.len() implies (#[trigger] stack@[stack@.len() - 1 - j]).1.model() == f[j]
                && stack@[stack@.len() - 1 - j].0 == ls[s[j]].depth by {
                if j > 0 {
                    assert(stack@[stack@.len() - 1 - j] == st0[st0.len() - 1 - (j - 1 + c1)]);
                    assert(f[j] == big[j - 1 + c1]);
                    assert(s[j] == bst[j - 1 + c1]);
                }
            }
        }
    }
    let mut out: Vec<StructureItem> = Vec::new();
    let ghost all = forest(ls, 0, n as int);
    let ghost st0 = stack@;
    while stack.len() > 0
        invariant
            stack_holds(st0, all, starts(ls, 0, n as int), ls),
            stack@ == st0.take(st0.len() - out@.len()),
            models(out@) == all.take(out@.len() as int),
            out@.len() <= st0.len(),
        decreases stack.len(),
    {
        let c = out.len();
        proof {
            assert(stack@[stack@.len() - 1] == st0[st0.len() - 1 - c]);
        }
        let (_, it) = stack.pop().unwrap();
        let ghost before = out@;
        out.push(it);
        proof {
            lemma_models_push(before, it);
            assert(all.take(c + 1) =~= all.take(c as int).push(all[c as int]));
            assert(stack@ =~= st0.take(st0.len() - (c + 1)));
        }
    }
    assert(all.take(out@.len() as int) =~= all);
    out
}

proof fn lemma_run_end_all_deeper(ls: Seq<LineModel>, d: nat, j: int, hi: int, m: int)
    requires
        j <= m < run_end(ls, d, j, hi),
    ensures
        ls[m].depth > d,
    decreases hi - j,
{
    if j < hi && ls[j].depth > d {
        if m > j {
            lemma_run_end_all_deeper(ls, d, j + 1, hi, m);
        }
    }
}

/// Cuts the text into its non-blank lines.
fn content_lines_of(text: &Vec<char>) -> (r: Vec<Vec<char>>)
    ensures
        r@.map_values(|l: Vec<char>| l@) == content_lines(text@),
{
    let ghost s = text@;
    let mut kept: Vec<Vec<char>> = Vec::new();
    let mut cur: Vec<char> = Vec::new();
    let mut i: usize = 0;
    proof {
        assert(s.subrange(0, 0) =~= Seq::<char>::empty());
    }
    while i < text.len()
        invariant
            s == text@,
            i <= s.len(),
            split_lines(s.subrange(0, i as int)).len() >= 1,
            cur@ == split_lines(s.subrange(0, i as int)).last(),
            kept@.map_values(|l: Vec<char>| l@) == nonblank(split_lines(s.subrange(0, i as int)).drop_last()),
        decreases s.len() - i,
    {
        let ghost pre = s.subrange(0, i as int);
        let ghost next = s.subrange(0, i + 1);
        proof {
            assert(next.drop_last() =~= pre);
            lemma_split_nonempty(next);
        }
        let c = text[i];
        if c == '\n' {
            let blank = is_blank(&cur);
            if !blank {
                let ghost old_kept = kept@;
                kept.push(cur);
                proof {
                    assert(kept@.map_values(|l: Vec<char>| l@) =~= old_kept.map_values(|l: Vec<char>| l@).push(
                        split_lines(pre).last()));
                    assert(split_lines(pre).drop_last().push(split_lines(pre).last()) =~= split_lines(pre));
                }
            } else {
                proof {
                    assert(split_lines(pre).drop_last().push(split_lines(pre).last()) =~= split_lines(pre));
                }
            }
            cur = Vec::new();
            proof {
                assert(split_lines(next).drop_last() =~= split_lines(pre));
            }
        } else {
            cur.push(c);
            proof {
                assert(split_lines(next).drop_last() =~= split_lines(pre).drop_last());
            }
        }
        i += 1;
    }
    proof {
        assert(s.subrange(0, i as int) =~= s);
        assert(split_lines(s).drop_last().push(split_lines(s).last()) =~= split_lines(s));
    }
    if !is_blank(&cur) {
        let ghost old_kept = kept@;
        kept.push(cur);
        proof {
            assert(kept@.map_values(|l: Vec<char>| l@) =~= old_kept.map_values(|l: Vec<char>| l@).push(
                split_lines(s).last()));
        }
    }
    kept
}

proof fn lemma_dirs_single_concat(x: ItemModel, rest: Seq<ItemModel>)
    requires
        x.children.len() > 0 ==> x.kind == ItemType::Directory,
        dirs_hold_children(x.children),
        dirs_hold_children(rest),
    ensures
        dirs_hold_children(seq![x] + rest),
{
    let s = seq![x] + rest;
    assert(s[0] == x);
    assert(s.subrange(1, s.len() as int) =~= rest);
}

proof fn lemma_forest_dirs(ls: Seq<LineModel>, lo: int, hi: int)
    ensures
        dirs_hold_children(forest(ls, lo, hi)),
    decreases hi - lo,
{
    if lo < hi {
        let k = run_end(ls, ls[lo].depth, lo + 1, hi);
        lemma_run_end_bounds(ls, ls[lo].depth, lo + 1, hi);
        lemma_forest_dirs(ls, lo + 1, k);
        lemma_forest_dirs(ls, k, hi);
        lemma_dirs_single_concat(node(ls[lo], forest(ls, lo + 1, k)), forest(ls, k, hi));
    } else {
        assert(dirs_hold_children(Seq::<ItemModel>::empty()));
    }
}

/// Whatever a diagram holds, every parsed item that has children, at any
/// depth, is a directory, whatever its name suggests.
pub proof fn lemma_parsed_items_with_children_are_directories(text: Seq<char>)
    ensures
        dirs_hold_children(parsed_items(text)),
{
    let ls = content_lines(text);
    lemma_forest_dirs(item_lines(ls), 0, ls.len() - 1);
}

/// Parses tree diagrams.
pub struct TreeParser {}

impl TreeParser {
    pub fn new() -> (r: TreeParser) {
        TreeParser {}
    }

    /// Parses a diagram. The first non-blank line names the root directory;
    /// every further non-blank line is one item, whose children are the
    /// lines right after it that have more connector glyphs than it.
    pub fn parse(&self, input: &str) -> (r: Result<ProjectStructure, ForgeTreeError>)
        ensures
            ({
                let ls = content_lines(input@);
                let j = first_unnamed(ls, 1);
                if ls.len() == 0 {
                    r is Err && r->Err_0 is EmptyInput
                } else if line_name(ls[0]).len() == 0 {
                    r is Err && r->Err_0 is InvalidRoot
                } else if j < ls.len() {
                    r is Err && r->Err_0 is EmptyName && r->Err_0->EmptyName_0@ == ls[j]
                } else {
                    &&& r is Ok
                    &&& r->Ok_0.root@ == line_name(ls[0])
                    &&& models(r->Ok_0.items@) == parsed_items(input@)
                    &&& r->Ok_0.variables@ == Map::<String, String>::empty()
                }
            }),
    {
        let text = chars_of(input);
        let lines = content_lines_of(&text);
        let ghost ls = content_lines(input@);
        proof {
            assert(lines@.len() == ls.len());
            assert(forall|j: int| 0 <= j < ls.len() ==> lines@[j]@ == ls[j]);
        }
        if lines.len() == 0 {
            return Err(ForgeTreeError::EmptyInput);
        }
        let root = classify(&lines[0]);
        if root.name.as_str().is_empty() {
            return Err(ForgeTreeError::InvalidRoot);
        }
        let mut classified: Vec<ClassifiedLine> = Vec::new();
        let mut j: usize = 1;
        while j < lines.len()
            invariant
                ls == content_lines(input@),
                lines@.len() == ls.len(),
                forall|q: int| 0 <= q < ls.len() ==> lines@[q]@ == ls[q],
                1 <= j <= lines@.len(),
                line_name(ls[0]).len() != 0,
                root@ == classify_spec(ls[0]),
                first_unnamed(ls, 1) == first_unnamed(ls, j as int),
                line_views(classified@) == item_lines(ls).subrange(0, j - 1),
            decreases lines.len() - j,
        {
            let c = classify(&lines[j]);
            if c.name.as_str().is_empty() {
                proof {
                    assert(first_unnamed(ls, j as int) == j);
                }
                return Err(ForgeTreeError::EmptyName(string_from_chars(lines[j].as_slice())));
            }
            let ghost before = classified@;
            classified.push(c);
            proof {
                assert(line_views(classified@) =~= line_views(before).push(c@));
                assert(item_lines(ls).subrange(0, j as int) =~= item_lines(ls).subrange(0, j - 1).push(c@));
            }
            j += 1;
        }
        proof {
            assert(line_views(classified@) =~= item_lines(ls));
        }
        let items = build_items(&classified);
        Ok(ProjectStructure { root: root.name, items, variables: HashMap::new() })
    }
}

/// The entry point for reading diagrams.
pub struct Parser {
    tree_parser: TreeParser,
}

impl Parser {
    pub fn new() -> (r: Parser) {
        Parser { tree_parser: TreeParser::new() }
    }

    /// Parses a diagram; see `TreeParser::parse`.
    pub fn parse(&self, input: &str) -> (r: Result<ProjectStructure, ForgeTreeError>)
        ensures
            ({
                let ls = content_lines(input@);
                let j = first_unnamed(ls, 1);
                if ls.len() == 0 {
                    r is Err && r->Err_0 is EmptyInput
                } else if line_name(ls[0]).len() == 0 {
                    r is Err && r->Err_0 is InvalidRoot
                } else if j < ls.len() {
                    r is Err && r->Err_0 is EmptyName && r->Err_0->EmptyName_0@ == ls[j]
                } else {
                    &&& r is Ok
                    &&& r->Ok_0.root@ == line_name(ls[0])
                    &&& models(r->Ok_0.items@) == parsed_items(input@)
                    &&& r->Ok_0.variables@ == Map::<String, String>::empty()
                }
            }),
    {
        self.tree_parser.parse(input)
    }
}

} // verus!
