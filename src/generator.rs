//! Laying out a `ProjectStructure`: the ordered list of entries to create,
//! the decision taken at each entry given what is already on disk, and the
//! laws of a whole run over a model of the filesystem.
use vstd::prelude::*;
use crate::error::ForgeTreeError;
use crate::classify::{line_name, LineModel};
use crate::structure::{count_items, models, ItemModel, ItemType, ProjectStructure, StructureItem};
use crate::text::{chars_of, string_from_chars};
use crate::tree_parser::{content_lines, forest, item_lines, lemma_run_end_bounds, node, parsed_items, run_end};

verus! {

broadcast use vstd::std_specs::vec::axiom_vec_decreases_to_view, vstd::seq::axiom_seq_index_decreases,
    vstd::seq::axiom_seq_subrange_decreases;

/// Where a file's content comes from.
#[derive(Debug)]
pub enum ContentSource {
    /// No content: the file is empty.
    Empty,
    /// The item's literal content.
    Literal(String),
    /// The item's template, to be rendered with the structure's variables.
    Template(String),
}

pub enum SourceModel {
    Empty,
    Literal(Seq<char>),
    Template(Seq<char>),
}

impl View for ContentSource {
    type V = SourceModel;

    open spec fn view(&self) -> SourceModel {
        match self {
            ContentSource::Empty => SourceModel::Empty,
            ContentSource::Literal(s) => SourceModel::Literal(s@),
            ContentSource::Template(s) => SourceModel::Template(s@),
        }
    }
}

/// One entry to create: its path below the output directory (components
/// joined by `/`), its kind, and for a file where its content comes from.
#[derive(Debug)]
pub struct PlannedEntry {
    pub path: String,
    pub kind: ItemType,
    pub source: ContentSource,
}

pub struct EntryModel {
    pub path: Seq<char>,
    pub kind: ItemType,
    pub source: SourceModel,
}

impl View for PlannedEntry {
    type V = EntryModel;

    open spec fn view(&self) -> EntryModel {
        EntryModel { path: self.path@, kind: self.kind, source: self.source@ }
    }
}

pub open spec fn entry_views(v: Seq<PlannedEntry>) -> Seq<EntryModel> {
    v.map_values(|e: PlannedEntry| e@)
}

/// A path below `base`.
pub open spec fn join(base: Seq<char>, name: Seq<char>) -> Seq<char> {
    base + seq!['/'] + name
}

/// Literal content wins over a template; with neither the file is empty.
pub open spec fn source_model(m: ItemModel) -> SourceModel {
    match m.content {
        Some(c) => SourceModel::Literal(c),
        None => match m.template {
            Some(t) => SourceModel::Template(t),
            None => SourceModel::Empty,
        },
    }
}

/// The entries for `items` below `base`, depth first: each item, then
/// everything below it, then its next sibling.
pub open spec fn plan_items(base: Seq<char>, items: Seq<ItemModel>) -> Seq<EntryModel>
    decreases items,
{
    if items.len() == 0 {
        seq![]
    } else {
        let p = join(base, items[0].name);
        seq![EntryModel { path: p, kind: items[0].kind, source: source_model(items[0]) }]
            + plan_items(p, items[0].children) + plan_items(base, items.subrange(1, items.len() as int))
    }
}

/// The whole plan: the root directory first, then every item.
pub open spec fn plan_spec(root: Seq<char>, items: Seq<ItemModel>) -> Seq<EntryModel> {
    seq![EntryModel { path: root, kind: ItemType::Directory, source: SourceModel::Empty }]
        + plan_items(root, items)
}

pub proof fn lemma_models_index(items: Seq<StructureItem>)
    ensures
        models(items).len() == items.len(),
        forall|i: int| 0 <= i < items.len() ==> #[trigger] models(items)[i] == items[i].model(),
    decreases items.len(),
{
    if items.len() > 0 {
        let rest = items.subrange(1, items.len() as int);
        lemma_models_index(rest);
        assert forall|i: int| 0 <= i < items.len() implies #[trigger] models(items)[i] == items[i].model() by {
            if i > 0 {
                assert(models(items)[i] == models(rest)[i - 1]);
            }
        }
    }
}

pub proof fn lemma_plan_items_concat(base: Seq<char>, a: Seq<ItemModel>, b: Seq<ItemModel>)
    ensures
        plan_items(base, a + b) == plan_items(base, a) + plan_items(base, b),
    decreases a.len(),
{
    if a.len() == 0 {
        assert(a + b =~= b);
        assert(plan_items(base, a) + plan_items(base, b) =~= plan_items(base, b));
    } else {
        let ab = a + b;
        let ra = a.subrange(1, a.len() as int);
        lemma_plan_items_concat(base, ra, b);
        assert(ab.subrange(1, ab.len() as int) =~= ra + b);
        assert(ab[0] == a[0]);
        let p = join(base, a[0].name);
        let e = seq![EntryModel { path: p, kind: a[0].kind, source: source_model(a[0]) }];
        assert(plan_items(base, ab) == e + plan_items(p, a[0].children) + plan_items(base, ra + b));
        assert(plan_items(base, a) == e + plan_items(p, a[0].children) + plan_items(base, ra));
        assert(plan_items(base, ab) =~= plan_items(base, a) + plan_items(base, b));
    }
}

pub proof fn lemma_plan_items_single(base: Seq<char>, m: ItemModel)
    ensures
        plan_items(base, seq![m]) == seq![EntryModel { path: join(base, m.name), kind: m.kind, source: source_model(m) }]
            + plan_items(join(base, m.name), m.children),
{
    let s = seq![m];
    assert(s.subrange(1, 1) =~= Seq::<ItemModel>::empty());
    assert(plan_items(base, Seq::<ItemModel>::empty()) == Seq::<EntryModel>::empty());
    assert(plan_items(base, s) =~= seq![EntryModel { path: join(base, m.name), kind: m.kind, source: source_model(m) }]
        + plan_items(join(base, m.name), m.children));
}

/// `path` ends in `/name`.
pub open spec fn ends_in(path: Seq<char>, name: Seq<char>) -> bool {
    path.len() > name.len() && path[path.len() - name.len() - 1] == '/'
        && path.subrange(path.len() - name.len(), path.len() as int) == name
}

pub proof fn lemma_plan_items_len(base: Seq<char>, items: Seq<ItemModel>)
    ensures
        plan_items(base, items).len() == count_items(items),
    decreases items,
{
    if items.len() > 0 {
        lemma_plan_items_len(join(base, items[0].name), items[0].children);
        lemma_plan_items_len(base, items.subrange(1, items.len() as int));
    }
}

proof fn lemma_plan_forest(base: Seq<char>, ls: Seq<LineModel>, lo: int, hi: int)
    requires
        0 <= lo <= hi <= ls.len(),
    ensures
        plan_items(base, forest(ls, lo, hi)).len() == hi - lo,
        forall|j: int| lo <= j < hi ==> ends_in(#[trigger] plan_items(base, forest(ls, lo, hi))[j - lo].path, ls[j].name),
    decreases hi - lo,
{
    if lo < hi {
        let k = run_end(ls, ls[lo].depth, lo + 1, hi);
        lemma_run_end_bounds(ls, ls[lo].depth, lo + 1, hi);
        let f1 = forest(ls, lo + 1, k);
        let f2 = forest(ls, k, hi);
        let n = node(ls[lo], f1);
        let p = join(base, ls[lo].name);
        lemma_plan_forest(p, ls, lo + 1, k);
        lemma_plan_forest(base, ls, k, hi);
        lemma_plan_items_concat(base, seq![n], f2);
        lemma_plan_items_single(base, n);
        let whole = plan_items(base, forest(ls, lo, hi));
        let e = seq![EntryModel { path: p, kind: n.kind, source: source_model(n) }];
        assert(whole == e + plan_items(p, f1) + plan_items(base, f2));
        assert forall|j: int| lo <= j < hi implies ends_in(#[trigger] whole[j - lo].path, ls[j].name) by {
            if j == lo {
                assert(whole[0] == e[0]);
                assert(p.subrange(p.len() - ls[lo].name.len(), p.len() as int) =~= ls[lo].name);
            } else if j < k {
                assert(whole[j - lo] == plan_items(p, f1)[j - (lo + 1)]);
            } else {
                assert(whole[j - lo] == plan_items(base, f2)[j - k]);
            }
        }
    }
}

/// Parsing and then planning gives exactly one entry per non-blank line of
/// the diagram, in the order of the lines: the root directory, then one
/// entry per item, each at a path that ends in that item's name (the path
/// being the chain of its ancestors' names).
pub proof fn lemma_one_entry_per_line(text: Seq<char>)
    requires
        content_lines(text).len() > 0,
    ensures
        ({
            let ls = content_lines(text);
            let entries = plan_spec(line_name(ls[0]), parsed_items(text));
            &&& entries.len() == ls.len()
            &&& entries.len() == 1 + count_items(parsed_items(text))
            &&& entries[0].path == line_name(ls[0])
            &&& forall|j: int| 1 <= j < ls.len() ==> ends_in(#[trigger] entries[j].path, line_name(ls[j]))
        }),
{
    let ls = content_lines(text);
    let root = line_name(ls[0]);
    let il = item_lines(ls);
    lemma_plan_forest(root, il, 0, ls.len() - 1);
    lemma_plan_items_len(root, parsed_items(text));
    let entries = plan_spec(root, parsed_items(text));
    assert forall|j: int| 1 <= j < ls.len() implies ends_in(#[trigger] entries[j].path, line_name(ls[j])) by {
        let pf = plan_items(root, forest(il, 0, ls.len() - 1));
        assert(entries[j] == pf[j - 1]);
        assert(ends_in(pf[(j - 1) - 0].path, il[j - 1].name));
        assert(ls.drop_first()[j - 1] == ls[j]);
        assert(il[j - 1] == crate::classify::classify_spec(ls[j]));
    }
}

fn copy_string(s: &String) -> (r: String)
    ensures
        r@ == s@,
{
    s.clone()
}

/// `base/name`.
fn join_path(base: &String, name: &String) -> (r: String)
    ensures
        r@ == join(base@, name@),
{
    let mut v = chars_of(base.as_str());
    v.push('/');
    let n = chars_of(name.as_str());
    let ghost start = v@;
    let mut i: usize = 0;
    while i < n.len()
        invariant
            i <= n@.len(),
            n@ == name@,
            start == base@ + seq!['/'],
            v@ == start + n@.subrange(0, i as int),
        decreases n.len() - i,
    {
        v.push(n[i]);
        i += 1;
        assert(v@ =~= start + n@.subrange(0, i as int));
    }
    assert(n@.subrange(0, i as int) =~= n@);
    string_from_chars(v.as_slice())
}

fn source_of_item(item: &StructureItem) -> (r: ContentSource)
    ensures
        r@ == source_model(item.model()),
{
    match &item.content {
        Some(c) => ContentSource::Literal(copy_string(c)),
        None => match &item.template {
            Some(t) => ContentSource::Template(copy_string(t)),
            None => ContentSource::Empty,
        },
    }
}

/// The entries still to be planned for a stack of frames, the top frame
/// (the last) first. A frame is a sequence of sibling items, the index of the
/// next one to plan, and the path they stand below.
pub open spec fn pending(frames: Seq<(Seq<ItemModel>, int, Seq<char>)>) -> Seq<EntryModel>
    decreases frames.len(),
{
    if frames.len() == 0 {
        seq![]
    } else {
        let f = frames.last();
        plan_items(f.2, f.0.subrange(f.1, f.0.len() as int)) + pending(frames.drop_last())
    }
}

pub open spec fn frame_views(stack: Seq<(&Vec<StructureItem>, usize, String)>) -> Seq<(Seq<ItemModel>, int, Seq<char>)> {
    stack.map_values(|f: (&Vec<StructureItem>, usize, String)| (models(f.0@), f.1 as int, f.2@))
}

proof fn lemma_plan_items_step(base: Seq<char>, s: Seq<ItemModel>, i: int)
    requires
        0 <= i < s.len(),
    ensures
        plan_items(base, s.subrange(i, s.len() as int)) == seq![EntryModel { path: join(base, s[i].name), kind: s[i].kind, source: source_model(s[i]) }]
            + plan_items(join(base, s[i].name), s[i].children) + plan_items(base, s.subrange(i + 1, s.len() as int)),
{
    let t = s.subrange(i, s.len() as int);
    assert(t[0] == s[i]);
    assert(t.subrange(1, t.len() as int) =~= s.subrange(i + 1, s.len() as int));
}

/// Appends the entries for `items` below `base` to `out`, depth first, with a
/// stack of frames in place of recursion, so that deep diagrams need no deep
/// call stack.
fn plan_into(items: &Vec<StructureItem>, base: &String, out: &mut Vec<PlannedEntry>)
    ensures
        entry_views(final(out)@) == entry_views(old(out)@) + plan_items(base@, models(items@)),
{
    let mut stack: Vec<(&Vec<StructureItem>, usize, String)> = Vec::new();
    stack.push((items, 0, copy_string(base)));
    proof {
        lemma_models_index(items@);
        assert(models(items@).subrange(0, models(items@).len() as int) =~= models(items@));
        let fv0 = frame_views(stack@);
        assert(fv0.drop_last() =~= Seq::<(Seq<ItemModel>, int, Seq<char>)>::empty());
        assert(fv0.last() == (models(items@), 0int, base@));
        assert(pending(fv0.drop_last()) == Seq::<EntryModel>::empty());
        assert(pending(fv0) =~= plan_items(base@, models(items@)));
    }
    while stack.len() > 0
        invariant
            forall|j: int| 0 <= j < stack@.len() ==> #[trigger] stack@[j].1 <= stack@[j].0@.len(),
            entry_views(out@) + pending(frame_views(stack@)) == entry_views(old(out)@) + plan_items(base@, models(items@)),
        decreases 2 * pending(frame_views(stack@)).len() + stack@.len(),
    {
        let ghost fv = frame_views(stack@);
        let ghost before = entry_views(out@);
        let frame = stack.pop().unwrap();
        let (sibs, next, at) = frame;
        proof {
            lemma_models_index(sibs@);
            assert(frame_views(stack@) =~= fv.drop_last());
            assert(fv.last() == (models(sibs@), next as int, at@));
        }
        if next < sibs.len() {
            let item = &sibs[next];
            let p = join_path(&at, &item.name);
            let entry = PlannedEntry { path: copy_string(&p), kind: item.item_type, source: source_of_item(item) };
            out.push(entry);
            stack.push((sibs, next + 1, at));
            stack.push((&item.children, 0, p));
            proof {
                let ms = models(sibs@);
                let m = ms[next as int];
                assert(m == item.model());
                lemma_plan_items_step(at@, ms, next as int);
                lemma_models_index(item.children@);
                let cm = models(item.children@);
                assert(cm.subrange(0, cm.len() as int) =~= cm);
                let nv = frame_views(stack@);
                assert(nv.drop_last() =~= fv.drop_last().push((ms, next + 1, at@)));
                assert(nv.drop_last().drop_last() =~= fv.drop_last());
                assert(nv.last() == (cm, 0int, p@));
                assert(entry_views(out@) =~= before.push(entry@));
                assert(pending(nv.drop_last()) == plan_items(at@, ms.subrange(next + 1, ms.len() as int))
                    + pending(fv.drop_last()));
                assert(pending(nv) == plan_items(p@, cm) + pending(nv.drop_last()));
                assert(pending(fv) == plan_items(at@, ms.subrange(next as int, ms.len() as int)) + pending(fv.drop_last()));
                assert(entry_views(out@) + pending(nv) =~= before + pending(fv));
            }
        } else {
            proof {
                let ms = models(sibs@);
                assert(ms.subrange(next as int, ms.len() as int) =~= Seq::<ItemModel>::empty());
                assert(pending(fv) =~= pending(frame_views(stack@)));
            }
        }
    }
    proof {
        assert(pending(frame_views(stack@)) =~= Seq::<EntryModel>::empty());
        assert(entry_views(out@) =~= entry_views(out@) + pending(frame_views(stack@)));
    }
}

/// Settings of a run, and what it plans.
pub struct Generator {
    verbose: bool,
    force_override: bool,
}

impl Generator {
    pub closed spec fn spec_verbose(&self) -> bool {
        self.verbose
    }

    pub closed spec fn spec_force(&self) -> bool {
        self.force_override
    }

    /// Quiet, and never overwriting a file.
    pub fn new() -> (r: Generator)
        ensures
            !r.spec_verbose(),
            !r.spec_force(),
    {
        Generator { verbose: false, force_override: false }
    }

    pub fn with_verbose(self, verbose: bool) -> (r: Generator)
        ensures
            r.spec_verbose() == verbose,
            r.spec_force() == self.spec_force(),
    {
        Generator { verbose, force_override: self.force_override }
    }

    pub fn with_force_override(self, force: bool) -> (r: Generator)
        ensures
            r.spec_force() == force,
            r.spec_verbose() == self.spec_verbose(),
    {
        Generator { verbose: self.verbose, force_override: force }
    }

    pub fn verbose(&self) -> (r: bool)
        ensures
            r == self.spec_verbose(),
    {
        self.verbose
    }

    /// The file decisions of this run.
    pub fn file_generator(&self) -> (r: FileGenerator)
        ensures
            r.spec_force() == self.spec_force(),
    {
        FileGenerator::new().with_force_overwrite(self.force_override)
    }

    /// Every entry of the structure, in the order it is created: the root
    /// directory, then each item followed by everything below it.
    pub fn plan(&self, structure: &ProjectStructure) -> (r: Vec<PlannedEntry>)
        ensures
            entry_views(r@) == plan_spec(structure.root@, models(structure.items@)),
    {
        let mut out: Vec<PlannedEntry> = Vec::new();
        out.push(PlannedEntry {
            path: copy_string(&structure.root),
            kind: ItemType::Directory,
            source: ContentSource::Empty,
        });
        let ghost first = entry_views(out@);
        assert(first =~= seq![EntryModel { path: structure.root@, kind: ItemType::Directory, source: SourceModel::Empty }]);
        plan_into(&structure.items, &structure.root, &mut out);
        out
    }
}

/// What a run finds at a path before it acts there.
#[derive(Debug, Clone, Copy, PartialEq, Eq, Structural)]
pub enum PathState {
    Missing,
    Directory,
    File,
}

/// The decisions taken for each file and directory.
pub struct FileGenerator {
    force_overwrite: bool,
}

impl FileGenerator {
    pub closed spec fn spec_force(&self) -> bool {
        self.force_overwrite
    }

    /// A generator that never overwrites a file.
    pub fn new() -> (r: FileGenerator)
        ensures
            !r.spec_force(),
    {
        FileGenerator { force_overwrite: false }
    }

    pub fn with_force_overwrite(self, force: bool) -> (r: FileGenerator)
        ensures
            r.spec_force() == force,
    {
        FileGenerator { force_overwrite: force }
    }

    pub fn force_overwrite(&self) -> (r: bool)
        ensures
            r == self.spec_force(),
    {
        self.force_overwrite
    }

    /// What to do for an entry of `kind` at `path`, given what stands there.
    /// A directory is created where nothing stands and kept where a directory
    /// stands; a file where a directory stands conflicts. A file is written
    /// where nothing stands, and over a file only when overwriting is on.
    pub fn decide(&self, kind: ItemType, path: &String, existing: PathState) -> (r: Result<Action, ForgeTreeError>)
        ensures
            match verdict(kind, existing, self.spec_force()) {
                Verdict::Create => r == Ok::<Action, ForgeTreeError>(Action::CreateDirectory),
                Verdict::Keep => r == Ok::<Action, ForgeTreeError>(Action::KeepDirectory),
                Verdict::Write => r == Ok::<Action, ForgeTreeError>(Action::WriteFile),
                Verdict::Conflict => r is Err && r->Err_0 is PathTypeConflict && r->Err_0->PathTypeConflict_0@ == path@,
                Verdict::Exists => r is Err && r->Err_0 is FileExists && r->Err_0->FileExists_0@ == path@,
            },
    {
        match kind {
            ItemType::Directory => match existing {
                PathState::File => Err(ForgeTreeError::PathTypeConflict(copy_string(path))),
                PathState::Directory => Ok(Action::KeepDirectory),
                PathState::Missing => Ok(Action::CreateDirectory),
            },
            ItemType::File => {
                if existing != PathState::Missing && !self.force_overwrite {
                    Err(ForgeTreeError::FileExists(copy_string(path)))
                } else if existing == PathState::Directory {
                    Err(ForgeTreeError::PathTypeConflict(copy_string(path)))
                } else {
                    Ok(Action::WriteFile)
                }
            },
        }
    }
}

/// What to do at one entry.
#[derive(Debug, Clone, Copy, PartialEq, Eq, Structural)]
pub enum Action {
    /// Create the directory.
    CreateDirectory,
    /// The directory is there already: nothing to create.
    KeepDirectory,
    /// Create or overwrite the file (and any missing parent directory).
    WriteFile,
}

pub enum Verdict {
    Create,
    Keep,
    Write,
    Conflict,
    Exists,
}

/// The decision for an entry of `kind` where `st` stands.
pub open spec fn verdict(kind: ItemType, st: PathState, force: bool) -> Verdict {
    if kind == ItemType::Directory {
        if st == PathState::File {
            Verdict::Conflict
        } else if st == PathState::Directory {
            Verdict::Keep
        } else {
            Verdict::Create
        }
    } else if st != PathState::Missing && !force {
        Verdict::Exists
    } else if st == PathState::Directory {
        Verdict::Conflict
    } else {
        Verdict::Write
    }
}

/// A node of the modelled filesystem.
pub enum NodeModel {
    Dir,
    File(Seq<char>),
}

/// The modelled filesystem below the output directory: path to node.
pub type FsModel = Map<Seq<char>, NodeModel>;

/// One entry of a plan, its content resolved.
pub struct ResolvedEntry {
    pub path: Seq<char>,
    pub kind: ItemType,
    pub content: Seq<char>,
}

/// Why a run stopped.
pub enum Failure {
    PathTypeConflict(Seq<char>),
    FileExists(Seq<char>),
}

pub open spec fn state_at(fs: FsModel, p: Seq<char>) -> PathState {
    if !fs.contains_key(p) {
        PathState::Missing
    } else {
        match fs[p] {
            NodeModel::Dir => PathState::Directory,
            NodeModel::File(_) => PathState::File,
        }
    }
}

pub open spec fn node_of(w: ResolvedEntry) -> NodeModel {
    if w.kind == ItemType::Directory {
        NodeModel::Dir
    } else {
        NodeModel::File(w.content)
    }
}

/// A run over the modelled filesystem: each entry in turn is decided as
/// `FileGenerator::decide` decides it and applied; the first failure stops
/// the run and leaves in place what was done before it.
pub open spec fn run(ws: Seq<ResolvedEntry>, fs: FsModel, force: bool) -> (Option<Failure>, FsModel)
    decreases ws.len(),
{
    if ws.len() == 0 {
        (None, fs)
    } else {
        let w = ws[0];
        match verdict(w.kind, state_at(fs, w.path), force) {
            Verdict::Conflict => (Some(Failure::PathTypeConflict(w.path)), fs),
            Verdict::Exists => (Some(Failure::FileExists(w.path)), fs),
            _ => run(ws.drop_first(), fs.insert(w.path, node_of(w)), force),
        }
    }
}

/// What the entries leave at each path they name: the last one wins.
pub open spec fn writes(ws: Seq<ResolvedEntry>) -> FsModel
    decreases ws.len(),
{
    if ws.len() == 0 {
        Map::empty()
    } else {
        map![ws[0].path => node_of(ws[0])].union_prefer_right(writes(ws.drop_first()))
    }
}

pub open spec fn node_kind(n: NodeModel) -> ItemType {
    match n {
        NodeModel::Dir => ItemType::Directory,
        NodeModel::File(_) => ItemType::File,
    }
}

/// A run that succeeds leaves what was there, overlaid with what it wrote.
pub proof fn lemma_run_result(ws: Seq<ResolvedEntry>, fs: FsModel, force: bool)
    requires
        run(ws, fs, force).0 is None,
    ensures
        run(ws, fs, force).1 == fs.union_prefer_right(writes(ws)),
    decreases ws.len(),
{
    if ws.len() == 0 {
        assert(fs.union_prefer_right(writes(ws)) =~= fs);
    } else {
        let w = ws[0];
        let rest = ws.drop_first();
        let fs2 = fs.insert(w.path, node_of(w));
        lemma_run_result(rest, fs2, force);
        assert(fs2.union_prefer_right(writes(rest)) =~= fs.union_prefer_right(writes(ws)));
    }
}

/// In a forced run that succeeds, every later entry at a path that already
/// holds something is of the kind that it holds.
proof fn lemma_forced_kinds_agree(ws: Seq<ResolvedEntry>, a: FsModel, p: Seq<char>)
    requires
        run(ws, a, true).0 is None,
        a.contains_key(p),
    ensures
        writes(ws).contains_key(p) ==> node_kind(writes(ws)[p]) == node_kind(a[p]),
    decreases ws.len(),
{
    if ws.len() > 0 {
        let w = ws[0];
        let rest = ws.drop_first();
        let a2 = a.insert(w.path, node_of(w));
        lemma_forced_kinds_agree(rest, a2, p);
        if w.path == p {
            assert(node_kind(node_of(w)) == node_kind(a[p]));
        }
    }
}

/// A forced run that starts where every path the entries name already holds
/// a node of the kind that the entries leave there succeeds.
proof fn lemma_forced_rerun_succeeds(ws: Seq<ResolvedEntry>, a: FsModel, b: FsModel)
    requires
        run(ws, a, true).0 is None,
        forall|q: Seq<char>| #[trigger] writes(ws).contains_key(q) ==> b.contains_key(q) && node_kind(b[q])
            == node_kind(writes(ws)[q]),
    ensures
        run(ws, b, true).0 is None,
    decreases ws.len(),
{
    if ws.len() > 0 {
        let w = ws[0];
        let rest = ws.drop_first();
        let a2 = a.insert(w.path, node_of(w));
        let b2 = b.insert(w.path, node_of(w));
        assert(writes(ws).contains_key(w.path));
        lemma_forced_kinds_agree(rest, a2, w.path);
        assert(node_kind(b[w.path]) == w.kind);
        assert forall|q: Seq<char>| #[trigger] writes(rest).contains_key(q) implies b2.contains_key(q) && node_kind(b2[q])
            == node_kind(writes(rest)[q]) by {
            if q != w.path {
                assert(writes(ws).contains_key(q));
                assert(writes(ws)[q] == writes(rest)[q]);
            }
        }
        lemma_forced_rerun_succeeds(rest, a2, b2);
    }
}

/// Running `a` then `b` is running `a`, then, unless it failed, `b` from
/// where `a` left the filesystem.
pub proof fn lemma_run_concat(a: Seq<ResolvedEntry>, b: Seq<ResolvedEntry>, fs: FsModel, force: bool)
    ensures
        run(a + b, fs, force) == (if run(a, fs, force).0 is Some {
            run(a, fs, force)
        } else {
            run(b, run(a, fs, force).1, force)
        }),
    decreases a.len(),
{
    if a.len() == 0 {
        assert(a + b =~= b);
    } else {
        let w = a[0];
        assert((a + b)[0] == w);
        assert((a + b).drop_first() =~= a.drop_first() + b);
        lemma_run_concat(a.drop_first(), b, fs.insert(w.path, node_of(w)), force);
    }
}

/// A run that fails does so at some entry `m`: the entries before it
/// succeed, and the run ends as that one entry ends from where they left off.
proof fn lemma_failure_point(ws: Seq<ResolvedEntry>, fs: FsModel, force: bool) -> (m: int)
    requires
        run(ws, fs, force).0 is Some,
    ensures
        0 <= m < ws.len(),
        run(ws.take(m), fs, force).0 is None,
        run(seq![ws[m]], run(ws.take(m), fs, force).1, force) == run(ws, fs, force),
    decreases ws.len(),
{
    let w = ws[0];
    assert(ws.take(0) =~= Seq::<ResolvedEntry>::empty());
    assert(seq![w].drop_first() =~= Seq::<ResolvedEntry>::empty());
    match verdict(w.kind, state_at(fs, w.path), force) {
        Verdict::Conflict => 0,
        Verdict::Exists => 0,
        _ => {
            let rest = ws.drop_first();
            let fs2 = fs.insert(w.path, node_of(w));
            let m1 = lemma_failure_point(rest, fs2, force);
            assert(ws.take(m1 + 1)[0] == w);
            assert(ws.take(m1 + 1).drop_first() =~= rest.take(m1));
            assert(ws[m1 + 1] == rest[m1]);
            m1 + 1
        },
    }
}

/// Laying out the same entries a second time with overwriting on ends
/// exactly as the first time did: with the same outcome and the same
/// filesystem.
pub proof fn lemma_forced_rerun_is_idempotent(ws: Seq<ResolvedEntry>, fs: FsModel)
    ensures
        run(ws, run(ws, fs, true).1, true) == run(ws, fs, true),
{
    let fs1 = run(ws, fs, true).1;
    if run(ws, fs, true).0 is None {
        lemma_run_result(ws, fs, true);
        lemma_forced_rerun_succeeds(ws, fs, fs1);
        lemma_run_result(ws, fs1, true);
        assert(fs1.union_prefer_right(writes(ws)) =~= fs1);
    } else {
        let m = lemma_failure_point(ws, fs, true);
        let pre = ws.take(m);
        let last = seq![ws[m]];
        let post = ws.subrange(m + 1, ws.len() as int);
        assert(ws =~= pre + (last + post));
        let s = run(pre, fs, true).1;
        assert(last.drop_first() =~= Seq::<ResolvedEntry>::empty());
        assert(last[0] == ws[m]);
        assert(run(last, s, true).0 is Some);
        match verdict(ws[m].kind, state_at(s, ws[m].path), true) {
            Verdict::Conflict => {},
            Verdict::Exists => {},
            _ => {
                assert(run(last, s, true) == run(last.drop_first(), s.insert(ws[m].path, node_of(ws[m])), true));
            },
        }
        assert(run(last, s, true).1 == s);
        assert(fs1 == s);
        lemma_run_result(pre, fs, true);
        lemma_forced_rerun_succeeds(pre, fs, s);
        lemma_run_result(pre, s, true);
        assert(s.union_prefer_right(writes(pre)) =~= s);
        lemma_run_concat(pre, last + post, s, true);
        lemma_run_concat(last, post, s, true);
    }
}

/// Without overwriting, a run whose entry `k` is a file at a path that
/// already holds something fails; it fails with `FileExists` at that path
/// when the entries before `k` succeed; and no path that no entry before `k`
/// names is touched.
pub proof fn lemma_existing_file_stops_run(ws: Seq<ResolvedEntry>, fs: FsModel, k: int)
    requires
        0 <= k < ws.len(),
        ws[k].kind == ItemType::File,
        fs.contains_key(ws[k].path),
    ensures
        run(ws, fs, false).0 is Some,
        run(ws.take(k), fs, false).0 is None ==> run(ws, fs, false).0 == Some(Failure::FileExists(ws[k].path)),
        forall|q: Seq<char>|
            (forall|j: int| 0 <= j < k ==> #[trigger] ws[j].path != q) ==> (#[trigger] run(ws, fs, false).1.contains_key(q)
                == fs.contains_key(q) && (fs.contains_key(q) ==> run(ws, fs, false).1[q] == fs[q])),
    decreases k,
{
    let w = ws[0];
    let rest = ws.drop_first();
    if k > 0 {
        match verdict(w.kind, state_at(fs, w.path), false) {
            Verdict::Conflict => {
                assert(ws.take(k)[0] == w);
            },
            Verdict::Exists => {
                assert(ws.take(k)[0] == w);
            },
            _ => {
                let fs2 = fs.insert(w.path, node_of(w));
                assert(rest[k - 1] == ws[k]);
                lemma_existing_file_stops_run(rest, fs2, k - 1);
                assert(ws.take(k).drop_first() =~= rest.take(k - 1));
                assert(ws.take(k)[0] == w);
                assert forall|q: Seq<char>|
                    (forall|j: int| 0 <= j < k ==> #[trigger] ws[j].path != q) implies (
                    #[trigger] run(ws, fs, false).1.contains_key(q) == fs.contains_key(q) && (fs.contains_key(q)
                        ==> run(ws, fs, false).1[q] == fs[q])) by {
                    assert(ws[0].path != q);
                    assert forall|j: int| 0 <= j < k - 1 implies #[trigger] rest[j].path != q by {
                        assert(rest[j] == ws[j + 1]);
                    }
                }
            },
        }
    }
}

} // verus!
