//! The tree of folders and files, with line counts summed up.

use vstd::prelude::*;
use vstd::string::*;

use crate::lang::Lang;
use crate::path;
use crate::path::FilePath;
use crate::text;

verus! {

/// An entry of a folder.
#[derive(Debug)]
pub enum Node {
    File(FileNode),
    Folder(FolderNode),
}

/// A counted file.
#[derive(Debug)]
pub struct FileNode {
    pub path: FilePath,
    pub lang: Lang,
    pub lines: u64,
}

/// The entries of a folder, in the order of their names.
#[derive(Debug)]
pub struct Children {
    pub entries: Vec<(String, Node)>,
}

/// A folder, with the totals of all that was inserted below it.
#[derive(Debug)]
pub struct FolderNode {
    pub children: Children,
    pub total_lines: u64,
    pub total_files: u64,
    pub lang_lines: Vec<(Lang, u64)>,
}

/// What an entry is.
pub enum NodeModel {
    File(FileModel),
    Folder(FolderModel),
}

/// What a file is.
#[verifier::ext_equal]
pub struct FileModel {
    pub path: Seq<u8>,
    pub lang: Seq<char>,
    pub lines: u64,
}

/// What a folder is: its entries by name, and its totals.
#[verifier::ext_equal]
pub struct FolderModel {
    pub children: Seq<(Seq<char>, NodeModel)>,
    pub total_lines: u64,
    pub total_files: u64,
    pub lang_lines: Seq<(Seq<char>, u64)>,
}

impl FileNode {
    /// What the file is.
    pub open spec fn model(self) -> FileModel {
        FileModel { path: self.path@, lang: self.lang.name(), lines: self.lines }
    }
}

impl Node {
    /// What the entry is.
    pub open spec fn model(self) -> NodeModel
        decreases self,
    {
        match self {
            Node::File(f) => NodeModel::File(f.model()),
            Node::Folder(f) => NodeModel::Folder(f.model()),
        }
    }
}

impl FolderNode {
    /// What the folder is.
    pub open spec fn model(self) -> FolderModel
        decreases self,
    {
        FolderModel {
            children: entries_model(self.children.entries@),
            total_lines: self.total_lines,
            total_files: self.total_files,
            lang_lines: langs_model(self.lang_lines@),
        }
    }
}

/// Entries by what they are.
pub open spec fn entries_model(es: Seq<(String, Node)>) -> Seq<(Seq<char>, NodeModel)>
    decreases es,
{
    if es.len() == 0 {
        seq![]
    } else {
        entries_model(es.drop_last()).push((es.last().0@, es.last().1.model()))
    }
}

/// Line counts by the name of the language.
pub open spec fn langs_model(ls: Seq<(Lang, u64)>) -> Seq<(Seq<char>, u64)> {
    ls.map_values(|l: (Lang, u64)| (l.0.name(), l.1))
}

/// The model of entries, entry by entry.
pub proof fn lemma_entries_model(es: Seq<(String, Node)>)
    ensures
        entries_model(es).len() == es.len(),
        forall|i: int|
            0 <= i < es.len() ==> #[trigger] entries_model(es)[i] == (es[i].0@, es[i].1.model()),
    decreases es.len(),
{
    if es.len() > 0 {
        lemma_entries_model(es.drop_last());
        assert forall|i: int| 0 <= i < es.len() implies #[trigger] entries_model(es)[i] == (
            es[i].0@,
            es[i].1.model(),
        ) by {
            if i < es.len() - 1 {
                assert(entries_model(es)[i] == entries_model(es.drop_last())[i]);
            }
        }
    }
}

/// How many entries, from `i` on, stand before `name`, plus `i`.
pub open spec fn slot_from(cs: Seq<(Seq<char>, NodeModel)>, name: Seq<char>, i: int) -> int
    decreases cs.len() - i,
{
    if i >= cs.len() || !text::before(cs[i].0, name) {
        i
    } else {
        slot_from(cs, name, i + 1)
    }
}

/// Where the entry `name` stands, or would stand.
pub open spec fn slot(cs: Seq<(Seq<char>, NodeModel)>, name: Seq<char>) -> int {
    slot_from(cs, name, 0)
}

/// Whether there is an entry `name`.
pub open spec fn has(cs: Seq<(Seq<char>, NodeModel)>, name: Seq<char>) -> bool {
    slot(cs, name) < cs.len() && cs[slot(cs, name)].0 == name
}

/// The entry `name`.
pub open spec fn lookup(cs: Seq<(Seq<char>, NodeModel)>, name: Seq<char>) -> Option<NodeModel> {
    if has(cs, name) {
        Some(cs[slot(cs, name)].1)
    } else {
        None
    }
}

/// The entries with `name` set to `node`.
pub open spec fn put(cs: Seq<(Seq<char>, NodeModel)>, name: Seq<char>, node: NodeModel) -> Seq<
    (Seq<char>, NodeModel),
> {
    if has(cs, name) {
        cs.update(slot(cs, name), (name, node))
    } else {
        cs.insert(slot(cs, name), (name, node))
    }
}

/// Whether entries stand in the order of their names.
pub open spec fn sorted(cs: Seq<(Seq<char>, NodeModel)>) -> bool {
    forall|i: int, j: int|
        0 <= i < j < cs.len() ==> text::before((#[trigger] cs[i]).0, (#[trigger] cs[j]).0)
}

/// The place where a language is counted, from `i` on, or the end.
pub open spec fn lang_at(ls: Seq<(Seq<char>, u64)>, lang: Seq<char>, i: int) -> int
    decreases ls.len() - i,
{
    if i >= ls.len() || ls[i].0 == lang {
        i
    } else {
        lang_at(ls, lang, i + 1)
    }
}

/// Line counts with `lines` more of `lang`.
pub open spec fn bumped(ls: Seq<(Seq<char>, u64)>, lang: Seq<char>, lines: u64) -> Seq<
    (Seq<char>, u64),
> {
    let i = lang_at(ls, lang, 0);
    if i < ls.len() {
        ls.update(i, (lang, (ls[i].1 + lines) as u64))
    } else {
        ls.push((lang, lines))
    }
}

/// The sum of line counts.
pub open spec fn lang_sum(ls: Seq<(Seq<char>, u64)>) -> int
    decreases ls.len(),
{
    if ls.len() == 0 {
        0
    } else {
        lang_sum(ls.drop_last()) + ls.last().1
    }
}

/// The lines of an entry.
pub open spec fn node_lines(n: NodeModel) -> int {
    match n {
        NodeModel::File(f) => f.lines as int,
        NodeModel::Folder(f) => f.total_lines as int,
    }
}

/// The files of an entry.
pub open spec fn node_files(n: NodeModel) -> int {
    match n {
        NodeModel::File(_) => 1,
        NodeModel::Folder(f) => f.total_files as int,
    }
}

/// The lines of all entries.
pub open spec fn lines_in(cs: Seq<(Seq<char>, NodeModel)>) -> int
    decreases cs.len(),
{
    if cs.len() == 0 {
        0
    } else {
        lines_in(cs.drop_last()) + node_lines(cs.last().1)
    }
}

/// The files of all entries.
pub open spec fn files_in(cs: Seq<(Seq<char>, NodeModel)>) -> int
    decreases cs.len(),
{
    if cs.len() == 0 {
        0
    } else {
        files_in(cs.drop_last()) + node_files(cs.last().1)
    }
}

impl FolderModel {
    /// A folder in which nothing was inserted.
    pub open spec fn empty() -> FolderModel {
        FolderModel {
            children: seq![],
            total_lines: 0,
            total_files: 0,
            lang_lines: seq![],
        }
    }

    /// Entries stand in the order of their names, the lines of the languages
    /// add up to the folder's, and the entries have no more than the folder.
    pub open spec fn wf(self) -> bool
        decreases self,
    {
        &&& sorted(self.children)
        &&& lang_sum(self.lang_lines) == self.total_lines
        &&& lines_in(self.children) <= self.total_lines
        &&& files_in(self.children) <= self.total_files
        &&& forall|i: int|
            0 <= i < self.children.len() ==> match (#[trigger] self.children[i]).1 {
                NodeModel::File(_) => true,
                NodeModel::Folder(f) => f.wf(),
            }
    }

    /// The folder with the totals of one more file.
    pub open spec fn counted(self, lang: Seq<char>, lines: u64) -> FolderModel {
        FolderModel {
            children: self.children,
            total_lines: (self.total_lines + lines) as u64,
            total_files: (self.total_files + 1) as u64,
            lang_lines: bumped(self.lang_lines, lang, lines),
        }
    }

    /// The folder with its entry `name` set.
    pub open spec fn with(self, name: Seq<char>, node: NodeModel) -> FolderModel {
        FolderModel { children: put(self.children, name, node), ..self }
    }
}

/// The folder after a file was inserted under the names from `i` on. A file in
/// the place of a folder on the way is left alone.
pub open spec fn inserted(f: FolderModel, names: Seq<Seq<char>>, i: int, file: FileModel) -> FolderModel
    decreases names.len() - i,
{
    let g = f.counted(file.lang, file.lines);
    if i >= names.len() {
        f
    } else if i == names.len() - 1 {
        g.with(names[i], NodeModel::File(file))
    } else {
        match lookup(f.children, names[i]) {
            None => g.with(
                names[i],
                NodeModel::Folder(inserted(FolderModel::empty(), names, i + 1, file)),
            ),
            Some(NodeModel::Folder(sub)) => g.with(
                names[i],
                NodeModel::Folder(inserted(sub, names, i + 1, file)),
            ),
            Some(NodeModel::File(_)) => g,
        }
    }
}

/// The folder that the names from `i` on lead to.
pub open spec fn resolved(f: FolderModel, names: Seq<Seq<char>>, i: int) -> Option<FolderModel>
    decreases names.len() - i,
{
    if i >= names.len() {
        Some(f)
    } else {
        match lookup(f.children, names[i]) {
            Some(NodeModel::Folder(sub)) => resolved(sub, names, i + 1),
            _ => None,
        }
    }
}

/// The files below entries that have lines, in order.
pub open spec fn files_below(cs: Seq<(Seq<char>, NodeModel)>) -> Seq<FileModel>
    decreases cs,
{
    if cs.len() == 0 {
        seq![]
    } else {
        files_below(cs.drop_last()) + match cs.last().1 {
            NodeModel::File(f) => if f.lines > 0 {
                seq![f]
            } else {
                seq![]
            },
            NodeModel::Folder(sub) => files_below(sub.children),
        }
    }
}

/// The last of the languages with the most lines.
pub open spec fn most_lines(ls: Seq<(Seq<char>, u64)>) -> Option<(Seq<char>, u64)>
    decreases ls.len(),
{
    if ls.len() == 0 {
        None
    } else {
        match most_lines(ls.drop_last()) {
            Some(best) => if ls.last().1 >= best.1 {
                Some(ls.last())
            } else {
                Some(best)
            },
            None => Some(ls.last()),
        }
    }
}

proof fn lemma_slot_from(cs: Seq<(Seq<char>, NodeModel)>, name: Seq<char>, i: int)
    requires
        0 <= i <= cs.len(),
    ensures
        i <= slot_from(cs, name, i) <= cs.len(),
        forall|k: int| i <= k < slot_from(cs, name, i) ==> text::before((#[trigger] cs[k]).0, name),
        slot_from(cs, name, i) < cs.len() ==> !text::before(cs[slot_from(cs, name, i)].0, name),
    decreases cs.len() - i,
{
    if i < cs.len() && text::before(cs[i].0, name) {
        lemma_slot_from(cs, name, i + 1);
    }
}

/// The slot of a name is the one place where the entries before it end.
proof fn lemma_slot_unique(cs: Seq<(Seq<char>, NodeModel)>, name: Seq<char>, at: int)
    requires
        0 <= at <= cs.len(),
        forall|k: int| 0 <= k < at ==> text::before((#[trigger] cs[k]).0, name),
        at < cs.len() ==> !text::before(cs[at].0, name),
    ensures
        slot(cs, name) == at,
{
    lemma_slot_from(cs, name, 0);
    let x = slot(cs, name);
    if x < at {
        assert(text::before(cs[x].0, name));
    } else if x > at {
        assert(text::before(cs[at].0, name));
    }
}

/// An entry of sorted entries is found.
pub proof fn lemma_lookup_at(cs: Seq<(Seq<char>, NodeModel)>, at: int)
    requires
        sorted(cs),
        0 <= at < cs.len(),
    ensures
        slot(cs, cs[at].0) == at,
        lookup(cs, cs[at].0) == Some(cs[at].1),
{
    let name = cs[at].0;
    if text::before(name, name) {
        text::lemma_before_one_way(name, name);
    }
    lemma_slot_unique(cs, name, at);
}

/// Setting an entry keeps the order, and is read back.
pub proof fn lemma_put(cs: Seq<(Seq<char>, NodeModel)>, name: Seq<char>, node: NodeModel)
    requires
        sorted(cs),
    ensures
        sorted(put(cs, name, node)),
        lookup(put(cs, name, node), name) == Some(node),
{
    lemma_slot_from(cs, name, 0);
    let at = slot(cs, name);
    let new = put(cs, name, node);
    assert forall|i: int, j: int| 0 <= i < j < new.len() implies text::before(
        (#[trigger] new[i]).0,
        (#[trigger] new[j]).0,
    ) by {
        if has(cs, name) {
            assert(text::before(cs[i].0, cs[j].0));
        } else {
            let x = if i < at { i } else { i - 1 };
            let y = if j < at { j } else { j - 1 };
            if i != at && j != at {
                assert(text::before(cs[x].0, cs[y].0));
            } else if j == at {
                assert(text::before(cs[i].0, name));
            } else {
                assert(!text::before(cs[at].0, name));
                if !text::before(name, cs[at].0) {
                    text::lemma_before_total(name, cs[at].0);
                }
                if y > at {
                    assert(text::before(cs[at].0, cs[y].0));
                    text::lemma_before_chain(name, cs[at].0, cs[y].0);
                }
            }
        }
    }
    assert(new[at] == (name, node));
    lemma_lookup_at(new, at);
}

/// Setting an entry leaves the others as they are.
pub proof fn lemma_put_other(
    cs: Seq<(Seq<char>, NodeModel)>,
    name: Seq<char>,
    node: NodeModel,
    other: Seq<char>,
)
    requires
        sorted(cs),
        other != name,
    ensures
        lookup(put(cs, name, node), other) == lookup(cs, other),
{
    lemma_put(cs, name, node);
    lemma_slot_from(cs, name, 0);
    lemma_slot_from(cs, other, 0);
    let at = slot(cs, name);
    let new = put(cs, name, node);
    if has(cs, other) {
        let k = slot(cs, other);
        let moved = if has(cs, name) || k < at { k } else { k + 1 };
        assert(new[moved] == cs[k]);
        lemma_lookup_at(new, moved);
    } else if has(new, other) {
        let k = slot(new, other);
        lemma_slot_from(new, other, 0);
        assert(k != at);
        let moved = if has(cs, name) || k < at { k } else { k - 1 };
        assert(cs[moved] == new[k]);
        lemma_lookup_at(cs, moved);
    }
}

proof fn lemma_lang_sum_update(ls: Seq<(Seq<char>, u64)>, i: int, e: (Seq<char>, u64))
    requires
        0 <= i < ls.len(),
    ensures
        lang_sum(ls.update(i, e)) == lang_sum(ls) - ls[i].1 + e.1,
    decreases ls.len(),
{
    let new = ls.update(i, e);
    if i == ls.len() - 1 {
        assert(new.drop_last() =~= ls.drop_last());
    } else {
        assert(new.drop_last() =~= ls.drop_last().update(i, e));
        lemma_lang_sum_update(ls.drop_last(), i, e);
    }
}

proof fn lemma_lang_sum_bounds(ls: Seq<(Seq<char>, u64)>)
    ensures
        lang_sum(ls) >= 0,
        forall|i: int| 0 <= i < ls.len() ==> (#[trigger] ls[i]).1 <= lang_sum(ls),
    decreases ls.len(),
{
    if ls.len() > 0 {
        lemma_lang_sum_bounds(ls.drop_last());
        assert forall|i: int| 0 <= i < ls.len() implies (#[trigger] ls[i]).1 <= lang_sum(ls) by {
            if i < ls.len() - 1 {
                assert(ls[i] == ls.drop_last()[i]);
            }
        }
    }
}

proof fn lemma_lang_at(ls: Seq<(Seq<char>, u64)>, lang: Seq<char>, i: int)
    requires
        0 <= i <= ls.len(),
    ensures
        i <= lang_at(ls, lang, i) <= ls.len(),
        lang_at(ls, lang, i) < ls.len() ==> ls[lang_at(ls, lang, i)].0 == lang,
        forall|k: int| i <= k < lang_at(ls, lang, i) ==> (#[trigger] ls[k]).0 != lang,
    decreases ls.len() - i,
{
    if i < ls.len() && ls[i].0 != lang {
        lemma_lang_at(ls, lang, i + 1);
    }
}

/// Counting lines of a language adds them to the sum.
proof fn lemma_bumped(ls: Seq<(Seq<char>, u64)>, lang: Seq<char>, lines: u64)
    requires
        lang_sum(ls) + lines <= u64::MAX,
    ensures
        lang_sum(bumped(ls, lang, lines)) == lang_sum(ls) + lines,
{
    let i = lang_at(ls, lang, 0);
    lemma_lang_at(ls, lang, 0);
    lemma_lang_sum_bounds(ls);
    if i < ls.len() {
        lemma_lang_sum_update(ls, i, (lang, (ls[i].1 + lines) as u64));
    } else {
        assert(ls.push((lang, lines)).drop_last() =~= ls);
    }
}

proof fn lemma_sums_update(cs: Seq<(Seq<char>, NodeModel)>, i: int, e: (Seq<char>, NodeModel))
    requires
        0 <= i < cs.len(),
    ensures
        lines_in(cs.update(i, e)) == lines_in(cs) - node_lines(cs[i].1) + node_lines(e.1),
        files_in(cs.update(i, e)) == files_in(cs) - node_files(cs[i].1) + node_files(e.1),
    decreases cs.len(),
{
    let new = cs.update(i, e);
    if i == cs.len() - 1 {
        assert(new.drop_last() =~= cs.drop_last());
    } else {
        assert(new.drop_last() =~= cs.drop_last().update(i, e));
        lemma_sums_update(cs.drop_last(), i, e);
    }
}

proof fn lemma_sums_insert(cs: Seq<(Seq<char>, NodeModel)>, i: int, e: (Seq<char>, NodeModel))
    requires
        0 <= i <= cs.len(),
    ensures
        lines_in(cs.insert(i, e)) == lines_in(cs) + node_lines(e.1),
        files_in(cs.insert(i, e)) == files_in(cs) + node_files(e.1),
    decreases cs.len(),
{
    let new = cs.insert(i, e);
    if i == cs.len() {
        assert(new.drop_last() =~= cs);
    } else {
        assert(new.drop_last() =~= cs.drop_last().insert(i, e));
        assert(new.last() == cs.last());
        lemma_sums_insert(cs.drop_last(), i, e);
    }
}

/// No entry has more than all entries together.
pub proof fn lemma_sums_bound(cs: Seq<(Seq<char>, NodeModel)>)
    ensures
        lines_in(cs) >= 0,
        files_in(cs) >= 0,
        forall|i: int|
            0 <= i < cs.len() ==> node_lines((#[trigger] cs[i]).1) <= lines_in(cs) && node_files(
                cs[i].1,
            ) <= files_in(cs),
    decreases cs.len(),
{
    if cs.len() > 0 {
        lemma_sums_bound(cs.drop_last());
        assert forall|i: int| 0 <= i < cs.len() implies node_lines((#[trigger] cs[i]).1)
            <= lines_in(cs) && node_files(cs[i].1) <= files_in(cs) by {
            if i < cs.len() - 1 {
                assert(cs[i] == cs.drop_last()[i]);
            }
        }
    }
}

/// Whether a folder has room for one more file with so many lines.
pub open spec fn has_room(f: FolderModel, lines: u64) -> bool {
    f.total_lines + lines <= u64::MAX && f.total_files < u64::MAX
}

/// Inserting keeps a folder well formed.
pub proof fn lemma_inserted_wf(f: FolderModel, names: Seq<Seq<char>>, i: int, file: FileModel)
    requires
        f.wf(),
        has_room(f, file.lines),
        0 <= i < names.len(),
    ensures
        inserted(f, names, i, file).wf(),
        inserted(f, names, i, file).total_lines == f.total_lines + file.lines,
        inserted(f, names, i, file).total_files == f.total_files + 1,
    decreases names.len() - i,
{
    let g = f.counted(file.lang, file.lines);
    let name = names[i];
    lemma_bumped(f.lang_lines, file.lang, file.lines);
    lemma_slot_from(f.children, name, 0);
    lemma_sums_bound(f.children);
    if i == names.len() - 1 {
        lemma_with_wf(f, g, name, NodeModel::File(file), file.lines as int);
    } else {
        match lookup(f.children, name) {
            None => {
                let e = FolderModel::empty();
                assert(e.wf());
                lemma_inserted_wf(e, names, i + 1, file);
                let node = NodeModel::Folder(inserted(e, names, i + 1, file));
                lemma_with_wf(f, g, name, node, file.lines as int);
            },
            Some(NodeModel::Folder(sub)) => {
                assert(f.children[slot(f.children, name)].1 == NodeModel::Folder(sub));
                lemma_inserted_wf(sub, names, i + 1, file);
                let node = NodeModel::Folder(inserted(sub, names, i + 1, file));
                lemma_with_wf(f, g, name, node, file.lines as int);
            },
            Some(NodeModel::File(_)) => {},
        }
    }
}

proof fn lemma_with_wf(f: FolderModel, g: FolderModel, name: Seq<char>, node: NodeModel, more: int)
    requires
        f.wf(),
        g.children == f.children,
        lang_sum(g.lang_lines) == g.total_lines,
        f.total_lines + more == g.total_lines,
        f.total_files + 1 == g.total_files,
        node is Folder ==> node->Folder_0.wf(),
        node_lines(node) <= more + match lookup(f.children, name) {
            Some(old) => node_lines(old),
            None => 0,
        },
        node_files(node) <= 1 + match lookup(f.children, name) {
            Some(old) => node_files(old),
            None => 0,
        },
    ensures
        g.with(name, node).wf(),
{
    let h = g.with(name, node);
    lemma_put(f.children, name, node);
    lemma_slot_from(f.children, name, 0);
    let at = slot(f.children, name);
    if has(f.children, name) {
        lemma_sums_update(f.children, at, (name, node));
    } else {
        lemma_sums_insert(f.children, at, (name, node));
    }
    assert forall|i: int| 0 <= i < h.children.len() implies match (#[trigger] h.children[i]).1 {
        NodeModel::File(_) => true,
        NodeModel::Folder(x) => x.wf(),
    } by {
        if i != at {
            let k = if has(f.children, name) || i < at { i } else { i - 1 };
            assert(h.children[i] == f.children[k]);
        }
    }
}

impl Children {
    /// What the entries are.
    pub open spec fn model(self) -> Seq<(Seq<char>, NodeModel)> {
        entries_model(self.entries@)
    }

    /// Where the entry `name` stands, or would stand.
    fn find(&self, name: &str) -> (at: usize)
        requires
            sorted(self.model()),
        ensures
            at == slot(self.model(), name@),
            at <= self.entries@.len(),
    {
        let ghost cs = self.model();
        proof {
            lemma_entries_model(self.entries@);
        }
        let mut lo: usize = 0;
        let mut hi: usize = self.entries.len();
        while lo < hi
            invariant
                lo <= hi <= self.entries@.len() == cs.len(),
                cs == self.model(),
                sorted(cs),
                forall|i: int|
                    0 <= i < cs.len() ==> #[trigger] cs[i] == (
                        self.entries@[i].0@,
                        self.entries@[i].1.model(),
                    ),
                forall|k: int| 0 <= k < lo ==> text::before((#[trigger] cs[k]).0, name@),
                hi < cs.len() ==> !text::before(cs[hi as int].0, name@),
            decreases hi - lo,
        {
            let mid: usize = lo + (hi - lo) / 2;
            proof {
                assert(cs[mid as int].0 == self.entries@[mid as int].0@);
            }
            if text::is_before(self.entries[mid].0.as_str(), name) {
                proof {
                    assert forall|k: int| 0 <= k < mid + 1 implies text::before(
                        (#[trigger] cs[k]).0,
                        name@,
                    ) by {
                        if k < mid {
                            text::lemma_before_chain(cs[k].0, cs[mid as int].0, name@);
                        }
                    }
                }
                lo = mid + 1;
            } else {
                hi = mid;
            }
        }
        proof {
            lemma_slot_unique(cs, name@, lo as int);
        }
        lo
    }

    /// The entry `name`.
    pub fn get(&self, name: &str) -> (r: Option<&Node>)
        requires
            sorted(self.model()),
        ensures
            r is Some <==> lookup(self.model(), name@) is Some,
            r is Some ==> r->0.model() == lookup(self.model(), name@)->0,
    {
        let at = self.find(name);
        proof {
            lemma_entries_model(self.entries@);
        }
        if at < self.entries.len() {
            proof {
                assert(self.model()[at as int].0 == self.entries@[at as int].0@);
            }
            if text::same(self.entries[at].0.as_str(), name) {
                return Some(&self.entries[at].1);
            }
        }
        None
    }

    /// Sets the entry `name`, whose slot is `at`.
    fn put_at(&mut self, at: usize, name: &str, node: Node)
        requires
            sorted(old(self).model()),
            at == slot(old(self).model(), name@),
            at <= old(self).entries@.len(),
        ensures
            final(self).model() == put(old(self).model(), name@, node.model()),
    {
        let ghost es = self.entries@;
        let ghost cs = self.model();
        proof {
            lemma_entries_model(es);
        }
        if at < self.entries.len() {
            proof {
                assert(cs[at as int].0 == es[at as int].0@);
            }
            if text::same(self.entries[at].0.as_str(), name) {
                self.entries[at] = (name.to_string(), node);
                proof {
                    lemma_entries_model(self.entries@);
                    assert(self.model() =~= put(cs, name@, node.model()));
                }
                return;
            }
        }
        self.entries.insert(at, (name.to_string(), node));
        proof {
            lemma_entries_model(self.entries@);
            assert(self.model() =~= put(cs, name@, node.model()));
        }
    }
}

impl Default for FolderNode {
    fn default() -> (r: FolderNode)
        ensures
            r.model() == FolderModel::empty(),
            r.model().wf(),
    {
        let r = FolderNode {
            children: Children { entries: Vec::new() },
            total_lines: 0,
            total_files: 0,
            lang_lines: Vec::new(),
        };
        proof {
            assert(r.model() =~= FolderModel::empty());
        }
        r
    }
}

impl FolderNode {
    /// The language with the most lines; of equals, the one counted last.
    pub fn dominant_lang(&self) -> (r: Option<Lang>)
        ensures
            r is Some <==> most_lines(self.model().lang_lines) is Some,
            r is Some ==> r->0.name() == (most_lines(self.model().lang_lines)->0).0,
    {
        let ghost ls = self.model().lang_lines;
        let mut best: Option<(Lang, u64)> = None;
        let mut i: usize = 0;
        proof {
            assert(ls.take(0) =~= seq![]);
        }
        while i < self.lang_lines.len()
            invariant
                i <= self.lang_lines@.len() == ls.len(),
                ls == langs_model(self.lang_lines@),
                best is Some <==> most_lines(ls.take(i as int)) is Some,
                best is Some ==> ((best->0).0.name(), (best->0).1) == most_lines(
                    ls.take(i as int),
                )->0,
            decreases self.lang_lines@.len() - i,
        {
            let (lang, n) = self.lang_lines[i];
            proof {
                assert(ls.take(i + 1).drop_last() =~= ls.take(i as int));
                assert(ls.take(i + 1).last() == (lang.name(), n));
            }
            best = match best {
                Some((l, m)) => if n >= m {
                    Some((lang, n))
                } else {
                    Some((l, m))
                },
                None => Some((lang, n)),
            };
            i = i + 1;
        }
        proof {
            assert(ls.take(ls.len() as int) =~= ls);
        }
        match best {
            Some((l, _)) => Some(l),
            None => None,
        }
    }

    /// Counts one more file.
    fn count(&mut self, lang: Lang, lines: u64)
        requires
            old(self).model().wf(),
            has_room(old(self).model(), lines),
        ensures
            final(self).model() == old(self).model().counted(lang.name(), lines),
            final(self).children == old(self).children,
    {
        self.total_lines = self.total_lines + lines;
        self.total_files = self.total_files + 1;
        bump(&mut self.lang_lines, lang, lines);
    }

    /// Sets the totals to what the entries add up to.
    fn recount(&mut self)
        requires
            entries_wf(old(self).model().children),
            lines_in(old(self).model().children) <= u64::MAX,
            files_in(old(self).model().children) <= u64::MAX,
        ensures
            final(self).model() == recounted(old(self).model().children),
    {
        let ghost es = self.children.entries@;
        let ghost cs = self.model().children;
        proof {
            lemma_entries_model(es);
            assert(cs.take(0) =~= seq![]);
        }
        let mut lines: u64 = 0;
        let mut files: u64 = 0;
        let mut langs: Vec<(Lang, u64)> = Vec::new();
        let mut i: usize = 0;
        proof {
            assert(langs_model(langs@) =~= langs_in(cs.take(0)));
        }
        while i < self.children.entries.len()
            invariant
                i <= es.len() == cs.len(),
                es == self.children.entries@,
                cs == self.model().children,
                forall|k: int| 0 <= k < cs.len() ==> #[trigger] cs[k] == (es[k].0@, es[k].1.model()),
                entries_wf(cs),
                lines_in(cs) <= u64::MAX,
                files_in(cs) <= u64::MAX,
                lines == lines_in(cs.take(i as int)),
                files == files_in(cs.take(i as int)),
                langs_model(langs@) == langs_in(cs.take(i as int)),
            decreases es.len() - i,
        {
            let ghost now = cs.take(i + 1);
            proof {
                assert(now.drop_last() =~= cs.take(i as int));
                assert(now.last() == cs[i as int]);
                lemma_sums_prefix(cs, i + 1);
                lemma_sums_bound(cs.take(i as int));
                assert(entries_wf(cs.take(i as int)));
                lemma_langs_in(cs.take(i as int));
            }
            match &self.children.entries[i].1 {
                Node::File(f) => {
                    bump(&mut langs, f.lang, f.lines);
                    lines = lines + f.lines;
                    files = files + 1;
                },
                Node::Folder(f) => {
                    proof {
                        assert(cs[i as int].1 == NodeModel::Folder(f.model()));
                        assert(f.model().wf());
                    }
                    bump_all(&mut langs, &f.lang_lines);
                    lines = lines + f.total_lines;
                    files = files + f.total_files;
                },
            }
            i = i + 1;
        }
        proof {
            assert(cs.take(cs.len() as int) =~= cs);
        }
        self.total_lines = lines;
        self.total_files = files;
        self.lang_lines = langs;
        proof {
            assert(self.model() =~= recounted(cs));
        }
    }
}

/// The first entries have no more than all.
proof fn lemma_sums_prefix(cs: Seq<(Seq<char>, NodeModel)>, n: int)
    requires
        0 <= n <= cs.len(),
    ensures
        lines_in(cs.take(n)) <= lines_in(cs),
        files_in(cs.take(n)) <= files_in(cs),
    decreases cs.len() - n,
{
    if n < cs.len() {
        lemma_sums_prefix(cs, n + 1);
        assert(cs.take(n + 1).drop_last() =~= cs.take(n));
    } else {
        assert(cs.take(n) =~= cs);
    }
}

/// Counts lines of a language.
fn bump(ls: &mut Vec<(Lang, u64)>, lang: Lang, lines: u64)
    requires
        lang_sum(langs_model(old(ls)@)) + lines <= u64::MAX,
    ensures
        langs_model(final(ls)@) == bumped(langs_model(old(ls)@), lang.name(), lines),
{
    let ghost before = langs_model(ls@);
    let mut i: usize = 0;
    while i < ls.len() && !ls[i].0.is(lang)
        invariant
            i <= ls@.len() == before.len(),
            ls@ == old(ls)@,
            before == langs_model(ls@),
            lang_at(before, lang.name(), 0) == lang_at(before, lang.name(), i as int),
        decreases ls@.len() - i,
    {
        i = i + 1;
    }
    if i < ls.len() {
        let (l, n) = ls[i];
        proof {
            lemma_lang_sum_bounds(before);
            assert(before[i as int] == (l.name(), n));
            assert(lang_at(before, lang.name(), 0) == i);
        }
        ls.set(i, (lang, n + lines));
    } else {
        ls.push((lang, lines));
    }
    proof {
        assert(langs_model(ls@) =~= bumped(before, lang.name(), lines));
    }
}

/// Counts the lines of several languages.
fn bump_all(ls: &mut Vec<(Lang, u64)>, more: &Vec<(Lang, u64)>)
    requires
        lang_sum(langs_model(old(ls)@)) + lang_sum(langs_model(more@)) <= u64::MAX,
    ensures
        langs_model(final(ls)@) == all_bumped(langs_model(old(ls)@), langs_model(more@)),
{
    let ghost start = langs_model(ls@);
    let ghost ms = langs_model(more@);
    let mut i: usize = 0;
    proof {
        assert(ms.take(0) =~= seq![]);
    }
    while i < more.len()
        invariant
            i <= more@.len() == ms.len(),
            ms == langs_model(more@),
            lang_sum(start) + lang_sum(ms) <= u64::MAX,
            langs_model(ls@) == all_bumped(start, ms.take(i as int)),
        decreases more@.len() - i,
    {
        proof {
            let now = ms.take(i + 1);
            assert(now.drop_last() =~= ms.take(i as int));
            assert(now.last() == (more@[i as int].0.name(), more@[i as int].1));
            lemma_lang_sum_prefix(ms, i + 1);
            lemma_lang_sum_bounds(ms.take(i as int));
            lemma_all_bumped(start, ms.take(i as int));
        }
        bump(ls, more[i].0, more[i].1);
        i = i + 1;
    }
    proof {
        assert(ms.take(ms.len() as int) =~= ms);
    }
}

proof fn lemma_lang_sum_prefix(ls: Seq<(Seq<char>, u64)>, n: int)
    requires
        0 <= n <= ls.len(),
    ensures
        lang_sum(ls.take(n)) <= lang_sum(ls),
    decreases ls.len() - n,
{
    if n < ls.len() {
        lemma_lang_sum_prefix(ls, n + 1);
        assert(ls.take(n + 1).drop_last() =~= ls.take(n));
    } else {
        assert(ls.take(n) =~= ls);
    }
}

/// The parts of a file's path from the root on.
pub open spec fn parts_in(root: Seq<u8>, file: Seq<u8>) -> Seq<Seq<u8>> {
    path::parts(
        match path::stripped(file, root) {
            Some(rel) => rel,
            None => file,
        },
    )
}

/// The names under which a file is inserted: its path from the root on.
pub open spec fn names_in(root: Seq<u8>, file: Seq<u8>) -> Seq<Seq<char>> {
    path::segment_texts(parts_in(root, file))
}

/// The texts of a list.
pub open spec fn texts(v: Seq<String>) -> Seq<Seq<char>> {
    v.map_values(|s: String| s@)
}

/// The names of a file whose path is valid UTF-8 are what its parts spell.
pub proof fn valid_names_are_read_as_they_are(root: Seq<u8>, file: Seq<u8>)
    requires
        path::all_utf8(parts_in(root, file)),
    ensures
        names_in(root, file) == path::plain_texts(parts_in(root, file)),
{
    path::valid_parts_are_read_as_they_are(
        match path::stripped(file, root) {
            Some(rel) => rel,
            None => file,
        },
    );
}

/// A file right below the root has one name, and one that lies a folder deeper
/// has the names of the folder and one more.
pub proof fn names_follow_the_folders(root: Seq<u8>, p: Seq<u8>, e: Seq<u8>)
    requires
        root.len() > 0,
        path::is_name(e),
        vstd::utf8::valid_utf8(e),
    ensures
        names_in(root, path::joined(root, e)) == seq![vstd::utf8::decode_utf8(e)],
        path::starts_with(p, root) && path::parts(root).len() < path::parts(p).len()
            && path::ends_in_part(p) ==> names_in(root, path::joined(p, e)) == names_in(
            root,
            p,
        ).push(vstd::utf8::decode_utf8(e)),
{
    let name = vstd::utf8::decode_utf8(e);
    assert(name.len() > 0);
    path::joining_adds_a_part(root, e);
    path::a_name_is_its_part(e);
    assert(seq![e].drop_last() =~= seq![]);
    assert(path::segment_texts(seq![e]) =~= seq![name]) by {
        assert(path::segment_texts(Seq::<Seq<u8>>::empty()) =~= seq![]);
    }
    if path::starts_with(p, root) && path::parts(root).len() < path::parts(p).len()
        && path::ends_in_part(p) {
        let r = path::stripped(p, root)->0;
        path::stripping_goes_on(p, root, e);
        path::joining_adds_a_part(r, e);
        assert(path::parts(r).push(e).drop_last() =~= path::parts(r));
    }
}

/// Inserts a file below `root`, which stands for the folder `root_path`.
pub fn insert(root: &mut FolderNode, root_path: &FilePath, file: FilePath, lang: Lang, lines: u64)
    requires
        old(root).model().wf(),
        has_room(old(root).model(), lines),
    ensures
        final(root).model() == inserted(
            old(root).model(),
            names_in(root_path@, file@),
            0,
            (FileModel { path: file@, lang: lang.name(), lines }),
        ),
        final(root).model().wf(),
{
    let segments = match file.strip_prefix(root_path) {
        Some(rel) => rel.segments(),
        None => file.segments(),
    };
    proof {
        assert(texts(segments@) =~= names_in(root_path@, file@));
    }
    if segments.len() == 0 {
        return;
    }
    proof {
        lemma_inserted_wf(
            root.model(),
            texts(segments@),
            0,
            FileModel { path: file@, lang: lang.name(), lines },
        );
    }
    insert_rec(root, &segments, 0, file, lang, lines);
}

fn insert_rec(
    folder: &mut FolderNode,
    segs: &Vec<String>,
    i: usize,
    full_path: FilePath,
    lang: Lang,
    lines: u64,
)
    requires
        old(folder).model().wf(),
        has_room(old(folder).model(), lines),
        i < segs@.len(),
    ensures
        final(folder).model() == inserted(
            old(folder).model(),
            texts(segs@),
            i as int,
            (FileModel { path: full_path@, lang: lang.name(), lines }),
        ),
    decreases segs@.len() - i,
{
    let ghost f = folder.model();
    let ghost names = texts(segs@);
    let ghost file = FileModel { path: full_path@, lang: lang.name(), lines };
    folder.count(lang, lines);
    proof {
        lemma_sums_bound(f.children);
    }
    let ghost g = folder.model();
    let ghost es = folder.children.entries@;
    let seg = segs[i].as_str();
    let at = folder.children.find(seg);
    proof {
        assert(names[i as int] == seg@);
        lemma_entries_model(es);
    }
    if i == segs.len() - 1 {
        folder.children.put_at(at, seg, Node::File(FileNode { path: full_path, lang, lines }));
        return;
    }
    if at < folder.children.entries.len() && text::same(folder.children.entries[at].0.as_str(), seg) {
        proof {
            assert(g.children[at as int] == (es[at as int].0@, es[at as int].1.model()));
        }
        if let Node::Folder(child) = &mut folder.children.entries[at].1 {
            insert_rec(child, segs, i + 1, full_path, lang, lines);
        }
        proof {
            let now = folder.children.entries@;
            lemma_entries_model(now);
            assert(now.len() == es.len());
            assert(forall|k: int| 0 <= k < es.len() && k != at ==> #[trigger] now[k] == es[k]);
            assert(now[at as int].0 == es[at as int].0);
            assert(has(g.children, seg@));
            match es[at as int].1 {
                Node::Folder(sub) => {
                    let node = NodeModel::Folder(inserted(sub.model(), names, i + 1, file));
                    assert(lookup(f.children, seg@) == Some(NodeModel::Folder(sub.model())));
                    assert(now[at as int].1.model() == node);
                    assert(entries_model(now) =~= put(g.children, seg@, node));
                    assert(folder.model() =~= g.with(seg@, node));
                },
                Node::File(file0) => {
                    assert(lookup(f.children, seg@) == Some(NodeModel::File(file0.model())));
                    assert(entries_model(now) =~= g.children);
                    assert(folder.model() =~= g);
                },
            }
        }
    } else {
        proof {
            if at < es.len() {
                assert(g.children[at as int].0 == es[at as int].0@);
            }
        }
        let mut child = FolderNode::default();
        insert_rec(&mut child, segs, i + 1, full_path, lang, lines);
        folder.children.put_at(at, seg, Node::Folder(child));
    }
}

/// The folder that names lead to.
pub fn resolve<'a>(root: &'a FolderNode, path: &[String]) -> (r: Option<&'a FolderNode>)
    requires
        root.model().wf(),
    ensures
        r is Some <==> resolved(root.model(), texts(path@), 0) is Some,
        r is Some ==> r->0.model() == resolved(root.model(), texts(path@), 0)->0,
        r is Some ==> r->0.model().wf(),
        r is Some ==> r->0.model().total_lines <= root.model().total_lines,
        r is Some ==> r->0.model().total_files <= root.model().total_files,
{
    let mut cur = root;
    let mut i: usize = 0;
    while i < path.len()
        invariant
            i <= path@.len(),
            cur.model().wf(),
            cur.model().total_lines <= root.model().total_lines,
            cur.model().total_files <= root.model().total_files,
            resolved(root.model(), texts(path@), 0) == resolved(
                cur.model(),
                texts(path@),
                i as int,
            ),
        decreases path@.len() - i,
    {
        proof {
            lemma_sums_bound(cur.model().children);
            lemma_slot_from(cur.model().children, path@[i as int]@, 0);
            assert(texts(path@)[i as int] == path@[i as int]@);
        }
        match cur.children.get(path[i].as_str()) {
            Some(Node::Folder(f)) => {
                proof {
                    let cs = cur.model().children;
                    assert(cs[slot(cs, path@[i as int]@)].1 == NodeModel::Folder(f.model()));
                }
                cur = f;
            },
            _ => {
                return None;
            },
        }
        i = i + 1;
    }
    Some(cur)
}

/// What files are.
pub open spec fn file_models(v: Seq<&FileNode>) -> Seq<FileModel> {
    v.map_values(|f: &FileNode| f.model())
}

/// Appends all files below `folder` that have lines.
pub fn collect_files<'a>(folder: &'a FolderNode, out: &mut Vec<&'a FileNode>)
    ensures
        file_models(final(out)@) == file_models(old(out)@) + files_below(folder.model().children),
    decreases folder,
{
    let ghost es = folder.children.entries@;
    let ghost cs = folder.model().children;
    let n: usize = folder.children.entries.len();
    proof {
        lemma_entries_model(es);
        assert(cs.take(0) =~= seq![]);
    }
    let mut i: usize = 0;
    while i < n
        invariant
            i <= n == es.len() == cs.len(),
            es == folder.children.entries@,
            forall|k: int| 0 <= k < cs.len() ==> #[trigger] cs[k] == (es[k].0@, es[k].1.model()),
            file_models(out@) =~= file_models(old(out)@) + files_below(cs.take(i as int)),
        decreases n - i,
    {
        let ghost so_far = out@;
        proof {
            assert(cs.take(i + 1).drop_last() =~= cs.take(i as int));
            assert(cs.take(i + 1).last() == cs[i as int]);
        }
        match &folder.children.entries[i].1 {
            Node::File(f) => {
                if f.lines > 0 {
                    out.push(f);
                    proof {
                        assert(file_models(out@) =~= file_models(so_far).push(f.model()));
                    }
                }
            },
            Node::Folder(sub) => {
                collect_files(sub, out);
            },
        }
        i = i + 1;
    }
    proof {
        assert(cs.take(n as int) =~= cs);
    }
}

/// The file that the names from `i` on lead to.
pub open spec fn found(f: FolderModel, names: Seq<Seq<char>>, i: int) -> Option<FileModel>
    decreases names.len() - i,
{
    if i >= names.len() {
        None
    } else {
        match lookup(f.children, names[i]) {
            Some(NodeModel::Folder(sub)) => found(sub, names, i + 1),
            Some(NodeModel::File(file)) => if i == names.len() - 1 {
                Some(file)
            } else {
                None
            },
            None => None,
        }
    }
}

/// Whether going down from a node by names leads to another one: each name is
/// that of an entry of the folder reached so far.
pub open spec fn leads_to(from: NodeModel, names: Seq<Seq<char>>, to: NodeModel) -> bool
    decreases names.len(),
{
    if names.len() == 0 {
        from == to
    } else {
        from is Folder && exists|i: int|
            0 <= i < from->Folder_0.children.len() && (#[trigger] from->Folder_0.children[i]).0
                == names[0] && leads_to(from->Folder_0.children[i].1, names.drop_first(), to)
    }
}

proof fn lemma_leads_on(f: FolderModel, names: Seq<Seq<char>>, i: int, to: NodeModel)
    requires
        f.wf(),
        0 <= i < names.len(),
    ensures
        lookup(f.children, names[i]) is None ==> !leads_to(
            NodeModel::Folder(f),
            names.skip(i),
            to,
        ),
        lookup(f.children, names[i]) is Some ==> (leads_to(NodeModel::Folder(f), names.skip(i), to)
            <==> leads_to(lookup(f.children, names[i])->0, names.skip(i + 1), to)),
{
    let cs = f.children;
    let rest = names.skip(i);
    assert(rest.drop_first() =~= names.skip(i + 1));
    assert(rest[0] == names[i]);
    lemma_slot_from(cs, names[i], 0);
    if leads_to(NodeModel::Folder(f), rest, to) {
        let from = NodeModel::Folder(f);
        let k = choose|k: int|
            0 <= k < from->Folder_0.children.len() && (
            #[trigger] from->Folder_0.children[k]).0 == rest[0] && leads_to(
                from->Folder_0.children[k].1,
                rest.drop_first(),
                to,
            );
        lemma_lookup_at(cs, k);
        assert(leads_to(lookup(cs, names[i])->0, names.skip(i + 1), to));
    }
    if lookup(cs, names[i]) is Some && leads_to(lookup(cs, names[i])->0, names.skip(i + 1), to) {
        let k = slot(cs, names[i]);
        let from = NodeModel::Folder(f);
        assert(0 <= k < from->Folder_0.children.len() && from->Folder_0.children[k].0 == rest[0]
            && leads_to(from->Folder_0.children[k].1, rest.drop_first(), to));
        assert(leads_to(from, rest, to));
    }
}

/// The folder that names are resolved to is the one that they lead to.
pub proof fn names_lead_to_the_folder(f: FolderModel, names: Seq<Seq<char>>, i: int, to: FolderModel)
    requires
        f.wf(),
        0 <= i <= names.len(),
    ensures
        resolved(f, names, i) == Some(to) <==> leads_to(
            NodeModel::Folder(f),
            names.skip(i),
            NodeModel::Folder(to),
        ),
    decreases names.len() - i,
{
    if i < names.len() {
        let end = NodeModel::Folder(to);
        lemma_leads_on(f, names, i, end);
        lemma_slot_from(f.children, names[i], 0);
        match lookup(f.children, names[i]) {
            Some(NodeModel::Folder(sub)) => {
                assert(f.children[slot(f.children, names[i])].1 == NodeModel::Folder(sub));
                names_lead_to_the_folder(sub, names, i + 1, to);
            },
            Some(NodeModel::File(_)) => {
                assert(names.skip(i + 1).len() == names.len() - i - 1);
            },
            None => {},
        }
    }
}

/// The file that is found under names is the one that they lead to.
pub proof fn names_lead_to_the_file(f: FolderModel, names: Seq<Seq<char>>, i: int, to: FileModel)
    requires
        f.wf(),
        0 <= i <= names.len(),
    ensures
        found(f, names, i) == Some(to) <==> leads_to(
            NodeModel::Folder(f),
            names.skip(i),
            NodeModel::File(to),
        ),
    decreases names.len() - i,
{
    if i < names.len() {
        let end = NodeModel::File(to);
        lemma_leads_on(f, names, i, end);
        lemma_slot_from(f.children, names[i], 0);
        match lookup(f.children, names[i]) {
            Some(NodeModel::Folder(sub)) => {
                assert(f.children[slot(f.children, names[i])].1 == NodeModel::Folder(sub));
                names_lead_to_the_file(sub, names, i + 1, to);
            },
            Some(NodeModel::File(_)) => {
                assert(names.skip(i + 1).len() == names.len() - i - 1);
            },
            None => {},
        }
    }
}

/// Whether no file stands in the place of a folder on the way.
pub open spec fn clear_way(f: FolderModel, names: Seq<Seq<char>>, i: int) -> bool
    decreases names.len() - i,
{
    i >= names.len() - 1 || match lookup(f.children, names[i]) {
        Some(NodeModel::Folder(sub)) => clear_way(sub, names, i + 1),
        Some(NodeModel::File(_)) => false,
        None => true,
    }
}

/// An inserted file is found under its names.
pub proof fn inserted_is_found(f: FolderModel, names: Seq<Seq<char>>, i: int, file: FileModel)
    requires
        f.wf(),
        0 <= i < names.len(),
        clear_way(f, names, i),
    ensures
        found(inserted(f, names, i, file), names, i) == Some(file),
    decreases names.len() - i,
{
    let name = names[i];
    if i == names.len() - 1 {
        lemma_put(f.children, name, NodeModel::File(file));
    } else {
        lemma_slot_from(f.children, name, 0);
        let sub = match lookup(f.children, name) {
            Some(NodeModel::Folder(sub)) => sub,
            _ => FolderModel::empty(),
        };
        if lookup(f.children, name) is Some {
            assert(f.children[slot(f.children, name)].1 == NodeModel::Folder(sub));
        } else {
            lemma_empty(names, i + 1);
        }
        inserted_is_found(sub, names, i + 1, file);
        lemma_put(f.children, name, NodeModel::Folder(inserted(sub, names, i + 1, file)));
    }
}

proof fn lemma_empty_exact()
    ensures
        exact(FolderModel::empty()),
{
    assert(langs_exact(FolderModel::empty()));
}

proof fn lemma_empty(names: Seq<Seq<char>>, i: int)
    ensures
        clear_way(FolderModel::empty(), names, i),
        fresh(FolderModel::empty(), names, i),
        found(FolderModel::empty(), names, i) is None,
        FolderModel::empty().wf(),
{
    assert(FolderModel::empty().wf());
}

/// Inserting a file leaves every file whose names part from its names as it
/// was.
pub proof fn inserted_leaves_others(
    f: FolderModel,
    names: Seq<Seq<char>>,
    i: int,
    file: FileModel,
    other: Seq<Seq<char>>,
    k: int,
)
    requires
        f.wf(),
        0 <= i <= k < names.len(),
        k < other.len(),
        names[k] != other[k],
        forall|j: int| i <= j < k ==> names[j] == other[j],
    ensures
        found(inserted(f, names, i, file), other, i) == found(f, other, i),
    decreases names.len() - i,
{
    let name = names[i];
    lemma_slot_from(f.children, name, 0);
    let g = f.counted(file.lang, file.lines);
    if i == names.len() - 1 {
        lemma_put_other(f.children, name, NodeModel::File(file), other[i]);
    } else {
        let sub = match lookup(f.children, name) {
            Some(NodeModel::Folder(sub)) => sub,
            _ => FolderModel::empty(),
        };
        let node = NodeModel::Folder(inserted(sub, names, i + 1, file));
        if k == i {
            lemma_put_other(f.children, name, node, other[i]);
        } else {
            lemma_put(f.children, name, node);
            if lookup(f.children, name) is Some {
                if let NodeModel::Folder(s) = f.children[slot(f.children, name)].1 {
                    assert(s.wf());
                    inserted_leaves_others(sub, names, i + 1, file, other, k);
                }
            } else {
                lemma_empty(other, i + 1);
                inserted_leaves_others(sub, names, i + 1, file, other, k);
            }
        }
    }
}

/// The first place where two lists of names differ.
pub proof fn lemma_first_difference(a: Seq<Seq<char>>, b: Seq<Seq<char>>) -> (k: int)
    requires
        a.len() == b.len(),
        a != b,
    ensures
        0 <= k < a.len(),
        a[k] != b[k],
        forall|j: int| 0 <= j < k ==> a[j] == b[j],
    decreases a.len(),
{
    if a.len() > 0 && a.drop_last() != b.drop_last() {
        let k = lemma_first_difference(a.drop_last(), b.drop_last());
        assert forall|j: int| 0 <= j < k implies a[j] == b[j] by {
            assert(a.drop_last()[j] == b.drop_last()[j]);
        }
        k
    } else {
        if a.len() == 0 {
            assert(a =~= b);
        }
        let n = a.len() - 1;
        assert forall|j: int| 0 <= j < n implies a[j] == b[j] by {
            assert(a.drop_last()[j] == b.drop_last()[j]);
        }
        if a[n] == b[n] {
            assert(a =~= b);
        }
        n
    }
}

/// The lines that are counted for a language.
pub open spec fn of_lang(ls: Seq<(Seq<char>, u64)>, lang: Seq<char>) -> int
    decreases ls.len(),
{
    if ls.len() == 0 {
        0
    } else {
        of_lang(ls.drop_last(), lang) + if ls.last().0 == lang {
            ls.last().1 as int
        } else {
            0
        }
    }
}

/// Whether no language is counted in two places.
pub open spec fn langs_differ(ls: Seq<(Seq<char>, u64)>) -> bool {
    forall|i: int, j: int| 0 <= i < j < ls.len() ==> (#[trigger] ls[i]).0 != (#[trigger] ls[j]).0
}

/// The lines of an entry in a language.
pub open spec fn node_of_lang(n: NodeModel, lang: Seq<char>) -> int {
    match n {
        NodeModel::File(f) => if f.lang == lang {
            f.lines as int
        } else {
            0
        },
        NodeModel::Folder(f) => of_lang(f.lang_lines, lang),
    }
}

/// The lines of all entries in a language.
pub open spec fn lang_in(cs: Seq<(Seq<char>, NodeModel)>, lang: Seq<char>) -> int
    decreases cs.len(),
{
    if cs.len() == 0 {
        0
    } else {
        lang_in(cs.drop_last(), lang) + node_of_lang(cs.last().1, lang)
    }
}

/// Whether a folder counts for every language the lines of its entries.
pub open spec fn langs_exact(f: FolderModel) -> bool {
    &&& langs_differ(f.lang_lines)
    &&& forall|l: Seq<char>| #[trigger] of_lang(f.lang_lines, l) == lang_in(f.children, l)
}

/// Whether the totals of this folder and of all inside, and the lines of every
/// language, are the sums of their entries.
pub open spec fn exact(f: FolderModel) -> bool
    decreases f,
{
    &&& f.total_lines == lines_in(f.children)
    &&& f.total_files == files_in(f.children)
    &&& langs_exact(f)
    &&& forall|i: int|
        0 <= i < f.children.len() ==> match (#[trigger] f.children[i]).1 {
            NodeModel::File(_) => true,
            NodeModel::Folder(sub) => exact(sub),
        }
}

proof fn lemma_of_lang_update(ls: Seq<(Seq<char>, u64)>, i: int, n: u64, l: Seq<char>)
    requires
        0 <= i < ls.len(),
    ensures
        of_lang(ls.update(i, (ls[i].0, n)), l) == of_lang(ls, l) + if ls[i].0 == l {
            n - ls[i].1
        } else {
            0
        },
    decreases ls.len(),
{
    let new = ls.update(i, (ls[i].0, n));
    if i == ls.len() - 1 {
        assert(new.drop_last() =~= ls.drop_last());
    } else {
        assert(new.drop_last() =~= ls.drop_last().update(i, (ls[i].0, n)));
        assert(ls.drop_last()[i] == ls[i]);
        lemma_of_lang_update(ls.drop_last(), i, n, l);
    }
}

proof fn lemma_of_lang_bumped(
    ls: Seq<(Seq<char>, u64)>,
    lang: Seq<char>,
    lines: u64,
    l: Seq<char>,
)
    requires
        lang_sum(ls) + lines <= u64::MAX,
    ensures
        of_lang(bumped(ls, lang, lines), l) == of_lang(ls, l) + if lang == l {
            lines as int
        } else {
            0
        },
{
    let i = lang_at(ls, lang, 0);
    lemma_lang_at(ls, lang, 0);
    lemma_lang_sum_bounds(ls);
    if i < ls.len() {
        lemma_of_lang_update(ls, i, (ls[i].1 + lines) as u64, l);
    } else {
        assert(ls.push((lang, lines)).drop_last() =~= ls);
    }
}

proof fn lemma_bumped_differ(ls: Seq<(Seq<char>, u64)>, lang: Seq<char>, lines: u64)
    requires
        langs_differ(ls),
    ensures
        langs_differ(bumped(ls, lang, lines)),
{
    let at = lang_at(ls, lang, 0);
    lemma_lang_at(ls, lang, 0);
    let new = bumped(ls, lang, lines);
    assert forall|i: int, j: int| 0 <= i < j < new.len() implies (#[trigger] new[i]).0 != (
    #[trigger] new[j]).0 by {
        if j < ls.len() {
            assert(ls[i].0 != ls[j].0);
        } else {
            assert(ls[i].0 != lang);
        }
    }
}

proof fn lemma_of_lang_all_bumped(
    ls: Seq<(Seq<char>, u64)>,
    more: Seq<(Seq<char>, u64)>,
    l: Seq<char>,
)
    requires
        lang_sum(ls) + lang_sum(more) <= u64::MAX,
    ensures
        of_lang(all_bumped(ls, more), l) == of_lang(ls, l) + of_lang(more, l),
        langs_differ(ls) ==> langs_differ(all_bumped(ls, more)),
    decreases more.len(),
{
    if more.len() > 0 {
        let less = more.drop_last();
        lemma_lang_sum_bounds(less);
        lemma_lang_sum_bounds(ls);
        lemma_all_bumped(ls, less);
        lemma_of_lang_all_bumped(ls, less, l);
        lemma_of_lang_bumped(all_bumped(ls, less), more.last().0, more.last().1, l);
        if langs_differ(ls) {
            lemma_bumped_differ(all_bumped(ls, less), more.last().0, more.last().1);
        }
    }
}

proof fn lemma_of_lang_langs_in(cs: Seq<(Seq<char>, NodeModel)>, l: Seq<char>)
    requires
        entries_wf(cs),
        lines_in(cs) <= u64::MAX,
    ensures
        of_lang(langs_in(cs), l) == lang_in(cs, l),
        langs_differ(langs_in(cs)),
    decreases cs.len(),
{
    if cs.len() > 0 {
        let before = cs.drop_last();
        lemma_sums_bound(before);
        assert(entries_wf(before)) by {
            assert forall|i: int| 0 <= i < before.len() implies match (#[trigger] before[i]).1 {
                NodeModel::File(_) => true,
                NodeModel::Folder(f) => f.wf(),
            } by {
                assert(before[i] == cs[i]);
            }
        }
        lemma_langs_in(before);
        lemma_of_lang_langs_in(before, l);
        assert(cs.last() == cs[cs.len() - 1]);
        match cs.last().1 {
            NodeModel::File(f) => {
                lemma_of_lang_bumped(langs_in(before), f.lang, f.lines, l);
                lemma_bumped_differ(langs_in(before), f.lang, f.lines);
            },
            NodeModel::Folder(f) => {
                assert(f.wf());
                lemma_of_lang_all_bumped(langs_in(before), f.lang_lines, l);
            },
        }
    }
}

proof fn lemma_recounted_langs(cs: Seq<(Seq<char>, NodeModel)>)
    requires
        entries_wf(cs),
        lines_in(cs) <= u64::MAX,
    ensures
        langs_exact(recounted(cs)),
{
    lemma_of_lang_langs_in(cs, seq![]);
    assert forall|l: Seq<char>| #[trigger]
        of_lang(recounted(cs).lang_lines, l) == lang_in(cs, l) by {
        lemma_of_lang_langs_in(cs, l);
    }
}

proof fn lemma_lang_in_insert(
    cs: Seq<(Seq<char>, NodeModel)>,
    i: int,
    e: (Seq<char>, NodeModel),
    l: Seq<char>,
)
    requires
        0 <= i <= cs.len(),
    ensures
        lang_in(cs.insert(i, e), l) == lang_in(cs, l) + node_of_lang(e.1, l),
    decreases cs.len(),
{
    let new = cs.insert(i, e);
    if i == cs.len() {
        assert(new.drop_last() =~= cs);
    } else {
        assert(new.drop_last() =~= cs.drop_last().insert(i, e));
        assert(new.last() == cs.last());
        lemma_lang_in_insert(cs.drop_last(), i, e, l);
    }
}

proof fn lemma_lang_in_update(
    cs: Seq<(Seq<char>, NodeModel)>,
    i: int,
    e: (Seq<char>, NodeModel),
    l: Seq<char>,
)
    requires
        0 <= i < cs.len(),
    ensures
        lang_in(cs.update(i, e), l) == lang_in(cs, l) - node_of_lang(cs[i].1, l) + node_of_lang(
            e.1,
            l,
        ),
    decreases cs.len(),
{
    let new = cs.update(i, e);
    if i == cs.len() - 1 {
        assert(new.drop_last() =~= cs.drop_last());
    } else {
        assert(new.drop_last() =~= cs.drop_last().update(i, e));
        assert(new.last() == cs.last());
        assert(cs.drop_last()[i] == cs[i]);
        lemma_lang_in_update(cs.drop_last(), i, e, l);
    }
}

/// An inserted file adds its lines to its language.
proof fn lemma_inserted_langs(f: FolderModel, names: Seq<Seq<char>>, i: int, file: FileModel)
    requires
        f.wf(),
        langs_exact(f),
        has_room(f, file.lines),
        0 <= i < names.len(),
        fresh(f, names, i),
    ensures
        langs_exact(inserted(f, names, i, file)),
{
    let name = names[i];
    let cs = f.children;
    let at = slot(cs, name);
    let new = inserted(f, names, i, file);
    lemma_slot_from(cs, name, 0);
    lemma_sums_bound(cs);
    lemma_bumped_differ(f.lang_lines, file.lang, file.lines);
    assert forall|l: Seq<char>| #[trigger] of_lang(new.lang_lines, l) == lang_in(
        new.children,
        l,
    ) by {
        lemma_of_lang_bumped(f.lang_lines, file.lang, file.lines, l);
        assert(of_lang(f.lang_lines, l) == lang_in(cs, l));
        if i == names.len() - 1 {
            lemma_lang_in_insert(cs, at, (name, NodeModel::File(file)), l);
        } else {
            let sub = match lookup(cs, name) {
                Some(NodeModel::Folder(sub)) => sub,
                _ => FolderModel::empty(),
            };
            let node = NodeModel::Folder(inserted(sub, names, i + 1, file));
            if has(cs, name) {
                assert(cs[at].1 == NodeModel::Folder(sub));
                assert(sub.wf());
                lemma_of_lang_bumped(sub.lang_lines, file.lang, file.lines, l);
                lemma_lang_in_update(cs, at, (name, node), l);
            } else {
                lemma_of_lang_bumped(sub.lang_lines, file.lang, file.lines, l);
                lemma_lang_in_insert(cs, at, (name, node), l);
            }
        }
    }
}

/// Whether nothing was inserted yet under these names.
pub open spec fn fresh(f: FolderModel, names: Seq<Seq<char>>, i: int) -> bool
    decreases names.len() - i,
{
    i >= names.len() || match lookup(f.children, names[i]) {
        Some(NodeModel::Folder(sub)) => i < names.len() - 1 && fresh(sub, names, i + 1),
        Some(NodeModel::File(_)) => false,
        None => true,
    }
}

/// Where nothing was inserted nothing is found, and nothing stands in the way.
pub proof fn lemma_fresh_not_found(f: FolderModel, names: Seq<Seq<char>>, i: int)
    requires
        fresh(f, names, i),
    ensures
        found(f, names, i) is None,
        clear_way(f, names, i),
    decreases names.len() - i,
{
    if i < names.len() {
        if let Some(NodeModel::Folder(sub)) = lookup(f.children, names[i]) {
            lemma_fresh_not_found(sub, names, i + 1);
        }
    }
}

/// Inserting a new file keeps every folder's totals the sums of its entries.
pub proof fn inserted_stays_exact(f: FolderModel, names: Seq<Seq<char>>, i: int, file: FileModel)
    requires
        f.wf(),
        exact(f),
        has_room(f, file.lines),
        0 <= i < names.len(),
        fresh(f, names, i),
    ensures
        exact(inserted(f, names, i, file)),
    decreases names.len() - i,
{
    let name = names[i];
    let cs = f.children;
    let at = slot(cs, name);
    lemma_slot_from(cs, name, 0);
    lemma_sums_bound(cs);
    lemma_inserted_wf(f, names, i, file);
    lemma_inserted_langs(f, names, i, file);
    let new = inserted(f, names, i, file);
    if i == names.len() - 1 {
        lemma_sums_insert(cs, at, (name, NodeModel::File(file)));
        assert(new.children == cs.insert(at, (name, NodeModel::File(file))));
    } else {
        let sub = match lookup(cs, name) {
            Some(NodeModel::Folder(sub)) => sub,
            _ => FolderModel::empty(),
        };
        let node = NodeModel::Folder(inserted(sub, names, i + 1, file));
        if has(cs, name) {
            assert(cs[at].1 == NodeModel::Folder(sub));
        } else {
            lemma_empty(names, i + 1);
            lemma_empty_exact();
            assert(exact(sub));
        }
        inserted_stays_exact(sub, names, i + 1, file);
        lemma_inserted_wf(sub, names, i + 1, file);
        if has(cs, name) {
            lemma_sums_update(cs, at, (name, node));
        } else {
            lemma_sums_insert(cs, at, (name, node));
        }
    }
    assert forall|k: int| 0 <= k < new.children.len() implies match (#[trigger] new.children[k]).1 {
        NodeModel::File(_) => true,
        NodeModel::Folder(x) => exact(x),
    } by {
        if k != at {
            let o = if has(cs, name) || k < at { k } else { k - 1 };
            assert(new.children[k] == cs[o]);
        }
    }
}

/// Inserting a new file adds that one file: under its names it is found, and
/// under all other names what was found before.
pub proof fn inserted_adds_one_file(
    f: FolderModel,
    names: Seq<Seq<char>>,
    i: int,
    file: FileModel,
    other: Seq<Seq<char>>,
)
    requires
        f.wf(),
        0 <= i < names.len(),
        fresh(f, names, i),
        forall|j: int| 0 <= j < i ==> j < other.len() && (#[trigger] names[j]) == other[j],
    ensures
        found(inserted(f, names, i, file), other, i) == if other == names {
            Some(file)
        } else {
            found(f, other, i)
        },
    decreases names.len() - i,
{
    if other == names {
        lemma_fresh_not_found(f, names, i);
        inserted_is_found(f, names, i, file);
    } else if i < other.len() {
        let name = names[i];
        let cs = f.children;
        lemma_slot_from(cs, name, 0);
        if other[i] != name {
            inserted_leaves_others(f, names, i, file, other, i);
        } else if i == names.len() - 1 {
            lemma_put(cs, name, NodeModel::File(file));
            if other.len() == names.len() {
                assert(other =~= names) by {
                    assert forall|j: int| 0 <= j < names.len() implies names[j] == other[j] by {}
                }
            }
        } else {
            let sub = match lookup(cs, name) {
                Some(NodeModel::Folder(sub)) => sub,
                _ => FolderModel::empty(),
            };
            if has(cs, name) {
                assert(cs[slot(cs, name)].1 == NodeModel::Folder(sub));
                assert(sub.wf());
            } else {
                lemma_empty(names, i + 1);
                lemma_empty(other, i + 1);
            }
            lemma_put(cs, name, NodeModel::Folder(inserted(sub, names, i + 1, file)));
            inserted_adds_one_file(sub, names, i + 1, file, other);
        }
    }
}

/// The tree after files were inserted one after the other.
pub open spec fn grown(es: Seq<(Seq<Seq<char>>, FileModel)>) -> FolderModel
    decreases es.len(),
{
    if es.len() == 0 {
        FolderModel::empty()
    } else {
        inserted(grown(es.drop_last()), es.last().0, 0, es.last().1)
    }
}

/// Whether each file is new when it is inserted, and there is room for it.
pub open spec fn insertable(es: Seq<(Seq<Seq<char>>, FileModel)>) -> bool
    decreases es.len(),
{
    es.len() == 0 || {
        let before = grown(es.drop_last());
        &&& insertable(es.drop_last())
        &&& es.last().0.len() > 0
        &&& fresh(before, es.last().0, 0)
        &&& has_room(before, es.last().1.lines)
    }
}

/// A tree into which new files were inserted holds exactly these files, and all
/// its totals are those of the files.
pub proof fn grown_trees_are_exact(es: Seq<(Seq<Seq<char>>, FileModel)>)
    requires
        insertable(es),
    ensures
        grown(es).wf(),
        exact(grown(es)),
        forall|names: Seq<Seq<char>>, file: FileModel| #[trigger]
            es.contains((names, file)) <==> found(grown(es), names, 0) == Some(file),
    decreases es.len(),
{
    if es.len() == 0 {
        lemma_empty(seq![], 0);
        lemma_empty_exact();
        assert forall|names: Seq<Seq<char>>, file: FileModel| #[trigger]
            es.contains((names, file)) <==> found(grown(es), names, 0) == Some(file) by {
            lemma_empty(names, 0);
        }
    } else {
        let less = es.drop_last();
        let before = grown(less);
        let e = es.last();
        grown_trees_are_exact(less);
        lemma_inserted_wf(before, e.0, 0, e.1);
        inserted_stays_exact(before, e.0, 0, e.1);
        lemma_fresh_not_found(before, e.0, 0);
        assert forall|names: Seq<Seq<char>>, file: FileModel| #[trigger]
            es.contains((names, file)) <==> found(grown(es), names, 0) == Some(file) by {
            inserted_adds_one_file(before, e.0, 0, e.1, names);
            if es.contains((names, file)) {
                let k = choose|k: int| 0 <= k < es.len() && es[k] == (names, file);
                if k < less.len() {
                    assert(less[k] == (names, file));
                    assert(less.contains((names, file)));
                    assert(found(before, names, 0) == Some(file));
                }
            }
            if less.contains((names, file)) {
                let k = choose|k: int| 0 <= k < less.len() && less[k] == (names, file);
                assert(es[k] == (names, file));
            }
            if names == e.0 && file == e.1 {
                assert(es[es.len() - 1] == (names, file));
            }
        }
    }
}

/// Whether a file that has lines stands somewhere below entries.
pub open spec fn stands_below(cs: Seq<(Seq<char>, NodeModel)>, f: FileModel) -> bool
    decreases cs,
{
    f.lines > 0 && exists|i: int|
        0 <= i < cs.len() && match (#[trigger] cs[i]).1 {
            NodeModel::File(g) => g == f,
            NodeModel::Folder(sub) => stands_below(sub.children, f),
        }
}

proof fn lemma_stands_below_last(cs: Seq<(Seq<char>, NodeModel)>, f: FileModel)
    requires
        cs.len() > 0,
    ensures
        stands_below(cs, f) <==> stands_below(cs.drop_last(), f) || (f.lines > 0
            && match cs.last().1 {
            NodeModel::File(g) => g == f,
            NodeModel::Folder(sub) => stands_below(sub.children, f),
        }),
{
    let less = cs.drop_last();
    let n = cs.len() - 1;
    if stands_below(cs, f) {
        let i = choose|i: int|
            0 <= i < cs.len() && match (#[trigger] cs[i]).1 {
                NodeModel::File(g) => g == f,
                NodeModel::Folder(sub) => stands_below(sub.children, f),
            };
        if i < n {
            assert(less[i] == cs[i]);
        }
    }
    if stands_below(less, f) {
        let i = choose|i: int|
            0 <= i < less.len() && match (#[trigger] less[i]).1 {
                NodeModel::File(g) => g == f,
                NodeModel::Folder(sub) => stands_below(sub.children, f),
            };
        assert(less[i] == cs[i]);
    }
    assert(cs[n] == cs.last());
}

/// The files that are collected below entries are exactly those that stand there
/// and have lines.
pub proof fn collected_files_are_those_below(cs: Seq<(Seq<char>, NodeModel)>, f: FileModel)
    ensures
        files_below(cs).contains(f) <==> stands_below(cs, f),
    decreases cs,
{
    if cs.len() > 0 {
        let less = cs.drop_last();
        collected_files_are_those_below(less, f);
        lemma_stands_below_last(cs, f);
        let more = match cs.last().1 {
            NodeModel::File(g) => if g.lines > 0 {
                seq![g]
            } else {
                seq![]
            },
            NodeModel::Folder(sub) => files_below(sub.children),
        };
        let before = files_below(less);
        assert(files_below(cs) == before + more);
        assert((before + more).contains(f) <==> before.contains(f) || more.contains(f)) by {
            if before.contains(f) {
                let i = choose|i: int| 0 <= i < before.len() && before[i] == f;
                assert((before + more)[i] == f);
            }
            if more.contains(f) {
                let i = choose|i: int| 0 <= i < more.len() && more[i] == f;
                assert((before + more)[before.len() + i] == f);
            }
            if (before + more).contains(f) {
                let i = choose|i: int| 0 <= i < (before + more).len() && (before + more)[i] == f;
                if i < before.len() {
                    assert(before[i] == f);
                } else {
                    assert(more[i - before.len()] == f);
                }
            }
        }
        match cs.last().1 {
            NodeModel::File(g) => {
                if g.lines > 0 {
                    assert(more[0] == g);
                }
            },
            NodeModel::Folder(sub) => {
                collected_files_are_those_below(sub.children, f);
            },
        }
    } else {
        assert(!files_below(cs).contains(f));
    }
}

/// All files below entries, in order.
pub open spec fn all_below(cs: Seq<(Seq<char>, NodeModel)>) -> Seq<FileModel>
    decreases cs,
{
    if cs.len() == 0 {
        seq![]
    } else {
        all_below(cs.drop_last()) + match cs.last().1 {
            NodeModel::File(f) => seq![f],
            NodeModel::Folder(sub) => all_below(sub.children),
        }
    }
}

/// The lines of files in a language.
pub open spec fn file_lines_of(fs: Seq<FileModel>, lang: Seq<char>) -> int
    decreases fs.len(),
{
    if fs.len() == 0 {
        0
    } else {
        file_lines_of(fs.drop_last(), lang) + if fs.last().lang == lang {
            fs.last().lines as int
        } else {
            0
        }
    }
}

proof fn lemma_file_lines_of_joined(a: Seq<FileModel>, b: Seq<FileModel>, l: Seq<char>)
    ensures
        file_lines_of(a + b, l) == file_lines_of(a, l) + file_lines_of(b, l),
    decreases b.len(),
{
    if b.len() == 0 {
        assert(a + b =~= a);
    } else {
        assert((a + b).drop_last() =~= a + b.drop_last());
        lemma_file_lines_of_joined(a, b.drop_last(), l);
    }
}

proof fn lemma_all_below(f: FolderModel, n: int, l: Seq<char>)
    requires
        exact(f),
        0 <= n <= f.children.len(),
    ensures
        ({
            let cs = f.children.take(n);
            &&& all_below(cs).len() == files_in(cs)
            &&& file_lines(all_below(cs)) == lines_in(cs)
            &&& file_lines_of(all_below(cs), l) == lang_in(cs, l)
        }),
    decreases f, n,
{
    let cs = f.children.take(n);
    if n == 0 {
        assert(cs =~= seq![]);
    } else {
        assert(cs.drop_last() =~= f.children.take(n - 1));
        assert(cs.last() == f.children[n - 1]);
        lemma_all_below(f, n - 1, l);
        let below = match cs.last().1 {
            NodeModel::File(x) => seq![x],
            NodeModel::Folder(sub) => all_below(sub.children),
        };
        match f.children[n - 1].1 {
            NodeModel::Folder(sub) => {
                assert(exact(sub));
                lemma_all_below(sub, sub.children.len() as int, l);
                assert(sub.children.take(sub.children.len() as int) =~= sub.children);
                assert(of_lang(sub.lang_lines, l) == lang_in(sub.children, l));
            },
            NodeModel::File(x) => {
                reveal_with_fuel(file_lines, 2);
                reveal_with_fuel(file_lines_of, 2);
                assert(seq![x].drop_last() =~= seq![]);
            },
        }
        lemma_file_lines_joined(all_below(cs.drop_last()), below);
        lemma_file_lines_of_joined(all_below(cs.drop_last()), below, l);
        assert(all_below(cs) == all_below(cs.drop_last()) + below);
    }
}

/// The totals of a folder are those of all files below it: how many there are,
/// their lines, and their lines in each language.
pub proof fn totals_are_those_of_the_files(f: FolderModel, l: Seq<char>)
    requires
        exact(f),
    ensures
        f.total_files == all_below(f.children).len(),
        f.total_lines == file_lines(all_below(f.children)),
        of_lang(f.lang_lines, l) == file_lines_of(all_below(f.children), l),
{
    lemma_all_below(f, f.children.len() as int, l);
    assert(f.children.take(f.children.len() as int) =~= f.children);
    assert(of_lang(f.lang_lines, l) == lang_in(f.children, l));
}

proof fn lemma_of_lang_at(ls: Seq<(Seq<char>, u64)>, i: int)
    requires
        langs_differ(ls),
        0 <= i < ls.len(),
    ensures
        of_lang(ls, ls[i].0) == ls[i].1,
    decreases ls.len(),
{
    let less = ls.drop_last();
    assert(langs_differ(less)) by {
        assert forall|a: int, b: int| 0 <= a < b < less.len() implies (#[trigger] less[a]).0 != (
        #[trigger] less[b]).0 by {
            assert(ls[a].0 != ls[b].0);
        }
    }
    if i < less.len() {
        assert(less[i] == ls[i]);
        assert(ls[i].0 != ls[ls.len() - 1].0);
        lemma_of_lang_at(less, i);
    } else {
        lemma_of_lang_other(less, ls[i].0);
    }
}

proof fn lemma_of_lang_other(ls: Seq<(Seq<char>, u64)>, l: Seq<char>)
    requires
        forall|i: int| 0 <= i < ls.len() ==> (#[trigger] ls[i]).0 != l,
    ensures
        of_lang(ls, l) == 0,
    decreases ls.len(),
{
    if ls.len() > 0 {
        let less = ls.drop_last();
        assert forall|i: int| 0 <= i < less.len() implies (#[trigger] less[i]).0 != l by {
            assert(ls[i].0 != l);
        }
        assert(ls[ls.len() - 1].0 != l);
        lemma_of_lang_other(less, l);
    }
}

/// The dominant language of a folder is one that no other language has more
/// lines than, in the files below the folder.
pub proof fn dominant_is_that_of_the_files(f: FolderModel, l: Seq<char>)
    requires
        exact(f),
        most_lines(f.lang_lines) is Some,
    ensures
        file_lines_of(all_below(f.children), l) <= file_lines_of(
            all_below(f.children),
            (most_lines(f.lang_lines)->0).0,
        ),
{
    let ls = f.lang_lines;
    let best = most_lines(ls)->0;
    dominant_has_most_lines(ls);
    totals_are_those_of_the_files(f, l);
    totals_are_those_of_the_files(f, best.0);
    let b = choose|b: int| 0 <= b < ls.len() && ls[b] == best;
    lemma_of_lang_at(ls, b);
    if exists|i: int| 0 <= i < ls.len() && (#[trigger] ls[i]).0 == l {
        let i = choose|i: int| 0 <= i < ls.len() && (#[trigger] ls[i]).0 == l;
        lemma_of_lang_at(ls, i);
    } else {
        lemma_of_lang_other(ls, l);
    }
}

/// The lines of files.
pub open spec fn file_lines(fs: Seq<FileModel>) -> int
    decreases fs.len(),
{
    if fs.len() == 0 {
        0
    } else {
        file_lines(fs.drop_last()) + fs.last().lines
    }
}

proof fn lemma_file_lines_joined(a: Seq<FileModel>, b: Seq<FileModel>)
    ensures
        file_lines(a + b) == file_lines(a) + file_lines(b),
    decreases b.len(),
{
    if b.len() == 0 {
        assert(a + b =~= a);
    } else {
        assert((a + b).drop_last() =~= a + b.drop_last());
        lemma_file_lines_joined(a, b.drop_last());
    }
}

/// The files of a folder have its lines, all together.
pub proof fn collected_files_have_all_lines(f: FolderModel)
    requires
        exact(f),
    ensures
        file_lines(files_below(f.children)) == f.total_lines,
    decreases f,
{
    lemma_collected_prefix(f, f.children.len() as int);
    assert(f.children.take(f.children.len() as int) =~= f.children);
}

proof fn lemma_collected_prefix(f: FolderModel, n: int)
    requires
        exact(f),
        0 <= n <= f.children.len(),
    ensures
        file_lines(files_below(f.children.take(n))) == lines_in(f.children.take(n)),
    decreases f, n,
{
    let cs = f.children.take(n);
    if n == 0 {
        assert(cs =~= seq![]);
    } else {
        assert(cs.drop_last() =~= f.children.take(n - 1));
        assert(cs.last() == f.children[n - 1]);
        lemma_collected_prefix(f, n - 1);
        let below = match cs.last().1 {
            NodeModel::File(x) => if x.lines > 0 {
                seq![x]
            } else {
                seq![]
            },
            NodeModel::Folder(sub) => files_below(sub.children),
        };
        match f.children[n - 1].1 {
            NodeModel::Folder(sub) => {
                lemma_collected_prefix(sub, sub.children.len() as int);
                assert(sub.children.take(sub.children.len() as int) =~= sub.children);
                assert(exact(sub));
            },
            NodeModel::File(x) => {
                reveal_with_fuel(file_lines, 2);
                assert(seq![x].drop_last() =~= seq![]);
                assert(file_lines(seq![x]) == x.lines);
            },
        }
        lemma_file_lines_joined(files_below(cs.drop_last()), below);
        assert(files_below(cs) == files_below(cs.drop_last()) + below);
        assert(file_lines(below) == node_lines(cs.last().1));
        assert(lines_in(cs) == lines_in(cs.drop_last()) + node_lines(cs.last().1));
    }
}

/// The files of a folder have no more lines than the folder.
pub proof fn lemma_files_bound(f: FolderModel, n: int)
    requires
        f.wf(),
        0 <= n <= f.children.len(),
    ensures
        file_lines(files_below(f.children.take(n))) <= lines_in(f.children.take(n)),
    decreases f, n,
{
    let cs = f.children.take(n);
    if n == 0 {
        assert(cs =~= seq![]);
    } else {
        assert(cs.drop_last() =~= f.children.take(n - 1));
        assert(cs.last() == f.children[n - 1]);
        lemma_files_bound(f, n - 1);
        let below = match cs.last().1 {
            NodeModel::File(x) => if x.lines > 0 {
                seq![x]
            } else {
                seq![]
            },
            NodeModel::Folder(sub) => files_below(sub.children),
        };
        match f.children[n - 1].1 {
            NodeModel::Folder(sub) => {
                lemma_files_bound(sub, sub.children.len() as int);
                assert(sub.children.take(sub.children.len() as int) =~= sub.children);
                assert(sub.wf());
            },
            NodeModel::File(x) => {
                reveal_with_fuel(file_lines, 2);
                assert(seq![x].drop_last() =~= seq![]);
                assert(file_lines(seq![x]) == x.lines);
            },
        }
        lemma_file_lines_joined(files_below(cs.drop_last()), below);
        assert(files_below(cs) == files_below(cs.drop_last()) + below);
        assert(lines_in(cs) == lines_in(cs.drop_last()) + node_lines(cs.last().1));
    }
}

/// The dominant language has no fewer lines than any other.
pub proof fn dominant_has_most_lines(ls: Seq<(Seq<char>, u64)>)
    requires
        ls.len() > 0,
    ensures
        most_lines(ls) is Some,
        ls.contains(most_lines(ls)->0),
        forall|i: int| 0 <= i < ls.len() ==> (#[trigger] ls[i]).1 <= (most_lines(ls)->0).1,
    decreases ls.len(),
{
    let last = ls.last();
    assert(ls[ls.len() - 1] == last);
    if ls.len() > 1 {
        let before = ls.drop_last();
        dominant_has_most_lines(before);
        let k = before.index_of(most_lines(before)->0);
        assert(ls[k] == before[k]);
        assert forall|i: int| 0 <= i < ls.len() implies (#[trigger] ls[i]).1 <= (most_lines(
            ls,
        )->0).1 by {
            if i < ls.len() - 1 {
                assert(ls[i] == before[i]);
            }
        }
    } else {
        assert(ls.drop_last() =~= seq![]);
    }
}

// ── removing ────────────────────────────────────────────────────────────────

/// Line counts with those of others added, one by one.
pub open spec fn all_bumped(ls: Seq<(Seq<char>, u64)>, more: Seq<(Seq<char>, u64)>) -> Seq<
    (Seq<char>, u64),
>
    decreases more.len(),
{
    if more.len() == 0 {
        ls
    } else {
        bumped(all_bumped(ls, more.drop_last()), more.last().0, more.last().1)
    }
}

/// The line counts of entries by language.
pub open spec fn langs_in(cs: Seq<(Seq<char>, NodeModel)>) -> Seq<(Seq<char>, u64)>
    decreases cs.len(),
{
    if cs.len() == 0 {
        seq![]
    } else {
        let before = langs_in(cs.drop_last());
        match cs.last().1 {
            NodeModel::File(f) => bumped(before, f.lang, f.lines),
            NodeModel::Folder(f) => all_bumped(before, f.lang_lines),
        }
    }
}

/// A folder with these entries, and the totals that they add up to.
pub open spec fn recounted(cs: Seq<(Seq<char>, NodeModel)>) -> FolderModel {
    FolderModel {
        children: cs,
        total_lines: lines_in(cs) as u64,
        total_files: files_in(cs) as u64,
        lang_lines: langs_in(cs),
    }
}

/// The folder without the file that the names from `i` on lead to. Folders
/// that have nothing left go too, and the others count again what they have.
pub open spec fn removed(f: FolderModel, names: Seq<Seq<char>>, i: int) -> FolderModel
    decreases names.len() - i,
{
    let at = slot(f.children, names[i]);
    if i >= names.len() {
        f
    } else {
        match lookup(f.children, names[i]) {
            None => f,
            Some(NodeModel::File(_)) => if i == names.len() - 1 {
                recounted(f.children.remove(at))
            } else {
                f
            },
            Some(NodeModel::Folder(sub)) => if i == names.len() - 1 {
                f
            } else {
                let rest = removed(sub, names, i + 1);
                if rest.children.len() == 0 {
                    recounted(f.children.remove(at))
                } else {
                    recounted(f.children.update(at, (names[i], NodeModel::Folder(rest))))
                }
            },
        }
    }
}

/// The folder without the file that names lead to, if they lead to one.
pub open spec fn without(f: FolderModel, names: Seq<Seq<char>>) -> FolderModel {
    if found(f, names, 0) is Some {
        removed(f, names, 0)
    } else {
        f
    }
}

proof fn lemma_all_bumped(ls: Seq<(Seq<char>, u64)>, more: Seq<(Seq<char>, u64)>)
    requires
        lang_sum(ls) + lang_sum(more) <= u64::MAX,
    ensures
        lang_sum(all_bumped(ls, more)) == lang_sum(ls) + lang_sum(more),
    decreases more.len(),
{
    if more.len() > 0 {
        lemma_lang_sum_bounds(more.drop_last());
        lemma_lang_sum_bounds(ls);
        lemma_all_bumped(ls, more.drop_last());
        lemma_bumped(all_bumped(ls, more.drop_last()), more.last().0, more.last().1);
    }
}

/// Whether all folders among entries are well formed.
pub open spec fn entries_wf(cs: Seq<(Seq<char>, NodeModel)>) -> bool {
    forall|i: int|
        0 <= i < cs.len() ==> match (#[trigger] cs[i]).1 {
            NodeModel::File(_) => true,
            NodeModel::Folder(f) => f.wf(),
        }
}

proof fn lemma_langs_in(cs: Seq<(Seq<char>, NodeModel)>)
    requires
        entries_wf(cs),
        lines_in(cs) <= u64::MAX,
    ensures
        lang_sum(langs_in(cs)) == lines_in(cs),
    decreases cs.len(),
{
    if cs.len() > 0 {
        let before = cs.drop_last();
        lemma_sums_bound(before);
        assert(entries_wf(before)) by {
            assert forall|i: int| 0 <= i < before.len() implies match (#[trigger] before[i]).1 {
                NodeModel::File(_) => true,
                NodeModel::Folder(f) => f.wf(),
            } by {
                assert(before[i] == cs[i]);
            }
        }
        lemma_langs_in(before);
        assert(cs.last() == cs[cs.len() - 1]);
        match cs.last().1 {
            NodeModel::File(f) => lemma_bumped(langs_in(before), f.lang, f.lines),
            NodeModel::Folder(f) => {
                assert(f.wf());
                lemma_all_bumped(langs_in(before), f.lang_lines);
            },
        }
    }
}

proof fn lemma_recounted_wf(cs: Seq<(Seq<char>, NodeModel)>)
    requires
        sorted(cs),
        entries_wf(cs),
        lines_in(cs) <= u64::MAX,
        files_in(cs) <= u64::MAX,
    ensures
        recounted(cs).wf(),
{
    lemma_langs_in(cs);
    lemma_sums_bound(cs);
}

proof fn lemma_sums_remove(cs: Seq<(Seq<char>, NodeModel)>, i: int)
    requires
        0 <= i < cs.len(),
    ensures
        lines_in(cs.remove(i)) == lines_in(cs) - node_lines(cs[i].1),
        files_in(cs.remove(i)) == files_in(cs) - node_files(cs[i].1),
    decreases cs.len(),
{
    let less = cs.remove(i);
    if i == cs.len() - 1 {
        assert(less =~= cs.drop_last());
    } else {
        assert(less.drop_last() =~= cs.drop_last().remove(i));
        assert(less.last() == cs.last());
        lemma_sums_remove(cs.drop_last(), i);
    }
}

proof fn lemma_remove_entry(f: FolderModel, at: int)
    requires
        f.wf(),
        0 <= at < f.children.len(),
    ensures
        recounted(f.children.remove(at)).wf(),
        0 <= lines_in(f.children.remove(at)) <= f.total_lines,
        0 <= files_in(f.children.remove(at)) <= f.total_files,
{
    let cs = f.children;
    let less = cs.remove(at);
    lemma_sums_remove(cs, at);
    lemma_sums_bound(cs);
    lemma_sums_bound(less);
    assert(node_lines(cs[at].1) >= 0);
    assert forall|i: int, j: int| 0 <= i < j < less.len() implies text::before(
        (#[trigger] less[i]).0,
        (#[trigger] less[j]).0,
    ) by {
        let x = if i < at { i } else { i + 1 };
        let y = if j < at { j } else { j + 1 };
        assert(text::before(cs[x].0, cs[y].0));
    }
    assert forall|i: int| 0 <= i < less.len() implies match (#[trigger] less[i]).1 {
        NodeModel::File(_) => true,
        NodeModel::Folder(g) => g.wf(),
    } by {
        let x = if i < at { i } else { i + 1 };
        assert(less[i] == cs[x]);
    }
    lemma_recounted_wf(less);
}

proof fn lemma_replace_entry(f: FolderModel, at: int, g: FolderModel)
    requires
        f.wf(),
        0 <= at < f.children.len(),
        g.wf(),
        g.total_lines <= node_lines(f.children[at].1),
        g.total_files <= node_files(f.children[at].1),
    ensures
        ({
            let cs = f.children.update(at, (f.children[at].0, NodeModel::Folder(g)));
            &&& recounted(cs).wf()
            &&& 0 <= lines_in(cs) <= f.total_lines
            &&& 0 <= files_in(cs) <= f.total_files
        }),
{
    let cs = f.children;
    let now = cs.update(at, (cs[at].0, NodeModel::Folder(g)));
    lemma_sums_update(cs, at, (cs[at].0, NodeModel::Folder(g)));
    lemma_sums_bound(now);
    assert forall|i: int, j: int| 0 <= i < j < now.len() implies text::before(
        (#[trigger] now[i]).0,
        (#[trigger] now[j]).0,
    ) by {
        assert(text::before(cs[i].0, cs[j].0));
    }
    assert forall|i: int| 0 <= i < now.len() implies match (#[trigger] now[i]).1 {
        NodeModel::File(_) => true,
        NodeModel::Folder(x) => x.wf(),
    } by {
        if i != at {
            assert(now[i] == cs[i]);
        }
    }
    lemma_recounted_wf(now);
}

/// Removing keeps a folder well formed, and makes it no larger.
pub proof fn lemma_removed_wf(f: FolderModel, names: Seq<Seq<char>>, i: int)
    requires
        f.wf(),
    ensures
        removed(f, names, i).wf(),
        removed(f, names, i).total_lines <= f.total_lines,
        removed(f, names, i).total_files <= f.total_files,
    decreases names.len() - i,
{
    if i < names.len() {
        let at = slot(f.children, names[i]);
        lemma_slot_from(f.children, names[i], 0);
        match lookup(f.children, names[i]) {
            None => {},
            Some(NodeModel::File(_)) => {
                lemma_remove_entry(f, at);
            },
            Some(NodeModel::Folder(sub)) => {
                assert(f.children[at] == (names[i], NodeModel::Folder(sub)));
                lemma_removed_wf(sub, names, i + 1);
                lemma_remove_entry(f, at);
                lemma_replace_entry(f, at, removed(sub, names, i + 1));
            },
        }
    }
}

proof fn lemma_exact_without(f: FolderModel, at: int)
    requires
        f.wf(),
        exact(f),
        0 <= at < f.children.len(),
    ensures
        exact(recounted(f.children.remove(at))),
        recounted(f.children.remove(at)).total_lines == f.total_lines - node_lines(
            f.children[at].1,
        ),
        recounted(f.children.remove(at)).total_files == f.total_files - node_files(
            f.children[at].1,
        ),
{
    let cs = f.children;
    let less = cs.remove(at);
    lemma_sums_remove(cs, at);
    lemma_sums_bound(cs);
    lemma_remove_entry(f, at);
    let g = recounted(less);
    lemma_recounted_langs(less);
    assert forall|k: int| 0 <= k < g.children.len() implies match (#[trigger] g.children[k]).1 {
        NodeModel::File(_) => true,
        NodeModel::Folder(x) => exact(x),
    } by {
        let o = if k < at { k } else { k + 1 };
        assert(g.children[k] == cs[o]);
    }
}

proof fn lemma_exact_with(f: FolderModel, at: int, sub: FolderModel)
    requires
        f.wf(),
        exact(f),
        0 <= at < f.children.len(),
        sub.wf(),
        exact(sub),
        sub.total_lines <= node_lines(f.children[at].1),
        sub.total_files <= node_files(f.children[at].1),
    ensures
        ({
            let g = recounted(
                f.children.update(at, (f.children[at].0, NodeModel::Folder(sub))),
            );
            &&& exact(g)
            &&& g.total_lines == f.total_lines - node_lines(f.children[at].1) + sub.total_lines
            &&& g.total_files == f.total_files - node_files(f.children[at].1) + sub.total_files
        }),
{
    let cs = f.children;
    let e = (cs[at].0, NodeModel::Folder(sub));
    lemma_sums_update(cs, at, e);
    lemma_replace_entry(f, at, sub);
    let g = recounted(cs.update(at, e));
    lemma_recounted_langs(g.children);
    assert forall|k: int| 0 <= k < g.children.len() implies match (#[trigger] g.children[k]).1 {
        NodeModel::File(_) => true,
        NodeModel::Folder(x) => exact(x),
    } by {
        if k != at {
            assert(g.children[k] == cs[k]);
        }
    }
}

/// Removing a file that was newly inserted undoes the insertion: the totals are
/// what they were, and the file is not found.
pub proof fn removing_undoes_inserting(f: FolderModel, names: Seq<Seq<char>>, i: int, file: FileModel)
    requires
        f.wf(),
        exact(f),
        has_room(f, file.lines),
        0 <= i < names.len(),
        fresh(f, names, i),
    ensures
        ({
            let g = removed(inserted(f, names, i, file), names, i);
            &&& g.total_lines == f.total_lines
            &&& g.total_files == f.total_files
            &&& exact(g)
            &&& found(g, names, i) is None
        }),
    decreases names.len() - i,
{
    let name = names[i];
    let cs = f.children;
    let at = slot(cs, name);
    lemma_slot_from(cs, name, 0);
    lemma_sums_bound(cs);
    lemma_inserted_wf(f, names, i, file);
    inserted_stays_exact(f, names, i, file);
    let ins = inserted(f, names, i, file);
    if i == names.len() - 1 {
        let node = NodeModel::File(file);
        lemma_put(cs, name, node);
        assert(ins.children[at] == (name, node));
        lemma_lookup_at(ins.children, at);
        lemma_exact_without(ins, at);
        lemma_gone(ins.children, at);
    } else {
        let sub = match lookup(cs, name) {
            Some(NodeModel::Folder(sub)) => sub,
            _ => FolderModel::empty(),
        };
        if has(cs, name) {
            assert(cs[at].1 == NodeModel::Folder(sub));
        } else {
            lemma_empty(names, i + 1);
            lemma_empty_exact();
            assert(exact(sub));
        }
        let inner = inserted(sub, names, i + 1, file);
        let rest = removed(inner, names, i + 1);
        let node = NodeModel::Folder(inner);
        removing_undoes_inserting(sub, names, i + 1, file);
        lemma_inserted_wf(sub, names, i + 1, file);
        lemma_removed_wf(inner, names, i + 1);
        lemma_put(cs, name, node);
        assert(ins.children[at] == (name, node));
        lemma_lookup_at(ins.children, at);
        if rest.children.len() == 0 {
            assert(exact(rest));
            assert(rest.total_lines == 0 && rest.total_files == 0);
            lemma_exact_without(ins, at);
            lemma_gone(ins.children, at);
        } else {
            let now = ins.children.update(at, (name, NodeModel::Folder(rest)));
            lemma_exact_with(ins, at, rest);
            lemma_replace_entry(ins, at, rest);
            assert(now[at] == (name, NodeModel::Folder(rest)));
            lemma_lookup_at(now, at);
        }
    }
}

proof fn lemma_gone(cs: Seq<(Seq<char>, NodeModel)>, at: int)
    requires
        sorted(cs),
        0 <= at < cs.len(),
    ensures
        lookup(cs.remove(at), cs[at].0) is None,
{
    let name = cs[at].0;
    let less = cs.remove(at);
    if has(less, name) {
        lemma_slot_from(less, name, 0);
        let k = slot(less, name);
        let o = if k < at { k } else { k + 1 };
        assert(less[k] == cs[o]);
        if o < at {
            text::lemma_before_one_way(cs[o].0, cs[at].0);
        } else {
            text::lemma_before_one_way(cs[at].0, cs[o].0);
        }
    }
}

proof fn lemma_remove_other(cs: Seq<(Seq<char>, NodeModel)>, at: int, other: Seq<char>)
    requires
        sorted(cs),
        0 <= at < cs.len(),
        other != cs[at].0,
    ensures
        lookup(cs.remove(at), other) == lookup(cs, other),
{
    let less = cs.remove(at);
    assert(sorted(less)) by {
        assert forall|i: int, j: int| 0 <= i < j < less.len() implies text::before(
            (#[trigger] less[i]).0,
            (#[trigger] less[j]).0,
        ) by {
            let a = if i < at { i } else { i + 1 };
            let b = if j < at { j } else { j + 1 };
            assert(less[i] == cs[a] && less[j] == cs[b]);
        }
    }
    lemma_slot_from(cs, other, 0);
    lemma_slot_from(less, other, 0);
    if has(cs, other) {
        let k = slot(cs, other);
        let moved = if k < at { k } else { k - 1 };
        assert(less[moved] == cs[k]);
        lemma_lookup_at(less, moved);
    } else if has(less, other) {
        let k = slot(less, other);
        let moved = if k < at { k } else { k + 1 };
        assert(cs[moved] == less[k]);
        lemma_lookup_at(cs, moved);
    }
}

/// Taking out a file takes out that one file: under its names nothing is found
/// any more, and under all other names what was found before.
pub proof fn removed_takes_one_file(
    f: FolderModel,
    names: Seq<Seq<char>>,
    i: int,
    other: Seq<Seq<char>>,
)
    requires
        f.wf(),
        0 <= i < names.len(),
        found(f, names, i) is Some,
        forall|j: int| 0 <= j < i ==> j < other.len() && (#[trigger] names[j]) == other[j],
    ensures
        found(removed(f, names, i), other, i) == if other == names {
            None
        } else {
            found(f, other, i)
        },
    decreases names.len() - i,
{
    let cs = f.children;
    let name = names[i];
    let at = slot(cs, name);
    let now = removed(f, names, i);
    lemma_slot_from(cs, name, 0);
    assert(has(cs, name));
    assert(cs[at].0 == name);
    if i < other.len() {
        if let Some(NodeModel::Folder(sub)) = lookup(cs, name) {
            assert(cs[at].1 == NodeModel::Folder(sub));
            let rest = removed(sub, names, i + 1);
            if other[i] == name {
                removed_takes_one_file(sub, names, i + 1, other);
            }
            if rest.children.len() == 0 {
                lemma_gone(cs, at);
                if other[i] != name {
                    lemma_remove_other(cs, at, other[i]);
                } else {
                    assert(found(rest, other, i + 1) is None);
                }
            } else {
                let node = NodeModel::Folder(rest);
                lemma_put(cs, name, node);
                if other[i] != name {
                    lemma_put_other(cs, name, node, other[i]);
                }
            }
        } else {
            lemma_gone(cs, at);
            if other[i] != name {
                lemma_remove_other(cs, at, other[i]);
            } else if other.len() == names.len() {
                assert(other =~= names) by {
                    assert forall|j: int| 0 <= j < names.len() implies names[j] == other[j] by {}
                }
            }
        }
    }
}

/// Whether names lead to a file.
fn leads_to_file(root: &FolderNode, segs: &Vec<String>) -> (r: bool)
    requires
        root.model().wf(),
    ensures
        r == (found(root.model(), texts(segs@), 0) is Some),
{
    let ghost names = texts(segs@);
    let mut cur = root;
    let mut i: usize = 0;
    while i < segs.len()
        invariant
            i <= segs@.len() == names.len(),
            names == texts(segs@),
            cur.model().wf(),
            found(root.model(), names, 0) == found(cur.model(), names, i as int),
        decreases segs@.len() - i,
    {
        proof {
            lemma_slot_from(cur.model().children, names[i as int], 0);
            assert(names[i as int] == segs@[i as int]@);
        }
        match cur.children.get(segs[i].as_str()) {
            Some(Node::Folder(f)) => {
                proof {
                    let cs = cur.model().children;
                    assert(cs[slot(cs, names[i as int])].1 == NodeModel::Folder(f.model()));
                }
                cur = f;
            },
            Some(Node::File(_)) => {
                return i == segs.len() - 1;
            },
            None => {
                return false;
            },
        }
        i = i + 1;
    }
    false
}

fn remove_rec(folder: &mut FolderNode, segs: &Vec<String>, i: usize)
    requires
        old(folder).model().wf(),
        i < segs@.len(),
        found(old(folder).model(), texts(segs@), i as int) is Some,
    ensures
        final(folder).model() == removed(old(folder).model(), texts(segs@), i as int),
    decreases segs@.len() - i,
{
    let ghost f = folder.model();
    let ghost names = texts(segs@);
    let ghost es = folder.children.entries@;
    let seg = segs[i].as_str();
    let at = folder.children.find(seg);
    proof {
        assert(names[i as int] == seg@);
        lemma_entries_model(es);
        lemma_slot_from(f.children, seg@, 0);
        assert(f.children[at as int] == (es[at as int].0@, es[at as int].1.model()));
        lemma_removed_wf(f, names, i as int);
        lemma_remove_entry(f, at as int);
        if i == segs.len() - 1 && es[at as int].1.model() is Folder {
            assert(found(es[at as int].1.model()->Folder_0, names, i + 1) is None);
        }
    }
    let mut drop_entry = i == segs.len() - 1;
    if !drop_entry {
        if let Node::Folder(child) = &mut folder.children.entries[at].1 {
            remove_rec(child, segs, i + 1);
            drop_entry = child.children.entries.len() == 0;
            proof {
                lemma_entries_model(child.children.entries@);
                assert(drop_entry == (child.model().children.len() == 0));
            }
        }
        proof {
            let now = folder.children.entries@;
            let sub = es[at as int].1.model()->Folder_0;
            let rest = removed(sub, names, i + 1);
            lemma_entries_model(now);
            assert(f.children[at as int].1 == NodeModel::Folder(sub));
            assert(now.len() == es.len());
            assert(forall|k: int| 0 <= k < es.len() && k != at ==> #[trigger] now[k] == es[k]);
            assert(now[at as int].0 == es[at as int].0);
            assert(now[at as int].1.model() == NodeModel::Folder(rest));
            assert(entries_model(now) =~= f.children.update(
                at as int,
                (seg@, NodeModel::Folder(rest)),
            ));
            lemma_removed_wf(sub, names, i + 1);
            lemma_replace_entry(f, at as int, rest);
            assert(drop_entry == (rest.children.len() == 0));
            assert(removed(f, names, i as int) == if drop_entry {
                recounted(f.children.remove(at as int))
            } else {
                recounted(f.children.update(at as int, (names[i as int], NodeModel::Folder(rest))))
            });
        }
    }
    if drop_entry {
        let ghost before = folder.children.entries@;
        let _ = folder.children.entries.remove(at);
        proof {
            lemma_entries_model(before);
            lemma_entries_model(folder.children.entries@);
            assert(folder.model().children =~= f.children.remove(at as int));
            assert(removed(f, names, i as int) == recounted(f.children.remove(at as int)));
        }
    }
    folder.recount();
}

/// Takes a file out of the tree, if it is there.
pub fn remove(root: &mut FolderNode, root_path: &FilePath, file: &FilePath)
    requires
        old(root).model().wf(),
    ensures
        final(root).model() == without(old(root).model(), names_in(root_path@, file@)),
        final(root).model().wf(),
        final(root).model().total_lines <= old(root).model().total_lines,
        final(root).model().total_files <= old(root).model().total_files,
{
    let segments = match file.strip_prefix(root_path) {
        Some(rel) => rel.segments(),
        None => file.segments(),
    };
    proof {
        assert(texts(segments@) =~= names_in(root_path@, file@));
        lemma_removed_wf(root.model(), texts(segments@), 0);
    }
    if leads_to_file(root, &segments) {
        remove_rec(root, &segments, 0);
    }
}

/// Of languages with as many lines, the one that is listed last is dominant.
pub proof fn the_last_of_equals_is_dominant(ls: Seq<(Seq<char>, u64)>, k: int)
    requires
        0 <= k < ls.len(),
        forall|i: int| 0 <= i < ls.len() ==> (#[trigger] ls[i]).1 <= ls[k].1,
        forall|i: int| k < i < ls.len() ==> (#[trigger] ls[i]).1 < ls[k].1,
    ensures
        most_lines(ls) == Some(ls[k]),
    decreases ls.len(),
{
    let before = ls.drop_last();
    if k < before.len() {
        assert(ls.last() == ls[ls.len() - 1]);
        assert forall|i: int| 0 <= i < before.len() implies (#[trigger] before[i]).1 <= before[k].1
            && (i > k ==> before[i].1 < before[k].1) by {
            assert(before[i] == ls[i]);
        }
        the_last_of_equals_is_dominant(before, k);
    } else if before.len() > 0 {
        dominant_has_most_lines(before);
        let j = before.index_of(most_lines(before)->0);
        assert(ls[j] == before[j]);
    }
}

/// Files are collected entry by entry, in the order of the entries.
pub proof fn files_are_collected_in_order(
    a: Seq<(Seq<char>, NodeModel)>,
    b: Seq<(Seq<char>, NodeModel)>,
    name: Seq<char>,
    f: FileModel,
    sub: FolderModel,
)
    ensures
        files_below(a + b) == files_below(a) + files_below(b),
        f.lines > 0 ==> files_below(seq![(name, NodeModel::File(f))]) == seq![f],
        f.lines == 0 ==> files_below(seq![(name, NodeModel::File(f))]).len() == 0,
        files_below(seq![(name, NodeModel::Folder(sub))]) == files_below(sub.children),
    decreases b.len(),
{
    if b.len() == 0 {
        assert(a + b =~= a);
        assert(files_below(a) + files_below(b) =~= files_below(a));
    } else {
        let less = b.drop_last();
        files_are_collected_in_order(a, less, name, f, sub);
        assert((a + b).drop_last() =~= a + less);
        assert((a + b).last() == b.last());
        assert(files_below(a + b) =~= files_below(a) + files_below(b));
    }
    let file = seq![(name, NodeModel::File(f))];
    let folder = seq![(name, NodeModel::Folder(sub))];
    assert(file.drop_last() =~= seq![]);
    assert(folder.drop_last() =~= seq![]);
    assert(files_below(Seq::<(Seq<char>, NodeModel)>::empty()) =~= seq![]);
    assert(file.last() == (name, NodeModel::File(f)));
    assert(folder.last() == (name, NodeModel::Folder(sub)));
    assert(files_below(folder) =~= files_below(sub.children));
    if f.lines > 0 {
        assert(files_below(file) =~= seq![f]);
    }
}

} // verus!
