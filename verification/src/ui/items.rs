//! The items of the tree and files views.

use vstd::arithmetic::power2::*;
use vstd::prelude::*;
use vstd::string::*;

use crate::app;
use crate::app::{App, AppModel, TargetModel, TileTarget};
use crate::double;
use crate::double::Double;
use crate::grid::Color;
use crate::lang;
use crate::order;
use crate::path;
use crate::path::FilePath;
use crate::text;
use crate::tree;
use crate::tree::{FileModel, FileNode, FolderModel, FolderNode, Node, NodeModel};
use crate::view;

verus! {

/// What a tile shows.
#[derive(Debug)]
pub struct TileItem {
    pub value: u64,
    pub color: Color,
    pub name: String,
    pub subtitle1: String,
    pub subtitle2: String,
    pub target: TileTarget,
}

/// What a tile shows, with texts as sequences.
#[verifier::ext_equal]
pub struct ItemModel {
    pub value: u64,
    pub color: Color,
    pub name: Seq<char>,
    pub subtitle1: Seq<char>,
    pub subtitle2: Seq<char>,
    pub target: TargetModel,
}

impl TileItem {
    /// What the tile shows.
    pub open spec fn model(self) -> ItemModel {
        ItemModel {
            value: self.value,
            color: self.color,
            name: self.name@,
            subtitle1: self.subtitle1@,
            subtitle2: self.subtitle2@,
            target: self.target.model(),
        }
    }
}

/// What tiles show.
pub open spec fn models(v: Seq<TileItem>) -> Seq<ItemModel> {
    v.map_values(|t: TileItem| t.model())
}

/// The values of tiles.
pub open spec fn values_of(v: Seq<ItemModel>) -> Seq<u64> {
    v.map_values(|t: ItemModel| t.value)
}

/// How many percent `n` is of `total`.
pub open spec fn percent(n: nat, total: nat) -> Double {
    double::quotient_of(
        double::product_of(double::of_int(100), double::of_int(n)),
        double::of_int(total),
    )
}

/// How many percent `n` is of `total`.
pub fn pct(n: u64, total: u64) -> (r: Double)
    requires
        total > 0,
    ensures
        r == percent(n as nat, total as nat),
        r.wf(),
        double::within(r, 100),
{
    let x = Double::of(n);
    let y = Double::of(total);
    let h = Double::of(100);
    proof {
        lemma2_to64();
        double::lemma_of_int_within(100, 7);
        double::lemma_of_within(n);
        double::lemma_of_within(total);
        double::lemma_product_within(h, x, 7, 64);
        double::lemma_quotient_within(double::product_of(h, x), y, 71, 0);
        double::lemma_within_weaken(double::quotient_of(double::product_of(h, x), y), 71, 100);
    }
    h.times(x).over(y)
}

/// Lines, and their share of the total.
pub open spec fn lines_text(n: nat, total: nat) -> Seq<char> {
    crate::format::int_text(n) + " ("@ + crate::format::fixed_text(percent(n, total), 1) + "%)"@
}

fn lines_label(n: u64, total: u64) -> (r: String)
    requires
        total > 0,
    ensures
        r@ == lines_text(n as nat, total as nat),
{
    let mut s = crate::format::fmt_int(n);
    s.append(" (");
    let p = crate::format::fixed(pct(n, total), 1);
    s.append(p.as_str());
    s.append("%)");
    s
}

/// The colour of a folder: that of its dominant language.
pub open spec fn folder_color(f: FolderModel) -> Color {
    match tree::most_lines(f.lang_lines) {
        Some(l) => lang::color_of(l.0),
        None => Color::Rgb { r: 120, g: 120, b: 120 },
    }
}

/// The colour of a folder.
pub fn color_of_folder(f: &FolderNode) -> (r: Color)
    ensures
        r == folder_color(f.model()),
{
    match f.dominant_lang() {
        Some(l) => lang::color(l),
        None => Color::Rgb { r: 120, g: 120, b: 120 },
    }
}

/// The tile of an entry.
pub open spec fn entry_item(base: Seq<Seq<char>>, total: nat, e: (Seq<char>, NodeModel)) -> ItemModel {
    let lines = tree::node_lines(e.1) as u64;
    ItemModel {
        value: lines,
        color: match e.1 {
            NodeModel::File(f) => lang::color_of(f.lang),
            NodeModel::Folder(f) => folder_color(f),
        },
        name: match e.1 {
            NodeModel::File(_) => e.0,
            NodeModel::Folder(_) => e.0 + "/"@,
        },
        subtitle1: lines_text(lines as nat, total),
        subtitle2: match e.1 {
            NodeModel::File(_) => seq![],
            NodeModel::Folder(f) => crate::format::int_text(f.total_files as nat) + " files"@,
        },
        target: app::entry_target(base, e),
    }
}

/// The tiles of the entries that have lines.
pub open spec fn entry_items(
    base: Seq<Seq<char>>,
    total: nat,
    cs: Seq<(Seq<char>, NodeModel)>,
) -> Seq<ItemModel>
    decreases cs.len(),
{
    if cs.len() == 0 {
        seq![]
    } else {
        let before = entry_items(base, total, cs.drop_last());
        if tree::node_lines(cs.last().1) > 0 {
            before.push(entry_item(base, total, cs.last()))
        } else {
            before
        }
    }
}

/// The path of the folder that names lead to from a root.
pub open spec fn scope_of(root: Seq<u8>, names: Seq<Seq<char>>) -> Seq<u8>
    decreases names.len(),
{
    if names.len() == 0 {
        root
    } else {
        path::joined(
            scope_of(root, names.drop_last()),
            vstd::utf8::encode_utf8(names.last()),
        )
    }
}

/// A file's path from a folder on, or all of it where it lies elsewhere.
pub open spec fn within_scope(p: Seq<u8>, scope: Seq<u8>) -> Seq<u8> {
    match path::stripped(p, scope) {
        Some(rel) => rel,
        None => p,
    }
}

/// The tile of a file.
pub open spec fn file_item(scope: Seq<u8>, total: nat, f: FileModel) -> ItemModel {
    let rel = within_scope(f.path, scope);
    ItemModel {
        value: f.lines,
        color: lang::color_of(f.lang),
        name: match path::name_of(rel) {
            Some(name) => match text::utf8_text(name) {
                Some(s) => s,
                None => seq![],
            },
            None => seq![],
        },
        subtitle1: lines_text(f.lines as nat, total),
        subtitle2: match path::parent_of(rel) {
            Some(p) => text::shown_text(p),
            None => seq![],
        },
        target: TargetModel::File(f.path),
    }
}

/// The lines of files.
pub open spec fn lines_of(fs: Seq<FileModel>) -> Seq<u64> {
    fs.map_values(|f: FileModel| f.lines)
}

/// All files, those with the most lines first.
pub open spec fn ranked_files(fs: Seq<FileModel>) -> Seq<FileModel> {
    Seq::new(fs.len(), |i: int| fs[order::ranking(lines_of(fs))[i] as int])
}

/// The tiles of files.
pub open spec fn file_items(scope: Seq<u8>, total: nat, fs: Seq<FileModel>) -> Seq<ItemModel> {
    fs.map_values(|f: FileModel| file_item(scope, total, f))
}

/// The total that shares are taken of: a folder's lines, but at least one.
pub open spec fn total_of(f: FolderModel) -> nat {
    if f.total_lines > 1 {
        f.total_lines as nat
    } else {
        1
    }
}

/// What the view shows: the entries of the folder, or every file below it. The
/// nested view has no such items.
pub open spec fn items_of(m: AppModel) -> Seq<ItemModel> {
    let f = m.folder();
    match m.view {
        view::View::Tree => entry_items(m.current_path, total_of(f), f.children),
        view::View::Files => file_items(
            scope_of(m.root, m.current_path),
            total_of(f),
            ranked_files(tree::files_below(f.children)),
        ),
        view::View::Nested => seq![],
    }
}

proof fn lemma_models_push(v: Seq<TileItem>, t: TileItem)
    ensures
        models(v.push(t)) == models(v).push(t.model()),
{
    assert(models(v.push(t)) =~= models(v).push(t.model()));
}

fn tree_items(base: &Vec<String>, folder: &FolderNode, total: u64) -> (out: Vec<TileItem>)
    requires
        total > 0,
    ensures
        models(out@) == entry_items(tree::texts(base@), total as nat, folder.model().children),
{
    let ghost es = folder.children.entries@;
    let ghost cs = folder.model().children;
    let ghost names = tree::texts(base@);
    proof {
        tree::lemma_entries_model(es);
        assert(cs.take(0) =~= seq![]);
    }
    let mut out: Vec<TileItem> = Vec::new();
    let mut i: usize = 0;
    while i < folder.children.entries.len()
        invariant
            i <= es.len() == cs.len(),
            es == folder.children.entries@,
            names == tree::texts(base@),
            total > 0,
            forall|k: int| 0 <= k < cs.len() ==> #[trigger] cs[k] == (es[k].0@, es[k].1.model()),
            models(out@) =~= entry_items(names, total as nat, cs.take(i as int)),
        decreases es.len() - i,
    {
        proof {
            assert(cs.take(i + 1).drop_last() =~= cs.take(i as int));
            assert(cs.take(i + 1).last() == cs[i as int]);
        }
        let name = &folder.children.entries[i].0;
        let ghost so_far = out@;
        match &folder.children.entries[i].1 {
            Node::File(f) => {
                if f.lines > 0 {
                    let item = TileItem {
                        value: f.lines,
                        color: lang::color(f.lang),
                        name: name.clone(),
                        subtitle1: lines_label(f.lines, total),
                        subtitle2: String::new(),
                        target: TileTarget::File(f.path.clone()),
                    };
                    proof {
                        lemma_models_push(so_far, item);
                        assert(item.model() =~= entry_item(names, total as nat, cs[i as int]));
                    }
                    out.push(item);
                }
            },
            Node::Folder(f) => {
                if f.total_lines > 0 {
                    let mut target = app::copy_names(base);
                    let ghost before = target@;
                    target.push(name.clone());
                    let files = crate::format::fmt_int(f.total_files);
                    let item = TileItem {
                        value: f.total_lines,
                        color: color_of_folder(f),
                        name: text::join(name.as_str(), "/"),
                        subtitle1: lines_label(f.total_lines, total),
                        subtitle2: text::join(files.as_str(), " files"),
                        target: TileTarget::Folder(target),
                    };
                    proof {
                        lemma_models_push(so_far, item);
                        assert(tree::texts(target@) =~= tree::texts(before).push(name@));
                        assert(item.model() =~= entry_item(names, total as nat, cs[i as int]));
                    }
                    out.push(item);
                }
            },
        }
        i = i + 1;
    }
    proof {
        assert(cs.take(cs.len() as int) =~= cs);
    }
    out
}

fn item_of_file(scope: &FilePath, total: u64, f: &FileNode) -> (r: TileItem)
    requires
        total > 0,
    ensures
        r.model() == file_item(scope@, total as nat, f.model()),
{
    let rel = match f.path.strip_prefix(scope) {
        Some(rel) => rel,
        None => f.path.clone(),
    };
    let name = match rel.file_name() {
        Some(bytes) => match text::utf8(bytes) {
            Some(s) => s.to_string(),
            None => String::new(),
        },
        None => String::new(),
    };
    let parent = match rel.parent() {
        Some(p) => p.display(),
        None => String::new(),
    };
    let r = TileItem {
        value: f.lines,
        color: lang::color(f.lang),
        name,
        subtitle1: lines_label(f.lines, total),
        subtitle2: parent,
        target: TileTarget::File(f.path.clone()),
    };
    proof {
        assert(r.model() =~= file_item(scope@, total as nat, f.model()));
    }
    r
}

/// The path of the folder that is shown.
fn scope_path(root: &FilePath, names: &Vec<String>) -> (r: FilePath)
    ensures
        r@ == scope_of(root@, tree::texts(names@)),
{
    let ghost ns = tree::texts(names@);
    let mut p = root.clone();
    let mut i: usize = 0;
    proof {
        assert(ns.take(0) =~= seq![]);
    }
    while i < names.len()
        invariant
            i <= names@.len() == ns.len(),
            ns == tree::texts(names@),
            p@ == scope_of(root@, ns.take(i as int)),
        decreases names@.len() - i,
    {
        proof {
            assert(ns.take(i + 1).drop_last() =~= ns.take(i as int));
            assert(ns.take(i + 1).last() == names@[i as int]@);
        }
        p = p.join(names[i].as_str().as_bytes());
        i = i + 1;
    }
    proof {
        assert(ns.take(ns.len() as int) =~= ns);
    }
    p
}

fn files_items(scope: &FilePath, folder: &FolderNode, total: u64) -> (out: Vec<TileItem>)
    requires
        total > 0,
    ensures
        models(out@) == file_items(
            scope@,
            total as nat,
            ranked_files(tree::files_below(folder.model().children)),
        ),
        tree::files_below(folder.model().children).len() <= usize::MAX,
{
    let mut files: Vec<&FileNode> = Vec::new();
    tree::collect_files(folder, &mut files);
    let ghost fs = tree::files_below(folder.model().children);
    proof {
        assert(tree::file_models(files@) =~= fs);
    }
    let mut keys: Vec<u64> = Vec::new();
    let mut i: usize = 0;
    while i < files.len()
        invariant
            i <= files@.len() == fs.len(),
            fs == tree::file_models(files@),
            keys@ =~= lines_of(fs).take(i as int),
        decreases files@.len() - i,
    {
        proof {
            assert(fs[i as int] == files@[i as int].model());
        }
        keys.push(files[i].lines);
        i = i + 1;
    }
    proof {
        assert(lines_of(fs).take(fs.len() as int) =~= lines_of(fs));
    }
    let p = order::rank(&keys);
    let n: usize = files.len();
    let ghost want = file_items(scope@, total as nat, ranked_files(fs));
    let mut out: Vec<TileItem> = Vec::new();
    i = 0;
    while i < n
        invariant
            i <= n == want.len(),
            n <= files@.len() == fs.len() == p@.len(),
            fs == tree::file_models(files@),
            p@ == order::ranking(lines_of(fs)),
            order::is_ranking(lines_of(fs), p@),
            total > 0,
            want == file_items(scope@, total as nat, ranked_files(fs)),
            models(out@) =~= want.take(i as int),
        decreases n - i,
    {
        let f = files[p[i]];
        let item = item_of_file(scope, total, f);
        proof {
            lemma_models_push(out@, item);
            assert(f.model() == fs[p@[i as int] as int]);
            assert(want[i as int] == item.model());
            assert(want.take(i + 1) =~= want.take(i as int).push(want[i as int]));
        }
        out.push(item);
        i = i + 1;
    }
    proof {
        assert(want.take(n as int) =~= want);
    }
    out
}

proof fn lemma_entry_items_sum(base: Seq<Seq<char>>, total: nat, cs: Seq<(Seq<char>, NodeModel)>)
    ensures
        order::sum(values_of(entry_items(base, total, cs))) == tree::lines_in(cs),
    decreases cs.len(),
{
    let items = entry_items(base, total, cs);
    if cs.len() > 0 {
        let before = entry_items(base, total, cs.drop_last());
        lemma_entry_items_sum(base, total, cs.drop_last());
        if tree::node_lines(cs.last().1) > 0 {
            let last = entry_item(base, total, cs.last());
            assert(values_of(items) =~= values_of(before).push(last.value));
            assert(values_of(items).drop_last() =~= values_of(before));
        }
    } else {
        assert(values_of(items) =~= seq![]);
    }
}

proof fn lemma_file_lines_sum(fs: Seq<FileModel>)
    ensures
        order::sum(lines_of(fs)) == tree::file_lines(fs),
    decreases fs.len(),
{
    if fs.len() > 0 {
        lemma_file_lines_sum(fs.drop_last());
        assert(lines_of(fs).drop_last() =~= lines_of(fs.drop_last()));
    }
}

/// What the view shows adds up to no more than the lines of the folder.
pub proof fn items_fit_the_folder(m: AppModel)
    requires
        m.folder().wf(),
        m.view == view::View::Files ==> tree::files_below(m.folder().children).len() <= usize::MAX,
    ensures
        order::sum(values_of(items_of(m))) <= m.folder().total_lines,
{
    let f = m.folder();
    match m.view {
        view::View::Tree => {
            lemma_entry_items_sum(m.current_path, total_of(f), f.children);
        },
        view::View::Files => {
            let fs = tree::files_below(f.children);
            let keys = lines_of(fs);
            let p = order::ranking(keys);
            order::lemma_ranking_exists(keys);
            assert forall|i: int, j: int| 0 <= i < j < p.len() implies #[trigger] p[i]
                != #[trigger] p[j] by {
                assert(order::before(keys, p[i] as int, p[j] as int));
            }
            order::lemma_sum_at_places(keys, p);
            assert(values_of(items_of(m)) =~= order::at_places(keys, p));
            lemma_file_lines_sum(fs);
            tree::lemma_files_bound(f, f.children.len() as int);
            assert(f.children.take(f.children.len() as int) =~= f.children);
        },
        view::View::Nested => {
            assert(values_of(items_of(m)) =~= seq![]);
        },
    }
}

/// Whether an item is that of a file.
pub open spec fn stands_for(item: ItemModel, f: FileModel) -> bool {
    item.target == TargetModel::File(f.path) && item.value == f.lines
}

/// Whether one of some items is that of a file.
pub open spec fn has_item(its: Seq<ItemModel>, f: FileModel) -> bool {
    exists|i: int| 0 <= i < its.len() && stands_for(#[trigger] its[i], f)
}

/// Whether an item is that of one of some files.
pub open spec fn has_file(fs: Seq<FileModel>, item: ItemModel) -> bool {
    exists|k: int| 0 <= k < fs.len() && stands_for(item, #[trigger] fs[k])
}

/// Whether items are those of files: one for each, none besides, and none with
/// more lines than the one before it.
pub open spec fn all_shown(its: Seq<ItemModel>, fs: Seq<FileModel>) -> bool {
    &&& its.len() == fs.len()
    &&& forall|k: int| 0 <= k < fs.len() ==> has_item(its, #[trigger] fs[k])
    &&& forall|i: int| 0 <= i < its.len() ==> has_file(fs, #[trigger] its[i])
    &&& forall|i: int, j: int|
        0 <= i < j < its.len() ==> (#[trigger] its[i]).value >= (#[trigger] its[j]).value
}

proof fn lemma_all_shown(scope: Seq<u8>, total: nat, fs: Seq<FileModel>)
    requires
        fs.len() <= usize::MAX,
    ensures
        all_shown(file_items(scope, total, ranked_files(fs)), fs),
{
    let its = file_items(scope, total, ranked_files(fs));
    let keys = lines_of(fs);
    let p = order::ranking(keys);
    order::lemma_ranking_exists(keys);
    assert forall|i: int| 0 <= i < its.len() implies stands_for(
        #[trigger] its[i],
        fs[p[i] as int],
    ) by {
        assert(p[i] < keys.len());
    }
    assert forall|k: int| 0 <= k < fs.len() implies has_item(its, #[trigger] fs[k]) by {
        order::lemma_ranking_covers(keys, p, k);
        let i = choose|i: int| 0 <= i < p.len() && p[i] == k;
        assert(stands_for(its[i], fs[k]));
    }
    assert forall|i: int| 0 <= i < its.len() implies has_file(fs, #[trigger] its[i]) by {
        assert(stands_for(its[i], fs[p[i] as int]));
        assert(p[i] < keys.len());
    }
    assert forall|i: int, j: int| 0 <= i < j < its.len() implies (#[trigger] its[i]).value >= (
    #[trigger] its[j]).value by {
        assert(order::before(keys, p[i] as int, p[j] as int));
        assert(stands_for(its[i], fs[p[i] as int]) && stands_for(its[j], fs[p[j] as int]));
    }
}

/// The files view has an item for every file below the folder that has lines,
/// and no other items; an item has no more lines than the one before it.
pub proof fn every_file_is_shown(m: AppModel)
    requires
        m.view == view::View::Files,
        tree::files_below(m.folder().children).len() <= usize::MAX,
    ensures
        all_shown(items_of(m), tree::files_below(m.folder().children)),
{
    let f = m.folder();
    lemma_all_shown(
        scope_of(m.root, m.current_path),
        total_of(f),
        tree::files_below(f.children),
    );
}

/// Whether an item is the one of an entry: as large as the entry has lines, in
/// its colour, under its name, and standing for it.
pub open spec fn is_item_of(
    item: ItemModel,
    base: Seq<Seq<char>>,
    e: (Seq<char>, NodeModel),
) -> bool {
    match e.1 {
        NodeModel::File(f) => {
            &&& item.value == f.lines
            &&& item.color == lang::color_of(f.lang)
            &&& item.name == e.0
            &&& item.target == TargetModel::File(f.path)
        },
        NodeModel::Folder(f) => {
            &&& item.value == f.total_lines
            &&& item.name == e.0 + "/"@
            &&& item.target == TargetModel::Folder(base.push(e.0))
            &&& tree::most_lines(f.lang_lines) is Some ==> item.color == lang::color_of(
                (tree::most_lines(f.lang_lines)->0).0,
            )
        },
    }
}

proof fn lemma_entry_items(base: Seq<Seq<char>>, total: nat, cs: Seq<(Seq<char>, NodeModel)>)
    ensures
        forall|i: int|
            0 <= i < cs.len() && tree::node_lines((#[trigger] cs[i]).1) > 0 ==> entry_items(
                base,
                total,
                cs,
            ).contains(entry_item(base, total, cs[i])),
        forall|j: int|
            0 <= j < entry_items(base, total, cs).len() ==> of_some_entry(
                #[trigger] entry_items(base, total, cs)[j],
                base,
                total,
                cs,
            ),
    decreases cs.len(),
{
    if cs.len() > 0 {
        let less = cs.drop_last();
        let n = cs.len() - 1;
        let before = entry_items(base, total, less);
        let now = entry_items(base, total, cs);
        lemma_entry_items(base, total, less);
        assert forall|i: int|
            0 <= i < cs.len() && tree::node_lines((#[trigger] cs[i]).1) > 0 implies now.contains(
            entry_item(base, total, cs[i]),
        ) by {
            if i < n {
                assert(less[i] == cs[i]);
                let j = choose|j: int|
                    0 <= j < before.len() && before[j] == entry_item(base, total, less[i]);
                assert(now[j] == entry_item(base, total, cs[i]));
            } else {
                assert(now[before.len() as int] == entry_item(base, total, cs[i]));
            }
        }
        assert forall|j: int| 0 <= j < now.len() implies of_some_entry(
            #[trigger] now[j],
            base,
            total,
            cs,
        ) by {
            if j < before.len() {
                assert(of_some_entry(before[j], base, total, less));
                let i = choose|i: int|
                    0 <= i < less.len() && tree::node_lines((#[trigger] less[i]).1) > 0 && before[j]
                        == entry_item(base, total, less[i]);
                assert(cs[i] == less[i]);
            } else {
                assert(tree::node_lines(cs[n].1) > 0);
            }
        }
    }
}

/// Whether an item is that of one of the entries that have lines.
pub open spec fn of_some_entry(
    item: ItemModel,
    base: Seq<Seq<char>>,
    total: nat,
    cs: Seq<(Seq<char>, NodeModel)>,
) -> bool {
    exists|i: int|
        0 <= i < cs.len() && tree::node_lines((#[trigger] cs[i]).1) > 0 && item == entry_item(
            base,
            total,
            cs[i],
        )
}

/// The tree view shows every entry of the folder that has lines, as large as it
/// has lines, and nothing else.
pub proof fn every_entry_is_shown(m: AppModel, shown: FolderModel)
    requires
        m.view == view::View::Tree,
        m.tree.wf(),
        tree::leads_to(
            NodeModel::Folder(m.tree),
            m.current_path,
            NodeModel::Folder(shown),
        ),
    ensures
        forall|i: int|
            #![trigger shown.children[i]]
            0 <= i < shown.children.len() && (match shown.children[i].1 {
                NodeModel::File(f) => f.lines > 0,
                NodeModel::Folder(f) => f.total_lines > 0,
            }) ==> exists|j: int|
                0 <= j < items_of(m).len() && is_item_of(
                    #[trigger] items_of(m)[j],
                    m.current_path,
                    shown.children[i],
                ),
        forall|j: int|
            0 <= j < items_of(m).len() ==> (#[trigger] items_of(m)[j]).value > 0 && exists|i: int|
                0 <= i < shown.children.len() && is_item_of(
                    items_of(m)[j],
                    m.current_path,
                    #[trigger] shown.children[i],
                ),
{
    let base = m.current_path;
    let cs = shown.children;
    let total = total_of(shown);
    tree::names_lead_to_the_folder(m.tree, base, 0, shown);
    assert(base.skip(0) =~= base);
    assert(m.folder() == shown);
    lemma_entry_items(base, total, cs);
    let its = items_of(m);
    assert forall|i: int|
        #![trigger cs[i]]
        0 <= i < cs.len() && (match cs[i].1 {
            NodeModel::File(f) => f.lines > 0,
            NodeModel::Folder(f) => f.total_lines > 0,
        }) implies exists|j: int|
        0 <= j < its.len() && is_item_of(#[trigger] its[j], base, cs[i]) by {
        assert(tree::node_lines(cs[i].1) > 0);
        let j = choose|j: int| 0 <= j < its.len() && its[j] == entry_item(base, total, cs[i]);
        assert(is_item_of(its[j], base, cs[i]));
    }
    assert forall|j: int| 0 <= j < its.len() implies (#[trigger] its[j]).value > 0 && exists|i: int|
        0 <= i < cs.len() && is_item_of(its[j], base, #[trigger] cs[i]) by {
        assert(of_some_entry(its[j], base, total, cs));
        let i = choose|i: int|
            0 <= i < cs.len() && tree::node_lines((#[trigger] cs[i]).1) > 0 && its[j]
                == entry_item(base, total, cs[i]);
        assert(is_item_of(its[j], base, cs[i]));
    }
}

/// The files view shows every file below the folder that has lines, however deep
/// it lies, the longest first, each as large as it has lines and in the colour of
/// its language, and nothing else.
pub proof fn every_file_below_is_shown(m: AppModel, shown: FolderModel, f: FileModel)
    requires
        m.view == view::View::Files,
        m.tree.wf(),
        tree::leads_to(
            NodeModel::Folder(m.tree),
            m.current_path,
            NodeModel::Folder(shown),
        ),
        tree::files_below(shown.children).len() <= usize::MAX,
    ensures
        tree::stands_below(shown.children, f) ==> exists|j: int|
            0 <= j < items_of(m).len() && shows_file(#[trigger] items_of(m)[j], f),
        forall|j: int|
            0 <= j < items_of(m).len() ==> shows_some_file(
                #[trigger] items_of(m)[j],
                shown.children,
            ),
        forall|i: int, j: int|
            0 <= i <= j < items_of(m).len() ==> (#[trigger] items_of(m)[i]).value >= (
            #[trigger] items_of(m)[j]).value,
        items_of(m).len() == tree::files_below(shown.children).len(),
{
    let base = m.current_path;
    let cs = shown.children;
    let fs = tree::files_below(cs);
    let keys = lines_of(fs);
    let p = order::ranking(keys);
    let its = items_of(m);
    tree::names_lead_to_the_folder(m.tree, base, 0, shown);
    assert(base.skip(0) =~= base);
    assert(m.folder() == shown);
    order::lemma_ranking_exists(keys);
    tree::collected_files_are_those_below(cs, f);
    if tree::stands_below(cs, f) {
        let k = choose|k: int| 0 <= k < fs.len() && fs[k] == f;
        order::lemma_ranking_covers(keys, p, k);
        let j = choose|j: int| 0 <= j < p.len() && p[j] == k;
        assert(shows_file(its[j], f));
    }
    assert forall|j: int| 0 <= j < its.len() implies shows_some_file(#[trigger] its[j], cs) by {
        let g = fs[p[j] as int];
        assert(fs.contains(g));
        tree::collected_files_are_those_below(cs, g);
        assert(shows_file(its[j], g));
    }
    assert forall|i: int, j: int| 0 <= i <= j < its.len() implies (#[trigger] its[i]).value >= (
    #[trigger] its[j]).value by {
        if i < j {
            assert(order::before(keys, p[i] as int, p[j] as int));
        }
    }
}

/// Whether an item is the one of a file.
pub open spec fn shows_file(item: ItemModel, f: FileModel) -> bool {
    &&& item.value == f.lines
    &&& item.color == lang::color_of(f.lang)
    &&& item.target == TargetModel::File(f.path)
}

/// Whether an item is the one of a file that stands below entries.
pub open spec fn shows_some_file(item: ItemModel, cs: Seq<(Seq<char>, NodeModel)>) -> bool {
    exists|f: FileModel| #[trigger] tree::stands_below(cs, f) && shows_file(item, f)
}

/// What the view shows.
pub fn build_items(app: &App) -> (out: Vec<TileItem>)
    requires
        app.model().tree.wf(),
    ensures
        models(out@) == items_of(app.model()),
        order::sum(values_of(models(out@))) <= app.model().folder().total_lines,
{
    let folder = app.current_folder();
    let total: u64 = if folder.total_lines > 1 {
        folder.total_lines
    } else {
        1
    };
    let out = match app.view {
        view::View::Tree => tree_items(&app.current_path, folder, total),
        view::View::Files => {
            let scope = scope_path(&app.root, &app.current_path);
            files_items(&scope, folder, total)
        },
        view::View::Nested => Vec::new(),
    };
    proof {
        assert(models(out@) =~= items_of(app.model()));
        items_fit_the_folder(app.model());
    }
    out
}

/// The share of lines is shown with one decimal, off by at most one in it.
pub proof fn shares_are_shown(n: nat, total: nat)
    requires
        n <= total,
        0 < total < 0x4000_0000_0000,
    ensures
        exists|p: nat|
            #[trigger] crate::format::shows_ratio(
                crate::format::fixed_text(percent(n, total), 1),
                100 * n,
                total,
                1,
                p,
            ) && lines_text(n, total) == crate::format::int_text(n) + seq![' ', '(']
                + crate::format::decimals(p, 1) + seq!['%', ')'],
{
    reveal_strlit(" (");
    reveal_strlit("%)");
    lemma_percent(n, total);
    reveal_with_fuel(crate::format::ten_to, 3);
    assert(crate::format::ten_to(1) == 10 && crate::format::ten_to(0) == 1);
    assert((100 * n) * crate::format::ten_to(1) == 1000 * n) by (nonlinear_arith)
        requires
            crate::format::ten_to(1) == 10,
    ;
    assert((100 * n) * crate::format::ten_to(0) == 100 * n) by (nonlinear_arith)
        requires
            crate::format::ten_to(0) == 1,
    ;
    crate::format::lemma_shown_ratio(100 * n, total, 1);
    let p = double::parts_of(percent(n, total), 10);
    assert(crate::format::shows_ratio(
        crate::format::fixed_text(percent(n, total), 1),
        100 * n,
        total,
        1,
        p,
    ));
    assert(lines_text(n, total) =~= crate::format::int_text(n) + seq![' ', '(']
        + crate::format::decimals(p, 1) + seq!['%', ')']);
}

proof fn lemma_percent(n: nat, total: nat)
    requires
        n <= total < 0x4000_0000_0000,
    ensures
        percent(n, total) == double::quotient_of(double::of_int(100 * n), double::of_int(total)),
{
    let one = double::one_units();
    double::lemma_one_positive();
    double::lemma_of_int_exact(100);
    double::lemma_of_int_exact(n);
    double::lemma_of_int_exact(100 * n);
    assert((100 * one) * (n * one) == (100 * n * one) * one && 1 * one == one)
        by (nonlinear_arith);
    double::lemma_nearest_scale(100 * n * one, 1, one);
    reveal(double::product_of);
    reveal(double::of_int);
}

/// A percentage is shown with one decimal below ten, and without from there on,
/// off by at most one in the last place.
pub proof fn percentages_are_shown(n: nat, total: nat)
    requires
        n <= total,
        0 < total < 0x4000_0000_0000,
    ensures
        n == total ==> crate::format::pct_text(percent(n, total)) == seq!['1', '0', '0', '%'],
        ({
            let t = crate::format::pct_text(percent(n, total));
            &&& t.last() == '%'
            &&& exists|places: nat, p: nat|
                places <= 1 && #[trigger] crate::format::shows_ratio(
                    t.drop_last(),
                    100 * n,
                    total,
                    places,
                    p,
                ) && (places == 0 ==> p >= 10) && (places == 1 ==> p <= 100)
        }),
{
    let one = double::one_units();
    let v = percent(n, total);
    let t = crate::format::pct_text(v);
    reveal_strlit("100%");
    reveal_strlit("%");
    lemma_percent(n, total);
    reveal_with_fuel(crate::format::ten_to, 3);
    assert(crate::format::ten_to(1) == 10 && crate::format::ten_to(0) == 1);
    assert((100 * n) * crate::format::ten_to(1) == 1000 * n) by (nonlinear_arith)
        requires
            crate::format::ten_to(1) == 10,
    ;
    assert((100 * n) * crate::format::ten_to(0) == 100 * n) by (nonlinear_arith)
        requires
            crate::format::ten_to(0) == 1,
    ;
    double::lemma_one_is_many();
    double::lemma_of_int_exact(100);
    double::lemma_of_int_exact(10);
    double::lemma_of_int_exact(total);
    double::lemma_of_int_exact(100 * n);
    double::lemma_of_int_exact(1);
    reveal(double::less);
    crate::format::lemma_shown_ratio(100 * n, total, 1);
    crate::format::lemma_shown_ratio(100 * n, total, 0);
    let u = v.units();
    assert(total * one > 0) by (nonlinear_arith)
        requires
            total > 0,
            one > 0,
    ;
    assert(v == double::nearest(100 * n * one, total)) by {
        assert(double::zero().units() == 0) by {
            assert(0 * pow2(0) == 0) by (nonlinear_arith);
        }
        reveal(double::quotient_of);
        double::lemma_nearest_scale(100 * n * one, total, one);
    }
    assert(100 * n * one <= (100 * one) * total) by (nonlinear_arith)
        requires
            n <= total,
            one > 0,
    ;
    double::lemma_nearest_monotone(100 * n * one, (100 * one) * total, total);
    double::lemma_nearest_scale(100 * one, 1, total);
    assert(double::nearest((100 * one) * total, total) == double::of_int(100)) by {
        reveal(double::of_int);
        assert(1 * total == total);
    }
    assert(u <= 100 * one);
    if n == total {
        assert(100 * n * one == (100 * one) * total) by (nonlinear_arith)
            requires
                n == total,
        ;
        assert(t =~= seq!['1', '0', '0', '%']);
    }
    let p1 = double::parts_of(v, 10);
    let p0 = double::parts_of(v, 1);
    if double::at_most(double::of_int(100), v) {
        assert(u == 100 * one);
        assert(p0 == 100) by (nonlinear_arith)
            requires
                2 * (p0 * one) <= 2 * (u * 1) + one,
                2 * (u * 1) <= 2 * (p0 * one) + one,
                u == 100 * one,
                one > 0,
        ;
        assert(text::digits(100) =~= seq!['1', '0', '0']) by {
            reveal_with_fuel(text::digits, 4);
        }
        assert(t.drop_last() =~= crate::format::decimals(100, 0));
        assert(crate::format::shows_ratio(t.drop_last(), 100 * n, total, 0, p0));
    } else if double::at_most(double::of_int(10), v) {
        assert(p0 >= 10) by (nonlinear_arith)
            requires
                2 * (u * 1) <= 2 * (p0 * one) + one,
                u >= 10 * one,
                one > 0,
        ;
        assert(t.drop_last() =~= crate::format::decimals(p0, 0));
        assert(crate::format::shows_ratio(t.drop_last(), 100 * n, total, 0, p0));
    } else {
        assert(p1 <= 100) by (nonlinear_arith)
            requires
                2 * (p1 * one) <= 2 * (u * 10) + one,
                u < 10 * one,
                one > 0,
        ;
        assert(t.drop_last() =~= crate::format::decimals(p1, 1));
        assert(crate::format::shows_ratio(t.drop_last(), 100 * n, total, 1, p1));
    }
}

/// The item of an entry says how many lines it has and which share that is of
/// the folder's; that of a folder says how many files it has. Without lines a
/// folder's share is taken of one.
pub proof fn entries_say_what_they_hold(
    base: Seq<Seq<char>>,
    shown: FolderModel,
    e: (Seq<char>, NodeModel),
)
    ensures
        ({
            let all = if shown.total_lines == 0 {
                1nat
            } else {
                shown.total_lines as nat
            };
            let item = entry_item(base, total_of(shown), e);
            match e.1 {
                NodeModel::File(f) => {
                    &&& item.subtitle1 == lines_text(f.lines as nat, all)
                    &&& item.subtitle2.len() == 0
                },
                NodeModel::Folder(f) => {
                    &&& item.subtitle1 == lines_text(f.total_lines as nat, all)
                    &&& item.subtitle2 == crate::format::int_text(f.total_files as nat) + seq![
                        ' ',
                        'f',
                        'i',
                        'l',
                        'e',
                        's',
                    ]
                },
            }
        }),
        is_item_of(entry_item(base, total_of(shown), e), base, e),
        shown.lang_lines.len() == 0 ==> folder_color(shown) == (Color::Rgb {
            r: 120,
            g: 120,
            b: 120,
        }),
{
    reveal_strlit(" files");
    assert(" files"@ =~= seq![' ', 'f', 'i', 'l', 'e', 's']);
}

/// The names that lead to a folder follow the parts of the root.
pub proof fn names_lead_on_from_the_root(root: Seq<u8>, names: Seq<Seq<char>>)
    requires
        root.len() > 0,
        forall|i: int|
            0 <= i < names.len() ==> path::is_name(
                vstd::utf8::encode_utf8(#[trigger] names[i]),
            ),
    ensures
        path::parts(scope_of(root, names)) == path::parts(root) + names.map_values(
            |n: Seq<char>| vstd::utf8::encode_utf8(n),
        ),
        scope_of(root, names).len() > 0,
    decreases names.len(),
{
    let f = |n: Seq<char>| vstd::utf8::encode_utf8(n);
    if names.len() == 0 {
        assert(path::parts(root) + names.map_values(f) =~= path::parts(root));
    } else {
        let less = names.drop_last();
        assert forall|i: int| 0 <= i < less.len() implies path::is_name(
            vstd::utf8::encode_utf8(#[trigger] less[i]),
        ) by {
            assert(less[i] == names[i]);
        }
        names_lead_on_from_the_root(root, less);
        let e = vstd::utf8::encode_utf8(names.last());
        assert(names[names.len() - 1] == names.last());
        path::joining_adds_a_part(scope_of(root, less), e);
        path::parents_hold_their_names(scope_of(root, less), e);
        assert(path::parts(root) + names.map_values(f) =~= (path::parts(root) + less.map_values(
            f,
        )).push(e));
    }
}

/// The item of a file says its name and, below the folder that is shown, where
/// it lies from there on.
pub proof fn files_say_where_they_lie(
    scope: Seq<u8>,
    total: nat,
    dir: Seq<u8>,
    e: Seq<u8>,
    s: Seq<char>,
    f: FileModel,
)
    requires
        f.path == path::joined(dir, e),
        path::is_name(e),
        e != seq![46u8, 46u8],
        text::utf8_text(e) == Some(s),
        path::starts_with(dir, scope),
        path::parts(scope).len() < path::parts(dir).len(),
        path::ends_in_part(dir),
        path::ends_in_part(path::stripped(dir, scope)->0),
    ensures
        ({
            let item = file_item(scope, total, f);
            &&& item.name == s
            &&& item.subtitle1 == lines_text(f.lines as nat, total)
            &&& item.subtitle2 == text::shown_text(path::stripped(dir, scope)->0)
            &&& shows_file(item, f)
        }),
{
    path::stripping_goes_on(dir, scope, e);
    let r = path::stripped(dir, scope)->0;
    path::joining_adds_a_part(r, e);
    path::parents_hold_their_names(r, e);
}

/// The item of a file that lies in the folder that is shown says its name alone.
pub proof fn files_in_the_folder_say_their_name(
    scope: Seq<u8>,
    total: nat,
    e: Seq<u8>,
    s: Seq<char>,
    f: FileModel,
)
    requires
        scope.len() > 0,
        f.path == path::joined(scope, e),
        path::is_name(e),
        e != seq![46u8, 46u8],
        text::utf8_text(e) == Some(s),
    ensures
        file_item(scope, total, f).name == s,
        file_item(scope, total, f).subtitle2 == text::shown_text(seq![]),
{
    path::joining_adds_a_part(scope, e);
    path::a_name_is_its_part(e);
    assert(e != seq![47u8]) by {
        assert(e[0] != 47);
    }
}

} // verus!
