//! The state of the program, and what the keys and the mouse do to it.

use vstd::prelude::*;
use vstd::string::*;

use crate::bench::{Bench, BenchModel};
use crate::double;
use crate::double::Double;
use crate::grid::Rect;
use crate::lang::Lang;
use crate::ledger;
use crate::ledger::FileRecord;
pub use crate::ledger::LangStats;
use crate::order;
use crate::path;
use crate::path::FilePath;
use crate::path_table::PathTable;
use crate::text;
use crate::time;
use crate::time::{Span, MAX_NANOS};
use crate::tree;
use crate::tree::{FileModel, FileNode, FolderModel, FolderNode, Node, NodeModel};
use crate::view;

verus! {

/// What a tile stands for.
#[derive(Debug)]
pub enum TileTarget {
    Folder(Vec<String>),
    File(FilePath),
}

/// What a tile stands for: the names of a folder, or the path of a file.
#[verifier::ext_equal]
pub enum TargetModel {
    Folder(Seq<Seq<char>>),
    File(Seq<u8>),
}

/// Where the selection moves.
#[derive(Debug, Clone, Copy, PartialEq, Eq, Structural)]
pub enum NavDir {
    Left,
    Right,
    Up,
    Down,
}

impl TileTarget {
    /// What the tile stands for.
    pub open spec fn model(self) -> TargetModel {
        match self {
            TileTarget::Folder(names) => TargetModel::Folder(tree::texts(names@)),
            TileTarget::File(p) => TargetModel::File(p@),
        }
    }

    /// Whether two tiles stand for the same.
    pub fn same(&self, other: &TileTarget) -> (r: bool)
        ensures
            r == same_target(self.model(), other.model()),
    {
        match (self, other) {
            (TileTarget::Folder(a), TileTarget::Folder(b)) => same_names(a, b),
            (TileTarget::File(a), TileTarget::File(b)) => a.same(b),
            _ => false,
        }
    }
}

impl Clone for TileTarget {
    fn clone(&self) -> (r: TileTarget)
        ensures
            r.model() == self.model(),
    {
        match self {
            TileTarget::Folder(names) => TileTarget::Folder(copy_names(names)),
            TileTarget::File(p) => TileTarget::File(p.clone()),
        }
    }
}

/// Whether two tiles stand for the same folder, or for files whose paths have
/// the same parts.
pub open spec fn same_target(a: TargetModel, b: TargetModel) -> bool {
    match (a, b) {
        (TargetModel::Folder(x), TargetModel::Folder(y)) => x == y,
        (TargetModel::File(x), TargetModel::File(y)) => path::parts(x) == path::parts(y),
        _ => false,
    }
}

/// A copy of names.
pub fn copy_names(names: &Vec<String>) -> (r: Vec<String>)
    ensures
        tree::texts(r@) == tree::texts(names@),
{
    let mut out: Vec<String> = Vec::new();
    let mut i: usize = 0;
    while i < names.len()
        invariant
            i <= names@.len(),
            tree::texts(out@) =~= tree::texts(names@).take(i as int),
        decreases names@.len() - i,
    {
        let name = names[i].clone();
        let ghost so_far = out@;
        out.push(name);
        proof {
            assert(tree::texts(out@) =~= tree::texts(so_far).push(names@[i as int]@));
            assert(tree::texts(names@).take(i + 1) =~= tree::texts(names@).take(i as int).push(
                names@[i as int]@,
            ));
        }
        i = i + 1;
    }
    proof {
        assert(tree::texts(names@).take(i as int) =~= tree::texts(names@));
    }
    out
}

/// Whether two lists of names are the same.
pub fn same_names(a: &Vec<String>, b: &Vec<String>) -> (r: bool)
    ensures
        r == (tree::texts(a@) == tree::texts(b@)),
{
    if a.len() != b.len() {
        proof {
            assert(tree::texts(a@).len() != tree::texts(b@).len());
        }
        return false;
    }
    let mut i: usize = 0;
    while i < a.len()
        invariant
            i <= a@.len() == b@.len(),
            forall|k: int| 0 <= k < i ==> tree::texts(a@)[k] == tree::texts(b@)[k],
        decreases a@.len() - i,
    {
        if !text::same(a[i].as_str(), b[i].as_str()) {
            proof {
                assert(tree::texts(a@)[i as int] != tree::texts(b@)[i as int]);
            }
            return false;
        }
        i = i + 1;
    }
    proof {
        assert(tree::texts(a@) =~= tree::texts(b@));
    }
    true
}

/// The state of the program.
pub struct App {
    pub root: FilePath,
    pub started: Span,
    pub stats: Vec<(Lang, LangStats)>,
    pub tree: FolderNode,
    pub current_path: Vec<String>,
    pub view: view::View,
    pub last_tiles: Vec<(Rect, TileTarget)>,
    pub ranked_cache: Vec<(Lang, LangStats)>,
    pub stats_dirty: bool,
    pub items_dirty: bool,
    pub selected: Option<TileTarget>,
    pub legend_rect: Rect,
    pub legend_scroll: usize,
    pub legend_max_scroll: usize,
    pub bench: Bench,
    pub total_files: u64,
    pub total_lines: u64,
    pub total_bytes: u64,
    pub last_path: Option<FilePath>,
    pub done: bool,
    pub finished_at: Option<Span>,
    pub watching: bool,
    pub files: PathTable<FileRecord>,
}

/// The state of the program, part by part.
#[verifier::ext_equal]
pub struct AppModel {
    pub root: Seq<u8>,
    pub started: Span,
    pub stats: Seq<(Seq<char>, LangStats)>,
    pub tree: FolderModel,
    pub current_path: Seq<Seq<char>>,
    pub view: view::View,
    pub last_tiles: Seq<(Rect, TargetModel)>,
    pub ranked_cache: Seq<(Seq<char>, LangStats)>,
    pub stats_dirty: bool,
    pub items_dirty: bool,
    pub selected: Option<TargetModel>,
    pub legend_rect: Rect,
    pub legend_scroll: usize,
    pub legend_max_scroll: usize,
    pub bench: BenchModel,
    pub total_files: u64,
    pub total_lines: u64,
    pub total_bytes: u64,
    pub last_path: Option<Seq<u8>>,
    pub done: bool,
    pub finished_at: Option<Span>,
    pub watching: bool,
    pub files: Map<Seq<Seq<u8>>, FileRecord>,
}

/// Tiles by what they stand for.
pub open spec fn tiles_model(v: Seq<(Rect, TileTarget)>) -> Seq<(Rect, TargetModel)> {
    v.map_values(|t: (Rect, TileTarget)| (t.0, t.1.model()))
}

/// What a selection stands for.
pub open spec fn target_model(t: Option<TileTarget>) -> Option<TargetModel> {
    match t {
        Some(t) => Some(t.model()),
        None => None,
    }
}

impl App {
    /// The state, part by part.
    pub open spec fn model(&self) -> AppModel {
        AppModel {
            root: self.root@,
            started: self.started,
            stats: ledger::stats_model(self.stats@),
            tree: self.tree.model(),
            current_path: tree::texts(self.current_path@),
            view: self.view,
            last_tiles: tiles_model(self.last_tiles@),
            ranked_cache: ledger::stats_model(self.ranked_cache@),
            stats_dirty: self.stats_dirty,
            items_dirty: self.items_dirty,
            selected: target_model(self.selected),
            legend_rect: self.legend_rect,
            legend_scroll: self.legend_scroll,
            legend_max_scroll: self.legend_max_scroll,
            bench: self.bench@,
            total_files: self.total_files,
            total_lines: self.total_lines,
            total_bytes: self.total_bytes,
            last_path: match self.last_path {
                Some(p) => Some(p@),
                None => None,
            },
            done: self.done,
            finished_at: self.finished_at,
            watching: self.watching,
            files: self.files.view(),
        }
    }

    /// The state is well formed, and so is the table of files.
    pub open spec fn wf(&self) -> bool {
        self.model().wf() && self.files.wf()
    }
}

/// The lines of each language.
pub open spec fn stat_lines(s: Seq<(Seq<char>, LangStats)>) -> Seq<u64> {
    s.map_values(|e: (Seq<char>, LangStats)| e.1.lines)
}

/// Statistics, the most lines first; of equals, the one counted first.
pub open spec fn ranked_of(s: Seq<(Seq<char>, LangStats)>) -> Seq<(Seq<char>, LangStats)> {
    Seq::new(s.len(), |i: int| s[order::ranking(stat_lines(s))[i] as int])
}

impl AppModel {
    /// The statistics of the languages add up to the totals and hold every
    /// file, and the parts are well formed.
    pub open spec fn wf(self) -> bool {
        &&& self.tree.wf()
        &&& ledger::stats_sum(self.stats) == (
            self.total_files as int,
            self.total_lines as int,
            self.total_bytes as int,
        )
        &&& ledger::each_once(self.stats)
        &&& ledger::none_empty(self.stats)
        &&& self.files.dom().finite()
        &&& ledger::covered(self.stats, self.files)
        &&& self.bench.wf()
        &&& self.started.wf()
        &&& self.finished_at is Some ==> self.finished_at->0.wf()
    }

    /// Whether one more file can be counted.
    pub open spec fn has_room(self, lines: u64, bytes: u64) -> bool {
        &&& self.total_files < u64::MAX
        &&& self.total_lines + lines <= u64::MAX
        &&& self.total_bytes + bytes <= u64::MAX
        &&& tree::has_room(self.tree, lines)
    }

    /// The state at the start.
    pub open spec fn initial(root: Seq<u8>, started: Span) -> AppModel {
        AppModel {
            root,
            started,
            stats: seq![],
            tree: FolderModel::empty(),
            current_path: seq![],
            view: view::View::Tree,
            last_tiles: seq![],
            ranked_cache: seq![],
            stats_dirty: true,
            items_dirty: true,
            selected: None,
            legend_rect: Rect { top: 0, left: 0, width: 0, height: 0 },
            legend_scroll: 0,
            legend_max_scroll: 0,
            bench: BenchModel::initial(),
            total_files: 0,
            total_lines: 0,
            total_bytes: 0,
            last_path: None,
            done: false,
            finished_at: None,
            watching: false,
            files: Map::empty(),
        }
    }

    /// The state after a file was added. Files without lines stay out of the
    /// tree.
    pub open spec fn added(self, p: Seq<u8>, r: FileRecord) -> AppModel {
        AppModel {
            stats: ledger::stat_counted(self.stats, r),
            total_files: (self.total_files + 1) as u64,
            total_lines: (self.total_lines + r.lines) as u64,
            total_bytes: (self.total_bytes + r.bytes) as u64,
            last_path: Some(p),
            stats_dirty: true,
            items_dirty: true,
            tree: if r.lines > 0 {
                tree::inserted(
                    self.tree,
                    tree::names_in(self.root, p),
                    0,
                    FileModel { path: p, lang: r.lang.name(), lines: r.lines },
                )
            } else {
                self.tree
            },
            files: self.files.insert(path::parts(p), r),
            ..self
        }
    }

    /// The state after a file was counted by the scan, which took `nanos`
    /// nanoseconds.
    pub open spec fn recorded(self, p: Seq<u8>, r: FileRecord, nanos: u64) -> AppModel {
        AppModel { bench: self.bench.counted(nanos), ..self.added(p, r) }
    }

    /// The state without a file, if it was counted.
    pub open spec fn forgotten(self, p: Seq<u8>) -> AppModel {
        let k = path::parts(p);
        if self.files.contains_key(k) {
            let r = self.files[k];
            AppModel {
                stats: ledger::stat_uncounted(self.stats, r),
                total_files: (self.total_files - 1) as u64,
                total_lines: (self.total_lines - r.lines) as u64,
                total_bytes: (self.total_bytes - r.bytes) as u64,
                stats_dirty: true,
                items_dirty: true,
                tree: tree::without(self.tree, tree::names_in(self.root, p)),
                files: self.files.remove(k),
                ..self
            }
        } else {
            self
        }
    }

    /// The state after a file changed, or came: what was counted of it before
    /// no longer counts.
    pub open spec fn upserted(self, p: Seq<u8>, r: FileRecord) -> AppModel {
        self.forgotten(p).added(p, r)
    }

    /// The folder that is shown: the one that the current names lead to, or
    /// the root.
    pub open spec fn folder(self) -> FolderModel {
        match tree::resolved(self.tree, self.current_path, 0) {
            Some(f) => f,
            None => self.tree,
        }
    }

    /// The state one level up, if there is one.
    pub open spec fn above(self) -> AppModel {
        if self.current_path.len() > 0 {
            AppModel {
                current_path: self.current_path.drop_last(),
                selected: None,
                items_dirty: true,
                ..self
            }
        } else {
            self
        }
    }

    /// The state after the folder that is selected was entered.
    pub open spec fn entered(self) -> AppModel {
        match self.selected {
            Some(TargetModel::Folder(names)) => {
                let inside = AppModel { current_path: names, ..self };
                AppModel { selected: inside.first_target(), items_dirty: true, ..inside }
            },
            _ => self,
        }
    }

    /// The largest item that the view shows.
    pub open spec fn first_target(self) -> Option<TargetModel> {
        match self.view {
            view::View::Files => match largest_file(tree::files_below(self.folder().children)) {
                Some(f) => Some(TargetModel::File(f.path)),
                None => None,
            },
            _ => match largest_entry(self.folder().children) {
                Some(e) => Some(entry_target(self.current_path, e)),
                None => None,
            },
        }
    }

    /// The state with the next view.
    pub open spec fn toggled(self) -> AppModel {
        AppModel {
            view: view::next_view(self.view),
            selected: None,
            items_dirty: true,
            ..self
        }
    }

    /// The state after the scan ended; only the first end counts.
    pub open spec fn finished(self, at: Span) -> AppModel {
        if self.done {
            self
        } else {
            AppModel { done: true, finished_at: Some(at), ..self }
        }
    }

    /// How long the scan took, or has taken until `now`.
    pub open spec fn elapsed(self, now: Span) -> Span {
        let end = match self.finished_at {
            Some(t) => t,
            None => now,
        };
        Span {
            nanos: if end.nanos > self.started.nanos {
                (end.nanos - self.started.nanos) as u128
            } else {
                0
            },
        }
    }

    /// The state with the languages ranked.
    pub open spec fn with_ranking(self) -> AppModel {
        if self.stats_dirty {
            AppModel { ranked_cache: ranked_of(self.stats), stats_dirty: false, ..self }
        } else {
            self
        }
    }

    /// The state after the selection moved.
    pub open spec fn navigated(self, dir: NavDir) -> AppModel {
        if self.last_tiles.len() == 0 {
            self
        } else {
            let first = AppModel { selected: Some(self.last_tiles[0].1), ..self };
            match self.selected {
                None => first,
                Some(t) => {
                    let at = target_at(self.last_tiles, t, 0);
                    if at >= self.last_tiles.len() {
                        first
                    } else {
                        let n = self.last_tiles.len() as int;
                        match best_tile(self.last_tiles, t, self.last_tiles[at].0, dir, n) {
                            Some(k) => AppModel { selected: Some(self.last_tiles[k].1), ..self },
                            None => self,
                        }
                    }
                },
            }
        }
    }
}

/// The last of the entries with the most lines, if any has lines.
pub open spec fn largest_entry(cs: Seq<(Seq<char>, NodeModel)>) -> Option<(Seq<char>, NodeModel)>
    decreases cs.len(),
{
    if cs.len() == 0 {
        None
    } else {
        let best = largest_entry(cs.drop_last());
        let n = tree::node_lines(cs.last().1);
        if n > 0 && (best is None || n >= tree::node_lines((best->0).1)) {
            Some(cs.last())
        } else {
            best
        }
    }
}

/// The last of the files with the most lines.
pub open spec fn largest_file(fs: Seq<FileModel>) -> Option<FileModel>
    decreases fs.len(),
{
    if fs.len() == 0 {
        None
    } else {
        let best = largest_file(fs.drop_last());
        if best is None || fs.last().lines >= best->0.lines {
            Some(fs.last())
        } else {
            best
        }
    }
}

/// What the tile of an entry stands for.
pub open spec fn entry_target(base: Seq<Seq<char>>, e: (Seq<char>, NodeModel)) -> TargetModel {
    match e.1 {
        NodeModel::File(f) => TargetModel::File(f.path),
        NodeModel::Folder(_) => TargetModel::Folder(base.push(e.0)),
    }
}

/// The first tile from `i` on that stands for `t`, or the end.
pub open spec fn target_at(tiles: Seq<(Rect, TargetModel)>, t: TargetModel, i: int) -> int
    decreases tiles.len() - i,
{
    if i >= tiles.len() || same_target(tiles[i].1, t) {
        i
    } else {
        target_at(tiles, t, i + 1)
    }
}

/// How far a tile lies from another in a direction; negative where it lies
/// behind, or overlaps along that direction.
pub open spec fn edge(cur: Rect, r: Rect, dir: NavDir) -> int {
    match dir {
        NavDir::Right => r.left - (cur.left + cur.width),
        NavDir::Left => cur.left - (r.left + r.width),
        NavDir::Down => r.top - (cur.top + cur.height),
        NavDir::Up => cur.top - (r.top + r.height),
    }
}

/// Where a tile begins and ends across a direction.
pub open spec fn across(r: Rect, dir: NavDir) -> (int, int) {
    match dir {
        NavDir::Right | NavDir::Left => (r.top as int, r.top + r.height),
        NavDir::Down | NavDir::Up => (r.left as int, r.left + r.width),
    }
}

/// How many cells two tiles share across a direction.
pub open spec fn overlap(cur: Rect, r: Rect, dir: NavDir) -> int {
    let a = across(cur, dir);
    let b = across(r, dir);
    (if a.1 < b.1 {
        a.1
    } else {
        b.1
    }) - (if a.0 > b.0 {
        a.0
    } else {
        b.0
    })
}

/// How far two tiles lie apart across a direction, where they share nothing.
pub open spec fn gap(cur: Rect, r: Rect, dir: NavDir) -> int {
    let a = across(cur, dir);
    let b = across(r, dir);
    if overlap(cur, r, dir) > 0 {
        0
    } else if b.0 - a.1 > a.0 - b.1 {
        b.0 - a.1
    } else {
        a.0 - b.1
    }
}

/// Whether a step to `r` is better than one to `s`: sharing cells across the
/// direction comes first, then the smaller distance, then the smaller gap, and
/// then the larger tile.
pub open spec fn better(cur: Rect, dir: NavDir, r: Rect, s: Rect) -> bool {
    let apart_r = overlap(cur, r, dir) <= 0;
    let apart_s = overlap(cur, s, dir) <= 0;
    let area_r = r.width * r.height;
    let area_s = s.width * s.height;
    if apart_r != apart_s {
        !apart_r
    } else if edge(cur, r, dir) != edge(cur, s, dir) {
        edge(cur, r, dir) < edge(cur, s, dir)
    } else if gap(cur, r, dir) != gap(cur, s, dir) {
        gap(cur, r, dir) < gap(cur, s, dir)
    } else {
        area_r > area_s
    }
}

/// Whether a tile can be stepped to: it stands for something else, and lies in
/// the direction.
pub open spec fn reachable(
    tile: (Rect, TargetModel),
    t: TargetModel,
    cur: Rect,
    dir: NavDir,
) -> bool {
    !same_target(tile.1, t) && edge(cur, tile.0, dir) >= 0
}

/// The first of the best steps among the first `n` tiles.
pub open spec fn best_tile(
    tiles: Seq<(Rect, TargetModel)>,
    t: TargetModel,
    cur: Rect,
    dir: NavDir,
    n: int,
) -> Option<int>
    decreases n,
{
    if n <= 0 {
        None
    } else {
        let best = best_tile(tiles, t, cur, dir, n - 1);
        if reachable(tiles[n - 1], t, cur, dir) && (best is None || better(
            cur,
            dir,
            tiles[n - 1].0,
            tiles[best->0].0,
        )) {
            Some(n - 1)
        } else {
            best
        }
    }
}

/// The last of the first `n` tiles that covers a cell, or -1.
pub open spec fn tile_at(tiles: Seq<(Rect, TargetModel)>, n: int, row: int, col: int) -> int
    decreases n,
{
    if n <= 0 || tiles[n - 1].0.covers(row, col) {
        n - 1
    } else {
        tile_at(tiles, n - 1, row, col)
    }
}

/// The scan root as the header shows it: with `~` for the home folder.
pub open spec fn root_text(root: Seq<u8>, home: Option<Seq<u8>>) -> Seq<char> {
    match home {
        Some(h) => match path::stripped(root, h) {
            Some(rel) => if rel.len() == 0 {
                "~"@
            } else {
                "~/"@ + text::shown_text(rel)
            },
            None => text::shown_text(root),
        },
        None => text::shown_text(root),
    }
}

/// Each name after a slash.
pub open spec fn zoom_text(names: Seq<Seq<char>>) -> Seq<char>
    decreases names.len(),
{
    if names.len() == 0 {
        seq![]
    } else {
        zoom_text(names.drop_last()).push('/') + names.last()
    }
}

/// The state at the start is well formed, and nothing is counted.
pub proof fn initial_is_wf(root: Seq<u8>, started: Span)
    requires
        started.wf(),
    ensures
        AppModel::initial(root, started).wf(),
        AppModel::initial(root, started).root == root,
        AppModel::initial(root, started).total_files == 0,
        AppModel::initial(root, started).total_lines == 0,
        AppModel::initial(root, started).total_bytes == 0,
        AppModel::initial(root, started).tree == FolderModel::empty(),
        AppModel::initial(root, started).files == Map::<Seq<Seq<u8>>, FileRecord>::empty(),
{
    let m = AppModel::initial(root, started);
    assert(m.tree.wf());
    assert forall|l: Seq<char>| ledger::at_most(
        #[trigger] ledger::shares(m.files, l),
        ledger::stat_of(m.stats, l),
    ) by {}
}

/// Adding a file keeps the state well formed.
pub proof fn added_is_wf(app: AppModel, p: Seq<u8>, r: FileRecord)
    requires
        app.wf(),
        app.has_room(r.lines, r.bytes),
    ensures
        app.added(p, r).wf(),
{
    ledger::lemma_stat_counted(app.stats, r);
    ledger::lemma_covered_insert(app.stats, app.files, path::parts(p), r);
    let names = tree::names_in(app.root, p);
    if r.lines > 0 && names.len() > 0 {
        let file = FileModel { path: p, lang: r.lang.name(), lines: r.lines };
        tree::lemma_inserted_wf(app.tree, names, 0, file);
    }
}

/// Forgetting a file keeps the state well formed, and takes from the totals
/// what was counted of it; the others stay as they are.
pub proof fn forgotten_is_wf(app: AppModel, p: Seq<u8>)
    requires
        app.wf(),
    ensures
        app.forgotten(p).wf(),
        !app.forgotten(p).files.contains_key(path::parts(p)),
        app.files.contains_key(path::parts(p)) ==> {
            let r = app.files[path::parts(p)];
            let now = app.forgotten(p);
            &&& now.total_files == app.total_files - 1
            &&& now.total_lines == app.total_lines - r.lines
            &&& now.total_bytes == app.total_bytes - r.bytes
        },
        forall|k: Seq<Seq<u8>>|
            k != path::parts(p) && #[trigger] app.files.contains_key(k)
                ==> app.forgotten(p).files.contains_key(k) && app.forgotten(p).files[k]
                == app.files[k],
        forall|lines: u64, bytes: u64|
            app.has_room(lines, bytes) ==> #[trigger] app.forgotten(p).has_room(lines, bytes),
{
    let k = path::parts(p);
    if app.files.contains_key(k) {
        let r = app.files[k];
        ledger::lemma_covered_remove(app.stats, app.files, k);
        ledger::lemma_stat_uncounted(app.stats, r);
        ledger::lemma_stats_sum_bounds(ledger::stat_uncounted(app.stats, r));
        tree::lemma_removed_wf(app.tree, tree::names_in(app.root, p), 0);
    }
}

impl App {
    /// The state at the start.
    pub fn new(root: FilePath, started: Span) -> (r: App)
        requires
            started.wf(),
        ensures
            r.model() == AppModel::initial(root@, started),
            r.wf(),
    {
        let r = App {
            root,
            started,
            stats: Vec::new(),
            tree: FolderNode::default(),
            current_path: Vec::new(),
            view: view::View::Tree,
            last_tiles: Vec::new(),
            ranked_cache: Vec::new(),
            stats_dirty: true,
            items_dirty: true,
            selected: None,
            legend_rect: Rect::new(0, 0, 0, 0),
            legend_scroll: 0,
            legend_max_scroll: 0,
            bench: Bench::default(),
            total_files: 0,
            total_lines: 0,
            total_bytes: 0,
            last_path: None,
            done: false,
            finished_at: None,
            watching: false,
            files: PathTable::new(),
        };
        proof {
            assert(r.model() =~= AppModel::initial(root@, started));
            assert forall|l: Seq<char>| ledger::at_most(
                #[trigger] ledger::shares(r.model().files, l),
                ledger::stat_of(r.model().stats, l),
            ) by {}
        }
        r
    }

    /// Whether one more file can be counted.
    pub fn fits(&self, lines: u64, bytes: u64, count_nanos: u64) -> (r: bool)
        requires
            self.wf(),
        ensures
            r == (self.model().has_room(lines, bytes) && self.model().bench.fits(count_nanos)),
    {
        self.total_files < u64::MAX && lines <= u64::MAX - self.total_lines && bytes <= u64::MAX
            - self.total_bytes && lines <= u64::MAX - self.tree.total_lines
            && self.tree.total_files < u64::MAX && (!self.bench.enabled || count_nanos as u128
            <= MAX_NANOS - self.bench.total_count_nanos)
    }

    /// Counts a file that the scan found.
    pub fn record(&mut self, path: FilePath, lang: Lang, lines: u64, bytes: u64, count_nanos: u64)
        requires
            old(self).wf(),
            old(self).model().has_room(lines, bytes),
            old(self).model().bench.fits(count_nanos),
        ensures
            final(self).model() == old(self).model().recorded(
                path@,
                (FileRecord { lang, lines, bytes }),
                count_nanos,
            ),
            final(self).wf(),
    {
        self.bench.record_count(count_nanos);
        self.record_inner(path, FileRecord { lang, lines, bytes });
    }

    /// Counts a file.
    fn record_inner(&mut self, path: FilePath, r: FileRecord)
        requires
            old(self).wf(),
            old(self).model().has_room(r.lines, r.bytes),
        ensures
            final(self).model() == old(self).model().added(path@, r),
            final(self).wf(),
    {
        let ghost m = self.model();
        proof {
            added_is_wf(m, path@, r);
        }
        ledger::count_stat(&mut self.stats, r);
        self.total_files = self.total_files + 1;
        self.total_lines = self.total_lines + r.lines;
        self.total_bytes = self.total_bytes + r.bytes;
        self.files.insert(&path, r);
        self.last_path = Some(path.clone());
        self.stats_dirty = true;
        self.items_dirty = true;
        if r.lines > 0 {
            tree::insert(&mut self.tree, &self.root, path, r.lang, r.lines);
        }
        proof {
            assert(self.model() =~= m.added(path@, r));
        }
    }

    /// Counts a file that changed, or that came.
    pub fn watch_upsert(&mut self, path: FilePath, lang: Lang, lines: u64, bytes: u64)
        requires
            old(self).wf(),
            old(self).model().forgotten(path@).has_room(lines, bytes),
        ensures
            final(self).model() == old(self).model().upserted(
                path@,
                (FileRecord { lang, lines, bytes }),
            ),
            final(self).wf(),
    {
        self.watch_remove(&path);
        self.record_inner(path, FileRecord { lang, lines, bytes });
    }

    /// Forgets a file that is gone.
    pub fn watch_remove(&mut self, path: &FilePath)
        requires
            old(self).wf(),
        ensures
            final(self).model() == old(self).model().forgotten(path@),
            final(self).wf(),
    {
        let ghost m = self.model();
        proof {
            forgotten_is_wf(m, path@);
        }
        if let Some(r) = self.files.get(path) {
            proof {
                ledger::lemma_covered_remove(m.stats, m.files, path::parts(path@));
            }
            ledger::uncount_stat(&mut self.stats, r);
            self.total_files = self.total_files - 1;
            self.total_lines = self.total_lines - r.lines;
            self.total_bytes = self.total_bytes - r.bytes;
            self.files.remove(path);
            tree::remove(&mut self.tree, &self.root, path);
            self.stats_dirty = true;
            self.items_dirty = true;
            proof {
                assert(self.model() =~= m.forgotten(path@));
            }
        }
    }

    /// Has the items of the view built anew.
    pub fn mark_layout_dirty(&mut self)
        ensures
            final(self).model() == (AppModel { items_dirty: true, ..old(self).model() }),
            final(self).files == old(self).files,
    {
        self.items_dirty = true;
    }

    /// The folder that is shown.
    pub fn current_folder(&self) -> (r: &FolderNode)
        requires
            self.model().tree.wf(),
        ensures
            r.model() == self.model().folder(),
            r.model().wf(),
            r.model().total_lines <= self.model().tree.total_lines,
            r.model().total_files <= self.model().tree.total_files,
    {
        match tree::resolve(&self.tree, self.current_path.as_slice()) {
            Some(f) => f,
            None => &self.tree,
        }
    }

    /// Goes one level up. Says whether there was one.
    pub fn up(&mut self) -> (r: bool)
        ensures
            r == (old(self).model().current_path.len() > 0),
            final(self).model() == old(self).model().above(),
            final(self).files == old(self).files,
    {
        if self.current_path.len() == 0 {
            return false;
        }
        let ghost m = self.model();
        let _ = self.current_path.pop();
        self.selected = None;
        self.items_dirty = true;
        proof {
            assert(tree::texts(self.current_path@) =~= m.current_path.drop_last());
        }
        true
    }

    /// Enters the folder that is selected.
    pub fn enter_selected(&mut self)
        requires
            old(self).model().tree.wf(),
        ensures
            final(self).model() == old(self).model().entered(),
            final(self).files == old(self).files,
    {
        let ghost m = self.model();
        let names = match &self.selected {
            Some(TileTarget::Folder(names)) => copy_names(names),
            _ => {
                return;
            },
        };
        self.current_path = names;
        self.selected = self.first_visible_target();
        self.items_dirty = true;
        proof {
            assert(self.model() =~= m.entered());
        }
    }

    /// The largest item that the view shows, so that something is selected
    /// before the next frame is drawn: the largest entry of the folder, or the
    /// largest file below it in the files view.
    pub fn first_visible_target(&self) -> (r: Option<TileTarget>)
        requires
            self.model().tree.wf(),
        ensures
            target_model(r) == self.model().first_target(),
    {
        let folder = self.current_folder();
        match self.view {
            view::View::Files => {
                let mut files: Vec<&FileNode> = Vec::new();
                tree::collect_files(folder, &mut files);
                let ghost fs = tree::files_below(folder.model().children);
                proof {
                    assert(tree::file_models(files@) =~= fs);
                    assert(fs.take(0) =~= seq![]);
                }
                let mut best: Option<&FileNode> = None;
                let mut i: usize = 0;
                while i < files.len()
                    invariant
                        i <= files@.len() == fs.len(),
                        fs == tree::file_models(files@),
                        best is Some <==> largest_file(fs.take(i as int)) is Some,
                        best is Some ==> best->0.model() == largest_file(fs.take(i as int))->0,
                    decreases files@.len() - i,
                {
                    let f = files[i];
                    proof {
                        assert(fs.take(i + 1).drop_last() =~= fs.take(i as int));
                        assert(fs.take(i + 1).last() == f.model());
                    }
                    best = match best {
                        Some(b) => if f.lines >= b.lines {
                            Some(f)
                        } else {
                            Some(b)
                        },
                        None => Some(f),
                    };
                    i = i + 1;
                }
                proof {
                    assert(fs.take(fs.len() as int) =~= fs);
                }
                match best {
                    Some(f) => Some(TileTarget::File(f.path.clone())),
                    None => None,
                }
            },
            _ => {
                let ghost es = folder.children.entries@;
                let ghost cs = folder.model().children;
                proof {
                    tree::lemma_entries_model(es);
                    assert(cs.take(0) =~= seq![]);
                }
                let mut best: Option<usize> = None;
                let mut most: u64 = 0;
                let mut i: usize = 0;
                while i < folder.children.entries.len()
                    invariant
                        i <= es.len() == cs.len(),
                        es == folder.children.entries@,
                        forall|k: int|
                            0 <= k < cs.len() ==> #[trigger] cs[k] == (es[k].0@, es[k].1.model()),
                        best is Some <==> largest_entry(cs.take(i as int)) is Some,
                        best is Some ==> best->0 < i && cs[best->0 as int] == largest_entry(
                            cs.take(i as int),
                        )->0,
                        best is Some ==> most == tree::node_lines(cs[best->0 as int].1),
                    decreases es.len() - i,
                {
                    proof {
                        assert(cs.take(i + 1).drop_last() =~= cs.take(i as int));
                        assert(cs.take(i + 1).last() == cs[i as int]);
                    }
                    let n: u64 = match &folder.children.entries[i].1 {
                        Node::File(f) => f.lines,
                        Node::Folder(f) => f.total_lines,
                    };
                    if n > 0 && (best.is_none() || n >= most) {
                        best = Some(i);
                        most = n;
                    }
                    i = i + 1;
                }
                proof {
                    assert(cs.take(cs.len() as int) =~= cs);
                }
                match best {
                    Some(k) => {
                        proof {
                            assert(cs[k as int] == (es[k as int].0@, es[k as int].1.model()));
                        }
                        match &folder.children.entries[k].1 {
                            Node::File(f) => Some(TileTarget::File(f.path.clone())),
                            Node::Folder(_) => {
                                let mut names = copy_names(&self.current_path);
                                let ghost so_far = names@;
                                names.push(folder.children.entries[k].0.clone());
                                proof {
                                    assert(tree::texts(names@) =~= tree::texts(so_far).push(
                                        cs[k as int].0,
                                    ));
                                }
                                Some(TileTarget::Folder(names))
                            },
                        }
                    },
                    None => None,
                }
            },
        }
    }

    /// Shows the next view.
    pub fn toggle_view(&mut self)
        ensures
            final(self).model() == old(self).model().toggled(),
            final(self).files == old(self).files,
    {
        self.view = self.view.next();
        self.selected = None;
        self.items_dirty = true;
    }

    /// Remembers when the scan ended.
    pub fn mark_done(&mut self, at: Span)
        ensures
            final(self).model() == old(self).model().finished(at),
            final(self).files == old(self).files,
    {
        if !self.done {
            self.done = true;
            self.finished_at = Some(at);
        }
    }

    /// How many seconds the scan took, or has taken until `now`.
    pub fn elapsed_secs(&self, now: Span) -> (r: Double)
        requires
            self.model().wf(),
            now.wf(),
        ensures
            r == time::secs_of(self.model().elapsed(now)),
            r.wf(),
            double::within(r, 65),
    {
        let end = match self.finished_at {
            Some(t) => t,
            None => now,
        };
        end.since(self.started).secs()
    }

    /// Ranks the languages, if anything was counted since the last time.
    pub fn ensure_ranked(&mut self)
        ensures
            final(self).model() == old(self).model().with_ranking(),
            final(self).files == old(self).files,
    {
        if self.stats_dirty {
            let ghost m = self.model();
            let ghost s = m.stats;
            let n: usize = self.stats.len();
            let mut keys: Vec<u64> = Vec::new();
            let mut i: usize = 0;
            while i < n
                invariant
                    i <= n == self.stats@.len() == s.len(),
                    s == ledger::stats_model(self.stats@),
                    self.model() == m,
                    keys@ =~= stat_lines(s).take(i as int),
                decreases n - i,
            {
                keys.push(self.stats[i].1.lines);
                i = i + 1;
            }
            proof {
                assert(stat_lines(s).take(n as int) =~= stat_lines(s));
            }
            let p = order::rank(&keys);
            let mut ranked: Vec<(Lang, LangStats)> = Vec::new();
            i = 0;
            while i < n
                invariant
                    i <= n == self.stats@.len() == s.len() == p@.len(),
                    s == ledger::stats_model(self.stats@),
                    self.model() == m,
                    order::is_ranking(stat_lines(s), p@),
                    p@ == order::ranking(stat_lines(s)),
                    ledger::stats_model(ranked@) =~= ranked_of(s).take(i as int),
                decreases n - i,
            {
                let e = self.stats[p[i]];
                let ghost so_far = ranked@;
                ranked.push(e);
                proof {
                    assert(ledger::stats_model(ranked@) =~= ledger::stats_model(so_far).push((e.0.name(), e.1)));
                    assert(ranked_of(s).take(i + 1) =~= ranked_of(s).take(i as int).push(
                        ranked_of(s)[i as int],
                    ));
                }
                i = i + 1;
            }
            proof {
                assert(ranked_of(s).take(n as int) =~= ranked_of(s));
            }
            self.ranked_cache = ranked;
            self.stats_dirty = false;
        }
    }

    /// The languages as they were last ranked.
    pub fn ranked(&self) -> (r: &[(Lang, LangStats)])
        ensures
            ledger::stats_model(r@) == self.model().ranked_cache,
    {
        self.ranked_cache.as_slice()
    }

    /// What stands at a cell: of the tiles that cover it, the one drawn last.
    pub fn hit(&self, x: u16, y: u16) -> (r: Option<&TileTarget>)
        ensures
            ({
                let tiles = self.model().last_tiles;
                let k = tile_at(tiles, tiles.len() as int, y as int, x as int);
                &&& r is Some <==> k >= 0
                &&& r is Some ==> r->0.model() == tiles[k].1
            }),
    {
        let ghost tiles = self.model().last_tiles;
        let mut i: usize = self.last_tiles.len();
        while i > 0
            invariant
                i <= self.last_tiles@.len() == tiles.len(),
                tiles == tiles_model(self.last_tiles@),
                tiles == self.model().last_tiles,
                tile_at(tiles, tiles.len() as int, y as int, x as int) == tile_at(
                    tiles,
                    i as int,
                    y as int,
                    x as int,
                ),
            decreases i,
        {
            proof {
                assert(tiles[i - 1] == (
                    self.last_tiles@[i - 1].0,
                    self.last_tiles@[i - 1].1.model(),
                ));
            }
            if self.last_tiles[i - 1].0.contains(y, x) {
                return Some(&self.last_tiles[i - 1].1);
            }
            i = i - 1;
        }
        None
    }

    /// The scan root, and the names of the folder that is shown, as the header
    /// shows them. `home` is the home folder, if there is one.
    pub fn breadcrumb_parts(&self, home: Option<&FilePath>) -> (r: (String, String))
        ensures
            r.0@ == root_text(
                self.model().root,
                match home {
                    Some(h) => Some(h@),
                    None => None,
                },
            ),
            r.1@ == zoom_text(self.model().current_path),
    {
        let root = match home {
            Some(h) => match self.root.strip_prefix(h) {
                Some(rel) => if rel.bytes.len() == 0 {
                    "~".to_string()
                } else {
                    let s = rel.display();
                    text::join("~/", s.as_str())
                },
                None => self.root.display(),
            },
            None => self.root.display(),
        };
        let ghost names = self.model().current_path;
        let mut zoom = String::new();
        let mut i: usize = 0;
        proof {
            assert(names.take(0) =~= seq![]);
        }
        while i < self.current_path.len()
            invariant
                i <= self.current_path@.len() == names.len(),
                names == tree::texts(self.current_path@),
                zoom@ =~= zoom_text(names.take(i as int)),
            decreases self.current_path@.len() - i,
        {
            proof {
                assert(names.take(i + 1).drop_last() =~= names.take(i as int));
                assert(names.take(i + 1).last() == self.current_path@[i as int]@);
            }
            zoom.push('/');
            zoom.append(self.current_path[i].as_str());
            i = i + 1;
        }
        proof {
            assert(names.take(names.len() as int) =~= names);
        }
        (root, zoom)
    }

    /// Moves the selection to the nearest tile in a direction.
    pub fn navigate(&mut self, dir: NavDir)
        ensures
            final(self).model() == old(self).model().navigated(dir),
            final(self).files == old(self).files,
    {
        if self.last_tiles.len() == 0 {
            return;
        }
        let ghost m = self.model();
        let ghost tiles = m.last_tiles;
        proof {
            assert(tiles[0] == (self.last_tiles@[0].0, self.last_tiles@[0].1.model()));
        }
        let t = match &self.selected {
            None => {
                self.selected = Some(self.last_tiles[0].1.clone());
                proof {
                    assert(self.model() =~= m.navigated(dir));
                }
                return;
            },
            Some(t) => t.clone(),
        };
        let mut at: usize = 0;
        while at < self.last_tiles.len() && !self.last_tiles[at].1.same(&t)
            invariant
                at <= self.last_tiles@.len() == tiles.len(),
                tiles == tiles_model(self.last_tiles@),
                self.model() == m,
                target_at(tiles, t.model(), 0) == target_at(tiles, t.model(), at as int),
            decreases self.last_tiles@.len() - at,
        {
            at = at + 1;
        }
        if at == self.last_tiles.len() {
            self.selected = Some(self.last_tiles[0].1.clone());
            proof {
                assert(self.model() =~= m.navigated(dir));
            }
            return;
        }
        let cur = self.last_tiles[at].0;
        proof {
            assert(tiles[at as int].0 == cur);
            assert(target_at(tiles, t.model(), 0) == at);
        }
        let mut best: Option<usize> = None;
        let mut i: usize = 0;
        while i < self.last_tiles.len()
            invariant
                i <= self.last_tiles@.len() == tiles.len(),
                tiles == tiles_model(self.last_tiles@),
                self.model() == m,
                best is Some <==> best_tile(tiles, t.model(), cur, dir, i as int) is Some,
                best is Some ==> best->0 < i && best->0 == best_tile(
                    tiles,
                    t.model(),
                    cur,
                    dir,
                    i as int,
                )->0,
            decreases self.last_tiles@.len() - i,
        {
            let r = self.last_tiles[i].0;
            proof {
                assert(tiles[i as int] == (r, self.last_tiles@[i as int].1.model()));
            }
            if !self.last_tiles[i].1.same(&t) && edge_of(cur, r, dir) >= 0 {
                let step = match best {
                    None => true,
                    Some(k) => {
                        proof {
                            assert(tiles[k as int].0 == self.last_tiles@[k as int].0);
                        }
                        is_better(cur, dir, r, self.last_tiles[k].0)
                    },
                };
                if step {
                    best = Some(i);
                }
            }
            i = i + 1;
        }
        match best {
            Some(k) => {
                proof {
                    assert(tiles[k as int].1 == self.last_tiles@[k as int].1.model());
                }
                self.selected = Some(self.last_tiles[k].1.clone());
            },
            None => {},
        }
        proof {
            assert(self.model() =~= m.navigated(dir));
        }
    }
}

/// How far a tile lies from another in a direction.
fn edge_of(cur: Rect, r: Rect, dir: NavDir) -> (e: i32)
    ensures
        e == edge(cur, r, dir),
{
    match dir {
        NavDir::Right => r.left as i32 - (cur.left as i32 + cur.width as i32),
        NavDir::Left => cur.left as i32 - (r.left as i32 + r.width as i32),
        NavDir::Down => r.top as i32 - (cur.top as i32 + cur.height as i32),
        NavDir::Up => cur.top as i32 - (r.top as i32 + r.height as i32),
    }
}

/// Where a tile begins and ends across a direction.
fn across_of(r: Rect, dir: NavDir) -> (s: (i32, i32))
    ensures
        (s.0 as int, s.1 as int) == across(r, dir),
        0 <= s.0 <= s.1 <= 0x20000,
{
    match dir {
        NavDir::Right | NavDir::Left => (r.top as i32, r.top as i32 + r.height as i32),
        NavDir::Down | NavDir::Up => (r.left as i32, r.left as i32 + r.width as i32),
    }
}

/// Whether two tiles share nothing across a direction, and how far they then
/// lie apart.
fn gap_of(cur: Rect, r: Rect, dir: NavDir) -> (g: (bool, i32))
    ensures
        g.0 == (overlap(cur, r, dir) <= 0),
        g.1 == gap(cur, r, dir),
{
    let (a0, a1) = across_of(cur, dir);
    let (b0, b1) = across_of(r, dir);
    let end = if a1 < b1 {
        a1
    } else {
        b1
    };
    let begin = if a0 > b0 {
        a0
    } else {
        b0
    };
    if end - begin > 0 {
        (false, 0)
    } else if b0 - a1 > a0 - b1 {
        (true, b0 - a1)
    } else {
        (true, a0 - b1)
    }
}

/// Whether a step to `r` is better than one to `s`.
fn is_better(cur: Rect, dir: NavDir, r: Rect, s: Rect) -> (b: bool)
    ensures
        b == better(cur, dir, r, s),
{
    let (apart_r, gap_r) = gap_of(cur, r, dir);
    let (apart_s, gap_s) = gap_of(cur, s, dir);
    let edge_r = edge_of(cur, r, dir);
    let edge_s = edge_of(cur, s, dir);
    proof {
        assert(r.width * r.height <= 0xffff * 0xffff) by (nonlinear_arith)
            requires
                r.width <= 0xffff,
                r.height <= 0xffff,
        ;
        assert(s.width * s.height <= 0xffff * 0xffff) by (nonlinear_arith)
            requires
                s.width <= 0xffff,
                s.height <= 0xffff,
        ;
    }
    let area_r: u64 = r.width as u64 * r.height as u64;
    let area_s: u64 = s.width as u64 * s.height as u64;
    if apart_r != apart_s {
        !apart_r
    } else if edge_r != edge_s {
        edge_r < edge_s
    } else if gap_r != gap_s {
        gap_r < gap_s
    } else {
        area_r > area_s
    }
}

/// The selection moves to a tile that lies in the direction, so never into the
/// tile itself or around it, and no reachable tile is a better step.
pub proof fn navigation_takes_the_best_step(
    tiles: Seq<(Rect, TargetModel)>,
    t: TargetModel,
    cur: Rect,
    dir: NavDir,
    n: int,
)
    requires
        0 <= n <= tiles.len(),
    ensures
        best_tile(tiles, t, cur, dir, n) is None ==> forall|j: int|
            0 <= j < n ==> !reachable(#[trigger] tiles[j], t, cur, dir),
        best_tile(tiles, t, cur, dir, n) is Some ==> {
            let k = best_tile(tiles, t, cur, dir, n)->0;
            &&& 0 <= k < n
            &&& reachable(tiles[k], t, cur, dir)
            &&& forall|j: int|
                0 <= j < n && reachable(#[trigger] tiles[j], t, cur, dir) ==> !better(
                    cur,
                    dir,
                    tiles[j].0,
                    tiles[k].0,
                )
        },
    decreases n,
{
    if n > 0 {
        navigation_takes_the_best_step(tiles, t, cur, dir, n - 1);
        let best = best_tile(tiles, t, cur, dir, n - 1);
        if reachable(tiles[n - 1], t, cur, dir) && best is Some {
            let k = best->0;
            assert forall|j: int| 0 <= j < n && reachable(#[trigger] tiles[j], t, cur, dir)
                && better(cur, dir, tiles[n - 1].0, tiles[k].0) implies !better(
                cur,
                dir,
                tiles[j].0,
                tiles[n - 1].0,
            ) by {
                if j < n - 1 {
                    assert(!better(cur, dir, tiles[j].0, tiles[k].0));
                }
            }
        }
    }
}

/// Two tiles stand for the same thing exactly if they stand for folders with
/// the same names, or for files whose paths have the same parts.
pub proof fn targets_are_told_apart(a: Seq<Seq<char>>, b: Seq<Seq<char>>, p: Seq<u8>, q: Seq<u8>)
    ensures
        same_target(TargetModel::Folder(a), TargetModel::Folder(b)) <==> a == b,
        same_target(TargetModel::File(p), TargetModel::File(q)) <==> path::parts(p) == path::parts(
            q,
        ),
        !same_target(TargetModel::Folder(a), TargetModel::File(p)),
        !same_target(TargetModel::File(p), TargetModel::Folder(a)),
{
}

/// A rectangle as it is seen by one who looks in a direction: where it begins
/// and ends ahead, and where it begins and ends from side to side.
pub open spec fn seen(r: Rect, dir: NavDir) -> (int, int, int, int) {
    match dir {
        NavDir::Right => (r.left as int, r.left + r.width, r.top as int, r.top + r.height),
        NavDir::Left => (-(r.left + r.width), -(r.left as int), r.top as int, r.top + r.height),
        NavDir::Down => (r.top as int, r.top + r.height, r.left as int, r.left + r.width),
        NavDir::Up => (-(r.top + r.height), -(r.top as int), r.left as int, r.left + r.width),
    }
}

/// Whether what is seen reaches over a place from side to side.
pub open spec fn reaches(v: (int, int, int, int), at: int) -> bool {
    v.2 <= at < v.3
}

/// Whether two rectangles share a place from side to side.
pub open spec fn faces(c: (int, int, int, int), v: (int, int, int, int)) -> bool {
    exists|at: int| #[trigger] reaches(c, at) && reaches(v, at)
}

/// How far two rectangles that share no place lie apart from side to side.
pub open spec fn aside(c: (int, int, int, int), v: (int, int, int, int)) -> int {
    if v.2 >= c.3 {
        v.2 - c.3
    } else {
        c.2 - v.3
    }
}

/// Whether a tile is none of those that stand for `t`, and begins no earlier
/// than the current one ends.
pub open spec fn ahead(
    tile: (Rect, TargetModel),
    t: TargetModel,
    cur: Rect,
    dir: NavDir,
) -> bool {
    !same_target(tile.1, t) && seen(tile.0, dir).0 >= seen(cur, dir).1
}

/// Whether tile `k` is as good a step as tile `j`: one that faces the current
/// tile beats one that does not, then the nearer one beats the farther one, then
/// the one less aside, then the larger one, then the earlier one.
pub open spec fn as_good(
    tiles: Seq<(Rect, TargetModel)>,
    cur: Rect,
    dir: NavDir,
    k: int,
    j: int,
) -> bool {
    let c = seen(cur, dir);
    let v = seen(tiles[k].0, dir);
    let u = seen(tiles[j].0, dir);
    let size = tiles[k].0.width * tiles[k].0.height;
    let size_j = tiles[j].0.width * tiles[j].0.height;
    &&& faces(c, u) ==> faces(c, v)
    &&& faces(c, u) == faces(c, v) ==> {
        &&& v.0 <= u.0
        &&& v.0 == u.0 && !faces(c, v) ==> aside(c, v) <= aside(c, u)
        &&& v.0 == u.0 && (faces(c, v) || aside(c, v) == aside(c, u)) ==> {
            &&& size >= size_j
            &&& size == size_j ==> k <= j
        }
    }
}

proof fn lemma_seen(cur: Rect, r: Rect, dir: NavDir)
    ensures
        edge(cur, r, dir) == seen(r, dir).0 - seen(cur, dir).1,
        overlap(cur, r, dir) > 0 <==> faces(seen(cur, dir), seen(r, dir)),
        overlap(cur, r, dir) <= 0 ==> gap(cur, r, dir) == aside(seen(cur, dir), seen(r, dir)) || {
            let c = seen(cur, dir);
            let v = seen(r, dir);
            c.2 == c.3 || v.2 == v.3
        },
        overlap(cur, r, dir) > 0 ==> gap(cur, r, dir) == 0,
{
    let c = seen(cur, dir);
    let v = seen(r, dir);
    if overlap(cur, r, dir) > 0 {
        let at = if c.2 > v.2 {
            c.2
        } else {
            v.2
        };
        assert(reaches(c, at) && reaches(v, at));
    }
    if faces(c, v) {
        let at = choose|at: int| #[trigger] reaches(c, at) && reaches(v, at);
        assert(reaches(c, at) && reaches(v, at));
    }
}

proof fn lemma_first_best(
    tiles: Seq<(Rect, TargetModel)>,
    t: TargetModel,
    cur: Rect,
    dir: NavDir,
    n: int,
)
    requires
        0 <= n <= tiles.len(),
    ensures
        best_tile(tiles, t, cur, dir, n) is Some ==> {
            let k = best_tile(tiles, t, cur, dir, n)->0;
            forall|j: int|
                0 <= j < k && reachable(#[trigger] tiles[j], t, cur, dir) ==> better(
                    cur,
                    dir,
                    tiles[k].0,
                    tiles[j].0,
                )
        },
    decreases n,
{
    if n > 0 {
        lemma_first_best(tiles, t, cur, dir, n - 1);
        navigation_takes_the_best_step(tiles, t, cur, dir, n - 1);
        let best = best_tile(tiles, t, cur, dir, n - 1);
        if best_tile(tiles, t, cur, dir, n) == Some(n - 1) && best is Some {
            let b = best->0;
            assert forall|j: int|
                0 <= j < n - 1 && reachable(#[trigger] tiles[j], t, cur, dir) implies better(
                cur,
                dir,
                tiles[n - 1].0,
                tiles[j].0,
            ) by {
                assert(!better(cur, dir, tiles[j].0, tiles[b].0));
            }
        }
    }
}

/// The selection moves to the nearest tile in the direction: a tile ahead that
/// faces the current one where there is such a tile, and of those the one whose
/// edge is nearest. It stays where no tile lies ahead. Nothing else changes.
pub proof fn navigation_goes_to_the_nearest(m: AppModel, dir: NavDir, at: int)
    requires
        m.selected is Some,
        0 <= at < m.last_tiles.len(),
        same_target(m.last_tiles[at].1, m.selected->0),
        forall|j: int|
            0 <= j < at ==> !same_target((#[trigger] m.last_tiles[j]).1, m.selected->0),
        forall|j: int|
            0 <= j < m.last_tiles.len() ==> (#[trigger] m.last_tiles[j]).0.width > 0
                && m.last_tiles[j].0.height > 0,
    ensures
        ({
            let tiles = m.last_tiles;
            let cur = tiles[at].0;
            let now = m.navigated(dir);
            &&& now == (AppModel { selected: now.selected, ..m })
            &&& (forall|j: int|
                0 <= j < tiles.len() ==> !ahead(#[trigger] tiles[j], m.selected->0, cur, dir))
                ==> now.selected == m.selected
            &&& (exists|j: int|
                0 <= j < tiles.len() && ahead(#[trigger] tiles[j], m.selected->0, cur, dir))
                ==> exists|k: int|
                #![trigger tiles[k]]
                {
                    &&& 0 <= k < tiles.len()
                    &&& now.selected == Some(tiles[k].1)
                    &&& ahead(tiles[k], m.selected->0, cur, dir)
                    &&& forall|j: int|
                        0 <= j < tiles.len() && ahead(#[trigger] tiles[j], m.selected->0, cur, dir)
                            ==> as_good(tiles, cur, dir, k, j)
                }
        }),
{
    let tiles = m.last_tiles;
    let t = m.selected->0;
    let cur = tiles[at].0;
    let n = tiles.len() as int;
    lemma_target_at(tiles, t, 0, at);
    navigation_takes_the_best_step(tiles, t, cur, dir, n);
    lemma_first_best(tiles, t, cur, dir, n);
    assert forall|j: int| 0 <= j < n implies reachable(#[trigger] tiles[j], t, cur, dir) == ahead(
        tiles[j],
        t,
        cur,
        dir,
    ) by {
        lemma_seen(cur, tiles[j].0, dir);
    }
    if exists|j: int| 0 <= j < n && ahead(#[trigger] tiles[j], t, cur, dir) {
        let j = choose|j: int| 0 <= j < n && ahead(#[trigger] tiles[j], t, cur, dir);
        assert(reachable(tiles[j], t, cur, dir));
        let k = best_tile(tiles, t, cur, dir, n)->0;
        lemma_seen(cur, tiles[k].0, dir);
        assert forall|j: int| 0 <= j < n && ahead(#[trigger] tiles[j], t, cur, dir) implies as_good(
            tiles,
            cur,
            dir,
            k,
            j,
        ) by {
            assert(reachable(tiles[j], t, cur, dir));
            lemma_seen(cur, tiles[j].0, dir);
            assert(!better(cur, dir, tiles[j].0, tiles[k].0));
            if j < k {
                assert(better(cur, dir, tiles[k].0, tiles[j].0));
            }
        }
        assert(tiles[k] == tiles[k]);
    }
}

proof fn lemma_target_at(tiles: Seq<(Rect, TargetModel)>, t: TargetModel, i: int, at: int)
    requires
        0 <= i <= at <= tiles.len(),
        at < tiles.len() ==> same_target(tiles[at].1, t),
        forall|j: int| i <= j < at ==> !same_target((#[trigger] tiles[j]).1, t),
    ensures
        target_at(tiles, t, i) == at,
    decreases at - i,
{
    if i < at {
        lemma_target_at(tiles, t, i + 1, at);
    }
}

/// Without a selection, or where what is selected has no tile, the first tile
/// is selected; without tiles nothing happens.
pub proof fn navigation_starts_at_the_first_tile(m: AppModel, dir: NavDir)
    ensures
        m.last_tiles.len() == 0 ==> m.navigated(dir) == m,
        m.last_tiles.len() > 0 && (m.selected is None || forall|j: int|
            0 <= j < m.last_tiles.len() ==> !same_target(
                (#[trigger] m.last_tiles[j]).1,
                m.selected->0,
            )) ==> m.navigated(dir) == (AppModel { selected: Some(m.last_tiles[0].1), ..m }),
{
    if m.last_tiles.len() > 0 && m.selected is Some && forall|j: int|
        0 <= j < m.last_tiles.len() ==> !same_target(
            (#[trigger] m.last_tiles[j]).1,
            m.selected->0,
        ) {
        lemma_target_at(m.last_tiles, m.selected->0, 0, m.last_tiles.len() as int);
    }
}

/// A rectangle in a picture of `width` columns, as its mirror image shows it.
pub open spec fn mirrored(r: Rect, width: u16) -> Rect {
    Rect { left: (width - r.left - r.width) as u16, ..r }
}

/// A rectangle with rows and columns exchanged.
pub open spec fn transposed(r: Rect) -> Rect {
    Rect { top: r.left, left: r.top, width: r.height, height: r.width }
}

/// Tiles with other rectangles.
pub open spec fn with_rects(
    tiles: Seq<(Rect, TargetModel)>,
    f: spec_fn(Rect) -> Rect,
) -> Seq<(Rect, TargetModel)> {
    tiles.map_values(|e: (Rect, TargetModel)| (f(e.0), e.1))
}

/// The opposite direction from side to side.
pub open spec fn mirrored_dir(dir: NavDir) -> NavDir {
    match dir {
        NavDir::Left => NavDir::Right,
        NavDir::Right => NavDir::Left,
        NavDir::Up => NavDir::Up,
        NavDir::Down => NavDir::Down,
    }
}

/// The direction with rows and columns exchanged.
pub open spec fn transposed_dir(dir: NavDir) -> NavDir {
    match dir {
        NavDir::Left => NavDir::Up,
        NavDir::Right => NavDir::Down,
        NavDir::Up => NavDir::Left,
        NavDir::Down => NavDir::Right,
    }
}

proof fn lemma_same_steps(
    a: Seq<(Rect, TargetModel)>,
    b: Seq<(Rect, TargetModel)>,
    t: TargetModel,
    at: int,
    da: NavDir,
    db: NavDir,
    n: int,
)
    requires
        0 <= n <= a.len() == b.len(),
        0 <= at < a.len(),
        forall|j: int| 0 <= j < a.len() ==> (#[trigger] a[j]).1 == b[j].1,
        forall|j: int|
            0 <= j < a.len() ==> {
                &&& edge(a[at].0, (#[trigger] a[j]).0, da) == edge(b[at].0, b[j].0, db)
                &&& overlap(a[at].0, a[j].0, da) == overlap(b[at].0, b[j].0, db)
                &&& gap(a[at].0, a[j].0, da) == gap(b[at].0, b[j].0, db)
                &&& a[j].0.width * a[j].0.height == b[j].0.width * b[j].0.height
            },
    ensures
        best_tile(a, t, a[at].0, da, n) == best_tile(b, t, b[at].0, db, n),
        best_tile(a, t, a[at].0, da, n) is Some ==> 0 <= best_tile(a, t, a[at].0, da, n)->0 < n,
    decreases n,
{
    if n > 0 {
        lemma_same_steps(a, b, t, at, da, db, n - 1);
        let best = best_tile(a, t, a[at].0, da, n - 1);
        assert(a[n - 1].1 == b[n - 1].1);
        if best is Some {
            assert(a[best->0].1 == b[best->0].1);
        }
    }
}

proof fn lemma_same_targets(
    a: Seq<(Rect, TargetModel)>,
    b: Seq<(Rect, TargetModel)>,
    t: TargetModel,
    i: int,
)
    requires
        0 <= i <= a.len() == b.len(),
        forall|j: int| 0 <= j < a.len() ==> (#[trigger] a[j]).1 == b[j].1,
    ensures
        target_at(a, t, i) == target_at(b, t, i),
        i <= target_at(a, t, i) <= a.len(),
    decreases a.len() - i,
{
    if i < a.len() {
        assert(a[i].1 == b[i].1);
        lemma_same_targets(a, b, t, i + 1);
    }
}

/// Going left in a picture is going right in its mirror image, and going down is
/// going right with rows and columns exchanged.
pub proof fn navigation_is_symmetric(m: AppModel, dir: NavDir, width: u16)
    requires
        forall|j: int|
            0 <= j < m.last_tiles.len() ==> (#[trigger] m.last_tiles[j]).0.left
                + m.last_tiles[j].0.width <= width,
    ensures
        ({
            let mirror = AppModel {
                last_tiles: with_rects(m.last_tiles, |r: Rect| mirrored(r, width)),
                ..m
            };
            mirror.navigated(mirrored_dir(dir)).selected == m.navigated(dir).selected
        }),
        ({
            let turned = AppModel {
                last_tiles: with_rects(m.last_tiles, |r: Rect| transposed(r)),
                ..m
            };
            turned.navigated(transposed_dir(dir)).selected == m.navigated(dir).selected
        }),
{
    let a = m.last_tiles;
    let b = with_rects(a, |r: Rect| mirrored(r, width));
    let c = with_rects(a, |r: Rect| transposed(r));
    if a.len() > 0 && m.selected is Some {
        let t = m.selected->0;
        lemma_same_targets(a, b, t, 0);
        lemma_same_targets(a, c, t, 0);
        let at = target_at(a, t, 0);
        if at < a.len() {
            assert forall|j: int| 0 <= j < a.len() implies {
                &&& edge(a[at].0, (#[trigger] a[j]).0, dir) == edge(
                    b[at].0,
                    b[j].0,
                    mirrored_dir(dir),
                )
                &&& overlap(a[at].0, a[j].0, dir) == overlap(b[at].0, b[j].0, mirrored_dir(dir))
                &&& gap(a[at].0, a[j].0, dir) == gap(b[at].0, b[j].0, mirrored_dir(dir))
                &&& a[j].0.width * a[j].0.height == b[j].0.width * b[j].0.height
                &&& edge(a[at].0, a[j].0, dir) == edge(c[at].0, c[j].0, transposed_dir(dir))
                &&& overlap(a[at].0, a[j].0, dir) == overlap(c[at].0, c[j].0, transposed_dir(dir))
                &&& gap(a[at].0, a[j].0, dir) == gap(c[at].0, c[j].0, transposed_dir(dir))
                &&& a[j].0.width * a[j].0.height == c[j].0.width * c[j].0.height
            } by {
                let w = a[j].0.width;
                let h = a[j].0.height;
                assert(w * h == h * w) by (nonlinear_arith);
                assert(a[at].0.left + a[at].0.width <= width);
                assert(a[j].0.left + a[j].0.width <= width);
            }
            lemma_same_steps(a, b, t, at, dir, mirrored_dir(dir), a.len() as int);
            lemma_same_steps(a, c, t, at, dir, transposed_dir(dir), a.len() as int);
        }
    }
}

/// What a click hits is the last tile that covers the cell; nothing is hit
/// where no tile does.
pub proof fn hit_is_topmost(tiles: Seq<(Rect, TargetModel)>, n: int, row: int, col: int)
    requires
        0 <= n <= tiles.len(),
    ensures
        ({
            let k = tile_at(tiles, n, row, col);
            &&& -1 <= k < n
            &&& k >= 0 ==> tiles[k].0.covers(row, col)
            &&& forall|j: int| k < j < n ==> !(#[trigger] tiles[j]).0.covers(row, col)
        }),
    decreases n,
{
    if n > 0 && !tiles[n - 1].0.covers(row, col) {
        hit_is_topmost(tiles, n - 1, row, col);
    }
}

/// Going up after entering a folder of the one that is shown leads back to it.
pub proof fn up_undoes_enter(app: AppModel, name: Seq<char>)
    requires
        app.selected == Some(TargetModel::Folder(app.current_path.push(name))),
    ensures
        app.entered().current_path == app.current_path.push(name),
        app.entered().above().current_path == app.current_path,
        app.entered().above().folder() == app.folder(),
{
    assert(app.current_path.push(name).drop_last() =~= app.current_path);
}

/// Switching the view three times leads back to it.
pub proof fn three_toggles_restore_the_view(app: AppModel)
    ensures
        app.toggled().toggled().toggled().view == app.view,
        app.toggled().view != app.view,
{
    view::views_cycle(app.view);
}

/// Only the first end of the scan counts; from then on the clock stands still.
pub proof fn first_end_counts(app: AppModel, a: Span, b: Span, now: Span, later: Span)
    requires
        !app.done,
    ensures
        app.finished(a).finished(b) == app.finished(a),
        app.finished(a).elapsed(now) == app.finished(a).elapsed(later),
{
}

/// Each place in the ranking holds one of the languages, none is left out, and
/// none has more lines than the one before it.
pub proof fn ranking_is_by_lines(s: Seq<(Seq<char>, LangStats)>, i: int, j: int)
    requires
        s.len() <= usize::MAX,
        0 <= i <= j < s.len(),
    ensures
        ranked_of(s).len() == s.len(),
        s.contains(ranked_of(s)[i]),
        ranked_of(s).contains(s[i]),
        ranked_of(s)[i].1.lines >= ranked_of(s)[j].1.lines,
{
    let keys = stat_lines(s);
    let p = order::ranking(keys);
    order::lemma_ranking_exists(keys);
    assert(p[i] < s.len());
    assert(s[p[i] as int] == ranked_of(s)[i]);
    order::lemma_ranking_covers(keys, p, i);
    let k = choose|k: int| 0 <= k < p.len() && p[k] == i;
    assert(ranked_of(s)[k] == s[i]);
    if i < j {
        assert(order::before(keys, p[i] as int, p[j] as int));
    }
    assert(p[j] < s.len());
}

/// The entry that is selected first has lines, and none has more.
pub proof fn largest_entry_is_largest(cs: Seq<(Seq<char>, NodeModel)>)
    ensures
        largest_entry(cs) is None ==> forall|i: int|
            0 <= i < cs.len() ==> tree::node_lines((#[trigger] cs[i]).1) <= 0,
        largest_entry(cs) is Some ==> {
            let e = largest_entry(cs)->0;
            &&& cs.contains(e)
            &&& tree::node_lines(e.1) > 0
            &&& forall|i: int|
                0 <= i < cs.len() ==> tree::node_lines((#[trigger] cs[i]).1) <= tree::node_lines(e.1)
        },
    decreases cs.len(),
{
    if cs.len() > 0 {
        let before = cs.drop_last();
        largest_entry_is_largest(before);
        assert(cs[cs.len() - 1] == cs.last());
        assert(forall|i: int| 0 <= i < before.len() ==> #[trigger] cs[i] == before[i]);
        if let Some(e) = largest_entry(before) {
            let k = before.index_of(e);
            assert(cs[k] == e);
        }
    }
}

/// After a file changed, what was counted of it before no longer counts, and
/// the other files count as they did.
pub proof fn upserting_replaces(app: AppModel, p: Seq<u8>, r: FileRecord)
    requires
        app.wf(),
        app.forgotten(p).has_room(r.lines, r.bytes),
    ensures
        ({
            let k = path::parts(p);
            let now = app.upserted(p, r);
            let was = if app.files.contains_key(k) {
                (1int, app.files[k].lines as int, app.files[k].bytes as int)
            } else {
                (0int, 0int, 0int)
            };
            &&& now.wf()
            &&& now.files == app.files.insert(k, r)
            &&& now.total_files == app.total_files - was.0 + 1
            &&& now.total_lines == app.total_lines - was.1 + r.lines
            &&& now.total_bytes == app.total_bytes - was.2 + r.bytes
        }),
{
    forgotten_is_wf(app, p);
    added_is_wf(app.forgotten(p), p, r);
    assert(app.upserted(p, r).files =~= app.files.insert(path::parts(p), r));
}

/// Of several changes of a file only the last one counts.
pub proof fn last_change_counts(app: AppModel, p: Seq<u8>, a: FileRecord, b: FileRecord)
    requires
        app.wf(),
        app.forgotten(p).has_room(a.lines, a.bytes),
    ensures
        ({
            let twice = app.upserted(p, a).upserted(p, b);
            let once = app.upserted(p, b);
            &&& twice.stats == once.stats
            &&& twice.files == once.files
            &&& twice.total_files == once.total_files
            &&& twice.total_lines == once.total_lines
            &&& twice.total_bytes == once.total_bytes
        }),
{
    let bare = app.forgotten(p);
    forgotten_is_wf(app, p);
    added_is_wf(bare, p, a);
    ledger::uncounting_undoes_counting(bare.stats, a);
    assert(app.upserted(p, a).forgotten(p).files =~= bare.files);
    assert(app.upserted(p, a).upserted(p, b).files =~= app.upserted(p, b).files);
}

/// A file that is counted at a new place stands in the tree under its names,
/// with its language and lines, whatever its size; the tree has its lines and
/// one file more, and all other files stand where they stood. A file without
/// lines leaves the tree as it is. Nothing else changes but the counts.
pub proof fn recorded_files_are_in_the_tree(
    app: AppModel,
    p: Seq<u8>,
    r: FileRecord,
    nanos: u64,
    other: Seq<Seq<char>>,
)
    requires
        app.wf(),
        app.has_room(r.lines, r.bytes),
        app.bench.fits(nanos),
        tree::names_in(app.root, p).len() > 0,
        tree::fresh(app.tree, tree::names_in(app.root, p), 0),
    ensures
        ({
            let names = tree::names_in(app.root, p);
            let file = FileModel { path: p, lang: r.lang.name(), lines: r.lines };
            let now = app.recorded(p, r, nanos);
            &&& r.lines > 0 ==> tree::leads_to(
                NodeModel::Folder(now.tree),
                names,
                NodeModel::File(file),
            )
            &&& r.lines > 0 ==> now.tree.total_lines == app.tree.total_lines + r.lines
            &&& r.lines > 0 ==> now.tree.total_files == app.tree.total_files + 1
            &&& r.lines == 0 ==> now.tree == app.tree
            &&& other != names ==> tree::found(now.tree, other, 0) == tree::found(
                app.tree,
                other,
                0,
            )
            &&& tree::exact(app.tree) ==> tree::exact(now.tree)
            &&& now.files == app.files.insert(path::parts(p), r)
            &&& now.total_files == app.total_files + 1
            &&& now.total_lines == app.total_lines + r.lines
            &&& now.total_bytes == app.total_bytes + r.bytes
            &&& now.last_path == Some(p)
            &&& now.stats_dirty && now.items_dirty
            &&& now == (AppModel {
                stats: now.stats,
                tree: now.tree,
                files: now.files,
                bench: now.bench,
                total_files: now.total_files,
                total_lines: now.total_lines,
                total_bytes: now.total_bytes,
                last_path: now.last_path,
                stats_dirty: now.stats_dirty,
                items_dirty: now.items_dirty,
                ..app
            })
        }),
{
    let names = tree::names_in(app.root, p);
    let file = FileModel { path: p, lang: r.lang.name(), lines: r.lines };
    let now = app.recorded(p, r, nanos);
    if r.lines > 0 {
        tree::lemma_inserted_wf(app.tree, names, 0, file);
        tree::inserted_adds_one_file(app.tree, names, 0, file, names);
        tree::inserted_adds_one_file(app.tree, names, 0, file, other);
        tree::names_lead_to_the_file(now.tree, names, 0, file);
        assert(names.skip(0) =~= names);
        if tree::exact(app.tree) {
            tree::inserted_stays_exact(app.tree, names, 0, file);
        }
    }
}

/// A file that is forgotten stands nowhere in the tree, and all other files
/// stand where they stood. One that was not counted changes nothing.
pub proof fn forgotten_files_leave_the_tree(app: AppModel, p: Seq<u8>, other: Seq<Seq<char>>)
    requires
        app.wf(),
        tree::names_in(app.root, p).len() > 0,
    ensures
        ({
            let names = tree::names_in(app.root, p);
            let k = path::parts(p);
            let now = app.forgotten(p);
            &&& !app.files.contains_key(k) ==> now == app
            &&& app.files.contains_key(k) ==> tree::found(now.tree, names, 0) is None
            &&& app.files.contains_key(k) ==> now.files == app.files.remove(k)
            &&& other != names ==> tree::found(now.tree, other, 0) == tree::found(
                app.tree,
                other,
                0,
            )
        }),
{
    let names = tree::names_in(app.root, p);
    if app.files.contains_key(path::parts(p)) && tree::found(app.tree, names, 0) is Some {
        tree::removed_takes_one_file(app.tree, names, 0, names);
        tree::removed_takes_one_file(app.tree, names, 0, other);
    }
}

/// A file that changed stands in the tree as it is now, if it has lines, and
/// nowhere if it has none; all other files stand where they stood.
pub proof fn changed_files_are_in_the_tree(
    app: AppModel,
    p: Seq<u8>,
    r: FileRecord,
    other: Seq<Seq<char>>,
)
    requires
        app.wf(),
        app.forgotten(p).has_room(r.lines, r.bytes),
        app.files.contains_key(path::parts(p)),
        tree::names_in(app.root, p).len() > 0,
        tree::clear_way(app.forgotten(p).tree, tree::names_in(app.root, p), 0),
    ensures
        ({
            let names = tree::names_in(app.root, p);
            let file = FileModel { path: p, lang: r.lang.name(), lines: r.lines };
            let now = app.upserted(p, r);
            &&& r.lines > 0 ==> tree::leads_to(
                NodeModel::Folder(now.tree),
                names,
                NodeModel::File(file),
            )
            &&& r.lines == 0 ==> tree::found(now.tree, names, 0) is None
            &&& names.len() == other.len() && other != names ==> tree::found(now.tree, other, 0)
                == tree::found(app.tree, other, 0)
        }),
{
    let names = tree::names_in(app.root, p);
    let file = FileModel { path: p, lang: r.lang.name(), lines: r.lines };
    let less = app.forgotten(p);
    let now = app.upserted(p, r);
    forgotten_is_wf(app, p);
    forgotten_files_leave_the_tree(app, p, other);
    if r.lines > 0 {
        tree::lemma_inserted_wf(less.tree, names, 0, file);
        tree::inserted_is_found(less.tree, names, 0, file);
        tree::names_lead_to_the_file(now.tree, names, 0, file);
        assert(names.skip(0) =~= names);
        if names.len() == other.len() && other != names {
            let k = tree::lemma_first_difference(names, other);
            tree::inserted_leaves_others(less.tree, names, 0, file, other, k);
        }
    }
}

/// The state after files were counted by the scan one after the other.
pub open spec fn recorded_all(app: AppModel, rs: Seq<(Seq<u8>, FileRecord, u64)>) -> AppModel
    decreases rs.len(),
{
    if rs.len() == 0 {
        app
    } else {
        let r = rs.last();
        recorded_all(app, rs.drop_last()).recorded(r.0, r.1, r.2)
    }
}

/// Whether all files fit when they are counted one after the other.
pub open spec fn all_fit(app: AppModel, rs: Seq<(Seq<u8>, FileRecord, u64)>) -> bool
    decreases rs.len(),
{
    rs.len() == 0 || (all_fit(app, rs.drop_last()) && recorded_all(app, rs.drop_last()).has_room(
        rs.last().1.lines,
        rs.last().1.bytes,
    ) && recorded_all(app, rs.drop_last()).bench.fits(rs.last().2))
}

/// The number of files, and their lines and bytes.
pub open spec fn counts_in(rs: Seq<(Seq<u8>, FileRecord, u64)>) -> (int, int, int)
    decreases rs.len(),
{
    if rs.len() == 0 {
        (0, 0, 0)
    } else {
        ledger::plus(
            counts_in(rs.drop_last()),
            (1, rs.last().1.lines as int, rs.last().1.bytes as int),
        )
    }
}

/// The number of files of a language, and their lines and bytes.
pub open spec fn shares_in(rs: Seq<(Seq<u8>, FileRecord, u64)>, lang: Seq<char>) -> (int, int, int)
    decreases rs.len(),
{
    if rs.len() == 0 {
        (0, 0, 0)
    } else {
        ledger::plus(shares_in(rs.drop_last(), lang), ledger::share(rs.last().1, lang))
    }
}

/// However many files are counted, the totals and the count of every language
/// grow by what those files add up to.
#[verifier::rlimit(60)]
#[verifier::spinoff_prover]
pub proof fn recordings_add_up(
    app: AppModel,
    rs: Seq<(Seq<u8>, FileRecord, u64)>,
    lang: Seq<char>,
)
    requires
        app.wf(),
        all_fit(app, rs),
    ensures
        ({
            let now = recorded_all(app, rs);
            let sum = counts_in(rs);
            &&& now.wf()
            &&& now.total_files == app.total_files + sum.0
            &&& now.total_lines == app.total_lines + sum.1
            &&& now.total_bytes == app.total_bytes + sum.2
            &&& ledger::stat_of(now.stats, lang) == ledger::plus(
                ledger::stat_of(app.stats, lang),
                shares_in(rs, lang),
            )
        }),
    decreases rs.len(),
{
    if rs.len() > 0 {
        let before = recorded_all(app, rs.drop_last());
        let r = rs.last();
        recordings_add_up(app, rs.drop_last(), lang);
        added_is_wf(before, r.0, r.1);
        ledger::lemma_stat_counted(before.stats, r.1);
    }
}

/// How many files have lines.
pub open spec fn with_lines(rs: Seq<(Seq<u8>, FileRecord, u64)>) -> int
    decreases rs.len(),
{
    if rs.len() == 0 {
        0
    } else {
        with_lines(rs.drop_last()) + if rs.last().1.lines > 0 {
            1int
        } else {
            0int
        }
    }
}

/// After a whole scan the tree has all lines that were counted, and every file
/// that has lines; and below the root no file is lost.
pub proof fn scanned_lines_are_in_the_tree(
    root: Seq<u8>,
    started: Span,
    rs: Seq<(Seq<u8>, FileRecord, u64)>,
)
    requires
        started.wf(),
        all_fit(AppModel::initial(root, started), rs),
        forall|k: int| 0 <= k < rs.len() ==> tree::names_in(root, (#[trigger] rs[k]).0).len() > 0,
    ensures
        ({
            let now = recorded_all(AppModel::initial(root, started), rs);
            &&& now.tree.total_lines == now.total_lines
            &&& now.total_lines == counts_in(rs).1
            &&& now.tree.total_files == with_lines(rs)
            &&& now.total_files == rs.len()
            &&& now.root == root
            &&& now.wf()
        }),
    decreases rs.len(),
{
    let start = AppModel::initial(root, started);
    initial_is_wf(root, started);
    recordings_add_up(start, rs, seq![]);
    if rs.len() > 0 {
        let less = rs.drop_last();
        let before = recorded_all(start, less);
        assert forall|k: int| 0 <= k < less.len() implies tree::names_in(
            root,
            (#[trigger] less[k]).0,
        ).len() > 0 by {
            assert(less[k] == rs[k]);
        }
        scanned_lines_are_in_the_tree(root, started, less);
        let r = rs[rs.len() - 1];
        assert(tree::names_in(root, r.0).len() > 0);
        assert(before.root == root);
    }
}

/// Whether each file is new when it is counted.
pub open spec fn all_new(app: AppModel, rs: Seq<(Seq<u8>, FileRecord, u64)>) -> bool
    decreases rs.len(),
{
    rs.len() == 0 || {
        let names = tree::names_in(app.root, rs.last().0);
        &&& all_new(app, rs.drop_last())
        &&& names.len() > 0
        &&& tree::fresh(recorded_all(app, rs.drop_last()).tree, names, 0)
    }
}

/// Every file of a scan that has lines stands in the tree under its names, with
/// its language and its lines; where nothing was counted nothing stands.
pub proof fn no_scanned_file_is_lost(
    app: AppModel,
    rs: Seq<(Seq<u8>, FileRecord, u64)>,
    names: Seq<Seq<char>>,
    file: FileModel,
)
    requires
        app.wf(),
        all_fit(app, rs),
        all_new(app, rs),
    ensures
        recorded_all(app, rs).wf(),
        recorded_all(app, rs).root == app.root,
        tree::found(recorded_all(app, rs).tree, names, 0) == Some(file) <==> tree::found(
            app.tree,
            names,
            0,
        ) == Some(file) || in_scan(app.root, rs, names, file),
    decreases rs.len(),
{
    if rs.len() > 0 {
        let less = rs.drop_last();
        let r = rs.last();
        let before = recorded_all(app, less);
        let own = tree::names_in(app.root, r.0);
        let f = FileModel { path: r.0, lang: r.1.lang.name(), lines: r.1.lines };
        no_scanned_file_is_lost(app, less, names, file);
        added_is_wf(before, r.0, r.1);
        recorded_files_are_in_the_tree(before, r.0, r.1, r.2, names);
        tree::lemma_fresh_not_found(before.tree, own, 0);
        if names == own && r.1.lines > 0 {
            tree::names_lead_to_the_file(recorded_all(app, rs).tree, own, 0, f);
            assert(own.skip(0) =~= own);
        }
        if in_scan(app.root, less, names, file) {
            let k = choose|k: int|
                0 <= k < less.len() && stands_for(app.root, #[trigger] less[k], names, file);
            assert(stands_for(app.root, rs[k], names, file));
        }
        if in_scan(app.root, rs, names, file) {
            let k = choose|k: int|
                0 <= k < rs.len() && stands_for(app.root, #[trigger] rs[k], names, file);
            if k < less.len() {
                assert(stands_for(app.root, less[k], names, file));
            }
        }
        if names == own && file == f && r.1.lines > 0 {
            assert(stands_for(app.root, rs[rs.len() - 1], names, file));
        }
    }
}

/// Whether a file that was counted has lines, and these names.
pub open spec fn stands_for(
    root: Seq<u8>,
    r: (Seq<u8>, FileRecord, u64),
    names: Seq<Seq<char>>,
    file: FileModel,
) -> bool {
    &&& tree::names_in(root, r.0) == names
    &&& r.1.lines > 0
    &&& file.path == r.0
    &&& file.lang == r.1.lang.name()
    &&& file.lines == r.1.lines
}

/// Whether one of the files of a scan has lines, and these names.
pub open spec fn in_scan(
    root: Seq<u8>,
    rs: Seq<(Seq<u8>, FileRecord, u64)>,
    names: Seq<Seq<char>>,
    file: FileModel,
) -> bool {
    exists|k: int| 0 <= k < rs.len() && stands_for(root, #[trigger] rs[k], names, file)
}

/// A file that came and went leaves the statistics, the totals and the other
/// files as they were; the tree has as many files and lines as before, and the
/// file is not found in it.
pub proof fn removing_undoes_recording(app: AppModel, p: Seq<u8>, r: FileRecord, nanos: u64)
    requires
        app.wf(),
        app.has_room(r.lines, r.bytes),
        app.bench.fits(nanos),
        !app.files.contains_key(path::parts(p)),
        tree::exact(app.tree),
        tree::names_in(app.root, p).len() > 0,
        tree::fresh(app.tree, tree::names_in(app.root, p), 0),
    ensures
        ({
            let now = app.recorded(p, r, nanos).forgotten(p);
            let names = tree::names_in(app.root, p);
            &&& now.wf()
            &&& now.stats == app.stats
            &&& now.files == app.files
            &&& now.total_files == app.total_files
            &&& now.total_lines == app.total_lines
            &&& now.total_bytes == app.total_bytes
            &&& now.tree.total_lines == app.tree.total_lines
            &&& now.tree.total_files == app.tree.total_files
            &&& tree::exact(now.tree)
            &&& tree::found(now.tree, names, 0) is None
        }),
{
    let names = tree::names_in(app.root, p);
    let then = app.recorded(p, r, nanos);
    added_is_wf(app, p, r);
    assert(then.wf());
    forgotten_is_wf(then, p);
    ledger::uncounting_undoes_counting(app.stats, r);
    assert(then.forgotten(p).files =~= app.files);
    let file = FileModel { path: p, lang: r.lang.name(), lines: r.lines };
    tree::lemma_fresh_not_found(app.tree, names, 0);
    if r.lines > 0 {
        tree::removing_undoes_inserting(app.tree, names, 0, file);
        tree::inserted_is_found(app.tree, names, 0, file);
    }
}

/// The file that is selected first has as many lines as any.
pub proof fn largest_file_is_largest(fs: Seq<FileModel>)
    ensures
        largest_file(fs) is None <==> fs.len() == 0,
        largest_file(fs) is Some ==> fs.contains(largest_file(fs)->0) && forall|i: int|
            0 <= i < fs.len() ==> (#[trigger] fs[i]).lines <= largest_file(fs)->0.lines,
    decreases fs.len(),
{
    if fs.len() > 0 {
        let before = fs.drop_last();
        largest_file_is_largest(before);
        assert(fs[fs.len() - 1] == fs.last());
        assert(forall|i: int| 0 <= i < before.len() ==> #[trigger] fs[i] == before[i]);
        if let Some(f) = largest_file(before) {
            let k = before.index_of(f);
            assert(fs[k] == f);
        }
    }
}

/// What is selected first stands in the folder that is shown: in the view of all
/// files a file below it, else a file or a folder in it, and none has more
/// lines. Without lines nothing is selected.
pub proof fn the_largest_is_selected_first(m: AppModel)
    ensures
        ({
            let cs = m.folder().children;
            let fs = tree::files_below(cs);
            let t = m.first_target();
            &&& m.view == view::View::Files && t is None ==> fs.len() == 0
            &&& m.view == view::View::Files && t is Some ==> exists|k: int|
                0 <= k < fs.len() && t == Some(TargetModel::File((#[trigger] fs[k]).path))
                    && forall|i: int| 0 <= i < fs.len() ==> (#[trigger] fs[i]).lines <= fs[k].lines
            &&& m.view != view::View::Files && t is None ==> forall|i: int|
                0 <= i < cs.len() ==> tree::node_lines((#[trigger] cs[i]).1) <= 0
            &&& m.view != view::View::Files && t is Some ==> exists|k: int|
                0 <= k < cs.len() && t == Some(
                    match (#[trigger] cs[k]).1 {
                        NodeModel::File(f) => TargetModel::File(f.path),
                        NodeModel::Folder(_) => TargetModel::Folder(m.current_path.push(cs[k].0)),
                    },
                ) && forall|i: int|
                    0 <= i < cs.len() ==> tree::node_lines((#[trigger] cs[i]).1)
                        <= tree::node_lines(cs[k].1)
        }),
{
    let cs = m.folder().children;
    let fs = tree::files_below(cs);
    largest_file_is_largest(fs);
    largest_entry_is_largest(cs);
    if m.view == view::View::Files {
        if let Some(f) = largest_file(fs) {
            let k = fs.index_of(f);
            assert(fs[k] == f);
        }
    } else if let Some(e) = largest_entry(cs) {
        let k = cs.index_of(e);
        assert(cs[k] == e);
    }
}

/// The header shows the scan root as it is, or, inside the home folder, what
/// follows the home folder after a tilde.
pub proof fn the_home_folder_is_a_tilde(home: Seq<u8>, root: Seq<u8>, e: Seq<u8>)
    requires
        home.len() > 0,
        path::is_name(e),
    ensures
        root_text(root, None) == text::shown_text(root),
        !path::parts(home).is_prefix_of(path::parts(root)) ==> root_text(root, Some(home))
            == text::shown_text(root),
        root_text(path::joined(home, e), Some(home)) == seq!['~', '/'] + text::shown_text(e),
{
    path::joining_adds_a_part(home, e);
    reveal_strlit("~/");
    assert("~/"@ =~= seq!['~', '/']);
    assert(e.len() > 0);
}

/// The names of the folders from the root to the one that is shown, a slash
/// before each.
pub proof fn each_name_follows_a_slash(names: Seq<Seq<char>>, name: Seq<char>, i: int)
    ensures
        names.len() == 0 ==> zoom_text(names).len() == 0,
        zoom_text(names.push(name)).len() == zoom_text(names).len() + 1 + name.len(),
        zoom_text(names).is_prefix_of(zoom_text(names.push(name))),
        zoom_text(names.push(name))[zoom_text(names).len() as int] == '/',
        0 <= i < name.len() ==> zoom_text(names.push(name))[zoom_text(names).len() + 1 + i]
            == name[i],
{
    assert(names.push(name).drop_last() =~= names);
}

/// The scan has taken the time from its start until it ended, or until now.
pub proof fn the_clock_runs_until_the_end(m: AppModel, now: Span)
    ensures
        m.finished_at is None && now.nanos >= m.started.nanos ==> m.started.nanos + m.elapsed(
            now,
        ).nanos == now.nanos,
        m.finished_at is Some && m.finished_at->0.nanos >= m.started.nanos ==> m.started.nanos
            + m.elapsed(now).nanos == m.finished_at->0.nanos,
        !m.done ==> m.finished(now).done && m.finished(now).finished_at == Some(now),
{
}

/// Of entries with as many lines, the last one is selected first, and so it is
/// with files.
pub proof fn the_last_of_equals_is_selected(
    cs: Seq<(Seq<char>, NodeModel)>,
    fs: Seq<FileModel>,
    k: int,
)
    ensures
        0 <= k < cs.len() && tree::node_lines(cs[k].1) > 0 && (forall|i: int|
            0 <= i < cs.len() ==> tree::node_lines((#[trigger] cs[i]).1) <= tree::node_lines(
                cs[k].1,
            ) && (i > k ==> tree::node_lines(cs[i].1) < tree::node_lines(cs[k].1)))
            ==> largest_entry(cs) == Some(cs[k]),
        0 <= k < fs.len() && (forall|i: int|
            0 <= i < fs.len() ==> (#[trigger] fs[i]).lines <= fs[k].lines && (i > k ==> fs[i].lines
                < fs[k].lines)) ==> largest_file(fs) == Some(fs[k]),
    decreases cs.len() + fs.len(),
{
    if cs.len() > 0 {
        let before = cs.drop_last();
        the_last_of_equals_is_selected(before, fs, k);
        largest_entry_is_largest(before);
        assert(cs.last() == cs[cs.len() - 1]);
        assert forall|i: int| 0 <= i < before.len() implies #[trigger] before[i] == cs[i] by {}
        if let Some(e) = largest_entry(before) {
            let j = before.index_of(e);
            assert(cs[j] == e);
        }
    }
    if fs.len() > 0 {
        let before = fs.drop_last();
        the_last_of_equals_is_selected(cs, before, k);
        largest_file_is_largest(before);
        assert(fs.last() == fs[fs.len() - 1]);
        assert forall|i: int| 0 <= i < before.len() implies #[trigger] before[i] == fs[i] by {}
        if let Some(f) = largest_file(before) {
            let j = before.index_of(f);
            assert(fs[j] == f);
        }
    }
}

} // verus!
