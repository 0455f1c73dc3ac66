//! What keys, the mouse and the size of the terminal do.

use vstd::prelude::*;

use crate::app;
use crate::app::{App, AppModel, NavDir, TargetModel, TileTarget};
use crate::path::FilePath;
use crate::tree;
use crate::tree::{FolderModel, NodeModel};
use crate::view;

verus! {

/// A key.
#[derive(Debug, Clone, Copy, PartialEq, Eq, Structural)]
pub enum Key {
    Char(char),
    Esc,
    Tab,
    Backspace,
    Enter,
    Left,
    Right,
    Up,
    Down,
    Other,
}

/// What the mouse did.
#[derive(Debug, Clone, Copy, PartialEq, Eq, Structural)]
pub enum MouseKind {
    LeftDown,
    RightDown,
    ScrollUp,
    ScrollDown,
    Other,
}

/// What came in from the terminal.
#[derive(Debug, Clone, Copy, PartialEq, Eq, Structural)]
pub enum Event {
    Key { key: Key, ctrl: bool, press: bool },
    Mouse { kind: MouseKind, column: u16, row: u16 },
    Resize { width: u16, height: u16 },
    Other,
}

/// What is to be done after an event.
#[derive(Debug)]
pub enum EventOutcome {
    Quit,
    Redraw,
    Ignored,
    OpenEditor(FilePath),
}

/// What is to be done after an event.
#[verifier::ext_equal]
pub enum OutcomeModel {
    Quit,
    Redraw,
    Ignored,
    OpenEditor(Seq<u8>),
}

impl EventOutcome {
    /// What is to be done.
    pub open spec fn model(self) -> OutcomeModel {
        match self {
            EventOutcome::Quit => OutcomeModel::Quit,
            EventOutcome::Redraw => OutcomeModel::Redraw,
            EventOutcome::Ignored => OutcomeModel::Ignored,
            EventOutcome::OpenEditor(p) => OutcomeModel::OpenEditor(p@),
        }
    }
}

/// Whether a key ends the program: `q`, or Ctrl-C or Ctrl-D.
pub open spec fn quits(key: Key, ctrl: bool) -> bool {
    key == Key::Char('q') || (ctrl && (key == Key::Char('c') || key == Key::Char('d')))
}

/// The direction in which a key moves the selection.
pub open spec fn direction(key: Key) -> Option<NavDir> {
    match key {
        Key::Left => Some(NavDir::Left),
        Key::Char('h') => Some(NavDir::Left),
        Key::Down => Some(NavDir::Down),
        Key::Char('j') => Some(NavDir::Down),
        Key::Up => Some(NavDir::Up),
        Key::Char('k') => Some(NavDir::Up),
        Key::Right => Some(NavDir::Right),
        Key::Char('l') => Some(NavDir::Right),
        _ => None,
    }
}

/// What a key does.
pub open spec fn keyed(m: AppModel, key: Key, ctrl: bool) -> (AppModel, OutcomeModel) {
    if quits(key, ctrl) {
        (m, OutcomeModel::Quit)
    } else if direction(key) is Some {
        (m.navigated(direction(key)->0), OutcomeModel::Redraw)
    } else {
        match key {
            Key::Esc => (
                if m.current_path.len() > 0 {
                    m.above()
                } else {
                    AppModel { selected: None, ..m }
                },
                OutcomeModel::Redraw,
            ),
            Key::Tab => (m.toggled(), OutcomeModel::Redraw),
            Key::Backspace => (m.above(), OutcomeModel::Redraw),
            Key::Enter => (m.entered(), OutcomeModel::Redraw),
            Key::Char('o') => match m.selected {
                Some(TargetModel::File(p)) => (m, OutcomeModel::OpenEditor(p)),
                _ => (m, OutcomeModel::Ignored),
            },
            _ => (m, OutcomeModel::Ignored),
        }
    }
}

/// What the mouse does: a left click on a folder enters it, a right click goes
/// up, and the wheel scrolls the list of languages.
pub open spec fn moused(m: AppModel, kind: MouseKind, column: u16, row: u16) -> (
    AppModel,
    OutcomeModel,
) {
    let hit = app::tile_at(m.last_tiles, m.last_tiles.len() as int, row as int, column as int);
    let on_legend = m.legend_rect.covers(row as int, column as int);
    match kind {
        MouseKind::LeftDown => if hit >= 0 && m.last_tiles[hit].1 is Folder {
            (
                AppModel {
                    current_path: m.last_tiles[hit].1->Folder_0,
                    items_dirty: true,
                    ..m
                },
                OutcomeModel::Redraw,
            )
        } else {
            (m, OutcomeModel::Ignored)
        },
        MouseKind::RightDown => (m.above(), OutcomeModel::Redraw),
        MouseKind::ScrollUp => if on_legend {
            (
                AppModel {
                    legend_scroll: if m.legend_scroll > 0 {
                        (m.legend_scroll - 1) as usize
                    } else {
                        0
                    },
                    ..m
                },
                OutcomeModel::Redraw,
            )
        } else {
            (m, OutcomeModel::Ignored)
        },
        MouseKind::ScrollDown => if on_legend {
            (
                AppModel {
                    legend_scroll: if m.legend_scroll < m.legend_max_scroll {
                        (m.legend_scroll + 1) as usize
                    } else {
                        m.legend_max_scroll
                    },
                    ..m
                },
                OutcomeModel::Redraw,
            )
        } else {
            (m, OutcomeModel::Ignored)
        },
        MouseKind::Other => (m, OutcomeModel::Ignored),
    }
}

/// The state after the terminal changed its size: where the tiles were is no
/// longer known.
pub open spec fn resized(m: AppModel) -> AppModel {
    AppModel { last_tiles: seq![], items_dirty: true, ..m }
}

/// What an event does.
pub open spec fn handled(m: AppModel, ev: Event) -> (AppModel, OutcomeModel) {
    match ev {
        Event::Key { key, ctrl, press } => if press {
            keyed(m, key, ctrl)
        } else {
            (m, OutcomeModel::Ignored)
        },
        Event::Mouse { kind, column, row } => moused(m, kind, column, row),
        Event::Resize { .. } => (resized(m), OutcomeModel::Redraw),
        Event::Other => (m, OutcomeModel::Ignored),
    }
}

/// Acts on a key.
pub fn handle_key(app: &mut App, key: Key, ctrl: bool) -> (r: EventOutcome)
    requires
        old(app).model().tree.wf(),
    ensures
        (final(app).model(), r.model()) == keyed(old(app).model(), key, ctrl),
        final(app).files == old(app).files,
{
    match key {
        Key::Char(c) => {
            if c == 'q' || (ctrl && (c == 'c' || c == 'd')) {
                return EventOutcome::Quit;
            }
            if c == 'o' {
                return match &app.selected {
                    Some(TileTarget::File(p)) => EventOutcome::OpenEditor(p.clone()),
                    _ => EventOutcome::Ignored,
                };
            }
            if c == 'h' {
                app.navigate(NavDir::Left);
            } else if c == 'j' {
                app.navigate(NavDir::Down);
            } else if c == 'k' {
                app.navigate(NavDir::Up);
            } else if c == 'l' {
                app.navigate(NavDir::Right);
            } else {
                return EventOutcome::Ignored;
            }
        },
        Key::Esc => {
            if !app.up() {
                app.selected = None;
            }
        },
        Key::Tab => {
            app.toggle_view();
        },
        Key::Backspace => {
            let _ = app.up();
        },
        Key::Enter => {
            app.enter_selected();
        },
        Key::Left => {
            app.navigate(NavDir::Left);
        },
        Key::Down => {
            app.navigate(NavDir::Down);
        },
        Key::Up => {
            app.navigate(NavDir::Up);
        },
        Key::Right => {
            app.navigate(NavDir::Right);
        },
        Key::Other => {
            return EventOutcome::Ignored;
        },
    }
    EventOutcome::Redraw
}

/// Acts on the mouse.
pub fn handle_mouse(app: &mut App, kind: MouseKind, column: u16, row: u16) -> (r: EventOutcome)
    ensures
        (final(app).model(), r.model()) == moused(old(app).model(), kind, column, row),
        final(app).files == old(app).files,
{
    match kind {
        MouseKind::LeftDown => {
            let names = match app.hit(column, row) {
                Some(TileTarget::Folder(names)) => app::copy_names(names),
                _ => {
                    return EventOutcome::Ignored;
                },
            };
            app.current_path = names;
            app.mark_layout_dirty();
            EventOutcome::Redraw
        },
        MouseKind::RightDown => {
            let _ = app.up();
            EventOutcome::Redraw
        },
        MouseKind::ScrollUp => {
            if !app.legend_rect.contains(row, column) {
                return EventOutcome::Ignored;
            }
            app.legend_scroll = app.legend_scroll.saturating_sub(1);
            EventOutcome::Redraw
        },
        MouseKind::ScrollDown => {
            if !app.legend_rect.contains(row, column) {
                return EventOutcome::Ignored;
            }
            app.legend_scroll = if app.legend_scroll < app.legend_max_scroll {
                app.legend_scroll + 1
            } else {
                app.legend_max_scroll
            };
            EventOutcome::Redraw
        },
        MouseKind::Other => EventOutcome::Ignored,
    }
}

/// Acts on an event.
pub fn handle_event(app: &mut App, ev: Event) -> (r: EventOutcome)
    requires
        old(app).model().tree.wf(),
    ensures
        (final(app).model(), r.model()) == handled(old(app).model(), ev),
        final(app).files == old(app).files,
{
    match ev {
        Event::Key { key, ctrl, press } => if press {
            handle_key(app, key, ctrl)
        } else {
            EventOutcome::Ignored
        },
        Event::Mouse { kind, column, row } => handle_mouse(app, kind, column, row),
        Event::Resize { .. } => {
            app.last_tiles = Vec::new();
            app.mark_layout_dirty();
            proof {
                assert(app.model().last_tiles =~= seq![]);
            }
            EventOutcome::Redraw
        },
        Event::Other => EventOutcome::Ignored,
    }
}

/// Whether the terminal changes its size again from the `n`th event on.
pub open spec fn resizes_from(es: Seq<Event>, n: int) -> bool {
    exists|k: int| n <= k < es.len() && #[trigger] es[k] is Resize
}

/// The first `n` events, without the sizes that a later one replaces.
pub open spec fn coalesced(es: Seq<Event>, n: int) -> Seq<Event>
    decreases n,
{
    if n <= 0 {
        seq![]
    } else {
        let before = coalesced(es, n - 1);
        if es[n - 1] is Resize && resizes_from(es, n) {
            before
        } else {
            before.push(es[n - 1])
        }
    }
}

/// The events of one batch, without the sizes that a later one replaces. While
/// the window is dragged the terminal sends many sizes, and only the last is
/// worth a frame.
pub fn coalesce(events: &Vec<Event>) -> (r: Vec<Event>)
    ensures
        r@ == coalesced(events@, events@.len() as int),
{
    let ghost es = events@;
    let mut last: Option<usize> = None;
    let mut i: usize = events.len();
    while i > 0 && last.is_none()
        invariant
            i <= es.len(),
            es == events@,
            last is None ==> !resizes_from(es, i as int),
            last is Some ==> last->0 < es.len() && es[last->0 as int] is Resize && !resizes_from(
                es,
                last->0 + 1,
            ),
        decreases i,
    {
        i = i - 1;
        if let Event::Resize { .. } = events[i] {
            last = Some(i);
        }
    }
    let mut out: Vec<Event> = Vec::new();
    let mut n: usize = 0;
    while n < events.len()
        invariant
            n <= es.len(),
            es == events@,
            last is None ==> !resizes_from(es, 0),
            last is Some ==> last->0 < es.len() && es[last->0 as int] is Resize && !resizes_from(
                es,
                last->0 + 1,
            ),
            out@ == coalesced(es, n as int),
        decreases es.len() - n,
    {
        let ev = events[n];
        let replaced = match ev {
            Event::Resize { .. } => match last {
                Some(k) => {
                    proof {
                        if n < k {
                            assert(resizes_from(es, n + 1)) by {
                                assert(es[k as int] is Resize);
                            }
                        } else if n > k {
                            assert(es[n as int] is Resize);
                        }
                    }
                    n != k
                },
                None => {
                    proof {
                        assert(es[n as int] is Resize);
                    }
                    false
                },
            },
            _ => false,
        };
        if !replaced {
            out.push(ev);
        }
        n = n + 1;
    }
    out
}

/// Of the events that are kept at most one is a size, and it is the last one
/// that came; where a size came, one is kept.
pub proof fn only_the_last_size_counts(es: Seq<Event>, n: int)
    requires
        0 <= n <= es.len(),
    ensures
        forall|i: int, j: int|
            0 <= i < j < coalesced(es, n).len() && #[trigger] coalesced(es, n)[i] is Resize
                ==> !(#[trigger] coalesced(es, n)[j] is Resize),
        forall|i: int|
            0 <= i < coalesced(es, n).len() && #[trigger] coalesced(es, n)[i] is Resize ==> exists|
                k: int,
            |
                0 <= k < n && #[trigger] es[k] == coalesced(es, n)[i] && !resizes_from(es, k + 1),
        resizes_from(es, 0) && !resizes_from(es, n) ==> exists|i: int|
            0 <= i < coalesced(es, n).len() && #[trigger] coalesced(es, n)[i] is Resize,
    decreases n,
{
    if n > 0 {
        only_the_last_size_counts(es, n - 1);
        let before = coalesced(es, n - 1);
        let now = coalesced(es, n);
        let kept = !(es[n - 1] is Resize && resizes_from(es, n));
        assert forall|i: int| 0 <= i < now.len() && #[trigger] now[i] is Resize implies exists|
            k: int,
        |
            0 <= k < n && #[trigger] es[k] == now[i] && !resizes_from(es, k + 1) by {
            if i < before.len() {
                assert(now[i] == before[i]);
                let k = choose|k: int|
                    0 <= k < n - 1 && #[trigger] es[k] == before[i] && !resizes_from(es, k + 1);
                assert(es[k] == now[i]);
            } else {
                assert(es[n - 1] == now[i]);
            }
        }
        assert forall|i: int, j: int|
            0 <= i < j < now.len() && #[trigger] now[i] is Resize implies !(#[trigger] now[j]
            is Resize) by {
            if j < before.len() {
                assert(now[i] == before[i] && now[j] == before[j]);
            } else if now[j] is Resize {
                assert(now[i] == before[i]);
                let k = choose|k: int|
                    0 <= k < n - 1 && #[trigger] es[k] == before[i] && !resizes_from(es, k + 1);
                assert(es[n - 1] is Resize);
                assert(false);
            }
        }
        if resizes_from(es, 0) && !resizes_from(es, n) {
            if es[n - 1] is Resize {
                assert(now[now.len() - 1] == es[n - 1]);
            } else {
                assert(!resizes_from(es, n - 1)) by {
                    if resizes_from(es, n - 1) {
                        let k = choose|k: int| n - 1 <= k < es.len() && #[trigger] es[k] is Resize;
                        assert(n <= k);
                    }
                }
                let i = choose|i: int| 0 <= i < before.len() && #[trigger] before[i] is Resize;
                assert(now[i] == before[i]);
            }
        }
    }
}

/// The events that are not sizes.
pub open spec fn others(es: Seq<Event>) -> Seq<Event>
    decreases es.len(),
{
    if es.len() == 0 {
        seq![]
    } else if es.last() is Resize {
        others(es.drop_last())
    } else {
        others(es.drop_last()).push(es.last())
    }
}

/// Nothing but sizes is dropped, and the order stays.
pub proof fn other_events_are_kept(es: Seq<Event>, n: int)
    requires
        0 <= n <= es.len(),
    ensures
        others(coalesced(es, n)) == others(es.take(n)),
    decreases n,
{
    if n > 0 {
        other_events_are_kept(es, n - 1);
        let before = coalesced(es, n - 1);
        assert(es.take(n).drop_last() =~= es.take(n - 1));
        assert(es.take(n).last() == es[n - 1]);
        assert(before.push(es[n - 1]).drop_last() =~= before);
    } else {
        assert(es.take(n) =~= seq![]);
    }
}

/// What an event does leaves everything that was counted as it is, and a state
/// that is well formed stays so.
pub proof fn events_change_no_counts(m: AppModel, ev: Event)
    ensures
        ({
            let now = handled(m, ev).0;
            &&& now.tree == m.tree
            &&& now.stats == m.stats
            &&& now.files == m.files
            &&& now.bench == m.bench
            &&& now.total_files == m.total_files
            &&& now.total_lines == m.total_lines
            &&& now.total_bytes == m.total_bytes
            &&& m.wf() ==> now.wf()
        }),
{
}

/// A left click on a cell shows the folder that the topmost tile there stands
/// for, however deep it lies, and changes nothing else; Enter on the same folder
/// leads to the same place.
pub proof fn a_click_shows_the_folder(
    m: AppModel,
    column: u16,
    row: u16,
    k: int,
    names: Seq<Seq<char>>,
    shown: FolderModel,
)
    requires
        0 <= k < m.last_tiles.len(),
        m.last_tiles[k].1 == TargetModel::Folder(names),
        m.last_tiles[k].0.top <= row < m.last_tiles[k].0.top + m.last_tiles[k].0.height,
        m.last_tiles[k].0.left <= column < m.last_tiles[k].0.left + m.last_tiles[k].0.width,
        forall|j: int|
            k < j < m.last_tiles.len() ==> {
                let r = (#[trigger] m.last_tiles[j]).0;
                !(r.top <= row < r.top + r.height && r.left <= column < r.left + r.width)
            },
        m.tree.wf(),
        tree::leads_to(NodeModel::Folder(m.tree), names, NodeModel::Folder(shown)),
    ensures
        ({
            let (now, what) = handled(
                m,
                Event::Mouse { kind: MouseKind::LeftDown, column, row },
            );
            let picked = AppModel { selected: Some(TargetModel::Folder(names)), ..m };
            let (entered, _) = handled(
                picked,
                Event::Key { key: Key::Enter, ctrl: false, press: true },
            );
            &&& now.current_path == names
            &&& now.folder() == shown
            &&& what == OutcomeModel::Redraw
            &&& now == (AppModel { current_path: names, items_dirty: true, ..m })
            &&& entered.current_path == now.current_path
            &&& entered.folder() == shown
            &&& entered.items_dirty
        }),
{
    app::hit_is_topmost(m.last_tiles, m.last_tiles.len() as int, row as int, column as int);
    let hit = app::tile_at(m.last_tiles, m.last_tiles.len() as int, row as int, column as int);
    assert(m.last_tiles[k].0.covers(row as int, column as int));
    if hit > k {
        assert(m.last_tiles[hit].0.covers(row as int, column as int));
    }
    assert(hit == k);
    tree::names_lead_to_the_folder(m.tree, names, 0, shown);
    assert(names.skip(0) =~= names);
}

/// A left click where the topmost tile is a file, or where no tile is, does
/// nothing.
pub proof fn a_click_elsewhere_does_nothing(m: AppModel, column: u16, row: u16)
    requires
        forall|k: int|
            0 <= k < m.last_tiles.len() && (#[trigger] m.last_tiles[k]).1 is Folder ==> {
                let r = m.last_tiles[k].0;
                ||| !(r.top <= row < r.top + r.height && r.left <= column < r.left + r.width)
                ||| exists|j: int|
                    k < j < m.last_tiles.len() && {
                        let q = (#[trigger] m.last_tiles[j]).0;
                        q.top <= row < q.top + q.height && q.left <= column < q.left + q.width
                    }
            },
    ensures
        handled(m, Event::Mouse { kind: MouseKind::LeftDown, column, row }) == (
            m,
            OutcomeModel::Ignored,
        ),
{
    let n = m.last_tiles.len() as int;
    app::hit_is_topmost(m.last_tiles, n, row as int, column as int);
    let hit = app::tile_at(m.last_tiles, n, row as int, column as int);
    if hit >= 0 && m.last_tiles[hit].1 is Folder {
        assert(m.last_tiles[hit].0.covers(row as int, column as int));
        let j = choose|j: int|
            hit < j < n && {
                let q = (#[trigger] m.last_tiles[j]).0;
                q.top <= row < q.top + q.height && q.left <= column < q.left + q.width
            };
        assert(!m.last_tiles[j].0.covers(row as int, column as int));
    }
}

/// Whether two states differ at most in the folder that is shown, in what is
/// selected, and in whether the items are to be built again.
pub open spec fn moved_only(a: AppModel, b: AppModel) -> bool {
    b == (AppModel {
        current_path: b.current_path,
        selected: b.selected,
        items_dirty: b.items_dirty,
        ..a
    })
}

/// Escape, Backspace and the right button go up one level, to the folder that
/// holds the one that was shown; at the top they stay there, and Escape lets go
/// of what is selected.
pub proof fn going_up_shows_the_folder_around(m: AppModel, ctrl: bool, column: u16, row: u16)
    ensures
        ({
            let esc = handled(m, Event::Key { key: Key::Esc, ctrl, press: true });
            let back = handled(m, Event::Key { key: Key::Backspace, ctrl, press: true });
            let right = handled(m, Event::Mouse { kind: MouseKind::RightDown, column, row });
            let n = m.current_path.len();
            &&& esc.1 == OutcomeModel::Redraw && back.1 == OutcomeModel::Redraw && right.1
                == OutcomeModel::Redraw
            &&& moved_only(m, esc.0) && moved_only(m, back.0) && right.0 == back.0
            &&& n > 0 ==> esc.0 == back.0 && back.0.current_path.len() == n - 1
                && back.0.items_dirty && back.0.selected is None
            &&& forall|i: int|
                0 <= i < n - 1 ==> #[trigger] back.0.current_path[i] == m.current_path[i]
            &&& n == 0 ==> back.0 == m && esc.0 == (AppModel { selected: None, ..m })
        }),
{
}

/// A name of the folder that is shown is entered and left again: clicks and
/// keys go down as far as folders go, and each step up undoes one step down.
pub proof fn up_undoes_down(m: AppModel, names: Seq<Seq<char>>, ctrl: bool)
    requires
        names.len() > 0,
        names.drop_last() == m.current_path,
    ensures
        ({
            let picked = AppModel { selected: Some(TargetModel::Folder(names)), ..m };
            let down = handled(picked, Event::Key { key: Key::Enter, ctrl, press: true }).0;
            let up = handled(down, Event::Key { key: Key::Backspace, ctrl, press: true }).0;
            &&& down.current_path == names
            &&& up.current_path == m.current_path
            &&& up.tree == m.tree
            &&& up.folder() == m.folder()
        }),
{
}

/// Enter shows the folder that is selected, and selects the largest item in it;
/// with a file selected, or nothing, it does nothing.
pub proof fn enter_shows_the_folder(m: AppModel, ctrl: bool, names: Seq<Seq<char>>)
    ensures
        ({
            let (now, what) = handled(m, Event::Key { key: Key::Enter, ctrl, press: true });
            &&& what == OutcomeModel::Redraw
            &&& moved_only(m, now)
            &&& m.selected == Some(TargetModel::Folder(names)) ==> now.current_path == names
                && now.items_dirty && now.selected == now.first_target()
            &&& (m.selected is None || m.selected->0 is File) ==> now == m
        }),
{
}

/// The keys that move the selection: the arrows, and `h`, `j`, `k` and `l`.
pub proof fn keys_move_the_selection(m: AppModel, ctrl: bool)
    ensures
        handled(m, Event::Key { key: Key::Left, ctrl, press: true }) == (
            m.navigated(NavDir::Left),
            OutcomeModel::Redraw,
        ),
        handled(m, Event::Key { key: Key::Down, ctrl, press: true }) == (
            m.navigated(NavDir::Down),
            OutcomeModel::Redraw,
        ),
        handled(m, Event::Key { key: Key::Up, ctrl, press: true }) == (
            m.navigated(NavDir::Up),
            OutcomeModel::Redraw,
        ),
        handled(m, Event::Key { key: Key::Right, ctrl, press: true }) == (
            m.navigated(NavDir::Right),
            OutcomeModel::Redraw,
        ),
        handled(m, Event::Key { key: Key::Char('h'), ctrl, press: true }) == handled(
            m,
            Event::Key { key: Key::Left, ctrl, press: true },
        ),
        handled(m, Event::Key { key: Key::Char('j'), ctrl, press: true }) == handled(
            m,
            Event::Key { key: Key::Down, ctrl, press: true },
        ),
        handled(m, Event::Key { key: Key::Char('k'), ctrl, press: true }) == handled(
            m,
            Event::Key { key: Key::Up, ctrl, press: true },
        ),
        handled(m, Event::Key { key: Key::Char('l'), ctrl, press: true }) == handled(
            m,
            Event::Key { key: Key::Right, ctrl, press: true },
        ),
{
}

/// Tab shows the next view: the folder, all files, all levels at once, and the
/// folder again. It lets go of what is selected, and stays in the folder.
pub proof fn tab_shows_the_next_view(m: AppModel, ctrl: bool)
    ensures
        ({
            let (now, what) = handled(m, Event::Key { key: Key::Tab, ctrl, press: true });
            &&& what == OutcomeModel::Redraw
            &&& m.view == view::View::Tree ==> now.view == view::View::Files
            &&& m.view == view::View::Files ==> now.view == view::View::Nested
            &&& m.view == view::View::Nested ==> now.view == view::View::Tree
            &&& now == (AppModel { view: now.view, selected: None, items_dirty: true, ..m })
        }),
{
}

/// `q` quits, and so do Ctrl-C and Ctrl-D; `o` opens the file that is selected;
/// other keys, and keys that are let go, do nothing.
pub proof fn other_keys(m: AppModel, key: Key, ctrl: bool)
    ensures
        handled(m, Event::Key { key: Key::Char('q'), ctrl, press: true }) == (
            m,
            OutcomeModel::Quit,
        ),
        handled(m, Event::Key { key: Key::Char('c'), ctrl, press: true }) == (
            m,
            if ctrl {
                OutcomeModel::Quit
            } else {
                OutcomeModel::Ignored
            },
        ),
        handled(m, Event::Key { key: Key::Char('d'), ctrl, press: true }) == (
            m,
            if ctrl {
                OutcomeModel::Quit
            } else {
                OutcomeModel::Ignored
            },
        ),
        handled(m, Event::Key { key: Key::Char('o'), ctrl, press: true }) == (
            m,
            match m.selected {
                Some(TargetModel::File(p)) => OutcomeModel::OpenEditor(p),
                _ => OutcomeModel::Ignored,
            },
        ),
        handled(m, Event::Key { key, ctrl, press: false }) == (m, OutcomeModel::Ignored),
        handled(m, Event::Other) == (m, OutcomeModel::Ignored),
        handled(m, Event::Key { key: Key::Other, ctrl, press: true }) == (m, OutcomeModel::Ignored),
        key is Char && key != Key::Char('q') && key != Key::Char('c') && key != Key::Char('d')
            && key != Key::Char('o') && key != Key::Char('h') && key != Key::Char('j') && key
            != Key::Char('k') && key != Key::Char('l') ==> handled(
            m,
            Event::Key { key, ctrl, press: true },
        ) == (m, OutcomeModel::Ignored),
{
}

/// The wheel scrolls the list of languages by one where the mouse is over it,
/// up to its ends, and does nothing elsewhere.
pub proof fn the_wheel_scrolls_the_languages(m: AppModel, column: u16, row: u16)
    requires
        m.legend_scroll <= m.legend_max_scroll,
    ensures
        ({
            let up = handled(m, Event::Mouse { kind: MouseKind::ScrollUp, column, row });
            let down = handled(m, Event::Mouse { kind: MouseKind::ScrollDown, column, row });
            let r = m.legend_rect;
            let over = r.top <= row < r.top + r.height && r.left <= column < r.left + r.width;
            &&& !over ==> up == (m, OutcomeModel::Ignored) && down == (m, OutcomeModel::Ignored)
            &&& over ==> up.1 == OutcomeModel::Redraw && down.1 == OutcomeModel::Redraw
            &&& over && m.legend_scroll > 0 ==> up.0.legend_scroll == m.legend_scroll - 1
            &&& over && m.legend_scroll == 0 ==> up.0.legend_scroll == 0
            &&& over && m.legend_scroll < m.legend_max_scroll ==> down.0.legend_scroll
                == m.legend_scroll + 1
            &&& over && m.legend_scroll == m.legend_max_scroll ==> down.0.legend_scroll
                == m.legend_scroll
            &&& up.0 == (AppModel { legend_scroll: up.0.legend_scroll, ..m })
            &&& down.0 == (AppModel { legend_scroll: down.0.legend_scroll, ..m })
        }),
{
}

/// A new size of the terminal forgets where the tiles were, and nothing else.
pub proof fn a_new_size_forgets_the_tiles(m: AppModel, width: u16, height: u16)
    ensures
        handled(m, Event::Resize { width, height }).1 == OutcomeModel::Redraw,
        handled(m, Event::Resize { width, height }).0.last_tiles.len() == 0,
        handled(m, Event::Resize { width, height }).0.items_dirty,
        handled(m, Event::Resize { width, height }).0 == (AppModel {
            last_tiles: seq![],
            items_dirty: true,
            ..m
        }),
{
}

/// Scrolling keeps the list of languages in its bounds.
pub proof fn scrolling_stays_in_bounds(m: AppModel, kind: MouseKind, column: u16, row: u16)
    requires
        m.legend_scroll <= m.legend_max_scroll,
    ensures
        moused(m, kind, column, row).0.legend_scroll <= moused(m, kind, column, row).0.legend_max_scroll,
{
}

} // verus!
