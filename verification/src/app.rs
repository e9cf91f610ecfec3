//! Application decisions: tabs, tree node keys, which homepages may be
//! launched, what a key press asks for, and cursor arithmetic.

use vstd::prelude::*;

use crate::relations::RelationSet;
use crate::ui::tree::{keys_view, toggle_key, toggled, TRANS_SECTION};
use crate::text::{chars_of, is_control, is_whitespace, is_whitespace_exec};

verus! {

#[derive(Debug, Clone, Copy, PartialEq, Eq, Structural)]
pub enum Tab {
    Overview,
    Deps,
    RevDeps,
    Graph,
}

pub open spec fn tab_label(t: Tab) -> Seq<char> {
    match t {
        Tab::Overview => "Overview"@,
        Tab::Deps => "Dependencies"@,
        Tab::RevDeps => "Reverse deps"@,
        Tab::Graph => "Graph"@,
    }
}

pub open spec fn tab_index(t: Tab) -> int {
    match t {
        Tab::Overview => 0,
        Tab::Deps => 1,
        Tab::RevDeps => 2,
        Tab::Graph => 3,
    }
}

pub open spec fn tab_at(i: int) -> Tab {
    if i == 0 {
        Tab::Overview
    } else if i == 1 {
        Tab::Deps
    } else if i == 2 {
        Tab::RevDeps
    } else {
        Tab::Graph
    }
}

impl Tab {
    /// The tabs in display order.
    pub fn all() -> (r: [Tab; 4])
        ensures
            r@ == seq![Tab::Overview, Tab::Deps, Tab::RevDeps, Tab::Graph],
    {
        let r = [Tab::Overview, Tab::Deps, Tab::RevDeps, Tab::Graph];
        assert(r@ =~= seq![Tab::Overview, Tab::Deps, Tab::RevDeps, Tab::Graph]);
        r
    }

    pub fn label(self) -> (r: &'static str)
        ensures
            r@ == tab_label(self),
    {
        match self {
            Tab::Overview => "Overview",
            Tab::Deps => "Dependencies",
            Tab::RevDeps => "Reverse deps",
            Tab::Graph => "Graph",
        }
    }

    /// The digit that selects the tab.
    pub fn key(self) -> (r: char)
        ensures
            r == match self {
                Tab::Overview => '1',
                Tab::Deps => '2',
                Tab::RevDeps => '3',
                Tab::Graph => '4',
            },
    {
        match self {
            Tab::Overview => '1',
            Tab::Deps => '2',
            Tab::RevDeps => '3',
            Tab::Graph => '4',
        }
    }

    /// The following tab, wrapping around.
    pub fn next(self) -> (r: Tab)
        ensures
            r == tab_at((tab_index(self) + 1) % 4),
    {
        match self {
            Tab::Overview => Tab::Deps,
            Tab::Deps => Tab::RevDeps,
            Tab::RevDeps => Tab::Graph,
            Tab::Graph => Tab::Overview,
        }
    }

    /// The preceding tab, wrapping around.
    pub fn prev(self) -> (r: Tab)
        ensures
            r == tab_at((tab_index(self) + 3) % 4),
    {
        match self {
            Tab::Overview => Tab::Graph,
            Tab::Deps => Tab::Overview,
            Tab::RevDeps => Tab::Deps,
            Tab::Graph => Tab::RevDeps,
        }
    }
}

/// Edge-kind tag used in tree node keys.
#[derive(Debug, Clone, Copy, PartialEq, Eq, Hash, Structural)]
pub enum NodeKind {
    Input,
    Propagated,
    Native,
    RevDirect,
    RevTrans,
}

/// A tree node is identified by its path from the root: ids with the kind
/// of each link.
pub type NodeKey = Vec<(u32, NodeKind)>;

pub open spec fn https_prefix() -> Seq<char> {
    seq!['h', 't', 't', 'p', 's', ':', '/', '/']
}

pub open spec fn http_prefix() -> Seq<char> {
    seq!['h', 't', 't', 'p', ':', '/', '/']
}

pub open spec fn has_prefix(s: Seq<char>, p: Seq<char>) -> bool {
    p.len() <= s.len() && s.take(p.len() as int) == p
}

/// Channel metadata may contain arbitrary URI schemes; only web pages with a
/// host, and without control characters or whitespace, may be opened.
pub open spec fn web_homepage(url: Seq<char>) -> bool {
    let rest = if has_prefix(url, https_prefix()) {
        Some(url.skip(8))
    } else if has_prefix(url, http_prefix()) {
        Some(url.skip(7))
    } else {
        None
    };
    match rest {
        None => false,
        Some(r) => {
            &&& r.len() > 0
            &&& r[0] != '/'
            &&& r[0] != '?'
            &&& r[0] != '#'
            &&& forall|i: int| 0 <= i < url.len() ==> !is_control(#[trigger] url[i]) && !is_whitespace(url[i])
        },
    }
}

fn starts_with_chars(s: &[char], p: &[char]) -> (r: bool)
    ensures
        r == has_prefix(s@, p@),
{
    if p.len() > s.len() {
        return false;
    }
    let mut i: usize = 0;
    while i < p.len()
        invariant
            p@.len() <= s@.len(),
            i <= p@.len(),
            forall|q: int| 0 <= q < i ==> s@[q] == p@[q],
        decreases p@.len() - i,
    {
        if s[i] != p[i] {
            assert(s@.take(p@.len() as int)[i as int] != p@[i as int]);
            return false;
        }
        i += 1;
    }
    assert(s@.take(p@.len() as int) =~= p@);
    true
}

/// Whether a homepage may be handed to the browser.
pub fn is_web_homepage(url: &str) -> (r: bool)
    ensures
        r == web_homepage(url@),
{
    let cs = chars_of(url);
    let https = ['h', 't', 't', 'p', 's', ':', '/', '/'];
    let http = ['h', 't', 't', 'p', ':', '/', '/'];
    assert(https@ =~= https_prefix());
    assert(http@ =~= http_prefix());
    let start: usize = if starts_with_chars(cs.as_slice(), &https) {
        8
    } else if starts_with_chars(cs.as_slice(), &http) {
        7
    } else {
        return false;
    };
    let ghost rest = url@.skip(start as int);
    if start >= cs.len() {
        return false;
    }
    let c = cs[start];
    assert(rest[0] == c);
    if c == '/' || c == '?' || c == '#' {
        return false;
    }
    let mut i: usize = 0;
    while i < cs.len()
        invariant
            cs@ == url@,
            i <= cs@.len(),
            forall|q: int| 0 <= q < i ==> !is_control(#[trigger] cs@[q]) && !is_whitespace(cs@[q]),
        decreases cs@.len() - i,
    {
        let ch = cs[i];
        let u = ch as u32;
        if u <= 0x1f || (0x7f <= u && u <= 0x9f) || is_whitespace_exec(ch) {
            return false;
        }
        i += 1;
    }
    true
}

/// Tree navigation state for the dependencies tab.
#[derive(Debug, Default)]
pub struct TreeState {
    /// Keys of nodes whose children are expanded.
    pub expanded: Vec<NodeKey>,
    pub cursor: usize,
    pub scroll: usize,
    /// Filter over the complete closure; blank shows the expandable tree.
    pub query: String,
    pub relations: Option<RelationSet>,
    /// Positions of the closure hits that pass the filter.
    pub visible: Vec<usize>,
}

/// Tree navigation state for the reverse dependencies tab.
#[derive(Debug, Default)]
pub struct RevState {
    pub expanded: Vec<NodeKey>,
    /// Whether the "Transitive" section is expanded.
    pub trans_open: bool,
    pub cursor: usize,
    pub scroll: usize,
    pub query: String,
    pub relations: Option<RelationSet>,
    pub visible: Vec<usize>,
}

/// What the application is doing about its index.
#[derive(Debug, Clone)]
pub enum Phase {
    Loading { done: u64, total: u64 },
    Ready { fresh: bool, unkeyed: bool },
    Failed { msg: String },
}

/// A key, as the terminal reports it.
#[derive(Debug, Clone, Copy, PartialEq, Eq, Structural)]
pub enum KeyCode {
    Char(char),
    Esc,
    Tab,
    Up,
    Down,
    Left,
    Right,
    Enter,
    PageUp,
    PageDown,
    Backspace,
    Other,
}

/// A key press with the modifiers the application looks at.
#[derive(Debug, Clone, Copy, PartialEq, Eq, Structural)]
pub struct Key {
    pub code: KeyCode,
    pub ctrl: bool,
    pub shift: bool,
}

/// What a key press asks the application to do.
#[derive(Debug, Clone, Copy, PartialEq, Eq, Structural)]
pub enum KeyAction {
    Quit,
    CloseHelp,
    /// Escape clears the query, debounced like typing.
    ClearQuery,
    SwitchTab(Tab),
    /// Escape with nothing to undo only redraws.
    Redraw,
    ToggleHelp,
    CycleEdges,
    ToggleLabels,
    NextTheme,
    Rebuild,
    OpenHomepage,
    GraphRebuild,
    JumpTop,
    JumpBottom,
    GraphDepth(i8),
    GraphSelect(i32),
    MoveCursor(i32),
    /// Collapse the tree row under the cursor.
    Collapse,
    /// Expand or collapse the tree row under the cursor.
    Toggle,
    GraphFollow,
    /// Move a page (ten rows) down (`true`) or up.
    Page(bool),
    Backspace,
    /// Control-U: clear the query and reset every position.
    KillQuery,
    Type(char),
    Nothing,
}

/// The decision table of the key handler. Command characters act only while
/// the search box is empty (`idle`), so typing stays free-form; arrows,
/// Enter, Tab, page keys and Escape always work.
pub open spec fn key_decision(key: Key, tab: Tab, idle: bool, help_open: bool) -> KeyAction {
    let graph = tab == Tab::Graph;
    let tree = tab == Tab::Deps || tab == Tab::RevDeps;
    match key.code {
        KeyCode::Char(c) => if c == 'c' && key.ctrl {
            KeyAction::Quit
        } else if c == '?' {
            KeyAction::ToggleHelp
        } else if c == 'e' && graph && idle {
            KeyAction::CycleEdges
        } else if c == 'l' && graph && idle {
            KeyAction::ToggleLabels
        } else if c == 'T' {
            KeyAction::NextTheme
        } else if c == 'R' {
            KeyAction::Rebuild
        } else if idle && c == 'q' {
            KeyAction::Quit
        } else if idle && c == '1' {
            KeyAction::SwitchTab(Tab::Overview)
        } else if idle && (c == '2' || c == 'd') {
            KeyAction::SwitchTab(Tab::Deps)
        } else if idle && (c == '3' || c == 'r') {
            KeyAction::SwitchTab(Tab::RevDeps)
        } else if idle && (c == '4' || c == 'v') {
            KeyAction::SwitchTab(Tab::Graph)
        } else if idle && c == 'o' {
            KeyAction::OpenHomepage
        } else if idle && c == 'g' {
            if graph {
                KeyAction::GraphRebuild
            } else {
                KeyAction::JumpTop
            }
        } else if idle && c == 'G' {
            if graph {
                KeyAction::Nothing
            } else {
                KeyAction::JumpBottom
            }
        } else if idle && (c == '+' || c == '=') {
            if graph {
                KeyAction::GraphDepth(1i8)
            } else {
                KeyAction::Nothing
            }
        } else if idle && c == '-' {
            if graph {
                KeyAction::GraphDepth(-1i8)
            } else {
                KeyAction::Nothing
            }
        } else if idle && c == 'j' {
            if graph {
                KeyAction::GraphSelect(1i32)
            } else {
                KeyAction::MoveCursor(1i32)
            }
        } else if idle && c == 'k' {
            if graph {
                KeyAction::GraphSelect(-1i32)
            } else {
                KeyAction::MoveCursor(-1i32)
            }
        } else if idle && c == 'h' {
            if graph {
                KeyAction::GraphSelect(-1i32)
            } else if tree {
                KeyAction::Collapse
            } else {
                KeyAction::Nothing
            }
        } else if idle && c == 'l' {
            if graph {
                KeyAction::GraphSelect(1i32)
            } else if tree {
                KeyAction::Toggle
            } else {
                KeyAction::Nothing
            }
        } else if c == 'u' && key.ctrl {
            KeyAction::KillQuery
        } else {
            KeyAction::Type(c)
        },
        KeyCode::Esc => if help_open {
            KeyAction::CloseHelp
        } else if !idle {
            KeyAction::ClearQuery
        } else if tab != Tab::Overview {
            KeyAction::SwitchTab(Tab::Overview)
        } else {
            KeyAction::Redraw
        },
        KeyCode::Tab => KeyAction::SwitchTab(
            if key.shift {
                tab_at((tab_index(tab) + 3) % 4)
            } else {
                tab_at((tab_index(tab) + 1) % 4)
            },
        ),
        KeyCode::Up => if graph {
            KeyAction::GraphSelect(-1i32)
        } else {
            KeyAction::MoveCursor(-1i32)
        },
        KeyCode::Down => if graph {
            KeyAction::GraphSelect(1i32)
        } else {
            KeyAction::MoveCursor(1i32)
        },
        KeyCode::Left => if graph {
            KeyAction::GraphSelect(-1i32)
        } else if tree {
            KeyAction::Collapse
        } else {
            KeyAction::Nothing
        },
        KeyCode::Right => if graph {
            KeyAction::GraphSelect(1i32)
        } else if tree {
            KeyAction::Toggle
        } else {
            KeyAction::Nothing
        },
        KeyCode::Enter => if graph {
            KeyAction::GraphFollow
        } else if tree {
            KeyAction::Toggle
        } else {
            KeyAction::Nothing
        },
        KeyCode::PageUp => KeyAction::Page(false),
        KeyCode::PageDown => KeyAction::Page(true),
        KeyCode::Backspace => KeyAction::Backspace,
        KeyCode::Other => KeyAction::Nothing,
    }
}

/// What a key press asks for; the application then performs it.
pub fn key_action(key: Key, tab: Tab, idle: bool, help_open: bool) -> (r: KeyAction)
    ensures
        r == key_decision(key, tab, idle, help_open),
{
    let graph = tab == Tab::Graph;
    let tree = tab == Tab::Deps || tab == Tab::RevDeps;
    match key.code {
        KeyCode::Char(c) => {
            if c == 'c' && key.ctrl {
                KeyAction::Quit
            } else if c == '?' {
                KeyAction::ToggleHelp
            } else if c == 'e' && graph && idle {
                KeyAction::CycleEdges
            } else if c == 'l' && graph && idle {
                KeyAction::ToggleLabels
            } else if c == 'T' {
                KeyAction::NextTheme
            } else if c == 'R' {
                KeyAction::Rebuild
            } else if idle && c == 'q' {
                KeyAction::Quit
            } else if idle && c == '1' {
                KeyAction::SwitchTab(Tab::Overview)
            } else if idle && (c == '2' || c == 'd') {
                KeyAction::SwitchTab(Tab::Deps)
            } else if idle && (c == '3' || c == 'r') {
                KeyAction::SwitchTab(Tab::RevDeps)
            } else if idle && (c == '4' || c == 'v') {
                KeyAction::SwitchTab(Tab::Graph)
            } else if idle && c == 'o' {
                KeyAction::OpenHomepage
            } else if idle && c == 'g' {
                if graph {
                    KeyAction::GraphRebuild
                } else {
                    KeyAction::JumpTop
                }
            } else if idle && c == 'G' {
                if graph {
                    KeyAction::Nothing
                } else {
                    KeyAction::JumpBottom
                }
            } else if idle && (c == '+' || c == '=') {
                if graph {
                    KeyAction::GraphDepth(1i8)
                } else {
                    KeyAction::Nothing
                }
            } else if idle && c == '-' {
                if graph {
                    KeyAction::GraphDepth(-1i8)
                } else {
                    KeyAction::Nothing
                }
            } else if idle && c == 'j' {
                if graph {
                    KeyAction::GraphSelect(1i32)
                } else {
                    KeyAction::MoveCursor(1i32)
                }
            } else if idle && c == 'k' {
                if graph {
                    KeyAction::GraphSelect(-1i32)
                } else {
                    KeyAction::MoveCursor(-1i32)
                }
            } else if idle && c == 'h' {
                if graph {
                    KeyAction::GraphSelect(-1i32)
                } else if tree {
                    KeyAction::Collapse
                } else {
                    KeyAction::Nothing
                }
            } else if idle && c == 'l' {
                if graph {
                    KeyAction::GraphSelect(1i32)
                } else if tree {
                    KeyAction::Toggle
                } else {
                    KeyAction::Nothing
                }
            } else if c == 'u' && key.ctrl {
                KeyAction::KillQuery
            } else {
                KeyAction::Type(c)
            }
        },
        KeyCode::Esc => {
            if help_open {
                KeyAction::CloseHelp
            } else if !idle {
                KeyAction::ClearQuery
            } else if tab != Tab::Overview {
                KeyAction::SwitchTab(Tab::Overview)
            } else {
                KeyAction::Redraw
            }
        },
        KeyCode::Tab => KeyAction::SwitchTab(
            if key.shift {
                tab.prev()
            } else {
                tab.next()
            },
        ),
        KeyCode::Up => {
            if graph {
                KeyAction::GraphSelect(-1i32)
            } else {
                KeyAction::MoveCursor(-1i32)
            }
        },
        KeyCode::Down => {
            if graph {
                KeyAction::GraphSelect(1i32)
            } else {
                KeyAction::MoveCursor(1i32)
            }
        },
        KeyCode::Left => {
            if graph {
                KeyAction::GraphSelect(-1i32)
            } else if tree {
                KeyAction::Collapse
            } else {
                KeyAction::Nothing
            }
        },
        KeyCode::Right => {
            if graph {
                KeyAction::GraphSelect(1i32)
            } else if tree {
                KeyAction::Toggle
            } else {
                KeyAction::Nothing
            }
        },
        KeyCode::Enter => {
            if graph {
                KeyAction::GraphFollow
            } else if tree {
                KeyAction::Toggle
            } else {
                KeyAction::Nothing
            }
        },
        KeyCode::PageUp => KeyAction::Page(false),
        KeyCode::PageDown => KeyAction::Page(true),
        KeyCode::Backspace => KeyAction::Backspace,
        KeyCode::Other => KeyAction::Nothing,
    }
}

/// A cursor moved by `delta` rows and kept on one of `len` rows.
pub open spec fn moved_cursor(cursor: usize, delta: i32, len: usize) -> usize {
    let c = cursor as int + delta as int;
    if c < 0 {
        0
    } else if c > len - 1 {
        (len - 1) as usize
    } else {
        c as usize
    }
}

/// Move a cursor by `delta`, clamped to the rows; `None` when there are no
/// rows to move over.
pub fn move_cursor(cursor: usize, delta: i32, len: usize) -> (r: Option<usize>)
    requires
        len <= i32::MAX,
        cursor <= i32::MAX,
    ensures
        len == 0 ==> r is None,
        len > 0 ==> r == Some(moved_cursor(cursor, delta, len)),
{
    if len == 0 {
        return None;
    }
    let c: i64 = cursor as i64 + delta as i64;
    let hi: i64 = len as i64 - 1;
    let r = if c < 0 {
        0
    } else if c > hi {
        hi
    } else {
        c
    };
    Some(r as usize)
}

/// A cursor moved a page down (to at most the last row) or up (to at least
/// the first).
pub open spec fn paged_cursor(cursor: usize, page: usize, down: bool, len: usize) -> usize {
    if down {
        let c = if cursor + page > usize::MAX {
            usize::MAX as int
        } else {
            cursor + page
        };
        if c < len - 1 {
            c as usize
        } else {
            (len - 1) as usize
        }
    } else if cursor >= page {
        (cursor - page) as usize
    } else {
        0
    }
}

/// Move a cursor by a page; `None` when there are no rows.
pub fn page_cursor(cursor: usize, page: usize, down: bool, len: usize) -> (r: Option<usize>)
    ensures
        len == 0 ==> r is None,
        len > 0 ==> r == Some(paged_cursor(cursor, page, down, len)),
{
    if len == 0 {
        return None;
    }
    if down {
        let c = cursor.saturating_add(page);
        Some(if c < len - 1 {
            c
        } else {
            len - 1
        })
    } else {
        Some(cursor.saturating_sub(page))
    }
}

/// The last valid position among `len` rows, or zero when there are none.
pub open spec fn last_position(len: usize) -> usize {
    if len > 0 {
        (len - 1) as usize
    } else {
        0
    }
}

/// A position kept within `len` rows.
pub fn clamp_position(pos: usize, len: usize) -> (r: usize)
    ensures
        r == if pos < last_position(len) {
            pos
        } else {
            last_position(len)
        },
{
    let last = len.saturating_sub(1);
    if pos < last {
        pos
    } else {
        last
    }
}

impl TreeState {
    /// Expand or collapse the node with this key.
    pub fn toggle(&mut self, key: &[(u32, NodeKind)])
        ensures
            keys_view(final(self).expanded@) == toggled(keys_view(old(self).expanded@), key@),
            final(self).cursor == old(self).cursor,
            final(self).scroll == old(self).scroll,
    {
        toggle_key(&mut self.expanded, key);
    }
}

/// The key of the "Transitive" section header of the reverse tab.
pub open spec fn section_key() -> Seq<(u32, NodeKind)> {
    seq![(TRANS_SECTION, NodeKind::RevTrans)]
}

impl RevState {
    /// Open or close the "Transitive" section when its header is toggled;
    /// expand or collapse a node otherwise.
    pub fn toggle(&mut self, key: &[(u32, NodeKind)])
        ensures
            key@ == section_key() ==> final(self).trans_open == !old(self).trans_open && keys_view(
                final(self).expanded@,
            ) == keys_view(old(self).expanded@),
            key@ != section_key() ==> final(self).trans_open == old(self).trans_open && keys_view(
                final(self).expanded@,
            ) == toggled(keys_view(old(self).expanded@), key@),
            final(self).cursor == old(self).cursor,
            final(self).scroll == old(self).scroll,
    {
        if key.len() == 1 && key[0].0 == TRANS_SECTION && key[0].1 == NodeKind::RevTrans {
            assert(key@ =~= section_key());
            self.trans_open = !self.trans_open;
        } else {
            assert(key@ != section_key()) by {
                if key@ == section_key() {
                    assert(key@[0] == (TRANS_SECTION, NodeKind::RevTrans));
                }
            }
            toggle_key(&mut self.expanded, key);
        }
    }
}

/// Whether a search reply is shown: it must answer the newest request and
/// the query still on screen.
pub fn reply_current(reply_ticket: u64, requested: u64, reply_query: &str, query: &str) -> (r: bool)
    ensures
        r == (reply_ticket == requested && reply_query@ == query@),
{
    reply_ticket == requested && crate::text::str_eq(reply_query, query)
}

/// Whether the search view still waits: a debounced query is not sent yet,
/// or a newer request than the one shown is outstanding.
pub fn search_pending(query_pending: bool, requested: u64, rendered: u64) -> (r: bool)
    ensures
        r == (query_pending || requested > rendered),
{
    query_pending || requested > rendered
}

} // verus!
