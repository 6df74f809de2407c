use vstd::prelude::*;

use crate::text::{decimal, push_char, push_decimal, push_str};
use crate::tree::{file_count, flat_lines, flatten, lines_view, LineModel, RenderLine, TreeNode};

verus! {

/// The interactive view: the tree, the search text, the first line shown,
/// the lines of the tree under the search, and the number of files.
pub struct App {
    pub root: TreeNode,
    pub search: String,
    pub scroll: usize,
    pub lines: Vec<RenderLine>,
    pub total_files: usize,
}

/// Index of the first line with a search match.
pub open spec fn first_match(lines: Seq<LineModel>) -> Option<nat>
    decreases lines.len(),
{
    if lines.len() == 0 {
        None
    } else if lines[0].match_range is Some {
        Some(0)
    } else {
        match first_match(lines.drop_first()) {
            Some(i) => Some(i + 1),
            None => None,
        }
    }
}

/// Number of lines with a search match.
pub open spec fn match_total(lines: Seq<LineModel>) -> nat
    decreases lines.len(),
{
    if lines.len() == 0 {
        0
    } else {
        (if lines.last().match_range is Some {
            1nat
        } else {
            0nat
        }) + match_total(lines.drop_last())
    }
}

/// The lines of the view for a tree and a search.
pub open spec fn view_lines(root: TreeNode, search: Seq<char>) -> Seq<LineModel> {
    flat_lines(root, Seq::empty(), false, true, search)
}

/// The first line shown after the lines are rebuilt: with a nonempty
/// search that matches, two lines above the first match (or the top);
/// otherwise unchanged.
pub open spec fn scroll_after_refresh(scroll: usize, search: Seq<char>, lines: Seq<LineModel>) -> usize {
    if search.len() > 0 && first_match(lines) is Some {
        let f = first_match(lines).unwrap();
        if f >= 2 {
            (f - 2) as usize
        } else {
            0
        }
    } else {
        scroll
    }
}

/// A key as the view reads it.
#[derive(PartialEq, Eq, Structural, Clone, Copy, Debug)]
pub enum Key {
    Char(char),
    Esc,
    Backspace,
    Up,
    Down,
    PageUp,
    PageDown,
    Home,
    End,
    Other,
}

/// What a key press does.
#[derive(PartialEq, Eq, Structural, Clone, Copy, Debug)]
pub enum KeyAction {
    Quit,
    ClearSearch,
    DeleteChar,
    TypeChar(char),
    ScrollUp(usize),
    ScrollDown(usize),
    Top,
    Bottom,
    Nothing,
}

/// The action of a key under the held modifiers (bits: shift 1,
/// control 2, alt 4, super 8, hyper 16, meta 32): Ctrl-C quits; `q` or Esc quit with an empty
/// search; Esc clears the search; Backspace deletes its last character;
/// other characters (plain or with Shift) are typed; the arrows scroll by
/// a line, the page keys by the viewport height, Home and End jump to the
/// top and the bottom.  Any other modifiers do nothing.
pub open spec fn key_action(modifiers: u8, key: Key, search_empty: bool, viewport: usize) -> KeyAction {
    if modifiers == 2 && key == Key::Char('c') {
        KeyAction::Quit
    } else if modifiers == 0 && (key == Key::Char('q') || key == Key::Esc) && search_empty {
        KeyAction::Quit
    } else if modifiers == 0 && key == Key::Esc {
        KeyAction::ClearSearch
    } else if modifiers == 0 && key == Key::Backspace {
        KeyAction::DeleteChar
    } else if (modifiers == 0 || modifiers == 1) && key is Char {
        KeyAction::TypeChar(key->Char_0)
    } else if modifiers == 0 && key == Key::Up {
        KeyAction::ScrollUp(1)
    } else if modifiers == 0 && key == Key::Down {
        KeyAction::ScrollDown(1)
    } else if modifiers == 0 && key == Key::PageUp {
        KeyAction::ScrollUp(viewport)
    } else if modifiers == 0 && key == Key::PageDown {
        KeyAction::ScrollDown(viewport)
    } else if modifiers == 0 && key == Key::Home {
        KeyAction::Top
    } else if modifiers == 0 && key == Key::End {
        KeyAction::Bottom
    } else {
        KeyAction::Nothing
    }
}

/// Law: the view always shows the tree's root first, with no prefix, so
/// its lines are never empty.
pub proof fn lemma_root_line_first(root: TreeNode, search: Seq<char>)
    ensures
        view_lines(root, search).len() > 0,
        view_lines(root, search)[0].name == root.name@,
        view_lines(root, search)[0].prefix == Seq::<char>::empty(),
{
}

/// Law: deleting the character just typed gives back the search, and so
/// the lines, from before the typing.
pub proof fn lemma_delete_undoes_type(root: TreeNode, search: Seq<char>, c: char)
    ensures
        search.push(c).drop_last() == search,
        view_lines(root, search.push(c).drop_last()) == view_lines(root, search),
{
    assert(search.push(c).drop_last() =~= search);
}

/// Decides the action of a key (see `key_action`).
pub fn decide_key(modifiers: u8, key: Key, search_empty: bool, viewport: usize) -> (res: KeyAction)
    ensures
        res == key_action(modifiers, key, search_empty, viewport),
{
    let none = modifiers == 0;
    match key {
        Key::Char(c) => {
            if modifiers == 2 && c == 'c' {
                KeyAction::Quit
            } else if none && c == 'q' && search_empty {
                KeyAction::Quit
            } else if none || modifiers == 1 {
                KeyAction::TypeChar(c)
            } else {
                KeyAction::Nothing
            }
        },
        Key::Esc => {
            if none && search_empty {
                KeyAction::Quit
            } else if none {
                KeyAction::ClearSearch
            } else {
                KeyAction::Nothing
            }
        },
        Key::Backspace => if none {
            KeyAction::DeleteChar
        } else {
            KeyAction::Nothing
        },
        Key::Up => if none {
            KeyAction::ScrollUp(1)
        } else {
            KeyAction::Nothing
        },
        Key::Down => if none {
            KeyAction::ScrollDown(1)
        } else {
            KeyAction::Nothing
        },
        Key::PageUp => if none {
            KeyAction::ScrollUp(viewport)
        } else {
            KeyAction::Nothing
        },
        Key::PageDown => if none {
            KeyAction::ScrollDown(viewport)
        } else {
            KeyAction::Nothing
        },
        Key::Home => if none {
            KeyAction::Top
        } else {
            KeyAction::Nothing
        },
        Key::End => if none {
            KeyAction::Bottom
        } else {
            KeyAction::Nothing
        },
        Key::Other => KeyAction::Nothing,
    }
}

/// Removes the last character of a string, if any (`String::pop`).
#[verifier::external_body]
fn pop_char(s: &mut String)
    ensures
        final(s)@ == (if old(s)@.len() > 0 {
            old(s)@.drop_last()
        } else {
            old(s)@
        }),
{
    s.pop();
}

fn first_match_index(v: &Vec<RenderLine>) -> (res: Option<usize>)
    ensures
        match res {
            Some(i) => first_match(lines_view(v@)) == Some(i as nat),
            None => first_match(lines_view(v@)) is None,
        },
{
    let ghost lv = lines_view(v@);
    let mut i: usize = 0;
    assert(lv.skip(0) =~= lv);
    while i < v.len()
        invariant
            i <= v@.len(),
            lv == lines_view(v@),
            lv.len() == v@.len(),
            forall|j: int| 0 <= j < i ==> v@[j].match_range is None,
            first_match(lv) == (match first_match(lv.skip(i as int)) {
                Some(k) => Some((k + i) as nat),
                None => None,
            }),
        decreases v@.len() - i,
    {
        assert(lv.skip(i as int)[0] == v@[i as int]@);
        if v[i].match_range.is_some() {
            return Some(i);
        }
        assert(lv.skip(i as int).drop_first() =~= lv.skip(i + 1));
        i = i + 1;
    }
    assert(lv.skip(i as int) =~= Seq::<LineModel>::empty());
    None
}

/// The pieces a name is drawn in, as byte ranges with whether each is
/// highlighted: the whole name plain without a match; else the part
/// before the match (if any), the match, and the part after it (if any).
pub open spec fn segments_of(name_len: usize, range: Option<(usize, usize)>) -> Seq<(usize, usize, bool)> {
    match range {
        None => seq![(0usize, name_len, false)],
        Some((a, b)) => (if a > 0 {
            seq![(0usize, a, false)]
        } else {
            Seq::empty()
        }) + seq![(a, b, true)] + (if b < name_len {
            seq![(b, name_len, false)]
        } else {
            Seq::empty()
        }),
    }
}

/// The pieces of a name of `name_len` bytes with the highlighted range
/// `range` (see `segments_of`).
pub fn name_segments(name_len: usize, range: Option<(usize, usize)>) -> (res: Vec<(usize, usize, bool)>)
    ensures
        res@ == segments_of(name_len, range),
{
    let mut out: Vec<(usize, usize, bool)> = Vec::new();
    match range {
        None => {
            out.push((0, name_len, false));
        },
        Some((a, b)) => {
            if a > 0 {
                out.push((0, a, false));
            }
            out.push((a, b, true));
            if b < name_len {
                out.push((b, name_len, false));
            }
        },
    }
    assert(out@ =~= segments_of(name_len, range));
    out
}

/// The view after an action: the tree and the file count never change.
/// Clearing empties the search, rebuilds the lines and goes to the top;
/// deleting drops the search's last character (if any), rebuilds the
/// lines, goes to the top and then to the first match; typing appends
/// the character, rebuilds the lines and moves to the first match; the
/// scroll actions move only the first line shown (up stops at the top,
/// down and End stop where the last line is at the bottom of a viewport
/// of `viewport` lines); quitting and other keys change nothing.
pub open spec fn applied(old: App, action: KeyAction, viewport: usize, new: App) -> bool {
    let max = if old.lines@.len() >= viewport {
        (old.lines@.len() - viewport) as int
    } else {
        0int
    };
    &&& new.root == old.root
    &&& new.total_files == old.total_files
    &&& match action {
        KeyAction::ClearSearch => new.search@ == Seq::<char>::empty() && lines_view(new.lines@) == view_lines(
            old.root,
            Seq::empty(),
        ) && new.scroll == 0,
        KeyAction::DeleteChar => {
            let s = if old.search@.len() > 0 {
                old.search@.drop_last()
            } else {
                old.search@
            };
            new.search@ == s && lines_view(new.lines@) == view_lines(old.root, s) && new.scroll
                == scroll_after_refresh(0, s, view_lines(old.root, s))
        },
        KeyAction::TypeChar(c) => {
            let s = old.search@.push(c);
            new.search@ == s && lines_view(new.lines@) == view_lines(old.root, s) && new.scroll
                == scroll_after_refresh(old.scroll, s, view_lines(old.root, s))
        },
        KeyAction::ScrollUp(n) => new.search == old.search && new.lines == old.lines && new.scroll == (if old.scroll
            >= n {
            (old.scroll - n) as usize
        } else {
            0
        }),
        KeyAction::ScrollDown(n) => new.search == old.search && new.lines == old.lines && new.scroll == (if old.scroll
            + n <= max {
            old.scroll + n
        } else {
            max
        }),
        KeyAction::Top => new.search == old.search && new.lines == old.lines && new.scroll == 0,
        KeyAction::Bottom => new.search == old.search && new.lines == old.lines && new.scroll == max,
        _ => new.search == old.search && new.lines == old.lines && new.scroll == old.scroll,
    }
}

impl App {
    /// Rebuilds the lines from the tree and the search (see
    /// `view_lines`), then moves to the first match (see
    /// `scroll_after_refresh`).
    pub fn refresh_lines(&mut self)
        ensures
            lines_view(final(self).lines@) == view_lines(old(self).root, old(self).search@),
            final(self).scroll == scroll_after_refresh(
                old(self).scroll,
                old(self).search@,
                view_lines(old(self).root, old(self).search@),
            ),
            final(self).root == old(self).root,
            final(self).search == old(self).search,
            final(self).total_files == old(self).total_files,
    {
        let mut lines: Vec<RenderLine> = Vec::new();
        let none = String::new();
        flatten(&self.root, none.as_str(), false, 0, self.search.as_str(), &mut lines);
        assert(lines_view(lines@) =~= view_lines(self.root, self.search@)) by {
            assert(lines_view(Seq::<RenderLine>::empty()) =~= Seq::<LineModel>::empty());
        }
        self.lines = lines;
        if !self.search.as_str().is_empty() {
            match first_match_index(&self.lines) {
                Some(first) => {
                    self.scroll = if first >= 2 {
                        first - 2
                    } else {
                        0
                    };
                },
                None => {},
            }
        }
    }

    /// The view of a tree with an initial search.
    pub fn new(root: TreeNode, initial_search: String) -> (res: App)
        requires
            file_count(root) <= usize::MAX,
        ensures
            res.root == root,
            res.search == initial_search,
            res.total_files == file_count(root),
            lines_view(res.lines@) == view_lines(root, initial_search@),
            res.scroll == scroll_after_refresh(0, initial_search@, view_lines(root, initial_search@)),
    {
        let total_files = root.count_files();
        let mut app = App { root, search: initial_search, scroll: 0, lines: Vec::new(), total_files };
        app.refresh_lines();
        app
    }

    /// The lines shown in a tree area `height` lines high, as the range
    /// `start..end` of `lines`: from the scroll position (at most the end),
    /// as many as fit.
    pub fn window(&self, height: usize) -> (res: (usize, usize))
        ensures
            res.0 == (if self.scroll <= self.lines@.len() {
                self.scroll as int
            } else {
                self.lines@.len() as int
            }),
            res.1 == (if res.0 + height <= self.lines@.len() {
                res.0 + height
            } else {
                self.lines@.len() as int
            }),
    {
        let len = self.lines.len();
        let start = if self.scroll <= len {
            self.scroll
        } else {
            len
        };
        let end = if height <= len - start {
            start + height
        } else {
            len
        };
        (start, end)
    }

    /// Number of lines with a search match.
    pub fn match_count(&self) -> (res: usize)
        ensures
            res == match_total(lines_view(self.lines@)),
    {
        let ghost lv = lines_view(self.lines@);
        let mut count: usize = 0;
        let mut i: usize = 0;
        assert(lv.take(0) =~= Seq::<LineModel>::empty());
        while i < self.lines.len()
            invariant
                i <= self.lines@.len(),
                lv == lines_view(self.lines@),
                lv.len() == self.lines@.len(),
                count == match_total(lv.take(i as int)),
                count <= i,
            decreases self.lines@.len() - i,
        {
            assert(lv.take(i + 1).drop_last() =~= lv.take(i as int));
            assert(lv.take(i + 1).last() == self.lines@[i as int]@);
            if self.lines[i].match_range.is_some() {
                count = count + 1;
            }
            i = i + 1;
        }
        assert(lv.take(i as int) =~= lv);
        count
    }

    /// Scrolls up by `n` lines, stopping at the top.
    pub fn scroll_up(&mut self, n: usize)
        ensures
            final(self).scroll == (if old(self).scroll >= n {
                (old(self).scroll - n) as usize
            } else {
                0
            }),
            final(self).root == old(self).root,
            final(self).search == old(self).search,
            final(self).lines == old(self).lines,
            final(self).total_files == old(self).total_files,
    {
        self.scroll = if self.scroll >= n {
            self.scroll - n
        } else {
            0
        };
    }

    /// Scrolls down by `n` lines, stopping where the last line is at the
    /// bottom of a viewport of `viewport` lines.
    pub fn scroll_down(&mut self, n: usize, viewport: usize)
        requires
            old(self).scroll + n <= usize::MAX,
        ensures
            ({
                let max = if old(self).lines@.len() >= viewport {
                    old(self).lines@.len() - viewport
                } else {
                    0
                };
                final(self).scroll == (if old(self).scroll + n <= max {
                    old(self).scroll + n
                } else {
                    max
                })
            }),
            final(self).root == old(self).root,
            final(self).search == old(self).search,
            final(self).lines == old(self).lines,
            final(self).total_files == old(self).total_files,
    {
        let len = self.lines.len();
        let max = if len >= viewport {
            len - viewport
        } else {
            0
        };
        let next = self.scroll + n;
        self.scroll = if next <= max {
            next
        } else {
            max
        };
    }

    /// Performs an action; `false` where the view is to close.
    pub fn apply(&mut self, action: KeyAction, viewport: usize) -> (keep_running: bool)
        requires
            action matches KeyAction::ScrollDown(n) ==> old(self).scroll + n <= usize::MAX,
        ensures
            keep_running == (action != KeyAction::Quit),
            applied(*old(self), action, viewport, *final(self)),
    {
        match action {
            KeyAction::Quit => false,
            KeyAction::ClearSearch => {
                self.search = String::new();
                self.scroll = 0;
                self.refresh_lines();
                true
            },
            KeyAction::DeleteChar => {
                pop_char(&mut self.search);
                self.scroll = 0;
                self.refresh_lines();
                true
            },
            KeyAction::TypeChar(c) => {
                push_char(&mut self.search, c);
                self.refresh_lines();
                true
            },
            KeyAction::ScrollUp(n) => {
                self.scroll_up(n);
                true
            },
            KeyAction::ScrollDown(n) => {
                self.scroll_down(n, viewport);
                true
            },
            KeyAction::Top => {
                self.scroll = 0;
                true
            },
            KeyAction::Bottom => {
                let len = self.lines.len();
                self.scroll = if len >= viewport {
                    len - viewport
                } else {
                    0
                };
                true
            },
            KeyAction::Nothing => true,
        }
    }

    /// Handles a key press; `false` where the view is to close.
    pub fn handle_key(&mut self, modifiers: u8, key: Key, viewport: usize) -> (keep_running: bool)
        requires
            old(self).scroll + 1 <= usize::MAX,
            old(self).scroll + viewport <= usize::MAX,
        ensures
            keep_running == (key_action(modifiers, key, old(self).search@.len() == 0, viewport)
                != KeyAction::Quit),
            applied(
                *old(self),
                key_action(modifiers, key, old(self).search@.len() == 0, viewport),
                viewport,
                *final(self),
            ),
    {
        let action = decide_key(modifiers, key, self.search.as_str().is_empty(), viewport);
        self.apply(action, viewport)
    }

    /// The status text of the title bar: the number of files without a
    /// search; `no matches` with the total where no line shows; else the
    /// number of matching lines of the total.
    pub fn status_text(&self) -> (res: String)
        ensures
            res@ == (if self.search@.len() == 0 {
                seq![' ', ' '] + decimal(self.total_files as nat) + " files "@
            } else if self.lines@.len() == 0 {
                "  no matches  ("@ + decimal(self.total_files as nat) + " files total) "@
            } else {
                seq![' ', ' '] + decimal(match_total(lines_view(self.lines@))) + " / "@ + decimal(
                    self.total_files as nat,
                ) + seq![' ']
            }),
    {
        let mut out = String::new();
        if self.search.as_str().is_empty() {
            push_char(&mut out, ' ');
            push_char(&mut out, ' ');
            push_decimal(&mut out, self.total_files as u64);
            push_str(&mut out, " files ");
        } else if self.lines.len() == 0 {
            push_str(&mut out, "  no matches  (");
            push_decimal(&mut out, self.total_files as u64);
            push_str(&mut out, " files total) ");
        } else {
            let mc = self.match_count();
            push_char(&mut out, ' ');
            push_char(&mut out, ' ');
            push_decimal(&mut out, mc as u64);
            push_str(&mut out, " / ");
            push_decimal(&mut out, self.total_files as u64);
            push_char(&mut out, ' ');
        }
        assert(out@ =~= (if self.search@.len() == 0 {
            seq![' ', ' '] + decimal(self.total_files as nat) + " files "@
        } else if self.lines@.len() == 0 {
            "  no matches  ("@ + decimal(self.total_files as nat) + " files total) "@
        } else {
            seq![' ', ' '] + decimal(match_total(lines_view(self.lines@))) + " / "@ + decimal(
                self.total_files as nat,
            ) + seq![' ']
        }));
        out
    }
}

} // verus!
