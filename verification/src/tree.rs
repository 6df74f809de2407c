use vstd::prelude::*;
use vstd::utf8::{encode_utf8, is_char_boundary};

use crate::text::{
    byte_len, byte_length, chars_of, find_in, find_seq, lemma_byte_len_prefix, lemma_byte_len_step,
    lemma_encode_concat, lemma_find_seq, lowercase, occurs_at, push_char, push_str, to_lower,
    utf8_width,
};

verus! {

/// A directory tree as read from disk: an entry's name, whether it is a
/// directory, and (for a directory) its listed children in order.
pub struct TreeNode {
    pub name: String,
    pub is_dir: bool,
    pub children: Vec<TreeNode>,
}

/// `search` is nonempty and occurs in `name`, both lowercased.
pub open spec fn text_matches(name: Seq<char>, search: Seq<char>) -> bool {
    search.len() > 0 && find_seq(lowercase(name), lowercase(search)) is Some
}

/// A node is visible under a search when the search is empty, its own
/// name matches, or some descendant is visible.
pub open spec fn visible(n: TreeNode, search: Seq<char>) -> bool
    decreases n,
{
    search.len() == 0 || text_matches(n.name@, search) || any_visible(n.children@, search)
}

/// Some node of the list is visible.
pub open spec fn any_visible(cs: Seq<TreeNode>, search: Seq<char>) -> bool
    decreases cs,
{
    if cs.len() == 0 {
        false
    } else {
        visible(cs[0], search) || any_visible(cs.drop_first(), search)
    }
}

/// Number of files (non-directories) in a tree; a file counts itself.
pub open spec fn file_count(n: TreeNode) -> nat
    decreases n,
{
    if n.is_dir {
        files_in(n.children@)
    } else {
        1
    }
}

/// Number of files in a list of trees.
pub open spec fn files_in(cs: Seq<TreeNode>) -> nat
    decreases cs,
{
    if cs.len() == 0 {
        0
    } else {
        file_count(cs[0]) + files_in(cs.drop_first())
    }
}

proof fn lemma_any_visible_skip(cs: Seq<TreeNode>, i: int, search: Seq<char>)
    requires
        0 <= i < cs.len(),
    ensures
        any_visible(cs.skip(i), search) == (visible(cs[i], search) || any_visible(cs.skip(i + 1), search)),
{
    assert(cs.skip(i).drop_first() =~= cs.skip(i + 1));
}

proof fn lemma_files_in_skip(cs: Seq<TreeNode>, i: int)
    requires
        0 <= i < cs.len(),
    ensures
        files_in(cs.skip(i)) == file_count(cs[i]) + files_in(cs.skip(i + 1)),
{
    assert(cs.skip(i).drop_first() =~= cs.skip(i + 1));
}

/// Byte range in `name` of the first match of `search`, both lowercased,
/// as `str::find` reports it on the lowercased name; kept only where it
/// also lies on character boundaries of `name` itself.
pub open spec fn match_range(name: Seq<char>, search: Seq<char>) -> Option<(usize, usize)> {
    let lower = lowercase(name);
    let ls = lowercase(search);
    if search.len() == 0 {
        None
    } else {
        match find_seq(lower, ls) {
            None => None,
            Some(k) => {
                let s = byte_len(lower.take(k as int));
                let e = s + byte_len(ls);
                if e <= byte_len(name) && is_char_boundary(encode_utf8(name), s as int)
                    && is_char_boundary(encode_utf8(name), e as int) {
                    Some((s as usize, e as usize))
                } else {
                    None
                }
            },
        }
    }
}

/// Byte offset of character `k` of `v`.
fn byte_offset(v: &Vec<char>, k: usize) -> (res: usize)
    requires
        k <= v@.len(),
        byte_len(v@) <= usize::MAX,
    ensures
        res == byte_len(v@.take(k as int)),
{
    let mut acc: usize = 0;
    let mut i: usize = 0;
    assert(v@.take(0) =~= Seq::<char>::empty());
    while i < k
        invariant
            i <= k <= v@.len(),
            acc == byte_len(v@.take(i as int)),
            byte_len(v@) <= usize::MAX,
        decreases k - i,
    {
        proof {
            lemma_byte_len_step(v@, i as int);
            lemma_byte_len_prefix(v@, i + 1);
        }
        acc = acc + utf8_width(v[i]);
        i = i + 1;
    }
    acc
}

/// The byte range of the first case-insensitive match of `search` in
/// `name` (see `match_range`); `None` for an empty search.
pub fn find_match_range(name: &str, search: &str) -> (res: Option<(usize, usize)>)
    ensures
        res == match_range(name@, search@),
{
    if search.is_empty() {
        return None;
    }
    let lower = to_lower(name);
    let ls = to_lower(search);
    let lv = chars_of(lower.as_str());
    let sv = chars_of(ls.as_str());
    let lower_bytes = byte_length(lower.as_str());
    let found = find_in(&lv, &sv);
    match found {
        None => None,
        Some(k) => {
            proof {
                lemma_find_seq(lv@, sv@);
                lemma_encode_concat(lv@.take(k as int), sv@);
                assert(lv@.subrange(k as int, k + sv@.len()) == sv@);
                assert(lv@.take(k + sv@.len()) =~= lv@.take(k as int) + sv@);
                lemma_byte_len_prefix(lv@, k + sv@.len());
            }
            let s = byte_offset(&lv, k);
            let ls_bytes = byte_length(ls.as_str());
            let e = s + ls_bytes;
            let name_bytes = byte_length(name);
            if e <= name_bytes && name.is_char_boundary(s) && name.is_char_boundary(e) {
                Some((s, e))
            } else {
                None
            }
        },
    }
}

impl TreeNode {
    /// Whether the search (nonempty) occurs in the name, ignoring case.
    pub fn name_matches(&self, search: &str) -> (res: bool)
        ensures
            res == text_matches(self.name@, search@),
    {
        if search.is_empty() {
            return false;
        }
        let lower = to_lower(self.name.as_str());
        let ls = to_lower(search);
        let lv = chars_of(lower.as_str());
        let sv = chars_of(ls.as_str());
        find_in(&lv, &sv).is_some()
    }

    /// Whether the node shows under a search: the search is empty, the
    /// name matches, or some descendant shows.
    pub fn is_visible(&self, search: &str) -> (res: bool)
        ensures
            res == visible(*self, search@),
        decreases self,
    {
        if search.is_empty() {
            return true;
        }
        if self.name_matches(search) {
            return true;
        }
        let n = self.children.len();
        let mut i: usize = 0;
        assert(self.children@.skip(0) =~= self.children@);
        while i < n
            invariant
                n == self.children@.len(),
                i <= n,
                any_visible(self.children@, search@) == any_visible(self.children@.skip(i as int), search@),
            decreases n - i,
        {
            proof {
                lemma_any_visible_skip(self.children@, i as int, search@);
            }
            if self.children[i].is_visible(search) {
                return true;
            }
            i = i + 1;
        }
        assert(self.children@.skip(n as int) =~= Seq::<TreeNode>::empty());
        false
    }

    /// Number of files in the tree, or `None` where it exceeds `usize`.
    pub fn count_files_checked(&self) -> (res: Option<usize>)
        ensures
            res is Some <==> file_count(*self) <= usize::MAX,
            res matches Some(c) ==> c == file_count(*self),
        decreases self,
    {
        if !self.is_dir {
            return Some(1);
        }
        let n = self.children.len();
        let mut total: usize = 0;
        let mut i: usize = 0;
        assert(self.children@.skip(0) =~= self.children@);
        while i < n
            invariant
                n == self.children@.len(),
                i <= n,
                self.is_dir,
                total + files_in(self.children@.skip(i as int)) == file_count(*self),
            decreases n - i,
        {
            proof {
                lemma_files_in_skip(self.children@, i as int);
            }
            match self.children[i].count_files_checked() {
                None => {
                    return None;
                },
                Some(c) => {
                    if total > usize::MAX - c {
                        return None;
                    }
                    total = total + c;
                },
            }
            i = i + 1;
        }
        assert(self.children@.skip(n as int) =~= Seq::<TreeNode>::empty());
        Some(total)
    }

    /// Number of files in the tree (a file counts itself).
    pub fn count_files(&self) -> (res: usize)
        requires
            file_count(*self) <= usize::MAX,
        ensures
            res == file_count(*self),
    {
        match self.count_files_checked() {
            Some(c) => c,
            None => 0,
        }
    }
}

/// One line of the interactive tree: connector prefix, name, the byte
/// range of the search match in the name, and whether it is a directory.
#[derive(Clone)]
pub struct RenderLine {
    pub prefix: String,
    pub name: String,
    pub match_range: Option<(usize, usize)>,
    pub is_dir: bool,
}

/// A render line as values.
pub struct LineModel {
    pub prefix: Seq<char>,
    pub name: Seq<char>,
    pub match_range: Option<(usize, usize)>,
    pub is_dir: bool,
}

impl View for RenderLine {
    type V = LineModel;

    open spec fn view(&self) -> LineModel {
        LineModel {
            prefix: self.prefix@,
            name: self.name@,
            match_range: self.match_range,
            is_dir: self.is_dir,
        }
    }
}

/// The lines of a list, as values.
pub open spec fn lines_view(v: Seq<RenderLine>) -> Seq<LineModel> {
    v.map_values(|l: RenderLine| l@)
}

/// Branch drawn before an entry: `└── ` for the last entry of a
/// directory, `├── ` otherwise.
pub open spec fn branch(is_last: bool) -> Seq<char> {
    if is_last {
        seq!['\u{2514}', '\u{2500}', '\u{2500}', ' ']
    } else {
        seq!['\u{251c}', '\u{2500}', '\u{2500}', ' ']
    }
}

/// What continues below an entry for its children: four spaces after the
/// last entry, `│   ` otherwise.
pub open spec fn stem(is_last: bool) -> Seq<char> {
    if is_last {
        seq![' ', ' ', ' ', ' ']
    } else {
        seq!['\u{2502}', ' ', ' ', ' ']
    }
}

/// The lines of the interactive tree for a node: its own line (no
/// prefix at the top, else `prefix` and its branch), then the lines of
/// its visible children, each child last when no visible sibling follows.
pub open spec fn flat_lines(n: TreeNode, prefix: Seq<char>, is_last: bool, top: bool, search: Seq<char>) -> Seq<LineModel>
    decreases n,
{
    let lp = if top {
        Seq::empty()
    } else {
        prefix + branch(is_last)
    };
    let ci = if top {
        Seq::empty()
    } else {
        prefix + stem(is_last)
    };
    seq![LineModel { prefix: lp, name: n.name@, match_range: match_range(n.name@, search), is_dir: n.is_dir }]
        + flat_children(n.children@, ci, search)
}

/// The lines of the visible nodes of a list of siblings.
pub open spec fn flat_children(cs: Seq<TreeNode>, prefix: Seq<char>, search: Seq<char>) -> Seq<LineModel>
    decreases cs,
{
    if cs.len() == 0 {
        Seq::empty()
    } else {
        (if visible(cs[0], search) {
            flat_lines(cs[0], prefix, !any_visible(cs.drop_first(), search), false, search)
        } else {
            Seq::empty()
        }) + flat_children(cs.drop_first(), prefix, search)
    }
}

proof fn lemma_any_visible_exists(cs: Seq<TreeNode>, search: Seq<char>)
    ensures
        any_visible(cs, search) <==> exists|j: int| 0 <= j < cs.len() && visible(#[trigger] cs[j], search),
    decreases cs.len(),
{
    if cs.len() > 0 {
        lemma_any_visible_exists(cs.drop_first(), search);
        if any_visible(cs.drop_first(), search) {
            let j = choose|j: int| 0 <= j < cs.drop_first().len() && visible(#[trigger] cs.drop_first()[j], search);
            assert(cs[j + 1] == cs.drop_first()[j]);
        }
        if exists|j: int| 0 <= j < cs.len() && visible(#[trigger] cs[j], search) {
            let j = choose|j: int| 0 <= j < cs.len() && visible(#[trigger] cs[j], search);
            if j > 0 {
                assert(cs.drop_first()[j - 1] == cs[j]);
            }
        }
    }
}

proof fn lemma_flat_children_skip(cs: Seq<TreeNode>, i: int, prefix: Seq<char>, search: Seq<char>)
    requires
        0 <= i < cs.len(),
    ensures
        flat_children(cs.skip(i), prefix, search) == (if visible(cs[i], search) {
            flat_lines(cs[i], prefix, !any_visible(cs.skip(i + 1), search), false, search)
        } else {
            Seq::empty()
        }) + flat_children(cs.skip(i + 1), prefix, search),
{
    assert(cs.skip(i).drop_first() =~= cs.skip(i + 1));
}

/// Number of nodes of a tree.
pub open spec fn node_count(n: TreeNode) -> nat
    decreases n,
{
    1 + nodes_in(n.children@)
}

/// Number of nodes of a list of trees.
pub open spec fn nodes_in(cs: Seq<TreeNode>) -> nat
    decreases cs,
{
    if cs.len() == 0 {
        0
    } else {
        node_count(cs[0]) + nodes_in(cs.drop_first())
    }
}

/// Law: with an empty search every node shows, each on one line, and no
/// line has a highlighted match.
pub proof fn lemma_empty_search_shows_all(n: TreeNode, prefix: Seq<char>, is_last: bool, top: bool)
    ensures
        flat_lines(n, prefix, is_last, top, Seq::empty()).len() == node_count(n),
        forall|i: int|
            0 <= i < flat_lines(n, prefix, is_last, top, Seq::empty()).len() ==> (#[trigger] flat_lines(
                n,
                prefix,
                is_last,
                top,
                Seq::empty(),
            )[i]).match_range is None,
    decreases n, 1nat,
{
    let ci = if top {
        Seq::empty()
    } else {
        prefix + stem(is_last)
    };
    lemma_empty_search_children(n.children@, ci);
    let lines = flat_lines(n, prefix, is_last, top, Seq::empty());
    let rest = flat_children(n.children@, ci, Seq::empty());
    assert forall|i: int| 0 <= i < lines.len() implies (#[trigger] lines[i]).match_range is None by {
        if i > 0 {
            assert(lines[i] == rest[i - 1]);
        }
    }
}

proof fn lemma_empty_search_children(cs: Seq<TreeNode>, prefix: Seq<char>)
    ensures
        flat_children(cs, prefix, Seq::empty()).len() == nodes_in(cs),
        forall|i: int|
            0 <= i < flat_children(cs, prefix, Seq::empty()).len() ==> (#[trigger] flat_children(
                cs,
                prefix,
                Seq::empty(),
            )[i]).match_range is None,
    decreases cs, 0nat,
{
    if cs.len() > 0 {
        let last = !any_visible(cs.drop_first(), Seq::empty());
        lemma_empty_search_shows_all(cs[0], prefix, last, false);
        lemma_empty_search_children(cs.drop_first(), prefix);
        let head = flat_lines(cs[0], prefix, last, false, Seq::empty());
        let tail = flat_children(cs.drop_first(), prefix, Seq::empty());
        let all = flat_children(cs, prefix, Seq::empty());
        assert(all == head + tail);
        assert forall|i: int| 0 <= i < all.len() implies (#[trigger] all[i]).match_range is None by {
            if i < head.len() {
                assert(all[i] == head[i]);
            } else {
                assert(all[i] == tail[i - head.len()]);
            }
        }
    }
}

/// The tree `n` holds a node with this name and kind.
pub open spec fn has_node(n: TreeNode, name: Seq<char>, is_dir: bool) -> bool
    decreases n,
{
    (n.name@ == name && n.is_dir == is_dir) || exists|j: int|
        0 <= j < n.children@.len() && has_node(#[trigger] n.children@[j], name, is_dir)
}

/// Law: each line of the interactive view shows a node of the tree with
/// its own kind: the first line is the node itself (its name, whether it
/// is a directory), and every other line names a node below it with that
/// node's kind, so no directory is drawn as a file nor a file as a
/// directory.
pub proof fn lemma_lines_show_nodes(n: TreeNode, prefix: Seq<char>, is_last: bool, top: bool, search: Seq<char>)
    ensures
        flat_lines(n, prefix, is_last, top, search)[0].name == n.name@,
        flat_lines(n, prefix, is_last, top, search)[0].is_dir == n.is_dir,
        forall|i: int|
            0 <= i < flat_lines(n, prefix, is_last, top, search).len() ==> has_node(
                n,
                (#[trigger] flat_lines(n, prefix, is_last, top, search)[i]).name,
                flat_lines(n, prefix, is_last, top, search)[i].is_dir,
            ),
    decreases n, 1nat,
{
    let ci = if top {
        Seq::empty()
    } else {
        prefix + stem(is_last)
    };
    lemma_children_show_nodes(n.children@, ci, search);
    let lines = flat_lines(n, prefix, is_last, top, search);
    let rest = flat_children(n.children@, ci, search);
    assert forall|i: int| 0 <= i < lines.len() implies has_node(n, (#[trigger] lines[i]).name, lines[i].is_dir) by {
        if i > 0 {
            assert(lines[i] == rest[i - 1]);
            let j = choose|j: int| 0 <= j < n.children@.len() && has_node(#[trigger] n.children@[j], rest[i - 1].name, rest[i - 1].is_dir);
        }
    }
}

proof fn lemma_children_show_nodes(cs: Seq<TreeNode>, prefix: Seq<char>, search: Seq<char>)
    ensures
        forall|i: int|
            0 <= i < flat_children(cs, prefix, search).len() ==> exists|j: int|
                0 <= j < cs.len() && has_node(
                    #[trigger] cs[j],
                    (#[trigger] flat_children(cs, prefix, search)[i]).name,
                    flat_children(cs, prefix, search)[i].is_dir,
                ),
    decreases cs, 0nat,
{
    if cs.len() > 0 {
        let last = !any_visible(cs.drop_first(), search);
        lemma_lines_show_nodes(cs[0], prefix, last, false, search);
        lemma_children_show_nodes(cs.drop_first(), prefix, search);
        let head = if visible(cs[0], search) {
            flat_lines(cs[0], prefix, last, false, search)
        } else {
            Seq::empty()
        };
        let tail = flat_children(cs.drop_first(), prefix, search);
        let all = flat_children(cs, prefix, search);
        assert(all == head + tail);
        assert forall|i: int| 0 <= i < all.len() implies exists|j: int|
            0 <= j < cs.len() && has_node(#[trigger] cs[j], (#[trigger] all[i]).name, all[i].is_dir) by {
            if i < head.len() {
                assert(all[i] == head[i]);
                assert(has_node(cs[0], all[i].name, all[i].is_dir));
            } else {
                assert(all[i] == tail[i - head.len()]);
                let k = choose|k: int|
                    0 <= k < cs.drop_first().len() && has_node(#[trigger] cs.drop_first()[k], tail[i - head.len()].name, tail[i - head.len()].is_dir);
                assert(cs.drop_first()[k] == cs[k + 1]);
                assert(has_node(cs[k + 1], all[i].name, all[i].is_dir));
            }
        }
    }
}

/// Law: a highlighted range lies within the name and on character
/// boundaries of it, so the name can be cut there.
pub proof fn lemma_match_range_in_name(name: Seq<char>, search: Seq<char>)
    requires
        byte_len(name) <= usize::MAX,
    ensures
        match_range(name, search) matches Some((a, b)) ==> a <= b <= byte_len(name) && is_char_boundary(
            encode_utf8(name),
            a as int,
        ) && is_char_boundary(encode_utf8(name), b as int),
{
}

/// Law: a name with a highlighted range matches the search, so the
/// highlight never marks a node that the search would not keep.
pub proof fn lemma_highlight_means_match(name: Seq<char>, search: Seq<char>)
    ensures
        match_range(name, search) is Some ==> text_matches(name, search),
{
}

fn concat(a: &str, b: &str) -> (res: String)
    ensures
        res@ == a@ + b@,
{
    let mut s = String::new();
    push_str(&mut s, a);
    push_str(&mut s, b);
    s
}

fn branch_text(is_last: bool) -> (res: String)
    ensures
        res@ == branch(is_last),
{
    let mut s = String::new();
    if is_last {
        push_char(&mut s, '\u{2514}');
    } else {
        push_char(&mut s, '\u{251c}');
    }
    push_char(&mut s, '\u{2500}');
    push_char(&mut s, '\u{2500}');
    push_char(&mut s, ' ');
    assert(s@ =~= branch(is_last));
    s
}

fn stem_text(is_last: bool) -> (res: String)
    ensures
        res@ == stem(is_last),
{
    let mut s = String::new();
    if is_last {
        push_char(&mut s, ' ');
    } else {
        push_char(&mut s, '\u{2502}');
    }
    push_char(&mut s, ' ');
    push_char(&mut s, ' ');
    push_char(&mut s, ' ');
    assert(s@ =~= stem(is_last));
    s
}

/// Appends the lines of the interactive tree for `node` (see
/// `flat_lines`; `depth` 0 is the top, which gets no prefix).
pub fn flatten(node: &TreeNode, prefix: &str, is_last: bool, depth: usize, search: &str, out: &mut Vec<RenderLine>)
    ensures
        lines_view(final(out)@) == lines_view(old(out)@) + flat_lines(*node, prefix@, is_last, depth == 0, search@),
    decreases node,
{
    let top = depth == 0;
    let (lp, ci) = if top {
        (String::new(), String::new())
    } else {
        let b = branch_text(is_last);
        let st = stem_text(is_last);
        (concat(prefix, b.as_str()), concat(prefix, st.as_str()))
    };
    let ghost base = lines_view(out@);
    let line = RenderLine {
        prefix: lp,
        name: node.name.clone(),
        match_range: find_match_range(node.name.as_str(), search),
        is_dir: node.is_dir,
    };
    let ghost head = line@;
    out.push(line);
    assert(lines_view(out@) =~= base + seq![head]);
    let cs = &node.children;
    let n = cs.len();
    let mut vis: Vec<bool> = Vec::new();
    for k in 0..n
        invariant
            n == cs@.len(),
            vis@.len() == k,
            forall|j: int| 0 <= j < k ==> vis@[j] == visible(#[trigger] cs@[j], search@),
    {
        vis.push(cs[k].is_visible(search));
    }
    // index just past the last visible child
    let mut end = n;
    while end > 0 && !vis[end - 1]
        invariant
            end <= n,
            n == cs@.len() == vis@.len(),
            forall|j: int| 0 <= j < n ==> vis@[j] == visible(#[trigger] cs@[j], search@),
            forall|j: int| end <= j < n ==> !visible(#[trigger] cs@[j], search@),
        decreases end,
    {
        end = end - 1;
    }
    let child_depth = if depth < usize::MAX {
        depth + 1
    } else {
        depth
    };
    let ghost flat_all = flat_children(cs@, ci@, search@);
    let ghost mut done: Seq<LineModel> = Seq::empty();
    assert(cs@.skip(0) =~= cs@);
    let mut i: usize = 0;
    while i < n
        invariant
            n == cs@.len() == vis@.len(),
            i <= n,
            end <= n,
            forall|j: int| 0 <= j < n ==> vis@[j] == visible(#[trigger] cs@[j], search@),
            forall|j: int| end <= j < n ==> !visible(#[trigger] cs@[j], search@),
            end > 0 ==> visible(cs@[end - 1], search@),
            child_depth != 0,
            cs@ == node.children@,
            flat_all == flat_children(cs@, ci@, search@),
            flat_all == done + flat_children(cs@.skip(i as int), ci@, search@),
            lines_view(out@) == base + seq![head] + done,
        decreases n - i,
    {
        proof {
            lemma_flat_children_skip(cs@, i as int, ci@, search@);
            lemma_any_visible_exists(cs@.skip(i + 1), search@);
        }
        if vis[i] {
            let last = i + 1 == end;
            proof {
                if last {
                    assert forall|j: int| 0 <= j < cs@.skip(i + 1).len() implies !visible(
                        #[trigger] cs@.skip(i + 1)[j],
                        search@,
                    ) by {
                        assert(cs@.skip(i + 1)[j] == cs@[i + 1 + j]);
                    }
                } else {
                    assert(end - 1 > i);
                    assert(cs@.skip(i + 1)[end - 1 - (i + 1)] == cs@[end - 1]);
                }
            }
            let ghost before = lines_view(out@);
            flatten(&node.children[i], ci.as_str(), last, child_depth, search, out);
            proof {
                done = done + flat_lines(cs@[i as int], ci@, last, false, search@);
                assert(lines_view(out@) =~= base + seq![head] + done);
            }
        }
        i = i + 1;
    }
    assert(cs@.skip(n as int) =~= Seq::<TreeNode>::empty());
    assert(done =~= flat_all);
}

} // verus!
