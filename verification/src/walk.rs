use vstd::prelude::*;

use std::sync::Arc;

use crate::colors::LsColors;
use crate::pattern::{asks_dirs_only, ends_with_slash};
use crate::text::{decimal, push_char, push_decimal, push_str};
use crate::tree::{branch, stem, TreeNode};

verus! {

/// How names are colored.
#[derive(Clone, Copy, PartialEq, Eq, Structural, Debug)]
pub enum ColorMode {
    /// Full file-type coloring.
    Always,
    /// No color when piped, simple when the output is busy, full otherwise.
    Auto,
    /// Color directories and symlinks only.
    Simple,
    /// No color.
    Never,
}

/// How the entries of a directory are ordered.
#[derive(Clone, Copy, PartialEq, Eq, Structural, Debug)]
pub enum SortBy {
    Name,
    ModTime,
    ChangeTime,
    Version,
    Unsorted,
}

/// The output format.
#[derive(Clone, Copy, PartialEq, Eq, Structural, Debug)]
pub enum OutputFmt {
    Tree,
    Json,
    Xml,
}

/// Options of a walk over a directory tree.
#[derive(Clone)]
pub struct WalkOpts {
    pub max_depth: Option<usize>,
    pub all: bool,
    pub dirs_only: bool,
    pub follow_links: bool,
    pub full_path: bool,
    pub one_fs: bool,
    pub size: bool,
    pub human: bool,
    pub permissions: bool,
    pub date: bool,
    pub use_ctime: bool,
    pub prune: bool,
    pub match_dirs: bool,
    pub ignore: Option<String>,
    pub max_matches: Option<usize>,
    pub sort: SortBy,
    pub reverse: bool,
    pub color: ColorMode,
    pub icons: bool,
    pub ls_colors: Arc<LsColors>,
    pub root_dev: u64,
    pub output: OutputFmt,
}

/// The command-line flags that shape a walk.
pub struct WalkFlags {
    pub level: Option<usize>,
    pub all: bool,
    pub dirs_only: bool,
    pub follow_links: bool,
    pub full_path: bool,
    pub one_fs: bool,
    pub pattern: Option<String>,
    pub max_matches: Option<usize>,
    pub ignore: Option<String>,
    pub prune: bool,
    pub version_sort: bool,
    pub time_sort: bool,
    pub change_sort: bool,
    pub unsorted: bool,
    pub reverse: bool,
    pub size: bool,
    pub human: bool,
    pub permissions: bool,
    pub date: bool,
    pub color: ColorMode,
    pub icons: bool,
    pub no_icons: bool,
    pub json: bool,
    pub xml: bool,
}

/// The sort that the flags select: unsorted, else modification time,
/// else change time, else version, else name.
pub open spec fn sort_of(f: WalkFlags) -> SortBy {
    if f.unsorted {
        SortBy::Unsorted
    } else if f.time_sort {
        SortBy::ModTime
    } else if f.change_sort {
        SortBy::ChangeTime
    } else if f.version_sort {
        SortBy::Version
    } else {
        SortBy::Name
    }
}

/// The output format: JSON, else XML, else the tree.
pub open spec fn output_of(f: WalkFlags) -> OutputFmt {
    if f.json {
        OutputFmt::Json
    } else if f.xml {
        OutputFmt::Xml
    } else {
        OutputFmt::Tree
    }
}

/// The color mode in effect: `auto` becomes none off a terminal, simple
/// with the permission or date columns, full otherwise.
pub open spec fn color_of(f: WalkFlags, tty: bool) -> ColorMode {
    if f.color == ColorMode::Auto {
        if !tty {
            ColorMode::Never
        } else if f.permissions || f.date {
            ColorMode::Simple
        } else {
            ColorMode::Always
        }
    } else {
        f.color
    }
}

/// Icons: off with `--no-icons`, on with `--icons`, else on a terminal
/// with colors.
pub open spec fn icons_of(f: WalkFlags, tty: bool) -> bool {
    if f.no_icons {
        false
    } else if f.icons {
        true
    } else {
        tty && color_of(f, tty) != ColorMode::Never
    }
}

fn sort_from(f: &WalkFlags) -> (res: SortBy)
    ensures
        res == sort_of(*f),
{
    if f.unsorted {
        SortBy::Unsorted
    } else if f.time_sort {
        SortBy::ModTime
    } else if f.change_sort {
        SortBy::ChangeTime
    } else if f.version_sort {
        SortBy::Version
    } else {
        SortBy::Name
    }
}

fn output_from(f: &WalkFlags) -> (res: OutputFmt)
    ensures
        res == output_of(*f),
{
    if f.json {
        OutputFmt::Json
    } else if f.xml {
        OutputFmt::Xml
    } else {
        OutputFmt::Tree
    }
}

fn color_from(f: &WalkFlags, tty: bool) -> (res: ColorMode)
    ensures
        res == color_of(*f, tty),
{
    match f.color {
        ColorMode::Auto => {
            if !tty {
                ColorMode::Never
            } else if f.permissions || f.date {
                ColorMode::Simple
            } else {
                ColorMode::Always
            }
        },
        other => other,
    }
}

fn icons_from(f: &WalkFlags, tty: bool, color: ColorMode) -> (res: bool)
    requires
        color == color_of(*f, tty),
    ensures
        res == icons_of(*f, tty),
{
    if f.no_icons {
        false
    } else if f.icons {
        true
    } else {
        tty && color != ColorMode::Never
    }
}

impl WalkOpts {
    /// The options for the flags, given whether the output is a terminal,
    /// the device of the root, and the colors in effect.
    pub fn from_flags(f: &WalkFlags, tty: bool, root_dev: u64, ls_colors: LsColors) -> (res: WalkOpts)
        ensures
            res.max_depth == f.level,
            res.all == f.all,
            res.dirs_only == f.dirs_only,
            res.follow_links == f.follow_links,
            res.full_path == f.full_path,
            res.one_fs == f.one_fs,
            res.size == (f.size || f.human),
            res.human == f.human,
            res.permissions == f.permissions,
            res.date == f.date,
            res.use_ctime == f.change_sort,
            res.prune == f.prune,
            res.match_dirs == (match f.pattern {
                Some(p) => asks_dirs_only(p@),
                None => false,
            }),
            res.ignore == f.ignore,
            res.max_matches == f.max_matches,
            res.sort == sort_of(*f),
            res.reverse == f.reverse,
            res.color == color_of(*f, tty),
            res.icons == icons_of(*f, tty),
            *res.ls_colors == ls_colors,
            res.root_dev == root_dev,
            res.output == output_of(*f),
    {
        let sort = sort_from(f);
        let output = output_from(f);
        let color = color_from(f, tty);
        let icons = icons_from(f, tty, color);
        let match_dirs = match &f.pattern {
            Some(p) => ends_with_slash(p.as_str()),
            None => false,
        };
        let ignore = match &f.ignore {
            Some(s) => Some(s.clone()),
            None => None,
        };
        let shared = Arc::new(ls_colors);
        WalkOpts {
            max_depth: f.level,
            all: f.all,
            dirs_only: f.dirs_only,
            follow_links: f.follow_links,
            full_path: f.full_path,
            one_fs: f.one_fs,
            size: f.size || f.human,
            human: f.human,
            permissions: f.permissions,
            date: f.date,
            use_ctime: f.change_sort,
            prune: f.prune,
            match_dirs,
            ignore,
            max_matches: f.max_matches,
            sort,
            reverse: f.reverse,
            color,
            icons,
            ls_colors: shared,
            root_dev,
            output,
        }
    }
}

/// Numbers of directories and files printed.
pub struct Counters {
    pub files: usize,
    pub dirs: usize,
}

/// `counters` after counting one more printed entry, a directory or a
/// file.
pub open spec fn counted(c: Counters, is_dir: bool) -> Counters {
    if is_dir {
        Counters { files: c.files, dirs: (c.dirs + 1) as usize }
    } else {
        Counters { files: (c.files + 1) as usize, dirs: c.dirs }
    }
}

/// There is room in `c` to count one more entry of the kind.
pub open spec fn room_for(c: Counters, is_dir: bool) -> bool {
    if is_dir {
        c.dirs < usize::MAX
    } else {
        c.files < usize::MAX
    }
}

/// Counts one printed entry.
pub fn count_entry(counters: &mut Counters, is_dir: bool)
    requires
        room_for(*old(counters), is_dir),
    ensures
        *final(counters) == counted(*old(counters), is_dir),
{
    if is_dir {
        counters.dirs = counters.dirs + 1;
    } else {
        counters.files = counters.files + 1;
    }
}

/// The lines that a filtered walk prints when an entry shows: the held
/// lines of its ancestors, in order, then its own line.
pub open spec fn shown_lines(pending: Seq<String>, line: String) -> Seq<String> {
    pending.push(line)
}

/// The held lines after a directory's line is held back.
pub open spec fn held(pending: Seq<String>, line: String) -> Seq<String> {
    pending.push(line)
}

/// The held lines once a held directory is settled: what it and its
/// descendants held is dropped when nothing below it showed (`saved` is
/// the number of lines held before it), else kept as it is.
pub open spec fn settled(pending: Seq<String>, saved: usize, produced: bool) -> Seq<String> {
    if produced || saved >= pending.len() {
        pending
    } else {
        pending.take(saved as int)
    }
}

/// An entry of the filtered walk shows: returns the lines to print (see
/// `shown_lines`), which empties the held lines, and counts the entry,
/// and a match where its name matches.
pub fn show_entry(
    counters: &mut Counters,
    matched: &mut usize,
    pending: &mut Vec<String>,
    line: String,
    is_dir: bool,
    name_matches: bool,
) -> (out: Vec<String>)
    requires
        room_for(*old(counters), is_dir),
        name_matches ==> *old(matched) < usize::MAX,
    ensures
        out@ == shown_lines(old(pending)@, line),
        final(pending)@ == Seq::<String>::empty(),
        *final(counters) == counted(*old(counters), is_dir),
        *final(matched) == *old(matched) + (if name_matches {
            1int
        } else {
            0int
        }),
{
    let mut out: Vec<String> = Vec::new();
    out.append(pending);
    out.push(line);
    count_entry(counters, is_dir);
    if name_matches {
        *matched = *matched + 1;
    }
    out
}

/// Holds back a directory's line until something below it shows; returns
/// the number of lines held before it.
pub fn hold_line(pending: &mut Vec<String>, line: String) -> (saved: usize)
    ensures
        saved == old(pending)@.len(),
        final(pending)@ == held(old(pending)@, line),
{
    let saved = pending.len();
    pending.push(line);
    saved
}

/// Settles a held directory once its children are walked: where nothing
/// below it showed, the lines held since it was held are dropped (see
/// `settled`); else it is counted, with a match where its name matches.
pub fn settle_held(
    counters: &mut Counters,
    matched: &mut usize,
    pending: &mut Vec<String>,
    saved: usize,
    produced: bool,
    name_matches: bool,
)
    requires
        produced ==> room_for(*old(counters), true),
        produced && name_matches ==> *old(matched) < usize::MAX,
    ensures
        final(pending)@ == settled(old(pending)@, saved, produced),
        *final(counters) == if produced {
            counted(*old(counters), true)
        } else {
            *old(counters)
        },
        *final(matched) == *old(matched) + (if produced && name_matches {
            1int
        } else {
            0int
        }),
{
    if !produced {
        pending.truncate(saved);
    } else {
        count_entry(counters, true);
        if name_matches {
            *matched = *matched + 1;
        }
    }
}

/// Law: a held directory below which nothing showed leaves the held lines
/// as they were before it was held, whatever its descendants held in
/// between.
pub proof fn lemma_unproductive_hold_restores(pending: Seq<String>, line: String, later: Seq<String>)
    requires
        pending.len() <= usize::MAX,
    ensures
        settled(held(pending, line) + later, pending.len() as usize, false) == pending,
{
    assert((pending.push(line) + later).take(pending.len() as int) =~= pending);
}

/// Whether a walk at `depth` may list the entries of a directory.
pub open spec fn may_descend(max_depth: Option<usize>, depth: usize) -> bool {
    match max_depth {
        Some(m) => depth < m,
        None => true,
    }
}

/// Whether a walk at `depth` may list the entries of a directory (`-L`).
pub fn can_descend(opts: &WalkOpts, depth: usize) -> (res: bool)
    ensures
        res == may_descend(opts.max_depth, depth),
{
    match opts.max_depth {
        Some(m) => depth < m,
        None => true,
    }
}

/// The text before an entry's name: nothing at the root, else the
/// parent's indentation and the branch.
pub open spec fn connector_text(prefix: Seq<char>, is_last: bool, depth: usize) -> Seq<char> {
    if depth == 0 {
        Seq::empty()
    } else {
        prefix + branch(is_last)
    }
}

/// The indentation handed to an entry's children.
pub open spec fn child_indent_text(prefix: Seq<char>, is_last: bool, depth: usize) -> Seq<char> {
    if depth == 0 {
        Seq::empty()
    } else {
        prefix + stem(is_last)
    }
}

/// The connector before an entry's name (see `connector_text`).
pub fn connector(prefix: &str, is_last: bool, depth: usize) -> (res: String)
    ensures
        res@ == connector_text(prefix@, is_last, depth),
{
    let mut s = String::new();
    if depth != 0 {
        push_str(&mut s, prefix);
        if is_last {
            push_char(&mut s, '\u{2514}');
        } else {
            push_char(&mut s, '\u{251c}');
        }
        push_char(&mut s, '\u{2500}');
        push_char(&mut s, '\u{2500}');
        push_char(&mut s, ' ');
    }
    assert(s@ =~= connector_text(prefix@, is_last, depth));
    s
}

/// The indentation for an entry's children (see `child_indent_text`).
pub fn child_indent(prefix: &str, is_last: bool, depth: usize) -> (res: String)
    ensures
        res@ == child_indent_text(prefix@, is_last, depth),
{
    let mut s = String::new();
    if depth != 0 {
        push_str(&mut s, prefix);
        if is_last {
            push_char(&mut s, ' ');
        } else {
            push_char(&mut s, '\u{2502}');
        }
        push_char(&mut s, ' ');
        push_char(&mut s, ' ');
        push_char(&mut s, ' ');
    }
    assert(s@ =~= child_indent_text(prefix@, is_last, depth));
    s
}

/// Whether a directory's total size is computed before its line is
/// printed: with sizes shown and only directories listed, files are never
/// visited, so their sizes cannot be summed on the way.
pub fn precompute_size(opts: &WalkOpts) -> (res: bool)
    ensures
        res == (opts.size && opts.dirs_only),
{
    opts.size && opts.dirs_only
}

/// Whether a directory's line is rewritten with its summed size once its
/// children are printed: sizes shown, output to a terminal, files
/// visited, and the line still on screen (fewer lines below it than the
/// terminal has rows).
pub fn rewrite_size(opts: &WalkOpts, tty: bool, child_lines: usize, term_rows: usize) -> (res: bool)
    ensures
        res == (opts.size && tty && !opts.dirs_only && child_lines < term_rows),
{
    opts.size && tty && !opts.dirs_only && child_lines < term_rows
}

/// What the filtered walk does with an entry.
#[derive(PartialEq, Eq, Structural, Clone, Copy, Debug)]
pub enum FilteredStep {
    /// The match limit is reached: nothing more is printed.
    Stop,
    /// A file that does not show.
    Skip,
    /// A file that shows.
    ShowFile,
    /// A directory printed at once, its children then walked.
    ShowDir,
    /// A directory held back until some descendant shows.
    HoldDir,
}

/// Whether the number of matches has reached the limit (`-m`).
pub open spec fn limit_reached(max_matches: Option<usize>, matched: usize) -> bool {
    match max_matches {
        Some(m) => matched >= m,
        None => false,
    }
}

/// The step of the filtered walk for an entry: stop at the match limit;
/// a file shows when forced, when its name matches, or when every file
/// shows; a directory is printed at once when forced or matching (and
/// not pruning), else held back.
pub open spec fn filtered_step_of(
    opts: WalkOpts,
    matched: usize,
    name_matches: bool,
    force_show: bool,
    is_dir: bool,
    all_files_visible: bool,
) -> FilteredStep {
    if limit_reached(opts.max_matches, matched) {
        FilteredStep::Stop
    } else if !is_dir {
        if force_show || name_matches || all_files_visible {
            FilteredStep::ShowFile
        } else {
            FilteredStep::Skip
        }
    } else if (force_show || name_matches) && !opts.prune {
        FilteredStep::ShowDir
    } else {
        FilteredStep::HoldDir
    }
}

/// The step of the filtered walk for an entry (see `filtered_step_of`).
pub fn filtered_step(
    opts: &WalkOpts,
    matched: usize,
    name_matches: bool,
    force_show: bool,
    is_dir: bool,
    all_files_visible: bool,
) -> (res: FilteredStep)
    ensures
        res == filtered_step_of(*opts, matched, name_matches, force_show, is_dir, all_files_visible),
{
    let reached = match opts.max_matches {
        Some(m) => matched >= m,
        None => false,
    };
    if reached {
        FilteredStep::Stop
    } else if !is_dir {
        if force_show || name_matches || all_files_visible {
            FilteredStep::ShowFile
        } else {
            FilteredStep::Skip
        }
    } else if (force_show || name_matches) && !opts.prune {
        FilteredStep::ShowDir
    } else {
        FilteredStep::HoldDir
    }
}

/// Whether an entry of the filtered walk produces output, as far as the
/// entry itself decides.
#[derive(PartialEq, Eq, Structural, Clone, Copy, Debug)]
pub enum Produce {
    Yes,
    No,
    /// Only if one of its children produces output.
    AskChildren,
}

/// Whether an entry produces output: yes when forced or matching; a file
/// otherwise only when every file shows; a directory otherwise when it
/// may be entered and some child produces output.
pub open spec fn produce_of(name_matches: bool, force_show: bool, is_dir: bool, all_files: bool, may_enter: bool) -> Produce {
    if force_show || name_matches {
        Produce::Yes
    } else if !is_dir {
        if all_files {
            Produce::Yes
        } else {
            Produce::No
        }
    } else if !may_enter {
        Produce::No
    } else {
        Produce::AskChildren
    }
}

/// Decides `produce_of`.
pub fn produce_decision(name_matches: bool, force_show: bool, is_dir: bool, all_files: bool, may_enter: bool) -> (res: Produce)
    ensures
        res == produce_of(name_matches, force_show, is_dir, all_files, may_enter),
{
    if force_show || name_matches {
        Produce::Yes
    } else if !is_dir {
        if all_files {
            Produce::Yes
        } else {
            Produce::No
        }
    } else if !may_enter {
        Produce::No
    } else {
        Produce::AskChildren
    }
}

/// Whether a shown directory lists all its immediate entries, files
/// included, instead of walking on: it matched a pattern that asks for
/// directories only.
pub fn lists_all_children(opts: &WalkOpts, name_matches: bool) -> (res: bool)
    ensures
        res == (opts.match_dirs && name_matches),
{
    opts.match_dirs && name_matches
}

/// Whether everything below a shown directory is shown too: it was
/// itself forced or its name matched.
pub fn subtree_force(force_show: bool, name_matches: bool) -> (res: bool)
    ensures
        res == (force_show || name_matches),
{
    force_show || name_matches
}

/// Whether the plain listing walks with the filter: a pattern was given
/// or empty directories are pruned.
pub fn uses_filter(has_pattern: bool, opts: &WalkOpts) -> (res: bool)
    ensures
        res == (has_pattern || opts.prune),
{
    has_pattern || opts.prune
}

/// Whether the filtered walk shows every file: pruning without a pattern.
pub fn every_file_shows(has_pattern: bool, opts: &WalkOpts) -> (res: bool)
    ensures
        res == (opts.prune && !has_pattern),
{
    opts.prune && !has_pattern
}

/// Whether the listing ends with the warning that nothing matched: a
/// pattern was given and no entry matched it.
pub fn reports_no_match(has_pattern: bool, matched: usize) -> (res: bool)
    ensures
        res == (has_pattern && matched == 0),
{
    has_pattern && matched == 0
}

/// Law: the pre-filter that picks the children which will produce output
/// (so that the last of them gets `└── `) agrees with the step the
/// filtered walk then takes, below the match limit: a file produces
/// output exactly when it is shown; without pruning, a directory that
/// produces output on its own is shown at once, and one that does not is
/// held back until something below it shows.  (With pruning, a matching
/// directory counts as producing output but is still held back, so it
/// shows only when something below it does.)
pub proof fn lemma_prefilter_agrees_with_step(
    opts: WalkOpts,
    matched: usize,
    name_matches: bool,
    force_show: bool,
    is_dir: bool,
    all_files: bool,
    may_enter: bool,
)
    requires
        !limit_reached(opts.max_matches, matched),
    ensures
        !is_dir ==> ((produce_of(name_matches, force_show, is_dir, all_files, may_enter) == Produce::Yes)
            <==> (filtered_step_of(opts, matched, name_matches, force_show, is_dir, all_files)
            == FilteredStep::ShowFile)),
        !is_dir ==> filtered_step_of(opts, matched, name_matches, force_show, is_dir, all_files)
            != FilteredStep::ShowDir && filtered_step_of(opts, matched, name_matches, force_show, is_dir, all_files)
            != FilteredStep::HoldDir,
        is_dir && !opts.prune ==> ((produce_of(name_matches, force_show, is_dir, all_files, may_enter)
            == Produce::Yes) <==> (filtered_step_of(opts, matched, name_matches, force_show, is_dir, all_files)
            == FilteredStep::ShowDir)),
        is_dir && produce_of(name_matches, force_show, is_dir, all_files, may_enter) != Produce::Yes
            ==> filtered_step_of(opts, matched, name_matches, force_show, is_dir, all_files)
            == FilteredStep::HoldDir,
{
}

/// The ANSI sequence that `color` writes when colors are on, else nothing.
pub open spec fn when_colored(color: ColorMode, code: Seq<char>) -> Seq<char> {
    if color != ColorMode::Never {
        code
    } else {
        Seq::empty()
    }
}

/// The summary after a plain listing: a blank line, then
/// `N director(y|ies), M file(s)`, with `, SIZE` when sizes are shown;
/// dimmed when colors are on.
pub open spec fn summary_text(c: Counters, color: ColorMode, size_label: Option<Seq<char>>) -> Seq<char> {
    let dim = when_colored(color, "\x1b[90m"@);
    let reset = when_colored(color, "\x1b[0m"@);
    seq!['\n'] + dim + decimal(c.dirs as nat) + (if c.dirs == 1 {
        " directory"@
    } else {
        " directories"@
    }) + ", "@ + decimal(c.files as nat) + (if c.files == 1 {
        " file"@
    } else {
        " files"@
    }) + reset + match size_label {
        Some(s) => ", "@ + dim + s + reset,
        None => Seq::empty(),
    }
}

fn push_colored(s: &mut String, color: ColorMode, code: &str)
    ensures
        final(s)@ == old(s)@ + when_colored(color, code@),
{
    if color != ColorMode::Never {
        push_str(s, code);
    } else {
        assert(s@ =~= old(s)@ + when_colored(color, code@));
    }
}

/// The summary line (see `summary_text`); `size_label` is the total size
/// as shown, when sizes are shown.
pub fn summary_line(c: &Counters, color: ColorMode, size_label: Option<&str>) -> (res: String)
    ensures
        res@ == summary_text(*c, color, match size_label {
            Some(s) => Some(s@),
            None => None,
        }),
{
    let mut out = String::new();
    push_char(&mut out, '\n');
    push_colored(&mut out, color, "\x1b[90m");
    push_decimal(&mut out, c.dirs as u64);
    if c.dirs == 1 {
        push_str(&mut out, " directory");
    } else {
        push_str(&mut out, " directories");
    }
    push_str(&mut out, ", ");
    push_decimal(&mut out, c.files as u64);
    if c.files == 1 {
        push_str(&mut out, " file");
    } else {
        push_str(&mut out, " files");
    }
    push_colored(&mut out, color, "\x1b[0m");
    match size_label {
        Some(s) => {
            push_str(&mut out, ", ");
            push_colored(&mut out, color, "\x1b[90m");
            push_str(&mut out, s);
            push_colored(&mut out, color, "\x1b[0m");
        },
        None => {},
    }
    assert(out@ =~= summary_text(*c, color, match size_label {
        Some(s) => Some(s@),
        None => None,
    }));
    out
}

/// The warning when a pattern matched nothing: `No matches for 'PAT'`,
/// yellow when colors are on.
pub open spec fn no_match_text(color: ColorMode, pattern: Seq<char>) -> Seq<char> {
    when_colored(color, "\x1b[33m"@) + "No matches for '"@ + pattern + "'"@ + when_colored(color, "\x1b[0m"@)
}

/// The warning when a pattern matched nothing (see `no_match_text`).
pub fn no_match_line(color: ColorMode, pattern: &str) -> (res: String)
    ensures
        res@ == no_match_text(color, pattern@),
{
    let mut out = String::new();
    push_colored(&mut out, color, "\x1b[33m");
    push_str(&mut out, "No matches for '");
    push_str(&mut out, pattern);
    push_str(&mut out, "'");
    push_colored(&mut out, color, "\x1b[0m");
    assert(out@ =~= no_match_text(color, pattern@));
    out
}

/// Which time the date column (`-D`) shows.
#[derive(PartialEq, Eq, Structural, Clone, Copy, Debug)]
pub enum DateSource {
    /// The last status change (with `-c`).
    ChangeTime,
    /// The last modification.
    ModTime,
}

/// The time the date column shows: the status change time with `-c`,
/// else the modification time.
pub fn date_source(opts: &WalkOpts) -> (res: DateSource)
    ensures
        res == (if opts.use_ctime {
            DateSource::ChangeTime
        } else {
            DateSource::ModTime
        }),
{
    if opts.use_ctime {
        DateSource::ChangeTime
    } else {
        DateSource::ModTime
    }
}

/// The error for a pattern the regex engine rejects:
/// `nt: invalid regex 'PAT': MESSAGE`.
pub open spec fn invalid_pattern_text(pattern: Seq<char>, message: Seq<char>) -> Seq<char> {
    "nt: invalid regex '"@ + pattern + "': "@ + message
}

/// The error for a rejected pattern (see `invalid_pattern_text`).
pub fn invalid_pattern_line(pattern: &str, message: &str) -> (res: String)
    ensures
        res@ == invalid_pattern_text(pattern@, message@),
{
    let mut out = String::new();
    push_str(&mut out, "nt: invalid regex '");
    push_str(&mut out, pattern);
    push_str(&mut out, "': ");
    push_str(&mut out, message);
    assert(out@ =~= invalid_pattern_text(pattern@, message@));
    out
}

/// A size in bytes as shown without `-h`: the decimal number and `B`.
pub open spec fn bytes_text(b: u64) -> Seq<char> {
    decimal(b as nat) + seq!['B']
}

/// A size in bytes as shown without `-h` (see `bytes_text`).
pub fn bytes_label(b: u64) -> (res: String)
    ensures
        res@ == bytes_text(b),
{
    let mut out = String::new();
    push_decimal(&mut out, b);
    push_char(&mut out, 'B');
    out
}

/// Total size of a list of `(size, lines)` results of entries.
pub open spec fn size_sum(kids: Seq<(u64, usize)>) -> nat
    decreases kids.len(),
{
    if kids.len() == 0 {
        0
    } else {
        size_sum(kids.drop_last()) + kids.last().0 as nat
    }
}

/// Total line count of a list of `(size, lines)` results of entries.
pub open spec fn line_sum(kids: Seq<(u64, usize)>) -> nat
    decreases kids.len(),
{
    if kids.len() == 0 {
        0
    } else {
        line_sum(kids.drop_last()) + kids.last().1 as nat
    }
}

/// What a shown directory reports once its entries are walked: its size
/// is the precomputed total where there is one, else the sum of its
/// entries' sizes; its line count is the lines printed for it (`shown`)
/// plus its entries' lines.
pub open spec fn dir_result(precomputed: Option<u64>, shown: usize, kids: Seq<(u64, usize)>) -> (nat, nat) {
    (
        match precomputed {
            Some(p) => p as nat,
            None => size_sum(kids),
        },
        shown as nat + line_sum(kids),
    )
}

/// Adds up the results of a shown directory's entries (see
/// `dir_result`); `None` exactly where a sum does not fit its type.
pub fn finish_dir(precomputed: Option<u64>, shown: usize, kids: &Vec<(u64, usize)>) -> (res: Option<(u64, usize)>)
    ensures
        res is Some <==> (size_sum(kids@) <= u64::MAX && shown + line_sum(kids@) <= usize::MAX),
        res matches Some(r) ==> (r.0 as nat, r.1 as nat) == dir_result(precomputed, shown, kids@),
{
    let mut size: u64 = 0;
    let mut lines: usize = shown;
    let mut i: usize = 0;
    assert(kids@.take(0) =~= Seq::<(u64, usize)>::empty());
    while i < kids.len()
        invariant
            i <= kids@.len(),
            size == size_sum(kids@.take(i as int)),
            lines == shown + line_sum(kids@.take(i as int)),
        decreases kids@.len() - i,
    {
        proof {
            assert(kids@.take(i + 1).drop_last() =~= kids@.take(i as int));
            lemma_sums_grow(kids@, i as int);
        }
        let (s, l) = kids[i];
        if size > u64::MAX - s || lines > usize::MAX - l {
            return None;
        }
        size = size + s;
        lines = lines + l;
        i = i + 1;
    }
    assert(kids@.take(i as int) =~= kids@);
    match precomputed {
        Some(p) => Some((p, lines)),
        None => Some((size, lines)),
    }
}

proof fn lemma_sums_grow(kids: Seq<(u64, usize)>, i: int)
    requires
        0 <= i < kids.len(),
    ensures
        size_sum(kids.take(i)) + kids[i].0 <= size_sum(kids),
        line_sum(kids.take(i)) + kids[i].1 <= line_sum(kids),
    decreases kids.len(),
{
    if i + 1 < kids.len() {
        assert(kids.drop_last().take(i) =~= kids.take(i));
        assert(kids.drop_last()[i] == kids[i]);
        lemma_sums_grow(kids.drop_last(), i);
    } else {
        assert(kids.drop_last() =~= kids.take(i));
    }
}

/// Whether some entry of a held directory produced output.
pub open spec fn any_produced(kids: Seq<(bool, u64, usize)>) -> bool {
    exists|i: int| 0 <= i < kids.len() && (#[trigger] kids[i]).0
}

/// Total size of the entries that produced output.
pub open spec fn produced_size(kids: Seq<(bool, u64, usize)>) -> nat
    decreases kids.len(),
{
    if kids.len() == 0 {
        0
    } else {
        produced_size(kids.drop_last()) + (if kids.last().0 {
            kids.last().1 as nat
        } else {
            0
        })
    }
}

/// Total line count of the entries that produced output.
pub open spec fn produced_lines(kids: Seq<(bool, u64, usize)>) -> nat
    decreases kids.len(),
{
    if kids.len() == 0 {
        0
    } else {
        produced_lines(kids.drop_last()) + (if kids.last().0 {
            kids.last().2 as nat
        } else {
            0
        })
    }
}

proof fn lemma_produced_grow(kids: Seq<(bool, u64, usize)>, i: int)
    requires
        0 <= i < kids.len(),
    ensures
        produced_size(kids.take(i)) + (if kids[i].0 {
            kids[i].1 as nat
        } else {
            0
        }) <= produced_size(kids),
        produced_lines(kids.take(i)) + (if kids[i].0 {
            kids[i].2 as nat
        } else {
            0
        }) <= produced_lines(kids),
    decreases kids.len(),
{
    if i + 1 < kids.len() {
        assert(kids.drop_last().take(i) =~= kids.take(i));
        assert(kids.drop_last()[i] == kids[i]);
        lemma_produced_grow(kids.drop_last(), i);
    } else {
        assert(kids.drop_last() =~= kids.take(i));
    }
}

/// Adds up the results `(produced, size, lines)` of a held directory's
/// entries: it produced output when some entry did, and its size and
/// lines are those of the entries that did; `None` exactly where a sum
/// does not fit its type.
pub fn finish_held(kids: &Vec<(bool, u64, usize)>) -> (res: Option<(bool, u64, usize)>)
    ensures
        res is Some <==> (produced_size(kids@) <= u64::MAX && produced_lines(kids@) <= usize::MAX),
        res matches Some(r) ==> {
            &&& r.0 == any_produced(kids@)
            &&& r.1 == produced_size(kids@)
            &&& r.2 == produced_lines(kids@)
        },
{
    let mut produced = false;
    let mut size: u64 = 0;
    let mut lines: usize = 0;
    let mut i: usize = 0;
    assert(kids@.take(0) =~= Seq::<(bool, u64, usize)>::empty());
    while i < kids.len()
        invariant
            i <= kids@.len(),
            produced == any_produced(kids@.take(i as int)),
            size == produced_size(kids@.take(i as int)),
            lines == produced_lines(kids@.take(i as int)),
        decreases kids@.len() - i,
    {
        proof {
            assert(kids@.take(i + 1).drop_last() =~= kids@.take(i as int));
            lemma_produced_grow(kids@, i as int);
            let t = kids@.take(i + 1);
            if any_produced(kids@.take(i as int)) {
                let j = choose|j: int| 0 <= j < i && (#[trigger] kids@.take(i as int)[j]).0;
                assert(t[j] == kids@.take(i as int)[j]);
            }
            if kids@[i as int].0 {
                assert(t[i as int] == kids@[i as int]);
            }
            if any_produced(t) {
                let j = choose|j: int| 0 <= j < t.len() && (#[trigger] t[j]).0;
                if j < i {
                    assert(kids@.take(i as int)[j] == t[j]);
                }
            }
        }
        let (p, s, l) = kids[i];
        if p {
            if size > u64::MAX - s || lines > usize::MAX - l {
                return None;
            }
            size = size + s;
            lines = lines + l;
            produced = true;
        }
        i = i + 1;
    }
    assert(kids@.take(i as int) =~= kids@);
    Some((produced, size, lines))
}

/// Whether an entry of the filtered walk produces output, given what the
/// entry decides on its own and, where it asks them, what each of its
/// entries produces.
pub fn produces(d: Produce, children: &Vec<bool>) -> (res: bool)
    ensures
        res == (d == Produce::Yes || (d == Produce::AskChildren && exists|i: int|
            0 <= i < children@.len() && #[trigger] children@[i])),
{
    match d {
        Produce::Yes => true,
        Produce::No => false,
        Produce::AskChildren => {
            let mut i: usize = 0;
            while i < children.len()
                invariant
                    d == Produce::AskChildren,
                    i <= children@.len(),
                    forall|j: int| 0 <= j < i ==> !#[trigger] children@[j],
                decreases children@.len() - i,
            {
                if children[i] {
                    assert(children@[i as int]);
                    return true;
                }
                i = i + 1;
            }
            false
        },
    }
}

/// Whether the walk lists the entries of a directory at `depth` (as
/// `may_descend`, for any depth).
pub open spec fn descends(max_depth: Option<usize>, depth: nat) -> bool {
    match max_depth {
        Some(m) => depth < m,
        None => true,
    }
}

/// The size that the plain walk reports for an entry of a listed tree,
/// given the size of each file: a file's own size; a directory's, the
/// sum over its entries where it is entered, else nothing.
pub open spec fn walk_size(n: TreeNode, file_size: spec_fn(TreeNode) -> nat, max_depth: Option<usize>, depth: nat) -> nat
    decreases n, 1nat,
{
    if !n.is_dir {
        file_size(n)
    } else if descends(max_depth, depth) {
        walk_size_in(n.children@, file_size, max_depth, depth + 1)
    } else {
        0
    }
}

/// The sizes that the plain walk reports for a list of entries, added up.
pub open spec fn walk_size_in(cs: Seq<TreeNode>, file_size: spec_fn(TreeNode) -> nat, max_depth: Option<usize>, depth: nat) -> nat
    decreases cs, 0nat,
{
    if cs.len() == 0 {
        0
    } else {
        walk_size_in(cs.drop_last(), file_size, max_depth, depth) + walk_size(cs.last(), file_size, max_depth, depth)
    }
}

/// The lines that the plain walk prints for an entry: one for the entry,
/// and a directory's entries' lines where it is entered.
pub open spec fn walk_lines(n: TreeNode, max_depth: Option<usize>, depth: nat) -> nat
    decreases n, 1nat,
{
    if n.is_dir && descends(max_depth, depth) {
        1 + walk_lines_in(n.children@, max_depth, depth + 1)
    } else {
        1
    }
}

/// The lines that the plain walk prints for a list of entries.
pub open spec fn walk_lines_in(cs: Seq<TreeNode>, max_depth: Option<usize>, depth: nat) -> nat
    decreases cs, 0nat,
{
    if cs.len() == 0 {
        0
    } else {
        walk_lines_in(cs.drop_last(), max_depth, depth) + walk_lines(cs.last(), max_depth, depth)
    }
}

proof fn lemma_kid_sums(cs: Seq<TreeNode>, kids: Seq<(u64, usize)>, file_size: spec_fn(TreeNode) -> nat, max_depth: Option<usize>, depth: nat)
    requires
        kids.len() == cs.len(),
        forall|i: int| 0 <= i < cs.len() ==> (#[trigger] kids[i]).0 == walk_size(cs[i], file_size, max_depth, depth)
            && kids[i].1 == walk_lines(cs[i], max_depth, depth),
    ensures
        size_sum(kids) == walk_size_in(cs, file_size, max_depth, depth),
        line_sum(kids) == walk_lines_in(cs, max_depth, depth),
    decreases cs.len(),
{
    if cs.len() > 0 {
        let (k2, c2) = (kids.drop_last(), cs.drop_last());
        assert forall|i: int| 0 <= i < c2.len() implies (#[trigger] k2[i]).0 == walk_size(c2[i], file_size, max_depth, depth)
            && k2[i].1 == walk_lines(c2[i], max_depth, depth) by {
            assert(k2[i] == kids[i] && c2[i] == cs[i]);
        }
        lemma_kid_sums(c2, k2, file_size, max_depth, depth);
        assert(kids.last() == kids[kids.len() - 1]);
    }
}

/// Law (`-s`): a directory's reported size is the recursive total of the
/// files listed below it.  Where each entry of a directory that the walk
/// enters reports the size and lines of the walk below it,
/// `finish_dir` (without a precomputed total, one line for the directory)
/// gives the directory's own: `walk_size` and `walk_lines` of the whole
/// subtree, so by induction every reported size is the sum of the listed
/// files' sizes beneath.
pub proof fn lemma_dir_totals_recursive(
    n: TreeNode,
    kids: Seq<(u64, usize)>,
    file_size: spec_fn(TreeNode) -> nat,
    max_depth: Option<usize>,
    depth: nat,
)
    requires
        n.is_dir,
        descends(max_depth, depth),
        kids.len() == n.children@.len(),
        forall|i: int|
            0 <= i < kids.len() ==> (#[trigger] kids[i]).0 == walk_size(n.children@[i], file_size, max_depth, depth + 1)
                && kids[i].1 == walk_lines(n.children@[i], max_depth, depth + 1),
    ensures
        dir_result(None, 1, kids) == (walk_size(n, file_size, max_depth, depth), walk_lines(n, max_depth, depth)),
{
    lemma_kid_sums(n.children@, kids, file_size, max_depth, depth + 1);
}

/// Whether an entry shows when empty directories are pruned and no
/// pattern is given: a file always; a directory when it is entered and
/// some entry below it shows.
pub open spec fn kept_by_prune(n: TreeNode, max_depth: Option<usize>, depth: nat) -> bool
    decreases n,
{
    if !n.is_dir {
        true
    } else {
        descends(max_depth, depth) && exists|i: int|
            0 <= i < n.children@.len() && kept_by_prune(#[trigger] n.children@[i], max_depth, depth + 1)
    }
}

/// Law (`--prune`): pruning keeps exactly the directories with a file
/// below them.  Without a pattern and below the match limit, a file is
/// always shown, and a directory is always held back; where its entries
/// (all of them, or none where it is not entered) report whether they
/// produced output as `kept_by_prune` says, `finish_held` says it produced
/// output exactly when `kept_by_prune` holds of it.
pub proof fn lemma_prune_keeps_dirs_with_files(
    opts: WalkOpts,
    matched: usize,
    name_matches: bool,
    n: TreeNode,
    kids: Seq<(bool, u64, usize)>,
    depth: nat,
)
    requires
        opts.prune,
        !limit_reached(opts.max_matches, matched),
        kids.len() == (if n.is_dir && descends(opts.max_depth, depth) {
            n.children@.len()
        } else {
            0
        }),
        forall|i: int|
            0 <= i < kids.len() ==> (#[trigger] kids[i]).0 == kept_by_prune(n.children@[i], opts.max_depth, depth + 1),
    ensures
        !n.is_dir ==> filtered_step_of(opts, matched, name_matches, false, false, true) == FilteredStep::ShowFile,
        n.is_dir ==> filtered_step_of(opts, matched, name_matches, false, true, true) == FilteredStep::HoldDir,
        n.is_dir ==> (any_produced(kids) <==> kept_by_prune(n, opts.max_depth, depth)),
{
    if n.is_dir {
        let cs = n.children@;
        if any_produced(kids) {
            let i = choose|i: int| 0 <= i < kids.len() && (#[trigger] kids[i]).0;
            assert(kept_by_prune(cs[i], opts.max_depth, depth + 1));
        }
        if kept_by_prune(n, opts.max_depth, depth) {
            let i = choose|i: int| 0 <= i < cs.len() && kept_by_prune(#[trigger] cs[i], opts.max_depth, depth + 1);
            assert(kids[i].0);
        }
    }
}

} // verus!
