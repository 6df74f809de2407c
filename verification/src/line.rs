use vstd::prelude::*;

use crate::colors::{ansi_text, file_color_text, LsColors};
use crate::perms::{format_perms, perms_text, FileKind};
use crate::text::{chars_of, decimal, digit_char, push_char, push_str, slice_chars, string_from};
use crate::timefmt::{format_timestamp, timestamp_text};
use crate::walk::{bytes_label, bytes_text, ColorMode, WalkOpts};

verus! {

/// What is known of an entry when its line is printed.
pub struct LineFacts {
    /// The name as shown (the full path with `-f`).
    pub display_name: String,
    pub is_dir: bool,
    pub is_link: bool,
    /// Where a symlink points, or `?` where it cannot be read.
    pub link_target: String,
    /// Type and mode for the permission column, where readable.
    pub perms: Option<(FileKind, u32)>,
    /// Seconds since the epoch for the date column.
    pub date_secs: i64,
    /// The icon to show, when icons are on.
    pub icon: Option<char>,
    /// The file's extension, for its color.
    pub ext: String,
    /// Some execute bit is set.
    pub is_exec: bool,
}

/// `s` with every leading copy of `p` removed (`str::trim_start_matches`).
pub open spec fn trim_start_all(s: Seq<char>, p: Seq<char>) -> Seq<char>
    decreases s.len(),
{
    if p.len() > 0 && p.len() <= s.len() && s.take(p.len() as int) == p {
        trim_start_all(s.skip(p.len() as int), p)
    } else {
        s
    }
}

/// `ESC [90m` (dark gray).
pub open spec fn dim() -> Seq<char> {
    seq!['\x1b', '[', '9', '0', 'm']
}

/// `ESC [0m` (reset).
pub open spec fn reset() -> Seq<char> {
    seq!['\x1b', '[', '0', 'm']
}

/// `ESC [36m` (cyan).
pub open spec fn cyan() -> Seq<char> {
    seq!['\x1b', '[', '3', '6', 'm']
}

fn push_dim(s: &mut String)
    ensures
        final(s)@ == old(s)@ + dim(),
{
    push_char(s, '\x1b');
    push_char(s, '[');
    push_char(s, '9');
    push_char(s, '0');
    push_char(s, 'm');
    assert(s@ =~= old(s)@ + dim());
}

fn push_reset(s: &mut String)
    ensures
        final(s)@ == old(s)@ + reset(),
{
    push_char(s, '\x1b');
    push_char(s, '[');
    push_char(s, '0');
    push_char(s, 'm');
    assert(s@ =~= old(s)@ + reset());
}

fn push_cyan(s: &mut String)
    ensures
        final(s)@ == old(s)@ + cyan(),
{
    push_char(s, '\x1b');
    push_char(s, '[');
    push_char(s, '3');
    push_char(s, '6');
    push_char(s, 'm');
    assert(s@ =~= old(s)@ + cyan());
}

/// The color of an entry's name: directory color for a directory; reset
/// unless colors are full; else the file color.
pub open spec fn name_color_text(opts: WalkOpts, f: LineFacts) -> Seq<char> {
    if f.is_dir {
        ansi_text(opts.ls_colors@.dir)
    } else if opts.color != ColorMode::Always {
        reset()
    } else {
        file_color_text(opts.ls_colors@, f.ext@, f.is_link, f.is_exec)
    }
}

/// The permission column and a space, with `-p`.
pub open spec fn perms_part(opts: WalkOpts, f: LineFacts) -> Seq<char> {
    if opts.permissions {
        perms_text(f.perms) + seq![' ']
    } else {
        Seq::empty()
    }
}

/// The date column and a space, with `-D`.
pub open spec fn date_part(opts: WalkOpts, f: LineFacts) -> Seq<char> {
    if opts.date {
        timestamp_text(f.date_secs) + seq![' ']
    } else {
        Seq::empty()
    }
}

/// ` -> TARGET` for a symlink.
pub open spec fn link_part(f: LineFacts) -> Seq<char> {
    if f.is_link {
        " -> "@ + f.link_target@
    } else {
        Seq::empty()
    }
}

/// ` [SIZE]` where sizes are shown and one is given: `human` with `-h`,
/// else the byte count and `B`.
pub open spec fn size_part(opts: WalkOpts, size: Option<u64>, human: Seq<char>) -> Seq<char> {
    match size {
        Some(b) => if opts.size {
            " ["@ + (if opts.human {
                human
            } else {
                bytes_text(b)
            }) + "]"@
        } else {
            Seq::empty()
        },
        None => Seq::empty(),
    }
}

/// The printed line of an entry.  Without color: prefix, permissions,
/// date, icon and a space, name, symlink target, size.  With color: the
/// prefix, permissions, date and size dimmed, icon and name in the name
/// color, the arrow dimmed and the target cyan.
pub open spec fn line_text(prefix: Seq<char>, f: LineFacts, size: Option<u64>, human: Seq<char>, opts: WalkOpts) -> Seq<char> {
    let ps = perms_part(opts, f);
    let ds = date_part(opts, f);
    let ls = link_part(f);
    let ss = size_part(opts, size, human);
    if opts.color == ColorMode::Never {
        prefix + ps + ds + match f.icon {
            Some(c) => seq![c, ' '],
            None => Seq::empty(),
        } + f.display_name@ + ls + ss
    } else {
        let nc = name_color_text(opts, f);
        dim() + prefix + reset() + (if ps.len() > 0 {
            dim() + ps + reset()
        } else {
            Seq::empty()
        }) + (if ds.len() > 0 {
            dim() + ds + reset()
        } else {
            Seq::empty()
        }) + match f.icon {
            Some(c) => nc + seq![c, ' '] + reset(),
            None => Seq::empty(),
        } + nc + f.display_name@ + reset() + (if f.is_link {
            dim() + " ->"@ + reset() + seq![' '] + cyan() + trim_start_all(ls, " -> "@) + reset()
        } else {
            Seq::empty()
        }) + (if ss.len() > 0 {
            dim() + ss + reset()
        } else {
            Seq::empty()
        })
    }
}

fn trim_start_matches(s: &str, p: &str) -> (res: String)
    ensures
        res@ == trim_start_all(s@, p@),
{
    let v = chars_of(s);
    let w = chars_of(p);
    let mut i: usize = 0;
    assert(v@.skip(0) =~= v@);
    while w.len() > 0 && w.len() <= v.len() - i && starts_at(&v, i, &w)
        invariant
            i <= v@.len(),
            v@ == s@,
            w@ == p@,
            trim_start_all(s@, p@) == trim_start_all(v@.skip(i as int), p@),
        decreases v@.len() - i,
    {
        proof {
            assert(v@.skip(i as int).take(w@.len() as int) =~= v@.subrange(i as int, i + w@.len()));
            assert(v@.skip(i as int).skip(w@.len() as int) =~= v@.skip(i + w@.len()));
        }
        i = i + w.len();
    }
    proof {
        if w@.len() > 0 && w@.len() <= v@.len() - i {
            assert(v@.skip(i as int).take(w@.len() as int) =~= v@.subrange(i as int, i + w@.len()));
        }
    }
    let t = slice_chars(&v, i, v.len());
    assert(t@ =~= v@.skip(i as int));
    string_from(&t)
}

fn starts_at(v: &Vec<char>, i: usize, w: &Vec<char>) -> (res: bool)
    requires
        i + w@.len() <= v@.len(),
    ensures
        res == (v@.subrange(i as int, i + w@.len()) == w@),
{
    assert(v@.len() == v.len());
    for k in 0..w.len()
        invariant
            i + w@.len() <= v@.len(),
            v@.len() == v.len(),
            forall|j: int| 0 <= j < k ==> v@[i + j] == w@[j],
    {
        if v[i + k] != w[k] {
            assert(v@.subrange(i as int, i + w@.len())[k as int] != w@[k as int]);
            return false;
        }
    }
    assert(v@.subrange(i as int, i + w@.len()) =~= w@);
    true
}

fn name_color(opts: &WalkOpts, f: &LineFacts) -> (res: String)
    ensures
        res@ == name_color_text(*opts, *f),
{
    if f.is_dir {
        opts.ls_colors.dir_color()
    } else if opts.color != ColorMode::Always {
        let none = String::new();
        let r = LsColors::ansi(none.as_str());
        assert(r@ =~= reset());
        r
    } else {
        opts.ls_colors.file_color(f.ext.as_str(), f.is_link, f.is_exec)
    }
}

fn perms_column(opts: &WalkOpts, f: &LineFacts) -> (res: String)
    ensures
        res@ == perms_part(*opts, *f),
{
    let mut ps = String::new();
    if opts.permissions {
        let p = format_perms(f.perms);
        push_str(&mut ps, p.as_str());
        push_char(&mut ps, ' ');
    }
    assert(ps@ =~= perms_part(*opts, *f));
    ps
}

fn date_column(opts: &WalkOpts, f: &LineFacts) -> (res: String)
    ensures
        res@ == date_part(*opts, *f),
{
    let mut ds = String::new();
    if opts.date {
        let d = format_timestamp(f.date_secs);
        push_str(&mut ds, d.as_str());
        push_char(&mut ds, ' ');
    }
    assert(ds@ =~= date_part(*opts, *f));
    ds
}

fn link_suffix(f: &LineFacts) -> (res: String)
    ensures
        res@ == link_part(*f),
{
    let mut ls = String::new();
    if f.is_link {
        push_str(&mut ls, " -> ");
        push_str(&mut ls, f.link_target.as_str());
    }
    assert(ls@ =~= link_part(*f));
    ls
}

fn size_suffix(opts: &WalkOpts, size: Option<u64>, human: &str) -> (res: String)
    ensures
        res@ == size_part(*opts, size, human@),
{
    let mut ss = String::new();
    match size {
        Some(b) => {
            if opts.size {
                push_str(&mut ss, " [");
                if opts.human {
                    push_str(&mut ss, human);
                } else {
                    let l = bytes_label(b);
                    push_str(&mut ss, l.as_str());
                }
                push_str(&mut ss, "]");
            }
        },
        None => {},
    }
    assert(ss@ =~= size_part(*opts, size, human@));
    ss
}

fn push_dimmed(out: &mut String, t: &str)
    ensures
        final(out)@ == old(out)@ + (if t@.len() > 0 {
            dim() + t@ + reset()
        } else {
            Seq::empty()
        }),
{
    if !t.is_empty() {
        push_dim(out);
        push_str(out, t);
        push_reset(out);
        assert(out@ =~= old(out)@ + (dim() + t@ + reset()));
    } else {
        assert(out@ =~= old(out)@ + Seq::<char>::empty());
    }
}

/// The line of an entry (see `line_text`); `human` is the size as `-h`
/// shows it, used only with `-h`.
#[verifier::rlimit(100)]
#[verifier::spinoff_prover]
pub fn format_line(prefix: &str, f: &LineFacts, size: Option<u64>, human: &str, opts: &WalkOpts) -> (res: String)
    ensures
        res@ == line_text(prefix@, *f, size, human@, *opts),
{
    let ps = perms_column(opts, f);
    let ds = date_column(opts, f);
    let ls = link_suffix(f);
    let ss = size_suffix(opts, size, human);
    let mut out = String::new();
    if opts.color == ColorMode::Never {
        push_str(&mut out, prefix);
        push_str(&mut out, ps.as_str());
        push_str(&mut out, ds.as_str());
        match f.icon {
            Some(c) => {
                push_char(&mut out, c);
                push_char(&mut out, ' ');
            },
            None => {},
        }
        push_str(&mut out, f.display_name.as_str());
        push_str(&mut out, ls.as_str());
        push_str(&mut out, ss.as_str());
        assert(out@ =~= line_text(prefix@, *f, size, human@, *opts));
        return out;
    }
    let nc = name_color(opts, f);
    let ghost s0 = out@;
    push_dim(&mut out);
    push_str(&mut out, prefix);
    push_reset(&mut out);
    push_dimmed(&mut out, ps.as_str());
    push_dimmed(&mut out, ds.as_str());
    let ghost s1 = out@;
    match f.icon {
        Some(c) => {
            push_str(&mut out, nc.as_str());
            push_char(&mut out, c);
            push_char(&mut out, ' ');
            push_reset(&mut out);
        },
        None => {},
    }
    push_str(&mut out, nc.as_str());
    push_str(&mut out, f.display_name.as_str());
    push_reset(&mut out);
    let ghost s2 = out@;
    if f.is_link {
        let target = trim_start_matches(ls.as_str(), " -> ");
        push_dim(&mut out);
        push_str(&mut out, " ->");
        push_reset(&mut out);
        push_char(&mut out, ' ');
        push_cyan(&mut out);
        push_str(&mut out, target.as_str());
        push_reset(&mut out);
    }
    let ghost s3 = out@;
    push_dimmed(&mut out, ss.as_str());
    proof {
        let nc_s = name_color_text(*opts, *f);
        assert(s1 =~= dim() + prefix@ + reset() + (if ps@.len() > 0 {
            dim() + ps@ + reset()
        } else {
            Seq::empty()
        }) + (if ds@.len() > 0 {
            dim() + ds@ + reset()
        } else {
            Seq::empty()
        }));
        assert(s2 =~= s1 + match f.icon {
            Some(c) => nc_s + seq![c, ' '] + reset(),
            None => Seq::empty(),
        } + nc_s + f.display_name@ + reset());
        assert(s3 =~= s2 + (if f.is_link {
            dim() + " ->"@ + reset() + seq![' '] + cyan() + trim_start_all(ls@, " -> "@) + reset()
        } else {
            Seq::empty()
        }));
    }
    assert(out@ =~= line_text(prefix@, *f, size, human@, *opts));
    out
}

/// One step of reading escape sequences: the next state and what is kept
/// of the character.  State 0 is plain text, 1 just after an ESC, 2
/// inside an SGR sequence (after ESC `[`, up to its `m`).
pub open spec fn sgr_step(st: nat, c: char) -> (nat, Seq<char>) {
    if st == 0 {
        if c == '\x1b' {
            (1, Seq::empty())
        } else {
            (0, seq![c])
        }
    } else if st == 1 {
        if c == '[' {
            (2, Seq::empty())
        } else if c == '\x1b' {
            (1, seq!['\x1b'])
        } else {
            (0, seq!['\x1b', c])
        }
    } else if c == 'm' {
        (0, Seq::empty())
    } else {
        (2, Seq::empty())
    }
}

/// What is kept of `s` read from state `st`.
pub open spec fn strip_from(s: Seq<char>, st: nat) -> Seq<char>
    decreases s.len(),
{
    if s.len() == 0 {
        Seq::empty()
    } else {
        sgr_step(st, s[0]).1 + strip_from(s.drop_first(), sgr_step(st, s[0]).0)
    }
}

/// The state after reading `s` from state `st`.
pub open spec fn state_after(s: Seq<char>, st: nat) -> nat
    decreases s.len(),
{
    if s.len() == 0 {
        st
    } else {
        state_after(s.drop_first(), sgr_step(st, s[0]).0)
    }
}

/// `s` with every SGR escape sequence (ESC `[` ... `m`) removed.
pub open spec fn strip_sgr(s: Seq<char>) -> Seq<char> {
    strip_from(s, 0)
}

/// `s` holds no ESC character.
pub open spec fn no_esc(s: Seq<char>) -> bool {
    forall|i: int| 0 <= i < s.len() ==> s[i] != '\x1b'
}

/// `code` holds no `m`, so it cannot end an SGR sequence early.
pub open spec fn sgr_code(code: Seq<char>) -> bool {
    forall|i: int| 0 <= i < code.len() ==> code[i] != 'm'
}

proof fn lemma_strip_concat(x: Seq<char>, y: Seq<char>, st: nat)
    ensures
        strip_from(x + y, st) == strip_from(x, st) + strip_from(y, state_after(x, st)),
        state_after(x + y, st) == state_after(y, state_after(x, st)),
    decreases x.len(),
{
    if x.len() == 0 {
        assert(x + y =~= y);
    } else {
        let st2 = sgr_step(st, x[0]).0;
        lemma_strip_concat(x.drop_first(), y, st2);
        assert((x + y).drop_first() =~= x.drop_first() + y);
        assert((x + y)[0] == x[0]);
        assert(strip_from(x + y, st) =~= sgr_step(st, x[0]).1 + (strip_from(x.drop_first(), st2) + strip_from(
            y,
            state_after(x.drop_first(), st2),
        )));
    }
}

proof fn lemma_strip_plain(a: Seq<char>)
    requires
        no_esc(a),
    ensures
        strip_from(a, 0) == a,
        state_after(a, 0) == 0,
    decreases a.len(),
{
    if a.len() > 0 {
        assert(no_esc(a.drop_first())) by {
            assert forall|i: int| 0 <= i < a.drop_first().len() implies a.drop_first()[i] != '\x1b' by {
                assert(a.drop_first()[i] == a[i + 1]);
            }
        }
        lemma_strip_plain(a.drop_first());
        assert(a =~= seq![a[0]] + a.drop_first());
    }
}

proof fn lemma_strip_code(code: Seq<char>)
    requires
        sgr_code(code),
    ensures
        strip_from(code + seq!['m'], 2) == Seq::<char>::empty(),
        state_after(code + seq!['m'], 2) == 0,
    decreases code.len(),
{
    reveal_with_fuel(strip_from, 2);
    reveal_with_fuel(state_after, 2);
    if code.len() == 0 {
        let t = code + seq!['m'];
        assert(t =~= seq!['m']);
        assert(t.drop_first() =~= Seq::<char>::empty());
        assert(t[0] == 'm');
        assert(strip_from(t.drop_first(), 0) == Seq::<char>::empty());
        assert(strip_from(t, 2) =~= Seq::<char>::empty());
    } else {
        assert(code[0] != 'm');
        assert(sgr_code(code.drop_first())) by {
            assert forall|i: int| 0 <= i < code.drop_first().len() implies code.drop_first()[i] != 'm' by {
                assert(code.drop_first()[i] == code[i + 1]);
            }
        }
        lemma_strip_code(code.drop_first());
        assert((code + seq!['m']).drop_first() =~= code.drop_first() + seq!['m']);
        assert((code + seq!['m'])[0] == code[0]);
    }
}

/// The SGR sequence `ESC [ code m` is removed whole.
proof fn lemma_strip_sgr_seq(code: Seq<char>)
    requires
        sgr_code(code),
    ensures
        strip_from(seq!['\x1b', '['] + code + seq!['m'], 0) == Seq::<char>::empty(),
        state_after(seq!['\x1b', '['] + code + seq!['m'], 0) == 0,
{
    let head = seq!['\x1b', '['];
    lemma_strip_code(code);
    assert(seq!['\x1b', '['] + code + seq!['m'] =~= head + (code + seq!['m']));
    lemma_strip_concat(head, code + seq!['m'], 0);
    reveal_with_fuel(strip_from, 3);
    reveal_with_fuel(state_after, 3);
    assert(head.drop_first() =~= seq!['[']);
    assert(head.drop_first().drop_first() =~= Seq::<char>::empty());
    assert(strip_from(head, 0) =~= Seq::<char>::empty());
    assert(state_after(head, 0) == 2);
}

/// An escape sequence for a code without `m` is removed whole.
proof fn lemma_strip_ansi(code: Seq<char>)
    requires
        sgr_code(code),
    ensures
        strip_from(ansi_text(code), 0) == Seq::<char>::empty(),
        state_after(ansi_text(code), 0) == 0,
{
    if code.len() == 0 {
        lemma_strip_sgr_seq(seq!['0']);
        assert(ansi_text(code) =~= seq!['\x1b', '['] + seq!['0'] + seq!['m']);
    } else {
        lemma_strip_sgr_seq(code);
    }
}

proof fn lemma_join(x: Seq<char>, y: Seq<char>, sx: Seq<char>, sy: Seq<char>)
    requires
        state_after(x, 0) == 0,
        strip_from(x, 0) == sx,
        state_after(y, 0) == 0,
        strip_from(y, 0) == sy,
    ensures
        state_after(x + y, 0) == 0,
        strip_from(x + y, 0) == sx + sy,
{
    lemma_strip_concat(x, y, 0);
}

proof fn lemma_dimmed(t: Seq<char>)
    requires
        no_esc(t),
    ensures
        state_after(dim() + t + reset(), 0) == 0,
        strip_from(dim() + t + reset(), 0) == t,
{
    lemma_strip_sgr_seq(seq!['9', '0']);
    assert(dim() =~= seq!['\x1b', '['] + seq!['9', '0'] + seq!['m']);
    lemma_strip_sgr_seq(seq!['0']);
    assert(reset() =~= seq!['\x1b', '['] + seq!['0'] + seq!['m']);
    lemma_strip_plain(t);
    lemma_join(dim(), t, Seq::empty(), t);
    lemma_join(dim() + t, reset(), t, Seq::empty());
    assert(t + Seq::<char>::empty() =~= t);
    assert(Seq::<char>::empty() + t =~= t);
}

proof fn lemma_digit_not_esc(d: nat)
    requires
        d < 10,
    ensures
        digit_char(d) != '\x1b',
{
    assert(digit_char(d) as u32 == d + 48);
}

proof fn lemma_decimal_no_esc(n: nat)
    ensures
        no_esc(decimal(n)),
    decreases n,
{
    if n < 10 {
        lemma_digit_not_esc(n);
    } else {
        lemma_decimal_no_esc(n / 10);
        lemma_digit_not_esc(n % 10);
        let d = decimal(n);
        assert forall|i: int| 0 <= i < d.len() implies d[i] != '\x1b' by {
            if i < decimal(n / 10).len() {
                assert(d[i] == decimal(n / 10)[i]);
            }
        }
    }
}

proof fn lemma_columns_no_esc(opts: WalkOpts, f: LineFacts, size: Option<u64>, human: Seq<char>)
    requires
        no_esc(human),
    ensures
        no_esc(perms_part(opts, f)),
        no_esc(date_part(opts, f)),
        no_esc(size_part(opts, size, human)),
{
    reveal_strlit(" [");
    reveal_strlit("]");
    let p = perms_part(opts, f);
    assert forall|i: int| 0 <= i < p.len() implies p[i] != '\x1b' by {}
    if opts.date {
        let secs = f.date_secs;
        crate::timefmt::lemma_shown_day_exists(secs);
        let t = crate::timefmt::clamped_secs(secs);
        let (year, doy) = crate::timefmt::year_and_day(t / 86400, 1970);
        let (month, dom) = crate::timefmt::month_and_day(year, doy, 0);
        assert(crate::timefmt::gregorian_days(crate::timefmt::month_abbrev(month), crate::timefmt::is_leap(year)) <= 31);
        lemma_digit_not_esc((dom + 1) % 10);
        lemma_digit_not_esc((dom + 1) / 10);
        lemma_digit_not_esc(((t / 3600) % 24) / 10);
        lemma_digit_not_esc(((t / 3600) % 24) % 10);
        lemma_digit_not_esc(((t / 60) % 60) / 10);
        lemma_digit_not_esc(((t / 60) % 60) % 10);
        let d = date_part(opts, f);
        assert forall|i: int| 0 <= i < d.len() implies d[i] != '\x1b' by {}
    }
    match size {
        Some(b) => {
            if opts.size && !opts.human {
                lemma_decimal_no_esc(b as nat);
            }
            let z = size_part(opts, size, human);
            assert forall|i: int| 0 <= i < z.len() implies z[i] != '\x1b' by {
                if opts.size && !opts.human {
                    let dd = decimal(b as nat);
                    if 2 <= i < 2 + dd.len() {
                        assert(z[i] == dd[i - 2]);
                    }
                } else if opts.size {
                    if 2 <= i < 2 + human.len() {
                        assert(z[i] == human[i - 2]);
                    }
                }
            }
        },
        None => {},
    }
}

/// Every code the name of an entry may be colored with holds no `m`.
pub open spec fn color_codes_ok(opts: WalkOpts) -> bool {
    let c = opts.ls_colors@;
    &&& sgr_code(c.dir)
    &&& sgr_code(c.link)
    &&& sgr_code(c.executable)
    &&& sgr_code(c.file)
    &&& forall|k: Seq<char>| c.exts.contains_key(k) ==> sgr_code(#[trigger] c.exts[k])
}

proof fn lemma_name_color_neutral(opts: WalkOpts, f: LineFacts)
    requires
        color_codes_ok(opts),
    ensures
        state_after(name_color_text(opts, f), 0) == 0,
        strip_from(name_color_text(opts, f), 0) == Seq::<char>::empty(),
{
    let c = opts.ls_colors@;
    let e = crate::text::lowercase(f.ext@);
    if f.is_dir {
        lemma_strip_ansi(c.dir);
    } else if opts.color != ColorMode::Always {
        lemma_strip_sgr_seq(seq!['0']);
        assert(reset() =~= seq!['\x1b', '['] + seq!['0'] + seq!['m']);
    } else if f.is_link {
        lemma_strip_ansi(c.link);
    } else if f.is_exec {
        lemma_strip_ansi(c.executable);
    } else if e.len() > 0 && c.exts.contains_key(e) {
        lemma_strip_ansi(c.exts[e]);
    } else {
        lemma_strip_ansi(c.file);
    }
}

/// Law: color only adds escape sequences.  Removing every SGR sequence
/// (ESC `[` ... `m`) from an entry's colored line gives its line without
/// color, for the same entry and options; so the columns come in the
/// same order with and without color.  This holds where the texts shown
/// hold no ESC of their own, the color codes no `m`, and a symlink's
/// target does not itself begin with ` -> ` (the colored line trims every
/// leading ` -> `).
pub proof fn lemma_color_only_adds_escapes(prefix: Seq<char>, f: LineFacts, size: Option<u64>, human: Seq<char>, opts: WalkOpts)
    requires
        opts.color != ColorMode::Never,
        color_codes_ok(opts),
        no_esc(prefix),
        no_esc(f.display_name@),
        no_esc(f.link_target@),
        no_esc(human),
        f.icon matches Some(c) ==> c != '\x1b',
        f.is_link ==> !(f.link_target@.len() >= 4 && f.link_target@.take(4) == " -> "@),
    ensures
        strip_sgr(line_text(prefix, f, size, human, opts)) == line_text(
            prefix,
            f,
            size,
            human,
            (WalkOpts { color: ColorMode::Never, ..opts }),
        ),
{
    lemma_columns_no_esc(opts, f, size, human);
    let never = WalkOpts { color: ColorMode::Never, ..opts };
    let ps = perms_part(opts, f);
    let ds = date_part(opts, f);
    let ls = link_part(f);
    let ss = size_part(opts, size, human);
    assert(perms_part(never, f) == ps);
    assert(date_part(never, f) == ds);
    assert(size_part(never, size, human) == ss);
    let nc = name_color_text(opts, f);
    let icon_plain: Seq<char> = match f.icon {
        Some(c) => seq![c, ' '],
        None => Seq::empty(),
    };
    let p_part = if ps.len() > 0 {
        dim() + ps + reset()
    } else {
        Seq::empty()
    };
    let d_part = if ds.len() > 0 {
        dim() + ds + reset()
    } else {
        Seq::empty()
    };
    let i_part = match f.icon {
        Some(c) => nc + seq![c, ' '] + reset(),
        None => Seq::empty(),
    };
    let l_part = if f.is_link {
        dim() + " ->"@ + reset() + seq![' '] + cyan() + trim_start_all(ls, " -> "@) + reset()
    } else {
        Seq::empty()
    };
    let s_part = if ss.len() > 0 {
        dim() + ss + reset()
    } else {
        Seq::empty()
    };
    // the pieces
    lemma_strip_sgr_seq(seq!['9', '0']);
    assert(dim() =~= seq!['\x1b', '['] + seq!['9', '0'] + seq!['m']);
    lemma_strip_sgr_seq(seq!['0']);
    assert(reset() =~= seq!['\x1b', '['] + seq!['0'] + seq!['m']);
    lemma_strip_sgr_seq(seq!['3', '6']);
    assert(cyan() =~= seq!['\x1b', '['] + seq!['3', '6'] + seq!['m']);
    lemma_name_color_neutral(opts, f);
    lemma_strip_plain(prefix);
    lemma_strip_plain(f.display_name@);
    assert(strip_from(Seq::<char>::empty(), 0) == Seq::<char>::empty());
    assert(state_after(Seq::<char>::empty(), 0) == 0);
    if ps.len() > 0 {
        lemma_dimmed(ps);
    }
    if ds.len() > 0 {
        lemma_dimmed(ds);
    }
    if ss.len() > 0 {
        lemma_dimmed(ss);
    }
    match f.icon {
        Some(c) => {
            lemma_strip_plain(seq![c, ' ']);
            lemma_join(nc, seq![c, ' '], Seq::empty(), seq![c, ' ']);
            lemma_join(nc + seq![c, ' '], reset(), seq![c, ' '], Seq::empty());
            assert(Seq::<char>::empty() + seq![c, ' '] =~= seq![c, ' ']);
            assert(seq![c, ' '] + Seq::<char>::empty() =~= seq![c, ' ']);
        },
        None => {},
    }
    if f.is_link {
        let t = f.link_target@;
        reveal_strlit(" -> ");
        reveal_strlit(" ->");
        assert(ls =~= " -> "@ + t);
        assert(ls.take(4) =~= " -> "@);
        assert(ls.skip(4) =~= t);
        assert(trim_start_all(ls, " -> "@) == trim_start_all(t, " -> "@));
        assert(trim_start_all(t, " -> "@) == t);
        lemma_strip_plain(" -> "@.take(3));
        assert(" -> "@.take(3) =~= " ->"@);
        lemma_strip_plain(seq![' ']);
        lemma_strip_plain(t);
        let a1 = dim() + " ->"@;
        lemma_join(dim(), " ->"@, Seq::empty(), " ->"@);
        lemma_join(a1, reset(), Seq::empty() + " ->"@, Seq::empty());
        let a2 = a1 + reset();
        lemma_join(a2, seq![' '], Seq::empty() + " ->"@ + Seq::empty(), seq![' ']);
        let a3 = a2 + seq![' '];
        lemma_join(a3, cyan(), Seq::empty() + " ->"@ + Seq::empty() + seq![' '], Seq::empty());
        let a4 = a3 + cyan();
        lemma_join(a4, t, Seq::empty() + " ->"@ + Seq::empty() + seq![' '] + Seq::empty(), t);
        let a5 = a4 + t;
        lemma_join(
            a5,
            reset(),
            Seq::empty() + " ->"@ + Seq::empty() + seq![' '] + Seq::empty() + t,
            Seq::empty(),
        );
        assert(Seq::empty() + " ->"@ + Seq::empty() + seq![' '] + Seq::empty() + t + Seq::empty() =~= ls);
    }
    // the whole line, piece by piece
    let line = line_text(prefix, f, size, human, opts);
    assert(line == dim() + prefix + reset() + p_part + d_part + i_part + nc + f.display_name@ + reset() + l_part + s_part);
    let sp = if ps.len() > 0 { ps } else { Seq::empty() };
    let sd = if ds.len() > 0 { ds } else { Seq::empty() };
    let sl = if f.is_link { ls } else { Seq::empty() };
    let sss = if ss.len() > 0 { ss } else { Seq::empty() };
    assert(sp == ps && sd == ds && sss == ss);
    assert(!f.is_link ==> ls =~= Seq::<char>::empty());
    assert(sl == ls);
    lemma_join(dim(), prefix, Seq::empty(), prefix);
    let b1 = dim() + prefix;
    lemma_join(b1, reset(), Seq::empty() + prefix, Seq::empty());
    let b2 = b1 + reset();
    let v2 = Seq::empty() + prefix + Seq::empty();
    lemma_join(b2, p_part, v2, sp);
    let b3 = b2 + p_part;
    lemma_join(b3, d_part, v2 + sp, sd);
    let b4 = b3 + d_part;
    lemma_join(b4, i_part, v2 + sp + sd, icon_plain);
    let b5 = b4 + i_part;
    lemma_join(b5, nc, v2 + sp + sd + icon_plain, Seq::empty());
    let b6 = b5 + nc;
    lemma_join(b6, f.display_name@, v2 + sp + sd + icon_plain + Seq::empty(), f.display_name@);
    let b7 = b6 + f.display_name@;
    lemma_join(b7, reset(), v2 + sp + sd + icon_plain + Seq::empty() + f.display_name@, Seq::empty());
    let b8 = b7 + reset();
    let v8 = v2 + sp + sd + icon_plain + Seq::empty() + f.display_name@ + Seq::empty();
    lemma_join(b8, l_part, v8, sl);
    let b9 = b8 + l_part;
    lemma_join(b9, s_part, v8 + sl, sss);
    assert(v8 + sl + sss =~= prefix + ps + ds + icon_plain + f.display_name@ + ls + ss);
}

} // verus!
