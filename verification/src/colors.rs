use vstd::prelude::*;

use crate::text::{
    chars_of, digit_of, digit_value, digits_all, digits_value, find_char, find_char_in, is_ascii_digit,
    lemma_value_step,
    is_digit, lemma_value_prefix_le, lowercase, push_char, push_str, slice_chars, split_chars, split_on,
    string_from, to_lower,
};

verus! {

/// Colors for names, parsed from `EXA_COLORS` or `LS_COLORS`: SGR codes
/// (such as `34;1`) for directories, symlinks, executables, other files,
/// and by lowercase file extension.
#[derive(Clone)]
pub struct LsColors {
    pub dir: String,
    pub link: String,
    pub executable: String,
    pub file: String,
    /// Extension codes in the order they were given; a later entry for
    /// the same extension overrides an earlier one.
    pub extensions: Vec<(String, String)>,
}

/// The colors as values.
pub struct ColorsModel {
    pub dir: Seq<char>,
    pub link: Seq<char>,
    pub executable: Seq<char>,
    pub file: Seq<char>,
    pub exts: Map<Seq<char>, Seq<char>>,
}

/// The extension map that an association list denotes (later entries win).
pub open spec fn ext_map(s: Seq<(String, String)>) -> Map<Seq<char>, Seq<char>>
    decreases s.len(),
{
    if s.len() == 0 {
        Map::empty()
    } else {
        ext_map(s.drop_last()).insert(s.last().0@, s.last().1@)
    }
}

impl View for LsColors {
    type V = ColorsModel;

    open spec fn view(&self) -> ColorsModel {
        ColorsModel {
            dir: self.dir@,
            link: self.link@,
            executable: self.executable@,
            file: self.file@,
            exts: ext_map(self.extensions@),
        }
    }
}

/// The built-in colors: bold blue directories, bold cyan symlinks, bold
/// green executables, plain files, no extension colors.
pub open spec fn default_colors() -> ColorsModel {
    ColorsModel {
        dir: seq!['3', '4', ';', '1'],
        link: seq!['3', '6', ';', '1'],
        executable: seq!['3', '2', ';', '1'],
        file: Seq::empty(),
        exts: Map::empty(),
    }
}

/// The effect of one `key=value` entry of the color variable.
pub open spec fn apply_entry(c: ColorsModel, seg: Seq<char>) -> ColorsModel {
    match find_char(seg, '=') {
        None => c,
        Some(i) => {
            let k = seg.take(i as int);
            let v = seg.skip(i + 1 as int);
            if k == seq!['d', 'i'] {
                ColorsModel { dir: v, ..c }
            } else if k == seq!['l', 'n'] {
                ColorsModel { link: v, ..c }
            } else if k == seq!['e', 'x'] {
                ColorsModel { executable: v, ..c }
            } else if k == seq!['f', 'i'] {
                ColorsModel { file: v, ..c }
            } else if k.len() >= 2 && k[0] == '*' && k[1] == '.' {
                ColorsModel { exts: c.exts.insert(lowercase(k.skip(2)), v), ..c }
            } else {
                c
            }
        },
    }
}

/// The entries applied in order.
pub open spec fn apply_entries(c: ColorsModel, segs: Seq<Seq<char>>) -> ColorsModel
    decreases segs.len(),
{
    if segs.len() == 0 {
        c
    } else {
        apply_entry(apply_entries(c, segs.drop_last()), segs.last())
    }
}

/// The colors that a value of `EXA_COLORS`/`LS_COLORS` denotes: the
/// built-in colors, then each `:`-separated entry applied in turn.
pub open spec fn colors_of(raw: Seq<char>) -> ColorsModel {
    apply_entries(default_colors(), split_on(raw, ':'))
}

/// `ESC [ code m`, or the reset sequence `ESC [ 0 m` for an empty code.
pub open spec fn ansi_text(code: Seq<char>) -> Seq<char> {
    if code.len() == 0 {
        seq!['\x1b', '[', '0', 'm']
    } else {
        seq!['\x1b', '['] + code + seq!['m']
    }
}

/// The extension of a file name as `Path::extension` finds it: what
/// follows the last `.`, where that dot is not the first character;
/// empty where there is none.
pub open spec fn extension_of(name: Seq<char>) -> Seq<char> {
    match last_dot(name) {
        Some(i) => if i > 0 {
            name.skip(i + 1 as int)
        } else {
            Seq::empty()
        },
        None => Seq::empty(),
    }
}

/// Position of the last `.` in `s`.
pub open spec fn last_dot(s: Seq<char>) -> Option<nat>
    decreases s.len(),
{
    if s.len() == 0 {
        None
    } else if s.last() == '.' {
        Some((s.len() - 1) as nat)
    } else {
        last_dot(s.drop_last())
    }
}

/// Color of a file that is not a directory: symlink color for a
/// symlink, else executable color for an executable, else the color of
/// its (lowercased, nonempty) extension where one is given, else the
/// plain file color.
pub open spec fn file_color_text(c: ColorsModel, ext: Seq<char>, is_link: bool, is_exec: bool) -> Seq<char> {
    if is_link {
        ansi_text(c.link)
    } else if is_exec {
        ansi_text(c.executable)
    } else if lowercase(ext).len() > 0 && c.exts.contains_key(lowercase(ext)) {
        ansi_text(c.exts[lowercase(ext)])
    } else {
        ansi_text(c.file)
    }
}

/// A terminal color of the interactive view.
#[derive(PartialEq, Eq, Structural, Clone, Copy, Debug)]
pub enum TermColor {
    Reset,
    DarkGray,
    Red,
    Green,
    Yellow,
    Blue,
    Magenta,
    Cyan,
    White,
    Indexed(u8),
    Rgb(u8, u8, u8),
}

/// What `u8::from_str` accepts: an optional `+`, then at least one ASCII
/// digit, with a value of at most 255.
pub open spec fn u8_text(s: Seq<char>) -> Option<u8> {
    let t = if s.len() > 0 && s[0] == '+' {
        s.drop_first()
    } else {
        s
    };
    if t.len() > 0 && digits_all(t) && digits_value(t) <= 255 {
        Some(digits_value(t) as u8)
    } else {
        None
    }
}

/// The basic color that an SGR foreground code names.
pub open spec fn basic_color(p: Seq<char>) -> Option<TermColor> {
    if p == seq!['3', '0'] || p == seq!['9', '0'] {
        Some(TermColor::DarkGray)
    } else if p == seq!['3', '1'] || p == seq!['9', '1'] {
        Some(TermColor::Red)
    } else if p == seq!['3', '2'] || p == seq!['9', '2'] {
        Some(TermColor::Green)
    } else if p == seq!['3', '3'] || p == seq!['9', '3'] {
        Some(TermColor::Yellow)
    } else if p == seq!['3', '4'] || p == seq!['9', '4'] {
        Some(TermColor::Blue)
    } else if p == seq!['3', '5'] || p == seq!['9', '5'] {
        Some(TermColor::Magenta)
    } else if p == seq!['3', '6'] || p == seq!['9', '6'] {
        Some(TermColor::Cyan)
    } else if p == seq!['3', '7'] || p == seq!['9', '7'] {
        Some(TermColor::White)
    } else {
        None
    }
}

/// `u8` value of a field, 0 where it does not parse.
pub open spec fn u8_or_zero(s: Seq<char>) -> u8 {
    match u8_text(s) {
        Some(n) => n,
        None => 0,
    }
}

/// The first color that the `;`-separated SGR fields from position `i` on
/// select: `38;5;n` (where `n` parses as a `u8`) is color `n` of the 256,
/// `38;2;r;g;b` is that RGB color (fields that do not parse count as 0),
/// `30`..`37` and `90`..`97` are the basic colors; no color is `Reset`.
pub open spec fn color_from(parts: Seq<Seq<char>>, i: int) -> TermColor
    decreases parts.len() - i,
{
    if i < 0 || i >= parts.len() {
        TermColor::Reset
    } else if parts[i] == seq!['3', '8'] && i + 1 < parts.len() && parts[i + 1] == seq!['5']
        && i + 2 < parts.len() && u8_text(parts[i + 2]) is Some {
        TermColor::Indexed(u8_text(parts[i + 2]).unwrap())
    } else if parts[i] == seq!['3', '8'] && i + 1 < parts.len() && parts[i + 1] == seq!['2']
        && i + 4 < parts.len() {
        TermColor::Rgb(u8_or_zero(parts[i + 2]), u8_or_zero(parts[i + 3]), u8_or_zero(parts[i + 4]))
    } else if basic_color(parts[i]) is Some {
        basic_color(parts[i]).unwrap()
    } else {
        color_from(parts, i + 1)
    }
}

/// Color of a name in the interactive view: blue for a directory; for a
/// file, reset where it has no extension, else the color its extension's
/// code selects (reset where the extension has no code).
pub open spec fn name_color(c: ColorsModel, name: Seq<char>, is_dir: bool) -> TermColor {
    let ext = lowercase(extension_of(name));
    if is_dir {
        TermColor::Blue
    } else if ext.len() == 0 {
        TermColor::Reset
    } else if c.exts.contains_key(ext) {
        color_from(split_on(c.exts[ext], ';'), 0)
    } else {
        color_from(split_on(Seq::empty(), ';'), 0)
    }
}

proof fn lemma_split_join(a: Seq<char>, b: Seq<char>)
    ensures
        split_on(a + seq![':'] + b, ':') == split_on(a, ':') + split_on(b, ':'),
    decreases a.len(),
{
    let s = a + seq![':'] + b;
    crate::text::lemma_find_char(a, ':');
    match find_char(a, ':') {
        Some(i) => {
            assert forall|j: int| 0 <= j < i implies s[j] != ':' by {
                assert(s[j] == a[j]);
            }
            crate::text::lemma_find_char_at(s, ':', i as int);
            assert(s.take(i as int) =~= a.take(i as int));
            assert(s.skip(i + 1 as int) =~= a.skip(i + 1 as int) + seq![':'] + b);
            lemma_split_join(a.skip(i + 1 as int), b);
            assert(split_on(a + seq![':'] + b, ':') =~= split_on(a, ':') + split_on(b, ':'));
        },
        None => {
            assert forall|j: int| 0 <= j < a.len() implies s[j] != ':' by {
                assert(s[j] == a[j]);
            }
            crate::text::lemma_find_char_at(s, ':', a.len() as int);
            assert(s.take(a.len() as int) =~= a);
            assert(s.skip(a.len() + 1 as int) =~= b);
            assert(split_on(a + seq![':'] + b, ':') =~= split_on(a, ':') + split_on(b, ':'));
        },
    }
}

proof fn lemma_apply_entries_append(c: ColorsModel, s1: Seq<Seq<char>>, s2: Seq<Seq<char>>)
    ensures
        apply_entries(c, s1 + s2) == apply_entries(apply_entries(c, s1), s2),
    decreases s2.len(),
{
    if s2.len() == 0 {
        assert(s1 + s2 =~= s1);
    } else {
        assert((s1 + s2).drop_last() =~= s1 + s2.drop_last());
        assert((s1 + s2).last() == s2.last());
        lemma_apply_entries_append(c, s1, s2.drop_last());
    }
}

/// Law: the entries of a color variable apply from left to right: a
/// value made of two parts joined by `:` gives the colors of the first
/// part with the entries of the second applied over them, so a later
/// entry overrides an earlier one for the same key.
pub proof fn lemma_colors_left_to_right(a: Seq<char>, b: Seq<char>)
    ensures
        colors_of(a + seq![':'] + b) == apply_entries(colors_of(a), split_on(b, ':')),
{
    lemma_split_join(a, b);
    lemma_apply_entries_append(default_colors(), split_on(a, ':'), split_on(b, ':'));
}

fn is_pair(v: &Vec<char>, a: char, b: char) -> (res: bool)
    ensures
        res == (v@ == seq![a, b]),
{
    if v.len() == 2 && v[0] == a && v[1] == b {
        assert(v@ =~= seq![a, b]);
        true
    } else {
        false
    }
}

proof fn lemma_ext_map_suffix(s: Seq<(String, String)>, i: int, k: Seq<char>)
    requires
        0 <= i <= s.len(),
        forall|j: int| i <= j < s.len() ==> (#[trigger] s[j]).0@ != k,
    ensures
        ext_map(s).contains_key(k) == ext_map(s.take(i)).contains_key(k),
        ext_map(s)[k] == ext_map(s.take(i))[k],
    decreases s.len() - i,
{
    if i < s.len() {
        let d = s.drop_last();
        assert forall|j: int| i <= j < d.len() implies (#[trigger] d[j]).0@ != k by {
            assert(d[j] == s[j]);
        }
        lemma_ext_map_suffix(d, i, k);
        assert(d.take(i) =~= s.take(i));
        assert(s.last() == s[s.len() - 1]);
    } else {
        assert(s.take(i) =~= s);
    }
}

/// Whether two strings hold the same characters.
pub fn same_text(a: &str, b: &str) -> (res: bool)
    ensures
        res == (a@ == b@),
{
    let va = chars_of(a);
    let vb = chars_of(b);
    if va.len() != vb.len() {
        return false;
    }
    for i in 0..va.len()
        invariant
            va@ == a@,
            vb@ == b@,
            va@.len() == vb@.len(),
            forall|j: int| 0 <= j < i ==> va@[j] == vb@[j],
    {
        if va[i] != vb[i] {
            assert(va@[i as int] != vb@[i as int]);
            assert(a@ != b@);
            return false;
        }
    }
    assert(va@ =~= vb@);
    true
}

impl LsColors {
    /// The built-in colors.
    pub fn defaults() -> (res: LsColors)
        ensures
            res@ == default_colors(),
    {
        let mut dir = String::new();
        push_char(&mut dir, '3');
        push_char(&mut dir, '4');
        push_char(&mut dir, ';');
        push_char(&mut dir, '1');
        let mut link = String::new();
        push_char(&mut link, '3');
        push_char(&mut link, '6');
        push_char(&mut link, ';');
        push_char(&mut link, '1');
        let mut executable = String::new();
        push_char(&mut executable, '3');
        push_char(&mut executable, '2');
        push_char(&mut executable, ';');
        push_char(&mut executable, '1');
        let res = LsColors { dir, link, executable, file: String::new(), extensions: Vec::new() };
        assert(res@.dir =~= default_colors().dir);
        assert(res@.link =~= default_colors().link);
        assert(res@.executable =~= default_colors().executable);
        assert(res@.exts =~= default_colors().exts);
        res
    }

    /// Applies one `key=value` entry.
    fn apply(&mut self, seg: &Vec<char>)
        ensures
            final(self)@ == apply_entry(old(self)@, seg@),
    {
        let eq = find_char_in(seg, '=');
        match eq {
            None => {},
            Some(i) => {
                proof {
                    crate::text::lemma_find_char(seg@, '=');
                }
                assert(i < seg.len());
                let k = slice_chars(seg, 0, i);
                let v = slice_chars(seg, i + 1, seg.len());
                proof {
                    assert(k@ =~= seg@.take(i as int));
                    assert(v@ =~= seg@.skip(i + 1 as int));
                }
                let vs = string_from(&v);
                if is_pair(&k, 'd', 'i') {
                    self.dir = vs;
                } else if is_pair(&k, 'l', 'n') {
                    self.link = vs;
                } else if is_pair(&k, 'e', 'x') {
                    self.executable = vs;
                } else if is_pair(&k, 'f', 'i') {
                    self.file = vs;
                } else if k.len() >= 2 && k[0] == '*' && k[1] == '.' {
                    let rest = slice_chars(&k, 2, k.len());
                    assert(rest@ =~= k@.skip(2));
                    let rs = string_from(&rest);
                    let key = to_lower(rs.as_str());
                    let ghost old_list = self.extensions@;
                    self.extensions.push((key, vs));
                    assert(self.extensions@.drop_last() =~= old_list);
                }
            },
        }
    }

    /// Parses a value of `EXA_COLORS` or `LS_COLORS`: `:`-separated
    /// `key=value` entries, where `di`, `ln`, `ex`, `fi` set the directory,
    /// symlink, executable and file colors and `*.ext` sets the color of
    /// an extension (matched without regard to case); other entries are
    /// ignored.  Starts from the built-in colors.
    pub fn parse(raw: &str) -> (res: LsColors)
        ensures
            res@ == colors_of(raw@),
    {
        let mut lsc = LsColors::defaults();
        let chars = chars_of(raw);
        let segs = split_chars(&chars, ':');
        let ghost all = split_on(raw@, ':');
        for i in 0..segs.len()
            invariant
                segs@.len() == all.len(),
                all == split_on(raw@, ':'),
                forall|k: int| 0 <= k < segs@.len() ==> (#[trigger] segs@[k])@ == all[k],
                lsc@ == apply_entries(default_colors(), all.take(i as int)),
        {
            lsc.apply(&segs[i]);
            assert(all.take(i + 1).drop_last() =~= all.take(i as int));
        }
        assert(all.take(segs.len() as int) =~= all);
        lsc
    }

    /// The code given for an extension (already lowercased), if any.
    pub fn ext_code(&self, ext: &str) -> (res: Option<&String>)
        ensures
            res is Some <==> self@.exts.contains_key(ext@),
            res matches Some(v) ==> v@ == self@.exts[ext@],
    {
        let mut i = self.extensions.len();
        while i > 0
            invariant
                i <= self.extensions@.len(),
                forall|j: int| i <= j < self.extensions@.len() ==> (#[trigger] self.extensions@[j]).0@ != ext@,
            decreases i,
        {
            i = i - 1;
            let entry = &self.extensions[i];
            if same_text(entry.0.as_str(), ext) {
                proof {
                    let s = self.extensions@;
                    lemma_ext_map_suffix(s, i + 1, ext@);
                    assert(s.take(i + 1).drop_last() =~= s.take(i as int));
                }
                return Some(&entry.1);
            }
        }
        proof {
            lemma_ext_map_suffix(self.extensions@, 0, ext@);
        }
        None
    }

    /// The escape sequence for an SGR code.
    pub fn ansi(code: &str) -> (res: String)
        ensures
            res@ == ansi_text(code@),
    {
        let mut out = String::new();
        push_char(&mut out, '\x1b');
        push_char(&mut out, '[');
        if code.is_empty() {
            push_char(&mut out, '0');
        } else {
            push_str(&mut out, code);
        }
        push_char(&mut out, 'm');
        assert(out@ =~= ansi_text(code@));
        out
    }

    /// Escape sequence for directory names.
    pub fn dir_color(&self) -> (res: String)
        ensures
            res@ == ansi_text(self@.dir),
    {
        Self::ansi(self.dir.as_str())
    }

    /// Escape sequence for symlink names.
    pub fn link_color(&self) -> (res: String)
        ensures
            res@ == ansi_text(self@.link),
    {
        Self::ansi(self.link.as_str())
    }

    /// Escape sequence for a file that is not a directory, given its
    /// extension (as `Path::extension` finds it), whether it is a symlink
    /// and whether any execute bit is set on it.
    pub fn file_color(&self, ext: &str, is_link: bool, is_exec: bool) -> (res: String)
        ensures
            res@ == file_color_text(self@, ext@, is_link, is_exec),
    {
        if is_link {
            return self.link_color();
        }
        if is_exec {
            return Self::ansi(self.executable.as_str());
        }
        let lower = to_lower(ext);
        if !lower.as_str().is_empty() {
            match self.ext_code(lower.as_str()) {
                Some(c) => {
                    return Self::ansi(c.as_str());
                },
                None => {},
            }
        }
        Self::ansi(self.file.as_str())
    }
}

/// The extension of a file name, as `Path::extension` finds it (empty
/// where there is none).
pub fn extension_of_name(name: &str) -> (res: String)
    ensures
        res@ == extension_of(name@),
{
    let v = chars_of(name);
    let mut i = v.len();
    assert(v@.take(i as int) =~= v@);
    while i > 0 && v[i - 1] != '.'
        invariant
            i <= v@.len(),
            last_dot(v@) == last_dot(v@.take(i as int)),
        decreases i,
    {
        assert(v@.take(i as int).drop_last() =~= v@.take(i - 1));
        i = i - 1;
    }
    if i == 0 {
        assert(v@.take(0) =~= Seq::<char>::empty());
        return String::new();
    }
    assert(last_dot(v@.take(i as int)) == Some((i - 1) as nat));
    if i == 1 {
        return String::new();
    }
    let rest = slice_chars(&v, i, v.len());
    assert(rest@ =~= v@.skip(i as int));
    string_from(&rest)
}

/// Parses a field as `u8::from_str` does.
pub fn parse_u8(s: &Vec<char>) -> (res: Option<u8>)
    ensures
        res == u8_text(s@),
{
    let start: usize = if s.len() > 0 && s[0] == '+' {
        1
    } else {
        0
    };
    let ghost t = if s@.len() > 0 && s@[0] == '+' {
        s@.drop_first()
    } else {
        s@
    };
    assert(t =~= s@.skip(start as int));
    if start == s.len() {
        return None;
    }
    let mut acc: u64 = 0;
    let mut i = start;
    while i < s.len()
        invariant
            start <= i <= s@.len(),
            t =~= s@.skip(start as int),
            t == (if s@.len() > 0 && s@[0] == '+' {
                s@.drop_first()
            } else {
                s@
            }),
            digits_all(t.take(i - start)),
            acc == digits_value(t.take(i - start)),
            acc <= 255,
        decreases s@.len() - i,
    {
        if !is_ascii_digit(s[i]) {
            proof {
                assert(t[i - start] == s@[i as int]);
                assert(!is_digit(t[i - start]));
                assert(!digits_all(t));
                assert(u8_text(s@) is None);
            }
            return None;
        }
        let d = digit_of(s[i]);
        let next = acc * 10 + d;
        proof {
            assert(t[i - start] == s@[i as int]);
            lemma_value_step(t, i - start);
            assert(digits_all(t.take(i - start + 1))) by {
                assert forall|j: int| 0 <= j < i - start + 1 implies is_digit(#[trigger] t.take(i - start + 1)[j]) by {
                    if j < i - start {
                        assert(t.take(i - start + 1)[j] == t.take(i - start)[j]);
                    }
                }
            }
        }
        if next > 255 {
            proof {
                lemma_value_prefix_le(t, i - start + 1);
            }
            return None;
        }
        acc = next;
        i = i + 1;
    }
    assert(t.take(i - start) =~= t);
    Some(acc as u8)
}

/// The first color that the fields of an SGR code select (`Reset` where
/// none): see `color_from`.
pub fn ansi_code_to_color(code: &str) -> (res: TermColor)
    ensures
        res == color_from(split_on(code@, ';'), 0),
{
    let chars = chars_of(code);
    let parts = split_chars(&chars, ';');
    let ghost ps = split_on(code@, ';');
    let n = parts.len();
    let mut i: usize = 0;
    while i < n
        invariant
            n == parts@.len() == ps.len(),
            forall|k: int| 0 <= k < n ==> (#[trigger] parts@[k])@ == ps[k],
            ps == split_on(code@, ';'),
            color_from(ps, 0) == color_from(ps, i as int),
        decreases n - i,
    {
        let p = &parts[i];
        if is_pair(p, '3', '8') && n - i > 1 {
            let q = &parts[i + 1];
            if q.len() == 1 && q[0] == '5' && n - i > 2 {
                assert(q@ =~= seq!['5']);
                match parse_u8(&parts[i + 2]) {
                    Some(v) => {
                        return TermColor::Indexed(v);
                    },
                    None => {},
                }
            } else if q.len() == 1 && q[0] == '2' && n - i > 4 {
                assert(q@ =~= seq!['2']);
                let r = match parse_u8(&parts[i + 2]) {
                    Some(v) => v,
                    None => 0,
                };
                let g = match parse_u8(&parts[i + 3]) {
                    Some(v) => v,
                    None => 0,
                };
                let b = match parse_u8(&parts[i + 4]) {
                    Some(v) => v,
                    None => 0,
                };
                return TermColor::Rgb(r, g, b);
            }
            proof {
                if q@ == seq!['5'] {
                    assert(q@.len() == 1 && q@[0] == '5');
                }
                if q@ == seq!['2'] {
                    assert(q@.len() == 1 && q@[0] == '2');
                }
            }
        }
        let basic = basic_of(p);
        if let Some(c) = basic {
            return c;
        }
        i = i + 1;
    }
    TermColor::Reset
}

fn basic_of(p: &Vec<char>) -> (res: Option<TermColor>)
    ensures
        res == basic_color(p@),
{
    if p.len() != 2 || (p[0] != '3' && p[0] != '9') {
        proof {
            if p@.len() == 2 {
                assert(p@[0] != '3' && p@[0] != '9');
            }
        }
        return None;
    }
    let c = p[1];
    proof {
        assert(p@ =~= seq![p@[0], c]);
    }
    if c == '0' {
        Some(TermColor::DarkGray)
    } else if c == '1' {
        Some(TermColor::Red)
    } else if c == '2' {
        Some(TermColor::Green)
    } else if c == '3' {
        Some(TermColor::Yellow)
    } else if c == '4' {
        Some(TermColor::Blue)
    } else if c == '5' {
        Some(TermColor::Magenta)
    } else if c == '6' {
        Some(TermColor::Cyan)
    } else if c == '7' {
        Some(TermColor::White)
    } else {
        None
    }
}

/// Color of a name in the interactive view, by its extension's code in
/// `colors` (see `name_color`).
pub fn ratatui_color_for_name(colors: &LsColors, name: &str, is_dir: bool) -> (res: TermColor)
    ensures
        res == name_color(colors@, name@, is_dir),
{
    if is_dir {
        return TermColor::Blue;
    }
    let ext0 = extension_of_name(name);
    let ext = to_lower(ext0.as_str());
    if ext.as_str().is_empty() {
        return TermColor::Reset;
    }
    match colors.ext_code(ext.as_str()) {
        Some(code) => ansi_code_to_color(code.as_str()),
        None => {
            let none = String::new();
            ansi_code_to_color(none.as_str())
        },
    }
}

} // verus!
