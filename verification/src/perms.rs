use vstd::prelude::*;

use crate::text::push_char;

verus! {

/// The type of a directory entry, as its metadata (not following a
/// symlink) reports it.
#[derive(PartialEq, Eq, Structural, Clone, Copy, Debug)]
pub enum FileKind {
    Dir,
    Symlink,
    BlockDevice,
    CharDevice,
    Fifo,
    Socket,
    Other,
}

/// The letter `ls -l` shows for a file type.
pub open spec fn kind_letter(k: FileKind) -> char {
    match k {
        FileKind::Dir => 'd',
        FileKind::Symlink => 'l',
        FileKind::BlockDevice => 'b',
        FileKind::CharDevice => 'c',
        FileKind::Fifo => 'p',
        FileKind::Socket => 's',
        FileKind::Other => '-',
    }
}

/// One `rwx` triple: `r`/`w` where the read/write bit is set, and for
/// the third place `x`/`-` by the execute bit, or, where the special bit
/// (setuid, setgid, sticky) is set, `sp_x`/`sp_no` by the execute bit.
pub open spec fn rwx_triple(
    mode: u32,
    r: u32,
    w: u32,
    x: u32,
    special: bool,
    sp_x: char,
    sp_no: char,
) -> Seq<char> {
    seq![
        if mode & r != 0 {
            'r'
        } else {
            '-'
        },
        if mode & w != 0 {
            'w'
        } else {
            '-'
        },
        if special {
            if mode & x != 0 {
                sp_x
            } else {
                sp_no
            }
        } else if mode & x != 0 {
            'x'
        } else {
            '-'
        },
    ]
}

/// `[` type letter, owner, group and other triples `]`, as `ls -l` shows
/// them (setuid and setgid as `s`/`S`, sticky as `t`/`T`); ten dashes
/// where the metadata could not be read.
pub open spec fn perms_text(info: Option<(FileKind, u32)>) -> Seq<char> {
    match info {
        None => seq!['[', '-', '-', '-', '-', '-', '-', '-', '-', '-', '-', ']'],
        Some((k, mode)) => seq!['[', kind_letter(k)] + rwx_triple(
            mode,
            0o400,
            0o200,
            0o100,
            mode & 0o4000 != 0,
            's',
            'S',
        ) + rwx_triple(mode, 0o040, 0o020, 0o010, mode & 0o2000 != 0, 's', 'S') + rwx_triple(
            mode,
            0o004,
            0o002,
            0o001,
            mode & 0o1000 != 0,
            't',
            'T',
        ) + seq![']'],
    }
}

/// One permission triple of a mode (see `rwx_triple`).
pub fn perms_rwx(mode: u32, r: u32, w: u32, x: u32, special: bool, sp_x: char, sp_no: char) -> (res: [char; 3])
    ensures
        res@ == rwx_triple(mode, r, w, x, special, sp_x, sp_no),
{
    let res = [
        if mode & r != 0 {
            'r'
        } else {
            '-'
        },
        if mode & w != 0 {
            'w'
        } else {
            '-'
        },
        if special {
            if mode & x != 0 {
                sp_x
            } else {
                sp_no
            }
        } else if mode & x != 0 {
            'x'
        } else {
            '-'
        },
    ];
    assert(res@ =~= rwx_triple(mode, r, w, x, special, sp_x, sp_no));
    res
}

fn kind_char(k: FileKind) -> (res: char)
    ensures
        res == kind_letter(k),
{
    match k {
        FileKind::Dir => 'd',
        FileKind::Symlink => 'l',
        FileKind::BlockDevice => 'b',
        FileKind::CharDevice => 'c',
        FileKind::Fifo => 'p',
        FileKind::Socket => 's',
        FileKind::Other => '-',
    }
}

fn push_triple(s: &mut String, t: [char; 3])
    ensures
        final(s)@ == old(s)@ + t@,
{
    push_char(s, t[0]);
    push_char(s, t[1]);
    push_char(s, t[2]);
    assert(s@ =~= old(s)@ + t@);
}

/// The `[drwxr-xr-x]` permission column for an entry's type and mode, or
/// `[----------]` where its metadata could not be read.
pub fn format_perms(info: Option<(FileKind, u32)>) -> (res: String)
    ensures
        res@ == perms_text(info),
{
    let mut out = String::new();
    match info {
        None => {
            push_char(&mut out, '[');
            let mut i: usize = 0;
            while i < 10
                invariant
                    i <= 10,
                    out@ == seq!['['] + Seq::new(i as nat, |j: int| '-'),
                decreases 10 - i,
            {
                push_char(&mut out, '-');
                i = i + 1;
                assert(out@ =~= seq!['['] + Seq::new(i as nat, |j: int| '-'));
            }
            push_char(&mut out, ']');
            assert(out@ =~= perms_text(info));
        },
        Some((k, mode)) => {
            push_char(&mut out, '[');
            push_char(&mut out, kind_char(k));
            let u = perms_rwx(mode, 0o400, 0o200, 0o100, mode & 0o4000 != 0, 's', 'S');
            let g = perms_rwx(mode, 0o040, 0o020, 0o010, mode & 0o2000 != 0, 's', 'S');
            let o = perms_rwx(mode, 0o004, 0o002, 0o001, mode & 0o1000 != 0, 't', 'T');
            push_triple(&mut out, u);
            push_triple(&mut out, g);
            push_triple(&mut out, o);
            push_char(&mut out, ']');
            assert(out@ =~= perms_text(info));
        },
    }
    out
}

} // verus!
