use vstd::prelude::*;

use crate::text::{chars_of, push_char, push_str};
use crate::tree::TreeNode;

verus! {

/// The JSON escaping of one character: backslash and double quote get a
/// backslash in front, every other character stays.
pub open spec fn json_escape_char(c: char) -> Seq<char> {
    if c == '\\' {
        seq!['\\', '\\']
    } else if c == '"' {
        seq!['\\', '"']
    } else {
        seq![c]
    }
}

/// The XML escaping of one character: `&`, `<`, `>` and `"` become
/// entities, every other character stays.
pub open spec fn xml_escape_char(c: char) -> Seq<char> {
    if c == '&' {
        seq!['&', 'a', 'm', 'p', ';']
    } else if c == '<' {
        seq!['&', 'l', 't', ';']
    } else if c == '>' {
        seq!['&', 'g', 't', ';']
    } else if c == '"' {
        seq!['&', 'q', 'u', 'o', 't', ';']
    } else {
        seq![c]
    }
}

/// A string with every character escaped for JSON.
pub open spec fn json_escaped(s: Seq<char>) -> Seq<char>
    decreases s.len(),
{
    if s.len() == 0 {
        Seq::empty()
    } else {
        json_escaped(s.drop_last()) + json_escape_char(s.last())
    }
}

/// A string with every character escaped for XML.
pub open spec fn xml_escaped(s: Seq<char>) -> Seq<char>
    decreases s.len(),
{
    if s.len() == 0 {
        Seq::empty()
    } else {
        xml_escaped(s.drop_last()) + xml_escape_char(s.last())
    }
}

/// `t` reads as the body of a JSON string with only the two escapes used
/// here: it is a run of units, each a character other than `\` and `"`,
/// or a `\` followed by `\` or `"`; so no quote ends the string early.
pub open spec fn json_string_body(t: Seq<char>) -> bool
    decreases t.len(),
{
    if t.len() == 0 {
        true
    } else if t[0] != '\\' && t[0] != '"' {
        json_string_body(t.drop_first())
    } else {
        t[0] == '\\' && t.len() >= 2 && (t[1] == '\\' || t[1] == '"') && json_string_body(t.skip(2))
    }
}

proof fn lemma_json_body_concat(a: Seq<char>, b: Seq<char>)
    requires
        json_string_body(a),
        json_string_body(b),
    ensures
        json_string_body(a + b),
    decreases a.len(),
{
    if a.len() > 0 {
        if a[0] != '\\' && a[0] != '"' {
            lemma_json_body_concat(a.drop_first(), b);
            assert((a + b).drop_first() =~= a.drop_first() + b);
        } else {
            lemma_json_body_concat(a.skip(2), b);
            assert((a + b).skip(2) =~= a.skip(2) + b);
        }
    } else {
        assert(a + b =~= b);
    }
}

/// Law: a JSON-escaped name is a well-formed JSON string body (see
/// `json_string_body`), whatever the name holds.
pub proof fn lemma_json_escaped_is_string_body(s: Seq<char>)
    ensures
        json_string_body(json_escaped(s)),
    decreases s.len(),
{
    if s.len() > 0 {
        lemma_json_escaped_is_string_body(s.drop_last());
        let e = json_escape_char(s.last());
        assert(json_string_body(Seq::<char>::empty()));
        if s.last() == '\\' || s.last() == '"' {
            assert(e.skip(2) =~= Seq::<char>::empty());
        } else {
            assert(e.drop_first() =~= Seq::<char>::empty());
        }
        assert(json_string_body(e));
        lemma_json_body_concat(json_escaped(s.drop_last()), e);
    }
}

/// Reads a JSON string body back: `\\` stands for `\`, `\"` for `"`,
/// every other character for itself.
pub open spec fn json_unescaped(t: Seq<char>) -> Seq<char>
    decreases t.len(),
{
    if t.len() == 0 {
        Seq::empty()
    } else if t[0] == '\\' && t.len() >= 2 && (t[1] == '\\' || t[1] == '"') {
        seq![t[1]] + json_unescaped(t.skip(2))
    } else {
        seq![t[0]] + json_unescaped(t.drop_first())
    }
}

proof fn lemma_json_unescape_concat(a: Seq<char>, b: Seq<char>)
    requires
        json_string_body(a),
    ensures
        json_unescaped(a + b) == json_unescaped(a) + json_unescaped(b),
    decreases a.len(),
{
    if a.len() == 0 {
        assert(a + b =~= b);
    } else if a[0] != '\\' && a[0] != '"' {
        lemma_json_unescape_concat(a.drop_first(), b);
        assert((a + b).drop_first() =~= a.drop_first() + b);
        assert(json_unescaped(a + b) =~= seq![a[0]] + (json_unescaped(a.drop_first()) + json_unescaped(b)));
    } else {
        lemma_json_unescape_concat(a.skip(2), b);
        assert((a + b).skip(2) =~= a.skip(2) + b);
        assert((a + b)[1] == a[1]);
        assert(json_unescaped(a + b) =~= seq![a[1]] + (json_unescaped(a.skip(2)) + json_unescaped(b)));
    }
}

/// Law: JSON escaping loses nothing: reading the escaped text back gives
/// exactly the name, every character included.
pub proof fn lemma_json_escape_round_trip(s: Seq<char>)
    ensures
        json_unescaped(json_escaped(s)) == s,
    decreases s.len(),
{
    if s.len() > 0 {
        lemma_json_escape_round_trip(s.drop_last());
        lemma_json_escaped_is_string_body(s.drop_last());
        let e = json_escape_char(s.last());
        lemma_json_unescape_concat(json_escaped(s.drop_last()), e);
        assert(json_unescaped(Seq::<char>::empty()) == Seq::<char>::empty());
        if s.last() == '\\' || s.last() == '"' {
            assert(e.skip(2) =~= Seq::<char>::empty());
        } else {
            assert(e.drop_first() =~= Seq::<char>::empty());
        }
        assert(json_unescaped(e) =~= seq![s.last()]);
        assert(s =~= s.drop_last() + seq![s.last()]);
    }
}

/// `t` begins with `e`.
pub open spec fn starts_with(t: Seq<char>, e: Seq<char>) -> bool {
    t.len() >= e.len() && t.take(e.len() as int) == e
}

/// Reads XML attribute text back: `&amp;`, `&lt;`, `&gt;` and `&quot;`
/// stand for `&`, `<`, `>` and `"`, every other character for itself.
pub open spec fn xml_unescaped(t: Seq<char>) -> Seq<char>
    decreases t.len(),
{
    if t.len() == 0 {
        Seq::empty()
    } else if starts_with(t, seq!['&', 'a', 'm', 'p', ';']) {
        seq!['&'] + xml_unescaped(t.skip(5))
    } else if starts_with(t, seq!['&', 'l', 't', ';']) {
        seq!['<'] + xml_unescaped(t.skip(4))
    } else if starts_with(t, seq!['&', 'g', 't', ';']) {
        seq!['>'] + xml_unescaped(t.skip(4))
    } else if starts_with(t, seq!['&', 'q', 'u', 'o', 't', ';']) {
        seq!['"'] + xml_unescaped(t.skip(6))
    } else {
        seq![t[0]] + xml_unescaped(t.drop_first())
    }
}

/// `t` is a run of units, each a character other than `&` or one of the
/// four entities.
pub open spec fn xml_units(t: Seq<char>) -> bool
    decreases t.len(),
{
    if t.len() == 0 {
        true
    } else if t[0] != '&' {
        xml_units(t.drop_first())
    } else if starts_with(t, seq!['&', 'a', 'm', 'p', ';']) {
        xml_units(t.skip(5))
    } else if starts_with(t, seq!['&', 'l', 't', ';']) || starts_with(t, seq!['&', 'g', 't', ';']) {
        xml_units(t.skip(4))
    } else {
        starts_with(t, seq!['&', 'q', 'u', 'o', 't', ';']) && xml_units(t.skip(6))
    }
}

proof fn lemma_starts_with_concat(a: Seq<char>, b: Seq<char>, e: Seq<char>)
    requires
        a.len() >= e.len() || a.len() > 0 && e.len() > 0 && a[0] != e[0],
    ensures
        starts_with(a + b, e) == starts_with(a, e),
{
    if a.len() >= e.len() {
        assert((a + b).take(e.len() as int) =~= a.take(e.len() as int));
    } else {
        assert((a + b)[0] == a[0]);
        if starts_with(a + b, e) {
            assert((a + b).take(e.len() as int)[0] == e[0]);
        }
    }
}

proof fn lemma_xml_unescape_concat(a: Seq<char>, b: Seq<char>)
    requires
        xml_units(a),
    ensures
        xml_unescaped(a + b) == xml_unescaped(a) + xml_unescaped(b),
    decreases a.len(),
{
    let amp = seq!['&', 'a', 'm', 'p', ';'];
    let lt = seq!['&', 'l', 't', ';'];
    let gt = seq!['&', 'g', 't', ';'];
    let quot = seq!['&', 'q', 'u', 'o', 't', ';'];
    if a.len() == 0 {
        assert(a + b =~= b);
    } else if a[0] != '&' {
        lemma_starts_with_concat(a, b, amp);
        lemma_starts_with_concat(a, b, lt);
        lemma_starts_with_concat(a, b, gt);
        lemma_starts_with_concat(a, b, quot);
        lemma_xml_unescape_concat(a.drop_first(), b);
        assert((a + b).drop_first() =~= a.drop_first() + b);
        assert((a + b)[0] == a[0]);
        assert(xml_unescaped(a + b) =~= seq![a[0]] + (xml_unescaped(a.drop_first()) + xml_unescaped(b)));
    } else if starts_with(a, amp) {
        lemma_starts_with_concat(a, b, amp);
        lemma_xml_unescape_concat(a.skip(5), b);
        assert((a + b).skip(5) =~= a.skip(5) + b);
        assert(xml_unescaped(a + b) =~= seq!['&'] + (xml_unescaped(a.skip(5)) + xml_unescaped(b)));
    } else if starts_with(a, lt) {
        assert(a.take(4)[1] == 'l');
        if starts_with(a + b, amp) {
            assert((a + b).take(5)[1] == 'a');
            assert((a + b)[1] == a[1]);
        }
        lemma_starts_with_concat(a, b, lt);
        lemma_xml_unescape_concat(a.skip(4), b);
        assert((a + b).skip(4) =~= a.skip(4) + b);
        assert(xml_unescaped(a + b) =~= seq!['<'] + (xml_unescaped(a.skip(4)) + xml_unescaped(b)));
    } else if starts_with(a, gt) {
        assert(a.take(4)[1] == 'g');
        if starts_with(a + b, amp) {
            assert((a + b).take(5)[1] == 'a');
            assert((a + b)[1] == a[1]);
        }
        if starts_with(a + b, lt) {
            assert((a + b).take(4)[1] == 'l');
            assert((a + b)[1] == a[1]);
        }
        lemma_starts_with_concat(a, b, gt);
        lemma_xml_unescape_concat(a.skip(4), b);
        assert((a + b).skip(4) =~= a.skip(4) + b);
        assert(xml_unescaped(a + b) =~= seq!['>'] + (xml_unescaped(a.skip(4)) + xml_unescaped(b)));
    } else {
        assert(starts_with(a, quot));
        assert(a.take(6)[1] == 'q');
        if starts_with(a + b, amp) {
            assert((a + b).take(5)[1] == 'a');
            assert((a + b)[1] == a[1]);
        }
        if starts_with(a + b, lt) {
            assert((a + b).take(4)[1] == 'l');
            assert((a + b)[1] == a[1]);
        }
        if starts_with(a + b, gt) {
            assert((a + b).take(4)[1] == 'g');
            assert((a + b)[1] == a[1]);
        }
        lemma_starts_with_concat(a, b, quot);
        lemma_xml_unescape_concat(a.skip(6), b);
        assert((a + b).skip(6) =~= a.skip(6) + b);
        assert(xml_unescaped(a + b) =~= seq!['"'] + (xml_unescaped(a.skip(6)) + xml_unescaped(b)));
    }
}

proof fn lemma_xml_units_concat(a: Seq<char>, b: Seq<char>)
    requires
        xml_units(a),
        xml_units(b),
    ensures
        xml_units(a + b),
    decreases a.len(),
{
    let amp = seq!['&', 'a', 'm', 'p', ';'];
    let lt = seq!['&', 'l', 't', ';'];
    let gt = seq!['&', 'g', 't', ';'];
    let quot = seq!['&', 'q', 'u', 'o', 't', ';'];
    if a.len() == 0 {
        assert(a + b =~= b);
    } else if a[0] != '&' {
        lemma_xml_units_concat(a.drop_first(), b);
        assert((a + b).drop_first() =~= a.drop_first() + b);
        assert((a + b)[0] == a[0]);
    } else {
        assert((a + b)[0] == a[0]);
        if starts_with(a, amp) {
            lemma_starts_with_concat(a, b, amp);
            lemma_xml_units_concat(a.skip(5), b);
            assert((a + b).skip(5) =~= a.skip(5) + b);
        } else if starts_with(a, lt) || starts_with(a, gt) {
            assert(a.take(4)[1] == 'l' || a.take(4)[1] == 'g');
            assert((a + b)[1] == a[1]);
            if starts_with(a + b, amp) {
                assert((a + b).take(5)[1] == 'a');
            }
            lemma_starts_with_concat(a, b, lt);
            lemma_starts_with_concat(a, b, gt);
            lemma_xml_units_concat(a.skip(4), b);
            assert((a + b).skip(4) =~= a.skip(4) + b);
        } else {
            assert(starts_with(a, quot));
            assert(a.take(6)[1] == 'q');
            assert((a + b)[1] == a[1]);
            if starts_with(a + b, amp) {
                assert((a + b).take(5)[1] == 'a');
            }
            if starts_with(a + b, lt) {
                assert((a + b).take(4)[1] == 'l');
            }
            if starts_with(a + b, gt) {
                assert((a + b).take(4)[1] == 'g');
            }
            lemma_starts_with_concat(a, b, quot);
            lemma_xml_units_concat(a.skip(6), b);
            assert((a + b).skip(6) =~= a.skip(6) + b);
        }
    }
}

proof fn lemma_xml_char_unit(c: char)
    ensures
        xml_units(xml_escape_char(c)),
        xml_unescaped(xml_escape_char(c)) == seq![c],
{
    let e = xml_escape_char(c);
    let amp = seq!['&', 'a', 'm', 'p', ';'];
    let lt = seq!['&', 'l', 't', ';'];
    let gt = seq!['&', 'g', 't', ';'];
    let quot = seq!['&', 'q', 'u', 'o', 't', ';'];
    assert(xml_units(Seq::<char>::empty()));
    assert(xml_unescaped(Seq::<char>::empty()) == Seq::<char>::empty());
    if c == '&' {
        assert(e.take(5) =~= amp);
        assert(e.skip(5) =~= Seq::<char>::empty());
    } else if c == '<' {
        assert(e.take(4) =~= lt);
        assert(e.skip(4) =~= Seq::<char>::empty());
        assert(!starts_with(e, amp));
    } else if c == '>' {
        assert(e.take(4) =~= gt);
        assert(e.skip(4) =~= Seq::<char>::empty());
        assert(!starts_with(e, amp));
        assert(e.take(4)[1] != 'l');
    } else if c == '"' {
        assert(e.take(6) =~= quot);
        assert(e.skip(6) =~= Seq::<char>::empty());
        assert(!starts_with(e, amp));
        assert(e.take(4)[1] != 'l');
        assert(e.take(4)[1] != 'g');
    } else {
        assert(e.drop_first() =~= Seq::<char>::empty());
        assert(!starts_with(e, amp) && !starts_with(e, lt) && !starts_with(e, gt) && !starts_with(e, quot));
    }
}

/// Law: XML escaping loses nothing: reading the escaped text back gives
/// exactly the name, every character included.
pub proof fn lemma_xml_escape_round_trip(s: Seq<char>)
    ensures
        xml_units(xml_escaped(s)),
        xml_unescaped(xml_escaped(s)) == s,
    decreases s.len(),
{
    if s.len() > 0 {
        lemma_xml_escape_round_trip(s.drop_last());
        lemma_xml_char_unit(s.last());
        lemma_xml_unescape_concat(xml_escaped(s.drop_last()), xml_escape_char(s.last()));
        lemma_xml_units_concat(xml_escaped(s.drop_last()), xml_escape_char(s.last()));
        assert(s =~= s.drop_last() + seq![s.last()]);
    } else {
        assert(xml_unescaped(Seq::<char>::empty()) == Seq::<char>::empty());
    }
}

/// Law: an XML-escaped name holds no `<`, `>` or `"`, so it can neither
/// end the attribute nor open a tag.
pub proof fn lemma_xml_escaped_no_markup(s: Seq<char>)
    ensures
        forall|i: int|
            0 <= i < xml_escaped(s).len() ==> #[trigger] xml_escaped(s)[i] != '<' && xml_escaped(s)[i] != '>'
                && xml_escaped(s)[i] != '"',
    decreases s.len(),
{
    if s.len() > 0 {
        lemma_xml_escaped_no_markup(s.drop_last());
        let a = xml_escaped(s.drop_last());
        let b = xml_escape_char(s.last());
        let t = xml_escaped(s);
        assert(t == a + b);
        assert forall|i: int| 0 <= i < t.len() implies #[trigger] t[i] != '<' && t[i] != '>' && t[i] != '"' by {
            if i < a.len() {
                assert(t[i] == a[i]);
            } else {
                assert(t[i] == b[i - a.len()]);
            }
        }
    }
}

/// `2 * n` spaces.
pub open spec fn spaces(n: nat) -> Seq<char> {
    Seq::new(2 * n, |i: int| ' ')
}

/// The JSON text of a node at an indentation: a directory as
/// `{"directory": "NAME", "contents": [`, its children one to a line,
/// then `]}`; a file, indented one level deeper, as
/// `{"type": "file", "name": "NAME"}`.
pub open spec fn json_text(n: TreeNode, indent: Seq<char>) -> Seq<char>
    decreases n,
{
    if n.is_dir {
        indent + "{\"directory\": \""@ + json_escaped(n.name@) + "\", \"contents\": ["@ + seq!['\n']
            + json_children(n.children@, indent + seq![' ', ' ']) + indent + "]}"@
    } else {
        indent + seq![' ', ' '] + "{\"type\": \"file\", \"name\": \""@ + json_escaped(n.name@)
            + "\"}"@
    }
}

/// The JSON texts of siblings, each followed by `,` and a newline, the
/// last by a newline only.
pub open spec fn json_children(cs: Seq<TreeNode>, indent: Seq<char>) -> Seq<char>
    decreases cs,
{
    if cs.len() == 0 {
        Seq::empty()
    } else {
        json_text(cs[0], indent) + (if cs.len() > 1 {
            seq![',', '\n']
        } else {
            seq!['\n']
        }) + json_children(cs.drop_first(), indent)
    }
}

/// The XML text of a node at an indentation, one element to a line:
/// `<directory name="NAME">` ... `</directory>` or `<file name="NAME"/>`.
pub open spec fn xml_text(n: TreeNode, indent: Seq<char>) -> Seq<char>
    decreases n,
{
    if n.is_dir {
        indent + "<directory name=\""@ + xml_escaped(n.name@) + "\">"@ + seq!['\n'] + xml_children(
            n.children@,
            indent + seq![' ', ' '],
        ) + indent + "</directory>"@ + seq!['\n']
    } else {
        indent + "<file name=\""@ + xml_escaped(n.name@) + "\"/>"@ + seq!['\n']
    }
}

/// The XML texts of siblings in order.
pub open spec fn xml_children(cs: Seq<TreeNode>, indent: Seq<char>) -> Seq<char>
    decreases cs,
{
    if cs.len() == 0 {
        Seq::empty()
    } else {
        xml_text(cs[0], indent) + xml_children(cs.drop_first(), indent)
    }
}

/// The JSON document for a tree: `[`, the tree one level in, `]`.
pub open spec fn json_document(t: TreeNode) -> Seq<char> {
    seq!['[', '\n'] + json_text(t, spaces(1)) + seq!['\n', ']', '\n']
}

/// The XML document for a tree: the XML declaration, then `<tree>`, the
/// tree one level in, `</tree>`.
pub open spec fn xml_document(t: TreeNode) -> Seq<char> {
    "<?xml version=\"1.0\" encoding=\"UTF-8\"?>"@ + seq!['\n'] + "<tree>"@ + seq!['\n'] + xml_text(
        t,
        spaces(1),
    ) + "</tree>"@ + seq!['\n']
}

/// Escapes `\` and `"` for a JSON string.
pub fn json_escape(s: &str) -> (res: String)
    ensures
        res@ == json_escaped(s@),
{
    let v = chars_of(s);
    let mut out = String::new();
    for i in 0..v.len()
        invariant
            out@ == json_escaped(v@.take(i as int)),
    {
        let c = v[i];
        if c == '\\' {
            push_char(&mut out, '\\');
            push_char(&mut out, '\\');
        } else if c == '"' {
            push_char(&mut out, '\\');
            push_char(&mut out, '"');
        } else {
            push_char(&mut out, c);
        }
        assert(v@.take(i + 1).drop_last() =~= v@.take(i as int));
        assert(out@ =~= json_escaped(v@.take(i + 1)));
    }
    assert(v@.take(v.len() as int) =~= v@);
    out
}

/// Escapes `&`, `<`, `>` and `"` for XML.
pub fn xml_escape(s: &str) -> (res: String)
    ensures
        res@ == xml_escaped(s@),
{
    let v = chars_of(s);
    let mut out = String::new();
    for i in 0..v.len()
        invariant
            out@ == xml_escaped(v@.take(i as int)),
    {
        let c = v[i];
        if c == '&' {
            push_char(&mut out, '&');
            push_char(&mut out, 'a');
            push_char(&mut out, 'm');
            push_char(&mut out, 'p');
            push_char(&mut out, ';');
        } else if c == '<' {
            push_char(&mut out, '&');
            push_char(&mut out, 'l');
            push_char(&mut out, 't');
            push_char(&mut out, ';');
        } else if c == '>' {
            push_char(&mut out, '&');
            push_char(&mut out, 'g');
            push_char(&mut out, 't');
            push_char(&mut out, ';');
        } else if c == '"' {
            push_char(&mut out, '&');
            push_char(&mut out, 'q');
            push_char(&mut out, 'u');
            push_char(&mut out, 'o');
            push_char(&mut out, 't');
            push_char(&mut out, ';');
        } else {
            push_char(&mut out, c);
        }
        assert(v@.take(i + 1).drop_last() =~= v@.take(i as int));
        assert(out@ =~= xml_escaped(v@.take(i + 1)));
    }
    assert(v@.take(v.len() as int) =~= v@);
    out
}

proof fn lemma_json_children_skip(cs: Seq<TreeNode>, i: int, indent: Seq<char>)
    requires
        0 <= i < cs.len(),
    ensures
        json_children(cs.skip(i), indent) == json_text(cs[i], indent) + (if i + 1 < cs.len() {
            seq![',', '\n']
        } else {
            seq!['\n']
        }) + json_children(cs.skip(i + 1), indent),
{
    assert(cs.skip(i).drop_first() =~= cs.skip(i + 1));
}

proof fn lemma_xml_children_skip(cs: Seq<TreeNode>, i: int, indent: Seq<char>)
    requires
        0 <= i < cs.len(),
    ensures
        xml_children(cs.skip(i), indent) == xml_text(cs[i], indent) + xml_children(cs.skip(i + 1), indent),
{
    assert(cs.skip(i).drop_first() =~= cs.skip(i + 1));
}

fn indent_more(indent: &str) -> (res: String)
    ensures
        res@ == indent@ + seq![' ', ' '],
{
    let mut s = String::new();
    push_str(&mut s, indent);
    push_char(&mut s, ' ');
    push_char(&mut s, ' ');
    assert(s@ =~= indent@ + seq![' ', ' ']);
    s
}

/// Appends the JSON text of `node` at `indent` (see `json_text`).
fn push_json(out: &mut String, node: &TreeNode, indent: &str)
    ensures
        final(out)@ == old(out)@ + json_text(*node, indent@),
    decreases node,
{
    let ghost start = out@;
    if node.is_dir {
        push_str(out, indent);
        push_str(out, "{\"directory\": \"");
        let name = json_escape(node.name.as_str());
        push_str(out, name.as_str());
        push_str(out, "\", \"contents\": [");
        push_char(out, '\n');
        let inner = indent_more(indent);
        let ghost mid = out@;
        let n = node.children.len();
        let mut i: usize = 0;
        assert(node.children@.skip(0) =~= node.children@);
        assert(json_children(node.children@, inner@) == Seq::<char>::empty() + json_children(
            node.children@.skip(0),
            inner@,
        ));
        while i < n
            invariant
                n == node.children@.len(),
                i <= n,
                json_children(node.children@, inner@) == out@.skip(mid.len() as int)
                    + json_children(node.children@.skip(i as int), inner@),
                mid.len() <= out@.len(),
                out@.take(mid.len() as int) == mid,
            decreases n - i,
        {
            proof {
                lemma_json_children_skip(node.children@, i as int, inner@);
            }
            let ghost before = out@;
            push_json(out, &node.children[i], inner.as_str());
            if i + 1 < n {
                push_char(out, ',');
                push_char(out, '\n');
            } else {
                push_char(out, '\n');
            }
            proof {
                assert(out@.take(mid.len() as int) =~= mid);
                assert(out@.skip(mid.len() as int) =~= before.skip(mid.len() as int) + json_text(
                    node.children@[i as int],
                    inner@,
                ) + (if i + 1 < n {
                    seq![',', '\n']
                } else {
                    seq!['\n']
                }));
            }
            i = i + 1;
        }
        assert(node.children@.skip(n as int) =~= Seq::<TreeNode>::empty());
        assert(out@ =~= mid + json_children(node.children@, inner@));
        push_str(out, indent);
        push_str(out, "]}");
        assert(out@ =~= start + json_text(*node, indent@));
    } else {
        push_str(out, indent);
        push_char(out, ' ');
        push_char(out, ' ');
        push_str(out, "{\"type\": \"file\", \"name\": \"");
        let name = json_escape(node.name.as_str());
        push_str(out, name.as_str());
        push_str(out, "\"}");
        assert(out@ =~= start + json_text(*node, indent@));
    }
}

/// Appends the XML text of `node` at `indent` (see `xml_text`).
fn push_xml(out: &mut String, node: &TreeNode, indent: &str)
    ensures
        final(out)@ == old(out)@ + xml_text(*node, indent@),
    decreases node,
{
    let ghost start = out@;
    if node.is_dir {
        push_str(out, indent);
        push_str(out, "<directory name=\"");
        let name = xml_escape(node.name.as_str());
        push_str(out, name.as_str());
        push_str(out, "\">");
        push_char(out, '\n');
        let inner = indent_more(indent);
        let ghost mid = out@;
        let n = node.children.len();
        let mut i: usize = 0;
        assert(node.children@.skip(0) =~= node.children@);
        while i < n
            invariant
                n == node.children@.len(),
                i <= n,
                xml_children(node.children@, inner@) == out@.skip(mid.len() as int) + xml_children(
                    node.children@.skip(i as int),
                    inner@,
                ),
                mid.len() <= out@.len(),
                out@.take(mid.len() as int) == mid,
            decreases n - i,
        {
            proof {
                lemma_xml_children_skip(node.children@, i as int, inner@);
            }
            let ghost before = out@;
            push_xml(out, &node.children[i], inner.as_str());
            proof {
                assert(out@.take(mid.len() as int) =~= mid);
                assert(out@.skip(mid.len() as int) =~= before.skip(mid.len() as int) + xml_text(
                    node.children@[i as int],
                    inner@,
                ));
            }
            i = i + 1;
        }
        assert(node.children@.skip(n as int) =~= Seq::<TreeNode>::empty());
        assert(out@ =~= mid + xml_children(node.children@, inner@));
        push_str(out, indent);
        push_str(out, "</directory>");
        push_char(out, '\n');
        assert(out@ =~= start + xml_text(*node, indent@));
    } else {
        push_str(out, indent);
        push_str(out, "<file name=\"");
        let name = xml_escape(node.name.as_str());
        push_str(out, name.as_str());
        push_str(out, "\"/>");
        push_char(out, '\n');
        assert(out@ =~= start + xml_text(*node, indent@));
    }
}

fn spaces_text(depth: usize) -> (res: String)
    ensures
        res@ == spaces(depth as nat),
{
    let mut s = String::new();
    let mut i: usize = 0;
    while i < depth
        invariant
            i <= depth,
            s@ == spaces(i as nat),
        decreases depth - i,
    {
        push_char(&mut s, ' ');
        push_char(&mut s, ' ');
        i = i + 1;
        assert(s@ =~= spaces(i as nat));
    }
    s
}

/// The JSON text of `node` at nesting `depth` (two spaces a level), as
/// the tree printer writes it (see `json_text`).
pub fn print_json(node: &TreeNode, depth: usize) -> (res: String)
    ensures
        res@ == json_text(*node, spaces(depth as nat)),
{
    let indent = spaces_text(depth);
    let mut out = String::new();
    push_json(&mut out, node, indent.as_str());
    assert(out@ =~= json_text(*node, spaces(depth as nat)));
    out
}

/// The XML text of `node` at nesting `depth` (see `xml_text`).
pub fn print_xml(node: &TreeNode, depth: usize) -> (res: String)
    ensures
        res@ == xml_text(*node, spaces(depth as nat)),
{
    let indent = spaces_text(depth);
    let mut out = String::new();
    push_xml(&mut out, node, indent.as_str());
    assert(out@ =~= xml_text(*node, spaces(depth as nat)));
    out
}

/// The whole JSON output for a tree.
pub fn output_json(tree: &TreeNode) -> (res: String)
    ensures
        res@ == json_document(*tree),
{
    let mut out = String::new();
    push_char(&mut out, '[');
    push_char(&mut out, '\n');
    let body = print_json(tree, 1);
    push_str(&mut out, body.as_str());
    push_char(&mut out, '\n');
    push_char(&mut out, ']');
    push_char(&mut out, '\n');
    assert(out@ =~= json_document(*tree));
    out
}

/// The whole XML output for a tree.
pub fn output_xml(tree: &TreeNode) -> (res: String)
    ensures
        res@ == xml_document(*tree),
{
    let mut out = String::new();
    push_str(&mut out, "<?xml version=\"1.0\" encoding=\"UTF-8\"?>");
    push_char(&mut out, '\n');
    push_str(&mut out, "<tree>");
    push_char(&mut out, '\n');
    let body = print_xml(tree, 1);
    push_str(&mut out, body.as_str());
    push_str(&mut out, "</tree>");
    push_char(&mut out, '\n');
    assert(out@ =~= xml_document(*tree));
    out
}

} // verus!
