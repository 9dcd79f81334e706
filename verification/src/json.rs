//! JSON text.

use vstd::prelude::*;
use crate::text::{push_decimal, push_repeated, push_signed, repeated, signed};

verus! {

/// A digit below 16 in hexadecimal.
pub open spec fn hex(d: int) -> char {
    if d < 10 {
        crate::text::digit(d)
    } else if d == 10 {
        'a'
    } else if d == 11 {
        'b'
    } else if d == 12 {
        'c'
    } else if d == 13 {
        'd'
    } else if d == 14 {
        'e'
    } else {
        'f'
    }
}

/// How a character stands in a string. The quote, the backslash and control characters are
/// escaped.
pub open spec fn escaped(c: char) -> Seq<char> {
    if c == '"' {
        seq!['\\', '"']
    } else if c == '\\' {
        seq!['\\', '\\']
    } else if c == '\n' {
        seq!['\\', 'n']
    } else if c == '\r' {
        seq!['\\', 'r']
    } else if c == '\t' {
        seq!['\\', 't']
    } else if (c as u32) < 0x20 {
        seq!['\\', 'u', '0', '0', hex(c as u32 as int / 16), hex(c as u32 as int % 16)]
    } else {
        seq![c]
    }
}

/// Characters as they stand in a string.
pub open spec fn escaped_all(s: Seq<char>) -> Seq<char>
    decreases s.len(),
{
    if s.len() == 0 {
        Seq::empty()
    } else {
        escaped(s[0]) + escaped_all(s.skip(1))
    }
}

/// A string.
pub open spec fn quoted(s: Seq<char>) -> Seq<char> {
    seq!['"'] + escaped_all(s) + seq!['"']
}

/// The value for what is not known.
pub open spec fn null() -> Seq<char> {
    seq!['n', 'u', 'l', 'l']
}

/// A string or null.
pub open spec fn quoted_or_null(s: Option<Seq<char>>) -> Seq<char> {
    match s {
        Some(s) => quoted(s),
        None => null(),
    }
}

/// An integer or null.
pub open spec fn integer_or_null(n: Option<i64>) -> Seq<char> {
    match n {
        Some(n) => signed(n as int),
        None => null(),
    }
}

/// A truth value or null.
pub open spec fn bool_or_null(b: Option<bool>) -> Seq<char> {
    match b {
        Some(true) => seq!['t', 'r', 'u', 'e'],
        Some(false) => seq!['f', 'a', 'l', 's', 'e'],
        None => null(),
    }
}

/// Texts one after the other, with a separator between them.
pub open spec fn joined(parts: Seq<Seq<char>>, separator: Seq<char>) -> Seq<char>
    decreases parts.len(),
{
    if parts.len() == 0 {
        Seq::empty()
    } else if parts.len() == 1 {
        parts[0]
    } else {
        joined(parts.drop_last(), separator) + separator + parts.last()
    }
}

/// A list of strings.
pub open spec fn list(values: Seq<Seq<char>>) -> Seq<char> {
    seq!['['] + joined(values.map_values(|v: Seq<char>| quoted(v)), seq![',', ' ']) + seq![']']
}

/// A line of an object: a name and a value.
pub open spec fn member(indent: int, entry: (Seq<char>, Seq<char>)) -> Seq<char> {
    repeated(' ', indent + 2) + quoted(entry.0) + seq![':', ' '] + entry.1
}

/// An object, whose names and values stand one to a line.
pub open spec fn object(indent: int, entries: Seq<(Seq<char>, Seq<char>)>) -> Seq<char> {
    seq!['{', '\n'] + joined(
        entries.map_values(|e: (Seq<char>, Seq<char>)| member(indent, e)),
        seq![',', '\n'],
    ) + seq!['\n'] + repeated(' ', indent) + seq!['}']
}

/// Two characters, escaped, are the same in front of something only if they are the same.
proof fn escapes_differ(a: char, b: char, x: Seq<char>, y: Seq<char>)
    requires
        escaped(a) + x == escaped(b) + y,
    ensures
        a == b,
        x == y,
{
    let s = escaped(a) + x;
    let t = escaped(b) + y;
    assert(s[0] == escaped(a)[0] && t[0] == escaped(b)[0]);
    if escaped(a)[0] == '\\' {
        assert(s[1] == escaped(a)[1] && t[1] == escaped(b)[1]);
        if escaped(a)[1] == 'u' {
            assert(s[4] == escaped(a)[4] && t[4] == escaped(b)[4]);
            assert(s[5] == escaped(a)[5] && t[5] == escaped(b)[5]);
        }
    }
    assert(a == b);
    assert(x =~= s.skip(escaped(a).len() as int));
    assert(y =~= t.skip(escaped(b).len() as int));
}

/// Nothing is lost: texts that are the same as strings are the same.
pub proof fn quoted_once(a: Seq<char>, b: Seq<char>)
    requires
        quoted(a) == quoted(b),
    ensures
        a == b,
{
    assert(escaped_all(a) =~= quoted(a).subrange(1, quoted(a).len() - 1));
    assert(escaped_all(b) =~= quoted(b).subrange(1, quoted(b).len() - 1));
    escaped_once(a, b);
}

proof fn escaped_once(a: Seq<char>, b: Seq<char>)
    requires
        escaped_all(a) == escaped_all(b),
    ensures
        a == b,
    decreases a.len(),
{
    if a.len() > 0 && b.len() > 0 {
        escapes_differ(a[0], b[0], escaped_all(a.skip(1)), escaped_all(b.skip(1)));
        escaped_once(a.skip(1), b.skip(1));
        assert(a =~= seq![a[0]] + a.skip(1));
        assert(b =~= seq![b[0]] + b.skip(1));
    } else if a.len() > 0 {
        assert(escaped(a[0]).len() > 0);
    } else if b.len() > 0 {
        assert(escaped(b[0]).len() > 0);
    } else {
        assert(a =~= b);
    }
}

/// A string holds no control character.
pub proof fn quoted_is_plain(s: Seq<char>, i: int)
    requires
        0 <= i < quoted(s).len(),
    ensures
        quoted(s)[i] as u32 >= 0x20,
{
    if 0 < i < quoted(s).len() - 1 {
        escaped_is_plain(s, i - 1);
    }
}

proof fn escaped_is_plain(s: Seq<char>, i: int)
    requires
        0 <= i < escaped_all(s).len(),
    ensures
        escaped_all(s)[i] as u32 >= 0x20,
    decreases s.len(),
{
    let n = escaped(s[0]).len();
    if i >= n {
        escaped_is_plain(s.skip(1), i - n);
    }
}

/// A character at the end of a text is escaped last.
proof fn escaped_last(s: Seq<char>, c: char)
    ensures
        escaped_all(s.push(c)) == escaped_all(s) + escaped(c),
    decreases s.len(),
{
    reveal_with_fuel(escaped_all, 2);
    if s.len() == 0 {
        assert(s.push(c).skip(1) =~= Seq::<char>::empty());
        assert(escaped_all(s.push(c)) =~= escaped_all(s) + escaped(c));
    } else {
        escaped_last(s.skip(1), c);
        assert(s.push(c).skip(1) =~= s.skip(1).push(c));
        assert(escaped_all(s.push(c)) =~= escaped_all(s) + escaped(c));
    }
}

/// Appends a hexadecimal digit.
fn push_hex(out: &mut String, d: u32)
    requires
        d < 16,
    ensures
        final(out)@ == old(out)@.push(hex(d as int)),
{
    if d < 10 {
        let ghost before = out@;
        push_decimal(out, d as u64);
        assert(out@ =~= before.push(hex(d as int)));
    } else {
        let c: char = if d == 10 {
            'a'
        } else if d == 11 {
            'b'
        } else if d == 12 {
            'c'
        } else if d == 13 {
            'd'
        } else if d == 14 {
            'e'
        } else {
            'f'
        };
        out.push(c);
    }
}

/// Appends a character as it stands in a string.
fn push_escaped(out: &mut String, c: char)
    ensures
        final(out)@ == old(out)@ + escaped(c),
{
    let ghost before = out@;
    if c == '"' || c == '\\' {
        out.push('\\');
        out.push(c);
    } else if c == '\n' {
        out.push('\\');
        out.push('n');
    } else if c == '\r' {
        out.push('\\');
        out.push('r');
    } else if c == '\t' {
        out.push('\\');
        out.push('t');
    } else if (c as u32) < 0x20 {
        out.push('\\');
        out.push('u');
        out.push('0');
        out.push('0');
        push_hex(out, c as u32 / 16);
        push_hex(out, c as u32 % 16);
    } else {
        out.push(c);
    }
    assert(out@ =~= before + escaped(c));
}

/// Appends a string.
fn push_quoted(out: &mut String, s: &str)
    ensures
        final(out)@ == old(out)@ + quoted(s@),
{
    let ghost before = out@;
    out.push('"');
    assert(out@ =~= before + seq!['"'] + escaped_all(s@.take(0)));
    for c in it: s.chars()
        invariant
            it.seq() == s@,
            out@ == before + seq!['"'] + escaped_all(s@.take(it.index() as int)),
    {
        let ghost i = it.index() as int;
        push_escaped(out, c);
        proof {
            assert(s@.take(i + 1) =~= s@.take(i).push(c));
            escaped_last(s@.take(i), c);
            assert(out@ =~= before + seq!['"'] + escaped_all(s@.take(i + 1)));
        }
    }
    out.push('"');
    proof {
        assert(s@.take(s@.len() as int) =~= s@);
        assert(out@ =~= before + quoted(s@));
    }
}

/// A string.
pub fn jstr(s: &str) -> (r: String)
    ensures
        r@ == quoted(s@),
{
    let mut r: String = String::new();
    push_quoted(&mut r, s);
    assert(r@ =~= quoted(s@));
    r
}

/// The value for what is not known.
fn jnull() -> (r: String)
    ensures
        r@ == null(),
{
    proof {
        reveal_strlit("null");
    }
    let r: String = String::from_str("null");
    assert(r@ =~= null());
    r
}

/// A string or null.
pub fn jopt(value: Option<&str>) -> (r: String)
    ensures
        r@ == quoted_or_null(
            match value {
                Some(s) => Some(s@),
                None => None,
            },
        ),
{
    match value {
        Some(s) => jstr(s),
        None => jnull(),
    }
}

/// An integer or null.
pub fn jint(value: Option<i64>) -> (r: String)
    ensures
        r@ == integer_or_null(value),
{
    match value {
        Some(n) => {
            let mut r: String = String::new();
            push_signed(&mut r, n);
            assert(r@ =~= signed(n as int));
            r
        },
        None => jnull(),
    }
}

/// A truth value or null.
pub fn jbool(value: Option<bool>) -> (r: String)
    ensures
        r@ == bool_or_null(value),
{
    proof {
        reveal_strlit("true");
        reveal_strlit("false");
    }
    match value {
        Some(b) => {
            let r: String = String::from_str(
                if b {
                    "true"
                } else {
                    "false"
                },
            );
            assert(r@ =~= bool_or_null(value));
            r
        },
        None => jnull(),
    }
}

/// What texts say.
pub open spec fn texts(values: Seq<String>) -> Seq<Seq<char>> {
    values.map_values(|v: String| v@)
}

/// Texts are joined one by one.
proof fn joined_more(parts: Seq<Seq<char>>, separator: Seq<char>, i: int)
    requires
        0 <= i < parts.len(),
    ensures
        joined(parts.take(i + 1), separator) == if i == 0 {
            parts[0]
        } else {
            joined(parts.take(i), separator) + separator + parts[i]
        },
{
    assert(parts.take(i + 1).drop_last() =~= parts.take(i));
}

/// A list of strings.
pub fn jarray(values: &[String]) -> (r: String)
    ensures
        r@ == list(texts(values@)),
{
    let ghost parts = texts(values@).map_values(|v: Seq<char>| quoted(v));
    let mut r: String = String::new();
    r.push('[');
    let mut i: usize = 0;
    assert(r@ =~= seq!['['] + joined(parts.take(0), seq![',', ' ']));
    while i < values.len()
        invariant
            i <= values@.len(),
            parts == texts(values@).map_values(|v: Seq<char>| quoted(v)),
            r@ == seq!['['] + joined(parts.take(i as int), seq![',', ' ']),
        decreases values@.len() - i,
    {
        proof {
            joined_more(parts, seq![',', ' '], i as int);
        }
        if i > 0 {
            r.push(',');
            r.push(' ');
        }
        push_quoted(&mut r, values[i].as_str());
        i += 1;
        assert(r@ =~= seq!['['] + joined(parts.take(i as int), seq![',', ' ']));
    }
    r.push(']');
    assert(parts.take(i as int) =~= parts);
    assert(r@ =~= list(texts(values@)));
    r
}

/// What names and values say.
pub open spec fn entries(values: Seq<(&str, String)>) -> Seq<(Seq<char>, Seq<char>)> {
    values.map_values(|v: (&str, String)| (v.0@, v.1@))
}

/// An object, whose names and values stand one to a line.
pub fn jobj(indent: usize, values: &[(&str, String)]) -> (r: String)
    requires
        indent + 2 <= usize::MAX,
    ensures
        r@ == object(indent as int, entries(values@)),
{
    let ghost parts = entries(values@).map_values(
        |e: (Seq<char>, Seq<char>)| member(indent as int, e),
    );
    let mut r: String = String::new();
    r.push('{');
    r.push('\n');
    let mut i: usize = 0;
    assert(r@ =~= seq!['{', '\n'] + joined(parts.take(0), seq![',', '\n']));
    while i < values.len()
        invariant
            i <= values@.len(),
            indent + 2 <= usize::MAX,
            parts == entries(values@).map_values(
                |e: (Seq<char>, Seq<char>)| member(indent as int, e),
            ),
            r@ == seq!['{', '\n'] + joined(parts.take(i as int), seq![',', '\n']),
        decreases values@.len() - i,
    {
        proof {
            joined_more(parts, seq![',', '\n'], i as int);
            assert(parts[i as int] == member(
                indent as int,
                (values@[i as int].0@, values@[i as int].1@),
            ));
        }
        if i > 0 {
            r.push(',');
            r.push('\n');
        }
        push_repeated(&mut r, ' ', indent + 2);
        push_quoted(&mut r, values[i].0);
        r.push(':');
        r.push(' ');
        r.append(values[i].1.as_str());
        i += 1;
        assert(r@ =~= seq!['{', '\n'] + joined(parts.take(i as int), seq![',', '\n']));
    }
    r.push('\n');
    push_repeated(&mut r, ' ', indent);
    r.push('}');
    assert(parts.take(i as int) =~= parts);
    assert(r@ =~= object(indent as int, entries(values@)));
    r
}

} // verus!
