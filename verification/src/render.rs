//! Pretty rendering of a value as indented JSON text, the form in which
//! the filter matches leaf values.

use vstd::prelude::*;

use crate::text;
use crate::value::Value;

verus! {

broadcast use vstd::std_specs::vec::group_vec_axioms, vstd::seq::group_seq_axioms;

/// A hexadecimal digit, lower case.
pub open spec fn hex_char(d: int) -> char {
    if d < 10 {
        text::digit_char(d)
    } else if d == 10 {
        'a'
    } else if d == 11 {
        'b'
    } else if d == 12 {
        'c'
    } else if d == 13 {
        'd'
    } else if d == 14 {
        'e'
    } else {
        'f'
    }
}

/// How one character appears inside a JSON string: quotes and backslashes
/// are escaped, control characters take their short or unicode escapes.
pub open spec fn esc_json_char(c: char) -> Seq<char> {
    if c == '"' {
        seq!['\\', '"']
    } else if c == '\\' {
        seq!['\\', '\\']
    } else if c == '\u{8}' {
        seq!['\\', 'b']
    } else if c == '\t' {
        seq!['\\', 't']
    } else if c == '\n' {
        seq!['\\', 'n']
    } else if c == '\u{c}' {
        seq!['\\', 'f']
    } else if c == '\r' {
        seq!['\\', 'r']
    } else if (c as u32) < 32 {
        seq!['\\', 'u', '0', '0', hex_char(c as u32 as int / 16), hex_char(c as u32 as int % 16)]
    } else {
        seq![c]
    }
}

/// A string's characters, escaped for JSON.
pub open spec fn esc_json(s: Seq<char>) -> Seq<char>
    decreases s.len(),
{
    if s.len() == 0 {
        Seq::empty()
    } else {
        esc_json(s.drop_last()) + esc_json_char(s.last())
    }
}

/// So many spaces.
pub open spec fn spaces(n: int) -> Seq<char>
    decreases n,
{
    if n <= 0 {
        Seq::empty()
    } else {
        spaces(n - 1).push(' ')
    }
}

/// The pretty rendering of a node at a nesting depth: scalars as their JSON
/// literals, containers over multiple lines with two-space indents.
pub open spec fn render(v: Value, ind: int) -> Seq<char>
    decreases v,
{
    match v {
        Value::Null => seq!['n', 'u', 'l', 'l'],
        Value::Bool(b) => text::bool_chars(b),
        Value::Number(n) => text::dec_i64(n as int),
        Value::String(s) => seq!['"'] + esc_json(s@) + seq!['"'],
        Value::Array(items) => if items@.len() == 0 {
            seq!['[', ']']
        } else {
            seq!['['] + arr_items(items@, ind) + seq!['\n'] + spaces(2 * ind) + seq![']']
        },
        Value::Object(entries) => if entries@.len() == 0 {
            seq!['{', '}']
        } else {
            seq!['{'] + obj_items(entries@, ind) + seq!['\n'] + spaces(2 * ind) + seq!['}']
        },
    }
}

/// The members of an array body, each on its own indented line.
pub open spec fn arr_items(items: Seq<Value>, ind: int) -> Seq<char>
    decreases items,
{
    if items.len() == 0 {
        Seq::empty()
    } else {
        arr_items(items.drop_last(), ind) + (if items.len() == 1 {
            seq!['\n']
        } else {
            seq![',', '\n']
        }) + spaces(2 * (ind + 1)) + render(items.last(), ind + 1)
    }
}

/// The members of an object body: quoted escaped keys, then their values.
pub open spec fn obj_items(entries: Seq<(String, Value)>, ind: int) -> Seq<char>
    decreases entries,
{
    if entries.len() == 0 {
        Seq::empty()
    } else {
        obj_items(entries.drop_last(), ind) + (if entries.len() == 1 {
            seq!['\n']
        } else {
            seq![',', '\n']
        }) + spaces(2 * (ind + 1)) + seq!['"'] + esc_json(entries.last().0@) + seq!['"', ':', ' ']
            + render(entries.last().1, ind + 1)
    }
}

/// Append one escaped character.
fn push_escaped(c: char, out: &mut Vec<char>)
    ensures
        final(out)@ == old(out)@ + esc_json_char(c),
{
    let ghost start = out@;
    if c == '"' {
        out.push('\\');
        out.push('"');
    } else if c == '\\' {
        out.push('\\');
        out.push('\\');
    } else if c == '\u{8}' {
        out.push('\\');
        out.push('b');
    } else if c == '\t' {
        out.push('\\');
        out.push('t');
    } else if c == '\n' {
        out.push('\\');
        out.push('n');
    } else if c == '\u{c}' {
        out.push('\\');
        out.push('f');
    } else if c == '\r' {
        out.push('\\');
        out.push('r');
    } else if (c as u32) < 32 {
        let u = c as u32;
        out.push('\\');
        out.push('u');
        out.push('0');
        out.push('0');
        let hi = u / 16;
        let lo = u % 16;
        out.push(if hi < 10 {
            ((48 + hi) as u8) as char
        } else {
            ((87 + hi) as u8) as char
        });
        out.push(if lo < 10 {
            ((48 + lo) as u8) as char
        } else {
            ((87 + lo) as u8) as char
        });
        proof {
            assert(hex_char(hi as int) == (if hi < 10 {
                ((48 + hi) as u8) as char
            } else {
                ((87 + hi) as u8) as char
            }));
            assert(hex_char(lo as int) == (if lo < 10 {
                ((48 + lo) as u8) as char
            } else {
                ((87 + lo) as u8) as char
            }));
        }
    } else {
        out.push(c);
    }
    proof {
        assert(out@ =~= start + esc_json_char(c));
    }
}

/// Append a string's characters, escaped.
fn push_json_string(s: &str, out: &mut Vec<char>)
    ensures
        final(out)@ == old(out)@ + esc_json(s@),
{
    let ghost start = out@;
    let cs = text::chars_vec(s);
    let n = cs.len();
    let mut i: usize = 0;
    proof {
        assert(esc_json(s@.take(0)) =~= Seq::<char>::empty());
        assert(out@ =~= start + esc_json(s@.take(0)));
    }
    while i < n
        invariant
            cs@ == s@,
            n == s@.len(),
            i <= n,
            out@ == start + esc_json(s@.take(i as int)),
        decreases n - i,
    {
        proof {
            assert(s@.take(i + 1).drop_last() =~= s@.take(i as int));
            assert(s@.take(i + 1).last() == s@[i as int]);
        }
        push_escaped(cs[i], out);
        proof {
            assert(out@ =~= start + esc_json(s@.take(i + 1)));
        }
        i = i + 1;
    }
    proof {
        assert(s@.take(n as int) =~= s@);
    }
}

/// Append the current indentation.
fn push_pad(pad: &Vec<char>, out: &mut Vec<char>)
    ensures
        final(out)@ == old(out)@ + pad@,
{
    let ghost start = out@;
    let n = pad.len();
    let mut i: usize = 0;
    while i < n
        invariant
            n == pad@.len(),
            i <= n,
            out@ == start + pad@.take(i as int),
        decreases n - i,
    {
        out.push(pad[i]);
        proof {
            assert(out@ =~= start + pad@.take(i + 1));
        }
        i = i + 1;
    }
    proof {
        assert(pad@.take(n as int) =~= pad@);
    }
}

/// Append the pretty rendering of a node; the pad holds the current
/// indentation and is handed back as it came.
fn render_into(v: &Value, pad: &mut Vec<char>, out: &mut Vec<char>, ind: Ghost<int>)
    requires
        old(pad)@ == spaces(2 * ind@),
        ind@ >= 0,
    ensures
        final(pad)@ == old(pad)@,
        final(out)@ == old(out)@ + render(*v, ind@),
    decreases *v,
{
    let ghost start = out@;
    match v {
        Value::Null => {
            out.push('n');
            out.push('u');
            out.push('l');
            out.push('l');
            proof {
                assert(out@ =~= start + render(*v, ind@));
            }
        },
        Value::Bool(b) => {
            let rendered = text::bool_to_string(*b);
            let cs = text::chars_vec(rendered.as_str());
            let mut i: usize = 0;
            while i < cs.len()
                invariant
                    cs@ == text::bool_chars(*b),
                    i <= cs@.len(),
                    out@ == start + cs@.take(i as int),
                decreases cs@.len() - i,
            {
                out.push(cs[i]);
                proof {
                    assert(out@ =~= start + cs@.take(i + 1));
                }
                i = i + 1;
            }
            proof {
                assert(cs@.take(cs@.len() as int) =~= cs@);
                assert(out@ =~= start + render(*v, ind@));
            }
        },
        Value::Number(n) => {
            let rendered = text::i64_to_string(*n);
            let cs = text::chars_vec(rendered.as_str());
            let mut i: usize = 0;
            while i < cs.len()
                invariant
                    cs@ == text::dec_i64(*n as int),
                    i <= cs@.len(),
                    out@ == start + cs@.take(i as int),
                decreases cs@.len() - i,
            {
                out.push(cs[i]);
                proof {
                    assert(out@ =~= start + cs@.take(i + 1));
                }
                i = i + 1;
            }
            proof {
                assert(cs@.take(cs@.len() as int) =~= cs@);
                assert(out@ =~= start + render(*v, ind@));
            }
        },
        Value::String(s) => {
            out.push('"');
            push_json_string(s.as_str(), out);
            out.push('"');
            proof {
                assert(out@ =~= start + render(*v, ind@));
            }
        },
        Value::Array(items) => {
            let len = items.len();
            if len == 0 {
                out.push('[');
                out.push(']');
                proof {
                    assert(out@ =~= start + render(*v, ind@));
                }
            } else {
                out.push('[');
                pad.push(' ');
                pad.push(' ');
                proof {
                    assert(spaces(2 * ind@ + 1) == spaces(2 * ind@).push(' '));
                    assert(spaces(2 * ind@ + 2) == spaces(2 * ind@ + 1).push(' '));
                    assert(pad@ =~= spaces(2 * (ind@ + 1)));
                }
                let ghost its = items@;
                let mut i: usize = 0;
                proof {
                    assert(arr_items(its.take(0), ind@) =~= Seq::<char>::empty());
                    assert(out@ =~= start + seq!['['] + arr_items(its.take(0), ind@));
                }
                while i < len
                    invariant
                        len == items@.len(),
                        its == items@,
                        *v == Value::Array(*items),
                        ind@ >= 0,
                        i <= len,
                        pad@ == spaces(2 * (ind@ + 1)),
                        out@ == start + seq!['['] + arr_items(its.take(i as int), ind@),
                    decreases len - i,
                {
                    proof {
                        assert(its.take(i + 1).drop_last() =~= its.take(i as int));
                        assert(its.take(i + 1).last() == its[i as int]);
                    }
                    if i == 0 {
                        out.push('\n');
                    } else {
                        out.push(',');
                        out.push('\n');
                    }
                    push_pad(pad, out);
                    proof {
                        assert(decreases_to!(*v => v->Array_0));
                        assert(decreases_to!(v->Array_0 => v->Array_0@));
                        assert(decreases_to!(v->Array_0@ => v->Array_0@[i as int]));
                        assert(decreases_to!(*v => its[i as int]));
                    }
                    render_into(&items[i], pad, out, Ghost(ind@ + 1));
                    proof {
                        assert(out@ =~= start + seq!['['] + arr_items(its.take(i + 1), ind@));
                    }
                    i = i + 1;
                }
                pad.pop();
                pad.pop();
                proof {
                    assert(spaces(2 * ind@ + 1) == spaces(2 * ind@).push(' '));
                    assert(spaces(2 * ind@ + 2) == spaces(2 * ind@ + 1).push(' '));
                    assert(spaces(2 * ind@ + 2).drop_last() =~= spaces(2 * ind@ + 1));
                    assert(spaces(2 * ind@ + 1).drop_last() =~= spaces(2 * ind@));
                    assert(pad@ =~= spaces(2 * ind@));
                }
                out.push('\n');
                push_pad(pad, out);
                out.push(']');
                proof {
                    assert(its.take(len as int) =~= its);
                    assert(out@ =~= start + render(*v, ind@));
                }
            }
        },
        Value::Object(entries) => {
            let len = entries.len();
            if len == 0 {
                out.push('{');
                out.push('}');
                proof {
                    assert(out@ =~= start + render(*v, ind@));
                }
            } else {
                out.push('{');
                pad.push(' ');
                pad.push(' ');
                proof {
                    assert(spaces(2 * ind@ + 1) == spaces(2 * ind@).push(' '));
                    assert(spaces(2 * ind@ + 2) == spaces(2 * ind@ + 1).push(' '));
                    assert(pad@ =~= spaces(2 * (ind@ + 1)));
                }
                let ghost es = entries@;
                let mut i: usize = 0;
                proof {
                    assert(obj_items(es.take(0), ind@) =~= Seq::<char>::empty());
                    assert(out@ =~= start + seq!['{'] + obj_items(es.take(0), ind@));
                }
                while i < len
                    invariant
                        len == entries@.len(),
                        es == entries@,
                        *v == Value::Object(*entries),
                        ind@ >= 0,
                        i <= len,
                        pad@ == spaces(2 * (ind@ + 1)),
                        out@ == start + seq!['{'] + obj_items(es.take(i as int), ind@),
                    decreases len - i,
                {
                    proof {
                        assert(es.take(i + 1).drop_last() =~= es.take(i as int));
                        assert(es.take(i + 1).last() == es[i as int]);
                    }
                    if i == 0 {
                        out.push('\n');
                    } else {
                        out.push(',');
                        out.push('\n');
                    }
                    push_pad(pad, out);
                    out.push('"');
                    push_json_string(entries[i].0.as_str(), out);
                    out.push('"');
                    out.push(':');
                    out.push(' ');
                    proof {
                        assert(decreases_to!(*v => v->Object_0));
                        assert(decreases_to!(v->Object_0 => v->Object_0@));
                        assert(decreases_to!(v->Object_0@ => v->Object_0@[i as int]));
                        assert(decreases_to!(v->Object_0@[i as int] => v->Object_0@[i as int].1));
                        assert(decreases_to!(*v => es[i as int].1));
                    }
                    render_into(&entries[i].1, pad, out, Ghost(ind@ + 1));
                    proof {
                        assert(out@ =~= start + seq!['{'] + obj_items(es.take(i + 1), ind@));
                    }
                    i = i + 1;
                }
                pad.pop();
                pad.pop();
                proof {
                    assert(spaces(2 * ind@ + 1) == spaces(2 * ind@).push(' '));
                    assert(spaces(2 * ind@ + 2) == spaces(2 * ind@ + 1).push(' '));
                    assert(spaces(2 * ind@ + 2).drop_last() =~= spaces(2 * ind@ + 1));
                    assert(spaces(2 * ind@ + 1).drop_last() =~= spaces(2 * ind@));
                    assert(pad@ =~= spaces(2 * ind@));
                }
                out.push('\n');
                push_pad(pad, out);
                out.push('}');
                proof {
                    assert(es.take(len as int) =~= es);
                    assert(out@ =~= start + render(*v, ind@));
                }
            }
        },
    }
}

/// The pretty JSON rendering of a whole tree.
pub fn render_pretty(v: &Value) -> (r: String)
    ensures
        r@ == render(*v, 0),
{
    let mut pad: Vec<char> = Vec::new();
    let mut out: Vec<char> = Vec::new();
    proof {
        assert(pad@ =~= spaces(0));
        assert(out@ =~= Seq::<char>::empty());
    }
    render_into(v, &mut pad, &mut out, Ghost(0));
    proof {
        assert(out@ =~= render(*v, 0));
    }
    text::string_from_chars(&out)
}

} // verus!
