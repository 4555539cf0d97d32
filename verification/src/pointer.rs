//! Structural pointers: a `/`-delimited address string is parsed into a list
//! of unescaped tokens, which can then be resolved against a [`Value`] tree,
//! either read-only or for an in-place replacement.

use vstd::prelude::*;

use crate::text;
use crate::value::Value;

verus! {

broadcast use vstd::std_specs::vec::group_vec_axioms, vstd::seq::group_seq_axioms;

/// The address string could not be parsed: an unrecognised escape sequence.
#[derive(Debug, Clone, Copy, PartialEq, Eq, Structural)]
pub struct MalformedPointer;

/// Why resolution of a parsed pointer against a tree stopped.
#[derive(Debug, Clone, Copy, PartialEq, Eq, Structural)]
pub enum PointerError {
    /// An array was addressed with an index at or past its length.
    IndexOutOfBounds,
    /// An object was addressed with a key it does not hold.
    KeyNotFound,
    /// A scalar was addressed as if it had children.
    NotIndexable,
    /// An array was addressed with a token that is not a decimal index.
    MalformedIndex,
}

/// A parsed structural pointer: the unescaped path tokens, in order.
#[derive(Clone, Debug, PartialEq, Eq)]
pub struct ValuePointer {
    tokens: Vec<String>,
}

impl View for ValuePointer {
    type V = Seq<Seq<char>>;

    closed spec fn view(&self) -> Seq<Seq<char>> {
        self.tokens.deep_view()
    }
}

/// A leading `#` (the root sentinel) is ignored by the pointer parser.
pub open spec fn strip_hash(s: Seq<char>) -> Seq<char> {
    if s.len() > 0 && s[0] == '#' {
        s.drop_first()
    } else {
        s
    }
}

/// Close the pending token: an empty pending token is dropped.
pub open spec fn close_token(buf: Seq<char>, acc: Seq<Seq<char>>) -> Seq<Seq<char>> {
    if buf.len() == 0 {
        acc
    } else {
        acc.push(buf)
    }
}

/// One pass of the pointer tokenizer, carried as a state machine: `/` closes
/// the pending token, `~0` and `~1` unescape, and any other escape is
/// malformed. The result is the pending buffer and the closed tokens after
/// consuming all of `s`.
pub open spec fn lex_state(s: Seq<char>, buf: Seq<char>, acc: Seq<Seq<char>>) -> Option<
    (Seq<char>, Seq<Seq<char>>),
>
    decreases s.len(),
{
    if s.len() == 0 {
        Some((buf, acc))
    } else if s[0] == '/' {
        lex_state(s.drop_first(), Seq::empty(), close_token(buf, acc))
    } else if s[0] == '~' {
        if s.len() >= 2 && s[1] == '0' {
            lex_state(s.skip(2), buf.push('~'), acc)
        } else if s.len() >= 2 && s[1] == '1' {
            lex_state(s.skip(2), buf.push('/'), acc)
        } else {
            None
        }
    } else {
        lex_state(s.drop_first(), buf.push(s[0]), acc)
    }
}

/// The tokens produced from `s` starting in the given state.
pub open spec fn lex_tokens(s: Seq<char>, buf: Seq<char>, acc: Seq<Seq<char>>) -> Option<
    Seq<Seq<char>>,
>
{
    match lex_state(s, buf, acc) {
        Some((b, a)) => Some(close_token(b, a)),
        None => None,
    }
}

/// What parsing an address string yields: its token list, or nothing when an
/// escape is malformed.
pub open spec fn parse_pointer(s: Seq<char>) -> Option<Seq<Seq<char>>> {
    lex_tokens(strip_hash(s), Seq::empty(), Seq::empty())
}

/// Resolution of a token list against a tree, token by token.
pub open spec fn resolve(v: Value, tokens: Seq<Seq<char>>) -> Result<Value, PointerError>
    decreases tokens.len(),
{
    if tokens.len() == 0 {
        Ok(v)
    } else {
        match v {
            Value::Array(items) => match text::parse_usize_spec(tokens[0]) {
                Some(idx) => if idx < items@.len() {
                    resolve(items@[idx], tokens.drop_first())
                } else {
                    Err(PointerError::IndexOutOfBounds)
                },
                None => Err(PointerError::MalformedIndex),
            },
            Value::Object(entries) => match obj_find(entries@, tokens[0]) {
                Some(j) => resolve(entries@[j].1, tokens.drop_first()),
                None => Err(PointerError::KeyNotFound),
            },
            _ => Err(PointerError::NotIndexable),
        }
    }
}

/// Index of the first entry with the given key, if any.
pub open spec fn obj_find(entries: Seq<(String, Value)>, key: Seq<char>) -> Option<int>
    decreases entries.len(),
{
    if entries.len() == 0 {
        None
    } else if entries[0].0@ == key {
        Some(0)
    } else {
        match obj_find(entries.drop_first(), key) {
            Some(j) => Some(j + 1),
            None => None,
        }
    }
}

pub broadcast proof fn lemma_obj_find_props(entries: Seq<(String, Value)>, key: Seq<char>)
    ensures
        match #[trigger] obj_find(entries, key) {
            Some(j) => 0 <= j < entries.len() && entries[j].0@ == key && (forall|k: int|
                0 <= k < j ==> entries[k].0@ != key),
            None => forall|k: int| 0 <= k < entries.len() ==> entries[k].0@ != key,
        },
    decreases entries.len(),
{
    if entries.len() > 0 && entries[0].0@ != key {
        lemma_obj_find_props(entries.drop_first(), key);
        assert(forall|k: int|
            1 <= k < entries.len() ==> entries[k] == entries.drop_first()[k - 1]);
    }
}

impl ValuePointer {
    /// Parse an address string, un-escaping `~1` to `/` and `~0` to `~` and
    /// ignoring a single leading `#`.
    pub fn parse(s: &str) -> (r: Result<ValuePointer, MalformedPointer>)
        ensures
            match r {
                Ok(p) => parse_pointer(s@) == Some(p@),
                Err(_) => parse_pointer(s@) is None,
            },
    {
        let v = text::chars_vec(s);
        let mut i: usize = 0;
        if v.len() > 0 && v[0] == '#' {
            i = 1;
        }
        proof {
            assert(strip_hash(s@) =~= v@.skip(i as int));
        }
        let mut buf: Vec<char> = Vec::new();
        let mut tokens: Vec<String> = Vec::new();
        proof {
            assert(buf@ =~= Seq::<char>::empty());
            assert(tokens.deep_view() =~= Seq::<Seq<char>>::empty());
        }
        while i < v.len()
            invariant
                v@ == s@,
                i <= v@.len(),
                v@.len() <= usize::MAX,
                parse_pointer(s@) == lex_tokens(v@.skip(i as int), buf@, tokens.deep_view()),
            decreases v@.len() - i,
        {
            let c = v[i];
            proof {
                assert(v@.skip(i as int)[0] == v@[i as int]);
                assert(v@.skip(i as int).drop_first() =~= v@.skip(i + 1));
            }
            if c == '/' {
                if buf.len() > 0 {
                    let ghost old_dv = tokens.deep_view();
                    let ghost old_buf = buf@;
                    let token = text::string_from_chars(&buf);
                    tokens.push(token);
                    buf = Vec::new();
                    proof {
                        assert(tokens.deep_view() =~= old_dv.push(old_buf));
                        assert(buf@ =~= Seq::<char>::empty());
                        assert(parse_pointer(s@) == lex_tokens(
                            v@.skip(i + 1),
                            buf@,
                            tokens.deep_view(),
                        ));
                    }
                } else {
                    proof {
                        assert(buf@ =~= Seq::<char>::empty());
                        assert(parse_pointer(s@) == lex_tokens(
                            v@.skip(i + 1),
                            buf@,
                            tokens.deep_view(),
                        ));
                    }
                }
                i = i + 1;
            } else if c == '~' {
                if i + 1 < v.len() && v[i + 1] == '0' {
                    proof {
                        assert(v@.skip(i as int).skip(2) =~= v@.skip(i + 2));
                        assert(v@.skip(i as int)[1] == v@[i + 1]);
                    }
                    buf.push('~');
                    proof {
                        assert(parse_pointer(s@) == lex_tokens(
                            v@.skip(i + 2),
                            buf@,
                            tokens.deep_view(),
                        ));
                    }
                    i = i + 2;
                } else if i + 1 < v.len() && v[i + 1] == '1' {
                    proof {
                        assert(v@.skip(i as int).skip(2) =~= v@.skip(i + 2));
                        assert(v@.skip(i as int)[1] == v@[i + 1]);
                    }
                    buf.push('/');
                    proof {
                        assert(parse_pointer(s@) == lex_tokens(
                            v@.skip(i + 2),
                            buf@,
                            tokens.deep_view(),
                        ));
                    }
                    i = i + 2;
                } else {
                    proof {
                        if i + 1 < v@.len() {
                            assert(v@.skip(i as int)[1] == v@[i + 1]);
                        }
                    }
                    return Err(MalformedPointer);
                }
            } else {
                buf.push(c);
                proof {
                    assert(parse_pointer(s@) == lex_tokens(
                        v@.skip(i + 1),
                        buf@,
                        tokens.deep_view(),
                    ));
                }
                i = i + 1;
            }
        }
        proof {
            assert(v@.skip(i as int) =~= Seq::<char>::empty());
        }
        if buf.len() > 0 {
            let ghost old_dv = tokens.deep_view();
            let token = text::string_from_chars(&buf);
            tokens.push(token);
            proof {
                assert(tokens.deep_view() =~= old_dv.push(buf@));
            }
        }
        Ok(ValuePointer { tokens })
    }

    /// Resolve this pointer read-only, yielding a reference into the tree.
    pub fn get<'a>(&self, root: &'a Value) -> (r: Result<&'a Value, PointerError>)
        ensures
            match r {
                Ok(v) => resolve(*root, self@) == Ok::<Value, PointerError>(*v),
                Err(e) => resolve(*root, self@) == Err::<Value, PointerError>(e),
            },
    {
        let mut cur: &'a Value = root;
        let n = self.tokens.len();
        let mut i: usize = 0;
        proof {
            assert(self@.skip(0) =~= self@);
        }
        while i < n
            invariant
                n == self.tokens@.len(),
                i <= n,
                resolve(*root, self@) == resolve(*cur, self@.skip(i as int)),
            decreases n - i,
        {
            let token: &String = &self.tokens[i];
            proof {
                assert(self@.skip(i as int)[0] == token@);
                assert(self@.skip(i as int).drop_first() =~= self@.skip(i + 1));
                assert(self@.skip(i as int).len() > 0);
            }
            match cur {
                Value::Array(items) => {
                    match text::parse_usize(token.as_str()) {
                        Some(idx) => {
                            if idx < items.len() {
                                cur = &items[idx];
                            } else {
                                return Err(PointerError::IndexOutOfBounds);
                            }
                        },
                        None => {
                            return Err(PointerError::MalformedIndex);
                        },
                    }
                },
                Value::Object(entries) => {
                    let m = entries.len();
                    let mut j: usize = 0;
                    let mut found = false;
                    while j < m && !found
                        invariant
                            m == entries@.len(),
                            j <= m,
                            found ==> j < m && entries@[j as int].0@ == token@ && (forall|k: int|
                                0 <= k < j ==> entries@[k].0@ != token@),
                            !found ==> forall|k: int| 0 <= k < j ==> entries@[k].0@ != token@,
                        decreases m - j + (if found { 0int } else { 1int }),
                    {
                        if text::str_eq(entries[j].0.as_str(), token.as_str()) {
                            found = true;
                        } else {
                            j = j + 1;
                        }
                    }
                    proof {
                        lemma_obj_find_props(entries@, token@);
                    }
                    if found {
                        proof {
                            assert(obj_find(entries@, token@) == Some(j as int));
                        }
                        cur = &entries[j].1;
                    } else {
                        return Err(PointerError::KeyNotFound);
                    }
                },
                _ => {
                    return Err(PointerError::NotIndexable);
                },
            }
            i = i + 1;
        }
        proof {
            assert(self@.skip(i as int) =~= Seq::<Seq<char>>::empty());
        }
        Ok(cur)
    }
}

/// How a tree changes when the node at `toks` is replaced by `nv`: everything
/// else keeps its value, the addressed node becomes `nv`.
pub open spec fn updated(a: Value, b: Value, toks: Seq<Seq<char>>, nv: Value) -> bool
    decreases toks.len(),
{
    if toks.len() == 0 {
        b == nv
    } else {
        match (a, b) {
            (Value::Array(o), Value::Array(n)) => match text::parse_usize_spec(toks[0]) {
                Some(idx) => 0 <= idx < o@.len() && n@ == o@.update(idx, n@[idx]) && updated(
                    o@[idx],
                    n@[idx],
                    toks.drop_first(),
                    nv,
                ),
                None => false,
            },
            (Value::Object(o), Value::Object(n)) => match obj_find(o@, toks[0]) {
                Some(j) => n@ == o@.update(j, n@[j]) && n@[j].0 == o@[j].0 && updated(
                    o@[j].1,
                    n@[j].1,
                    toks.drop_first(),
                    nv,
                ),
                None => false,
            },
            _ => false,
        }
    }
}

fn set_rec(v: &mut Value, tokens: &Vec<String>, i: usize, nv: Value)
    requires
        i <= tokens.deep_view().len(),
        resolve(*old(v), tokens.deep_view().skip(i as int)) is Ok,
    ensures
        updated(*old(v), *final(v), tokens.deep_view().skip(i as int), nv),
    decreases tokens.deep_view().len() - i,
{
    let ghost toks = tokens.deep_view().skip(i as int);
    if i == tokens.len() {
        proof {
            assert(toks.len() == 0);
        }
        *v = nv;
        return ;
    }
    let token: &String = &tokens[i];
    proof {
        assert(toks[0] == token@);
        assert(toks.drop_first() =~= tokens.deep_view().skip(i + 1));
    }
    match v {
        Value::Array(items) => {
            match text::parse_usize(token.as_str()) {
                Some(idx) => {
                    proof {
                        assert(idx < items@.len());
                    }
                    let ghost old_items = items@;
                    let elem = &mut items[idx];
                    set_rec(elem, tokens, i + 1, nv);
                },
                None => {
                    proof {
                        assert(false);
                    }
                },
            }
        },
        Value::Object(entries) => {
            let m = entries.len();
            let mut j: usize = 0;
            let mut found = false;
            while j < m && !found
                invariant
                    m == entries@.len(),
                    j <= m,
                    found ==> j < m && entries@[j as int].0@ == token@ && (forall|k: int|
                        0 <= k < j ==> entries@[k].0@ != token@),
                    !found ==> forall|k: int| 0 <= k < j ==> entries@[k].0@ != token@,
                decreases m - j + (if found { 0int } else { 1int }),
            {
                if text::str_eq(entries[j].0.as_str(), token.as_str()) {
                    found = true;
                } else {
                    j = j + 1;
                }
            }
            proof {
                lemma_obj_find_props(entries@, token@);
            }
            if found {
                proof {
                    assert(obj_find(entries@, token@) == Some(j as int));
                }
                let entry = &mut entries[j];
                let slot = &mut entry.1;
                set_rec(slot, tokens, i + 1, nv);
            } else {
                proof {
                    assert(false);
                }
            }
        },
        _ => {
            proof {
                assert(false);
            }
        },
    }
}

impl ValuePointer {
    /// Replace the node this pointer addresses; on failure the tree is
    /// untouched and the resolution error is reported.
    pub fn set(&self, root: &mut Value, new_value: Value) -> (r: Result<(), PointerError>)
        ensures
            match r {
                Ok(_) => resolve(*old(root), self@) is Ok && updated(
                    *old(root),
                    *final(root),
                    self@,
                    new_value,
                ),
                Err(e) => *final(root) == *old(root) && resolve(*old(root), self@)
                    == Err::<Value, PointerError>(e),
            },
    {
        match self.get(root) {
            Err(e) => {
                return Err(e);
            },
            Ok(_) => {},
        }
        proof {
            assert(self@.skip(0) =~= self@);
            assert(self.tokens.deep_view().skip(0) =~= self@);
        }
        set_rec(root, &self.tokens, 0, new_value);
        Ok(())
    }
}

/// Lexing a concatenation continues from the state the first part reaches.
pub proof fn lemma_lex_append(s1: Seq<char>, s2: Seq<char>, buf: Seq<char>, acc: Seq<Seq<char>>)
    requires
        lex_state(s1, buf, acc) is Some,
    ensures
        lex_state(s1 + s2, buf, acc) == lex_state(
            s2,
            lex_state(s1, buf, acc)->Some_0.0,
            lex_state(s1, buf, acc)->Some_0.1,
        ),
    decreases s1.len(),
{
    if s1.len() == 0 {
        assert(s1 + s2 =~= s2);
    } else {
        let s = s1 + s2;
        assert(s[0] == s1[0]);
        if s1[0] == '/' {
            assert(s.drop_first() =~= s1.drop_first() + s2);
            lemma_lex_append(s1.drop_first(), s2, Seq::empty(), close_token(buf, acc));
        } else if s1[0] == '~' {
            assert(s1.len() >= 2);
            assert(s[1] == s1[1]);
            if s1[1] == '0' {
                assert(s.skip(2) =~= s1.skip(2) + s2);
                lemma_lex_append(s1.skip(2), s2, buf.push('~'), acc);
            } else {
                assert(s1[1] == '1');
                assert(s.skip(2) =~= s1.skip(2) + s2);
                lemma_lex_append(s1.skip(2), s2, buf.push('/'), acc);
            }
        } else {
            assert(s.drop_first() =~= s1.drop_first() + s2);
            lemma_lex_append(s1.drop_first(), s2, buf.push(s1[0]), acc);
        }
    }
}

/// An escaped key lexes entirely into the pending token.
pub proof fn lemma_lex_esc(k: Seq<char>, buf: Seq<char>, acc: Seq<Seq<char>>)
    ensures
        lex_state(text::esc(k), buf, acc) == Some::<(Seq<char>, Seq<Seq<char>>)>((buf + k, acc)),
    decreases k.len(),
{
    if k.len() == 0 {
        assert(text::esc(k).len() == 0);
        assert(buf + k =~= buf);
    } else {
        let c = k[0];
        let rest = text::esc(k.drop_first());
        let s = text::esc(k);
        assert(s == text::esc_char(c) + rest);
        if c == '/' {
            assert(s[0] == '~' && s[1] == '1');
            assert(s.skip(2) =~= rest);
            lemma_lex_esc(k.drop_first(), buf.push('/'), acc);
            assert(buf.push('/') + k.drop_first() =~= buf + k);
        } else if c == '~' {
            assert(s[0] == '~' && s[1] == '0');
            assert(s.skip(2) =~= rest);
            lemma_lex_esc(k.drop_first(), buf.push('~'), acc);
            assert(buf.push('~') + k.drop_first() =~= buf + k);
        } else {
            assert(s[0] == c);
            assert(s.drop_first() =~= rest);
            lemma_lex_esc(k.drop_first(), buf.push(c), acc);
            assert(buf.push(c) + k.drop_first() =~= buf + k);
        }
    }
}

/// Text without separators or escapes lexes entirely into the pending token.
pub proof fn lemma_lex_plain(s: Seq<char>, buf: Seq<char>, acc: Seq<Seq<char>>)
    requires
        forall|i: int| 0 <= i < s.len() ==> #[trigger] s[i] != '/' && s[i] != '~',
    ensures
        lex_state(s, buf, acc) == Some::<(Seq<char>, Seq<Seq<char>>)>((buf + s, acc)),
    decreases s.len(),
{
    if s.len() == 0 {
        assert(buf + s =~= buf);
    } else {
        lemma_lex_plain(s.drop_first(), buf.push(s[0]), acc);
        assert(buf.push(s[0]) + s.drop_first() =~= buf + s);
    }
}

/// Decimal renderings hold digits only.
pub proof fn lemma_dec_digits_plain(n: int)
    ensures
        forall|i: int|
            0 <= i < text::dec_digits(n).len() ==> text::is_digit(
                #[trigger] text::dec_digits(n)[i],
            ),
    decreases n,
{
    assert forall|i: int| 0 <= i < text::dec_digits(n).len() implies text::is_digit(
        #[trigger] text::dec_digits(n)[i],
    ) by {
        if n < 10 {
            assert(text::dec_digits(n)[i] == text::digit_char(if n < 0 { 0int } else { n }));
        } else {
            lemma_dec_digits_plain(n / 10);
            if i < text::dec_digits(n / 10).len() {
                assert(text::dec_digits(n)[i] == text::dec_digits(n / 10)[i]);
            } else {
                assert(text::dec_digits(n)[i] == text::digit_char(n % 10));
            }
        }
    }
}

/// Resolving one more token descends from what the shorter path reaches.
pub proof fn lemma_resolve_push(v: Value, toks: Seq<Seq<char>>, tok: Seq<char>)
    ensures
        resolve(v, toks.push(tok)) == (match resolve(v, toks) {
            Ok(n) => resolve(n, seq![tok]),
            Err(e) => Err::<Value, PointerError>(e),
        }),
    decreases toks.len(),
{
    if toks.len() == 0 {
        assert(toks.push(tok)[0] == tok);
        assert(toks.push(tok).drop_first() =~= Seq::<Seq<char>>::empty());
        assert(seq![tok][0] == tok);
        assert(seq![tok].drop_first() =~= Seq::<Seq<char>>::empty());
    } else {
        assert(toks.push(tok)[0] == toks[0]);
        assert(toks.push(tok).drop_first() =~= toks.drop_first().push(tok));
        match v {
            Value::Array(items) => {
                match text::parse_usize_spec(toks[0]) {
                    Some(idx) => {
                        if idx < items@.len() {
                            lemma_resolve_push(items@[idx], toks.drop_first(), tok);
                        }
                    },
                    None => {},
                }
            },
            Value::Object(entries) => {
                match obj_find(entries@, toks[0]) {
                    Some(j) => {
                        lemma_obj_find_props(entries@, toks[0]);
                        lemma_resolve_push(entries@[j].1, toks.drop_first(), tok);
                    },
                    None => {},
                }
            },
            _ => {},
        }
    }
}

/// What a pointer resolves to lies inside the tree it resolved against.
pub proof fn lemma_resolve_subvalue(v: Value, toks: Seq<Seq<char>>)
    requires
        resolve(v, toks) is Ok,
    ensures
        crate::value::subvalue(resolve(v, toks)->Ok_0, v),
    decreases toks.len(),
{
    let n = resolve(v, toks)->Ok_0;
    if toks.len() == 0 {
        assert(resolve(v, toks) == Ok::<Value, PointerError>(v));
        assert(crate::value::subvalue(v, v));
    } else {
        match v {
            Value::Array(items) => {
                assert(v == Value::Array(items));
                assert(text::parse_usize_spec(toks[0]) is Some);
                text::lemma_parse_usize_nonneg(toks[0]);
                let idx = text::parse_usize_spec(toks[0])->Some_0;
                assert(0 <= idx < items@.len());
                assert(resolve(v, toks) == resolve(items@[idx], toks.drop_first()));
                lemma_resolve_subvalue(items@[idx], toks.drop_first());
                assert(crate::value::subvalue(n, items@[idx]));
                assert(crate::value::subvalue(n, v));
            },
            Value::Object(entries) => {
                let j = obj_find(entries@, toks[0])->Some_0;
                lemma_obj_find_props(entries@, toks[0]);
                assert(0 <= j < entries@.len());
                assert(resolve(v, toks) == resolve(entries@[j].1, toks.drop_first()));
                lemma_resolve_subvalue(entries@[j].1, toks.drop_first());
                assert(crate::value::subvalue(n, entries@[j].1));
                assert(crate::value::subvalue(n, v));
            },
            _ => {},
        }
    }
}

/// Appending an escaped key to a path appends its token to the pointer.
pub proof fn lemma_parse_append_key(p: Seq<char>, k: Seq<char>)
    requires
        parse_pointer(p) is Some,
        k.len() > 0,
    ensures
        parse_pointer(p + seq!['/'] + text::esc(k)) == Some(
            parse_pointer(p)->Some_0.push(k),
        ),
{
    let sp = strip_hash(p);
    let st = lex_state(sp, Seq::empty(), Seq::empty());
    let b = st->Some_0.0;
    let a = st->Some_0.1;
    let tail = seq!['/'] + text::esc(k);
    let child = p + seq!['/'] + text::esc(k);
    assert(strip_hash(child) =~= sp + tail) by {
        if p.len() > 0 && p[0] == '#' {
            assert(child[0] == '#');
            assert(child.drop_first() =~= p.drop_first() + tail);
        } else {
            if child.len() > 0 && child[0] == '#' {
                assert(p.len() > 0 && p[0] == '#');
            }
            assert(child =~= p + tail);
        }
    }
    lemma_lex_append(sp, tail, Seq::empty(), Seq::empty());
    assert(tail[0] == '/');
    assert(tail.drop_first() =~= text::esc(k));
    lemma_lex_esc(k, Seq::empty(), close_token(b, a));
    assert(Seq::<char>::empty() + k =~= k);
    assert(lex_state(sp + tail, Seq::empty(), Seq::empty()) == Some::<
        (Seq<char>, Seq<Seq<char>>),
    >((k, close_token(b, a))));
    assert(parse_pointer(p)->Some_0 == close_token(b, a));
    assert(close_token(k, close_token(b, a)) == close_token(b, a).push(k));
}

/// Appending a decimal index to a path appends its token to the pointer.
pub proof fn lemma_parse_append_index(p: Seq<char>, n: int)
    requires
        parse_pointer(p) is Some,
        n >= 0,
    ensures
        parse_pointer(p + seq!['/'] + text::dec_digits(n)) == Some(
            parse_pointer(p)->Some_0.push(text::dec_digits(n)),
        ),
{
    let sp = strip_hash(p);
    let st = lex_state(sp, Seq::empty(), Seq::empty());
    let b = st->Some_0.0;
    let a = st->Some_0.1;
    let digits = text::dec_digits(n);
    let tail = seq!['/'] + digits;
    let child = p + seq!['/'] + digits;
    assert(strip_hash(child) =~= sp + tail) by {
        if p.len() > 0 && p[0] == '#' {
            assert(child[0] == '#');
            assert(child.drop_first() =~= p.drop_first() + tail);
        } else {
            if child.len() > 0 && child[0] == '#' {
                assert(p.len() > 0 && p[0] == '#');
            }
            assert(child =~= p + tail);
        }
    }
    lemma_lex_append(sp, tail, Seq::empty(), Seq::empty());
    assert(tail[0] == '/');
    assert(tail.drop_first() =~= digits);
    lemma_dec_digits_plain(n);
    assert(forall|i: int| 0 <= i < digits.len() ==> #[trigger] digits[i] != '/' && digits[i]
        != '~') by {
        assert(forall|i: int|
            0 <= i < digits.len() ==> text::is_digit(#[trigger] digits[i]));
    }
    lemma_lex_plain(digits, Seq::empty(), close_token(b, a));
    assert(Seq::<char>::empty() + digits =~= digits);
    text::lemma_dec_val_digits(n);
    assert(digits.len() > 0);
    assert(close_token(digits, close_token(b, a)) == close_token(b, a).push(digits));
}

/// In an object without repeated keys, the token of an entry's key resolves
/// to that entry's value.
pub proof fn lemma_resolve_child_key(v: Value, i: int)
    requires
        v is Object,
        0 <= i < v->Object_0@.len(),
        forall|x: int, y: int|
            0 <= x < y < v->Object_0@.len() ==> (#[trigger] v->Object_0@[x]).0@ != (
            #[trigger] v->Object_0@[y]).0@,
    ensures
        resolve(v, seq![v->Object_0@[i].0@]) == Ok::<Value, PointerError>(v->Object_0@[i].1),
{
    let es = v->Object_0@;
    let k = es[i].0@;
    lemma_obj_find_props(es, k);
    assert(seq![k][0] == k);
    assert(seq![k].drop_first() =~= Seq::<Seq<char>>::empty());
    assert(obj_find(es, k) is Some);
    let j = obj_find(es, k)->Some_0;
    if j < i {
        assert(es[j].0@ == k);
        assert(false);
    }
    if j > i {
        assert(forall|x: int| 0 <= x < j ==> es[x].0@ != k);
        assert(false);
    }
    assert(j == i);
    assert(resolve(es[i].1, Seq::<Seq<char>>::empty()) == Ok::<Value, PointerError>(es[i].1));
    assert(resolve(v, seq![k]) == resolve(es[i].1, seq![k].drop_first()));
}

/// The token of a decimal index resolves to that element of an array.
pub proof fn lemma_resolve_child_index(v: Value, i: int)
    requires
        v is Array,
        0 <= i < v->Array_0@.len(),
        i <= usize::MAX,
    ensures
        resolve(v, seq![text::dec_digits(i)]) == Ok::<Value, PointerError>(v->Array_0@[i]),
{
    text::lemma_dec_roundtrip(i);
    assert(seq![text::dec_digits(i)][0] == text::dec_digits(i));
    assert(seq![text::dec_digits(i)].drop_first() =~= Seq::<Seq<char>>::empty());
    assert(resolve(v->Array_0@[i], Seq::<Seq<char>>::empty()) == Ok::<Value, PointerError>(
        v->Array_0@[i],
    ));
    assert(resolve(v, seq![text::dec_digits(i)]) == resolve(
        v->Array_0@[i],
        seq![text::dec_digits(i)].drop_first(),
    ));
}

impl core::str::FromStr for ValuePointer {
    type Err = MalformedPointer;

    fn from_str(s: &str) -> Result<Self, Self::Err> {
        ValuePointer::parse(s)
    }
}

} // verus!
