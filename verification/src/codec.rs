//! The persisted document format: a JSON array of objects, each with a
//! `project_name` string and a `run_command` array of strings, in storage
//! order.
//!
//! The encoder and decoder are both specified here as functions on character
//! sequences, and decoding an encoded collection is proved to give the
//! collection back ([`lemma_round_trip`]). The decoder accepts the
//! documents the encoder emits, with any amount of blank space between
//! structural tokens; a document of any other shape is malformed and is
//! reported as a `StorageError`.

use vstd::prelude::*;

use crate::errors::Error;
use crate::shortcut::{Shortcut, ShortcutModel};

verus! {

// ---------------------------------------------------------------------------
// The encoder, as a specification.
// ---------------------------------------------------------------------------
/// How one character is written inside a JSON string: the quote, the
/// backslash, and the three common control characters get a two-character
/// escape; every other character stands for itself.
pub open spec fn esc_char(c: char) -> Seq<char> {
    if c == '"' {
        seq!['\\', '"']
    } else if c == '\\' {
        seq!['\\', '\\']
    } else if c == '\n' {
        seq!['\\', 'n']
    } else if c == '\t' {
        seq!['\\', 't']
    } else if c == '\r' {
        seq!['\\', 'r']
    } else {
        seq![c]
    }
}

/// A whole string body, escaped character by character.
pub open spec fn esc_string(s: Seq<char>) -> Seq<char>
    decreases s.len(),
{
    if s.len() == 0 {
        Seq::empty()
    } else {
        esc_char(s[0]) + esc_string(s.drop_first())
    }
}

/// A JSON string literal: the escaped body between two quotes.
pub open spec fn quoted(s: Seq<char>) -> Seq<char> {
    seq!['"'] + esc_string(s) + seq!['"']
}

/// The object key that precedes a shortcut's name, colon included.
pub open spec fn label_name() -> Seq<char> {
    seq!['"', 'p', 'r', 'o', 'j', 'e', 'c', 't', '_', 'n', 'a', 'm', 'e', '"', ':']
}

/// The object key that precedes a shortcut's command, colon included.
pub open spec fn label_command() -> Seq<char> {
    seq!['"', 'r', 'u', 'n', '_', 'c', 'o', 'm', 'm', 'a', 'n', 'd', '"', ':']
}

/// The items of a string array after the first: each preceded by a comma.
pub open spec fn ser_str_more(l: Seq<Seq<char>>) -> Seq<char>
    decreases l.len(),
{
    if l.len() == 0 {
        Seq::empty()
    } else {
        seq![','] + quoted(l[0]) + ser_str_more(l.drop_first())
    }
}

/// A JSON array of strings.
pub open spec fn ser_str_list(l: Seq<Seq<char>>) -> Seq<char> {
    if l.len() == 0 {
        seq!['[', ']']
    } else {
        seq!['['] + quoted(l[0]) + ser_str_more(l.drop_first()) + seq![']']
    }
}

/// One shortcut as a JSON object with its two fields in fixed order.
pub open spec fn ser_shortcut(m: ShortcutModel) -> Seq<char> {
    seq!['{'] + label_name() + quoted(m.name) + seq![','] + label_command() + ser_str_list(
        m.command,
    ) + seq!['}']
}

/// The shortcuts after the first: each preceded by a comma.
pub open spec fn ser_more(l: Seq<ShortcutModel>) -> Seq<char>
    decreases l.len(),
{
    if l.len() == 0 {
        Seq::empty()
    } else {
        seq![','] + ser_shortcut(l[0]) + ser_more(l.drop_first())
    }
}

/// The whole document: the collection as a JSON array, in storage order.
pub open spec fn spec_serialize(c: Seq<ShortcutModel>) -> Seq<char> {
    if c.len() == 0 {
        seq!['[', ']']
    } else {
        seq!['['] + ser_shortcut(c[0]) + ser_more(c.drop_first()) + seq![']']
    }
}

// ---------------------------------------------------------------------------
// The decoder, as a specification. Each function consumes a prefix of its
// input and yields the parsed value with the remaining input.
// ---------------------------------------------------------------------------
/// The blank characters the decoder skips between structural tokens.
pub open spec fn is_ws(c: char) -> bool {
    c == ' ' || c == '\n' || c == '\t' || c == '\r'
}

/// The input with its leading blank characters dropped.
pub open spec fn skip_ws(s: Seq<char>) -> Seq<char>
    decreases s.len(),
{
    if s.len() > 0 && is_ws(s[0]) {
        skip_ws(s.drop_first())
    } else {
        s
    }
}

/// The character an escape code stands for, or `None` for an unknown code.
pub open spec fn unescape(c: char) -> Option<char> {
    if c == '"' {
        Some('"')
    } else if c == '\\' {
        Some('\\')
    } else if c == 'n' {
        Some('\n')
    } else if c == 't' {
        Some('\t')
    } else if c == 'r' {
        Some('\r')
    } else {
        None
    }
}

/// A string body, read after its opening quote up to and over the closing
/// quote.
pub open spec fn parse_str_body(s: Seq<char>) -> Option<(Seq<char>, Seq<char>)>
    decreases s.len(),
{
    if s.len() == 0 {
        None
    } else if s[0] == '"' {
        Some((Seq::empty(), s.drop_first()))
    } else if s[0] == '\\' {
        if s.len() >= 2 {
            match unescape(s[1]) {
                Some(c) => match parse_str_body(s.skip(2)) {
                    Some((t, r)) => Some((seq![c] + t, r)),
                    None => None,
                },
                None => None,
            }
        } else {
            None
        }
    } else {
        match parse_str_body(s.drop_first()) {
            Some((t, r)) => Some((seq![s[0]] + t, r)),
            None => None,
        }
    }
}

/// A quoted string, opening quote included.
pub open spec fn parse_string(s: Seq<char>) -> Option<(Seq<char>, Seq<char>)> {
    if s.len() > 0 && s[0] == '"' {
        parse_str_body(s.drop_first())
    } else {
        None
    }
}

/// The input after a literal prefix, or `None` when the prefix is not
/// there.
pub open spec fn expect(s: Seq<char>, lit: Seq<char>) -> Option<Seq<char>> {
    if lit.len() <= s.len() && s.take(lit.len() as int) == lit {
        Some(s.skip(lit.len() as int))
    } else {
        None
    }
}

/// The rest of a string array after some element: either the closing
/// bracket, or a comma and a further element. The shrinking-input guard
/// makes the recursion well founded; a parse step always consumes input, so
/// the guard never fails on input the grammar accepts.
pub open spec fn parse_str_more(s: Seq<char>) -> Option<(Seq<Seq<char>>, Seq<char>)>
    decreases s.len(),
{
    let t = skip_ws(s);
    if t.len() > 0 && t[0] == ']' {
        Some((Seq::empty(), t.drop_first()))
    } else if t.len() > 0 && t[0] == ',' {
        let u = skip_ws(t.drop_first());
        match parse_string(u) {
            Some((x, r)) => if r.len() < s.len() {
                match parse_str_more(r) {
                    Some((xs, r2)) => Some((seq![x] + xs, r2)),
                    None => None,
                }
            } else {
                None
            },
            None => None,
        }
    } else {
        None
    }
}

/// A string array, opening bracket included.
pub open spec fn parse_str_list(s: Seq<char>) -> Option<(Seq<Seq<char>>, Seq<char>)> {
    if s.len() > 0 && s[0] == '[' {
        let t = skip_ws(s.drop_first());
        if t.len() > 0 && t[0] == ']' {
            Some((Seq::empty(), t.drop_first()))
        } else {
            match parse_string(t) {
                Some((x, r)) => match parse_str_more(r) {
                    Some((xs, r2)) => Some((seq![x] + xs, r2)),
                    None => None,
                },
                None => None,
            }
        }
    } else {
        None
    }
}

/// One shortcut object: both fields, in the order the encoder writes them.
pub open spec fn parse_shortcut(s: Seq<char>) -> Option<(ShortcutModel, Seq<char>)> {
    if s.len() > 0 && s[0] == '{' {
        match expect(skip_ws(s.drop_first()), label_name()) {
            Some(t1) => match parse_string(skip_ws(t1)) {
                Some((nm, r1)) => {
                    let t3 = skip_ws(r1);
                    if t3.len() > 0 && t3[0] == ',' {
                        match expect(skip_ws(t3.drop_first()), label_command()) {
                            Some(t5) => match parse_str_list(skip_ws(t5)) {
                                Some((cmd, r2)) => {
                                    let t7 = skip_ws(r2);
                                    if t7.len() > 0 && t7[0] == '}' {
                                        Some(
                                            (
                                                ShortcutModel { name: nm, command: cmd },
                                                t7.drop_first(),
                                            ),
                                        )
                                    } else {
                                        None
                                    }
                                },
                                None => None,
                            },
                            None => None,
                        }
                    } else {
                        None
                    }
                },
                None => None,
            },
            None => None,
        }
    } else {
        None
    }
}

/// The rest of the collection after some shortcut, like [`parse_str_more`].
pub open spec fn parse_coll_more(s: Seq<char>) -> Option<(Seq<ShortcutModel>, Seq<char>)>
    decreases s.len(),
{
    let t = skip_ws(s);
    if t.len() > 0 && t[0] == ']' {
        Some((Seq::empty(), t.drop_first()))
    } else if t.len() > 0 && t[0] == ',' {
        let u = skip_ws(t.drop_first());
        match parse_shortcut(u) {
            Some((m, r)) => if r.len() < s.len() {
                match parse_coll_more(r) {
                    Some((ms, r2)) => Some((seq![m] + ms, r2)),
                    None => None,
                }
            } else {
                None
            },
            None => None,
        }
    } else {
        None
    }
}

/// The collection array, opening bracket included.
pub open spec fn parse_collection(s: Seq<char>) -> Option<(Seq<ShortcutModel>, Seq<char>)> {
    if s.len() > 0 && s[0] == '[' {
        let t = skip_ws(s.drop_first());
        if t.len() > 0 && t[0] == ']' {
            Some((Seq::empty(), t.drop_first()))
        } else {
            match parse_shortcut(t) {
                Some((m, r)) => match parse_coll_more(r) {
                    Some((ms, r2)) => Some((seq![m] + ms, r2)),
                    None => None,
                },
                None => None,
            }
        }
    } else {
        None
    }
}

/// The whole document: one collection and nothing but blanks around it.
pub open spec fn spec_parse(doc: Seq<char>) -> Option<Seq<ShortcutModel>> {
    match parse_collection(skip_ws(doc)) {
        Some((c, r)) => if skip_ws(r).len() == 0 {
            Some(c)
        } else {
            None
        },
        None => None,
    }
}

// ---------------------------------------------------------------------------
// The encoder, executable.
// ---------------------------------------------------------------------------
/// Escaping distributes over extending a string by one character.
proof fn lemma_esc_snoc(t: Seq<char>, c: char)
    ensures
        esc_string(t.push(c)) == esc_string(t) + esc_char(c),
    decreases t.len(),
{
    reveal_with_fuel(esc_string, 3);
    if t.len() == 0 {
        assert(t.push(c).drop_first() =~= Seq::<char>::empty());
        assert(t.push(c)[0] == c);
        assert(esc_char(c) + Seq::<char>::empty() =~= esc_char(c));
        assert(esc_string(t) + esc_char(c) =~= esc_char(c));
    } else {
        assert(t.push(c).drop_first() =~= t.drop_first().push(c));
        lemma_esc_snoc(t.drop_first(), c);
        assert(t.push(c)[0] == t[0]);
        assert(esc_char(t[0]) + (esc_string(t.drop_first()) + esc_char(c)) =~= (esc_char(t[0])
            + esc_string(t.drop_first())) + esc_char(c));
    }
}

/// Appends the escaped body of `s` to `out`.
fn write_escaped(out: &mut String, s: &str)
    ensures
        final(out)@ == old(out)@ + esc_string(s@),
{
    let n = s.unicode_len();
    let mut i: usize = 0;
    proof {
        assert(s@.take(0) =~= Seq::<char>::empty());
        assert(out@ + esc_string(s@.take(0)) =~= out@);
    }
    while i < n
        invariant
            n == s@.len(),
            i <= n,
            out@ == old(out)@ + esc_string(s@.take(i as int)),
        decreases n - i,
    {
        let c = s.get_char(i);
        proof {
            assert(s@.take(i as int).push(c) =~= s@.take(i + 1));
            lemma_esc_snoc(s@.take(i as int), c);
        }
        if c == '"' {
            proof {
                reveal_strlit("\\\"");
            }
            assert("\\\""@ =~= seq!['\\', '"']);
            out.append("\\\"");
        } else if c == '\\' {
            proof {
                reveal_strlit("\\\\");
            }
            assert("\\\\"@ =~= seq!['\\', '\\']);
            out.append("\\\\");
        } else if c == '\n' {
            proof {
                reveal_strlit("\\n");
            }
            assert("\\n"@ =~= seq!['\\', 'n']);
            out.append("\\n");
        } else if c == '\t' {
            proof {
                reveal_strlit("\\t");
            }
            assert("\\t"@ =~= seq!['\\', 't']);
            out.append("\\t");
        } else if c == '\r' {
            proof {
                reveal_strlit("\\r");
            }
            assert("\\r"@ =~= seq!['\\', 'r']);
            out.append("\\r");
        } else {
            let piece = s.substring_char(i, i + 1);
            assert(piece@ =~= seq![c]);
            out.append(piece);
        }
        assert(out@ =~= old(out)@ + esc_string(s@.take(i + 1)));
        i += 1;
    }
    assert(s@.take(n as int) =~= s@);
}

/// Appends `s` as a quoted, escaped JSON string.
fn write_quoted(out: &mut String, s: &str)
    ensures
        final(out)@ == old(out)@ + quoted(s@),
{
    proof {
        reveal_strlit("\"");
    }
    assert("\""@ =~= seq!['"']);
    out.append("\"");
    write_escaped(out, s);
    out.append("\"");
    assert(out@ =~= old(out)@ + quoted(s@));
}

/// Writing items one after another writes the concatenation.
proof fn lemma_ser_str_more_app(a: Seq<Seq<char>>, b: Seq<Seq<char>>)
    ensures
        ser_str_more(a + b) == ser_str_more(a) + ser_str_more(b),
    decreases a.len(),
{
    if a.len() == 0 {
        assert(a + b =~= b);
        assert(ser_str_more(a) + ser_str_more(b) =~= ser_str_more(b));
    } else {
        assert((a + b).drop_first() =~= a.drop_first() + b);
        assert((a + b)[0] == a[0]);
        lemma_ser_str_more_app(a.drop_first(), b);
        assert(seq![','] + quoted(a[0]) + (ser_str_more(a.drop_first()) + ser_str_more(b)) =~= (
        seq![','] + quoted(a[0]) + ser_str_more(a.drop_first())) + ser_str_more(b));
    }
}

/// Appends `items` as a JSON array of strings.
fn write_str_list(out: &mut String, items: &Vec<String>)
    ensures
        final(out)@ == old(out)@ + ser_str_list(items.deep_view()),
{
    let ghost l = items.deep_view();
    if items.len() == 0 {
        proof {
            reveal_strlit("[]");
        }
        assert("[]"@ =~= seq!['[', ']']);
        out.append("[]");
        return;
    }
    proof {
        reveal_strlit("[");
        reveal_strlit("]");
        reveal_strlit(",");
    }
    assert("["@ =~= seq!['[']);
    assert("]"@ =~= seq![']']);
    assert(","@ =~= seq![',']);
    out.append("[");
    let first: &String = &items[0];
    assert(first@ == l[0]);
    write_quoted(out, first.as_str());
    let mut i: usize = 1;
    proof {
        assert(l.subrange(1, 1) =~= Seq::<Seq<char>>::empty());
        assert(out@ + ser_str_more(l.subrange(1, 1)) =~= out@);
    }
    while i < items.len()
        invariant
            l == items.deep_view(),
            1 <= i <= l.len(),
            "["@ == seq!['['],
            "]"@ == seq![']'],
            ","@ == seq![','],
            out@ == old(out)@ + seq!['['] + quoted(l[0]) + ser_str_more(l.subrange(1, i as int)),
        decreases items@.len() - i,
    {
        out.append(",");
        let item: &String = &items[i];
        assert(item@ == l[i as int]);
        write_quoted(out, item.as_str());
        proof {
            reveal_with_fuel(ser_str_more, 3);
            lemma_ser_str_more_app(l.subrange(1, i as int), seq![l[i as int]]);
            assert(l.subrange(1, i + 1) =~= l.subrange(1, i as int) + seq![l[i as int]]);
            assert(seq![l[i as int]].drop_first() =~= Seq::<Seq<char>>::empty());
            assert(ser_str_more(seq![l[i as int]]) =~= seq![','] + quoted(l[i as int]));
            assert(out@ =~= old(out)@ + seq!['['] + quoted(l[0]) + ser_str_more(
                l.subrange(1, i + 1),
            ));
        }
        i += 1;
    }
    out.append("]");
    proof {
        assert(l.subrange(1, l.len() as int) =~= l.drop_first());
        assert(out@ =~= old(out)@ + ser_str_list(l));
    }
}

/// Appends one shortcut as a JSON object.
fn write_shortcut(out: &mut String, sc: &Shortcut)
    ensures
        final(out)@ == old(out)@ + ser_shortcut(sc@),
{
    proof {
        reveal_strlit("{\"project_name\":");
        reveal_strlit(",\"run_command\":");
        reveal_strlit("}");
    }
    assert("{\"project_name\":"@ =~= seq!['{'] + label_name());
    assert(",\"run_command\":"@ =~= seq![','] + label_command());
    assert("}"@ =~= seq!['}']);
    out.append("{\"project_name\":");
    write_quoted(out, sc.project_name.as_str());
    out.append(",\"run_command\":");
    write_str_list(out, &sc.run_command);
    out.append("}");
    assert(out@ =~= old(out)@ + ser_shortcut(sc@));
}

/// Writing shortcuts one after another writes the concatenation.
proof fn lemma_ser_more_app(a: Seq<ShortcutModel>, b: Seq<ShortcutModel>)
    ensures
        ser_more(a + b) == ser_more(a) + ser_more(b),
    decreases a.len(),
{
    if a.len() == 0 {
        assert(a + b =~= b);
        assert(ser_more(a) + ser_more(b) =~= ser_more(b));
    } else {
        assert((a + b).drop_first() =~= a.drop_first() + b);
        assert((a + b)[0] == a[0]);
        lemma_ser_more_app(a.drop_first(), b);
        assert(seq![','] + ser_shortcut(a[0]) + (ser_more(a.drop_first()) + ser_more(b)) =~= (
        seq![','] + ser_shortcut(a[0]) + ser_more(a.drop_first())) + ser_more(b));
    }
}

/// Encodes the collection as its JSON document.
pub fn serialize_shortcuts(shortcuts: &Vec<Shortcut>) -> (r: String)
    ensures
        r@ == spec_serialize(shortcuts.deep_view()),
{
    let ghost c = shortcuts.deep_view();
    let mut out = String::new();
    if shortcuts.len() == 0 {
        proof {
            reveal_strlit("[]");
        }
        assert("[]"@ =~= seq!['[', ']']);
        out.append("[]");
        assert(out@ =~= spec_serialize(c));
        return out;
    }
    proof {
        reveal_strlit("[");
        reveal_strlit("]");
        reveal_strlit(",");
    }
    assert("["@ =~= seq!['[']);
    assert("]"@ =~= seq![']']);
    assert(","@ =~= seq![',']);
    out.append("[");
    let first: &Shortcut = &shortcuts[0];
    assert(first@ == c[0]);
    write_shortcut(&mut out, first);
    let mut i: usize = 1;
    proof {
        assert(c.subrange(1, 1) =~= Seq::<ShortcutModel>::empty());
        assert(out@ + ser_more(c.subrange(1, 1)) =~= out@);
    }
    while i < shortcuts.len()
        invariant
            c == shortcuts.deep_view(),
            1 <= i <= c.len(),
            "["@ == seq!['['],
            "]"@ == seq![']'],
            ","@ == seq![','],
            out@ == seq!['['] + ser_shortcut(c[0]) + ser_more(c.subrange(1, i as int)),
        decreases shortcuts@.len() - i,
    {
        out.append(",");
        let item: &Shortcut = &shortcuts[i];
        assert(item@ == c[i as int]);
        write_shortcut(&mut out, item);
        proof {
            reveal_with_fuel(ser_more, 3);
            lemma_ser_more_app(c.subrange(1, i as int), seq![c[i as int]]);
            assert(c.subrange(1, i + 1) =~= c.subrange(1, i as int) + seq![c[i as int]]);
            assert(seq![c[i as int]].drop_first() =~= Seq::<ShortcutModel>::empty());
            assert(ser_more(seq![c[i as int]]) =~= seq![','] + ser_shortcut(c[i as int]));
            assert(out@ =~= seq!['['] + ser_shortcut(c[0]) + ser_more(c.subrange(1, i + 1)));
        }
        i += 1;
    }
    out.append("]");
    proof {
        assert(c.subrange(1, c.len() as int) =~= c.drop_first());
        assert(out@ =~= spec_serialize(c));
    }
    out
}

// ---------------------------------------------------------------------------
// Decoding an encoded document gives the collection back.
// ---------------------------------------------------------------------------
/// Skipping blanks leaves an input that starts with a non-blank unchanged.
proof fn lemma_skip_ws_noop(s: Seq<char>)
    requires
        s.len() > 0,
        !is_ws(s[0]),
    ensures
        skip_ws(s) == s,
{
}

/// A literal prefix is consumed exactly.
proof fn lemma_rt_expect(lit: Seq<char>, rest: Seq<char>)
    ensures
        expect(lit + rest, lit) == Some(rest),
{
    let s = lit + rest;
    assert(s.take(lit.len() as int) =~= lit);
    assert(s.skip(lit.len() as int) =~= rest);
}

/// Reading back an escaped string body stops at the closing quote and
/// yields the original characters.
proof fn lemma_rt_str_body(t: Seq<char>, rest: Seq<char>)
    ensures
        parse_str_body(esc_string(t) + seq!['"'] + rest) == Some((t, rest)),
    decreases t.len(),
{
    let w = esc_string(t) + seq!['"'] + rest;
    if t.len() == 0 {
        assert(esc_string(t) =~= Seq::<char>::empty());
        assert(w =~= seq!['"'] + rest);
        assert(w[0] == '"');
        assert(w.drop_first() =~= rest);
        assert(t =~= Seq::<char>::empty());
    } else {
        let h = t[0];
        let tl = t.drop_first();
        lemma_rt_str_body(tl, rest);
        let w2 = esc_string(tl) + seq!['"'] + rest;
        if h == '"' || h == '\\' || h == '\n' || h == '\t' || h == '\r' {
            assert(esc_char(h).len() == 2 && esc_char(h)[0] == '\\');
            assert(w[0] == '\\');
            assert(w.len() >= 2);
            assert(w[1] == esc_char(h)[1]);
            assert(unescape(esc_char(h)[1]) == Some(h));
            assert(w.skip(2) =~= w2);
            assert(seq![h] + tl =~= t);
        } else {
            assert(esc_char(h) =~= seq![h]);
            assert(w[0] == h);
            assert(h != '"' && h != '\\');
            assert(w.drop_first() =~= w2);
            assert(seq![h] + tl =~= t);
        }
    }
}

/// Reading back a quoted string yields the original.
proof fn lemma_rt_string(t: Seq<char>, rest: Seq<char>)
    ensures
        parse_string(quoted(t) + rest) == Some((t, rest)),
{
    let w = quoted(t) + rest;
    assert(w[0] == '"');
    assert(w.drop_first() =~= esc_string(t) + seq!['"'] + rest);
    lemma_rt_str_body(t, rest);
}

/// Reading back the tail of an encoded string array yields its items.
proof fn lemma_rt_str_more(l: Seq<Seq<char>>, rest: Seq<char>)
    ensures
        parse_str_more(ser_str_more(l) + seq![']'] + rest) == Some((l, rest)),
    decreases l.len(),
{
    let s = ser_str_more(l) + seq![']'] + rest;
    if l.len() == 0 {
        assert(ser_str_more(l) =~= Seq::<char>::empty());
        assert(s =~= seq![']'] + rest);
        assert(s[0] == ']');
        lemma_skip_ws_noop(s);
        assert(s.drop_first() =~= rest);
        assert(l =~= Seq::<Seq<char>>::empty());
    } else {
        let tl = l.drop_first();
        let r = ser_str_more(tl) + seq![']'] + rest;
        assert(s =~= seq![','] + quoted(l[0]) + ser_str_more(tl) + seq![']'] + rest);
        assert(s[0] == ',');
        lemma_skip_ws_noop(s);
        assert(s.drop_first() =~= quoted(l[0]) + r);
        assert(s.drop_first()[0] == '"');
        lemma_skip_ws_noop(s.drop_first());
        lemma_rt_string(l[0], r);
        assert(r.len() < s.len());
        lemma_rt_str_more(tl, rest);
        assert(seq![l[0]] + tl =~= l);
    }
}

/// Reading back an encoded string array yields its items.
proof fn lemma_rt_str_list(l: Seq<Seq<char>>, rest: Seq<char>)
    ensures
        parse_str_list(ser_str_list(l) + rest) == Some((l, rest)),
{
    let s = ser_str_list(l) + rest;
    if l.len() == 0 {
        assert(s =~= seq!['['] + (seq![']'] + rest));
        assert(s[0] == '[');
        assert(s.drop_first() =~= seq![']'] + rest);
        assert(s.drop_first()[0] == ']');
        lemma_skip_ws_noop(s.drop_first());
        assert(s.drop_first().drop_first() =~= rest);
        assert(l =~= Seq::<Seq<char>>::empty());
    } else {
        let tl = l.drop_first();
        let r = ser_str_more(tl) + seq![']'] + rest;
        assert(s =~= seq!['['] + quoted(l[0]) + ser_str_more(tl) + seq![']'] + rest);
        assert(s[0] == '[');
        assert(s.drop_first() =~= quoted(l[0]) + r);
        assert(s.drop_first()[0] == '"');
        lemma_skip_ws_noop(s.drop_first());
        lemma_rt_string(l[0], r);
        lemma_rt_str_more(tl, rest);
        assert(seq![l[0]] + tl =~= l);
    }
}

/// Reading back an encoded shortcut object yields the shortcut.
#[verifier::rlimit(50)]
#[verifier::spinoff_prover]
proof fn lemma_rt_shortcut(m: ShortcutModel, rest: Seq<char>)
    ensures
        parse_shortcut(ser_shortcut(m) + rest) == Some((m, rest)),
{
    let s = ser_shortcut(m) + rest;
    let x1 = quoted(m.name) + seq![','] + label_command() + ser_str_list(m.command) + seq!['}']
        + rest;
    let x2 = seq![','] + label_command() + ser_str_list(m.command) + seq!['}'] + rest;
    let x3 = ser_str_list(m.command) + seq!['}'] + rest;
    let x4 = seq!['}'] + rest;
    assert(s[0] == '{');
    assert(s.drop_first() =~= label_name() + x1);
    assert(label_name()[0] == '"');
    assert((label_name() + x1)[0] == '"');
    lemma_skip_ws_noop(label_name() + x1);
    lemma_rt_expect(label_name(), x1);
    assert(x1[0] == '"');
    lemma_skip_ws_noop(x1);
    assert(x1 =~= quoted(m.name) + x2);
    lemma_rt_string(m.name, x2);
    assert(x2[0] == ',');
    lemma_skip_ws_noop(x2);
    assert(x2.drop_first() =~= label_command() + x3);
    assert((label_command() + x3)[0] == '"');
    lemma_skip_ws_noop(label_command() + x3);
    lemma_rt_expect(label_command(), x3);
    assert(x3[0] == '[');
    lemma_skip_ws_noop(x3);
    assert(x3 =~= ser_str_list(m.command) + x4);
    lemma_rt_str_list(m.command, x4);
    assert(x4[0] == '}');
    lemma_skip_ws_noop(x4);
    assert(x4.drop_first() =~= rest);
}

/// Reading back the tail of the encoded collection yields its shortcuts.
proof fn lemma_rt_coll_more(l: Seq<ShortcutModel>, rest: Seq<char>)
    ensures
        parse_coll_more(ser_more(l) + seq![']'] + rest) == Some((l, rest)),
    decreases l.len(),
{
    let s = ser_more(l) + seq![']'] + rest;
    if l.len() == 0 {
        assert(ser_more(l) =~= Seq::<char>::empty());
        assert(s =~= seq![']'] + rest);
        assert(s[0] == ']');
        lemma_skip_ws_noop(s);
        assert(s.drop_first() =~= rest);
        assert(l =~= Seq::<ShortcutModel>::empty());
    } else {
        let tl = l.drop_first();
        let r = ser_more(tl) + seq![']'] + rest;
        assert(s =~= seq![','] + ser_shortcut(l[0]) + ser_more(tl) + seq![']'] + rest);
        assert(s[0] == ',');
        lemma_skip_ws_noop(s);
        assert(s.drop_first() =~= ser_shortcut(l[0]) + r);
        assert(s.drop_first()[0] == '{');
        lemma_skip_ws_noop(s.drop_first());
        lemma_rt_shortcut(l[0], r);
        assert(r.len() < s.len());
        lemma_rt_coll_more(tl, rest);
        assert(seq![l[0]] + tl =~= l);
    }
}

/// Reading back the encoded collection array yields the collection.
#[verifier::rlimit(50)]
proof fn lemma_rt_collection(c: Seq<ShortcutModel>, rest: Seq<char>)
    ensures
        parse_collection(spec_serialize(c) + rest) == Some((c, rest)),
{
    let s = spec_serialize(c) + rest;
    if c.len() == 0 {
        assert(s =~= seq!['['] + (seq![']'] + rest));
        assert(s[0] == '[');
        assert(s.drop_first() =~= seq![']'] + rest);
        assert(s.drop_first()[0] == ']');
        lemma_skip_ws_noop(s.drop_first());
        assert(s.drop_first().drop_first() =~= rest);
        assert(c =~= Seq::<ShortcutModel>::empty());
    } else {
        let tl = c.drop_first();
        let r = ser_more(tl) + seq![']'] + rest;
        assert(s =~= seq!['['] + ser_shortcut(c[0]) + ser_more(tl) + seq![']'] + rest);
        assert(s[0] == '[');
        assert(s.drop_first() =~= ser_shortcut(c[0]) + r);
        assert(s.drop_first()[0] == '{');
        lemma_skip_ws_noop(s.drop_first());
        lemma_rt_shortcut(c[0], r);
        lemma_rt_coll_more(tl, rest);
        assert(seq![c[0]] + tl =~= c);
    }
}

/// The library's round-trip law: decoding an encoded collection gives the
/// collection back, order and all, for every collection.
pub proof fn lemma_round_trip(c: Seq<ShortcutModel>)
    ensures
        spec_parse(spec_serialize(c)) == Some(c),
{
    let doc = spec_serialize(c);
    assert(doc[0] == '[');
    lemma_skip_ws_noop(doc);
    lemma_rt_collection(c, Seq::<char>::empty());
    assert(doc + Seq::<char>::empty() =~= doc);
    assert(skip_ws(Seq::<char>::empty()).len() == 0);
}

// ---------------------------------------------------------------------------
// The decoder, executable. Each parse step consumes input; these bounds
// justify the shrinking-input guards of the specification.
// ---------------------------------------------------------------------------
/// Skipping blanks never lengthens the input.
proof fn lemma_skip_ws_le(s: Seq<char>)
    ensures
        skip_ws(s).len() <= s.len(),
    decreases s.len(),
{
    if s.len() > 0 && is_ws(s[0]) {
        lemma_skip_ws_le(s.drop_first());
    }
}

/// A string body consumes at least its closing quote.
proof fn lemma_str_body_adv(s: Seq<char>)
    ensures
        parse_str_body(s) matches Some(p) ==> p.1.len() < s.len(),
    decreases s.len(),
{
    if s.len() == 0 {
    } else if s[0] == '"' {
    } else if s[0] == '\\' {
        if s.len() >= 2 {
            lemma_str_body_adv(s.skip(2));
        }
    } else {
        lemma_str_body_adv(s.drop_first());
    }
}

/// A quoted string consumes at least its two quotes.
proof fn lemma_string_adv(s: Seq<char>)
    ensures
        parse_string(s) matches Some(p) ==> p.1.len() + 2 <= s.len(),
{
    if s.len() > 0 && s[0] == '"' {
        lemma_str_body_adv(s.drop_first());
    }
}

/// An array tail consumes at least its closing bracket.
proof fn lemma_str_more_adv(s: Seq<char>)
    ensures
        parse_str_more(s) matches Some(p) ==> p.1.len() < s.len(),
    decreases s.len(),
{
    lemma_skip_ws_le(s);
    let t = skip_ws(s);
    if t.len() > 0 && t[0] == ']' {
    } else if t.len() > 0 && t[0] == ',' {
        let u = skip_ws(t.drop_first());
        lemma_skip_ws_le(t.drop_first());
        match parse_string(u) {
            Some((x, r)) => {
                if r.len() < s.len() {
                    lemma_str_more_adv(r);
                }
            },
            None => {},
        }
    }
}

/// A whole string array consumes at least its brackets.
proof fn lemma_str_list_adv(s: Seq<char>)
    ensures
        parse_str_list(s) matches Some(p) ==> p.1.len() < s.len(),
{
    if s.len() > 0 && s[0] == '[' {
        let t = skip_ws(s.drop_first());
        lemma_skip_ws_le(s.drop_first());
        if t.len() > 0 && t[0] == ']' {
        } else {
            match parse_string(t) {
                Some((x, r)) => {
                    lemma_string_adv(t);
                    lemma_str_more_adv(r);
                },
                None => {},
            }
        }
    }
}

/// A shortcut object consumes at least its braces.
proof fn lemma_shortcut_adv(s: Seq<char>)
    ensures
        parse_shortcut(s) matches Some(p) ==> p.1.len() < s.len(),
{
    if s.len() > 0 && s[0] == '{' {
        let t0 = skip_ws(s.drop_first());
        lemma_skip_ws_le(s.drop_first());
        match expect(t0, label_name()) {
            Some(t1) => {
                lemma_skip_ws_le(t1);
                match parse_string(skip_ws(t1)) {
                    Some((nm, r1)) => {
                        lemma_string_adv(skip_ws(t1));
                        let t3 = skip_ws(r1);
                        lemma_skip_ws_le(r1);
                        if t3.len() > 0 && t3[0] == ',' {
                            lemma_skip_ws_le(t3.drop_first());
                            match expect(skip_ws(t3.drop_first()), label_command()) {
                                Some(t5) => {
                                    lemma_skip_ws_le(t5);
                                    match parse_str_list(skip_ws(t5)) {
                                        Some((cmd, r2)) => {
                                            lemma_str_list_adv(skip_ws(t5));
                                            lemma_skip_ws_le(r2);
                                        },
                                        None => {},
                                    }
                                },
                                None => {},
                            }
                        }
                    },
                    None => {},
                }
            },
            None => {},
        }
    }
}

/// Whether the decoder treats `c` as blank.
fn is_ws_char(c: char) -> (r: bool)
    ensures
        r == is_ws(c),
{
    c == ' ' || c == '\n' || c == '\t' || c == '\r'
}

/// The position after the blanks that start at `i`.
fn ws_end(s: &str, i: usize) -> (j: usize)
    requires
        i <= s@.len(),
    ensures
        i <= j <= s@.len(),
        skip_ws(s@.skip(i as int)) == s@.skip(j as int),
{
    let n = s.unicode_len();
    let mut j: usize = i;
    while j < n && is_ws_char(s.get_char(j))
        invariant
            i <= j <= n,
            n == s@.len(),
            skip_ws(s@.skip(i as int)) == skip_ws(s@.skip(j as int)),
        decreases n - j,
    {
        proof {
            assert(s@.skip(j as int).len() > 0);
            assert(s@.skip(j as int)[0] == s@[j as int]);
            assert(s@.skip(j as int).drop_first() =~= s@.skip(j + 1));
        }
        j += 1;
    }
    proof {
        if j < n {
            assert(s@.skip(j as int)[0] == s@[j as int]);
            assert(!is_ws(s@.skip(j as int)[0]));
        } else {
            assert(s@.skip(j as int).len() == 0);
        }
    }
    j
}

/// The position after a literal prefix expected at `i`, or `None` when the
/// input reads otherwise there.
fn x_expect(s: &str, i: usize, lit: &str) -> (r: Option<usize>)
    requires
        i <= s@.len(),
    ensures
        match r {
            Some(j) => i <= j <= s@.len() && expect(s@.skip(i as int), lit@) == Some(
                s@.skip(j as int),
            ),
            None => expect(s@.skip(i as int), lit@) is None,
        },
{
    let n = s.unicode_len();
    let m = lit.unicode_len();
    if n - i < m {
        assert(s@.skip(i as int).len() < lit@.len());
        return None;
    }
    let mut k: usize = 0;
    while k < m
        invariant
            k <= m,
            m == lit@.len(),
            i + m <= n,
            n == s@.len(),
            forall|q: int| 0 <= q < k ==> s@.skip(i as int)[q] == lit@[q],
        decreases m - k,
    {
        if s.get_char(i + k) != lit.get_char(k) {
            proof {
                assert(s@.skip(i as int)[k as int] == s@[i + k]);
                assert(s@.skip(i as int).take(m as int)[k as int] != lit@[k as int]);
            }
            return None;
        }
        proof {
            assert(s@.skip(i as int)[k as int] == s@[i + k]);
        }
        k += 1;
    }
    proof {
        assert(s@.skip(i as int).take(m as int) =~= lit@);
        assert(s@.skip(i as int).skip(m as int) =~= s@.skip(i + m));
    }
    Some(i + m)
}

/// Prepending already-read characters to a string-body parse.
spec fn opt_prepend(a: Seq<char>, o: Option<(Seq<char>, Seq<char>)>) -> Option<
    (Seq<char>, Seq<char>),
> {
    match o {
        Some(p) => Some((a + p.0, p.1)),
        None => None,
    }
}

/// A string body read from position `i`, after the opening quote.
fn x_parse_str_body(s: &str, i: usize) -> (r: Option<(String, usize)>)
    requires
        i <= s@.len(),
    ensures
        match r {
            Some(p) => p.1 <= s@.len() && parse_str_body(s@.skip(i as int)) == Some(
                (p.0@, s@.skip(p.1 as int)),
            ),
            None => parse_str_body(s@.skip(i as int)) is None,
        },
{
    let n = s.unicode_len();
    let mut acc = String::new();
    let mut j: usize = i;
    proof {
        match parse_str_body(s@.skip(i as int)) {
            Some((t, r)) => {
                assert(Seq::<char>::empty() + t =~= t);
            },
            None => {},
        }
    }
    loop
        invariant
            i <= j <= n,
            n == s@.len(),
            parse_str_body(s@.skip(i as int)) == opt_prepend(
                acc@,
                parse_str_body(s@.skip(j as int)),
            ),
        decreases n - j,
    {
        if j == n {
            proof {
                assert(s@.skip(j as int).len() == 0);
            }
            return None;
        }
        let c = s.get_char(j);
        proof {
            assert(s@.skip(j as int).len() > 0);
            assert(s@.skip(j as int)[0] == c);
            assert(s@.skip(j as int).drop_first() =~= s@.skip(j + 1));
        }
        if c == '"' {
            proof {
                assert(acc@ + Seq::<char>::empty() =~= acc@);
            }
            return Some((acc, j + 1));
        } else if c == '\\' {
            if j + 1 == n {
                proof {
                    assert(s@.skip(j as int).len() == 1);
                }
                return None;
            }
            let c2 = s.get_char(j + 1);
            proof {
                assert(s@.skip(j as int).len() >= 2);
                assert(s@.skip(j as int)[1] == c2);
                assert(s@.skip(j as int).skip(2) =~= s@.skip(j + 2));
            }
            let ghost pre = acc@;
            if c2 == '"' {
                proof {
                    reveal_strlit("\"");
                }
                assert("\""@ =~= seq!['"']);
                acc.append("\"");
            } else if c2 == '\\' {
                proof {
                    reveal_strlit("\\");
                }
                assert("\\"@ =~= seq!['\\']);
                acc.append("\\");
            } else if c2 == 'n' {
                proof {
                    reveal_strlit("\n");
                }
                assert("\n"@ =~= seq!['\n']);
                acc.append("\n");
            } else if c2 == 't' {
                proof {
                    reveal_strlit("\t");
                }
                assert("\t"@ =~= seq!['\t']);
                acc.append("\t");
            } else if c2 == 'r' {
                proof {
                    reveal_strlit("\r");
                }
                assert("\r"@ =~= seq!['\r']);
                acc.append("\r");
            } else {
                proof {
                    assert(unescape(c2) is None);
                }
                return None;
            }
            proof {
                let d = acc@[acc@.len() - 1];
                assert(acc@ =~= pre + seq![d]);
                assert(unescape(c2) == Some(d));
                match parse_str_body(s@.skip(j + 2)) {
                    Some((t2, r2)) => {
                        assert(pre + (seq![d] + t2) =~= (pre + seq![d]) + t2);
                    },
                    None => {},
                }
            }
            j += 2;
        } else {
            let ghost pre = acc@;
            let piece = s.substring_char(j, j + 1);
            assert(piece@ =~= seq![c]);
            acc.append(piece);
            proof {
                match parse_str_body(s@.skip(j + 1)) {
                    Some((t2, r2)) => {
                        assert(pre + (seq![c] + t2) =~= (pre + seq![c]) + t2);
                    },
                    None => {},
                }
            }
            j += 1;
        }
    }
}

/// A quoted string read from position `i`.
fn x_parse_string(s: &str, i: usize) -> (r: Option<(String, usize)>)
    requires
        i <= s@.len(),
    ensures
        match r {
            Some(p) => p.1 <= s@.len() && parse_string(s@.skip(i as int)) == Some(
                (p.0@, s@.skip(p.1 as int)),
            ),
            None => parse_string(s@.skip(i as int)) is None,
        },
{
    let n = s.unicode_len();
    if i == n {
        proof {
            assert(s@.skip(i as int).len() == 0);
        }
        return None;
    }
    let c = s.get_char(i);
    proof {
        assert(s@.skip(i as int).len() > 0);
        assert(s@.skip(i as int)[0] == c);
        assert(s@.skip(i as int).drop_first() =~= s@.skip(i + 1));
    }
    if c != '"' {
        return None;
    }
    x_parse_str_body(s, i + 1)
}

/// Prepending already-read items to a string-array parse.
spec fn opt_prepend_strs(a: Seq<Seq<char>>, o: Option<(Seq<Seq<char>>, Seq<char>)>) -> Option<
    (Seq<Seq<char>>, Seq<char>),
> {
    match o {
        Some(p) => Some((a + p.0, p.1)),
        None => None,
    }
}

/// A string array read from position `i`.
fn x_parse_str_list(s: &str, i: usize) -> (r: Option<(Vec<String>, usize)>)
    requires
        i <= s@.len(),
    ensures
        match r {
            Some(p) => p.1 <= s@.len() && parse_str_list(s@.skip(i as int)) == Some(
                (p.0.deep_view(), s@.skip(p.1 as int)),
            ),
            None => parse_str_list(s@.skip(i as int)) is None,
        },
{
    let n = s.unicode_len();
    if i == n {
        proof {
            assert(s@.skip(i as int).len() == 0);
        }
        return None;
    }
    let c0 = s.get_char(i);
    proof {
        assert(s@.skip(i as int).len() > 0);
        assert(s@.skip(i as int)[0] == c0);
        assert(s@.skip(i as int).drop_first() =~= s@.skip(i + 1));
    }
    if c0 != '[' {
        return None;
    }
    let j1 = ws_end(s, i + 1);
    if j1 < n && s.get_char(j1) == ']' {
        proof {
            assert(s@.skip(j1 as int)[0] == s@[j1 as int]);
            assert(s@.skip(j1 as int).drop_first() =~= s@.skip(j1 + 1));
        }
        let v: Vec<String> = Vec::new();
        assert(v.deep_view() =~= Seq::<Seq<char>>::empty());
        return Some((v, j1 + 1));
    }
    proof {
        if j1 < n {
            assert(s@.skip(j1 as int)[0] == s@[j1 as int]);
        } else {
            assert(s@.skip(j1 as int).len() == 0);
        }
    }
    match x_parse_string(s, j1) {
        None => {
            return None;
        },
        Some((x0, j2)) => {
            let mut v: Vec<String> = Vec::new();
            v.push(x0);
            let mut j: usize = j2;
            proof {
                assert(v.deep_view() =~= seq![v@[0]@]);
                match parse_str_more(s@.skip(j2 as int)) {
                    Some((xs, rr)) => {
                        assert(v.deep_view() + xs =~= seq![v@[0]@] + xs);
                    },
                    None => {},
                }
            }
            loop
                invariant
                    j <= n,
                    n == s@.len(),
                    parse_str_list(s@.skip(i as int)) == opt_prepend_strs(
                        v.deep_view(),
                        parse_str_more(s@.skip(j as int)),
                    ),
                decreases n - j,
            {
                let t_idx = ws_end(s, j);
                if t_idx == n {
                    proof {
                        assert(s@.skip(t_idx as int).len() == 0);
                    }
                    return None;
                }
                let c = s.get_char(t_idx);
                proof {
                    assert(s@.skip(t_idx as int).len() > 0);
                    assert(s@.skip(t_idx as int)[0] == c);
                    assert(s@.skip(t_idx as int).drop_first() =~= s@.skip(t_idx + 1));
                }
                if c == ']' {
                    proof {
                        assert(v.deep_view() + Seq::<Seq<char>>::empty() =~= v.deep_view());
                    }
                    return Some((v, t_idx + 1));
                } else if c == ',' {
                    let u_idx = ws_end(s, t_idx + 1);
                    match x_parse_string(s, u_idx) {
                        None => {
                            return None;
                        },
                        Some((x, j_new)) => {
                            proof {
                                lemma_string_adv(s@.skip(u_idx as int));
                                assert(j < j_new);
                            }
                            let ghost pre = v.deep_view();
                            let ghost xv = x@;
                            v.push(x);
                            proof {
                                assert(v.deep_view() =~= pre + seq![xv]);
                                match parse_str_more(s@.skip(j_new as int)) {
                                    Some((xs, rr)) => {
                                        assert(pre + (seq![xv] + xs) =~= (pre + seq![xv]) + xs);
                                    },
                                    None => {},
                                }
                            }
                            j = j_new;
                        },
                    }
                } else {
                    return None;
                }
            }
        },
    }
}

/// One shortcut object read from position `i`.
fn x_parse_shortcut(s: &str, i: usize) -> (r: Option<(Shortcut, usize)>)
    requires
        i <= s@.len(),
    ensures
        match r {
            Some(p) => p.1 <= s@.len() && parse_shortcut(s@.skip(i as int)) == Some(
                (p.0@, s@.skip(p.1 as int)),
            ),
            None => parse_shortcut(s@.skip(i as int)) is None,
        },
{
    let n = s.unicode_len();
    if i == n {
        proof {
            assert(s@.skip(i as int).len() == 0);
        }
        return None;
    }
    let c0 = s.get_char(i);
    proof {
        assert(s@.skip(i as int).len() > 0);
        assert(s@.skip(i as int)[0] == c0);
        assert(s@.skip(i as int).drop_first() =~= s@.skip(i + 1));
    }
    if c0 != '{' {
        return None;
    }
    let t0 = ws_end(s, i + 1);
    proof {
        reveal_strlit("\"project_name\":");
    }
    assert("\"project_name\":"@ =~= label_name());
    let t1 = match x_expect(s, t0, "\"project_name\":") {
        None => {
            return None;
        },
        Some(j) => j,
    };
    let t2 = ws_end(s, t1);
    let (nm, r1) = match x_parse_string(s, t2) {
        None => {
            return None;
        },
        Some(p) => p,
    };
    let t3 = ws_end(s, r1);
    if t3 == n {
        proof {
            assert(s@.skip(t3 as int).len() == 0);
        }
        return None;
    }
    let c3 = s.get_char(t3);
    proof {
        assert(s@.skip(t3 as int).len() > 0);
        assert(s@.skip(t3 as int)[0] == c3);
        assert(s@.skip(t3 as int).drop_first() =~= s@.skip(t3 + 1));
    }
    if c3 != ',' {
        return None;
    }
    let t4 = ws_end(s, t3 + 1);
    proof {
        reveal_strlit("\"run_command\":");
    }
    assert("\"run_command\":"@ =~= label_command());
    let t5 = match x_expect(s, t4, "\"run_command\":") {
        None => {
            return None;
        },
        Some(j) => j,
    };
    let t6 = ws_end(s, t5);
    let (cmd, r2) = match x_parse_str_list(s, t6) {
        None => {
            return None;
        },
        Some(p) => p,
    };
    let t7 = ws_end(s, r2);
    if t7 == n {
        proof {
            assert(s@.skip(t7 as int).len() == 0);
        }
        return None;
    }
    let c7 = s.get_char(t7);
    proof {
        assert(s@.skip(t7 as int).len() > 0);
        assert(s@.skip(t7 as int)[0] == c7);
        assert(s@.skip(t7 as int).drop_first() =~= s@.skip(t7 + 1));
    }
    if c7 != '}' {
        return None;
    }
    let sc = Shortcut { project_name: nm, run_command: cmd };
    Some((sc, t7 + 1))
}

/// Prepending already-read shortcuts to a collection parse.
spec fn opt_prepend_models(
    a: Seq<ShortcutModel>,
    o: Option<(Seq<ShortcutModel>, Seq<char>)>,
) -> Option<(Seq<ShortcutModel>, Seq<char>)> {
    match o {
        Some(p) => Some((a + p.0, p.1)),
        None => None,
    }
}

/// The collection array read from position `i`.
fn x_parse_collection(s: &str, i: usize) -> (r: Option<(Vec<Shortcut>, usize)>)
    requires
        i <= s@.len(),
    ensures
        match r {
            Some(p) => p.1 <= s@.len() && parse_collection(s@.skip(i as int)) == Some(
                (p.0.deep_view(), s@.skip(p.1 as int)),
            ),
            None => parse_collection(s@.skip(i as int)) is None,
        },
{
    let n = s.unicode_len();
    if i == n {
        proof {
            assert(s@.skip(i as int).len() == 0);
        }
        return None;
    }
    let c0 = s.get_char(i);
    proof {
        assert(s@.skip(i as int).len() > 0);
        assert(s@.skip(i as int)[0] == c0);
        assert(s@.skip(i as int).drop_first() =~= s@.skip(i + 1));
    }
    if c0 != '[' {
        return None;
    }
    let j1 = ws_end(s, i + 1);
    if j1 < n && s.get_char(j1) == ']' {
        proof {
            assert(s@.skip(j1 as int)[0] == s@[j1 as int]);
            assert(s@.skip(j1 as int).drop_first() =~= s@.skip(j1 + 1));
        }
        let v: Vec<Shortcut> = Vec::new();
        assert(v.deep_view() =~= Seq::<ShortcutModel>::empty());
        return Some((v, j1 + 1));
    }
    proof {
        if j1 < n {
            assert(s@.skip(j1 as int)[0] == s@[j1 as int]);
        } else {
            assert(s@.skip(j1 as int).len() == 0);
        }
    }
    match x_parse_shortcut(s, j1) {
        None => {
            return None;
        },
        Some((m0, j2)) => {
            let mut v: Vec<Shortcut> = Vec::new();
            v.push(m0);
            let mut j: usize = j2;
            proof {
                assert(v.deep_view() =~= seq![v@[0]@]);
                match parse_coll_more(s@.skip(j2 as int)) {
                    Some((ms, rr)) => {
                        assert(v.deep_view() + ms =~= seq![v@[0]@] + ms);
                    },
                    None => {},
                }
            }
            loop
                invariant
                    j <= n,
                    n == s@.len(),
                    parse_collection(s@.skip(i as int)) == opt_prepend_models(
                        v.deep_view(),
                        parse_coll_more(s@.skip(j as int)),
                    ),
                decreases n - j,
            {
                let t_idx = ws_end(s, j);
                if t_idx == n {
                    proof {
                        assert(s@.skip(t_idx as int).len() == 0);
                    }
                    return None;
                }
                let c = s.get_char(t_idx);
                proof {
                    assert(s@.skip(t_idx as int).len() > 0);
                    assert(s@.skip(t_idx as int)[0] == c);
                    assert(s@.skip(t_idx as int).drop_first() =~= s@.skip(t_idx + 1));
                }
                if c == ']' {
                    proof {
                        assert(v.deep_view() + Seq::<ShortcutModel>::empty() =~= v.deep_view());
                    }
                    return Some((v, t_idx + 1));
                } else if c == ',' {
                    let u_idx = ws_end(s, t_idx + 1);
                    match x_parse_shortcut(s, u_idx) {
                        None => {
                            return None;
                        },
                        Some((m, j_new)) => {
                            proof {
                                lemma_shortcut_adv(s@.skip(u_idx as int));
                                assert(j < j_new);
                            }
                            let ghost pre = v.deep_view();
                            let ghost mv = m@;
                            v.push(m);
                            proof {
                                assert(v.deep_view() =~= pre + seq![mv]);
                                match parse_coll_more(s@.skip(j_new as int)) {
                                    Some((ms, rr)) => {
                                        assert(pre + (seq![mv] + ms) =~= (pre + seq![mv]) + ms);
                                    },
                                    None => {},
                                }
                            }
                            j = j_new;
                        },
                    }
                } else {
                    return None;
                }
            }
        },
    }
}

/// Decodes a document into the collection it holds. Exactly the documents
/// [`spec_parse`] accepts decode; anything else is malformed and reported
/// as a `StorageError`.
pub fn parse_shortcuts(s: &str) -> (r: Result<Vec<Shortcut>, Error>)
    ensures
        match spec_parse(s@) {
            Some(m) => r matches Ok(v) && v.deep_view() == m,
            None => r == Result::<Vec<Shortcut>, Error>::Err(Error::StorageError),
        },
{
    let n = s.unicode_len();
    let i0 = ws_end(s, 0);
    proof {
        assert(s@.skip(0) =~= s@);
    }
    match x_parse_collection(s, i0) {
        None => Err(Error::StorageError),
        Some((v, j)) => {
            let j2 = ws_end(s, j);
            if j2 == n {
                proof {
                    assert(s@.skip(j2 as int).len() == 0);
                }
                Ok(v)
            } else {
                proof {
                    assert(s@.skip(j2 as int).len() > 0);
                }
                Err(Error::StorageError)
            }
        },
    }
}

} // verus!
