//! A JSON value model with a verified parser and pretty-printer.

use vstd::prelude::*;
use vstd::string::StringExecFns;

verus! {

broadcast use vstd::std_specs::vec::group_vec_axioms;

/// A JSON value.
///
/// Numbers keep the characters they were written with: the codec itself
/// never computes with a number, it only needs to recognize one.
#[derive(Debug)]
pub enum Json {
    Null,
    Bool(bool),
    Num(Vec<char>),
    Str(String),
    Arr(Vec<Json>),
    Obj(Vec<(String, Json)>),
}

/// The mathematical value of a [`Json`] tree.
pub enum JsonV {
    Null,
    Bool(bool),
    Num(Seq<char>),
    Str(Seq<char>),
    Arr(Seq<JsonV>),
    Obj(Seq<(Seq<char>, JsonV)>),
}

/// The mathematical value of an exec JSON tree.
pub open spec fn jview(j: Json) -> JsonV
    decreases j,
    via jview_decreases
{
    match j {
        Json::Null => JsonV::Null,
        Json::Bool(b) => JsonV::Bool(b),
        Json::Num(n) => JsonV::Num(n@),
        Json::Str(s) => JsonV::Str(s@),
        Json::Arr(items) => JsonV::Arr(jview_seq(items@)),
        Json::Obj(members) => JsonV::Obj(jview_members(members@)),
    }
}

pub open spec fn jview_seq(s: Seq<Json>) -> Seq<JsonV>
    decreases s,
{
    if s.len() == 0 {
        Seq::empty()
    } else {
        jview_seq(s.drop_last()).push(jview(s.last()))
    }
}

pub open spec fn jview_members(s: Seq<(String, Json)>) -> Seq<(Seq<char>, JsonV)>
    decreases s,
    via jview_members_decreases
{
    if s.len() == 0 {
        Seq::empty()
    } else {
        jview_members(s.drop_last()).push((s.last().0@, jview(s.last().1)))
    }
}

#[via_fn]
proof fn jview_decreases(j: Json) {
    match j {
        Json::Arr(items) => {
            assert(decreases_to!(j => items));
            assert(decreases_to!(items => items@));
        }
        Json::Obj(members) => {
            assert(decreases_to!(j => members));
            assert(decreases_to!(members => members@));
        }
        _ => {}
    }
}

#[via_fn]
proof fn jview_members_decreases(s: Seq<(String, Json)>) {
    if s.len() > 0 {
        assert(decreases_to!(s => s.last()));
        assert(decreases_to!(s.last() => s.last().1));
    }
}

impl DeepView for Json {
    type V = JsonV;

    open spec fn deep_view(&self) -> JsonV {
        jview(*self)
    }
}

/// `jview_seq` maps `jview` over the sequence.
pub proof fn lemma_jview_seq(s: Seq<Json>)
    ensures
        jview_seq(s).len() == s.len(),
        forall|i: int| 0 <= i < s.len() ==> jview_seq(s)[i] == jview(s[i]),
    decreases s.len(),
{
    if s.len() > 0 {
        lemma_jview_seq(s.drop_last());
    }
}

/// `jview_members` maps key views and `jview` over the member list.
pub proof fn lemma_jview_members(s: Seq<(String, Json)>)
    ensures
        jview_members(s).len() == s.len(),
        forall|i: int|
            0 <= i < s.len() ==> jview_members(s)[i] == (s[i].0@, jview(s[i].1)),
    decreases s.len(),
{
    if s.len() > 0 {
        lemma_jview_members(s.drop_last());
    }
}

// ------------------------------------------------------------------
// The printer, as a specification.
// ------------------------------------------------------------------
/// The lower-case hex digit for a value below sixteen.
pub open spec fn hex_digit(n: int) -> char {
    if n == 0 {
        '0'
    } else if n == 1 {
        '1'
    } else if n == 2 {
        '2'
    } else if n == 3 {
        '3'
    } else if n == 4 {
        '4'
    } else if n == 5 {
        '5'
    } else if n == 6 {
        '6'
    } else if n == 7 {
        '7'
    } else if n == 8 {
        '8'
    } else if n == 9 {
        '9'
    } else if n == 10 {
        'a'
    } else if n == 11 {
        'b'
    } else if n == 12 {
        'c'
    } else if n == 13 {
        'd'
    } else if n == 14 {
        'e'
    } else {
        'f'
    }
}

/// How one character of a string value is written: the two-character
/// escapes of JSON where they exist, `\u00` and two hex digits for the
/// remaining control characters, and the character itself otherwise.
pub open spec fn esc_char(c: char) -> Seq<char> {
    if c == '"' {
        seq!['\\', '"']
    } else if c == '\\' {
        seq!['\\', '\\']
    } else if c == '\n' {
        seq!['\\', 'n']
    } else if c == '\r' {
        seq!['\\', 'r']
    } else if c == '\t' {
        seq!['\\', 't']
    } else if c == '\u{8}' {
        seq!['\\', 'b']
    } else if c == '\u{c}' {
        seq!['\\', 'f']
    } else if (c as u32) < 0x20 {
        seq!['\\', 'u', '0', '0', hex_digit((c as u32) as int / 16), hex_digit(
            (c as u32) as int % 16,
        )]
    } else {
        seq![c]
    }
}

/// The written body of a string value.
pub open spec fn esc_str(t: Seq<char>) -> Seq<char>
    decreases t.len(),
{
    if t.len() == 0 {
        Seq::empty()
    } else {
        esc_char(t.first()) + esc_str(t.drop_first())
    }
}

/// A written string value, quotes included.
pub open spec fn print_str(t: Seq<char>) -> Seq<char> {
    seq!['"'] + esc_str(t) + seq!['"']
}

/// A line break followed by the given indentation.
pub open spec fn nl_pad(pad: Seq<char>) -> Seq<char> {
    seq!['\n'] + pad
}

/// The two spaces one nesting level adds to the indentation.
pub open spec fn pad_step() -> Seq<char> {
    seq![' ', ' ']
}

/// The pretty-printed text of a value placed at indentation `pad`.
///
/// Arrays and objects put every element on a line of its own, indented two
/// spaces past `pad`; empty ones are written as a bare bracket pair.
pub open spec fn print_json(j: JsonV, pad: Seq<char>) -> Seq<char>
    decreases j,
{
    match j {
        JsonV::Null => seq!['n', 'u', 'l', 'l'],
        JsonV::Bool(b) => if b {
            seq!['t', 'r', 'u', 'e']
        } else {
            seq!['f', 'a', 'l', 's', 'e']
        },
        JsonV::Num(t) => t,
        JsonV::Str(t) => print_str(t),
        JsonV::Arr(items) => if items.len() == 0 {
            seq!['[', ']']
        } else {
            seq!['['] + print_elems(items, pad + pad_step()) + nl_pad(pad) + seq![']']
        },
        JsonV::Obj(members) => if members.len() == 0 {
            seq!['{', '}']
        } else {
            seq!['{'] + print_members(members, pad + pad_step()) + nl_pad(pad) + seq!['}']
        },
    }
}

/// The lines of a non-empty array body, comma separated.
pub open spec fn print_elems(items: Seq<JsonV>, pad: Seq<char>) -> Seq<char>
    decreases items,
{
    if items.len() == 0 {
        Seq::empty()
    } else if items.len() == 1 {
        nl_pad(pad) + print_json(items.first(), pad)
    } else {
        nl_pad(pad) + print_json(items.first(), pad) + seq![','] + print_elems(
            items.drop_first(),
            pad,
        )
    }
}

/// The lines of a non-empty object body, comma separated.
pub open spec fn print_members(members: Seq<(Seq<char>, JsonV)>, pad: Seq<char>) -> Seq<char>
    decreases members,
{
    if members.len() == 0 {
        Seq::empty()
    } else if members.len() == 1 {
        nl_pad(pad) + print_str(members.first().0) + seq![':', ' '] + print_json(
            members.first().1,
            pad,
        )
    } else {
        nl_pad(pad) + print_str(members.first().0) + seq![':', ' '] + print_json(
            members.first().1,
            pad,
        ) + seq![','] + print_members(members.drop_first(), pad)
    }
}

// ------------------------------------------------------------------
// The parser, as a specification.
// ------------------------------------------------------------------
/// JSON whitespace.
pub open spec fn is_ws(c: char) -> bool {
    c == ' ' || c == '\t' || c == '\n' || c == '\r'
}

/// A decimal digit.
pub open spec fn is_digit(c: char) -> bool {
    '0' <= c && c <= '9'
}

/// A hex digit, either case.
pub open spec fn is_hex(c: char) -> bool {
    is_digit(c) || ('a' <= c && c <= 'f') || ('A' <= c && c <= 'F')
}

/// The value of a hex digit.
pub open spec fn hex_val(c: char) -> int {
    if is_digit(c) {
        (c as u32) - ('0' as u32)
    } else if 'a' <= c && c <= 'f' {
        (c as u32) - ('a' as u32) + 10
    } else {
        (c as u32) - ('A' as u32) + 10
    }
}

/// The input with its leading whitespace removed.
pub open spec fn skip_ws(s: Seq<char>) -> Seq<char>
    decreases s.len(),
{
    if s.len() > 0 && is_ws(s.first()) {
        skip_ws(s.drop_first())
    } else {
        s
    }
}

/// Whether the input starts with the given characters.
pub open spec fn has_prefix(s: Seq<char>, p: Seq<char>) -> bool {
    p.len() <= s.len() && s.take(p.len() as int) == p
}

/// The count of leading decimal digits.
pub open spec fn digits_count(s: Seq<char>) -> nat
    decreases s.len(),
{
    if s.len() > 0 && is_digit(s.first()) {
        (1 + digits_count(s.drop_first())) as nat
    } else {
        0
    }
}

/// The length of the fraction part standing at the front of the input:
/// zero when there is none, negative when a bare dot stands there.
pub open spec fn frac_len(s: Seq<char>) -> int {
    if s.len() >= 2 && s.first() == '.' && is_digit(s[1]) {
        1 + digits_count(s.drop_first()) as int
    } else if s.len() >= 1 && s.first() == '.' {
        -1
    } else {
        0
    }
}

/// The length of the exponent part standing at the front of the input:
/// zero when there is none, negative when it is malformed.
pub open spec fn exp_len(s: Seq<char>) -> int {
    if s.len() >= 1 && (s.first() == 'e' || s.first() == 'E') {
        let esign: int = if s.len() >= 2 && (s[1] == '+' || s[1] == '-') {
            1
        } else {
            0
        };
        let sd = s.skip(1 + esign);
        if sd.len() == 0 || !is_digit(sd.first()) {
            -1
        } else {
            1 + esign + digits_count(sd) as int
        }
    } else {
        0
    }
}

/// The length of the number token at the front of the input, by the JSON
/// number grammar, or `None` when the input does not start with a number.
pub open spec fn number_len(s: Seq<char>) -> Option<int> {
    let sign: int = if s.len() > 0 && s.first() == '-' {
        1
    } else {
        0
    };
    let si = s.skip(sign);
    if si.len() == 0 || !is_digit(si.first()) {
        None
    } else {
        let ilen: int = if si.first() == '0' {
            1
        } else {
            digits_count(si) as int
        };
        let fl = frac_len(si.skip(ilen));
        if fl < 0 {
            None
        } else {
            let el = exp_len(si.skip(ilen + fl));
            if el < 0 {
                None
            } else {
                Some(sign + ilen + fl + el)
            }
        }
    }
}

/// Parses the number token at the front of the input.
pub open spec fn parse_number(s: Seq<char>) -> Option<(JsonV, Seq<char>)> {
    match number_len(s) {
        None => None,
        Some(l) => Some((JsonV::Num(s.take(l)), s.skip(l))),
    }
}

/// Parses the body of a string value, starting after the opening quote:
/// the decoded content and the input after the closing quote.  Unknown
/// escapes, raw control characters, lone surrogates and an unclosed quote
/// all fail.
pub open spec fn parse_string_body(s: Seq<char>) -> Option<(Seq<char>, Seq<char>)>
    decreases s.len(),
{
    if s.len() == 0 {
        None
    } else if s.first() == '"' {
        Some((Seq::empty(), s.drop_first()))
    } else if s.first() == '\\' {
        if s.len() < 2 {
            None
        } else {
            let e = s[1];
            if e == '"' || e == '\\' || e == '/' {
                match parse_string_body(s.skip(2)) {
                    None => None,
                    Some((t, r)) => Some((seq![e] + t, r)),
                }
            } else if e == 'n' || e == 't' || e == 'r' || e == 'b' || e == 'f' {
                let c = if e == 'n' {
                    '\n'
                } else if e == 't' {
                    '\t'
                } else if e == 'r' {
                    '\r'
                } else if e == 'b' {
                    '\u{8}'
                } else {
                    '\u{c}'
                };
                match parse_string_body(s.skip(2)) {
                    None => None,
                    Some((t, r)) => Some((seq![c] + t, r)),
                }
            } else if e == 'u' {
                if s.len() >= 6 && is_hex(s[2]) && is_hex(s[3]) && is_hex(s[4]) && is_hex(s[5]) {
                    let cp = hex_val(s[2]) * 0x1000 + hex_val(s[3]) * 0x100 + hex_val(s[4]) * 0x10
                        + hex_val(s[5]);
                    if 0xD800 <= cp && cp <= 0xDBFF {
                        if s.len() >= 12 && s[6] == '\\' && s[7] == 'u' && is_hex(s[8]) && is_hex(
                            s[9],
                        ) && is_hex(s[10]) && is_hex(s[11]) {
                            let lo = hex_val(s[8]) * 0x1000 + hex_val(s[9]) * 0x100 + hex_val(
                                s[10],
                            ) * 0x10 + hex_val(s[11]);
                            if 0xDC00 <= lo && lo <= 0xDFFF {
                                let c = (0x10000 + (cp - 0xD800) * 0x400 + (lo - 0xDC00)) as u32;
                                match parse_string_body(s.skip(12)) {
                                    None => None,
                                    Some((t, r)) => Some((seq![c as char] + t, r)),
                                }
                            } else {
                                None
                            }
                        } else {
                            None
                        }
                    } else if 0xDC00 <= cp && cp <= 0xDFFF {
                        None
                    } else {
                        match parse_string_body(s.skip(6)) {
                            None => None,
                            Some((t, r)) => Some((seq![(cp as u32) as char] + t, r)),
                        }
                    }
                } else {
                    None
                }
            } else {
                None
            }
        }
    } else if (s.first() as u32) < 0x20 {
        None
    } else {
        match parse_string_body(s.drop_first()) {
            None => None,
            Some((t, r)) => Some((seq![s.first()] + t, r)),
        }
    }
}

/// Parses one value: leading whitespace, then a string, array, object,
/// literal or number.  Trailing whitespace is left in place.
pub open spec fn parse_value(s: Seq<char>) -> Option<(JsonV, Seq<char>)>
    decreases s.len(), 1int,
{
    let s1 = skip_ws(s);
    if s1.len() > s.len() || s1.len() == 0 {
        None
    } else {
        let c = s1.first();
        if c == '"' {
            match parse_string_body(s1.drop_first()) {
                None => None,
                Some((t, r)) => Some((JsonV::Str(t), r)),
            }
        } else if c == '[' {
            match parse_elems(s1.drop_first()) {
                None => None,
                Some((items, r)) => Some((JsonV::Arr(items), r)),
            }
        } else if c == '{' {
            match parse_members(s1.drop_first()) {
                None => None,
                Some((members, r)) => Some((JsonV::Obj(members), r)),
            }
        } else if c == 't' {
            if has_prefix(s1, seq!['t', 'r', 'u', 'e']) {
                Some((JsonV::Bool(true), s1.skip(4)))
            } else {
                None
            }
        } else if c == 'f' {
            if has_prefix(s1, seq!['f', 'a', 'l', 's', 'e']) {
                Some((JsonV::Bool(false), s1.skip(5)))
            } else {
                None
            }
        } else if c == 'n' {
            if has_prefix(s1, seq!['n', 'u', 'l', 'l']) {
                Some((JsonV::Null, s1.skip(4)))
            } else {
                None
            }
        } else if c == '-' || is_digit(c) {
            parse_number(s1)
        } else {
            None
        }
    }
}

/// Parses what follows `[`: the element list and the input after `]`.
pub open spec fn parse_elems(s: Seq<char>) -> Option<(Seq<JsonV>, Seq<char>)>
    decreases s.len(), 2int,
{
    let s1 = skip_ws(s);
    if s1.len() > s.len() || s1.len() == 0 {
        None
    } else if s1.first() == ']' {
        Some((Seq::empty(), s1.drop_first()))
    } else {
        match parse_value(s1) {
            None => None,
            Some((v, rest)) => {
                if rest.len() < s.len() {
                    match parse_elems_rest(rest) {
                        None => None,
                        Some((vs, r2)) => Some((seq![v] + vs, r2)),
                    }
                } else {
                    None
                }
            },
        }
    }
}

/// Parses what follows an array element: either `]`, or `,` and more.
pub open spec fn parse_elems_rest(s: Seq<char>) -> Option<(Seq<JsonV>, Seq<char>)>
    decreases s.len(), 3int,
{
    let s1 = skip_ws(s);
    if s1.len() > s.len() || s1.len() == 0 {
        None
    } else if s1.first() == ']' {
        Some((Seq::empty(), s1.drop_first()))
    } else if s1.first() == ',' {
        match parse_value(s1.drop_first()) {
            None => None,
            Some((v, rest)) => {
                if rest.len() < s.len() {
                    match parse_elems_rest(rest) {
                        None => None,
                        Some((vs, r2)) => Some((seq![v] + vs, r2)),
                    }
                } else {
                    None
                }
            },
        }
    } else {
        None
    }
}

/// Parses one `"key": value` member; the input must start at the key's
/// opening quote.
pub open spec fn parse_member(s: Seq<char>) -> Option<((Seq<char>, JsonV), Seq<char>)>
    decreases s.len(), 0int,
{
    if s.len() == 0 || s.first() != '"' {
        None
    } else {
        match parse_string_body(s.drop_first()) {
            None => None,
            Some((k, r1)) => {
                if r1.len() < s.len() {
                    let r2 = skip_ws(r1);
                    if r2.len() > r1.len() || r2.len() == 0 || r2.first() != ':' {
                        None
                    } else {
                        match parse_value(r2.drop_first()) {
                            None => None,
                            Some((v, r3)) => Some(((k, v), r3)),
                        }
                    }
                } else {
                    None
                }
            },
        }
    }
}

/// Parses what follows `{`: the member list and the input after `}`.
pub open spec fn parse_members(s: Seq<char>) -> Option<(Seq<(Seq<char>, JsonV)>, Seq<char>)>
    decreases s.len(), 2int,
{
    let s1 = skip_ws(s);
    if s1.len() > s.len() || s1.len() == 0 {
        None
    } else if s1.first() == '}' {
        Some((Seq::empty(), s1.drop_first()))
    } else {
        match parse_member(s1) {
            None => None,
            Some((kv, rest)) => {
                if rest.len() < s.len() {
                    match parse_members_rest(rest) {
                        None => None,
                        Some((ms, r2)) => Some((seq![kv] + ms, r2)),
                    }
                } else {
                    None
                }
            },
        }
    }
}

/// Parses what follows an object member: either `}`, or `,` and more.
pub open spec fn parse_members_rest(s: Seq<char>) -> Option<(Seq<(Seq<char>, JsonV)>, Seq<char>)>
    decreases s.len(), 3int,
{
    let s1 = skip_ws(s);
    if s1.len() > s.len() || s1.len() == 0 {
        None
    } else if s1.first() == '}' {
        Some((Seq::empty(), s1.drop_first()))
    } else if s1.first() == ',' {
        let s2 = skip_ws(s1.drop_first());
        if s2.len() >= s.len() {
            None
        } else {
            match parse_member(s2) {
                None => None,
                Some((kv, rest)) => {
                    if rest.len() < s.len() {
                        match parse_members_rest(rest) {
                            None => None,
                            Some((ms, r2)) => Some((seq![kv] + ms, r2)),
                        }
                    } else {
                        None
                    }
                },
            }
        }
    } else {
        None
    }
}

/// What parsing a whole document returns: the value, provided only
/// whitespace follows it.
pub open spec fn spec_parse(s: Seq<char>) -> Option<JsonV> {
    match parse_value(s) {
        None => None,
        Some((v, rest)) => if skip_ws(rest).len() == 0 {
            Some(v)
        } else {
            None
        },
    }
}


// ------------------------------------------------------------------
// The printer, executable.
// ------------------------------------------------------------------
/// Appending an element to an array body appends a separator and its line.
proof fn lemma_print_elems_snoc(items: Seq<JsonV>, x: JsonV, pad: Seq<char>)
    ensures
        print_elems(items.push(x), pad) == if items.len() == 0 {
            nl_pad(pad) + print_json(x, pad)
        } else {
            print_elems(items, pad) + seq![','] + nl_pad(pad) + print_json(x, pad)
        },
    decreases items.len(),
{
    if items.len() == 0 {
        assert(items.push(x).first() == x);
    } else {
        assert(items.push(x).first() == items.first());
        assert(items.push(x).drop_first() =~= items.drop_first().push(x));
        lemma_print_elems_snoc(items.drop_first(), x, pad);
        if items.len() == 1 {
            assert(print_elems(items.push(x), pad) == nl_pad(pad) + print_json(
                items.first(),
                pad,
            ) + seq![','] + (nl_pad(pad) + print_json(x, pad)));
            assert(nl_pad(pad) + print_json(items.first(), pad) + seq![','] + (nl_pad(pad)
                + print_json(x, pad)) =~= (nl_pad(pad) + print_json(items.first(), pad)) + seq![
                ',',
            ] + nl_pad(pad) + print_json(x, pad));
        } else {
            assert(nl_pad(pad) + print_json(items.first(), pad) + seq![','] + (print_elems(
                items.drop_first(),
                pad,
            ) + seq![','] + nl_pad(pad) + print_json(x, pad)) =~= (nl_pad(pad) + print_json(
                items.first(),
                pad,
            ) + seq![','] + print_elems(items.drop_first(), pad)) + seq![','] + nl_pad(pad)
                + print_json(x, pad));
        }
    }
}

/// Appending a member to an object body appends a separator and its line.
proof fn lemma_print_members_snoc(members: Seq<(Seq<char>, JsonV)>, x: (Seq<char>, JsonV), pad: Seq<char>)
    ensures
        print_members(members.push(x), pad) == if members.len() == 0 {
            nl_pad(pad) + print_str(x.0) + seq![':', ' '] + print_json(x.1, pad)
        } else {
            print_members(members, pad) + seq![','] + nl_pad(pad) + print_str(x.0) + seq![':', ' ']
                + print_json(x.1, pad)
        },
    decreases members.len(),
{
    if members.len() == 0 {
        assert(members.push(x).first() == x);
    } else {
        assert(members.push(x).first() == members.first());
        assert(members.push(x).drop_first() =~= members.drop_first().push(x));
        lemma_print_members_snoc(members.drop_first(), x, pad);
        let head = nl_pad(pad) + print_str(members.first().0) + seq![':', ' '] + print_json(
            members.first().1,
            pad,
        );
        let line = nl_pad(pad) + print_str(x.0) + seq![':', ' '] + print_json(x.1, pad);
        if members.len() == 1 {
            assert(head + seq![','] + line =~= head + (seq![','] + line));
            assert(print_members(members.push(x), pad) =~= head + seq![','] + line);
            assert(print_members(members, pad) + seq![','] + line =~= head + seq![','] + line);
        } else {
            assert(head + seq![','] + (print_members(members.drop_first(), pad) + seq![','] + line)
                =~= (head + seq![','] + print_members(members.drop_first(), pad)) + seq![',']
                + line);
        }
    }
}

/// Appending a character to a string value appends its escape.
proof fn lemma_esc_str_snoc(t: Seq<char>, c: char)
    ensures
        esc_str(t.push(c)) == esc_str(t) + esc_char(c),
    decreases t.len(),
{
    if t.len() == 0 {
        assert(t.push(c).drop_first() =~= t);
        assert(esc_str(t) == Seq::<char>::empty());
        assert(esc_str(t.push(c)) =~= esc_char(c));
        assert(esc_str(t) + esc_char(c) =~= esc_char(c));
    } else {
        assert(t.push(c).first() == t.first());
        assert(t.push(c).drop_first() =~= t.drop_first().push(c));
        lemma_esc_str_snoc(t.drop_first(), c);
        assert(esc_char(t.first()) + (esc_str(t.drop_first()) + esc_char(c)) =~= (esc_char(
            t.first(),
        ) + esc_str(t.drop_first())) + esc_char(c));
    }
}

/// The exec hex digit.
fn hex_digit_exec(n: u32) -> (r: char)
    requires
        n < 16,
    ensures
        r == hex_digit(n as int),
{
    if n == 0 {
        '0'
    } else if n == 1 {
        '1'
    } else if n == 2 {
        '2'
    } else if n == 3 {
        '3'
    } else if n == 4 {
        '4'
    } else if n == 5 {
        '5'
    } else if n == 6 {
        '6'
    } else if n == 7 {
        '7'
    } else if n == 8 {
        '8'
    } else if n == 9 {
        '9'
    } else if n == 10 {
        'a'
    } else if n == 11 {
        'b'
    } else if n == 12 {
        'c'
    } else if n == 13 {
        'd'
    } else if n == 14 {
        'e'
    } else {
        'f'
    }
}

/// Appends a line break and the given indentation.
fn print_pad(out: &mut String, pad: &str)
    ensures
        final(out)@ == old(out)@ + nl_pad(pad@),
{
    crate::text::push_char(out, '\n');
    out.append(pad);
    proof {
        assert(out@ =~= old(out)@ + nl_pad(pad@));
    }
}

/// Appends a string value, quoted and escaped.
fn print_string_into(out: &mut String, t: &String)
    ensures
        final(out)@ == old(out)@ + print_str(t@),
{
    let tc = crate::text::str_to_chars(t.as_str());
    crate::text::push_char(out, '"');
    let n = tc.len();
    let mut i: usize = 0;
    while i < n
        invariant
            n == tc@.len(),
            tc@ == t@,
            i <= n,
            out@ == old(out)@ + seq!['"'] + esc_str(tc@.take(i as int)),
        decreases n - i,
    {
        let c = tc[i];
        let ghost pre = out@;
        if c == '"' {
            crate::text::push_char(out, '\\');
            crate::text::push_char(out, '"');
        } else if c == '\\' {
            crate::text::push_char(out, '\\');
            crate::text::push_char(out, '\\');
        } else if c == '\n' {
            crate::text::push_char(out, '\\');
            crate::text::push_char(out, 'n');
        } else if c == '\r' {
            crate::text::push_char(out, '\\');
            crate::text::push_char(out, 'r');
        } else if c == '\t' {
            crate::text::push_char(out, '\\');
            crate::text::push_char(out, 't');
        } else if c == '\u{8}' {
            crate::text::push_char(out, '\\');
            crate::text::push_char(out, 'b');
        } else if c == '\u{c}' {
            crate::text::push_char(out, '\\');
            crate::text::push_char(out, 'f');
        } else {
            let u = #[verifier::truncate] (c as u32);
            if u < 0x20 {
                crate::text::push_char(out, '\\');
                crate::text::push_char(out, 'u');
                crate::text::push_char(out, '0');
                crate::text::push_char(out, '0');
                let hi = hex_digit_exec(u / 16);
                let lo = hex_digit_exec(u % 16);
                crate::text::push_char(out, hi);
                crate::text::push_char(out, lo);
            } else {
                crate::text::push_char(out, c);
            }
        }
        proof {
            assert(out@ =~= pre + esc_char(c));
            assert(tc@.take(i + 1 as int) =~= tc@.take(i as int).push(c));
            lemma_esc_str_snoc(tc@.take(i as int), c);
            assert(out@ =~= old(out)@ + seq!['"'] + esc_str(tc@.take(i + 1 as int)));
        }
        i = i + 1;
    }
    proof {
        assert(tc@.take(n as int) =~= tc@);
    }
    crate::text::push_char(out, '"');
    proof {
        assert(out@ =~= old(out)@ + print_str(t@));
    }
}

/// Appends the pretty-printed text of a value at the given indentation.
#[verifier::loop_isolation(false)]
fn print_into(out: &mut String, j: &Json, pad: &str)
    ensures
        final(out)@ == old(out)@ + print_json(jview(*j), pad@),
    decreases *j, 1int,
{
    match j {
        Json::Null => {
            out.append("null");
            proof {
                reveal_strlit("null");
                assert("null"@ =~= seq!['n', 'u', 'l', 'l']);
            }
        },
        Json::Bool(b) => {
            if *b {
                out.append("true");
                proof {
                    reveal_strlit("true");
                    assert("true"@ =~= seq!['t', 'r', 'u', 'e']);
                }
            } else {
                out.append("false");
                proof {
                    reveal_strlit("false");
                    assert("false"@ =~= seq!['f', 'a', 'l', 's', 'e']);
                }
            }
        },
        Json::Num(t) => {
            let n = t.len();
            let mut i: usize = 0;
            while i < n
                invariant
                    n == t@.len(),
                    i <= n,
                    out@ == old(out)@ + t@.take(i as int),
                decreases n - i,
            {
                crate::text::push_char(out, t[i]);
                proof {
                    assert(t@.take(i + 1 as int) =~= t@.take(i as int).push(t@[i as int]));
                    assert(out@ =~= old(out)@ + t@.take(i + 1 as int));
                }
                i = i + 1;
            }
            proof {
                assert(t@.take(n as int) =~= t@);
            }
        },
        Json::Str(t) => {
            print_string_into(out, t);
        },
        Json::Arr(items) => {
            proof {
                assert(decreases_to!(*j => *items));
                assert(decreases_to!(*items => items@));
            }
            print_arr_into(out, items, pad);
        },
        Json::Obj(members) => {
            proof {
                assert(decreases_to!(*j => *members));
                assert(decreases_to!(*members => members@));
            }
            print_obj_into(out, members, pad);
        },
    }
}

/// Appends the pretty-printed text of an array at the given indentation.
#[verifier::loop_isolation(false)]
#[verifier::rlimit(100)]
fn print_arr_into(out: &mut String, items: &Vec<Json>, pad: &str)
    ensures
        final(out)@ == old(out)@ + print_json(JsonV::Arr(jview_seq(items@)), pad@),
    decreases items@, 0int,
{
    let n = items.len();
    if n == 0 {
        crate::text::push_char(out, '[');
        crate::text::push_char(out, ']');
        proof {
            assert(jview_seq(items@) =~= Seq::<JsonV>::empty());
            assert(out@ =~= old(out)@ + print_json(JsonV::Arr(jview_seq(items@)), pad@));
        }
    } else {
        crate::text::push_char(out, '[');
        let mut pad2 = pad.to_owned();
        pad2.append("  ");
        proof {
            reveal_strlit("  ");
            assert(pad2@ =~= pad@ + pad_step());
            lemma_jview_seq(items@);
        }
        let ghost dv = jview_seq(items@);
        let mut i: usize = 0;
        while i < n
            invariant
                i <= n,
                out@ == old(out)@ + seq!['['] + print_elems(dv.take(i as int), pad2@),
            decreases n - i,
        {
            if i > 0 {
                crate::text::push_char(out, ',');
            }
            print_pad(out, pad2.as_str());
            proof {
                assert(decreases_to!(items@ => items@[i as int]));
            }
            print_into(out, &items[i], pad2.as_str());
            proof {
                assert(dv.take(i + 1 as int) =~= dv.take(i as int).push(dv[i as int]));
                assert(dv[i as int] == jview(items@[i as int]));
                lemma_print_elems_snoc(dv.take(i as int), dv[i as int], pad2@);
                if i == 0 {
                    assert(out@ =~= old(out)@ + seq!['['] + print_elems(
                        dv.take(i + 1 as int),
                        pad2@,
                    ));
                } else {
                    assert(out@ =~= old(out)@ + seq!['['] + (print_elems(dv.take(i as int), pad2@)
                        + seq![','] + nl_pad(pad2@) + print_json(dv[i as int], pad2@)));
                    assert(out@ =~= old(out)@ + seq!['['] + print_elems(
                        dv.take(i + 1 as int),
                        pad2@,
                    ));
                }
            }
            i = i + 1;
        }
        print_pad(out, pad);
        crate::text::push_char(out, ']');
        proof {
            assert(dv.take(n as int) =~= dv);
            assert(out@ =~= old(out)@ + print_json(JsonV::Arr(jview_seq(items@)), pad@));
        }
    }
}

/// Appends the pretty-printed text of an object at the given indentation.
#[verifier::loop_isolation(false)]
#[verifier::rlimit(100)]
fn print_obj_into(out: &mut String, members: &Vec<(String, Json)>, pad: &str)
    ensures
        final(out)@ == old(out)@ + print_json(JsonV::Obj(jview_members(members@)), pad@),
    decreases members@, 0int,
{
    let n = members.len();
    if n == 0 {
        crate::text::push_char(out, '{');
        crate::text::push_char(out, '}');
        proof {
            assert(jview_members(members@) =~= Seq::<(Seq<char>, JsonV)>::empty());
            assert(out@ =~= old(out)@ + print_json(JsonV::Obj(jview_members(members@)), pad@));
        }
    } else {
        crate::text::push_char(out, '{');
        let mut pad2 = pad.to_owned();
        pad2.append("  ");
        proof {
            reveal_strlit("  ");
            assert(pad2@ =~= pad@ + pad_step());
            lemma_jview_members(members@);
        }
        let ghost dv = jview_members(members@);
        let mut i: usize = 0;
        while i < n
            invariant
                i <= n,
                out@ == old(out)@ + seq!['{'] + print_members(dv.take(i as int), pad2@),
            decreases n - i,
        {
            if i > 0 {
                crate::text::push_char(out, ',');
            }
            print_pad(out, pad2.as_str());
            print_string_into(out, &members[i].0);
            crate::text::push_char(out, ':');
            crate::text::push_char(out, ' ');
            proof {
                assert(decreases_to!(members@ => members@[i as int]));
                assert(decreases_to!(members@[i as int] => members@[i as int].1));
            }
            print_into(out, &members[i].1, pad2.as_str());
            proof {
                assert(dv.take(i + 1 as int) =~= dv.take(i as int).push(dv[i as int]));
                assert(dv[i as int] == (members@[i as int].0@, jview(members@[i as int].1)));
                lemma_print_members_snoc(dv.take(i as int), dv[i as int], pad2@);
                if i == 0 {
                    assert(out@ =~= old(out)@ + seq!['{'] + print_members(
                        dv.take(i + 1 as int),
                        pad2@,
                    ));
                } else {
                    assert(out@ =~= old(out)@ + seq!['{'] + (print_members(
                        dv.take(i as int),
                        pad2@,
                    ) + seq![','] + nl_pad(pad2@) + print_str(dv[i as int].0) + seq![':', ' ']
                        + print_json(dv[i as int].1, pad2@)));
                    assert(out@ =~= old(out)@ + seq!['{'] + print_members(
                        dv.take(i + 1 as int),
                        pad2@,
                    ));
                }
            }
            i = i + 1;
        }
        print_pad(out, pad);
        crate::text::push_char(out, '}');
        proof {
            assert(dv.take(n as int) =~= dv);
            assert(out@ =~= old(out)@ + print_json(JsonV::Obj(jview_members(members@)), pad@));
        }
    }
}

/// The pretty-printed text of a value, starting at the left margin.
pub fn to_text(j: &Json) -> (r: String)
    ensures
        r@ == print_json(jview(*j), Seq::empty()),
{
    let mut out = String::new();
    proof {
        reveal_strlit("");
    }
    print_into(&mut out, j, "");
    proof {
        assert(Seq::<char>::empty() + print_json(jview(*j), ""@) =~= print_json(
            jview(*j),
            Seq::empty(),
        ));
    }
    out
}


// ------------------------------------------------------------------
// The parser, executable.
// ------------------------------------------------------------------
/// The exec value of a hex digit.
fn hex_val_exec(c: char) -> (r: u32)
    requires
        is_hex(c),
    ensures
        r as int == hex_val(c),
{
    if c >= '0' && c <= '9' {
        (c as u32) - ('0' as u32)
    } else if c >= 'a' && c <= 'f' {
        (c as u32) - ('a' as u32) + 10
    } else {
        (c as u32) - ('A' as u32) + 10
    }
}

/// Skips leading whitespace.
fn ws_skip<'a>(s: &'a [char]) -> (r: &'a [char])
    ensures
        r@ == skip_ws(s@),
        r@.len() <= s@.len(),
{
    let n = s.len();
    let mut i: usize = 0;
    proof {
        assert(s@.skip(0) =~= s@);
    }
    while i < n
        invariant
            i <= n,
            n == s@.len(),
            skip_ws(s@) == skip_ws(s@.skip(i as int)),
        decreases n - i,
    {
        let c = *vstd::slice::slice_index_get(s, i);
        proof {
            assert(s@.skip(i as int).first() == c);
        }
        if c == ' ' || c == '\t' || c == '\n' || c == '\r' {
            proof {
                assert(s@.skip(i as int).drop_first() =~= s@.skip(i + 1 as int));
            }
            i = i + 1;
        } else {
            let r = vstd::slice::slice_subrange(s, i, n);
            proof {
                assert(r@ =~= s@.skip(i as int));
            }
            return r;
        }
    }
    let r = vstd::slice::slice_subrange(s, n, n);
    proof {
        assert(r@ =~= s@.skip(n as int));
        assert(s@.skip(n as int) =~= Seq::<char>::empty());
    }
    r
}

/// Parses a string body, starting after the opening quote.
#[verifier::rlimit(100)]
fn p_string_body<'a>(s: &'a [char]) -> (r: Option<(String, &'a [char])>)
    ensures
        match r {
            Some(p) => parse_string_body(s@) == Some((p.0@, p.1@)),
            None => parse_string_body(s@) is None,
        },
{
    let n = s.len();
    let mut acc = String::new();
    let mut j: usize = 0;
    proof {
        assert(s@.skip(0) =~= s@);
        match parse_string_body(s@) {
            Some((t, rr)) => {
                assert(acc@ + t =~= t);
            },
            None => {},
        }
    }
    while j < n
        invariant
            j <= n,
            n == s@.len(),
            match parse_string_body(s@.skip(j as int)) {
                Some((t, rr)) => parse_string_body(s@) == Some((acc@ + t, rr)),
                None => parse_string_body(s@) is None,
            },
        decreases n - j,
    {
        let c = *vstd::slice::slice_index_get(s, j);
        proof {
            assert(s@.skip(j as int).first() == c);
        }
        if c == '"' {
            proof {
                assert(s@.skip(j as int).drop_first() =~= s@.skip(j + 1 as int));
                assert(parse_string_body(s@.skip(j as int)) == Some(
                    (Seq::<char>::empty(), s@.skip(j + 1 as int)),
                ));
                assert(acc@ + Seq::<char>::empty() =~= acc@);
            }
            let rest = vstd::slice::slice_subrange(s, j + 1, n);
            proof {
                assert(rest@ =~= s@.skip(j + 1 as int));
            }
            return Some((acc, rest));
        } else if c == '\\' {
            if j + 1 >= n {
                proof {
                    assert(s@.skip(j as int).len() < 2);
                }
                return None;
            }
            let e = *vstd::slice::slice_index_get(s, j + 1);
            proof {
                assert(s@.skip(j as int)[1] == e);
                assert(s@.skip(j as int).len() >= 2);
            }
            if e == '"' || e == '\\' || e == '/' {
                let ghost pre = acc@;
                crate::text::push_char(&mut acc, e);
                proof {
                    assert(s@.skip(j as int).skip(2) =~= s@.skip(j + 2 as int));
                    match parse_string_body(s@.skip(j + 2 as int)) {
                        Some((t, rr)) => {
                            assert(parse_string_body(s@.skip(j as int)) == Some((seq![e] + t, rr)));
                            assert(pre + (seq![e] + t) =~= acc@ + t);
                        },
                        None => {},
                    }
                }
                j = j + 2;
            } else if e == 'n' || e == 't' || e == 'r' || e == 'b' || e == 'f' {
                let d = if e == 'n' {
                    '\n'
                } else if e == 't' {
                    '\t'
                } else if e == 'r' {
                    '\r'
                } else if e == 'b' {
                    '\u{8}'
                } else {
                    '\u{c}'
                };
                let ghost pre = acc@;
                crate::text::push_char(&mut acc, d);
                proof {
                    assert(s@.skip(j as int).skip(2) =~= s@.skip(j + 2 as int));
                    match parse_string_body(s@.skip(j + 2 as int)) {
                        Some((t, rr)) => {
                            assert(parse_string_body(s@.skip(j as int)) == Some((seq![d] + t, rr)));
                            assert(pre + (seq![d] + t) =~= acc@ + t);
                        },
                        None => {},
                    }
                }
                j = j + 2;
            } else if e == 'u' {
                if n - j < 6 {
                    proof {
                        assert(s@.skip(j as int).len() < 6);
                    }
                    return None;
                }
                let h0 = *vstd::slice::slice_index_get(s, j + 2);
                let h1 = *vstd::slice::slice_index_get(s, j + 3);
                let h2 = *vstd::slice::slice_index_get(s, j + 4);
                let h3 = *vstd::slice::slice_index_get(s, j + 5);
                proof {
                    assert(s@.skip(j as int).len() >= 6);
                    assert(s@.skip(j as int)[2] == h0);
                    assert(s@.skip(j as int)[3] == h1);
                    assert(s@.skip(j as int)[4] == h2);
                    assert(s@.skip(j as int)[5] == h3);
                }
                let hex0 = (h0 >= '0' && h0 <= '9') || (h0 >= 'a' && h0 <= 'f') || (h0 >= 'A' && h0
                    <= 'F');
                let hex1 = (h1 >= '0' && h1 <= '9') || (h1 >= 'a' && h1 <= 'f') || (h1 >= 'A' && h1
                    <= 'F');
                let hex2 = (h2 >= '0' && h2 <= '9') || (h2 >= 'a' && h2 <= 'f') || (h2 >= 'A' && h2
                    <= 'F');
                let hex3 = (h3 >= '0' && h3 <= '9') || (h3 >= 'a' && h3 <= 'f') || (h3 >= 'A' && h3
                    <= 'F');
                if !(hex0 && hex1 && hex2 && hex3) {
                    return None;
                }
                let cp = hex_val_exec(h0) * 0x1000 + hex_val_exec(h1) * 0x100 + hex_val_exec(h2)
                    * 0x10 + hex_val_exec(h3);
                proof {
                    assert(cp as int == hex_val(h0) * 0x1000 + hex_val(h1) * 0x100 + hex_val(h2)
                        * 0x10 + hex_val(h3));
                }
                if 0xD800 <= cp && cp <= 0xDBFF {
                    if n - j < 12 {
                        proof {
                            assert(s@.skip(j as int).len() < 12);
                        }
                        return None;
                    }
                    let b6 = *vstd::slice::slice_index_get(s, j + 6);
                    let b7 = *vstd::slice::slice_index_get(s, j + 7);
                    let g0 = *vstd::slice::slice_index_get(s, j + 8);
                    let g1 = *vstd::slice::slice_index_get(s, j + 9);
                    let g2 = *vstd::slice::slice_index_get(s, j + 10);
                    let g3 = *vstd::slice::slice_index_get(s, j + 11);
                    proof {
                        assert(s@.skip(j as int).len() >= 12);
                        assert(s@.skip(j as int)[6] == b6);
                        assert(s@.skip(j as int)[7] == b7);
                        assert(s@.skip(j as int)[8] == g0);
                        assert(s@.skip(j as int)[9] == g1);
                        assert(s@.skip(j as int)[10] == g2);
                        assert(s@.skip(j as int)[11] == g3);
                    }
                    if !(b6 == '\\' && b7 == 'u') {
                        return None;
                    }
                    let ghex0 = (g0 >= '0' && g0 <= '9') || (g0 >= 'a' && g0 <= 'f') || (g0 >= 'A'
                        && g0 <= 'F');
                    let ghex1 = (g1 >= '0' && g1 <= '9') || (g1 >= 'a' && g1 <= 'f') || (g1 >= 'A'
                        && g1 <= 'F');
                    let ghex2 = (g2 >= '0' && g2 <= '9') || (g2 >= 'a' && g2 <= 'f') || (g2 >= 'A'
                        && g2 <= 'F');
                    let ghex3 = (g3 >= '0' && g3 <= '9') || (g3 >= 'a' && g3 <= 'f') || (g3 >= 'A'
                        && g3 <= 'F');
                    if !(ghex0 && ghex1 && ghex2 && ghex3) {
                        return None;
                    }
                    let lo = hex_val_exec(g0) * 0x1000 + hex_val_exec(g1) * 0x100 + hex_val_exec(
                        g2,
                    ) * 0x10 + hex_val_exec(g3);
                    proof {
                        assert(lo as int == hex_val(g0) * 0x1000 + hex_val(g1) * 0x100 + hex_val(
                            g2,
                        ) * 0x10 + hex_val(g3));
                    }
                    if !(0xDC00 <= lo && lo <= 0xDFFF) {
                        return None;
                    }
                    let c32 = 0x10000 + (cp - 0xD800) * 0x400 + (lo - 0xDC00);
                    proof {
                        assert(vstd::utf8::is_scalar(c32));
                    }
                    match crate::text::char_from_u32(c32) {
                        Some(d) => {
                            let ghost pre = acc@;
                            crate::text::push_char(&mut acc, d);
                            proof {
                                assert(s@.skip(j as int).skip(12) =~= s@.skip(j + 12 as int));
                                match parse_string_body(s@.skip(j + 12 as int)) {
                                    Some((t, rr)) => {
                                        assert(parse_string_body(s@.skip(j as int)) == Some(
                                            (seq![d] + t, rr),
                                        ));
                                        assert(pre + (seq![d] + t) =~= acc@ + t);
                                    },
                                    None => {},
                                }
                            }
                            j = j + 12;
                        },
                        None => {
                            proof {
                                assert(false);
                            }
                            return None;
                        },
                    }
                } else if 0xDC00 <= cp && cp <= 0xDFFF {
                    return None;
                } else {
                    proof {
                        assert(vstd::utf8::is_scalar(cp));
                    }
                    match crate::text::char_from_u32(cp) {
                        Some(d) => {
                            let ghost pre = acc@;
                            crate::text::push_char(&mut acc, d);
                            proof {
                                assert(s@.skip(j as int).skip(6) =~= s@.skip(j + 6 as int));
                                match parse_string_body(s@.skip(j + 6 as int)) {
                                    Some((t, rr)) => {
                                        assert(parse_string_body(s@.skip(j as int)) == Some(
                                            (seq![d] + t, rr),
                                        ));
                                        assert(pre + (seq![d] + t) =~= acc@ + t);
                                    },
                                    None => {},
                                }
                            }
                            j = j + 6;
                        },
                        None => {
                            proof {
                                assert(false);
                            }
                            return None;
                        },
                    }
                }
            } else {
                return None;
            }
        } else {
            let u = #[verifier::truncate] (c as u32);
            if u < 0x20 {
                return None;
            }
            let ghost pre = acc@;
            crate::text::push_char(&mut acc, c);
            proof {
                assert(s@.skip(j as int).drop_first() =~= s@.skip(j + 1 as int));
                match parse_string_body(s@.skip(j + 1 as int)) {
                    Some((t, rr)) => {
                        assert(parse_string_body(s@.skip(j as int)) == Some((seq![c] + t, rr)));
                        assert(pre + (seq![c] + t) =~= acc@ + t);
                    },
                    None => {},
                }
            }
            j = j + 1;
        }
    }
    proof {
        assert(s@.skip(n as int) =~= Seq::<char>::empty());
    }
    None
}

/// Counts the decimal digits standing at the given position.
fn digits_from(s: &[char], from: usize) -> (k: usize)
    requires
        from <= s@.len(),
    ensures
        from + k <= s@.len(),
        k as nat == digits_count(s@.skip(from as int)),
{
    let n = s.len();
    let mut i = from;
    while i < n
        invariant
            from <= i <= n,
            n == s@.len(),
            digits_count(s@.skip(from as int)) == (i - from) + digits_count(s@.skip(i as int)),
        decreases n - i,
    {
        let c = *vstd::slice::slice_index_get(s, i);
        proof {
            assert(s@.skip(i as int).first() == c);
        }
        if c >= '0' && c <= '9' {
            proof {
                assert(s@.skip(i as int).drop_first() =~= s@.skip(i + 1 as int));
            }
            i = i + 1;
        } else {
            proof {
                assert(digits_count(s@.skip(i as int)) == 0);
            }
            return i - from;
        }
    }
    proof {
        assert(s@.skip(n as int) =~= Seq::<char>::empty());
        assert(digits_count(s@.skip(n as int)) == 0);
    }
    n - from
}

/// Parses the fraction part standing at the given position: the position
/// after it, or `None` when a bare dot stands there.
fn p_frac(s: &[char], p1: usize) -> (r: Option<usize>)
    requires
        p1 <= s@.len(),
    ensures
        match r {
            Some(p2) => p1 <= p2 <= s@.len() && frac_len(s@.skip(p1 as int)) == p2 - p1,
            None => frac_len(s@.skip(p1 as int)) < 0,
        },
{
    let n = s.len();
    if p1 < n && *vstd::slice::slice_index_get(s, p1) == '.' {
        proof {
            assert(s@.skip(p1 as int).first() == s@[p1 as int]);
        }
        if p1 + 1 < n {
            let d1 = *vstd::slice::slice_index_get(s, p1 + 1);
            proof {
                assert(s@.skip(p1 as int)[1] == d1);
            }
            if d1 >= '0' && d1 <= '9' {
                let d = digits_from(s, p1 + 1);
                proof {
                    assert(s@.skip(p1 as int).drop_first() =~= s@.skip(p1 + 1 as int));
                }
                Some(p1 + 1 + d)
            } else {
                None
            }
        } else {
            proof {
                assert(s@.skip(p1 as int).len() == 1);
            }
            None
        }
    } else {
        proof {
            if p1 < n {
                assert(s@.skip(p1 as int).first() == s@[p1 as int]);
            }
            assert(frac_len(s@.skip(p1 as int)) == 0);
        }
        Some(p1)
    }
}

/// Parses the exponent part standing at the given position: the position
/// after it, or `None` when it is malformed.
fn p_exp(s: &[char], p2: usize) -> (r: Option<usize>)
    requires
        p2 <= s@.len(),
    ensures
        match r {
            Some(p3) => p2 <= p3 <= s@.len() && exp_len(s@.skip(p2 as int)) == p3 - p2,
            None => exp_len(s@.skip(p2 as int)) < 0,
        },
{
    let n = s.len();
    if p2 < n {
        let ce = *vstd::slice::slice_index_get(s, p2);
        proof {
            assert(s@.skip(p2 as int).first() == ce);
        }
        if ce == 'e' || ce == 'E' {
            let esign: usize = if p2 + 1 < n {
                let cs = *vstd::slice::slice_index_get(s, p2 + 1);
                proof {
                    assert(s@.skip(p2 as int)[1] == cs);
                }
                if cs == '+' || cs == '-' {
                    1
                } else {
                    0
                }
            } else {
                0
            };
            let pd = p2 + 1 + esign;
            proof {
                assert(s@.skip(p2 as int).skip((1 + esign) as int) =~= s@.skip(pd as int));
            }
            if pd >= n {
                return None;
            }
            let cd = *vstd::slice::slice_index_get(s, pd);
            proof {
                assert(s@.skip(pd as int).first() == cd);
            }
            if !(cd >= '0' && cd <= '9') {
                return None;
            }
            let d2 = digits_from(s, pd);
            Some(pd + d2)
        } else {
            Some(p2)
        }
    } else {
        Some(p2)
    }
}

/// Parses the number token at the front of the input.
fn p_number<'a>(s: &'a [char]) -> (r: Option<(Json, &'a [char])>)
    ensures
        match r {
            Some(p) => parse_number(s@) == Some((jview(p.0), p.1@)),
            None => parse_number(s@) is None,
        },
{
    let n = s.len();
    let sign: usize = if n > 0 && *vstd::slice::slice_index_get(s, 0) == '-' {
        1
    } else {
        0
    };
    proof {
        if n > 0 {
            assert(s@.first() == s@[0]);
        }
        assert(s@.skip(sign as int).len() == n - sign);
    }
    if sign >= n {
        return None;
    }
    let c0 = *vstd::slice::slice_index_get(s, sign);
    proof {
        assert(s@.skip(sign as int).first() == c0);
    }
    if !(c0 >= '0' && c0 <= '9') {
        return None;
    }
    let ilen: usize = if c0 == '0' {
        1
    } else {
        digits_from(s, sign)
    };
    proof {
        if c0 != '0' {
            assert(digits_count(s@.skip(sign as int)) >= 1);
        }
    }
    let p1 = sign + ilen;
    proof {
        assert(s@.skip(sign as int).skip(ilen as int) =~= s@.skip(p1 as int));
    }
    let p2 = match p_frac(s, p1) {
        Some(p2) => p2,
        None => {
            return None;
        },
    };
    proof {
        assert(s@.skip(sign as int).skip(ilen as int + (p2 - p1)) =~= s@.skip(p2 as int));
    }
    let total = match p_exp(s, p2) {
        Some(p3) => p3,
        None => {
            return None;
        },
    };
    proof {
        assert(number_len(s@) == Some(total as int));
    }
    let lex = vstd::slice::slice_to_vec(vstd::slice::slice_subrange(s, 0, total));
    let rest = vstd::slice::slice_subrange(s, total, n);
    proof {
        assert(lex@ =~= s@.take(total as int));
        assert(rest@ =~= s@.skip(total as int));
    }
    Some((Json::Num(lex), rest))
}


/// Parses one value.
fn p_value<'a>(s: &'a [char]) -> (r: Option<(Json, &'a [char])>)
    ensures
        match r {
            Some(p) => parse_value(s@) == Some((jview(p.0), p.1@)),
            None => parse_value(s@) is None,
        },
    decreases s@.len(), 1int,
{
    let s1 = ws_skip(s);
    if s1.len() == 0 {
        return None;
    }
    let c = *vstd::slice::slice_index_get(s1, 0);
    proof {
        assert(skip_ws(s@).first() == c);
    }
    if c == '"' {
        let body = vstd::slice::slice_subrange(s1, 1, s1.len());
        proof {
            assert(body@ =~= skip_ws(s@).drop_first());
        }
        match p_string_body(body) {
            Some((t, rest)) => Some((Json::Str(t), rest)),
            None => None,
        }
    } else if c == '[' {
        let body = vstd::slice::slice_subrange(s1, 1, s1.len());
        proof {
            assert(body@ =~= skip_ws(s@).drop_first());
        }
        match p_elems(body) {
            Some((items, rest)) => Some((Json::Arr(items), rest)),
            None => None,
        }
    } else if c == '{' {
        let body = vstd::slice::slice_subrange(s1, 1, s1.len());
        proof {
            assert(body@ =~= skip_ws(s@).drop_first());
        }
        match p_members(body) {
            Some((members, rest)) => Some((Json::Obj(members), rest)),
            None => None,
        }
    } else if c == 't' {
        if s1.len() >= 4 && *vstd::slice::slice_index_get(s1, 1) == 'r'
            && *vstd::slice::slice_index_get(s1, 2) == 'u' && *vstd::slice::slice_index_get(s1, 3)
            == 'e' {
            proof {
                assert(skip_ws(s@).take(4) =~= seq!['t', 'r', 'u', 'e']);
            }
            let rest = vstd::slice::slice_subrange(s1, 4, s1.len());
            proof {
                assert(rest@ =~= skip_ws(s@).skip(4));
            }
            Some((Json::Bool(true), rest))
        } else {
            proof {
                if has_prefix(skip_ws(s@), seq!['t', 'r', 'u', 'e']) {
                    assert(skip_ws(s@).take(4)[1] == skip_ws(s@)[1]);
                    assert(skip_ws(s@).take(4)[2] == skip_ws(s@)[2]);
                    assert(skip_ws(s@).take(4)[3] == skip_ws(s@)[3]);
                    assert(false);
                }
            }
            None
        }
    } else if c == 'f' {
        if s1.len() >= 5 && *vstd::slice::slice_index_get(s1, 1) == 'a'
            && *vstd::slice::slice_index_get(s1, 2) == 'l' && *vstd::slice::slice_index_get(s1, 3)
            == 's' && *vstd::slice::slice_index_get(s1, 4) == 'e' {
            proof {
                assert(skip_ws(s@).take(5) =~= seq!['f', 'a', 'l', 's', 'e']);
            }
            let rest = vstd::slice::slice_subrange(s1, 5, s1.len());
            proof {
                assert(rest@ =~= skip_ws(s@).skip(5));
            }
            Some((Json::Bool(false), rest))
        } else {
            proof {
                if has_prefix(skip_ws(s@), seq!['f', 'a', 'l', 's', 'e']) {
                    assert(skip_ws(s@).take(5)[1] == skip_ws(s@)[1]);
                    assert(skip_ws(s@).take(5)[2] == skip_ws(s@)[2]);
                    assert(skip_ws(s@).take(5)[3] == skip_ws(s@)[3]);
                    assert(skip_ws(s@).take(5)[4] == skip_ws(s@)[4]);
                    assert(false);
                }
            }
            None
        }
    } else if c == 'n' {
        if s1.len() >= 4 && *vstd::slice::slice_index_get(s1, 1) == 'u'
            && *vstd::slice::slice_index_get(s1, 2) == 'l' && *vstd::slice::slice_index_get(s1, 3)
            == 'l' {
            proof {
                assert(skip_ws(s@).take(4) =~= seq!['n', 'u', 'l', 'l']);
            }
            let rest = vstd::slice::slice_subrange(s1, 4, s1.len());
            proof {
                assert(rest@ =~= skip_ws(s@).skip(4));
            }
            Some((Json::Null, rest))
        } else {
            proof {
                if has_prefix(skip_ws(s@), seq!['n', 'u', 'l', 'l']) {
                    assert(skip_ws(s@).take(4)[1] == skip_ws(s@)[1]);
                    assert(skip_ws(s@).take(4)[2] == skip_ws(s@)[2]);
                    assert(skip_ws(s@).take(4)[3] == skip_ws(s@)[3]);
                    assert(false);
                }
            }
            None
        }
    } else if c == '-' || (c >= '0' && c <= '9') {
        p_number(s1)
    } else {
        None
    }
}

/// Parses what follows `[`.
fn p_elems<'a>(s: &'a [char]) -> (r: Option<(Vec<Json>, &'a [char])>)
    ensures
        match r {
            Some(p) => parse_elems(s@) == Some((jview_seq(p.0@), p.1@)),
            None => parse_elems(s@) is None,
        },
    decreases s@.len(), 2int,
{
    let s1 = ws_skip(s);
    if s1.len() == 0 {
        return None;
    }
    let c = *vstd::slice::slice_index_get(s1, 0);
    proof {
        assert(skip_ws(s@).first() == c);
    }
    if c == ']' {
        let rest = vstd::slice::slice_subrange(s1, 1, s1.len());
        let items: Vec<Json> = Vec::new();
        proof {
            assert(rest@ =~= skip_ws(s@).drop_first());
            assert(items@ =~= Seq::<Json>::empty());
            assert(jview_seq(items@) =~= Seq::<JsonV>::empty());
        }
        return Some((items, rest));
    }
    match p_value(s1) {
        None => None,
        Some((v, rest)) => {
            if rest.len() < s.len() {
                match p_elems_rest(rest) {
                    None => None,
                    Some((mut vs, r2)) => {
                        let ghost old_vs = vs@;
                        vs.insert(0, v);
                        proof {
                            assert(vs@ =~= seq![v] + old_vs);
                            lemma_jview_seq(vs@);
                            lemma_jview_seq(old_vs);
                            assert(jview_seq(vs@) =~= seq![jview(v)] + jview_seq(old_vs));
                        }
                        Some((vs, r2))
                    },
                }
            } else {
                None
            }
        },
    }
}

/// Parses what follows an array element.
fn p_elems_rest<'a>(s: &'a [char]) -> (r: Option<(Vec<Json>, &'a [char])>)
    ensures
        match r {
            Some(p) => parse_elems_rest(s@) == Some((jview_seq(p.0@), p.1@)),
            None => parse_elems_rest(s@) is None,
        },
    decreases s@.len(), 3int,
{
    let s1 = ws_skip(s);
    if s1.len() == 0 {
        return None;
    }
    let c = *vstd::slice::slice_index_get(s1, 0);
    proof {
        assert(skip_ws(s@).first() == c);
    }
    if c == ']' {
        let rest = vstd::slice::slice_subrange(s1, 1, s1.len());
        let items: Vec<Json> = Vec::new();
        proof {
            assert(rest@ =~= skip_ws(s@).drop_first());
            assert(items@ =~= Seq::<Json>::empty());
            assert(jview_seq(items@) =~= Seq::<JsonV>::empty());
        }
        return Some((items, rest));
    }
    if c != ',' {
        return None;
    }
    let body = vstd::slice::slice_subrange(s1, 1, s1.len());
    proof {
        assert(body@ =~= skip_ws(s@).drop_first());
    }
    match p_value(body) {
        None => None,
        Some((v, rest)) => {
            if rest.len() < s.len() {
                match p_elems_rest(rest) {
                    None => None,
                    Some((mut vs, r2)) => {
                        let ghost old_vs = vs@;
                        vs.insert(0, v);
                        proof {
                            assert(vs@ =~= seq![v] + old_vs);
                            lemma_jview_seq(vs@);
                            lemma_jview_seq(old_vs);
                            assert(jview_seq(vs@) =~= seq![jview(v)] + jview_seq(old_vs));
                        }
                        Some((vs, r2))
                    },
                }
            } else {
                None
            }
        },
    }
}

/// Parses one `"key": value` member.
fn p_member<'a>(s: &'a [char]) -> (r: Option<((String, Json), &'a [char])>)
    ensures
        match r {
            Some(p) => parse_member(s@) == Some(((p.0.0@, jview(p.0.1)), p.1@)),
            None => parse_member(s@) is None,
        },
    decreases s@.len(), 0int,
{
    if s.len() == 0 {
        return None;
    }
    let c = *vstd::slice::slice_index_get(s, 0);
    proof {
        assert(s@.first() == c);
    }
    if c != '"' {
        return None;
    }
    let body = vstd::slice::slice_subrange(s, 1, s.len());
    proof {
        assert(body@ =~= s@.drop_first());
    }
    match p_string_body(body) {
        None => None,
        Some((k, r1)) => {
            if r1.len() < s.len() {
                let r2 = ws_skip(r1);
                if r2.len() == 0 {
                    return None;
                }
                let c2 = *vstd::slice::slice_index_get(r2, 0);
                proof {
                    assert(skip_ws(r1@).first() == c2);
                }
                if c2 != ':' {
                    return None;
                }
                let vbody = vstd::slice::slice_subrange(r2, 1, r2.len());
                proof {
                    assert(vbody@ =~= skip_ws(r1@).drop_first());
                }
                match p_value(vbody) {
                    None => None,
                    Some((v, r3)) => Some(((k, v), r3)),
                }
            } else {
                None
            }
        },
    }
}

/// Parses what follows `{`.
fn p_members<'a>(s: &'a [char]) -> (r: Option<(Vec<(String, Json)>, &'a [char])>)
    ensures
        match r {
            Some(p) => parse_members(s@) == Some((jview_members(p.0@), p.1@)),
            None => parse_members(s@) is None,
        },
    decreases s@.len(), 2int,
{
    let s1 = ws_skip(s);
    if s1.len() == 0 {
        return None;
    }
    let c = *vstd::slice::slice_index_get(s1, 0);
    proof {
        assert(skip_ws(s@).first() == c);
    }
    if c == '}' {
        let rest = vstd::slice::slice_subrange(s1, 1, s1.len());
        let members: Vec<(String, Json)> = Vec::new();
        proof {
            assert(rest@ =~= skip_ws(s@).drop_first());
            assert(members@ =~= Seq::<(String, Json)>::empty());
            assert(jview_members(members@) =~= Seq::<(Seq<char>, JsonV)>::empty());
        }
        return Some((members, rest));
    }
    match p_member(s1) {
        None => None,
        Some((kv, rest)) => {
            if rest.len() < s.len() {
                match p_members_rest(rest) {
                    None => None,
                    Some((mut ms, r2)) => {
                        let ghost old_ms = ms@;
                        let ghost kvv = (kv.0@, jview(kv.1));
                        ms.insert(0, kv);
                        proof {
                            assert(ms@ =~= seq![(ms@[0].0, ms@[0].1)].add(old_ms));
                            lemma_jview_members(ms@);
                            lemma_jview_members(old_ms);
                            assert(jview_members(ms@) =~= seq![kvv] + jview_members(old_ms));
                        }
                        Some((ms, r2))
                    },
                }
            } else {
                None
            }
        },
    }
}

/// Parses what follows an object member.
fn p_members_rest<'a>(s: &'a [char]) -> (r: Option<(Vec<(String, Json)>, &'a [char])>)
    ensures
        match r {
            Some(p) => parse_members_rest(s@) == Some((jview_members(p.0@), p.1@)),
            None => parse_members_rest(s@) is None,
        },
    decreases s@.len(), 3int,
{
    let s1 = ws_skip(s);
    if s1.len() == 0 {
        return None;
    }
    let c = *vstd::slice::slice_index_get(s1, 0);
    proof {
        assert(skip_ws(s@).first() == c);
    }
    if c == '}' {
        let rest = vstd::slice::slice_subrange(s1, 1, s1.len());
        let members: Vec<(String, Json)> = Vec::new();
        proof {
            assert(rest@ =~= skip_ws(s@).drop_first());
            assert(members@ =~= Seq::<(String, Json)>::empty());
            assert(jview_members(members@) =~= Seq::<(Seq<char>, JsonV)>::empty());
        }
        return Some((members, rest));
    }
    if c != ',' {
        return None;
    }
    let body = vstd::slice::slice_subrange(s1, 1, s1.len());
    proof {
        assert(body@ =~= skip_ws(s@).drop_first());
    }
    let s2 = ws_skip(body);
    proof {
        assert(s2@.len() < s@.len());
    }
    match p_member(s2) {
        None => None,
        Some((kv, rest)) => {
            if rest.len() < s.len() {
                match p_members_rest(rest) {
                    None => None,
                    Some((mut ms, r2)) => {
                        let ghost old_ms = ms@;
                        let ghost kvv = (kv.0@, jview(kv.1));
                        ms.insert(0, kv);
                        proof {
                            assert(ms@ =~= seq![(ms@[0].0, ms@[0].1)].add(old_ms));
                            lemma_jview_members(ms@);
                            lemma_jview_members(old_ms);
                            assert(jview_members(ms@) =~= seq![kvv] + jview_members(old_ms));
                        }
                        Some((ms, r2))
                    },
                }
            } else {
                None
            }
        },
    }
}

/// Parses a whole document: one value with nothing but whitespace after it.
pub fn from_text(input: &str) -> (r: Option<Json>)
    ensures
        match r {
            Some(j) => spec_parse(input@) == Some(jview(j)),
            None => spec_parse(input@) is None,
        },
{
    let chars = crate::text::str_to_chars(input);
    match p_value(chars.as_slice()) {
        None => None,
        Some((v, rest)) => {
            let r2 = ws_skip(rest);
            if r2.len() == 0 {
                Some(v)
            } else {
                None
            }
        },
    }
}


// ------------------------------------------------------------------
// Parsing inverts printing.
// ------------------------------------------------------------------
/// All characters are whitespace.
pub open spec fn all_ws(s: Seq<char>) -> bool {
    forall|i: int| 0 <= i < s.len() ==> is_ws(s[i])
}

/// A tree the printer and parser round-trip: everything but numbers,
/// whose textual form the parser delimits by what follows them.
pub open spec fn wf_json(j: JsonV) -> bool
    decreases j,
{
    match j {
        JsonV::Null => true,
        JsonV::Bool(_) => true,
        JsonV::Num(_) => false,
        JsonV::Str(_) => true,
        JsonV::Arr(items) => wf_seq(items),
        JsonV::Obj(members) => wf_members(members),
    }
}

pub open spec fn wf_seq(items: Seq<JsonV>) -> bool
    decreases items,
{
    items.len() == 0 || (wf_json(items.first()) && wf_seq(items.drop_first()))
}

pub open spec fn wf_members(members: Seq<(Seq<char>, JsonV)>) -> bool
    decreases members,
{
    members.len() == 0 || (wf_json(members.first().1) && wf_members(members.drop_first()))
}

/// Leading whitespace before a non-blank continuation is skipped whole.
proof fn lemma_skip_ws_prefix(w: Seq<char>, s: Seq<char>)
    requires
        all_ws(w),
        s.len() == 0 || !is_ws(s.first()),
    ensures
        skip_ws(w + s) == s,
    decreases w.len(),
{
    if w.len() == 0 {
        assert(w + s =~= s);
        if s.len() > 0 {
            assert(skip_ws(s) == s);
        }
    } else {
        assert((w + s).first() == w.first());
        assert(is_ws(w.first()));
        assert((w + s).drop_first() =~= w.drop_first() + s);
        lemma_skip_ws_prefix(w.drop_first(), s);
    }
}

/// The value of the hex digit written for `n` is `n` again.
proof fn lemma_hex_digit_val(n: int)
    requires
        0 <= n < 16,
    ensures
        is_hex(hex_digit(n)),
        hex_val(hex_digit(n)) == n,
{
}

/// Parsing the escaped body of a string recovers the string.
proof fn lemma_psb_esc(t: Seq<char>, rest: Seq<char>)
    ensures
        parse_string_body(esc_str(t) + seq!['"'] + rest) == Some((t, rest)),
    decreases t.len(),
{
    if t.len() == 0 {
        assert(esc_str(t) + seq!['"'] + rest =~= seq!['"'] + rest);
        assert((seq!['"'] + rest).first() == '"');
        assert((seq!['"'] + rest).drop_first() =~= rest);
        assert(t =~= Seq::<char>::empty());
    } else {
        let c = t.first();
        let t1 = t.drop_first();
        let s = esc_str(t) + seq!['"'] + rest;
        let s1 = esc_str(t1) + seq!['"'] + rest;
        assert(esc_str(t) == esc_char(c) + esc_str(t1));
        lemma_psb_esc(t1, rest);
        if c == '"' || c == '\\' {
            assert(s =~= seq!['\\', c] + s1);
            assert(s.first() == '\\' && s[1] == c && s.len() >= 2);
            assert(s.skip(2) =~= s1);
            assert(parse_string_body(s) == Some((seq![c] + t1, rest)));
            assert(seq![c] + t1 =~= t);
        } else if c == '\n' || c == '\t' || c == '\r' || c == '\u{8}' || c == '\u{c}' {
            let e = if c == '\n' {
                'n'
            } else if c == '\t' {
                't'
            } else if c == '\r' {
                'r'
            } else if c == '\u{8}' {
                'b'
            } else {
                'f'
            };
            assert(s =~= seq!['\\', e] + s1);
            assert(s.first() == '\\' && s[1] == e && s.len() >= 2);
            assert(s.skip(2) =~= s1);
            assert(parse_string_body(s) == Some((seq![c] + t1, rest)));
            assert(seq![c] + t1 =~= t);
        } else if (c as u32) < 0x20 {
            let hi = (c as u32) as int / 16;
            let lo = (c as u32) as int % 16;
            assert(s =~= seq!['\\', 'u', '0', '0', hex_digit(hi), hex_digit(lo)] + s1);
            assert(s.first() == '\\' && s[1] == 'u' && s.len() >= 6);
            assert(s[2] == '0' && s[3] == '0' && s[4] == hex_digit(hi) && s[5] == hex_digit(lo));
            lemma_hex_digit_val(hi);
            lemma_hex_digit_val(lo);
            assert(is_hex('0') && hex_val('0') == 0);
            let cp = hex_val(s[2]) * 0x1000 + hex_val(s[3]) * 0x100 + hex_val(s[4]) * 0x10
                + hex_val(s[5]);
            assert(cp == c as u32);
            assert(!(0xD800 <= cp && cp <= 0xDBFF));
            assert(!(0xDC00 <= cp && cp <= 0xDFFF));
            assert(s.skip(6) =~= s1);
            vstd::utf8::char_u32_cast(c, cp as u32);
            assert((cp as u32) as char == c);
            assert(parse_string_body(s) == Some((seq![c] + t1, rest)));
            assert(seq![c] + t1 =~= t);
        } else {
            assert(s =~= seq![c] + s1);
            assert(s.first() == c);
            assert(c != '"' && c != '\\' && !((c as u32) < 0x20));
            assert(s.drop_first() =~= s1);
            assert(parse_string_body(s) == Some((seq![c] + t1, rest)));
            assert(seq![c] + t1 =~= t);
        }
    }
}

/// A printed value is not empty and never starts with whitespace or a
/// closing token.
proof fn lemma_print_first(j: JsonV, pad: Seq<char>)
    requires
        wf_json(j),
    ensures
        print_json(j, pad).len() >= 1,
        !is_ws(print_json(j, pad).first()),
        print_json(j, pad).first() != ']',
        print_json(j, pad).first() != '}',
        print_json(j, pad).first() != ',',
{
    match j {
        JsonV::Null => {}
        JsonV::Bool(_) => {}
        JsonV::Num(_) => {}
        JsonV::Str(t) => {
            assert(print_json(j, pad).first() == '"');
        }
        JsonV::Arr(items) => {
            assert(print_json(j, pad).first() == '[');
        }
        JsonV::Obj(members) => {
            assert(print_json(j, pad).first() == '{');
        }
    }
}

/// Parsing a printed value, after any whitespace, recovers the value and
/// leaves exactly what followed it.
proof fn lemma_rt_value(j: JsonV, w: Seq<char>, pad: Seq<char>, rest: Seq<char>)
    requires
        wf_json(j),
        all_ws(w),
        all_ws(pad),
    ensures
        parse_value(w + print_json(j, pad) + rest) == Some((j, rest)),
    decreases j, 1int,
{
    let p = print_json(j, pad);
    let s = w + p + rest;
    lemma_print_first(j, pad);
    assert(w + p + rest =~= w + (p + rest));
    assert((p + rest).first() == p.first());
    lemma_skip_ws_prefix(w, p + rest);
    assert(skip_ws(s) == p + rest);
    assert(skip_ws(p + rest) == p + rest);
    assert(Seq::<char>::empty() + p + rest =~= p + rest);
    match j {
        JsonV::Null => {
            lemma_rt_value_atom(j, pad, rest);
        }
        JsonV::Bool(_) => {
            lemma_rt_value_atom(j, pad, rest);
        }
        JsonV::Num(_) => {}
        JsonV::Str(_) => {
            lemma_rt_value_atom(j, pad, rest);
        }
        JsonV::Arr(_) => {
            lemma_rt_value_arr(j, pad, rest);
        }
        JsonV::Obj(_) => {
            lemma_rt_value_obj(j, pad, rest);
        }
    }
}

/// The literal and string cases of [`lemma_rt_value`].
#[verifier::rlimit(100)]
#[verifier::spinoff_prover]
proof fn lemma_rt_value_atom(j: JsonV, pad: Seq<char>, rest: Seq<char>)
    requires
        j is Null || j is Bool || j is Str,
    ensures
        parse_value(print_json(j, pad) + rest) == Some((j, rest)),
{
    let p = print_json(j, pad);
    let s1 = p + rest;
    assert(s1.first() == p.first());
    match j {
        JsonV::Null => {
            assert(s1.first() == 'n');
            assert(!is_ws('n'));
            assert(skip_ws(s1) == s1);
            assert(s1.take(4) =~= seq!['n', 'u', 'l', 'l']);
            assert(has_prefix(s1, seq!['n', 'u', 'l', 'l']));
            assert(s1.skip(4) =~= rest);
        }
        JsonV::Bool(b) => {
            if b {
                assert(s1.first() == 't');
                assert(!is_ws('t'));
                assert(skip_ws(s1) == s1);
                assert(s1.take(4) =~= seq!['t', 'r', 'u', 'e']);
                assert(has_prefix(s1, seq!['t', 'r', 'u', 'e']));
                assert(s1.skip(4) =~= rest);
            } else {
                assert(s1.first() == 'f');
                assert(!is_ws('f'));
                assert(skip_ws(s1) == s1);
                assert(s1.take(5) =~= seq!['f', 'a', 'l', 's', 'e']);
                assert(has_prefix(s1, seq!['f', 'a', 'l', 's', 'e']));
                assert(s1.skip(5) =~= rest);
            }
        }
        JsonV::Num(_) => {}
        JsonV::Str(t) => {
            assert(s1.first() == '"');
            assert(!is_ws('"'));
            assert(skip_ws(s1) == s1);
            assert(s1.drop_first() =~= esc_str(t) + seq!['"'] + rest);
            lemma_psb_esc(t, rest);
        }
        JsonV::Arr(_) => {}
        JsonV::Obj(_) => {}
    }
}

/// The array case of [`lemma_rt_value`].
#[verifier::rlimit(100)]
#[verifier::spinoff_prover]
proof fn lemma_rt_value_arr(j: JsonV, pad: Seq<char>, rest: Seq<char>)
    requires
        wf_json(j),
        all_ws(pad),
        j is Arr,
    ensures
        parse_value(print_json(j, pad) + rest) == Some((j, rest)),
    decreases j, 0int,
{
    let items = j->Arr_0;
    let p = print_json(j, pad);
    let s1 = p + rest;
    assert(s1.first() == p.first());
    assert(s1.first() == '[');
    assert(!is_ws('['));
    assert(skip_ws(s1) == s1);
    lemma_rt_arr_body(items, pad, rest);
    if items.len() == 0 {
        assert(s1.drop_first() =~= seq![']'] + rest);
    } else {
        assert(s1.drop_first() =~= print_elems(items, pad + pad_step()) + nl_pad(pad) + seq![']']
            + rest);
    }
    assert(parse_elems(s1.drop_first()) == Some((items, rest)));
}

/// The object case of [`lemma_rt_value`].
#[verifier::rlimit(100)]
#[verifier::spinoff_prover]
proof fn lemma_rt_value_obj(j: JsonV, pad: Seq<char>, rest: Seq<char>)
    requires
        wf_json(j),
        all_ws(pad),
        j is Obj,
    ensures
        parse_value(print_json(j, pad) + rest) == Some((j, rest)),
    decreases j, 0int,
{
    let members = j->Obj_0;
    let p = print_json(j, pad);
    let s1 = p + rest;
    assert(s1.first() == p.first());
    assert(s1.first() == '{');
    assert(!is_ws('{'));
    assert(skip_ws(s1) == s1);
    lemma_rt_obj_body(members, pad, rest);
    if members.len() == 0 {
        assert(s1.drop_first() =~= seq!['}'] + rest);
    } else {
        assert(s1.drop_first() =~= print_members(members, pad + pad_step()) + nl_pad(pad) + seq![
            '}',
        ] + rest);
    }
    assert(parse_members(s1.drop_first()) == Some((members, rest)));
}

/// Parsing the printed body of an array recovers its elements.
#[verifier::rlimit(100)]
#[verifier::spinoff_prover]
proof fn lemma_rt_arr_body(items: Seq<JsonV>, pad: Seq<char>, rest: Seq<char>)
    requires
        wf_seq(items),
        all_ws(pad),
    ensures
        parse_elems(
            if items.len() == 0 {
                seq![']'] + rest
            } else {
                print_elems(items, pad + pad_step()) + nl_pad(pad) + seq![']'] + rest
            },
        ) == Some((items, rest)),
    decreases items, 0int,
{
    if items.len() == 0 {
        let b = seq![']'] + rest;
        assert(b.first() == ']');
        assert(skip_ws(b) == b);
        assert(b.drop_first() =~= rest);
        assert(items =~= Seq::<JsonV>::empty());
    } else {
        let pad_i = pad + pad_step();
        assert(all_ws(nl_pad(pad)));
        assert(all_ws(pad_i));
        assert(all_ws(nl_pad(pad_i)));
        let first = items.first();
        let tail = items.drop_first();
        let rest2: Seq<char> = if items.len() == 1 {
            nl_pad(pad) + seq![']'] + rest
        } else {
            seq![','] + print_elems(tail, pad_i) + nl_pad(pad) + seq![']'] + rest
        };
        let b = print_elems(items, pad_i) + nl_pad(pad) + seq![']'] + rest;
        assert(b =~= nl_pad(pad_i) + (print_json(first, pad_i) + rest2));
        lemma_print_first(first, pad_i);
        assert((print_json(first, pad_i) + rest2).first() == print_json(first, pad_i).first());
        lemma_skip_ws_prefix(nl_pad(pad_i), print_json(first, pad_i) + rest2);
        let sb = print_json(first, pad_i) + rest2;
        assert(skip_ws(b) == sb);
        assert(sb.len() <= b.len());
        assert(sb.first() != ']');
        assert(Seq::<char>::empty() + print_json(first, pad_i) + rest2 =~= sb);
        lemma_rt_value(first, Seq::empty(), pad_i, rest2);
        assert(parse_value(sb) == Some((first, rest2)));
        assert(rest2.len() < b.len());
        lemma_rt_elems_rest(tail, pad_i, nl_pad(pad), rest);
        assert(parse_elems_rest(rest2) == Some((tail, rest)));
        assert(parse_elems(b) == Some((seq![first] + tail, rest)));
        assert(seq![first] + tail =~= items);
    }
}

/// Parsing the printed body of an object recovers its members.
#[verifier::rlimit(100)]
#[verifier::spinoff_prover]
proof fn lemma_rt_obj_body(members: Seq<(Seq<char>, JsonV)>, pad: Seq<char>, rest: Seq<char>)
    requires
        wf_members(members),
        all_ws(pad),
    ensures
        parse_members(
            if members.len() == 0 {
                seq!['}'] + rest
            } else {
                print_members(members, pad + pad_step()) + nl_pad(pad) + seq!['}'] + rest
            },
        ) == Some((members, rest)),
    decreases members, 0int,
{
    if members.len() == 0 {
        let b = seq!['}'] + rest;
        assert(b.first() == '}');
        assert(skip_ws(b) == b);
        assert(b.drop_first() =~= rest);
        assert(members =~= Seq::<(Seq<char>, JsonV)>::empty());
    } else {
        let pad_i = pad + pad_step();
        assert(all_ws(nl_pad(pad)));
        assert(all_ws(pad_i));
        assert(all_ws(nl_pad(pad_i)));
        let first = members.first();
        let tail = members.drop_first();
        let rest2: Seq<char> = if members.len() == 1 {
            nl_pad(pad) + seq!['}'] + rest
        } else {
            seq![','] + print_members(tail, pad_i) + nl_pad(pad) + seq!['}'] + rest
        };
        let b = print_members(members, pad_i) + nl_pad(pad) + seq!['}'] + rest;
        let mtext = print_str(first.0) + seq![':', ' '] + print_json(first.1, pad_i);
        assert(b =~= nl_pad(pad_i) + (mtext + rest2));
        assert((mtext + rest2).first() == '"');
        lemma_skip_ws_prefix(nl_pad(pad_i), mtext + rest2);
        let sb = mtext + rest2;
        assert(skip_ws(b) == sb);
        assert(sb.len() <= b.len());
        assert(sb.first() != '}');
        assert(mtext + rest2 =~= print_str(first.0) + seq![':', ' '] + print_json(
            first.1,
            pad_i,
        ) + rest2);
        lemma_rt_member(first, pad_i, rest2);
        assert(parse_member(sb) == Some((first, rest2)));
        assert(rest2.len() < b.len());
        lemma_rt_members_rest(tail, pad_i, nl_pad(pad), rest);
        assert(parse_members_rest(rest2) == Some((tail, rest)));
        assert(parse_members(b) == Some((seq![first] + tail, rest)));
        assert(seq![first] + tail =~= members);
    }
}

/// Parsing the printed text of one member recovers that member.
#[verifier::rlimit(100)]
#[verifier::spinoff_prover]
proof fn lemma_rt_member(kv: (Seq<char>, JsonV), pad_i: Seq<char>, rest2: Seq<char>)
    requires
        wf_json(kv.1),
        all_ws(pad_i),
    ensures
        parse_member(
            print_str(kv.0) + seq![':', ' '] + print_json(kv.1, pad_i) + rest2,
        ) == Some((kv, rest2)),
    decreases kv.1, 2int,
{
    let k = kv.0;
    let v = kv.1;
    let sb = print_str(k) + seq![':', ' '] + print_json(v, pad_i) + rest2;
    assert(sb.first() == '"');
    let r1 = seq![':', ' '] + print_json(v, pad_i) + rest2;
    assert(sb.drop_first() =~= esc_str(k) + seq!['"'] + r1);
    lemma_psb_esc(k, r1);
    assert(parse_string_body(sb.drop_first()) == Some((k, r1)));
    assert(r1.len() < sb.len());
    assert(r1.first() == ':');
    assert(skip_ws(r1) == r1);
    assert(r1.drop_first() =~= seq![' '] + print_json(v, pad_i) + rest2);
    assert(all_ws(seq![' ']));
    lemma_rt_value(v, seq![' '], pad_i, rest2);
    assert(parse_value(r1.drop_first()) == Some((v, rest2)));
    assert((k, v) == kv);
}

/// Parsing what the printer wrote after one array element recovers the
/// remaining elements.
#[verifier::rlimit(100)]
#[verifier::spinoff_prover]
proof fn lemma_rt_elems_rest(
    items: Seq<JsonV>,
    pad_i: Seq<char>,
    wclose: Seq<char>,
    rest: Seq<char>,
)
    requires
        wf_seq(items),
        all_ws(pad_i),
        all_ws(wclose),
    ensures
        parse_elems_rest(
            if items.len() == 0 {
                wclose + seq![']'] + rest
            } else {
                seq![','] + print_elems(items, pad_i) + wclose + seq![']'] + rest
            },
        ) == Some((items, rest)),
    decreases items, 3int,
{
    if items.len() == 0 {
        let s = wclose + seq![']'] + rest;
        assert(s =~= wclose + (seq![']'] + rest));
        assert((seq![']'] + rest).first() == ']');
        lemma_skip_ws_prefix(wclose, seq![']'] + rest);
        assert(skip_ws(s) == seq![']'] + rest);
        assert((seq![']'] + rest).drop_first() =~= rest);
        assert(items =~= Seq::<JsonV>::empty());
    } else {
        let s = seq![','] + print_elems(items, pad_i) + wclose + seq![']'] + rest;
        assert(s.first() == ',');
        assert(skip_ws(s) == s);
        let first = items.first();
        let tail = items.drop_first();
        let rest2: Seq<char> = if items.len() == 1 {
            wclose + seq![']'] + rest
        } else {
            seq![','] + print_elems(tail, pad_i) + wclose + seq![']'] + rest
        };
        assert(s.drop_first() =~= nl_pad(pad_i) + print_json(first, pad_i) + rest2);
        assert(nl_pad(pad_i) + print_json(first, pad_i) + rest2 =~= nl_pad(pad_i) + (print_json(
            first,
            pad_i,
        ) + rest2));
        assert(all_ws(nl_pad(pad_i)));
        lemma_rt_value(first, nl_pad(pad_i), pad_i, rest2);
        assert(parse_value(s.drop_first()) == Some((first, rest2)));
        assert(rest2.len() < s.len());
        lemma_rt_elems_rest(tail, pad_i, wclose, rest);
        assert(parse_elems_rest(rest2) == Some((tail, rest)));
        assert(parse_elems_rest(s) == Some((seq![first] + tail, rest)));
        assert(seq![first] + tail =~= items);
    }
}

/// Parsing what the printer wrote after one object member recovers the
/// remaining members.
#[verifier::rlimit(100)]
#[verifier::spinoff_prover]
proof fn lemma_rt_members_rest(
    members: Seq<(Seq<char>, JsonV)>,
    pad_i: Seq<char>,
    wclose: Seq<char>,
    rest: Seq<char>,
)
    requires
        wf_members(members),
        all_ws(pad_i),
        all_ws(wclose),
    ensures
        parse_members_rest(
            if members.len() == 0 {
                wclose + seq!['}'] + rest
            } else {
                seq![','] + print_members(members, pad_i) + wclose + seq!['}'] + rest
            },
        ) == Some((members, rest)),
    decreases members, 3int,
{
    if members.len() == 0 {
        let s = wclose + seq!['}'] + rest;
        assert(s =~= wclose + (seq!['}'] + rest));
        assert((seq!['}'] + rest).first() == '}');
        lemma_skip_ws_prefix(wclose, seq!['}'] + rest);
        assert(skip_ws(s) == seq!['}'] + rest);
        assert((seq!['}'] + rest).drop_first() =~= rest);
        assert(members =~= Seq::<(Seq<char>, JsonV)>::empty());
    } else {
        let s = seq![','] + print_members(members, pad_i) + wclose + seq!['}'] + rest;
        assert(s.first() == ',');
        assert(skip_ws(s) == s);
        let first = members.first();
        let tail = members.drop_first();
        let rest2: Seq<char> = if members.len() == 1 {
            wclose + seq!['}'] + rest
        } else {
            seq![','] + print_members(tail, pad_i) + wclose + seq!['}'] + rest
        };
        let mtext = print_str(first.0) + seq![':', ' '] + print_json(first.1, pad_i);
        assert(s.drop_first() =~= nl_pad(pad_i) + (mtext + rest2));
        assert((mtext + rest2).first() == '"');
        assert(all_ws(nl_pad(pad_i)));
        lemma_skip_ws_prefix(nl_pad(pad_i), mtext + rest2);
        let s2 = mtext + rest2;
        assert(skip_ws(s.drop_first()) == s2);
        assert(s2.len() < s.len());
        assert(mtext + rest2 =~= print_str(first.0) + seq![':', ' '] + print_json(
            first.1,
            pad_i,
        ) + rest2);
        lemma_rt_member(first, pad_i, rest2);
        assert(parse_member(s2) == Some((first, rest2)));
        assert(rest2.len() < s.len());
        lemma_rt_members_rest(tail, pad_i, wclose, rest);
        assert(parse_members_rest(rest2) == Some((tail, rest)));
        assert(parse_members_rest(s) == Some((seq![first] + tail, rest)));
        assert(seq![first] + tail =~= members);
    }
}

/// Parsing inverts printing: the document printed for a well-formed value
/// parses back to exactly that value.
pub proof fn lemma_parse_print(j: JsonV)
    requires
        wf_json(j),
    ensures
        spec_parse(print_json(j, Seq::empty())) == Some(j),
{
    lemma_rt_value(j, Seq::empty(), Seq::empty(), Seq::empty());
    assert(Seq::<char>::empty() + print_json(j, Seq::empty()) + Seq::<char>::empty() =~= print_json(
        j,
        Seq::empty(),
    ));
    assert(parse_value(print_json(j, Seq::empty())) == Some((j, Seq::<char>::empty())));
}

} // verus!




