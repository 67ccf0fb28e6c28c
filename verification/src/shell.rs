//! The shell word codec.
//!
//! [`split`] tokenizes a command line the way a POSIX shell splits words:
//! unquoted whitespace separates tokens; single quotes keep their content
//! literal; double quotes allow a backslash to escape `$`, a backtick, `"`,
//! `\` and a newline; outside quotes a backslash escapes the next character.
//! A quote that is never closed is a [`MismatchedQuotes`] error.
//!
//! [`join`] renders a token list as a single command line, escaping every
//! character a shell could interpret, so that [`split`] recovers exactly the
//! original tokens; [`lemma_split_join`] proves that inverse law.

use vstd::prelude::*;
use vstd::string::StringExecFns;

verus! {

/// The error returned when a quoted string misses its closing quote.
#[derive(Debug, Clone, Copy, PartialEq, Eq, Structural)]
pub struct MismatchedQuotes;

/// Whitespace that separates tokens.
pub open spec fn is_shell_space(c: char) -> bool {
    c == ' ' || c == '\t' || c == '\n' || c == '\r' || c == '\u{b}' || c == '\u{c}'
}

/// Characters that may stand unescaped in a joined word.
pub open spec fn is_plain(c: char) -> bool {
    ('a' <= c && c <= 'z') || ('A' <= c && c <= 'Z') || ('0' <= c && c <= '9') || c == '_'
        || c == '-' || c == '.' || c == ',' || c == ':' || c == '/' || c == '@'
}

/// What a backslash escape inside double quotes contributes to the token:
/// before `$`, a backtick, `"`, `\` or a newline the backslash is dropped,
/// before any other character it is kept.
pub open spec fn dq_escape(c: char) -> Seq<char> {
    if c == '$' || c == '`' || c == '"' || c == '\\' || c == '\n' {
        seq![c]
    } else {
        seq!['\\', c]
    }
}

/// Scans the inside of a single-quoted span: the span's literal content and
/// the input after the closing quote, or `None` when the quote never closes.
pub open spec fn scan_squote(s: Seq<char>) -> Option<(Seq<char>, Seq<char>)>
    decreases s.len(),
{
    if s.len() == 0 {
        None
    } else if s.first() == '\'' {
        Some((Seq::empty(), s.drop_first()))
    } else {
        match scan_squote(s.drop_first()) {
            None => None,
            Some((content, rest)) => Some((seq![s.first()] + content, rest)),
        }
    }
}

/// Scans the inside of a double-quoted span: the content with escapes
/// resolved and the input after the closing quote, or `None` when the quote
/// never closes (a trailing backslash leaves it unclosed).
pub open spec fn scan_dquote(s: Seq<char>) -> Option<(Seq<char>, Seq<char>)>
    decreases s.len(),
{
    if s.len() == 0 {
        None
    } else if s.first() == '"' {
        Some((Seq::empty(), s.drop_first()))
    } else if s.first() == '\\' {
        if s.len() >= 2 {
            match scan_dquote(s.skip(2)) {
                None => None,
                Some((content, rest)) => Some((dq_escape(s[1]) + content, rest)),
            }
        } else {
            None
        }
    } else {
        match scan_dquote(s.drop_first()) {
            None => None,
            Some((content, rest)) => Some((seq![s.first()] + content, rest)),
        }
    }
}

/// The splitting machine.  `field` is the token being accumulated,
/// `in_field` says whether any piece of a token is open (a pair of quotes
/// contributes an empty piece), and `words` are the finished tokens.
pub open spec fn split_rec(
    s: Seq<char>,
    field: Seq<char>,
    in_field: bool,
    words: Seq<Seq<char>>,
) -> Option<Seq<Seq<char>>>
    decreases s.len(),
{
    if s.len() == 0 {
        Some(if in_field { words.push(field) } else { words })
    } else {
        let c = s.first();
        if is_shell_space(c) {
            if in_field {
                split_rec(s.drop_first(), Seq::empty(), false, words.push(field))
            } else {
                split_rec(s.drop_first(), field, false, words)
            }
        } else if c == '\'' {
            match scan_squote(s.drop_first()) {
                None => None,
                Some((content, rest)) => {
                    if rest.len() < s.len() {
                        split_rec(rest, field + content, true, words)
                    } else {
                        None
                    }
                },
            }
        } else if c == '"' {
            match scan_dquote(s.drop_first()) {
                None => None,
                Some((content, rest)) => {
                    if rest.len() < s.len() {
                        split_rec(rest, field + content, true, words)
                    } else {
                        None
                    }
                },
            }
        } else if c == '\\' {
            if s.len() >= 2 {
                split_rec(s.skip(2), field.push(s[1]), true, words)
            } else {
                split_rec(s.drop_first(), field.push('\\'), true, words)
            }
        } else {
            split_rec(s.drop_first(), field.push(c), true, words)
        }
    }
}

/// What [`split`] returns: the token list, or `None` on mismatched quotes.
pub open spec fn spec_split(s: Seq<char>) -> Option<Seq<Seq<char>>> {
    split_rec(s, Seq::empty(), false, Seq::empty())
}

/// How [`join`] renders one character of a token.
pub open spec fn escape_char(c: char) -> Seq<char> {
    if c == '\n' {
        seq!['\'', '\n', '\'']
    } else if is_plain(c) {
        seq![c]
    } else {
        seq!['\\', c]
    }
}

/// The rendering of a non-empty token, character by character.
pub open spec fn escape_chars(t: Seq<char>) -> Seq<char>
    decreases t.len(),
{
    if t.len() == 0 {
        Seq::empty()
    } else {
        escape_char(t.first()) + escape_chars(t.drop_first())
    }
}

/// How [`join`] renders one token: an empty token becomes a pair of quotes.
pub open spec fn spec_escape(t: Seq<char>) -> Seq<char> {
    if t.len() == 0 {
        seq!['\'', '\'']
    } else {
        escape_chars(t)
    }
}

/// What [`join`] returns: the escaped tokens separated by single spaces.
pub open spec fn spec_join(ts: Seq<Seq<char>>) -> Seq<char>
    decreases ts.len(),
{
    if ts.len() == 0 {
        Seq::empty()
    } else if ts.len() == 1 {
        spec_escape(ts.first())
    } else {
        spec_escape(ts.first()) + seq![' '] + spec_join(ts.drop_first())
    }
}

/// Consuming the rendering of a token accumulates exactly that token.
proof fn lemma_escape_chars_split(
    t: Seq<char>,
    rest: Seq<char>,
    field: Seq<char>,
    in_field: bool,
    words: Seq<Seq<char>>,
)
    ensures
        split_rec(escape_chars(t) + rest, field, in_field, words) == split_rec(
            rest,
            field + t,
            in_field || t.len() > 0,
            words,
        ),
    decreases t.len(),
{
    if t.len() == 0 {
        assert(escape_chars(t) + rest =~= rest);
        assert(field + t =~= field);
    } else {
        let c = t.first();
        let t1 = t.drop_first();
        let s = escape_chars(t) + rest;
        assert(escape_chars(t) == escape_char(c) + escape_chars(t1));
        if c == '\n' {
            // the rendering is a single-quoted newline
            assert(s =~= seq!['\'', '\n', '\''] + (escape_chars(t1) + rest));
            let inner = s.drop_first();
            assert(inner =~= seq!['\n', '\''] + (escape_chars(t1) + rest));
            assert(inner.drop_first() =~= seq!['\''] + (escape_chars(t1) + rest));
            assert(inner.drop_first().first() == '\'');
            assert(inner.drop_first().drop_first() =~= escape_chars(t1) + rest);
            assert(scan_squote(inner.drop_first()) == Some(
                (Seq::<char>::empty(), escape_chars(t1) + rest),
            ));
            assert(inner.first() == '\n');
            assert(scan_squote(inner) == Some((seq!['\n'], escape_chars(t1) + rest)));
            assert(split_rec(s, field, in_field, words) == split_rec(
                escape_chars(t1) + rest,
                field + seq!['\n'],
                true,
                words,
            ));
            lemma_escape_chars_split(t1, rest, field + seq!['\n'], true, words);
            assert((field + seq!['\n']) + t1 =~= field + t);
        } else if is_plain(c) {
            assert(s =~= seq![c] + (escape_chars(t1) + rest));
            assert(s.first() == c);
            assert(!is_shell_space(c) && c != '\'' && c != '"' && c != '\\');
            assert(s.drop_first() =~= escape_chars(t1) + rest);
            assert(split_rec(s, field, in_field, words) == split_rec(
                escape_chars(t1) + rest,
                field.push(c),
                true,
                words,
            ));
            lemma_escape_chars_split(t1, rest, field.push(c), true, words);
            assert(field.push(c) + t1 =~= field + t);
        } else {
            assert(s =~= seq!['\\', c] + (escape_chars(t1) + rest));
            assert(s.first() == '\\' && !is_shell_space('\\'));
            assert(s.len() >= 2 && s[1] == c);
            assert(s.skip(2) =~= escape_chars(t1) + rest);
            assert(split_rec(s, field, in_field, words) == split_rec(
                escape_chars(t1) + rest,
                field.push(c),
                true,
                words,
            ));
            lemma_escape_chars_split(t1, rest, field.push(c), true, words);
            assert(field.push(c) + t1 =~= field + t);
        }
    }
}

/// Consuming a pair of single quotes opens a token without adding to it.
proof fn lemma_empty_quotes_split(
    rest: Seq<char>,
    field: Seq<char>,
    in_field: bool,
    words: Seq<Seq<char>>,
)
    ensures
        split_rec(seq!['\'', '\''] + rest, field, in_field, words) == split_rec(
            rest,
            field,
            true,
            words,
        ),
{
    let s = seq!['\'', '\''] + rest;
    assert(s.first() == '\'' && !is_shell_space('\''));
    assert(s.drop_first() =~= seq!['\''] + rest);
    assert(s.drop_first().first() == '\'');
    assert(s.drop_first().drop_first() =~= rest);
    assert(scan_squote(s.drop_first()) == Some((Seq::<char>::empty(), rest)));
    assert(field + Seq::<char>::empty() =~= field);
}

/// Consuming a joined token list accumulates exactly those tokens.
proof fn lemma_join_split_rec(ts: Seq<Seq<char>>, words: Seq<Seq<char>>)
    ensures
        split_rec(spec_join(ts), Seq::empty(), false, words) == Some(words + ts),
    decreases ts.len(),
{
    if ts.len() == 0 {
        assert(words + ts =~= words);
    } else {
        let t0 = ts.first();
        let ts1 = ts.drop_first();
        if ts.len() == 1 {
            if t0.len() == 0 {
                assert(t0 =~= Seq::<char>::empty());
                assert(spec_join(ts) =~= seq!['\'', '\''] + Seq::<char>::empty());
                lemma_empty_quotes_split(Seq::empty(), Seq::empty(), false, words);
                assert(split_rec(Seq::empty(), Seq::empty(), true, words) == Some(
                    words.push(Seq::empty()),
                ));
                assert(words.push(t0) =~= words + ts);
            } else {
                assert(spec_join(ts) =~= escape_chars(t0) + Seq::<char>::empty());
                lemma_escape_chars_split(t0, Seq::empty(), Seq::empty(), false, words);
                assert(Seq::<char>::empty() + t0 =~= t0);
                assert(split_rec(Seq::empty(), t0, true, words) == Some(words.push(t0)));
                assert(words.push(t0) =~= words + ts);
            }
        } else {
            let tail = seq![' '] + spec_join(ts1);
            if t0.len() == 0 {
                assert(t0 =~= Seq::<char>::empty());
                assert(spec_join(ts) =~= seq!['\'', '\''] + tail);
                lemma_empty_quotes_split(tail, Seq::empty(), false, words);
                assert(tail.first() == ' ' && is_shell_space(' '));
                assert(tail.drop_first() =~= spec_join(ts1));
                assert(split_rec(tail, Seq::empty(), true, words) == split_rec(
                    spec_join(ts1),
                    Seq::empty(),
                    false,
                    words.push(Seq::empty()),
                ));
                lemma_join_split_rec(ts1, words.push(t0));
                assert(words.push(t0) + ts1 =~= words + ts);
            } else {
                assert(spec_join(ts) =~= escape_chars(t0) + tail);
                lemma_escape_chars_split(t0, tail, Seq::empty(), false, words);
                assert(Seq::<char>::empty() + t0 =~= t0);
                assert(tail.first() == ' ' && is_shell_space(' '));
                assert(tail.drop_first() =~= spec_join(ts1));
                assert(split_rec(tail, t0, true, words) == split_rec(
                    spec_join(ts1),
                    Seq::empty(),
                    false,
                    words.push(t0),
                ));
                lemma_join_split_rec(ts1, words.push(t0));
                assert(words.push(t0) + ts1 =~= words + ts);
            }
        }
    }
}

/// The tokenizer inverse law: splitting a joined token list recovers
/// exactly the original tokens, whatever characters they hold.
pub proof fn lemma_split_join(ts: Seq<Seq<char>>)
    ensures
        spec_split(spec_join(ts)) == Some(ts),
{
    lemma_join_split_rec(ts, Seq::empty());
    assert(Seq::<Seq<char>>::empty() + ts =~= ts);
}

/// Appending a character to a token appends its rendering.
proof fn lemma_escape_chars_snoc(t: Seq<char>, c: char)
    ensures
        escape_chars(t.push(c)) == escape_chars(t) + escape_char(c),
    decreases t.len(),
{
    if t.len() == 0 {
        assert(t.push(c).drop_first() =~= t);
        assert(escape_chars(t) == Seq::<char>::empty());
        assert(escape_chars(t.push(c)) =~= escape_char(c));
        assert(escape_chars(t) + escape_char(c) =~= escape_char(c));
    } else {
        assert(t.push(c).first() == t.first());
        assert(t.push(c).drop_first() =~= t.drop_first().push(c));
        lemma_escape_chars_snoc(t.drop_first(), c);
        assert(escape_char(t.first()) + (escape_chars(t.drop_first()) + escape_char(c)) =~= (
        escape_char(t.first()) + escape_chars(t.drop_first())) + escape_char(c));
    }
}

/// Appending a token to a list appends a separator and its rendering.
proof fn lemma_join_snoc(ts: Seq<Seq<char>>, t: Seq<char>)
    ensures
        spec_join(ts.push(t)) == if ts.len() == 0 {
            spec_escape(t)
        } else {
            spec_join(ts) + seq![' '] + spec_escape(t)
        },
    decreases ts.len(),
{
    if ts.len() == 0 {
        assert(ts.push(t).first() == t);
    } else {
        assert(ts.push(t).first() == ts.first());
        assert(ts.push(t).drop_first() =~= ts.drop_first().push(t));
        lemma_join_snoc(ts.drop_first(), t);
        if ts.len() == 1 {
            assert(spec_join(ts.push(t)) == spec_escape(ts.first()) + seq![' '] + spec_escape(t));
            assert(spec_join(ts) == spec_escape(ts.first()));
        } else {
            assert(spec_escape(ts.first()) + seq![' '] + (spec_join(ts.drop_first()) + seq![' ']
                + spec_escape(t)) =~= (spec_escape(ts.first()) + seq![' '] + spec_join(
                ts.drop_first(),
            )) + seq![' '] + spec_escape(t));
        }
    }
}

/// Appends the rendering of one token to the output.
fn escape_into(out: &mut String, t: &Vec<char>)
    ensures
        final(out)@ == old(out)@ + spec_escape(t@),
{
    if t.len() == 0 {
        crate::text::push_char(out, '\'');
        crate::text::push_char(out, '\'');
        proof {
            assert(old(out)@.push('\'').push('\'') =~= old(out)@ + spec_escape(t@));
        }
        return ;
    }
    let n = t.len();
    let mut i: usize = 0;
    while i < n
        invariant
            n == t@.len(),
            i <= n,
            out@ == old(out)@ + escape_chars(t@.take(i as int)),
        decreases n - i,
    {
        let c = t[i];
        let ghost pre = t@.take(i as int);
        let ghost out_pre = out@;
        if c == '\n' {
            crate::text::push_char(out, '\'');
            crate::text::push_char(out, '\n');
            crate::text::push_char(out, '\'');
            proof {
                assert(out@ =~= out_pre + escape_char(c));
            }
        } else {
            let plain = ('a' <= c && c <= 'z') || ('A' <= c && c <= 'Z') || ('0' <= c && c
                <= '9') || c == '_' || c == '-' || c == '.' || c == ',' || c == ':' || c == '/'
                || c == '@';
            proof {
                assert(plain == is_plain(c));
            }
            if plain {
                crate::text::push_char(out, c);
                proof {
                    assert(out@ =~= out_pre + escape_char(c));
                }
            } else {
                crate::text::push_char(out, '\\');
                crate::text::push_char(out, c);
                proof {
                    assert(out@ =~= out_pre + escape_char(c));
                }
            }
        }
        proof {
            assert(t@.take(i + 1 as int) =~= pre.push(c));
            lemma_escape_chars_snoc(pre, c);
            assert(out@ =~= old(out)@ + escape_chars(t@.take(i + 1 as int)));
        }
        i = i + 1;
    }
    proof {
        assert(t@.take(n as int) =~= t@);
    }
}

/// Builds a command line from a list of tokens.
///
/// Every character a shell could interpret is escaped, so that [`split`]
/// applied to the result recovers exactly the given tokens.
pub fn join(words: &Vec<String>) -> (r: String)
    ensures
        r@ == spec_join(words.deep_view()),
{
    let mut out = String::new();
    let n = words.len();
    let mut i: usize = 0;
    while i < n
        invariant
            n == words@.len(),
            i <= n,
            out@ == spec_join(words.deep_view().take(i as int)),
        decreases n - i,
    {
        let ghost dv = words.deep_view();
        proof {
            assert(dv.len() == words@.len());
            assert(dv[i as int] == words@[i as int]@);
        }
        if i > 0 {
            crate::text::push_char(&mut out, ' ');
        }
        let tc = crate::text::str_to_chars(words[i].as_str());
        escape_into(&mut out, &tc);
        proof {
            assert(dv.take(i + 1 as int) =~= dv.take(i as int).push(dv[i as int]));
            lemma_join_snoc(dv.take(i as int), dv[i as int]);
            if i == 0 {
                assert(out@ =~= spec_join(dv.take(i + 1 as int)));
            } else {
                assert(out@ =~= spec_join(dv.take(i as int)) + seq![' '] + spec_escape(
                    dv[i as int],
                ));
            }
        }
        i = i + 1;
    }
    proof {
        assert(words.deep_view().take(n as int) =~= words.deep_view());
    }
    out
}

/// Scans past a single-quoted span, returning its literal content and the
/// index just past the closing quote, or `None` when the quote never
/// closes.
fn scan_squote_exec(s: &Vec<char>, start: usize) -> (r: Option<(String, usize)>)
    requires
        start <= s@.len(),
    ensures
        match r {
            Some(p) => {
                &&& start < p.1 <= s@.len()
                &&& scan_squote(s@.skip(start as int)) == Some((p.0@, s@.skip(p.1 as int)))
            },
            None => scan_squote(s@.skip(start as int)) is None,
        },
{
    let n = s.len();
    let mut content = String::new();
    let mut j = start;
    while j < n
        invariant
            start <= j <= n,
            n == s@.len(),
            match scan_squote(s@.skip(j as int)) {
                Some((c2, r)) => scan_squote(s@.skip(start as int)) == Some((content@ + c2, r)),
                None => scan_squote(s@.skip(start as int)) is None,
            },
        decreases n - j,
    {
        let c = s[j];
        proof {
            assert(s@.skip(j as int).first() == c);
        }
        if c == '\'' {
            proof {
                assert(s@.skip(j as int).drop_first() =~= s@.skip(j + 1 as int));
                assert(scan_squote(s@.skip(j as int)) == Some(
                    (Seq::<char>::empty(), s@.skip(j + 1 as int)),
                ));
                assert(content@ + Seq::<char>::empty() =~= content@);
            }
            return Some((content, j + 1));
        }
        let ghost cpre = content@;
        crate::text::push_char(&mut content, c);
        proof {
            assert(s@.skip(j as int).drop_first() =~= s@.skip(j + 1 as int));
            match scan_squote(s@.skip(j + 1 as int)) {
                Some((c2, r)) => {
                    assert(scan_squote(s@.skip(j as int)) == Some((seq![c] + c2, r)));
                    assert(cpre + (seq![c] + c2) =~= content@ + c2);
                },
                None => {},
            }
        }
        j = j + 1;
    }
    proof {
        assert(s@.skip(n as int) =~= Seq::<char>::empty());
    }
    None
}

/// Scans past a double-quoted span, returning its content with escapes
/// resolved and the index just past the closing quote, or `None` when the
/// quote never closes.
fn scan_dquote_exec(s: &Vec<char>, start: usize) -> (r: Option<(String, usize)>)
    requires
        start <= s@.len(),
    ensures
        match r {
            Some(p) => {
                &&& start < p.1 <= s@.len()
                &&& scan_dquote(s@.skip(start as int)) == Some((p.0@, s@.skip(p.1 as int)))
            },
            None => scan_dquote(s@.skip(start as int)) is None,
        },
{
    let n = s.len();
    let mut content = String::new();
    let mut j = start;
    while j < n
        invariant
            start <= j <= n,
            n == s@.len(),
            match scan_dquote(s@.skip(j as int)) {
                Some((c2, r)) => scan_dquote(s@.skip(start as int)) == Some((content@ + c2, r)),
                None => scan_dquote(s@.skip(start as int)) is None,
            },
        decreases n - j,
    {
        let c = s[j];
        proof {
            assert(s@.skip(j as int).first() == c);
        }
        if c == '"' {
            proof {
                assert(s@.skip(j as int).drop_first() =~= s@.skip(j + 1 as int));
                assert(scan_dquote(s@.skip(j as int)) == Some(
                    (Seq::<char>::empty(), s@.skip(j + 1 as int)),
                ));
                assert(content@ + Seq::<char>::empty() =~= content@);
            }
            return Some((content, j + 1));
        }
        if c == '\\' {
            if j + 1 >= n {
                proof {
                    assert(s@.skip(j as int).len() == 1);
                    assert(scan_dquote(s@.skip(j as int)) is None);
                }
                return None;
            }
            let e = s[j + 1];
            let ghost cpre = content@;
            if e == '$' || e == '`' || e == '"' || e == '\\' || e == '\n' {
                crate::text::push_char(&mut content, e);
                proof {
                    assert(content@ =~= cpre + dq_escape(e));
                }
            } else {
                crate::text::push_char(&mut content, '\\');
                crate::text::push_char(&mut content, e);
                proof {
                    assert(content@ =~= cpre + dq_escape(e));
                }
            }
            proof {
                assert(s@.skip(j as int).len() >= 2);
                assert(s@.skip(j as int)[1] == e);
                assert(s@.skip(j as int).skip(2) =~= s@.skip(j + 2 as int));
                match scan_dquote(s@.skip(j + 2 as int)) {
                    Some((c2, r)) => {
                        assert(scan_dquote(s@.skip(j as int)) == Some((dq_escape(e) + c2, r)));
                        assert(cpre + (dq_escape(e) + c2) =~= content@ + c2);
                    },
                    None => {},
                }
            }
            j = j + 2;
        } else {
            let ghost cpre = content@;
            crate::text::push_char(&mut content, c);
            proof {
                assert(s@.skip(j as int).drop_first() =~= s@.skip(j + 1 as int));
                match scan_dquote(s@.skip(j + 1 as int)) {
                    Some((c2, r)) => {
                        assert(scan_dquote(s@.skip(j as int)) == Some((seq![c] + c2, r)));
                        assert(cpre + (seq![c] + c2) =~= content@ + c2);
                    },
                    None => {},
                }
            }
            j = j + 1;
        }
    }
    proof {
        assert(s@.skip(n as int) =~= Seq::<char>::empty());
    }
    None
}

/// Splits a command line into tokens the way a POSIX shell does.
///
/// Whitespace separates tokens; single quotes keep their content literal;
/// double quotes allow a backslash to escape `$`, a backtick, `"`, `\` and
/// a newline; outside quotes a backslash escapes the next character.  An
/// unterminated quote is a [`MismatchedQuotes`] error.
pub fn split(input: &str) -> (r: Result<Vec<String>, MismatchedQuotes>)
    ensures
        match r {
            Ok(ws) => spec_split(input@) == Some(ws.deep_view()),
            Err(_) => spec_split(input@) is None,
        },
{
    let s = crate::text::str_to_chars(input);
    let n = s.len();
    let mut words: Vec<String> = Vec::new();
    let mut field = String::new();
    let mut in_field = false;
    let mut i: usize = 0;
    proof {
        assert(s@.skip(0) =~= s@);
        assert(words.deep_view() =~~= Seq::<Seq<char>>::empty());
    }
    while i < n
        invariant
            n == s@.len(),
            s@ == input@,
            i <= n,
            split_rec(s@.skip(i as int), field@, in_field, words.deep_view()) == spec_split(
                input@,
            ),
        decreases n - i,
    {
        let c = s[i];
        proof {
            assert(s@.skip(i as int).first() == c);
        }
        if c == ' ' || c == '\t' || c == '\n' || c == '\r' || c == '\u{b}' || c == '\u{c}' {
            proof {
                assert(is_shell_space(c));
                assert(s@.skip(i as int).drop_first() =~= s@.skip(i + 1 as int));
            }
            if in_field {
                let ghost dv = words.deep_view();
                let ghost fv = field@;
                words.push(field);
                field = String::new();
                in_field = false;
                proof {
                    assert(words.deep_view() =~~= dv.push(fv));
                }
            }
            i = i + 1;
        } else if c == '\'' {
            proof {
                assert(!is_shell_space(c));
                assert(s@.skip(i as int).drop_first() =~= s@.skip(i + 1 as int));
            }
            match scan_squote_exec(&s, i + 1) {
                Some((content, j)) => {
                    proof {
                        assert(s@.skip(j as int).len() < s@.skip(i as int).len());
                    }
                    field.append(content.as_str());
                    in_field = true;
                    i = j;
                },
                None => {
                    return Err(MismatchedQuotes);
                },
            }
        } else if c == '"' {
            proof {
                assert(!is_shell_space(c));
                assert(s@.skip(i as int).drop_first() =~= s@.skip(i + 1 as int));
            }
            match scan_dquote_exec(&s, i + 1) {
                Some((content, j)) => {
                    proof {
                        assert(s@.skip(j as int).len() < s@.skip(i as int).len());
                    }
                    field.append(content.as_str());
                    in_field = true;
                    i = j;
                },
                None => {
                    return Err(MismatchedQuotes);
                },
            }
        } else if c == '\\' {
            proof {
                assert(!is_shell_space(c));
            }
            if i + 1 < n {
                let e = s[i + 1];
                crate::text::push_char(&mut field, e);
                proof {
                    assert(s@.skip(i as int).len() >= 2);
                    assert(s@.skip(i as int)[1] == e);
                    assert(s@.skip(i as int).skip(2) =~= s@.skip(i + 2 as int));
                }
                in_field = true;
                i = i + 2;
            } else {
                crate::text::push_char(&mut field, '\\');
                proof {
                    assert(s@.skip(i as int).len() == 1);
                    assert(s@.skip(i as int).drop_first() =~= s@.skip(i + 1 as int));
                }
                in_field = true;
                i = i + 1;
            }
        } else {
            proof {
                assert(!is_shell_space(c));
                assert(s@.skip(i as int).drop_first() =~= s@.skip(i + 1 as int));
            }
            crate::text::push_char(&mut field, c);
            in_field = true;
            i = i + 1;
        }
    }
    proof {
        assert(s@.skip(n as int) =~= Seq::<char>::empty());
    }
    if in_field {
        let ghost dv = words.deep_view();
        let ghost fv = field@;
        words.push(field);
        proof {
            assert(words.deep_view() =~~= dv.push(fv));
        }
    }
    Ok(words)
}

} // verus!
