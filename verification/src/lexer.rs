//! The executable lexer, proved to agree with the grammar.
//!
//! Each function returns exactly what the corresponding spec function of
//! [`crate::grammar`] says: the scanners return the same index, the token,
//! operation and sequence lexers the same parsed value and the same resume
//! index. The public entry point ties everything together over the view of
//! its input string.

use crate::grammar::expand_escape;
use crate::grammar::is_hspace;
use crate::grammar::is_token_sep;
use crate::grammar::lemma_parse_ops_nonempty;
use crate::grammar::lemma_parse_semi_sep_bounds;
use crate::grammar::lemma_parse_sep_run1_bounds;
use crate::grammar::lemma_parse_token_bounds;
use crate::grammar::lemma_parse_operation_bounds;
use crate::grammar::parse_operation;
use crate::grammar::parse_operation_more;
use crate::grammar::parse_operation_sequence;
use crate::grammar::parse_quoted;
use crate::grammar::parse_quoted_body;
use crate::grammar::parse_semi_sep;
use crate::grammar::parse_sep_run1;
use crate::grammar::parse_sequence;
use crate::grammar::parse_sequence_more;
use crate::grammar::parse_token;
use crate::grammar::parse_unquoted;
use crate::grammar::skip_hspace;
use crate::grammar::skip_sep_run;
use crate::grammar::skip_spaces;
use crate::grammar::unquoted_end;
use vstd::prelude::*;
use vstd::string::StrSliceExecFns;
use vstd::string::StringExecFns;

verus! {

/// The view of a token lexer's result in the grammar's terms.
pub open spec fn token_view(r: Option<(String, usize)>) -> Option<(Seq<char>, int)> {
    match r {
        Some((t, j)) => Some((t@, j as int)),
        None => None,
    }
}

/// The view of an operation lexer's result in the grammar's terms.
pub open spec fn operation_view(r: Option<(Vec<String>, usize)>) -> Option<(Seq<Seq<char>>, int)> {
    match r {
        Some((op, j)) => Some((op.deep_view(), j as int)),
        None => None,
    }
}

/// The view of a separator lexer's result in the grammar's terms.
pub open spec fn index_view(r: Option<usize>) -> Option<int> {
    match r {
        Some(j) => Some(j as int),
        None => None,
    }
}

/// A quoted-token body already read, put in front of the rest of the body.
pub open spec fn qbody_with_prefix(pre: Seq<char>, r: Option<(Seq<char>, int)>) -> Option<
    (Seq<char>, int),
> {
    match r {
        Some((t, j)) => Some((pre + t, j)),
        None => None,
    }
}

/// Relies on std's `String::push`: appends the given character to the end
/// of this string.
#[verifier::external_body]
pub(crate) fn push_char(s: &mut String, c: char)
    ensures
        final(s)@ == old(s)@.push(c),
{
    s.push(c);
}

/// The characters of a string slice, collected into a vector.
fn read_chars(s: &str) -> (v: Vec<char>)
    ensures
        v@ == s@,
{
    let n = s.unicode_len();
    let mut v: Vec<char> = Vec::new();
    let mut i: usize = 0;
    while i < n
        invariant
            i <= n,
            n == s@.len(),
            v@ == s@.subrange(0, i as int),
        decreases n - i,
    {
        let c = s.get_char(i);
        v.push(c);
        proof {
            assert(v@ =~= s@.subrange(0, i as int + 1));
        }
        i = i + 1;
    }
    proof {
        assert(v@ =~= s@);
    }
    v
}

/// First index at or after `i` whose character is not horizontal whitespace.
fn scan_hspace(s: &Vec<char>, i: usize) -> (j: usize)
    requires
        i <= s.len(),
    ensures
        j as int == skip_hspace(s@, i as int),
        i <= j <= s.len(),
{
    let mut j = i;
    while j < s.len() && (s[j] == ' ' || s[j] == '\t')
        invariant
            i <= j <= s.len(),
            skip_hspace(s@, i as int) == skip_hspace(s@, j as int),
        decreases s.len() - j,
    {
        proof {
            assert(is_hspace(s@[j as int]));
        }
        j = j + 1;
    }
    proof {
        assert(skip_hspace(s@, j as int) == j as int);
    }
    j
}

/// First index at or after `i` whose character is not a space.
fn scan_spaces(s: &Vec<char>, i: usize) -> (j: usize)
    requires
        i <= s.len(),
    ensures
        j as int == skip_spaces(s@, i as int),
        i <= j <= s.len(),
{
    let mut j = i;
    while j < s.len() && s[j] == ' '
        invariant
            i <= j <= s.len(),
            skip_spaces(s@, i as int) == skip_spaces(s@, j as int),
        decreases s.len() - j,
    {
        j = j + 1;
    }
    proof {
        assert(skip_spaces(s@, j as int) == j as int);
    }
    j
}

/// First index at or after `i` whose character is a space or a semicolon.
fn scan_unquoted_end(s: &Vec<char>, i: usize) -> (j: usize)
    requires
        i <= s.len(),
    ensures
        j as int == unquoted_end(s@, i as int),
        i <= j <= s.len(),
{
    let mut j = i;
    while j < s.len() && s[j] != ' ' && s[j] != ';'
        invariant
            i <= j <= s.len(),
            unquoted_end(s@, i as int) == unquoted_end(s@, j as int),
        decreases s.len() - j,
    {
        proof {
            assert(!is_token_sep(s@[j as int]));
        }
        j = j + 1;
    }
    proof {
        assert(unquoted_end(s@, j as int) == j as int);
    }
    j
}

/// A bare token: no escape expansion, bounded by the first space or
/// semicolon.
fn unquoted_token(s: &Vec<char>, i: usize) -> (r: Option<(String, usize)>)
    requires
        i <= s.len(),
    ensures
        token_view(r) == parse_unquoted(s@, i as int),
{
    if i == s.len() {
        return None;
    }
    let c = s[i];
    if c == '"' || c == ';' || c == ' ' {
        return None;
    }
    let j = scan_unquoted_end(s, i);
    let mut tok = String::from_str("");
    proof {
        reveal_strlit("");
        assert(tok@ =~= Seq::<char>::empty());
        assert(tok@ =~= s@.subrange(i as int, i as int));
    }
    let mut k = i;
    while k < j
        invariant
            i <= k <= j <= s.len(),
            tok@ == s@.subrange(i as int, k as int),
        decreases j - k,
    {
        let c2 = s[k];
        push_char(&mut tok, c2);
        proof {
            assert(tok@ =~= s@.subrange(i as int, k as int + 1));
        }
        k = k + 1;
    }
    Some((tok, j))
}

/// A quoted token: expands escapes, accepts the end of the input as an
/// implicit closing quote, fails only on a backslash that nothing follows.
fn quoted_token(s: &Vec<char>, i: usize) -> (r: Option<(String, usize)>)
    requires
        i < s.len(),
        s@[i as int] == '"',
    ensures
        token_view(r) == parse_quoted(s@, i as int),
{
    let mut tok = String::from_str("");
    proof {
        reveal_strlit("");
        assert(tok@ =~= Seq::<char>::empty());
        assert(qbody_with_prefix(tok@, parse_quoted_body(s@, i as int + 1))
            == parse_quoted_body(s@, i as int + 1));
    }
    let mut j = i + 1;
    loop
        invariant
            i < s.len(),
            s@[i as int] == '"',
            i + 1 <= j <= s.len(),
            qbody_with_prefix(tok@, parse_quoted_body(s@, j as int)) == parse_quoted_body(
                s@,
                i as int + 1,
            ),
        decreases s.len() - j,
    {
        if j == s.len() {
            proof {
                assert(parse_quoted_body(s@, j as int) == Some((Seq::<char>::empty(), j as int)));
                assert(tok@ + Seq::<char>::empty() =~= tok@);
            }
            return Some((tok, j));
        }
        let c = s[j];
        if c == '"' {
            proof {
                assert(parse_quoted_body(s@, j as int) == Some((Seq::<char>::empty(), j as int)));
                assert(tok@ + Seq::<char>::empty() =~= tok@);
            }
            return Some((tok, j + 1));
        }
        if c == '\\' {
            if j + 1 == s.len() {
                proof {
                    assert(parse_quoted_body(s@, j as int) is None);
                }
                return None;
            }
            let c2 = s[j + 1];
            let e = if c2 == 'r' {
                '\r'
            } else if c2 == 'n' {
                '\n'
            } else if c2 == 't' {
                '\t'
            } else {
                c2
            };
            let ghost pre = tok@;
            push_char(&mut tok, e);
            proof {
                assert(e == expand_escape(s@[j as int + 1]));
                assert(tok@ =~= pre + seq![e]);
                match parse_quoted_body(s@, j as int + 2) {
                    Some((t2, j2)) => {
                        assert(pre + (seq![e] + t2) =~= tok@ + t2);
                    },
                    None => {},
                }
            }
            j = j + 2;
        } else {
            let ghost pre = tok@;
            push_char(&mut tok, c);
            proof {
                assert(tok@ =~= pre + seq![c]);
                match parse_quoted_body(s@, j as int + 1) {
                    Some((t2, j2)) => {
                        assert(pre + (seq![c] + t2) =~= tok@ + t2);
                    },
                    None => {},
                }
            }
            j = j + 1;
        }
    }
}

/// One token: quoted if the input starts with a double quote, else bare.
fn token(s: &Vec<char>, i: usize) -> (r: Option<(String, usize)>)
    requires
        i <= s.len(),
    ensures
        token_view(r) == parse_token(s@, i as int),
{
    if i < s.len() && s[i] == '"' {
        quoted_token(s, i)
    } else {
        unquoted_token(s, i)
    }
}

/// One operation: one or more tokens separated by runs of spaces.
fn operation_with_args(s: &Vec<char>, i: usize) -> (r: Option<(Vec<String>, usize)>)
    requires
        i <= s.len(),
    ensures
        operation_view(r) == parse_operation(s@, i as int),
{
    match token(s, i) {
        None => None,
        Some((t, j)) => {
            proof {
                lemma_parse_token_bounds(s@, i as int);
            }
            let mut toks: Vec<String> = Vec::new();
            toks.push(t);
            let mut p = j;
            proof {
                assert(toks.deep_view() =~= seq![toks@[0]@]);
            }
            loop
                invariant
                    i <= p <= s.len(),
                    parse_operation(s@, i as int) == Some(
                        (
                            toks.deep_view() + parse_operation_more(s@, p as int).0,
                            parse_operation_more(s@, p as int).1,
                        ),
                    ),
                decreases s.len() - p,
            {
                let k = scan_spaces(s, p);
                if k == p {
                    proof {
                        assert(parse_operation_more(s@, p as int) == (
                            Seq::<Seq<char>>::empty(),
                            p as int,
                        ));
                        assert(toks.deep_view() + Seq::<Seq<char>>::empty() =~= toks.deep_view());
                    }
                    return Some((toks, p));
                }
                match token(s, k) {
                    None => {
                        proof {
                            assert(parse_operation_more(s@, p as int) == (
                                Seq::<Seq<char>>::empty(),
                                p as int,
                            ));
                            assert(toks.deep_view() + Seq::<Seq<char>>::empty() =~= toks.deep_view());
                        }
                        return Some((toks, p));
                    },
                    Some((t2, j2)) => {
                        proof {
                            lemma_parse_token_bounds(s@, k as int);
                        }
                        let ghost pre = toks.deep_view();
                        let ghost t2v = t2@;
                        toks.push(t2);
                        proof {
                            assert(toks.deep_view() =~= pre.push(t2v));
                            let (ts2, e2) = parse_operation_more(s@, j2 as int);
                            assert(parse_operation_more(s@, p as int) == (
                                seq![t2v] + ts2,
                                e2,
                            ));
                            assert(pre + (seq![t2v] + ts2) =~= toks.deep_view() + ts2);
                        }
                        p = j2;
                    },
                }
            }
        },
    }
}

/// One semicolon separator with its optional horizontal whitespace.
fn semi_sep(s: &Vec<char>, i: usize) -> (r: Option<usize>)
    requires
        i <= s.len(),
    ensures
        index_view(r) == parse_semi_sep(s@, i as int),
{
    let a = scan_hspace(s, i);
    if a < s.len() && s[a] == ';' {
        Some(scan_hspace(s, a + 1))
    } else {
        None
    }
}

/// Index after the longest run of zero or more semicolon separators.
fn scan_sep_run(s: &Vec<char>, i: usize) -> (j: usize)
    requires
        i <= s.len(),
    ensures
        j as int == skip_sep_run(s@, i as int),
        i <= j <= s.len(),
{
    let mut j = i;
    loop
        invariant
            i <= j <= s.len(),
            skip_sep_run(s@, i as int) == skip_sep_run(s@, j as int),
        decreases s.len() - j,
    {
        match semi_sep(s, j) {
            Some(j2) => {
                proof {
                    lemma_parse_semi_sep_bounds(s@, j as int);
                }
                j = j2;
            },
            None => {
                proof {
                    assert(skip_sep_run(s@, j as int) == j as int);
                }
                return j;
            },
        }
    }
}

/// A run of one or more semicolon separators.
fn sep_run1(s: &Vec<char>, i: usize) -> (r: Option<usize>)
    requires
        i <= s.len(),
    ensures
        index_view(r) == parse_sep_run1(s@, i as int),
{
    match semi_sep(s, i) {
        Some(j) => {
            proof {
                lemma_parse_semi_sep_bounds(s@, i as int);
            }
            Some(scan_sep_run(s, j))
        },
        None => None,
    }
}

/// The whole line, over a vector of characters.
fn operation_sequence(s: &Vec<char>) -> (r: Option<Vec<Vec<String>>>)
    ensures
        r.deep_view() == parse_operation_sequence(s@),
{
    let a0 = scan_sep_run(s, 0);
    let a = scan_hspace(s, a0);
    let mut ops: Vec<Vec<String>> = Vec::new();
    let mut e: usize;
    match operation_with_args(s, a) {
        None => {
            e = a;
            proof {
                assert(parse_sequence(s@, a as int) == (Seq::<Seq<Seq<char>>>::empty(), a as int));
                assert(ops.deep_view() =~= Seq::<Seq<Seq<char>>>::empty());
                assert(parse_sequence(s@, a as int) == (ops.deep_view(), e as int));
            }
        },
        Some((op, j)) => {
            proof {
                lemma_parse_operation_bounds(s@, a as int);
            }
            let ghost opv = op.deep_view();
            ops.push(op);
            e = j;
            proof {
                assert(ops.deep_view() =~= seq![opv]);
            }
            loop
                invariant
                    a <= e <= s.len(),
                    parse_sequence(s@, a as int) == (
                        ops.deep_view() + parse_sequence_more(s@, e as int).0,
                        parse_sequence_more(s@, e as int).1,
                    ),
                ensures
                    a <= e <= s.len(),
                    parse_sequence(s@, a as int) == (ops.deep_view(), e as int),
                decreases s.len() - e,
            {
                let mut advanced = false;
                match sep_run1(s, e) {
                    None => {
                        proof {
                            assert(parse_sequence_more(s@, e as int) == (
                                Seq::<Seq<Seq<char>>>::empty(),
                                e as int,
                            ));
                        }
                    },
                    Some(k) => {
                        proof {
                            lemma_parse_sep_run1_bounds(s@, e as int);
                        }
                        match operation_with_args(s, k) {
                            None => {
                                proof {
                                    assert(parse_sequence_more(s@, e as int) == (
                                        Seq::<Seq<Seq<char>>>::empty(),
                                        e as int,
                                    ));
                                }
                            },
                            Some((op2, j2)) => {
                                proof {
                                    lemma_parse_operation_bounds(s@, k as int);
                                }
                                let ghost pre = ops.deep_view();
                                let ghost op2v = op2.deep_view();
                                ops.push(op2);
                                proof {
                                    assert(ops.deep_view() =~= pre.push(op2v));
                                    let (more, e2) = parse_sequence_more(s@, j2 as int);
                                    assert(parse_sequence_more(s@, e as int) == (
                                        seq![op2v] + more,
                                        e2,
                                    ));
                                    assert(pre + (seq![op2v] + more) =~= ops.deep_view() + more);
                                }
                                e = j2;
                                advanced = true;
                            },
                        }
                    },
                }
                if !advanced {
                    proof {
                        assert(ops.deep_view() + Seq::<Seq<Seq<char>>>::empty() =~= ops.deep_view());
                    }
                    break;
                }
            }
        },
    }
    let f0 = scan_sep_run(s, e);
    let f = scan_hspace(s, f0);
    if f == s.len() {
        proof {
            assert(parse_operation_sequence(s@) == Some(ops.deep_view()));
        }
        Some(ops)
    } else {
        proof {
            assert(parse_operation_sequence(s@) is None);
        }
        None
    }
}

/// Split a semicolon-separated list of operations into a vector. Each
/// operation is a non-empty sub-vector: the first element is the name of
/// the operation, the rest of the elements are the operation's arguments.
///
/// Tokens can be double-quoted. Such tokens can contain spaces and C-like
/// escaped sequences: `\n` for newline, `\r` for carriage return, `\t` for
/// tab, `\"` for double quote, `\\` for backslash. Unsupported sequences
/// are stripped of the escaping, i.e. `\e` turns into `e`. A quoted token
/// that the end of the input leaves unterminated is implicitly closed.
///
/// This function assumes that the input string:
/// 1. doesn't contain a comment;
/// 2. doesn't contain backticks that need to be processed.
///
/// Returns `None` if the input could not be parsed, that is when the
/// grammar cannot consume the input in its entirety.
pub fn tokenize_operation_sequence(input: &str) -> (r: Option<Vec<Vec<String>>>)
    ensures
        r.deep_view() == parse_operation_sequence(input@),
        r matches Some(ops) ==> forall|k: int|
            0 <= k < ops.len() ==> (#[trigger] ops@[k])@.len() >= 1,
{
    let v = read_chars(input);
    let r = operation_sequence(&v);
    proof {
        match &r {
            Some(ops) => {
                assert(r.deep_view() == Some(ops.deep_view()));
                assert(parse_operation_sequence(input@) == Some(ops.deep_view()));
                lemma_parse_ops_nonempty(input@, ops.deep_view());
                assert forall|k: int| 0 <= k < ops.len() implies (#[trigger] ops@[k])@.len()
                    >= 1 by {
                    assert(ops.deep_view()[k].len() >= 1);
                    assert(ops.deep_view()[k] == ops@[k].deep_view());
                }
            },
            None => {},
        }
    }
    r
}

} // verus!
