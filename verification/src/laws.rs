//! The laws of the lexer, proved from the grammar.
//!
//! The public proof functions at the end of this module state the
//! properties a user of the library may rely on: a line of nothing but
//! horizontal whitespace and semicolons parses to the empty sequence; a
//! properly quoted line written by [`crate::quoting`] parses back to
//! exactly the operations it was written from; and re-quoting a parse
//! result and parsing it again reproduces that result.

use crate::grammar::is_hspace;
use crate::grammar::is_token_sep;
use crate::grammar::expand_escape;
use crate::grammar::lemma_parse_ops_nonempty;
use crate::grammar::lemma_parse_semi_sep_bounds;
use crate::grammar::parse_operation;
use crate::grammar::parse_operation_more;
use crate::grammar::parse_operation_sequence;
use crate::grammar::parse_quoted;
use crate::grammar::parse_quoted_body;
use crate::grammar::parse_semi_sep;
use crate::grammar::parse_sep_run1;
use crate::grammar::parse_sequence;
use crate::grammar::parse_sequence_more;
use crate::grammar::parse_token;
use crate::grammar::parse_unquoted;
use crate::grammar::skip_hspace;
use crate::grammar::skip_sep_run;
use crate::grammar::skip_spaces;
use crate::grammar::unquoted_end;
use crate::quoting::escape_body;
use crate::quoting::escape_char;
use crate::quoting::needs_quoting;
use crate::quoting::quote_operation;
use crate::quoting::quote_ops_rest;
use crate::quoting::quote_sequence;
use crate::quoting::quote_token;
use crate::quoting::quote_tokens_rest;
use vstd::prelude::*;

verus! {

/// What the whitespace scanner passes over and where it stops.
proof fn lemma_skip_hspace_props(s: Seq<char>, i: int)
    requires
        0 <= i <= s.len(),
    ensures
        i <= skip_hspace(s, i) <= s.len(),
        forall|m: int| i <= m < skip_hspace(s, i) ==> is_hspace(#[trigger] s[m]),
        skip_hspace(s, i) == s.len() || !is_hspace(s[skip_hspace(s, i)]),
    decreases s.len() - i,
{
    if i < s.len() && is_hspace(s[i]) {
        lemma_skip_hspace_props(s, i + 1);
    }
}

/// The whitespace scanner stops exactly at the first non-blank.
proof fn lemma_skip_hspace_exact(s: Seq<char>, i: int, e: int)
    requires
        0 <= i <= e <= s.len(),
        forall|m: int| i <= m < e ==> is_hspace(#[trigger] s[m]),
        e == s.len() || !is_hspace(s[e]),
    ensures
        skip_hspace(s, i) == e,
    decreases e - i,
{
    if i < e {
        lemma_skip_hspace_exact(s, i + 1, e);
    }
}

/// The space scanner stops exactly at the first non-space.
proof fn lemma_skip_spaces_exact(s: Seq<char>, i: int, e: int)
    requires
        0 <= i <= e <= s.len(),
        forall|m: int| i <= m < e ==> #[trigger] s[m] == ' ',
        e == s.len() || s[e] != ' ',
    ensures
        skip_spaces(s, i) == e,
    decreases e - i,
{
    if i < e {
        lemma_skip_spaces_exact(s, i + 1, e);
    }
}

/// The bare-token scanner stops exactly at the first space or semicolon.
proof fn lemma_unquoted_end_exact(s: Seq<char>, i: int, e: int)
    requires
        0 <= i <= e <= s.len(),
        forall|m: int| i <= m < e ==> !is_token_sep(#[trigger] s[m]),
        e == s.len() || is_token_sep(s[e]),
    ensures
        unquoted_end(s, i) == e,
    decreases e - i,
{
    if i < e {
        lemma_unquoted_end_exact(s, i + 1, e);
    }
}

/// Over a line of nothing but horizontal whitespace and semicolons, the
/// separator-run scanner followed by the whitespace scanner reaches the
/// end of the input.
proof fn lemma_sep_chars_consumed(s: Seq<char>, i: int)
    requires
        0 <= i <= s.len(),
        forall|k: int| 0 <= k < s.len() ==> is_hspace(#[trigger] s[k]) || s[k] == ';',
    ensures
        skip_hspace(s, skip_sep_run(s, i)) == s.len(),
    decreases s.len() - i,
{
    lemma_parse_semi_sep_bounds(s, i);
    match parse_semi_sep(s, i) {
        Some(j) => {
            assert(skip_sep_run(s, i) == skip_sep_run(s, j));
            lemma_sep_chars_consumed(s, j);
        },
        None => {
            assert(skip_sep_run(s, i) == i);
            lemma_skip_hspace_props(s, i);
            let a = skip_hspace(s, i);
            if a < s.len() {
                assert(!is_hspace(s[a]));
                assert(s[a] == ';');
                assert(false);
            }
        },
    }
}

/// A subrange known to hold a concatenation splits into its two parts.
proof fn lemma_subrange_split(s: Seq<char>, i: int, a: Seq<char>, b: Seq<char>)
    requires
        0 <= i,
        i + a.len() + b.len() <= s.len(),
        s.subrange(i, i + a.len() + b.len()) == a + b,
    ensures
        s.subrange(i, i + a.len()) == a,
        s.subrange(i + a.len(), i + a.len() + b.len()) == b,
{
    assert(s.subrange(i, i + a.len()) =~= a);
    assert forall|m: int| 0 <= m < b.len() implies s.subrange(
        i + a.len(),
        i + a.len() + b.len(),
    )[m] == b[m] by {
        assert(s.subrange(i, i + a.len() + b.len())[a.len() + m] == (a + b)[a.len() + m]);
        assert((a + b)[a.len() + m] == b[m]);
        assert(s.subrange(i, i + a.len() + b.len())[a.len() + m] == s[i + a.len() + m]);
        assert(s.subrange(i + a.len(), i + a.len() + b.len())[m] == s[i + a.len() + m]);
    }
    assert(s.subrange(i + a.len(), i + a.len() + b.len()) =~= b);
}

/// Parsing a quoted body at the start of its escaped serialization
/// recovers the token: the body runs to the terminator that follows the
/// serialization, expanding each escape back to the character it stood
/// for.
proof fn lemma_qbody_serialized(s: Seq<char>, i: int, t: Seq<char>)
    requires
        0 <= i,
        i + escape_body(t).len() <= s.len(),
        s.subrange(i, i + escape_body(t).len()) == escape_body(t),
        i + escape_body(t).len() == s.len() || s[i + escape_body(t).len()] == '"',
    ensures
        parse_quoted_body(s, i) == Some((t, i + escape_body(t).len())),
    decreases t.len(),
{
    let eb = escape_body(t);
    let e = i + eb.len();
    if t.len() == 0 {
        assert(t =~= Seq::<char>::empty());
        assert(parse_quoted_body(s, i) == Some((t, i)));
    } else {
        let c = t[0];
        let ec = escape_char(c);
        let rest = escape_body(t.drop_first());
        assert(eb == ec + rest);
        lemma_subrange_split(s, i, ec, rest);
        assert(s.subrange(i, i + ec.len())[0] == ec[0]);
        assert(s[i] == ec[0]);
        if c == '"' || c == '\\' {
            assert(ec == seq!['\\', c]);
            assert(s[i] == '\\');
            assert(s.subrange(i, i + 2)[1] == ec[1]);
            assert(s[i + 1] == c);
            lemma_qbody_serialized(s, i + 2, t.drop_first());
            assert(expand_escape(c) == c);
            assert(parse_quoted_body(s, i) == Some((seq![c] + t.drop_first(), e)));
            assert(seq![t[0]] + t.drop_first() =~= t);
        } else {
            assert(ec == seq![c]);
            assert(s[i] == c);
            lemma_qbody_serialized(s, i + 1, t.drop_first());
            assert(parse_quoted_body(s, i) == Some((seq![c] + t.drop_first(), e)));
            assert(seq![t[0]] + t.drop_first() =~= t);
        }
    }
}

/// Parsing a token at the start of its properly quoted serialization,
/// with a space or the end of the input after it, recovers the token and
/// stops right behind the serialization.
proof fn lemma_token_serialized(s: Seq<char>, i: int, t: Seq<char>)
    requires
        0 <= i,
        i + quote_token(t).len() <= s.len(),
        s.subrange(i, i + quote_token(t).len()) == quote_token(t),
        i + quote_token(t).len() == s.len() || s[i + quote_token(t).len()] == ' ',
    ensures
        parse_token(s, i) == Some((t, i + quote_token(t).len())),
{
    let qt = quote_token(t);
    let e = i + qt.len();
    if needs_quoting(t) {
        let eb = escape_body(t);
        assert(qt == seq!['"'] + eb + seq!['"']);
        assert(qt.len() == eb.len() + 2);
        lemma_subrange_split(s, i, seq!['"'] + eb, seq!['"']);
        lemma_subrange_split(s, i, seq!['"'], eb);
        assert(s.subrange(i, i + 1)[0] == '"');
        assert(s[i] == '"');
        assert(s.subrange(e - 1, e)[0] == '"');
        assert(s[e - 1] == '"');
        lemma_qbody_serialized(s, i + 1, t);
        assert(parse_quoted_body(s, i + 1) == Some((t, e - 1)));
        assert(e - 1 < s.len());
        assert(parse_quoted(s, i) == Some((t, e)));
        assert(parse_token(s, i) == Some((t, e)));
    } else {
        assert(qt == t);
        assert(t.len() >= 1);
        assert(forall|m: int| 0 <= m < t.len() ==> s.subrange(i, e)[m] == t[m]);
        assert(forall|m: int| i <= m < e ==> s[m] == t[m - i]);
        assert(t[0] != '"' && !is_hspace(t[0]));
        assert forall|m: int| i <= m < e implies !is_token_sep(#[trigger] s[m]) by {
            if s[m] == ' ' {
                assert(t[m - i] == ' ');
                assert(t.contains(' '));
            }
            if s[m] == ';' {
                assert(t[m - i] == ';');
                assert(t.contains(';'));
            }
        }
        assert(s[i] == t[0]);
        assert(s[i] != '"' && s[i] != ';' && s[i] != ' ');
        lemma_unquoted_end_exact(s, i, e);
        assert(parse_unquoted(s, i) == Some((s.subrange(i, e), e)));
        assert(parse_token(s, i) == Some((t, e)));
    }
}

/// What may stand right behind a serialized operation: the end of the
/// input, or the space-semicolon start of the next `" ; "` separator.
spec fn op_boundary(s: Seq<char>, e: int) -> bool {
    e == s.len() || (s[e] == ' ' && e + 1 < s.len() && s[e + 1] == ';')
}

/// A properly quoted token never starts with whitespace, a semicolon or a
/// space, and is never empty.
proof fn lemma_quote_token_head(t: Seq<char>)
    ensures
        quote_token(t).len() >= 1,
        !is_hspace(quote_token(t)[0]),
        quote_token(t)[0] != ';',
        quote_token(t)[0] != ' ',
{
    if needs_quoting(t) {
        assert(quote_token(t)[0] == '"');
    } else {
        if t[0] == ';' {
            assert(t.contains(';'));
        }
    }
}

/// A serialized operation starts with its first token's first character.
proof fn lemma_quote_operation_head(op: Seq<Seq<char>>)
    requires
        op.len() >= 1,
    ensures
        quote_operation(op).len() >= 1,
        quote_operation(op)[0] == quote_token(op[0])[0],
{
    lemma_quote_token_head(op[0]);
    assert(quote_operation(op) == quote_token(op[0]) + quote_tokens_rest(op.drop_first()));
}

/// Parsing the trailing tokens of an operation at the start of their
/// serialization — each preceded by one space — recovers them all and
/// stops at the operation boundary behind the serialization.
proof fn lemma_operation_more_serialized(s: Seq<char>, p: int, ts: Seq<Seq<char>>)
    requires
        0 <= p,
        p + quote_tokens_rest(ts).len() <= s.len(),
        s.subrange(p, p + quote_tokens_rest(ts).len()) == quote_tokens_rest(ts),
        op_boundary(s, p + quote_tokens_rest(ts).len()),
    ensures
        parse_operation_more(s, p) == (ts, p + quote_tokens_rest(ts).len()),
    decreases ts.len(),
{
    let e = p + quote_tokens_rest(ts).len();
    if ts.len() == 0 {
        assert(ts =~= Seq::<Seq<char>>::empty());
        assert(e == p);
        if p == s.len() {
            assert(skip_spaces(s, p) == p);
        } else {
            assert(s[p] == ' ' && p + 1 < s.len() && s[p + 1] == ';');
            lemma_skip_spaces_exact(s, p, p + 1);
            assert(parse_token(s, p + 1) is None);
        }
        assert(parse_operation_more(s, p) == (ts, p));
    } else {
        let t = ts[0];
        let qt = quote_token(t);
        let rest = quote_tokens_rest(ts.drop_first());
        assert(quote_tokens_rest(ts) == seq![' '] + qt + rest);
        lemma_quote_token_head(t);
        lemma_subrange_split(s, p, seq![' '] + qt, rest);
        lemma_subrange_split(s, p, seq![' '], qt);
        assert(s.subrange(p, p + 1)[0] == ' ');
        assert(s[p] == ' ');
        assert(s.subrange(p + 1, p + 1 + qt.len())[0] == qt[0]);
        assert(s[p + 1] != ' ');
        lemma_skip_spaces_exact(s, p, p + 1);
        let j = p + 1 + qt.len();
        if ts.drop_first().len() == 0 {
            assert(rest.len() == 0);
            assert(j == e);
        } else {
            assert(rest == seq![' '] + quote_token(ts.drop_first()[0]) + quote_tokens_rest(
                ts.drop_first().drop_first(),
            ));
            assert(rest[0] == ' ');
            assert(s.subrange(j, e)[0] == rest[0]);
            assert(s[j] == ' ');
        }
        lemma_token_serialized(s, p + 1, t);
        lemma_operation_more_serialized(s, j, ts.drop_first());
        assert(parse_operation_more(s, p) == (seq![t] + ts.drop_first(), e));
        assert(seq![ts[0]] + ts.drop_first() =~= ts);
    }
}

/// Parsing an operation at the start of its serialization recovers it and
/// stops at the boundary behind the serialization.
proof fn lemma_operation_serialized(s: Seq<char>, i: int, op: Seq<Seq<char>>)
    requires
        0 <= i,
        op.len() >= 1,
        i + quote_operation(op).len() <= s.len(),
        s.subrange(i, i + quote_operation(op).len()) == quote_operation(op),
        op_boundary(s, i + quote_operation(op).len()),
    ensures
        parse_operation(s, i) == Some((op, i + quote_operation(op).len())),
{
    let e = i + quote_operation(op).len();
    let qt = quote_token(op[0]);
    let rest = quote_tokens_rest(op.drop_first());
    assert(quote_operation(op) == qt + rest);
    lemma_subrange_split(s, i, qt, rest);
    let j = i + qt.len();
    if op.drop_first().len() == 0 {
        assert(rest.len() == 0);
        assert(j == e);
    } else {
        assert(rest == seq![' '] + quote_token(op.drop_first()[0]) + quote_tokens_rest(
            op.drop_first().drop_first(),
        ));
        assert(rest[0] == ' ');
        assert(s.subrange(j, e)[0] == rest[0]);
        assert(s[j] == ' ');
    }
    lemma_token_serialized(s, i, op[0]);
    lemma_operation_more_serialized(s, j, op.drop_first());
    assert(parse_operation(s, i) == Some((seq![op[0]] + op.drop_first(), e)));
    assert(seq![op[0]] + op.drop_first() =~= op);
}

/// Parsing the trailing operations at the start of their serialization —
/// each preceded by `" ; "`, running to the end of the input — recovers
/// them all and consumes the whole input.
proof fn lemma_sequence_more_serialized(s: Seq<char>, p: int, ops: Seq<Seq<Seq<char>>>)
    requires
        0 <= p,
        forall|k: int| 0 <= k < ops.len() ==> (#[trigger] ops[k]).len() >= 1,
        p + quote_ops_rest(ops).len() == s.len(),
        s.subrange(p, s.len() as int) == quote_ops_rest(ops),
    ensures
        parse_sequence_more(s, p) == (ops, s.len() as int),
    decreases ops.len(),
{
    if ops.len() == 0 {
        assert(ops =~= Seq::<Seq<Seq<char>>>::empty());
        assert(p == s.len());
        assert(skip_hspace(s, p) == p);
        assert(parse_semi_sep(s, p) is None);
        assert(parse_sep_run1(s, p) is None);
        assert(parse_sequence_more(s, p) == (ops, p));
    } else {
        let op = ops[0];
        assert(op.len() >= 1);
        let qop = quote_operation(op);
        let rest = quote_ops_rest(ops.drop_first());
        assert(quote_ops_rest(ops) == seq![' ', ';', ' '] + qop + rest);
        lemma_quote_operation_head(op);
        lemma_quote_token_head(op[0]);
        lemma_subrange_split(s, p, seq![' ', ';', ' '] + qop, rest);
        lemma_subrange_split(s, p, seq![' ', ';', ' '], qop);
        assert(s.subrange(p, p + 3)[0] == ' ');
        assert(s.subrange(p, p + 3)[1] == ';');
        assert(s.subrange(p, p + 3)[2] == ' ');
        assert(s[p] == ' ' && s[p + 1] == ';' && s[p + 2] == ' ');
        assert(s.subrange(p + 3, p + 3 + qop.len())[0] == qop[0]);
        assert(!is_hspace(s[p + 3]) && s[p + 3] != ';');
        lemma_skip_hspace_exact(s, p, p + 1);
        lemma_skip_hspace_exact(s, p + 2, p + 3);
        assert(parse_semi_sep(s, p) == Some(p + 3));
        assert(skip_hspace(s, p + 3) == p + 3) by {
            lemma_skip_hspace_exact(s, p + 3, p + 3);
        }
        assert(parse_semi_sep(s, p + 3) is None);
        assert(skip_sep_run(s, p + 3) == p + 3);
        assert(parse_sep_run1(s, p) == Some(p + 3));
        let e1 = p + 3 + qop.len();
        if ops.drop_first().len() == 0 {
            assert(rest.len() == 0);
            assert(e1 == s.len());
        } else {
            assert(rest == seq![' ', ';', ' '] + quote_operation(ops.drop_first()[0])
                + quote_ops_rest(ops.drop_first().drop_first()));
            assert(s.subrange(e1, s.len() as int)[0] == rest[0]);
            assert(s.subrange(e1, s.len() as int)[1] == rest[1]);
            assert(s[e1] == ' ' && s[e1 + 1] == ';');
        }
        lemma_operation_serialized(s, p + 3, op);
        assert forall|k: int| 0 <= k < ops.drop_first().len() implies (#[trigger] ops.drop_first()[k]).len()
            >= 1 by {
            assert(ops.drop_first()[k] == ops[k + 1]);
        }
        lemma_sequence_more_serialized(s, e1, ops.drop_first());
        assert(parse_sequence_more(s, p) == (seq![op] + ops.drop_first(), s.len() as int));
        assert(seq![ops[0]] + ops.drop_first() =~= ops);
    }
}

/// LAW. Writing any sequence of non-empty operations back as one properly
/// quoted line and parsing that line recovers exactly the sequence that
/// was written: quoting round-trips through the lexer.
pub proof fn lemma_quote_round_trip(ops: Seq<Seq<Seq<char>>>)
    requires
        forall|k: int| 0 <= k < ops.len() ==> (#[trigger] ops[k]).len() >= 1,
    ensures
        parse_operation_sequence(quote_sequence(ops)) == Some(ops),
{
    let s = quote_sequence(ops);
    if ops.len() == 0 {
        assert(ops =~= Seq::<Seq<Seq<char>>>::empty());
        assert(s.len() == 0);
        assert(skip_hspace(s, 0) == 0);
        assert(parse_semi_sep(s, 0) is None);
        assert(skip_sep_run(s, 0) == 0);
        assert(parse_token(s, 0) is None);
        assert(parse_operation(s, 0) is None);
        assert(parse_sequence(s, 0) == (Seq::<Seq<Seq<char>>>::empty(), 0int));
        assert(parse_operation_sequence(s) == Some(Seq::<Seq<Seq<char>>>::empty()));
    } else {
        let op = ops[0];
        assert(op.len() >= 1);
        let qop = quote_operation(op);
        let rest = quote_ops_rest(ops.drop_first());
        assert(s == qop + rest);
        assert(s.subrange(0, s.len() as int) =~= qop + rest);
        lemma_subrange_split(s, 0, qop, rest);
        lemma_quote_operation_head(op);
        lemma_quote_token_head(op[0]);
        assert(s.subrange(0, qop.len() as int)[0] == qop[0]);
        assert(!is_hspace(s[0]) && s[0] != ';');
        lemma_skip_hspace_exact(s, 0, 0);
        assert(parse_semi_sep(s, 0) is None);
        assert(skip_sep_run(s, 0) == 0);
        let e0 = qop.len() as int;
        if ops.drop_first().len() == 0 {
            assert(rest.len() == 0);
            assert(e0 == s.len());
        } else {
            assert(rest == seq![' ', ';', ' '] + quote_operation(ops.drop_first()[0])
                + quote_ops_rest(ops.drop_first().drop_first()));
            assert(s.subrange(e0, s.len() as int)[0] == rest[0]);
            assert(s.subrange(e0, s.len() as int)[1] == rest[1]);
            assert(s[e0] == ' ' && s[e0 + 1] == ';');
        }
        lemma_operation_serialized(s, 0, op);
        assert forall|k: int| 0 <= k < ops.drop_first().len() implies (#[trigger] ops.drop_first()[k]).len()
            >= 1 by {
            assert(ops.drop_first()[k] == ops[k + 1]);
        }
        lemma_sequence_more_serialized(s, e0, ops.drop_first());
        assert(parse_sequence(s, 0) == (seq![op] + ops.drop_first(), s.len() as int));
        assert(seq![ops[0]] + ops.drop_first() =~= ops);
        assert(skip_hspace(s, s.len() as int) == s.len());
        assert(parse_semi_sep(s, s.len() as int) is None);
        assert(skip_sep_run(s, s.len() as int) == s.len());
        assert(parse_operation_sequence(s) == Some(ops));
    }
}

/// LAW. Idempotence: when a line parses to some sequence of operations,
/// writing that sequence back as a properly quoted line and parsing it
/// again yields the same sequence.
pub proof fn lemma_tokenize_idempotent(s: Seq<char>, ops: Seq<Seq<Seq<char>>>)
    requires
        parse_operation_sequence(s) == Some(ops),
    ensures
        parse_operation_sequence(quote_sequence(ops)) == Some(ops),
{
    lemma_parse_ops_nonempty(s, ops);
    lemma_quote_round_trip(ops);
}

/// LAW. A line consisting of nothing but horizontal whitespace and
/// semicolons — in any number, in any arrangement, the empty line
/// included — parses successfully to the empty operation sequence.
pub proof fn lemma_separators_only_parse_empty(s: Seq<char>)
    requires
        forall|k: int| 0 <= k < s.len() ==> is_hspace(#[trigger] s[k]) || s[k] == ';',
    ensures
        parse_operation_sequence(s) == Some(Seq::<Seq<Seq<char>>>::empty()),
{
    lemma_sep_chars_consumed(s, 0);
    let a = skip_hspace(s, skip_sep_run(s, 0));
    assert(a == s.len());
    assert(parse_token(s, a) is None);
    assert(parse_operation(s, a) is None);
    assert(parse_sequence(s, a) == (Seq::<Seq<Seq<char>>>::empty(), a));
    assert(parse_semi_sep(s, a) is None) by {
        lemma_skip_hspace_props(s, a);
    }
    assert(skip_sep_run(s, a) == a);
    assert(skip_hspace(s, a) == a);
}

} // verus!
