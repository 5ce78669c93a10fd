//! Turning a parsed sequence back into one properly quoted line.
//!
//! A token is written bare when that is safe: when it is non-empty, does
//! not start with a double quote or horizontal whitespace, and contains no
//! space and no semicolon. Every other token — one with a space in it
//! above all — is written double-quoted, with embedded double quotes and
//! backslashes escaped. Tokens of one operation are joined by single
//! spaces, operations by `" ; "`. The laws module proves that feeding the
//! result back through the lexer reproduces the operations exactly.

use crate::grammar::is_hspace;
use crate::lexer::push_char;
use vstd::prelude::*;
use vstd::string::StrSliceExecFns;
use vstd::string::StringExecFns;

verus! {

/// How one character of a quoted token's body is written: `"` and `\` get
/// a backslash in front, everything else stands as it is.
pub open spec fn escape_char(c: char) -> Seq<char> {
    if c == '"' || c == '\\' {
        seq!['\\', c]
    } else {
        seq![c]
    }
}

/// The body of a quoted token: every character escaped as needed.
pub open spec fn escape_body(t: Seq<char>) -> Seq<char>
    decreases t.len(),
{
    if t.len() == 0 {
        Seq::empty()
    } else {
        escape_char(t[0]) + escape_body(t.drop_first())
    }
}

/// Whether a token must be written quoted to survive re-parsing: an empty
/// token, one that starts with a double quote or horizontal whitespace,
/// and one that contains a space or a semicolon anywhere.
pub open spec fn needs_quoting(t: Seq<char>) -> bool {
    t.len() == 0 || t[0] == '"' || is_hspace(t[0]) || t.contains(' ') || t.contains(';')
}

/// One token, properly quoted.
pub open spec fn quote_token(t: Seq<char>) -> Seq<char> {
    if needs_quoting(t) {
        seq!['"'] + escape_body(t) + seq!['"']
    } else {
        t
    }
}

/// The tokens of one operation after the first, each preceded by one space.
pub open spec fn quote_tokens_rest(ts: Seq<Seq<char>>) -> Seq<char>
    decreases ts.len(),
{
    if ts.len() == 0 {
        Seq::empty()
    } else {
        seq![' '] + quote_token(ts[0]) + quote_tokens_rest(ts.drop_first())
    }
}

/// One operation: its tokens, space-separated.
pub open spec fn quote_operation(op: Seq<Seq<char>>) -> Seq<char> {
    if op.len() == 0 {
        Seq::empty()
    } else {
        quote_token(op[0]) + quote_tokens_rest(op.drop_first())
    }
}

/// The operations after the first, each preceded by `" ; "`.
pub open spec fn quote_ops_rest(ops: Seq<Seq<Seq<char>>>) -> Seq<char>
    decreases ops.len(),
{
    if ops.len() == 0 {
        Seq::empty()
    } else {
        seq![' ', ';', ' '] + quote_operation(ops[0]) + quote_ops_rest(ops.drop_first())
    }
}

/// A whole sequence of operations, joined by `" ; "`.
pub open spec fn quote_sequence(ops: Seq<Seq<Seq<char>>>) -> Seq<char> {
    if ops.len() == 0 {
        Seq::empty()
    } else {
        quote_operation(ops[0]) + quote_ops_rest(ops.drop_first())
    }
}

/// Escaping one more character extends the escaped body at its end.
pub proof fn lemma_escape_body_snoc(t: Seq<char>, c: char)
    ensures
        escape_body(t.push(c)) == escape_body(t) + escape_char(c),
    decreases t.len(),
{
    if t.len() == 0 {
        assert(t.push(c)[0] == c);
        assert(t.push(c).drop_first() =~= t);
        assert(escape_char(c) + Seq::<char>::empty() =~= escape_char(c));
        assert(escape_body(t) + escape_char(c) =~= escape_char(c));
    } else {
        assert(t.push(c)[0] == t[0]);
        assert(t.push(c).drop_first() =~= t.drop_first().push(c));
        lemma_escape_body_snoc(t.drop_first(), c);
        assert(escape_char(t[0]) + (escape_body(t.drop_first()) + escape_char(c)) =~= (escape_char(
            t[0],
        ) + escape_body(t.drop_first())) + escape_char(c));
    }
}

/// Quoting one more trailing token extends the written line at its end.
pub proof fn lemma_quote_tokens_rest_snoc(ts: Seq<Seq<char>>, t: Seq<char>)
    ensures
        quote_tokens_rest(ts.push(t)) == quote_tokens_rest(ts) + (seq![' '] + quote_token(t)),
    decreases ts.len(),
{
    if ts.len() == 0 {
        assert(ts.push(t)[0] == t);
        assert(ts.push(t).drop_first() =~= ts);
        assert(seq![' '] + quote_token(t) + Seq::<char>::empty() =~= seq![' '] + quote_token(t));
        assert(quote_tokens_rest(ts) + (seq![' '] + quote_token(t)) =~= seq![' '] + quote_token(t));
    } else {
        assert(ts.push(t)[0] == ts[0]);
        assert(ts.push(t).drop_first() =~= ts.drop_first().push(t));
        lemma_quote_tokens_rest_snoc(ts.drop_first(), t);
        assert(seq![' '] + quote_token(ts[0]) + (quote_tokens_rest(ts.drop_first()) + (seq![' ']
            + quote_token(t))) =~= (seq![' '] + quote_token(ts[0]) + quote_tokens_rest(
            ts.drop_first(),
        )) + (seq![' '] + quote_token(t)));
    }
}

/// Quoting one more trailing operation extends the written line at its end.
pub proof fn lemma_quote_ops_rest_snoc(ops: Seq<Seq<Seq<char>>>, op: Seq<Seq<char>>)
    ensures
        quote_ops_rest(ops.push(op)) == quote_ops_rest(ops) + (seq![' ', ';', ' ']
            + quote_operation(op)),
    decreases ops.len(),
{
    if ops.len() == 0 {
        assert(ops.push(op)[0] == op);
        assert(ops.push(op).drop_first() =~= ops);
        assert(seq![' ', ';', ' '] + quote_operation(op) + Seq::<char>::empty() =~= seq![
            ' ',
            ';',
            ' ',
        ] + quote_operation(op));
        assert(quote_ops_rest(ops) + (seq![' ', ';', ' '] + quote_operation(op)) =~= seq![
            ' ',
            ';',
            ' ',
        ] + quote_operation(op));
    } else {
        assert(ops.push(op)[0] == ops[0]);
        assert(ops.push(op).drop_first() =~= ops.drop_first().push(op));
        lemma_quote_ops_rest_snoc(ops.drop_first(), op);
        assert(seq![' ', ';', ' '] + quote_operation(ops[0]) + (quote_ops_rest(ops.drop_first())
            + (seq![' ', ';', ' '] + quote_operation(op))) =~= (seq![' ', ';', ' ']
            + quote_operation(ops[0]) + quote_ops_rest(ops.drop_first())) + (seq![' ', ';', ' ']
            + quote_operation(op)));
    }
}

/// Whether this token must be written quoted.
fn token_needs_quoting(t: &str) -> (b: bool)
    ensures
        b == needs_quoting(t@),
{
    let n = t.unicode_len();
    if n == 0 {
        return true;
    }
    let c0 = t.get_char(0);
    if c0 == '"' || c0 == ' ' || c0 == '\t' {
        return true;
    }
    let mut k: usize = 0;
    while k < n
        invariant
            n == t@.len(),
            k <= n,
            forall|m: int| 0 <= m < k ==> t@[m] != ' ' && t@[m] != ';',
        decreases n - k,
    {
        let c = t.get_char(k);
        if c == ' ' || c == ';' {
            proof {
                assert(t@[k as int] == c);
            }
            return true;
        }
        k = k + 1;
    }
    proof {
        assert(!t@.contains(' '));
        assert(!t@.contains(';'));
    }
    false
}

/// Appends the escaped body of `t` to `out`.
fn append_escaped(out: &mut String, t: &str)
    ensures
        final(out)@ == old(out)@ + escape_body(t@),
{
    let n = t.unicode_len();
    let mut k: usize = 0;
    proof {
        assert(t@.take(0) =~= Seq::<char>::empty());
        assert(out@ + escape_body(t@.take(0)) =~= out@);
    }
    while k < n
        invariant
            n == t@.len(),
            k <= n,
            out@ == old(out)@ + escape_body(t@.take(k as int)),
        decreases n - k,
    {
        let c = t.get_char(k);
        let ghost pre = out@;
        if c == '"' || c == '\\' {
            push_char(out, '\\');
            push_char(out, c);
        } else {
            push_char(out, c);
        }
        proof {
            assert(out@ =~= pre + escape_char(t@[k as int]));
            lemma_escape_body_snoc(t@.take(k as int), t@[k as int]);
            assert(t@.take(k as int + 1) =~= t@.take(k as int).push(t@[k as int]));
            assert(old(out)@ + (escape_body(t@.take(k as int)) + escape_char(t@[k as int])) =~= (old(
                out,
            )@ + escape_body(t@.take(k as int))) + escape_char(t@[k as int]));
        }
        k = k + 1;
    }
    proof {
        assert(t@.take(n as int) =~= t@);
    }
}

/// Appends the characters of `t` to `out` unchanged.
fn append_plain(out: &mut String, t: &str)
    ensures
        final(out)@ == old(out)@ + t@,
{
    let n = t.unicode_len();
    let mut k: usize = 0;
    proof {
        assert(out@ + t@.take(0) =~= out@);
    }
    while k < n
        invariant
            n == t@.len(),
            k <= n,
            out@ == old(out)@ + t@.take(k as int),
        decreases n - k,
    {
        let c = t.get_char(k);
        push_char(out, c);
        proof {
            assert(out@ =~= old(out)@ + t@.take(k as int + 1));
        }
        k = k + 1;
    }
    proof {
        assert(t@.take(n as int) =~= t@);
    }
}

/// Appends one properly quoted token to `out`.
fn append_quote_token(out: &mut String, t: &String)
    ensures
        final(out)@ == old(out)@ + quote_token(t@),
{
    if token_needs_quoting(t.as_str()) {
        push_char(out, '"');
        let ghost mid = out@;
        append_escaped(out, t.as_str());
        push_char(out, '"');
        proof {
            assert(mid =~= old(out)@ + seq!['"']);
            assert(out@ =~= (mid + escape_body(t@)) + seq!['"']);
            assert(out@ =~= old(out)@ + (seq!['"'] + escape_body(t@) + seq!['"']));
        }
    } else {
        append_plain(out, t.as_str());
    }
}

/// Appends one operation, its tokens space-separated, to `out`.
fn append_operation(out: &mut String, op: &Vec<String>)
    requires
        op@.len() >= 1,
    ensures
        final(out)@ == old(out)@ + quote_operation(op.deep_view()),
{
    let ghost dv = op.deep_view();
    append_quote_token(out, &op[0]);
    proof {
        assert(dv[0] == op@[0]@);
        assert(dv.subrange(1, 1) =~= Seq::<Seq<char>>::empty());
        assert(out@ + quote_tokens_rest(dv.subrange(1, 1)) =~= out@);
    }
    let mut k: usize = 1;
    while k < op.len()
        invariant
            1 <= k <= op.len(),
            dv == op.deep_view(),
            dv.len() == op@.len(),
            out@ == old(out)@ + (quote_token(dv[0]) + quote_tokens_rest(dv.subrange(1, k as int))),
        decreases op.len() - k,
    {
        push_char(out, ' ');
        let ghost mid = out@;
        append_quote_token(out, &op[k]);
        proof {
            assert(dv[k as int] == op@[k as int]@);
            lemma_quote_tokens_rest_snoc(dv.subrange(1, k as int), dv[k as int]);
            assert(dv.subrange(1, k as int + 1) =~= dv.subrange(1, k as int).push(dv[k as int]));
            assert(mid =~= old(out)@ + (quote_token(dv[0]) + quote_tokens_rest(
                dv.subrange(1, k as int),
            )) + seq![' ']);
            assert(out@ =~= mid + quote_token(dv[k as int]));
            assert(out@ =~= old(out)@ + (quote_token(dv[0]) + quote_tokens_rest(
                dv.subrange(1, k as int + 1),
            )));
        }
        k = k + 1;
    }
    proof {
        assert(dv.subrange(1, op@.len() as int) =~= dv.drop_first());
        assert(quote_operation(dv) == quote_token(dv[0]) + quote_tokens_rest(dv.drop_first()));
    }
}

/// Writes a parsed operation sequence back as one line: tokens properly
/// quoted and space-separated, operations joined by `" ; "`. Feeding the
/// result back through the lexer reproduces the operations exactly; the
/// laws module proves it.
pub fn quote_operation_sequence(ops: &Vec<Vec<String>>) -> (r: String)
    requires
        forall|k: int| 0 <= k < ops@.len() ==> (#[trigger] ops@[k])@.len() >= 1,
    ensures
        r@ == quote_sequence(ops.deep_view()),
{
    let ghost dv = ops.deep_view();
    let mut out = String::from_str("");
    proof {
        reveal_strlit("");
        assert(out@ =~= Seq::<char>::empty());
    }
    if ops.len() == 0 {
        proof {
            assert(quote_sequence(dv) == Seq::<char>::empty());
        }
        return out;
    }
    append_operation(&mut out, &ops[0]);
    proof {
        assert(dv[0] == ops@[0].deep_view());
        assert(out@ =~= quote_operation(dv[0]));
        assert(dv.subrange(1, 1) =~= Seq::<Seq<Seq<char>>>::empty());
        assert(out@ + quote_ops_rest(dv.subrange(1, 1)) =~= out@);
    }
    let mut k: usize = 1;
    while k < ops.len()
        invariant
            1 <= k <= ops.len(),
            dv == ops.deep_view(),
            dv.len() == ops@.len(),
            forall|m: int| 0 <= m < ops@.len() ==> (#[trigger] ops@[m])@.len() >= 1,
            out@ == quote_operation(dv[0]) + quote_ops_rest(dv.subrange(1, k as int)),
        decreases ops.len() - k,
    {
        push_char(&mut out, ' ');
        push_char(&mut out, ';');
        push_char(&mut out, ' ');
        let ghost mid = out@;
        append_operation(&mut out, &ops[k]);
        proof {
            assert(dv[k as int] == ops@[k as int].deep_view());
            lemma_quote_ops_rest_snoc(dv.subrange(1, k as int), dv[k as int]);
            assert(dv.subrange(1, k as int + 1) =~= dv.subrange(1, k as int).push(dv[k as int]));
            assert(mid =~= (quote_operation(dv[0]) + quote_ops_rest(dv.subrange(1, k as int)))
                + seq![' ', ';', ' ']);
            assert(out@ =~= mid + quote_operation(dv[k as int]));
            assert(out@ =~= quote_operation(dv[0]) + quote_ops_rest(dv.subrange(1, k as int + 1)));
        }
        k = k + 1;
    }
    proof {
        assert(dv.subrange(1, ops@.len() as int) =~= dv.drop_first());
        assert(quote_sequence(dv) == quote_operation(dv[0]) + quote_ops_rest(dv.drop_first()));
    }
    out
}

} // verus!
