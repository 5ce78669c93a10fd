//! The grammar, stated as spec functions.
//!
//! Every function here is a deterministic, greedy recursive-descent parser
//! over a sequence of characters `s` and a start index `i`. A parser either
//! fails or returns the parsed value together with the index of the first
//! character it did not consume. The executable lexer is proved to agree
//! with these definitions exactly.
//!
//! Layering, leaves first:
//! - a token is either double-quoted (escape sequences expanded, and an
//!   unterminated quote is implicitly closed at end of input) or a bare word
//!   bounded by the first space or semicolon;
//! - an operation is one or more tokens separated by runs of spaces;
//! - a sequence is zero or more operations separated by runs of semicolon
//!   separators (a semicolon with optional horizontal whitespace around it),
//!   with leading and trailing separator runs and horizontal whitespace
//!   discarded;
//! - the whole input must be consumed, else the parse fails.

use vstd::prelude::*;

verus! {

/// Horizontal whitespace: what may surround a semicolon separator.
pub open spec fn is_hspace(c: char) -> bool {
    c == ' ' || c == '\t'
}

/// A character that ends a bare (unquoted) token.
pub open spec fn is_token_sep(c: char) -> bool {
    c == ' ' || c == ';'
}

/// Index of the first character at or after `i` that is not horizontal
/// whitespace.
pub open spec fn skip_hspace(s: Seq<char>, i: int) -> int
    decreases s.len() - i,
{
    if i < s.len() && is_hspace(s[i]) {
        skip_hspace(s, i + 1)
    } else {
        i
    }
}

/// Index of the first character at or after `i` that is not a space.
pub open spec fn skip_spaces(s: Seq<char>, i: int) -> int
    decreases s.len() - i,
{
    if i < s.len() && s[i] == ' ' {
        skip_spaces(s, i + 1)
    } else {
        i
    }
}

/// Index of the first character at or after `i` that is a space or a
/// semicolon; the end of a bare token that starts at `i`.
pub open spec fn unquoted_end(s: Seq<char>, i: int) -> int
    decreases s.len() - i,
{
    if i < s.len() && !is_token_sep(s[i]) {
        unquoted_end(s, i + 1)
    } else {
        i
    }
}

/// What a backslash-prefixed character inside a quoted token expands to:
/// `r`, `n` and `t` become carriage return, newline and tab; any other
/// character (`"` and `\` included) passes through unmodified, dropping
/// only the backslash.
pub open spec fn expand_escape(c: char) -> char {
    if c == 'r' {
        '\r'
    } else if c == 'n' {
        '\n'
    } else if c == 't' {
        '\t'
    } else {
        c
    }
}

/// Body of a quoted token, starting just after the opening quote. Returns
/// the expanded body and the index of its terminator: either the closing
/// quote or the end of the input. Fails only when a backslash is the last
/// character of the input.
pub open spec fn parse_quoted_body(s: Seq<char>, i: int) -> Option<(Seq<char>, int)>
    decreases s.len() - i,
{
    if i >= s.len() || s[i] == '"' {
        Some((Seq::empty(), i))
    } else if s[i] == '\\' {
        if i + 1 >= s.len() {
            None
        } else {
            match parse_quoted_body(s, i + 2) {
                Some((t, j)) => Some((seq![expand_escape(s[i + 1])] + t, j)),
                None => None,
            }
        }
    } else {
        match parse_quoted_body(s, i + 1) {
            Some((t, j)) => Some((seq![s[i]] + t, j)),
            None => None,
        }
    }
}

/// A quoted token: a double quote, a body with escape expansion, and a
/// closing double quote — or the end of the input, which implicitly closes
/// the token.
pub open spec fn parse_quoted(s: Seq<char>, i: int) -> Option<(Seq<char>, int)> {
    if i < s.len() && s[i] == '"' {
        match parse_quoted_body(s, i + 1) {
            Some((t, j)) => if j >= s.len() {
                Some((t, j))
            } else {
                Some((t, j + 1))
            },
            None => None,
        }
    } else {
        None
    }
}

/// A bare token: a character that is neither `"`, `;` nor a space, extended
/// by the longest run of characters that are neither a space nor `;`. No
/// escape expansion happens outside quotes.
pub open spec fn parse_unquoted(s: Seq<char>, i: int) -> Option<(Seq<char>, int)> {
    if i < s.len() && s[i] != '"' && s[i] != ';' && s[i] != ' ' {
        let j = unquoted_end(s, i);
        Some((s.subrange(i, j), j))
    } else {
        None
    }
}

/// One token: quoted if the input starts with a double quote, else bare.
pub open spec fn parse_token(s: Seq<char>, i: int) -> Option<(Seq<char>, int)> {
    if i < s.len() && s[i] == '"' {
        parse_quoted(s, i)
    } else {
        parse_unquoted(s, i)
    }
}

/// Bounds of the whitespace scanners.
pub proof fn lemma_skip_hspace_bounds(s: Seq<char>, i: int)
    requires
        0 <= i <= s.len(),
    ensures
        i <= skip_hspace(s, i) <= s.len(),
    decreases s.len() - i,
{
    if i < s.len() && is_hspace(s[i]) {
        lemma_skip_hspace_bounds(s, i + 1);
    }
}

/// Bounds of the space scanner.
pub proof fn lemma_skip_spaces_bounds(s: Seq<char>, i: int)
    requires
        0 <= i <= s.len(),
    ensures
        i <= skip_spaces(s, i) <= s.len(),
    decreases s.len() - i,
{
    if i < s.len() && s[i] == ' ' {
        lemma_skip_spaces_bounds(s, i + 1);
    }
}

/// Bounds of the bare-token scanner.
pub proof fn lemma_unquoted_end_bounds(s: Seq<char>, i: int)
    requires
        0 <= i <= s.len(),
    ensures
        i <= unquoted_end(s, i) <= s.len(),
    decreases s.len() - i,
{
    if i < s.len() && !is_token_sep(s[i]) {
        lemma_unquoted_end_bounds(s, i + 1);
    }
}

/// A quoted body ends within the input, at the closing quote or at the end.
pub proof fn lemma_parse_quoted_body_bounds(s: Seq<char>, i: int)
    requires
        0 <= i <= s.len(),
    ensures
        parse_quoted_body(s, i) matches Some((t, j)) ==> i <= j <= s.len() && (j == s.len()
            || s[j] == '"'),
    decreases s.len() - i,
{
    if i >= s.len() || s[i] == '"' {
    } else if s[i] == '\\' {
        if i + 1 < s.len() {
            lemma_parse_quoted_body_bounds(s, i + 2);
        }
    } else {
        lemma_parse_quoted_body_bounds(s, i + 1);
    }
}

/// A token consumes at least one character and stays within the input.
pub proof fn lemma_parse_token_bounds(s: Seq<char>, i: int)
    requires
        0 <= i <= s.len(),
    ensures
        parse_token(s, i) matches Some((t, j)) ==> i < j <= s.len(),
{
    if i < s.len() && s[i] == '"' {
        lemma_parse_quoted_body_bounds(s, i + 1);
    } else if i < s.len() && s[i] != ';' && s[i] != ' ' {
        lemma_unquoted_end_bounds(s, i + 1);
    }
}

/// The tokens of one operation after its first token: as long as a run of
/// one or more spaces is followed by a token, that token belongs to the
/// operation; the first index not consumed this way ends the operation.
pub open spec fn parse_operation_more(s: Seq<char>, i: int) -> (Seq<Seq<char>>, int)
    decreases s.len() - i,
        when 0 <= i <= s.len()
{
    let k = skip_spaces(s, i);
    if k > i {
        match parse_token(s, k) {
            Some((t, j)) => {
                proof {
                    lemma_skip_spaces_bounds(s, i);
                    lemma_parse_token_bounds(s, k);
                }
                let (ts, e) = parse_operation_more(s, j);
                (seq![t] + ts, e)
            },
            None => (Seq::empty(), i),
        }
    } else {
        (Seq::empty(), i)
    }
}

/// One operation: one or more tokens separated by runs of spaces. The first
/// token is the operation's name, the rest are its arguments.
pub open spec fn parse_operation(s: Seq<char>, i: int) -> Option<(Seq<Seq<char>>, int)> {
    match parse_token(s, i) {
        Some((t, j)) => {
            let (ts, e) = parse_operation_more(s, j);
            Some((seq![t] + ts, e))
        },
        None => None,
    }
}

/// The trailing tokens end within the input.
pub proof fn lemma_parse_operation_more_bounds(s: Seq<char>, i: int)
    requires
        0 <= i <= s.len(),
    ensures
        i <= parse_operation_more(s, i).1 <= s.len(),
    decreases s.len() - i,
{
    let k = skip_spaces(s, i);
    lemma_skip_spaces_bounds(s, i);
    if k > i {
        match parse_token(s, k) {
            Some((t, j)) => {
                lemma_parse_token_bounds(s, k);
                lemma_parse_operation_more_bounds(s, j);
            },
            None => {},
        }
    }
}

/// An operation is non-empty, consumes at least one character, and ends
/// within the input.
pub proof fn lemma_parse_operation_bounds(s: Seq<char>, i: int)
    requires
        0 <= i <= s.len(),
    ensures
        parse_operation(s, i) matches Some((op, j)) ==> op.len() >= 1 && i < j <= s.len(),
{
    lemma_parse_token_bounds(s, i);
    match parse_token(s, i) {
        Some((t, j)) => {
            lemma_parse_operation_more_bounds(s, j);
        },
        None => {},
    }
}

/// One semicolon separator: optional horizontal whitespace, a literal `;`,
/// optional horizontal whitespace.
pub open spec fn parse_semi_sep(s: Seq<char>, i: int) -> Option<int> {
    let a = skip_hspace(s, i);
    if a < s.len() && s[a] == ';' {
        Some(skip_hspace(s, a + 1))
    } else {
        None
    }
}

/// A semicolon separator consumes at least one character and stays within
/// the input.
pub proof fn lemma_parse_semi_sep_bounds(s: Seq<char>, i: int)
    requires
        0 <= i <= s.len(),
    ensures
        parse_semi_sep(s, i) matches Some(j) ==> i < j <= s.len(),
{
    lemma_skip_hspace_bounds(s, i);
    let a = skip_hspace(s, i);
    if a < s.len() && s[a] == ';' {
        lemma_skip_hspace_bounds(s, a + 1);
    }
}

/// Index after the longest run of zero or more semicolon separators.
pub open spec fn skip_sep_run(s: Seq<char>, i: int) -> int
    decreases s.len() - i,
        when 0 <= i <= s.len()
{
    match parse_semi_sep(s, i) {
        Some(j) => {
            proof {
                lemma_parse_semi_sep_bounds(s, i);
            }
            skip_sep_run(s, j)
        },
        None => i,
    }
}

/// A separator run stays within the input.
pub proof fn lemma_skip_sep_run_bounds(s: Seq<char>, i: int)
    requires
        0 <= i <= s.len(),
    ensures
        i <= skip_sep_run(s, i) <= s.len(),
    decreases s.len() - i,
{
    lemma_parse_semi_sep_bounds(s, i);
    match parse_semi_sep(s, i) {
        Some(j) => {
            lemma_skip_sep_run_bounds(s, j);
        },
        None => {},
    }
}

/// A run of one or more semicolon separators; fails when no separator
/// starts at `i`.
pub open spec fn parse_sep_run1(s: Seq<char>, i: int) -> Option<int> {
    match parse_semi_sep(s, i) {
        Some(j) => Some(skip_sep_run(s, j)),
        None => None,
    }
}

/// A non-empty separator run consumes at least one character and stays
/// within the input.
pub proof fn lemma_parse_sep_run1_bounds(s: Seq<char>, i: int)
    requires
        0 <= i <= s.len(),
    ensures
        parse_sep_run1(s, i) matches Some(j) ==> i < j <= s.len(),
{
    lemma_parse_semi_sep_bounds(s, i);
    match parse_semi_sep(s, i) {
        Some(j) => {
            lemma_skip_sep_run_bounds(s, j);
        },
        None => {},
    }
}

/// The operations after the first one: as long as a non-empty separator run
/// is followed by an operation, that operation belongs to the sequence. A
/// separator run followed by no operation is left unconsumed here; the
/// entry point discards it as a trailing run.
pub open spec fn parse_sequence_more(s: Seq<char>, i: int) -> (Seq<Seq<Seq<char>>>, int)
    decreases s.len() - i,
        when 0 <= i <= s.len()
{
    match parse_sep_run1(s, i) {
        Some(k) => match parse_operation(s, k) {
            Some((op, j)) => {
                proof {
                    lemma_parse_sep_run1_bounds(s, i);
                    lemma_parse_operation_bounds(s, k);
                }
                let (ops, e) = parse_sequence_more(s, j);
                (seq![op] + ops, e)
            },
            None => (Seq::empty(), i),
        },
        None => (Seq::empty(), i),
    }
}

/// Zero or more operations separated by non-empty semicolon-separator runs.
/// Never fails: where no operation starts at `i`, the sequence is empty.
pub open spec fn parse_sequence(s: Seq<char>, i: int) -> (Seq<Seq<Seq<char>>>, int) {
    match parse_operation(s, i) {
        Some((op, j)) => {
            let (ops, e) = parse_sequence_more(s, j);
            (seq![op] + ops, e)
        },
        None => (Seq::empty(), i),
    }
}

/// The whole line: leading separator runs and horizontal whitespace are
/// discarded, then the operation sequence, then trailing separator runs and
/// horizontal whitespace. The parse succeeds only when this consumes every
/// character; a partial match is a failure of the whole parse, reported as
/// an absent result.
pub open spec fn parse_operation_sequence(s: Seq<char>) -> Option<Seq<Seq<Seq<char>>>> {
    let a = skip_hspace(s, skip_sep_run(s, 0));
    let (ops, e) = parse_sequence(s, a);
    let f = skip_hspace(s, skip_sep_run(s, e));
    if f == s.len() {
        Some(ops)
    } else {
        None
    }
}

/// Every operation a successful parse returns is non-empty: its first
/// element is the operation's name.
pub proof fn lemma_parse_sequence_more_ops_nonempty(s: Seq<char>, i: int)
    requires
        0 <= i <= s.len(),
    ensures
        forall|k: int|
            0 <= k < parse_sequence_more(s, i).0.len() ==> #[trigger] parse_sequence_more(
                s,
                i,
            ).0[k].len() >= 1,
    decreases s.len() - i,
{
    lemma_parse_sep_run1_bounds(s, i);
    match parse_sep_run1(s, i) {
        Some(k) => {
            lemma_parse_operation_bounds(s, k);
            match parse_operation(s, k) {
                Some((op, j)) => {
                    lemma_parse_sequence_more_ops_nonempty(s, j);
                    let (ops, e) = parse_sequence_more(s, j);
                    assert(parse_sequence_more(s, i).0 == seq![op] + ops);
                    assert forall|m: int| 0 <= m < (seq![op] + ops).len() implies (seq![op]
                        + ops)[m].len() >= 1 by {
                        if m > 0 {
                            assert((seq![op] + ops)[m] == ops[m - 1]);
                        }
                    }
                },
                None => {},
            }
        },
        None => {},
    }
}

/// Every operation a successful parse returns is non-empty.
pub proof fn lemma_parse_ops_nonempty(s: Seq<char>, ops: Seq<Seq<Seq<char>>>)
    requires
        parse_operation_sequence(s) == Some(ops),
    ensures
        forall|k: int| 0 <= k < ops.len() ==> (#[trigger] ops[k]).len() >= 1,
{
    lemma_skip_sep_run_bounds(s, 0);
    let a = skip_hspace(s, skip_sep_run(s, 0));
    lemma_skip_hspace_bounds(s, skip_sep_run(s, 0));
    lemma_parse_operation_bounds(s, a);
    match parse_operation(s, a) {
        Some((op, j)) => {
            lemma_parse_sequence_more_ops_nonempty(s, j);
        },
        None => {},
    }
}

} // verus!
