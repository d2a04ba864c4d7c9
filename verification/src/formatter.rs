//! The formatter: re-emits a token sequence with newlines and indentation
//! chosen by a small set of rules keyed on token identity.
//!
//! The walk is a single pass with one token of lookback.  An excess closing
//! parenthesis would drive the indentation level below zero; that is
//! reported as [`FormatError::UnbalancedParentheses`] instead of being
//! silently accepted.

use vstd::prelude::*;

verus! {

use crate::lexer::lemma_token_at_text;
use crate::lexer::lemma_wf_token_text;
use crate::lexer::lemma_ws_run_relex;
use crate::lexer::spec_safe_follow;
use crate::lexer::spec_tokens_from;
use crate::lexer::spec_unterminated_literal;
use crate::lexer::spec_wf_token;
use crate::token::SpecToken;
use crate::token::Token;
use crate::token::push_char;
use crate::token::spec_nonws;
use crate::token::spec_token_text;

/// The one failure of the formatter: a closing parenthesis with no matching
/// opening parenthesis or clause-keyword increase before it.
#[derive(Clone, Copy, Debug, PartialEq, Eq)]
pub enum FormatError {
    UnbalancedParentheses,
}

// ---------------------------------------------------------------------------
// Keyword groups
// ---------------------------------------------------------------------------

/// A keyword that starts a new top-level clause: it is placed on a line of
/// its own and everything after it is indented one level deeper.
pub open spec fn spec_is_major_keyword(w: Seq<char>) -> bool {
    ||| w == "SELECT"@
    ||| w == "FROM"@
    ||| w == "WHERE"@
    ||| w == "UPDATE"@
    ||| w == "SET"@
    ||| w == "GROUP"@
    ||| w == "ORDER"@
    ||| w == "LEFT"@
    ||| w == "RIGHT"@
    ||| w == "INNER"@
}

/// A conjunction keyword: it forces a line break at the current indentation
/// without changing the level.
pub open spec fn spec_is_conjunction_keyword(w: Seq<char>) -> bool {
    w == "AND"@ || w == "OR"@
}

/// Exact comparison of a token's text against one fixed word.
fn str_eq(s: &String, lit: &str) -> (b: bool)
    ensures
        b == (s@ == lit@),
{
    let other = String::from_str(lit);
    *s == other
}

fn is_major_keyword(s: &String) -> (b: bool)
    ensures
        b == spec_is_major_keyword(s@),
{
    str_eq(s, "SELECT") || str_eq(s, "FROM") || str_eq(s, "WHERE") || str_eq(s, "UPDATE")
        || str_eq(s, "SET") || str_eq(s, "GROUP") || str_eq(s, "ORDER") || str_eq(s, "LEFT")
        || str_eq(s, "RIGHT") || str_eq(s, "INNER")
}

fn is_conjunction_keyword(s: &String) -> (b: bool)
    ensures
        b == spec_is_conjunction_keyword(s@),
{
    str_eq(s, "AND") || str_eq(s, "OR")
}

// ---------------------------------------------------------------------------
// The emission rules, as functions on the output text
// ---------------------------------------------------------------------------

/// One tab per indentation level.
pub open spec fn spec_indent_chars(level: nat) -> Seq<char>
    decreases level,
{
    if level == 0 {
        Seq::empty()
    } else {
        spec_indent_chars((level - 1) as nat).push('\t')
    }
}

/// A forced line break: a newline when the buffer is non-empty (one more
/// when it already ends in one, which yields the blank line between
/// successive clauses), followed by the current indentation.
pub open spec fn spec_new_line(out: Seq<char>, level: nat) -> Seq<char> {
    let broken = if out.len() > 0 {
        out.push('\n')
    } else {
        out
    };
    broken + spec_indent_chars(level)
}

/// The single space that separates an inline token from its predecessor;
/// nothing at the very start and nothing right after an opening parenthesis.
pub open spec fn spec_space_prefix(last: Option<SpecToken>) -> Seq<char> {
    match last {
        Some(t) => if t == SpecToken::Punctuation('(') {
            Seq::empty()
        } else {
            seq![' ']
        },
        None => Seq::empty(),
    }
}

/// An inline emission: the space rule above, then the token's text.
pub open spec fn spec_append_with_space(
    out: Seq<char>,
    t: SpecToken,
    last: Option<SpecToken>,
) -> Seq<char> {
    out + spec_space_prefix(last) + spec_token_text(t)
}

/// The formatter's working state: the output so far, the indentation level,
/// and the most recently emitted non-whitespace token.
pub struct SpecFmtState {
    pub output: Seq<char>,
    pub indent: nat,
    pub last: Option<SpecToken>,
}

pub open spec fn spec_state(
    output: Seq<char>,
    indent: nat,
    last: Option<SpecToken>,
) -> SpecFmtState {
    SpecFmtState { output, indent, last }
}

/// Processes one token.  `None` reports an excess closing parenthesis at
/// indentation level zero.
pub open spec fn spec_step(st: SpecFmtState, t: SpecToken) -> Option<SpecFmtState> {
    match t {
        SpecToken::Whitespace => Some(st),
        SpecToken::Keyword(w) => if spec_is_major_keyword(w) {
            let header = spec_new_line(st.output, st.indent) + w;
            Some(spec_state(spec_new_line(header, st.indent), st.indent + 1, Some(t)))
        } else if spec_is_conjunction_keyword(w) {
            Some(spec_state(spec_new_line(st.output, st.indent) + w, st.indent, Some(t)))
        } else {
            Some(spec_state(spec_append_with_space(st.output, t, st.last), st.indent, Some(t)))
        },
        SpecToken::Punctuation(c) => if c == '(' {
            let appended = spec_append_with_space(st.output, t, st.last);
            Some(spec_state(spec_new_line(appended, st.indent + 1), st.indent + 1, Some(t)))
        } else if c == ')' {
            if st.indent == 0 {
                None
            } else {
                let level = (st.indent - 1) as nat;
                Some(spec_state(spec_new_line(st.output, level) + seq![c], level, Some(t)))
            }
        } else if c == ',' {
            Some(spec_state(spec_new_line(st.output + seq![c], st.indent), st.indent, Some(t)))
        } else {
            Some(spec_state(spec_append_with_space(st.output, t, st.last), st.indent, Some(t)))
        },
        _ => Some(spec_state(spec_append_with_space(st.output, t, st.last), st.indent, Some(t))),
    }
}

/// Processes a whole token sequence, stopping at the first failure.
pub open spec fn spec_run(st: SpecFmtState, tokens: Seq<SpecToken>) -> Option<SpecFmtState>
    decreases tokens.len(),
{
    if tokens.len() == 0 {
        Some(st)
    } else {
        match spec_step(st, tokens[0]) {
            Some(next) => spec_run(next, tokens.drop_first()),
            None => None,
        }
    }
}

// ---------------------------------------------------------------------------
// Trimming
// ---------------------------------------------------------------------------

/// The output with leading whitespace characters removed.
pub open spec fn spec_trim_front(s: Seq<char>) -> Seq<char>
    decreases s.len(),
{
    if s.len() > 0 && crate::lexer::spec_is_whitespace_char(s[0]) {
        spec_trim_front(s.drop_first())
    } else {
        s
    }
}

/// The output with trailing whitespace characters removed.
pub open spec fn spec_trim_back(s: Seq<char>) -> Seq<char>
    decreases s.len(),
{
    if s.len() > 0 && crate::lexer::spec_is_whitespace_char(s.last()) {
        spec_trim_back(s.drop_last())
    } else {
        s
    }
}

/// The output with incidental leading and trailing whitespace removed.
pub open spec fn spec_trim(s: Seq<char>) -> Seq<char> {
    spec_trim_back(spec_trim_front(s))
}

/// The final formatting of a complete token sequence, from a fresh state.
pub open spec fn spec_format(tokens: Seq<SpecToken>) -> Option<Seq<char>> {
    match spec_run(spec_state(Seq::empty(), 0, None), tokens) {
        Some(st) => Some(spec_trim(st.output)),
        None => None,
    }
}

/// Removes the whitespace characters at both ends of the buffer.
#[verifier::loop_isolation(false)]
fn trim_whitespace(s: &str) -> (r: String)
    ensures
        r@ == spec_trim(s@),
{
    let n = s.unicode_len();
    proof {
        assert(s@.skip(0) =~= s@);
    }
    let mut start: usize = 0;
    while start < n && is_ws_exec(s.get_char(start))
        invariant
            start <= n,
            spec_trim_front(s@) == spec_trim_front(s@.skip(start as int)),
        decreases n - start,
    {
        proof {
            assert(s@.skip(start as int)[0] == s@[start as int]);
            assert(s@.skip(start as int).drop_first() =~= s@.skip(start as int + 1));
        }
        start += 1;
    }
    proof {
        if start < n {
            assert(s@.skip(start as int)[0] == s@[start as int]);
        } else {
            assert(s@.skip(start as int) =~= Seq::<char>::empty());
        }
        assert(spec_trim_front(s@) == s@.skip(start as int));
        assert(s@.skip(start as int) =~= s@.subrange(start as int, n as int));
    }
    let mut end: usize = n;
    while end > start && is_ws_exec(s.get_char(end - 1))
        invariant
            start <= end <= n,
            spec_trim_back(s@.subrange(start as int, n as int)) == spec_trim_back(
                s@.subrange(start as int, end as int),
            ),
        decreases end,
    {
        proof {
            let piece = s@.subrange(start as int, end as int);
            assert(piece.last() == s@[end as int - 1]);
            assert(piece.drop_last() =~= s@.subrange(start as int, end as int - 1));
        }
        end -= 1;
    }
    proof {
        if end > start {
            assert(s@.subrange(start as int, end as int).last() == s@[end as int - 1]);
        } else {
            assert(s@.subrange(start as int, end as int) =~= Seq::<char>::empty());
        }
        assert(spec_trim_back(s@.subrange(start as int, n as int))
            == s@.subrange(start as int, end as int));
    }
    String::from_str(s.substring_char(start, end))
}

fn is_ws_exec(c: char) -> (b: bool)
    ensures
        b == crate::lexer::spec_is_whitespace_char(c),
{
    c == ' ' || c == '\t' || c == '\n' || c == '\r'
}

/// Shorthand for the lexer's whitespace class.
pub open spec fn spec_is_ws(c: char) -> bool {
    crate::lexer::spec_is_whitespace_char(c)
}

// ---------------------------------------------------------------------------
// Structure of the emitted text
// ---------------------------------------------------------------------------

/// Indentation is whitespace, one tab per level.
proof fn lemma_indent_chars_ws(level: nat)
    ensures
        spec_indent_chars(level).len() == level,
        forall|j: int| 0 <= j < spec_indent_chars(level).len() ==> spec_is_ws(
            #[trigger] spec_indent_chars(level)[j],
        ),
    decreases level,
{
    if level > 0 {
        lemma_indent_chars_ws((level - 1) as nat);
    }
}

/// A forced line break appends only whitespace characters.
proof fn lemma_new_line_appends(out: Seq<char>, level: nat)
    ensures
        spec_new_line(out, level).len() >= out.len(),
        spec_new_line(out, level).subrange(0, out.len() as int) == out,
        forall|j: int| out.len() <= j < spec_new_line(out, level).len() ==> spec_is_ws(
            #[trigger] spec_new_line(out, level)[j],
        ),
{
    lemma_indent_chars_ws(level);
    assert(spec_new_line(out, level).subrange(0, out.len() as int) =~= out);
}

/// One formatting step only appends to the output.
proof fn lemma_step_appends(st: SpecFmtState, t: SpecToken)
    requires
        spec_step(st, t) is Some,
    ensures
        spec_step(st, t)->Some_0.output.len() >= st.output.len(),
        spec_step(st, t)->Some_0.output.subrange(0, st.output.len() as int) == st.output,
{
    let out2 = spec_step(st, t)->Some_0.output;
    lemma_new_line_appends(st.output, st.indent);
    lemma_new_line_appends(st.output + seq![','], st.indent);
    if st.indent > 0 {
        lemma_new_line_appends(st.output, (st.indent - 1) as nat);
    }
    assert(out2.subrange(0, st.output.len() as int) =~= st.output);
}

/// A whole run only appends to the output.
proof fn lemma_run_appends(st: SpecFmtState, ts: Seq<SpecToken>)
    requires
        spec_run(st, ts) is Some,
    ensures
        spec_run(st, ts)->Some_0.output.len() >= st.output.len(),
        spec_run(st, ts)->Some_0.output.subrange(0, st.output.len() as int) == st.output,
    decreases ts.len(),
{
    if ts.len() > 0 {
        let st1 = spec_step(st, ts[0])->Some_0;
        lemma_step_appends(st, ts[0]);
        lemma_run_appends(st1, ts.drop_first());
        let f = spec_run(st, ts)->Some_0.output;
        assert(f.subrange(0, st.output.len() as int) =~= st.output);
    }
}

/// Trimming the back removes a whitespace suffix and nothing more.
proof fn lemma_trim_back_decomp(s: Seq<char>)
    ensures
        spec_trim_back(s).len() <= s.len(),
        spec_trim_back(s) == s.subrange(0, spec_trim_back(s).len() as int),
        forall|j: int| spec_trim_back(s).len() <= j < s.len() ==> spec_is_ws(#[trigger] s[j]),
        spec_trim_back(s).len() > 0 ==> !spec_is_ws(spec_trim_back(s).last()),
    decreases s.len(),
{
    if s.len() > 0 && spec_is_ws(s.last()) {
        lemma_trim_back_decomp(s.drop_last());
        assert forall|j: int| spec_trim_back(s).len() <= j < s.len() implies spec_is_ws(
            s[j],
        ) by {
            if j < s.len() - 1 {
                assert(s.drop_last()[j] == s[j]);
            }
        }
        assert(spec_trim_back(s) =~= s.subrange(0, spec_trim_back(s).len() as int));
    } else {
        assert(spec_trim_back(s) =~= s.subrange(0, spec_trim_back(s).len() as int));
    }
}

/// A token the formatter emits inline, with the space rule: neither a
/// clause or conjunction keyword nor one of `(` `)` `,`.
pub open spec fn spec_is_inline_token(t: SpecToken) -> bool {
    match t {
        SpecToken::Whitespace => false,
        SpecToken::Eof => false,
        SpecToken::Keyword(w) => !spec_is_major_keyword(w) && !spec_is_conjunction_keyword(w),
        SpecToken::Punctuation(c) => c != '(' && c != ')' && c != ',',
        _ => true,
    }
}

/// What a forced line break appends: a newline when the buffer is
/// non-empty, then the indentation.
pub open spec fn spec_nl_delta(out: Seq<char>, level: nat) -> Seq<char> {
    (if out.len() > 0 {
        seq!['\n']
    } else {
        Seq::<char>::empty()
    }) + spec_indent_chars(level)
}

proof fn lemma_nl_delta(out: Seq<char>, level: nat)
    ensures
        spec_new_line(out, level) == out + spec_nl_delta(out, level),
        forall|j: int| 0 <= j < spec_nl_delta(out, level).len() ==> spec_is_ws(
            #[trigger] spec_nl_delta(out, level)[j],
        ),
{
    lemma_indent_chars_ws(level);
    assert(spec_new_line(out, level) =~= out + spec_nl_delta(out, level));
}

/// The whitespace the formatter writes before a token's text.
pub open spec fn spec_pre_emission(st: SpecFmtState, t: SpecToken) -> Seq<char> {
    match t {
        SpecToken::Keyword(w) => if spec_is_major_keyword(w) || spec_is_conjunction_keyword(w) {
            spec_nl_delta(st.output, st.indent)
        } else {
            spec_space_prefix(st.last)
        },
        SpecToken::Punctuation(c) => if c == '(' {
            spec_space_prefix(st.last)
        } else if c == ')' {
            spec_nl_delta(st.output, (st.indent - 1) as nat)
        } else if c == ',' {
            Seq::empty()
        } else {
            spec_space_prefix(st.last)
        },
        _ => spec_space_prefix(st.last),
    }
}

/// The whitespace the formatter writes after a token's text.
pub open spec fn spec_post_emission(st: SpecFmtState, t: SpecToken) -> Seq<char> {
    match t {
        SpecToken::Keyword(w) => if spec_is_major_keyword(w) {
            spec_nl_delta(spec_new_line(st.output, st.indent) + w, st.indent)
        } else {
            Seq::empty()
        },
        SpecToken::Punctuation(c) => if c == '(' {
            spec_nl_delta(spec_append_with_space(st.output, t, st.last), (st.indent + 1) as nat)
        } else if c == ',' {
            spec_nl_delta(st.output + seq![c], st.indent)
        } else {
            Seq::empty()
        },
        _ => Seq::empty(),
    }
}

proof fn lemma_space_prefix_ws(last: Option<SpecToken>)
    ensures
        forall|j: int| 0 <= j < spec_space_prefix(last).len() ==> spec_is_ws(
            #[trigger] spec_space_prefix(last)[j],
        ),
{
    let pre = spec_space_prefix(last);
    assert forall|j: int| 0 <= j < pre.len() implies spec_is_ws(pre[j]) by {
        assert(pre == seq![' ']);
        assert(pre[j] == ' ');
    }
}

/// One emission decomposes into whitespace, the token's text, and
/// whitespace again.
proof fn lemma_step_decomp(st: SpecFmtState, t: SpecToken)
    requires
        !(t is Whitespace),
        !(t is Eof),
        spec_step(st, t) is Some,
    ensures
        ({
            let st1 = spec_step(st, t)->Some_0;
            let pre = spec_pre_emission(st, t);
            let post = spec_post_emission(st, t);
            let text = spec_token_text(t);
            &&& st1.output == st.output + pre + text + post
            &&& st1.output.len() == st.output.len() + pre.len() + text.len() + post.len()
            &&& st1.last == Some(t)
            &&& (forall|j: int| 0 <= j < pre.len() ==> spec_is_ws(#[trigger] pre[j]))
            &&& (forall|j: int| 0 <= j < post.len() ==> spec_is_ws(#[trigger] post[j]))
        }),
{
    let st1 = spec_step(st, t)->Some_0;
    let pre = spec_pre_emission(st, t);
    let post = spec_post_emission(st, t);
    let text = spec_token_text(t);
    lemma_space_prefix_ws(st.last);
    match t {
        SpecToken::Keyword(w) => {
            if spec_is_major_keyword(w) {
                let header = spec_new_line(st.output, st.indent) + w;
                lemma_nl_delta(st.output, st.indent);
                lemma_nl_delta(header, st.indent);
                assert(st1.output =~= st.output + pre + text + post);
            } else if spec_is_conjunction_keyword(w) {
                lemma_nl_delta(st.output, st.indent);
                assert(st1.output =~= st.output + pre + text + post);
            } else {
                assert(st1.output =~= st.output + pre + text + post);
            }
        },
        SpecToken::Punctuation(c) => {
            if c == '(' {
                let appended = spec_append_with_space(st.output, t, st.last);
                lemma_nl_delta(appended, (st.indent + 1) as nat);
                assert(st1.output =~= st.output + pre + text + post);
            } else if c == ')' {
                lemma_nl_delta(st.output, (st.indent - 1) as nat);
                assert(st1.output =~= st.output + pre + text + post);
            } else if c == ',' {
                lemma_nl_delta(st.output + seq![c], st.indent);
                assert(st1.output =~= st.output + pre + text + post);
            } else {
                assert(st1.output =~= st.output + pre + text + post);
            }
        },
        _ => {
            assert(st1.output =~= st.output + pre + text + post);
        },
    }
}

/// The induction behind the token-preservation law.  `f` is the complete
/// output of the run with an all-whitespace suffix `tail` split off; read
/// back from where this run started appending, `f` holds exactly the
/// non-whitespace tokens that were formatted.
#[verifier::rlimit(100)]
proof fn lemma_run_relex(st: SpecFmtState, ts: Seq<SpecToken>, f: Seq<char>, tail: Seq<char>)
    requires
        forall|i: int| 0 <= i < ts.len() ==> spec_wf_token(#[trigger] ts[i]) && !(ts[i] is Eof),
        forall|i: int| 0 <= i < ts.len() - 1 ==> !spec_unterminated_literal(#[trigger] ts[i]),
        ts.len() > 0 && tail.len() > 0 ==> !spec_unterminated_literal(ts[ts.len() - 1]),
        spec_run(st, ts) is Some,
        spec_run(st, ts)->Some_0.output == f + tail,
        forall|j: int| 0 <= j < tail.len() ==> spec_is_ws(#[trigger] tail[j]),
    ensures
        spec_nonws(spec_tokens_from(f, st.output.len() as int)) == spec_nonws(ts),
        spec_nonws(ts).len() == 0 ==> spec_run(st, ts)->Some_0.output == st.output,
        (0 < st.output.len() < f.len() && (st.last matches Some(l) && l
            != SpecToken::Punctuation('('))) ==> (spec_is_ws(f[st.output.len() as int])
            || f[st.output.len() as int] == ','),
        (st.output.len() == 0 && st.indent == 0 && st.last is None && f.len() > 0)
            ==> !spec_is_ws(f[0]),
        (spec_nonws(ts).len() > 0 && spec_is_inline_token(spec_nonws(ts).last()))
            ==> spec_run(st, ts)->Some_0.output.len() > 0
                && spec_run(st, ts)->Some_0.output.last()
                    == spec_token_text(spec_nonws(ts).last()).last(),
    decreases ts.len(),
{
    let full = spec_run(st, ts)->Some_0.output;
    let p = st.output.len() as int;
    if ts.len() == 0 {
        assert(spec_tokens_from(f, p) =~= Seq::<SpecToken>::empty());
    } else {
        let t0 = ts[0];
        let ts2 = ts.drop_first();
        let st1 = spec_step(st, t0)->Some_0;
        assert(spec_run(st1, ts2) == spec_run(st, ts));
        assert forall|i: int| 0 <= i < ts2.len() implies spec_wf_token(ts2[i])
            && !(ts2[i] is Eof) by {
            assert(ts2[i] == ts[i + 1]);
        }
        assert forall|i: int| 0 <= i < ts2.len() - 1 implies !spec_unterminated_literal(
            ts2[i],
        ) by {
            assert(ts2[i] == ts[i + 1]);
        }
        assert(ts2.len() > 0 ==> ts2[ts2.len() - 1] == ts[ts.len() - 1]);
        lemma_run_appends(st1, ts2);
        assert(forall|j: int| 0 <= j < st1.output.len() ==> full[j]
            == #[trigger] st1.output[j]);
        assert(forall|j: int| 0 <= j < f.len() ==> #[trigger] f[j] == full[j]);
        if t0 is Whitespace {
            assert(st1 == st);
            lemma_run_relex(st, ts2, f, tail);
            assert(spec_nonws(ts) == spec_nonws(ts2));
        } else {
            lemma_wf_token_text(t0);
            let text = spec_token_text(t0);
            if spec_unterminated_literal(t0) && ts.len() > 1 {
                assert(!spec_unterminated_literal(ts[0]));
                assert(false);
            }
            lemma_step_decomp(st, t0);
            let pre0 = spec_pre_emission(st, t0);
            let post0 = spec_post_emission(st, t0);
            let q = p + pre0.len() as int;
            let e = q + text.len() as int;
            assert(st1.output == st.output + pre0 + text + post0);
            assert(st1.output.len() == e + post0.len());
            assert forall|j: int| p <= j < q implies spec_is_ws(#[trigger] st1.output[j]) by {
                assert(st1.output[j] == pre0[j - p]);
            }
            assert forall|j: int| q <= j < e implies #[trigger] st1.output[j]
                == text[j - q] by {
            }
            assert forall|j: int| e <= j < st1.output.len() implies spec_is_ws(
                #[trigger] st1.output[j],
            ) by {
                assert(st1.output[j] == post0[j - e]);
            }
            lemma_run_relex(st1, ts2, f, tail);
            // the token's text lies inside f
            if spec_unterminated_literal(t0) {
                assert(ts.len() == 1);
                assert(ts2.len() == 0);
                assert(spec_run(st1, ts2) == Some(st1));
                assert(full == st1.output);
                assert(post0.len() == 0);
                assert(tail.len() == 0);
                assert(f =~= full);
                assert(e == f.len());
            } else {
                assert(!spec_is_ws(text.last()));
                assert(st1.output[e - 1] == text[text.len() - 1]);
                assert(full[e - 1] == st1.output[e - 1]);
                if e - 1 >= f.len() {
                    assert(full[e - 1] == tail[e - 1 - f.len()]);
                    assert(false);
                }
                assert(e <= f.len());
            }
            assert forall|j: int| p <= j < q implies spec_is_ws(f[j]) by {
                assert(f[j] == full[j]);
                assert(full[j] == st1.output[j]);
            }
            lemma_ws_run_relex(f, p, q);
            assert forall|j: int| 0 <= j < text.len() implies f.subrange(q, e)[j]
                == text[j] by {
                assert(st1.output[q + j] == text[j]);
                assert(f[q + j] == full[q + j]);
            }
            assert(f.subrange(q, e) =~= text);
            // the character after the text cannot extend it
            if e < f.len() {
                if post0.len() > 0 {
                    assert(st1.output[e] == post0[0]);
                    assert(f[e] == full[e]);
                    assert(full[e] == st1.output[e]);
                    assert(spec_is_ws(f[e]));
                    assert(spec_safe_follow(t0, f[e]));
                } else {
                    if t0 == SpecToken::Punctuation('(') {
                        lemma_indent_chars_ws((st.indent + 1) as nat);
                        assert(post0.len() > 0);
                        assert(false);
                    }
                    if spec_nonws(ts2).len() == 0 {
                        assert(full == st1.output);
                        assert(e == full.len());
                        assert(f.len() <= full.len());
                        assert(false);
                    }
                    assert(0 < st1.output.len() < f.len());
                    assert(st1.last == Some(t0));
                    assert(spec_is_ws(f[e]) || f[e] == ',');
                    assert(spec_safe_follow(t0, f[e]));
                }
            }
            lemma_token_at_text(f, q, t0);
            assert(spec_tokens_from(f, q) == seq![t0] + spec_tokens_from(f, e));
            assert((seq![t0] + spec_tokens_from(f, e)).drop_first() =~= spec_tokens_from(f, e));
            assert(spec_nonws(spec_tokens_from(f, q)) == seq![t0] + spec_nonws(
                spec_tokens_from(f, e),
            ));
            let out1 = st1.output.len() as int;
            let q2: int = if out1 <= f.len() {
                out1
            } else {
                f.len() as int
            };
            assert forall|j: int| e <= j < q2 implies spec_is_ws(f[j]) by {
                assert(f[j] == full[j]);
                assert(full[j] == st1.output[j]);
            }
            lemma_ws_run_relex(f, e, q2);
            if q2 < out1 {
                assert(spec_tokens_from(f, q2) =~= Seq::<SpecToken>::empty());
                assert(spec_tokens_from(f, out1) =~= Seq::<SpecToken>::empty());
            }
            assert(spec_nonws(spec_tokens_from(f, e)) == spec_nonws(ts2));
            assert(ts.drop_first() == ts2);
            assert(spec_nonws(ts) == seq![t0] + spec_nonws(ts2));
            assert(spec_nonws(spec_tokens_from(f, p)) == spec_nonws(ts));
            // the entry character, for the caller's boundary reasoning
            if 0 < p < f.len() && (st.last matches Some(l) && l != SpecToken::Punctuation('(')) {
                assert(f[p] == full[p]);
                assert(full[p] == st1.output[p]);
                if pre0.len() > 0 {
                    assert(spec_is_ws(st1.output[p]));
                } else {
                    assert(st1.output[p] == text[0]);
                    assert(t0 == SpecToken::Punctuation(','));
                }
            }
            if p == 0 && st.indent == 0 && st.last is None && f.len() > 0 {
                assert(pre0.len() == 0);
                assert(f[0] == full[0]);
                assert(full[0] == st1.output[0]);
                assert(st1.output[0] == text[0]);
            }
            // where the output ends, for the trim reasoning
            if spec_nonws(ts).len() > 0 && spec_is_inline_token(spec_nonws(ts).last()) {
                if spec_nonws(ts2).len() == 0 {
                    assert(spec_nonws(ts2) =~= Seq::<SpecToken>::empty());
                    assert(spec_nonws(ts) =~= seq![t0]);
                    assert(spec_is_inline_token(t0));
                    assert(post0.len() == 0);
                    assert(full == st1.output);
                    assert(full.last() == st1.output[e - 1]);
                    assert(st1.output[e - 1] == text[text.len() - 1]);
                } else {
                    assert(spec_nonws(ts).last() == spec_nonws(ts2).last());
                }
            }
        }
    }
}

/// Law: token preservation.  Formatting never loses, changes or reorders a
/// token: re-tokenizing the formatted output and discarding the whitespace
/// markers reproduces the non-whitespace tokens of the input exactly.  The
/// one family of inputs left out is those ending in an unterminated string
/// literal whose text ends in whitespace, where the final trim cuts into
/// that literal.
pub proof fn lemma_format_preserves_tokens(input: Seq<char>)
    requires
        spec_format(crate::lexer::spec_tokenize(input)) is Some,
        ({
            let ts = crate::lexer::spec_tokenize(input);
            ts.len() > 0 ==> !(spec_unterminated_literal(ts.last()) && spec_is_ws(
                spec_token_text(ts.last()).last(),
            ))
        }),
    ensures
        spec_nonws(
            crate::lexer::spec_tokenize(
                spec_format(crate::lexer::spec_tokenize(input))->Some_0,
            ),
        ) == spec_nonws(crate::lexer::spec_tokenize(input)),
{
    let ts = crate::lexer::spec_tokenize(input);
    let st0 = spec_state(Seq::empty(), 0, None);
    crate::lexer::lemma_tokens_from_wf(input, 0);
    let fullout = spec_run(st0, ts)->Some_0.output;
    assert(fullout =~= fullout + Seq::<char>::empty());
    lemma_run_relex(st0, ts, fullout, Seq::empty());
    if fullout.len() > 0 {
        assert(!spec_is_ws(fullout[0]));
    }
    assert(spec_trim_front(fullout) == fullout);
    lemma_trim_back_decomp(fullout);
    let trimmed = spec_trim_back(fullout);
    let tail = fullout.subrange(trimmed.len() as int, fullout.len() as int);
    assert(fullout =~= trimmed + tail);
    assert forall|j: int| 0 <= j < tail.len() implies spec_is_ws(tail[j]) by {
        assert(tail[j] == fullout[trimmed.len() + j]);
    }
    if tail.len() > 0 && ts.len() > 0 && spec_unterminated_literal(ts[ts.len() - 1]) {
        crate::token::lemma_nonws_last(ts);
        assert(spec_nonws(ts).last() == ts.last());
        assert(spec_is_inline_token(ts.last()));
        assert(fullout.last() == spec_token_text(ts.last()).last());
        assert(!spec_is_ws(fullout.last()));
        assert(trimmed == fullout);
        assert(tail.len() == 0);
        assert(false);
    }
    lemma_run_relex(st0, ts, trimmed, tail);
    assert(spec_format(ts)->Some_0 == trimmed);
}


/// Law: a major clause keyword stands on a line of its own, and everything
/// after it is indented one level deeper: the step writes a line break and
/// the current indentation, then the keyword, then another break and
/// indentation, and raises the level by one.
pub proof fn lemma_major_clause_on_own_line(st: SpecFmtState, w: Seq<char>)
    requires
        spec_is_major_keyword(w),
        st.output.len() > 0,
    ensures
        spec_step(st, SpecToken::Keyword(w)) is Some,
        spec_step(st, SpecToken::Keyword(w))->Some_0.indent == st.indent + 1,
        spec_step(st, SpecToken::Keyword(w))->Some_0.output == st.output + seq!['\n']
            + spec_indent_chars(st.indent) + w + seq!['\n'] + spec_indent_chars(st.indent),
{
    let st1 = spec_step(st, SpecToken::Keyword(w))->Some_0;
    assert(st1.output =~= st.output + seq!['\n'] + spec_indent_chars(st.indent) + w
        + seq!['\n'] + spec_indent_chars(st.indent));
}

/// Law: only a closing parenthesis ever lowers the indentation level, so
/// across any stretch of tokens without one — in particular across clause
/// keywords — the level is monotonically non-decreasing.
pub proof fn lemma_indent_monotonic(st: SpecFmtState, ts: Seq<SpecToken>)
    requires
        spec_run(st, ts) is Some,
        forall|i: int| 0 <= i < ts.len() ==> ts[i] != SpecToken::Punctuation(')'),
    ensures
        spec_run(st, ts)->Some_0.indent >= st.indent,
    decreases ts.len(),
{
    if ts.len() > 0 {
        let st1 = spec_step(st, ts[0])->Some_0;
        assert(st1.indent >= st.indent);
        assert(forall|i: int| 0 <= i < ts.drop_first().len() ==> #[trigger] ts.drop_first()[i]
            == ts[i + 1]);
        lemma_indent_monotonic(st1, ts.drop_first());
    }
}

// ---------------------------------------------------------------------------
// The executable formatter
// ---------------------------------------------------------------------------

/// A single-use formatter over an owned token sequence.  The working state
/// is scoped to one `format` call and discarded afterward.
pub struct Formatter {
    pub tokens: Vec<Token>,
    pub indent_level: usize,
    pub output: String,
}

pub open spec fn spec_opt_token(o: Option<Token>) -> Option<SpecToken> {
    match o {
        Some(t) => Some(t@),
        None => None,
    }
}

impl Formatter {
    /// Builds a formatter over the given tokens, with an empty buffer and
    /// indentation level zero.
    pub fn new(tokens: Vec<Token>) -> (f: Formatter)
        ensures
            f.tokens == tokens,
            f.indent_level == 0,
            f.output@ == Seq::<char>::empty(),
    {
        Formatter { tokens, indent_level: 0, output: String::new() }
    }

    /// Appends the token's text to the buffer, with no spacing or breaks.
    pub fn append_token(&mut self, token: &Token)
        ensures
            final(self).tokens == old(self).tokens,
            final(self).indent_level == old(self).indent_level,
            final(self).output@ == old(self).output@ + spec_token_text(token@),
    {
        match token {
            Token::Keyword(s) => self.output.append(s.as_str()),
            Token::Identifier(s) => self.output.append(s.as_str()),
            Token::Literal(s) => self.output.append(s.as_str()),
            Token::Operator(s) => self.output.append(s.as_str()),
            Token::Punctuation(c) => {
                push_char(&mut self.output, *c);
                proof {
                    assert(old(self).output@.push(*c) =~= old(self).output@ + seq![*c]);
                }
            },
            _ => {
                proof {
                    assert(old(self).output@ + Seq::<char>::empty() =~= old(self).output@);
                }
            },
        }
    }

    /// Appends the token's text preceded by a single space, unless the
    /// previously emitted token was an opening parenthesis or there was no
    /// previous token.
    pub fn append_with_space(&mut self, token: &Token, last_token: &Option<Token>)
        ensures
            final(self).tokens == old(self).tokens,
            final(self).indent_level == old(self).indent_level,
            final(self).output@ == spec_append_with_space(
                old(self).output@,
                token@,
                spec_opt_token(*last_token),
            ),
    {
        match last_token {
            Some(last) => {
                let skip_space = match last {
                    Token::Punctuation(c) => *c == '(',
                    _ => false,
                };
                if !skip_space {
                    push_char(&mut self.output, ' ');
                    proof {
                        assert(old(self).output@.push(' ') =~= old(self).output@ + seq![' ']);
                    }
                }
            },
            None => {},
        }
        proof {
            assert(self.output@ == old(self).output@ + spec_space_prefix(
                spec_opt_token(*last_token),
            ));
        }
        self.append_token(token);
    }

    /// Forces a line break: a newline when the buffer is non-empty (one more
    /// when it already ends in one, which yields a blank line), then one tab
    /// per indentation level.
    #[verifier::loop_isolation(false)]
    pub fn new_line(&mut self)
        ensures
            final(self).tokens == old(self).tokens,
            final(self).indent_level == old(self).indent_level,
            final(self).output@ == spec_new_line(old(self).output@, old(self).indent_level as nat),
    {
        if !self.output.as_str().is_empty() {
            push_char(&mut self.output, '\n');
        }
        let ghost broken = self.output@;
        proof {
            assert(broken + spec_indent_chars(0) =~= broken);
        }
        let mut level: usize = 0;
        while level < self.indent_level
            invariant
                level <= self.indent_level,
                self.tokens == old(self).tokens,
                self.indent_level == old(self).indent_level,
                self.output@ == broken + spec_indent_chars(level as nat),
            decreases self.indent_level - level,
        {
            push_char(&mut self.output, '\t');
            level += 1;
            proof {
                assert((broken + spec_indent_chars((level - 1) as nat)).push('\t')
                    =~= broken + spec_indent_chars(level as nat));
            }
        }
    }

    /// Walks the token sequence once and produces the formatted text, or
    /// reports unbalanced parentheses.  Whitespace tokens carry no
    /// formatting signal and are dropped; the result is the buffer with
    /// leading and trailing whitespace trimmed.
    #[verifier::loop_isolation(false)]
    pub fn format(&mut self) -> (r: Result<String, FormatError>)
        requires
            old(self).indent_level as int + old(self).tokens@.len() <= usize::MAX as int,
        ensures
            final(self).tokens == old(self).tokens,
            ({
                let outcome = spec_run(
                    spec_state(
                        old(self).output@,
                        old(self).indent_level as nat,
                        None,
                    ),
                    old(self).tokens.deep_view(),
                );
                match outcome {
                    Some(st) => r matches Ok(out) && out@ == spec_trim(st.output),
                    None => r matches Err(e) && e == FormatError::UnbalancedParentheses,
                }
            }),
    {
        let ghost toks = old(self).tokens.deep_view();
        let ghost st0 = spec_state(old(self).output@, old(self).indent_level as nat, None);
        let mut last_token: Option<Token> = None;
        let n = self.tokens.len();
        proof {
            assert(toks.skip(0) =~= toks);
        }
        let mut i: usize = 0;
        while i < n
            invariant
                i <= n,
                self.tokens == old(self).tokens,
                self.indent_level as int <= old(self).indent_level as int + i as int,
                spec_run(st0, toks) == spec_run(
                    spec_state(self.output@, self.indent_level as nat, spec_opt_token(last_token)),
                    toks.skip(i as int),
                ),
            decreases n - i,
        {
            let ghost st_pre = spec_state(
                self.output@,
                self.indent_level as nat,
                spec_opt_token(last_token),
            );
            proof {
                assert(toks.skip(i as int)[0] == toks[i as int]);
                assert(toks.skip(i as int).drop_first() =~= toks.skip(i as int + 1));
            }
            let token = self.tokens[i].clone();
            let ghost tv = token@;
            match &token {
                Token::Keyword(kw) => {
                    if is_major_keyword(kw) {
                        self.new_line();
                        self.append_token(&token);
                        self.new_line();
                        self.indent_level = self.indent_level + 1;
                    } else if is_conjunction_keyword(kw) {
                        self.new_line();
                        self.append_token(&token);
                    } else {
                        self.append_with_space(&token, &last_token);
                    }
                },
                Token::Punctuation(c) => {
                    if *c == '(' {
                        self.append_with_space(&token, &last_token);
                        self.indent_level = self.indent_level + 1;
                        self.new_line();
                    } else if *c == ')' {
                        if self.indent_level == 0 {
                            proof {
                                assert(spec_run(st_pre, toks.skip(i as int)) is None);
                            }
                            return Err(FormatError::UnbalancedParentheses);
                        }
                        self.indent_level = self.indent_level - 1;
                        self.new_line();
                        self.append_token(&token);
                    } else if *c == ',' {
                        self.append_token(&token);
                        self.new_line();
                    } else {
                        self.append_with_space(&token, &last_token);
                    }
                },
                Token::Whitespace => {},
                _ => {
                    self.append_with_space(&token, &last_token);
                },
            }
            if !token.is_whitespace() {
                last_token = Some(token);
            }
            proof {
                let st_post = spec_state(
                    self.output@,
                    self.indent_level as nat,
                    spec_opt_token(last_token),
                );
                assert(spec_step(st_pre, tv) == Some(st_post));
                assert(spec_run(st_pre, toks.skip(i as int)) == spec_run(
                    st_post,
                    toks.skip(i as int + 1),
                ));
            }
            i += 1;
        }
        proof {
            assert(toks.skip(n as int) =~= Seq::<SpecToken>::empty());
        }
        let trimmed = trim_whitespace(self.output.as_str());
        Ok(trimmed)
    }
}

} // verus!
