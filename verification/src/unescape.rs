//! Resolving quotes and escapes: from a raw token to the literal word.
//!
//! Outside quotes a backslash makes the next character literal and is itself
//! dropped. Inside single quotes nothing is special but the closing quote.
//! Inside double quotes a backslash escapes only `"` and `\`; before any other
//! character it is literal. Quote characters that open or close a quoted
//! span are dropped.

use vstd::prelude::*;
use crate::text::chars_of;
use crate::tokenize::Quote;

verus! {

/// `String::push` of the standard library, which appends one character:
/// afterwards the string holds what it held before, and then `ch`. This is
/// taken from the documentation of `push`, and not proved.
pub assume_specification[ String::push ](s: &mut String, ch: char)
    ensures
        final(s)@ == old(s)@.push(ch),
;

/// The literal text of `s`, read from within the quote context `quote`.
pub open spec fn resolved(s: Seq<char>, quote: Option<Quote>) -> Seq<char>
    decreases s.len(),
{
    if s.len() == 0 {
        Seq::empty()
    } else {
        match quote {
            None => {
                if s[0] == '\\' {
                    if s.len() == 1 {
                        Seq::empty()
                    } else {
                        seq![s[1]] + resolved(s.skip(2), None)
                    }
                } else if s[0] == '\'' {
                    resolved(s.skip(1), Some(Quote::SingleQuote))
                } else if s[0] == '"' {
                    resolved(s.skip(1), Some(Quote::DoubleQuote))
                } else {
                    seq![s[0]] + resolved(s.skip(1), None)
                }
            },
            Some(Quote::SingleQuote) => {
                if s[0] == '\'' {
                    resolved(s.skip(1), None)
                } else {
                    seq![s[0]] + resolved(s.skip(1), quote)
                }
            },
            Some(Quote::DoubleQuote) => {
                if s[0] == '\\' && s.len() > 1 && (s[1] == '"' || s[1] == '\\') {
                    seq![s[1]] + resolved(s.skip(2), quote)
                } else if s[0] == '"' {
                    resolved(s.skip(1), None)
                } else {
                    seq![s[0]] + resolved(s.skip(1), quote)
                }
            },
        }
    }
}

/// The literal text of the raw token `s`.
pub open spec fn resolve(s: Seq<char>) -> Seq<char> {
    resolved(s, None)
}

/// A token that holds no quote character and no backslash is its own
/// literal text.
pub proof fn lemma_resolve_plain(s: Seq<char>)
    requires
        forall|i: int| 0 <= i < s.len() ==> s[i] != '\\' && s[i] != '\'' && s[i] != '"',
    ensures
        resolve(s) == s,
    decreases s.len(),
{
    if s.len() > 0 {
        let t = s.skip(1);
        assert forall|i: int| 0 <= i < t.len() implies t[i] != '\\' && t[i] != '\'' && t[i]
            != '"' by {
            assert(t[i] == s[i + 1]);
        }
        lemma_resolve_plain(t);
        assert(seq![s[0]] + t =~= s);
    } else {
        assert(resolve(s) =~= s);
    }
}

/// Inside single quotes every character but the single quote is literal,
/// the backslash too: the literal text of what stands between two single
/// quotes is just that.
pub proof fn lemma_resolve_single_quoted(body: Seq<char>)
    requires
        forall|i: int| 0 <= i < body.len() ==> body[i] != '\'',
    ensures
        resolved(body + seq!['\''], Some(Quote::SingleQuote)) == body,
        resolve(seq!['\''] + body + seq!['\'']) == body,
    decreases body.len(),
{
    let closed = body + seq!['\''];
    if body.len() > 0 {
        let t = body.skip(1);
        assert forall|i: int| 0 <= i < t.len() implies t[i] != '\'' by {
            assert(t[i] == body[i + 1]);
        }
        lemma_resolve_single_quoted(t);
        assert(closed.skip(1) =~= t + seq!['\'']);
        assert(seq![body[0]] + t =~= body);
    } else {
        assert(closed.skip(1) =~= Seq::<char>::empty());
        assert(resolved(closed.skip(1), None) =~= Seq::<char>::empty());
        assert(resolved(closed, Some(Quote::SingleQuote)) =~= body);
    }
    assert((seq!['\''] + body + seq!['\'']).skip(1) =~= closed);
}

/// The literal text of a token is never longer than the token.
pub proof fn lemma_resolved_is_no_longer(s: Seq<char>, quote: Option<Quote>)
    ensures
        resolved(s, quote).len() <= s.len(),
    decreases s.len(),
{
    if s.len() > 0 {
        lemma_resolved_is_no_longer(s.skip(1), None);
        lemma_resolved_is_no_longer(s.skip(1), Some(Quote::SingleQuote));
        lemma_resolved_is_no_longer(s.skip(1), Some(Quote::DoubleQuote));
        if s.len() > 1 {
            lemma_resolved_is_no_longer(s.skip(2), None);
            lemma_resolved_is_no_longer(s.skip(2), Some(Quote::DoubleQuote));
        }
    }
}

/// Where the resolver stands between two characters of a token.
#[derive(Debug, Clone, Copy)]
pub struct UnescapeState {
    /// The character before was a backslash that escapes the next one.
    pub escape: bool,
    /// The quoted span that is open, if any.
    pub is_in_quote: Option<Quote>,
}

impl UnescapeState {
    /// The literal text of `s`, read from this state.
    pub open spec fn rest_of(self, s: Seq<char>) -> Seq<char> {
        if !self.escape {
            resolved(s, self.is_in_quote)
        } else if s.len() == 0 {
            Seq::empty()
        } else {
            seq![s[0]] + resolved(s.skip(1), self.is_in_quote)
        }
    }
}

/// The first character of `s`, if any.
pub open spec fn first_of(s: Seq<char>) -> Option<char> {
    if s.len() > 0 {
        Some(s[0])
    } else {
        None
    }
}

/// What one step emits, as a sequence.
pub open spec fn emitted(out: Option<char>) -> Seq<char> {
    match out {
        Some(c) => seq![c],
        None => Seq::empty(),
    }
}

/// The kind of quote that `c` opens and closes, where `c` is a quote
/// character.
pub open spec fn quote_of(c: char) -> Option<Quote> {
    if c == '\'' {
        Some(Quote::SingleQuote)
    } else if c == '"' {
        Some(Quote::DoubleQuote)
    } else {
        None
    }
}

/// A backslash read in the context `quote`, with `peek` after it, escapes
/// what follows: always outside quotes, never inside single quotes, and
/// inside double quotes only before `"` and `\`.
pub open spec fn escapes(quote: Option<Quote>, peek: Option<char>) -> bool {
    match quote {
        None => true,
        Some(Quote::SingleQuote) => false,
        Some(Quote::DoubleQuote) => peek == Some('"') || peek == Some('\\'),
    }
}

/// What one step of the resolver emits, and the state after it, for the
/// character `ch` read in `state` with `peek` after it.
///
/// - A character after an escaping backslash is emitted, whatever it is;
///   the quote context stays.
/// - A backslash that escapes is dropped, and the next character is
///   escaped.
/// - Outside quotes a quote character opens its quote and is dropped.
/// - The quote character of the open quote closes it and is dropped.
/// - Every other character is emitted, and the state stays: a backslash
///   that does not escape, the other quote character inside a quote, and
///   all ordinary characters.
pub open spec fn stepped(ch: char, peek: Option<char>, state: UnescapeState) -> (
    Option<char>,
    UnescapeState,
) {
    if state.escape {
        (Some(ch), UnescapeState { escape: false, is_in_quote: state.is_in_quote })
    } else if ch == '\\' && escapes(state.is_in_quote, peek) {
        (None, UnescapeState { escape: true, is_in_quote: state.is_in_quote })
    } else if state.is_in_quote is None && quote_of(ch) is Some {
        (None, UnescapeState { escape: false, is_in_quote: quote_of(ch) })
    } else if state.is_in_quote is Some && quote_of(ch) == state.is_in_quote {
        (None, UnescapeState { escape: false, is_in_quote: None })
    } else {
        (Some(ch), state)
    }
}

/// A step reads one character of the token and no more: whatever follows
/// `ch`, as long as it starts with `peek`, what the step emits, followed by
/// the literal text of what follows read from the next state, is the
/// literal text of `ch` and what follows read from `state`.
pub proof fn lemma_step_resolves(
    ch: char,
    peek: Option<char>,
    state: UnescapeState,
    tail: Seq<char>,
)
    requires
        first_of(tail) == peek,
    ensures
        emitted(stepped(ch, peek, state).0) + stepped(ch, peek, state).1.rest_of(tail)
            == state.rest_of(seq![ch] + tail),
{
    let all = seq![ch] + tail;
    assert(all.skip(1) =~= tail);
    if tail.len() > 0 {
        assert(all.skip(2) =~= tail.skip(1));
    }
    assert(emitted(None) + stepped(ch, peek, state).1.rest_of(tail) =~= stepped(
        ch,
        peek,
        state,
    ).1.rest_of(tail));
}

/// One step of the resolver: reads `ch`, knowing the character `peek` that
/// follows it, and returns the character to emit, if any, and the next
/// state.
pub fn unescape_inside(ch: char, peek: Option<char>, state: UnescapeState) -> (r: (
    Option<char>,
    UnescapeState,
))
    ensures
        r == stepped(ch, peek, state),
{
    let mut state = state;
    if state.escape {
        state.escape = false;
        return (Some(ch), state);
    }
    if ch == '\\' {
        let to_escape = match state.is_in_quote {
            None => true,
            Some(Quote::SingleQuote) => false,
            Some(Quote::DoubleQuote) => match peek {
                Some(c) => c == '"' || c == '\\',
                None => false,
            },
        };
        if to_escape {
            state.escape = true;
            return (None, state);
        }
    }
    if ch == '\'' {
        match state.is_in_quote {
            None => {
                state.is_in_quote = Some(Quote::SingleQuote);
                return (None, state);
            },
            Some(Quote::SingleQuote) => {
                state.is_in_quote = None;
                return (None, state);
            },
            Some(Quote::DoubleQuote) => {},
        }
    }
    if ch == '"' {
        match state.is_in_quote {
            None => {
                state.is_in_quote = Some(Quote::DoubleQuote);
                return (None, state);
            },
            Some(Quote::DoubleQuote) => {
                state.is_in_quote = None;
                return (None, state);
            },
            Some(Quote::SingleQuote) => {},
        }
    }
    (Some(ch), state)
}

/// Resolves the quotes and escapes of a raw token.
pub fn unescape(src: &str) -> (result: String)
    ensures
        result@ == resolve(src@),
{
    let mut result = String::new();
    let mut state = UnescapeState { escape: false, is_in_quote: None };
    let chars = chars_of(src);
    let n = chars.len();
    let mut i: usize = 0;
    assert(src@.skip(0) =~= src@);
    while i < n
        invariant
            chars@ == src@,
            n == chars.len(),
            i <= n,
            result@ + state.rest_of(src@.skip(i as int)) == resolve(src@),
        decreases n - i,
    {
        let peek = if i + 1 < n {
            Some(chars[i + 1])
        } else {
            None
        };
        let ghost tail = src@.skip(i + 1);
        let ghost before = state;
        let (out, next) = unescape_inside(chars[i], peek, state);
        proof {
            assert(seq![chars[i as int]] + tail =~= src@.skip(i as int));
            lemma_step_resolves(chars[i as int], peek, before, tail);
        }
        state = next;
        if let Some(c) = out {
            result.push(c);
        }
        assert(result@ + state.rest_of(tail) =~= resolve(src@));
        i += 1;
    }
    assert(result@ + Seq::<char>::empty() =~= result@);
    result
}

} // verus!
