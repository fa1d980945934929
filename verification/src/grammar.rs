//! The grammar of a command line.
//!
//! A line is whitespace-separated tokens. A token is a redirect operator,
//! `>` or `>>`, or a word. A word is one run or more with nothing between
//! them; a run is a quoted run or a raw run. A quoted run goes from a quote
//! character to the next quote character of its kind that no backslash
//! escapes. A raw run goes up to the first whitespace, quote character or
//! `>` that no backslash escapes. A backslash escapes the character after
//! it, whatever it is, in raw runs and in quoted runs of both kinds.
//!
//! Everything here is stated over sequences of characters, by recursion
//! over what is left to read.

use vstd::prelude::*;
use crate::text::{
    is_ascii_white_space, is_white_space, lemma_leading_white_space_bound,
    lemma_leading_white_space_is_maximal, lemma_skip_skip, trimmed_start,
};
use crate::tokenize::{ParseError, Quote};

verus! {

// ---------------------------------------------------------------------------
// Runs
// ---------------------------------------------------------------------------

/// The characters that end a raw run unless a backslash precedes them.
pub open spec fn is_delimiter(c: char) -> bool {
    is_white_space(c) || c == '\'' || c == '"' || c == '>'
}

/// Length of the raw run at the start of `s`: the characters up to the first
/// delimiter that no backslash escapes. A backslash takes the character after
/// it into the run, whatever that character is.
pub open spec fn raw_run_len(s: Seq<char>) -> nat
    decreases s.len(),
{
    if s.len() == 0 {
        0
    } else if s[0] == '\\' {
        if s.len() == 1 {
            1
        } else {
            2 + raw_run_len(s.skip(2))
        }
    } else if is_delimiter(s[0]) {
        0
    } else {
        1 + raw_run_len(s.skip(1))
    }
}

/// Position in `s` of the first `q` that no backslash escapes.
pub open spec fn closing_quote(q: char, s: Seq<char>) -> Option<nat>
    decreases s.len(),
{
    if s.len() == 0 {
        None
    } else if s[0] == '\\' {
        if s.len() == 1 {
            None
        } else {
            match closing_quote(q, s.skip(2)) {
                Some(n) => Some(n + 2),
                None => None,
            }
        }
    } else if s[0] == q {
        Some(0)
    } else {
        match closing_quote(q, s.skip(1)) {
            Some(n) => Some(n + 1),
            None => None,
        }
    }
}

/// Length of the raw word at the start of `s`, if `s` starts with one.
pub open spec fn raw_word_len(s: Seq<char>) -> Option<nat> {
    if raw_run_len(s) == 0 {
        None
    } else {
        Some(raw_run_len(s))
    }
}

/// Length of the quoted run at the start of `s`, both delimiters included, if
/// `s` starts with `q` and an unescaped `q` follows.
pub open spec fn quoted_len(q: char, s: Seq<char>) -> Option<nat> {
    if s.len() > 0 && s[0] == q {
        match closing_quote(q, s.skip(1)) {
            Some(n) => Some(n + 2),
            None => None,
        }
    } else {
        None
    }
}

/// Length of the redirect operator at the start of `s`, if `s` starts with
/// one. `>>` is preferred to `>`.
pub open spec fn redirect_len(s: Seq<char>) -> Option<nat> {
    if s.len() >= 2 && s[0] == '>' && s[1] == '>' {
        Some(2)
    } else if s.len() >= 1 && s[0] == '>' {
        Some(1)
    } else {
        None
    }
}

/// The raw run at the start of `s` lies within `s`.
pub proof fn lemma_raw_run_len_bound(s: Seq<char>)
    ensures
        raw_run_len(s) <= s.len(),
    decreases s.len(),
{
    if s.len() == 0 {
    } else if s[0] == '\\' {
        if s.len() > 1 {
            lemma_raw_run_len_bound(s.skip(2));
        }
    } else if !is_delimiter(s[0]) {
        lemma_raw_run_len_bound(s.skip(1));
    }
}

/// A closing quote lies within `s`, and is the character `q`.
pub proof fn lemma_closing_quote_bound(q: char, s: Seq<char>)
    ensures
        closing_quote(q, s) matches Some(n) ==> n < s.len() && s[n as int] == q,
    decreases s.len(),
{
    if s.len() == 0 {
    } else if s[0] == '\\' {
        if s.len() > 1 {
            lemma_closing_quote_bound(q, s.skip(2));
        }
    } else if s[0] != q {
        lemma_closing_quote_bound(q, s.skip(1));
    }
}

/// A quoted run has its two delimiters at least, and lies within `s`.
pub proof fn lemma_quoted_len_bound(q: char, s: Seq<char>)
    ensures
        quoted_len(q, s) matches Some(n) ==> 2 <= n <= s.len(),
{
    if s.len() > 0 {
        lemma_closing_quote_bound(q, s.skip(1));
    }
}

// ---------------------------------------------------------------------------
// Words
// ---------------------------------------------------------------------------

/// Length of the run at the start of `s`: a single-quoted run, else a
/// double-quoted run, else a raw word.
pub open spec fn run_len(s: Seq<char>) -> Option<nat> {
    match quoted_len('\'', s) {
        Some(n) => Some(n),
        None => match quoted_len('"', s) {
            Some(n) => Some(n),
            None => raw_word_len(s),
        },
    }
}

/// Total length of the runs that follow one another at the start of `s`.
pub open spec fn runs_len(s: Seq<char>) -> nat
    decreases s.len(),
    via runs_len_decreases
{
    match run_len(s) {
        Some(n) => n + runs_len(s.skip(n as int)),
        None => 0,
    }
}

#[via_fn]
proof fn runs_len_decreases(s: Seq<char>) {
    lemma_run_len_bound(s);
}

/// Length of the word at the start of `s`, if `s` starts with a run.
pub open spec fn word_len(s: Seq<char>) -> Option<nat> {
    if runs_len(s) == 0 {
        None
    } else {
        Some(runs_len(s))
    }
}

/// A run is not empty and lies within `s`.
pub proof fn lemma_run_len_bound(s: Seq<char>)
    ensures
        run_len(s) matches Some(n) ==> 0 < n <= s.len(),
{
    if s.len() > 0 {
        lemma_closing_quote_bound('\'', s.skip(1));
        lemma_closing_quote_bound('"', s.skip(1));
    }
    lemma_raw_run_len_bound(s);
}

/// The runs at the start of `s` lie within `s`, and no run follows them.
pub proof fn lemma_runs_len_bound(s: Seq<char>)
    ensures
        runs_len(s) <= s.len(),
        run_len(s.skip(runs_len(s) as int)) is None,
        run_len(s) is Some ==> runs_len(s) > 0,
    decreases s.len(),
{
    lemma_run_len_bound(s);
    match run_len(s) {
        Some(n) => {
            lemma_runs_len_bound(s.skip(n as int));
            lemma_skip_skip(s, n as int, runs_len(s.skip(n as int)) as int);
        },
        None => {
            assert(s.skip(0) =~= s);
        },
    }
}

// ---------------------------------------------------------------------------
// Lines
// ---------------------------------------------------------------------------

/// Length of the token at the start of `s`: a word, else a redirect operator.
pub open spec fn token_len(s: Seq<char>) -> Option<nat> {
    match word_len(s) {
        Some(n) => Some(n),
        None => redirect_len(s),
    }
}

/// The token is a redirect operator, `>` or `>>`, and no word.
pub open spec fn is_operator(token: Seq<char>) -> bool {
    token.len() > 0 && redirect_len(token) == Some(token.len())
}

/// The tokens of the line `s`, in order: whitespace is skipped, a token is
/// taken, and so on until no token follows.
pub open spec fn tokens_of(s: Seq<char>) -> Seq<Seq<char>>
    decreases s.len(),
    via tokens_of_decreases
{
    let t = trimmed_start(s);
    match token_len(t) {
        Some(n) => seq![t.take(n as int)] + tokens_of(t.skip(n as int)),
        None => Seq::empty(),
    }
}

/// What is left of the line `s` after its tokens and the whitespace that
/// follows them. It is empty where the whole line was split into tokens.
pub open spec fn remainder(s: Seq<char>) -> Seq<char>
    decreases s.len(),
    via remainder_decreases
{
    let t = trimmed_start(s);
    match token_len(t) {
        Some(n) => remainder(t.skip(n as int)),
        None => t,
    }
}

#[via_fn]
proof fn tokens_of_decreases(s: Seq<char>) {
    lemma_leading_white_space_bound(s);
    lemma_token_len_bound(trimmed_start(s));
}

#[via_fn]
proof fn remainder_decreases(s: Seq<char>) {
    lemma_leading_white_space_bound(s);
    lemma_token_len_bound(trimmed_start(s));
}

/// A token is not empty and lies within `s`.
pub proof fn lemma_token_len_bound(s: Seq<char>)
    ensures
        token_len(s) matches Some(n) ==> 0 < n <= s.len(),
{
    lemma_runs_len_bound(s);
}

/// The error that a line is rejected with, given what is left of it.
pub open spec fn rejection(rest: Seq<char>) -> ParseError {
    if rest.len() > 0 && (rest[0] == '\'' || rest[0] == '"') {
        ParseError::QuoteMissing
    } else {
        ParseError::UnknownToken
    }
}

/// Where no token starts `s`, and `s` is neither empty nor starts with
/// whitespace, `s` starts with a quote that is never closed.
pub proof fn lemma_stuck_on_open_quote(s: Seq<char>)
    requires
        token_len(s) is None,
        s.len() > 0,
        !is_white_space(s[0]),
    ensures
        s[0] == '\'' || s[0] == '"',
        quoted_len(s[0], s) is None,
{
    lemma_runs_len_bound(s);
}

/// What is left of a rejected line starts with a quote that is never closed:
/// no line is rejected for anything but a missing quote.
pub proof fn lemma_rejected_for_missing_quote(line: Seq<char>)
    requires
        remainder(line).len() > 0,
    ensures
        rejection(remainder(line)) == ParseError::QuoteMissing,
        quoted_len(remainder(line)[0], remainder(line)) is None,
    decreases line.len(),
{
    let t = trimmed_start(line);
    lemma_leading_white_space_is_maximal(line);
    lemma_token_len_bound(t);
    match token_len(t) {
        Some(n) => {
            lemma_rejected_for_missing_quote(t.skip(n as int));
        },
        None => {
            lemma_stuck_on_open_quote(t);
        },
    }
}

/// A line of nothing but whitespace has no tokens, and nothing is left of
/// it.
pub proof fn lemma_blank_line(line: Seq<char>)
    requires
        forall|i: int| 0 <= i < line.len() ==> is_white_space(line[i]),
    ensures
        tokens_of(line) == Seq::<Seq<char>>::empty(),
        remainder(line).len() == 0,
{
    lemma_leading_white_space_is_maximal(line);
    assert(trimmed_start(line) =~= Seq::<char>::empty());
}

/// `line` is made of `tokens`, in order, with nothing but whitespace before
/// them, between them and after them.
pub open spec fn laid_out(line: Seq<char>, tokens: Seq<Seq<char>>) -> bool
    decreases tokens.len(),
{
    let t = trimmed_start(line);
    if tokens.len() == 0 {
        t.len() == 0
    } else {
        let n = tokens[0].len() as int;
        n <= t.len() && t.take(n) == tokens[0] && laid_out(t.skip(n), tokens.skip(1))
    }
}

/// An accepted line is made of its tokens and of whitespace: nothing of it
/// is dropped but whitespace, and no token holds anything that is not in the
/// line.
pub proof fn lemma_tokens_lie_in_line(line: Seq<char>)
    requires
        remainder(line).len() == 0,
    ensures
        laid_out(line, tokens_of(line)),
    decreases line.len(),
{
    let t = trimmed_start(line);
    lemma_leading_white_space_bound(line);
    lemma_token_len_bound(t);
    if let Some(n) = token_len(t) {
        let u = t.skip(n as int);
        lemma_tokens_lie_in_line(u);
        assert(tokens_of(line).skip(1) =~= tokens_of(u));
        assert(tokens_of(line)[0] == t.take(n as int));
    }
}

// ---------------------------------------------------------------------------
// Tokens on their own
// ---------------------------------------------------------------------------

/// A raw run is the raw run of every prefix that holds it.
pub proof fn lemma_raw_run_in_prefix(s: Seq<char>, upto: int)
    requires
        raw_run_len(s) <= upto <= s.len(),
    ensures
        raw_run_len(s.take(upto)) == raw_run_len(s),
    decreases s.len(),
{
    let p = s.take(upto);
    if s.len() == 0 || upto == 0 {
    } else if s[0] == '\\' {
        if s.len() > 1 {
            lemma_raw_run_in_prefix(s.skip(2), upto - 2);
            assert(p.skip(2) =~= s.skip(2).take(upto - 2));
        }
    } else if !is_delimiter(s[0]) {
        lemma_raw_run_in_prefix(s.skip(1), upto - 1);
        assert(p.skip(1) =~= s.skip(1).take(upto - 1));
    }
}

/// A closing quote is the closing quote of every prefix that holds it.
pub proof fn lemma_closing_quote_in_prefix(q: char, s: Seq<char>, upto: int)
    requires
        closing_quote(q, s) matches Some(k) && k < upto <= s.len(),
    ensures
        closing_quote(q, s.take(upto)) == closing_quote(q, s),
    decreases s.len(),
{
    let p = s.take(upto);
    if s[0] == '\\' {
        lemma_closing_quote_in_prefix(q, s.skip(2), upto - 2);
        assert(p.skip(2) =~= s.skip(2).take(upto - 2));
    } else if s[0] != q {
        lemma_closing_quote_in_prefix(q, s.skip(1), upto - 1);
        assert(p.skip(1) =~= s.skip(1).take(upto - 1));
    }
}

/// A run is the run of every prefix that holds it.
pub proof fn lemma_run_in_prefix(s: Seq<char>, upto: int)
    requires
        run_len(s) matches Some(n) && n <= upto <= s.len(),
    ensures
        run_len(s.take(upto)) == run_len(s),
{
    let p = s.take(upto);
    lemma_run_len_bound(s);
    assert(p.skip(1) =~= s.skip(1).take(upto - 1));
    if quoted_len('\'', s) is Some {
        lemma_closing_quote_in_prefix('\'', s.skip(1), upto - 1);
    } else if quoted_len('"', s) is Some {
        lemma_closing_quote_in_prefix('"', s.skip(1), upto - 1);
    } else {
        lemma_raw_run_in_prefix(s, upto);
    }
}

/// The runs at the start of `s`, taken on their own, are runs from end to
/// end.
pub proof fn lemma_runs_on_their_own(s: Seq<char>)
    ensures
        runs_len(s) <= s.len(),
        runs_len(s.take(runs_len(s) as int)) == runs_len(s),
    decreases s.len(),
{
    let all = runs_len(s) as int;
    lemma_runs_len_bound(s);
    lemma_run_len_bound(s);
    match run_len(s) {
        Some(n) => {
            let t = s.skip(n as int);
            lemma_runs_on_their_own(t);
            lemma_run_in_prefix(s, all);
            assert(s.take(all).skip(n as int) =~= t.take(all - n));
        },
        None => {
            assert(run_len(s.take(0)) is None);
        },
    }
}

/// A token, taken on its own, is a token from end to end.
pub proof fn lemma_token_on_its_own(s: Seq<char>)
    ensures
        token_len(s) matches Some(n) ==> n <= s.len() && token_len(s.take(n as int)) == Some(n),
{
    lemma_token_len_bound(s);
    lemma_runs_on_their_own(s);
    if word_len(s) is None {
        if let Some(n) = redirect_len(s) {
            let p = s.take(n as int);
            assert(p[0] == '>');
            assert(run_len(p) is None);
        }
    }
}

/// Every token of a line is a token from end to end: read as a line of its
/// own, it is its one token, and nothing is left of it.
pub proof fn lemma_tokens_are_tokens(line: Seq<char>, i: int)
    requires
        0 <= i < tokens_of(line).len(),
    ensures
        token_len(tokens_of(line)[i]) == Some(tokens_of(line)[i].len()),
        tokens_of(tokens_of(line)[i]) == seq![tokens_of(line)[i]],
        remainder(tokens_of(line)[i]).len() == 0,
    decreases line.len(),
{
    let t = trimmed_start(line);
    lemma_leading_white_space_is_maximal(line);
    lemma_token_len_bound(t);
    let n = token_len(t)->0;
    let token = t.take(n as int);
    let u = t.skip(n as int);
    assert(tokens_of(line) == seq![token] + tokens_of(u));
    if i == 0 {
        lemma_token_on_its_own(t);
        assert(token[0] == t[0]);
        lemma_leading_white_space_is_maximal(token);
        assert(trimmed_start(token) =~= token);
        let e = token.skip(n as int);
        assert(e =~= Seq::<char>::empty());
        assert(token.take(n as int) =~= token);
        assert(trimmed_start(e) =~= e);
        assert(token_len(e) is None);
        assert(tokens_of(e) =~= Seq::<Seq<char>>::empty());
        assert(remainder(e) == e);
        assert(seq![token] + tokens_of(e) =~= seq![token]);
    } else {
        assert(tokens_of(line)[i] == tokens_of(u)[i - 1]);
        lemma_tokens_are_tokens(u, i - 1);
    }
}

// ---------------------------------------------------------------------------
// The plain splitter
// ---------------------------------------------------------------------------

/// The quote context after a character `c` that no backslash escapes, read
/// in the context `quote`: a quote character opens its kind of quote where
/// none is open, and closes it where it is open.
pub open spec fn toggled(quote: Option<Quote>, c: char) -> Option<Quote> {
    match quote {
        None => if c == '\'' {
            Some(Quote::SingleQuote)
        } else if c == '"' {
            Some(Quote::DoubleQuote)
        } else {
            None
        },
        Some(q) => if c == q.delimiter() {
            None
        } else {
            quote
        },
    }
}

/// `words` first, then what `later` holds; the error of `later` where it is
/// one.
pub open spec fn after(words: Seq<Seq<char>>, later: Result<Seq<Seq<char>>, ParseError>) -> Result<
    Seq<Seq<char>>,
    ParseError,
> {
    match later {
        Ok(more) => Ok(words + more),
        Err(e) => Err(e),
    }
}

/// The words of `s` from position `i` on, for a scan that stands in the
/// quote context `quote` and in a word that began at `start`, if in any.
///
/// A backslash and the character after it are passed over. Any other
/// character first opens or closes a quote. ASCII whitespace outside quotes
/// ends the word; another character begins a word where none is begun. At
/// the end of `s` the word ends, unless a quote is open.
pub open spec fn words_from(s: Seq<char>, i: int, start: Option<int>, quote: Option<Quote>) -> Result<
    Seq<Seq<char>>,
    ParseError,
>
    recommends
        0 <= i,
        start matches Some(begin) ==> 0 <= begin <= i,
    decreases s.len() + 1 - i,
{
    if i >= s.len() {
        match start {
            Some(begin) => if quote is Some {
                Err(ParseError::QuoteMissing)
            } else {
                Ok(seq![s.subrange(begin, s.len() as int)])
            },
            None => Ok(Seq::empty()),
        }
    } else if s[i] == '\\' {
        words_from(s, i + 2, start, quote)
    } else {
        let quote = toggled(quote, s[i]);
        if is_ascii_white_space(s[i]) {
            if quote is None && start is Some {
                after(seq![s.subrange(start->0, i)], words_from(s, i + 1, None, quote))
            } else {
                words_from(s, i + 1, start, quote)
            }
        } else if start is None {
            words_from(s, i + 1, Some(i), quote)
        } else {
            words_from(s, i + 1, start, quote)
        }
    }
}

/// The words of the line `s` as the plain splitter sees them.
pub open spec fn plain_words(s: Seq<char>) -> Result<Seq<Seq<char>>, ParseError> {
    words_from(s, 0, None, None)
}

} // verus!
