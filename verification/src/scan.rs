//! A one-pass reading of a line, and what it has in common with the grammar.
//!
//! The reading goes through the line once, from left to right, and keeps
//! four things: the quote that is open, whether it stands inside a word, and
//! how many words and redirect operators have begun. It knows nothing of
//! runs, words or tokens as the grammar defines them. This module proves
//! that the two agree: a line is split into tokens exactly where the reading
//! ends with no quote open, and then it has as many tokens as the reading
//! counted words and operators.

use vstd::prelude::*;
use crate::grammar::{
    closing_quote, is_delimiter, is_operator, lemma_closing_quote_bound, lemma_raw_run_len_bound,
    lemma_run_len_bound, lemma_runs_len_bound, lemma_stuck_on_open_quote, lemma_token_len_bound,
    quoted_len, raw_run_len, remainder, run_len, runs_len, toggled, token_len, tokens_of,
    word_len,
};
use crate::text::{
    is_white_space, leading_white_space, lemma_leading_white_space_bound,
    lemma_leading_white_space_is_maximal, lemma_skip_skip, trimmed_start,
};
use crate::tokenize::Quote;

verus! {

/// What the reading keeps between two characters.
pub struct Scan {
    /// The quote that is open, if any.
    pub quote: Option<Quote>,
    /// The character before belongs to a word.
    pub in_word: bool,
    /// The words that have begun.
    pub words: nat,
    /// The redirect operators that have been read.
    pub operators: nat,
}

impl Scan {
    /// Before the first character: no quote open, no word begun.
    pub open spec fn start() -> Scan {
        Scan { quote: None, in_word: false, words: 0, operators: 0 }
    }

    /// After a character of a word: a word begins unless one is under way.
    pub open spec fn word_char(self) -> Scan {
        if self.in_word {
            self
        } else {
            Scan { in_word: true, words: self.words + 1, ..self }
        }
    }

    /// After whitespace outside quotes: the word, if any, has ended.
    pub open spec fn space(self) -> Scan {
        Scan { in_word: false, ..self }
    }

    /// After a redirect operator: it is counted, and the word, if any, has
    /// ended.
    pub open spec fn operator(self) -> Scan {
        Scan { in_word: false, operators: self.operators + 1, ..self }
    }

    /// With the open quote replaced.
    pub open spec fn quoting(self, quote: Option<Quote>) -> Scan {
        Scan { quote, ..self }
    }
}

/// The reading of `s` that begins in the state `from`.
///
/// A backslash belongs to a word, and so does the character after it,
/// whatever it is. Inside a quote every other character only closes the
/// quote or leaves it open. Outside quotes whitespace ends a word, `>>` or
/// else `>` is an operator, and any other character belongs to a word and
/// may open a quote.
pub open spec fn scanned(s: Seq<char>, from: Scan) -> Scan
    decreases s.len(),
{
    if s.len() == 0 {
        from
    } else if s[0] == '\\' {
        if s.len() == 1 {
            from.word_char()
        } else {
            scanned(s.skip(2), from.word_char())
        }
    } else if from.quote is Some {
        scanned(s.skip(1), from.quoting(toggled(from.quote, s[0])))
    } else if is_white_space(s[0]) {
        scanned(s.skip(1), from.space())
    } else if s[0] == '>' {
        if s.len() > 1 && s[1] == '>' {
            scanned(s.skip(2), from.operator())
        } else {
            scanned(s.skip(1), from.operator())
        }
    } else {
        scanned(s.skip(1), from.word_char().quoting(toggled(None, s[0])))
    }
}

/// Every quote that the line opens is closed before the line ends.
pub open spec fn balanced(line: Seq<char>) -> bool {
    scanned(line, Scan::start()).quote is None
}

/// The number of words of the line.
pub open spec fn word_count(line: Seq<char>) -> nat {
    scanned(line, Scan::start()).words
}

/// The number of redirect operators of the line.
pub open spec fn operator_count(line: Seq<char>) -> nat {
    scanned(line, Scan::start()).operators
}

/// The number of redirect operators among `tokens`.
pub open spec fn operators_among(tokens: Seq<Seq<char>>) -> nat
    decreases tokens.len(),
{
    if tokens.len() == 0 {
        0
    } else if is_operator(tokens[0]) {
        1 + operators_among(tokens.skip(1))
    } else {
        operators_among(tokens.skip(1))
    }
}

/// The number of words among `tokens`.
pub open spec fn words_among(tokens: Seq<Seq<char>>) -> nat
    decreases tokens.len(),
{
    if tokens.len() == 0 {
        0
    } else if is_operator(tokens[0]) {
        words_among(tokens.skip(1))
    } else {
        1 + words_among(tokens.skip(1))
    }
}

/// Every token is a word or an operator, and none is both.
pub proof fn lemma_words_and_operators(tokens: Seq<Seq<char>>)
    ensures
        words_among(tokens) + operators_among(tokens) == tokens.len(),
    decreases tokens.len(),
{
    if tokens.len() > 0 {
        lemma_words_and_operators(tokens.skip(1));
    }
}

/// Reading leading whitespace outside quotes ends the word and changes
/// nothing else.
proof fn lemma_scan_white_space(s: Seq<char>, from: Scan)
    requires
        from.quote is None,
    ensures
        scanned(s, from) == scanned(
            trimmed_start(s),
            if leading_white_space(s) > 0 {
                from.space()
            } else {
                from
            },
        ),
    decreases s.len(),
{
    if s.len() > 0 && is_white_space(s[0]) {
        let t = s.skip(1);
        lemma_scan_white_space(t, from.space());
        lemma_leading_white_space_bound(t);
        lemma_skip_skip(s, 1, leading_white_space(t) as int);
    } else {
        assert(s.skip(0) =~= s);
    }
}

/// Reading a raw run outside quotes begins a word, unless the run is empty.
proof fn lemma_scan_raw_run(s: Seq<char>, from: Scan)
    requires
        from.quote is None,
    ensures
        scanned(s, from) == scanned(
            s.skip(raw_run_len(s) as int),
            if raw_run_len(s) > 0 {
                from.word_char()
            } else {
                from
            },
        ),
    decreases s.len(),
{
    if s.len() == 0 {
        assert(s.skip(0) =~= s);
    } else if s[0] == '\\' {
        if s.len() == 1 {
            assert(s.skip(1) =~= Seq::<char>::empty());
        } else {
            let t = s.skip(2);
            lemma_scan_raw_run(t, from.word_char());
            lemma_raw_run_len_bound(t);
            lemma_skip_skip(s, 2, raw_run_len(t) as int);
        }
    } else if is_delimiter(s[0]) {
        assert(s.skip(0) =~= s);
    } else {
        let t = s.skip(1);
        lemma_scan_raw_run(t, from.word_char());
        lemma_raw_run_len_bound(t);
        lemma_skip_skip(s, 1, raw_run_len(t) as int);
    }
}

/// Reading inside a quote goes on to the closing quote and past it; where
/// there is none, the quote stays open to the end.
proof fn lemma_scan_to_closing_quote(q: Quote, body: Seq<char>, from: Scan)
    requires
        from.quote == Some(q),
        from.in_word,
    ensures
        match closing_quote(q.delimiter(), body) {
            Some(k) => scanned(body, from) == scanned(body.skip(k as int + 1), from.quoting(None)),
            None => scanned(body, from).quote is Some,
        },
    decreases body.len(),
{
    if body.len() == 0 {
    } else if body[0] == '\\' {
        if body.len() > 1 {
            let t = body.skip(2);
            lemma_scan_to_closing_quote(q, t, from);
            lemma_closing_quote_bound(q.delimiter(), t);
            if let Some(k) = closing_quote(q.delimiter(), t) {
                lemma_skip_skip(body, 2, k as int + 1);
            }
        }
    } else if body[0] == q.delimiter() {
    } else {
        let t = body.skip(1);
        lemma_scan_to_closing_quote(q, t, from);
        lemma_closing_quote_bound(q.delimiter(), t);
        if let Some(k) = closing_quote(q.delimiter(), t) {
            lemma_skip_skip(body, 1, k as int + 1);
        }
    }
}

/// Reading a quoted run outside quotes begins a word and ends outside
/// quotes; reading a quote that is never closed leaves it open.
proof fn lemma_scan_quoted(q: Quote, s: Seq<char>, from: Scan)
    requires
        from.quote is None,
        s.len() > 0,
        s[0] == q.delimiter(),
    ensures
        match quoted_len(q.delimiter(), s) {
            Some(m) => scanned(s, from) == scanned(s.skip(m as int), from.word_char()),
            None => scanned(s, from).quote is Some,
        },
{
    let inside = from.word_char().quoting(Some(q));
    assert(toggled(None, s[0]) == Some(q));
    lemma_scan_to_closing_quote(q, s.skip(1), inside);
    lemma_closing_quote_bound(q.delimiter(), s.skip(1));
    if let Some(k) = closing_quote(q.delimiter(), s.skip(1)) {
        lemma_skip_skip(s, 1, k as int + 1);
        assert(inside.quoting(None) == from.word_char());
    }
}

/// Reading a run outside quotes begins a word and ends outside quotes.
proof fn lemma_scan_run(s: Seq<char>, from: Scan)
    requires
        from.quote is None,
    ensures
        run_len(s) matches Some(m) ==> scanned(s, from) == scanned(
            s.skip(m as int),
            from.word_char(),
        ),
{
    if quoted_len('\'', s) is Some {
        lemma_scan_quoted(Quote::SingleQuote, s, from);
    } else if quoted_len('"', s) is Some {
        lemma_scan_quoted(Quote::DoubleQuote, s, from);
    } else {
        lemma_scan_raw_run(s, from);
    }
}

/// Reading the runs of a word outside quotes begins a word and ends outside
/// quotes.
proof fn lemma_scan_runs(s: Seq<char>, from: Scan)
    requires
        from.quote is None,
    ensures
        runs_len(s) > 0 ==> scanned(s, from) == scanned(
            s.skip(runs_len(s) as int),
            from.word_char(),
        ),
    decreases s.len(),
{
    lemma_run_len_bound(s);
    if let Some(n) = run_len(s) {
        let t = s.skip(n as int);
        lemma_scan_run(s, from);
        lemma_scan_runs(t, from.word_char());
        lemma_runs_len_bound(t);
        if runs_len(t) > 0 {
            lemma_skip_skip(s, n as int, runs_len(t) as int);
        } else {
            assert(s.skip(n as int + 0) =~= t);
        }
    }
}

/// Before whitespace or an operator outside quotes, it makes no difference
/// to the reading whether a word is under way.
proof fn lemma_scan_boundary(s: Seq<char>, from: Scan)
    requires
        from.quote is None,
        s.len() > 0,
        is_white_space(s[0]) || s[0] == '>',
    ensures
        scanned(s, from) == scanned(s, from.space()),
{
    assert(from.space().space() == from.space());
    assert(from.space().operator() == from.operator());
}

/// The reading and the grammar agree on what follows a token boundary: the
/// rest of the line is split into tokens exactly where the reading ends
/// with no quote open, and then there are as many tokens as words and
/// operators that the reading has counted on the way.
proof fn lemma_scan_tokens(s: Seq<char>, from: Scan)
    requires
        from.quote is None,
        !from.in_word,
    ensures
        remainder(s).len() == 0 ==> {
            &&& scanned(s, from).quote is None
            &&& scanned(s, from).words == from.words + words_among(tokens_of(s))
            &&& scanned(s, from).operators == from.operators + operators_among(tokens_of(s))
        },
        remainder(s).len() > 0 ==> scanned(s, from).quote is Some,
    decreases s.len(),
{
    let t = trimmed_start(s);
    lemma_scan_white_space(s, from);
    lemma_leading_white_space_is_maximal(s);
    assert(from.space() == from);
    assert(scanned(s, from) == scanned(t, from));
    lemma_token_len_bound(t);
    lemma_runs_len_bound(t);
    match token_len(t) {
        None => {
            assert(tokens_of(s) =~= Seq::<Seq<char>>::empty());
            assert(remainder(s) == t);
            if t.len() > 0 {
                lemma_stuck_on_open_quote(t);
                if t[0] == '\'' {
                    lemma_scan_quoted(Quote::SingleQuote, t, from);
                } else {
                    lemma_scan_quoted(Quote::DoubleQuote, t, from);
                }
            }
        },
        Some(n) => {
            let u = t.skip(n as int);
            let token = t.take(n as int);
            assert(remainder(s) == remainder(u));
            assert(tokens_of(s) == seq![token] + tokens_of(u));
            assert(tokens_of(s).skip(1) =~= tokens_of(u));
            assert(tokens_of(s)[0] == token);
            assert(token[0] == t[0]);
            if word_len(t) is Some {
                assert(!is_operator(token)) by {
                    lemma_run_len_bound(t);
                }
                assert(words_among(tokens_of(s)) == 1 + words_among(tokens_of(u)));
                assert(operators_among(tokens_of(s)) == operators_among(tokens_of(u)));
                let at_end = from.word_char();
                lemma_scan_runs(t, from);
                assert(scanned(t, from) == scanned(u, at_end));
                lemma_runs_len_bound(u);
                if u.len() == 0 {
                    assert(trimmed_start(u) =~= u);
                    assert(token_len(u) is None);
                    assert(tokens_of(u) =~= Seq::<Seq<char>>::empty());
                    assert(remainder(u) == u);
                } else if is_white_space(u[0]) || u[0] == '>' {
                    lemma_scan_boundary(u, at_end);
                    lemma_scan_tokens(u, at_end.space());
                } else {
                    assert(trimmed_start(u) =~= u);
                    assert(token_len(u) is None);
                    assert(remainder(u) == u);
                    lemma_stuck_on_open_quote(u);
                    if u[0] == '\'' {
                        lemma_scan_quoted(Quote::SingleQuote, u, at_end);
                    } else {
                        lemma_scan_quoted(Quote::DoubleQuote, u, at_end);
                    }
                }
            } else {
                assert(is_operator(token));
                assert(words_among(tokens_of(s)) == words_among(tokens_of(u)));
                assert(operators_among(tokens_of(s)) == 1 + operators_among(tokens_of(u)));
                assert(scanned(t, from) == scanned(u, from.operator()));
                lemma_scan_tokens(u, from.operator());
            }
        },
    }
}

/// A line is split into tokens, with nothing left, exactly where its quotes
/// are balanced.
pub proof fn lemma_balanced_lines_are_accepted(line: Seq<char>)
    ensures
        balanced(line) <==> remainder(line).len() == 0,
{
    lemma_scan_tokens(line, Scan::start());
}

/// A line with balanced quotes has as many tokens as it has words and
/// redirect operators: as many of its tokens are operators as it has
/// operators, and the others are as many as it has words.
pub proof fn lemma_token_count(line: Seq<char>)
    requires
        balanced(line),
    ensures
        tokens_of(line).len() == word_count(line) + operator_count(line),
        words_among(tokens_of(line)) == word_count(line),
        operators_among(tokens_of(line)) == operator_count(line),
{
    lemma_scan_tokens(line, Scan::start());
    lemma_words_and_operators(tokens_of(line));
}

} // verus!
