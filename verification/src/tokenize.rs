//! Splitting a command line into raw tokens.
//!
//! The tokenizer is built from small parsers and from combinators that make
//! parsers of parsers. Tokens are slices of the line: quotes and backslashes
//! are kept, and resolved later.

use vstd::prelude::*;
use crate::grammar::{
    after, closing_quote, lemma_quoted_len_bound, lemma_raw_run_len_bound,
    lemma_rejected_for_missing_quote, lemma_run_len_bound, lemma_runs_len_bound,
    lemma_token_len_bound, plain_words, quoted_len, raw_run_len, raw_word_len, redirect_len,
    rejection, remainder, run_len, runs_len, token_len, tokens_of, word_len, words_from,
};
use crate::scan::{
    balanced, lemma_balanced_lines_are_accepted, lemma_token_count, operator_count, word_count,
};
use crate::text::{
    chars_of, is_ascii_whitespace, is_whitespace, lemma_leading_white_space_bound,
    lemma_skip_skip, split_at_char, trim_start, trimmed_start,
};

verus! {

/// Why a line could not be split into tokens or turned into a command.
#[derive(Debug, PartialEq, Eq, Clone, Copy, Structural)]
pub enum ParseError {
    /// The line ended inside a quoted run.
    QuoteMissing,
    /// What is left of the line starts with something that is neither
    /// whitespace, nor a token, nor a quote character. The grammar as it
    /// stands takes every such character into a word, so that no line is
    /// rejected with this error.
    UnknownToken,
    /// A redirect operator is the last word of the line.
    RedirectTargetMissing,
}

/// The two kinds of quoted run.
#[derive(Debug, Clone, Copy, PartialEq, Eq, Structural)]
pub enum Quote {
    SingleQuote,
    DoubleQuote,
}

impl Quote {
    /// The character that opens and closes this kind of quoted run.
    pub open spec fn delimiter(&self) -> char {
        match self {
            Quote::SingleQuote => '\'',
            Quote::DoubleQuote => '"',
        }
    }

    /// The character that opens and closes this kind of quoted run.
    #[verifier::when_used_as_spec(delimiter)]
    pub fn ch(&self) -> (c: char)
        ensures
            c == self.delimiter(),
    {
        match self {
            Quote::SingleQuote => '\'',
            Quote::DoubleQuote => '"',
        }
    }
}

/// A parser takes an input and either fails, or yields a value and the rest
/// of the input.
pub trait Parser<'a, T>: Fn(&'a str) -> Option<(T, &'a str)> {

}

impl<'a, T, F> Parser<'a, T> for F where F: Fn(&'a str) -> Option<(T, &'a str)> {

}

// ---------------------------------------------------------------------------
// What a parser returns
// ---------------------------------------------------------------------------

/// `s` cut after `n` characters, or nothing where there is no `n`.
pub open spec fn cut(s: Seq<char>, n: Option<nat>) -> Option<(Seq<char>, Seq<char>)> {
    match n {
        Some(n) => Some((s.take(n as int), s.skip(n as int))),
        None => None,
    }
}

/// What a parser of string slices returned, as sequences of characters.
pub open spec fn parts<'a>(r: Option<(&'a str, &'a str)>) -> Option<(Seq<char>, Seq<char>)> {
    match r {
        Some((head, rest)) => Some((head@, rest@)),
        None => None,
    }
}

/// Where `r` is a success, it is a way to split `s` in two, and the first
/// of the two is not empty.
pub open spec fn consumes<'a>(s: &'a str, r: Option<(&'a str, &'a str)>) -> bool {
    r matches Some((head, rest)) ==> head@.len() > 0 && head@ + rest@ == s@
}

/// The tokens as sequences of characters.
pub open spec fn texts(tokens: Seq<&str>) -> Seq<Seq<char>> {
    Seq::new(tokens.len(), |i: int| tokens[i]@)
}

/// A cut within `s` splits `s`: the two pieces, put together, are `s`.
pub proof fn lemma_cut_splits(s: Seq<char>, n: Option<nat>)
    requires
        n matches Some(n) ==> n <= s.len(),
    ensures
        cut(s, n) matches Some((head, rest)) ==> head.len() == n->0 && head + rest == s,
{
    if let Some(n) = n {
        assert(s.take(n as int) + s.skip(n as int) =~= s);
    }
}

// ---------------------------------------------------------------------------
// Leaf parsers
// ---------------------------------------------------------------------------

/// Parses a raw word: a non-empty raw run.
pub fn raw_word(s: &str) -> (r: Option<(&str, &str)>)
    ensures
        parts(r) == cut(s@, raw_word_len(s@)),
        consumes(s, r),
{
    proof {
        lemma_raw_run_len_bound(s@);
        lemma_cut_splits(s@, raw_word_len(s@));
    }
    let chars = chars_of(s);
    let n = chars.len();
    let mut i: usize = 0;
    assert(s@.skip(0) =~= s@);
    while i < n
        invariant
            chars@ == s@,
            n == chars.len(),
            i <= n,
            raw_run_len(s@) == i + raw_run_len(s@.skip(i as int)),
        ensures
            i <= n,
            raw_run_len(s@) == i,
        decreases n - i,
    {
        let c = chars[i];
        if c == '\\' {
            if i + 1 < n {
                proof {
                    lemma_skip_skip(s@, i as int, 2);
                }
                i += 2;
            } else {
                i += 1;
            }
        } else if is_whitespace(c) || c == '\'' || c == '"' || c == '>' {
            break ;
        } else {
            proof {
                lemma_skip_skip(s@, i as int, 1);
            }
            i += 1;
        }
    }
    if i == 0 {
        None
    } else {
        Some(split_at_char(s, i, n))
    }
}

/// Applies `quoted(ch)` to `s`.
fn quoted_at<'a>(ch: char, s: &'a str) -> (r: Option<(&'a str, &'a str)>)
    ensures
        parts(r) == cut(s@, quoted_len(ch, s@)),
        consumes(s, r),
{
    proof {
        lemma_quoted_len_bound(ch, s@);
        lemma_cut_splits(s@, quoted_len(ch, s@));
    }
    let chars = chars_of(s);
    let n = chars.len();
    if n == 0 || chars[0] != ch {
        return None;
    }
    let ghost body = s@.skip(1);
    let mut i: usize = 1;
    let mut found = false;
    assert(body.skip(0) =~= body);
    while i < n
        invariant_except_break
            !found,
        invariant
            chars@ == s@,
            n == chars.len(),
            body == s@.skip(1),
            1 <= i <= n,
            closing_quote(ch, body) == match closing_quote(ch, body.skip(i - 1)) {
                Some(k) => Some((k + i - 1) as nat),
                None => None,
            },
        ensures
            1 <= i <= n,
            found ==> i < n && closing_quote(ch, body) == Some((i - 1) as nat),
            !found ==> closing_quote(ch, body) is None,
        decreases n - i,
    {
        let c = chars[i];
        assert(body.skip(i - 1)[0] == c);
        if c == '\\' {
            if i + 1 < n {
                proof {
                    lemma_skip_skip(body, i - 1, 2);
                }
                i += 2;
            } else {
                i += 1;
            }
        } else if c == ch {
            found = true;
            break ;
        } else {
            proof {
                lemma_skip_skip(body, i - 1, 1);
            }
            i += 1;
        }
    }
    if found {
        Some(split_at_char(s, i + 1, n))
    } else {
        None
    }
}

/// A parser of one quoted run delimited by `ch`: the input must start with
/// `ch`, and the run ends with the next `ch` that no backslash escapes. The
/// run is returned with both delimiters.
pub fn quoted<'a>(ch: char) -> (p: impl Parser<'a, &'a str>)
    ensures
        forall|s: &'a str| p.requires((s,)),
        forall|s: &'a str, r: Option<(&'a str, &'a str)>|
            #![trigger p.ensures((s,), r)]
            p.ensures((s,), r) ==> parts(r) == cut(s@, quoted_len(ch, s@)) && consumes(s, r),
{
    move |s: &'a str| -> (r: Option<(&'a str, &'a str)>)
        ensures
            parts(r) == cut(s@, quoted_len(ch, s@)),
            consumes(s, r),
        { quoted_at(ch, s) }
}

/// Parses a redirect operator, `>>` or `>`.
pub fn redirect(s: &str) -> (r: Option<(&str, &str)>)
    ensures
        parts(r) == cut(s@, redirect_len(s@)),
        consumes(s, r),
{
    proof {
        lemma_cut_splits(s@, redirect_len(s@));
    }
    let chars = chars_of(s);
    let n = chars.len();
    if n >= 2 && chars[0] == '>' && chars[1] == '>' {
        Some(split_at_char(s, 2, n))
    } else if n >= 1 && chars[0] == '>' {
        Some(split_at_char(s, 1, n))
    } else {
        None
    }
}

/// Consumes leading whitespace; never fails.
pub fn trim_space(s: &str) -> (r: Option<((), &str)>)
    ensures
        r matches Some((_, rest)) && rest@ == trimmed_start(s@),
{
    Some(((), trim_start(s)))
}

// ---------------------------------------------------------------------------
// Combinators
// ---------------------------------------------------------------------------

/// `parser` accepts every input.
pub open spec fn total<'a, T, P: Parser<'a, T>>(parser: P) -> bool {
    forall|s: &'a str| parser.requires((s,))
}

/// Whenever `parser` succeeds, it leaves less input than it was given.
pub open spec fn advances<'a, T, P: Parser<'a, T>>(parser: P) -> bool {
    forall|s: &'a str, value: T, rest: &'a str|
        parser.ensures((s,), Some((value, rest))) ==> rest@.len() < s@.len()
}

/// `inputs` are the successive inputs of a repetition of `parser` that
/// starts at `s`, yields `values` one after the other, and stops at `rest`,
/// where `parser` fails.
pub open spec fn repeats<'a, T, P: Parser<'a, T>>(
    parser: P,
    s: &'a str,
    values: Seq<T>,
    inputs: Seq<&'a str>,
    rest: &'a str,
) -> bool {
    &&& inputs.len() == values.len() + 1
    &&& inputs[0] == s
    &&& inputs[values.len() as int] == rest
    &&& forall|i: int|
        0 <= i < values.len() ==> parser.ensures(
            (#[trigger] inputs[i],),
            Some((values[i], inputs[i + 1])),
        )
    &&& parser.ensures((rest,), None)
}

/// A repetition of `parser` that starts at `s` may yield `values` and stop at
/// `rest`.
pub open spec fn repeated<'a, T, P: Parser<'a, T>>(
    parser: P,
    s: &'a str,
    values: Seq<T>,
    rest: &'a str,
) -> bool {
    exists|inputs: Seq<&'a str>| repeats(parser, s, values, inputs, rest)
}

/// Applies `parser` to `s` again and again until it fails.
fn many_at<'a, T, P: Parser<'a, T>>(parser: &P, s: &'a str) -> (r: (Vec<T>, &'a str))
    requires
        total(*parser),
        advances(*parser),
    ensures
        repeated(*parser, s, r.0@, r.1),
{
    let mut values: Vec<T> = Vec::new();
    let mut cur = s;
    let ghost mut inputs: Seq<&'a str> = seq![s];
    loop
        invariant_except_break
            inputs.len() == values.len() + 1,
            inputs[0] == s,
            inputs[values.len() as int] == cur,
            forall|i: int|
                0 <= i < values.len() ==> parser.ensures(
                    (#[trigger] inputs[i],),
                    Some((values@[i], inputs[i + 1])),
                ),
        invariant
            total(*parser),
            advances(*parser),
        ensures
            repeats(*parser, s, values@, inputs, cur),
        decreases cur@.len(),
    {
        match parser(cur) {
            Some((value, rest)) => {
                proof {
                    inputs = inputs.push(rest);
                }
                values.push(value);
                cur = rest;
            },
            None => {
                break ;
            },
        }
    }
    assert(repeats(*parser, s, values@, inputs, cur));
    (values, cur)
}

/// The parser that applies `parser` as often as it succeeds, and yields the
/// values in order. It never fails: where `parser` fails at once, it yields
/// no value and leaves the input as it is.
///
/// It can be applied where `parser` accepts every input and leaves less
/// than it was given whenever it succeeds: a parser that succeeds without
/// taking anything would be applied forever.
pub fn many<'a, T>(parser: impl Parser<'a, T>) -> (p: impl Parser<'a, Vec<T>>)
    ensures
        total(parser) && advances(parser) ==> total(p),
        forall|s: &'a str, r: Option<(Vec<T>, &'a str)>|
            #![trigger p.ensures((s,), r)]
            p.ensures((s,), r) ==> (r matches Some((values, rest)) && repeated(
                parser,
                s,
                values@,
                rest,
            )),
{
    move |s: &'a str| -> (r: Option<(Vec<T>, &'a str)>)
        requires
            total(parser),
            advances(parser),
        ensures
            r matches Some((values, rest)) && repeated(parser, s, values@, rest),
        {
            let (values, rest) = many_at(&parser, s);
            Some((values, rest))
        }
}

/// The parser that applies `parser1` and, where that fails, `parser2` to the
/// same input.
pub fn choice<'a, T>(parser1: impl Parser<'a, T>, parser2: impl Parser<'a, T>) -> (p: impl Parser<
    'a,
    T,
>)
    ensures
        forall|s: &'a str|
            #![trigger p.requires((s,))]
            parser1.requires((s,)) && parser2.requires((s,)) ==> p.requires((s,)),
        forall|s: &'a str, r: Option<(T, &'a str)>|
            #![trigger p.ensures((s,), r)]
            p.ensures((s,), r) ==> (r is Some && parser1.ensures((s,), r)) || (parser1.ensures(
                (s,),
                None,
            ) && parser2.ensures((s,), r)),
{
    move |s: &'a str| -> (r: Option<(T, &'a str)>)
        requires
            parser1.requires((s,)),
            parser2.requires((s,)),
        ensures
            (r is Some && parser1.ensures((s,), r)) || (parser1.ensures((s,), None)
                && parser2.ensures((s,), r)),
        {
            match parser1(s) {
                Some(found) => Some(found),
                None => parser2(s),
            }
        }
}

/// `parser1` may yield `value1` on `s` and `parser2` may then yield `value2`
/// and leave `rest`.
pub open spec fn both<'a, A, B, F: Parser<'a, A>, G: Parser<'a, B>>(
    parser1: F,
    parser2: G,
    s: &'a str,
    value1: A,
    value2: B,
    rest: &'a str,
) -> bool {
    exists|mid: &'a str|
        parser1.ensures((s,), Some((value1, mid))) && parser2.ensures(
            (mid,),
            Some((value2, rest)),
        )
}

/// `parser1` may fail on `s`, or `parser2` may fail on what `parser1` left.
pub open spec fn neither<'a, A, B, F: Parser<'a, A>, G: Parser<'a, B>>(
    parser1: F,
    parser2: G,
    s: &'a str,
) -> bool {
    parser1.ensures((s,), None) || exists|value1: A, mid: &'a str|
        parser1.ensures((s,), Some((value1, mid))) && parser2.ensures((mid,), None)
}

/// `r` is what `parser1` followed by `parser2` may return on `s`.
pub open spec fn joined<'a, A, B, F: Parser<'a, A>, G: Parser<'a, B>>(
    parser1: F,
    parser2: G,
    s: &'a str,
    r: Option<((A, B), &'a str)>,
) -> bool {
    match r {
        Some(((value1, value2), rest)) => both(parser1, parser2, s, value1, value2, rest),
        None => neither(parser1, parser2, s),
    }
}

/// `parser1` accepts `s`, and `parser2` accepts whatever `parser1` may
/// leave of it.
pub open spec fn chained<'a, A, B, F: Parser<'a, A>, G: Parser<'a, B>>(
    parser1: F,
    parser2: G,
    s: &'a str,
) -> bool {
    &&& parser1.requires((s,))
    &&& forall|value1: A, mid: &'a str|
        parser1.ensures((s,), Some((value1, mid))) ==> parser2.requires((mid,))
}

/// The parser that applies `parser1`, then `parser2` to what `parser1` left,
/// and yields both values. It fails where either fails.
pub fn join<'a, A, B>(parser1: impl Parser<'a, A>, parser2: impl Parser<'a, B>) -> (p: impl Parser<
    'a,
    (A, B),
>)
    ensures
        forall|s: &'a str|
            #![trigger p.requires((s,))]
            chained(parser1, parser2, s) ==> p.requires((s,)),
        forall|s: &'a str, r: Option<((A, B), &'a str)>|
            #![trigger p.ensures((s,), r)]
            p.ensures((s,), r) ==> joined(parser1, parser2, s, r),
{
    move |s: &'a str| -> (r: Option<((A, B), &'a str)>)
        requires
            chained(parser1, parser2, s),
        ensures
            joined(parser1, parser2, s, r),
        {
            match parser1(s) {
                Some((value1, rest1)) => match parser2(rest1) {
                    Some((value2, rest2)) => {
                        assert(both(parser1, parser2, s, value1, value2, rest2)) by {
                            assert(parser1.ensures((s,), Some((value1, rest1)))
                                && parser2.ensures((rest1,), Some((value2, rest2))));
                        }
                        Some(((value1, value2), rest2))
                    },
                    None => {
                        assert(neither(parser1, parser2, s)) by {
                            assert(parser1.ensures((s,), Some((value1, rest1)))
                                && parser2.ensures((rest1,), None));
                        }
                        None
                    },
                },
                None => None,
            }
        }
}

/// `parser` accepts `s` without its leading whitespace.
pub open spec fn accepts_trimmed<'a, T, P: Parser<'a, T>>(parser: P, s: &'a str) -> bool {
    forall|t: &'a str| t@ == trimmed_start(s@) ==> parser.requires((t,))
}

/// `r` is what `parser` may return on `s` without its leading whitespace.
pub open spec fn trimmed_first<'a, T, P: Parser<'a, T>>(
    parser: P,
    s: &'a str,
    r: Option<(T, &'a str)>,
) -> bool {
    exists|t: &'a str| t@ == trimmed_start(s@) && parser.ensures((t,), r)
}

/// The parser that skips leading whitespace and then applies `parser`.
pub fn lexeme<'a, T>(parser: impl Parser<'a, T>) -> (p: impl Parser<'a, T>)
    ensures
        total(parser) ==> total(p),
        forall|s: &'a str|
            #![trigger p.requires((s,))]
            accepts_trimmed(parser, s) ==> p.requires((s,)),
        forall|s: &'a str, r: Option<(T, &'a str)>|
            #![trigger p.ensures((s,), r)]
            p.ensures((s,), r) ==> trimmed_first(parser, s, r),
{
    move |s: &'a str| -> (r: Option<(T, &'a str)>)
        requires
            accepts_trimmed(parser, s),
        ensures
            trimmed_first(parser, s, r),
        { parser(trim_start(s)) }
}

// ---------------------------------------------------------------------------
// Words
// ---------------------------------------------------------------------------

/// Where each of `inputs` but the last starts with a run and the next is
/// what follows that run, and the last starts with none, the last is what
/// follows the runs at the start of `inputs[from]`.
proof fn lemma_runs_chain(inputs: Seq<Seq<char>>, from: int)
    requires
        0 <= from < inputs.len(),
        forall|i: int|
            0 <= i < inputs.len() - 1 ==> (run_len(#[trigger] inputs[i]) matches Some(n)
                && inputs[i + 1] == inputs[i].skip(n as int)),
        run_len(inputs[inputs.len() - 1]) is None,
    ensures
        runs_len(inputs[from]) <= inputs[from].len(),
        inputs[inputs.len() - 1] == inputs[from].skip(runs_len(inputs[from]) as int),
    decreases inputs.len() - from,
{
    let s = inputs[from];
    lemma_runs_len_bound(s);
    if from == inputs.len() - 1 {
        assert(s.skip(0) =~= s);
    } else {
        lemma_run_len_bound(s);
        lemma_runs_chain(inputs, from + 1);
        let n = run_len(s)->0;
        lemma_skip_skip(s, n as int, runs_len(inputs[from + 1]) as int);
    }
}

/// Parses a word: a run and the runs that follow it without whitespace
/// between them.
pub fn word(s: &str) -> (r: Option<(&str, &str)>)
    ensures
        parts(r) == cut(s@, word_len(s@)),
        consumes(s, r),
{
    proof {
        lemma_runs_len_bound(s@);
        lemma_cut_splits(s@, word_len(s@));
    }
    let single = quoted('\'');
    let double = quoted('"');
    let ghost single_run = single;
    let quotes = choice(single, double);
    let ghost quoted_run = quotes;
    let elem = choice(quotes, raw_word);
    assert forall|t: &str, r: Option<(&str, &str)>| elem.ensures((t,), r) implies parts(r) == cut(
        t@,
        run_len(t@),
    ) by {
        assert(quoted_run.ensures((t,), r) || quoted_run.ensures((t,), None));
        assert(single_run.ensures((t,), r) || single_run.ensures((t,), None));
    }
    assert(total(elem)) by {
        assert forall|t: &str| elem.requires((t,)) by {
            assert(quoted_run.requires((t,)));
        }
    }
    let first = match elem(s) {
        Some(first) => first,
        None => {
            return None;
        },
    };
    let ghost run = elem;
    assert(advances(run)) by {
        assert forall|t: &str, value: &str, rest: &str|
            run.ensures((t,), Some((value, rest))) implies rest@.len() < t@.len() by {
            lemma_run_len_bound(t@);
        }
    }
    let (runs, rest) = match many(elem)(first.1) {
        Some(more) => more,
        None => (Vec::new(), first.1),
    };
    proof {
        let inputs = choose|inputs: Seq<&str>| repeats(run, first.1, runs@, inputs, rest);
        assert forall|i: int| 0 <= i < inputs.len() - 1 implies (run_len(
            #[trigger] texts(inputs)[i],
        ) matches Some(n) && texts(inputs)[i + 1] == texts(inputs)[i].skip(n as int)) by {
            assert(run.ensures((inputs[i],), Some((runs@[i], inputs[i + 1]))));
        }
        lemma_runs_chain(texts(inputs), 0);
        lemma_run_len_bound(s@);
        lemma_skip_skip(s@, run_len(s@)->0 as int, runs_len(first.1@) as int);
    }
    let total = s.unicode_len();
    let end = total - rest.unicode_len();
    Some(split_at_char(s, end, total))
}

// ---------------------------------------------------------------------------
// Lines
// ---------------------------------------------------------------------------

/// Where each of `inputs` but the last starts, after whitespace, with the
/// token `values[i]` and the next is what follows that token, and the last
/// starts with none, `values` are the tokens of `inputs[from]` onwards.
proof fn lemma_tokens_chain(inputs: Seq<Seq<char>>, values: Seq<Seq<char>>, from: int)
    requires
        inputs.len() == values.len() + 1,
        0 <= from < inputs.len(),
        forall|i: int|
            0 <= i < values.len() ==> (token_len(trimmed_start(#[trigger] inputs[i])) matches Some(
                n,
            ) && values[i] == trimmed_start(inputs[i]).take(n as int) && inputs[i + 1]
                == trimmed_start(inputs[i]).skip(n as int)),
        token_len(trimmed_start(inputs[values.len() as int])) is None,
    ensures
        values.skip(from) == tokens_of(inputs[from]),
        trimmed_start(inputs[values.len() as int]) == remainder(inputs[from]),
    decreases inputs.len() - from,
{
    if from < values.len() {
        lemma_tokens_chain(inputs, values, from + 1);
        assert(values.skip(from) =~= seq![values[from]] + values.skip(from + 1));
    } else {
        assert(values.skip(from) =~= Seq::empty());
    }
}

/// Splits a line into its tokens.
///
/// The line is accepted where nothing is left of it after its tokens, which
/// is where its quotes are balanced; it then has as many tokens as it has
/// words and redirect operators. It is rejected with `QuoteMissing` where
/// what is left starts with a quote character, and with `UnknownToken` where
/// it starts with anything else; as the grammar stands, what is left always
/// starts with a quote that is never closed.
pub fn tokenize(src: &str) -> (r: Result<Vec<&str>, ParseError>)
    ensures
        match r {
            Ok(tokens) => remainder(src@).len() == 0 && texts(tokens@) == tokens_of(src@),
            Err(e) => remainder(src@).len() > 0 && e == rejection(remainder(src@)),
        },
        r is Ok <==> balanced(src@),
        r matches Ok(tokens) ==> tokens@.len() == word_count(src@) + operator_count(src@),
        r matches Err(e) ==> e == ParseError::QuoteMissing,
{
    proof {
        lemma_balanced_lines_are_accepted(src@);
        if balanced(src@) {
            lemma_token_count(src@);
        } else {
            lemma_rejected_for_missing_quote(src@);
        }
    }
    let spaced_word = lexeme(word);
    let spaced_redirect = lexeme(redirect);
    let ghost some_word = spaced_word;
    let token = choice(spaced_word, spaced_redirect);
    let ghost some_token = token;
    assert forall|s: &str, r: Option<(&str, &str)>| some_token.ensures((s,), r) implies parts(r)
        == cut(trimmed_start(s@), token_len(trimmed_start(s@))) by {
        assert(some_word.ensures((s,), r) || some_word.ensures((s,), None));
    }
    assert(total(token)) by {
        assert forall|s: &str| token.requires((s,)) by {
            assert(some_word.requires((s,)));
        }
    }
    assert(advances(token)) by {
        assert forall|s: &str, value: &str, rest: &str|
            token.ensures((s,), Some((value, rest))) implies rest@.len() < s@.len() by {
            lemma_leading_white_space_bound(s@);
            lemma_token_len_bound(trimmed_start(s@));
        }
    }
    let tokens = many(token);
    let ghost all_tokens = tokens;
    let line = join(tokens, trim_space);
    match line(src) {
        Some(((tokens, _), rest)) => {
            proof {
                let mid = choose|mid: &str|
                    all_tokens.ensures((src,), Some((tokens, mid))) && trim_space.ensures(
                        (mid,),
                        Some(((), rest)),
                    );
                let inputs = choose|inputs: Seq<&str>|
                    repeats(some_token, src, tokens@, inputs, mid);
                assert forall|i: int| 0 <= i < tokens@.len() implies parts(
                    Some((tokens@[i], inputs[i + 1])),
                ) == cut(
                    trimmed_start(#[trigger] inputs[i]@),
                    token_len(trimmed_start(inputs[i]@)),
                ) by {
                    assert(some_token.ensures((inputs[i],), Some((tokens@[i], inputs[i + 1]))));
                }
                lemma_tokens_chain(texts(inputs), texts(tokens@), 0);
                assert(texts(tokens@).skip(0) =~= texts(tokens@));
            }
            if rest.is_empty() {
                Ok(tokens)
            } else if rest.get_char(0) == '\'' || rest.get_char(0) == '"' {
                Err(ParseError::QuoteMissing)
            } else {
                Err(ParseError::UnknownToken)
            }
        },
        None => {
            proof {
                assert(neither(all_tokens, trim_space, src));
            }
            unreached()
        },
    }
}

// ---------------------------------------------------------------------------
// The plain splitter
// ---------------------------------------------------------------------------

/// A position as the grammar counts it.
pub open spec fn position(start: Option<usize>) -> Option<int> {
    match start {
        Some(begin) => Some(begin as int),
        None => None,
    }
}

/// Splits a line into words at ASCII whitespace outside quotes. It knows no
/// redirect operators, and passes over a backslash and the character after
/// it wherever they stand.
pub fn tokenize_old(src: &str) -> (r: Result<Vec<&str>, ParseError>)
    ensures
        match r {
            Ok(words) => plain_words(src@) == Ok::<Seq<Seq<char>>, ParseError>(texts(words@)),
            Err(e) => plain_words(src@) == Err::<Seq<Seq<char>>, ParseError>(e),
        },
{
    let chars = chars_of(src);
    let n = chars.len();
    let mut argv: Vec<&str> = Vec::new();
    let mut start: Option<usize> = None;
    let mut is_in_quote: Option<Quote> = None;
    let mut escape = false;
    let mut index: usize = 0;
    assert(texts(argv@) + Seq::<Seq<char>>::empty() =~= Seq::<Seq<char>>::empty());
    assert(forall|more: Seq<Seq<char>>| Seq::<Seq<char>>::empty() + more =~= more);
    while index < n
        invariant
            chars@ == src@,
            n == chars.len(),
            index <= n,
            start matches Some(begin) ==> begin <= index,
            plain_words(src@) == after(
                texts(argv@),
                words_from(
                    src@,
                    if escape {
                        index + 1
                    } else {
                        index as int
                    },
                    position(start),
                    is_in_quote,
                ),
            ),
        decreases n - index,
    {
        let ch = chars[index];
        if escape {
            escape = false;
        } else if ch == '\\' {
            escape = true;
        } else {
            if ch == '\'' {
                is_in_quote =
                match is_in_quote {
                    None => Some(Quote::SingleQuote),
                    Some(Quote::SingleQuote) => None,
                    Some(Quote::DoubleQuote) => is_in_quote,
                };
            } else if ch == '"' {
                is_in_quote =
                match is_in_quote {
                    None => Some(Quote::DoubleQuote),
                    Some(Quote::DoubleQuote) => None,
                    Some(Quote::SingleQuote) => is_in_quote,
                };
            }
            if is_ascii_whitespace(ch) {
                if is_in_quote.is_none() {
                    if let Some(begin) = start {
                        let ghost before = texts(argv@);
                        let word = src.substring_char(begin, index);
                        argv.push(word);
                        start = None;
                        proof {
                            assert(texts(argv@) =~= before + seq![word@]);
                            let later = words_from(src@, index + 1, None, is_in_quote);
                            if let Ok(more) = later {
                                assert(before + (seq![word@] + more) =~= texts(argv@) + more);
                            }
                        }
                    }
                }
            } else if start.is_none() {
                start = Some(index);
            }
        }
        index += 1;
    }
    if let Some(begin) = start {
        if is_in_quote.is_some() {
            return Err(ParseError::QuoteMissing);
        }
        let ghost before = texts(argv@);
        let word = src.substring_char(begin, n);
        argv.push(word);
        assert(texts(argv@) =~= before + seq![word@]);
    } else {
        assert(texts(argv@) + Seq::<Seq<char>>::empty() =~= texts(argv@));
    }
    Ok(argv)
}

} // verus!
