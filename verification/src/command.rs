//! From the words of a line to a command: the executable, its arguments and
//! where its output goes.

use vstd::prelude::*;
use crate::grammar::{rejection, remainder, tokens_of};
use crate::scan::balanced;
use crate::text::chars_of;
use crate::tokenize::{texts, tokenize, ParseError};
use crate::unescape::{resolve, unescape};

verus! {

/// How the file that output is redirected to is opened.
#[derive(PartialEq, Eq, Debug, Clone, Copy, Structural)]
pub enum RedirMode {
    /// The file is created, or emptied where it exists.
    Write,
    /// Output is added to the end of the file, which has to exist.
    Append,
}

/// The stream that a redirect operator binds.
#[derive(PartialEq, Eq, Debug, Clone, Copy, Structural)]
pub enum ToRedirect {
    Stdout,
    Stderr,
}

/// A command: what the words of one line ask for.
pub struct Command {
    /// The first word.
    pub executable: Seq<char>,
    /// The words that are neither the executable nor part of a redirection.
    pub argv: Seq<Seq<char>>,
    /// The file that standard output goes to, and how it is opened.
    pub stdout_target: Option<(Seq<char>, RedirMode)>,
    /// The file that standard error goes to, and how it is opened.
    pub stderr_target: Option<(Seq<char>, RedirMode)>,
}

impl Command {
    /// The command that runs `executable` with no arguments and no
    /// redirection.
    pub open spec fn bare(executable: Seq<char>) -> Command {
        Command { executable, argv: Seq::empty(), stdout_target: None, stderr_target: None }
    }

    /// No argument is a redirect operator.
    pub open spec fn wf(self) -> bool {
        forall|i: int| 0 <= i < self.argv.len() ==> redirect_mode(#[trigger] self.argv[i]) is None
    }

    /// This command with one more argument.
    pub open spec fn with_arg(self, word: Seq<char>) -> Command {
        Command { argv: self.argv.push(word), ..self }
    }

    /// This command with `stream` bound to the file `path`, opened in `mode`.
    pub open spec fn with_target(self, stream: ToRedirect, path: Seq<char>, mode: RedirMode) -> Command {
        match stream {
            ToRedirect::Stdout => Command { stdout_target: Some((path, mode)), ..self },
            ToRedirect::Stderr => Command { stderr_target: Some((path, mode)), ..self },
        }
    }
}

/// A command as it is handed on: its words are borrowed from the word
/// list of the line.
pub struct Proc<'a> {
    /// The first word.
    pub executable: &'a str,
    /// The words that are neither the executable nor part of a redirection.
    pub argv: Vec<String>,
    /// The file that standard output goes to, if any.
    pub stdout: Option<&'a str>,
    /// How the file of `stdout` is opened.
    pub stdout_mode: RedirMode,
    /// The file that standard error goes to, if any.
    pub stderr: Option<&'a str>,
    /// How the file of `stderr` is opened.
    pub stderr_mode: RedirMode,
}

/// The words as sequences of characters.
pub open spec fn strings(words: Seq<String>) -> Seq<Seq<char>> {
    Seq::new(words.len(), |i: int| words[i]@)
}

/// A redirection target with its mode.
pub open spec fn target(path: Option<&str>, mode: RedirMode) -> Option<(Seq<char>, RedirMode)> {
    match path {
        Some(path) => Some((path@, mode)),
        None => None,
    }
}

impl<'a> View for Proc<'a> {
    type V = Command;

    open spec fn view(&self) -> Command {
        Command {
            executable: self.executable@,
            argv: strings(self.argv@),
            stdout_target: target(self.stdout, self.stdout_mode),
            stderr_target: target(self.stderr, self.stderr_mode),
        }
    }
}

impl<'a> Proc<'a> {
    /// No argument is a redirect operator, and a stream that is not
    /// redirected has the mode `Write`.
    pub open spec fn wf(&self) -> bool {
        &&& self@.wf()
        &&& self.stdout is None ==> self.stdout_mode == RedirMode::Write
        &&& self.stderr is None ==> self.stderr_mode == RedirMode::Write
    }
}

/// The mode that the word `w` asks for, where `w` is a redirect operator:
/// `>` writes, `>>` appends.
pub open spec fn redirect_mode(w: Seq<char>) -> Option<RedirMode> {
    if w.len() == 1 && w[0] == '>' {
        Some(RedirMode::Write)
    } else if w.len() == 2 && w[0] == '>' && w[1] == '>' {
        Some(RedirMode::Append)
    } else {
        None
    }
}

/// The stream that the word `w` names, where `w` is a bare `1` or `2`.
pub open spec fn stream_number(w: Seq<char>) -> Option<ToRedirect> {
    if w.len() == 1 && w[0] == '1' {
        Some(ToRedirect::Stdout)
    } else if w.len() == 1 && w[0] == '2' {
        Some(ToRedirect::Stderr)
    } else {
        None
    }
}

/// The command that `words[i..]` make of `so_far`, read from left to right.
///
/// A bare `1` or `2` right before a redirect operator names the stream of
/// that operator; an operator on its own binds standard output. The word
/// after the operator is the file, whatever it is; where there is none, the
/// line is rejected. Every other word is an argument.
pub open spec fn built_from(words: Seq<Seq<char>>, i: int, so_far: Command) -> Result<
    Command,
    ParseError,
>
    recommends
        0 <= i,
    decreases words.len() - i,
{
    if i >= words.len() {
        Ok(so_far)
    } else if stream_number(words[i]) is Some && i + 1 < words.len() && redirect_mode(words[i + 1])
        is Some {
        if i + 2 < words.len() {
            built_from(
                words,
                i + 3,
                so_far.with_target(
                    stream_number(words[i])->0,
                    words[i + 2],
                    redirect_mode(words[i + 1])->0,
                ),
            )
        } else {
            Err(ParseError::RedirectTargetMissing)
        }
    } else if redirect_mode(words[i]) is Some {
        if i + 1 < words.len() {
            built_from(
                words,
                i + 2,
                so_far.with_target(ToRedirect::Stdout, words[i + 1], redirect_mode(words[i])->0),
            )
        } else {
            Err(ParseError::RedirectTargetMissing)
        }
    } else {
        built_from(words, i + 1, so_far.with_arg(words[i]))
    }
}

/// The command that the words of a line ask for: none for no words; else
/// the first word is the executable, and the rest are arguments and
/// redirections.
pub open spec fn built(words: Seq<Seq<char>>) -> Result<Option<Command>, ParseError> {
    if words.len() == 0 {
        Ok(None)
    } else {
        match built_from(words, 1, Command::bare(words[0])) {
            Ok(command) => Ok(Some(command)),
            Err(e) => Err(e),
        }
    }
}

/// Building keeps the executable, and lets no redirect operator become an
/// argument.
pub proof fn lemma_built_from_keeps_words(words: Seq<Seq<char>>, i: int, so_far: Command)
    requires
        0 <= i,
        so_far.wf(),
    ensures
        built_from(words, i, so_far) matches Ok(command) ==> command.wf() && command.executable
            == so_far.executable,
    decreases words.len() - i,
{
    if i >= words.len() {
    } else if stream_number(words[i]) is Some && i + 1 < words.len() && redirect_mode(words[i + 1])
        is Some {
        if i + 2 < words.len() {
            lemma_built_from_keeps_words(
                words,
                i + 3,
                so_far.with_target(
                    stream_number(words[i])->0,
                    words[i + 2],
                    redirect_mode(words[i + 1])->0,
                ),
            );
        }
    } else if redirect_mode(words[i]) is Some {
        if i + 1 < words.len() {
            lemma_built_from_keeps_words(
                words,
                i + 2,
                so_far.with_target(ToRedirect::Stdout, words[i + 1], redirect_mode(words[i])->0),
            );
        }
    } else {
        lemma_built_from_keeps_words(words, i + 1, so_far.with_arg(words[i]));
    }
}

/// The executable of a command is the first word of the line, and none of
/// its arguments is a redirect operator.
pub proof fn lemma_built_command(words: Seq<Seq<char>>)
    ensures
        built(words) matches Ok(Some(command)) ==> command.wf() && words.len() > 0
            && command.executable == words[0],
{
    if words.len() > 0 {
        lemma_built_from_keeps_words(words, 1, Command::bare(words[0]));
    }
}

/// A line is rejected only for a redirect operator that no word follows.
pub proof fn lemma_built_from_rejects(words: Seq<Seq<char>>, i: int, so_far: Command)
    requires
        0 <= i,
    ensures
        built_from(words, i, so_far) matches Err(e) ==> e == ParseError::RedirectTargetMissing
            && words.len() > 0 && redirect_mode(words[words.len() - 1]) is Some,
    decreases words.len() - i,
{
    if i >= words.len() {
    } else if stream_number(words[i]) is Some && i + 1 < words.len() && redirect_mode(words[i + 1])
        is Some {
        if i + 2 < words.len() {
            lemma_built_from_rejects(
                words,
                i + 3,
                so_far.with_target(
                    stream_number(words[i])->0,
                    words[i + 2],
                    redirect_mode(words[i + 1])->0,
                ),
            );
        }
    } else if redirect_mode(words[i]) is Some {
        if i + 1 < words.len() {
            lemma_built_from_rejects(
                words,
                i + 2,
                so_far.with_target(ToRedirect::Stdout, words[i + 1], redirect_mode(words[i])->0),
            );
        }
    } else {
        lemma_built_from_rejects(words, i + 1, so_far.with_arg(words[i]));
    }
}

/// Where the last word is a redirect operator and the word before it is
/// none, the line is rejected, from whatever word the reading starts.
pub proof fn lemma_built_from_trailing_operator(words: Seq<Seq<char>>, i: int, so_far: Command)
    requires
        1 <= i < words.len(),
        redirect_mode(words[words.len() - 1]) is Some,
        redirect_mode(words[words.len() - 2]) is None,
    ensures
        built_from(words, i, so_far) == Err::<Command, ParseError>(
            ParseError::RedirectTargetMissing,
        ),
    decreases words.len() - i,
{
    if stream_number(words[i]) is Some && i + 1 < words.len() && redirect_mode(words[i + 1])
        is Some {
        if i + 2 < words.len() {
            lemma_built_from_trailing_operator(
                words,
                i + 3,
                so_far.with_target(
                    stream_number(words[i])->0,
                    words[i + 2],
                    redirect_mode(words[i + 1])->0,
                ),
            );
        }
    } else if redirect_mode(words[i]) is Some {
        if i + 1 < words.len() {
            lemma_built_from_trailing_operator(
                words,
                i + 2,
                so_far.with_target(ToRedirect::Stdout, words[i + 1], redirect_mode(words[i])->0),
            );
        }
    } else {
        lemma_built_from_trailing_operator(words, i + 1, so_far.with_arg(words[i]));
    }
}

/// When a line is rejected. A redirect operator at the end of the line has
/// no file: the line is rejected, unless the word before it is a redirect
/// operator too, which may take that last word for its file. No line is
/// rejected for anything else, and none that ends with another word.
pub proof fn lemma_built_rejects(words: Seq<Seq<char>>)
    ensures
        built(words) matches Err(e) ==> e == ParseError::RedirectTargetMissing && words.len() > 1
            && redirect_mode(words[words.len() - 1]) is Some,
        words.len() > 1 && redirect_mode(words[words.len() - 1]) is Some && redirect_mode(
            words[words.len() - 2],
        ) is None ==> built(words) == Err::<Option<Command>, ParseError>(
            ParseError::RedirectTargetMissing,
        ),
{
    if words.len() > 0 {
        lemma_built_from_rejects(words, 1, Command::bare(words[0]));
        if words.len() > 1 && redirect_mode(words[words.len() - 1]) is Some && redirect_mode(
            words[words.len() - 2],
        ) is None {
            lemma_built_from_trailing_operator(words, 1, Command::bare(words[0]));
        }
    }
}

/// Tells which mode the word asks for, where it is a redirect operator.
pub fn redirect_mode_of(word: &str) -> (r: Option<RedirMode>)
    ensures
        r == redirect_mode(word@),
{
    let chars = chars_of(word);
    if chars.len() == 1 && chars[0] == '>' {
        Some(RedirMode::Write)
    } else if chars.len() == 2 && chars[0] == '>' && chars[1] == '>' {
        Some(RedirMode::Append)
    } else {
        None
    }
}

/// Tells which stream the word names, where it is a bare `1` or `2`.
pub fn stream_number_of(word: &str) -> (r: Option<ToRedirect>)
    ensures
        r == stream_number(word@),
{
    let chars = chars_of(word);
    if chars.len() == 1 && chars[0] == '1' {
        Some(ToRedirect::Stdout)
    } else if chars.len() == 1 && chars[0] == '2' {
        Some(ToRedirect::Stderr)
    } else {
        None
    }
}

/// Builds the command that the words of a line ask for.
///
/// No words give no command. A redirect operator that no word follows gives
/// `RedirectTargetMissing`; the word after an operator is its file, also
/// where it is an operator itself. On every other word list the command is
/// built: its executable is the first word, and no argument of it is a
/// redirect operator.
pub fn words2proc(argv: &[String]) -> (r: Result<Option<Proc<'_>>, ParseError>)
    ensures
        match r {
            Ok(Some(proc)) => built(strings(argv@)) == Ok::<Option<Command>, ParseError>(
                Some(proc@),
            ) && proc.wf() && proc@.executable == argv@[0]@,
            Ok(None) => argv@.len() == 0,
            Err(e) => built(strings(argv@)) == Err::<Option<Command>, ParseError>(e),
        },
        r matches Err(e) ==> e == ParseError::RedirectTargetMissing,
{
    let n = argv.len();
    if n == 0 {
        return Ok(None);
    }
    let ghost words = strings(argv@);
    proof {
        lemma_built_command(words);
        lemma_built_rejects(words);
    }
    let mut proc = Proc {
        executable: argv[0].as_str(),
        argv: Vec::<String>::new(),
        stdout: None,
        stdout_mode: RedirMode::Write,
        stderr: None,
        stderr_mode: RedirMode::Write,
    };
    assert(proc@.argv =~= Seq::<Seq<char>>::empty());
    let mut i: usize = 1;
    while i < n
        invariant
            n == argv.len(),
            words == strings(argv@),
            1 <= i <= n,
            proc.stdout is None ==> proc.stdout_mode == RedirMode::Write,
            proc.stderr is None ==> proc.stderr_mode == RedirMode::Write,
            built_from(words, 1, Command::bare(words[0])) == built_from(words, i as int, proc@),
        decreases n - i,
    {
        let word = argv[i].as_str();
        let mut to_redirect = ToRedirect::Stdout;
        let mut operator: Option<RedirMode> = redirect_mode_of(word);
        let mut at: usize = i;
        if let Some(stream) = stream_number_of(word) {
            if i + 1 < n {
                if let Some(mode) = redirect_mode_of(argv[i + 1].as_str()) {
                    to_redirect = stream;
                    operator = Some(mode);
                    at = i + 1;
                }
            }
        }
        match operator {
            Some(mode) => {
                if at + 1 >= n {
                    return Err(ParseError::RedirectTargetMissing);
                }
                let path = argv[at + 1].as_str();
                let ghost before = proc@;
                match to_redirect {
                    ToRedirect::Stdout => {
                        proc.stdout = Some(path);
                        proc.stdout_mode = mode;
                    },
                    ToRedirect::Stderr => {
                        proc.stderr = Some(path);
                        proc.stderr_mode = mode;
                    },
                }
                assert(proc@.argv =~= before.argv);
                assert(proc@ == before.with_target(to_redirect, words[at + 1], mode));
                i = at + 2;
            },
            None => {
                let ghost before = proc@;
                proc.argv.push(argv[i].clone());
                assert(proc@.argv =~= before.argv.push(words[i as int]));
                i += 1;
            },
        }
    }
    Ok(Some(proc))
}

/// Splits a line into tokens and resolves each token to its word.
///
/// The line is accepted and rejected as `tokenize` accepts and rejects it.
pub fn parse(src: &str) -> (r: Result<Vec<String>, ParseError>)
    ensures
        r is Ok <==> balanced(src@),
        r matches Err(e) ==> e == ParseError::QuoteMissing,
        match r {
            Ok(words) => remainder(src@).len() == 0 && strings(words@) == tokens_of(src@).map_values(
                |token: Seq<char>| resolve(token),
            ),
            Err(e) => remainder(src@).len() > 0 && e == rejection(remainder(src@)),
        },
{
    let tokens = match tokenize(src) {
        Ok(tokens) => tokens,
        Err(e) => {
            return Err(e);
        },
    };
    let mut words: Vec<String> = Vec::new();
    let mut i: usize = 0;
    while i < tokens.len()
        invariant
            i <= tokens.len(),
            words.len() == i,
            forall|k: int| 0 <= k < i ==> (#[trigger] words[k])@ == resolve(tokens[k]@),
        decreases tokens.len() - i,
    {
        words.push(unescape(tokens[i]));
        i += 1;
    }
    assert(strings(words@) =~= texts(tokens@).map_values(|token: Seq<char>| resolve(token)));
    Ok(words)
}

} // verus!
