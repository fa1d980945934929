//! From a command to what is done: the built-in commands, what each of them
//! decides, and where an external command is looked for.
//!
//! Nothing here reads or writes anything. The caller opens files, looks
//! into directories and starts processes; this module says which, and what
//! to report.

use vstd::prelude::*;
use crate::command::{strings, Proc, RedirMode};
use crate::text::{chars_of, lemma_skip_skip, same_text};
use crate::tokenize::texts;

verus! {

/// The code that the interpreter ends with.
pub type ExitCode = i32;

/// What one line hands on to the next.
pub struct ShellState {
    /// Set by the line that ends the interpreter.
    pub exit_code: Option<ExitCode>,
    /// The directory that relative paths start from.
    pub pwd: String,
}

impl ShellState {
    /// The state that the interpreter starts in, in the directory `pwd`.
    pub fn new(pwd: String) -> (state: ShellState)
        ensures
            state.exit_code is None,
            state.pwd@ == pwd@,
    {
        ShellState { exit_code: None, pwd }
    }

    /// Tells whether another line is to be read.
    pub fn is_running(&self) -> (running: bool)
        ensures
            running == (self.exit_code is None),
    {
        self.exit_code.is_none()
    }

    /// This state in the directory `pwd`.
    pub fn moved_to(self, pwd: String) -> (state: ShellState)
        ensures
            state.exit_code == self.exit_code,
            state.pwd@ == pwd@,
    {
        ShellState { exit_code: self.exit_code, pwd }
    }
}

// ---------------------------------------------------------------------------
// The registry of built-in commands
// ---------------------------------------------------------------------------

/// The commands that the interpreter carries out itself. They are the
/// registry of built-in commands: six names, the same at all times, with
/// nothing ever added or taken away.
#[derive(Debug, Clone, Copy, PartialEq, Eq, Structural)]
pub enum Builtin {
    Echo,
    Exit,
    Type,
    Which,
    Pwd,
    Cd,
}

/// The built-in command of the name `name`, letter for letter.
pub open spec fn builtin_named(name: Seq<char>) -> Option<Builtin> {
    if name == "echo"@ {
        Some(Builtin::Echo)
    } else if name == "exit"@ {
        Some(Builtin::Exit)
    } else if name == "type"@ {
        Some(Builtin::Type)
    } else if name == "which"@ {
        Some(Builtin::Which)
    } else if name == "pwd"@ {
        Some(Builtin::Pwd)
    } else if name == "cd"@ {
        Some(Builtin::Cd)
    } else {
        None
    }
}

/// Looks a name up in the registry of built-in commands. The name has to
/// match letter for letter, in case too.
pub fn lookup_builtin(name: &str) -> (found: Option<Builtin>)
    ensures
        found == builtin_named(name@),
{
    if same_text(name, "echo") {
        Some(Builtin::Echo)
    } else if same_text(name, "exit") {
        Some(Builtin::Exit)
    } else if same_text(name, "type") {
        Some(Builtin::Type)
    } else if same_text(name, "which") {
        Some(Builtin::Which)
    } else if same_text(name, "pwd") {
        Some(Builtin::Pwd)
    } else if same_text(name, "cd") {
        Some(Builtin::Cd)
    } else {
        None
    }
}

// ---------------------------------------------------------------------------
// Dispatch
// ---------------------------------------------------------------------------

/// What a command asks the caller to do.
pub enum Action<'a> {
    /// Carry out the built-in command, with its output going to `stdout`,
    /// or to the interpreter's own standard output where there is none.
    Builtin { builtin: Builtin, stdout: Option<(&'a str, RedirMode)> },
    /// Look for the executable on the search path and run it, with each
    /// stream going to its file where it has one.
    External { stdout: Option<(&'a str, RedirMode)>, stderr: Option<(&'a str, RedirMode)> },
}

/// A file to redirect to, with its mode, as a pair.
pub open spec fn file(to: Option<(&str, RedirMode)>) -> Option<(Seq<char>, RedirMode)> {
    match to {
        Some((path, mode)) => Some((path@, mode)),
        None => None,
    }
}

/// Decides what a command leads to: a built-in command where the executable
/// names one, a search for an external command where it does not. A
/// built-in command has no use for a redirection of standard error.
pub fn dispatch<'a>(proc: &Proc<'a>) -> (action: Action<'a>)
    ensures
        match builtin_named(proc@.executable) {
            Some(found) => action matches Action::Builtin { builtin, stdout } && builtin == found
                && file(stdout) == proc@.stdout_target,
            None => action matches Action::External { stdout, stderr } && file(stdout)
                == proc@.stdout_target && file(stderr) == proc@.stderr_target,
        },
{
    let stdout = match proc.stdout {
        Some(path) => Some((path, proc.stdout_mode)),
        None => None,
    };
    match lookup_builtin(proc.executable) {
        Some(builtin) => Action::Builtin { builtin, stdout },
        None => {
            let stderr = match proc.stderr {
                Some(path) => Some((path, proc.stderr_mode)),
                None => None,
            };
            Action::External { stdout, stderr }
        },
    }
}

/// What is reported for a command that is neither built in nor found.
pub fn command_not_found(name: &str) -> (message: String)
    ensures
        message@ == name@ + ": command not found"@,
{
    String::from_str(name).concat(": command not found")
}

// ---------------------------------------------------------------------------
// The search path
// ---------------------------------------------------------------------------

/// Number of characters of `s` before its first colon.
pub open spec fn field_len(s: Seq<char>) -> nat
    decreases s.len(),
{
    if s.len() == 0 || s[0] == ':' {
        0
    } else {
        1 + field_len(s.skip(1))
    }
}

/// The pieces of `s` that its colons separate, in order. There is one more
/// piece than there are colons, and a piece may be empty.
pub open spec fn fields(s: Seq<char>) -> Seq<Seq<char>>
    decreases s.len(),
    via fields_decreases
{
    let n = field_len(s) as int;
    if n >= s.len() {
        seq![s]
    } else {
        seq![s.take(n)] + fields(s.skip(n + 1))
    }
}

#[via_fn]
proof fn fields_decreases(s: Seq<char>) {
    lemma_field_len_bound(s);
}

/// The first field lies within `s` and holds no colon; a colon follows it
/// where anything does.
pub proof fn lemma_field_len_bound(s: Seq<char>)
    ensures
        field_len(s) <= s.len(),
        forall|i: int| 0 <= i < field_len(s) ==> s[i] != ':',
        field_len(s) < s.len() ==> s[field_len(s) as int] == ':',
    decreases s.len(),
{
    if s.len() > 0 && s[0] != ':' {
        let t = s.skip(1);
        lemma_field_len_bound(t);
        assert forall|i: int| 0 <= i < field_len(s) implies s[i] != ':' by {
            if i > 0 {
                assert(s[i] == t[i - 1]);
            }
        }
        if field_len(t) < t.len() {
            assert(t[field_len(t) as int] == s[field_len(t) as int + 1]);
        }
    }
}

/// The directories of a search path: none for an empty path, else its
/// fields.
pub open spec fn dirs_of(path: Seq<char>) -> Seq<Seq<char>> {
    if path.len() == 0 {
        Seq::empty()
    } else {
        fields(path)
    }
}

/// The directories in which an external command is looked for, in the order
/// of the search.
pub fn search_dirs(path: &str) -> (dirs: Vec<&str>)
    ensures
        texts(dirs@) == dirs_of(path@),
{
    let chars = chars_of(path);
    let n = chars.len();
    let mut dirs: Vec<&str> = Vec::new();
    if n == 0 {
        assert(texts(dirs@) =~= Seq::<Seq<char>>::empty());
        return dirs;
    }
    let mut begin: usize = 0;
    let mut i: usize = 0;
    assert(path@.skip(0) =~= path@);
    assert(texts(dirs@) + fields(path@) =~= fields(path@));
    while i < n
        invariant
            chars@ == path@,
            n == chars.len(),
            begin <= i <= n,
            fields(path@) == texts(dirs@) + fields(path@.skip(begin as int)),
            field_len(path@.skip(begin as int)) == (i - begin) + field_len(path@.skip(i as int)),
        decreases n - i,
    {
        if chars[i] == ':' {
            let ghost before = texts(dirs@);
            let ghost from = path@.skip(begin as int);
            let dir = path.substring_char(begin, i);
            dirs.push(dir);
            proof {
                assert(from.take(i - begin) =~= dir@);
                lemma_skip_skip(path@, begin as int, i - begin + 1);
                assert(texts(dirs@) =~= before + seq![dir@]);
                assert(before + (seq![dir@] + fields(path@.skip(i + 1))) =~= texts(dirs@) + fields(
                    path@.skip(i + 1),
                ));
            }
            begin = i + 1;
        } else {
            proof {
                lemma_skip_skip(path@, i as int, 1);
            }
        }
        i += 1;
    }
    let ghost before = texts(dirs@);
    let last = path.substring_char(begin, n);
    dirs.push(last);
    proof {
        assert(path@.skip(n as int) =~= Seq::<char>::empty());
        assert(last@ =~= path@.skip(begin as int));
        assert(texts(dirs@) =~= before + seq![last@]);
    }
    dirs
}

/// `is_runnable_in` may find nothing to run in any of the first `upto` of
/// `dirs`.
pub open spec fn passed_over<'a, F: Fn(&'a str) -> bool>(
    dirs: Seq<&'a str>,
    is_runnable_in: F,
    upto: int,
) -> bool {
    forall|k: int| 0 <= k < upto ==> is_runnable_in.ensures((#[trigger] dirs[k],), false)
}

/// A search through `dirs` in order may end with `found`: with the first
/// directory in which `is_runnable_in` finds a file to run, or with none
/// where it finds one in none.
pub open spec fn search_ends<'a, F: Fn(&'a str) -> bool>(
    dirs: Seq<&'a str>,
    is_runnable_in: F,
    found: Option<&'a str>,
) -> bool {
    match found {
        Some(dir) => exists|i: int|
            0 <= i < dirs.len() && dirs[i] == dir && is_runnable_in.ensures((dir,), true)
                && passed_over(dirs, is_runnable_in, i),
        None => passed_over(dirs, is_runnable_in, dirs.len() as int),
    }
}

/// Looks through the directories of a search path, in order, for the first
/// in which `is_runnable_in` finds a file to run. An empty path has no
/// directories.
pub fn which_internal<'a, F: Fn(&'a str) -> bool>(path: &'a str, is_runnable_in: F) -> (found:
    Option<&'a str>)
    requires
        forall|dir: &'a str| is_runnable_in.requires((dir,)),
    ensures
        exists|dirs: Seq<&'a str>|
            texts(dirs) == dirs_of(path@) && search_ends(dirs, is_runnable_in, found),
{
    let dirs = search_dirs(path);
    let mut i: usize = 0;
    while i < dirs.len()
        invariant
            i <= dirs.len(),
            texts(dirs@) == dirs_of(path@),
            forall|dir: &'a str| is_runnable_in.requires((dir,)),
            passed_over(dirs@, is_runnable_in, i as int),
        decreases dirs.len() - i,
    {
        if is_runnable_in(dirs[i]) {
            let dir = dirs[i];
            assert(0 <= i < dirs@.len() && dirs@[i as int] == dir && is_runnable_in.ensures(
                (dir,),
                true,
            ) && passed_over(dirs@, is_runnable_in, i as int));
            assert(search_ends(dirs@, is_runnable_in, Some(dir)));
            return Some(dir);
        }
        i += 1;
    }
    assert(search_ends(dirs@, is_runnable_in, None));
    None
}

/// Tells whether what was found under a name can be run: a regular file
/// with one of the three execute permission bits set.
pub fn is_executable(is_file: bool, mode: u32) -> (runnable: bool)
    ensures
        runnable == (is_file && mode & 0o111 != 0),
{
    is_file && mode & 0o111 != 0
}

// ---------------------------------------------------------------------------
// echo
// ---------------------------------------------------------------------------

/// The words with one space between each two of them.
pub open spec fn spaced(words: Seq<Seq<char>>) -> Seq<char>
    decreases words.len(),
{
    if words.len() == 0 {
        Seq::empty()
    } else if words.len() == 1 {
        words[0]
    } else {
        spaced(words.drop_last()) + seq![' '] + words.last()
    }
}

/// What `echo` writes: its arguments with a space between them, and a
/// newline.
pub fn echo(argv: &[String]) -> (line: String)
    ensures
        line@ == spaced(strings(argv@)) + seq!['\n'],
{
    let mut line = String::new();
    let mut i: usize = 0;
    assert(strings(argv@).take(0) =~= Seq::<Seq<char>>::empty());
    while i < argv.len()
        invariant
            i <= argv.len(),
            line@ == spaced(strings(argv@).take(i as int)),
        decreases argv.len() - i,
    {
        let ghost words = strings(argv@).take(i + 1);
        assert(words.drop_last() =~= strings(argv@).take(i as int));
        assert(words.last() == argv@[i as int]@);
        if i > 0 {
            line.append(" ");
            proof {
                reveal_strlit(" ");
                assert(" "@ =~= seq![' ']);
            }
        } else {
            assert(line@ + argv@[i as int]@ =~= argv@[i as int]@);
        }
        line.append(argv[i].as_str());
        i += 1;
    }
    assert(strings(argv@).take(argv@.len() as int) =~= strings(argv@));
    line.append("\n");
    proof {
        reveal_strlit("\n");
        assert("\n"@ =~= seq!['\n']);
    }
    line
}

// ---------------------------------------------------------------------------
// exit
// ---------------------------------------------------------------------------

/// Why a word is no exit code.
#[derive(Debug, Clone, Copy, PartialEq, Eq, Structural)]
pub enum ExitCodeError {
    /// The word is empty.
    Empty,
    /// A character is no decimal digit, or the word is a sign alone.
    InvalidDigit,
    /// The digits read so far write a number above the largest exit code.
    PosOverflow,
    /// The digits read so far write a number below the smallest exit code.
    NegOverflow,
}

/// The decimal digits.
pub open spec fn is_digit(c: char) -> bool {
    '0' <= c <= '9'
}

/// The number that the decimal digits `digits` write.
pub open spec fn decimal(digits: Seq<char>) -> int
    decreases digits.len(),
{
    if digits.len() == 0 {
        0
    } else {
        decimal(digits.drop_last()) * 10 + (digits.last() as int - '0' as int)
    }
}

/// The digits of a word: the word without its sign.
pub open spec fn unsigned(word: Seq<char>) -> Seq<char> {
    if word.len() > 0 && (word[0] == '-' || word[0] == '+') {
        word.skip(1)
    } else {
        word
    }
}

/// The number that a sign and digits write.
pub open spec fn signed(negative: bool, digits: Seq<char>) -> int {
    if negative {
        -decimal(digits)
    } else {
        decimal(digits)
    }
}

/// What is wrong at position `at` of `digits`, where nothing is wrong
/// before it: the character is no digit, or the number written up to and
/// with it is one that an `i32` does not hold.
pub open spec fn failure_at(negative: bool, digits: Seq<char>, at: int) -> Option<ExitCodeError> {
    if !is_digit(digits[at]) {
        Some(ExitCodeError::InvalidDigit)
    } else if signed(negative, digits.take(at + 1)) > i32::MAX {
        Some(ExitCodeError::PosOverflow)
    } else if signed(negative, digits.take(at + 1)) < i32::MIN {
        Some(ExitCodeError::NegOverflow)
    } else {
        None
    }
}

/// The first thing that is wrong with `digits`, read from position `from`
/// to the right, if anything is.
pub open spec fn first_failure(negative: bool, digits: Seq<char>, from: int) -> Option<
    ExitCodeError,
>
    decreases digits.len() - from,
{
    if from >= digits.len() {
        None
    } else if failure_at(negative, digits, from) is Some {
        failure_at(negative, digits, from)
    } else {
        first_failure(negative, digits, from + 1)
    }
}

/// The exit code that a word writes: an optional `+` or `-`, then one
/// decimal digit or more, and a value that an `i32` holds. A word that is
/// none is read from left to right, and the error is the first that is
/// met: a character that is no digit where it stands, a number out of range
/// at the digit that takes it there.
pub open spec fn exit_code_of(word: Seq<char>) -> Result<ExitCode, ExitCodeError> {
    let negative = word.len() > 0 && word[0] == '-';
    let digits = unsigned(word);
    if word.len() == 0 {
        Err(ExitCodeError::Empty)
    } else if digits.len() == 0 {
        Err(ExitCodeError::InvalidDigit)
    } else {
        match first_failure(negative, digits, 0) {
            Some(e) => Err(e),
            None => Ok(signed(negative, digits) as i32),
        }
    }
}

/// Digits write a number that is not negative.
proof fn lemma_decimal_not_negative(digits: Seq<char>)
    requires
        forall|i: int| 0 <= i < digits.len() ==> is_digit(digits[i]),
    ensures
        0 <= decimal(digits),
    decreases digits.len(),
{
    if digits.len() > 0 {
        lemma_decimal_not_negative(digits.drop_last());
        assert(is_digit(digits[digits.len() - 1]));
    }
}

/// Digits write a number that is no smaller than the number that any of
/// their prefixes writes.
proof fn lemma_decimal_grows(digits: Seq<char>, k: int)
    requires
        0 <= k <= digits.len(),
        forall|i: int| 0 <= i < digits.len() ==> is_digit(digits[i]),
    ensures
        0 <= decimal(digits.take(k)) <= decimal(digits),
    decreases digits.len() - k,
{
    lemma_decimal_not_negative(digits.take(k));
    if k == digits.len() {
        assert(digits.take(k) =~= digits);
    } else {
        lemma_decimal_grows(digits, k + 1);
        let longer = digits.take(k + 1);
        assert(longer.drop_last() =~= digits.take(k));
        assert(is_digit(digits[k]));
    }
}

/// Where every character is a digit, the only thing that can be wrong is
/// the size of the number.
proof fn lemma_first_failure_of_digits(negative: bool, digits: Seq<char>, from: int)
    requires
        0 <= from <= digits.len(),
        forall|i: int| 0 <= i < digits.len() ==> is_digit(digits[i]),
        i32::MIN <= signed(negative, digits.take(from)) <= i32::MAX,
    ensures
        first_failure(negative, digits, from) == (if signed(negative, digits) > i32::MAX {
            Some(ExitCodeError::PosOverflow)
        } else if signed(negative, digits) < i32::MIN {
            Some(ExitCodeError::NegOverflow)
        } else {
            None
        }),
    decreases digits.len() - from,
{
    if from >= digits.len() {
        assert(digits.take(from) =~= digits);
    } else {
        assert(is_digit(digits[from]));
        lemma_decimal_grows(digits, from + 1);
        if failure_at(negative, digits, from) is None {
            lemma_first_failure_of_digits(negative, digits, from + 1);
        }
    }
}

/// Where a character is no digit, something is wrong.
proof fn lemma_first_failure_of_non_digit(negative: bool, digits: Seq<char>, from: int, at: int)
    requires
        0 <= from <= at < digits.len(),
        !is_digit(digits[at]),
    ensures
        first_failure(negative, digits, from) is Some,
    decreases at - from,
{
    if from < at && failure_at(negative, digits, from) is None {
        lemma_first_failure_of_non_digit(negative, digits, from + 1, at);
    }
}

/// A word is an exit code exactly where it is an optional sign and then
/// digits, one at least, that write a number which an `i32` holds; the
/// exit code is that number. A word of a sign and digits that write a
/// greater number is rejected with `PosOverflow`, one that writes a smaller
/// number with `NegOverflow`.
pub proof fn lemma_exit_code_of_number(word: Seq<char>)
    ensures
        ({
            let negative = word.len() > 0 && word[0] == '-';
            let digits = unsigned(word);
            let value = signed(negative, digits);
            let number = digits.len() > 0 && forall|i: int|
                0 <= i < digits.len() ==> is_digit(digits[i]);
            &&& exit_code_of(word) is Ok <==> number && i32::MIN <= value <= i32::MAX
            &&& exit_code_of(word) matches Ok(code) ==> code == value
            &&& number && value > i32::MAX ==> exit_code_of(word) == Err::<ExitCode, ExitCodeError>(
                ExitCodeError::PosOverflow,
            )
            &&& number && value < i32::MIN ==> exit_code_of(word) == Err::<ExitCode, ExitCodeError>(
                ExitCodeError::NegOverflow,
            )
        }),
{
    let negative = word.len() > 0 && word[0] == '-';
    let digits = unsigned(word);
    if digits.len() > 0 {
        if forall|i: int| 0 <= i < digits.len() ==> is_digit(digits[i]) {
            assert(digits.take(0) =~= Seq::<char>::empty());
            lemma_first_failure_of_digits(negative, digits, 0);
        } else {
            let at = choose|i: int| 0 <= i < digits.len() && !is_digit(digits[i]);
            lemma_first_failure_of_non_digit(negative, digits, 0, at);
        }
    }
}

/// Reads an exit code from a word, from left to right.
pub fn parse_exit_code(word: &str) -> (r: Result<ExitCode, ExitCodeError>)
    ensures
        r == exit_code_of(word@),
{
    let chars = chars_of(word);
    let n = chars.len();
    if n == 0 {
        return Err(ExitCodeError::Empty);
    }
    let negative = chars[0] == '-';
    let first: usize = if chars[0] == '-' || chars[0] == '+' {
        1
    } else {
        0
    };
    let ghost digits = unsigned(word@);
    assert(digits =~= word@.skip(first as int));
    if first == n {
        return Err(ExitCodeError::InvalidDigit);
    }
    let mut value: i64 = 0;
    let mut i: usize = first;
    assert(digits.take(0) =~= Seq::<char>::empty());
    while i < n
        invariant
            chars@ == word@,
            n == chars.len(),
            first <= i <= n,
            first < n,
            negative == (word@[0] == '-'),
            digits == unsigned(word@),
            digits == word@.skip(first as int),
            digits.len() == n - first,
            first_failure(negative, digits, 0) == first_failure(negative, digits, i - first),
            value == decimal(digits.take(i - first)),
            0 <= value <= 0x8000_0000,
        decreases n - i,
    {
        let c = chars[i];
        let ghost longer = digits.take(i - first + 1);
        assert(digits[i - first] == c);
        if !(c >= '0' && c <= '9') {
            return Err(ExitCodeError::InvalidDigit);
        }
        let digit: i64 = (c as u32 - '0' as u32) as i64;
        proof {
            assert(longer.drop_last() =~= digits.take(i - first));
            assert(longer.last() == c);
        }
        value = value * 10 + digit;
        assert(value == decimal(longer));
        if negative {
            if value > 0x8000_0000 {
                return Err(ExitCodeError::NegOverflow);
            }
        } else if value > 0x7fff_ffff {
            return Err(ExitCodeError::PosOverflow);
        }
        i += 1;
    }
    assert(digits.take(n - first) =~= digits);
    if negative {
        Ok((-value) as i32)
    } else {
        Ok(value as i32)
    }
}

impl ExitCodeError {
    /// The text that the error is reported with.
    pub open spec fn text(self) -> Seq<char> {
        match self {
            ExitCodeError::Empty => "cannot parse integer from empty string"@,
            ExitCodeError::InvalidDigit => "invalid digit found in string"@,
            ExitCodeError::PosOverflow => "number too large to fit in target type"@,
            ExitCodeError::NegOverflow => "number too small to fit in target type"@,
        }
    }

    /// The text that the error is reported with.
    pub fn message(&self) -> (message: String)
        ensures
            message@ == self.text(),
    {
        match self {
            ExitCodeError::Empty => String::from_str("cannot parse integer from empty string"),
            ExitCodeError::InvalidDigit => String::from_str("invalid digit found in string"),
            ExitCodeError::PosOverflow => String::from_str(
                "number too large to fit in target type",
            ),
            ExitCodeError::NegOverflow => String::from_str(
                "number too small to fit in target type",
            ),
        }
    }
}

/// The exit code that the arguments of `exit` ask for: 0 without an
/// argument, else what the first argument writes.
pub open spec fn exit_request(argv: Seq<Seq<char>>) -> Result<ExitCode, ExitCodeError> {
    if argv.len() == 0 {
        Ok(0)
    } else {
        exit_code_of(argv[0])
    }
}

/// Carries out `exit`: sets the exit code that the arguments ask for. Where
/// the first argument is no exit code, the state stays as it is and the
/// error is returned to be reported.
pub fn exit(state: ShellState, argv: &[String]) -> (r: (ShellState, Option<ExitCodeError>))
    ensures
        r.0.pwd@ == state.pwd@,
        match exit_request(strings(argv@)) {
            Ok(code) => r.0.exit_code == Some(code) && r.1 is None,
            Err(e) => r.0.exit_code == state.exit_code && r.1 == Some(e),
        },
{
    let code = if argv.len() == 0 {
        Ok(0)
    } else {
        parse_exit_code(argv[0].as_str())
    };
    match code {
        Ok(code) => (ShellState { exit_code: Some(code), pwd: state.pwd }, None),
        Err(e) => (state, Some(e)),
    }
}

// ---------------------------------------------------------------------------
// cd and pwd
// ---------------------------------------------------------------------------

/// Where `cd` is asked to go.
pub enum CdTarget<'a> {
    /// To the home directory.
    Home,
    /// To a directory, named from the current one.
    Dir(&'a str),
}

/// Decides where `cd` goes: home without an argument or with `~`, else to
/// the directory that the first argument names.
pub fn cd_target(argv: &[String]) -> (to: CdTarget<'_>)
    ensures
        match to {
            CdTarget::Home => argv@.len() == 0 || argv@[0]@ == "~"@,
            CdTarget::Dir(dir) => argv@.len() > 0 && argv@[0]@ != "~"@ && dir@ == argv@[0]@,
        },
{
    if argv.len() == 0 {
        CdTarget::Home
    } else if same_text(argv[0].as_str(), "~") {
        CdTarget::Home
    } else {
        CdTarget::Dir(argv[0].as_str())
    }
}

/// How an attempt to change the directory ended.
pub enum CdOutcome<'a> {
    /// `cd` was to go home, and there is no home directory.
    NoHome,
    /// The directory exists; this is its canonical path.
    Entered(String),
    /// There is no directory of this name.
    NotFound(&'a str),
    /// The directory could not be entered, for the reason given.
    Failed(&'a str),
}

/// What `cd` reports after an attempt that ended with `outcome`, if
/// anything.
pub open spec fn cd_text(outcome: CdOutcome) -> Option<Seq<char>> {
    match outcome {
        CdOutcome::NoHome => Some("failed to get new directory"@),
        CdOutcome::Entered(_) => None,
        CdOutcome::NotFound(dir) => Some("cd: "@ + dir@ + ": No such file or directory"@),
        CdOutcome::Failed(reason) => Some("Unexpected error: "@ + reason@),
    }
}

/// A message as a sequence of characters.
pub open spec fn said(message: Option<String>) -> Option<Seq<char>> {
    match message {
        Some(message) => Some(message@),
        None => None,
    }
}

/// Carries out `cd` once the attempt has been made: the current directory
/// changes where the directory was entered, and only there; every other
/// outcome is reported.
pub fn cd(state: ShellState, outcome: CdOutcome) -> (r: (ShellState, Option<String>))
    ensures
        r.0.exit_code == state.exit_code,
        r.0.pwd@ == (match outcome {
            CdOutcome::Entered(path) => path@,
            _ => state.pwd@,
        }),
        said(r.1) == cd_text(outcome),
{
    match outcome {
        CdOutcome::NoHome => (state, Some(String::from_str("failed to get new directory"))),
        CdOutcome::Entered(path) => (state.moved_to(path), None),
        CdOutcome::NotFound(dir) => {
            let message = String::from_str("cd: ").concat(dir).concat(
                ": No such file or directory",
            );
            (state, Some(message))
        },
        CdOutcome::Failed(reason) => {
            let message = String::from_str("Unexpected error: ").concat(reason);
            (state, Some(message))
        },
    }
}

/// What `pwd` prints: the current directory.
pub fn pwd(state: &ShellState) -> (line: String)
    ensures
        line@ == state.pwd@,
{
    state.pwd.clone()
}

// ---------------------------------------------------------------------------
// type and which
// ---------------------------------------------------------------------------

/// The file as a sequence of characters.
pub open spec fn found_at(external: Option<&str>) -> Option<Seq<char>> {
    match external {
        Some(path) => Some(path@),
        None => None,
    }
}

/// What is said of a name that is not built in, given the file that the
/// search path has for it, if any.
pub open spec fn located(name: Seq<char>, external: Option<Seq<char>>) -> Seq<char> {
    match external {
        Some(path) => name + " is "@ + path,
        None => name + ": not found"@,
    }
}

/// What `which` says: how it is used, where it has no argument; else where
/// the search path has its first argument.
pub open spec fn which_text(argv: Seq<Seq<char>>, external: Option<Seq<char>>) -> Seq<char> {
    if argv.len() == 0 {
        "which [cmd]"@
    } else {
        located(argv[0], external)
    }
}

/// What `type` says: how it is used, where it has no argument; that its
/// first argument is built in, where it is, whatever the search path has;
/// else where the search path has it.
pub open spec fn type_text(argv: Seq<Seq<char>>, external: Option<Seq<char>>) -> Seq<char> {
    if argv.len() == 0 {
        "type [cmd]"@
    } else if builtin_named(argv[0]) is Some {
        argv[0] + " is a shell builtin"@
    } else {
        located(argv[0], external)
    }
}

/// The name that `which` needs the search path for: its first argument.
pub fn which_search(argv: &[String]) -> (name: Option<&str>)
    ensures
        match name {
            Some(name) => argv@.len() > 0 && name@ == argv@[0]@,
            None => argv@.len() == 0,
        },
{
    if argv.len() == 0 {
        None
    } else {
        Some(argv[0].as_str())
    }
}

/// The name that `type` needs the search path for: its first argument,
/// unless that is the name of a built-in command.
pub fn type_search(argv: &[String]) -> (name: Option<&str>)
    ensures
        match name {
            Some(name) => argv@.len() > 0 && name@ == argv@[0]@ && builtin_named(argv@[0]@)
                is None,
            None => argv@.len() == 0 || builtin_named(argv@[0]@) is Some,
        },
{
    if argv.len() == 0 || lookup_builtin(argv[0].as_str()).is_some() {
        None
    } else {
        Some(argv[0].as_str())
    }
}

/// Says where `name` was found.
fn locate(name: &str, external: Option<&str>) -> (message: String)
    ensures
        message@ == located(name@, found_at(external)),
{
    match external {
        Some(path) => String::from_str(name).concat(" is ").concat(path),
        None => String::from_str(name).concat(": not found"),
    }
}

/// What `which` prints, given the file that the search path has for its
/// first argument, if any.
pub fn which(argv: &[String], external: Option<&str>) -> (message: String)
    ensures
        message@ == which_text(strings(argv@), found_at(external)),
{
    if argv.len() == 0 {
        String::from_str("which [cmd]")
    } else {
        locate(argv[0].as_str(), external)
    }
}

/// What `type` prints, given the file that the search path has for its
/// first argument, if any.
pub fn type_fn(argv: &[String], external: Option<&str>) -> (message: String)
    ensures
        message@ == type_text(strings(argv@), found_at(external)),
{
    if argv.len() == 0 {
        String::from_str("type [cmd]")
    } else if lookup_builtin(argv[0].as_str()).is_some() {
        String::from_str(argv[0].as_str()).concat(" is a shell builtin")
    } else {
        locate(argv[0].as_str(), external)
    }
}

} // verus!
