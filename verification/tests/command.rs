use shell_line::command::{
    parse, redirect_mode_of, stream_number_of, words2proc, RedirMode, ToRedirect,
};
use shell_line::tokenize::ParseError;

fn args(a: &[&str]) -> Vec<String> {
    a.iter().map(|a| a.to_string()).collect()
}

#[test]
fn test_words2proc() {
    let argv = args(&["echo", "a", "b"]);
    let result = words2proc(&argv).unwrap().unwrap();
    assert_eq!(result.executable, "echo");
    assert_eq!(result.argv, vec!["a", "b"]);
    assert_eq!(result.stdout, None);
    assert_eq!(result.stderr, None);

    let argv = args(&["echo", "1", "2"]);
    let result = words2proc(&argv).unwrap().unwrap();
    assert_eq!(result.executable, "echo");
    assert_eq!(result.argv, vec!["1", "2"]);
    assert_eq!(result.stdout, None);
    assert_eq!(result.stderr, None);

    let argv = args(&["echo", "a", ">", "b"]);
    let result = words2proc(&argv).unwrap().unwrap();
    assert_eq!(result.executable, "echo");
    assert_eq!(result.argv, vec!["a"]);
    assert_eq!(result.stdout, Some("b"));
    assert_eq!(result.stdout_mode, RedirMode::Write);
    assert_eq!(result.stderr, None);

    let argv = args(&["echo", "a", "2", ">", "b"]);
    let result = words2proc(&argv).unwrap().unwrap();
    assert_eq!(result.executable, "echo");
    assert_eq!(result.argv, vec!["a"]);
    assert_eq!(result.stdout, None);
    assert_eq!(result.stderr, Some("b"));
    assert_eq!(result.stderr_mode, RedirMode::Write);

    let argv = args(&["echo", "a", ">>", "b"]);
    let result = words2proc(&argv).unwrap().unwrap();
    assert_eq!(result.executable, "echo");
    assert_eq!(result.argv, vec!["a"]);
    assert_eq!(result.stdout, Some("b"));
    assert_eq!(result.stdout_mode, RedirMode::Append);
    assert_eq!(result.stderr, None);

    let argv = args(&["echo", "a", "2", ">>", "b"]);
    let result = words2proc(&argv).unwrap().unwrap();
    assert_eq!(result.executable, "echo");
    assert_eq!(result.argv, vec!["a"]);
    assert_eq!(result.stdout, None);
    assert_eq!(result.stderr, Some("b"));
    assert_eq!(result.stderr_mode, RedirMode::Append);
}

#[test]
fn words2proc_of_no_words_is_no_command() {
    assert!(words2proc(&[]).unwrap().is_none());
}

#[test]
fn words2proc_binds_stderr_for_write() {
    let argv = args(&["echo", "a", "2", ">", "b"]);
    let result = words2proc(&argv).unwrap().unwrap();
    assert_eq!(result.argv, vec!["a"]);
    assert_eq!(result.stderr, Some("b"));
    assert_eq!(result.stderr_mode, RedirMode::Write);
    assert_eq!(result.stdout, None);
}

#[test]
fn words2proc_binds_stdout_for_append() {
    let argv = args(&["echo", "a", ">>", "b"]);
    let result = words2proc(&argv).unwrap().unwrap();
    assert_eq!(result.argv, vec!["a"]);
    assert_eq!(result.stdout, Some("b"));
    assert_eq!(result.stdout_mode, RedirMode::Append);
    assert_eq!(result.stderr, None);
}

#[test]
fn words2proc_binds_stdout_by_number() {
    let argv = args(&["echo", "a", "1", ">>", "b", "c"]);
    let result = words2proc(&argv).unwrap().unwrap();
    assert_eq!(result.argv, vec!["a", "c"]);
    assert_eq!(result.stdout, Some("b"));
    assert_eq!(result.stdout_mode, RedirMode::Append);
    assert_eq!(result.stderr, None);
    assert_eq!(result.stderr_mode, RedirMode::Write);
}

#[test]
fn words2proc_goes_back_to_stdout_after_a_redirection() {
    let argv = args(&["cmd", "2", ">", "err", ">", "out"]);
    let result = words2proc(&argv).unwrap().unwrap();
    assert_eq!(result.argv, Vec::<String>::new());
    assert_eq!(result.stderr, Some("err"));
    assert_eq!(result.stdout, Some("out"));
}

#[test]
fn words2proc_lets_the_last_redirection_win() {
    let argv = args(&["cmd", ">", "one", ">>", "two"]);
    let result = words2proc(&argv).unwrap().unwrap();
    assert_eq!(result.stdout, Some("two"));
    assert_eq!(result.stdout_mode, RedirMode::Append);
}

#[test]
fn words2proc_takes_any_word_as_the_file() {
    let argv = args(&["cmd", ">", ">", "a"]);
    let result = words2proc(&argv).unwrap().unwrap();
    assert_eq!(result.stdout, Some(">"));
    assert_eq!(result.argv, vec!["a"]);
}

#[test]
fn words2proc_keeps_other_numbers_as_arguments() {
    let argv = args(&["cmd", "3", ">", "a", "12", "2"]);
    let result = words2proc(&argv).unwrap().unwrap();
    assert_eq!(result.argv, vec!["3", "12", "2"]);
    assert_eq!(result.stdout, Some("a"));
    assert_eq!(result.stderr, None);
}

#[test]
fn words2proc_does_not_read_the_executable_as_an_operator() {
    let argv = args(&[">", "a"]);
    let result = words2proc(&argv).unwrap().unwrap();
    assert_eq!(result.executable, ">");
    assert_eq!(result.argv, vec!["a"]);
    assert_eq!(result.stdout, None);
}

#[test]
fn words2proc_rejects_an_operator_without_a_file() {
    assert_eq!(
        words2proc(&args(&["echo", "a", ">"])).err(),
        Some(ParseError::RedirectTargetMissing)
    );
    assert_eq!(
        words2proc(&args(&["echo", ">>"])).err(),
        Some(ParseError::RedirectTargetMissing)
    );
    assert_eq!(
        words2proc(&args(&["echo", "2", ">"])).err(),
        Some(ParseError::RedirectTargetMissing)
    );
    assert_eq!(
        words2proc(&args(&["echo", ">", "a", "1", ">>"])).err(),
        Some(ParseError::RedirectTargetMissing)
    );
}

#[test]
fn words2proc_reads_an_operator_after_an_operator_as_its_file() {
    let argv = args(&["cmd", ">", ">"]);
    let result = words2proc(&argv).unwrap().unwrap();
    assert_eq!(result.stdout, Some(">"));
    assert_eq!(result.stdout_mode, RedirMode::Write);
    assert_eq!(result.argv, Vec::<String>::new());

    let argv = args(&["cmd", "2", ">>", ">"]);
    let result = words2proc(&argv).unwrap().unwrap();
    assert_eq!(result.stderr, Some(">"));
    assert_eq!(result.stderr_mode, RedirMode::Append);

    assert_eq!(
        words2proc(&args(&["cmd", ">", ">", ">"])).err(),
        Some(ParseError::RedirectTargetMissing)
    );
    assert_eq!(
        words2proc(&args(&["cmd", ">", "a", ">>", ">", "2", ">"])).err(),
        Some(ParseError::RedirectTargetMissing)
    );
}

#[test]
fn words2proc_rejects_no_line_that_ends_with_another_word() {
    for words in [
        vec!["cmd", ">", "a"],
        vec!["cmd", ">", ">", "a"],
        vec!["cmd", "2", ">", "1", ">>", "a"],
        vec!["cmd", "1", "2"],
        vec!["cmd", ">>", "1"],
    ] {
        assert!(words2proc(&args(&words)).is_ok(), "{:?}", words);
    }
}

#[test]
fn redirect_operators_and_stream_numbers() {
    assert_eq!(redirect_mode_of(">"), Some(RedirMode::Write));
    assert_eq!(redirect_mode_of(">>"), Some(RedirMode::Append));
    assert_eq!(redirect_mode_of(">>>"), None);
    assert_eq!(redirect_mode_of(""), None);
    assert_eq!(redirect_mode_of("a"), None);
    assert_eq!(stream_number_of("1"), Some(ToRedirect::Stdout));
    assert_eq!(stream_number_of("2"), Some(ToRedirect::Stderr));
    assert_eq!(stream_number_of("3"), None);
    assert_eq!(stream_number_of("12"), None);
    assert_eq!(stream_number_of(""), None);
}

#[test]
fn parse_resolves_each_token() {
    assert_eq!(parse("echo 'a b' \"c\\\\d\" e\\ f").unwrap(), vec!["echo", "a b", "c\\d", "e f"]);
    assert_eq!(parse("echo a 2>> 'my file'").unwrap(), vec!["echo", "a", "2", ">>", "my file"]);
    assert_eq!(parse("   ").unwrap(), Vec::<String>::new());
}

#[test]
fn parse_rejects_what_tokenize_rejects() {
    assert_eq!(parse("echo 'a"), Err(ParseError::QuoteMissing));
}

#[test]
fn a_quoted_operator_is_still_an_operator_to_the_builder() {
    let argv = parse("echo a '>' b").unwrap();
    let result = words2proc(&argv).unwrap().unwrap();
    assert_eq!(result.argv, vec!["a"]);
    assert_eq!(result.stdout, Some("b"));
}
