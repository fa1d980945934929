use shell_line::command::{words2proc, RedirMode};
use shell_line::dispatch::{
    cd, cd_target, command_not_found, dispatch, echo, exit, is_executable, lookup_builtin,
    parse_exit_code, pwd, search_dirs, type_fn, type_search, which, which_internal,
    which_search, Action, Builtin, CdOutcome, CdTarget, ExitCodeError, ShellState,
};
use std::num::IntErrorKind;

fn args(a: &[&str]) -> Vec<String> {
    a.iter().map(|a| a.to_string()).collect()
}

#[test]
fn the_six_builtins_are_found_by_their_exact_names() {
    assert_eq!(lookup_builtin("echo"), Some(Builtin::Echo));
    assert_eq!(lookup_builtin("exit"), Some(Builtin::Exit));
    assert_eq!(lookup_builtin("type"), Some(Builtin::Type));
    assert_eq!(lookup_builtin("which"), Some(Builtin::Which));
    assert_eq!(lookup_builtin("pwd"), Some(Builtin::Pwd));
    assert_eq!(lookup_builtin("cd"), Some(Builtin::Cd));
    assert_eq!(lookup_builtin("Echo"), None);
    assert_eq!(lookup_builtin("echo "), None);
    assert_eq!(lookup_builtin("ech"), None);
    assert_eq!(lookup_builtin(""), None);
    assert_eq!(lookup_builtin("ls"), None);
}

#[test]
fn dispatch_of_a_builtin_carries_its_stdout() {
    let argv = args(&["echo", "a", ">>", "out", "2", ">", "err"]);
    let proc = words2proc(&argv).unwrap().unwrap();
    match dispatch(&proc) {
        Action::Builtin { builtin, stdout } => {
            assert_eq!(builtin, Builtin::Echo);
            assert_eq!(stdout, Some(("out", RedirMode::Append)));
        }
        Action::External { .. } => panic!("echo is built in"),
    }
}

#[test]
fn dispatch_of_another_name_carries_both_streams() {
    let argv = args(&["ls", "-l", ">", "out", "2", ">>", "err"]);
    let proc = words2proc(&argv).unwrap().unwrap();
    match dispatch(&proc) {
        Action::External { stdout, stderr } => {
            assert_eq!(stdout, Some(("out", RedirMode::Write)));
            assert_eq!(stderr, Some(("err", RedirMode::Append)));
        }
        Action::Builtin { .. } => panic!("ls is not built in"),
    }
    let argv = args(&["ls"]);
    let proc = words2proc(&argv).unwrap().unwrap();
    match dispatch(&proc) {
        Action::External { stdout, stderr } => {
            assert_eq!(stdout, None);
            assert_eq!(stderr, None);
        }
        Action::Builtin { .. } => panic!("ls is not built in"),
    }
}

#[test]
fn an_unknown_command_is_reported_by_name() {
    assert_eq!(command_not_found("nosuchcmd"), "nosuchcmd: command not found");
}

#[test]
fn search_dirs_are_the_fields_between_colons() {
    assert_eq!(search_dirs("/usr/bin:/bin"), ["/usr/bin", "/bin"]);
    assert_eq!(search_dirs("/bin"), ["/bin"]);
    assert_eq!(search_dirs("/a::/b:"), ["/a", "", "/b", ""]);
    assert_eq!(search_dirs(":"), ["", ""]);
    assert_eq!(search_dirs("/ä:/ö"), ["/ä", "/ö"]);
}

#[test]
fn an_empty_search_path_has_no_directories() {
    assert_eq!(search_dirs(""), Vec::<&str>::new());
}

#[test]
fn the_first_directory_with_the_file_wins() {
    assert_eq!(which_internal("/a:/b:/c", |dir| dir == "/b" || dir == "/c"), Some("/b"));
    assert_eq!(which_internal("/a:/b:/c", |dir| dir == "/a"), Some("/a"));
    assert_eq!(which_internal("/a:/b:/c", |dir| dir == "/c"), Some("/c"));
    assert_eq!(which_internal("/a::/c", |dir| dir.is_empty()), Some(""));
}

#[test]
fn the_search_fails_where_no_directory_has_the_file() {
    assert_eq!(which_internal("/a:/b:/c", |_| false), None);
    assert_eq!(which_internal("/a:/b:/c", |dir| dir == "/d"), None);
}

#[test]
fn an_empty_search_path_is_not_searched() {
    assert_eq!(which_internal("", |_| true), None);
}

#[test]
fn a_regular_file_with_an_execute_bit_is_executable() {
    assert!(is_executable(true, 0o755));
    assert!(is_executable(true, 0o100));
    assert!(is_executable(true, 0o010));
    assert!(is_executable(true, 0o001));
    assert!(is_executable(true, 0o100644 | 0o001));
    assert!(!is_executable(true, 0o644));
    assert!(!is_executable(true, 0));
    assert!(!is_executable(false, 0o755));
}

#[test]
fn echo_joins_with_spaces_and_ends_the_line() {
    assert_eq!(echo(&args(&["a", "b", "c"])), "a b c\n");
    assert_eq!(echo(&args(&["a b"])), "a b\n");
    assert_eq!(echo(&args(&["", ""])), " \n");
    assert_eq!(echo(&[]), "\n");
}

#[test]
fn exit_codes_are_signed_decimal_numbers() {
    assert_eq!(parse_exit_code("3"), Ok(3));
    assert_eq!(parse_exit_code("0"), Ok(0));
    assert_eq!(parse_exit_code("-1"), Ok(-1));
    assert_eq!(parse_exit_code("+7"), Ok(7));
    assert_eq!(parse_exit_code("007"), Ok(7));
    assert_eq!(parse_exit_code("-0"), Ok(0));
    assert_eq!(parse_exit_code("2147483647"), Ok(i32::MAX));
    assert_eq!(parse_exit_code("-2147483648"), Ok(i32::MIN));
    assert_eq!(parse_exit_code("00000000000000000000012"), Ok(12));
}

#[test]
fn exit_codes_that_are_none() {
    assert_eq!(parse_exit_code(""), Err(ExitCodeError::Empty));
    assert_eq!(parse_exit_code("abc"), Err(ExitCodeError::InvalidDigit));
    assert_eq!(parse_exit_code("-"), Err(ExitCodeError::InvalidDigit));
    assert_eq!(parse_exit_code("+"), Err(ExitCodeError::InvalidDigit));
    assert_eq!(parse_exit_code("1 "), Err(ExitCodeError::InvalidDigit));
    assert_eq!(parse_exit_code(" 1"), Err(ExitCodeError::InvalidDigit));
    assert_eq!(parse_exit_code("1_0"), Err(ExitCodeError::InvalidDigit));
    assert_eq!(parse_exit_code("--1"), Err(ExitCodeError::InvalidDigit));
    assert_eq!(parse_exit_code("١"), Err(ExitCodeError::InvalidDigit));
    assert_eq!(parse_exit_code("2147483648"), Err(ExitCodeError::PosOverflow));
    assert_eq!(parse_exit_code("99999999999999999999999"), Err(ExitCodeError::PosOverflow));
    assert_eq!(parse_exit_code("-2147483649"), Err(ExitCodeError::NegOverflow));
    assert_eq!(parse_exit_code("-99999999999999999999999"), Err(ExitCodeError::NegOverflow));
}

#[test]
fn exit_codes_fail_at_the_first_thing_wrong_from_the_left() {
    assert_eq!(parse_exit_code("99999999999a"), Err(ExitCodeError::PosOverflow));
    assert_eq!(parse_exit_code("-99999999999a"), Err(ExitCodeError::NegOverflow));
    assert_eq!(parse_exit_code("12a99999999999"), Err(ExitCodeError::InvalidDigit));
    assert_eq!(parse_exit_code("a99999999999"), Err(ExitCodeError::InvalidDigit));
    assert_eq!(parse_exit_code("2147483648x"), Err(ExitCodeError::PosOverflow));
    assert_eq!(parse_exit_code("2147483647x"), Err(ExitCodeError::InvalidDigit));
    assert_eq!(parse_exit_code("214748364x"), Err(ExitCodeError::InvalidDigit));
    assert_eq!(parse_exit_code("-2147483649x"), Err(ExitCodeError::NegOverflow));
    assert_eq!(parse_exit_code("-2147483648x"), Err(ExitCodeError::InvalidDigit));
    assert_eq!(parse_exit_code("+2147483648-"), Err(ExitCodeError::PosOverflow));
    assert_eq!(parse_exit_code("+-5"), Err(ExitCodeError::InvalidDigit));
    assert_eq!(parse_exit_code("0000000000000000x"), Err(ExitCodeError::InvalidDigit));
}

/// What the standard library makes of the word.
fn parsed_by_std(word: &str) -> Result<i32, ExitCodeError> {
    word.parse::<i32>().map_err(|e| match e.kind() {
        IntErrorKind::Empty => ExitCodeError::Empty,
        IntErrorKind::InvalidDigit => ExitCodeError::InvalidDigit,
        IntErrorKind::PosOverflow => ExitCodeError::PosOverflow,
        IntErrorKind::NegOverflow => ExitCodeError::NegOverflow,
        other => panic!("{:?}", other),
    })
}

/// Every word of at most `longest` characters over `alphabet`, each after
/// `before`.
fn words_after(before: &str, alphabet: &[char], longest: usize) -> Vec<String> {
    let mut all = vec![before.to_string()];
    let mut last = all.clone();
    for _ in 0..longest {
        let mut next = Vec::new();
        for word in &last {
            for c in alphabet {
                let mut longer = word.clone();
                longer.push(*c);
                next.push(longer);
            }
        }
        all.extend(next.iter().cloned());
        last = next;
    }
    all
}

#[test]
fn exit_codes_are_read_as_the_standard_library_reads_an_i32() {
    let alphabet = ['0', '1', '7', '9', '-', '+', 'a', ' '];
    for before in ["", "-", "+", "21474836", "-21474836", "+21474836", "000000000002147483"] {
        for word in words_after(before, &alphabet, 4) {
            assert_eq!(parse_exit_code(&word), parsed_by_std(&word), "{:?}", word);
        }
    }
    for word in ["2147483647", "2147483648", "-2147483648", "-2147483649", "٣", "1_0", "0x10"] {
        assert_eq!(parse_exit_code(word), parsed_by_std(word), "{:?}", word);
    }
}

#[test]
fn exit_reports_as_the_standard_library_does() {
    for word in ["", "x", "-", "99999999999", "-99999999999", "99999999999a"] {
        let said = word.parse::<i32>().unwrap_err().to_string();
        assert_eq!(parse_exit_code(word).unwrap_err().message(), said, "{:?}", word);
    }
}

#[test]
fn exit_code_errors_have_their_messages() {
    assert_eq!(ExitCodeError::Empty.message(), "cannot parse integer from empty string");
    assert_eq!(ExitCodeError::InvalidDigit.message(), "invalid digit found in string");
    assert_eq!(ExitCodeError::PosOverflow.message(), "number too large to fit in target type");
    assert_eq!(ExitCodeError::NegOverflow.message(), "number too small to fit in target type");
}

#[test]
fn exit_sets_the_code_and_ends_the_loop() {
    let state = ShellState::new("/home/me".to_string());
    assert!(state.is_running());
    let (state, error) = exit(state, &args(&["3"]));
    assert_eq!(error, None);
    assert_eq!(state.exit_code, Some(3));
    assert_eq!(state.pwd, "/home/me");
    assert!(!state.is_running());
}

#[test]
fn exit_without_a_code_is_exit_zero() {
    let (state, error) = exit(ShellState::new("/".to_string()), &[]);
    assert_eq!(error, None);
    assert_eq!(state.exit_code, Some(0));
}

#[test]
fn exit_with_a_bad_code_leaves_the_loop_running() {
    let (state, error) = exit(ShellState::new("/tmp".to_string()), &args(&["three"]));
    assert_eq!(error, Some(ExitCodeError::InvalidDigit));
    assert_eq!(state.exit_code, None);
    assert_eq!(state.pwd, "/tmp");
    assert!(state.is_running());
}

#[test]
fn exit_reads_its_first_argument_only() {
    let (state, error) = exit(ShellState::new("/".to_string()), &args(&["4", "x"]));
    assert_eq!(error, None);
    assert_eq!(state.exit_code, Some(4));
}

#[test]
fn cd_goes_home_without_an_argument_or_with_a_tilde() {
    assert!(matches!(cd_target(&[]), CdTarget::Home));
    assert!(matches!(cd_target(&args(&["~"])), CdTarget::Home));
    assert!(matches!(cd_target(&args(&["~", "x"])), CdTarget::Home));
}

#[test]
fn cd_goes_to_the_directory_of_its_first_argument() {
    assert!(matches!(cd_target(&args(&["src"])), CdTarget::Dir("src")));
    assert!(matches!(cd_target(&args(&["~/src"])), CdTarget::Dir("~/src")));
    assert!(matches!(cd_target(&args(&["", "x"])), CdTarget::Dir("")));
}

#[test]
fn cd_reports_a_missing_directory() {
    let state = ShellState::new("/home/me".to_string());
    let (state, message) = cd(state, CdOutcome::NotFound("nowhere"));
    assert_eq!(message, Some("cd: nowhere: No such file or directory".to_string()));
    assert_eq!(state.pwd, "/home/me");
    assert_eq!(state.exit_code, None);
}

#[test]
fn cd_enters_a_directory_without_a_word() {
    let state = ShellState::new("/home/me".to_string());
    let (state, message) = cd(state, CdOutcome::Entered("/tmp".to_string()));
    assert_eq!(message, None);
    assert_eq!(state.pwd, "/tmp");
    assert_eq!(state.exit_code, None);
}

#[test]
fn cd_home_and_pwd_give_the_home_directory() {
    let state = ShellState::new("/tmp".to_string());
    assert!(matches!(cd_target(&args(&["~"])), CdTarget::Home));
    let (state, message) = cd(state, CdOutcome::Entered("/home/me".to_string()));
    assert_eq!(message, None);
    assert_eq!(pwd(&state), "/home/me");
}

#[test]
fn cd_reports_other_failures_and_stays() {
    let state = ShellState::new("/home/me".to_string());
    let (state, message) = cd(state, CdOutcome::Failed("Permission denied, PermissionDenied"));
    assert_eq!(
        message,
        Some("Unexpected error: Permission denied, PermissionDenied".to_string())
    );
    assert_eq!(state.pwd, "/home/me");
    let (state, message) = cd(state, CdOutcome::NoHome);
    assert_eq!(message, Some("failed to get new directory".to_string()));
    assert_eq!(state.pwd, "/home/me");
}

#[test]
fn moving_keeps_the_exit_code() {
    let state = ShellState::new("/a".to_string()).moved_to("/b".to_string());
    assert_eq!(state.pwd, "/b");
    assert_eq!(state.exit_code, None);
    assert_eq!(pwd(&state), "/b");
}

#[test]
fn type_prefers_a_builtin_to_a_file() {
    assert_eq!(type_fn(&args(&["echo"]), Some("/bin/echo")), "echo is a shell builtin");
    assert_eq!(type_fn(&args(&["cd"]), None), "cd is a shell builtin");
    assert_eq!(type_fn(&args(&["ls"]), Some("/bin/ls")), "ls is /bin/ls");
    assert_eq!(type_fn(&args(&["nosuch", "ls"]), None), "nosuch: not found");
    assert_eq!(type_fn(&[], None), "type [cmd]");
    assert_eq!(type_search(&args(&["pwd"])), None);
    assert_eq!(type_search(&args(&["ls", "pwd"])), Some("ls"));
    assert_eq!(type_search(&[]), None);
}

#[test]
fn which_knows_no_builtins() {
    assert_eq!(which(&args(&["echo"]), Some("/bin/echo")), "echo is /bin/echo");
    assert_eq!(which(&args(&["echo"]), None), "echo: not found");
    assert_eq!(which(&[], None), "which [cmd]");
    assert_eq!(which_search(&args(&["echo", "x"])), Some("echo"));
    assert_eq!(which_search(&[]), None);
}
