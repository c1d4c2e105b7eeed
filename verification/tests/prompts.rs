use ironhide_cli::generator::{
    parse_length, parse_yes_no, password_from_indices, possible_chars, run, LengthError,
    PasswordOptions,
};
use ironhide_cli::{check_first_signin, is_first_signin, normalize_input, parse_command, Command};

#[test]
fn commands_and_aliases() {
    let cases = [
        ("quit", Command::Quit),
        ("q", Command::Quit),
        ("help", Command::Help),
        ("h", Command::Help),
        ("?", Command::Help),
        ("new-password", Command::NewPassword),
        ("nwpw", Command::NewPassword),
        ("list", Command::List),
        ("ls", Command::List),
        ("copy", Command::Copy),
        ("cp", Command::Copy),
        ("edit", Command::Edit),
        ("ed", Command::Edit),
        ("delete", Command::Delete),
        ("del", Command::Delete),
        ("rm", Command::Delete),
        ("new-login", Command::NewLogin),
        ("nwlg", Command::NewLogin),
        ("Quit", Command::Unknown),
        ("", Command::Unknown),
        ("lists", Command::Unknown),
    ];
    for (text, cmd) in cases.iter() {
        assert_eq!(parse_command(text), *cmd, "command {:?}", text);
    }
}

#[test]
fn input_lines_are_trimmed() {
    assert_eq!(normalize_input("list\n"), Some("list".to_string()));
    assert_eq!(normalize_input("  new login \r\n"), Some("  new login".to_string()));
    assert_eq!(normalize_input(" \t\n"), None);
    assert_eq!(normalize_input(""), None);
}

#[test]
fn first_signin_follows_the_credentials_file() {
    assert!(is_first_signin(false));
    assert!(!is_first_signin(true));
    assert_eq!(check_first_signin(), !std::path::Path::new(".usr.txt").exists());
}

#[test]
fn length_answers() {
    assert!(matches!(parse_length("12"), Ok(12)));
    assert!(matches!(parse_length("8"), Ok(8)));
    assert!(matches!(parse_length("24"), Ok(24)));
    assert!(matches!(parse_length("+10"), Ok(10)));
    assert!(matches!(parse_length("007"), Err(LengthError::OutOfRange)));
    assert!(matches!(parse_length("25"), Err(LengthError::OutOfRange)));
    assert!(matches!(parse_length("100"), Err(LengthError::OutOfRange)));
    assert!(matches!(parse_length("abc"), Err(LengthError::NotANumber)));
    assert!(matches!(parse_length(""), Err(LengthError::NotANumber)));
    assert!(matches!(parse_length("-9"), Err(LengthError::NotANumber)));
    assert!(matches!(
        parse_length("999999999999999999999999999"),
        Err(LengthError::NotANumber)
    ));
}

#[test]
fn yes_no_answers() {
    assert_eq!(parse_yes_no("yes"), Some(true));
    assert_eq!(parse_yes_no("YES"), Some(true));
    assert_eq!(parse_yes_no("Y"), Some(true));
    assert_eq!(parse_yes_no("no"), Some(false));
    assert_eq!(parse_yes_no("N"), Some(false));
    assert_eq!(parse_yes_no("nO"), Some(false));
    assert_eq!(parse_yes_no("maybe"), None);
    assert_eq!(parse_yes_no("ye"), None);
    assert_eq!(parse_yes_no(""), None);
}

fn options(length: usize, l: bool, u: bool, n: bool, s: bool) -> PasswordOptions {
    PasswordOptions::new(length, l, u, n, s)
}

#[test]
fn possible_characters() {
    assert_eq!(
        possible_chars(&options(8, true, true, true, true)),
        "abcdefghijlmnopqrstuvwxyzABCDEFGHIJLMNOPQRSTUVWXYZ1234567890!@#$%^&*-_"
    );
    assert_eq!(possible_chars(&options(8, false, false, true, false)), "1234567890");
    assert_eq!(possible_chars(&options(8, false, true, false, true)), "ABCDEFGHIJLMNOPQRSTUVWXYZ!@#$%^&*-_");
    assert_eq!(possible_chars(&options(8, false, false, false, false)), "");
}

#[test]
fn generated_passwords() {
    assert!(run(&options(12, false, false, false, false)).is_none());
    for length in [8usize, 16, 24].iter() {
        let o = options(*length, false, true, true, false);
        let pool = possible_chars(&o);
        let p = run(&o).unwrap();
        assert_eq!(p.chars().count(), *length);
        assert!(p.chars().all(|c| pool.contains(c)));
    }
    let digits = run(&options(20, false, false, true, false)).unwrap();
    assert!(digits.chars().all(|c| c.is_ascii_digit()));
}

#[test]
fn password_from_chosen_indices() {
    let chars: Vec<char> = "abc".chars().collect();
    assert_eq!(password_from_indices(&chars, &vec![2, 0, 1, 1]), "cabb");
    assert_eq!(password_from_indices(&chars, &vec![]), "");
}
