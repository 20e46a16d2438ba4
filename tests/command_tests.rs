use ark::command::{Command, Mode, Token};
use ark::error::ArchivalError;

#[test]
fn tokens_of_a_command_line() {
    let toks = Command::tokenize(&br#"Ark ADD "in dir/x" "out.ark" -k secret"#.to_vec());
    assert_eq!(
        toks,
        vec![
            Token::Ark,
            Token::Mode(b"add".to_vec()),
            Token::QuotedString(b"in dir/x".to_vec()),
            Token::QuotedString(b"out.ark".to_vec()),
            Token::Flag(b"k".to_vec()),
            Token::GenericString(b"secret".to_vec()),
        ]
    );
    assert_eq!(Command::tokenize(&b"x extract".to_vec()), vec![Token::Mode(b"x".to_vec()), Token::Mode(b"x".to_vec())]);
}

#[test]
fn modes() {
    assert_eq!(Mode::new(&b"A".to_vec()), Ok(Mode::Add));
    assert_eq!(Mode::new(&b"Extract".to_vec()), Ok(Mode::Extract));
    assert_eq!(Mode::new(&b"profile".to_vec()), Ok(Mode::Profile));
    assert_eq!(Mode::new(&b"delete".to_vec()), Err(ArchivalError::InvalidCommand));
}

#[test]
fn full_command() {
    let c = Command::new(&br#"ark x "a.ark" "dest""#.to_vec()).unwrap();
    assert_eq!(
        c,
        Command {
            mode: Some(Mode::Extract),
            input: Some(b"a.ark".to_vec()),
            output: Some(b"dest".to_vec()),
            key: None,
        }
    );
    let c = Command::new(&br#"Ark add "src" "out" -k "the key""#.to_vec()).unwrap();
    assert_eq!(c.key, Some(b"the key".to_vec()));
}

#[test]
fn partial_commands_leave_parts_empty() {
    let c = Command::new(&b"Ark".to_vec()).unwrap();
    assert_eq!(c, Command { mode: None, input: None, output: None, key: None });
    let c = Command::new(&br#"Ark add unquoted "out""#.to_vec()).unwrap();
    assert_eq!(c.input, None);
    assert_eq!(c.output, Some(b"out".to_vec()));
}

#[test]
fn bad_commands_are_refused() {
    assert_eq!(Command::new(&br#"tar add "a" "b""#.to_vec()), Err(ArchivalError::InvalidCommand));
    assert_eq!(Command::new(&b"".to_vec()), Err(ArchivalError::InvalidCommand));
    assert_eq!(Command::new(&br#"Ark add "a" "b" -z"#.to_vec()), Err(ArchivalError::InvalidCommand));
    assert_eq!(Command::new(&br#"Ark add "a" "b" -k"#.to_vec()), Err(ArchivalError::InvalidCommand));
}
