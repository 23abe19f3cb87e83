use kern::shell::{
    respond, Action, Command, Error, LineBuffer, MAX_ARGS_PER_COMMAND, MAX_BYTES_PER_COMMAND,
};

fn args_of(line: &str) -> Vec<String> {
    match Command::parse(line) {
        Ok(command) => {
            let mut out = vec![];
            for i in 0..command.len() {
                out.push(command.arg(i).to_string());
            }
            out
        }
        Err(error) => panic!("{:?}", error),
    }
}

#[test]
fn parse_cuts_at_spaces() {
    assert_eq!(args_of("echo hello world"), vec!["echo", "hello", "world"]);
    assert_eq!(args_of("ls"), vec!["ls"]);
    assert_eq!(args_of("a b"), vec!["a", "b"]);
}

#[test]
fn parse_skips_runs_of_spaces() {
    assert_eq!(args_of("  echo   hello  "), vec!["echo", "hello"]);
    assert_eq!(args_of(" x"), vec!["x"]);
    assert_eq!(args_of("x "), vec!["x"]);
    assert_eq!(args_of("a  b   c    d"), vec!["a", "b", "c", "d"]);
}

#[test]
fn parse_cuts_at_the_space_only() {
    assert_eq!(args_of("a\tb c\nd"), vec!["a\tb", "c\nd"]);
    assert_eq!(args_of("gr\u{fc}\u{df}e \u{4e16}\u{754c}"), vec!["gr\u{fc}\u{df}e", "\u{4e16}\u{754c}"]);
}

#[test]
fn parse_refuses_a_line_without_arguments() {
    assert_eq!(Command::parse("").err(), Some(Error::Empty));
    assert_eq!(Command::parse(" ").err(), Some(Error::Empty));
    assert_eq!(Command::parse("      ").err(), Some(Error::Empty));
}

#[test]
fn parse_holds_up_to_64_arguments() {
    let line = vec!["x"; MAX_ARGS_PER_COMMAND].join(" ");
    let command = Command::parse(&line).ok().unwrap();
    assert_eq!(command.len(), 64);
    assert_eq!(command.arg(63), "x");

    let line = vec!["x"; MAX_ARGS_PER_COMMAND + 1].join(" ");
    assert_eq!(Command::parse(&line).err(), Some(Error::TooManyArgs));
    let line = vec!["x"; 200].join("  ");
    assert_eq!(Command::parse(&line).err(), Some(Error::TooManyArgs));
}

#[test]
fn path_is_the_first_argument() {
    let command = Command::parse("  echo a b").ok().unwrap();
    assert_eq!(command.path(), "echo");
    assert_eq!(command.len(), 3);
    assert_eq!(command.arg(0), "echo");
    assert_eq!(command.arg(1), "a");
    assert_eq!(command.arg(2), "b");
}

#[test]
fn respond_echoes_the_arguments() {
    assert_eq!(respond("echo hello world"), "hello world \n");
    assert_eq!(respond("echo   a"), "a \n");
    assert_eq!(respond("echo"), "\n");
    assert_eq!(respond(" echo echo "), "echo \n");
}

#[test]
fn respond_names_an_unknown_command() {
    assert_eq!(respond("ls -l"), "unknown command: ls\n");
    assert_eq!(respond("Echo hi"), "unknown command: Echo\n");
    assert_eq!(respond("echoo"), "unknown command: echoo\n");
    assert_eq!(respond("ech"), "unknown command: ech\n");
}

#[test]
fn respond_reports_a_line_that_is_no_command() {
    assert_eq!(respond(""), "error\n");
    assert_eq!(respond("   "), "error\n");
    let line = vec!["echo"; 65].join(" ");
    assert_eq!(respond(&line), "error\n");
}

#[test]
fn line_buffer_takes_what_is_typed() {
    let mut line = LineBuffer::new();
    assert_eq!(line.as_bytes(), b"");
    assert_eq!(line.feed(b'l'), Action::Echo(b'l'));
    assert_eq!(line.feed(b's'), Action::Echo(b's'));
    assert_eq!(line.feed(b' '), Action::Echo(b' '));
    assert_eq!(line.as_bytes(), b"ls ");
    assert_eq!(line.feed(b'\r'), Action::Done);
    assert_eq!(line.as_bytes(), b"ls ");
    assert_eq!(line.feed(b'\n'), Action::Done);
    assert_eq!(line.as_bytes(), b"ls ");
}

#[test]
fn line_buffer_erases_on_backspace_and_delete() {
    let mut line = LineBuffer::new();
    assert_eq!(line.feed(8), Action::Ignore);
    assert_eq!(line.feed(127), Action::Ignore);
    line.feed(b'a');
    line.feed(b'b');
    line.feed(b'c');
    assert_eq!(line.feed(8), Action::Erase);
    assert_eq!(line.as_bytes(), b"ab");
    assert_eq!(line.feed(127), Action::Erase);
    assert_eq!(line.as_bytes(), b"a");
    assert_eq!(line.feed(b'x'), Action::Echo(b'x'));
    assert_eq!(line.as_bytes(), b"ax");
    assert_eq!(line.feed(8), Action::Erase);
    assert_eq!(line.feed(8), Action::Erase);
    assert_eq!(line.feed(8), Action::Ignore);
    assert_eq!(line.as_bytes(), b"");
}

#[test]
fn line_buffer_holds_512_bytes() {
    let mut line = LineBuffer::new();
    for _ in 0..MAX_BYTES_PER_COMMAND {
        assert_eq!(line.feed(b'a'), Action::Echo(b'a'));
    }
    assert_eq!(line.as_bytes().len(), 512);
    assert_eq!(line.feed(b'b'), Action::Ignore);
    assert_eq!(line.as_bytes().len(), 512);
    assert_eq!(line.feed(8), Action::Erase);
    assert_eq!(line.feed(b'b'), Action::Echo(b'b'));
    assert_eq!(line.as_bytes()[511], b'b');
    assert_eq!(line.feed(b'\n'), Action::Done);
}

#[test]
fn a_typed_line_is_answered() {
    let mut line = LineBuffer::new();
    for &byte in b"echo  hi therr\x08e" {
        line.feed(byte);
    }
    assert_eq!(line.feed(b'\r'), Action::Done);
    let text = std::str::from_utf8(line.as_bytes()).unwrap();
    assert_eq!(respond(text), "hi there \n");
}
