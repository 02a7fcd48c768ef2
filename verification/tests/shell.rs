use absh::shell::shell_quote;
use absh::shell::shell_quote_args;

#[test]
fn test_shell_quote() {
    assert_eq!("''", shell_quote(""));
    assert_eq!("xy", shell_quote("xy"));
    assert_eq!("'x y'", shell_quote("x y"));
    assert_eq!("'x$y'", shell_quote("x$y"));
    assert_eq!("'x\\y'", shell_quote("x\\y"));
    assert_eq!("'x\"y'", shell_quote("x\"y"));
    assert_eq!("\"x'y\"", shell_quote("x'y"));
    assert_eq!("\"x'y\"'\"z'", shell_quote("x'y\"z"));
    assert_eq!("'x'$'\\n''y'", shell_quote("x\ny"));
    assert_eq!("'x'$'\\r''y'", shell_quote("x\ry"));
    assert_eq!("'x'$'\\001''y'", shell_quote("x\x01y"));
}

#[test]
fn test_shell_quote_args() {
    let args: Vec<String> = vec!["echo".to_owned(), "$A".to_owned()];
    assert_eq!("echo '$A'", shell_quote_args(&args));
}

#[test]
fn normalize_help() {
    assert_eq!(
        "usage: tool\n\nflags:\n",
        absh::text::normalize_help_output("usage: tool   \n\t\nflags:")
    );
}
