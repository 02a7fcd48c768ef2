use absh::quote_args::shell_quote_self_args_as_text_impl;
use absh::quote_args::shell_quote_self_args_impl;

fn strings(args: &[&str]) -> Vec<String> {
    args.iter().map(|s| s.to_string()).collect()
}

#[test]
fn test_shell_quote_self_args() {
    assert_eq!(
        "absh -a 'sleep 0.1'",
        shell_quote_self_args_impl(&strings(&["absh", "-a", "sleep 0.1"]))
    );
}

#[test]
fn test_shell_quote_self_args_as_text() {
    assert_eq!(
        "absh --max-time 10 \\\n    -a 'sleep 0.1' \\\n    -b 'sleep 0.2' \\\n    -irm\n",
        shell_quote_self_args_as_text_impl(&strings(&[
            "absh",
            "--max-time",
            "10",
            "-a",
            "sleep 0.1",
            "-b",
            "sleep 0.2",
            "-irm"
        ]))
    );
}
