use codecrafters_shell::expand::{
    command_substitutions, expand_tilde, expand_variables, trim_substitution_output, ExpansionContext,
};

fn ctx() -> ExpansionContext {
    ExpansionContext {
        vars: vec![
            ("name".to_string(), "world".to_string()),
            ("path".to_string(), "a\\b".to_string()),
            ("x".to_string(), "5".to_string()),
        ],
        pid: 4242,
        substitutions: vec!["/home/user\n".to_string(), "Mon\r\n".to_string()],
        home: Some("/home/user".to_string()),
    }
}

fn chars(s: &str) -> Vec<char> {
    s.chars().collect()
}

#[test]
fn variable_is_expanded() {
    assert_eq!(expand_variables("echo $name", 0, &ctx()), "echo world");
}

#[test]
fn braced_variable_is_expanded() {
    assert_eq!(expand_variables("echo ${name}", 0, &ctx()), "echo world");
    assert_eq!(expand_variables("echo ${name}s", 0, &ctx()), "echo worlds");
}

#[test]
fn exit_code_and_pid_are_expanded() {
    assert_eq!(expand_variables("echo $?", 3, &ctx()), "echo 3");
    assert_eq!(expand_variables("echo $?", -1, &ctx()), "echo -1");
    assert_eq!(expand_variables("echo $$", 0, &ctx()), "echo 4242");
}

#[test]
fn single_quotes_prevent_expansion() {
    assert_eq!(expand_variables("echo '$name'", 0, &ctx()), "echo '$name'");
    assert_eq!(expand_variables("echo '$(pwd) `date` \\$x'", 0, &ctx()), "echo '$(pwd) `date` \\$x'");
}

#[test]
fn double_quotes_allow_expansion() {
    assert_eq!(expand_variables("echo \"$name\"", 0, &ctx()), "echo \"world\"");
    assert_eq!(expand_variables("echo \"it's $name\"", 0, &ctx()), "echo \"it's world\"");
}

#[test]
fn escaped_dollar_is_literal() {
    assert_eq!(expand_variables("echo \\$name", 0, &ctx()), "echo $name");
    assert_eq!(expand_variables("echo \\`date\\`", 0, &ctx()), "echo `date`");
}

#[test]
fn undefined_variable_is_empty() {
    assert_eq!(expand_variables("echo $missing!", 0, &ctx()), "echo !");
    assert_eq!(expand_variables("echo ${missing}x", 0, &ctx()), "echo x");
}

#[test]
fn lone_dollar_stays() {
    assert_eq!(expand_variables("echo $", 0, &ctx()), "echo $");
    assert_eq!(expand_variables("cost $ 5", 0, &ctx()), "cost $ 5");
}

#[test]
fn backslashes_in_values_are_doubled() {
    assert_eq!(expand_variables("echo $path", 0, &ctx()), "echo a\\\\b");
}

#[test]
fn command_substitution_uses_output() {
    assert_eq!(expand_variables("echo \"I'm in $(pwd)\"", 0, &ctx()), "echo \"I'm in /home/user\"");
    assert_eq!(expand_variables("echo $( pwd )", 0, &ctx()), "echo /home/user");
}

#[test]
fn backtick_substitution_uses_output() {
    assert_eq!(expand_variables("echo $(pwd) today=`date`", 0, &ctx()), "echo /home/user today=Mon");
}

#[test]
fn substitutions_take_outputs_in_order() {
    let c = ExpansionContext {
        vars: vec![],
        pid: 1,
        substitutions: vec!["1\n".to_string(), "2\n".to_string()],
        home: None,
    };
    assert_eq!(expand_variables("$(date +%N) $(date +%N)", 0, &c), "1 2");
    assert_eq!(expand_variables("$( ) $(a) `b` $(c)", 0, &c), " 1 2 ");
}

#[test]
fn missing_or_blank_substitution_is_empty() {
    assert_eq!(expand_variables("echo [$( )]", 0, &ctx()), "echo []");
    let none = ExpansionContext { vars: vec![], pid: 1, substitutions: vec![], home: None };
    assert_eq!(expand_variables("echo [$(nothing)]", 0, &none), "echo []");
}

#[test]
fn arithmetic_is_evaluated() {
    assert_eq!(
        expand_variables("$((2 + 3)) $((10 * 4 - 3)) $((10 / 3)) $((10 % 3))", 0, &ctx()),
        "5 37 3 1"
    );
    assert_eq!(expand_variables("echo $((x + 1))", 0, &ctx()), "echo 6");
    assert_eq!(expand_variables("$(($x*(2+1)))", 0, &ctx()), "15");
    assert_eq!(expand_variables("$((-7 / 2)) $((-7 % 2)) $((- -3))", 0, &ctx()), "-3 -1 3");
    assert_eq!(expand_variables("$((missing + 2))", 0, &ctx()), "2");
}

#[test]
fn bad_arithmetic_gives_nothing() {
    assert_eq!(expand_variables("[$((1 / 0))]", 0, &ctx()), "[]");
    assert_eq!(expand_variables("[$((name + 1))]", 0, &ctx()), "[]");
    assert_eq!(expand_variables("[$((2 +))]", 0, &ctx()), "[]");
    assert_eq!(expand_variables("[$((9223372036854775807 + 1))]", 0, &ctx()), "[]");
    assert_eq!(expand_variables("'$((1+1))'", 0, &ctx()), "'$((1+1))'");
}

#[test]
fn text_without_expansions_is_unchanged() {
    assert_eq!(expand_variables("ls -la \"a b\" 'c'", 7, &ctx()), "ls -la \"a b\" 'c'");
}

#[test]
fn substituted_commands_are_listed() {
    assert_eq!(
        command_substitutions("echo $(pwd) `date` $( ) '$(skip)' $(echo (a)) $((1 + 2))"),
        vec!["pwd".to_string(), "date".to_string(), "echo (a)".to_string()]
    );
}

#[test]
fn substitution_output_loses_one_line_break() {
    assert_eq!(trim_substitution_output("abc\r\n"), "abc");
    assert_eq!(trim_substitution_output("abc\n\n"), "abc\n");
    assert_eq!(trim_substitution_output("abc"), "abc");
    assert_eq!(trim_substitution_output("abc\r"), "abc\r");
}

#[test]
fn tilde_expands_to_home() {
    let home = Some("/home/u".to_string());
    assert_eq!(expand_tilde(&chars("~"), false, &home), chars("/home/u"));
    assert_eq!(expand_tilde(&chars("~/docs"), false, &home), chars("/home/u/docs"));
}

#[test]
fn tilde_is_kept_when_quoted_or_not_leading() {
    let home = Some("/home/u".to_string());
    assert_eq!(expand_tilde(&chars("~"), true, &home), chars("~"));
    assert_eq!(expand_tilde(&chars("~user"), false, &home), chars("~user"));
    assert_eq!(expand_tilde(&chars("a~"), false, &home), chars("a~"));
    assert_eq!(expand_tilde(&chars("~"), false, &None), chars("~"));
}
