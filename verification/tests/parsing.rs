use codecrafters_shell::alias::{expand_alias, get_alias, run_alias_command, AliasTable};
use codecrafters_shell::command::{map_builtin_commands, Command, CommandTable, CommandType, NameTable};
use codecrafters_shell::expand::ExpansionContext;
use codecrafters_shell::parse::{
    glob_patterns, line_glob_patterns, parse_command, parse_command_with_exit_code, parse_single_command,
    ShellEnv,
};
use codecrafters_shell::split::ChainOperator;

fn strings(v: &[&str]) -> Vec<String> {
    v.iter().map(|s| s.to_string()).collect()
}

fn env_with(commands: CommandTable, globs: Vec<(String, Vec<String>)>) -> ShellEnv {
    ShellEnv {
        expansion: ExpansionContext {
            vars: vec![("name".to_string(), "world".to_string()), ("dir".to_string(), "src".to_string())],
            pid: 77,
            substitutions: vec!["/tmp\n".to_string()],
            home: Some("/home/user".to_string()),
        },
        commands,
        globs,
        exe_suffix: false,
    }
}

fn env() -> ShellEnv {
    let mut commands: CommandTable = NameTable::new();
    commands.insert("grep".to_string(), CommandType::External("/usr/bin/grep".to_string()));
    commands.insert("sort".to_string(), CommandType::External("/usr/bin/sort".to_string()));
    env_with(commands, vec![("*.txt".to_string(), strings(&["b.txt", "a.txt"])), ("*.none".to_string(), vec![])])
}

fn no_aliases() -> AliasTable {
    NameTable::new()
}

#[test]
fn echo_is_parsed() {
    assert_eq!(
        parse_single_command("echo Hello World from custom shell", &env()),
        Some(Command::Echo("Hello World from custom shell".to_string()))
    );
}

#[test]
fn echo_on_path_runs_externally() {
    let mut commands: CommandTable = NameTable::new();
    commands.insert("echo".to_string(), CommandType::External("/bin/echo".to_string()));
    let e = env_with(commands, vec![]);
    assert_eq!(parse_single_command("echo hi there", &e), Some(Command::External(strings(&["echo", "hi", "there"]))));
    assert_eq!(parse_single_command("echo hi > out.txt", &e), Some(Command::Echo("hi > out.txt".to_string())));
}

#[test]
fn exit_codes_are_parsed() {
    assert_eq!(parse_single_command("exit 42", &env()), Some(Command::Exit(42)));
    assert_eq!(parse_single_command("exit", &env()), Some(Command::Exit(0)));
    assert_eq!(parse_single_command("exit abc", &env()), Some(Command::Exit(0)));
    assert_eq!(parse_single_command("exit -3", &env()), Some(Command::Exit(-3)));
}

#[test]
fn builtins_are_parsed() {
    let e = env();
    assert_eq!(parse_single_command("type echo", &e), Some(Command::Type("echo".to_string())));
    assert_eq!(parse_single_command("pwd", &e), Some(Command::PWD));
    assert_eq!(parse_single_command("cd src", &e), Some(Command::CD("src".to_string())));
    assert_eq!(parse_single_command("ls -la", &e), Some(Command::Ls("-la".to_string())));
    assert_eq!(parse_single_command("clear", &e), Some(Command::Clear));
    assert_eq!(parse_single_command("history", &e), Some(Command::History));
    assert_eq!(parse_single_command("export A=1", &e), Some(Command::Export("A=1".to_string())));
    assert_eq!(parse_single_command("unset A", &e), Some(Command::Unset("A".to_string())));
    assert_eq!(parse_single_command("alias ll=ls", &e), Some(Command::Alias("ll=ls".to_string())));
    assert_eq!(parse_single_command("unalias ll", &e), Some(Command::Unalias("ll".to_string())));
}

#[test]
fn cat_keeps_all_words() {
    assert_eq!(
        parse_single_command("cat file1.txt file2.txt", &env()),
        Some(Command::Cat(strings(&["cat", "file1.txt", "file2.txt"])))
    );
}

#[test]
fn external_and_unknown_commands() {
    let e = env();
    assert_eq!(parse_single_command("grep -n x", &e), Some(Command::External(strings(&["grep", "-n", "x"]))));
    assert_eq!(
        parse_single_command("nonexistent_command_xyz", &e),
        Some(Command::Unknown("nonexistent_command_xyz".to_string()))
    );
}

#[test]
fn blank_line_is_no_command() {
    assert_eq!(parse_single_command("   ", &env()), None);
    assert_eq!(parse_command("", &no_aliases(), &env()), None);
    assert_eq!(parse_single_command("''", &env()), None);
}

#[test]
fn quotes_group_words() {
    let e = env();
    assert_eq!(
        parse_single_command("echo 'Hello with single quotes'", &e),
        Some(Command::Echo("Hello with single quotes".to_string()))
    );
    assert_eq!(
        parse_single_command("echo \"Hello with double quotes\"", &e),
        Some(Command::Echo("Hello with double quotes".to_string()))
    );
    assert_eq!(parse_single_command("echo a'b c'd", &e), Some(Command::Echo("ab cd".to_string())));
}

#[test]
fn backslashes_follow_quote_rules() {
    let e = env();
    assert_eq!(parse_single_command("echo a\\ b", &e), Some(Command::Echo("a b".to_string())));
    assert_eq!(parse_single_command("echo \"a\\\"b\"", &e), Some(Command::Echo("a\"b".to_string())));
    assert_eq!(parse_single_command("echo \"a\\nb\"", &e), Some(Command::Echo("a\\nb".to_string())));
    assert_eq!(parse_single_command("echo 'a\\nb'", &e), Some(Command::Echo("a\\nb".to_string())));
}

#[test]
fn unquoted_words_are_expanded() {
    let e = env();
    assert_eq!(parse_single_command("echo ~/docs", &e), Some(Command::Echo("/home/user/docs".to_string())));
    assert_eq!(parse_single_command("echo '~/docs'", &e), Some(Command::Echo("~/docs".to_string())));
    assert_eq!(parse_single_command("echo {a,b,c}", &e), Some(Command::Echo("a b c".to_string())));
    assert_eq!(parse_single_command("echo \"{a,b}\"", &e), Some(Command::Echo("{a,b}".to_string())));
}

#[test]
fn globs_use_sorted_matches() {
    let e = env();
    assert_eq!(parse_single_command("echo *.txt", &e), Some(Command::Echo("a.txt b.txt".to_string())));
    assert_eq!(parse_single_command("echo *.none", &e), Some(Command::Echo("*.none".to_string())));
    assert_eq!(parse_single_command("echo '*.txt'", &e), Some(Command::Echo("*.txt".to_string())));
}

#[test]
fn glob_patterns_are_listed() {
    let e = env();
    assert_eq!(glob_patterns("ls *.txt 'q*' {x,y}?", &e), strings(&["*.txt", "x?", "y?"]));
    assert_eq!(line_glob_patterns("cat *.rs", 0, &no_aliases(), &e), strings(&["*.rs"]));
    assert_eq!(line_glob_patterns("ls *.rs | wc", 0, &no_aliases(), &e), Vec::<String>::new());
}

#[test]
fn variables_are_expanded_before_parsing() {
    let e = env();
    assert_eq!(
        parse_command_with_exit_code("echo $name $?", 5, &no_aliases(), &e),
        Some(Command::Echo("world 5".to_string()))
    );
    assert_eq!(parse_command("cd $dir", &no_aliases(), &e), Some(Command::CD("src".to_string())));
    assert_eq!(parse_command("echo '$name'", &no_aliases(), &e), Some(Command::Echo("$name".to_string())));
}

#[test]
fn chains_and_pipelines_are_recognised() {
    let e = env();
    assert_eq!(
        parse_command("mkdir newdir && cd newdir", &no_aliases(), &e),
        Some(Command::Chain { commands: strings(&["mkdir newdir", "cd newdir"]), operators: vec![ChainOperator::And] })
    );
    assert_eq!(
        parse_command("echo hello world | grep hello", &no_aliases(), &e),
        Some(Command::Pipeline(strings(&["echo hello world", "grep hello"])))
    );
    assert_eq!(
        parse_command("ls | wc ; echo done", &no_aliases(), &e),
        Some(Command::Chain { commands: strings(&["ls | wc", "echo done"]), operators: vec![ChainOperator::Sequence] })
    );
}

#[test]
fn aliases_are_expanded_first() {
    let mut aliases: AliasTable = NameTable::new();
    run_alias_command("ll='ls -la'", &mut aliases);
    run_alias_command("l=ll", &mut aliases);
    assert_eq!(get_alias(&aliases, "ll"), Some("ls -la".to_string()));
    assert_eq!(expand_alias("l /tmp", 0, &aliases), "ls -la /tmp");
    assert_eq!(parse_command("ll", &aliases, &env()), Some(Command::Ls("-la".to_string())));
    assert_eq!(parse_command("echo ll", &aliases, &env()), Some(Command::Echo("ll".to_string())));
}

#[test]
fn recursive_alias_stops() {
    let mut aliases: AliasTable = NameTable::new();
    run_alias_command("a=a x", &mut aliases);
    assert_eq!(expand_alias("a", 0, &aliases), "a x x x x x x x x x x x");
}

#[test]
fn builtin_table_has_the_builtins() {
    let mut table: CommandTable = NameTable::new();
    map_builtin_commands(&mut table);
    for name in ["echo", "exit", "type", "pwd", "cd", "ls", "cat", "export", "unset", "alias", "unalias", "history", "clear"] {
        assert_eq!(table.get(name), Some(&CommandType::Builtin));
    }
    assert_eq!(table.get("grep"), None);
}

#[test]
fn assignments_are_recognised() {
    let e = env();
    assert_eq!(parse_single_command("name=world", &e), Some(Command::Assign("name".to_string(), "world".to_string())));
    assert_eq!(parse_single_command("x=", &e), Some(Command::Assign("x".to_string(), "".to_string())));
    assert_eq!(
        parse_single_command("msg=\"hello world\"", &e),
        Some(Command::Assign("msg".to_string(), "hello world".to_string()))
    );
    assert_eq!(parse_single_command("1x=3", &e), Some(Command::Unknown("1x=3".to_string())));
    assert_eq!(parse_single_command("a=1 b", &e), Some(Command::Assign("a".to_string(), "1 b".to_string())));
    assert_eq!(
        parse_command_with_exit_code("where=$(pwd)", 0, &no_aliases(), &e),
        Some(Command::Assign("where".to_string(), "/tmp".to_string()))
    );
    assert_eq!(
        parse_command_with_exit_code("x=$((5 + 1))", 0, &no_aliases(), &e),
        Some(Command::Assign("x".to_string(), "6".to_string()))
    );
}

#[test]
fn exe_suffix_is_tried_when_asked() {
    let mut commands: CommandTable = NameTable::new();
    commands.insert("cmd.exe".to_string(), CommandType::External("C:\\Windows\\cmd.exe".to_string()));
    let mut e = env_with(commands, vec![]);
    assert_eq!(parse_single_command("cmd /c dir", &e), Some(Command::Unknown("cmd".to_string())));
    e.exe_suffix = true;
    assert_eq!(parse_single_command("cmd /c dir", &e), Some(Command::External(strings(&["cmd", "/c", "dir"]))));
}

#[test]
fn substitution_output_is_assigned_whole() {
    let mut e = env();
    e.expansion.substitutions = vec!["a.txt\nb.txt\n".to_string()];
    assert_eq!(
        parse_command_with_exit_code("files=$(ls)", 0, &no_aliases(), &e),
        Some(Command::Assign("files".to_string(), "a.txt\nb.txt".to_string()))
    );
    e.expansion.substitutions = vec!["Mon Jan  1\n".to_string()];
    assert_eq!(
        parse_command_with_exit_code("today=`date`", 0, &no_aliases(), &e),
        Some(Command::Assign("today".to_string(), "Mon Jan 1".to_string()))
    );
}

#[test]
fn backslashes_in_a_value_survive_parsing() {
    let mut e = env();
    e.expansion.vars.push(("DIR".to_string(), "C:\\Users\\me".to_string()));
    assert_eq!(
        parse_command_with_exit_code("cd $DIR", 0, &no_aliases(), &e),
        Some(Command::CD("C:\\Users\\me".to_string()))
    );
    assert_eq!(
        parse_command_with_exit_code("ls $DIR", 0, &no_aliases(), &e),
        Some(Command::Ls("C:\\Users\\me".to_string()))
    );
    e.expansion.vars.push(("EMPTY".to_string(), "".to_string()));
    assert_eq!(parse_command_with_exit_code("cd $EMPTY", 0, &no_aliases(), &e), Some(Command::CD("".to_string())));
}
