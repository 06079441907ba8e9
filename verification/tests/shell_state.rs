use codecrafters_shell::alias::get_alias;
use codecrafters_shell::command::{CommandTable, CommandType, NameTable};
use codecrafters_shell::number::{format_i64, parse_i32};
use codecrafters_shell::order::{sort_by_name, sort_words};
use codecrafters_shell::shell::{complete, is_executable, path_dirs, path_executables_for_tabcompletiion, Shell};

fn strings(v: &[&str]) -> Vec<String> {
    v.iter().map(|s| s.to_string()).collect()
}

fn chars(s: &str) -> Vec<char> {
    s.chars().collect()
}

fn pair(a: &str, b: &str) -> (String, String) {
    (a.to_string(), b.to_string())
}

#[test]
fn new_shell_has_no_aliases() {
    let shell = Shell::new();
    assert_eq!(get_alias(&shell.aliases, "ll"), None);
    assert!(shell.aliases.entries().is_empty());
}

#[test]
fn table_insert_get_remove() {
    let mut t: CommandTable = NameTable::new();
    t.insert("a".to_string(), CommandType::External("/x/a".to_string()));
    assert_eq!(t.get("a"), Some(&CommandType::External("/x/a".to_string())));
    t.insert("a".to_string(), CommandType::Builtin);
    assert_eq!(t.get("a"), Some(&CommandType::Builtin));
    assert!(t.contains_key("a"));
    assert!(t.remove("a"));
    assert!(!t.remove("a"));
    assert_eq!(t.get("a"), None);
}

#[test]
fn first_executable_on_path_wins() {
    let mut t: CommandTable = NameTable::new();
    t.insert_if_absent("ls".to_string(), CommandType::External("/bin/ls".to_string()));
    t.insert_if_absent("ls".to_string(), CommandType::External("/usr/bin/ls".to_string()));
    assert_eq!(t.get("ls"), Some(&CommandType::External("/bin/ls".to_string())));
}

#[test]
fn completion_names_stop_at_the_first_dot() {
    let mut t: CommandTable = NameTable::new();
    t.insert_if_absent("cmd.exe".to_string(), CommandType::External("C:\\cmd.exe".to_string()));
    t.insert_if_absent("grep".to_string(), CommandType::External("/bin/grep".to_string()));
    t.insert_if_absent("a.b.c".to_string(), CommandType::External("/bin/a.b.c".to_string()));
    assert_eq!(path_executables_for_tabcompletiion(&t), strings(&["cmd", "grep", "a"]));
}

#[test]
fn completion_offers_builtins_then_externals() {
    let externals = strings(&["echo", "grep", "exiftool"]);
    assert_eq!(
        complete("ex", &externals),
        Some(vec![pair("exit", "exit "), pair("export", "export "), pair("exiftool", "exiftool ")])
    );
    assert_eq!(
        complete("e", &externals),
        Some(vec![pair("echo", "echo "), pair("exit", "exit "), pair("export", "export "), pair("echo", "echo "), pair("exiftool", "exiftool ")])
    );
    assert_eq!(complete("pw", &externals), Some(vec![pair("pwd", "pwd ")]));
}

#[test]
fn completion_of_nothing_offers_everything() {
    let externals = strings(&["grep"]);
    let all: Vec<(String, String)> = ["help", "echo", "exit", "ls", "cd", "pwd", "cat", "type", "export", "unset", "alias", "unalias", "history", "clear", "grep"]
        .iter()
        .map(|n| pair(n, &format!("{} ", n)))
        .collect();
    assert_eq!(complete("  ", &externals), Some(all));
}

#[test]
fn completion_stops_after_the_first_word() {
    assert_eq!(complete("echo he", &strings(&["head"])), None);
    assert_eq!(complete("zz", &strings(&["head"])), Some(vec![]));
}

#[test]
fn path_is_split_on_colons() {
    assert_eq!(path_dirs("/usr/bin: /bin ::/opt/x ", ':'), strings(&["/usr/bin", "/bin", "/opt/x"]));
    assert_eq!(path_dirs("", ':'), Vec::<String>::new());
    assert_eq!(path_dirs("C:\\bin;C:\\tools", ';'), strings(&["C:\\bin", "C:\\tools"]));
}

#[test]
fn executable_bits() {
    assert!(is_executable(0o755));
    assert!(is_executable(0o001));
    assert!(!is_executable(0o644));
}

#[test]
fn words_are_sorted() {
    let v = vec![chars("b"), chars("a"), chars("B"), chars("ab")];
    assert_eq!(sort_words(&v), vec![chars("B"), chars("a"), chars("ab"), chars("b")]);
}

#[test]
fn pairs_are_sorted_by_name_stably() {
    let v = vec![pair("b", "1"), pair("a", "2"), pair("b", "0")];
    assert_eq!(sort_by_name(&v), vec![pair("a", "2"), pair("b", "1"), pair("b", "0")]);
}

#[test]
fn numbers_parse_and_format() {
    assert_eq!(parse_i32(&chars("42")), Some(42));
    assert_eq!(parse_i32(&chars("-7")), Some(-7));
    assert_eq!(parse_i32(&chars("+7")), Some(7));
    assert_eq!(parse_i32(&chars("2147483648")), None);
    assert_eq!(parse_i32(&chars("-2147483648")), Some(i32::MIN));
    assert_eq!(parse_i32(&chars("")), None);
    assert_eq!(parse_i32(&chars("1a")), None);
    assert_eq!(format_i64(-120), chars("-120"));
    assert_eq!(format_i64(i64::MIN), chars("-9223372036854775808"));
    assert_eq!(format_i64(0), chars("0"));
}
