use codecrafters_shell::alias::{
    alias_args_would_panic, get_alias, run_alias_command, run_unalias_command, AliasOutcome, AliasTable,
};
use codecrafters_shell::builtins::{
    cat_output, cat_paths, cd_error_message, cd_target, export_line, export_listing, export_request, export_show,
    external_plan, heredoc_plan, history_line, home_dir, invalid_identifier_message, is_valid_var_name,
    ls_missing_message, ls_not_dir_message, ls_output, ls_unreadable_message, not_found_message, parse_ls,
    pipeline_stage_error, plan_cat, plan_echo, run_echo_command_with_writer, run_type_command, strip_quotes, unquote_path,
    unquote_path_panics, unset_targets, CatPlan, CdTarget, EchoPlan, ExportRequest, ExternalPlan, HeredocPlan, LsRequest,
};
use codecrafters_shell::command::{map_builtin_commands, Command, CommandTable, CommandType, NameTable};

fn strings(v: &[&str]) -> Vec<String> {
    v.iter().map(|s| s.to_string()).collect()
}

#[test]
fn echo_writes_message_and_line_break() {
    let mut out = String::from("> ");
    run_echo_command_with_writer("Hello   World  from custom shell".to_string(), &mut out);
    assert_eq!(out, "> Hello World from custom shell\n");
}

#[test]
fn echo_writer_skips_redirections() {
    let mut out = String::new();
    run_echo_command_with_writer("a > f.txt b 2>> e.log c".to_string(), &mut out);
    assert_eq!(out, "a b c\n");
    let mut empty = String::new();
    run_echo_command_with_writer("".to_string(), &mut empty);
    assert_eq!(empty, "\n");
}

#[test]
fn echo_plan_with_output_redirection() {
    assert_eq!(
        plan_echo("Testing redirection > tmp_redirect.txt"),
        Some(EchoPlan {
            message: "Testing redirection".to_string(),
            stdout: Some(("tmp_redirect.txt".to_string(), false)),
            stderr: None
        })
    );
}

#[test]
fn echo_plan_append_and_errors() {
    assert_eq!(
        plan_echo("Appending line >> out.txt 2> err.txt"),
        Some(EchoPlan {
            message: "Appending line".to_string(),
            stdout: Some(("out.txt".to_string(), true)),
            stderr: Some(("err.txt".to_string(), false))
        })
    );
    assert_eq!(
        plan_echo("x 1> a 1>> b 2>> c"),
        Some(EchoPlan { message: "x".to_string(), stdout: Some(("b".to_string(), true)), stderr: Some(("c".to_string(), true)) })
    );
}

#[test]
fn echo_plan_without_redirection() {
    assert_eq!(plan_echo("hi"), Some(EchoPlan { message: "hi".to_string(), stdout: None, stderr: None }));
}

#[test]
fn echo_plan_with_dangling_operator() {
    assert_eq!(plan_echo("hello >"), None);
    assert_eq!(plan_echo("hello > a 2>"), None);
}

#[test]
fn variable_names_are_checked() {
    assert!(is_valid_var_name("FOO"));
    assert!(is_valid_var_name("_x1"));
    assert!(is_valid_var_name("été"));
    assert!(!is_valid_var_name("1abc"));
    assert!(!is_valid_var_name(""));
    assert!(!is_valid_var_name("a-b"));
}

#[test]
fn quotes_are_stripped() {
    assert_eq!(strip_quotes("\"hello\""), "hello");
    assert_eq!(strip_quotes("'hi there'"), "hi there");
    assert_eq!(strip_quotes("\"mixed'"), "\"mixed'");
    assert_eq!(strip_quotes("\""), "\"");
    assert_eq!(strip_quotes("\"\""), "");
    assert_eq!(strip_quotes("plain"), "plain");
}

#[test]
fn export_requests_are_read() {
    assert_eq!(export_request("   "), ExportRequest::ListAll);
    assert_eq!(export_request("PATH=\"/my/bin:/usr/bin\""), ExportRequest::Assign("PATH".to_string(), "/my/bin:/usr/bin".to_string()));
    assert_eq!(export_request(" A = 'x y' "), ExportRequest::Assign("A".to_string(), "x y".to_string()));
    assert_eq!(export_request("A=b=c"), ExportRequest::Assign("A".to_string(), "b=c".to_string()));
    assert_eq!(
        export_request("1A=x"),
        ExportRequest::Invalid("export: '1A': not a valid identifier".to_string())
    );
    assert_eq!(export_request("HOME  USER"), ExportRequest::Show(strings(&["HOME", "USER"])));
}

#[test]
fn export_lines_escape_quotes() {
    assert_eq!(export_line("A", "say \"hi\""), "export A=\"say \\\"hi\\\"\"");
    assert_eq!(export_line("B", ""), "export B=\"\"");
}

#[test]
fn export_listing_is_sorted_by_name() {
    let vars = vec![
        ("PATH".to_string(), "/bin".to_string()),
        ("A0".to_string(), "z".to_string()),
        ("A".to_string(), "y".to_string()),
    ];
    assert_eq!(
        export_listing(&vars),
        strings(&["export A=\"y\"", "export A0=\"z\"", "export PATH=\"/bin\""])
    );
}

#[test]
fn export_show_lines() {
    let names = strings(&["HOME", "9x", "UNSET"]);
    let values = vec![Some("/root".to_string()), None, None];
    assert_eq!(
        export_show(&names, &values),
        vec![
            Ok("export HOME=\"/root\"".to_string()),
            Err("export: '9x': not a valid identifier".to_string())
        ]
    );
}

#[test]
fn unset_targets_and_errors() {
    assert_eq!(
        unset_targets("  A  b-c _d "),
        vec![
            Ok("A".to_string()),
            Err("unset: 'b-c': not a valid identifier".to_string()),
            Ok("_d".to_string())
        ]
    );
    assert_eq!(unset_targets("   "), vec![]);
    assert_eq!(invalid_identifier_message("unset", "x y"), "unset: 'x y': not a valid identifier");
}

#[test]
fn paths_are_unquoted() {
    assert_eq!(unquote_path("  'my file.txt' "), "my file.txt");
    assert_eq!(unquote_path("\"a\""), "a");
    assert_eq!(unquote_path("''"), "");
    assert_eq!(unquote_path("plain.txt"), "plain.txt");
    assert_eq!(unquote_path("'half"), "'half");
    assert!(unquote_path_panics(" ' "));
    assert!(unquote_path_panics("\""));
    assert!(!unquote_path_panics("''"));
}

#[test]
fn cat_paths_are_unquoted() {
    assert_eq!(cat_paths(&strings(&["file1.txt", "'file 2.txt'"])), strings(&["file1.txt", "file 2.txt"]));
    assert_eq!(cat_paths(&vec![]), Vec::<String>::new());
}

#[test]
fn cat_reads_files_or_its_input() {
    assert_eq!(
        plan_cat(&strings(&["cat", "file1.txt", "file2.txt"])),
        CatPlan { sources: strings(&["file1.txt", "file2.txt"]), stdout: None, stderr: None }
    );
    assert_eq!(
        plan_cat(&strings(&["cat", "<", "input.txt"])),
        CatPlan { sources: strings(&["input.txt"]), stdout: None, stderr: None }
    );
    assert_eq!(
        plan_cat(&strings(&["cat", "a", "<", "input.txt", "2>", "err.txt", ">>", "out"])),
        CatPlan {
            sources: strings(&["a"]),
            stdout: Some(("out".to_string(), true)),
            stderr: Some(("err.txt".to_string(), false))
        }
    );
    assert_eq!(plan_cat(&strings(&["cat", "<"])), CatPlan { sources: vec![], stdout: None, stderr: None });
}

#[test]
fn cat_output_joins_contents_and_reports_missing_files() {
    let paths = strings(&["file1.txt", "nonexistent.txt", "b"]);
    let reads = vec![Some("yeabsira shimelis\n".to_string()), None, Some("x".to_string())];
    assert_eq!(
        cat_output(&paths, &reads),
        ("yeabsira shimelis\nx".to_string(), strings(&["cat: nonexistent.txt: No such file or directory\n"]))
    );
}

#[test]
fn cd_targets() {
    assert_eq!(cd_target(""), CdTarget::Home);
    assert_eq!(cd_target("  "), CdTarget::Home);
    assert_eq!(cd_target("~"), CdTarget::Home);
    assert_eq!(cd_target("~/Documents"), CdTarget::UnderHome("Documents".to_string()));
    assert_eq!(cd_target("~/"), CdTarget::UnderHome("".to_string()));
    assert_eq!(cd_target(".."), CdTarget::Path("..".to_string()));
    assert_eq!(cd_target("~user"), CdTarget::Path("~user".to_string()));
}

#[test]
fn home_directory_is_chosen() {
    assert_eq!(home_dir(Some("/home/a".to_string()), Some("C:\\Users\\b".to_string())), "/home/a");
    assert_eq!(home_dir(None, Some("C:\\Users\\b".to_string())), "C:\\Users\\b");
    assert_eq!(home_dir(None, None), "/");
}

#[test]
fn cd_error_line() {
    assert_eq!(cd_error_message("nowhere"), "cd: nowhere: No such file or directory");
}

#[test]
fn ls_requests_are_read() {
    assert_eq!(parse_ls(""), LsRequest { dir: ".".to_string(), stdout: None, stderr: None });
    assert_eq!(parse_ls("/home/u/Documents"), LsRequest { dir: "/home/u/Documents".to_string(), stdout: None, stderr: None });
    assert_eq!(
        parse_ls("src > out.txt 2>> err.txt"),
        LsRequest {
            dir: "src".to_string(),
            stdout: Some(("out.txt".to_string(), false)),
            stderr: Some(("err.txt".to_string(), true))
        }
    );
    assert_eq!(parse_ls("a b >"), LsRequest { dir: "b".to_string(), stdout: None, stderr: None });
    assert_eq!(parse_ls("> out.txt"), LsRequest { dir: ".".to_string(), stdout: Some(("out.txt".to_string(), false)), stderr: None });
}

#[test]
fn ls_listing_is_sorted() {
    let entries = strings(&["target", "Cargo.toml", ".git", "src", "README.md"]);
    assert_eq!(ls_output(&entries), ".git\nCargo.toml\nREADME.md\nsrc\ntarget\n");
    assert_eq!(ls_output(&vec![]), "\n");
}

#[test]
fn ls_error_lines() {
    assert_eq!(ls_missing_message("nope"), "ls: nope: No such file or directory\n");
    assert_eq!(ls_not_dir_message("f.txt"), "ls: f.txt: Not a directory\n");
    assert_eq!(ls_unreadable_message("d", "denied"), "ls: cannot read directory 'd': denied\n");
}

fn command_table() -> CommandTable {
    let mut table: CommandTable = NameTable::new();
    map_builtin_commands(&mut table);
    table.insert_if_absent("cmd".to_string(), CommandType::External("C:\\WINDOWS\\system32\\cmd.exe".to_string()));
    table.insert_if_absent("cmd".to_string(), CommandType::External("/other/cmd".to_string()));
    table.insert("ll".to_string(), CommandType::Alias("ls -la".to_string()));
    table
}

#[test]
fn type_reports_builtins_and_externals() {
    let table = command_table();
    assert_eq!(run_type_command("echo", &table), Ok("echo is a shell builtin".to_string()));
    assert_eq!(run_type_command("cmd", &table), Ok("cmd is C:\\WINDOWS\\system32\\cmd.exe".to_string()));
    assert_eq!(
        run_type_command("nonexistent_command_xyz", &table),
        Err("nonexistent_command_xyz: not found".to_string())
    );
    assert_eq!(run_type_command("ll", &table), Err("ll: not found".to_string()));
    assert_eq!(run_type_command("ls", &table), Ok("ls is a shell builtin".to_string()));
    assert_eq!(run_type_command("history", &table), Ok("history is a shell builtin".to_string()));
}

#[test]
fn heredoc_plans() {
    assert_eq!(heredoc_plan("   "), HeredocPlan::Nothing);
    assert_eq!(heredoc_plan(" cat "), HeredocPlan::Print);
    assert_eq!(heredoc_plan("cat -n"), HeredocPlan::Print);
    assert_eq!(heredoc_plan(" wc -l "), HeredocPlan::Shell("wc -l".to_string()));
}

#[test]
fn history_lines_are_numbered() {
    assert_eq!(history_line(0, "ls"), "    1  ls");
    assert_eq!(history_line(41, "exit 42"), "   42  exit 42");
    assert_eq!(history_line(99999, "x"), "100000  x");
}

#[test]
fn external_plans() {
    assert_eq!(external_plan(&vec![]), None);
    assert_eq!(
        external_plan(&strings(&["grep", "-n", "x", "2>", "err.log", "file", ">>", "out"])),
        Some(ExternalPlan {
            program: "grep".to_string(),
            args: strings(&["-n", "x", "file"]),
            stdout: Some(("out".to_string(), true)),
            stderr: Some(("err.log".to_string(), false))
        })
    );
    assert_eq!(
        external_plan(&strings(&["ls", ">"])),
        Some(ExternalPlan { program: "ls".to_string(), args: vec![], stdout: None, stderr: None })
    );
}

#[test]
fn pipeline_stage_checks() {
    assert_eq!(pipeline_stage_error(&Command::Exit(0)), Some("exit cannot be used in a pipeline".to_string()));
    assert_eq!(pipeline_stage_error(&Command::CD("x".to_string())), Some("cd cannot be used in a pipeline".to_string()));
    assert_eq!(pipeline_stage_error(&Command::Unknown("foo".to_string())), Some("foo: command not found".to_string()));
    assert_eq!(
        pipeline_stage_error(&Command::Pipeline(vec![])),
        Some("Nested pipelines are not supported".to_string())
    );
    assert_eq!(pipeline_stage_error(&Command::PWD), None);
    assert_eq!(not_found_message("zz"), "zz: command not found");
}

#[test]
fn alias_define_show_and_list() {
    let mut aliases: AliasTable = NameTable::new();
    assert_eq!(run_alias_command("", &mut aliases), AliasOutcome::List(vec![]));
    assert_eq!(run_alias_command("ll=\"ls -la\"", &mut aliases), AliasOutcome::Defined);
    assert_eq!(run_alias_command("gs='git status'", &mut aliases), AliasOutcome::Defined);
    assert_eq!(get_alias(&aliases, "gs"), Some("git status".to_string()));
    assert_eq!(run_alias_command("ll", &mut aliases), AliasOutcome::Show("ll".to_string(), "ls -la".to_string()));
    assert_eq!(run_alias_command("zz", &mut aliases), AliasOutcome::NotFound("zz".to_string()));
    assert_eq!(run_alias_command("=x", &mut aliases), AliasOutcome::InvalidName);
    assert_eq!(
        run_alias_command("  ", &mut aliases),
        AliasOutcome::List(vec![
            ("ll".to_string(), "ls -la".to_string()),
            ("gs".to_string(), "git status".to_string())
        ])
    );
}

#[test]
fn alias_redefinition_replaces() {
    let mut aliases: AliasTable = NameTable::new();
    run_alias_command("ll=ls", &mut aliases);
    run_alias_command("ll=ls -l", &mut aliases);
    assert_eq!(get_alias(&aliases, "ll"), Some("ls -l".to_string()));
}

#[test]
fn alias_with_lone_quote_value_is_refused() {
    assert!(alias_args_would_panic("x='"));
    assert!(alias_args_would_panic("x= \" "));
    assert!(!alias_args_would_panic("x=''"));
    assert!(!alias_args_would_panic("x"));
}

#[test]
fn unalias_removes_and_reports() {
    let mut aliases: AliasTable = NameTable::new();
    run_alias_command("ll=ls -la", &mut aliases);
    run_alias_command("gs=git status", &mut aliases);
    assert_eq!(run_unalias_command("   ", &mut aliases), Err(()));
    assert_eq!(run_unalias_command("ll nope", &mut aliases), Ok(strings(&["nope"])));
    assert_eq!(get_alias(&aliases, "ll"), None);
    assert_eq!(get_alias(&aliases, "gs"), Some("git status".to_string()));
    assert_eq!(run_unalias_command("gs gs", &mut aliases), Ok(strings(&["gs"])));
}
