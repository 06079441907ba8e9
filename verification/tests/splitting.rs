use codecrafters_shell::braces::expand_braces;
use codecrafters_shell::heredoc::{detect_heredoc, remove_heredoc_from_command};
use codecrafters_shell::split::{split_chain, split_pipeline, ChainOperator};

fn strings(v: &[&str]) -> Vec<String> {
    v.iter().map(|s| s.to_string()).collect()
}

#[test]
fn pipeline_of_two_commands() {
    assert_eq!(
        split_pipeline("echo hello world | grep hello"),
        Some(strings(&["echo hello world", "grep hello"]))
    );
}

#[test]
fn pipeline_of_three_commands() {
    assert_eq!(
        split_pipeline("cat file.txt | sort | uniq"),
        Some(strings(&["cat file.txt", "sort", "uniq"]))
    );
}

#[test]
fn line_without_bar_is_no_pipeline() {
    assert_eq!(split_pipeline("echo hello"), None);
}

#[test]
fn quoted_bar_is_no_pipe() {
    assert_eq!(split_pipeline("echo 'a|b'"), None);
    assert_eq!(split_pipeline("echo \"a|b\""), None);
}

#[test]
fn escaped_bar_is_no_pipe() {
    assert_eq!(split_pipeline("echo a\\|b"), None);
}

#[test]
fn blank_pipeline_segments_are_dropped() {
    assert_eq!(split_pipeline("ls |  | wc"), Some(strings(&["ls", "wc"])));
    assert_eq!(split_pipeline("ls |"), None);
}

#[test]
fn chain_with_and() {
    assert_eq!(
        split_chain("mkdir newdir && cd newdir"),
        Some((strings(&["mkdir newdir", "cd newdir"]), vec![ChainOperator::And]))
    );
}

#[test]
fn chain_with_or() {
    assert_eq!(
        split_chain("cat config.txt 2>/dev/null || echo \"no config found\""),
        Some((
            strings(&["cat config.txt 2>/dev/null", "echo \"no config found\""]),
            vec![ChainOperator::Or]
        ))
    );
}

#[test]
fn chain_with_sequences() {
    assert_eq!(
        split_chain("echo starting ; ls ; echo done"),
        Some((
            strings(&["echo starting", "ls", "echo done"]),
            vec![ChainOperator::Sequence, ChainOperator::Sequence]
        ))
    );
}

#[test]
fn single_pipe_stays_in_chain_command() {
    assert_eq!(
        split_chain("ls | wc && echo ok"),
        Some((strings(&["ls | wc", "echo ok"]), vec![ChainOperator::And]))
    );
}

#[test]
fn quoted_operators_do_not_chain() {
    assert_eq!(split_chain("echo 'a && b'"), None);
    assert_eq!(split_chain("echo \"a ; b\""), None);
}

#[test]
fn line_without_operator_is_no_chain() {
    assert_eq!(split_chain("echo hello"), None);
}

#[test]
fn trailing_operator_is_kept() {
    assert_eq!(split_chain("true &&"), Some((strings(&["true"]), vec![ChainOperator::And])));
}

#[test]
fn leading_operator_is_dropped() {
    assert_eq!(split_chain("; ls"), None);
}

#[test]
fn brace_alternatives_expand() {
    assert_eq!(expand_braces("{a,b,c}"), strings(&["a", "b", "c"]));
}

#[test]
fn brace_numeric_range_expands() {
    assert_eq!(
        expand_braces("file{1..5}.txt"),
        strings(&["file1.txt", "file2.txt", "file3.txt", "file4.txt", "file5.txt"])
    );
}

#[test]
fn brace_range_counts_down() {
    assert_eq!(expand_braces("{3..1}"), strings(&["3", "2", "1"]));
    assert_eq!(expand_braces("{-1..1}"), strings(&["-1", "0", "1"]));
}

#[test]
fn brace_letter_range_expands() {
    assert_eq!(expand_braces("{a..e}"), strings(&["a", "b", "c", "d", "e"]));
    assert_eq!(expand_braces("{c..a}"), strings(&["c", "b", "a"]));
}

#[test]
fn brace_with_prefix_and_suffix() {
    assert_eq!(
        expand_braces("test_{a,b,c}.log"),
        strings(&["test_a.log", "test_b.log", "test_c.log"])
    );
}

#[test]
fn nested_and_repeated_braces_expand() {
    assert_eq!(expand_braces("{a,b}{1,2}"), strings(&["a1", "a2", "b1", "b2"]));
    assert_eq!(expand_braces("x{a,{b,c}}"), strings(&["xa", "xb", "xc"]));
}

#[test]
fn words_without_expansion_stay() {
    assert_eq!(expand_braces("plain"), strings(&["plain"]));
    assert_eq!(expand_braces("{single}"), strings(&["{single}"]));
    assert_eq!(expand_braces("{a..b..c}"), strings(&["{a..b..c}"]));
    assert_eq!(expand_braces("{"), strings(&["{"]));
}

#[test]
fn empty_alternative_after_comma_is_kept() {
    assert_eq!(expand_braces("x{a,}"), strings(&["xa", "x"]));
}

#[test]
fn heredoc_marker_is_found() {
    assert_eq!(detect_heredoc("cat <<EOF"), Some(("EOF".to_string(), false)));
    assert_eq!(detect_heredoc("cat << END"), Some(("END".to_string(), false)));
}

#[test]
fn quoted_heredoc_marker_is_found() {
    assert_eq!(detect_heredoc("cat <<'EOF'"), Some(("EOF".to_string(), true)));
    assert_eq!(detect_heredoc("cat <<\"EOF\""), Some(("EOF".to_string(), true)));
}

#[test]
fn no_heredoc_without_marker() {
    assert_eq!(detect_heredoc("echo hello"), None);
    assert_eq!(detect_heredoc("cat < input.txt"), None);
    assert_eq!(detect_heredoc("echo '<<EOF'"), None);
}

#[test]
fn heredoc_marker_is_removed() {
    assert_eq!(remove_heredoc_from_command("cat <<EOF"), "cat");
    assert_eq!(remove_heredoc_from_command("cat <<'EOF' | wc"), "cat  | wc");
    assert_eq!(remove_heredoc_from_command("  echo hi  "), "echo hi");
}

#[test]
fn removing_a_heredoc_twice_changes_nothing() {
    for line in ["cat <<EOF", "cat <<'EOF' | wc", "sort << END > out.txt", "echo '<<' <<\"X\" tail"] {
        let once = remove_heredoc_from_command(line);
        assert_eq!(detect_heredoc(&once), None);
        assert_eq!(remove_heredoc_from_command(&once), once);
        assert_eq!(once.trim(), once);
    }
}
