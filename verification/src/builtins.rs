//! What the builtin commands compute: `echo`'s message and redirections,
//! `export`, `unset`, `cat`, `cd`, `ls`, `type`, here-document handling,
//! history lines, tab completion and the checks on pipeline stages. Reading
//! and writing files, the environment and the terminal is left to the caller.
use vstd::prelude::*;
use crate::alias::{index_of, index_of_exec};
use crate::command::{Command, CommandTable, CommandType, CommandTypeView, CommandView};
use crate::number::{decimal, push_digits};
use crate::order::{pair_views, sort_by_name, sort_words, sorted, sorted_by_name};
use crate::text::{
    append_chars, append_str, char_is_alphabetic, char_is_alphanumeric, chars_eq_str, chars_of,
    cviews, is_alphabetic, is_alphanumeric, join, join_chars, lemma_cviews_push, split_whitespace_chars,
    split_ws, string_of, strings_of, sub_chars, trim, trim_chars, trim_str, views,
};

verus! {

/// A redirection target: the path and whether to append.
pub type Redirect = Option<(String, bool)>;

pub open spec fn redirect_view(r: Option<(String, bool)>) -> Option<(Seq<char>, bool)> {
    match r {
        Some((p, a)) => Some((p@, a)),
        None => None,
    }
}

pub open spec fn is_stdout_redirect(w: Seq<char>) -> bool {
    w == ">"@ || w == "1>"@ || w == ">>"@ || w == "1>>"@
}

pub open spec fn is_stderr_redirect(w: Seq<char>) -> bool {
    w == "2>"@ || w == "2>>"@
}

pub open spec fn appends(w: Seq<char>) -> bool {
    w == ">>"@ || w == "1>>"@ || w == "2>>"@
}

/// The words of an `echo` that are printed: every word but the redirection
/// operators and the word after each of them, from word `i` on.
pub open spec fn echo_words(ws: Seq<Seq<char>>, i: int) -> Seq<Seq<char>>
    decreases ws.len() - i,
{
    if i < 0 || i >= ws.len() {
        Seq::empty()
    } else if is_stdout_redirect(ws[i]) || is_stderr_redirect(ws[i]) {
        if i + 1 >= ws.len() { Seq::empty() } else { echo_words(ws, i + 2) }
    } else {
        seq![ws[i]] + echo_words(ws, i + 1)
    }
}

/// The line that `echo` prints for its raw arguments.
pub open spec fn echo_message(raw: Seq<char>) -> Seq<char> {
    join(echo_words(split_ws(raw), 0), " "@)
}

/// The redirection of output (`stdout` when `err` is false, else `stderr`)
/// that the words from `i` on set last, over `cur`.
pub open spec fn last_redirect(ws: Seq<Seq<char>>, i: int, err: bool, cur: Option<(Seq<char>, bool)>) -> Option<(Seq<char>, bool)>
    decreases ws.len() - i,
{
    if i < 0 || i >= ws.len() {
        cur
    } else if is_stdout_redirect(ws[i]) || is_stderr_redirect(ws[i]) {
        if i + 1 >= ws.len() {
            cur
        } else {
            let here = if is_stderr_redirect(ws[i]) == err { Some((ws[i + 1], appends(ws[i]))) } else { cur };
            last_redirect(ws, i + 2, err, here)
        }
    } else {
        last_redirect(ws, i + 1, err, cur)
    }
}

/// Whether a redirection operator of `echo` has no word after it (its target
/// would be read past the end, which panics).
pub open spec fn echo_dangling(ws: Seq<Seq<char>>, i: int) -> bool
    decreases ws.len() - i,
{
    if i < 0 || i >= ws.len() {
        false
    } else if is_stdout_redirect(ws[i]) || is_stderr_redirect(ws[i]) {
        i + 1 >= ws.len() || echo_dangling(ws, i + 2)
    } else {
        echo_dangling(ws, i + 1)
    }
}

fn is_stdout_redirect_exec(w: &Vec<char>) -> (r: bool)
    ensures
        r == is_stdout_redirect(w@),
{
    chars_eq_str(w, ">") || chars_eq_str(w, "1>") || chars_eq_str(w, ">>") || chars_eq_str(w, "1>>")
}

fn is_stderr_redirect_exec(w: &Vec<char>) -> (r: bool)
    ensures
        r == is_stderr_redirect(w@),
{
    chars_eq_str(w, "2>") || chars_eq_str(w, "2>>")
}

fn appends_exec(w: &Vec<char>) -> (r: bool)
    ensures
        r == appends(w@),
{
    chars_eq_str(w, ">>") || chars_eq_str(w, "1>>") || chars_eq_str(w, "2>>")
}

/// The printed words of an `echo`.
fn echo_words_exec(ws: &Vec<Vec<char>>) -> (r: Vec<Vec<char>>)
    ensures
        cviews(r@) == echo_words(cviews(ws@), 0),
{
    let ghost wv = cviews(ws@);
    let mut r: Vec<Vec<char>> = Vec::new();
    let mut i: usize = 0;
    assert(cviews(r@) + echo_words(wv, 0) =~= echo_words(wv, 0));
    while i < ws.len()
        invariant
            wv == cviews(ws@),
            cviews(r@) + echo_words(wv, i as int) == echo_words(wv, 0),
        decreases ws.len() - i,
    {
        if is_stdout_redirect_exec(&ws[i]) || is_stderr_redirect_exec(&ws[i]) {
            if i + 1 >= ws.len() {
                i = ws.len();
                assert(echo_words(wv, i as int) =~= Seq::<Seq<char>>::empty());
            } else {
                i += 2;
            }
        } else {
            proof { lemma_cviews_push(r@, ws@[i as int]); }
            let ghost before = cviews(r@);
            r.push(ws[i].clone());
            assert(cviews(r@) + echo_words(wv, i + 1) =~= before + (seq![wv[i as int]] + echo_words(wv, i + 1)));
            i += 1;
        }
    }
    assert(cviews(r@) + echo_words(wv, i as int) =~= cviews(r@));
    r
}

/// Echo with a writer for pipeline support: appends the message and a line
/// break to `writer`; redirections are left out (with their targets).
pub fn run_echo_command_with_writer(raw: String, writer: &mut String)
    ensures
        final(writer)@ == old(writer)@ + echo_message(raw@) + seq!['\n'],
{
    let v = chars_of(raw.as_str());
    let words = split_whitespace_chars(&v);
    let parts = echo_words_exec(&words);
    let space = chars_of(" ");
    let message = join_chars(&parts, &space);
    let mut out = chars_of(writer.as_str());
    append_chars(&mut out, &message);
    out.push('\n');
    assert(out@ =~= old(writer)@ + echo_message(raw@) + seq!['\n']);
    *writer = string_of(&out);
}

/// What `echo` with redirections does: the message, and where standard
/// output and standard error go (`None`: the terminal).
#[derive(Debug, PartialEq)]
pub struct EchoPlan {
    pub message: String,
    pub stdout: Redirect,
    pub stderr: Redirect,
}

/// Plans `echo` with redirections: the printed words joined with spaces, the
/// last `>`/`1>`/`>>`/`1>>` target for output and the last `2>`/`2>>` target
/// for errors (`>>` forms append). `None` when a redirection operator ends the
/// arguments (the target would be read past the end).
pub fn plan_echo(raw: &str) -> (r: Option<EchoPlan>)
    ensures
        match r {
            Some(p) => !echo_dangling(split_ws(raw@), 0)
                && p.message@ == echo_message(raw@)
                && redirect_view(p.stdout) == last_redirect(split_ws(raw@), 0, false, None)
                && redirect_view(p.stderr) == last_redirect(split_ws(raw@), 0, true, None),
            None => echo_dangling(split_ws(raw@), 0),
        },
{
    let v = chars_of(raw);
    let words = split_whitespace_chars(&v);
    let ghost wv = cviews(words@);
    assert(wv == split_ws(raw@));
    let mut out: Option<(Vec<char>, bool)> = None;
    let mut err: Option<(Vec<char>, bool)> = None;
    let mut i: usize = 0;
    while i < words.len()
        invariant
            wv == cviews(words@),
            wv == split_ws(raw@),
            i <= words.len(),
            echo_dangling(wv, 0) == echo_dangling(wv, i as int),
            last_redirect(wv, 0, false, None) == last_redirect(wv, i as int, false, match out { Some((p, a)) => Some((p@, a)), None => None }),
            last_redirect(wv, 0, true, None) == last_redirect(wv, i as int, true, match err { Some((p, a)) => Some((p@, a)), None => None }),
        decreases words.len() - i,
    {
        assert(wv[i as int] == words@[i as int]@);
        let is_out = is_stdout_redirect_exec(&words[i]);
        let is_err = is_stderr_redirect_exec(&words[i]);
        if is_out || is_err {
            if i + 1 >= words.len() {
                assert(echo_dangling(wv, i as int));
                return None;
            }
            let target = (words[i + 1].clone(), appends_exec(&words[i]));
            if is_err {
                err = Some(target);
            } else {
                out = Some(target);
            }
            i += 2;
        } else {
            i += 1;
        }
    }
    let parts = echo_words_exec(&words);
    let space = chars_of(" ");
    let message = string_of(&join_chars(&parts, &space));
    let stdout = match out {
        Some((p, a)) => Some((string_of(&p), a)),
        None => None,
    };
    let stderr = match err {
        Some((p, a)) => Some((string_of(&p), a)),
        None => None,
    };
    Some(EchoPlan { message, stdout, stderr })
}


// ---------------------------------------------------------------- export, unset

/// Whether `s` is a valid variable name: a letter or `_`, then letters,
/// digits or `_`.
pub open spec fn valid_var_name(s: Seq<char>) -> bool {
    &&& s.len() > 0
    &&& (char_is_alphabetic(s[0]) || s[0] == '_')
    &&& forall|i: int| 1 <= i < s.len() ==> char_is_alphanumeric(#[trigger] s[i]) || s[i] == '_'
}

/// Checks if a variable name is valid (starts with letter or underscore,
/// followed by alphanumeric or underscore).
pub fn is_valid_var_name(name: &str) -> (r: bool)
    ensures
        r == valid_var_name(name@),
{
    let v = chars_of(name);
    if v.len() == 0 {
        return false;
    }
    if !is_alphabetic(v[0]) && v[0] != '_' {
        return false;
    }
    let mut i: usize = 1;
    while i < v.len()
        invariant
            1 <= i <= v.len(),
            v@ == name@,
            forall|k: int| 1 <= k < i ==> char_is_alphanumeric(#[trigger] v@[k]) || v@[k] == '_',
        decreases v.len() - i,
    {
        if !is_alphanumeric(v[i]) && v[i] != '_' {
            return false;
        }
        i += 1;
    }
    true
}

/// Whether `s` is wrapped in a pair of double or of single quotes.
pub open spec fn wrapped_in_quotes(s: Seq<char>) -> bool {
    s.len() >= 2 && ((s[0] == '"' && s.last() == '"') || (s[0] == '\'' && s.last() == '\''))
}

/// `s` without the pair of quotes around it, if it has one.
pub open spec fn without_quotes(s: Seq<char>) -> Seq<char> {
    if wrapped_in_quotes(s) { s.subrange(1, s.len() - 1) } else { s }
}

/// Strips surrounding quotes from a string.
pub fn strip_quotes(s: &str) -> (r: String)
    ensures
        r@ == without_quotes(s@),
{
    let v = chars_of(s);
    let n = v.len();
    if n >= 2 && ((v[0] == '"' && v[n - 1] == '"') || (v[0] == '\'' && v[n - 1] == '\'')) {
        string_of(&sub_chars(&v, 1, n - 1))
    } else {
        string_of(&v)
    }
}

/// `value` with each double quote escaped by a backslash.
pub open spec fn escape_quotes(value: Seq<char>) -> Seq<char>
    decreases value.len(),
{
    if value.len() == 0 {
        Seq::empty()
    } else {
        let last = value.last();
        escape_quotes(value.drop_last()) + if last == '"' { seq!['\\', '"'] } else { seq![last] }
    }
}

/// The line that `export` prints for a variable: `export NAME="VALUE"`.
pub open spec fn export_line_text(name: Seq<char>, value: Seq<char>) -> Seq<char> {
    "export "@ + name + "=\""@ + escape_quotes(value) + "\""@
}

/// The line that `export` prints for a variable, with the double quotes in
/// its value escaped.
pub fn export_line(name: &str, value: &str) -> (r: String)
    ensures
        r@ == export_line_text(name@, value@),
{
    let val = chars_of(value);
    let mut out = chars_of("export ");
    append_str(&mut out, name);
    append_str(&mut out, "=\"");
    let ghost start = out@;
    let mut i: usize = 0;
    assert(val@.take(0) =~= Seq::<char>::empty());
    while i < val.len()
        invariant
            i <= val.len(),
            val@ == value@,
            out@ == start + escape_quotes(val@.take(i as int)),
        decreases val.len() - i,
    {
        if val[i] == '"' {
            out.push('\\');
            out.push('"');
        } else {
            out.push(val[i]);
        }
        assert(val@.take(i + 1).drop_last() =~= val@.take(i as int));
        assert(out@ =~= start + escape_quotes(val@.take(i + 1)));
        i += 1;
    }
    assert(val@.take(val.len() as int) =~= val@);
    append_str(&mut out, "\"");
    string_of(&out)
}

/// The error line of `export` and `unset` for a name that is not a valid
/// identifier: `CMD: 'NAME': not a valid identifier`.
pub open spec fn invalid_identifier_text(cmd: Seq<char>, name: Seq<char>) -> Seq<char> {
    cmd + ": '"@ + name + "': not a valid identifier"@
}

pub fn invalid_identifier_message(cmd: &str, name: &str) -> (r: String)
    ensures
        r@ == invalid_identifier_text(cmd@, name@),
{
    let mut out = chars_of(cmd);
    append_str(&mut out, ": '");
    append_str(&mut out, name);
    append_str(&mut out, "': not a valid identifier");
    string_of(&out)
}

/// What an `export` asks for.
#[derive(Debug, PartialEq)]
pub enum ExportRequest {
    /// `export` alone: list every variable, sorted by name.
    ListAll,
    /// `export NAME=VALUE`: set the variable (quotes around the value removed).
    Assign(String, String),
    /// `export NAME=VALUE` with a name that is not a valid identifier: the
    /// error line to print.
    Invalid(String),
    /// `export NAME...`: print each of these names that is set.
    Show(Vec<String>),
}

pub enum ExportRequestView {
    ListAll,
    Assign(Seq<char>, Seq<char>),
    Invalid(Seq<char>),
    Show(Seq<Seq<char>>),
}

impl View for ExportRequest {
    type V = ExportRequestView;

    open spec fn view(&self) -> ExportRequestView {
        match self {
            ExportRequest::ListAll => ExportRequestView::ListAll,
            ExportRequest::Assign(n, v) => ExportRequestView::Assign(n@, v@),
            ExportRequest::Invalid(m) => ExportRequestView::Invalid(m@),
            ExportRequest::Show(ns) => ExportRequestView::Show(views(ns@)),
        }
    }
}

/// The meaning of `export`'s arguments: with none, list everything; with a
/// `=`, set the name before the first `=` (trimmed) to the value after it
/// (trimmed, quotes removed) if the name is valid; else show each word.
pub open spec fn export_request_of(args: Seq<char>) -> ExportRequestView {
    let a = trim(args);
    if a.len() == 0 {
        ExportRequestView::ListAll
    } else {
        match index_of(a, '=') {
            Some(p) => {
                let name = trim(a.take(p));
                if valid_var_name(name) {
                    ExportRequestView::Assign(name, without_quotes(trim(a.skip(p + 1))))
                } else {
                    ExportRequestView::Invalid(invalid_identifier_text("export"@, name))
                }
            },
            None => ExportRequestView::Show(split_ws(a)),
        }
    }
}

/// Reads the arguments of `export` (see `export_request_of`).
pub fn export_request(args: &str) -> (r: ExportRequest)
    ensures
        r@ == export_request_of(args@),
{
    let a = trim_str(args);
    if a.len() == 0 {
        return ExportRequest::ListAll;
    }
    match index_of_exec(&a, '=') {
        Some(p) => {
            let first = sub_chars(&a, 0, p);
            let second = sub_chars(&a, p + 1, a.len());
            assert(first@ =~= a@.take(p as int));
            assert(second@ =~= a@.skip(p + 1));
            let name = string_of(&trim_chars(&first));
            if is_valid_var_name(name.as_str()) {
                let value = string_of(&trim_chars(&second));
                ExportRequest::Assign(name, strip_quotes(value.as_str()))
            } else {
                ExportRequest::Invalid(invalid_identifier_message("export", name.as_str()))
            }
        },
        None => ExportRequest::Show(strings_of(&split_whitespace_chars(&a))),
    }
}

/// What `export NAME...` prints, name by name from `k` on: for a name that is
/// not valid an error line (`Err`), for a valid one that is set its
/// `export` line (`Ok`), for a valid one that is not set nothing. `values[i]`
/// is the value of `names[i]`, if it is set.
pub open spec fn export_show_lines(names: Seq<Seq<char>>, values: Seq<Option<Seq<char>>>, k: int) -> Seq<Result<Seq<char>, Seq<char>>>
    decreases names.len() - k,
{
    if k < 0 || k >= names.len() {
        Seq::empty()
    } else {
        let n = names[k];
        let here: Seq<Result<Seq<char>, Seq<char>>> = if !valid_var_name(n) {
            seq![Err(invalid_identifier_text("export"@, n))]
        } else {
            match values[k] {
                Some(v) => seq![Ok(export_line_text(n, v))],
                None => Seq::empty(),
            }
        };
        here + export_show_lines(names, values, k + 1)
    }
}

pub open spec fn line_views(r: Seq<Result<String, String>>) -> Seq<Result<Seq<char>, Seq<char>>> {
    r.map_values(|x: Result<String, String>| match x { Ok(s) => Ok(s@), Err(e) => Err(e@) })
}

pub open spec fn value_views(v: Seq<Option<String>>) -> Seq<Option<Seq<char>>> {
    v.map_values(|x: Option<String>| match x { Some(s) => Some(s@), None => None })
}

/// The lines of `export NAME...`, given the value of each name (see
/// `export_show_lines`): `Ok` lines go to standard output, `Err` lines to
/// standard error.
pub fn export_show(names: &Vec<String>, values: &Vec<Option<String>>) -> (r: Vec<Result<String, String>>)
    requires
        names.len() == values.len(),
    ensures
        line_views(r@) == export_show_lines(views(names@), value_views(values@), 0),
{
    let ghost nv = views(names@);
    let ghost vv = value_views(values@);
    let mut r: Vec<Result<String, String>> = Vec::new();
    let mut k: usize = 0;
    assert(line_views(r@) + export_show_lines(nv, vv, 0) =~= export_show_lines(nv, vv, 0));
    while k < names.len()
        invariant
            k <= names.len(),
            names.len() == values.len(),
            nv == views(names@),
            vv == value_views(values@),
            line_views(r@) + export_show_lines(nv, vv, k as int) == export_show_lines(nv, vv, 0),
        decreases names.len() - k,
    {
        let ghost before = line_views(r@);
        let n = names[k].as_str();
        assert(nv[k as int] == n@);
        if !is_valid_var_name(n) {
            r.push(Err(invalid_identifier_message("export", n)));
            assert(line_views(r@) =~= before + seq![Err(invalid_identifier_text("export"@, nv[k as int]))]);
        } else {
            match &values[k] {
                Some(v) => {
                    assert(vv[k as int] == Some(v@));
                    r.push(Ok(export_line(n, v.as_str())));
                    assert(line_views(r@) =~= before + seq![Ok(export_line_text(nv[k as int], v@))]);
                },
                None => {
                    assert(vv[k as int] is None);
                },
            }
        }
        k += 1;
    }
    assert(line_views(r@) + export_show_lines(nv, vv, k as int) =~= line_views(r@));
    r
}

/// What `unset` does with its arguments, word by word from `k` on: a valid
/// name is removed (`Ok`), an invalid one gets an error line (`Err`).
pub open spec fn unset_plan(words: Seq<Seq<char>>, k: int) -> Seq<Result<Seq<char>, Seq<char>>>
    decreases words.len() - k,
{
    if k < 0 || k >= words.len() {
        Seq::empty()
    } else {
        let w = words[k];
        seq![if valid_var_name(w) { Ok(w) } else { Err(invalid_identifier_text("unset"@, w)) }]
            + unset_plan(words, k + 1)
    }
}

/// The names that `unset` removes (`Ok`) and its error lines (`Err`), in
/// the order of its arguments.
pub fn unset_targets(args: &str) -> (r: Vec<Result<String, String>>)
    ensures
        line_views(r@) == unset_plan(split_ws(args@), 0),
{
    let v = chars_of(args);
    let words = split_whitespace_chars(&v);
    let ghost wv = cviews(words@);
    let mut r: Vec<Result<String, String>> = Vec::new();
    let mut k: usize = 0;
    assert(line_views(r@) + unset_plan(wv, 0) =~= unset_plan(wv, 0));
    while k < words.len()
        invariant
            k <= words.len(),
            wv == cviews(words@),
            line_views(r@) + unset_plan(wv, k as int) == unset_plan(wv, 0),
        decreases words.len() - k,
    {
        let ghost before = line_views(r@);
        let w = string_of(&words[k]);
        assert(wv[k as int] == w@);
        if is_valid_var_name(w.as_str()) {
            r.push(Ok(w));
            assert(line_views(r@) =~= before + seq![Ok(wv[k as int])]);
        } else {
            r.push(Err(invalid_identifier_message("unset", w.as_str())));
            assert(line_views(r@) =~= before + seq![Err(invalid_identifier_text("unset"@, wv[k as int]))]);
        }
        k += 1;
    }
    assert(line_views(r@) + unset_plan(wv, k as int) =~= line_views(r@));
    r
}

/// The lines of `export` alone: one `export NAME="VALUE"` line per variable,
/// in ascending order of names.
pub open spec fn export_listing_lines(vars: Seq<(Seq<char>, Seq<char>)>) -> Seq<Seq<char>> {
    sorted_by_name(vars).map_values(|p: (Seq<char>, Seq<char>)| export_line_text(p.0, p.1))
}

/// The lines that `export` alone prints for the given (name, value) pairs.
pub fn export_listing(vars: &Vec<(String, String)>) -> (r: Vec<String>)
    ensures
        views(r@) == export_listing_lines(pair_views(vars@)),
{
    let sorted = sort_by_name(vars);
    let ghost sv = pair_views(sorted@);
    let mut r: Vec<String> = Vec::new();
    let mut k: usize = 0;
    while k < sorted.len()
        invariant
            k <= sorted.len(),
            sv == pair_views(sorted@),
            r@.len() == k,
            forall|i: int| 0 <= i < k ==> #[trigger] r@[i]@ == export_line_text(sv[i].0, sv[i].1),
        decreases sorted.len() - k,
    {
        let line = export_line(sorted[k].0.as_str(), sorted[k].1.as_str());
        r.push(line);
        assert(sv[k as int] == (sorted@[k as int].0@, sorted@[k as int].1@));
        k += 1;
    }
    assert(views(r@) =~= sv.map_values(|p: (Seq<char>, Seq<char>)| export_line_text(p.0, p.1)));
    r
}


// ---------------------------------------------------------------- cat

/// Whether `path`, trimmed, is a lone quote character: removing the pair of
/// quotes around it would slice past its end, which panics.
pub open spec fn lone_quote(path: Seq<char>) -> bool {
    let s = trim(path);
    s.len() == 1 && (s[0] == '\'' || s[0] == '"')
}

/// `path` trimmed, without the quotes around it if it starts and ends with
/// the same kind of quote.
pub open spec fn unquoted_path(path: Seq<char>) -> Seq<char> {
    let s = trim(path);
    if s.len() >= 1 && ((s[0] == '\'' && s.last() == '\'') || (s[0] == '"' && s.last() == '"')) {
        s.subrange(1, s.len() - 1)
    } else {
        s
    }
}

/// Whether `unquote_path` would panic on `path` (see `lone_quote`).
pub fn unquote_path_panics(path: &str) -> (r: bool)
    ensures
        r == lone_quote(path@),
{
    let s = trim_str(path);
    s.len() == 1 && (s[0] == '\'' || s[0] == '"')
}

/// Trims a path and removes the quotes around it.
pub fn unquote_path(path: &str) -> (r: String)
    requires
        !lone_quote(path@),
    ensures
        r@ == unquoted_path(path@),
{
    let s = trim_str(path);
    let n = s.len();
    if n >= 1 && ((s[0] == '\'' && s[n - 1] == '\'') || (s[0] == '"' && s[n - 1] == '"')) {
        string_of(&sub_chars(&s, 1, n - 1))
    } else {
        string_of(&s)
    }
}

/// Reads `cat`'s words from `i` on: `<` followed by a word names the
/// standard input (and consumes the word); an output redirection operator
/// followed by a word sets that redirection; an operator at the end is
/// dropped; any other word is a file to read.
pub open spec fn cat_scan(
    ws: Seq<Seq<char>>,
    i: int,
    files: Seq<Seq<char>>,
    input: Option<Seq<char>>,
    out: Option<(Seq<char>, bool)>,
    err: Option<(Seq<char>, bool)>,
) -> (Seq<Seq<char>>, Option<Seq<char>>, Option<(Seq<char>, bool)>, Option<(Seq<char>, bool)>)
    decreases ws.len() - i,
{
    if i < 0 || i >= ws.len() {
        (files, input, out, err)
    } else if ws[i] == "<"@ || is_stdout_redirect(ws[i]) || is_stderr_redirect(ws[i]) {
        if i + 1 < ws.len() {
            if ws[i] == "<"@ {
                cat_scan(ws, i + 2, files, Some(ws[i + 1]), out, err)
            } else if is_stdout_redirect(ws[i]) {
                cat_scan(ws, i + 2, files, input, Some((ws[i + 1], appends(ws[i]))), err)
            } else {
                cat_scan(ws, i + 2, files, input, out, Some((ws[i + 1], appends(ws[i]))))
            }
        } else {
            (files, input, out, err)
        }
    } else {
        cat_scan(ws, i + 1, files.push(ws[i]), input, out, err)
    }
}

/// What `cat` reads: its files, or, when it names none, the file given as
/// its standard input.
pub open spec fn cat_sources(files: Seq<Seq<char>>, input: Option<Seq<char>>) -> Seq<Seq<char>> {
    if files.len() == 0 && input is Some { seq![input->0] } else { files }
}

/// How `cat` runs: what it reads (paths as written) and where its output
/// and its errors go (`None`: inherited).
#[derive(Debug, PartialEq)]
pub struct CatPlan {
    pub sources: Vec<String>,
    pub stdout: Redirect,
    pub stderr: Redirect,
}

/// Plans `cat` from its words (the command name first): `cat < input.txt`
/// reads `input.txt`, `cat a b > out` writes `a` and `b` to `out`.
pub fn plan_cat(words: &Vec<String>) -> (r: CatPlan)
    ensures
        ({
            let (files, input, out, err) = cat_scan(views(words@), 1, Seq::empty(), None, None, None);
            &&& views(r.sources@) == cat_sources(files, input)
            &&& redirect_view(r.stdout) == out
            &&& redirect_view(r.stderr) == err
        }),
{
    let ghost wv = views(words@);
    let mut files: Vec<String> = Vec::new();
    let mut input: Option<String> = None;
    let mut out: Option<(String, bool)> = None;
    let mut err: Option<(String, bool)> = None;
    let mut i: usize = 1;
    assert(views(files@) =~= Seq::<Seq<char>>::empty());
    while i < words.len()
        invariant
            wv == views(words@),
            1 <= i,
            cat_scan(wv, 1, Seq::empty(), None, None, None) == cat_scan(wv, i as int, views(files@),
                match input { Some(x) => Some(x@), None => None }, redirect_view(out), redirect_view(err)),
        decreases words.len() - i,
    {
        let w = chars_of(words[i].as_str());
        assert(wv[i as int] == w@);
        let is_in = chars_eq_str(&w, "<");
        let is_out = is_stdout_redirect_exec(&w);
        let is_err = is_stderr_redirect_exec(&w);
        if is_in || is_out || is_err {
            if i + 1 < words.len() {
                assert(wv[i + 1] == words@[i + 1]@);
                if is_in {
                    input = Some(words[i + 1].clone());
                } else if is_out {
                    out = Some((words[i + 1].clone(), appends_exec(&w)));
                } else {
                    err = Some((words[i + 1].clone(), appends_exec(&w)));
                }
                i += 2;
            } else {
                i = words.len();
            }
        } else {
            let ghost before = views(files@);
            files.push(words[i].clone());
            assert(views(files@) =~= before.push(wv[i as int]));
            i += 1;
        }
    }
    let sources = if files.len() == 0 && input.is_some() {
        let mut one: Vec<String> = Vec::new();
        match input {
            Some(x) => { one.push(x); },
            None => {},
        }
        one
    } else {
        files
    };
    CatPlan { sources, stdout: out, stderr: err }
}

/// The files that `cat` reads, each trimmed and unquoted.
pub fn cat_paths(sources: &Vec<String>) -> (r: Vec<String>)
    requires
        forall|i: int| 0 <= i < sources@.len() ==> !lone_quote(#[trigger] sources@[i]@),
    ensures
        r@.len() == sources@.len(),
        forall|i: int| 0 <= i < r@.len() ==> #[trigger] r@[i]@ == unquoted_path(sources@[i]@),
{
    let mut r: Vec<String> = Vec::new();
    let mut k: usize = 0;
    while k < sources.len()
        invariant
            k <= sources.len(),
            r@.len() == k,
            forall|i: int| 0 <= i < sources@.len() ==> !lone_quote(#[trigger] sources@[i]@),
            forall|i: int| 0 <= i < r@.len() ==> #[trigger] r@[i]@ == unquoted_path(sources@[i]@),
        decreases sources.len() - k,
    {
        r.push(unquote_path(sources[k].as_str()));
        k += 1;
    }
    r
}

/// The error line of `cat` for a file it could not read.
pub open spec fn cat_missing_text(path: Seq<char>) -> Seq<char> {
    "cat: "@ + path + ": No such file or directory\n"@
}

/// What `cat` prints on standard output: the contents of the files that
/// were read, in order.
pub open spec fn cat_text(reads: Seq<Option<Seq<char>>>) -> Seq<char>
    decreases reads.len(),
{
    if reads.len() == 0 {
        Seq::empty()
    } else {
        cat_text(reads.drop_last()) + match reads.last() { Some(c) => c, None => Seq::empty() }
    }
}

/// The error lines of `cat`: one for each file that could not be read, in
/// order.
pub open spec fn cat_errors(paths: Seq<Seq<char>>, reads: Seq<Option<Seq<char>>>) -> Seq<Seq<char>>
    decreases reads.len(),
{
    if reads.len() == 0 || paths.len() == 0 {
        Seq::empty()
    } else {
        cat_errors(paths.drop_last(), reads.drop_last())
            + if reads.last() is None { seq![cat_missing_text(paths.last())] } else { Seq::empty() }
    }
}

/// What `cat` prints, given what reading each of its files gave (`None`: the
/// file could not be read): the contents joined, and the error lines.
pub fn cat_output(paths: &Vec<String>, reads: &Vec<Option<String>>) -> (r: (String, Vec<String>))
    requires
        paths.len() == reads.len(),
    ensures
        r.0@ == cat_text(value_views(reads@)),
        views(r.1@) == cat_errors(views(paths@), value_views(reads@)),
{
    let ghost pv = views(paths@);
    let ghost rv = value_views(reads@);
    let mut out: Vec<char> = Vec::new();
    let mut errs: Vec<String> = Vec::new();
    let mut k: usize = 0;
    assert(rv.take(0) =~= Seq::<Option<Seq<char>>>::empty());
    while k < reads.len()
        invariant
            k <= reads.len(),
            paths.len() == reads.len(),
            pv == views(paths@),
            rv == value_views(reads@),
            out@ == cat_text(rv.take(k as int)),
            views(errs@) == cat_errors(pv.take(k as int), rv.take(k as int)),
        decreases reads.len() - k,
    {
        assert(rv.take(k + 1).drop_last() =~= rv.take(k as int));
        assert(pv.take(k + 1).drop_last() =~= pv.take(k as int));
        assert(pv[k as int] == paths@[k as int]@);
        match &reads[k] {
            Some(c) => {
                assert(rv[k as int] == Some(c@));
                let cv = chars_of(c.as_str());
                append_chars(&mut out, &cv);
                assert(views(errs@) =~= cat_errors(pv.take(k + 1), rv.take(k + 1)));
            },
            None => {
                assert(rv[k as int] is None);
                let mut m = chars_of("cat: ");
                append_str(&mut m, paths[k].as_str());
                append_str(&mut m, ": No such file or directory\n");
                let ghost before = views(errs@);
                errs.push(string_of(&m));
                assert(views(errs@) =~= before.push(cat_missing_text(pv[k as int])));
                assert(out@ =~= cat_text(rv.take(k + 1)));
            },
        }
        k += 1;
    }
    assert(rv.take(reads.len() as int) =~= rv);
    assert(pv.take(reads.len() as int) =~= pv);
    (string_of(&out), errs)
}

// ---------------------------------------------------------------- cd

/// Where `cd` goes.
#[derive(Debug, PartialEq)]
pub enum CdTarget {
    /// The home directory.
    Home,
    /// This path under the home directory (`~/path`).
    UnderHome(String),
    /// The path as given.
    Path(String),
}

pub enum CdTargetView {
    Home,
    UnderHome(Seq<char>),
    Path(Seq<char>),
}

impl View for CdTarget {
    type V = CdTargetView;

    open spec fn view(&self) -> CdTargetView {
        match self {
            CdTarget::Home => CdTargetView::Home,
            CdTarget::UnderHome(p) => CdTargetView::UnderHome(p@),
            CdTarget::Path(p) => CdTargetView::Path(p@),
        }
    }
}

/// Where `cd` with this argument goes: home for no argument or `~`, under
/// home for `~/...`, else the argument itself.
pub open spec fn cd_target_of(path: Seq<char>) -> CdTargetView {
    if trim(path).len() == 0 || path == "~"@ {
        CdTargetView::Home
    } else if path.len() >= 2 && path[0] == '~' && path[1] == '/' {
        CdTargetView::UnderHome(path.skip(2))
    } else {
        CdTargetView::Path(path)
    }
}

pub fn cd_target(path: &str) -> (r: CdTarget)
    ensures
        r@ == cd_target_of(path@),
{
    let v = chars_of(path);
    let t = trim_chars(&v);
    if t.len() == 0 || chars_eq_str(&v, "~") {
        CdTarget::Home
    } else if v.len() >= 2 && v[0] == '~' && v[1] == '/' {
        let rest = sub_chars(&v, 2, v.len());
        assert(rest@ =~= path@.skip(2));
        CdTarget::UnderHome(string_of(&rest))
    } else {
        CdTarget::Path(path.to_owned())
    }
}

/// The home directory: `HOME` if it is set, else `USERPROFILE`, else `/`.
pub fn home_dir(home: Option<String>, user_profile: Option<String>) -> (r: String)
    ensures
        r@ == match home {
            Some(h) => h@,
            None => match user_profile { Some(u) => u@, None => "/"@ },
        },
{
    match home {
        Some(h) => h,
        None => match user_profile {
            Some(u) => u,
            None => "/".to_owned(),
        },
    }
}

/// The error line of `cd` for a directory it could not enter.
pub fn cd_error_message(path: &str) -> (r: String)
    ensures
        r@ == "cd: "@ + path@ + ": No such file or directory"@,
{
    let mut m = chars_of("cd: ");
    append_str(&mut m, path);
    append_str(&mut m, ": No such file or directory");
    string_of(&m)
}


// ---------------------------------------------------------------- ls

/// What an `ls` asks for: the directory to list and where its output and
/// its errors go (`None`: standard output for both, as the caller arranges).
#[derive(Debug, PartialEq)]
pub struct LsRequest {
    pub dir: String,
    pub stdout: Redirect,
    pub stderr: Redirect,
}

/// Reads `ls`'s words from `i` on: a redirection operator followed by a word
/// sets that redirection (and consumes the word); one at the end is ignored;
/// any other word becomes the directory.
pub open spec fn ls_scan(
    ws: Seq<Seq<char>>,
    i: int,
    dir: Seq<char>,
    out: Option<(Seq<char>, bool)>,
    err: Option<(Seq<char>, bool)>,
) -> (Seq<char>, Option<(Seq<char>, bool)>, Option<(Seq<char>, bool)>)
    decreases ws.len() - i,
{
    if i < 0 || i >= ws.len() {
        (dir, out, err)
    } else if is_stdout_redirect(ws[i]) {
        if i + 1 < ws.len() {
            ls_scan(ws, i + 2, dir, Some((ws[i + 1], appends(ws[i]))), err)
        } else {
            (dir, out, err)
        }
    } else if is_stderr_redirect(ws[i]) {
        if i + 1 < ws.len() {
            ls_scan(ws, i + 2, dir, out, Some((ws[i + 1], appends(ws[i]))))
        } else {
            (dir, out, err)
        }
    } else {
        ls_scan(ws, i + 1, ws[i], out, err)
    }
}

/// Reads the arguments of `ls`: the directory is `.` unless a word names
/// another (see `ls_scan`).
pub fn parse_ls(command: &str) -> (r: LsRequest)
    ensures
        (r.dir@, redirect_view(r.stdout), redirect_view(r.stderr))
            == ls_scan(split_ws(command@), 0, "."@, None, None),
{
    let v = chars_of(command);
    let words = split_whitespace_chars(&v);
    let ghost wv = cviews(words@);
    let mut dir = chars_of(".");
    let mut out: Option<(Vec<char>, bool)> = None;
    let mut err: Option<(Vec<char>, bool)> = None;
    let mut i: usize = 0;
    while i < words.len()
        invariant
            wv == cviews(words@),
            wv == split_ws(command@),
            ls_scan(wv, 0, "."@, None, None) == ls_scan(wv, i as int, dir@,
                match out { Some((p, a)) => Some((p@, a)), None => None },
                match err { Some((p, a)) => Some((p@, a)), None => None }),
        decreases words.len() - i,
    {
        assert(wv[i as int] == words@[i as int]@);
        let is_out = is_stdout_redirect_exec(&words[i]);
        let is_err = is_stderr_redirect_exec(&words[i]);
        if is_out || is_err {
            if i + 1 < words.len() {
                assert(wv[i + 1] == words@[i + 1]@);
                let target = (words[i + 1].clone(), appends_exec(&words[i]));
                if is_out {
                    out = Some(target);
                } else {
                    err = Some(target);
                }
                i += 2;
            } else {
                i = words.len();
            }
        } else {
            dir = words[i].clone();
            i += 1;
        }
    }
    let stdout = match out {
        Some((p, a)) => Some((string_of(&p), a)),
        None => None,
    };
    let stderr = match err {
        Some((p, a)) => Some((string_of(&p), a)),
        None => None,
    };
    LsRequest { dir: string_of(&dir), stdout, stderr }
}

/// What `ls` prints for the names in a directory: the names in ascending
/// order, one per line.
pub open spec fn ls_text(entries: Seq<Seq<char>>) -> Seq<char> {
    join(sorted(entries), "\n"@) + "\n"@
}

/// The listing of `ls`, given the names of the directory's entries.
pub fn ls_output(entries: &Vec<String>) -> (r: String)
    ensures
        r@ == ls_text(views(entries@)),
{
    let mut words: Vec<Vec<char>> = Vec::new();
    let mut k: usize = 0;
    while k < entries.len()
        invariant
            k <= entries.len(),
            cviews(words@) == views(entries@).take(k as int),
        decreases entries.len() - k,
    {
        let w = chars_of(entries[k].as_str());
        proof { lemma_cviews_push(words@, w); }
        words.push(w);
        assert(cviews(words@) =~= views(entries@).take(k + 1));
        k += 1;
    }
    assert(views(entries@).take(entries.len() as int) =~= views(entries@));
    let sorted_words = sort_words(&words);
    let nl = chars_of("\n");
    let mut out = join_chars(&sorted_words, &nl);
    append_str(&mut out, "\n");
    string_of(&out)
}

/// The error line of `ls` for a directory that does not exist.
pub fn ls_missing_message(dir: &str) -> (r: String)
    ensures
        r@ == "ls: "@ + dir@ + ": No such file or directory\n"@,
{
    let mut m = chars_of("ls: ");
    append_str(&mut m, dir);
    append_str(&mut m, ": No such file or directory\n");
    string_of(&m)
}

/// The error line of `ls` for a path that is not a directory.
pub fn ls_not_dir_message(dir: &str) -> (r: String)
    ensures
        r@ == "ls: "@ + dir@ + ": Not a directory\n"@,
{
    let mut m = chars_of("ls: ");
    append_str(&mut m, dir);
    append_str(&mut m, ": Not a directory\n");
    string_of(&m)
}

/// The error line of `ls` for a directory it could not read, with the
/// reason as the system gave it.
pub fn ls_unreadable_message(dir: &str, reason: &str) -> (r: String)
    ensures
        r@ == "ls: cannot read directory '"@ + dir@ + "': "@ + reason@ + "\n"@,
{
    let mut m = chars_of("ls: cannot read directory '");
    append_str(&mut m, dir);
    append_str(&mut m, "': ");
    append_str(&mut m, reason);
    append_str(&mut m, "\n");
    string_of(&m)
}

// ---------------------------------------------------------------- type

/// What `type NAME` prints: on standard output (`Ok`) for a builtin or an
/// external command, else on standard error (`Err`).
pub open spec fn type_text(name: Seq<char>, denotes: Option<CommandTypeView>) -> Result<Seq<char>, Seq<char>> {
    match denotes {
        Some(CommandTypeView::Builtin) => Ok(name + " is a shell builtin"@),
        Some(CommandTypeView::External(path)) => Ok(name + " is "@ + path),
        _ => Err(name + ": not found"@),
    }
}

/// Handles `type NAME` against the table of known commands.
pub fn run_type_command(cmd: &str, commands: &CommandTable) -> (r: Result<String, String>)
    requires
        commands.wf(),
    ensures
        match r { Ok(s) => Ok(s@), Err(e) => Err(e@) } == type_text(cmd@,
            if commands.map().contains_key(cmd@) { Some(commands.map()[cmd@]) } else { None }),
{
    let mut m = chars_of(cmd);
    match commands.get(cmd) {
        Some(CommandType::Builtin) => {
            append_str(&mut m, " is a shell builtin");
            Ok(string_of(&m))
        },
        Some(CommandType::External(path)) => {
            append_str(&mut m, " is ");
            append_str(&mut m, path.as_str());
            Ok(string_of(&m))
        },
        _ => {
            append_str(&mut m, ": not found");
            Err(string_of(&m))
        },
    }
}

// ---------------------------------------------------------------- here-documents

/// What a here-document does with its command.
#[derive(Debug, PartialEq)]
pub enum HeredocPlan {
    /// No command: nothing happens (exit code 0).
    Nothing,
    /// `cat`: the content is printed as it is (exit code 0).
    Print,
    /// Any other command: run by the system shell with the content as its
    /// standard input.
    Shell(String),
}

pub enum HeredocPlanView {
    Nothing,
    Print,
    Shell(Seq<char>),
}

impl View for HeredocPlan {
    type V = HeredocPlanView;

    open spec fn view(&self) -> HeredocPlanView {
        match self {
            HeredocPlan::Nothing => HeredocPlanView::Nothing,
            HeredocPlan::Print => HeredocPlanView::Print,
            HeredocPlan::Shell(c) => HeredocPlanView::Shell(c@),
        }
    }
}

pub open spec fn heredoc_plan_of(command: Seq<char>) -> HeredocPlanView {
    let c = trim(command);
    let words = split_ws(c);
    if c.len() == 0 || words.len() == 0 {
        HeredocPlanView::Nothing
    } else if words[0] == "cat"@ {
        HeredocPlanView::Print
    } else {
        HeredocPlanView::Shell(c)
    }
}

/// Decides how a here-document's command is run (see `HeredocPlan`).
pub fn heredoc_plan(command: &str) -> (r: HeredocPlan)
    ensures
        r@ == heredoc_plan_of(command@),
{
    let c = trim_str(command);
    let words = split_whitespace_chars(&c);
    if c.len() == 0 || words.len() == 0 {
        HeredocPlan::Nothing
    } else {
        assert(cviews(words@)[0] == words@[0]@);
        if chars_eq_str(&words[0], "cat") {
            HeredocPlan::Print
        } else {
            HeredocPlan::Shell(string_of(&c))
        }
    }
}

// ---------------------------------------------------------------- history

/// `n` spaces.
pub open spec fn spaces(n: nat) -> Seq<char>
    decreases n,
{
    if n == 0 { Seq::empty() } else { spaces((n - 1) as nat).push(' ') }
}

/// `s` padded on the left with spaces to at least `width` characters.
pub open spec fn pad_left(s: Seq<char>, width: nat) -> Seq<char> {
    if s.len() >= width { s } else { spaces((width - s.len()) as nat) + s }
}

/// The line that `history` prints for the command at `index` (from 0): its
/// number from 1, right-aligned in five columns, two spaces, the command.
pub open spec fn history_line_text(index: nat, cmd: Seq<char>) -> Seq<char> {
    pad_left(decimal(index + 1int), 5) + "  "@ + cmd
}

pub fn history_line(index: usize, cmd: &str) -> (r: String)
    requires
        index < usize::MAX,
    ensures
        r@ == history_line_text(index as nat, cmd@),
{
    let n = format_i64_of_usize(index + 1);
    let mut out: Vec<char> = Vec::new();
    if n.len() < 5 {
        let pad = 5 - n.len();
        let mut k: usize = 0;
        while k < pad
            invariant
                k <= pad,
                out@ == spaces(k as nat),
            decreases pad - k,
        {
            out.push(' ');
            k += 1;
        }
    }
    append_chars(&mut out, &n);
    append_str(&mut out, "  ");
    append_str(&mut out, cmd);
    string_of(&out)
}

fn format_i64_of_usize(n: usize) -> (r: Vec<char>)
    ensures
        r@ == decimal(n as int),
{
    let mut v: Vec<char> = Vec::new();
    push_digits(&mut v, n as u64);
    v
}


// ---------------------------------------------------------------- external commands

/// How an external command is run: the program, its arguments, and where
/// its output and its errors go (`None`: inherited).
#[derive(Debug, PartialEq)]
pub struct ExternalPlan {
    pub program: String,
    pub args: Vec<String>,
    pub stdout: Redirect,
    pub stderr: Redirect,
}

/// Reads an external command's words from `i` on: a redirection operator
/// followed by a word sets that redirection (and consumes the word); one at
/// the end is dropped; any other word is an argument.
pub open spec fn external_scan(
    ws: Seq<Seq<char>>,
    i: int,
    args: Seq<Seq<char>>,
    out: Option<(Seq<char>, bool)>,
    err: Option<(Seq<char>, bool)>,
) -> (Seq<Seq<char>>, Option<(Seq<char>, bool)>, Option<(Seq<char>, bool)>)
    decreases ws.len() - i,
{
    if i < 0 || i >= ws.len() {
        (args, out, err)
    } else if is_stdout_redirect(ws[i]) {
        if i + 1 < ws.len() {
            external_scan(ws, i + 2, args, Some((ws[i + 1], appends(ws[i]))), err)
        } else {
            (args, out, err)
        }
    } else if is_stderr_redirect(ws[i]) {
        if i + 1 < ws.len() {
            external_scan(ws, i + 2, args, out, Some((ws[i + 1], appends(ws[i]))))
        } else {
            (args, out, err)
        }
    } else {
        external_scan(ws, i + 1, args.push(ws[i]), out, err)
    }
}

/// Plans an external command from its words (the program first): `None`
/// when there are none ("Error: no command provided").
pub fn external_plan(words: &Vec<String>) -> (r: Option<ExternalPlan>)
    ensures
        match r {
            Some(p) => words@.len() > 0
                && p.program@ == words@[0]@
                && (views(p.args@), redirect_view(p.stdout), redirect_view(p.stderr))
                    == external_scan(views(words@), 1, Seq::empty(), None, None),
            None => words@.len() == 0,
        },
{
    if words.len() == 0 {
        return None;
    }
    let ghost wv = views(words@);
    let mut args: Vec<String> = Vec::new();
    let mut out: Option<(String, bool)> = None;
    let mut err: Option<(String, bool)> = None;
    let mut i: usize = 1;
    assert(views(args@) =~= Seq::<Seq<char>>::empty());
    while i < words.len()
        invariant
            wv == views(words@),
            1 <= i,
            external_scan(wv, 1, Seq::empty(), None, None) == external_scan(wv, i as int, views(args@),
                redirect_view(out), redirect_view(err)),
        decreases words.len() - i,
    {
        let w = chars_of(words[i].as_str());
        assert(wv[i as int] == w@);
        let is_out = is_stdout_redirect_exec(&w);
        let is_err = is_stderr_redirect_exec(&w);
        if is_out || is_err {
            if i + 1 < words.len() {
                assert(wv[i + 1] == words@[i + 1]@);
                let target = (words[i + 1].clone(), appends_exec(&w));
                if is_out {
                    out = Some(target);
                } else {
                    err = Some(target);
                }
                i += 2;
            } else {
                i = words.len();
            }
        } else {
            let ghost before = views(args@);
            args.push(words[i].clone());
            assert(views(args@) =~= before.push(wv[i as int]));
            i += 1;
        }
    }
    Some(ExternalPlan { program: words[0].clone(), args, stdout: out, stderr: err })
}

/// The error line for a command name that is not known.
pub fn not_found_message(name: &str) -> (r: String)
    ensures
        r@ == name@ + ": command not found"@,
{
    let mut m = chars_of(name);
    append_str(&mut m, ": command not found");
    string_of(&m)
}

// ---------------------------------------------------------------- pipelines

/// Why a command cannot be a stage of a pipeline, if it cannot.
pub open spec fn pipeline_stage_error_of(cmd: CommandView) -> Option<Seq<char>> {
    match cmd {
        CommandView::Exit(_) => Some("exit cannot be used in a pipeline"@),
        CommandView::CD(_) => Some("cd cannot be used in a pipeline"@),
        CommandView::Unknown(name) => Some(name + ": command not found"@),
        CommandView::Pipeline(_) => Some("Nested pipelines are not supported"@),
        _ => None,
    }
}

/// The error line that stops a pipeline at a stage with this command, if
/// the command cannot be a stage.
pub fn pipeline_stage_error(cmd: &Command) -> (r: Option<String>)
    ensures
        match r { Some(m) => Some(m@), None => None } == pipeline_stage_error_of(cmd@),
{
    match cmd {
        Command::Exit(_) => Some("exit cannot be used in a pipeline".to_owned()),
        Command::CD(_) => Some("cd cannot be used in a pipeline".to_owned()),
        Command::Unknown(name) => Some(not_found_message(name.as_str())),
        Command::Pipeline(_) => Some("Nested pipelines are not supported".to_owned()),
        _ => None,
    }
}

} // verus!
