//! Parsing a command line into a [`Command`]: alias and variable expansion,
//! chains and pipelines, tokenizing with quotes and escapes, tilde, brace and
//! glob expansion of unquoted words, and classification by the command name.
use vstd::prelude::*;
use crate::alias::{alias_expansion, expand_alias, first_ws, first_ws_from, index_of, index_of_exec, AliasTable};
use crate::builtins::{is_valid_var_name, valid_var_name};
use crate::braces::{brace_expansion, expand_braces_chars};
use crate::command::{Command, CommandTable, CommandTypeView, CommandView};
use crate::expand::{
    escape_backslashes, expand_tilde, expand_variables, expanded, expansion_pieces, is_name_char, lookup, lookup_or_empty,
    piece_text, push_piece, read_pieces, render, substituted_commands, text_step, tilde_expansion, ContextView, ExpansionContext, ExpansionView, ReadMode,
};
use crate::number::{parse_i32, parse_i32_spec};
use crate::order::{sort_words, sorted};
use crate::split::{chain_parts, is_chain_char, pipeline_segments, split_chain, split_pipeline};
use crate::text::{
    append_str, char_is_alphanumeric, char_is_whitespace, chars_eq_str, chars_of, contains_char, cviews, has_char, join, join_chars, lemma_cviews_push,
    lemma_skip_step, string_of, strings_of, trim, trim_end, trim_start, trim_str, views,
};

verus! {

/// What parsing reads from the outside world: what expansion needs, the
/// external commands found on `PATH`, for each glob pattern the paths it
/// matched (a pattern left out matched nothing), and whether a command name
/// may also be found with `.exe` added (as on Windows).
pub struct ShellEnv {
    pub expansion: ExpansionContext,
    pub commands: CommandTable,
    pub globs: Vec<(String, Vec<String>)>,
    pub exe_suffix: bool,
}

pub struct EnvView {
    pub expansion: ContextView,
    pub commands: Map<Seq<char>, CommandTypeView>,
    pub globs: Seq<(Seq<char>, Seq<Seq<char>>)>,
    pub exe_suffix: bool,
}

impl View for ShellEnv {
    type V = EnvView;

    open spec fn view(&self) -> EnvView {
        EnvView {
            expansion: self.expansion@,
            commands: self.commands.map(),
            globs: self.globs@.map_values(|g: (String, Vec<String>)| (g.0@, views(g.1@))),
            exe_suffix: self.exe_suffix,
        }
    }
}

/// The backslash escapes that double quotes honour: `\\`, `\"`, `\$`, `` \` ``.
pub open spec fn dq_escapable(c: char) -> bool {
    c == '\\' || c == '"' || c == '$' || c == '`'
}

/// One step of the tokenizer: characters taken, the new quote state, the new
/// word being read and whether it holds quoted characters, and the word it
/// completes, if any.
pub struct TokStep {
    pub taken: int,
    pub sq: bool,
    pub dq: bool,
    pub cur: Seq<char>,
    pub hq: bool,
    pub word: Option<(Seq<char>, bool)>,
}

/// The step that the tokenizer takes on `s` (not empty). Quotes are removed;
/// a backslash keeps the next character (and stays itself inside single
/// quotes, and inside double quotes before a character they do not escape);
/// an unquoted space ends a word.
pub open spec fn tok_step(s: Seq<char>, sq: bool, dq: bool, cur: Seq<char>, hq: bool) -> TokStep {
    let c = s[0];
    if c == '\\' {
        if s.len() >= 2 {
            let nx = s[1];
            let cur1 = if sq || (dq && !dq_escapable(nx)) { cur.push('\\') } else { cur };
            TokStep { taken: 2, sq, dq, cur: cur1.push(nx), hq: hq || sq || dq, word: None }
        } else {
            TokStep { taken: 1, sq, dq, cur, hq, word: None }
        }
    } else if c == '\'' && !dq {
        TokStep { taken: 1, sq: !sq, dq, cur, hq, word: None }
    } else if c == '"' && !sq {
        TokStep { taken: 1, sq, dq: !dq, cur, hq, word: None }
    } else if c == ' ' && !sq && !dq {
        if cur.len() > 0 {
            TokStep { taken: 1, sq, dq, cur: Seq::empty(), hq: false, word: Some((cur, hq)) }
        } else {
            TokStep { taken: 1, sq, dq, cur, hq, word: None }
        }
    } else {
        TokStep { taken: 1, sq, dq, cur: cur.push(c), hq: hq || sq || dq, word: None }
    }
}

pub open spec fn push_word(toks: Seq<(Seq<char>, bool)>, w: Option<(Seq<char>, bool)>) -> Seq<(Seq<char>, bool)> {
    match w {
        Some(x) => toks.push(x),
        None => toks,
    }
}

/// The words of `s`, each with whether it held a quoted character.
pub open spec fn tok_scan(s: Seq<char>, sq: bool, dq: bool, cur: Seq<char>, hq: bool, toks: Seq<(Seq<char>, bool)>) -> Seq<(Seq<char>, bool)>
    decreases s.len(),
{
    if s.len() == 0 {
        if cur.len() > 0 { toks.push((cur, hq)) } else { toks }
    } else {
        let st = tok_step(s, sq, dq, cur, hq);
        tok_scan(s.skip(st.taken), st.sq, st.dq, st.cur, st.hq, push_word(toks, st.word))
    }
}

pub open spec fn tokens(s: Seq<char>) -> Seq<(Seq<char>, bool)> {
    tok_scan(trim(s), false, false, Seq::empty(), false, Seq::empty())
}

/// The paths that the glob pattern `p` matched, if it is in the table.
pub open spec fn lookup_glob(globs: Seq<(Seq<char>, Seq<Seq<char>>)>, p: Seq<char>) -> Option<Seq<Seq<char>>>
    decreases globs.len(),
{
    if globs.len() == 0 {
        None
    } else if globs[0].0 == p {
        Some(globs[0].1)
    } else {
        lookup_glob(globs.drop_first(), p)
    }
}

pub open spec fn has_glob_chars(w: Seq<char>) -> bool {
    has_char(w, '*') || has_char(w, '?') || has_char(w, '[')
}

/// A word after glob expansion: its matches in ascending order, or the word
/// itself when it has no glob character or matched nothing.
pub open spec fn glob_word(w: Seq<char>, globs: Seq<(Seq<char>, Seq<Seq<char>>)>) -> Seq<Seq<char>> {
    if !has_glob_chars(w) {
        seq![w]
    } else {
        match lookup_glob(globs, w) {
            Some(ms) => if ms.len() == 0 { seq![w] } else { sorted(ms) },
            None => seq![w],
        }
    }
}

pub open spec fn glob_all(ws: Seq<Seq<char>>, globs: Seq<(Seq<char>, Seq<Seq<char>>)>) -> Seq<Seq<char>>
    decreases ws.len(),
{
    if ws.len() == 0 {
        Seq::empty()
    } else {
        glob_all(ws.drop_last(), globs) + glob_word(ws.last(), globs)
    }
}

/// The words that a token becomes: a quoted token stays as it is; an unquoted
/// one gets tilde expansion, then brace expansion (when it holds both `{` and
/// `}`), then glob expansion of each result.
pub open spec fn word_expansion(tok: (Seq<char>, bool), env: EnvView) -> Seq<Seq<char>> {
    if tok.1 {
        seq![tok.0]
    } else {
        let t = tilde_expansion(tok.0, false, env.expansion.home);
        let bs = if has_char(t, '{') && has_char(t, '}') { brace_expansion(t) } else { seq![t] };
        glob_all(bs, env.globs)
    }
}

pub open spec fn expand_words(toks: Seq<(Seq<char>, bool)>, env: EnvView) -> Seq<Seq<char>>
    decreases toks.len(),
{
    if toks.len() == 0 {
        Seq::empty()
    } else {
        expand_words(toks.drop_last(), env) + word_expansion(toks.last(), env)
    }
}

pub open spec fn is_redirect(w: Seq<char>) -> bool {
    w == ">"@ || w == ">>"@ || w == "1>"@ || w == "1>>"@ || w == "2>"@ || w == "2>>"@
}

/// A word `NAME=VALUE` whose name (before the first `=`) is a valid
/// variable name, as (name, value).
pub open spec fn assignment_of(w: Seq<char>) -> Option<(Seq<char>, Seq<char>)> {
    match index_of(w, '=') {
        Some(p) => if valid_var_name(w.take(p)) { Some((w.take(p), w.skip(p + 1))) } else { None },
        None => None,
    }
}

fn assignment_exec(w: &Vec<char>) -> (r: Option<(String, String)>)
    ensures
        match r {
            Some((n, v)) => assignment_of(w@) == Some((n@, v@)),
            None => assignment_of(w@) is None,
        },
{
    match index_of_exec(w, '=') {
        Some(p) => {
            let name = string_of(&crate::text::sub_chars(w, 0, p));
            assert(name@ =~= w@.take(p as int));
            if is_valid_var_name(name.as_str()) {
                let value = string_of(&crate::text::sub_chars(w, p + 1, w.len()));
                assert(value@ =~= w@.skip(p + 1));
                Some((name, value))
            } else {
                None
            }
        },
        None => None,
    }
}

/// The command that the words (not empty) make: builtins by name, `echo`
/// without a redirection as the external `echo` when there is one, other names
/// as external commands when they are on `PATH`, else unknown. A first word
/// `NAME=VALUE` with a valid name sets that variable to VALUE joined with the
/// remaining words (so that a substitution's words stay in the value). The
/// arguments of most builtins are the remaining words joined with spaces.
pub open spec fn classify(parts: Seq<Seq<char>>, env: EnvView) -> CommandView {
    let cmd = parts[0];
    let rest = parts.drop_first();
    let args = join(rest, " "@);
    if cmd == "exit"@ {
        CommandView::Exit(match parse_i32_spec(args) { Some(v) => v, None => 0 })
    } else if cmd == "echo"@ {
        if exists|i: int| 0 <= i < rest.len() && is_redirect(#[trigger] rest[i]) {
            CommandView::Echo(args)
        } else if env.commands.contains_key("echo"@) {
            CommandView::External(parts)
        } else {
            CommandView::Echo(args)
        }
    } else if cmd == "type"@ {
        CommandView::Type(args)
    } else if cmd == "pwd"@ {
        CommandView::PWD
    } else if cmd == "cd"@ {
        CommandView::CD(args)
    } else if cmd == "export"@ {
        CommandView::Export(args)
    } else if cmd == "unset"@ {
        CommandView::Unset(args)
    } else if cmd == "cat"@ {
        CommandView::Cat(parts)
    } else if cmd == "ls"@ {
        CommandView::Ls(args)
    } else if cmd == "clear"@ {
        CommandView::Clear
    } else if cmd == "history"@ {
        CommandView::History
    } else if cmd == "alias"@ {
        CommandView::Alias(args)
    } else if cmd == "unalias"@ {
        CommandView::Unalias(args)
    } else if assignment_of(cmd) is Some {
        let (name, value) = assignment_of(cmd)->0;
        CommandView::Assign(name, join(seq![value] + rest, " "@))
    } else if env.commands.contains_key(cmd) || (env.exe_suffix && env.commands.contains_key(cmd + ".exe"@)) {
        CommandView::External(parts)
    } else {
        CommandView::Unknown(cmd)
    }
}

/// A single command (no chain or pipeline detection).
pub open spec fn single_command(s: Seq<char>, env: EnvView) -> Option<CommandView> {
    let parts = expand_words(tokens(s), env);
    if trim(s).len() == 0 || parts.len() == 0 {
        None
    } else {
        Some(classify(parts, env))
    }
}

/// A command line: aliases, then variables are expanded; a line with chain
/// operators is a chain, else one with pipes a pipeline, else one command.
pub open spec fn parsed_command(s: Seq<char>, last_exit_code: i32, aliases: Map<Seq<char>, Seq<char>>, env: EnvView) -> Option<CommandView> {
    if trim(s).len() == 0 {
        None
    } else {
        let e = expanded(alias_expansion(s, 0, aliases), last_exit_code, env.expansion);
        if chain_parts(e).1.len() > 0 {
            Some(CommandView::Chain { commands: chain_parts(e).0, operators: chain_parts(e).1 })
        } else if pipeline_segments(e).len() > 1 {
            Some(CommandView::Pipeline(pipeline_segments(e)))
        } else {
            single_command(e, env)
        }
    }
}

pub open spec fn tviews(v: Seq<(Vec<char>, bool)>) -> Seq<(Seq<char>, bool)> {
    v.map_values(|t: (Vec<char>, bool)| (t.0@, t.1))
}

/// Splits `s` into words, noting which held quoted characters.
pub fn tokenize(s: &Vec<char>) -> (r: Vec<(Vec<char>, bool)>)
    ensures
        tviews(r@) == tok_scan(s@, false, false, Seq::empty(), false, Seq::empty()),
{
    let n = s.len();
    let mut toks: Vec<(Vec<char>, bool)> = Vec::new();
    let mut cur: Vec<char> = Vec::new();
    let mut sq = false;
    let mut dq = false;
    let mut hq = false;
    let mut i: usize = 0;
    let ghost full = tok_scan(s@, false, false, Seq::empty(), false, Seq::empty());
    assert(s@.skip(0) =~= s@);
    assert(tviews(toks@) =~= Seq::<(Seq<char>, bool)>::empty());
    while i < n
        invariant
            n == s.len(),
            i <= n,
            full == tok_scan(s@.skip(i as int), sq, dq, cur@, hq, tviews(toks@)),
        decreases n - i,
    {
        proof { lemma_skip_step(s@, i as int); }
        let c = s[i];
        let ghost old_toks = toks@;
        if c == '\\' {
            if i + 1 < n {
                let nx = s[i + 1];
                if sq || (dq && !(nx == '\\' || nx == '"' || nx == '$' || nx == '`')) {
                    cur.push('\\');
                }
                hq = hq || sq || dq;
                cur.push(nx);
                i += 2;
            } else {
                i += 1;
            }
        } else if c == '\'' && !dq {
            sq = !sq;
            i += 1;
        } else if c == '"' && !sq {
            dq = !dq;
            i += 1;
        } else if c == ' ' && !sq && !dq {
            if cur.len() > 0 {
                toks.push((cur, hq));
                assert(tviews(toks@) =~= tviews(old_toks).push((cur@, hq)));
                cur = Vec::new();
                hq = false;
            }
            i += 1;
        } else {
            hq = hq || sq || dq;
            cur.push(c);
            i += 1;
        }
    }
    if cur.len() > 0 {
        let ghost old_toks = toks@;
        toks.push((cur, hq));
        assert(tviews(toks@) =~= tviews(old_toks).push((cur@, hq)));
    }
    toks
}


/// Appends the words of `w` to `r`.
pub fn append_words(r: &mut Vec<Vec<char>>, w: &Vec<Vec<char>>)
    ensures
        cviews(final(r)@) == cviews(old(r)@) + cviews(w@),
{
    let mut j: usize = 0;
    while j < w.len()
        invariant
            j <= w.len(),
            cviews(r@) == cviews(old(r)@) + cviews(w@).take(j as int),
        decreases w.len() - j,
    {
        proof {
            lemma_cviews_push(r@, w@[j as int]);
            assert(cviews(old(r)@) + cviews(w@).take(j + 1) =~= (cviews(old(r)@) + cviews(w@).take(j as int)).push(w@[j as int]@));
        }
        r.push(w[j].clone());
        j += 1;
    }
    assert(cviews(w@).take(w.len() as int) =~= cviews(w@));
}

pub open spec fn glob_views(g: Seq<(String, Vec<String>)>) -> Seq<(Seq<char>, Seq<Seq<char>>)> {
    g.map_values(|e: (String, Vec<String>)| (e.0@, views(e.1@)))
}

fn lookup_glob_exec(globs: &Vec<(String, Vec<String>)>, w: &Vec<char>) -> (r: Option<Vec<Vec<char>>>)
    ensures
        match r {
            Some(ms) => lookup_glob(glob_views(globs@), w@) == Some(cviews(ms@)),
            None => lookup_glob(glob_views(globs@), w@) is None,
        },
{
    let ghost gv = glob_views(globs@);
    let mut i: usize = 0;
    assert(gv.skip(0) =~= gv);
    while i < globs.len()
        invariant
            i <= globs.len(),
            gv == glob_views(globs@),
            lookup_glob(gv, w@) == lookup_glob(gv.skip(i as int), w@),
        decreases globs.len() - i,
    {
        assert(gv.skip(i as int).drop_first() =~= gv.skip(i + 1));
        let key = chars_of(globs[i].0.as_str());
        if crate::text::chars_eq(&key, w) {
            let ms = &globs[i].1;
            let mut out: Vec<Vec<char>> = Vec::new();
            let mut k: usize = 0;
            while k < ms.len()
                invariant
                    k <= ms.len(),
                    out@.len() == k,
                    forall|j: int| 0 <= j < k ==> #[trigger] out@[j]@ == ms@[j]@,
                decreases ms.len() - k,
            {
                out.push(chars_of(ms[k].as_str()));
                k += 1;
            }
            assert(cviews(out@) =~= views(ms@));
            return Some(out);
        }
        i += 1;
    }
    None
}

fn has_glob_chars_exec(w: &Vec<char>) -> (r: bool)
    ensures
        r == has_glob_chars(w@),
{
    contains_char(w, '*') || contains_char(w, '?') || contains_char(w, '[')
}

fn glob_word_exec(w: &Vec<char>, globs: &Vec<(String, Vec<String>)>) -> (r: Vec<Vec<char>>)
    ensures
        cviews(r@) == glob_word(w@, glob_views(globs@)),
{
    let mut single: Vec<Vec<char>> = Vec::new();
    single.push(w.clone());
    assert(cviews(single@) =~= seq![w@]);
    if !has_glob_chars_exec(w) {
        return single;
    }
    match lookup_glob_exec(globs, w) {
        Some(ms) => {
            if ms.len() == 0 {
                single
            } else {
                sort_words(&ms)
            }
        },
        None => single,
    }
}

/// The words that a token becomes (see `word_expansion`).
fn word_expansion_exec(tok: &(Vec<char>, bool), env: &ShellEnv) -> (r: Vec<Vec<char>>)
    ensures
        cviews(r@) == word_expansion((tok.0@, tok.1), env@),
{
    if tok.1 {
        let mut r: Vec<Vec<char>> = Vec::new();
        r.push(tok.0.clone());
        assert(cviews(r@) =~= seq![tok.0@]);
        return r;
    }
    let t = expand_tilde(&tok.0, false, &env.expansion.home);
    let bs = if contains_char(&t, '{') && contains_char(&t, '}') {
        expand_braces_chars(&t)
    } else {
        let mut one: Vec<Vec<char>> = Vec::new();
        one.push(t.clone());
        assert(cviews(one@) =~= seq![t@]);
        one
    };
    let ghost bv = cviews(bs@);
    let mut r: Vec<Vec<char>> = Vec::new();
    let mut k: usize = 0;
    assert(cviews(r@) =~= glob_all(bv.take(0), env@.globs));
    while k < bs.len()
        invariant
            k <= bs.len(),
            bv == cviews(bs@),
            cviews(r@) == glob_all(bv.take(k as int), glob_views(env.globs@)),
        decreases bs.len() - k,
    {
        let g = glob_word_exec(&bs[k], &env.globs);
        append_words(&mut r, &g);
        assert(bv.take(k + 1).drop_last() =~= bv.take(k as int));
        k += 1;
    }
    assert(bv.take(bs.len() as int) =~= bv);
    r
}

/// The words that the tokens become, in order.
fn expand_words_exec(toks: &Vec<(Vec<char>, bool)>, env: &ShellEnv) -> (r: Vec<Vec<char>>)
    ensures
        cviews(r@) == expand_words(tviews(toks@), env@),
{
    let ghost tv = tviews(toks@);
    let mut r: Vec<Vec<char>> = Vec::new();
    let mut k: usize = 0;
    assert(cviews(r@) =~= expand_words(tv.take(0), env@));
    while k < toks.len()
        invariant
            k <= toks.len(),
            tv == tviews(toks@),
            cviews(r@) == expand_words(tv.take(k as int), env@),
        decreases toks.len() - k,
    {
        let w = word_expansion_exec(&toks[k], env);
        append_words(&mut r, &w);
        assert(tv.take(k + 1).drop_last() =~= tv.take(k as int));
        assert(tv.take(k + 1).last() == (toks@[k as int].0@, toks@[k as int].1));
        k += 1;
    }
    assert(tv.take(toks.len() as int) =~= tv);
    r
}

fn is_redirect_exec(w: &Vec<char>) -> (r: bool)
    ensures
        r == is_redirect(w@),
{
    chars_eq_str(w, ">") || chars_eq_str(w, ">>") || chars_eq_str(w, "1>") || chars_eq_str(w, "1>>")
        || chars_eq_str(w, "2>") || chars_eq_str(w, "2>>")
}

/// The command that the words make (see `classify`).
fn classify_exec(parts: &Vec<Vec<char>>, env: &ShellEnv) -> (r: Command)
    requires
        parts.len() > 0,
        env.commands.wf(),
    ensures
        r@ == classify(cviews(parts@), env@),
{
    let ghost pv = cviews(parts@);
    let cmd = &parts[0];
    let rest = crate::text::sub_words(parts, 1, parts.len());
    assert(cviews(rest@) =~= pv.drop_first());
    let space = chars_of(" ");
    let args_v = join_chars(&rest, &space);
    let args = string_of(&args_v);
    if chars_eq_str(cmd, "exit") {
        let code = match parse_i32(&args_v) {
            Some(v) => v,
            None => 0,
        };
        Command::Exit(code)
    } else if chars_eq_str(cmd, "echo") {
        let mut has_redirect = false;
        let mut i: usize = 0;
        while i < rest.len()
            invariant
                i <= rest.len(),
                has_redirect == exists|k: int| 0 <= k < i && is_redirect(#[trigger] cviews(rest@)[k]),
            decreases rest.len() - i,
        {
            if is_redirect_exec(&rest[i]) {
                has_redirect = true;
            }
            assert(cviews(rest@)[i as int] == rest@[i as int]@);
            i += 1;
        }
        if has_redirect {
            Command::Echo(args)
        } else if env.commands.contains_key("echo") {
            Command::External(strings_of(parts))
        } else {
            Command::Echo(args)
        }
    } else if chars_eq_str(cmd, "type") {
        Command::Type(args)
    } else if chars_eq_str(cmd, "pwd") {
        Command::PWD
    } else if chars_eq_str(cmd, "cd") {
        Command::CD(args)
    } else if chars_eq_str(cmd, "export") {
        Command::Export(args)
    } else if chars_eq_str(cmd, "unset") {
        Command::Unset(args)
    } else if chars_eq_str(cmd, "cat") {
        Command::Cat(strings_of(parts))
    } else if chars_eq_str(cmd, "ls") {
        Command::Ls(args)
    } else if chars_eq_str(cmd, "clear") {
        Command::Clear
    } else if chars_eq_str(cmd, "history") {
        Command::History
    } else if chars_eq_str(cmd, "alias") {
        Command::Alias(args)
    } else if chars_eq_str(cmd, "unalias") {
        Command::Unalias(args)
    } else {
        match assignment_exec(cmd) {
            Some((n, v)) => {
                let mut words = crate::text::sub_words(parts, 0, parts.len());
                assert(cviews(words@) =~= pv);
                words.set(0, chars_of(v.as_str()));
                assert(cviews(words@) =~= seq![v@] + pv.drop_first());
                let value = string_of(&join_chars(&words, &space));
                Command::Assign(n, value)
            },
            None => {
                let name = string_of(cmd);
                let mut with_exe = cmd.clone();
                append_str(&mut with_exe, ".exe");
                let exe_name = string_of(&with_exe);
                if env.commands.contains_key(name.as_str())
                    || (env.exe_suffix && env.commands.contains_key(exe_name.as_str())) {
                    Command::External(strings_of(parts))
                } else {
                    Command::Unknown(name)
                }
            },
        }
    }
}

/// Parses a single command (no chain or pipeline detection): tokenizes the
/// trimmed input, expands the unquoted words and classifies the result.
pub fn parse_single_command(input: &str, env: &ShellEnv) -> (r: Option<Command>)
    requires
        env.commands.wf(),
    ensures
        match r {
            Some(c) => single_command(input@, env@) == Some(c@),
            None => single_command(input@, env@) is None,
        },
{
    let t = trim_str(input);
    if t.len() == 0 {
        return None;
    }
    let toks = tokenize(&t);
    let parts = expand_words_exec(&toks, env);
    if parts.len() == 0 {
        return None;
    }
    Some(classify_exec(&parts, env))
}

/// Parses a command line: expands aliases, then variables and command
/// substitutions; a line with `&&`, `||` or `;` becomes a chain, else one
/// with `|` a pipeline, else a single command.
pub fn parse_command_with_exit_code(input: &str, last_exit_code: i32, aliases: &AliasTable, env: &ShellEnv) -> (r: Option<Command>)
    requires
        aliases.wf(),
        env.commands.wf(),
    ensures
        match r {
            Some(c) => parsed_command(input@, last_exit_code, aliases.map(), env@) == Some(c@),
            None => parsed_command(input@, last_exit_code, aliases.map(), env@) is None,
        },
{
    let t = trim_str(input);
    if t.len() == 0 {
        return None;
    }
    let aliased = expand_alias(input, 0, aliases);
    let e = expand_variables(aliased.as_str(), last_exit_code, &env.expansion);
    match split_chain(e.as_str()) {
        Some((commands, operators)) => {
            return Some(Command::Chain { commands, operators });
        },
        None => {},
    }
    match split_pipeline(e.as_str()) {
        Some(segments) => Some(Command::Pipeline(segments)),
        None => parse_single_command(e.as_str(), env),
    }
}

/// Parses a command line with `0` as the last exit code.
pub fn parse_command(input: &str, aliases: &AliasTable, env: &ShellEnv) -> (r: Option<Command>)
    requires
        aliases.wf(),
        env.commands.wf(),
    ensures
        match r {
            Some(c) => parsed_command(input@, 0, aliases.map(), env@) == Some(c@),
            None => parsed_command(input@, 0, aliases.map(), env@) is None,
        },
{
    parse_command_with_exit_code(input, 0, aliases, env)
}


// ---------------------------------------------------------------- glob patterns to match

/// The words of an unquoted token before glob expansion: tilde expansion,
/// then brace expansion when it holds both `{` and `}`.
pub open spec fn unglobbed_words(w: Seq<char>, home: Option<Seq<char>>) -> Seq<Seq<char>> {
    let t = tilde_expansion(w, false, home);
    if has_char(t, '{') && has_char(t, '}') { brace_expansion(t) } else { seq![t] }
}

/// The words that hold a glob character, in order.
pub open spec fn glob_filter(ws: Seq<Seq<char>>) -> Seq<Seq<char>>
    decreases ws.len(),
{
    if ws.len() == 0 {
        Seq::empty()
    } else {
        glob_filter(ws.drop_last()) + if has_glob_chars(ws.last()) { seq![ws.last()] } else { Seq::empty() }
    }
}

/// The glob patterns that the unquoted tokens give, in order: what must be
/// matched against the file system before the tokens are expanded.
pub open spec fn glob_candidates(toks: Seq<(Seq<char>, bool)>, home: Option<Seq<char>>) -> Seq<Seq<char>>
    decreases toks.len(),
{
    if toks.len() == 0 {
        Seq::empty()
    } else {
        glob_candidates(toks.drop_last(), home)
            + if toks.last().1 { Seq::empty() } else { glob_filter(unglobbed_words(toks.last().0, home)) }
    }
}

/// The glob patterns of a command line that parsing meets: none for a blank
/// line, a chain or a pipeline (their parts are parsed on their own), else
/// those of its single command after alias and variable expansion.
pub open spec fn line_glob_candidates(s: Seq<char>, last_exit_code: i32, aliases: Map<Seq<char>, Seq<char>>, env: EnvView) -> Seq<Seq<char>> {
    if trim(s).len() == 0 {
        Seq::empty()
    } else {
        let e = expanded(alias_expansion(s, 0, aliases), last_exit_code, env.expansion);
        if chain_parts(e).1.len() > 0 || pipeline_segments(e).len() > 1 {
            Seq::empty()
        } else {
            glob_candidates(tokens(e), env.expansion.home)
        }
    }
}

fn unglobbed_words_exec(w: &Vec<char>, home: &Option<String>) -> (r: Vec<Vec<char>>)
    ensures
        cviews(r@) == unglobbed_words(w@, match home { Some(h) => Some(h@), None => None }),
{
    let t = expand_tilde(w, false, home);
    if contains_char(&t, '{') && contains_char(&t, '}') {
        expand_braces_chars(&t)
    } else {
        let mut one: Vec<Vec<char>> = Vec::new();
        one.push(t.clone());
        assert(cviews(one@) =~= seq![t@]);
        one
    }
}

fn tokens_glob_patterns(toks: &Vec<(Vec<char>, bool)>, home: &Option<String>) -> (r: Vec<String>)
    ensures
        views(r@) == glob_candidates(tviews(toks@), match home { Some(h) => Some(h@), None => None }),
{
    let ghost tv = tviews(toks@);
    let ghost hv = match home { Some(h) => Some(h@), None => None };
    let mut r: Vec<String> = Vec::new();
    let mut k: usize = 0;
    assert(views(r@) =~= glob_candidates(tv.take(0), hv));
    while k < toks.len()
        invariant
            k <= toks.len(),
            tv == tviews(toks@),
            hv == match home { Some(h) => Some(h@), None => None },
            views(r@) == glob_candidates(tv.take(k as int), hv),
        decreases toks.len() - k,
    {
        assert(tv.take(k + 1).drop_last() =~= tv.take(k as int));
        assert(tv.take(k + 1).last() == (toks@[k as int].0@, toks@[k as int].1));
        if !toks[k].1 {
            let ws = unglobbed_words_exec(&toks[k].0, home);
            let ghost wv = cviews(ws@);
            let ghost base = views(r@);
            let mut j: usize = 0;
            assert(views(r@) =~= base + glob_filter(wv.take(0)));
            while j < ws.len()
                invariant
                    j <= ws.len(),
                    wv == cviews(ws@),
                    views(r@) == base + glob_filter(wv.take(j as int)),
                decreases ws.len() - j,
            {
                assert(wv.take(j + 1).drop_last() =~= wv.take(j as int));
                assert(wv[j as int] == ws@[j as int]@);
                if has_glob_chars_exec(&ws[j]) {
                    let ghost before = views(r@);
                    r.push(string_of(&ws[j]));
                    assert(views(r@) =~= before.push(wv[j as int]));
                    assert(views(r@) =~= base + glob_filter(wv.take(j + 1)));
                } else {
                    assert(glob_filter(wv.take(j + 1)) =~= glob_filter(wv.take(j as int)) + Seq::<Seq<char>>::empty());
                    assert(views(r@) =~= base + glob_filter(wv.take(j + 1)));
                }
                j += 1;
            }
            assert(wv.take(ws.len() as int) =~= wv);
        } else {
            assert(views(r@) =~= glob_candidates(tv.take(k + 1), hv));
        }
        k += 1;
    }
    assert(tv.take(toks.len() as int) =~= tv);
    r
}

/// The glob patterns that parsing `input` as a single command meets (see
/// `glob_candidates`); the caller matches each against the file system and
/// puts the results in `ShellEnv::globs`.
pub fn glob_patterns(input: &str, env: &ShellEnv) -> (r: Vec<String>)
    ensures
        views(r@) == glob_candidates(tokens(input@), env@.expansion.home),
{
    let t = trim_str(input);
    let toks = tokenize(&t);
    tokens_glob_patterns(&toks, &env.expansion.home)
}

/// The glob patterns that `parse_command_with_exit_code` meets on `input`
/// (see `line_glob_candidates`).
pub fn line_glob_patterns(input: &str, last_exit_code: i32, aliases: &AliasTable, env: &ShellEnv) -> (r: Vec<String>)
    requires
        aliases.wf(),
    ensures
        views(r@) == line_glob_candidates(input@, last_exit_code, aliases.map(), env@),
{
    let t = trim_str(input);
    if t.len() == 0 {
        return Vec::new();
    }
    let aliased = expand_alias(input, 0, aliases);
    let e = expand_variables(aliased.as_str(), last_exit_code, &env.expansion);
    if split_chain(e.as_str()).is_some() || split_pipeline(e.as_str()).is_some() {
        return Vec::new();
    }
    glob_patterns(e.as_str(), env)
}


// ---------------------------------------------------------------- laws

proof fn lemma_tok_quoted(x: Seq<char>, rest: Seq<char>, q: char, cur: Seq<char>, hq: bool, toks: Seq<(Seq<char>, bool)>)
    requires
        q == '\'' || q == '"',
        forall|i: int| 0 <= i < x.len() ==> x[i] != q && x[i] != '\\',
    ensures
        tok_scan(x + rest, q == '\'', q == '"', cur, hq, toks)
            == tok_scan(rest, q == '\'', q == '"', cur + x, hq || x.len() > 0, toks),
    decreases x.len(),
{
    if x.len() == 0 {
        assert(x + rest =~= rest);
        assert(cur + x =~= cur);
    } else {
        let s = x + rest;
        assert(s[0] == x[0]);
        let st = tok_step(s, q == '\'', q == '"', cur, hq);
        assert(st.taken == 1 && st.sq == (q == '\'') && st.dq == (q == '"') && st.cur == cur.push(x[0]) && st.hq && st.word is None);
        assert(s.skip(1) =~= x.drop_first() + rest);
        lemma_tok_quoted(x.drop_first(), rest, q, cur.push(x[0]), true, toks);
        assert(cur.push(x[0]) + x.drop_first() =~= cur + x);
    }
}

/// A word in single or double quotes, without that quote or a backslash
/// inside, becomes one token with exactly the text between the quotes,
/// spaces included, marked as quoted (so it is not expanded further).
pub proof fn law_quoted_word(x: Seq<char>, q: char)
    requires
        q == '\'' || q == '"',
        x.len() > 0,
        forall|i: int| 0 <= i < x.len() ==> x[i] != q && x[i] != '\\',
    ensures
        tokens(seq![q] + x + seq![q]) == seq![(x, true)],
{
    let s = seq![q] + x + seq![q];
    assert(!char_is_whitespace(q));
    assert(trim_start(s) == s);
    assert(trim_end(s) == s);
    let e = Seq::<(Seq<char>, bool)>::empty();
    let st = tok_step(s, false, false, Seq::empty(), false);
    assert(st.taken == 1 && st.sq == (q == '\'') && st.dq == (q == '"') && st.cur == Seq::<char>::empty() && !st.hq && st.word is None);
    assert(s.skip(1) =~= x + seq![q]);
    lemma_tok_quoted(x, seq![q], q, Seq::empty(), false, e);
    let t = seq![q];
    let st2 = tok_step(t, q == '\'', q == '"', x, true);
    assert(Seq::<char>::empty() + x =~= x);
    assert(st2.taken == 1 && !st2.sq && !st2.dq && st2.cur == x && st2.hq && st2.word is None);
    assert(t.skip(1) =~= Seq::<char>::empty());
    assert(tok_scan(Seq::empty(), false, false, x, true, e) == seq![(x, true)]);
}


proof fn lemma_escape_concat(a: Seq<char>, b: Seq<char>)
    ensures
        escape_backslashes(a + b) == escape_backslashes(a) + escape_backslashes(b),
    decreases b.len(),
{
    if b.len() == 0 {
        assert(a + b =~= a);
        assert(escape_backslashes(a) + escape_backslashes(b) =~= escape_backslashes(a));
    } else {
        lemma_escape_concat(a, b.drop_last());
        assert((a + b).drop_last() =~= a + b.drop_last());
        assert((a + b).last() == b.last());
    }
}

/// Whether `c` is neither whitespace nor a quote.
pub open spec fn plain_char(c: char) -> bool {
    !char_is_whitespace(c) && c != '\'' && c != '"'
}

proof fn lemma_escape_plain(v: Seq<char>)
    requires
        forall|i: int| 0 <= i < v.len() ==> plain_char(#[trigger] v[i]),
    ensures
        forall|i: int| 0 <= i < escape_backslashes(v).len() ==> plain_char(#[trigger] escape_backslashes(v)[i]),
    decreases v.len(),
{
    if v.len() > 0 {
        lemma_escape_plain(v.drop_last());
        let e = escape_backslashes(v.drop_last());
        assert(!char_is_whitespace('\\'));
        assert forall|i: int| 0 <= i < escape_backslashes(v).len() implies plain_char(#[trigger] escape_backslashes(v)[i]) by {
            if i < e.len() {
                assert(escape_backslashes(v)[i] == e[i]);
            } else {
                assert(v[v.len() - 1] == v.last());
            }
        }
    }
}

proof fn lemma_tok_escaped(x: Seq<char>, rest: Seq<char>, cur: Seq<char>, toks: Seq<(Seq<char>, bool)>)
    requires
        forall|i: int| 0 <= i < x.len() ==> plain_char(#[trigger] x[i]),
    ensures
        tok_scan(escape_backslashes(x) + rest, false, false, cur, false, toks)
            == tok_scan(rest, false, false, cur + x, false, toks),
    decreases x.len(),
{
    if x.len() == 0 {
        assert(escape_backslashes(x) + rest =~= rest);
        assert(cur + x =~= cur);
    } else {
        let c = x[0];
        let tail = x.drop_first();
        assert(seq![c] + tail =~= x);
        lemma_escape_concat(seq![c], tail);
        assert(seq![c].drop_last() =~= Seq::<char>::empty());
        let e1 = escape_backslashes(seq![c]);
        assert(escape_backslashes(Seq::<char>::empty()) == Seq::<char>::empty());
        assert(e1 =~= if c == '\\' { seq!['\\', '\\'] } else { seq![c] });
        let s = escape_backslashes(x) + rest;
        assert(s =~= e1 + (escape_backslashes(tail) + rest));
        assert(plain_char(c));
        assert(c != ' ') by { assert(char_is_whitespace(' ')); }
        let st = tok_step(s, false, false, cur, false);
        assert(s[0] == c);
        if c == '\\' {
            assert(s[1] == '\\');
            assert(st.taken == 2 && st.cur == cur.push('\\') && !st.hq && st.word is None);
            assert(s.skip(2) =~= escape_backslashes(tail) + rest);
        } else {
            assert(st.taken == 1 && st.cur == cur.push(c) && !st.hq && st.word is None);
            assert(s.skip(1) =~= escape_backslashes(tail) + rest);
        }
        assert forall|i: int| 0 <= i < tail.len() implies plain_char(#[trigger] tail[i]) by {
            assert(tail[i] == x[i + 1]);
        }
        lemma_tok_escaped(tail, rest, cur.push(c), toks);
        assert(cur.push(c) + tail =~= cur + x);
    }
}

proof fn lemma_read_name(x: Seq<char>, rest: Seq<char>, acc: Seq<char>, out: Seq<ExpansionView>)
    requires
        forall|i: int| 0 <= i < x.len() ==> is_name_char(#[trigger] x[i]),
    ensures
        read_pieces(x + rest, ReadMode::Name, false, false, 0, acc, out)
            == read_pieces(rest, ReadMode::Name, false, false, 0, acc + x, out),
    decreases x.len(),
{
    if x.len() == 0 {
        assert(x + rest =~= rest);
        assert(acc + x =~= acc);
    } else {
        assert((x + rest)[0] == x[0]);
        assert((x + rest).drop_first() =~= x.drop_first() + rest);
        assert(is_name_char(x[0]));
        lemma_read_name(x.drop_first(), rest, acc.push(x[0]), out);
        assert(acc.push(x[0]) + x.drop_first() =~= acc + x);
    }
}

/// Backslashes in a variable's value survive: expansion doubles them and
/// tokenizing undoes that, so a word `$NAME` whose value holds no whitespace
/// or quote becomes exactly that value, as one unquoted token.
pub proof fn law_variable_value_survives(name: Seq<char>, v: Seq<char>, last_exit_code: i32, ctx: ContextView)
    requires
        name.len() > 0,
        forall|i: int| 0 <= i < name.len() ==> is_name_char(#[trigger] name[i]),
        name[0] != '(' && name[0] != '{' && name[0] != '?' && name[0] != '$',
        lookup(ctx.vars, name) == Some(v),
        v.len() > 0,
        forall|i: int| 0 <= i < v.len() ==> plain_char(#[trigger] v[i]),
    ensures
        tokens(expanded(seq!['$'] + name, last_exit_code, ctx)) == seq![(v, false)],
{
    let s = seq!['$'] + name;
    let e = Seq::<ExpansionView>::empty();
    let st = text_step(s, false, false);
    assert(s[0] == '$' && s[1] == name[0]);
    assert(st.taken == 1 && st.mode == ReadMode::Name && st.piece is None);
    assert(s.skip(1) =~= name + Seq::<char>::empty());
    assert(push_piece(e, None) == e);
    lemma_read_name(name, Seq::empty(), Seq::empty(), e);
    assert(Seq::<char>::empty() + name =~= name);
    let ps = e.push(ExpansionView::Variable(name));
    assert(read_pieces(Seq::<char>::empty(), ReadMode::Name, false, false, 0, name, e)
        == read_pieces(Seq::<char>::empty(), ReadMode::Text, false, false, 0, Seq::empty(), ps));
    assert(expansion_pieces(s) == ps);
    assert(ps.drop_last() =~= e);
    assert(lookup_or_empty(ctx.vars, name) == v);
    let w = escape_backslashes(v);
    assert(render(e, last_exit_code, ctx) == Seq::<char>::empty());
    assert(substituted_commands(e).len() == 0);
    assert(render(ps, last_exit_code, ctx) == render(e, last_exit_code, ctx) + piece_text(ExpansionView::Variable(name), last_exit_code, ctx, 0));
    assert(expanded(s, last_exit_code, ctx) =~= w);
    lemma_escape_plain(v);
    assert(w.len() >= v.len()) by {
        lemma_escape_len(v);
    }
    crate::text::lemma_trim_unchanged(w);
    lemma_tok_escaped(v, Seq::empty(), Seq::empty(), Seq::empty());
    assert(w + Seq::<char>::empty() =~= w);
    assert(Seq::<char>::empty() + v =~= v);
}

proof fn lemma_escape_len(v: Seq<char>)
    ensures
        escape_backslashes(v).len() >= v.len(),
    decreases v.len(),
{
    if v.len() > 0 {
        lemma_escape_len(v.drop_last());
    }
}

/// An alias in first-word position is replaced by its value before the line
/// is parsed: the line parses as its expansion would with no aliases defined,
/// when the expansion does not start with an alias again and is not blank.
pub proof fn law_alias_expanded_before_parsing(
    s: Seq<char>,
    last_exit_code: i32,
    aliases: Map<Seq<char>, Seq<char>>,
    env: EnvView,
)
    requires
        trim(s).len() > 0,
        aliases.contains_key(trim(s).take(first_ws(trim(s)))),
        ({
            let u = aliases[trim(s).take(first_ws(trim(s)))] + trim(s).skip(first_ws(trim(s)));
            trim(u).len() > 0 && !aliases.contains_key(trim(u).take(first_ws(trim(u))))
        }),
    ensures
        parsed_command(s, last_exit_code, aliases, env) == parsed_command(
            aliases[trim(s).take(first_ws(trim(s)))] + trim(s).skip(first_ws(trim(s))),
            last_exit_code,
            Map::empty(),
            env,
        ),
{
    let u = aliases[trim(s).take(first_ws(trim(s)))] + trim(s).skip(first_ws(trim(s)));
    crate::alias::law_alias_replaced(s, aliases);
    let t = trim(u);
    assert(!Map::<Seq<char>, Seq<char>>::empty().contains_key(t.take(first_ws(t))));
    assert(alias_expansion(u, 0, Map::empty()) == u);
}

/// A character that nothing in a command line gives a meaning to: not
/// whitespace, a quote, a chain or pipe operator, a brace or a glob character.
pub open spec fn bare_char(c: char) -> bool {
    plain_char(c) && !is_chain_char(c) && c != '{' && c != '}' && c != '*' && c != '?' && c != '['
}

proof fn lemma_escape_bare(v: Seq<char>)
    requires
        forall|i: int| 0 <= i < v.len() ==> bare_char(#[trigger] v[i]),
    ensures
        forall|i: int| 0 <= i < escape_backslashes(v).len() ==> bare_char(#[trigger] escape_backslashes(v)[i]),
    decreases v.len(),
{
    if v.len() > 0 {
        lemma_escape_bare(v.drop_last());
        let e = escape_backslashes(v.drop_last());
        assert(!char_is_whitespace('\\'));
        assert forall|i: int| 0 <= i < escape_backslashes(v).len() implies bare_char(#[trigger] escape_backslashes(v)[i]) by {
            if i < e.len() {
                assert(escape_backslashes(v)[i] == e[i]);
            } else {
                assert(v[v.len() - 1] == v.last());
            }
        }
    }
}

proof fn lemma_escape_none(x: Seq<char>)
    requires
        forall|i: int| 0 <= i < x.len() ==> #[trigger] x[i] != '\\',
    ensures
        escape_backslashes(x) == x,
    decreases x.len(),
{
    if x.len() > 0 {
        lemma_escape_none(x.drop_last());
        assert(x[x.len() - 1] == x.last());
        assert(x.drop_last().push(x.last()) =~= x);
    }
}

proof fn lemma_first_ws_at(t: Seq<char>, i: int, n: int)
    requires
        0 <= i <= n < t.len(),
        forall|k: int| i <= k < n ==> !char_is_whitespace(#[trigger] t[k]),
        char_is_whitespace(t[n]),
    ensures
        first_ws_from(t, i) == n,
    decreases n - i,
{
    if i < n {
        lemma_first_ws_at(t, i + 1, n);
    }
}

/// An unquoted word of bare characters not starting with `~` expands to itself.
proof fn lemma_bare_word(w: Seq<char>, env: EnvView)
    requires
        w.len() > 0,
        forall|i: int| 0 <= i < w.len() ==> bare_char(#[trigger] w[i]),
        w[0] != '~',
    ensures
        word_expansion((w, false), env) == seq![w],
{
    assert(tilde_expansion(w, false, env.expansion.home) == w);
    assert(!has_char(w, '{')) by {
        if has_char(w, '{') {
            let i = choose|i: int| 0 <= i < w.len() && w[i] == '{';
            assert(bare_char(w[i]));
        }
    }
    assert(!has_glob_chars(w)) by {
        if has_char(w, '*') {
            let i = choose|i: int| 0 <= i < w.len() && w[i] == '*';
            assert(bare_char(w[i]));
        }
        if has_char(w, '?') {
            let i = choose|i: int| 0 <= i < w.len() && w[i] == '?';
            assert(bare_char(w[i]));
        }
        if has_char(w, '[') {
            let i = choose|i: int| 0 <= i < w.len() && w[i] == '[';
            assert(bare_char(w[i]));
        }
    }
    assert(seq![w].drop_last() =~= Seq::<Seq<char>>::empty());
    assert(glob_word(w, env.globs) == seq![w]);
    assert(glob_all(Seq::<Seq<char>>::empty(), env.globs) == Seq::<Seq<char>>::empty());
    assert(glob_all(seq![w], env.globs) =~= seq![w]);
}

/// The word of a line `WORD $NAME` is no alias, so alias expansion leaves
/// the line as it is.
proof fn lemma_line_unaliased(word: Seq<char>, name: Seq<char>, aliases: Map<Seq<char>, Seq<char>>)
    requires
        word.len() > 0,
        forall|i: int| 0 <= i < word.len() ==> bare_char(#[trigger] word[i]),
        !aliases.contains_key(word),
    ensures
        trim(word + seq![' ', '$'] + name).len() > 0,
        alias_expansion(word + seq![' ', '$'] + name, 0, aliases) == word + seq![' ', '$'] + name,
{
    let s = word + seq![' ', '$'] + name;
    let n = word.len() as int;
    assert(s[0] == word[0]);
    assert(bare_char(word[0]));
    assert(trim_start(s) == s);
    assert(s[n + 1] == '$');
    crate::text::lemma_trim_end_keeps(s, n + 1);
    let t = trim(s);
    assert(t == trim_end(s));
    assert(t == s.take(t.len() as int) && t.len() > n + 1);
    assert forall|k: int| 0 <= k < n implies !char_is_whitespace(#[trigger] t[k]) by {
        assert(s.take(t.len() as int)[k] == s[k]);
        assert(t[k] == s[k]);
        assert(s[k] == word[k]);
        assert(bare_char(word[k]));
    }
    assert(s.take(t.len() as int)[n] == s[n]);
    assert(t[n] == s[n]);
    assert(t[n] == ' ');
    assert(char_is_whitespace(' '));
    lemma_first_ws_at(t, 0, n);
    assert(t.take(n) =~= word);
}

/// Expansion keeps the word and the space and puts the value, its
/// backslashes doubled, in place of `$NAME`.
proof fn lemma_line_expanded(word: Seq<char>, name: Seq<char>, v: Seq<char>, last_exit_code: i32, ctx: ContextView)
    requires
        forall|i: int| 0 <= i < word.len() ==> bare_char(#[trigger] word[i]) && word[i] != '\\' && word[i] != '$' && word[i] != '`',
        name.len() > 0,
        forall|i: int| 0 <= i < name.len() ==> is_name_char(#[trigger] name[i]),
        name[0] != '(' && name[0] != '{' && name[0] != '?' && name[0] != '$',
        lookup(ctx.vars, name) == Some(v),
    ensures
        expanded(word + seq![' ', '$'] + name, last_exit_code, ctx) == word.push(' ') + escape_backslashes(v),
{
    let s = word + seq![' ', '$'] + name;
    let n = word.len() as int;
    let x = word.push(' ');
    assert(s =~= x + (seq!['$'] + name));
    assert forall|i: int| 0 <= i < x.len() implies #[trigger] x[i] != '$' && x[i] != '`' && x[i] != '\\'
        && x[i] != '\'' && x[i] != '"' by {
        if i < n {
            assert(x[i] == word[i]);
            assert(bare_char(word[i]));
        }
    }
    crate::expand::lemma_read_plain_prefix(x, seq!['$'] + name, Seq::empty());
    let cp = crate::expand::char_pieces(x);
    assert(Seq::<ExpansionView>::empty() + cp =~= cp);
    let r = seq!['$'] + name;
    let st = text_step(r, false, false);
    assert(r[0] == '$' && r[1] == name[0]);
    assert(st.taken == 1 && st.mode == ReadMode::Name && st.piece is None);
    assert(r.skip(1) =~= name + Seq::<char>::empty());
    assert(push_piece(cp, None) == cp);
    lemma_read_name(name, Seq::empty(), Seq::empty(), cp);
    assert(Seq::<char>::empty() + name =~= name);
    let ps = cp.push(ExpansionView::Variable(name));
    assert(read_pieces(Seq::<char>::empty(), ReadMode::Name, false, false, 0, name, cp)
        == read_pieces(Seq::<char>::empty(), ReadMode::Text, false, false, 0, Seq::empty(), ps));
    assert(expansion_pieces(s) == ps);
    assert(ps.drop_last() =~= cp);
    crate::expand::lemma_render_chars(x, last_exit_code, ctx);
    assert(lookup_or_empty(ctx.vars, name) == v);
    assert(expanded(s, last_exit_code, ctx) =~= x + escape_backslashes(v));
}

/// `WORD VALUE`, the value with its backslashes doubled, holds no chain or
/// pipe and is the two words `WORD` and the value.
proof fn lemma_line_words(word: Seq<char>, v: Seq<char>)
    requires
        word.len() > 0,
        forall|i: int| 0 <= i < word.len() ==> bare_char(#[trigger] word[i]) && word[i] != '\\',
        forall|i: int| 0 <= i < v.len() ==> bare_char(#[trigger] v[i]),
    ensures
        chain_parts(word.push(' ') + escape_backslashes(v)).1.len() == 0,
        pipeline_segments(word.push(' ') + escape_backslashes(v)).len() <= 1,
        trim(word.push(' ') + escape_backslashes(v)).len() > 0,
        tokens(word.push(' ') + escape_backslashes(v))
            == if v.len() == 0 { seq![(word, false)] } else { seq![(word, false), (v, false)] },
{
    let n = word.len() as int;
    let w = escape_backslashes(v);
    let e = word.push(' ') + w;
    lemma_escape_bare(v);
    assert(w.len() >= v.len()) by {
        lemma_escape_len(v);
    }
    assert forall|i: int| 0 <= i < e.len() implies bare_char(#[trigger] e[i]) || e[i] == ' ' by {
        if i < n {
            assert(e[i] == word[i]);
        } else if i > n {
            assert(e[i] == w[i - n - 1]);
        }
    }
    assert forall|i: int| 0 <= i < e.len() implies !is_chain_char(#[trigger] e[i]) by {
        assert(bare_char(e[i]) || e[i] == ' ');
    }
    crate::split::law_no_operator_no_chain(e);
    assert forall|i: int| 0 <= i < e.len() implies #[trigger] e[i] != '|' by {
        assert(bare_char(e[i]) || e[i] == ' ');
    }
    crate::split::law_no_bar_no_pipeline(e);
    lemma_escape_none(word);
    assert forall|i: int| 0 <= i < word.len() implies plain_char(#[trigger] word[i]) by {
        assert(bare_char(word[i]));
    }
    assert(e[0] == word[0]);
    assert(bare_char(e[0]));
    if v.len() == 0 {
        assert(w =~= Seq::<char>::empty());
        assert(e =~= word.push(' '));
        assert(trim_start(e) == e);
        assert(char_is_whitespace(' '));
        assert(e.drop_last() =~= word);
        assert(word[word.len() - 1] == word.last());
        assert(bare_char(word[word.len() - 1]));
        assert(trim_end(word) == word);
        assert(trim(e) == word);
        assert(word + Seq::<char>::empty() =~= word);
        lemma_tok_escaped(word, Seq::empty(), Seq::empty(), Seq::empty());
        assert(Seq::<char>::empty() + word =~= word);
        assert(Seq::<(Seq<char>, bool)>::empty().push((word, false)) =~= seq![(word, false)]);
        return;
    }
    assert(e.last() == w.last());
    assert(bare_char(w[w.len() - 1]));
    crate::text::lemma_trim_unchanged(e);
    assert(e =~= escape_backslashes(word) + (seq![' '] + w));
    lemma_tok_escaped(word, seq![' '] + w, Seq::empty(), Seq::empty());
    assert(Seq::<char>::empty() + word =~= word);
    let sp = seq![' '] + w;
    let st2 = tok_step(sp, false, false, word, false);
    assert(sp[0] == ' ');
    assert(st2.taken == 1 && st2.cur == Seq::<char>::empty() && !st2.hq && st2.word == Some((word, false)));
    assert(sp.skip(1) =~= escape_backslashes(v) + Seq::<char>::empty());
    assert forall|i: int| 0 <= i < v.len() implies plain_char(#[trigger] v[i]) by {
        assert(bare_char(v[i]));
    }
    lemma_tok_escaped(v, Seq::empty(), Seq::empty(), seq![(word, false)]);
    assert(Seq::<char>::empty() + v =~= v);
    assert(seq![(word, false)].push((v, false)) =~= seq![(word, false), (v, false)]);
}

/// Backslashes in a variable's value survive the whole parse: a line
/// `WORD $NAME`, whose command word and value hold no character that the
/// shell gives a meaning to, is the command `WORD` with the value, backslashes
/// and all, as its one argument (with no argument when the value is empty);
/// so `cd $DIR` is `cd` to exactly the value.
pub proof fn law_variable_argument_survives(
    word: Seq<char>,
    name: Seq<char>,
    v: Seq<char>,
    last_exit_code: i32,
    aliases: Map<Seq<char>, Seq<char>>,
    env: EnvView,
)
    requires
        word.len() > 0,
        forall|i: int| 0 <= i < word.len() ==> bare_char(#[trigger] word[i]) && word[i] != '\\' && word[i] != '$' && word[i] != '`',
        word[0] != '~',
        !aliases.contains_key(word),
        name.len() > 0,
        forall|i: int| 0 <= i < name.len() ==> is_name_char(#[trigger] name[i]),
        name[0] != '(' && name[0] != '{' && name[0] != '?' && name[0] != '$',
        lookup(env.expansion.vars, name) == Some(v),
        forall|i: int| 0 <= i < v.len() ==> bare_char(#[trigger] v[i]),
        v.len() > 0 ==> v[0] != '~',
    ensures
        parsed_command(word + seq![' ', '$'] + name, last_exit_code, aliases, env)
            == Some(classify(if v.len() == 0 { seq![word] } else { seq![word, v] }, env)),
        word == "cd"@ ==> parsed_command(word + seq![' ', '$'] + name, last_exit_code, aliases, env) == Some(CommandView::CD(v)),
{
    let s = word + seq![' ', '$'] + name;
    lemma_line_unaliased(word, name, aliases);
    lemma_line_expanded(word, name, v, last_exit_code, env.expansion);
    lemma_line_words(word, v);
    let e = word.push(' ') + escape_backslashes(v);
    assert(expanded(alias_expansion(s, 0, aliases), last_exit_code, env.expansion) == e);
    lemma_bare_word(word, env);
    assert(seq![(word, false)].drop_last() =~= Seq::<(Seq<char>, bool)>::empty());
    assert(expand_words(Seq::<(Seq<char>, bool)>::empty(), env) == Seq::<Seq<char>>::empty());
    assert(expand_words(seq![(word, false)], env) =~= seq![word]);
    if v.len() == 0 {
        assert(single_command(e, env) == Some(classify(seq![word], env)));
    } else {
        let tk = seq![(word, false), (v, false)];
        lemma_bare_word(v, env);
        assert(tk.drop_last() =~= seq![(word, false)]);
        assert(expand_words(tk, env) =~= seq![word, v]);
        assert(single_command(e, env) == Some(classify(seq![word, v], env)));
    }
    if word == "cd"@ {
        reveal_strlit("cd");
        reveal_strlit("exit");
        reveal_strlit("echo");
        reveal_strlit("type");
        reveal_strlit("pwd");
        if v.len() == 0 {
            assert(seq![word].drop_first() =~= Seq::<Seq<char>>::empty());
            assert(join(Seq::<Seq<char>>::empty(), " "@) == v);
        } else {
            assert(seq![word, v].drop_first() =~= seq![v]);
            assert(join(seq![v], " "@) == v);
        }
    }
}

proof fn lemma_first_ws_none(t: Seq<char>, i: int)
    requires
        0 <= i <= t.len(),
        forall|k: int| i <= k < t.len() ==> !char_is_whitespace(#[trigger] t[k]),
    ensures
        first_ws_from(t, i) == t.len(),
    decreases t.len() - i,
{
    if i < t.len() {
        lemma_first_ws_none(t, i + 1);
    }
}

/// A line that is just an alias's name parses as the alias's value would with
/// no aliases defined, when that value is not blank and does not start with an
/// alias again: after `alias ll="ls -la"`, the line `ll` is `ls -la`.
pub proof fn law_alias_name_parses_as_value(
    word: Seq<char>,
    last_exit_code: i32,
    aliases: Map<Seq<char>, Seq<char>>,
    env: EnvView,
)
    requires
        word.len() > 0,
        forall|i: int| 0 <= i < word.len() ==> !char_is_whitespace(#[trigger] word[i]),
        aliases.contains_key(word),
        trim(aliases[word]).len() > 0,
        !aliases.contains_key(trim(aliases[word]).take(first_ws(trim(aliases[word])))),
    ensures
        parsed_command(word, last_exit_code, aliases, env) == parsed_command(aliases[word], last_exit_code, Map::empty(), env),
{
    assert(word[word.len() - 1] == word.last());
    crate::text::lemma_trim_unchanged(word);
    lemma_first_ws_none(word, 0);
    assert(word.take(word.len() as int) =~= word);
    assert(word.skip(word.len() as int) =~= Seq::<char>::empty());
    assert(aliases[word] + Seq::<char>::empty() =~= aliases[word]);
    law_alias_expanded_before_parsing(word, last_exit_code, aliases, env);
}

/// A `$NAME` reference reads the whole name, letters, digits and underscores
/// alike: `$MY_VAR` stands for the value of `MY_VAR` (its backslashes doubled
/// for the tokenizer), not for `MY` followed by `_VAR`.
pub proof fn law_whole_name_is_read(name: Seq<char>, v: Seq<char>, last_exit_code: i32, ctx: ContextView)
    requires
        name.len() > 0,
        forall|i: int| 0 <= i < name.len() ==> char_is_alphanumeric(#[trigger] name[i]) || name[i] == '_',
        name[0] != '(' && name[0] != '{' && name[0] != '?' && name[0] != '$',
        lookup(ctx.vars, name) == Some(v),
    ensures
        expanded(seq!['$'] + name, last_exit_code, ctx) == escape_backslashes(v),
        (forall|i: int| 0 <= i < v.len() ==> #[trigger] v[i] != '\\') ==> expanded(seq!['$'] + name, last_exit_code, ctx) == v,
{
    let s = seq!['$'] + name;
    let e = Seq::<ExpansionView>::empty();
    assert forall|i: int| 0 <= i < name.len() implies is_name_char(#[trigger] name[i]) by {
        assert(char_is_alphanumeric(name[i]) || name[i] == '_');
    }
    let st = text_step(s, false, false);
    assert(s[0] == '$' && s[1] == name[0]);
    assert(st.taken == 1 && st.mode == ReadMode::Name && st.piece is None);
    assert(s.skip(1) =~= name + Seq::<char>::empty());
    assert(push_piece(e, None) == e);
    lemma_read_name(name, Seq::empty(), Seq::empty(), e);
    assert(Seq::<char>::empty() + name =~= name);
    let ps = e.push(ExpansionView::Variable(name));
    assert(read_pieces(Seq::<char>::empty(), ReadMode::Name, false, false, 0, name, e)
        == read_pieces(Seq::<char>::empty(), ReadMode::Text, false, false, 0, Seq::empty(), ps));
    assert(expansion_pieces(s) == ps);
    assert(ps.drop_last() =~= e);
    assert(lookup_or_empty(ctx.vars, name) == v);
    assert(render(e, last_exit_code, ctx) == Seq::<char>::empty());
    assert(expanded(s, last_exit_code, ctx) =~= escape_backslashes(v));
    if forall|i: int| 0 <= i < v.len() ==> #[trigger] v[i] != '\\' {
        lemma_escape_none(v);
    }
}

} // verus!
