//! Expansion of `$VAR`, `${VAR}`, `$?`, `$$`, `$(command)` and `` `command` ``
//! in a command line, and of `~` at the start of a word.
//!
//! A command line is first read into expansion pieces; what a piece stands
//! for comes from an [`ExpansionContext`]: the environment's variables, the
//! shell's process id, the outputs of the substituted commands and the home
//! directory, which the caller gathers.
use vstd::prelude::*;
use crate::arith::{arith_eval, arith_value};
use crate::number::{decimal, format_i64};
use crate::text::{
    append_chars, char_is_alphanumeric, chars_of, is_alphanumeric, lemma_skip_step,
    string_of, trim, trim_chars,
};

verus! {

/// A piece of a command line as expansion reads it.
pub enum Expansion {
    /// A character that stays as it is.
    Char(char),
    /// `$NAME` or `${NAME}`.
    Variable(Vec<char>),
    /// `$?`.
    ExitCode,
    /// `$$`.
    ProcessId,
    /// `$(command)` or `` `command` ``, with the command's text.
    Substitution(Vec<char>),
    /// `$((expression))`, with the expression's text.
    Arithmetic(Vec<char>),
}

pub enum ExpansionView {
    Char(char),
    Variable(Seq<char>),
    ExitCode,
    ProcessId,
    Substitution(Seq<char>),
    Arithmetic(Seq<char>),
}

impl View for Expansion {
    type V = ExpansionView;

    open spec fn view(&self) -> ExpansionView {
        match self {
            Expansion::Char(c) => ExpansionView::Char(*c),
            Expansion::Variable(n) => ExpansionView::Variable(n@),
            Expansion::ExitCode => ExpansionView::ExitCode,
            Expansion::ProcessId => ExpansionView::ProcessId,
            Expansion::Substitution(c) => ExpansionView::Substitution(c@),
            Expansion::Arithmetic(e) => ExpansionView::Arithmetic(e@),
        }
    }
}

pub open spec fn pviews(v: Seq<Expansion>) -> Seq<ExpansionView> {
    v.map_values(|e: Expansion| e@)
}

/// What expansion reads from the outside world: the environment's variables
/// (name, value), the shell's process id, the raw output of each substituted
/// command, in the order in which the commands occur (as
/// `command_substitutions` lists them), and the home directory.
pub struct ExpansionContext {
    pub vars: Vec<(String, String)>,
    pub pid: u32,
    pub substitutions: Vec<String>,
    pub home: Option<String>,
}

pub struct ContextView {
    pub vars: Seq<(Seq<char>, Seq<char>)>,
    pub pid: u32,
    pub substitutions: Seq<Seq<char>>,
    pub home: Option<Seq<char>>,
}

pub open spec fn pair_views(v: Seq<(String, String)>) -> Seq<(Seq<char>, Seq<char>)> {
    v.map_values(|p: (String, String)| (p.0@, p.1@))
}

impl View for ExpansionContext {
    type V = ContextView;

    open spec fn view(&self) -> ContextView {
        ContextView {
            vars: pair_views(self.vars@),
            pid: self.pid,
            substitutions: crate::text::views(self.substitutions@),
            home: match &self.home {
                Some(h) => Some(h@),
                None => None,
            },
        }
    }
}

/// The value of the first pair whose name is `key`.
pub open spec fn lookup(pairs: Seq<(Seq<char>, Seq<char>)>, key: Seq<char>) -> Option<Seq<char>>
    decreases pairs.len(),
{
    if pairs.len() == 0 {
        None
    } else if pairs[0].0 == key {
        Some(pairs[0].1)
    } else {
        lookup(pairs.drop_first(), key)
    }
}

pub open spec fn lookup_or_empty(pairs: Seq<(Seq<char>, Seq<char>)>, key: Seq<char>) -> Seq<char> {
    match lookup(pairs, key) {
        Some(v) => v,
        None => Seq::empty(),
    }
}

/// `s` with each backslash doubled, so that it survives tokenizing.
pub open spec fn escape_backslashes(s: Seq<char>) -> Seq<char>
    decreases s.len(),
{
    if s.len() == 0 {
        Seq::empty()
    } else {
        escape_backslashes(s.drop_last()) + (if s.last() == '\\' { seq!['\\', '\\'] } else { seq![s.last()] })
    }
}

/// A command's output without one trailing line break (`\n` or `\r\n`).
pub open spec fn strip_line_break(s: Seq<char>) -> Seq<char> {
    if s.len() > 0 && s.last() == '\n' {
        let t = s.drop_last();
        if t.len() > 0 && t.last() == '\r' { t.drop_last() } else { t }
    } else {
        s
    }
}

/// What the `k`-th (non-blank) substituted command gives: nothing for a
/// blank command, else its output without the trailing line break (nothing
/// when there is no output for it).
pub open spec fn substitution_text(cmd: Seq<char>, ctx: ContextView, k: nat) -> Seq<char> {
    if trim(cmd).len() == 0 || k >= ctx.substitutions.len() {
        Seq::empty()
    } else {
        strip_line_break(ctx.substitutions[k as int])
    }
}

/// What an arithmetic expansion gives: the value in decimal, or nothing when
/// the expression cannot be evaluated.
pub open spec fn arithmetic_text(e: Seq<char>, ctx: ContextView) -> Seq<char> {
    match arith_value(e, ctx.vars) {
        Some(v) => decimal(v),
        None => Seq::empty(),
    }
}

/// What a piece stands for; `k` counts the non-blank substitutions before it.
pub open spec fn piece_text(p: ExpansionView, last_exit_code: i32, ctx: ContextView, k: nat) -> Seq<char> {
    match p {
        ExpansionView::Char(c) => seq![c],
        ExpansionView::Variable(name) => escape_backslashes(lookup_or_empty(ctx.vars, name)),
        ExpansionView::ExitCode => decimal(last_exit_code as int),
        ExpansionView::ProcessId => decimal(ctx.pid as int),
        ExpansionView::Substitution(cmd) => substitution_text(cmd, ctx, k),
        ExpansionView::Arithmetic(e) => arithmetic_text(e, ctx),
    }
}

/// The text that the pieces stand for, in order; each substitution takes
/// the output at its place among the substituted commands.
pub open spec fn render(ps: Seq<ExpansionView>, last_exit_code: i32, ctx: ContextView) -> Seq<char>
    decreases ps.len(),
{
    if ps.len() == 0 {
        Seq::empty()
    } else {
        render(ps.drop_last(), last_exit_code, ctx)
            + piece_text(ps.last(), last_exit_code, ctx, substituted_commands(ps.drop_last()).len())
    }
}

/// Where the reader of expansion pieces stands.
pub enum ReadMode {
    /// Ordinary text.
    Text,
    /// Inside `$( ... )`.
    Paren,
    /// Inside `` ` ... ` ``.
    Tick,
    /// Inside `${ ... }`.
    Braced,
    /// Inside `$(( ... ))`.
    Arith,
    /// After `$`, reading a name.
    Name,
}

pub open spec fn read_rank(m: ReadMode) -> nat {
    match m {
        ReadMode::Text => 0,
        ReadMode::Name => 1,
        _ => 2,
    }
}

pub open spec fn is_name_char(c: char) -> bool {
    char_is_alphanumeric(c) || c == '_'
}

/// One step of reading ordinary text: how many characters it takes, the mode
/// and quote state it leads to, and the piece it gives, if any.
pub struct TextStep {
    pub taken: int,
    pub mode: ReadMode,
    pub sq: bool,
    pub dq: bool,
    pub depth: nat,
    pub piece: Option<ExpansionView>,
}

/// The step that reading `s` (not empty) in ordinary text takes. Single quotes
/// stop expansion; `\$` and `` \` `` stand for the character itself.
pub open spec fn text_step(s: Seq<char>, sq: bool, dq: bool) -> TextStep {
    let c = s[0];
    let two = s.len() >= 2;
    if c == '\\' {
        if !sq && two && (s[1] == '$' || s[1] == '`') {
            TextStep { taken: 2, mode: ReadMode::Text, sq, dq, depth: 0, piece: Some(ExpansionView::Char(s[1])) }
        } else {
            TextStep { taken: 1, mode: ReadMode::Text, sq, dq, depth: 0, piece: Some(ExpansionView::Char(c)) }
        }
    } else if c == '\'' && !dq {
        TextStep { taken: 1, mode: ReadMode::Text, sq: !sq, dq, depth: 0, piece: Some(ExpansionView::Char(c)) }
    } else if c == '"' && !sq {
        TextStep { taken: 1, mode: ReadMode::Text, sq, dq: !dq, depth: 0, piece: Some(ExpansionView::Char(c)) }
    } else if c == '$' && !sq && s.len() >= 3 && s[1] == '(' && s[2] == '(' {
        TextStep { taken: 3, mode: ReadMode::Arith, sq, dq, depth: 0, piece: None }
    } else if c == '$' && !sq && two && s[1] == '(' {
        TextStep { taken: 2, mode: ReadMode::Paren, sq, dq, depth: 1, piece: None }
    } else if c == '$' && !sq && two && s[1] == '{' {
        TextStep { taken: 2, mode: ReadMode::Braced, sq, dq, depth: 0, piece: None }
    } else if c == '$' && !sq && two && s[1] == '?' {
        TextStep { taken: 2, mode: ReadMode::Text, sq, dq, depth: 0, piece: Some(ExpansionView::ExitCode) }
    } else if c == '$' && !sq && two && s[1] == '$' {
        TextStep { taken: 2, mode: ReadMode::Text, sq, dq, depth: 0, piece: Some(ExpansionView::ProcessId) }
    } else if c == '$' && !sq {
        TextStep { taken: 1, mode: ReadMode::Name, sq, dq, depth: 0, piece: None }
    } else if c == '`' && !sq {
        TextStep { taken: 1, mode: ReadMode::Tick, sq, dq, depth: 0, piece: None }
    } else {
        TextStep { taken: 1, mode: ReadMode::Text, sq, dq, depth: 0, piece: Some(ExpansionView::Char(c)) }
    }
}

pub open spec fn push_piece(out: Seq<ExpansionView>, p: Option<ExpansionView>) -> Seq<ExpansionView> {
    match p {
        Some(x) => out.push(x),
        None => out,
    }
}

/// The pieces of `s`, read from the given state: `sq`/`dq` tell which quote is
/// open, `depth` counts the open parentheses of `$(`, `acc` holds the command
/// or name being read and `out` the pieces already read. A `$((` expression
/// runs to the `))` that closes it, a `$(` command runs
/// to its matching `)`, a backtick command to the next unescaped backtick,
/// `${NAME}` to `}` and `$NAME` over letters, digits and `_`; a lone `$` stays.
pub open spec fn read_pieces(s: Seq<char>, mode: ReadMode, sq: bool, dq: bool, depth: nat, acc: Seq<char>, out: Seq<ExpansionView>) -> Seq<ExpansionView>
    decreases s.len(), read_rank(mode),
{
    match mode {
        ReadMode::Text => {
            if s.len() == 0 {
                out
            } else {
                let st = text_step(s, sq, dq);
                read_pieces(s.skip(st.taken), st.mode, st.sq, st.dq, st.depth, Seq::empty(), push_piece(out, st.piece))
            }
        },
        ReadMode::Paren => {
            if s.len() == 0 {
                out.push(ExpansionView::Substitution(acc))
            } else if s[0] == '(' {
                read_pieces(s.drop_first(), ReadMode::Paren, sq, dq, depth + 1, acc.push(s[0]), out)
            } else if s[0] == ')' && depth <= 1 {
                read_pieces(s.drop_first(), ReadMode::Text, sq, dq, 0, Seq::empty(), out.push(ExpansionView::Substitution(acc)))
            } else if s[0] == ')' {
                read_pieces(s.drop_first(), ReadMode::Paren, sq, dq, (depth - 1) as nat, acc.push(s[0]), out)
            } else {
                read_pieces(s.drop_first(), ReadMode::Paren, sq, dq, depth, acc.push(s[0]), out)
            }
        },
        ReadMode::Tick => {
            if s.len() == 0 {
                out.push(ExpansionView::Substitution(acc))
            } else if s[0] == '`' {
                read_pieces(s.drop_first(), ReadMode::Text, sq, dq, 0, Seq::empty(), out.push(ExpansionView::Substitution(acc)))
            } else if s[0] == '\\' && s.len() >= 2 && s[1] == '`' {
                read_pieces(s.drop_first().drop_first(), ReadMode::Tick, sq, dq, 0, acc.push('`'), out)
            } else {
                read_pieces(s.drop_first(), ReadMode::Tick, sq, dq, 0, acc.push(s[0]), out)
            }
        },
        ReadMode::Arith => {
            if s.len() == 0 {
                out.push(ExpansionView::Arithmetic(acc))
            } else if s[0] == ')' && depth == 0 && s.len() >= 2 && s[1] == ')' {
                read_pieces(s.drop_first().drop_first(), ReadMode::Text, sq, dq, 0, Seq::empty(), out.push(ExpansionView::Arithmetic(acc)))
            } else if s[0] == '(' {
                read_pieces(s.drop_first(), ReadMode::Arith, sq, dq, depth + 1, acc.push(s[0]), out)
            } else if s[0] == ')' && depth > 0 {
                read_pieces(s.drop_first(), ReadMode::Arith, sq, dq, (depth - 1) as nat, acc.push(s[0]), out)
            } else {
                read_pieces(s.drop_first(), ReadMode::Arith, sq, dq, depth, acc.push(s[0]), out)
            }
        },
        ReadMode::Braced => {
            if s.len() == 0 {
                out.push(ExpansionView::Variable(acc))
            } else if s[0] == '}' {
                read_pieces(s.drop_first(), ReadMode::Text, sq, dq, 0, Seq::empty(), out.push(ExpansionView::Variable(acc)))
            } else {
                read_pieces(s.drop_first(), ReadMode::Braced, sq, dq, 0, acc.push(s[0]), out)
            }
        },
        ReadMode::Name => {
            if s.len() > 0 && is_name_char(s[0]) {
                read_pieces(s.drop_first(), ReadMode::Name, sq, dq, 0, acc.push(s[0]), out)
            } else if acc.len() == 0 {
                read_pieces(s, ReadMode::Text, sq, dq, 0, Seq::empty(), out.push(ExpansionView::Char('$')))
            } else {
                read_pieces(s, ReadMode::Text, sq, dq, 0, Seq::empty(), out.push(ExpansionView::Variable(acc)))
            }
        },
    }
}

/// The expansion pieces of a command line.
pub open spec fn expansion_pieces(s: Seq<char>) -> Seq<ExpansionView> {
    read_pieces(s, ReadMode::Text, false, false, 0, Seq::empty(), Seq::empty())
}

/// A command line with its variables and command substitutions expanded.
pub open spec fn expanded(s: Seq<char>, last_exit_code: i32, ctx: ContextView) -> Seq<char> {
    render(expansion_pieces(s), last_exit_code, ctx)
}

proof fn lemma_pviews_push(v: Seq<Expansion>, e: Expansion)
    ensures
        pviews(v.push(e)) == pviews(v).push(e@),
{
    assert(pviews(v.push(e)) =~= pviews(v).push(e@));
}

/// Reads the expansion pieces of `input`.
pub fn expansion_pieces_of(input: &str) -> (r: Vec<Expansion>)
    ensures
        pviews(r@) == expansion_pieces(input@),
{
    let s = chars_of(input);
    let n = s.len();
    let mut out: Vec<Expansion> = Vec::new();
    let mut sq = false;
    let mut dq = false;
    let mut i: usize = 0;
    let ghost full = expansion_pieces(input@);
    assert(s@.skip(0) =~= s@);
    assert(pviews(out@) =~= Seq::<ExpansionView>::empty());
    while i < n
        invariant
            n == s.len(),
            i <= n,
            s@ == input@,
            full == read_pieces(s@.skip(i as int), ReadMode::Text, sq, dq, 0, Seq::empty(), pviews(out@)),
        decreases n - i,
    {
        proof { lemma_skip_step(s@, i as int); }
        let c = s[i];
        if c == '\\' {
            if !sq && i + 1 < n && (s[i + 1] == '$' || s[i + 1] == '`') {
                let e = Expansion::Char(s[i + 1]);
                proof { lemma_pviews_push(out@, e); }
                out.push(e);
                i += 2;
            } else {
                let e = Expansion::Char(c);
                proof { lemma_pviews_push(out@, e); }
                out.push(e);
                i += 1;
            }
        } else if c == '\'' && !dq {
            sq = !sq;
            let e = Expansion::Char(c);
            proof { lemma_pviews_push(out@, e); }
            out.push(e);
            i += 1;
        } else if c == '"' && !sq {
            dq = !dq;
            let e = Expansion::Char(c);
            proof { lemma_pviews_push(out@, e); }
            out.push(e);
            i += 1;
        } else if c == '$' && !sq && n - i > 2 && s[i + 1] == '(' && s[i + 2] == '(' {
            assert(s@.skip(i as int)[2] == s@[i + 2]);
            assert(s@.skip(i as int).skip(3) =~= s@.skip(i + 3));
            i += 3;
            let ghost i0 = i;
            let mut acc: Vec<char> = Vec::new();
            let mut depth: usize = 0;
            let mut closed = false;
            while i < n && !closed
                invariant
                    n == s.len(),
                    i0 <= i <= n,
                    depth <= i - i0,
                    !closed ==> full == read_pieces(s@.skip(i as int), ReadMode::Arith, sq, dq, depth as nat, acc@, pviews(out@)),
                    closed ==> full == read_pieces(s@.skip(i as int), ReadMode::Text, sq, dq, 0, Seq::empty(), pviews(out@)),
                decreases n - i,
            {
                proof { lemma_skip_step(s@, i as int); }
                let ch = s[i];
                if ch == ')' && depth == 0 && i + 1 < n && s[i + 1] == ')' {
                    let e = Expansion::Arithmetic(acc.clone());
                    proof { lemma_pviews_push(out@, e); }
                    out.push(e);
                    closed = true;
                    i += 2;
                } else if ch == '(' {
                    depth += 1;
                    acc.push(ch);
                    i += 1;
                } else if ch == ')' && depth > 0 {
                    depth -= 1;
                    acc.push(ch);
                    i += 1;
                } else {
                    acc.push(ch);
                    i += 1;
                }
            }
            if i == n {
                assert(s@.skip(i as int) =~= Seq::<char>::empty());
            }
            if !closed {
                let e = Expansion::Arithmetic(acc);
                proof { lemma_pviews_push(out@, e); }
                out.push(e);
            }
        } else if c == '$' && !sq && i + 1 < n && s[i + 1] == '(' {
            i += 2;
            let ghost i0 = i;
            let mut acc: Vec<char> = Vec::new();
            let mut depth: usize = 1;
            let mut closed = false;
            while i < n && !closed
                invariant
                    n == s.len(),
                    i0 <= i <= n,
                    i0 >= 2,
                    depth >= 1,
                    depth <= i - i0 + 1,
                    !closed ==> full == read_pieces(s@.skip(i as int), ReadMode::Paren, sq, dq, depth as nat, acc@, pviews(out@)),
                    closed ==> full == read_pieces(s@.skip(i as int), ReadMode::Text, sq, dq, 0, Seq::empty(), pviews(out@)),
                decreases n - i,
            {
                proof { lemma_skip_step(s@, i as int); }
                let ch = s[i];
                if ch == '(' {
                    depth += 1;
                    acc.push(ch);
                } else if ch == ')' && depth <= 1 {
                    let e = Expansion::Substitution(acc.clone());
                    proof { lemma_pviews_push(out@, e); }
                    out.push(e);
                    closed = true;
                } else if ch == ')' {
                    depth -= 1;
                    acc.push(ch);
                } else {
                    acc.push(ch);
                }
                i += 1;
            }
            if i == n {
                assert(s@.skip(i as int) =~= Seq::<char>::empty());
            }
            if !closed {
                let e = Expansion::Substitution(acc);
                proof { lemma_pviews_push(out@, e); }
                out.push(e);
            }
        } else if c == '$' && !sq && i + 1 < n && s[i + 1] == '{' {
            i += 2;
            let ghost i0 = i;
            let mut acc: Vec<char> = Vec::new();
            let mut closed = false;
            while i < n && !closed
                invariant
                    n == s.len(),
                    i0 <= i <= n,
                    !closed ==> full == read_pieces(s@.skip(i as int), ReadMode::Braced, sq, dq, 0, acc@, pviews(out@)),
                    closed ==> full == read_pieces(s@.skip(i as int), ReadMode::Text, sq, dq, 0, Seq::empty(), pviews(out@)),
                decreases n - i,
            {
                proof { lemma_skip_step(s@, i as int); }
                let ch = s[i];
                if ch == '}' {
                    let e = Expansion::Variable(acc.clone());
                    proof { lemma_pviews_push(out@, e); }
                    out.push(e);
                    closed = true;
                } else {
                    acc.push(ch);
                }
                i += 1;
            }
            if i == n {
                assert(s@.skip(i as int) =~= Seq::<char>::empty());
            }
            if !closed {
                let e = Expansion::Variable(acc);
                proof { lemma_pviews_push(out@, e); }
                out.push(e);
            }
        } else if c == '$' && !sq && i + 1 < n && s[i + 1] == '?' {
            let e = Expansion::ExitCode;
            proof { lemma_pviews_push(out@, e); }
            out.push(e);
            i += 2;
        } else if c == '$' && !sq && i + 1 < n && s[i + 1] == '$' {
            let e = Expansion::ProcessId;
            proof { lemma_pviews_push(out@, e); }
            out.push(e);
            i += 2;
        } else if c == '$' && !sq {
            i += 1;
            let ghost i0 = i;
            let mut acc: Vec<char> = Vec::new();
            while i < n && (is_alphanumeric(s[i]) || s[i] == '_')
                invariant
                    n == s.len(),
                    i0 <= i <= n,
                    full == read_pieces(s@.skip(i as int), ReadMode::Name, sq, dq, 0, acc@, pviews(out@)),
                decreases n - i,
            {
                proof { lemma_skip_step(s@, i as int); }
                acc.push(s[i]);
                i += 1;
            }
            if i < n {
                proof { lemma_skip_step(s@, i as int); }
            } else {
                assert(s@.skip(i as int) =~= Seq::<char>::empty());
            }
            let e = if acc.len() == 0 { Expansion::Char('$') } else { Expansion::Variable(acc) };
            proof { lemma_pviews_push(out@, e); }
            out.push(e);
        } else if c == '`' && !sq {
            i += 1;
            let ghost i0 = i;
            let mut acc: Vec<char> = Vec::new();
            let mut closed = false;
            while i < n && !closed
                invariant
                    n == s.len(),
                    i0 <= i <= n,
                    !closed ==> full == read_pieces(s@.skip(i as int), ReadMode::Tick, sq, dq, 0, acc@, pviews(out@)),
                    closed ==> full == read_pieces(s@.skip(i as int), ReadMode::Text, sq, dq, 0, Seq::empty(), pviews(out@)),
                decreases n - i,
            {
                proof { lemma_skip_step(s@, i as int); }
                let ch = s[i];
                if ch == '`' {
                    let e = Expansion::Substitution(acc.clone());
                    proof { lemma_pviews_push(out@, e); }
                    out.push(e);
                    closed = true;
                    i += 1;
                } else if ch == '\\' && i + 1 < n && s[i + 1] == '`' {
                    acc.push('`');
                    i += 2;
                } else {
                    acc.push(ch);
                    i += 1;
                }
            }
            if i == n {
                assert(s@.skip(i as int) =~= Seq::<char>::empty());
            }
            if !closed {
                let e = Expansion::Substitution(acc);
                proof { lemma_pviews_push(out@, e); }
                out.push(e);
            }
        } else {
            let e = Expansion::Char(c);
            proof { lemma_pviews_push(out@, e); }
            out.push(e);
            i += 1;
        }
    }
    out
}


/// The value of the first pair named `key`, or nothing.
pub(crate) fn lookup_exec(pairs: &Vec<(String, String)>, key: &Vec<char>) -> (r: Vec<char>)
    ensures
        r@ == lookup_or_empty(pair_views(pairs@), key@),
{
    let mut i: usize = 0;
    assert(pair_views(pairs@).skip(0) =~= pair_views(pairs@));
    while i < pairs.len()
        invariant
            i <= pairs.len(),
            lookup(pair_views(pairs@), key@) == lookup(pair_views(pairs@).skip(i as int), key@),
        decreases pairs.len() - i,
    {
        let ghost pv = pair_views(pairs@);
        assert(pv.skip(i as int).drop_first() =~= pv.skip(i + 1));
        assert(pv.skip(i as int)[0] == (pairs@[i as int].0@, pairs@[i as int].1@));
        let name = chars_of(pairs[i].0.as_str());
        if crate::text::chars_eq(&name, key) {
            return chars_of(pairs[i].1.as_str());
        }
        i += 1;
    }
    assert(pair_views(pairs@).skip(i as int).len() == 0);
    Vec::new()
}

/// `s` with each backslash doubled.
fn escape_backslashes_exec(s: &Vec<char>) -> (r: Vec<char>)
    ensures
        r@ == escape_backslashes(s@),
{
    let mut r: Vec<char> = Vec::new();
    let mut i: usize = 0;
    while i < s.len()
        invariant
            i <= s.len(),
            r@ == escape_backslashes(s@.take(i as int)),
        decreases s.len() - i,
    {
        assert(s@.take(i + 1).drop_last() =~= s@.take(i as int));
        if s[i] == '\\' {
            r.push('\\');
            r.push('\\');
            assert(r@ =~= escape_backslashes(s@.take(i as int)) + seq!['\\', '\\']);
        } else {
            r.push(s[i]);
            assert(r@ =~= escape_backslashes(s@.take(i as int)) + seq![s@[i as int]]);
        }
        i += 1;
    }
    assert(s@.take(s.len() as int) =~= s@);
    r
}

/// A command's output without one trailing line break.
fn strip_line_break_exec(s: &Vec<char>) -> (r: Vec<char>)
    ensures
        r@ == strip_line_break(s@),
{
    let n = s.len();
    if n > 0 && s[n - 1] == '\n' {
        if n > 1 && s[n - 2] == '\r' {
            let r = crate::text::sub_chars(s, 0, n - 2);
            assert(r@ =~= s@.drop_last().drop_last());
            r
        } else {
            let r = crate::text::sub_chars(s, 0, n - 1);
            assert(r@ =~= s@.drop_last());
            r
        }
    } else {
        s.clone()
    }
}

/// What a piece stands for; `k` counts the non-blank substitutions before it.
fn piece_text_exec(p: &Expansion, last_exit_code: i32, ctx: &ExpansionContext, k: usize) -> (r: Vec<char>)
    ensures
        r@ == piece_text(p@, last_exit_code, ctx@, k as nat),
{
    match p {
        Expansion::Char(c) => {
            let mut r: Vec<char> = Vec::new();
            r.push(*c);
            assert(r@ =~= seq![*c]);
            r
        },
        Expansion::Variable(name) => {
            let v = lookup_exec(&ctx.vars, name);
            escape_backslashes_exec(&v)
        },
        Expansion::ExitCode => format_i64(last_exit_code as i64),
        Expansion::ProcessId => format_i64(ctx.pid as i64),
        Expansion::Substitution(cmd) => {
            let t = trim_chars(cmd);
            if t.len() == 0 || k >= ctx.substitutions.len() {
                Vec::new()
            } else {
                let raw = chars_of(ctx.substitutions[k].as_str());
                strip_line_break_exec(&raw)
            }
        },
        Expansion::Arithmetic(e) => {
            match arith_eval(e, &ctx.vars) {
                Some(v) => format_i64(v),
                None => Vec::new(),
            }
        },
    }
}

/// The text that a sequence of pieces stands for.
pub fn render_pieces(pieces: &Vec<Expansion>, last_exit_code: i32, ctx: &ExpansionContext) -> (r: Vec<char>)
    ensures
        r@ == render(pviews(pieces@), last_exit_code, ctx@),
{
    let ghost ps = pviews(pieces@);
    let mut r: Vec<char> = Vec::new();
    let mut k: usize = 0;
    let mut subs: usize = 0;
    while k < pieces.len()
        invariant
            k <= pieces.len(),
            ps == pviews(pieces@),
            subs == substituted_commands(ps.take(k as int)).len(),
            subs <= k,
            r@ == render(ps.take(k as int), last_exit_code, ctx@),
        decreases pieces.len() - k,
    {
        let t = piece_text_exec(&pieces[k], last_exit_code, ctx, subs);
        crate::text::append_chars(&mut r, &t);
        assert(ps.take(k + 1).drop_last() =~= ps.take(k as int));
        match &pieces[k] {
            Expansion::Substitution(cmd) => {
                let tr = trim_chars(cmd);
                if tr.len() > 0 {
                    subs += 1;
                }
            },
            _ => {},
        }
        k += 1;
    }
    assert(ps.take(pieces.len() as int) =~= ps);
    r
}

/// Expands environment variables and command substitutions in `input`:
/// `$VAR` and `${VAR}` become the variable's value (nothing when it is not
/// set), `$?` the last exit code, `$$` the process id, `$(command)` and
/// `` `command` `` the command's output; single quotes prevent expansion,
/// double quotes allow it; `\$` is a literal dollar sign.
pub fn expand_variables(input: &str, last_exit_code: i32, ctx: &ExpansionContext) -> (r: String)
    ensures
        r@ == expanded(input@, last_exit_code, ctx@),
{
    let pieces = expansion_pieces_of(input);
    let v = render_pieces(&pieces, last_exit_code, ctx);
    string_of(&v)
}

/// The commands that `$(...)` and backticks in `input` substitute, trimmed and
/// in order, without the blank ones: what must be run before expanding.
pub open spec fn substituted_commands(ps: Seq<ExpansionView>) -> Seq<Seq<char>>
    decreases ps.len(),
{
    if ps.len() == 0 {
        Seq::empty()
    } else {
        let rest = substituted_commands(ps.drop_last());
        match ps.last() {
            ExpansionView::Substitution(cmd) => if trim(cmd).len() > 0 { rest.push(trim(cmd)) } else { rest },
            _ => rest,
        }
    }
}

/// The commands whose output `expand_variables` needs for `input`.
pub fn command_substitutions(input: &str) -> (r: Vec<String>)
    ensures
        crate::text::views(r@) == substituted_commands(expansion_pieces(input@)),
{
    let pieces = expansion_pieces_of(input);
    let ghost ps = pviews(pieces@);
    let mut cmds: Vec<Vec<char>> = Vec::new();
    let mut k: usize = 0;
    assert(crate::text::cviews(cmds@) =~= Seq::<Seq<char>>::empty());
    while k < pieces.len()
        invariant
            k <= pieces.len(),
            ps == pviews(pieces@),
            crate::text::cviews(cmds@) == substituted_commands(ps.take(k as int)),
        decreases pieces.len() - k,
    {
        assert(ps.take(k + 1).drop_last() =~= ps.take(k as int));
        match &pieces[k] {
            Expansion::Substitution(cmd) => {
                let t = trim_chars(cmd);
                if t.len() > 0 {
                    proof { crate::text::lemma_cviews_push(cmds@, t); }
                    cmds.push(t);
                }
            },
            _ => {},
        }
        k += 1;
    }
    assert(ps.take(pieces.len() as int) =~= ps);
    crate::text::strings_of(&cmds)
}

/// A command's output as substitution uses it: without one trailing line break.
pub fn trim_substitution_output(output: &str) -> (r: String)
    ensures
        r@ == strip_line_break(output@),
{
    let v = chars_of(output);
    let t = strip_line_break_exec(&v);
    string_of(&t)
}

/// A word with `~` at its start expanded to the home directory: `~` alone
/// and `~/...` (or `~\...`) are expanded; quoted words, other words and words
/// when the home directory is unknown stay as they are.
pub open spec fn tilde_expansion(token: Seq<char>, was_quoted: bool, home: Option<Seq<char>>) -> Seq<char> {
    if was_quoted || token.len() == 0 || token[0] != '~' || home is None {
        token
    } else if token.len() == 1 {
        home->0
    } else if token[1] == '/' || token[1] == '\\' {
        home->0 + token.drop_first()
    } else {
        token
    }
}

/// Expands `~` at the start of a word.
pub fn expand_tilde(token: &Vec<char>, was_quoted: bool, home: &Option<String>) -> (r: Vec<char>)
    ensures
        r@ == tilde_expansion(token@, was_quoted, match home { Some(h) => Some(h@), None => None }),
{
    if was_quoted || token.len() == 0 || token[0] != '~' {
        return token.clone();
    }
    match home {
        None => token.clone(),
        Some(h) => {
            if token.len() == 1 {
                chars_of(h.as_str())
            } else if token[1] == '/' || token[1] == '\\' {
                let mut r = chars_of(h.as_str());
                let rest = crate::text::sub_chars(token, 1, token.len());
                assert(rest@ =~= token@.drop_first());
                append_chars(&mut r, &rest);
                r
            } else {
                token.clone()
            }
        },
    }
}


// ---------------------------------------------------------------- laws

/// Each character of `x` as a piece of its own.
pub open spec fn char_pieces(x: Seq<char>) -> Seq<ExpansionView>
    decreases x.len(),
{
    if x.len() == 0 {
        Seq::empty()
    } else {
        char_pieces(x.drop_last()).push(char_piece(x.last()))
    }
}

/// A character as a piece of its own.
pub open spec fn char_piece(c: char) -> ExpansionView {
    ExpansionView::Char(c)
}

proof fn lemma_char_pieces(x: Seq<char>)
    ensures
        char_pieces(x).len() == x.len(),
        forall|i: int| 0 <= i < x.len() ==> #[trigger] char_pieces(x)[i] == char_piece(x[i]),
    decreases x.len(),
{
    if x.len() > 0 {
        lemma_char_pieces(x.drop_last());
    }
}

pub proof fn lemma_render_chars(x: Seq<char>, code: i32, ctx: ContextView)
    ensures
        render(char_pieces(x), code, ctx) == x,
    decreases x.len(),
{
    lemma_char_pieces(x);
    if x.len() > 0 {
        lemma_render_chars(x.drop_last(), code, ctx);
        assert(char_pieces(x).drop_last() == char_pieces(x.drop_last()));
        assert(x.drop_last().push(x.last()) =~= x);
    } else {
        assert(x =~= Seq::<char>::empty());
    }
}

/// Text without `$` and backticks reads as its characters, whatever quotes
/// are open.
proof fn lemma_read_plain(x: Seq<char>, sq: bool, dq: bool, out: Seq<ExpansionView>)
    requires
        forall|i: int| 0 <= i < x.len() ==> x[i] != '$' && x[i] != '`',
    ensures
        read_pieces(x, ReadMode::Text, sq, dq, 0, Seq::empty(), out) == out + char_pieces(x),
    decreases x.len(),
{
    lemma_char_pieces(x);
    lemma_char_pieces(x.drop_first());
    if x.len() == 0 {
        assert(out + char_pieces(x) =~= out);
    } else {
        let st = text_step(x, sq, dq);
        assert(st.taken == 1 && st.mode == ReadMode::Text && st.piece == Some(char_piece(x[0])));
        assert(x.skip(1) =~= x.drop_first());
        lemma_read_plain(x.drop_first(), st.sq, st.dq, out.push(char_piece(x[0])));
        assert(out.push(char_piece(x[0])) + char_pieces(x.drop_first()) =~= out + char_pieces(x));
    }
}

/// Text without `$`, backticks, quotes or backslashes reads as its
/// characters, and what follows it is read as it would be on its own.
pub proof fn lemma_read_plain_prefix(x: Seq<char>, rest: Seq<char>, out: Seq<ExpansionView>)
    requires
        forall|i: int| 0 <= i < x.len() ==> #[trigger] x[i] != '$' && x[i] != '`' && x[i] != '\\'
            && x[i] != '\'' && x[i] != '"',
    ensures
        read_pieces(x + rest, ReadMode::Text, false, false, 0, Seq::empty(), out)
            == read_pieces(rest, ReadMode::Text, false, false, 0, Seq::empty(), out + char_pieces(x)),
    decreases x.len(),
{
    lemma_char_pieces(x);
    lemma_char_pieces(x.drop_first());
    if x.len() == 0 {
        assert(x + rest =~= rest);
        assert(out + char_pieces(x) =~= out);
    } else {
        let s = x + rest;
        assert(s[0] == x[0]);
        let st = text_step(s, false, false);
        assert(st.taken == 1 && st.mode == ReadMode::Text && !st.sq && !st.dq && st.piece == Some(char_piece(x[0])));
        assert(s.skip(1) =~= x.drop_first() + rest);
        assert forall|i: int| 0 <= i < x.drop_first().len() implies #[trigger] x.drop_first()[i] != '$'
            && x.drop_first()[i] != '`' && x.drop_first()[i] != '\\' && x.drop_first()[i] != '\''
            && x.drop_first()[i] != '"' by {
            assert(x.drop_first()[i] == x[i + 1]);
        }
        lemma_read_plain_prefix(x.drop_first(), rest, out.push(char_piece(x[0])));
        assert(out.push(char_piece(x[0])) + char_pieces(x.drop_first()) =~= out + char_pieces(x));
    }
}

/// Inside single quotes, text without a single quote reads as its
/// characters.
proof fn lemma_read_single_quoted(x: Seq<char>, rest: Seq<char>, out: Seq<ExpansionView>)
    requires
        forall|i: int| 0 <= i < x.len() ==> x[i] != '\'',
    ensures
        read_pieces(x + rest, ReadMode::Text, true, false, 0, Seq::empty(), out)
            == read_pieces(rest, ReadMode::Text, true, false, 0, Seq::empty(), out + char_pieces(x)),
    decreases x.len(),
{
    lemma_char_pieces(x);
    lemma_char_pieces(x.drop_first());
    if x.len() == 0 {
        assert(x + rest =~= rest);
        assert(out + char_pieces(x) =~= out);
    } else {
        let s = x + rest;
        assert(s[0] == x[0]);
        let st = text_step(s, true, false);
        assert(st.taken == 1 && st.mode == ReadMode::Text && st.sq && !st.dq && st.piece == Some(char_piece(x[0])));
        assert(s.skip(1) =~= x.drop_first() + rest);
        lemma_read_single_quoted(x.drop_first(), rest, out.push(char_piece(x[0])));
        assert(out.push(char_piece(x[0])) + char_pieces(x.drop_first()) =~= out + char_pieces(x));
    }
}

/// Text without `$` and backticks is left as it is by expansion.
pub proof fn law_plain_text_unchanged(s: Seq<char>, last_exit_code: i32, ctx: ContextView)
    requires
        forall|i: int| 0 <= i < s.len() ==> s[i] != '$' && s[i] != '`',
    ensures
        expanded(s, last_exit_code, ctx) == s,
{
    lemma_read_plain(s, false, false, Seq::empty());
    assert(Seq::<ExpansionView>::empty() + char_pieces(s) =~= char_pieces(s));
    lemma_render_chars(s, last_exit_code, ctx);
}

/// Single quotes are literal: a single-quoted word is left exactly as it is
/// by expansion, `$`, backticks and backslashes included.
pub proof fn law_single_quotes_literal(x: Seq<char>, last_exit_code: i32, ctx: ContextView)
    requires
        forall|i: int| 0 <= i < x.len() ==> x[i] != '\'',
    ensures
        expanded(seq!['\''] + x + seq!['\''], last_exit_code, ctx) == seq!['\''] + x + seq!['\''],
{
    let s = seq!['\''] + x + seq!['\''];
    let q = char_piece('\'');
    let e = Seq::<ExpansionView>::empty();
    // the opening quote
    let st = text_step(s, false, false);
    assert(s[0] == '\'');
    assert(st.taken == 1 && st.mode == ReadMode::Text && st.sq && !st.dq && st.piece == Some(q));
    assert(s.skip(1) =~= x + seq!['\'']);
    assert(e.push(q) =~= seq![q]);
    assert(expansion_pieces(s) == read_pieces(x + seq!['\''], ReadMode::Text, true, false, 0, Seq::empty(), seq![q]));
    // the quoted text
    lemma_read_single_quoted(x, seq!['\''], seq![q]);
    // the closing quote
    let t = seq!['\''];
    let st2 = text_step(t, true, false);
    assert(st2.taken == 1 && st2.mode == ReadMode::Text && !st2.sq && st2.piece == Some(q));
    assert(t.skip(1) =~= Seq::<char>::empty());
    assert(push_piece(seq![q] + char_pieces(x), Some(q)) == (seq![q] + char_pieces(x)).push(q));
    assert(read_pieces(Seq::empty(), ReadMode::Text, false, false, 0, Seq::empty(), (seq![q] + char_pieces(x)).push(q))
        == (seq![q] + char_pieces(x)).push(q));
    assert(read_pieces(t, ReadMode::Text, true, false, 0, Seq::empty(), seq![q] + char_pieces(x))
        == (seq![q] + char_pieces(x)).push(q));
    lemma_char_pieces(x);
    lemma_char_pieces(s);
    assert((seq![q] + char_pieces(x)).push(q) =~= char_pieces(s));
    lemma_render_chars(s, last_exit_code, ctx);
}


proof fn lemma_read_arith(x: Seq<char>, rest: Seq<char>, acc: Seq<char>, out: Seq<ExpansionView>)
    requires
        forall|i: int| 0 <= i < x.len() ==> #[trigger] x[i] != '(' && x[i] != ')',
    ensures
        read_pieces(x + rest, ReadMode::Arith, false, false, 0, acc, out)
            == read_pieces(rest, ReadMode::Arith, false, false, 0, acc + x, out),
    decreases x.len(),
{
    if x.len() > 0 {
        let s = x + rest;
        assert(s[0] == x[0]);
        assert(s.drop_first() =~= x.drop_first() + rest);
        assert forall|i: int| 0 <= i < x.drop_first().len() implies #[trigger] x.drop_first()[i] != '('
            && x.drop_first()[i] != ')' by {
            assert(x.drop_first()[i] == x[i + 1]);
        }
        lemma_read_arith(x.drop_first(), rest, acc.push(x[0]), out);
        assert(acc.push(x[0]) + x.drop_first() =~= acc + x);
    } else {
        assert(x + rest =~= rest);
        assert(acc + x =~= acc);
    }
}

/// `$((e))`, for an expression without parentheses, expands to the value of
/// `e` in decimal, or to nothing when `e` has no value.
pub proof fn law_arithmetic_expansion(e: Seq<char>, last_exit_code: i32, ctx: ContextView)
    requires
        forall|i: int| 0 <= i < e.len() ==> #[trigger] e[i] != '(' && e[i] != ')',
    ensures
        expanded(seq!['$', '(', '('] + e + seq![')', ')'], last_exit_code, ctx) == match arith_value(e, ctx.vars) {
            Some(v) => decimal(v),
            None => Seq::<char>::empty(),
        },
{
    let s = seq!['$', '(', '('] + e + seq![')', ')'];
    let st = text_step(s, false, false);
    assert(s[0] == '$' && s[1] == '(' && s[2] == '(');
    assert(st.taken == 3 && st.mode == ReadMode::Arith && st.piece is None && !st.sq && !st.dq && st.depth == 0);
    let empty = Seq::<ExpansionView>::empty();
    assert(push_piece(empty, None) == empty);
    assert(s.skip(3) =~= e + seq![')', ')']);
    lemma_read_arith(e, seq![')', ')'], Seq::empty(), empty);
    assert(Seq::<char>::empty() + e =~= e);
    let t = seq![')', ')'];
    assert(t.drop_first().drop_first() =~= Seq::<char>::empty());
    let ps = empty.push(ExpansionView::Arithmetic(e));
    assert(read_pieces(t, ReadMode::Arith, false, false, 0, e, empty)
        == read_pieces(Seq::<char>::empty(), ReadMode::Text, false, false, 0, Seq::empty(), ps));
    assert(expansion_pieces(s) == ps);
    assert(ps.drop_last() =~= empty);
    assert(render(empty, last_exit_code, ctx) == Seq::<char>::empty());
    assert(expanded(s, last_exit_code, ctx) =~= arithmetic_text(e, ctx));
}

/// `$?` stands for the last exit code and `$$` for the shell's process id,
/// in decimal.
pub proof fn law_special_parameters(last_exit_code: i32, ctx: ContextView)
    ensures
        expanded(seq!['$', '?'], last_exit_code, ctx) == decimal(last_exit_code as int),
        expanded(seq!['$', '$'], last_exit_code, ctx) == decimal(ctx.pid as int),
{
    let e = Seq::<ExpansionView>::empty();
    let s1 = seq!['$', '?'];
    let t1 = text_step(s1, false, false);
    assert(t1.taken == 2 && t1.mode == ReadMode::Text && t1.piece == Some(ExpansionView::ExitCode));
    assert(s1.skip(2) =~= Seq::<char>::empty());
    assert(push_piece(e, t1.piece) =~= seq![ExpansionView::ExitCode]);
    assert(!t1.sq && !t1.dq && t1.depth == 0);
    assert(read_pieces(Seq::<char>::empty(), ReadMode::Text, false, false, 0, Seq::empty(), seq![ExpansionView::ExitCode])
        == seq![ExpansionView::ExitCode]);
    assert(expansion_pieces(s1) == seq![ExpansionView::ExitCode]);
    assert(seq![ExpansionView::ExitCode].drop_last() =~= e);
    let s2 = seq!['$', '$'];
    let t2 = text_step(s2, false, false);
    assert(t2.taken == 2 && t2.mode == ReadMode::Text && t2.piece == Some(ExpansionView::ProcessId));
    assert(s2.skip(2) =~= Seq::<char>::empty());
    assert(push_piece(e, t2.piece) =~= seq![ExpansionView::ProcessId]);
    assert(!t2.sq && !t2.dq && t2.depth == 0);
    assert(read_pieces(Seq::<char>::empty(), ReadMode::Text, false, false, 0, Seq::empty(), seq![ExpansionView::ProcessId])
        == seq![ExpansionView::ProcessId]);
    assert(expansion_pieces(s2) == seq![ExpansionView::ProcessId]);
    assert(seq![ExpansionView::ProcessId].drop_last() =~= e);
    assert(render(e, last_exit_code, ctx) == Seq::<char>::empty());
    assert(Seq::<char>::empty() + decimal(last_exit_code as int) =~= decimal(last_exit_code as int));
    assert(Seq::<char>::empty() + decimal(ctx.pid as int) =~= decimal(ctx.pid as int));
}

proof fn lemma_read_braced(x: Seq<char>, rest: Seq<char>, acc: Seq<char>, out: Seq<ExpansionView>)
    requires
        forall|i: int| 0 <= i < x.len() ==> #[trigger] x[i] != '}',
    ensures
        read_pieces(x + rest, ReadMode::Braced, false, false, 0, acc, out)
            == read_pieces(rest, ReadMode::Braced, false, false, 0, acc + x, out),
    decreases x.len(),
{
    if x.len() > 0 {
        let s = x + rest;
        assert(s[0] == x[0]);
        assert(s.drop_first() =~= x.drop_first() + rest);
        assert forall|i: int| 0 <= i < x.drop_first().len() implies #[trigger] x.drop_first()[i] != '}' by {
            assert(x.drop_first()[i] == x[i + 1]);
        }
        lemma_read_braced(x.drop_first(), rest, acc.push(x[0]), out);
        assert(acc.push(x[0]) + x.drop_first() =~= acc + x);
    } else {
        assert(x + rest =~= rest);
        assert(acc + x =~= acc);
    }
}

/// `${NAME}` stands for the whole name between the braces: the value of
/// `NAME`, its backslashes doubled for the tokenizer.
pub proof fn law_braced_variable(name: Seq<char>, v: Seq<char>, last_exit_code: i32, ctx: ContextView)
    requires
        forall|i: int| 0 <= i < name.len() ==> #[trigger] name[i] != '}',
        lookup(ctx.vars, name) == Some(v),
    ensures
        expanded(seq!['$', '{'] + name + seq!['}'], last_exit_code, ctx) == escape_backslashes(v),
{
    let s = seq!['$', '{'] + name + seq!['}'];
    let e = Seq::<ExpansionView>::empty();
    let st = text_step(s, false, false);
    assert(s[0] == '$' && s[1] == '{');
    assert(st.taken == 2 && st.mode == ReadMode::Braced && st.piece is None);
    assert(push_piece(e, None) == e);
    assert(s.skip(2) =~= name + seq!['}']);
    lemma_read_braced(name, seq!['}'], Seq::empty(), e);
    assert(Seq::<char>::empty() + name =~= name);
    assert(seq!['}'].drop_first() =~= Seq::<char>::empty());
    let ps = e.push(ExpansionView::Variable(name));
    assert(read_pieces(seq!['}'], ReadMode::Braced, false, false, 0, name, e)
        == read_pieces(Seq::<char>::empty(), ReadMode::Text, false, false, 0, Seq::empty(), ps));
    assert(expansion_pieces(s) == ps);
    assert(ps.drop_last() =~= e);
    assert(render(e, last_exit_code, ctx) == Seq::<char>::empty());
    assert(expanded(s, last_exit_code, ctx) =~= escape_backslashes(v));
}

proof fn lemma_read_paren(x: Seq<char>, rest: Seq<char>, acc: Seq<char>, out: Seq<ExpansionView>)
    requires
        forall|i: int| 0 <= i < x.len() ==> #[trigger] x[i] != '(' && x[i] != ')',
    ensures
        read_pieces(x + rest, ReadMode::Paren, false, false, 1, acc, out)
            == read_pieces(rest, ReadMode::Paren, false, false, 1, acc + x, out),
    decreases x.len(),
{
    if x.len() > 0 {
        let s = x + rest;
        assert(s[0] == x[0]);
        assert(s.drop_first() =~= x.drop_first() + rest);
        assert forall|i: int| 0 <= i < x.drop_first().len() implies #[trigger] x.drop_first()[i] != '('
            && x.drop_first()[i] != ')' by {
            assert(x.drop_first()[i] == x[i + 1]);
        }
        lemma_read_paren(x.drop_first(), rest, acc.push(x[0]), out);
        assert(acc.push(x[0]) + x.drop_first() =~= acc + x);
    } else {
        assert(x + rest =~= rest);
        assert(acc + x =~= acc);
    }
}

/// `$(cmd)` read from the start of `s` adds the substitution of `cmd` and
/// reading goes on after the `)`.
proof fn lemma_read_substitution(c: Seq<char>, rest: Seq<char>, out: Seq<ExpansionView>)
    requires
        forall|i: int| 0 <= i < c.len() ==> #[trigger] c[i] != '(' && c[i] != ')',
    ensures
        read_pieces(seq!['$', '('] + c + seq![')'] + rest, ReadMode::Text, false, false, 0, Seq::empty(), out)
            == read_pieces(rest, ReadMode::Text, false, false, 0, Seq::empty(), out.push(ExpansionView::Substitution(c))),
{
    let s = seq!['$', '('] + c + seq![')'] + rest;
    let st = text_step(s, false, false);
    assert(s[0] == '$' && s[1] == '(');
    assert(s.len() < 3 || s[2] != '(') by {
        if c.len() > 0 {
            assert(s[2] == c[0]);
        } else {
            assert(s[2] == ')');
        }
    }
    assert(st.taken == 2 && st.mode == ReadMode::Paren && st.piece is None && st.depth == 1);
    assert(push_piece(out, None) == out);
    assert(s.skip(2) =~= c + (seq![')'] + rest));
    lemma_read_paren(c, seq![')'] + rest, Seq::empty(), out);
    assert(Seq::<char>::empty() + c =~= c);
    assert((seq![')'] + rest)[0] == ')');
    assert((seq![')'] + rest).drop_first() =~= rest);
}

/// Each `$(cmd)` takes the output at its own place among the substituted
/// commands, even when two commands are the same: `$(c1) $(c2)` is the first
/// output, a blank, then the second output (each without its trailing line
/// break).
pub proof fn law_substitutions_in_order(c1: Seq<char>, c2: Seq<char>, last_exit_code: i32, ctx: ContextView)
    requires
        forall|i: int| 0 <= i < c1.len() ==> #[trigger] c1[i] != '(' && c1[i] != ')',
        forall|i: int| 0 <= i < c2.len() ==> #[trigger] c2[i] != '(' && c2[i] != ')',
        trim(c1).len() > 0,
        trim(c2).len() > 0,
        ctx.substitutions.len() >= 2,
    ensures
        expanded(seq!['$', '('] + c1 + seq![')', ' ', '$', '('] + c2 + seq![')'], last_exit_code, ctx)
            == strip_line_break(ctx.substitutions[0]) + seq![' '] + strip_line_break(ctx.substitutions[1]),
{
    let s = seq!['$', '('] + c1 + seq![')', ' ', '$', '('] + c2 + seq![')'];
    let r2 = seq!['$', '('] + c2 + seq![')'];
    let r1 = seq![' '] + r2;
    assert(s =~= seq!['$', '('] + c1 + seq![')'] + r1);
    let e = Seq::<ExpansionView>::empty();
    lemma_read_substitution(c1, r1, e);
    let p1 = e.push(ExpansionView::Substitution(c1));
    let st = text_step(r1, false, false);
    assert(r1[0] == ' ');
    assert(st.taken == 1 && st.mode == ReadMode::Text && st.piece == Some(ExpansionView::Char(' ')));
    assert(r1.skip(1) =~= r2);
    let p2 = p1.push(ExpansionView::Char(' '));
    assert(r2 =~= seq!['$', '('] + c2 + seq![')'] + Seq::<char>::empty());
    lemma_read_substitution(c2, Seq::empty(), p2);
    let p3 = p2.push(ExpansionView::Substitution(c2));
    assert(expansion_pieces(s) == p3);
    assert(p3.drop_last() =~= p2);
    assert(p2.drop_last() =~= p1);
    assert(p1.drop_last() =~= e);
    assert(substituted_commands(e) == Seq::<Seq<char>>::empty());
    assert(substituted_commands(p1) == seq![trim(c1)]);
    assert(substituted_commands(p2) == seq![trim(c1)]);
    assert(render(e, last_exit_code, ctx) == Seq::<char>::empty());
    assert(substitution_text(c1, ctx, 0) == strip_line_break(ctx.substitutions[0]));
    assert(substitution_text(c2, ctx, 1) == strip_line_break(ctx.substitutions[1]));
    assert(render(p1, last_exit_code, ctx) =~= strip_line_break(ctx.substitutions[0]));
    assert(render(p2, last_exit_code, ctx) =~= strip_line_break(ctx.substitutions[0]) + seq![' ']);
    assert(render(p3, last_exit_code, ctx) == render(p2, last_exit_code, ctx) + substitution_text(c2, ctx, 1));
    assert(render(p3, last_exit_code, ctx) =~= strip_line_break(ctx.substitutions[0]) + seq![' '] + strip_line_break(ctx.substitutions[1]));
}

proof fn lemma_read_tick(x: Seq<char>, rest: Seq<char>, acc: Seq<char>, out: Seq<ExpansionView>)
    requires
        forall|i: int| 0 <= i < x.len() ==> #[trigger] x[i] != '`' && x[i] != '\\',
    ensures
        read_pieces(x + rest, ReadMode::Tick, false, false, 0, acc, out)
            == read_pieces(rest, ReadMode::Tick, false, false, 0, acc + x, out),
    decreases x.len(),
{
    if x.len() > 0 {
        let s = x + rest;
        assert(s[0] == x[0]);
        assert(s.drop_first() =~= x.drop_first() + rest);
        assert forall|i: int| 0 <= i < x.drop_first().len() implies #[trigger] x.drop_first()[i] != '`'
            && x.drop_first()[i] != '\\' by {
            assert(x.drop_first()[i] == x[i + 1]);
        }
        lemma_read_tick(x.drop_first(), rest, acc.push(x[0]), out);
        assert(acc.push(x[0]) + x.drop_first() =~= acc + x);
    } else {
        assert(x + rest =~= rest);
        assert(acc + x =~= acc);
    }
}

/// A backtick command is a command substitution like `$(cmd)`: `` `cmd` ``
/// expands to the first substituted output without its trailing line break.
pub proof fn law_backticks_substitute(c: Seq<char>, last_exit_code: i32, ctx: ContextView)
    requires
        forall|i: int| 0 <= i < c.len() ==> #[trigger] c[i] != '`' && c[i] != '\\',
        trim(c).len() > 0,
        ctx.substitutions.len() >= 1,
    ensures
        expanded(seq!['`'] + c + seq!['`'], last_exit_code, ctx) == strip_line_break(ctx.substitutions[0]),
        expanded(seq!['`'] + c + seq!['`'], last_exit_code, ctx)
            == expanded(seq!['$', '('] + c + seq![')'], last_exit_code, ctx) || has_paren(c),
{
    let s = seq!['`'] + c + seq!['`'];
    let e = Seq::<ExpansionView>::empty();
    let st = text_step(s, false, false);
    assert(s[0] == '`');
    assert(st.taken == 1 && st.mode == ReadMode::Tick && st.piece is None && !st.sq && !st.dq && st.depth == 0);
    assert(push_piece(e, None) == e);
    assert(s.skip(1) =~= c + seq!['`']);
    lemma_read_tick(c, seq!['`'], Seq::empty(), e);
    assert(Seq::<char>::empty() + c =~= c);
    let t = seq!['`'];
    assert(t.drop_first() =~= Seq::<char>::empty());
    let ps = e.push(ExpansionView::Substitution(c));
    assert(read_pieces(t, ReadMode::Tick, false, false, 0, c, e)
        == read_pieces(Seq::<char>::empty(), ReadMode::Text, false, false, 0, Seq::empty(), ps));
    assert(expansion_pieces(s) == ps);
    assert(ps.drop_last() =~= e);
    assert(substituted_commands(e) == Seq::<Seq<char>>::empty());
    assert(render(e, last_exit_code, ctx) == Seq::<char>::empty());
    assert(substitution_text(c, ctx, 0) == strip_line_break(ctx.substitutions[0]));
    assert(expanded(s, last_exit_code, ctx) =~= strip_line_break(ctx.substitutions[0]));
    if !has_paren(c) {
        let s2 = seq!['$', '('] + c + seq![')'];
        assert(s2 =~= seq!['$', '('] + c + seq![')'] + Seq::<char>::empty());
        assert forall|i: int| 0 <= i < c.len() implies #[trigger] c[i] != '(' && c[i] != ')' by {
            if c[i] == '(' || c[i] == ')' {
                assert(has_paren(c));
            }
        }
        lemma_read_substitution(c, Seq::empty(), e);
        assert(expansion_pieces(s2) == ps);
    }
}

/// Whether `c` holds a parenthesis.
pub open spec fn has_paren(c: Seq<char>) -> bool {
    exists|i: int| 0 <= i < c.len() && (c[i] == '(' || c[i] == ')')
}

} // verus!
