//! Splitting a command line on pipes and on chain operators (`&&`, `||`, `;`),
//! respecting single quotes, double quotes and backslash escapes.
use vstd::prelude::*;
use crate::text::{chars_of, cviews, lemma_cviews_push, lemma_skip_step, strings_of, trim, trim_chars, views};

verus! {

/// Operators for command chaining.
#[derive(Debug, Clone, Copy, PartialEq, Eq, Structural)]
pub enum ChainOperator {
    /// `&&`: run the next command only if the previous one succeeded.
    And,
    /// `||`: run the next command only if the previous one failed.
    Or,
    /// `;`: run the next command regardless of the previous result.
    Sequence,
}

/// `segs` with the trimmed `cur` added, unless that is empty.
pub open spec fn push_trimmed(segs: Seq<Seq<char>>, cur: Seq<char>) -> Seq<Seq<char>> {
    if trim(cur).len() > 0 { segs.push(trim(cur)) } else { segs }
}

/// The segments that `split_pipeline` finds in `s`, read from the state where
/// `sq`/`dq` tell whether a single/double quote is open, `cur` is the segment
/// being read and `segs` the segments already complete. A backslash keeps the
/// character after it; an unquoted `|` ends a segment.
pub open spec fn pipe_scan(s: Seq<char>, sq: bool, dq: bool, cur: Seq<char>, segs: Seq<Seq<char>>) -> Seq<Seq<char>>
    decreases s.len(),
{
    if s.len() == 0 {
        push_trimmed(segs, cur)
    } else {
        let c = s[0];
        if c == '\\' {
            if s.len() >= 2 {
                pipe_scan(s.drop_first().drop_first(), sq, dq, cur.push(c).push(s[1]), segs)
            } else {
                pipe_scan(s.drop_first(), sq, dq, cur.push(c), segs)
            }
        } else if c == '\'' && !dq {
            pipe_scan(s.drop_first(), !sq, dq, cur.push(c), segs)
        } else if c == '"' && !sq {
            pipe_scan(s.drop_first(), sq, !dq, cur.push(c), segs)
        } else if c == '|' && !sq && !dq {
            pipe_scan(s.drop_first(), sq, dq, Seq::empty(), push_trimmed(segs, cur))
        } else {
            pipe_scan(s.drop_first(), sq, dq, cur.push(c), segs)
        }
    }
}

/// The trimmed, non-empty pipeline segments of `s`.
pub open spec fn pipeline_segments(s: Seq<char>) -> Seq<Seq<char>> {
    pipe_scan(s, false, false, Seq::empty(), Seq::empty())
}

/// The commands and operators that `split_chain` finds in `s`, read from the
/// given state. An unquoted `&&`, `||` or `;` ends a command and, when the
/// command is not blank, records the operator after it; a single `&` or `|`
/// stays in the command.
pub open spec fn chain_scan(
    s: Seq<char>,
    sq: bool,
    dq: bool,
    cur: Seq<char>,
    cmds: Seq<Seq<char>>,
    ops: Seq<ChainOperator>,
) -> (Seq<Seq<char>>, Seq<ChainOperator>)
    decreases s.len(),
{
    if s.len() == 0 {
        (push_trimmed(cmds, cur), ops)
    } else {
        let c = s[0];
        let rest = s.drop_first();
        let unquoted = !sq && !dq;
        if c == '\\' {
            if s.len() >= 2 {
                chain_scan(rest.drop_first(), sq, dq, cur.push(c).push(s[1]), cmds, ops)
            } else {
                chain_scan(rest, sq, dq, cur.push(c), cmds, ops)
            }
        } else if c == '\'' && !dq {
            chain_scan(rest, !sq, dq, cur.push(c), cmds, ops)
        } else if c == '"' && !sq {
            chain_scan(rest, sq, !dq, cur.push(c), cmds, ops)
        } else if (c == '&' || c == '|') && unquoted && s.len() >= 2 && s[1] == c {
            let op = if c == '&' { ChainOperator::And } else { ChainOperator::Or };
            chain_scan(rest.drop_first(), sq, dq, Seq::empty(), push_trimmed(cmds, cur),
                if trim(cur).len() > 0 { ops.push(op) } else { ops })
        } else if c == ';' && unquoted {
            chain_scan(rest, sq, dq, Seq::empty(), push_trimmed(cmds, cur),
                if trim(cur).len() > 0 { ops.push(ChainOperator::Sequence) } else { ops })
        } else {
            chain_scan(rest, sq, dq, cur.push(c), cmds, ops)
        }
    }
}

/// The commands and operators of `s`.
pub open spec fn chain_parts(s: Seq<char>) -> (Seq<Seq<char>>, Seq<ChainOperator>) {
    chain_scan(s, false, false, Seq::empty(), Seq::empty(), Seq::empty())
}

/// Adds the trimmed `cur` to `segs` unless it is empty; tells whether it did.
fn push_trimmed_exec(segs: &mut Vec<Vec<char>>, cur: &Vec<char>) -> (pushed: bool)
    ensures
        cviews(final(segs)@) == push_trimmed(cviews(old(segs)@), cur@),
        pushed == (trim(cur@).len() > 0),
{
    let t = trim_chars(cur);
    if t.len() > 0 {
        proof { lemma_cviews_push(segs@, t); }
        segs.push(t);
        true
    } else {
        false
    }
}

/// Splits `input` on the pipe operator `|`, respecting quotes. Returns `None`
/// unless there are at least two non-blank segments; the segments are trimmed.
pub fn split_pipeline(input: &str) -> (r: Option<Vec<String>>)
    ensures
        match r {
            Some(v) => views(v@) == pipeline_segments(input@) && pipeline_segments(input@).len() > 1,
            None => pipeline_segments(input@).len() <= 1,
        },
{
    let s = chars_of(input);
    let mut segs: Vec<Vec<char>> = Vec::new();
    let mut cur: Vec<char> = Vec::new();
    let mut sq = false;
    let mut dq = false;
    let mut i: usize = 0;
    assert(s@.skip(0) =~= s@);
    assert(cviews(segs@) =~= Seq::<Seq<char>>::empty());
    while i < s.len()
        invariant
            i <= s.len(),
            s@ == input@,
            pipeline_segments(input@) == pipe_scan(s@.skip(i as int), sq, dq, cur@, cviews(segs@)),
        decreases s.len() - i,
    {
        proof { lemma_skip_step(s@, i as int); }
        let c = s[i];
        if c == '\\' {
            cur.push(c);
            if i + 1 < s.len() {
                cur.push(s[i + 1]);
                i += 2;
            } else {
                i += 1;
            }
        } else if c == '\'' && !dq {
            sq = !sq;
            cur.push(c);
            i += 1;
        } else if c == '"' && !sq {
            dq = !dq;
            cur.push(c);
            i += 1;
        } else if c == '|' && !sq && !dq {
            push_trimmed_exec(&mut segs, &cur);
            cur = Vec::new();
            i += 1;
        } else {
            cur.push(c);
            i += 1;
        }
    }
    push_trimmed_exec(&mut segs, &cur);
    if segs.len() > 1 {
        Some(strings_of(&segs))
    } else {
        None
    }
}

/// Splits `input` on the chain operators `&&`, `||` and `;`, respecting quotes
/// (a single `|` is a pipe and stays in its command). Returns `None` when no
/// operator was recorded; otherwise the trimmed non-blank commands and the
/// operators that follow them.
pub fn split_chain(input: &str) -> (r: Option<(Vec<String>, Vec<ChainOperator>)>)
    ensures
        match r {
            Some((cmds, ops)) => views(cmds@) == chain_parts(input@).0 && ops@ == chain_parts(input@).1
                && chain_parts(input@).1.len() > 0,
            None => chain_parts(input@).1.len() == 0,
        },
{
    let s = chars_of(input);
    let mut cmds: Vec<Vec<char>> = Vec::new();
    let mut ops: Vec<ChainOperator> = Vec::new();
    let mut cur: Vec<char> = Vec::new();
    let mut sq = false;
    let mut dq = false;
    let mut i: usize = 0;
    assert(s@.skip(0) =~= s@);
    assert(cviews(cmds@) =~= Seq::<Seq<char>>::empty());
    while i < s.len()
        invariant
            i <= s.len(),
            s@ == input@,
            chain_parts(input@) == chain_scan(s@.skip(i as int), sq, dq, cur@, cviews(cmds@), ops@),
        decreases s.len() - i,
    {
        proof { lemma_skip_step(s@, i as int); }
        let c = s[i];
        if c == '\\' {
            cur.push(c);
            if i + 1 < s.len() {
                cur.push(s[i + 1]);
                i += 2;
            } else {
                i += 1;
            }
        } else if c == '\'' && !dq {
            sq = !sq;
            cur.push(c);
            i += 1;
        } else if c == '"' && !sq {
            dq = !dq;
            cur.push(c);
            i += 1;
        } else if (c == '&' || c == '|') && !sq && !dq && i + 1 < s.len() && s[i + 1] == c {
            let op = if c == '&' { ChainOperator::And } else { ChainOperator::Or };
            if push_trimmed_exec(&mut cmds, &cur) {
                ops.push(op);
            }
            cur = Vec::new();
            i += 2;
        } else if c == ';' && !sq && !dq {
            if push_trimmed_exec(&mut cmds, &cur) {
                ops.push(ChainOperator::Sequence);
            }
            cur = Vec::new();
            i += 1;
        } else {
            cur.push(c);
            i += 1;
        }
    }
    push_trimmed_exec(&mut cmds, &cur);
    if ops.len() == 0 {
        None
    } else {
        Some((strings_of(&cmds), ops))
    }
}


pub open spec fn all_nonblank(segs: Seq<Seq<char>>) -> bool {
    forall|i: int| 0 <= i < segs.len() ==> (#[trigger] segs[i]).len() > 0
}

pub open spec fn free_of(s: Seq<char>, c: char) -> bool {
    forall|i: int| 0 <= i < s.len() ==> s[i] != c
}

proof fn lemma_push_trimmed(segs: Seq<Seq<char>>, cur: Seq<char>)
    ensures
        all_nonblank(segs) ==> all_nonblank(push_trimmed(segs, cur)),
        push_trimmed(segs, cur).len() <= segs.len() + 1,
{
    if trim(cur).len() > 0 && all_nonblank(segs) {
        let t = push_trimmed(segs, cur);
        assert forall|i: int| 0 <= i < t.len() implies (#[trigger] t[i]).len() > 0 by {
            if i < segs.len() {
                assert(t[i] == segs[i]);
            }
        }
    }
}

proof fn lemma_pipe_scan(s: Seq<char>, sq: bool, dq: bool, cur: Seq<char>, segs: Seq<Seq<char>>)
    ensures
        all_nonblank(segs) ==> all_nonblank(pipe_scan(s, sq, dq, cur, segs)),
        free_of(s, '|') ==> pipe_scan(s, sq, dq, cur, segs).len() <= segs.len() + 1,
    decreases s.len(),
{
    lemma_push_trimmed(segs, cur);
    if s.len() > 0 {
        let c = s[0];
        if c == '\\' && s.len() >= 2 {
            assert(free_of(s, '|') ==> free_of(s.drop_first().drop_first(), '|'));
            lemma_pipe_scan(s.drop_first().drop_first(), sq, dq, cur.push(c).push(s[1]), segs);
        } else if c == '\\' {
            assert(free_of(s, '|') ==> free_of(s.drop_first(), '|'));
            lemma_pipe_scan(s.drop_first(), sq, dq, cur.push(c), segs);
        } else if c == '\'' && !dq {
            assert(free_of(s, '|') ==> free_of(s.drop_first(), '|'));
            lemma_pipe_scan(s.drop_first(), !sq, dq, cur.push(c), segs);
        } else if c == '"' && !sq {
            assert(free_of(s, '|') ==> free_of(s.drop_first(), '|'));
            lemma_pipe_scan(s.drop_first(), sq, !dq, cur.push(c), segs);
        } else if c == '|' && !sq && !dq {
            lemma_pipe_scan(s.drop_first(), sq, dq, Seq::empty(), push_trimmed(segs, cur));
        } else {
            assert(free_of(s, '|') ==> free_of(s.drop_first(), '|'));
            lemma_pipe_scan(s.drop_first(), sq, dq, cur.push(c), segs);
        }
    }
}

/// No segment of a pipeline is blank.
pub proof fn law_pipeline_segments_not_blank(s: Seq<char>)
    ensures
        forall|i: int| 0 <= i < pipeline_segments(s).len() ==> (#[trigger] pipeline_segments(s)[i]).len() > 0,
{
    lemma_pipe_scan(s, false, false, Seq::empty(), Seq::empty());
    assert(all_nonblank(pipeline_segments(s)));
}

/// A command line without a `|` is not a pipeline (`split_pipeline` gives
/// `None`).
pub proof fn law_no_bar_no_pipeline(s: Seq<char>)
    requires
        forall|i: int| 0 <= i < s.len() ==> s[i] != '|',
    ensures
        pipeline_segments(s).len() <= 1,
{
    assert(free_of(s, '|'));
    lemma_pipe_scan(s, false, false, Seq::empty(), Seq::empty());
}

pub open spec fn is_chain_char(c: char) -> bool {
    c == '&' || c == '|' || c == ';'
}

pub open spec fn free_of_chain_chars(s: Seq<char>) -> bool {
    forall|i: int| 0 <= i < s.len() ==> !is_chain_char(s[i])
}

proof fn lemma_chain_scan(s: Seq<char>, sq: bool, dq: bool, cur: Seq<char>, cmds: Seq<Seq<char>>, ops: Seq<ChainOperator>)
    ensures
        cmds.len() == ops.len() ==> chain_scan(s, sq, dq, cur, cmds, ops).1.len() <= chain_scan(s, sq, dq, cur, cmds, ops).0.len()
            <= chain_scan(s, sq, dq, cur, cmds, ops).1.len() + 1,
        all_nonblank(cmds) ==> all_nonblank(chain_scan(s, sq, dq, cur, cmds, ops).0),
        free_of_chain_chars(s) ==> chain_scan(s, sq, dq, cur, cmds, ops).1 == ops,
    decreases s.len(),
{
    lemma_push_trimmed(cmds, cur);
    if s.len() > 0 {
        let c = s[0];
        let rest = s.drop_first();
        let unquoted = !sq && !dq;
        assert(free_of_chain_chars(s) ==> free_of_chain_chars(rest));
        if c == '\\' && s.len() >= 2 {
            assert(free_of_chain_chars(s) ==> free_of_chain_chars(rest.drop_first()));
            lemma_chain_scan(rest.drop_first(), sq, dq, cur.push(c).push(s[1]), cmds, ops);
        } else if c == '\\' {
            lemma_chain_scan(rest, sq, dq, cur.push(c), cmds, ops);
        } else if c == '\'' && !dq {
            lemma_chain_scan(rest, !sq, dq, cur.push(c), cmds, ops);
        } else if c == '"' && !sq {
            lemma_chain_scan(rest, sq, !dq, cur.push(c), cmds, ops);
        } else if (c == '&' || c == '|') && unquoted && s.len() >= 2 && s[1] == c {
            let op = if c == '&' { ChainOperator::And } else { ChainOperator::Or };
            lemma_chain_scan(rest.drop_first(), sq, dq, Seq::empty(), push_trimmed(cmds, cur),
                if trim(cur).len() > 0 { ops.push(op) } else { ops });
        } else if c == ';' && unquoted {
            lemma_chain_scan(rest, sq, dq, Seq::empty(), push_trimmed(cmds, cur),
                if trim(cur).len() > 0 { ops.push(ChainOperator::Sequence) } else { ops });
        } else {
            lemma_chain_scan(rest, sq, dq, cur.push(c), cmds, ops);
        }
    }
}

/// Every chain operator follows a command, and only the last command may
/// stand without one: there are as many operators as commands, or one
/// fewer. No command is blank.
pub proof fn law_chain_shape(s: Seq<char>)
    ensures
        chain_parts(s).1.len() <= chain_parts(s).0.len() <= chain_parts(s).1.len() + 1,
        forall|i: int| 0 <= i < chain_parts(s).0.len() ==> (#[trigger] chain_parts(s).0[i]).len() > 0,
{
    lemma_chain_scan(s, false, false, Seq::empty(), Seq::empty(), Seq::empty());
    assert(all_nonblank(chain_parts(s).0));
}

/// A command line without `&`, `|` or `;` holds no chain operator
/// (`split_chain` gives `None`).
pub proof fn law_no_operator_no_chain(s: Seq<char>)
    requires
        forall|i: int| 0 <= i < s.len() ==> !is_chain_char(s[i]),
    ensures
        chain_parts(s).1.len() == 0,
{
    assert(free_of_chain_chars(s));
    lemma_chain_scan(s, false, false, Seq::empty(), Seq::empty(), Seq::empty());
}

/// How an operator is written.
pub open spec fn op_text(o: ChainOperator) -> Seq<char> {
    match o {
        ChainOperator::And => seq!['&', '&'],
        ChainOperator::Or => seq!['|', '|'],
        ChainOperator::Sequence => seq![';'],
    }
}

/// The commands written one after another with the operators between them.
pub open spec fn chain_text(cmds: Seq<Seq<char>>, ops: Seq<ChainOperator>) -> Seq<char>
    decreases cmds.len(),
{
    if cmds.len() == 0 {
        Seq::empty()
    } else if cmds.len() == 1 {
        cmds[0]
    } else {
        chain_text(cmds.drop_last(), ops.drop_last()) + op_text(ops.last()) + cmds.last()
    }
}

/// Whether `c` means nothing to the chain splitter: no operator character,
/// quote or backslash.
pub open spec fn chain_plain(c: char) -> bool {
    c != '&' && c != '|' && c != ';' && c != '\\' && c != '\'' && c != '"'
}

pub open spec fn trims(cmds: Seq<Seq<char>>) -> Seq<Seq<char>> {
    cmds.map_values(|c: Seq<char>| trim(c))
}

proof fn lemma_chain_plain_text(x: Seq<char>, r: Seq<char>, cur: Seq<char>, cmds: Seq<Seq<char>>, ops: Seq<ChainOperator>)
    requires
        forall|i: int| 0 <= i < x.len() ==> chain_plain(#[trigger] x[i]),
    ensures
        chain_scan(x + r, false, false, cur, cmds, ops) == chain_scan(r, false, false, cur + x, cmds, ops),
    decreases x.len(),
{
    if x.len() > 0 {
        let s = x + r;
        assert(s[0] == x[0]);
        assert(chain_plain(x[0]));
        assert(s.drop_first() =~= x.drop_first() + r);
        assert forall|i: int| 0 <= i < x.drop_first().len() implies chain_plain(#[trigger] x.drop_first()[i]) by {
            assert(x.drop_first()[i] == x[i + 1]);
        }
        lemma_chain_plain_text(x.drop_first(), r, cur.push(x[0]), cmds, ops);
        assert(cur.push(x[0]) + x.drop_first() =~= cur + x);
    } else {
        assert(x + r =~= r);
        assert(cur + x =~= cur);
    }
}

proof fn lemma_chain_op(o: ChainOperator, r: Seq<char>, cur: Seq<char>, cmds: Seq<Seq<char>>, ops: Seq<ChainOperator>)
    requires
        trim(cur).len() > 0,
    ensures
        chain_scan(op_text(o) + r, false, false, cur, cmds, ops)
            == chain_scan(r, false, false, Seq::empty(), cmds.push(trim(cur)), ops.push(o)),
{
    let s = op_text(o) + r;
    match o {
        ChainOperator::And => {
            assert(s[0] == '&' && s[1] == '&');
            assert(s.drop_first().drop_first() =~= r);
        },
        ChainOperator::Or => {
            assert(s[0] == '|' && s[1] == '|');
            assert(s.drop_first().drop_first() =~= r);
        },
        ChainOperator::Sequence => {
            assert(s[0] == ';');
            assert(s.drop_first() =~= r);
        },
    }
}

proof fn lemma_chain_text_scan(
    cmds: Seq<Seq<char>>,
    ops: Seq<ChainOperator>,
    r: Seq<char>,
    done: Seq<Seq<char>>,
    done_ops: Seq<ChainOperator>,
)
    requires
        cmds.len() >= 1,
        ops.len() == cmds.len() - 1,
        forall|i: int| 0 <= i < cmds.len() ==> trim(#[trigger] cmds[i]).len() > 0,
        forall|i: int, j: int| 0 <= i < cmds.len() && 0 <= j < cmds[i].len() ==> chain_plain(#[trigger] cmds[i][j]),
    ensures
        chain_scan(chain_text(cmds, ops) + r, false, false, Seq::empty(), done, done_ops)
            == chain_scan(r, false, false, cmds.last(), done + trims(cmds.drop_last()), done_ops + ops),
    decreases cmds.len(),
{
    let last = cmds.last();
    assert forall|j: int| 0 <= j < last.len() implies chain_plain(#[trigger] last[j]) by {
        assert(cmds[cmds.len() - 1][j] == last[j]);
    }
    if cmds.len() == 1 {
        lemma_chain_plain_text(cmds[0], r, Seq::empty(), done, done_ops);
        assert(Seq::<char>::empty() + cmds[0] =~= cmds[0]);
        assert(trims(cmds.drop_last()) =~= Seq::<Seq<char>>::empty());
        assert(done + Seq::<Seq<char>>::empty() =~= done);
        assert(ops =~= Seq::<ChainOperator>::empty());
        assert(done_ops + ops =~= done_ops);
    } else {
        let c2 = cmds.drop_last();
        let o2 = ops.drop_last();
        let o = ops.last();
        assert forall|i: int| 0 <= i < c2.len() implies trim(#[trigger] c2[i]).len() > 0 by {
            assert(c2[i] == cmds[i]);
        }
        assert forall|i: int, j: int| 0 <= i < c2.len() && 0 <= j < c2[i].len() implies chain_plain(#[trigger] c2[i][j]) by {
            assert(c2[i] == cmds[i]);
        }
        assert(chain_text(cmds, ops) + r =~= chain_text(c2, o2) + (op_text(o) + (last + r)));
        lemma_chain_text_scan(c2, o2, op_text(o) + (last + r), done, done_ops);
        assert(c2.last() == cmds[cmds.len() - 2]);
        lemma_chain_op(o, last + r, c2.last(), done + trims(c2.drop_last()), done_ops + o2);
        lemma_chain_plain_text(last, r, Seq::empty(), (done + trims(c2.drop_last())).push(trim(c2.last())), (done_ops + o2).push(o));
        assert(Seq::<char>::empty() + last =~= last);
        assert((done + trims(c2.drop_last())).push(trim(c2.last())) =~= done + trims(cmds.drop_last()));
        assert((done_ops + o2).push(o) =~= done_ops + ops);
    }
}

/// Splitting undoes writing a chain: commands that hold no operator
/// character, quote or backslash and are not blank, written with operators
/// between them, split back into those commands (trimmed) and exactly those
/// operators, each the one written at its place (`a && b || c` gives `&&`
/// then `||`).
pub proof fn law_chain_round_trip(cmds: Seq<Seq<char>>, ops: Seq<ChainOperator>)
    requires
        cmds.len() >= 1,
        ops.len() == cmds.len() - 1,
        forall|i: int| 0 <= i < cmds.len() ==> trim(#[trigger] cmds[i]).len() > 0,
        forall|i: int, j: int| 0 <= i < cmds.len() && 0 <= j < cmds[i].len() ==> chain_plain(#[trigger] cmds[i][j]),
    ensures
        chain_parts(chain_text(cmds, ops)) == (trims(cmds), ops),
{
    let e = Seq::<Seq<char>>::empty();
    let eo = Seq::<ChainOperator>::empty();
    lemma_chain_text_scan(cmds, ops, Seq::empty(), e, eo);
    assert(chain_text(cmds, ops) + Seq::<char>::empty() =~= chain_text(cmds, ops));
    assert(trim(cmds.last()).len() > 0) by {
        assert(cmds[cmds.len() - 1] == cmds.last());
    }
    assert((e + trims(cmds.drop_last())).push(trim(cmds.last())) =~= trims(cmds));
    assert(eo + ops =~= ops);
}

proof fn lemma_chain_quoted(y: Seq<char>, r: Seq<char>, q: char, cur: Seq<char>, cmds: Seq<Seq<char>>, ops: Seq<ChainOperator>)
    requires
        q == '\'' || q == '"',
        forall|i: int| 0 <= i < y.len() ==> #[trigger] y[i] != q && y[i] != '\\',
    ensures
        chain_scan(y + r, q == '\'', q == '"', cur, cmds, ops) == chain_scan(r, q == '\'', q == '"', cur + y, cmds, ops),
    decreases y.len(),
{
    if y.len() > 0 {
        let s = y + r;
        assert(s[0] == y[0]);
        assert(s.drop_first() =~= y.drop_first() + r);
        assert forall|i: int| 0 <= i < y.drop_first().len() implies #[trigger] y.drop_first()[i] != q
            && y.drop_first()[i] != '\\' by {
            assert(y.drop_first()[i] == y[i + 1]);
        }
        lemma_chain_quoted(y.drop_first(), r, q, cur.push(y[0]), cmds, ops);
        assert(cur.push(y[0]) + y.drop_first() =~= cur + y);
    } else {
        assert(y + r =~= r);
        assert(cur + y =~= cur);
    }
}

/// Operators inside quotes are text: a quoted word (without its own quote or
/// a backslash inside) is one command, with no operator, whatever `&&`, `||`
/// or `;` it holds.
pub proof fn law_quoted_operators_stay(q: char, y: Seq<char>)
    requires
        q == '\'' || q == '"',
        forall|i: int| 0 <= i < y.len() ==> #[trigger] y[i] != q && y[i] != '\\',
    ensures
        chain_parts(seq![q] + y + seq![q]) == (seq![seq![q] + y + seq![q]], Seq::<ChainOperator>::empty()),
{
    let w = seq![q] + y + seq![q];
    let e = Seq::<Seq<char>>::empty();
    let eo = Seq::<ChainOperator>::empty();
    assert(w[0] == q);
    assert(w.drop_first() =~= y + seq![q]);
    assert(chain_scan(w, false, false, Seq::empty(), e, eo)
        == chain_scan(y + seq![q], q == '\'', q == '"', seq![q], e, eo));
    lemma_chain_quoted(y, seq![q], q, seq![q], e, eo);
    let t = seq![q];
    assert(t[0] == q);
    assert(t.drop_first() =~= Seq::<char>::empty());
    assert(seq![q] + y + seq![q] =~= (seq![q] + y).push(q));
    assert(chain_scan(t, q == '\'', q == '"', seq![q] + y, e, eo)
        == chain_scan(Seq::<char>::empty(), false, false, (seq![q] + y).push(q), e, eo));
    assert(w.last() == q);
    assert(!crate::text::char_is_whitespace(q));
    crate::text::lemma_trim_unchanged(w);
    assert(e.push(w) =~= seq![w]);
}

/// The segments written one after another with `|` between them.
pub open spec fn pipe_text(segs: Seq<Seq<char>>) -> Seq<char>
    decreases segs.len(),
{
    if segs.len() == 0 {
        Seq::empty()
    } else if segs.len() == 1 {
        segs[0]
    } else {
        pipe_text(segs.drop_last()) + seq!['|'] + segs.last()
    }
}

proof fn lemma_pipe_plain(x: Seq<char>, r: Seq<char>, cur: Seq<char>, segs: Seq<Seq<char>>)
    requires
        forall|i: int| 0 <= i < x.len() ==> chain_plain(#[trigger] x[i]),
    ensures
        pipe_scan(x + r, false, false, cur, segs) == pipe_scan(r, false, false, cur + x, segs),
    decreases x.len(),
{
    if x.len() > 0 {
        let s = x + r;
        assert(s[0] == x[0]);
        assert(chain_plain(x[0]));
        assert(s.drop_first() =~= x.drop_first() + r);
        assert forall|i: int| 0 <= i < x.drop_first().len() implies chain_plain(#[trigger] x.drop_first()[i]) by {
            assert(x.drop_first()[i] == x[i + 1]);
        }
        lemma_pipe_plain(x.drop_first(), r, cur.push(x[0]), segs);
        assert(cur.push(x[0]) + x.drop_first() =~= cur + x);
    } else {
        assert(x + r =~= r);
        assert(cur + x =~= cur);
    }
}

proof fn lemma_pipe_text_scan(segs: Seq<Seq<char>>, r: Seq<char>, done: Seq<Seq<char>>)
    requires
        segs.len() >= 1,
        forall|i: int| 0 <= i < segs.len() ==> trim(#[trigger] segs[i]).len() > 0,
        forall|i: int, j: int| 0 <= i < segs.len() && 0 <= j < segs[i].len() ==> chain_plain(#[trigger] segs[i][j]),
    ensures
        pipe_scan(pipe_text(segs) + r, false, false, Seq::empty(), done)
            == pipe_scan(r, false, false, segs.last(), done + trims(segs.drop_last())),
    decreases segs.len(),
{
    let last = segs.last();
    assert forall|j: int| 0 <= j < last.len() implies chain_plain(#[trigger] last[j]) by {
        assert(segs[segs.len() - 1][j] == last[j]);
    }
    if segs.len() == 1 {
        lemma_pipe_plain(segs[0], r, Seq::empty(), done);
        assert(Seq::<char>::empty() + segs[0] =~= segs[0]);
        assert(trims(segs.drop_last()) =~= Seq::<Seq<char>>::empty());
        assert(done + Seq::<Seq<char>>::empty() =~= done);
    } else {
        let s2 = segs.drop_last();
        assert forall|i: int| 0 <= i < s2.len() implies trim(#[trigger] s2[i]).len() > 0 by {
            assert(s2[i] == segs[i]);
        }
        assert forall|i: int, j: int| 0 <= i < s2.len() && 0 <= j < s2[i].len() implies chain_plain(#[trigger] s2[i][j]) by {
            assert(s2[i] == segs[i]);
        }
        assert(pipe_text(segs) + r =~= pipe_text(s2) + (seq!['|'] + (last + r)));
        lemma_pipe_text_scan(s2, seq!['|'] + (last + r), done);
        assert(s2.last() == segs[segs.len() - 2]);
        let t = seq!['|'] + (last + r);
        assert(t[0] == '|');
        assert(t.drop_first() =~= last + r);
        let d2 = done + trims(s2.drop_last());
        assert(pipe_scan(t, false, false, s2.last(), d2)
            == pipe_scan(last + r, false, false, Seq::empty(), push_trimmed(d2, s2.last())));
        assert(push_trimmed(d2, s2.last()) == d2.push(trim(s2.last())));
        lemma_pipe_plain(last, r, Seq::empty(), d2.push(trim(s2.last())));
        assert(Seq::<char>::empty() + last =~= last);
        assert(d2.push(trim(s2.last())) =~= done + trims(segs.drop_last()));
    }
}

/// Splitting undoes writing a pipeline: segments that hold no operator
/// character, quote or backslash and are not blank, written with `|` between
/// them, split back into exactly those segments, trimmed and in order.
pub proof fn law_pipeline_round_trip(segs: Seq<Seq<char>>)
    requires
        segs.len() >= 1,
        forall|i: int| 0 <= i < segs.len() ==> trim(#[trigger] segs[i]).len() > 0,
        forall|i: int, j: int| 0 <= i < segs.len() && 0 <= j < segs[i].len() ==> chain_plain(#[trigger] segs[i][j]),
    ensures
        pipeline_segments(pipe_text(segs)) == trims(segs),
{
    let e = Seq::<Seq<char>>::empty();
    lemma_pipe_text_scan(segs, Seq::empty(), e);
    assert(pipe_text(segs) + Seq::<char>::empty() =~= pipe_text(segs));
    assert(trim(segs.last()).len() > 0) by {
        assert(segs[segs.len() - 1] == segs.last());
    }
    assert((e + trims(segs.drop_last())).push(trim(segs.last())) =~= trims(segs));
}

} // verus!
