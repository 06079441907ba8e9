//! Here-documents: finding `<<DELIMITER` in a command line and removing it.
use vstd::prelude::*;
use crate::text::{char_is_whitespace, chars_of, is_whitespace, lemma_skip_step, string_of, trim, trim_chars, trim_end, trim_start};

verus! {

/// Where the scanner of a here-document marker stands: in ordinary text; after
/// `<<`, skipping blanks; inside a quoted delimiter; inside an unquoted one.
pub enum MarkerMode {
    Text,
    Blanks,
    Quoted,
    Word,
}

/// Orders the modes so that a step that reads no character lowers the rank.
pub open spec fn mode_rank(m: MarkerMode) -> nat {
    match m {
        MarkerMode::Text => 0,
        MarkerMode::Word => 1,
        MarkerMode::Blanks => 2,
        MarkerMode::Quoted => 3,
    }
}

pub open spec fn is_blank(c: char) -> bool {
    c == ' ' || c == '\t'
}

/// The first here-document marker of `s`, as `(delimiter, was_quoted)`, read
/// from the given state: `sq`/`dq` tell which quote is open in the text, `q` is
/// the quote of a quoted delimiter and `acc` the delimiter read so far. An
/// unquoted `<<` starts a marker; blanks after it are skipped; a delimiter
/// opening with `'` or `"` runs to the matching quote, any other runs to the
/// next whitespace. A marker with an empty delimiter is passed over.
pub open spec fn marker_scan(s: Seq<char>, mode: MarkerMode, sq: bool, dq: bool, q: char, acc: Seq<char>) -> Option<(Seq<char>, bool)>
    decreases s.len(), mode_rank(mode),
{
    match mode {
        MarkerMode::Text => {
            if s.len() == 0 {
                None
            } else {
                let c = s[0];
                if c == '\'' && !dq {
                    marker_scan(s.drop_first(), MarkerMode::Text, !sq, dq, q, acc)
                } else if c == '"' && !sq {
                    marker_scan(s.drop_first(), MarkerMode::Text, sq, !dq, q, acc)
                } else if c == '<' && !sq && !dq && s.len() >= 2 && s[1] == '<' {
                    marker_scan(s.drop_first().drop_first(), MarkerMode::Blanks, sq, dq, q, Seq::empty())
                } else {
                    marker_scan(s.drop_first(), MarkerMode::Text, sq, dq, q, acc)
                }
            }
        },
        MarkerMode::Blanks => {
            if s.len() > 0 && is_blank(s[0]) {
                marker_scan(s.drop_first(), MarkerMode::Blanks, sq, dq, q, acc)
            } else if s.len() > 0 && (s[0] == '\'' || s[0] == '"') {
                marker_scan(s.drop_first(), MarkerMode::Quoted, sq, dq, s[0], Seq::empty())
            } else {
                marker_scan(s, MarkerMode::Word, sq, dq, q, Seq::empty())
            }
        },
        MarkerMode::Quoted => {
            if s.len() == 0 || s[0] == q {
                if acc.len() > 0 {
                    Some((acc, true))
                } else if s.len() == 0 {
                    None
                } else {
                    marker_scan(s.drop_first(), MarkerMode::Text, sq, dq, ' ', Seq::empty())
                }
            } else {
                marker_scan(s.drop_first(), MarkerMode::Quoted, sq, dq, q, acc.push(s[0]))
            }
        },
        MarkerMode::Word => {
            if s.len() == 0 || char_is_whitespace(s[0]) {
                if acc.len() > 0 {
                    Some((acc, false))
                } else {
                    marker_scan(s, MarkerMode::Text, sq, dq, ' ', Seq::empty())
                }
            } else {
                marker_scan(s.drop_first(), MarkerMode::Word, sq, dq, q, acc.push(s[0]))
            }
        },
    }
}

/// The here-document marker of `s`, if there is one.
pub open spec fn heredoc_marker(s: Seq<char>) -> Option<(Seq<char>, bool)> {
    marker_scan(s, MarkerMode::Text, false, false, ' ', Seq::empty())
}

/// `s` with every here-document marker (`<<`, the blanks after it and its
/// delimiter) left out, read from the given state; `out` is what was kept so
/// far. Here a quoted delimiter ends at its quote, an unquoted one before the
/// next whitespace, whatever its length.
pub open spec fn strip_scan(s: Seq<char>, mode: MarkerMode, sq: bool, dq: bool, q: char, out: Seq<char>) -> Seq<char>
    decreases s.len(), mode_rank(mode),
{
    match mode {
        MarkerMode::Text => {
            if s.len() == 0 {
                out
            } else {
                let c = s[0];
                if c == '\'' && !dq {
                    strip_scan(s.drop_first(), MarkerMode::Text, !sq, dq, q, out.push(c))
                } else if c == '"' && !sq {
                    strip_scan(s.drop_first(), MarkerMode::Text, sq, !dq, q, out.push(c))
                } else if c == '<' && !sq && !dq && s.len() >= 2 && s[1] == '<' {
                    strip_scan(s.drop_first().drop_first(), MarkerMode::Blanks, sq, dq, q, out)
                } else {
                    strip_scan(s.drop_first(), MarkerMode::Text, sq, dq, q, out.push(c))
                }
            }
        },
        MarkerMode::Blanks => {
            if s.len() > 0 && is_blank(s[0]) {
                strip_scan(s.drop_first(), MarkerMode::Blanks, sq, dq, q, out)
            } else if s.len() > 0 && (s[0] == '\'' || s[0] == '"') {
                strip_scan(s.drop_first(), MarkerMode::Quoted, sq, dq, s[0], out)
            } else {
                strip_scan(s, MarkerMode::Word, sq, dq, q, out)
            }
        },
        MarkerMode::Quoted => {
            if s.len() == 0 {
                out
            } else if s[0] == q {
                strip_scan(s.drop_first(), MarkerMode::Text, sq, dq, ' ', out)
            } else {
                strip_scan(s.drop_first(), MarkerMode::Quoted, sq, dq, q, out)
            }
        },
        MarkerMode::Word => {
            if s.len() == 0 || char_is_whitespace(s[0]) {
                strip_scan(s, MarkerMode::Text, sq, dq, ' ', out)
            } else {
                strip_scan(s.drop_first(), MarkerMode::Word, sq, dq, q, out)
            }
        },
    }
}

/// The command line without its here-document markers, trimmed.
pub open spec fn without_heredoc(s: Seq<char>) -> Seq<char> {
    trim(strip_scan(s, MarkerMode::Text, false, false, ' ', Seq::empty()))
}

/// Checks whether `input` holds a here document (`<<DELIMITER`). Returns
/// `Some((delimiter, is_quoted))` for the first marker with a non-empty
/// delimiter, where `is_quoted` tells that the delimiter was quoted (its body
/// is then not expanded), and `None` when there is none.
pub fn detect_heredoc(input: &str) -> (r: Option<(String, bool)>)
    ensures
        match r {
            Some((d, quoted)) => heredoc_marker(input@) == Some((d@, quoted)),
            None => heredoc_marker(input@) is None,
        },
{
    let s = chars_of(input);
    let n = s.len();
    let mut sq = false;
    let mut dq = false;
    let mut i: usize = 0;
    assert(s@.skip(0) =~= s@);
    while i < n
        invariant
            n == s.len(),
            i <= n,
            s@ == input@,
            heredoc_marker(input@) == marker_scan(s@.skip(i as int), MarkerMode::Text, sq, dq, ' ', Seq::empty()),
        decreases n - i,
    {
        proof { lemma_skip_step(s@, i as int); }
        let c = s[i];
        if c == '\'' && !dq {
            sq = !sq;
            i += 1;
        } else if c == '"' && !sq {
            dq = !dq;
            i += 1;
        } else if c == '<' && !sq && !dq && i + 1 < n && s[i + 1] == '<' {
            i += 2;
            let ghost i0 = i;
            assert(heredoc_marker(input@) == marker_scan(s@.skip(i as int), MarkerMode::Blanks, sq, dq, ' ', Seq::empty()));
            while i < n && (s[i] == ' ' || s[i] == '\t')
                invariant
                    n == s.len(),
                    i0 <= i <= n,
                    heredoc_marker(input@) == marker_scan(s@.skip(i as int), MarkerMode::Blanks, sq, dq, ' ', Seq::empty()),
                decreases n - i,
            {
                proof { lemma_skip_step(s@, i as int); }
                i += 1;
            }
            let mut delimiter: Vec<char> = Vec::new();
            if i < n && (s[i] == '\'' || s[i] == '"') {
                proof { lemma_skip_step(s@, i as int); }
                let quote = s[i];
                i += 1;
                while i < n && s[i] != quote
                    invariant
                        n == s.len(),
                        i0 <= i <= n,
                        heredoc_marker(input@) == marker_scan(s@.skip(i as int), MarkerMode::Quoted, sq, dq, quote, delimiter@),
                    decreases n - i,
                {
                    proof { lemma_skip_step(s@, i as int); }
                    delimiter.push(s[i]);
                    i += 1;
                }
                if i < n {
                    proof { lemma_skip_step(s@, i as int); }
                }
                if delimiter.len() > 0 {
                    return Some((string_of(&delimiter), true));
                }
                if i < n {
                    i += 1;
                }
            } else {
                assert(heredoc_marker(input@) == marker_scan(s@.skip(i as int), MarkerMode::Word, sq, dq, ' ', Seq::empty())) by {
                    if i < n { lemma_skip_step(s@, i as int); }
                }
                while i < n && !is_whitespace(s[i])
                    invariant
                        n == s.len(),
                        i0 <= i <= n,
                        heredoc_marker(input@) == marker_scan(s@.skip(i as int), MarkerMode::Word, sq, dq, ' ', delimiter@),
                    decreases n - i,
                {
                    proof { lemma_skip_step(s@, i as int); }
                    delimiter.push(s[i]);
                    i += 1;
                }
                if i < n {
                    proof { lemma_skip_step(s@, i as int); }
                }
                if delimiter.len() > 0 {
                    return Some((string_of(&delimiter), false));
                }
            }
        } else {
            i += 1;
        }
    }
    None
}

/// Removes the here-document part (`<<DELIMITER`) from `input`, leaving the
/// base command, trimmed.
pub fn remove_heredoc_from_command(input: &str) -> (r: String)
    ensures
        r@ == without_heredoc(input@),
{
    let s = chars_of(input);
    let n = s.len();
    let mut out: Vec<char> = Vec::new();
    let mut sq = false;
    let mut dq = false;
    let mut i: usize = 0;
    let ghost full = strip_scan(input@, MarkerMode::Text, false, false, ' ', Seq::empty());
    assert(s@.skip(0) =~= s@);
    while i < n
        invariant
            n == s.len(),
            i <= n,
            s@ == input@,
            full == strip_scan(s@.skip(i as int), MarkerMode::Text, sq, dq, ' ', out@),
        decreases n - i,
    {
        proof { lemma_skip_step(s@, i as int); }
        let c = s[i];
        if c == '\'' && !dq {
            sq = !sq;
            out.push(c);
            i += 1;
        } else if c == '"' && !sq {
            dq = !dq;
            out.push(c);
            i += 1;
        } else if c == '<' && !sq && !dq && i + 1 < n && s[i + 1] == '<' {
            i += 2;
            let ghost i0 = i;
            while i < n && (s[i] == ' ' || s[i] == '\t')
                invariant
                    n == s.len(),
                    i0 <= i <= n,
                    full == strip_scan(s@.skip(i as int), MarkerMode::Blanks, sq, dq, ' ', out@),
                decreases n - i,
            {
                proof { lemma_skip_step(s@, i as int); }
                i += 1;
            }
            if i < n && (s[i] == '\'' || s[i] == '"') {
                proof { lemma_skip_step(s@, i as int); }
                let quote = s[i];
                i += 1;
                while i < n && s[i] != quote
                    invariant
                        n == s.len(),
                        i0 <= i <= n,
                        full == strip_scan(s@.skip(i as int), MarkerMode::Quoted, sq, dq, quote, out@),
                    decreases n - i,
                {
                    proof { lemma_skip_step(s@, i as int); }
                    i += 1;
                }
                if i < n {
                    proof { lemma_skip_step(s@, i as int); }
                    i += 1;
                }
            } else {
                assert(full == strip_scan(s@.skip(i as int), MarkerMode::Word, sq, dq, ' ', out@)) by {
                    if i < n { lemma_skip_step(s@, i as int); }
                }
                while i < n && !is_whitespace(s[i])
                    invariant
                        n == s.len(),
                        i0 <= i <= n,
                        full == strip_scan(s@.skip(i as int), MarkerMode::Word, sq, dq, ' ', out@),
                    decreases n - i,
                {
                    proof { lemma_skip_step(s@, i as int); }
                    i += 1;
                }
                if i < n {
                    proof { lemma_skip_step(s@, i as int); }
                }
            }
        } else {
            out.push(c);
            i += 1;
        }
    }
    let t = trim_chars(&out);
    string_of(&t)
}


proof fn lemma_scan_without_angle(s: Seq<char>, sq: bool, dq: bool, q: char, acc: Seq<char>, out: Seq<char>)
    requires
        forall|i: int| 0 <= i < s.len() ==> s[i] != '<',
    ensures
        marker_scan(s, MarkerMode::Text, sq, dq, q, acc) is None,
        strip_scan(s, MarkerMode::Text, sq, dq, q, out) == out + s,
    decreases s.len(),
{
    if s.len() == 0 {
        assert(out + s =~= out);
    } else {
        let c = s[0];
        let nsq = if c == '\'' && !dq { !sq } else { sq };
        let ndq = if c == '"' && !sq { !dq } else { dq };
        lemma_scan_without_angle(s.drop_first(), nsq, ndq, q, acc, out.push(c));
        assert(out.push(c) + s.drop_first() =~= out + s);
    }
}

/// A command line without `<` holds no here-document: `detect_heredoc`
/// gives `None` and `remove_heredoc_from_command` gives the line trimmed.
pub proof fn law_no_angle_no_heredoc(s: Seq<char>)
    requires
        forall|i: int| 0 <= i < s.len() ==> s[i] != '<',
    ensures
        heredoc_marker(s) is None,
        without_heredoc(s) == trim(s),
{
    lemma_scan_without_angle(s, false, false, ' ', Seq::empty(), Seq::empty());
    assert(Seq::<char>::empty() + s =~= s);
}


// ---------------------------------------------------------------- removal leaves no marker

/// Whether `x`, read from the quote state `sq`/`dq`, holds no unquoted `<<`.
pub open spec fn no_marker_start(x: Seq<char>, sq: bool, dq: bool) -> bool
    decreases x.len(),
{
    if x.len() == 0 {
        true
    } else {
        let c = x[0];
        if c == '<' && !sq && !dq && x.len() >= 2 && x[1] == '<' {
            false
        } else {
            let nsq = if c == '\'' && !dq { !sq } else { sq };
            let ndq = if c == '"' && !sq { !dq } else { dq };
            no_marker_start(x.drop_first(), nsq, ndq)
        }
    }
}

proof fn lemma_strip_acc(s: Seq<char>, mode: MarkerMode, sq: bool, dq: bool, q: char, out: Seq<char>)
    ensures
        strip_scan(s, mode, sq, dq, q, out) == out + strip_scan(s, mode, sq, dq, q, Seq::empty()),
    decreases s.len(), mode_rank(mode),
{
    let e = Seq::<char>::empty();
    match mode {
        MarkerMode::Text => {
            if s.len() == 0 {
                assert(out + e =~= out);
            } else {
                let c = s[0];
                if c == '<' && !sq && !dq && s.len() >= 2 && s[1] == '<' {
                    lemma_strip_acc(s.drop_first().drop_first(), MarkerMode::Blanks, sq, dq, q, out);
                } else {
                    let nsq = if c == '\'' && !dq { !sq } else { sq };
                    let ndq = if c == '"' && !sq && !(c == '\'' && !dq) { !dq } else { dq };
                    lemma_strip_acc(s.drop_first(), MarkerMode::Text, nsq, ndq, q, out.push(c));
                    lemma_strip_acc(s.drop_first(), MarkerMode::Text, nsq, ndq, q, e.push(c));
                    assert(out.push(c) + strip_scan(s.drop_first(), MarkerMode::Text, nsq, ndq, q, e)
                        =~= out + (e.push(c) + strip_scan(s.drop_first(), MarkerMode::Text, nsq, ndq, q, e)));
                }
            }
        },
        MarkerMode::Blanks => {
            if s.len() > 0 && is_blank(s[0]) {
                lemma_strip_acc(s.drop_first(), MarkerMode::Blanks, sq, dq, q, out);
            } else if s.len() > 0 && (s[0] == '\'' || s[0] == '"') {
                lemma_strip_acc(s.drop_first(), MarkerMode::Quoted, sq, dq, s[0], out);
            } else {
                lemma_strip_acc(s, MarkerMode::Word, sq, dq, q, out);
            }
        },
        MarkerMode::Quoted => {
            if s.len() == 0 {
                assert(out + e =~= out);
            } else if s[0] == q {
                lemma_strip_acc(s.drop_first(), MarkerMode::Text, sq, dq, ' ', out);
            } else {
                lemma_strip_acc(s.drop_first(), MarkerMode::Quoted, sq, dq, q, out);
            }
        },
        MarkerMode::Word => {
            if s.len() == 0 || char_is_whitespace(s[0]) {
                lemma_strip_acc(s, MarkerMode::Text, sq, dq, ' ', out);
            } else {
                lemma_strip_acc(s.drop_first(), MarkerMode::Word, sq, dq, q, out);
            }
        },
    }
}

/// What removal keeps from `s`, from the given state, holds no unquoted
/// `<<` (read from the quote state at that point); from ordinary text not at
/// a marker, it starts with the first character of `s`.
proof fn lemma_kept(s: Seq<char>, mode: MarkerMode, sq: bool, dq: bool, q: char)
    ensures
        no_marker_start(strip_scan(s, mode, sq, dq, q, Seq::empty()), sq, dq),
        mode == MarkerMode::Text && s.len() > 0 && !(s[0] == '<' && !sq && !dq && s.len() >= 2 && s[1] == '<')
            ==> strip_scan(s, mode, sq, dq, q, Seq::empty()).len() > 0
                && strip_scan(s, mode, sq, dq, q, Seq::empty())[0] == s[0],
    decreases s.len(), mode_rank(mode),
{
    let e = Seq::<char>::empty();
    match mode {
        MarkerMode::Text => {
            if s.len() > 0 {
                let c = s[0];
                if c == '<' && !sq && !dq && s.len() >= 2 && s[1] == '<' {
                    lemma_kept(s.drop_first().drop_first(), MarkerMode::Blanks, sq, dq, q);
                } else {
                    let nsq = if c == '\'' && !dq { !sq } else { sq };
                    let ndq = if c == '"' && !sq && !(c == '\'' && !dq) { !dq } else { dq };
                    let rest = s.drop_first();
                    lemma_kept(rest, MarkerMode::Text, nsq, ndq, q);
                    lemma_strip_acc(rest, MarkerMode::Text, nsq, ndq, q, e.push(c));
                    let o1 = strip_scan(rest, MarkerMode::Text, nsq, ndq, q, e);
                    let o = e.push(c) + o1;
                    assert(strip_scan(s, mode, sq, dq, q, e) == o);
                    assert(o[0] == c);
                    assert(o.drop_first() =~= o1);
                    if c == '<' && !sq && !dq && rest.len() > 0 {
                        assert(rest[0] == s[1]);
                        assert(o[1] == o1[0]);
                    }
                    assert(nsq == (if c == '\'' && !dq { !sq } else { sq }));
                    assert(ndq == (if c == '"' && !sq { !dq } else { dq }));
                }
            }
        },
        MarkerMode::Blanks => {
            if s.len() > 0 && is_blank(s[0]) {
                lemma_kept(s.drop_first(), MarkerMode::Blanks, sq, dq, q);
            } else if s.len() > 0 && (s[0] == '\'' || s[0] == '"') {
                lemma_kept(s.drop_first(), MarkerMode::Quoted, sq, dq, s[0]);
            } else {
                lemma_kept(s, MarkerMode::Word, sq, dq, q);
            }
        },
        MarkerMode::Quoted => {
            if s.len() > 0 && s[0] == q {
                lemma_kept(s.drop_first(), MarkerMode::Text, sq, dq, ' ');
            } else if s.len() > 0 {
                lemma_kept(s.drop_first(), MarkerMode::Quoted, sq, dq, q);
            }
        },
        MarkerMode::Word => {
            if s.len() == 0 || char_is_whitespace(s[0]) {
                lemma_kept(s, MarkerMode::Text, sq, dq, ' ');
            } else {
                lemma_kept(s.drop_first(), MarkerMode::Word, sq, dq, q);
            }
        },
    }
}

/// Text with no unquoted `<<` holds no marker, and removal keeps it whole.
proof fn lemma_clean_scans(x: Seq<char>, sq: bool, dq: bool, out: Seq<char>)
    requires
        no_marker_start(x, sq, dq),
    ensures
        marker_scan(x, MarkerMode::Text, sq, dq, ' ', Seq::empty()) is None,
        strip_scan(x, MarkerMode::Text, sq, dq, ' ', out) == out + x,
    decreases x.len(),
{
    if x.len() == 0 {
        assert(out + x =~= out);
    } else {
        let c = x[0];
        let nsq = if c == '\'' && !dq { !sq } else { sq };
        let ndq = if c == '"' && !sq { !dq } else { dq };
        lemma_clean_scans(x.drop_first(), nsq, ndq, out.push(c));
        assert(out.push(c) + x.drop_first() =~= out + x);
    }
}

proof fn lemma_nms_prefix(x: Seq<char>, k: int, sq: bool, dq: bool)
    requires
        no_marker_start(x, sq, dq),
        0 <= k <= x.len(),
    ensures
        no_marker_start(x.take(k), sq, dq),
    decreases x.len(),
{
    if k > 0 {
        let c = x[0];
        let nsq = if c == '\'' && !dq { !sq } else { sq };
        let ndq = if c == '"' && !sq { !dq } else { dq };
        lemma_nms_prefix(x.drop_first(), k - 1, nsq, ndq);
        assert(x.take(k).drop_first() =~= x.drop_first().take(k - 1));
        assert(x.take(k)[0] == c);
        if x.take(k).len() >= 2 {
            assert(x.take(k)[1] == x[1]);
        }
    }
}

proof fn lemma_trim_start_nms(x: Seq<char>, sq: bool, dq: bool)
    requires
        no_marker_start(x, sq, dq),
    ensures
        no_marker_start(trim_start(x), sq, dq),
        trim_start(x).len() > 0 ==> !char_is_whitespace(trim_start(x)[0]),
    decreases x.len(),
{
    if x.len() > 0 && char_is_whitespace(x[0]) {
        assert(x[0] != '<' && x[0] != '\'' && x[0] != '"');
        lemma_trim_start_nms(x.drop_first(), sq, dq);
    }
}

proof fn lemma_trim_end_prefix(y: Seq<char>)
    ensures
        trim_end(y).len() <= y.len(),
        trim_end(y) == y.take(trim_end(y).len() as int),
        trim_end(y).len() > 0 ==> !char_is_whitespace(trim_end(y).last()),
    decreases y.len(),
{
    if y.len() > 0 && char_is_whitespace(y.last()) {
        lemma_trim_end_prefix(y.drop_last());
        let k = trim_end(y).len() as int;
        assert(y.drop_last().take(k) =~= y.take(k));
    } else {
        assert(y.take(y.len() as int) =~= y);
    }
}

/// Removing the here-document markers leaves none: the result holds no
/// marker, removing again changes nothing, and it is already trimmed.
pub proof fn law_removal_is_clean(s: Seq<char>)
    ensures
        heredoc_marker(without_heredoc(s)) is None,
        without_heredoc(without_heredoc(s)) == without_heredoc(s),
        trim(without_heredoc(s)) == without_heredoc(s),
{
    let e = Seq::<char>::empty();
    let o = strip_scan(s, MarkerMode::Text, false, false, ' ', e);
    lemma_kept(s, MarkerMode::Text, false, false, ' ');
    lemma_trim_start_nms(o, false, false);
    let t = trim_start(o);
    lemma_trim_end_prefix(t);
    let r = trim_end(t);
    lemma_nms_prefix(t, r.len() as int, false, false);
    assert(r == without_heredoc(s));
    lemma_clean_scans(r, false, false, e);
    assert(e + r =~= r);
    if r.len() > 0 {
        assert(r[0] == t[0]);
        crate::text::lemma_trim_unchanged(r);
    } else {
        assert(trim_start(r) == r);
        assert(trim_end(r) == r);
    }
}

proof fn lemma_marker_plain_text(p: Seq<char>, r: Seq<char>)
    requires
        forall|i: int| 0 <= i < p.len() ==> #[trigger] p[i] != '<' && p[i] != '\'' && p[i] != '"',
    ensures
        marker_scan(p + r, MarkerMode::Text, false, false, ' ', Seq::empty())
            == marker_scan(r, MarkerMode::Text, false, false, ' ', Seq::empty()),
    decreases p.len(),
{
    if p.len() > 0 {
        let s = p + r;
        assert(s[0] == p[0]);
        assert(s.drop_first() =~= p.drop_first() + r);
        assert forall|i: int| 0 <= i < p.drop_first().len() implies #[trigger] p.drop_first()[i] != '<'
            && p.drop_first()[i] != '\'' && p.drop_first()[i] != '"' by {
            assert(p.drop_first()[i] == p[i + 1]);
        }
        lemma_marker_plain_text(p.drop_first(), r);
    } else {
        assert(p + r =~= r);
    }
}

proof fn lemma_marker_word(w: Seq<char>, r: Seq<char>, acc: Seq<char>)
    requires
        forall|i: int| 0 <= i < w.len() ==> !char_is_whitespace(#[trigger] w[i]),
    ensures
        marker_scan(w + r, MarkerMode::Word, false, false, ' ', acc)
            == marker_scan(r, MarkerMode::Word, false, false, ' ', acc + w),
    decreases w.len(),
{
    if w.len() > 0 {
        let s = w + r;
        assert(s[0] == w[0]);
        assert(s.drop_first() =~= w.drop_first() + r);
        assert forall|i: int| 0 <= i < w.drop_first().len() implies !char_is_whitespace(#[trigger] w.drop_first()[i]) by {
            assert(w.drop_first()[i] == w[i + 1]);
        }
        lemma_marker_word(w.drop_first(), r, acc.push(w[0]));
        assert(acc.push(w[0]) + w.drop_first() =~= acc + w);
    } else {
        assert(w + r =~= r);
        assert(acc + w =~= acc);
    }
}

/// An unquoted delimiter runs to the next whitespace, whatever it holds: after
/// text without `<` or quotes, `<<` followed by a word `w` that holds no
/// whitespace and does not open with a quote, and then the end of the line or
/// whitespace, is a here-document with the delimiter `w`, not quoted (so
/// `cat <<END_TEXT` has the delimiter `END_TEXT`).
pub proof fn law_unquoted_delimiter_is_whole_word(p: Seq<char>, w: Seq<char>, rest: Seq<char>)
    requires
        forall|i: int| 0 <= i < p.len() ==> #[trigger] p[i] != '<' && p[i] != '\'' && p[i] != '"',
        w.len() > 0,
        forall|i: int| 0 <= i < w.len() ==> !char_is_whitespace(#[trigger] w[i]),
        w[0] != '\'' && w[0] != '"',
        rest.len() == 0 || char_is_whitespace(rest[0]),
    ensures
        heredoc_marker(p + seq!['<', '<'] + w + rest) == Some((w, false)),
{
    let r = seq!['<', '<'] + w + rest;
    assert(p + seq!['<', '<'] + w + rest =~= p + r);
    lemma_marker_plain_text(p, r);
    assert(r[0] == '<' && r[1] == '<');
    assert(r.drop_first().drop_first() =~= w + rest);
    assert(!char_is_whitespace(w[0]));
    assert(!is_blank(w[0])) by {
        assert(char_is_whitespace(' ') && char_is_whitespace('\t'));
    }
    assert((w + rest)[0] == w[0]);
    let e = Seq::<char>::empty();
    assert(marker_scan(r, MarkerMode::Text, false, false, ' ', e)
        == marker_scan(w + rest, MarkerMode::Blanks, false, false, ' ', e));
    assert(marker_scan(w + rest, MarkerMode::Blanks, false, false, ' ', e)
        == marker_scan(w + rest, MarkerMode::Word, false, false, ' ', e));
    lemma_marker_word(w, rest, e);
    assert(e + w =~= w);
    assert(marker_scan(rest, MarkerMode::Word, false, false, ' ', w) == Some((w, false)));
}

/// A quoted delimiter runs to its closing quote: after text without `<` or
/// quotes, `<<'w'` (or `<<"w"`) with a non-empty `w` that holds no such quote
/// is a here-document with the delimiter `w`, quoted.
pub proof fn law_quoted_delimiter(p: Seq<char>, q: char, w: Seq<char>, rest: Seq<char>)
    requires
        forall|i: int| 0 <= i < p.len() ==> #[trigger] p[i] != '<' && p[i] != '\'' && p[i] != '"',
        q == '\'' || q == '"',
        w.len() > 0,
        forall|i: int| 0 <= i < w.len() ==> #[trigger] w[i] != q,
    ensures
        heredoc_marker(p + seq!['<', '<', q] + w + seq![q] + rest) == Some((w, true)),
{
    let r = seq!['<', '<', q] + w + seq![q] + rest;
    assert(p + seq!['<', '<', q] + w + seq![q] + rest =~= p + r);
    lemma_marker_plain_text(p, r);
    assert(r[0] == '<' && r[1] == '<');
    let t = seq![q] + w + seq![q] + rest;
    assert(r.drop_first().drop_first() =~= t);
    assert(t[0] == q);
    assert(!is_blank(q));
    let e = Seq::<char>::empty();
    assert(t.drop_first() =~= w + (seq![q] + rest));
    assert(marker_scan(r, MarkerMode::Text, false, false, ' ', e)
        == marker_scan(t, MarkerMode::Blanks, false, false, ' ', e));
    assert(marker_scan(t, MarkerMode::Blanks, false, false, ' ', e)
        == marker_scan(w + (seq![q] + rest), MarkerMode::Quoted, false, false, q, e));
    lemma_marker_quoted(w, seq![q] + rest, q, e);
    assert(e + w =~= w);
    assert((seq![q] + rest)[0] == q);
    assert(marker_scan(seq![q] + rest, MarkerMode::Quoted, false, false, q, w) == Some((w, true)));
}

proof fn lemma_marker_quoted(w: Seq<char>, r: Seq<char>, q: char, acc: Seq<char>)
    requires
        forall|i: int| 0 <= i < w.len() ==> #[trigger] w[i] != q,
    ensures
        marker_scan(w + r, MarkerMode::Quoted, false, false, q, acc)
            == marker_scan(r, MarkerMode::Quoted, false, false, q, acc + w),
    decreases w.len(),
{
    if w.len() > 0 {
        let s = w + r;
        assert(s[0] == w[0]);
        assert(s.drop_first() =~= w.drop_first() + r);
        assert forall|i: int| 0 <= i < w.drop_first().len() implies #[trigger] w.drop_first()[i] != q by {
            assert(w.drop_first()[i] == w[i + 1]);
        }
        lemma_marker_quoted(w.drop_first(), r, q, acc.push(w[0]));
        assert(acc.push(w[0]) + w.drop_first() =~= acc + w);
    } else {
        assert(w + r =~= r);
        assert(acc + w =~= acc);
    }
}

proof fn lemma_strip_plain_text(p: Seq<char>, r: Seq<char>, out: Seq<char>)
    requires
        forall|i: int| 0 <= i < p.len() ==> #[trigger] p[i] != '<' && p[i] != '\'' && p[i] != '"',
    ensures
        strip_scan(p + r, MarkerMode::Text, false, false, ' ', out)
            == strip_scan(r, MarkerMode::Text, false, false, ' ', out + p),
    decreases p.len(),
{
    if p.len() > 0 {
        let s = p + r;
        assert(s[0] == p[0]);
        assert(s.drop_first() =~= p.drop_first() + r);
        assert forall|i: int| 0 <= i < p.drop_first().len() implies #[trigger] p.drop_first()[i] != '<'
            && p.drop_first()[i] != '\'' && p.drop_first()[i] != '"' by {
            assert(p.drop_first()[i] == p[i + 1]);
        }
        lemma_strip_plain_text(p.drop_first(), r, out.push(p[0]));
        assert(out.push(p[0]) + p.drop_first() =~= out + p);
    } else {
        assert(p + r =~= r);
        assert(out + p =~= out);
    }
}

proof fn lemma_blanks(b: Seq<char>, r: Seq<char>, out: Seq<char>)
    requires
        forall|i: int| 0 <= i < b.len() ==> is_blank(#[trigger] b[i]),
    ensures
        marker_scan(b + r, MarkerMode::Blanks, false, false, ' ', Seq::empty())
            == marker_scan(r, MarkerMode::Blanks, false, false, ' ', Seq::empty()),
        strip_scan(b + r, MarkerMode::Blanks, false, false, ' ', out)
            == strip_scan(r, MarkerMode::Blanks, false, false, ' ', out),
    decreases b.len(),
{
    if b.len() > 0 {
        let s = b + r;
        assert(s[0] == b[0]);
        assert(s.drop_first() =~= b.drop_first() + r);
        assert forall|i: int| 0 <= i < b.drop_first().len() implies is_blank(#[trigger] b.drop_first()[i]) by {
            assert(b.drop_first()[i] == b[i + 1]);
        }
        lemma_blanks(b.drop_first(), r, out);
    } else {
        assert(b + r =~= r);
    }
}

proof fn lemma_strip_word(w: Seq<char>, r: Seq<char>, out: Seq<char>)
    requires
        forall|i: int| 0 <= i < w.len() ==> !char_is_whitespace(#[trigger] w[i]),
    ensures
        strip_scan(w + r, MarkerMode::Word, false, false, ' ', out)
            == strip_scan(r, MarkerMode::Word, false, false, ' ', out),
    decreases w.len(),
{
    if w.len() > 0 {
        let s = w + r;
        assert(s[0] == w[0]);
        assert(s.drop_first() =~= w.drop_first() + r);
        assert forall|i: int| 0 <= i < w.drop_first().len() implies !char_is_whitespace(#[trigger] w.drop_first()[i]) by {
            assert(w.drop_first()[i] == w[i + 1]);
        }
        lemma_strip_word(w.drop_first(), r, out);
    } else {
        assert(w + r =~= r);
    }
}

/// Blanks after `<<` are skipped, the unquoted delimiter is the whole word
/// after them, and removing the here-document leaves the text before and
/// after the marker: for `p <<  w rest` (no `<` or quote in `p` or `rest`,
/// `rest` empty or starting with whitespace) the delimiter is `w` and the
/// base command is `p rest`, trimmed.
pub proof fn law_marker_after_blanks(p: Seq<char>, b: Seq<char>, w: Seq<char>, rest: Seq<char>)
    requires
        forall|i: int| 0 <= i < p.len() ==> #[trigger] p[i] != '<' && p[i] != '\'' && p[i] != '"',
        forall|i: int| 0 <= i < b.len() ==> is_blank(#[trigger] b[i]),
        w.len() > 0,
        forall|i: int| 0 <= i < w.len() ==> !char_is_whitespace(#[trigger] w[i]),
        w[0] != '\'' && w[0] != '"',
        rest.len() == 0 || char_is_whitespace(rest[0]),
        forall|i: int| 0 <= i < rest.len() ==> #[trigger] rest[i] != '<' && rest[i] != '\'' && rest[i] != '"',
    ensures
        heredoc_marker(p + seq!['<', '<'] + b + w + rest) == Some((w, false)),
        without_heredoc(p + seq!['<', '<'] + b + w + rest) == trim(p + rest),
{
    let full = p + seq!['<', '<'] + b + w + rest;
    let r = seq!['<', '<'] + (b + (w + rest));
    assert(full =~= p + r);
    let e = Seq::<char>::empty();
    lemma_marker_plain_text(p, r);
    lemma_strip_plain_text(p, r, e);
    assert(e + p =~= p);
    assert(r[0] == '<' && r[1] == '<');
    assert(r.drop_first().drop_first() =~= b + (w + rest));
    assert(marker_scan(r, MarkerMode::Text, false, false, ' ', e)
        == marker_scan(b + (w + rest), MarkerMode::Blanks, false, false, ' ', e));
    assert(strip_scan(r, MarkerMode::Text, false, false, ' ', p)
        == strip_scan(b + (w + rest), MarkerMode::Blanks, false, false, ' ', p));
    lemma_blanks(b, w + rest, p);
    assert(!char_is_whitespace(w[0]));
    assert(!is_blank(w[0])) by {
        assert(char_is_whitespace(' ') && char_is_whitespace('\t'));
    }
    assert((w + rest)[0] == w[0]);
    assert(marker_scan(w + rest, MarkerMode::Blanks, false, false, ' ', e)
        == marker_scan(w + rest, MarkerMode::Word, false, false, ' ', e));
    assert(strip_scan(w + rest, MarkerMode::Blanks, false, false, ' ', p)
        == strip_scan(w + rest, MarkerMode::Word, false, false, ' ', p));
    lemma_marker_word(w, rest, e);
    assert(e + w =~= w);
    assert(marker_scan(rest, MarkerMode::Word, false, false, ' ', w) == Some((w, false)));
    lemma_strip_word(w, rest, p);
    assert(strip_scan(rest, MarkerMode::Word, false, false, ' ', p)
        == strip_scan(rest, MarkerMode::Text, false, false, ' ', p));
    lemma_strip_plain_text(rest, e, p);
    assert(rest + e =~= rest);
    assert(strip_scan(e, MarkerMode::Text, false, false, ' ', p + rest) == p + rest);
}

proof fn lemma_marker_in_quotes(y: Seq<char>, r: Seq<char>)
    requires
        forall|i: int| 0 <= i < y.len() ==> #[trigger] y[i] != '\'',
    ensures
        marker_scan(y + r, MarkerMode::Text, true, false, ' ', Seq::empty())
            == marker_scan(r, MarkerMode::Text, true, false, ' ', Seq::empty()),
    decreases y.len(),
{
    if y.len() > 0 {
        let s = y + r;
        assert(s[0] == y[0]);
        assert(s.drop_first() =~= y.drop_first() + r);
        assert forall|i: int| 0 <= i < y.drop_first().len() implies #[trigger] y.drop_first()[i] != '\'' by {
            assert(y.drop_first()[i] == y[i + 1]);
        }
        lemma_marker_in_quotes(y.drop_first(), r);
    } else {
        assert(y + r =~= r);
    }
}

/// `<<` inside single quotes is text: a single-quoted word holds no
/// here-document, whatever it holds.
pub proof fn law_quoted_marker_is_text(y: Seq<char>)
    requires
        forall|i: int| 0 <= i < y.len() ==> #[trigger] y[i] != '\'',
    ensures
        heredoc_marker(seq!['\''] + y + seq!['\'']) is None,
{
    let s = seq!['\''] + y + seq!['\''];
    assert(s[0] == '\'');
    assert(s.drop_first() =~= y + seq!['\'']);
    lemma_marker_in_quotes(y, seq!['\'']);
    let t = seq!['\''];
    assert(t.drop_first() =~= Seq::<char>::empty());
    assert(marker_scan(t, MarkerMode::Text, true, false, ' ', Seq::empty())
        == marker_scan(Seq::<char>::empty(), MarkerMode::Text, false, false, ' ', Seq::empty()));
}

} // verus!
