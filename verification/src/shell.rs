//! The shell's state between commands, tab completion of command names, and
//! the reading of `PATH`.
use vstd::prelude::*;
use crate::alias::{index_of, index_of_exec, AliasTable};
use crate::command::{CommandTable, NameTable};
use crate::text::{append_str, chars_of, string_of, sub_chars, trim, trim_chars, views};

verus! {

/// What the shell keeps between commands: the aliases defined so far.
pub struct Shell {
    pub aliases: AliasTable,
}

impl Shell {
    /// A shell with no aliases.
    pub fn new() -> (r: Shell)
        ensures
            r.aliases.wf(),
            r.aliases.map() == Map::<Seq<char>, Seq<char>>::empty(),
    {
        Shell { aliases: NameTable::new() }
    }
}

/// The name under which an executable is offered for completion: its file
/// name up to the first `.`.
pub open spec fn completion_name(file_name: Seq<char>) -> Seq<char> {
    match index_of(file_name, '.') {
        Some(p) => file_name.take(p),
        None => file_name,
    }
}

/// The names offered for completion, one per executable known in `table`,
/// in the table's order.
pub fn path_executables_for_tabcompletiion(table: &CommandTable) -> (r: Vec<String>)
    requires
        table.wf(),
    ensures
        views(r@) == table.names().map_values(|k: Seq<char>| completion_name(k)),
{
    let entries = table.entries();
    let ghost names = table.names();
    let mut r: Vec<String> = Vec::new();
    let mut k: usize = 0;
    while k < entries.len()
        invariant
            k <= entries.len(),
            names == crate::command::names_of(entries@),
            r@.len() == k,
            forall|i: int| 0 <= i < k ==> #[trigger] r@[i]@ == completion_name(names[i]),
        decreases entries.len() - k,
    {
        let name = chars_of(entries[k].0.as_str());
        assert(names[k as int] == name@);
        let short = match index_of_exec(&name, '.') {
            Some(p) => {
                let s = sub_chars(&name, 0, p);
                assert(s@ =~= name@.take(p as int));
                s
            },
            None => name,
        };
        r.push(string_of(&short));
        k += 1;
    }
    assert(views(r@) =~= names.map_values(|k: Seq<char>| completion_name(k)));
    r
}

/// The builtin names offered for completion: `help` and every builtin.
pub open spec fn builtin_completion_names() -> Seq<Seq<char>> {
    seq!["help"@, "echo"@, "exit"@, "ls"@, "cd"@, "pwd"@, "cat"@, "type"@, "export"@, "unset"@,
        "alias"@, "unalias"@, "history"@, "clear"@]
}

pub open spec fn starts_with(s: Seq<char>, prefix: Seq<char>) -> bool {
    prefix.len() <= s.len() && s.take(prefix.len() as int) == prefix
}

/// The (display, replacement) pairs for the names that start with `prefix`,
/// in order; the replacement is the name and a space.
pub open spec fn matching_names(names: Seq<Seq<char>>, prefix: Seq<char>) -> Seq<(Seq<char>, Seq<char>)>
    decreases names.len(),
{
    if names.len() == 0 {
        Seq::empty()
    } else {
        let n = names.last();
        matching_names(names.drop_last(), prefix)
            + if starts_with(n, prefix) { seq![(n, n + " "@)] } else { Seq::empty() }
    }
}

/// The completions of the text before the cursor: none to offer (`None`)
/// once it holds more than one word; else the builtin names, then the
/// external ones, that start with its word (or all of them, before any word).
pub open spec fn completions_of(before_cursor: Seq<char>, external_commands: Seq<Seq<char>>) -> Option<Seq<(Seq<char>, Seq<char>)>> {
    let parts = crate::text::split_ws(before_cursor);
    if parts.len() > 1 {
        None
    } else {
        let prefix = if parts.len() == 0 { Seq::empty() } else { parts[0] };
        Some(matching_names(builtin_completion_names() + external_commands, prefix))
    }
}

pub open spec fn pair_seq_views(v: Seq<(String, String)>) -> Seq<(Seq<char>, Seq<char>)> {
    v.map_values(|p: (String, String)| (p.0@, p.1@))
}

fn starts_with_exec(s: &Vec<char>, prefix: &Vec<char>) -> (r: bool)
    ensures
        r == starts_with(s@, prefix@),
{
    if prefix.len() > s.len() {
        return false;
    }
    let mut i: usize = 0;
    while i < prefix.len()
        invariant
            prefix.len() <= s.len(),
            i <= prefix.len(),
            forall|k: int| 0 <= k < i ==> s@[k] == prefix@[k],
        decreases prefix.len() - i,
    {
        if s[i] != prefix[i] {
            assert(s@.take(prefix.len() as int)[i as int] != prefix@[i as int]);
            return false;
        }
        i += 1;
    }
    assert(s@.take(prefix.len() as int) =~= prefix@);
    true
}

/// Completes the command name being typed (see `completions_of`): the text
/// before the cursor and the names of the external commands.
pub fn complete(before_cursor: &str, external_commands: &Vec<String>) -> (r: Option<Vec<(String, String)>>)
    ensures
        match r {
            Some(v) => completions_of(before_cursor@, views(external_commands@)) == Some(pair_seq_views(v@)),
            None => completions_of(before_cursor@, views(external_commands@)) is None,
        },
{
    let text = chars_of(before_cursor);
    let parts = crate::text::split_whitespace_chars(&text);
    if parts.len() > 1 {
        return None;
    }
    let prefix: Vec<char> = if parts.len() == 0 { Vec::new() } else { parts[0].clone() };
    assert(prefix@ == (if parts@.len() == 0 { Seq::<char>::empty() } else { crate::text::cviews(parts@)[0] }));
    let mut names: Vec<String> = Vec::new();
    names.push("help".to_owned());
    names.push("echo".to_owned());
    names.push("exit".to_owned());
    names.push("ls".to_owned());
    names.push("cd".to_owned());
    names.push("pwd".to_owned());
    names.push("cat".to_owned());
    names.push("type".to_owned());
    names.push("export".to_owned());
    names.push("unset".to_owned());
    names.push("alias".to_owned());
    names.push("unalias".to_owned());
    names.push("history".to_owned());
    names.push("clear".to_owned());
    assert(views(names@) =~= builtin_completion_names());
    let mut k: usize = 0;
    let ghost base = views(names@);
    while k < external_commands.len()
        invariant
            k <= external_commands.len(),
            views(names@) == base + views(external_commands@).take(k as int),
        decreases external_commands.len() - k,
    {
        let ghost before = views(names@);
        names.push(external_commands[k].clone());
        assert(views(names@) =~= before.push(external_commands@[k as int]@));
        assert(views(external_commands@).take(k + 1) =~= views(external_commands@).take(k as int).push(external_commands@[k as int]@));
        assert(views(names@) =~= base + views(external_commands@).take(k + 1));
        k += 1;
    }
    assert(views(external_commands@).take(external_commands.len() as int) =~= views(external_commands@));
    let ghost all = views(names@);
    let mut out: Vec<(String, String)> = Vec::new();
    let mut i: usize = 0;
    assert(all.take(0) =~= Seq::<Seq<char>>::empty());
    while i < names.len()
        invariant
            i <= names.len(),
            all == views(names@),
            pair_seq_views(out@) == matching_names(all.take(i as int), prefix@),
        decreases names.len() - i,
    {
        let n = chars_of(names[i].as_str());
        assert(all.take(i + 1).drop_last() =~= all.take(i as int));
        assert(all[i as int] == n@);
        if starts_with_exec(&n, &prefix) {
            let mut rep = n.clone();
            append_str(&mut rep, " ");
            let ghost before = pair_seq_views(out@);
            out.push((names[i].clone(), string_of(&rep)));
            assert(pair_seq_views(out@) =~= before + seq![(n@, n@ + " "@)]);
        }
        i += 1;
    }
    assert(all.take(names.len() as int) =~= all);
    Some(out)
}

/// The pieces of `s` between the occurrences of `sep` (as `str::split`
/// gives them: one more piece than separators).
pub open spec fn split_on(s: Seq<char>, sep: char) -> Seq<Seq<char>>
    decreases s.len(),
{
    if s.len() == 0 {
        seq![Seq::empty()]
    } else {
        let r = split_on(s.drop_last(), sep);
        if s.last() == sep {
            r.push(Seq::empty())
        } else {
            r.update(r.len() - 1, r.last().push(s.last()))
        }
    }
}

proof fn lemma_split_on_nonempty(s: Seq<char>, sep: char)
    ensures
        split_on(s, sep).len() >= 1,
    decreases s.len(),
{
    if s.len() > 0 {
        lemma_split_on_nonempty(s.drop_last(), sep);
    }
}

/// The trimmed, non-empty pieces, in order.
pub open spec fn nonempty_trimmed(pieces: Seq<Seq<char>>) -> Seq<Seq<char>>
    decreases pieces.len(),
{
    if pieces.len() == 0 {
        Seq::empty()
    } else {
        let t = trim(pieces.last());
        nonempty_trimmed(pieces.drop_last()) + if t.len() == 0 { Seq::empty() } else { seq![t] }
    }
}

/// The directories named in a `PATH` value: the pieces between the
/// separators (`:`, or `;` on Windows), trimmed, leaving out the empty ones.
pub fn path_dirs(paths: &str, separator: char) -> (r: Vec<String>)
    ensures
        views(r@) == nonempty_trimmed(split_on(paths@, separator)),
{
    let v = chars_of(paths);
    let mut pieces: Vec<Vec<char>> = Vec::new();
    pieces.push(Vec::new());
    let mut i: usize = 0;
    assert(v@.take(0) =~= Seq::<char>::empty());
    assert(crate::text::cviews(pieces@) =~= split_on(v@.take(0), separator));
    while i < v.len()
        invariant
            i <= v.len(),
            v@ == paths@,
            crate::text::cviews(pieces@) == split_on(v@.take(i as int), separator),
            pieces@.len() >= 1,
        decreases v.len() - i,
    {
        assert(v@.take(i + 1).drop_last() =~= v@.take(i as int));
        let ghost before = crate::text::cviews(pieces@);
        if v[i] == separator {
            pieces.push(Vec::new());
            assert(crate::text::cviews(pieces@) =~= before.push(Seq::empty()));
        } else {
            let last = pieces.len() - 1;
            let mut cur = pieces[last].clone();
            cur.push(v[i]);
            pieces.set(last, cur);
            assert(crate::text::cviews(pieces@) =~= before.update(before.len() - 1, before.last().push(v@[i as int])));
        }
        i += 1;
    }
    assert(v@.take(v.len() as int) =~= v@);
    let ghost pv = crate::text::cviews(pieces@);
    let mut r: Vec<String> = Vec::new();
    let mut k: usize = 0;
    assert(pv.take(0) =~= Seq::<Seq<char>>::empty());
    while k < pieces.len()
        invariant
            k <= pieces.len(),
            pv == crate::text::cviews(pieces@),
            views(r@) == nonempty_trimmed(pv.take(k as int)),
        decreases pieces.len() - k,
    {
        assert(pv.take(k + 1).drop_last() =~= pv.take(k as int));
        assert(pv[k as int] == pieces@[k as int]@);
        let t = trim_chars(&pieces[k]);
        if t.len() > 0 {
            let ghost before = views(r@);
            r.push(string_of(&t));
            assert(views(r@) =~= before + seq![t@]);
        } else {
            assert(nonempty_trimmed(pv.take(k + 1)) =~= nonempty_trimmed(pv.take(k as int)));
        }
        k += 1;
    }
    assert(pv.take(pieces.len() as int) =~= pv);
    r
}

/// Whether a file with these permission bits is executable by anyone.
pub fn is_executable(mode: u32) -> (r: bool)
    ensures
        r == (mode & 0o111u32 != 0),
{
    mode & 0o111u32 != 0
}


/// Every completion offered starts with the word being typed, is one of the
/// names offered, and is replaced by the name and a space.
pub proof fn law_completions_match(names: Seq<Seq<char>>, prefix: Seq<char>)
    ensures
        forall|i: int| 0 <= i < matching_names(names, prefix).len() ==> {
            let (display, replacement) = #[trigger] matching_names(names, prefix)[i];
            &&& starts_with(display, prefix)
            &&& replacement == display + " "@
            &&& names.contains(display)
        },
    decreases names.len(),
{
    if names.len() > 0 {
        law_completions_match(names.drop_last(), prefix);
        let r = matching_names(names.drop_last(), prefix);
        let n = names.last();
        assert forall|i: int| 0 <= i < matching_names(names, prefix).len() implies {
            let (display, replacement) = #[trigger] matching_names(names, prefix)[i];
            &&& starts_with(display, prefix)
            &&& replacement == display + " "@
            &&& names.contains(display)
        } by {
            if i < r.len() {
                assert(matching_names(names, prefix)[i] == r[i]);
                let d = r[i].0;
                assert(names.drop_last().contains(d));
                let j = choose|j: int| 0 <= j < names.drop_last().len() && names.drop_last()[j] == d;
                assert(names[j] == d);
            } else {
                assert(names[names.len() - 1] == n);
            }
        }
    }
}

/// No directory taken from `PATH` is empty.
pub proof fn law_path_dirs_not_empty(pieces: Seq<Seq<char>>)
    ensures
        forall|i: int| 0 <= i < nonempty_trimmed(pieces).len() ==> (#[trigger] nonempty_trimmed(pieces)[i]).len() > 0,
    decreases pieces.len(),
{
    if pieces.len() > 0 {
        law_path_dirs_not_empty(pieces.drop_last());
        let r = nonempty_trimmed(pieces.drop_last());
        assert forall|i: int| 0 <= i < nonempty_trimmed(pieces).len() implies (#[trigger] nonempty_trimmed(pieces)[i]).len() > 0 by {
            if i < r.len() {
                assert(nonempty_trimmed(pieces)[i] == r[i]);
            }
        }
    }
}

} // verus!
