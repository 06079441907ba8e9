//! Aliases: the alias table, expansion of the first word of a command line,
//! and the `alias` and `unalias` builtins.
use vstd::prelude::*;
use crate::command::NameTable;
use crate::text::{
    append_chars, char_is_whitespace, chars_of, is_whitespace, split_whitespace_chars, split_ws,
    string_of, sub_chars, trim, trim_chars, trim_str, cviews,
};

verus! {

/// The aliases defined in a shell: name to expansion.
pub type AliasTable = NameTable<String>;

/// The expansion of the alias `name`, if it is defined.
pub fn get_alias(aliases: &AliasTable, name: &str) -> (r: Option<String>)
    requires
        aliases.wf(),
    ensures
        match r {
            Some(v) => aliases.map().contains_key(name@) && aliases.map()[name@] == v@,
            None => !aliases.map().contains_key(name@),
        },
{
    match aliases.get(name) {
        Some(v) => Some(v.clone()),
        None => None,
    }
}

/// The index of the first whitespace character of `s`, or its length.
pub open spec fn first_ws_from(s: Seq<char>, i: int) -> int
    decreases s.len() - i,
{
    if i >= s.len() || i < 0 {
        s.len() as int
    } else if char_is_whitespace(s[i]) {
        i
    } else {
        first_ws_from(s, i + 1)
    }
}

pub open spec fn first_ws(s: Seq<char>) -> int {
    first_ws_from(s, 0)
}

pub proof fn lemma_first_ws_bounds(s: Seq<char>, i: int)
    requires
        0 <= i <= s.len(),
    ensures
        i <= first_ws_from(s, i) <= s.len(),
    decreases s.len() - i,
{
    if i < s.len() && !char_is_whitespace(s[i]) {
        lemma_first_ws_bounds(s, i + 1);
    }
}

/// A command line with aliases expanded: when the first word of the trimmed
/// line is an alias, it is replaced by the alias's expansion and the result is
/// expanded again, at most eleven times in all (`depth` counts the rounds).
pub open spec fn alias_expansion(s: Seq<char>, depth: nat, aliases: Map<Seq<char>, Seq<char>>) -> Seq<char>
    decreases 11 - depth,
{
    if depth > 10 {
        s
    } else {
        let t = trim(s);
        if t.len() == 0 {
            s
        } else {
            let e = first_ws(t);
            let word = t.take(e);
            let rest = t.skip(e);
            if aliases.contains_key(word) {
                alias_expansion(aliases[word] + rest, depth + 1, aliases)
            } else {
                s
            }
        }
    }
}

fn first_ws_exec(s: &Vec<char>) -> (r: usize)
    ensures
        r == first_ws(s@),
        r <= s.len(),
{
    let mut i: usize = 0;
    while i < s.len() && !is_whitespace(s[i])
        invariant
            i <= s.len(),
            first_ws(s@) == first_ws_from(s@, i as int),
        decreases s.len() - i,
    {
        i += 1;
    }
    i
}

/// Expands aliases in `input` (see `alias_expansion`).
pub fn expand_alias(input: &str, depth: usize, aliases: &AliasTable) -> (r: String)
    requires
        aliases.wf(),
    ensures
        r@ == alias_expansion(input@, depth as nat, aliases.map()),
    decreases 11 - depth,
{
    if depth > 10 {
        return input.to_string();
    }
    let t = trim_str(input);
    if t.len() == 0 {
        return input.to_string();
    }
    let e = first_ws_exec(&t);
    let word = sub_chars(&t, 0, e);
    let rest = sub_chars(&t, e, t.len());
    assert(word@ =~= t@.take(e as int));
    assert(rest@ =~= t@.skip(e as int));
    let word_s = string_of(&word);
    match get_alias(aliases, word_s.as_str()) {
        Some(expansion) => {
            let mut v = chars_of(expansion.as_str());
            append_chars(&mut v, &rest);
            let next = string_of(&v);
            expand_alias(next.as_str(), depth + 1, aliases)
        },
        None => input.to_string(),
    }
}

/// What an `alias` command asks for.
pub enum AliasRequest {
    /// No arguments: list every alias.
    List,
    /// `alias name`: show one alias.
    Show(Seq<char>),
    /// `alias name=value`.
    Define(Seq<char>, Seq<char>),
    /// `alias =value`: a definition without a name.
    InvalidName,
}

/// The index of the first `c` in `s`, if any.
pub open spec fn index_of(s: Seq<char>, c: char) -> Option<int> {
    if exists|i: int| 0 <= i < s.len() && s[i] == c {
        Some(choose|i: int| 0 <= i < s.len() && s[i] == c && forall|j: int| 0 <= j < i ==> s[j] != c)
    } else {
        None
    }
}

/// Whether `v` is wrapped in a pair of matching quotes (it may be a single quote
/// character, which is both the start and the end).
pub open spec fn starts_and_ends_with_quote(v: Seq<char>) -> bool {
    v.len() > 0 && ((v[0] == '\'' && v.last() == '\'') || (v[0] == '"' && v.last() == '"'))
}

/// The value of an alias definition with its surrounding quotes removed.
pub open spec fn alias_value(v: Seq<char>) -> Seq<char> {
    if starts_and_ends_with_quote(v) { v.subrange(1, v.len() - 1) } else { v }
}

/// The request that the (trimmed) arguments of `alias` make.
pub open spec fn alias_request(args: Seq<char>) -> AliasRequest {
    let a = trim(args);
    if a.len() == 0 {
        AliasRequest::List
    } else {
        match index_of(a, '=') {
            Some(p) => {
                let name = trim(a.take(p));
                if name.len() == 0 {
                    AliasRequest::InvalidName
                } else {
                    AliasRequest::Define(name, alias_value(trim(a.skip(p + 1))))
                }
            },
            None => AliasRequest::Show(a),
        }
    }
}

/// `alias name=X` with `X` a lone quote character: the value would be sliced
/// from 1 to 0 there, which panics.
pub open spec fn alias_args_panic(args: Seq<char>) -> bool {
    let a = trim(args);
    match index_of(a, '=') {
        Some(p) => {
            let v = trim(a.skip(p + 1));
            v.len() == 1 && starts_and_ends_with_quote(v)
        },
        None => false,
    }
}

/// What an `alias` command gives back for printing.
#[derive(Debug, PartialEq)]
pub enum AliasOutcome {
    /// Every alias, as (name, value), to be printed as `alias name='value'`.
    List(Vec<(String, String)>),
    /// One alias, to be printed as `alias name='value'`.
    Show(String, String),
    /// `alias: name: not found`.
    NotFound(String),
    /// An alias was defined; nothing to print.
    Defined,
    /// `alias: invalid alias name`.
    InvalidName,
}

pub fn index_of_exec(s: &Vec<char>, c: char) -> (r: Option<usize>)
    ensures
        match r {
            Some(i) => index_of(s@, c) == Some(i as int) && i < s.len(),
            None => index_of(s@, c) is None,
        },
{
    let mut i: usize = 0;
    while i < s.len()
        invariant
            i <= s.len(),
            forall|j: int| 0 <= j < i ==> s@[j] != c,
        decreases s.len() - i,
    {
        if s[i] == c {
            assert(index_of(s@, c) == Some(i as int)) by {
                let k = choose|k: int| 0 <= k < s@.len() && s@[k] == c && forall|j: int| 0 <= j < k ==> s@[j] != c;
                assert(k == i);
            }
            return Some(i);
        }
        i += 1;
    }
    None
}

/// Whether `alias` with these arguments would panic (see `alias_args_panic`);
/// callers test it before `run_alias_command`.
pub fn alias_args_would_panic(args: &str) -> (r: bool)
    ensures
        r == alias_args_panic(args@),
{
    let a = trim_str(args);
    match index_of_exec(&a, '=') {
        Some(p) => {
            let first = sub_chars(&a, 0, p);
            let second = sub_chars(&a, p + 1, a.len());
            assert(first@ =~= a@.take(p as int));
            assert(second@ =~= a@.skip(p + 1));
            let v = trim_chars(&second);
            v.len() == 1 && (v[0] == '\'' || v[0] == '"')
        },
        None => false,
    }
}

/// Handles the `alias` builtin: with no arguments lists all aliases; with
/// `name` shows one; with `name=value` (quotes around the value are removed)
/// defines one.
pub fn run_alias_command(args: &str, aliases: &mut AliasTable) -> (r: AliasOutcome)
    requires
        old(aliases).wf(),
        !alias_args_panic(args@),
    ensures
        final(aliases).wf(),
        match alias_request(args@) {
            AliasRequest::List => final(aliases).map() == old(aliases).map() && match r {
                AliasOutcome::List(entries) =>
                    entries@.len() == old(aliases).map().len()
                    && (forall|i: int| 0 <= i < entries@.len() ==> old(aliases).map().contains_key(#[trigger] entries@[i].0@)
                        && old(aliases).map()[entries@[i].0@] == entries@[i].1@)
                    && (forall|k: Seq<char>| old(aliases).map().contains_key(k) ==> exists|i: int| 0 <= i < entries@.len() && #[trigger] entries@[i].0@ == k),
                _ => false,
            },
            AliasRequest::Show(name) => final(aliases).map() == old(aliases).map() && match r {
                AliasOutcome::Show(n, v) => n@ == name && old(aliases).map().contains_key(name) && old(aliases).map()[name] == v@,
                AliasOutcome::NotFound(n) => n@ == name && !old(aliases).map().contains_key(name),
                _ => false,
            },
            AliasRequest::Define(name, value) => final(aliases).map() == old(aliases).map().insert(name, value) && r is Defined,
            AliasRequest::InvalidName => final(aliases).map() == old(aliases).map() && r is InvalidName,
        },
{
    let a = trim_str(args);
    if a.len() == 0 {
        let entries = aliases.entries();
        let mut list: Vec<(String, String)> = Vec::new();
        let mut i: usize = 0;
        while i < entries.len()
            invariant
                i <= entries.len(),
                list@.len() == i,
                forall|j: int| 0 <= j < i ==> #[trigger] list@[j].0@ == entries@[j].0@ && list@[j].1@ == entries@[j].1@,
            decreases entries.len() - i,
        {
            list.push((entries[i].0.clone(), entries[i].1.clone()));
            i += 1;
        }
        proof { lemma_unique_len(aliases, entries@); }
        assert forall|i: int| 0 <= i < list@.len() implies old(aliases).map().contains_key(#[trigger] list@[i].0@)
            && old(aliases).map()[list@[i].0@] == list@[i].1@ by {
            assert(list@[i].0@ == entries@[i].0@ && list@[i].1@ == entries@[i].1@);
        }
        assert(alias_request(args@) is List);
        assert forall|k: Seq<char>| old(aliases).map().contains_key(k) implies exists|i: int| 0 <= i < list@.len() && #[trigger] list@[i].0@ == k by {
            let i = choose|i: int| 0 <= i < entries@.len() && #[trigger] entries@[i].0@ == k;
            assert(list@[i].0@ == k);
        }
        return AliasOutcome::List(list);
    }
    match index_of_exec(&a, '=') {
        Some(p) => {
            let first = sub_chars(&a, 0, p);
            let second = sub_chars(&a, p + 1, a.len());
            assert(first@ =~= a@.take(p as int));
            assert(second@ =~= a@.skip(p + 1));
            let name = trim_chars(&first);
            let mut value = trim_chars(&second);
            let n = value.len();
            if n > 0 && ((value[0] == '\'' && value[n - 1] == '\'') || (value[0] == '"' && value[n - 1] == '"')) {
                value = sub_chars(&value, 1, n - 1);
            }
            if name.len() == 0 {
                return AliasOutcome::InvalidName;
            }
            aliases.insert(string_of(&name), string_of(&value));
            AliasOutcome::Defined
        },
        None => {
            let name = string_of(&a);
            match get_alias(aliases, name.as_str()) {
                Some(v) => AliasOutcome::Show(name, v),
                None => AliasOutcome::NotFound(name),
            }
        },
    }
}

proof fn lemma_unique_len(aliases: &AliasTable, entries: Seq<(String, String)>)
    requires
        aliases.wf(),
        crate::command::names_unique(entries),
        forall|i: int| 0 <= i < entries.len() ==> aliases.map().contains_key(#[trigger] entries[i].0@),
        forall|k: Seq<char>| aliases.map().contains_key(k) ==> exists|i: int| 0 <= i < entries.len() && #[trigger] entries[i].0@ == k,
    ensures
        entries.len() == aliases.map().len(),
{
    let names = entries.map_values(|e: (String, String)| e.0@);
    assert(aliases.map().dom() =~= names.to_set()) by {
        assert forall|k: Seq<char>| aliases.map().dom().contains(k) <==> names.to_set().contains(k) by {
            if aliases.map().dom().contains(k) {
                let i = choose|i: int| 0 <= i < entries.len() && #[trigger] entries[i].0@ == k;
                assert(names[i] == k);
            }
            if names.to_set().contains(k) {
                let i = choose|i: int| 0 <= i < names.len() && names[i] == k;
                assert(entries[i].0@ == k);
            }
        }
    }
    assert(names.no_duplicates()) by {
        assert forall|i: int, j: int| 0 <= i < names.len() && 0 <= j < names.len() && i != j implies names[i] != names[j] by {
            if i < j { assert(entries[i].0@ != entries[j].0@); } else { assert(entries[j].0@ != entries[i].0@); }
        }
    }
    names.unique_seq_to_set();
}

/// The aliases after `unalias` removes the given words in turn, and the words
/// that were not defined when their turn came.
pub open spec fn unalias_all(words: Seq<Seq<char>>, m: Map<Seq<char>, Seq<char>>) -> (Map<Seq<char>, Seq<char>>, Seq<Seq<char>>)
    decreases words.len(),
{
    if words.len() == 0 {
        (m, Seq::empty())
    } else {
        let (m2, missing) = unalias_all(words.drop_last(), m);
        let w = words.last();
        if m2.contains_key(w) { (m2.remove(w), missing) } else { (m2, missing.push(w)) }
    }
}

/// Handles the `unalias` builtin: `Err(())` stands for the usage message when
/// there are no arguments; otherwise each word of the arguments is removed and
/// the words that were not defined are returned (for `unalias: name: not found`).
pub fn run_unalias_command(args: &str, aliases: &mut AliasTable) -> (r: Result<Vec<String>, ()>)
    requires
        old(aliases).wf(),
    ensures
        final(aliases).wf(),
        trim(args@).len() == 0 ==> r is Err && final(aliases).map() == old(aliases).map(),
        trim(args@).len() > 0 ==> match r {
            Ok(missing) => {
                let (m, miss) = unalias_all(split_ws(trim(args@)), old(aliases).map());
                final(aliases).map() == m && crate::text::views(missing@) == miss
            },
            Err(_) => false,
        },
{
    let a = trim_str(args);
    if a.len() == 0 {
        return Err(());
    }
    let words = split_whitespace_chars(&a);
    let ghost ws = cviews(words@);
    let mut missing: Vec<Vec<char>> = Vec::new();
    let mut k: usize = 0;
    assert(cviews(missing@) =~= Seq::<Seq<char>>::empty());
    while k < words.len()
        invariant
            k <= words.len(),
            ws == cviews(words@),
            aliases.wf(),
            unalias_all(ws.take(k as int), old(aliases).map()) == (aliases.map(), cviews(missing@)),
        decreases words.len() - k,
    {
        assert(ws.take(k + 1).drop_last() =~= ws.take(k as int));
        let w = string_of(&words[k]);
        if !aliases.remove(w.as_str()) {
            proof { crate::text::lemma_cviews_push(missing@, words@[k as int]); }
            missing.push(words[k].clone());
        }
        k += 1;
    }
    assert(ws.take(words.len() as int) =~= ws);
    Ok(crate::text::strings_of(&missing))
}


/// After `unalias`, none of the given names is an alias, and every other
/// alias is as it was.
pub proof fn law_unalias_removes(words: Seq<Seq<char>>, m: Map<Seq<char>, Seq<char>>)
    ensures
        forall|i: int| 0 <= i < words.len() ==> !unalias_all(words, m).0.contains_key(#[trigger] words[i]),
        forall|k: Seq<char>| !words.contains(k) ==> (#[trigger] unalias_all(words, m).0.contains_key(k) <==> m.contains_key(k)),
        forall|k: Seq<char>| !words.contains(k) && m.contains_key(k) ==> #[trigger] unalias_all(words, m).0[k] == m[k],
    decreases words.len(),
{
    if words.len() > 0 {
        law_unalias_removes(words.drop_last(), m);
        let w = words.last();
        assert forall|k: Seq<char>| !words.contains(k) implies !words.drop_last().contains(k) && k != w by {
            if words.drop_last().contains(k) {
                let j = choose|j: int| 0 <= j < words.drop_last().len() && words.drop_last()[j] == k;
                assert(words[j] == k);
            }
            assert(words[words.len() - 1] == w);
        }
        let m2 = unalias_all(words.drop_last(), m).0;
        let r = unalias_all(words, m).0;
        assert(r == if m2.contains_key(w) { m2.remove(w) } else { m2 });
        assert forall|k: Seq<char>| !words.contains(k) implies (#[trigger] r.contains_key(k) <==> m.contains_key(k))
            && (m.contains_key(k) ==> r[k] == m[k]) by {
            assert(!words.drop_last().contains(k) && k != w);
            assert(m2.contains_key(k) <==> m.contains_key(k));
        }
        assert forall|i: int| 0 <= i < words.len() implies !unalias_all(words, m).0.contains_key(#[trigger] words[i]) by {
            if i < words.len() - 1 {
                assert(words.drop_last()[i] == words[i]);
            }
        }
    }
}

/// A name defined by `alias name=value` is then found with that value.
pub proof fn law_alias_define_then_get(args: Seq<char>, m: Map<Seq<char>, Seq<char>>)
    ensures
        alias_request(args) matches AliasRequest::Define(name, value) ==> ({
            let after = m.insert(name, value);
            after.contains_key(name) && after[name] == value
        }),
{
}


/// `alias name="value"` (or `alias name='value'`) defines `name` as the value
/// without its quotes, whatever the value holds between them.
pub proof fn law_alias_quotes_removed(name: Seq<char>, x: Seq<char>, q: char)
    requires
        q == '\'' || q == '"',
        name.len() > 0,
        forall|i: int| 0 <= i < name.len() ==> !char_is_whitespace(#[trigger] name[i]) && name[i] != '=',
    ensures
        alias_request(name + seq!['='] + seq![q] + x + seq![q]) == AliasRequest::Define(name, x),
{
    let a = name + seq!['='] + seq![q] + x + seq![q];
    let p = name.len() as int;
    assert(a[0] == name[0]);
    assert(a.last() == q);
    crate::text::lemma_trim_unchanged(a);
    assert(a[p] == '=');
    let i = choose|i: int| 0 <= i < a.len() && a[i] == '=' && forall|j: int| 0 <= j < i ==> a[j] != '=';
    if i < p {
        assert(a[i] == name[i]);
    }
    assert(i == p);
    assert(index_of(a, '=') == Some(p));
    assert(a.take(p) =~= name);
    crate::text::lemma_trim_unchanged(name);
    let v = seq![q] + x + seq![q];
    assert(a.skip(p + 1) =~= v);
    crate::text::lemma_trim_unchanged(v);
    assert(v.subrange(1, v.len() - 1) =~= x);
}

/// An alias in the first word of a command line is replaced by its value
/// (followed by the rest of the line) before the line is parsed; when the
/// value does not start with an alias itself, that is the line parsing reads.
pub proof fn law_alias_replaced(s: Seq<char>, m: Map<Seq<char>, Seq<char>>)
    requires
        trim(s).len() > 0,
        m.contains_key(trim(s).take(first_ws(trim(s)))),
        ({
            let u = m[trim(s).take(first_ws(trim(s)))] + trim(s).skip(first_ws(trim(s)));
            trim(u).len() == 0 || !m.contains_key(trim(u).take(first_ws(trim(u))))
        }),
    ensures
        alias_expansion(s, 0, m) == m[trim(s).take(first_ws(trim(s)))] + trim(s).skip(first_ws(trim(s))),
{
    let u = m[trim(s).take(first_ws(trim(s)))] + trim(s).skip(first_ws(trim(s)));
    assert(alias_expansion(u, 1, m) == u);
}

} // verus!
