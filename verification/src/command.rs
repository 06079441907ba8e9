//! Commands as the parser gives them, what a command name denotes, and the
//! tables of known commands and of aliases.
use vstd::prelude::*;
use crate::split::ChainOperator;
use crate::text::{chars_of, views};

verus! {

/// A parsed command.
#[derive(Debug, PartialEq)]
pub enum Command {
    Exit(i32),
    Echo(String),
    Unknown(String),
    Type(String),
    PWD,
    CD(String),
    Cat(Vec<String>),
    Ls(String),
    External(Vec<String>),
    Pipeline(Vec<String>),
    Export(String),
    Unset(String),
    /// Chained commands with operators between them.
    Chain { commands: Vec<String>, operators: Vec<ChainOperator> },
    Clear,
    History,
    Alias(String),
    Unalias(String),
    /// Here document: command with multiline input.
    HereDoc { command: String, content: String },
    /// `NAME=VALUE`: sets a variable.
    Assign(String, String),
}

pub enum CommandView {
    Exit(i32),
    Echo(Seq<char>),
    Unknown(Seq<char>),
    Type(Seq<char>),
    PWD,
    CD(Seq<char>),
    Cat(Seq<Seq<char>>),
    Ls(Seq<char>),
    External(Seq<Seq<char>>),
    Pipeline(Seq<Seq<char>>),
    Export(Seq<char>),
    Unset(Seq<char>),
    Chain { commands: Seq<Seq<char>>, operators: Seq<ChainOperator> },
    Clear,
    History,
    Alias(Seq<char>),
    Unalias(Seq<char>),
    HereDoc { command: Seq<char>, content: Seq<char> },
    Assign(Seq<char>, Seq<char>),
}

impl View for Command {
    type V = CommandView;

    open spec fn view(&self) -> CommandView {
        match self {
            Command::Exit(c) => CommandView::Exit(*c),
            Command::Echo(s) => CommandView::Echo(s@),
            Command::Unknown(s) => CommandView::Unknown(s@),
            Command::Type(s) => CommandView::Type(s@),
            Command::PWD => CommandView::PWD,
            Command::CD(s) => CommandView::CD(s@),
            Command::Cat(v) => CommandView::Cat(views(v@)),
            Command::Ls(s) => CommandView::Ls(s@),
            Command::External(v) => CommandView::External(views(v@)),
            Command::Pipeline(v) => CommandView::Pipeline(views(v@)),
            Command::Export(s) => CommandView::Export(s@),
            Command::Unset(s) => CommandView::Unset(s@),
            Command::Chain { commands, operators } => CommandView::Chain { commands: views(commands@), operators: operators@ },
            Command::Clear => CommandView::Clear,
            Command::History => CommandView::History,
            Command::Alias(s) => CommandView::Alias(s@),
            Command::Unalias(s) => CommandView::Unalias(s@),
            Command::HereDoc { command, content } => CommandView::HereDoc { command: command@, content: content@ },
            Command::Assign(n, v) => CommandView::Assign(n@, v@),
        }
    }
}

/// What a command name denotes.
#[derive(Debug, PartialEq)]
pub enum CommandType {
    Builtin,
    Alias(String),
    Function(String),
    External(String),
}

pub enum CommandTypeView {
    Builtin,
    Alias(Seq<char>),
    Function(Seq<char>),
    External(Seq<char>),
}

impl View for CommandType {
    type V = CommandTypeView;

    open spec fn view(&self) -> CommandTypeView {
        match self {
            CommandType::Builtin => CommandTypeView::Builtin,
            CommandType::Alias(s) => CommandTypeView::Alias(s@),
            CommandType::Function(s) => CommandTypeView::Function(s@),
            CommandType::External(s) => CommandTypeView::External(s@),
        }
    }
}

/// The names that occur in `entries`.
pub open spec fn names_of<T>(entries: Seq<(String, T)>) -> Seq<Seq<char>> {
    entries.map_values(|e: (String, T)| e.0@)
}

/// No name occurs twice.
pub open spec fn names_unique<T>(entries: Seq<(String, T)>) -> bool {
    forall|i: int, j: int| 0 <= i < j < entries.len() ==> entries[i].0@ != entries[j].0@
}

/// Where `name` stands in `entries`, if it does.
pub fn find_entry<T>(entries: &Vec<(String, T)>, name: &str) -> (r: Option<usize>)
    ensures
        match r {
            Some(i) => i < entries@.len() && entries@[i as int].0@ == name@,
            None => forall|i: int| 0 <= i < entries@.len() ==> entries@[i].0@ != name@,
        },
{
    let mut i: usize = 0;
    let key = chars_of(name);
    while i < entries.len()
        invariant
            i <= entries.len(),
            key@ == name@,
            forall|k: int| 0 <= k < i ==> entries@[k].0@ != name@,
        decreases entries.len() - i,
    {
        let e = chars_of(entries[i].0.as_str());
        if crate::text::chars_eq(&e, &key) {
            return Some(i);
        }
        i += 1;
    }
    None
}

/// A table from names to values in which each name occurs at most once (a
/// map), kept in the order in which the names were first added.
pub struct NameTable<T> {
    entries: Vec<(String, T)>,
}

/// What each known command name denotes.
pub type CommandTable = NameTable<CommandType>;

impl<T: View> NameTable<T> {
    pub closed spec fn wf(&self) -> bool {
        names_unique(self.entries@)
    }

    /// The table as a map from names to what they denote.
    pub closed spec fn map(&self) -> Map<Seq<char>, T::V> {
        Map::new(
            |k: Seq<char>| exists|i: int| 0 <= i < self.entries@.len() && self.entries@[i].0@ == k,
            |k: Seq<char>| self.entries@[choose|i: int| 0 <= i < self.entries@.len() && self.entries@[i].0@ == k].1@,
        )
    }

    proof fn lemma_map_at(&self, i: int)
        requires
            self.wf(),
            0 <= i < self.entries@.len(),
        ensures
            self.map().contains_key(self.entries@[i].0@),
            self.map()[self.entries@[i].0@] == self.entries@[i].1@,
    {
        let k = self.entries@[i].0@;
        let j = choose|j: int| 0 <= j < self.entries@.len() && self.entries@[j].0@ == k;
        assert(j == i);
    }

    pub fn new() -> (r: NameTable<T>)
        ensures
            r.wf(),
            r.map() == Map::<Seq<char>, T::V>::empty(),
    {
        let r = NameTable { entries: Vec::new() };
        assert(r.map() =~= Map::<Seq<char>, T::V>::empty());
        r
    }

    /// The names in the table, in the order in which they were first added.
    pub closed spec fn names(&self) -> Seq<Seq<char>> {
        names_of(self.entries@)
    }

    /// The names are exactly the keys of the map, each once.
    pub proof fn law_names_are_the_keys(&self)
        requires
            self.wf(),
        ensures
            forall|i: int, j: int| 0 <= i < j < self.names().len() ==> self.names()[i] != self.names()[j],
            forall|i: int| 0 <= i < self.names().len() ==> self.map().contains_key(#[trigger] self.names()[i]),
            forall|k: Seq<char>| self.map().contains_key(k) ==> exists|i: int| 0 <= i < self.names().len() && #[trigger] self.names()[i] == k,
    {
        assert forall|i: int| 0 <= i < self.names().len() implies self.map().contains_key(#[trigger] self.names()[i]) by {
            self.lemma_map_at(i);
        }
        assert forall|k: Seq<char>| self.map().contains_key(k) implies exists|i: int| 0 <= i < self.names().len() && #[trigger] self.names()[i] == k by {
            let i = choose|i: int| 0 <= i < self.entries@.len() && self.entries@[i].0@ == k;
            assert(self.names()[i] == k);
        }
    }

    /// The entries, in the order in which their names were first added.
    pub fn entries(&self) -> (r: &Vec<(String, T)>)
        requires
            self.wf(),
        ensures
            names_of(r@) == self.names(),
            names_unique(r@),
            forall|i: int| 0 <= i < r@.len() ==> self.map().contains_key(#[trigger] r@[i].0@) && self.map()[r@[i].0@] == r@[i].1@,
            forall|k: Seq<char>| self.map().contains_key(k) ==> exists|i: int| 0 <= i < r@.len() && #[trigger] r@[i].0@ == k,
    {
        proof {
            assert forall|i: int| 0 <= i < self.entries@.len() implies self.map().contains_key(#[trigger] self.entries@[i].0@) && self.map()[self.entries@[i].0@] == self.entries@[i].1@ by {
                self.lemma_map_at(i);
            }
        }
        &self.entries
    }

    /// The value of `name`, if it is in the table.
    pub fn get(&self, name: &str) -> (r: Option<&T>)
        requires
            self.wf(),
        ensures
            match r {
                Some(t) => self.map().contains_key(name@) && self.map()[name@] == t@,
                None => !self.map().contains_key(name@),
            },
    {
        match find_entry(&self.entries, name) {
            Some(i) => {
                proof { self.lemma_map_at(i as int); }
                Some(&self.entries[i].1)
            },
            None => None,
        }
    }

    pub fn contains_key(&self, name: &str) -> (r: bool)
        requires
            self.wf(),
        ensures
            r == self.map().contains_key(name@),
    {
        self.get(name).is_some()
    }

    /// Sets the value of `name`, replacing the value it had.
    pub fn insert(&mut self, name: String, t: T)
        requires
            old(self).wf(),
        ensures
            final(self).wf(),
            final(self).map() == old(self).map().insert(name@, t@),
    {
        let ghost k = name@;
        let ghost v = t@;
        match find_entry(&self.entries, name.as_str()) {
            Some(i) => {
                let ghost old_entries = self.entries@;
                self.entries.set(i, (name, t));
                assert forall|a: int, b: int| 0 <= a < b < self.entries@.len() implies self.entries@[a].0@ != self.entries@[b].0@ by {
                    assert(old_entries[a].0@ != old_entries[b].0@);
                }
                assert(self.map() =~= old(self).map().insert(k, v)) by {
                    assert forall|key: Seq<char>| #[trigger] self.map().contains_key(key) <==> old(self).map().insert(k, v).contains_key(key) by {
                        if old(self).map().contains_key(key) {
                            let j = choose|j: int| 0 <= j < old_entries.len() && old_entries[j].0@ == key;
                            assert(self.entries@[j].0@ == key);
                        }
                        if self.map().contains_key(key) {
                            let j = choose|j: int| 0 <= j < self.entries@.len() && self.entries@[j].0@ == key;
                            if j != i { assert(old_entries[j].0@ == key); }
                        }
                        assert(self.entries@[i as int].0@ == k);
                    }
                    assert forall|key: Seq<char>| #[trigger] self.map().contains_key(key) implies self.map()[key] == old(self).map().insert(k, v)[key] by {
                        let j = choose|j: int| 0 <= j < self.entries@.len() && self.entries@[j].0@ == key;
                        self.lemma_map_at(j);
                        if j != i {
                            old(self).lemma_map_at(j);
                        }
                    }
                }
            },
            None => {
                let ghost old_entries = self.entries@;
                self.entries.push((name, t));
                assert forall|a: int, b: int| 0 <= a < b < self.entries@.len() implies self.entries@[a].0@ != self.entries@[b].0@ by {
                    if b < old_entries.len() {
                        assert(old_entries[a].0@ != old_entries[b].0@);
                    }
                }
                let ghost last = (self.entries@.len() - 1) as int;
                assert(self.map() =~= old(self).map().insert(k, v)) by {
                    assert forall|key: Seq<char>| #[trigger] self.map().contains_key(key) <==> old(self).map().insert(k, v).contains_key(key) by {
                        if old(self).map().contains_key(key) {
                            let j = choose|j: int| 0 <= j < old_entries.len() && old_entries[j].0@ == key;
                            assert(self.entries@[j].0@ == key);
                        }
                        if self.map().contains_key(key) {
                            let j = choose|j: int| 0 <= j < self.entries@.len() && self.entries@[j].0@ == key;
                            if j != last { assert(old_entries[j].0@ == key); }
                        }
                        assert(self.entries@[last].0@ == k);
                    }
                    assert forall|key: Seq<char>| #[trigger] self.map().contains_key(key) implies self.map()[key] == old(self).map().insert(k, v)[key] by {
                        let j = choose|j: int| 0 <= j < self.entries@.len() && self.entries@[j].0@ == key;
                        self.lemma_map_at(j);
                        if j != last {
                            old(self).lemma_map_at(j);
                        }
                    }
                }
            },
        }
    }

    /// Adds `name` unless it is already in the table (the first entry wins).
    pub fn insert_if_absent(&mut self, name: String, t: T)
        requires
            old(self).wf(),
        ensures
            final(self).wf(),
            final(self).map() == (if old(self).map().contains_key(name@) { old(self).map() } else { old(self).map().insert(name@, t@) }),
    {
        if !self.contains_key(name.as_str()) {
            self.insert(name, t);
        }
    }

    /// Removes `name`; tells whether it was in the table.
    pub fn remove(&mut self, name: &str) -> (r: bool)
        requires
            old(self).wf(),
        ensures
            final(self).wf(),
            r == old(self).map().contains_key(name@),
            final(self).map() == old(self).map().remove(name@),
    {
        match find_entry(&self.entries, name) {
            Some(i) => {
                let ghost old_entries = self.entries@;
                proof { old(self).lemma_map_at(i as int); }
                self.entries.remove(i);
                assert(self.entries@ == old_entries.remove(i as int));
                assert forall|a: int, b: int| 0 <= a < b < self.entries@.len() implies self.entries@[a].0@ != self.entries@[b].0@ by {
                    let oa = if a < i { a } else { a + 1 };
                    let ob = if b < i { b } else { b + 1 };
                    assert(old_entries[oa].0@ != old_entries[ob].0@);
                }
                assert(self.map() =~= old(self).map().remove(name@)) by {
                    assert forall|key: Seq<char>| #[trigger] self.map().contains_key(key) <==> old(self).map().remove(name@).contains_key(key) by {
                        if old(self).map().contains_key(key) && key != name@ {
                            let j = choose|j: int| 0 <= j < old_entries.len() && old_entries[j].0@ == key;
                            assert(j != i);
                            let nj = if j < i { j } else { j - 1 };
                            assert(self.entries@[nj].0@ == key);
                        }
                        if self.map().contains_key(key) {
                            let j = choose|j: int| 0 <= j < self.entries@.len() && self.entries@[j].0@ == key;
                            let oj = if j < i { j } else { j + 1 };
                            assert(old_entries[oj].0@ == key);
                            assert(oj != i);
                            assert(old_entries[oj].0@ != old_entries[i as int].0@);
                        }
                    }
                    assert forall|key: Seq<char>| #[trigger] self.map().contains_key(key) implies self.map()[key] == old(self).map().remove(name@)[key] by {
                        let j = choose|j: int| 0 <= j < self.entries@.len() && self.entries@[j].0@ == key;
                        self.lemma_map_at(j);
                        let oj = if j < i { j } else { j + 1 };
                        assert(old_entries[oj] == self.entries@[j]);
                        old(self).lemma_map_at(oj);
                        assert(old_entries[oj].0@ != old_entries[i as int].0@);
                    }
                }
                true
            },
            None => {
                assert(self.map() =~= old(self).map().remove(name@)) by {
                    assert(!self.map().contains_key(name@));
                }
                false
            },
        }
    }
}

/// Registers the builtin commands: `echo`, `exit`, `type`, `pwd`, `cd`,
/// `ls`, `cat`, `export`, `unset`, `alias`, `unalias`, `history` and `clear`.
pub fn map_builtin_commands(command_map: &mut CommandTable)
    requires
        old(command_map).wf(),
    ensures
        final(command_map).wf(),
        final(command_map).map() == old(command_map).map()
            .insert("echo"@, CommandTypeView::Builtin)
            .insert("exit"@, CommandTypeView::Builtin)
            .insert("type"@, CommandTypeView::Builtin)
            .insert("pwd"@, CommandTypeView::Builtin)
            .insert("cd"@, CommandTypeView::Builtin)
            .insert("ls"@, CommandTypeView::Builtin)
            .insert("cat"@, CommandTypeView::Builtin)
            .insert("export"@, CommandTypeView::Builtin)
            .insert("unset"@, CommandTypeView::Builtin)
            .insert("alias"@, CommandTypeView::Builtin)
            .insert("unalias"@, CommandTypeView::Builtin)
            .insert("history"@, CommandTypeView::Builtin)
            .insert("clear"@, CommandTypeView::Builtin),
{
    command_map.insert("echo".to_string(), CommandType::Builtin);
    command_map.insert("exit".to_string(), CommandType::Builtin);
    command_map.insert("type".to_string(), CommandType::Builtin);
    command_map.insert("pwd".to_string(), CommandType::Builtin);
    command_map.insert("cd".to_string(), CommandType::Builtin);
    command_map.insert("ls".to_string(), CommandType::Builtin);
    command_map.insert("cat".to_string(), CommandType::Builtin);
    command_map.insert("export".to_string(), CommandType::Builtin);
    command_map.insert("unset".to_string(), CommandType::Builtin);
    command_map.insert("alias".to_string(), CommandType::Builtin);
    command_map.insert("unalias".to_string(), CommandType::Builtin);
    command_map.insert("history".to_string(), CommandType::Builtin);
    command_map.insert("clear".to_string(), CommandType::Builtin);
}

/// The value a table gives for a name after `insert_if_absent`: the first
/// value added for a name stays (the first executable found on `PATH` wins);
/// a name not yet in the table gets the value given.
pub proof fn law_first_entry_wins<V>(m: Map<Seq<char>, V>, name: Seq<char>, first: V, second: V)
    ensures
        ({
            let m1 = if m.contains_key(name) { m } else { m.insert(name, first) };
            let m2 = if m1.contains_key(name) { m1 } else { m1.insert(name, second) };
            &&& m2.contains_key(name)
            &&& m2[name] == m1[name]
            &&& !m.contains_key(name) ==> m2[name] == first
        }),
{
}

} // verus!
