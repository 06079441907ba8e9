//! The decisions of `&&`/`||`/`;` chains and of `if`, `while`/`until` and
//! `case`, as state machines: the caller runs each command that a machine asks
//! for and hands back its exit code, until the machine finishes with the exit
//! code of the whole construct.
use vstd::prelude::*;
use crate::expand::{expand_variables, expanded, ExpansionContext};
use crate::glob_pattern::{case_matches, matches_pattern};
use crate::split::ChainOperator;
use crate::text::views;

verus! {

/// What a machine asks for next.
#[derive(Debug, PartialEq)]
pub enum Step {
    /// Run this command, with this as the last exit code (for `$?`).
    Run(String, i32),
    /// The construct is done, with this exit code.
    Finish(i32),
}

pub enum StepView {
    Run(Seq<char>, i32),
    Finish(i32),
}

impl View for Step {
    type V = StepView;

    open spec fn view(&self) -> StepView {
        match self {
            Step::Run(c, l) => StepView::Run(c@, *l),
            Step::Finish(c) => StepView::Finish(*c),
        }
    }
}

/// Whether a chain goes on after a command with `exit_code` followed by `op`.
pub open spec fn continues(op: ChainOperator, exit_code: i32) -> bool {
    match op {
        ChainOperator::And => exit_code == 0,
        ChainOperator::Or => exit_code != 0,
        ChainOperator::Sequence => true,
    }
}

/// Whether a chain goes on after a command with `exit_code` followed by `op`:
/// `&&` only after success, `||` only after failure, `;` always.
pub fn chain_should_continue(op: ChainOperator, exit_code: i32) -> (r: bool)
    ensures
        r == continues(op, exit_code),
{
    match op {
        ChainOperator::And => exit_code == 0,
        ChainOperator::Or => exit_code != 0,
        ChainOperator::Sequence => true,
    }
}

// ---------------------------------------------------------------- chains

/// Whether command `j` of a chain runs when the last command that ran gave
/// `last`: the operator before it decides (`&&` after success, `||` after
/// failure, `;` always); a command with no operator before it runs.
pub open spec fn runs_after(ops: Seq<ChainOperator>, j: int, last: i32) -> bool {
    j < 1 || j - 1 >= ops.len() || continues(ops[j - 1], last)
}

/// The first command from `j` on that runs when the last command that ran
/// gave `last` (the commands between are skipped without changing `last`).
pub open spec fn next_run(n: nat, ops: Seq<ChainOperator>, j: nat, last: i32) -> Option<nat>
    decreases n - j,
{
    if j >= n {
        None
    } else if runs_after(ops, j as int, last) {
        Some(j)
    } else {
        next_run(n, ops, j + 1, last)
    }
}

/// Where a chain stands after the given exit codes: the index of the command
/// to run next (`None` when done) and the exit code of the last command that
/// ran. After each command, the next command runs if its operator lets it
/// (given that exit code); a skipped command is passed over and the one
/// after it is decided the same way, so `a && b ; c` runs `c` whatever `a`
/// gave.
pub open spec fn chain_state(n: nat, ops: Seq<ChainOperator>, codes: Seq<i32>) -> (Option<nat>, i32)
    decreases codes.len(),
{
    if codes.len() == 0 {
        (if n == 0 { None } else { Some(0nat) }, 0)
    } else {
        let (at, last) = chain_state(n, ops, codes.drop_last());
        let code = codes.last();
        match at {
            None => (None, last),
            Some(i) => (next_run(n, ops, i + 1, code), code),
        }
    }
}

proof fn lemma_next_run_bounds(n: nat, ops: Seq<ChainOperator>, j: nat, last: i32)
    ensures
        next_run(n, ops, j, last) matches Some(k) ==> j <= k < n,
    decreases n - j,
{
    if j < n && !runs_after(ops, j as int, last) {
        lemma_next_run_bounds(n, ops, j + 1, last);
    }
}

/// Runs a chain of commands joined by `&&`, `||` and `;`.
pub struct ChainRunner {
    commands: Vec<String>,
    operators: Vec<ChainOperator>,
    at: Option<usize>,
    last: i32,
    codes: Ghost<Seq<i32>>,
}

impl ChainRunner {
    pub closed spec fn commands(&self) -> Seq<Seq<char>> {
        views(self.commands@)
    }

    pub closed spec fn operators(&self) -> Seq<ChainOperator> {
        self.operators@
    }

    /// The exit codes handed back so far.
    pub closed spec fn codes(&self) -> Seq<i32> {
        self.codes@
    }

    pub closed spec fn wf(&self) -> bool {
        let (at, last) = chain_state(self.commands@.len(), self.operators@, self.codes@);
        &&& self.last == last
        &&& match self.at {
            Some(i) => at == Some(i as nat) && i < self.commands@.len(),
            None => at is None,
        }
    }

    /// The next step after the codes handed back so far.
    pub open spec fn next_step(&self) -> StepView {
        let (at, last) = chain_state(self.commands().len(), self.operators(), self.codes());
        match at {
            Some(i) => StepView::Run(self.commands()[i as int], last),
            None => StepView::Finish(last),
        }
    }


    /// What the chain asks for next.
    pub fn step(&self) -> (r: Step)
        requires
            self.wf(),
        ensures
            r@ == self.next_step(),
    {
        match self.at {
            Some(i) => Step::Run(self.commands[i].clone(), self.last),
            None => Step::Finish(self.last),
        }
    }

    /// Hands back the exit code of the command that was run.
    pub fn resume(&mut self, exit_code: i32)
        requires
            old(self).wf(),
        ensures
            final(self).wf(),
            final(self).commands() == old(self).commands(),
            final(self).operators() == old(self).operators(),
            final(self).codes() == old(self).codes().push(exit_code),
    {
        let ghost old_codes = self.codes@;
        self.codes = Ghost(old_codes.push(exit_code));
        assert(self.codes@.drop_last() =~= old_codes);
        match self.at {
            None => {},
            Some(i) => {
                assert(i < self.commands.len());
                self.last = exit_code;
                let n = self.commands.len();
                let mut j = i + 1;
                while j < n && !(j - 1 >= self.operators.len() || chain_should_continue(self.operators[j - 1], exit_code))
                    invariant
                        i + 1 <= j <= n,
                        n == self.commands@.len(),
                        next_run(n as nat, self.operators@, (i + 1) as nat, exit_code)
                            == next_run(n as nat, self.operators@, j as nat, exit_code),
                    decreases n - j,
                {
                    j += 1;
                }
                proof { lemma_next_run_bounds(n as nat, self.operators@, j as nat, exit_code); }
                if j < n {
                    self.at = Some(j);
                } else {
                    self.at = None;
                }
            },
        }
    }
}

/// After command `i` of a chain gives `code`, the command that runs next is
/// the first one after it whose operator lets it run given `code`: a
/// following `;` always runs its command; a following `&&` after failure and
/// a following `||` after success skip their command. A chain that has
/// ended stays ended with the same exit code.
pub proof fn law_chain_step(n: nat, ops: Seq<ChainOperator>, codes: Seq<i32>, code: i32)
    ensures
        ({
            let (at, last) = chain_state(n, ops, codes);
            let (at2, last2) = chain_state(n, ops, codes.push(code));
            &&& at is None ==> at2 is None && last2 == last
            &&& at matches Some(i) ==> {
                &&& last2 == code
                &&& at2 == next_run(n, ops, i + 1, code)
                &&& (i < ops.len() && ops[i as int] == ChainOperator::Sequence && i + 1 < n) ==> at2 == Some(i + 1)
                &&& (i < ops.len() && continues(ops[i as int], code) && i + 1 < n) ==> at2 == Some(i + 1)
                &&& (i < ops.len() && ops[i as int] == ChainOperator::And && code != 0) ==> at2 != Some(i + 1)
                &&& (i < ops.len() && ops[i as int] == ChainOperator::Or && code == 0) ==> at2 != Some(i + 1)
            }
        }),
{
    assert(codes.push(code).drop_last() =~= codes);
    let (at, last) = chain_state(n, ops, codes);
    if let Some(i) = at {
        if i + 1 < n && !runs_after(ops, (i + 1) as int, code) {
            lemma_next_run_bounds(n, ops, i + 2, code);
        }
    }
}

/// A `;` runs the command after it, whatever came before: when the chain
/// looks for the next command to run from before a `;`, it never passes over
/// the command after the `;`.
pub proof fn law_sequence_runs_next(n: nat, ops: Seq<ChainOperator>, j: nat, last: i32, k: nat)
    requires
        j <= k + 1 < n,
        k < ops.len(),
        ops[k as int] == ChainOperator::Sequence,
    ensures
        next_run(n, ops, j, last) matches Some(m) && m <= k + 1,
    decreases k + 1 - j,
{
    if !runs_after(ops, j as int, last) {
        assert(j != k + 1);
        law_sequence_runs_next(n, ops, j + 1, last, k);
    }
}

/// A chain of at least one command starts with its first command and the
/// exit code 0.
pub proof fn law_chain_start(n: nat, ops: Seq<ChainOperator>)
    requires
        n > 0,
    ensures
        chain_state(n, ops, Seq::empty()) == (Some(0nat), 0i32),
{
}

/// Starts a chain of commands joined by `&&`, `||` and `;` (as split by
/// `split_chain`): the machine that says which command to run next.
pub fn execute_chain(commands: Vec<String>, operators: Vec<ChainOperator>) -> (r: ChainRunner)
    ensures
        r.wf(),
        r.commands() == views(commands@),
        r.operators() == operators@,
        r.codes() == Seq::<i32>::empty(),
{
    let at = if commands.len() == 0 { None } else { Some(0) };
    ChainRunner { commands, operators, at, last: 0, codes: Ghost(Seq::empty()) }
}

// ---------------------------------------------------------------- if

/// Where an `if` stands.
pub enum IfPhase {
    /// About to run the condition of branch `i`.
    Cond(nat),
    /// About to run command `pos` of the body of branch `b` (the `else` body
    /// when `b` is the number of branches).
    Body(nat, nat),
    Done,
}

/// The length of body `b` of an `if` whose branch bodies have the lengths
/// `lens` and whose `else` body has `else_len` (`None`: no `else`).
pub open spec fn if_body_len(lens: Seq<nat>, else_len: Option<nat>, b: nat) -> nat {
    if b < lens.len() {
        lens[b as int]
    } else {
        match else_len {
            Some(l) => l,
            None => 0,
        }
    }
}

/// A phase moved on past what needs no command: a condition index past the
/// branches goes to the `else` body, a finished body to `Done`.
pub open spec fn if_settle(lens: Seq<nat>, else_len: Option<nat>, ph: IfPhase) -> IfPhase {
    match ph {
        IfPhase::Cond(i) => {
            if i < lens.len() {
                IfPhase::Cond(i)
            } else if if_body_len(lens, else_len, lens.len()) > 0 {
                IfPhase::Body(lens.len(), 0)
            } else {
                IfPhase::Done
            }
        },
        IfPhase::Body(b, pos) => if pos < if_body_len(lens, else_len, b) { IfPhase::Body(b, pos) } else { IfPhase::Done },
        IfPhase::Done => IfPhase::Done,
    }
}

/// Where an `if` stands after the given exit codes, with the last exit code.
/// Conditions run in order until one succeeds (exit code 0); its body then runs,
/// each command getting the exit code before it, the first one the last failed
/// condition's code (or 0); when no condition succeeds the `else` body runs, if
/// any. The `if` ends with the last exit code.
pub open spec fn if_state(lens: Seq<nat>, else_len: Option<nat>, codes: Seq<i32>) -> (IfPhase, i32)
    decreases codes.len(),
{
    if codes.len() == 0 {
        (if_settle(lens, else_len, IfPhase::Cond(0)), 0)
    } else {
        let (ph, last) = if_state(lens, else_len, codes.drop_last());
        let code = codes.last();
        match ph {
            IfPhase::Cond(i) => {
                if code == 0 {
                    (if_settle(lens, else_len, IfPhase::Body(i, 0)), last)
                } else {
                    (if_settle(lens, else_len, IfPhase::Cond(i + 1)), code)
                }
            },
            IfPhase::Body(b, pos) => (if_settle(lens, else_len, IfPhase::Body(b, pos + 1)), code),
            IfPhase::Done => (IfPhase::Done, last),
        }
    }
}

pub enum IfAt {
    Cond(usize),
    Body(usize, usize),
    Done,
}

/// Runs `if cond; then body; elif ...; else body; fi`.
pub struct IfRunner {
    branches: Vec<(String, Vec<String>)>,
    else_body: Option<Vec<String>>,
    at: IfAt,
    last: i32,
    codes: Ghost<Seq<i32>>,
}

pub open spec fn branch_lens(branches: Seq<(String, Vec<String>)>) -> Seq<nat> {
    branches.map_values(|b: (String, Vec<String>)| b.1@.len())
}

pub open spec fn else_len_of(e: Option<Vec<String>>) -> Option<nat> {
    match e {
        Some(v) => Some(v@.len()),
        None => None,
    }
}

/// The lengths of the bodies of `if` branches.
pub open spec fn body_lens(branches: Seq<(Seq<char>, Seq<Seq<char>>)>) -> Seq<nat> {
    branches.map_values(|b: (Seq<char>, Seq<Seq<char>>)| b.1.len())
}

/// The length of an `else` body, if there is one.
pub open spec fn else_body_len(e: Option<Seq<Seq<char>>>) -> Option<nat> {
    match e {
        Some(v) => Some(v.len()),
        None => None,
    }
}

impl IfRunner {
    pub closed spec fn branches(&self) -> Seq<(Seq<char>, Seq<Seq<char>>)> {
        self.branches@.map_values(|b: (String, Vec<String>)| (b.0@, views(b.1@)))
    }

    pub closed spec fn else_body(&self) -> Option<Seq<Seq<char>>> {
        match self.else_body {
            Some(v) => Some(views(v@)),
            None => None,
        }
    }

    pub closed spec fn lens(&self) -> Seq<nat> {
        branch_lens(self.branches@)
    }

    pub closed spec fn else_len(&self) -> Option<nat> {
        else_len_of(self.else_body)
    }

    pub closed spec fn codes(&self) -> Seq<i32> {
        self.codes@
    }

    pub closed spec fn at_view(&self) -> IfPhase {
        match self.at {
            IfAt::Cond(i) => IfPhase::Cond(i as nat),
            IfAt::Body(b, p) => IfPhase::Body(b as nat, p as nat),
            IfAt::Done => IfPhase::Done,
        }
    }

    pub closed spec fn wf(&self) -> bool {
        &&& if_state(self.lens(), self.else_len(), self.codes@) == (self.at_view(), self.last)
        &&& match self.at {
            IfAt::Cond(i) => i < self.branches@.len(),
            IfAt::Body(b, p) => b <= self.branches@.len() && p < if_body_len(self.lens(), self.else_len(), b as nat),
            IfAt::Done => true,
        }
    }

    /// The body lengths that the runner goes by are those of its branches
    /// and its `else` body.
    pub proof fn lemma_lens(&self)
        ensures
            self.lens() == body_lens(self.branches()),
            self.else_len() == else_body_len(self.else_body()),
    {
        assert(self.lens() =~= body_lens(self.branches()));
    }

    /// The next step after the codes handed back so far.
    pub open spec fn next_step(&self) -> StepView {
        let (ph, last) = if_state(body_lens(self.branches()), else_body_len(self.else_body()), self.codes());
        match ph {
            IfPhase::Cond(i) => StepView::Run(self.branches()[i as int].0, last),
            IfPhase::Body(b, pos) => StepView::Run(
                if b < self.branches().len() { self.branches()[b as int].1[pos as int] } else { self.else_body()->0[pos as int] },
                last,
            ),
            IfPhase::Done => StepView::Finish(last),
        }
    }

    fn settle(&mut self)
        requires
            match old(self).at {
                IfAt::Cond(i) => true,
                IfAt::Body(b, p) => b <= old(self).branches@.len(),
                IfAt::Done => true,
            },
        ensures
            final(self).branches == old(self).branches,
            final(self).else_body == old(self).else_body,
            final(self).last == old(self).last,
            final(self).codes == old(self).codes,
            final(self).at_view() == if_settle(old(self).lens(), old(self).else_len(), old(self).at_view()),
            match final(self).at {
                IfAt::Cond(i) => i < final(self).branches@.len(),
                IfAt::Body(b, p) => b <= final(self).branches@.len() && p < if_body_len(final(self).lens(), final(self).else_len(), b as nat),
                IfAt::Done => true,
            },
    {
        let n = self.branches.len();
        let else_len: usize = match &self.else_body {
            Some(v) => v.len(),
            None => 0,
        };
        assert(if_body_len(self.lens(), self.else_len(), n as nat) == else_len);
        match self.at {
            IfAt::Cond(i) => {
                if i >= n {
                    if else_len > 0 {
                        self.at = IfAt::Body(n, 0);
                    } else {
                        self.at = IfAt::Done;
                    }
                }
            },
            IfAt::Body(b, p) => {
                let len = if b < n { self.branches[b].1.len() } else { else_len };
                assert(len == if_body_len(self.lens(), self.else_len(), b as nat));
                if p >= len {
                    self.at = IfAt::Done;
                }
            },
            IfAt::Done => {},
        }
    }


    /// What the `if` asks for next.
    pub fn step(&self) -> (r: Step)
        requires
            self.wf(),
        ensures
            r@ == self.next_step(),
    {
        proof {
            self.lemma_lens();
        }
        match self.at {
            IfAt::Cond(i) => Step::Run(self.branches[i].0.clone(), self.last),
            IfAt::Body(b, p) => {
                if b < self.branches.len() {
                    assert(p < self.branches@[b as int].1@.len());
                    Step::Run(self.branches[b].1[p].clone(), self.last)
                } else {
                    match &self.else_body {
                        Some(v) => Step::Run(v[p].clone(), self.last),
                        None => Step::Finish(self.last),
                    }
                }
            },
            IfAt::Done => Step::Finish(self.last),
        }
    }

    /// Hands back the exit code of the command that was run.
    pub fn resume(&mut self, exit_code: i32)
        requires
            old(self).wf(),
        ensures
            final(self).wf(),
            final(self).branches() == old(self).branches(),
            final(self).else_body() == old(self).else_body(),
            final(self).codes() == old(self).codes().push(exit_code),
    {
        let ghost old_codes = self.codes@;
        self.codes = Ghost(old_codes.push(exit_code));
        assert(self.codes@.drop_last() =~= old_codes);
        match self.at {
            IfAt::Cond(i) => {
                assert(i < self.branches.len());
                if exit_code == 0 {
                    self.at = IfAt::Body(i, 0);
                } else {
                    self.at = IfAt::Cond(i + 1);
                    self.last = exit_code;
                }
                self.settle();
            },
            IfAt::Body(b, p) => {
                let len: usize = if b < self.branches.len() {
                    self.branches[b].1.len()
                } else {
                    match &self.else_body {
                        Some(v) => v.len(),
                        None => 0,
                    }
                };
                assert(len == if_body_len(self.lens(), self.else_len(), b as nat));
                self.at = IfAt::Body(b, p + 1);
                self.last = exit_code;
                self.settle();
            },
            IfAt::Done => {},
        }
    }
}

/// Starts an `if`/`elif`/`else`: each branch is a condition and its body;
/// the first branch whose condition succeeds runs its body, else the `else`
/// body, if any.
pub fn execute_if(branches: Vec<(String, Vec<String>)>, else_body: Option<Vec<String>>) -> (r: IfRunner)
    ensures
        r.wf(),
        r.branches() == branches@.map_values(|b: (String, Vec<String>)| (b.0@, views(b.1@))),
        r.else_body() == match else_body { Some(v) => Some(views(v@)), None => None },
        r.codes() == Seq::<i32>::empty(),
{
    let mut r = IfRunner { branches, else_body, at: IfAt::Cond(0), last: 0, codes: Ghost(Seq::empty()) };
    r.settle();
    r
}


proof fn lemma_if_conditions(lens: Seq<nat>, else_len: Option<nat>, codes: Seq<i32>, j: nat)
    requires
        j <= codes.len(),
        j < lens.len(),
        forall|t: int| 0 <= t < j ==> codes[t] != 0,
    ensures
        if_state(lens, else_len, codes.take(j as int)).0 == IfPhase::Cond(j),
        j > 0 ==> if_state(lens, else_len, codes.take(j as int)).1 == codes[j - 1],
    decreases j,
{
    if j > 0 {
        lemma_if_conditions(lens, else_len, codes, (j - 1) as nat);
        assert(codes.take(j as int).drop_last() =~= codes.take(j - 1));
    }
}

/// The conditions of an `if` run in order while they fail; the body of the
/// first one that succeeds runs next (`if`/`elif`), and when every condition
/// has failed the `else` body runs, if there is one, else the `if` is done
/// with the last condition's exit code.
pub proof fn law_if_first_success(lens: Seq<nat>, else_len: Option<nat>, codes: Seq<i32>)
    requires
        codes.len() <= lens.len(),
        forall|t: int| 0 <= t < codes.len() - 1 ==> codes[t] != 0,
    ensures
        codes.len() > 0 && codes.last() == 0 && lens[codes.len() - 1] > 0
            ==> if_state(lens, else_len, codes).0 == IfPhase::Body((codes.len() - 1) as nat, 0),
        codes.len() == lens.len() && codes.len() > 0 && codes.last() != 0 ==> ({
            let (ph, last) = if_state(lens, else_len, codes);
            &&& last == codes.last()
            &&& match else_len {
                Some(l) if l > 0 => ph == IfPhase::Body(lens.len(), 0),
                _ => ph == IfPhase::Done,
            }
        }),
{
    if codes.len() > 0 {
        let k = (codes.len() - 1) as nat;
        lemma_if_conditions(lens, else_len, codes, k);
        assert(codes.take(k as int) =~= codes.drop_last());
    }
}

// ---------------------------------------------------------------- while / until

/// The most iterations a `while` or `until` loop makes.
pub const MAX_ITERATIONS: usize = 10000;

/// Where a `while`/`until` loop stands.
pub enum LoopPhase {
    /// About to run the condition in iteration `it`.
    Cond(nat),
    /// About to run command `pos` of the body in iteration `it`.
    Body(nat, nat),
    Done,
}

pub open spec fn loop_settle(len: nat, ph: LoopPhase) -> LoopPhase {
    match ph {
        LoopPhase::Cond(it) => if it < MAX_ITERATIONS { LoopPhase::Cond(it) } else { LoopPhase::Done },
        LoopPhase::Body(it, pos) => {
            if pos < len {
                LoopPhase::Body(it, pos)
            } else if it + 1 < MAX_ITERATIONS {
                LoopPhase::Cond(it + 1)
            } else {
                LoopPhase::Done
            }
        },
        LoopPhase::Done => LoopPhase::Done,
    }
}

/// Whether the loop goes on after its condition gave `code`: `while` while the
/// condition succeeds, `until` while it fails.
pub open spec fn loop_goes_on(is_until: bool, code: i32) -> bool {
    if is_until { code != 0 } else { code == 0 }
}

/// Where a `while`/`until` loop with a body of `len` commands stands after the
/// given exit codes, with the last exit code. Each iteration runs the condition
/// (with the last exit code), stops the loop unless it goes on, and otherwise
/// runs the body, threading exit codes; at most `MAX_ITERATIONS` iterations
/// run. The loop ends with the last exit code of its body (0 if none ran).
pub open spec fn loop_state(is_until: bool, len: nat, codes: Seq<i32>) -> (LoopPhase, i32)
    decreases codes.len(),
{
    if codes.len() == 0 {
        (loop_settle(len, LoopPhase::Cond(0)), 0)
    } else {
        let (ph, last) = loop_state(is_until, len, codes.drop_last());
        let code = codes.last();
        match ph {
            LoopPhase::Cond(it) => {
                if loop_goes_on(is_until, code) {
                    (loop_settle(len, LoopPhase::Body(it, 0)), last)
                } else {
                    (LoopPhase::Done, last)
                }
            },
            LoopPhase::Body(it, pos) => (loop_settle(len, LoopPhase::Body(it, pos + 1)), code),
            LoopPhase::Done => (LoopPhase::Done, last),
        }
    }
}

pub enum LoopAt {
    Cond(usize),
    Body(usize, usize),
    Done,
}

/// Runs `while cond; do body; done` or `until cond; do body; done`.
pub struct LoopRunner {
    is_until: bool,
    condition: String,
    body: Vec<String>,
    at: LoopAt,
    last: i32,
    codes: Ghost<Seq<i32>>,
}

impl LoopRunner {
    pub closed spec fn is_until(&self) -> bool {
        self.is_until
    }

    pub closed spec fn condition(&self) -> Seq<char> {
        self.condition@
    }

    pub closed spec fn body(&self) -> Seq<Seq<char>> {
        views(self.body@)
    }

    pub closed spec fn codes(&self) -> Seq<i32> {
        self.codes@
    }

    pub closed spec fn at_view(&self) -> LoopPhase {
        match self.at {
            LoopAt::Cond(i) => LoopPhase::Cond(i as nat),
            LoopAt::Body(i, p) => LoopPhase::Body(i as nat, p as nat),
            LoopAt::Done => LoopPhase::Done,
        }
    }

    pub closed spec fn wf(&self) -> bool {
        &&& loop_state(self.is_until, self.body@.len(), self.codes@) == (self.at_view(), self.last)
        &&& match self.at {
            LoopAt::Cond(i) => i < MAX_ITERATIONS,
            LoopAt::Body(i, p) => i < MAX_ITERATIONS && p < self.body@.len(),
            LoopAt::Done => true,
        }
    }

    /// The next step after the codes handed back so far.
    pub open spec fn next_step(&self) -> StepView {
        let (ph, last) = loop_state(self.is_until(), self.body().len(), self.codes());
        match ph {
            LoopPhase::Cond(_) => StepView::Run(self.condition(), last),
            LoopPhase::Body(_, pos) => StepView::Run(self.body()[pos as int], last),
            LoopPhase::Done => StepView::Finish(last),
        }
    }

    fn settle(&mut self)
        requires
            match old(self).at {
                LoopAt::Cond(i) => true,
                LoopAt::Body(i, p) => i < MAX_ITERATIONS,
                LoopAt::Done => true,
            },
        ensures
            final(self).is_until == old(self).is_until,
            final(self).condition == old(self).condition,
            final(self).body == old(self).body,
            final(self).last == old(self).last,
            final(self).codes == old(self).codes,
            final(self).at_view() == loop_settle(old(self).body@.len(), old(self).at_view()),
            match final(self).at {
                LoopAt::Cond(i) => i < MAX_ITERATIONS,
                LoopAt::Body(i, p) => i < MAX_ITERATIONS && p < final(self).body@.len(),
                LoopAt::Done => true,
            },
    {
        match self.at {
            LoopAt::Cond(i) => {
                if i >= MAX_ITERATIONS {
                    self.at = LoopAt::Done;
                }
            },
            LoopAt::Body(i, p) => {
                if p >= self.body.len() {
                    if i + 1 < MAX_ITERATIONS {
                        self.at = LoopAt::Cond(i + 1);
                    } else {
                        self.at = LoopAt::Done;
                    }
                }
            },
            LoopAt::Done => {},
        }
    }


    /// What the loop asks for next.
    pub fn step(&self) -> (r: Step)
        requires
            self.wf(),
        ensures
            r@ == self.next_step(),
    {
        match self.at {
            LoopAt::Cond(_) => Step::Run(self.condition.clone(), self.last),
            LoopAt::Body(_, p) => Step::Run(self.body[p].clone(), self.last),
            LoopAt::Done => Step::Finish(self.last),
        }
    }

    /// Hands back the exit code of the command that was run.
    pub fn resume(&mut self, exit_code: i32)
        requires
            old(self).wf(),
        ensures
            final(self).wf(),
            final(self).is_until() == old(self).is_until(),
            final(self).condition() == old(self).condition(),
            final(self).body() == old(self).body(),
            final(self).codes() == old(self).codes().push(exit_code),
    {
        let ghost old_codes = self.codes@;
        self.codes = Ghost(old_codes.push(exit_code));
        assert(self.codes@.drop_last() =~= old_codes);
        match self.at {
            LoopAt::Cond(i) => {
                let goes_on = if self.is_until { exit_code != 0 } else { exit_code == 0 };
                if goes_on {
                    self.at = LoopAt::Body(i, 0);
                    self.settle();
                } else {
                    self.at = LoopAt::Done;
                }
            },
            LoopAt::Body(i, p) => {
                assert(p < self.body.len());
                self.at = LoopAt::Body(i, p + 1);
                self.last = exit_code;
                self.settle();
            },
            LoopAt::Done => {},
        }
    }
}

/// How far a loop has come: one step per command it has asked for.
pub open spec fn loop_progress(len: nat, ph: LoopPhase) -> int {
    match ph {
        LoopPhase::Cond(it) => (it * (len + 1)) as int,
        LoopPhase::Body(it, pos) => (it * (len + 1) + pos + 1) as int,
        LoopPhase::Done => 0,
    }
}

proof fn lemma_loop_progress(is_until: bool, len: nat, codes: Seq<i32>)
    ensures
        match loop_state(is_until, len, codes).0 {
            LoopPhase::Cond(it) => it < MAX_ITERATIONS && codes.len() == loop_progress(len, LoopPhase::Cond(it)),
            LoopPhase::Body(it, pos) => it < MAX_ITERATIONS && pos < len
                && codes.len() == loop_progress(len, LoopPhase::Body(it, pos)),
            LoopPhase::Done => true,
        },
    decreases codes.len(),
{
    if codes.len() > 0 {
        lemma_loop_progress(is_until, len, codes.drop_last());
        let (ph, last) = loop_state(is_until, len, codes.drop_last());
        match ph {
            LoopPhase::Cond(it) => {
                assert((it + 1) * (len + 1) == it * (len + 1) + len + 1) by (nonlinear_arith);
            },
            LoopPhase::Body(it, pos) => {
                assert((it + 1) * (len + 1) == it * (len + 1) + len + 1) by (nonlinear_arith);
            },
            LoopPhase::Done => {},
        }
    }
}

/// A `while` or `until` loop runs its condition at most `MAX_ITERATIONS`
/// times: once it has been handed `MAX_ITERATIONS` times (body length + 1)
/// exit codes, it has finished.
pub proof fn law_loop_ends(is_until: bool, len: nat, codes: Seq<i32>)
    requires
        codes.len() >= MAX_ITERATIONS * (len + 1),
    ensures
        loop_state(is_until, len, codes).0 is Done,
{
    lemma_loop_progress(is_until, len, codes);
    match loop_state(is_until, len, codes).0 {
        LoopPhase::Cond(it) => {
            assert(it * (len + 1) < MAX_ITERATIONS * (len + 1)) by (nonlinear_arith)
                requires it < MAX_ITERATIONS;
        },
        LoopPhase::Body(it, pos) => {
            assert(it * (len + 1) + pos + 1 <= MAX_ITERATIONS * (len + 1) - 1) by (nonlinear_arith)
                requires it < MAX_ITERATIONS, pos < len;
        },
        LoopPhase::Done => {},
    }
}

/// Starts a `while` loop (`is_until` false) or an `until` loop over
/// `condition` and `body`, bounded by `MAX_ITERATIONS` conditions.
pub fn execute_while_until(is_until: bool, condition: &str, body: Vec<String>) -> (r: LoopRunner)
    ensures
        r.wf(),
        r.is_until() == is_until,
        r.condition() == condition@,
        r.body() == views(body@),
        r.codes() == Seq::<i32>::empty(),
{
    let condition = condition.to_owned();
    let mut r = LoopRunner { is_until, condition, body, at: LoopAt::Cond(0), last: 0, codes: Ghost(Seq::empty()) };
    r.settle();
    r
}

// ---------------------------------------------------------------- for

/// Where a `for` loop stands.
pub enum ForPhase {
    /// About to set the loop variable to word `w`.
    Assign(nat),
    /// About to run command `pos` of the body for word `w`.
    Body(nat, nat),
    Done,
}

/// A phase moved on past what needs nothing: a finished body goes to the
/// next word, past the last word to `Done`.
pub open spec fn for_settle(n: nat, len: nat, ph: ForPhase) -> ForPhase {
    match ph {
        ForPhase::Assign(w) => if w < n { ForPhase::Assign(w) } else { ForPhase::Done },
        ForPhase::Body(w, pos) => {
            if pos < len {
                ForPhase::Body(w, pos)
            } else if w + 1 < n {
                ForPhase::Assign(w + 1)
            } else {
                ForPhase::Done
            }
        },
        ForPhase::Done => ForPhase::Done,
    }
}

/// Where a `for` loop over `n` words with a body of `len` commands stands
/// after the given events (`None`: the variable was set; `Some(code)`: a
/// body command gave `code`), with the last exit code. For each word in turn
/// the variable is set and the body runs, threading exit codes; the loop
/// ends with the last exit code (0 if no command ran). An event that does not
/// fit the phase leaves the loop where it is.
pub open spec fn for_state(n: nat, len: nat, events: Seq<Option<i32>>) -> (ForPhase, i32)
    decreases events.len(),
{
    if events.len() == 0 {
        (for_settle(n, len, ForPhase::Assign(0)), 0)
    } else {
        let (ph, last) = for_state(n, len, events.drop_last());
        match (ph, events.last()) {
            (ForPhase::Assign(w), None) => (for_settle(n, len, ForPhase::Body(w, 0)), last),
            (ForPhase::Body(w, pos), Some(code)) => (for_settle(n, len, ForPhase::Body(w, pos + 1)), code),
            _ => (ph, last),
        }
    }
}

/// What a `for` loop asks for next.
#[derive(Debug, PartialEq)]
pub enum ForStep {
    /// Set the variable (first) to the word (second).
    Assign(String, String),
    /// Run this command, with this as the last exit code.
    Run(String, i32),
    /// The loop is done, with this exit code.
    Finish(i32),
}

pub enum ForStepView {
    Assign(Seq<char>, Seq<char>),
    Run(Seq<char>, i32),
    Finish(i32),
}

impl View for ForStep {
    type V = ForStepView;

    open spec fn view(&self) -> ForStepView {
        match self {
            ForStep::Assign(v, w) => ForStepView::Assign(v@, w@),
            ForStep::Run(c, l) => ForStepView::Run(c@, *l),
            ForStep::Finish(c) => ForStepView::Finish(*c),
        }
    }
}

pub enum ForAt {
    Assign(usize),
    Body(usize, usize),
    Done,
}

/// Runs `for var in words; do body; done`.
pub struct ForRunner {
    var: String,
    words: Vec<String>,
    body: Vec<String>,
    at: ForAt,
    last: i32,
    events: Ghost<Seq<Option<i32>>>,
}

impl ForRunner {
    pub closed spec fn var(&self) -> Seq<char> {
        self.var@
    }

    pub closed spec fn words(&self) -> Seq<Seq<char>> {
        views(self.words@)
    }

    pub closed spec fn body(&self) -> Seq<Seq<char>> {
        views(self.body@)
    }

    /// What was handed back so far.
    pub closed spec fn events(&self) -> Seq<Option<i32>> {
        self.events@
    }

    pub closed spec fn at_view(&self) -> ForPhase {
        match self.at {
            ForAt::Assign(w) => ForPhase::Assign(w as nat),
            ForAt::Body(w, p) => ForPhase::Body(w as nat, p as nat),
            ForAt::Done => ForPhase::Done,
        }
    }

    pub closed spec fn wf(&self) -> bool {
        &&& for_state(self.words@.len(), self.body@.len(), self.events@) == (self.at_view(), self.last)
        &&& match self.at {
            ForAt::Assign(w) => w < self.words@.len(),
            ForAt::Body(w, p) => w < self.words@.len() && p < self.body@.len(),
            ForAt::Done => true,
        }
    }

    /// The next step after the events so far.
    pub open spec fn next_step(&self) -> ForStepView {
        let (ph, last) = for_state(self.words().len(), self.body().len(), self.events());
        match ph {
            ForPhase::Assign(w) => ForStepView::Assign(self.var(), self.words()[w as int]),
            ForPhase::Body(_, pos) => ForStepView::Run(self.body()[pos as int], last),
            ForPhase::Done => ForStepView::Finish(last),
        }
    }

    fn settle(&mut self)
        requires
            match old(self).at {
                ForAt::Body(w, p) => w < old(self).words@.len(),
                _ => true,
            },
        ensures
            final(self).var == old(self).var,
            final(self).words == old(self).words,
            final(self).body == old(self).body,
            final(self).last == old(self).last,
            final(self).events == old(self).events,
            final(self).at_view() == for_settle(old(self).words@.len(), old(self).body@.len(), old(self).at_view()),
            match final(self).at {
                ForAt::Assign(w) => w < final(self).words@.len(),
                ForAt::Body(w, p) => w < final(self).words@.len() && p < final(self).body@.len(),
                ForAt::Done => true,
            },
    {
        match self.at {
            ForAt::Assign(w) => {
                if w >= self.words.len() {
                    self.at = ForAt::Done;
                }
            },
            ForAt::Body(w, p) => {
                if p >= self.body.len() {
                    if w < self.words.len() && self.words.len() - w > 1 {
                        self.at = ForAt::Assign(w + 1);
                    } else {
                        self.at = ForAt::Done;
                    }
                }
            },
            ForAt::Done => {},
        }
    }

    /// What the loop asks for next.
    pub fn step(&self) -> (r: ForStep)
        requires
            self.wf(),
        ensures
            r@ == self.next_step(),
    {
        match self.at {
            ForAt::Assign(w) => ForStep::Assign(self.var.clone(), self.words[w].clone()),
            ForAt::Body(_, p) => ForStep::Run(self.body[p].clone(), self.last),
            ForAt::Done => ForStep::Finish(self.last),
        }
    }

    /// Tells the loop that the variable was set.
    pub fn assigned(&mut self)
        requires
            old(self).wf(),
        ensures
            final(self).wf(),
            final(self).var() == old(self).var(),
            final(self).words() == old(self).words(),
            final(self).body() == old(self).body(),
            final(self).events() == old(self).events().push(None),
    {
        let ghost old_events = self.events@;
        self.events = Ghost(old_events.push(None));
        assert(self.events@.drop_last() =~= old_events);
        match self.at {
            ForAt::Assign(w) => {
                assert(w < self.words.len());
                self.at = ForAt::Body(w, 0);
                self.settle();
            },
            _ => {},
        }
    }

    /// Hands back the exit code of the command that was run.
    pub fn resume(&mut self, exit_code: i32)
        requires
            old(self).wf(),
        ensures
            final(self).wf(),
            final(self).var() == old(self).var(),
            final(self).words() == old(self).words(),
            final(self).body() == old(self).body(),
            final(self).events() == old(self).events().push(Some(exit_code)),
    {
        let ghost old_events = self.events@;
        self.events = Ghost(old_events.push(Some(exit_code)));
        assert(self.events@.drop_last() =~= old_events);
        match self.at {
            ForAt::Body(w, p) => {
                assert(p < self.body.len() && w < self.words.len());
                self.last = exit_code;
                self.at = ForAt::Body(w, p + 1);
                self.settle();
            },
            _ => {},
        }
    }
}

/// The events of body commands that gave these exit codes.
pub open spec fn code_events(codes: Seq<i32>) -> Seq<Option<i32>>
    decreases codes.len(),
{
    if codes.len() == 0 {
        Seq::empty()
    } else {
        code_events(codes.drop_last()).push(Some(codes.last()))
    }
}

proof fn lemma_for_body(n: nat, len: nat, events: Seq<Option<i32>>, w: nat, codes: Seq<i32>, k: nat)
    requires
        for_state(n, len, events).0 == ForPhase::Assign(w),
        codes.len() == len,
        k <= len,
    ensures
        ({
            let (ph, last) = for_state(n, len, events.push(None) + code_events(codes.take(k as int)));
            &&& ph == for_settle(n, len, ForPhase::Body(w, k))
            &&& k > 0 ==> last == codes[k - 1]
        }),
    decreases k,
{
    if k == 0 {
        assert(code_events(codes.take(0)) =~= Seq::<Option<i32>>::empty());
        assert(events.push(None) + code_events(codes.take(0)) =~= events.push(None));
        assert(events.push(None).drop_last() =~= events);
    } else {
        lemma_for_body(n, len, events, w, codes, (k - 1) as nat);
        let prev = events.push(None) + code_events(codes.take(k - 1));
        assert(codes.take(k as int).drop_last() =~= codes.take(k - 1));
        assert(events.push(None) + code_events(codes.take(k as int)) =~= prev.push(Some(codes[k - 1])));
        assert(prev.push(Some(codes[k - 1])).drop_last() =~= prev);
    }
}

/// A `for` loop takes its words in turn: once the variable has been set to
/// word `w` and the body has run (each command handing back its exit code),
/// the loop goes on to word `w + 1`, or ends after the last word, with the
/// exit code of the body's last command.
pub proof fn law_for_round(n: nat, len: nat, events: Seq<Option<i32>>, w: nat, codes: Seq<i32>)
    requires
        for_state(n, len, events).0 == ForPhase::Assign(w),
        codes.len() == len,
    ensures
        ({
            let (ph, last) = for_state(n, len, events.push(None) + code_events(codes));
            &&& ph == if w + 1 < n { ForPhase::Assign(w + 1) } else { ForPhase::Done }
            &&& len > 0 ==> last == codes.last()
        }),
{
    lemma_for_body(n, len, events, w, codes, len);
    assert(codes.take(len as int) =~= codes);
}

/// Starts `for var in words; do body; done`: for each word the variable is
/// set, then the body runs.
pub fn execute_for(var: &str, words: Vec<String>, body: Vec<String>) -> (r: ForRunner)
    ensures
        r.wf(),
        r.var() == var@,
        r.words() == views(words@),
        r.body() == views(body@),
        r.events() == Seq::<Option<i32>>::empty(),
{
    let mut r = ForRunner { var: var.to_owned(), words, body, at: ForAt::Assign(0), last: 0, events: Ghost(Seq::empty()) };
    r.settle();
    r
}

// ---------------------------------------------------------------- case

/// The first arm (pattern lists) with a pattern that `word` matches.
pub open spec fn selected_arm(arms: Seq<Seq<Seq<char>>>, word: Seq<char>) -> Option<nat>
    decreases arms.len(),
{
    if arms.len() == 0 {
        None
    } else {
        match selected_arm(arms.drop_last(), word) {
            Some(k) => Some(k),
            None => if exists|j: int| 0 <= j < arms.last().len() && case_matches(word, #[trigger] arms.last()[j]) {
                Some((arms.len() - 1) as nat)
            } else {
                None
            },
        }
    }
}

/// Where the chosen body of a `case` stands after the given exit codes: the
/// position of the command to run next (`None` when done) and the last exit
/// code; the body's first command gets 0.
pub open spec fn case_state(len: nat, codes: Seq<i32>) -> (Option<nat>, i32)
    decreases codes.len(),
{
    if codes.len() == 0 {
        (if len > 0 { Some(0nat) } else { None }, 0)
    } else {
        let (at, last) = case_state(len, codes.drop_last());
        match at {
            Some(p) => (if p + 1 < len { Some(p + 1) } else { None }, codes.last()),
            None => (None, last),
        }
    }
}

/// Runs `case word in pattern) body;; ... esac`.
pub struct CaseRunner {
    body: Vec<String>,
    at: Option<usize>,
    last: i32,
    codes: Ghost<Seq<i32>>,
}

pub open spec fn arm_patterns(arms: Seq<(Vec<String>, Vec<String>)>) -> Seq<Seq<Seq<char>>> {
    arms.map_values(|a: (Vec<String>, Vec<String>)| views(a.0@))
}

impl CaseRunner {
    /// The commands of the chosen arm (none when no arm matched).
    pub closed spec fn body(&self) -> Seq<Seq<char>> {
        views(self.body@)
    }

    pub closed spec fn codes(&self) -> Seq<i32> {
        self.codes@
    }

    pub closed spec fn wf(&self) -> bool {
        &&& case_state(self.body@.len(), self.codes@) == (match self.at { Some(p) => Some(p as nat), None => None }, self.last)
        &&& match self.at { Some(p) => p < self.body@.len(), None => true }
    }

    pub open spec fn next_step(&self) -> StepView {
        let (at, last) = case_state(self.body().len(), self.codes());
        match at {
            Some(p) => StepView::Run(self.body()[p as int], last),
            None => StepView::Finish(last),
        }
    }


    pub fn step(&self) -> (r: Step)
        requires
            self.wf(),
        ensures
            r@ == self.next_step(),
    {
        match self.at {
            Some(p) => Step::Run(self.body[p].clone(), self.last),
            None => Step::Finish(self.last),
        }
    }

    pub fn resume(&mut self, exit_code: i32)
        requires
            old(self).wf(),
        ensures
            final(self).wf(),
            final(self).body() == old(self).body(),
            final(self).codes() == old(self).codes().push(exit_code),
    {
        let ghost old_codes = self.codes@;
        self.codes = Ghost(old_codes.push(exit_code));
        assert(self.codes@.drop_last() =~= old_codes);
        match self.at {
            Some(p) => {
                assert(p < self.body.len());
                self.last = exit_code;
                if p + 1 < self.body.len() {
                    self.at = Some(p + 1);
                } else {
                    self.at = None;
                }
            },
            None => {},
        }
    }
}

/// A `case` on `word` (expanded first) with the given arms: the first arm
/// with a pattern that the word matches is chosen.
pub fn execute_case(word: &str, arms: Vec<(Vec<String>, Vec<String>)>, ctx: &ExpansionContext) -> (r: CaseRunner)
    ensures
        r.wf(),
        r.codes() == Seq::<i32>::empty(),
        match selected_arm(arm_patterns(arms@), expanded(word@, 0, ctx@)) {
            Some(k) => r.body() == views(arms@[k as int].1@),
            None => r.body() == Seq::<Seq<char>>::empty(),
        },
{
    let w = expand_variables(word, 0, ctx);
    let ghost pats = arm_patterns(arms@);
    let mut chosen: Option<usize> = None;
    let mut k: usize = 0;
    while k < arms.len()
        invariant
            k <= arms.len(),
            pats == arm_patterns(arms@),
            selected_arm(pats.take(k as int), w@) == match chosen { Some(c) => Some(c as nat), None => None },
            match chosen { Some(c) => c < k, None => true },
        decreases arms.len() - k,
    {
        assert(pats.take(k + 1).drop_last() =~= pats.take(k as int));
        assert(pats.take(k + 1).last() == views(arms@[k as int].0@));
        if chosen.is_none() {
            let patterns = &arms[k].0;
            let mut j: usize = 0;
            let mut found = false;
            while j < patterns.len() && !found
                invariant
                    j <= patterns.len(),
                    found == exists|m: int| 0 <= m < j && case_matches(w@, #[trigger] views(patterns@)[m]),
                decreases patterns.len() - j,
            {
                if matches_pattern(w.as_str(), patterns[j].as_str()) {
                    found = true;
                }
                assert(views(patterns@)[j as int] == patterns@[j as int]@);
                j += 1;
            }
            if found {
                chosen = Some(k);
            }
        }
        k += 1;
    }
    assert(pats.take(arms.len() as int) =~= pats);
    let body: Vec<String> = match chosen {
        Some(c) => arms[c].1.clone(),
        None => Vec::new(),
    };
    assert(views(body@) == match chosen { Some(c) => views(arms@[c as int].1@), None => Seq::<Seq<char>>::empty() }) by {
        if chosen is None {
            assert(views(body@) =~= Seq::<Seq<char>>::empty());
        }
    }
    let at = if body.len() > 0 { Some(0) } else { None };
    CaseRunner { body, at, last: 0, codes: Ghost(Seq::empty()) }
}

} // verus!
