//! From the saved buffer to edit intents.
//!
//! Every data line of the buffer names a file by alias and a line by number.
//! Blanking the content asks for the line's deletion; other content that
//! differs from the snapshot asks for its replacement; content equal to the
//! snapshot asks for nothing. Lines that cannot be understood are passed over.

use crate::alias::{is_token, lemma_letters_rank, lemma_nth_letters, letters_rank, nth_letters, FileAlias, ALIAS_COUNT};
use crate::registry::{index_of, lemma_registered, registered, registry_wf, snapshot_lines, FileRegistry, RecordView};
use crate::scan::{scan, scan_line, DataLine, LineScan, Scan};
use crate::text::{blank, chars_equal, chars_of, is_blank, lines_of, lines_view, split_lines, string_of};
use vstd::prelude::*;

verus! {

/// What the user wants a line to become.
#[derive(Clone, Debug, PartialEq, Eq)]
pub enum Outcome {
    /// The line is to be removed.
    Delete,
    /// The line is to read as given.
    Replace(String),
}

/// What an `Outcome` stands for.
pub enum OutcomeView {
    Delete,
    Replace(Seq<char>),
}

impl View for Outcome {
    type V = OutcomeView;

    open spec fn view(&self) -> OutcomeView {
        match self {
            Outcome::Delete => OutcomeView::Delete,
            Outcome::Replace(text) => OutcomeView::Replace(text@),
        }
    }
}

// ---------------------------------------------------------------------------
// What the parser does, as mathematics
// ---------------------------------------------------------------------------

/// What a data line asks for, held against the registry.
pub enum DecisionView {
    /// No tracked file has this alias.
    UnknownAlias,
    /// The snapshot of the file has no line with this number.
    OutOfRange,
    /// The content is that of the snapshot.
    Unchanged,
    /// The line is to be deleted or replaced.
    Edit(OutcomeView),
}

/// What the data line `d` asks for.
pub open spec fn decide(reg: Seq<RecordView>, d: DataLine) -> DecisionView {
    if !registered(reg, d.alias) {
        DecisionView::UnknownAlias
    } else {
        let lines = snapshot_lines(reg, index_of(reg, d.alias));
        if !(1 <= d.line_number <= lines.len()) {
            DecisionView::OutOfRange
        } else if is_blank(d.content) {
            DecisionView::Edit(OutcomeView::Delete)
        } else if d.content != lines[d.line_number - 1] {
            DecisionView::Edit(OutcomeView::Replace(d.content))
        } else {
            DecisionView::Unchanged
        }
    }
}

/// The result of parsing: the intents, keyed by alias and line number, and the
/// number of lines that were recognized as data lines.
pub struct PlanView {
    pub intents: Map<(Seq<char>, nat), OutcomeView>,
    pub recognized: nat,
}

/// The plan before any line is read.
pub open spec fn empty_plan() -> PlanView {
    PlanView { intents: Map::empty(), recognized: 0 }
}

/// The plan after one more line. Only a data line counts as recognized, and
/// only one that asks for an edit leaves an intent; a later intent for the same
/// line of the same file takes the place of an earlier one.
pub open spec fn parse_step(reg: Seq<RecordView>, acc: PlanView, line: Seq<char>) -> PlanView {
    match scan(line) {
        Scan::Data(d) => match decide(reg, d) {
            DecisionView::Edit(outcome) => PlanView {
                intents: acc.intents.insert((d.alias, d.line_number), outcome),
                recognized: acc.recognized + 1,
            },
            _ => PlanView { intents: acc.intents, recognized: acc.recognized + 1 },
        },
        _ => acc,
    }
}

/// The plan after the given lines, read in order.
pub open spec fn parse_lines(reg: Seq<RecordView>, lines: Seq<Seq<char>>) -> PlanView
    decreases lines.len(),
{
    if lines.len() == 0 {
        empty_plan()
    } else {
        parse_step(reg, parse_lines(reg, lines.drop_last()), lines.last())
    }
}

/// The plan that a buffer text gives.
pub open spec fn parse_text(reg: Seq<RecordView>, text: Seq<char>) -> PlanView {
    parse_lines(reg, split_lines(text))
}

/// Whether the plan holds an intent for the file with the alias of rank `i`.
pub open spec fn touched(plan: PlanView, i: int) -> bool {
    exists|l: nat| #[trigger] plan.intents.contains_key((nth_letters(i as nat), l))
}

/// The intents of a plan for one file, keyed by line number.
pub open spec fn file_intents(plan: PlanView, alias: Seq<char>) -> Map<nat, OutcomeView> {
    Map::new(
        |l: nat| plan.intents.contains_key((alias, l)),
        |l: nat| plan.intents[(alias, l)],
    )
}

/// One edit intent: what is wanted of one line of one file.
#[derive(Clone, Debug, PartialEq, Eq)]
pub struct EditIntent {
    pub alias: FileAlias,
    pub line_number: usize,
    pub outcome: Outcome,
}

/// What an `EditIntent` stands for.
pub struct IntentView {
    pub alias: Seq<char>,
    pub line_number: nat,
    pub outcome: OutcomeView,
}

impl View for EditIntent {
    type V = IntentView;

    open spec fn view(&self) -> IntentView {
        IntentView {
            alias: self.alias@,
            line_number: self.line_number as nat,
            outcome: self.outcome@,
        }
    }
}

/// Whether `e` is one of the intents of the plan.
pub open spec fn intent_of(plan: PlanView, e: IntentView) -> bool {
    plan.intents.contains_key((e.alias, e.line_number)) && plan.intents[(e.alias, e.line_number)]
        == e.outcome
}

/// Whether the list holds an intent for this line of this file.
pub open spec fn lists(out: Seq<EditIntent>, alias: Seq<char>, line_number: nat) -> bool {
    exists|k: int|
        0 <= k < out.len() && (#[trigger] out[k])@.alias == alias && out[k]@.line_number
            == line_number
}

/// Whether `a` stands before `b` in a list of intents: its file has the
/// smaller alias, or it is an earlier line of the same file.
pub open spec fn intent_before(a: IntentView, b: IntentView) -> bool {
    letters_rank(a.alias) < letters_rank(b.alias) || (a.alias == b.alias && a.line_number
        < b.line_number)
}

// ---------------------------------------------------------------------------
// The intents of one file
// ---------------------------------------------------------------------------

/// The edit intents for one file: at most one per line of its snapshot.
pub struct FileEdits {
    slots: Vec<Option<Outcome>>,
}

impl View for FileEdits {
    type V = Map<nat, OutcomeView>;

    /// The intents, keyed by 1-based line number.
    closed spec fn view(&self) -> Map<nat, OutcomeView> {
        Map::new(
            |l: nat| 1 <= l <= self.slots@.len() && self.slots@[l - 1] is Some,
            |l: nat| self.slots@[l - 1]->0@,
        )
    }
}

impl FileEdits {
    /// The number of lines that an intent can be given for.
    pub closed spec fn line_count(self) -> nat {
        self.slots@.len()
    }

    /// Intents exist only for the lines 1 to `line_count`.
    pub proof fn lemma_lines_in_range(self)
        ensures
            forall|l: nat| self@.contains_key(l) ==> 1 <= l <= self.line_count(),
    {
    }

    /// No intents, for a file of `line_count` lines.
    pub fn new(line_count: usize) -> (edits: Self)
        ensures
            edits@ == Map::<nat, OutcomeView>::empty(),
            edits.line_count() == line_count,
    {
        let mut slots: Vec<Option<Outcome>> = Vec::new();
        let mut i: usize = 0;
        while i < line_count
            invariant
                i <= line_count,
                slots@.len() == i,
                forall|k: int| 0 <= k < i ==> slots@[k] is None,
            decreases line_count - i,
        {
            slots.push(None);
            i += 1;
        }
        let edits = FileEdits { slots };
        assert(edits@ =~= Map::<nat, OutcomeView>::empty());
        edits
    }

    /// The number of lines that an intent can be given for.
    pub fn capacity(&self) -> (n: usize)
        ensures
            n == self.line_count(),
    {
        self.slots.len()
    }

    /// Records the intent for a line, in place of an earlier one for it. A line
    /// number outside 1 to `line_count` is refused and nothing changes.
    pub fn set(&mut self, line_number: usize, outcome: Outcome) -> (accepted: bool)
        ensures
            final(self).line_count() == old(self).line_count(),
            accepted == (1 <= line_number <= old(self).line_count()),
            accepted ==> final(self)@ == old(self)@.insert(line_number as nat, outcome@),
            !accepted ==> final(self)@ == old(self)@,
    {
        if 1 <= line_number && line_number <= self.slots.len() {
            self.slots.set(line_number - 1, Some(outcome));
            assert(self@ =~= old(self)@.insert(line_number as nat, outcome@));
            true
        } else {
            false
        }
    }

    /// The intent for a line, if there is one.
    pub fn get(&self, line_number: usize) -> (r: Option<&Outcome>)
        ensures
            r is Some <==> self@.contains_key(line_number as nat),
            r matches Some(o) ==> o@ == self@[line_number as nat],
    {
        if 1 <= line_number && line_number <= self.slots.len() {
            self.slots[line_number - 1].as_ref()
        } else {
            None
        }
    }

    /// The intents as a list of line numbers and outcomes, in ascending order
    /// of the line numbers.
    pub fn entries(&self) -> (out: Vec<(usize, Outcome)>)
        ensures
            forall|k: int|
                0 <= k < out@.len() ==> self@.contains_key((#[trigger] out@[k]).0 as nat)
                    && self@[out@[k].0 as nat] == out@[k].1@,
            forall|k: int, m: int| 0 <= k < m < out@.len() ==> out@[k].0 < out@[m].0,
            forall|l: nat|
                self@.contains_key(l) ==> exists|k: int|
                    0 <= k < out@.len() && (#[trigger] out@[k]).0 == l,
    {
        let mut out: Vec<(usize, Outcome)> = Vec::new();
        let mut i: usize = 0;
        while i < self.slots.len()
            invariant
                i <= self.slots@.len(),
                forall|k: int|
                    0 <= k < out@.len() ==> 1 <= (#[trigger] out@[k]).0 <= i && self@.contains_key(
                        out@[k].0 as nat,
                    ) && self@[out@[k].0 as nat] == out@[k].1@,
                forall|k: int, m: int| 0 <= k < m < out@.len() ==> out@[k].0 < out@[m].0,
                forall|l: nat|
                    l <= i && self@.contains_key(l) ==> exists|k: int|
                        0 <= k < out@.len() && (#[trigger] out@[k]).0 == l,
            decreases self.slots.len() - i,
        {
            let ghost before = out@;
            match &self.slots[i] {
                None => {
                    assert(!self@.contains_key((i + 1) as nat));
                },
                Some(outcome) => {
                    let copy = match outcome {
                        Outcome::Delete => Outcome::Delete,
                        Outcome::Replace(text) => Outcome::Replace(text.clone()),
                    };
                    assert(copy@ == outcome@);
                    out.push((i + 1, copy));
                    assert(out@[before.len() as int].0 == i + 1);
                },
            }
            proof {
                assert forall|l: nat| l <= i + 1 && self@.contains_key(l) implies exists|k: int|
                    0 <= k < out@.len() && (#[trigger] out@[k]).0 == l by {
                    if l <= i {
                        let k = choose|k: int| 0 <= k < before.len() && (#[trigger] before[k]).0 == l;
                        assert(out@[k].0 == l);
                    } else {
                        assert(out@[before.len() as int].0 == l);
                    }
                }
            }
            i += 1;
        }
        out
    }

    /// Whether there is no intent at all.
    pub fn is_empty(&self) -> (b: bool)
        ensures
            b <==> (forall|l: nat| !self@.contains_key(l)),
    {
        let mut i: usize = 0;
        while i < self.slots.len()
            invariant
                i <= self.slots@.len(),
                forall|k: int| 0 <= k < i ==> self.slots@[k] is None,
            decreases self.slots.len() - i,
        {
            if self.slots[i].is_some() {
                assert(self@.contains_key((i + 1) as nat));
                return false;
            }
            i += 1;
        }
        true
    }
}

// ---------------------------------------------------------------------------
// The plan
// ---------------------------------------------------------------------------

/// The intents of the files at the given positions together, keyed by alias and
/// line number.
closed spec fn plan_view(files: Seq<FileEdits>, recognized: nat) -> PlanView {
    PlanView {
        intents: Map::new(
            |k: (Seq<char>, nat)|
                is_token(k.0) && letters_rank(k.0) < files.len() && files[letters_rank(
                    k.0,
                ) as int]@.contains_key(k.1),
            |k: (Seq<char>, nat)| files[letters_rank(k.0) as int]@[k.1],
        ),
        recognized,
    }
}

/// What the saved buffer asks for: the intents of every tracked file, and the
/// number of recognized data lines.
pub struct EditPlan {
    files: Vec<FileEdits>,
    recognized: usize,
}

impl View for EditPlan {
    type V = PlanView;

    closed spec fn view(&self) -> PlanView {
        plan_view(self.files@, self.recognized as nat)
    }
}

impl EditPlan {
    /// There are no more files than aliases.
    #[verifier::type_invariant]
    closed spec fn inv(self) -> bool {
        self.files@.len() <= ALIAS_COUNT
    }

    /// The number of files that the plan was made for.
    pub closed spec fn file_count(self) -> nat {
        self.files@.len()
    }

    /// The number of lines that the file at position `i` can have intents for.
    pub closed spec fn line_count_at(self, i: int) -> nat {
        self.files@[i].line_count()
    }

    /// The number of buffer lines that were recognized as data lines.
    pub fn recognized(&self) -> (n: usize)
        ensures
            n == self@.recognized,
    {
        self.recognized
    }

    /// The number of files that the plan was made for: those of the registry.
    pub fn len(&self) -> (n: usize)
        ensures
            n == self.file_count(),
    {
        self.files.len()
    }

    /// The intents for the file at position `i` of the registry, which is the
    /// file with the alias of rank `i`.
    pub fn edits(&self, i: usize) -> (r: &FileEdits)
        requires
            i < self.file_count(),
        ensures
            r@ == file_intents(self@, nth_letters(i as nat)),
            r.line_count() == self.line_count_at(i as int),
    {
        let r = &self.files[i];
        proof {
            use_type_invariant(self);
            lemma_nth_letters(i as nat);
            assert(r@ =~= file_intents(self@, nth_letters(i as nat)));
        }
        r
    }

    /// All intents of the plan as a list, file after file in the order of the
    /// aliases, and within a file in the order of the lines.
    pub fn intents(&self) -> (out: Vec<EditIntent>)
        ensures
            forall|k: int| 0 <= k < out@.len() ==> intent_of(self@, (#[trigger] out@[k])@),
            forall|k: int, m: int|
                0 <= k < m < out@.len() ==> intent_before(
                    (#[trigger] out@[k])@,
                    (#[trigger] out@[m])@,
                ),
            forall|alias: Seq<char>, l: nat| #[trigger]
                self@.intents.contains_key((alias, l)) ==> lists(out@, alias, l),
    {
        proof {
            use_type_invariant(self);
        }
        let mut out: Vec<EditIntent> = Vec::new();
        let mut i: usize = 0;
        while i < self.files.len()
            invariant
                i <= self.files@.len(),
                self.files@.len() <= ALIAS_COUNT,
                forall|k: int|
                    0 <= k < out@.len() ==> intent_of(self@, (#[trigger] out@[k])@) && is_token(
                        out@[k]@.alias,
                    ) && letters_rank(out@[k]@.alias) < i,
                forall|k: int, m: int|
                    0 <= k < m < out@.len() ==> intent_before(
                        (#[trigger] out@[k])@,
                        (#[trigger] out@[m])@,
                    ),
                forall|alias: Seq<char>, l: nat| #[trigger]
                    self@.intents.contains_key((alias, l)) && letters_rank(alias) < i ==> lists(
                        out@,
                        alias,
                        l,
                    ),
            decreases self.files.len() - i,
        {
            let alias: FileAlias = match FileAlias::nth(i) {
                Some(a) => a,
                None => {
                    return out;
                },
            };
            let entries = self.files[i].entries();
            let ghost start = out@;
            let ghost letters = nth_letters(i as nat);
            proof {
                lemma_nth_letters(i as nat);
            }
            let mut j: usize = 0;
            while j < entries.len()
                invariant
                    j <= entries@.len(),
                    i < self.files@.len(),
                    self.files@.len() <= ALIAS_COUNT,
                    alias@ == letters,
                    letters == nth_letters(i as nat),
                    is_token(letters),
                    letters_rank(letters) == i,
                    out@.len() == start.len() + j,
                    forall|k: int| 0 <= k < start.len() ==> out@[k] == start[k],
                    forall|k: int|
                        0 <= k < j ==> (#[trigger] out@[start.len() + k])@ == (IntentView {
                            alias: letters,
                            line_number: entries@[k].0 as nat,
                            outcome: entries@[k].1@,
                        }),
                    forall|k: int|
                        0 <= k < entries@.len() ==> self.files@[i as int]@.contains_key(
                            (#[trigger] entries@[k]).0 as nat,
                        ) && self.files@[i as int]@[entries@[k].0 as nat] == entries@[k].1@,
                    forall|k: int, m: int|
                        0 <= k < m < entries@.len() ==> entries@[k].0 < entries@[m].0,
                decreases entries.len() - j,
            {
                let outcome = match &entries[j].1 {
                    Outcome::Delete => Outcome::Delete,
                    Outcome::Replace(text) => Outcome::Replace(text.clone()),
                };
                assert(outcome@ == entries@[j as int].1@);
                let ghost before = out@;
                out.push(EditIntent { alias, line_number: entries[j].0, outcome });
                proof {
                    assert forall|k: int| 0 <= k < j + 1 implies (#[trigger] out@[start.len()
                        + k])@ == (IntentView {
                        alias: letters,
                        line_number: entries@[k].0 as nat,
                        outcome: entries@[k].1@,
                    }) by {
                        if k < j {
                            assert(out@[start.len() + k] == before[start.len() + k]);
                        }
                    }
                }
                j += 1;
            }
            proof {
                assert forall|k: int| 0 <= k < out@.len() implies intent_of(
                    self@,
                    (#[trigger] out@[k])@,
                ) && is_token(out@[k]@.alias) && letters_rank(out@[k]@.alias) < i + 1 by {
                    if k < start.len() {
                        assert(out@[k] == start[k]);
                    } else {
                        let e = k - start.len();
                        assert(out@[start.len() + e]@.alias == letters);
                        assert(self.files@[i as int]@.contains_key(entries@[e].0 as nat));
                    }
                }
                assert forall|k: int, m: int| 0 <= k < m < out@.len() implies intent_before(
                    (#[trigger] out@[k])@,
                    (#[trigger] out@[m])@,
                ) by {
                    if m < start.len() {
                        assert(out@[k] == start[k] && out@[m] == start[m]);
                    } else if k < start.len() {
                        assert(out@[k] == start[k]);
                        assert(out@[start.len() + (m - start.len())]@.alias == letters);
                    } else {
                        let a = k - start.len();
                        let b = m - start.len();
                        assert(out@[start.len() + a]@.alias == letters);
                        assert(out@[start.len() + b]@.alias == letters);
                        assert(entries@[a].0 < entries@[b].0);
                    }
                }
                assert forall|name: Seq<char>, l: nat| #[trigger]
                    self@.intents.contains_key((name, l)) && letters_rank(name) < i + 1 implies lists(
                    out@,
                    name,
                    l,
                ) by {
                    if letters_rank(name) < i {
                        assert(lists(start, name, l));
                        let k = choose|k: int|
                            0 <= k < start.len() && (#[trigger] start[k])@.alias == name
                                && start[k]@.line_number == l;
                        assert(out@[k] == start[k]);
                    } else {
                        lemma_letters_rank(name);
                        assert(name == letters);
                        assert(self.files@[i as int]@.contains_key(l));
                        let e = choose|e: int|
                            0 <= e < entries@.len() && (#[trigger] entries@[e]).0 == l;
                        assert(out@[start.len() + e]@.line_number == l);
                    }
                }
            }
            i += 1;
        }
        proof {
            assert forall|name: Seq<char>, l: nat| #[trigger]
                self@.intents.contains_key((name, l)) implies lists(out@, name, l) by {
                assert(letters_rank(name) < self.files@.len());
            }
        }
        out
    }

    /// The positions of the files that have an intent, in ascending order.
    pub fn touched_files(&self) -> (out: Vec<usize>)
        ensures
            forall|k: int| 0 <= k < out@.len() ==> (#[trigger] out@[k]) < self.file_count(),
            forall|k: int, m: int| 0 <= k < m < out@.len() ==> out@[k] < out@[m],
            forall|i: int|
                0 <= i < self.file_count() ==> (out@.contains(i as usize) <==> #[trigger] touched(
                    self@,
                    i,
                )),
    {
        proof {
            use_type_invariant(self);
        }
        let mut out: Vec<usize> = Vec::new();
        let mut i: usize = 0;
        while i < self.files.len()
            invariant
                i <= self.files@.len(),
                self.files@.len() <= ALIAS_COUNT,
                forall|k: int| 0 <= k < out@.len() ==> (#[trigger] out@[k]) < i,
                forall|k: int, m: int| 0 <= k < m < out@.len() ==> out@[k] < out@[m],
                forall|j: int|
                    0 <= j < i ==> (out@.contains(j as usize) <==> #[trigger] touched(self@, j)),
            decreases self.files.len() - i,
        {
            let ghost before = out@;
            let empty = self.files[i].is_empty();
            proof {
                lemma_nth_letters(i as nat);
                assert forall|l: nat|
                    self@.intents.contains_key((nth_letters(i as nat), l))
                        == self.files@[i as int]@.contains_key(l) by {}
                if !empty {
                    let l = choose|l: nat| self.files@[i as int]@.contains_key(l);
                    assert(self@.intents.contains_key((nth_letters(i as nat), l)));
                }
                assert(touched(self@, i as int) == !empty);
            }
            if !empty {
                out.push(i);
            }
            proof {
                assert forall|j: int| 0 <= j < i + 1 implies (out@.contains(j as usize)
                    <==> #[trigger] touched(self@, j)) by {
                    if before.contains(j as usize) {
                        let k = choose|k: int| 0 <= k < before.len() && before[k] == j as usize;
                        assert(out@[k] == j as usize);
                    }
                    if out@.contains(j as usize) {
                        let k = choose|k: int| 0 <= k < out@.len() && out@[k] == j as usize;
                        if k < before.len() {
                            assert(before[k] == j as usize);
                        } else {
                            assert(j == i);
                        }
                    }
                    if j == i && !empty {
                        assert(out@[before.len() as int] == i);
                    }
                }
            }
            i += 1;
        }
        out
    }

    /// Whether the plan holds no intent at all.
    pub fn is_empty(&self) -> (b: bool)
        ensures
            b <==> (forall|k: (Seq<char>, nat)| !self@.intents.contains_key(k)),
    {
        proof {
            use_type_invariant(self);
        }
        let mut i: usize = 0;
        while i < self.files.len()
            invariant
                i <= self.files@.len(),
                self.files@.len() <= ALIAS_COUNT,
                forall|j: int, l: nat| 0 <= j < i ==> !(#[trigger] self.files@[j]@.contains_key(l)),
            decreases self.files.len() - i,
        {
            if !self.files[i].is_empty() {
                proof {
                    let l = choose|l: nat| self.files@[i as int]@.contains_key(l);
                    lemma_nth_letters(i as nat);
                    assert(self@.intents.contains_key((nth_letters(i as nat), l)));
                }
                return false;
            }
            i += 1;
        }
        proof {
            assert forall|k: (Seq<char>, nat)| !self@.intents.contains_key(k) by {
                if is_token(k.0) && letters_rank(k.0) < self.files@.len() {
                    let j = letters_rank(k.0) as int;
                    assert(!self.files@[j]@.contains_key(k.1));
                }
            }
        }
        true
    }
}

// ---------------------------------------------------------------------------
// The parser
// ---------------------------------------------------------------------------

/// What a data line asks for, with the position of its file.
#[derive(Clone, Debug, PartialEq, Eq)]
pub enum Decision {
    UnknownAlias,
    OutOfRange,
    Unchanged,
    Edit { file: usize, outcome: Outcome },
}

impl View for Decision {
    type V = DecisionView;

    open spec fn view(&self) -> DecisionView {
        match self {
            Decision::UnknownAlias => DecisionView::UnknownAlias,
            Decision::OutOfRange => DecisionView::OutOfRange,
            Decision::Unchanged => DecisionView::Unchanged,
            Decision::Edit { file, outcome } => DecisionView::Edit(outcome@),
        }
    }
}

/// Holds the fields of a data line against the registry.
pub fn decide_line(
    registry: &FileRegistry,
    alias: &[char],
    line_number: usize,
    content: &[char],
) -> (r: Decision)
    ensures
        r@ == decide(
            registry@,
            DataLine { alias: alias@, line_number: line_number as nat, content: content@ },
        ),
        r matches Decision::Edit { file, .. } ==> file == index_of(registry@, alias@) && file
            < registry@.len() && 1 <= line_number <= snapshot_lines(registry@, file as int).len(),
{
    match registry.find(alias) {
        None => Decision::UnknownAlias,
        Some(file) => {
            let lines = registry.lines(file);
            if !(1 <= line_number && line_number <= lines.len()) {
                Decision::OutOfRange
            } else if blank(content) {
                Decision::Edit { file, outcome: Outcome::Delete }
            } else if !chars_equal(content, lines[line_number - 1].as_slice()) {
                Decision::Edit { file, outcome: Outcome::Replace(string_of(content)) }
            } else {
                Decision::Unchanged
            }
        },
    }
}

/// Recording an intent in the file at position `r` is recording it under the
/// alias of rank `r`.
proof fn lemma_plan_insert(
    before: Seq<FileEdits>,
    after: Seq<FileEdits>,
    r: int,
    l: nat,
    outcome: OutcomeView,
    n0: nat,
    n1: nat,
)
    requires
        0 <= r < before.len(),
        before.len() <= ALIAS_COUNT,
        after.len() == before.len(),
        forall|j: int| 0 <= j < before.len() && j != r ==> after[j]@ == before[j]@,
        after[r]@ == before[r]@.insert(l, outcome),
    ensures
        plan_view(after, n1).intents == plan_view(before, n0).intents.insert(
            (nth_letters(r as nat), l),
            outcome,
        ),
{
    let a = plan_view(after, n1).intents;
    let b = plan_view(before, n0).intents.insert((nth_letters(r as nat), l), outcome);
    lemma_nth_letters(r as nat);
    let key = (nth_letters(r as nat), l);
    assert forall|k: (Seq<char>, nat)|
        (#[trigger] a.dom().contains(k)) == b.dom().contains(k) && (a.dom().contains(k) ==> a[k]
            == b[k]) by {
        if is_token(k.0) {
            lemma_letters_rank(k.0);
            let j = letters_rank(k.0) as int;
            if j < before.len() {
                if j == r {
                    assert(k.0 == key.0);
                    if k.1 == l {
                        assert(k == key);
                    } else {
                        assert(k != key);
                        assert(after[r]@.contains_key(k.1) == before[r]@.contains_key(k.1));
                    }
                } else {
                    assert(after[j]@ == before[j]@);
                    assert(k != key);
                }
            } else {
                assert(k != key);
            }
        } else {
            assert(k != key);
        }
    }
    assert(a =~= b);
}

/// Reads the saved buffer against the registry.
///
/// The result is the plan of `parse_text`: an intent for every data line that
/// names a tracked file and a line of its snapshot and whose content is blank
/// or differs from that line; the count of all data lines.
pub fn parse(text: &str, registry: &FileRegistry) -> (plan: EditPlan)
    ensures
        plan@ == parse_text(registry@, text@),
        plan.file_count() == registry@.len(),
        forall|i: int|
            0 <= i < registry@.len() ==> #[trigger] plan.line_count_at(i) == snapshot_lines(
                registry@,
                i,
            ).len(),
{
    let chars = chars_of(text);
    let lines = lines_of(chars.as_slice());
    let count: usize = registry.len();
    let mut files: Vec<FileEdits> = Vec::new();
    let mut i: usize = 0;
    while i < count
        invariant
            i <= count,
            count == registry@.len(),
            files@.len() == i,
            forall|j: int|
                0 <= j < i ==> (#[trigger] files@[j])@ == Map::<nat, OutcomeView>::empty()
                    && files@[j].line_count() == snapshot_lines(registry@, j).len(),
        decreases count - i,
    {
        let n: usize = registry.lines(i).len();
        files.push(FileEdits::new(n));
        i += 1;
    }
    let mut recognized: usize = 0;
    let mut k: usize = 0;
    let ghost all = lines_view(lines@);
    proof {
        assert(all.take(0) =~= Seq::<Seq<char>>::empty());
        assert(plan_view(files@, 0).intents =~= Map::<(Seq<char>, nat), OutcomeView>::empty());
    }
    while k < lines.len()
        invariant
            k <= lines@.len(),
            recognized <= k,
            all == lines_view(lines@),
            registry_wf(registry@),
            files@.len() == registry@.len(),
            forall|j: int|
                0 <= j < files@.len() ==> (#[trigger] files@[j]).line_count() == snapshot_lines(
                    registry@,
                    j,
                ).len(),
            plan_view(files@, recognized as nat) == parse_lines(registry@, all.take(k as int)),
        decreases lines.len() - k,
    {
        let ghost upto = all.take(k + 1);
        let ghost acc = parse_lines(registry@, all.take(k as int));
        proof {
            assert(upto.drop_last() =~= all.take(k as int));
            assert(upto.last() == lines@[k as int]@);
        }
        match scan_line(lines[k].as_slice()) {
            LineScan::Data { alias, line_number, content } => {
                match decide_line(registry, alias.as_slice(), line_number, content.as_slice()) {
                    Decision::Edit { file, outcome } => {
                        let ghost before = files@;
                        let ghost o = outcome@;
                        let mut edits = FileEdits::new(0);
                        core::mem::swap(&mut edits, &mut files[file]);
                        let accepted = edits.set(line_number, outcome);
                        assert(accepted);
                        core::mem::swap(&mut edits, &mut files[file]);
                        proof {
                            lemma_registered(registry@, alias@);
                            lemma_letters_rank(alias@);
                            lemma_plan_insert(
                                before,
                                files@,
                                file as int,
                                line_number as nat,
                                o,
                                recognized as nat,
                                (recognized + 1) as nat,
                            );
                        }
                    },
                    _ => {},
                }
                recognized = recognized + 1;
            },
            _ => {},
        }
        k += 1;
    }
    assert(all.take(lines.len() as int) =~= all);
    EditPlan { files, recognized }
}

} // verus!
