//! The tracked files: one record per file, with its alias and the snapshot of
//! its content taken when it was registered, and the match lines that refer to
//! the records by alias.

use crate::alias::{is_token, lemma_letters_rank, lemma_nth_letters, letters_rank, nth_letters, FileAlias, ALIAS_COUNT};
use crate::paths::{compared_paths, flipped, lemma_before_then_le, lemma_path_total, lemma_path_transitive, lemma_same_path, lemma_same_path_joins, path_at_most, path_le, path_order, path_order_laws, paths_same, same_path, PathOrder};
use crate::text::{chars_of, lines_of, lines_view, split_lines, string_of};
use vstd::prelude::*;

verus! {

/// A modification time, as whole seconds and nanoseconds since the Unix epoch.
#[derive(Clone, Copy, Debug, PartialEq, Eq, Structural)]
pub struct Timestamp {
    pub secs: u64,
    pub nanos: u32,
}

/// A file as it was read at discovery time, not yet registered.
#[derive(Clone, Debug)]
pub struct LoadedFile {
    pub display_path: String,
    pub absolute_path: String,
    pub content: String,
    pub mtime: Timestamp,
}

/// One tracked file. The content and the modification time are the snapshot
/// taken at registration; they never change afterwards.
#[derive(Clone, Debug)]
pub struct FileRecord {
    pub display_path: String,
    pub absolute_path: String,
    pub alias: FileAlias,
    pub original_content: String,
    pub original_mtime: Timestamp,
}

/// What a `FileRecord` stands for.
pub struct RecordView {
    pub display_path: Seq<char>,
    pub absolute_path: Seq<char>,
    pub alias: Seq<char>,
    pub content: Seq<char>,
    pub mtime: Timestamp,
}

impl View for FileRecord {
    type V = RecordView;

    open spec fn view(&self) -> RecordView {
        RecordView {
            display_path: self.display_path@,
            absolute_path: self.absolute_path@,
            alias: self.alias@,
            content: self.original_content@,
            mtime: self.original_mtime,
        }
    }
}

/// One occurrence offered for editing: a line of a tracked file, with the
/// text it had at discovery time.
#[derive(Clone, Debug)]
pub struct MatchLine {
    pub alias: FileAlias,
    pub line_number: usize,
    pub original_content: String,
}

/// What a `MatchLine` stands for.
pub struct MatchLineView {
    pub alias: Seq<char>,
    pub line_number: nat,
    pub content: Seq<char>,
}

impl View for MatchLine {
    type V = MatchLineView;

    open spec fn view(&self) -> MatchLineView {
        MatchLineView {
            alias: self.alias@,
            line_number: self.line_number as nat,
            content: self.original_content@,
        }
    }
}

/// The views of a vector of match lines.
pub open spec fn match_lines_view(v: Seq<MatchLine>) -> Seq<MatchLineView> {
    Seq::new(v.len(), |i: int| v[i]@)
}

/// A request for one line of one file, by absolute path and 1-based number.
#[derive(Clone, Debug)]
pub struct LineRequest {
    pub absolute_path: String,
    pub line_number: usize,
}

// ---------------------------------------------------------------------------
// The registry as a sequence of records
// ---------------------------------------------------------------------------

/// A registry is well formed when the record at position `i` carries the alias
/// of rank `i`, so that aliases and records correspond one to one, and no two
/// records have the same absolute path.
pub open spec fn registry_wf(reg: Seq<RecordView>) -> bool {
    &&& reg.len() <= ALIAS_COUNT
    &&& forall|i: int| 0 <= i < reg.len() ==> (#[trigger] reg[i]).alias == nth_letters(i as nat)
    &&& forall|i: int, j: int|
        0 <= i < j < reg.len() ==> !same_path(
            (#[trigger] reg[i]).absolute_path,
            (#[trigger] reg[j]).absolute_path,
        )
}

/// Whether some record has the alias `letters`.
pub open spec fn registered(reg: Seq<RecordView>, letters: Seq<char>) -> bool {
    exists|i: int| 0 <= i < reg.len() && (#[trigger] reg[i]).alias == letters
}

/// The position of the record with the alias `letters`.
pub open spec fn index_of(reg: Seq<RecordView>, letters: Seq<char>) -> int {
    choose|i: int| 0 <= i < reg.len() && (#[trigger] reg[i]).alias == letters
}

/// Whether the absolute path of some record is the path `path`.
pub open spec fn has_path(reg: Seq<RecordView>, path: Seq<char>) -> bool {
    exists|i: int| 0 <= i < reg.len() && same_path((#[trigger] reg[i]).absolute_path, path)
}

/// The position of the record whose absolute path is the path `path`.
pub open spec fn path_index(reg: Seq<RecordView>, path: Seq<char>) -> int {
    choose|i: int| 0 <= i < reg.len() && same_path((#[trigger] reg[i]).absolute_path, path)
}

/// The position of the first record at or after `from` whose display path is
/// the path `path`, or the number of records if there is none.
pub open spec fn first_display(reg: Seq<RecordView>, path: Seq<char>, from: int) -> int
    decreases reg.len() - from,
{
    if 0 <= from < reg.len() && !same_path(reg[from].display_path, path) {
        first_display(reg, path, from + 1)
    } else if from < reg.len() {
        from
    } else {
        reg.len() as int
    }
}

/// The snapshot lines of the record at position `i`.
pub open spec fn snapshot_lines(reg: Seq<RecordView>, i: int) -> Seq<Seq<char>> {
    split_lines(reg[i].content)
}

/// In a well-formed registry an alias is registered exactly when it is a token
/// whose rank is below the number of records, and its record stands at that
/// rank.
pub proof fn lemma_registered(reg: Seq<RecordView>, letters: Seq<char>)
    requires
        registry_wf(reg),
    ensures
        registered(reg, letters) <==> is_token(letters) && letters_rank(letters) < reg.len(),
        registered(reg, letters) ==> index_of(reg, letters) == letters_rank(letters),
{
    if registered(reg, letters) {
        let i = index_of(reg, letters);
        lemma_nth_letters(i as nat);
    }
    if is_token(letters) && letters_rank(letters) < reg.len() {
        lemma_letters_rank(letters);
        let r = letters_rank(letters) as int;
        assert(reg[r].alias == letters);
    }
}

/// In a well-formed registry a path belongs to at most one record.
proof fn lemma_path_index(reg: Seq<RecordView>, i: int, path: Seq<char>)
    requires
        path_order_laws(),
        registry_wf(reg),
        0 <= i < reg.len(),
        same_path(reg[i].absolute_path, path),
    ensures
        has_path(reg, path),
        path_index(reg, path) == i,
{
    let j = path_index(reg, path);
    lemma_same_path_joins(reg[j].absolute_path, reg[i].absolute_path, path);
    lemma_same_path(reg[j].absolute_path, reg[i].absolute_path);
    if j < i {
        assert(!same_path(reg[j].absolute_path, reg[i].absolute_path));
    }
    if i < j {
        assert(!same_path(reg[i].absolute_path, reg[j].absolute_path));
    }
}

/// The record that registering `file` under `alias` creates.
pub open spec fn record_of(file: LoadedFile, alias: Seq<char>) -> RecordView {
    RecordView {
        display_path: file.display_path@,
        absolute_path: file.absolute_path@,
        alias,
        content: file.content@,
        mtime: file.mtime,
    }
}

// ---------------------------------------------------------------------------
// The registry
// ---------------------------------------------------------------------------

/// A record together with its snapshot split into lines.
struct Entry {
    record: FileRecord,
    lines: Vec<Vec<char>>,
}

/// The tracked files of one session, in alias order. It owns the snapshots;
/// match lines and edit intents refer to a file by alias only.
pub struct FileRegistry {
    entries: Vec<Entry>,
    /// The positions of the records in the order of their absolute paths.
    by_path: Vec<usize>,
}

/// Whether `by_path` lists the positions of the records, each once, in the
/// strict order of their absolute paths.
spec fn index_wf(records: Seq<RecordView>, by_path: Seq<usize>) -> bool {
    &&& by_path.len() == records.len()
    &&& forall|i: int| 0 <= i < by_path.len() ==> (#[trigger] by_path[i]) < records.len()
    &&& forall|k: int| 0 <= k < records.len() ==> #[trigger] occurs(by_path, k)
    &&& forall|i: int, j: int|
        0 <= i < j < by_path.len() ==> compared_paths(
            records[#[trigger] by_path[i] as int].absolute_path,
            records[#[trigger] by_path[j] as int].absolute_path,
        ) == PathOrder::Before
}

impl View for FileRegistry {
    type V = Seq<RecordView>;

    closed spec fn view(&self) -> Seq<RecordView> {
        Seq::new(self.entries@.len(), |i: int| self.entries@[i].record@)
    }
}

impl FileRegistry {
    /// The registry is well formed, and the lines of every snapshot are at
    /// hand.
    #[verifier::type_invariant]
    pub closed spec fn inv(self) -> bool {
        &&& registry_wf(self@)
        &&& index_wf(self@, self.by_path@)
        &&& forall|i: int|
            0 <= i < self.entries@.len() ==> lines_view((#[trigger] self.entries@[i]).lines@)
                == split_lines(self.entries@[i].record.original_content@)
    }

    /// A registry without files.
    pub fn new() -> (reg: Self)
        ensures
            reg@ == Seq::<RecordView>::empty(),
    {
        let reg = FileRegistry { entries: Vec::new(), by_path: Vec::new() };
        assert(reg@ =~= Seq::<RecordView>::empty());
        reg
    }

    /// The number of tracked files.
    pub fn len(&self) -> (n: usize)
        ensures
            n == self@.len(),
            n <= ALIAS_COUNT,
            registry_wf(self@),
    {
        proof {
            use_type_invariant(self);
        }
        self.entries.len()
    }

    /// The record at position `i`, which is the record of the alias of rank `i`.
    pub fn record(&self, i: usize) -> (r: &FileRecord)
        requires
            i < self@.len(),
        ensures
            r@ == self@[i as int],
    {
        &self.entries[i].record
    }

    /// The snapshot of the record at position `i`, line by line.
    pub fn lines(&self, i: usize) -> (r: &Vec<Vec<char>>)
        requires
            i < self@.len(),
        ensures
            lines_view(r@) == snapshot_lines(self@, i as int),
    {
        proof {
            use_type_invariant(self);
        }
        &self.entries[i].lines
    }

    /// The position of the record with the alias `letters`, if there is one.
    pub fn find(&self, letters: &[char]) -> (r: Option<usize>)
        ensures
            r is Some <==> registered(self@, letters@),
            r matches Some(i) ==> i == index_of(self@, letters@) && i < self@.len()
                && self@[i as int].alias == letters@,
    {
        proof {
            use_type_invariant(self);
            lemma_registered(self@, letters@);
        }
        match FileAlias::from_letters(letters) {
            None => None,
            Some(alias) => {
                match alias.rank() {
                    None => None,
                    Some(rank) => {
                        if rank < self.entries.len() {
                            proof {
                                lemma_letters_rank(letters@);
                            }
                            Some(rank)
                        } else {
                            None
                        }
                    },
                }
            },
        }
    }

    /// Looks for the path among the absolute paths, which stand in order: the
    /// place in that order where it stands, or where it would have to stand.
    fn search_path(&self, path: &String) -> (r: (bool, usize))
        ensures
            r.0 ==> r.1 < self.by_path@.len() && path_order_laws() && same_path(
                self@[self.by_path@[r.1 as int] as int].absolute_path,
                path@,
            ),
            !r.0 ==> r.1 <= self.by_path@.len() && !has_path(self@, path@),
            !r.0 ==> forall|i: int|
                0 <= i < r.1 ==> compared_paths(
                    self@[#[trigger] self.by_path@[i] as int].absolute_path,
                    path@,
                ) == PathOrder::Before,
            !r.0 ==> forall|i: int|
                r.1 <= i < self.by_path@.len() ==> compared_paths(
                    path@,
                    self@[#[trigger] self.by_path@[i] as int].absolute_path,
                ) == PathOrder::Before,
    {
        proof {
            use_type_invariant(self);
        }
        let n: usize = self.by_path.len();
        let mut lo: usize = 0;
        let mut hi: usize = n;
        while lo < hi
            invariant
                lo <= hi <= n,
                n == self.by_path@.len(),
                self@.len() == self.entries@.len(),
                index_wf(self@, self.by_path@),
                lo > 0 || hi < n ==> path_order_laws(),
                forall|i: int|
                    0 <= i < lo ==> compared_paths(
                        self@[#[trigger] self.by_path@[i] as int].absolute_path,
                        path@,
                    ) == PathOrder::Before,
                forall|i: int|
                    hi <= i < n ==> compared_paths(
                        path@,
                        self@[#[trigger] self.by_path@[i] as int].absolute_path,
                    ) == PathOrder::Before,
            decreases hi - lo,
        {
            let mid: usize = lo + (hi - lo) / 2;
            let k: usize = self.by_path[mid];
            let ghost here = self@[k as int].absolute_path;
            assert(here == self.entries@[k as int].record.absolute_path@);
            match path_order(self.entries[k].record.absolute_path.as_str(), path.as_str()) {
                PathOrder::Same => {
                    return (true, mid);
                },
                PathOrder::Before => {
                    proof {
                        assert forall|i: int| 0 <= i < mid + 1 implies compared_paths(
                            self@[#[trigger] self.by_path@[i] as int].absolute_path,
                            path@,
                        ) == PathOrder::Before by {
                            if i < mid && i >= lo {
                                let there = self@[self.by_path@[i] as int].absolute_path;
                                assert(compared_paths(there, here) == PathOrder::Before);
                                lemma_before_then_le(there, here, path@);
                            }
                        }
                    }
                    lo = mid + 1;
                },
                PathOrder::After => {
                    proof {
                        assert(compared_paths(path@, here) == flipped(compared_paths(here, path@)));
                        assert forall|i: int| mid <= i < n implies compared_paths(
                            path@,
                            self@[#[trigger] self.by_path@[i] as int].absolute_path,
                        ) == PathOrder::Before by {
                            if i > mid && i < hi {
                                let there = self@[self.by_path@[i] as int].absolute_path;
                                assert(compared_paths(here, there) == PathOrder::Before);
                                lemma_before_then_le(path@, here, there);
                            }
                        }
                    }
                    hi = mid;
                },
            }
        }
        proof {
            assert forall|k: int| 0 <= k < self@.len() implies !same_path(
                (#[trigger] self@[k]).absolute_path,
                path@,
            ) by {
                assert(occurs(self.by_path@, k));
                let i = choose|i: int| 0 <= i < self.by_path@.len() && #[trigger] self.by_path@[i] == k;
                let there = self@[k].absolute_path;
                assert(there == self@[self.by_path@[i] as int].absolute_path);
                assert(path_order_laws());
                lemma_same_path(there, path@);
                assert(compared_paths(path@, there) == flipped(compared_paths(there, path@)));
            }
        }
        (false, lo)
    }

    /// The position of the record whose absolute path is the path `path`, if
    /// there is one.
    pub fn find_path(&self, path: &String) -> (r: Option<usize>)
        ensures
            r is Some <==> has_path(self@, path@),
            r matches Some(i) ==> i == path_index(self@, path@) && i < self@.len() && same_path(
                self@[i as int].absolute_path,
                path@,
            ),
    {
        proof {
            use_type_invariant(self);
        }
        let (found, at) = self.search_path(path);
        if found {
            let i: usize = self.by_path[at];
            proof {
                lemma_path_index(self@, i as int, path@);
            }
            Some(i)
        } else {
            None
        }
    }

    /// The position of the first record whose display path is the path
    /// `path`, if there is one.
    pub fn find_display(&self, path: &String) -> (r: Option<usize>)
        ensures
            r is Some <==> first_display(self@, path@, 0) < self@.len(),
            r matches Some(i) ==> i == first_display(self@, path@, 0),
    {
        let mut i: usize = 0;
        while i < self.entries.len()
            invariant
                i <= self.entries@.len(),
                self@.len() == self.entries@.len(),
                first_display(self@, path@, 0) == first_display(self@, path@, i as int),
            decreases self.entries.len() - i,
        {
            assert(self@[i as int].display_path == self.entries@[i as int].record.display_path@);
            if paths_same(self.entries[i].record.display_path.as_str(), path.as_str()) {
                return Some(i);
            }
            i += 1;
        }
        None
    }

    /// Registers a file and gives its alias.
    ///
    /// A file whose absolute path is already tracked keeps its alias and its
    /// snapshot: nothing changes. A new file gets the next alias in rank order
    /// and is tracked from now on. When all aliases are in use, a new file is
    /// not tracked and `None` comes back.
    pub fn register(&mut self, file: LoadedFile) -> (r: Option<FileAlias>)
        ensures
            final(self)@ == registered_with(old(self)@, file),
            has_path(old(self)@, file.absolute_path@) ==> r is Some && r->0@ == old(self)@[path_index(
                old(self)@,
                file.absolute_path@,
            )].alias,
            !has_path(old(self)@, file.absolute_path@) && old(self)@.len() < ALIAS_COUNT ==> r
                is Some && r->0@ == nth_letters(old(self)@.len()),
            !has_path(old(self)@, file.absolute_path@) && old(self)@.len() >= ALIAS_COUNT ==> r
                is None,
    {
        proof {
            use_type_invariant(&*self);
        }
        let (found, at) = self.search_path(&file.absolute_path);
        if found {
            let i: usize = self.by_path[at];
            proof {
                lemma_path_index(self@, i as int, file.absolute_path@);
            }
            return Some(self.entries[i].record.alias);
        }
        let rank: usize = self.entries.len();
        match FileAlias::nth(rank) {
            None => None,
            Some(alias) => {
                let chars = chars_of(file.content.as_str());
                let lines = lines_of(chars.as_slice());
                let ghost before = self@;
                let ghost old_index = self.by_path@;
                let ghost path = file.absolute_path@;
                let ghost added = record_of(file, nth_letters(rank as nat));
                let record = FileRecord {
                    display_path: file.display_path,
                    absolute_path: file.absolute_path,
                    alias,
                    original_content: file.content,
                    original_mtime: file.mtime,
                };
                assert(record@ == added);
                let entry = Entry { record, lines };
                let mut taken = FileRegistry::new();
                core::mem::swap(self, &mut taken);
                proof {
                    use_type_invariant(&taken);
                }
                let FileRegistry { entries, by_path } = taken;
                let mut entries = entries;
                let mut by_path = by_path;
                let ghost kept = entries@;
                entries.push(entry);
                by_path.insert(at, rank);
                proof {
                    let after = before.push(added);
                    let index = by_path@;
                    assert(index == old_index.insert(at as int, rank));
                    assert forall|i: int, j: int| 0 <= i < j < after.len() implies !same_path(
                        (#[trigger] after[i]).absolute_path,
                        (#[trigger] after[j]).absolute_path,
                    ) by {
                        if j == before.len() {
                            assert(!same_path(before[i].absolute_path, added.absolute_path));
                        } else {
                            assert(after[i] == before[i] && after[j] == before[j]);
                        }
                    }
                    assert(registry_wf(after));
                    assert(Seq::new(entries@.len(), |i: int| entries@[i].record@) =~= after);
                    assert forall|i: int| 0 <= i < entries@.len() implies lines_view(
                        (#[trigger] entries@[i]).lines@,
                    ) == split_lines(entries@[i].record.original_content@) by {
                        if i < kept.len() {
                            assert(entries@[i] == kept[i]);
                        }
                    }
                    assert forall|k: int| 0 <= k < after.len() implies #[trigger] occurs(
                        index,
                        k,
                    ) by {
                        if k == rank {
                            assert(index[at as int] == k);
                        } else {
                            assert(occurs(old_index, k));
                            let i = choose|i: int|
                                0 <= i < old_index.len() && #[trigger] old_index[i] == k;
                            if i < at {
                                assert(index[i] == k);
                            } else {
                                assert(index[i + 1] == k);
                            }
                        }
                    }
                    assert forall|i: int, j: int| 0 <= i < j < index.len() implies compared_paths(
                        after[#[trigger] index[i] as int].absolute_path,
                        after[#[trigger] index[j] as int].absolute_path,
                    ) == PathOrder::Before by {
                        if j < at {
                            assert(index[i] == old_index[i] && index[j] == old_index[j]);
                        } else if j == at {
                            assert(index[i] == old_index[i]);
                            assert(after[index[j] as int].absolute_path == path);
                        } else if i < at {
                            assert(index[i] == old_index[i] && index[j] == old_index[j - 1]);
                        } else if i == at {
                            assert(index[j] == old_index[j - 1]);
                            assert(after[index[i] as int].absolute_path == path);
                        } else {
                            assert(index[i] == old_index[i - 1] && index[j] == old_index[j - 1]);
                        }
                    }
                    assert(index_wf(after, index));
                }
                let mut built = FileRegistry { entries, by_path };
                assert(built@ =~= before.push(added));
                core::mem::swap(self, &mut built);
                Some(alias)
            },
        }
    }
}

// ---------------------------------------------------------------------------
// Match lines from requests
// ---------------------------------------------------------------------------

/// The match line that a request gives: the requested line of the snapshot of
/// the file with that path. A request for a file that is not tracked, or for a
/// line that the snapshot does not have, gives none.
pub open spec fn match_line_for(reg: Seq<RecordView>, path: Seq<char>, line_number: nat) -> Option<
    MatchLineView,
> {
    if has_path(reg, path) && 1 <= line_number <= snapshot_lines(reg, path_index(reg, path)).len() {
        let i = path_index(reg, path);
        Some(
            MatchLineView {
                alias: reg[i].alias,
                line_number,
                content: snapshot_lines(reg, i)[line_number - 1],
            },
        )
    } else {
        None
    }
}

/// The match lines of a sequence of requests, in the order of the requests.
pub open spec fn match_lines_for(reg: Seq<RecordView>, requests: Seq<LineRequest>) -> Seq<
    MatchLineView,
>
    decreases requests.len(),
{
    if requests.len() == 0 {
        Seq::empty()
    } else {
        let rest = match_lines_for(reg, requests.drop_last());
        match match_line_for(
            reg,
            requests.last().absolute_path@,
            requests.last().line_number as nat,
        ) {
            Some(m) => rest.push(m),
            None => rest,
        }
    }
}

/// Builds the match lines for the requested lines.
pub fn build_match_lines(requests: &Vec<LineRequest>, registry: &FileRegistry) -> (out: Vec<
    MatchLine,
>)
    ensures
        match_lines_view(out@) == match_lines_for(registry@, requests@),
{
    let mut out: Vec<MatchLine> = Vec::new();
    let mut k: usize = 0;
    assert(requests@.take(0) =~= Seq::<LineRequest>::empty());
    assert(match_lines_view(out@) =~= Seq::<MatchLineView>::empty());
    while k < requests.len()
        invariant
            k <= requests.len(),
            match_lines_view(out@) == match_lines_for(registry@, requests@.take(k as int)),
        decreases requests.len() - k,
    {
        let request = &requests[k];
        let ghost upto = requests@.take(k + 1);
        assert(upto.drop_last() =~= requests@.take(k as int));
        assert(upto.last() == requests@[k as int]);
        match registry.find_path(&request.absolute_path) {
            None => {},
            Some(i) => {
                let lines = registry.lines(i);
                let n: usize = request.line_number;
                if 1 <= n && n <= lines.len() {
                    let alias: FileAlias = registry.record(i).alias;
                    let content = string_of(lines[n - 1].as_slice());
                    let ghost before = match_lines_view(out@);
                    let m = MatchLine { alias, line_number: n, original_content: content };
                    out.push(m);
                    assert(match_lines_view(out@) =~= before.push(m@));
                }
            },
        }
        k += 1;
    }
    assert(requests@.take(requests.len() as int) =~= requests@);
    out
}

// ---------------------------------------------------------------------------
// Aliases in the order of the display paths
// ---------------------------------------------------------------------------

/// Whether the records stand in the order of their display paths.
pub open spec fn sorted_by_display_path(reg: Seq<RecordView>) -> bool {
    forall|i: int, j: int|
        0 <= i < j < reg.len() ==> path_le(
            (#[trigger] reg[i]).display_path,
            (#[trigger] reg[j]).display_path,
        )
}

/// Whether `k` is one of the positions in `order`.
pub open spec fn occurs(order: Seq<usize>, k: int) -> bool {
    exists|i: int| 0 <= i < order.len() && #[trigger] order[i] == k
}

/// Whether the file at position `a` goes before the one at position `b`: its
/// display path is smaller, or the same and it was given first.
pub open spec fn goes_before(files: Seq<LoadedFile>, a: int, b: int) -> bool {
    &&& path_le(files[a].display_path@, files[b].display_path@)
    &&& path_le(files[b].display_path@, files[a].display_path@) ==> a < b
}

/// Whether `order` lists the positions of the files, each once, in the order
/// of their display paths, files with one display path in the order in which
/// they were given.
pub open spec fn is_display_order(files: Seq<LoadedFile>, order: Seq<usize>) -> bool {
    &&& order.len() == files.len()
    &&& forall|i: int| 0 <= i < order.len() ==> (#[trigger] order[i]) < files.len()
    &&& forall|k: int| 0 <= k < files.len() ==> #[trigger] occurs(order, k)
    &&& forall|i: int, j: int|
        0 <= i < j < order.len() ==> goes_before(
            files,
            #[trigger] order[i] as int,
            #[trigger] order[j] as int,
        )
}

/// The files in the given order.
pub open spec fn in_order(files: Seq<LoadedFile>, order: Seq<usize>) -> Seq<LoadedFile> {
    Seq::new(order.len(), |i: int| files[order[i] as int])
}

/// The records after `file` was registered: the same if its absolute path is
/// tracked already or no alias is left, else one more, under the next alias.
pub open spec fn registered_with(reg: Seq<RecordView>, file: LoadedFile) -> Seq<RecordView> {
    if has_path(reg, file.absolute_path@) || reg.len() >= ALIAS_COUNT {
        reg
    } else {
        reg.push(record_of(file, nth_letters(reg.len())))
    }
}

/// The records after the files were registered one after the other.
pub open spec fn registered_all(files: Seq<LoadedFile>) -> Seq<RecordView>
    decreases files.len(),
{
    if files.len() == 0 {
        Seq::empty()
    } else {
        registered_with(registered_all(files.drop_last()), files.last())
    }
}

/// The positions of the files in the order of their display paths; files with
/// the same display path keep the order in which they were given.
fn display_order(files: &Vec<LoadedFile>) -> (order: Vec<usize>)
    ensures
        is_display_order(files@, order@),
{
    let mut order: Vec<usize> = Vec::new();
    let mut k: usize = 0;
    while k < files.len()
        invariant
            k <= files@.len(),
            order@.len() == k,
            forall|i: int| 0 <= i < order@.len() ==> (#[trigger] order@[i]) < k,
            forall|m: int| 0 <= m < k ==> #[trigger] occurs(order@, m),
            forall|i: int, j: int|
                0 <= i < j < order@.len() ==> goes_before(
                    files@,
                    #[trigger] order@[i] as int,
                    #[trigger] order@[j] as int,
                ),
        decreases files.len() - k,
    {
        let key = files[k].display_path.as_str();
        let mut p: usize = 0;
        let mut end: usize = order.len();
        while p < end
            invariant
                p <= end <= order@.len(),
                order@.len() == k,
                k < files@.len(),
                key@ == files@[k as int].display_path@,
                forall|i: int| 0 <= i < order@.len() ==> (#[trigger] order@[i]) < k,
                forall|i: int, j: int|
                    0 <= i < j < order@.len() ==> goes_before(
                        files@,
                        #[trigger] order@[i] as int,
                        #[trigger] order@[j] as int,
                    ),
                p > 0 || end < order@.len() ==> path_order_laws(),
                forall|i: int|
                    0 <= i < p ==> path_le(
                        files@[#[trigger] order@[i] as int].display_path@,
                        key@,
                    ),
                forall|i: int|
                    end <= i < order@.len() ==> !path_le(
                        files@[#[trigger] order@[i] as int].display_path@,
                        key@,
                    ),
            decreases end - p,
        {
            let mid: usize = p + (end - p) / 2;
            let ghost here = files@[order@[mid as int] as int].display_path@;
            if path_at_most(files[order[mid]].display_path.as_str(), key) {
                proof {
                    assert forall|i: int| 0 <= i < mid + 1 implies path_le(
                        files@[#[trigger] order@[i] as int].display_path@,
                        key@,
                    ) by {
                        if i < mid {
                            assert(goes_before(files@, order@[i] as int, order@[mid as int] as int));
                            lemma_path_transitive(
                                files@[order@[i] as int].display_path@,
                                here,
                                key@,
                            );
                        }
                    }
                }
                p = mid + 1;
            } else {
                proof {
                    assert forall|i: int| mid <= i < order@.len() implies !path_le(
                        files@[#[trigger] order@[i] as int].display_path@,
                        key@,
                    ) by {
                        if i > mid {
                            let there = files@[order@[i] as int].display_path@;
                            assert(goes_before(files@, order@[mid as int] as int, order@[i] as int));
                            if path_le(there, key@) {
                                lemma_path_transitive(here, there, key@);
                            }
                        }
                    }
                }
                end = mid;
            }
        }
        let ghost before = order@;
        proof {
            // What stands at or behind the place of insertion is larger than
            // the new path.
            assert forall|j: int| p <= j < before.len() implies goes_before(
                files@,
                k as int,
                #[trigger] before[j] as int,
            ) by {
                lemma_path_total(files@[before[j] as int].display_path@, key@);
            }
        }
        order.insert(p, k);
        proof {
            let after = order@;
            assert(after == before.insert(p as int, k));
            assert forall|m: int| 0 <= m < k + 1 implies #[trigger] occurs(after, m) by {
                if m == k {
                    assert(after[p as int] == k);
                } else {
                    assert(occurs(before, m));
                    let i = choose|i: int| 0 <= i < before.len() && #[trigger] before[i] == m;
                    if i < p {
                        assert(after[i] == m);
                    } else {
                        assert(after[i + 1] == m);
                    }
                }
            }
            assert forall|i: int, j: int| 0 <= i < j < after.len() implies goes_before(
                files@,
                #[trigger] after[i] as int,
                #[trigger] after[j] as int,
            ) by {
                if j < p {
                    assert(after[i] == before[i] && after[j] == before[j]);
                } else if j == p {
                    assert(after[i] == before[i]);
                    assert(before[i] < k);
                } else if i < p {
                    assert(after[i] == before[i] && after[j] == before[j - 1]);
                } else if i == p {
                    assert(after[j] == before[j - 1]);
                } else {
                    assert(after[i] == before[i - 1] && after[j] == before[j - 1]);
                }
            }
        }
        k += 1;
    }
    order
}

/// A copy of a file.
pub fn copy_file(file: &LoadedFile) -> (r: LoadedFile)
    ensures
        r == *file,
{
    LoadedFile {
        display_path: file.display_path.clone(),
        absolute_path: file.absolute_path.clone(),
        content: file.content.clone(),
        mtime: file.mtime,
    }
}

/// Whether `record` is one of the files, registered under the alias of `rank`.
pub open spec fn is_one_of(record: RecordView, rank: nat, files: Seq<LoadedFile>) -> bool {
    exists|k: int|
        0 <= k < files.len() && record == record_of(#[trigger] files[k], nth_letters(rank))
}

/// Builds the registry of the given files: they are registered one after the
/// other in the order of their display paths, so that the aliases follow that
/// order.
///
/// It follows that the records stand in the order of their display paths, that
/// every record is one of the files under the alias of its rank, that of
/// several files with one absolute path the first in the order is tracked, and
/// that every file is tracked unless the aliases ran out.
pub fn assign_aliases(files: &Vec<LoadedFile>) -> (registry: FileRegistry)
    ensures
        exists|order: Seq<usize>| #[trigger]
            is_display_order(files@, order) && registry@ == registered_all(
                in_order(files@, order),
            ),
        sorted_by_display_path(registry@),
        forall|i: int|
            0 <= i < registry@.len() ==> is_one_of(#[trigger] registry@[i], i as nat, files@),
        registry@.len() < ALIAS_COUNT ==> forall|k: int|
            0 <= k < files@.len() ==> has_path(registry@, (#[trigger] files@[k]).absolute_path@),
{
    let order = display_order(files);
    let ghost sorted = in_order(files@, order@);
    let mut registry = FileRegistry::new();
    let ghost mut origin: Seq<int> = Seq::empty();
    let ghost mut place: Seq<int> = Seq::empty();
    let mut n: usize = 0;
    proof {
        assert(sorted.take(0) =~= Seq::<LoadedFile>::empty());
    }
    while n < order.len()
        invariant
            n <= order@.len(),
            is_display_order(files@, order@),
            sorted == in_order(files@, order@),
            registry@ == registered_all(sorted.take(n as int)),
            sorted_by_display_path(registry@),
            origin.len() == registry@.len(),
            forall|i: int|
                0 <= i < origin.len() ==> 0 <= #[trigger] origin[i] < files@.len() && registry@[i]
                    == record_of(files@[origin[i]], nth_letters(i as nat)),
            forall|i: int, j: int|
                0 <= i < registry@.len() && n <= j < order@.len() ==> path_le(
                    (#[trigger] registry@[i]).display_path,
                    files@[#[trigger] order@[j] as int].display_path@,
                ),
            registry@.len() < ALIAS_COUNT ==> place.len() == n,
            registry@.len() < ALIAS_COUNT ==> forall|j: int|
                0 <= j < n ==> 0 <= #[trigger] place[j] < registry@.len()
                    && same_path(
                    registry@[place[j]].absolute_path,
                    files@[order@[j] as int].absolute_path@,
                ),
        decreases order.len() - n,
    {
        let file = copy_file(&files[order[n]]);
        let ghost before = registry@;
        let ghost k = order@[n as int] as int;
        let ghost source = files@[k];
        registry.register(file);
        proof {
            let after = registry@;
            let upto = sorted.take(n + 1);
            assert(upto.drop_last() =~= sorted.take(n as int));
            assert(upto.last() == source);
            let known = has_path(before, source.absolute_path@);
            if !known && before.len() < ALIAS_COUNT {
                let added = record_of(source, nth_letters(before.len()));
                assert(after == before.push(added));
                assert forall|i: int, j: int| 0 <= i < j < after.len() implies path_le(
                    (#[trigger] after[i]).display_path,
                    (#[trigger] after[j]).display_path,
                ) by {
                    if j == before.len() {
                        assert(after[i] == before[i]);
                        assert(path_le(
                            before[i].display_path,
                            files@[order@[n as int] as int].display_path@,
                        ));
                    } else {
                        assert(after[i] == before[i] && after[j] == before[j]);
                    }
                }
                assert forall|i: int, j: int|
                    0 <= i < after.len() && n + 1 <= j < order@.len() implies path_le(
                    (#[trigger] after[i]).display_path,
                    files@[#[trigger] order@[j] as int].display_path@,
                ) by {
                    if i == before.len() {
                        assert(goes_before(files@, order@[n as int] as int, order@[j] as int));
                    } else {
                        assert(after[i] == before[i]);
                    }
                }
                origin = origin.push(k);
                place = place.push(before.len() as int);
                assert forall|j: int| 0 <= j < n + 1 implies 0 <= #[trigger] place[j] < after.len()
                    && same_path(
                    after[place[j]].absolute_path,
                    files@[order@[j] as int].absolute_path@,
                ) by {
                    if j < n {
                        assert(after[place[j]] == before[place[j]]);
                    }
                }
            } else {
                assert(after == before);
                if known {
                    place = place.push(path_index(before, source.absolute_path@));
                }
            }
        }
        n += 1;
    }
    proof {
        let reg = registry@;
        assert(sorted.take(order@.len() as int) =~= sorted);
        assert(is_display_order(files@, order@) && reg == registered_all(
            in_order(files@, order@),
        ));
        assert forall|i: int| 0 <= i < reg.len() implies is_one_of(
            #[trigger] reg[i],
            i as nat,
            files@,
        ) by {
            let k = origin[i];
            assert(reg[i] == record_of(files@[k], nth_letters(i as nat)));
        }
        if reg.len() < ALIAS_COUNT {
            assert forall|k: int| 0 <= k < files@.len() implies has_path(
                reg,
                (#[trigger] files@[k]).absolute_path@,
            ) by {
                assert(occurs(order@, k));
                let j = choose|j: int| 0 <= j < order@.len() && #[trigger] order@[j] == k;
                assert(same_path(reg[place[j]].absolute_path, files@[k].absolute_path@));
            }
        }
    }
    registry
}

} // verus!
