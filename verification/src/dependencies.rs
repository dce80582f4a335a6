//! Transitive resolution of shared-library dependencies: a work queue with
//! a seen-set walks the needed-names breadth first, each name is probed
//! against the search path, and the outcomes land in a map ordered by name.

use crate::search_path::spec_join_path;
use crate::depmap::DependencyMap;
use crate::summarize::{spec_needed, spec_summarize, ElfSummary, ElfSummaryModel};
use crate::text::string_eq;
use vstd::prelude::*;

verus! {

/// A fault met while searching for a dependency.
#[derive(Debug, PartialEq, Eq)]
pub enum SearchError {
    /// No search-path directory held a readable ELF under the needed name.
    MissingLibraryDependency(String),
}

/// An in-memory table of file contents keyed by path: the filesystem as
/// the resolver sees it. Lookup finds the first entry with the given path.
pub struct FileTable {
    pub entries: Vec<(String, Vec<u8>)>,
}

impl View for FileTable {
    type V = Seq<(Seq<char>, Seq<u8>)>;

    open spec fn view(&self) -> Seq<(Seq<char>, Seq<u8>)> {
        self.entries@.map_values(|e: (String, Vec<u8>)| (e.0@, e.1@))
    }
}

/// The contents of the first entry of `files` whose path is `path`.
pub open spec fn spec_file_lookup(files: Seq<(Seq<char>, Seq<u8>)>, path: Seq<char>) -> Option<
    Seq<u8>,
>
    decreases files.len(),
{
    if files.len() == 0 {
        None
    } else if files[0].0 == path {
        Some(files[0].1)
    } else {
        spec_file_lookup(files.skip(1), path)
    }
}

impl FileTable {
    pub fn new() -> (t: FileTable)
        ensures
            t@ == Seq::<(Seq<char>, Seq<u8>)>::empty(),
    {
        let t = FileTable { entries: Vec::new() };
        proof {
            assert(t@ =~= Seq::<(Seq<char>, Seq<u8>)>::empty());
        }
        t
    }

    /// Appends one file.
    pub fn add(&mut self, path: String, contents: Vec<u8>)
        ensures
            final(self)@ == old(self)@.push((path@, contents@)),
    {
        let ghost before = self@;
        self.entries.push((path, contents));
        proof {
            assert(self@ =~= before.push((self.entries@.last().0@, self.entries@.last().1@)));
        }
    }

    /// Finds the contents stored under `path`.
    pub fn lookup(&self, path: &String) -> (r: Option<&Vec<u8>>)
        ensures
            match r {
                Some(v) => spec_file_lookup(self@, path@) == Some(v@),
                None => spec_file_lookup(self@, path@) is None,
            },
    {
        let mut i: usize = 0;
        proof {
            assert(self@.skip(0) =~= self@);
        }
        while i < self.entries.len()
            invariant
                i <= self@.len(),
                self@.len() == self.entries@.len(),
                spec_file_lookup(self@, path@) == spec_file_lookup(self@.skip(i as int), path@),
            decreases self@.len() - i,
        {
            if string_eq(&self.entries[i].0, path) {
                assert(self@.skip(i as int)[0] == (self.entries@[i as int].0@, self.entries@[i
                    as int].1@));
                return Some(&self.entries[i].1);
            }
            proof {
                assert(self@.skip(i as int).skip(1) =~= self@.skip(i + 1));
                assert(self@.skip(i as int)[0].0 == self.entries@[i as int].0@);
            }
            i = i + 1;
        }
        assert(self@.skip(i as int).len() == 0);
        None
    }
}

/// The outcome of probing the search path for a needed name, trying the
/// directories in order: the summary decoded from the first directory
/// whose file parses as an ELF image; directories without the file, and
/// files that fail to decode, are passed over alike.
pub open spec fn spec_probe_from(
    files: Seq<(Seq<char>, Seq<u8>)>,
    dirs: Seq<Seq<char>>,
    name: Seq<char>,
    i: int,
) -> Option<ElfSummaryModel>
    decreases dirs.len() - i,
{
    if i < 0 || i >= dirs.len() {
        None
    } else {
        let cand = spec_join_path(dirs[i], name);
        match spec_file_lookup(files, cand) {
            Some(bytes) => match spec_summarize(bytes, cand) {
                Ok(m) => Some(m),
                Err(_) => spec_probe_from(files, dirs, name, i + 1),
            },
            None => spec_probe_from(files, dirs, name, i + 1),
        }
    }
}

/// The outcome of probing the whole search path for a needed name.
pub open spec fn spec_probe(
    files: Seq<(Seq<char>, Seq<u8>)>,
    dirs: Seq<Seq<char>>,
    name: Seq<char>,
) -> Option<ElfSummaryModel> {
    spec_probe_from(files, dirs, name, 0)
}

/// Probes the search path for one needed name: the first directory whose
/// file decodes as an ELF image wins, and later directories are ignored.
pub fn analyze_one_dependency(search_path: &Vec<String>, lib_name: &String, files: &FileTable)
    -> (r: Result<ElfSummary, SearchError>)
    ensures
        r is Ok <==> spec_probe(files@, search_path@.map_values(|d: String| d@), lib_name@)
            is Some,
        r matches Ok(s) ==> Some(s@) == spec_probe(
            files@,
            search_path@.map_values(|d: String| d@),
            lib_name@,
        ),
        r matches Err(e) ==> e matches SearchError::MissingLibraryDependency(n) && n@ == lib_name@,
{
    let ghost dirs = search_path@.map_values(|d: String| d@);
    let mut i: usize = 0;
    while i < search_path.len()
        invariant
            i <= search_path@.len(),
            dirs == search_path@.map_values(|d: String| d@),
            spec_probe(files@, dirs, lib_name@) == spec_probe_from(files@, dirs, lib_name@, i as int),
        decreases search_path@.len() - i,
    {
        let candidate = crate::search_path::join_path(&search_path[i], lib_name);
        match files.lookup(&candidate) {
            None => {},
            Some(bytes) => {
                match crate::summarize::summarize_bytes(bytes, candidate) {
                    Ok(summ) => {
                        return Ok(summ);
                    },
                    Err(_) => {},
                }
            },
        }
        i = i + 1;
    }
    Err(SearchError::MissingLibraryDependency(lib_name.clone()))
}

/// Enqueueing a list of needed names: each name never seen before joins
/// both the seen list and the pending list, in order; the rest are
/// dropped. The result pairs the new seen list with the new pending list.
pub open spec fn spec_enqueue(
    seen: Seq<Seq<char>>,
    pending: Seq<Seq<char>>,
    deps: Seq<Seq<char>>,
) -> (Seq<Seq<char>>, Seq<Seq<char>>)
    decreases deps.len(),
{
    if deps.len() == 0 {
        (seen, pending)
    } else {
        let d = deps[0];
        if seen.contains(d) {
            spec_enqueue(seen, pending, deps.skip(1))
        } else {
            spec_enqueue(seen.push(d), pending.push(d), deps.skip(1))
        }
    }
}

/// A well-formed queue state: no name repeats, and every pending name has
/// been seen.
pub open spec fn spec_queue_wf(seen: Seq<Seq<char>>, pending: Seq<Seq<char>>) -> bool {
    &&& seen.no_duplicates()
    &&& pending.no_duplicates()
    &&& forall|i: int| 0 <= i < pending.len() ==> seen.contains(pending[i])
}

/// Marking one fresh name as seen and pending keeps the queue state
/// well-formed.
pub proof fn lemma_queue_push(seen: Seq<Seq<char>>, pending: Seq<Seq<char>>, d: Seq<char>)
    requires
        spec_queue_wf(seen, pending),
        !seen.contains(d),
    ensures
        spec_queue_wf(seen.push(d), pending.push(d)),
{
    let seen1 = seen.push(d);
    let pending1 = pending.push(d);
    assert(!pending.contains(d)) by {
        if pending.contains(d) {
            let ix = choose|ix: int| 0 <= ix < pending.len() && pending[ix] == d;
            assert(seen.contains(pending[ix]));
        }
    }
    assert(seen1.no_duplicates()) by {
        assert forall|i: int, j: int| 0 <= i < j < seen1.len() implies seen1[i] != seen1[j] by {
            if j == seen.len() {
                assert(seen1[i] == seen[i]);
                assert(seen.contains(seen[i]));
            } else {
                assert(seen1[i] == seen[i] && seen1[j] == seen[j]);
            }
        }
    }
    assert(pending1.no_duplicates()) by {
        assert forall|i: int, j: int|
            0 <= i < j < pending1.len() implies pending1[i] != pending1[j] by {
            if j == pending.len() {
                assert(pending1[i] == pending[i]);
                assert(pending.contains(pending[i]));
            } else {
                assert(pending1[i] == pending[i] && pending1[j] == pending[j]);
            }
        }
    }
    assert forall|i: int| 0 <= i < pending1.len() implies seen1.contains(pending1[i]) by {
        if i < pending.len() {
            assert(seen.contains(pending[i]));
            let ix = choose|ix: int| 0 <= ix < seen.len() && seen[ix] == pending[i];
            assert(seen1[ix] == pending1[i]);
        } else {
            assert(seen1[seen.len() as int] == d);
        }
    }
}

/// What enqueueing does: well-formedness is kept, the seen set grows by
/// exactly the fresh names of `deps`, pending keeps its old entries in
/// front and adds the fresh names behind, and seen and pending grow by the
/// same count.
pub proof fn lemma_enqueue(seen: Seq<Seq<char>>, pending: Seq<Seq<char>>, deps: Seq<Seq<char>>)
    requires
        spec_queue_wf(seen, pending),
    ensures
        ({
            let (s2, p2) = spec_enqueue(seen, pending, deps);
            &&& spec_queue_wf(s2, p2)
            &&& s2.to_set() == seen.to_set().union(deps.to_set())
            &&& s2.len() - seen.len() == p2.len() - pending.len()
            &&& p2.len() >= pending.len()
            &&& s2.len() >= seen.len()
            &&& (forall|i: int| 0 <= i < pending.len() ==> p2[i] == pending[i])
            &&& (forall|i: int|
                pending.len() <= i < p2.len() ==> deps.contains(p2[i]) && !seen.contains(p2[i]))
            &&& (forall|i: int| 0 <= i < seen.len() ==> s2[i] == seen[i])
            &&& p2.skip(pending.len() as int) == s2.skip(seen.len() as int)
        }),
    decreases deps.len(),
{
    if deps.len() == 0 {
        assert(seen.to_set().union(deps.to_set()) =~= seen.to_set());
        assert(pending.skip(pending.len() as int) =~= seen.skip(seen.len() as int));
    } else {
        let d = deps[0];
        if seen.contains(d) {
            lemma_enqueue(seen, pending, deps.skip(1));
            let (s2, p2) = spec_enqueue(seen, pending, deps.skip(1));
            assert forall|i: int|
                pending.len() <= i < p2.len() implies deps.contains(p2[i]) && !seen.contains(
                p2[i],
            ) by {
                assert(deps.skip(1).contains(p2[i]));
                let ix = choose|ix: int|
                    0 <= ix < deps.skip(1).len() && deps.skip(1)[ix] == p2[i];
                assert(deps[ix + 1] == p2[i]);
            }
            assert(seen.to_set().union(deps.skip(1).to_set()) =~= seen.to_set().union(
                deps.to_set(),
            )) by {
                assert(deps.contains(d));
                assert forall|x: Seq<char>| deps.to_set().contains(x) implies seen.to_set().union(
                    deps.skip(1).to_set(),
                ).contains(x) by {
                    let ix = choose|ix: int| 0 <= ix < deps.len() && deps[ix] == x;
                    if ix == 0 {
                        assert(seen.contains(x));
                    } else {
                        assert(deps.skip(1)[ix - 1] == x);
                        assert(deps.skip(1).contains(x));
                    }
                }
                assert forall|x: Seq<char>| deps.skip(1).to_set().contains(x) implies
                    deps.to_set().contains(x) by {
                    let ix = choose|ix: int| 0 <= ix < deps.skip(1).len() && deps.skip(1)[ix] == x;
                    assert(deps[ix + 1] == x);
                }
            }
        } else {
            let seen1 = seen.push(d);
            let pending1 = pending.push(d);
            lemma_queue_push(seen, pending, d);
            lemma_enqueue(seen1, pending1, deps.skip(1));
            let (s2, p2) = spec_enqueue(seen1, pending1, deps.skip(1));
            assert forall|i: int|
                pending.len() <= i < p2.len() implies deps.contains(p2[i]) && !seen.contains(
                p2[i],
            ) by {
                if i < pending1.len() {
                    assert(p2[i] == pending1[i]);
                    assert(pending1[i] == d);
                    assert(deps[0] == d);
                } else {
                    assert(deps.skip(1).contains(p2[i]) && !seen1.contains(p2[i]));
                    let ix = choose|ix: int|
                        0 <= ix < deps.skip(1).len() && deps.skip(1)[ix] == p2[i];
                    assert(deps[ix + 1] == p2[i]);
                    if seen.contains(p2[i]) {
                        let sx = choose|sx: int| 0 <= sx < seen.len() && seen[sx] == p2[i];
                        assert(seen1[sx] == p2[i]);
                    }
                }
            }
            assert(p2.skip(pending.len() as int) =~= s2.skip(seen.len() as int)) by {
                assert(p2.len() - pending1.len() == s2.len() - seen1.len());
                assert forall|j: int|
                    pending.len() <= j < p2.len() implies #[trigger] p2[j] == s2[j - pending.len()
                    + seen.len()] by {
                    if j == pending.len() {
                        assert(p2[pending.len() as int] == pending1[pending.len() as int]);
                        assert(s2[seen.len() as int] == seen1[seen.len() as int]);
                    } else {
                        let k = j - pending.len();
                        assert(p2.skip(pending1.len() as int)[k - 1] == p2[pending1.len() + k - 1]);
                        assert(s2.skip(seen1.len() as int)[k - 1] == s2[seen1.len() + k - 1]);
                    }
                }
            }
            assert(s2.to_set() =~= seen.to_set().union(deps.to_set())) by {
                assert(s2.to_set() == seen1.to_set().union(deps.skip(1).to_set()));
                assert(seen1.to_set() =~= seen.to_set().insert(d)) by {
                    seen.lemma_push_to_set_commute(d);
                }
                assert forall|x: Seq<char>| deps.to_set().contains(x) implies x == d
                    || deps.skip(1).to_set().contains(x) by {
                    let ix = choose|ix: int| 0 <= ix < deps.len() && deps[ix] == x;
                    if ix > 0 {
                        assert(deps.skip(1)[ix - 1] == x);
                    }
                }
                assert forall|x: Seq<char>| deps.skip(1).to_set().contains(x) implies
                    deps.to_set().contains(x) by {
                    let ix = choose|ix: int| 0 <= ix < deps.skip(1).len() && deps.skip(1)[ix] == x;
                    assert(deps[ix + 1] == x);
                }
                assert(deps.to_set().contains(d)) by {
                    assert(deps[0] == d);
                }
            }
        }
    }
}

/// The breadth-first work queue of the resolver: names wait in FIFO order,
/// and a name that was ever enqueued is never enqueued again.
pub struct WorkQueue {
    work_items: Vec<String>,
    next_item: usize,
    seen_items: Vec<String>,
}

impl WorkQueue {
    /// The names enqueued and not yet taken, oldest first.
    pub closed spec fn pending(self) -> Seq<Seq<char>> {
        self.work_items@.map_values(|s: String| s@).skip(self.next_item as int)
    }

    /// Every name ever enqueued, in the order of first enqueueing.
    pub closed spec fn seen(self) -> Seq<Seq<char>> {
        self.seen_items@.map_values(|s: String| s@)
    }

    /// No name repeats, and every pending name has been seen.
    pub closed spec fn wf(self) -> bool {
        &&& self.next_item <= self.work_items@.len()
        &&& spec_queue_wf(self.seen(), self.pending())
    }

    pub fn new() -> (q: WorkQueue)
        ensures
            q.wf(),
            q.pending() == Seq::<Seq<char>>::empty(),
            q.seen() == Seq::<Seq<char>>::empty(),
    {
        let q = WorkQueue { work_items: Vec::new(), next_item: 0, seen_items: Vec::new() };
        proof {
            assert(q.pending() =~= Seq::<Seq<char>>::empty());
            assert(q.seen() =~= Seq::<Seq<char>>::empty());
        }
        q
    }

    /// Enqueues every needed name of `summ` that has never been seen; a
    /// static image contributes nothing.
    pub fn add_dependencies(&mut self, summ: &ElfSummary)
        requires
            old(self).wf(),
        ensures
            final(self).wf(),
            ({
                let (s2, p2) = spec_enqueue(
                    old(self).seen(),
                    old(self).pending(),
                    spec_needed(summ@),
                );
                final(self).seen() == s2 && final(self).pending() == p2
            }),
    {
        match &summ.binary_type {
            crate::summarize::BinaryType::Static => {
                proof {
                    assert(spec_needed(summ@).len() == 0);
                }
            },
            crate::summarize::BinaryType::Dynamic(dyn_deps) => {
                let ghost all_deps = spec_needed(summ@);
                let mut di: usize = 0;
                proof {
                    assert(all_deps.skip(0) =~= all_deps);
                }
                while di < dyn_deps.deps.len()
                    invariant
                        di <= dyn_deps.deps@.len(),
                        all_deps == dyn_deps.deps@.map_values(|d: String| d@),
                        self.wf(),
                        spec_enqueue(self.seen(), self.pending(), all_deps.skip(di as int))
                            == spec_enqueue(old(self).seen(), old(self).pending(), all_deps),
                    decreases dyn_deps.deps@.len() - di,
                {
                    let dep = &dyn_deps.deps[di];
                    let ghost rest = all_deps.skip(di as int);
                    assert(rest[0] == dep@);
                    proof {
                        assert(rest.skip(1) =~= all_deps.skip(di + 1));
                    }
                    let is_seen = contains_string(&self.seen_items, dep);
                    if !is_seen {
                        let ghost old_q = *self;
                        self.work_items.push(dep.clone());
                        self.seen_items.push(dep.clone());
                        proof {
                            assert(self.seen() =~= old_q.seen().push(dep@));
                            assert(self.pending() =~= old_q.pending().push(dep@));
                            lemma_queue_push(old_q.seen(), old_q.pending(), dep@);
                        }
                    }
                    di = di + 1;
                }
                assert(all_deps.skip(di as int).len() == 0);
            },
        }
    }

    /// Whether any name is still pending.
    pub fn has_work(&self) -> (r: bool)
        requires
            self.wf(),
        ensures
            r == (self.pending().len() > 0),
    {
        self.next_item < self.work_items.len()
    }

    /// Takes the oldest pending name, or nothing when the queue is empty.
    pub fn take_work(&mut self) -> (r: Option<String>)
        requires
            old(self).wf(),
        ensures
            final(self).wf(),
            final(self).seen() == old(self).seen(),
            match r {
                None => old(self).pending().len() == 0 && final(self).pending() == old(self).pending(),
                Some(s) => old(self).pending().len() > 0 && s@ == old(self).pending()[0]
                    && final(self).pending() == old(self).pending().skip(1),
            },
    {
        if self.next_item < self.work_items.len() {
            let s = self.work_items[self.next_item].clone();
            let ghost before = *self;
            self.next_item = self.next_item + 1;
            proof {
                assert(self.pending() =~= before.pending().skip(1));
                assert(before.pending()[0] == s@);
                assert(forall|i: int|
                    0 <= i < self.pending().len() ==> self.pending()[i] == before.pending()[i + 1]);
            }
            Some(s)
        } else {
            proof {
                assert(self.pending().len() == 0);
            }
            None
        }
    }
}

/// Whether `items` holds a string equal to `x`.
fn contains_string(items: &Vec<String>, x: &String) -> (r: bool)
    ensures
        r == items@.map_values(|s: String| s@).contains(x@),
{
    let ghost views = items@.map_values(|s: String| s@);
    let mut i: usize = 0;
    while i < items.len()
        invariant
            i <= items@.len(),
            views == items@.map_values(|s: String| s@),
            forall|j: int| 0 <= j < i ==> views[j] != x@,
        decreases items@.len() - i,
    {
        if string_eq(&items[i], x) {
            assert(views[i as int] == x@);
            return true;
        }
        i = i + 1;
    }
    assert(!views.contains(x@));
    false
}

/// Whether a resolution outcome is an image that needs `n`.
pub open spec fn spec_opt_needs(v: Option<ElfSummaryModel>, n: Seq<char>) -> bool {
    match v {
        Option::Some(m) => spec_needed(m).contains(n),
        Option::None => false,
    }
}

/// Whether some recorded entry of a map view resolved to an image that
/// needs `n`.
pub open spec fn spec_entry_needs(v: Seq<(Seq<char>, Option<ElfSummaryModel>)>, n: Seq<char>) -> bool {
    exists|j: int| 0 <= j < v.len() && spec_opt_needs(v[j].1, n)
}

/// The names that any file of the table, decoded as an ELF image, needs.
pub open spec fn spec_universe_files(files: Seq<(Seq<char>, Seq<u8>)>) -> Set<Seq<char>>
    decreases files.len(),
{
    if files.len() == 0 {
        Set::empty()
    } else {
        (match spec_summarize(files[0].1, files[0].0) {
            Ok(m) => spec_needed(m).to_set(),
            Err(_) => Set::empty(),
        }).union(spec_universe_files(files.skip(1)))
    }
}

/// Every name the walk can ever meet: the root's needs and the needs of
/// every decodable file of the table.
pub open spec fn spec_universe(files: Seq<(Seq<char>, Seq<u8>)>, root: ElfSummaryModel) -> Set<
    Seq<char>,
> {
    spec_needed(root).to_set().union(spec_universe_files(files))
}

pub proof fn lemma_universe_files_finite(files: Seq<(Seq<char>, Seq<u8>)>)
    ensures
        spec_universe_files(files).finite(),
    decreases files.len(),
{
    if files.len() == 0 {
    } else {
        lemma_universe_files_finite(files.skip(1));
        match spec_summarize(files[0].1, files[0].0) {
            Ok(m) => {
                vstd::seq_lib::seq_to_set_is_finite(spec_needed(m));
                vstd::set::axiom_set_union_finite(
                    spec_needed(m).to_set(),
                    spec_universe_files(files.skip(1)),
                );
            },
            Err(_) => {
                vstd::set::axiom_set_union_finite(
                    Set::<Seq<char>>::empty(),
                    spec_universe_files(files.skip(1)),
                );
            },
        }
    }
}

pub proof fn lemma_universe_finite(files: Seq<(Seq<char>, Seq<u8>)>, root: ElfSummaryModel)
    ensures
        spec_universe(files, root).finite(),
{
    lemma_universe_files_finite(files);
    vstd::seq_lib::seq_to_set_is_finite(spec_needed(root));
    vstd::set::axiom_set_union_finite(spec_needed(root).to_set(), spec_universe_files(files));
}

/// What a successful lookup-and-decode needs is in the table's universe.
proof fn lemma_lookup_in_universe(files: Seq<(Seq<char>, Seq<u8>)>, path: Seq<char>)
    ensures
        match spec_file_lookup(files, path) {
            Some(bytes) => match spec_summarize(bytes, path) {
                Ok(m) => spec_needed(m).to_set().subset_of(spec_universe_files(files)),
                Err(_) => true,
            },
            None => true,
        },
    decreases files.len(),
{
    if files.len() > 0 {
        if files[0].0 == path {
        } else {
            lemma_lookup_in_universe(files.skip(1), path);
        }
    }
}

/// What a successful probe needs is in the table's universe.
proof fn lemma_probe_in_universe(
    files: Seq<(Seq<char>, Seq<u8>)>,
    dirs: Seq<Seq<char>>,
    name: Seq<char>,
    i: int,
)
    ensures
        match spec_probe_from(files, dirs, name, i) {
            Some(m) => spec_needed(m).to_set().subset_of(spec_universe_files(files)),
            None => true,
        },
    decreases dirs.len() - i,
{
    if 0 <= i < dirs.len() {
        lemma_lookup_in_universe(files, spec_join_path(dirs[i], name));
        lemma_probe_in_universe(files, dirs, name, i + 1);
    }
}

/// The keys of a map view, in entry order.
pub open spec fn spec_keys_of(v: Seq<(Seq<char>, Option<ElfSummaryModel>)>) -> Seq<Seq<char>> {
    v.map_values(|e: (Seq<char>, Option<ElfSummaryModel>)| e.0)
}

/// Whether a map view holds an entry under `k`.
pub open spec fn spec_has_key(v: Seq<(Seq<char>, Option<ElfSummaryModel>)>, k: Seq<char>) -> bool {
    exists|i: int| 0 <= i < v.len() && v[i].0 == k
}

/// One step of the dependency walk keeps its invariants: the seen names
/// split into recorded keys and pending names, recorded values are probe
/// outcomes, the needs of every recorded image are seen, and the seen set
/// stays inside the finite universe.
#[verifier::rlimit(60)]
proof fn lemma_resolve_step(
    files: Seq<(Seq<char>, Seq<u8>)>,
    dirs: Seq<Seq<char>>,
    roots: Seq<Seq<char>>,
    uni: Set<Seq<char>>,
    seen_pre: Seq<Seq<char>>,
    pending_pre: Seq<Seq<char>>,
    view_pre: Seq<(Seq<char>, Option<ElfSummaryModel>)>,
    name_v: Seq<char>,
    needed_new: Seq<Seq<char>>,
    seen1: Seq<Seq<char>>,
    pend1: Seq<Seq<char>>,
    view1: Seq<(Seq<char>, Option<ElfSummaryModel>)>,
    p: int,
)
    requires
        spec_queue_wf(seen_pre, pending_pre),
        spec_queue_wf(seen1, pend1),
        seen_pre.to_set() == spec_keys_of(view_pre).to_set().union(pending_pre.to_set()),
        forall|k: Seq<char>| spec_has_key(view_pre, k) ==> !pending_pre.contains(k),
        forall|i: int|
            0 <= i < view_pre.len() ==> (#[trigger] view_pre[i]).1 == spec_probe(
                files,
                dirs,
                view_pre[i].0,
            ),
        forall|n: Seq<char>| roots.contains(n) ==> seen_pre.contains(n),
        forall|i: int, n: Seq<char>|
            0 <= i < view_pre.len() && #[trigger] spec_opt_needs(view_pre[i].1, n)
                ==> seen_pre.contains(n),
        seen_pre.to_set().subset_of(uni),
        uni.finite(),
        uni == roots.to_set().union(spec_universe_files(files)),
        forall|n: Seq<char>|
            #[trigger] seen_pre.contains(n) ==> roots.contains(n) || spec_entry_needs(
                view_pre,
                n,
            ),
        pending_pre.len() > 0,
        name_v == pending_pre[0],
        needed_new == (match spec_probe(files, dirs, name_v) {
            Some(m) => spec_needed(m),
            None => Seq::<Seq<char>>::empty(),
        }),
        (seen1, pend1) == spec_enqueue(seen_pre, pending_pre.skip(1), needed_new),
        0 <= p <= view_pre.len(),
        view1 == view_pre.subrange(0, p).push((name_v, spec_probe(files, dirs, name_v)))
            + view_pre.subrange(p, view_pre.len() as int),
    ensures
        seen1.to_set() == spec_keys_of(view1).to_set().union(pend1.to_set()),
        forall|k: Seq<char>| spec_has_key(view1, k) ==> !pend1.contains(k),
        forall|i: int|
            0 <= i < view1.len() ==> (#[trigger] view1[i]).1 == spec_probe(
                files,
                dirs,
                view1[i].0,
            ),
        forall|n: Seq<char>| roots.contains(n) ==> seen1.contains(n),
        forall|i: int, n: Seq<char>|
            0 <= i < view1.len() && #[trigger] spec_opt_needs(view1[i].1, n) ==> seen1.contains(n),
        seen1.to_set().subset_of(uni),
        seen1.len() >= seen_pre.len(),
        seen1.len() == seen_pre.len() ==> pend1.len() == pending_pre.len() - 1,
        forall|n: Seq<char>|
            #[trigger] seen1.contains(n) ==> roots.contains(n) || spec_entry_needs(view1, n),
{
    let pending_mid = pending_pre.skip(1);
    lemma_enqueue(seen_pre, pending_mid, needed_new);
    lemma_probe_in_universe(files, dirs, name_v, 0);
    assert(pending_pre.contains(name_v));
    assert(seen_pre.contains(name_v));
    let name_ix = choose|ix: int| 0 <= ix < seen_pre.len() && seen_pre[ix] == name_v;
    // positions of the spliced map view
    assert(view1.len() == view_pre.len() + 1);
    assert(forall|j: int| 0 <= j < p ==> view1[j] == view_pre[j]);
    assert(view1[p] == (name_v, spec_probe(files, dirs, name_v)));
    assert(forall|j: int| p < j < view1.len() ==> view1[j] == view_pre[j - 1]);
    // pending_mid is pending_pre without its head
    assert(forall|i: int| 0 <= i < pending_mid.len() ==> pending_mid[i] == pending_pre[i + 1]);
    assert(!pending_mid.contains(name_v)) by {
        if pending_mid.contains(name_v) {
            let ix = choose|ix: int| 0 <= ix < pending_mid.len() && pending_mid[ix] == name_v;
            assert(pending_pre[ix + 1] == name_v);
            assert(pending_pre[0] == name_v);
        }
    }
    // the new pending splits into the old tail and fresh needed names
    assert(forall|i: int| 0 <= i < pending_mid.len() ==> pend1[i] == pending_mid[i]);
    assert(forall|i: int|
        pending_mid.len() <= i < pend1.len() ==> needed_new.contains(pend1[i])
            && !seen_pre.contains(pend1[i]));
    assert(forall|i: int| 0 <= i < seen_pre.len() ==> seen1[i] == seen_pre[i]);
    assert(pend1.skip(pending_mid.len() as int) == seen1.skip(seen_pre.len() as int));
    assert(seen1.to_set() == seen_pre.to_set().union(needed_new.to_set()));
    // fresh seen names come from the needed list of the probed image
    assert forall|i: int|
        seen_pre.len() <= i < seen1.len() implies needed_new.contains(seen1[i]) && !seen_pre.contains(
        seen1[i],
    ) by {
        assert(seen1.skip(seen_pre.len() as int)[i - seen_pre.len()] == seen1[i]);
        assert(pend1.skip(pending_mid.len() as int)[i - seen_pre.len()] == pend1[pending_mid.len()
            + (i - seen_pre.len())]);
    }
    // seen still splits into keys and pending
    assert(seen1.to_set() =~= spec_keys_of(view1).to_set().union(pend1.to_set())) by {
        assert forall|x: Seq<char>| seen1.to_set().contains(x) implies spec_keys_of(
            view1,
        ).to_set().contains(x) || pend1.to_set().contains(x) by {
            if seen_pre.to_set().contains(x) {
                if spec_keys_of(view_pre).to_set().contains(x) {
                    let ix = choose|ix: int|
                        0 <= ix < view_pre.len() && spec_keys_of(view_pre)[ix] == x;
                    if ix < p {
                        assert(spec_keys_of(view1)[ix] == view1[ix].0);
                    } else {
                        assert(spec_keys_of(view1)[ix + 1] == view1[ix + 1].0);
                        assert(view1[ix + 1] == view_pre[ix]);
                    }
                    assert(spec_keys_of(view1).to_set().contains(x));
                } else {
                    assert(pending_pre.to_set().contains(x));
                    let ix = choose|ix: int|
                        0 <= ix < pending_pre.len() && pending_pre[ix] == x;
                    if ix == 0 {
                        assert(x == name_v);
                        assert(spec_keys_of(view1)[p] == view1[p].0);
                        assert(spec_keys_of(view1).to_set().contains(x));
                    } else {
                        assert(pending_mid[ix - 1] == x);
                        assert(pend1[ix - 1] == x);
                        assert(pend1.contains(x));
                    }
                }
            } else {
                let ix = choose|ix: int| 0 <= ix < seen1.len() && seen1[ix] == x;
                assert(ix >= seen_pre.len()) by {
                    if ix < seen_pre.len() {
                        assert(seen_pre[ix] == x);
                        assert(seen_pre.contains(x));
                    }
                }
                assert(pend1[pending_mid.len() + (ix - seen_pre.len())] == pend1.skip(
                    pending_mid.len() as int,
                )[ix - seen_pre.len()]);
                assert(seen1.skip(seen_pre.len() as int)[ix - seen_pre.len()] == x);
                assert(pend1.contains(x)) by {
                    assert(pend1[pending_mid.len() + (ix - seen_pre.len())] == x);
                }
            }
        }
        assert forall|x: Seq<char>|
            spec_keys_of(view1).to_set().contains(x) || pend1.to_set().contains(x) implies
            seen1.to_set().contains(x) by {
            if spec_keys_of(view1).to_set().contains(x) {
                let jx = choose|jx: int|
                    0 <= jx < view1.len() && spec_keys_of(view1)[jx] == x;
                if jx == p {
                    assert(seen1[name_ix] == name_v);
                    assert(seen1.contains(name_v));
                    assert(x == name_v);
                } else {
                    let ix: int = if jx < p { jx } else { jx - 1 };
                    assert(view1[jx] == view_pre[ix]);
                    assert(spec_keys_of(view_pre)[ix] == view_pre[ix].0);
                    assert(spec_keys_of(view_pre).to_set().contains(x));
                    assert(seen_pre.to_set().contains(x));
                    let sx = choose|sx: int| 0 <= sx < seen_pre.len() && seen_pre[sx] == x;
                    assert(seen1[sx] == x);
                }
            } else {
                let ix = choose|ix: int| 0 <= ix < pend1.len() && pend1[ix] == x;
                if ix < pending_mid.len() {
                    assert(pending_mid[ix] == x);
                    assert(pending_pre[ix + 1] == x);
                    assert(pending_pre.contains(x));
                    assert(seen_pre.to_set().contains(x));
                    let sx = choose|sx: int| 0 <= sx < seen_pre.len() && seen_pre[sx] == x;
                    assert(seen1[sx] == x);
                } else {
                    assert(needed_new.contains(pend1[ix]));
                    assert(needed_new.to_set().contains(x));
                    assert(seen1.to_set().contains(x));
                }
            }
        }
    }
    // keys and pending stay disjoint
    assert forall|k: Seq<char>| spec_has_key(view1, k) implies !pend1.contains(k) by {
        if pend1.contains(k) {
            let px = choose|px: int| 0 <= px < pend1.len() && pend1[px] == k;
            let jx = choose|jx: int| 0 <= jx < view1.len() && view1[jx].0 == k;
            if px < pending_mid.len() {
                assert(pending_mid[px] == k);
                assert(pending_pre[px + 1] == k);
                assert(pending_pre.contains(k));
                if jx == p {
                    assert(k == name_v);
                    assert(pending_pre[0] == name_v);
                    assert(false);
                } else {
                    let i: int = if jx < p { jx } else { jx - 1 };
                    assert(view1[jx] == view_pre[i]);
                    assert(spec_has_key(view_pre, k)) by {
                        assert(view_pre[i].0 == k);
                    }
                }
            } else {
                assert(!seen_pre.contains(pend1[px]));
                if jx == p {
                    assert(k == name_v);
                    assert(seen_pre[name_ix] == name_v);
                } else {
                    let i: int = if jx < p { jx } else { jx - 1 };
                    assert(view1[jx] == view_pre[i]);
                    assert(spec_keys_of(view_pre)[i] == view_pre[i].0);
                    assert(spec_keys_of(view_pre).to_set().contains(k));
                    assert(seen_pre.to_set().contains(k));
                }
            }
        }
    }
    // every value is its probe outcome
    assert forall|i: int|
        0 <= i < view1.len() implies (#[trigger] view1[i]).1 == spec_probe(
        files,
        dirs,
        view1[i].0,
    ) by {
        if i != p {
            let j: int = if i < p { i } else { i - 1 };
            assert(view1[i] == view_pre[j]);
            assert(view_pre[j].1 == spec_probe(files, dirs, view_pre[j].0));
        }
    }
    // roots stay seen
    assert forall|n: Seq<char>| roots.contains(n) implies seen1.contains(n) by {
        assert(seen_pre.contains(n));
        let ix = choose|ix: int| 0 <= ix < seen_pre.len() && seen_pre[ix] == n;
        assert(seen1[ix] == n);
    }
    // needs of every recorded image stay seen
    assert forall|i: int, n: Seq<char>|
        0 <= i < view1.len() && #[trigger] spec_opt_needs(view1[i].1, n) implies seen1.contains(
        n,
    ) by {
        if i == p {
            assert(needed_new.contains(n));
            assert(needed_new.to_set().contains(n));
            assert(seen1.to_set().contains(n));
        } else {
            let j: int = if i < p { i } else { i - 1 };
            assert(view1[i] == view_pre[j]);
            assert(spec_opt_needs(view_pre[j].1, n));
            assert(seen_pre.contains(n));
            let ix = choose|ix: int| 0 <= ix < seen_pre.len() && seen_pre[ix] == n;
            assert(seen1[ix] == n);
        }
    }
    // the seen set stays inside the universe
    assert forall|x: Seq<char>| seen1.to_set().contains(x) implies uni.contains(x) by {
        if seen_pre.to_set().contains(x) {
            assert(uni.contains(x));
        } else {
            assert(needed_new.to_set().contains(x));
            match spec_probe(files, dirs, name_v) {
                Some(m) => {
                    assert(spec_needed(m).to_set().subset_of(spec_universe_files(files)));
                    assert(spec_universe_files(files).contains(x));
                    assert(uni.contains(x));
                },
                None => {
                    assert(needed_new.len() == 0);
                    assert(!needed_new.contains(x));
                    assert(false);
                },
            }
        }
    }
    // every seen name is a root need or a need of some recorded image
    assert forall|n: Seq<char>| #[trigger] seen1.contains(n) implies roots.contains(n)
        || spec_entry_needs(view1, n) by {
        let ix = choose|ix: int| 0 <= ix < seen1.len() && seen1[ix] == n;
        if ix < seen_pre.len() {
            assert(seen_pre[ix] == n);
            assert(seen_pre.contains(n));
            if !roots.contains(n) {
                assert(spec_entry_needs(view_pre, n));
                let j = choose|j: int| 0 <= j < view_pre.len() && spec_opt_needs(view_pre[j].1, n);
                if j < p {
                    assert(view1[j] == view_pre[j]);
                    assert(spec_opt_needs(view1[j].1, n));
                } else {
                    assert(view1[j + 1] == view_pre[j]);
                    assert(spec_opt_needs(view1[j + 1].1, n));
                }
            }
        } else {
            assert(needed_new.contains(n));
            match spec_probe(files, dirs, name_v) {
                Some(m) => {
                    assert(view1[p].1 == Some(m));
                    assert(spec_opt_needs(view1[p].1, n));
                },
                None => {
                    assert(needed_new.len() == 0);
                    assert(false);
                },
            }
        }
    }
    assert(seen1.len() >= seen_pre.len());
}

/// Recursively resolves the dependency closure of `summ` over `files`,
/// probing the search path for every needed name met on the walk. The
/// keys are exactly the walked names, each once, in lexicographic order:
/// every need of the root and of every resolved image is a key, and every
/// key is a need of the root or of some resolved image. Each value is the
/// probe outcome, `None` exactly when no directory held a readable ELF
/// under the name. A needed name equal to the root's own name is resolved
/// like any other; a static root yields an empty map. The walk terminates
/// on every input, cycles and self-loops included, because a name is
/// marked seen when it is first enqueued and never enqueued again.
#[verifier::loop_isolation(false)]
#[verifier::rlimit(60)]
pub fn resolve_dependencies(search_path: &Vec<String>, summ: &ElfSummary, files: &FileTable)
    -> (r: DependencyMap)
    ensures
        r.wf(),
        forall|i: int|
            0 <= i < r@.len() ==> (#[trigger] r@[i]).1 == spec_probe(
                files@,
                search_path@.map_values(|d: String| d@),
                r@[i].0,
            ),
        forall|n: Seq<char>| spec_needed(summ@).contains(n) ==> r.contains_key(n),
        forall|i: int, n: Seq<char>|
            0 <= i < r@.len() && #[trigger] spec_opt_needs(r@[i].1, n) ==> r.contains_key(n),
        forall|i: int|
            0 <= i < r@.len() ==> spec_needed(summ@).contains((#[trigger] r@[i]).0)
                || spec_entry_needs(r@, r@[i].0),
        spec_needed(summ@).len() == 0 ==> r@.len() == 0,
{
    let ghost dirs = search_path@.map_values(|d: String| d@);
    let ghost roots = spec_needed(summ@);
    let ghost uni = spec_universe(files@, summ@);
    proof {
        lemma_universe_finite(files@, summ@);
    }
    let mut res = DependencyMap::new();
    let mut queue = WorkQueue::new();
    queue.add_dependencies(summ);
    proof {
        lemma_enqueue(Seq::empty(), Seq::empty(), roots);
        assert(queue.pending() =~= queue.seen()) by {
            assert(queue.pending().skip(0) =~= queue.pending());
            assert(queue.seen().skip(0) =~= queue.seen());
        }
        assert(queue.seen().to_set() == Seq::<Seq<char>>::empty().to_set().union(roots.to_set()));
        assert(queue.seen().to_set() =~= roots.to_set()) by {
            assert(Seq::<Seq<char>>::empty().to_set() =~= Set::<Seq<char>>::empty()) by {
                assert(forall|x: Seq<char>| !Seq::<Seq<char>>::empty().contains(x));
            }
        }
        assert(queue.seen().to_set() =~= res.key_seq().to_set().union(queue.pending().to_set()))
            by {
            assert(res.key_seq().to_set() =~= Set::<Seq<char>>::empty()) by {
                assert(res.key_seq().len() == 0);
                assert(forall|x: Seq<char>| !res.key_seq().contains(x));
            }
        }
        assert forall|n: Seq<char>| roots.contains(n) implies queue.seen().contains(n) by {
            assert(roots.to_set().contains(n));
            assert(queue.seen().to_set().contains(n));
        }
        assert(queue.seen().to_set().subset_of(uni)) by {
            assert forall|x: Seq<char>| queue.seen().to_set().contains(x) implies uni.contains(
                x,
            ) by {
                assert(roots.to_set().contains(x));
            }
        }
        assert(roots.len() == 0 ==> queue.seen().len() == 0);
        assert forall|n: Seq<char>| #[trigger] queue.seen().contains(n) implies roots.contains(
            n,
        ) || spec_entry_needs(res@, n) by {
            assert(queue.seen().to_set().contains(n));
            assert(roots.to_set().contains(n));
        }
    }
    while queue.has_work()
        invariant
            queue.wf(),
            res.wf(),
            queue.seen().to_set() == res.key_seq().to_set().union(queue.pending().to_set()),
            forall|k: Seq<char>| res.contains_key(k) ==> !queue.pending().contains(k),
            forall|i: int|
                0 <= i < res@.len() ==> (#[trigger] res@[i]).1 == spec_probe(
                    files@,
                    dirs,
                    res@[i].0,
                ),
            forall|n: Seq<char>| roots.contains(n) ==> queue.seen().contains(n),
            forall|i: int, n: Seq<char>|
                0 <= i < res@.len() && #[trigger] spec_opt_needs(res@[i].1, n)
                    ==> queue.seen().contains(n),
            queue.seen().to_set().subset_of(uni),
            uni.finite(),
            roots.len() == 0 ==> queue.seen().len() == 0,
            forall|n: Seq<char>|
                #[trigger] queue.seen().contains(n) ==> roots.contains(n) || spec_entry_needs(
                    res@,
                    n,
                ),
        decreases uni.len() - queue.seen().len(), queue.pending().len(),
    {
        proof {
            assert(spec_queue_wf(queue.seen(), queue.pending()));
            assert(queue.seen().no_duplicates());
            queue.seen().unique_seq_to_set();
            vstd::set_lib::lemma_len_subset(queue.seen().to_set(), uni);
        }
        let ghost seen_pre = queue.seen();
        let ghost pending_pre = queue.pending();
        let ghost view_pre = res@;
        proof {
            assert forall|k: Seq<char>|
                spec_has_key(view_pre, k) implies !pending_pre.contains(k) by {
                let i = choose|i: int| 0 <= i < view_pre.len() && view_pre[i].0 == k;
                assert(res@[i].0 == k);
                assert(res.contains_key(k));
            }
        }
        let nxt = queue.take_work();
        let dep_name = match nxt {
            None => {
                proof {
                    assert(false);
                }
                vstd::pervasive::unreached()
            },
            Some(n) => n,
        };
        let ghost name_v = dep_name@;
        proof {
            assert(pending_pre.contains(name_v)) by {
                assert(pending_pre[0] == name_v);
            }
            assert(!res.contains_key(name_v));
            assert(seen_pre.contains(name_v));
            assert(roots.len() != 0);
        }
        let outcome = analyze_one_dependency(search_path, &dep_name, files);
        let ghost probe_res = spec_probe(files@, dirs, name_v);
        let ghost needed_new = (match probe_res {
            Some(m) => spec_needed(m),
            None => Seq::<Seq<char>>::empty(),
        });
        match outcome {
            Err(_) => {
                proof {
                    assert((queue.seen(), queue.pending()) == spec_enqueue(
                        seen_pre,
                        pending_pre.skip(1),
                        needed_new,
                    ));
                }
                res.insert(dep_name, None);
            },
            Ok(dep_summary) => {
                queue.add_dependencies(&dep_summary);
                proof {
                    assert(probe_res == Some(dep_summary@));
                    assert(needed_new == spec_needed(dep_summary@));
                }
                res.insert(dep_name, Some(dep_summary));
            },
        }
        proof {
            let p = choose|p: int|
                0 <= p <= view_pre.len() && res@ == view_pre.subrange(0, p).push(
                    (name_v, probe_res),
                ) + view_pre.subrange(p, view_pre.len() as int);
            lemma_resolve_step(
                files@,
                dirs,
                roots,
                uni,
                seen_pre,
                pending_pre,
                view_pre,
                name_v,
                needed_new,
                queue.seen(),
                queue.pending(),
                res@,
                p,
            );
            queue.seen().unique_seq_to_set();
            vstd::set_lib::lemma_len_subset(queue.seen().to_set(), uni);
        }
    }
    proof {
        assert(queue.seen().to_set() =~= res.key_seq().to_set()) by {
            assert(queue.pending().to_set() =~= Set::<Seq<char>>::empty()) by {
                assert forall|x: Seq<char>| !queue.pending().to_set().contains(x) by {
                    if queue.pending().contains(x) {
                        let ix = choose|ix: int|
                            0 <= ix < queue.pending().len() && queue.pending()[ix] == x;
                    }
                }
            }
        }
        assert forall|n: Seq<char>| roots.contains(n) implies res.contains_key(n) by {
            assert(queue.seen().contains(n));
            assert(queue.seen().to_set().contains(n));
            assert(res.key_seq().to_set().contains(n));
            let ix = choose|ix: int| 0 <= ix < res.key_seq().len() && res.key_seq()[ix] == n;
            assert(res@[ix].0 == n);
        }
        assert forall|i: int, n: Seq<char>|
            0 <= i < res@.len() && #[trigger] spec_opt_needs(res@[i].1, n) implies res.contains_key(
            n,
        ) by {
            assert(queue.seen().contains(n));
            assert(queue.seen().to_set().contains(n));
            assert(res.key_seq().to_set().contains(n));
            let ix = choose|ix: int| 0 <= ix < res.key_seq().len() && res.key_seq()[ix] == n;
            assert(res@[ix].0 == n);
        }
        assert forall|i: int|
            0 <= i < res@.len() implies roots.contains((#[trigger] res@[i]).0)
            || spec_entry_needs(res@, res@[i].0) by {
            assert(res.key_seq()[i] == res@[i].0);
            assert(res.key_seq().contains(res@[i].0));
            assert(res.key_seq().to_set().contains(res@[i].0));
            assert(queue.seen().to_set().contains(res@[i].0));
            assert(queue.seen().contains(res@[i].0));
        }
        if roots.len() == 0 && res@.len() > 0 {
            assert(res.key_seq().contains(res.key_seq()[0]));
            assert(res.key_seq().to_set().contains(res.key_seq()[0]));
            assert(queue.seen().to_set().contains(res.key_seq()[0]));
            assert(queue.seen().contains(res.key_seq()[0]));
            assert(false);
        }
    }
    res
}

} // verus!
