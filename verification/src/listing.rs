//! File listings in the order of their paths.
use vstd::prelude::*;
use crate::filter;
use crate::filter::FileFilter;
use crate::paths;
use crate::paths::PathFault;
use crate::text;

verus! {

/// One line of a listing: a path, its size in bytes and its number of chunks.
#[derive(Debug)]
pub struct ListEntry {
    pub path: String,
    pub size: u64,
    pub chunks: usize,
}

/// What an entry says.
pub type EntryModel = (Seq<char>, u64, usize);

impl ListEntry {
    /// What this entry says.
    pub open spec fn model(self) -> EntryModel {
        (self.path@, self.size, self.chunks)
    }
}

/// What the entries of a list say.
pub open spec fn models(entries: Seq<ListEntry>) -> Seq<EntryModel> {
    Seq::new(entries.len(), |i: int| entries[i].model())
}

/// Whether position `i` goes before position `j`: by path, and in the given
/// order where the paths are equal.
pub open spec fn goes_first(entries: Seq<EntryModel>, i: int, j: int) -> bool {
    text::before(entries[i].0, entries[j].0) || (entries[i].0 == entries[j].0 && i < j)
}

/// Whether `order` lists every position of `entries`, each before those that it
/// goes first of.
pub open spec fn orders(entries: Seq<EntryModel>, order: Seq<int>) -> bool {
    &&& order.len() == entries.len()
    &&& forall|k: int| 0 <= k < order.len() ==> 0 <= #[trigger] order[k] < entries.len()
    &&& forall|i: int| 0 <= i < entries.len() ==> #[trigger] order.contains(i)
    &&& forall|k: int, l: int|
        0 <= k < l < order.len() ==> goes_first(entries, #[trigger] order[k], #[trigger] order[l])
}

/// Whether `sorted` is `entries` in the order of the paths, with entries of one
/// path in the order in which they stood.
pub open spec fn is_sorted_from(entries: Seq<EntryModel>, sorted: Seq<EntryModel>) -> bool {
    exists|order: Seq<int>|
        #[trigger] orders(entries, order) && sorted == order.map_values(|i: int| entries[i])
}

/// The characters of the paths of a list.
spec fn keys_of(keys: Seq<Vec<char>>, entries: Seq<EntryModel>) -> bool {
    &&& keys.len() == entries.len()
    &&& forall|i: int| 0 <= i < keys.len() ==> (#[trigger] keys[i])@ == entries[i].0
}

/// A run of positions: in range, and each before those that it goes first of.
spec fn is_run(entries: Seq<EntryModel>, run: Seq<usize>) -> bool {
    &&& forall|k: int| 0 <= k < run.len() ==> #[trigger] run[k] < entries.len()
    &&& forall|k: int, l: int|
        0 <= k < l < run.len() ==> goes_first(
            entries,
            #[trigger] run[k] as int,
            #[trigger] run[l] as int,
        )
}

/// The order of positions is transitive.
proof fn lemma_goes_first_transitive(entries: Seq<EntryModel>, i: int, j: int, k: int)
    requires
        goes_first(entries, i, j),
        goes_first(entries, j, k),
    ensures
        goes_first(entries, i, k),
{
    if text::before(entries[i].0, entries[j].0) && text::before(entries[j].0, entries[k].0) {
        text::lemma_before_transitive(entries[i].0, entries[j].0, entries[k].0);
    }
}

/// Of two different positions one goes first.
proof fn lemma_goes_first_total(entries: Seq<EntryModel>, i: int, j: int)
    requires
        i != j,
    ensures
        goes_first(entries, i, j) || goes_first(entries, j, i),
{
    text::lemma_before_total(entries[i].0, entries[j].0);
}

/// Whether position `i` goes before position `j`.
fn leads(keys: &Vec<Vec<char>>, i: usize, j: usize, Ghost(entries): Ghost<Seq<EntryModel>>) -> (r:
    bool)
    requires
        keys_of(keys@, entries),
        i < entries.len(),
        j < entries.len(),
    ensures
        r == goes_first(entries, i as int, j as int),
{
    if text::comes_before(keys[i].as_slice(), keys[j].as_slice()) {
        true
    } else {
        text::same_chars(keys[i].as_slice(), keys[j].as_slice()) && i < j
    }
}

/// Adds one position behind a run.
proof fn lemma_extend_run(entries: Seq<EntryModel>, run: Seq<usize>, next: usize)
    requires
        is_run(entries, run),
        next < entries.len(),
        run.len() > 0 ==> goes_first(entries, run.last() as int, next as int),
    ensures
        is_run(entries, run.push(next)),
{
    let longer = run.push(next);
    assert forall|k: int, l: int| 0 <= k < l < longer.len() implies goes_first(
        entries,
        #[trigger] longer[k] as int,
        #[trigger] longer[l] as int,
    ) by {
        if l == run.len() && k < run.len() - 1 {
            assert(goes_first(entries, run[k] as int, run.last() as int));
            lemma_goes_first_transitive(entries, run[k] as int, run.last() as int, next as int);
        }
    }
}

/// Merges two runs that have no position in common.
fn merge(
    keys: &Vec<Vec<char>>,
    a: &Vec<usize>,
    b: &Vec<usize>,
    Ghost(entries): Ghost<Seq<EntryModel>>,
) -> (out: Vec<usize>)
    requires
        keys_of(keys@, entries),
        is_run(entries, a@),
        is_run(entries, b@),
        forall|k: int, l: int|
            0 <= k < a@.len() && 0 <= l < b@.len() ==> #[trigger] a@[k] != #[trigger] b@[l],
        a@.len() + b@.len() <= usize::MAX,
    ensures
        is_run(entries, out@),
        out@.len() == a@.len() + b@.len(),
        forall|k: int| 0 <= k < a@.len() ==> out@.contains(#[trigger] a@[k]),
        forall|l: int| 0 <= l < b@.len() ==> out@.contains(#[trigger] b@[l]),
{
    let mut out: Vec<usize> = Vec::new();
    let mut i: usize = 0;
    let mut j: usize = 0;
    while i < a.len() || j < b.len()
        invariant
            keys_of(keys@, entries),
            is_run(entries, a@),
            is_run(entries, b@),
            forall|k: int, l: int|
                0 <= k < a@.len() && 0 <= l < b@.len() ==> #[trigger] a@[k] != #[trigger] b@[l],
            i <= a@.len(),
            j <= b@.len(),
            a@.len() + b@.len() <= usize::MAX,
            out@.len() == i + j,
            is_run(entries, out@),
            forall|k: int| 0 <= k < i ==> out@.contains(#[trigger] a@[k]),
            forall|l: int| 0 <= l < j ==> out@.contains(#[trigger] b@[l]),
            out@.len() > 0 && i < a@.len() ==> goes_first(
                entries,
                out@.last() as int,
                a@[i as int] as int,
            ),
            out@.len() > 0 && j < b@.len() ==> goes_first(
                entries,
                out@.last() as int,
                b@[j as int] as int,
            ),
        decreases a@.len() - i + b@.len() - j,
    {
        let ghost was = out@;
        let from_a = if j >= b.len() {
            true
        } else if i >= a.len() {
            false
        } else {
            leads(keys, a[i], b[j], Ghost(entries))
        };
        let next = if from_a {
            a[i]
        } else {
            b[j]
        };
        proof {
            if i < a@.len() && j < b@.len() {
                assert(a@[i as int] != b@[j as int]);
                lemma_goes_first_total(entries, a@[i as int] as int, b@[j as int] as int);
            }
            lemma_extend_run(entries, out@, next);
        }
        out.push(next);
        proof {
            assert forall|x: usize| was.contains(x) implies out@.contains(x) by {
                let k = choose|k: int| 0 <= k < was.len() && was[k] == x;
                assert(out@[k] == x);
            }
            assert(out@[out@.len() - 1] == next);
        }
        if from_a {
            i = i + 1;
        } else {
            j = j + 1;
        }
    }
    out
}

/// The run of the positions from `from` up to `to`.
fn sort_range(
    keys: &Vec<Vec<char>>,
    from: usize,
    to: usize,
    Ghost(entries): Ghost<Seq<EntryModel>>,
) -> (run: Vec<usize>)
    requires
        keys_of(keys@, entries),
        from <= to <= entries.len(),
        entries.len() <= usize::MAX,
    ensures
        is_run(entries, run@),
        run@.len() == to - from,
        forall|k: int| 0 <= k < run@.len() ==> from <= #[trigger] run@[k] < to,
        forall|i: usize| from <= i < to ==> #[trigger] run@.contains(i),
    decreases to - from,
{
    let mut run: Vec<usize> = Vec::new();
    if to - from == 0 {
        return run;
    }
    if to - from == 1 {
        run.push(from);
        assert(run@[0] == from);
        return run;
    }
    let middle = from + (to - from) / 2;
    let a = sort_range(keys, from, middle, Ghost(entries));
    let b = sort_range(keys, middle, to, Ghost(entries));
    let merged = merge(keys, &a, &b, Ghost(entries));
    proof {
        lemma_merged_covers(a@, b@, merged@, from, middle, to);
    }
    merged
}

/// What covers two neighbouring ranges covers both, and nothing else fits in.
proof fn lemma_merged_covers(
    a: Seq<usize>,
    b: Seq<usize>,
    merged: Seq<usize>,
    from: usize,
    middle: usize,
    to: usize,
)
    requires
        from <= middle <= to,
        a.len() == middle - from,
        b.len() == to - middle,
        merged.len() == a.len() + b.len(),
        forall|i: usize| from <= i < middle ==> #[trigger] a.contains(i),
        forall|i: usize| middle <= i < to ==> #[trigger] b.contains(i),
        forall|k: int| 0 <= k < a.len() ==> merged.contains(#[trigger] a[k]),
        forall|l: int| 0 <= l < b.len() ==> merged.contains(#[trigger] b[l]),
    ensures
        forall|i: usize| from <= i < to ==> #[trigger] merged.contains(i),
        forall|k: int| 0 <= k < merged.len() ==> from <= #[trigger] merged[k] < to,
{
    assert forall|i: usize| from <= i < to implies #[trigger] merged.contains(i) by {
        if i < middle {
            assert(a.contains(i));
        } else {
            assert(b.contains(i));
        }
    }
    lemma_only_the_range(merged, from as int, to as int);
}

/// A list as long as a range that holds all of it holds nothing else.
proof fn lemma_only_the_range(s: Seq<usize>, from: int, to: int)
    requires
        0 <= from <= to <= usize::MAX,
        s.len() == to - from,
        forall|i: usize| from <= i < to ==> #[trigger] s.contains(i),
    ensures
        forall|k: int| 0 <= k < s.len() ==> from <= #[trigger] s[k] < to,
    decreases to - from,
{
    if from < to {
        let last = (to - 1) as usize;
        assert(s.contains(last));
        let p = choose|p: int| 0 <= p < s.len() && s[p] == last;
        let rest = s.remove(p);
        assert forall|i: usize| from <= i < to - 1 implies #[trigger] rest.contains(i) by {
            assert(s.contains(i));
            let q = choose|q: int| 0 <= q < s.len() && s[q] == i;
            if q < p {
                assert(rest[q] == i);
            } else {
                assert(rest[q - 1] == i);
            }
        }
        lemma_only_the_range(rest, from, to - 1);
        assert forall|k: int| 0 <= k < s.len() implies from <= #[trigger] s[k] < to by {
            if k < p {
                assert(rest[k] == s[k]);
            } else if k > p {
                assert(rest[k - 1] == s[k]);
            }
        }
    }
}

/// Sorts a list by path; entries with equal paths keep their order.
pub fn sort_by_path(entries: &Vec<ListEntry>) -> (sorted: Vec<ListEntry>)
    ensures
        is_sorted_from(models(entries@), models(sorted@)),
{
    let ghost all = models(entries@);
    let mut keys: Vec<Vec<char>> = Vec::new();
    let mut i: usize = 0;
    while i < entries.len()
        invariant
            i <= entries@.len(),
            all == models(entries@),
            keys@.len() == i,
            forall|j: int| 0 <= j < i ==> (#[trigger] keys@[j])@ == all[j].0,
        decreases entries@.len() - i,
    {
        keys.push(text::to_chars(entries[i].path.as_str()));
        i = i + 1;
    }
    let run = sort_range(&keys, 0, entries.len(), Ghost(all));
    let mut sorted: Vec<ListEntry> = Vec::new();
    let mut k: usize = 0;
    while k < run.len()
        invariant
            k <= run@.len(),
            all == models(entries@),
            sorted@.len() == k,
            forall|l: int| 0 <= l < run@.len() ==> #[trigger] run@[l] < entries@.len(),
            forall|l: int| 0 <= l < k ==> (#[trigger] sorted@[l]).model() == all[run@[l] as int],
        decreases run@.len() - k,
    {
        let entry = &entries[run[k]];
        sorted.push(
            ListEntry { path: entry.path.clone(), size: entry.size, chunks: entry.chunks },
        );
        assert(sorted@[k as int].model() == all[run@[k as int] as int]);
        k = k + 1;
    }
    proof {
        let order = run@.map_values(|i: usize| i as int);
        assert(order.len() == run@.len());
        assert forall|i: int| 0 <= i < all.len() implies #[trigger] order.contains(i) by {
            assert(run@.contains(i as usize));
            let k = choose|k: int| 0 <= k < run@.len() && run@[k] == i as usize;
            assert(order[k] == i);
        }
        assert forall|k: int, l: int| 0 <= k < l < order.len() implies goes_first(
            all,
            #[trigger] order[k],
            #[trigger] order[l],
        ) by {
            assert(goes_first(all, run@[k] as int, run@[l] as int));
        }
        assert(orders(all, order));
        assert(models(sorted@) =~= order.map_values(|i: int| all[i]));
    }
    sorted
}

// ---------------------------------------------------------------------------
// Collecting
// ---------------------------------------------------------------------------

/// Whether a filter, if there is one, keeps a path.
pub open spec fn passes(filter: Option<&FileFilter>, path: Seq<char>) -> bool {
    match filter {
        Some(f) => filter::keeps(f.conditions(), f.inverted(), path),
        None => true,
    }
}

/// Computes `passes`.
pub fn let_through(filter: Option<&FileFilter>, path: &str) -> (r: bool)
    ensures
        r == passes(filter, path@),
{
    match filter {
        Some(f) => f.matches(path),
        None => true,
    }
}

/// What a manifest says of one of its entries.
pub struct Found {
    pub path: Result<Seq<char>, PathFault>,
    pub directory: bool,
    pub size: u64,
    pub chunks: usize,
}

/// What a manifest comes to: the files to list, and what was left out.
#[derive(Debug)]
pub struct Tally {
    pub entries: Vec<ListEntry>,
    pub dir_count: usize,
    pub filtered_out: usize,
    /// The paths that could not be read.
    pub faults: Vec<PathFault>,
}

/// What a tally says.
pub struct TallyModel {
    pub entries: Seq<EntryModel>,
    pub dir_count: nat,
    pub filtered_out: nat,
    pub faults: Seq<PathFault>,
}

impl Tally {
    /// What this tally says.
    pub open spec fn model(self) -> TallyModel {
        TallyModel {
            entries: models(self.entries@),
            dir_count: self.dir_count as nat,
            filtered_out: self.filtered_out as nat,
            faults: self.faults@,
        }
    }

    /// An empty tally.
    pub fn new() -> (tally: Tally)
        ensures
            tally.model() == empty_tally(),
    {
        let tally = Tally {
            entries: Vec::new(),
            dir_count: 0,
            filtered_out: 0,
            faults: Vec::new(),
        };
        assert(models(tally.entries@) =~= Seq::empty());
        tally
    }

    /// Takes one entry of a manifest into account. Directories are counted
    /// whether or not the filter would keep them.
    pub fn add_entry(
        &mut self,
        path: Result<String, PathFault>,
        directory: bool,
        size: u64,
        chunks: usize,
        filter: Option<&FileFilter>,
    )
        requires
            old(self).dir_count < usize::MAX,
            old(self).filtered_out < usize::MAX,
        ensures
            final(self).model() == tallied(
                old(self).model(),
                (Found { path: paths::path_in(path), directory, size, chunks }),
                filter,
            ),
            final(self).dir_count <= old(self).dir_count + 1,
            final(self).filtered_out <= old(self).filtered_out + 1,
    {
        match path {
            Err(fault) => {
                self.faults.push(fault);
            },
            Ok(path) => {
                if directory {
                    self.dir_count = self.dir_count + 1;
                } else if !let_through(filter, path.as_str()) {
                    self.filtered_out = self.filtered_out + 1;
                } else {
                    let ghost before = self.entries@;
                    let entry = ListEntry { path, size, chunks };
                    let ghost model = entry.model();
                    self.entries.push(entry);
                    assert(models(self.entries@) =~= models(before).push(model));
                }
            },
        }
    }

    /// This tally with its entries in the order of their paths.
    pub fn sorted(self) -> (tally: Tally)
        ensures
            is_sorted_from(models(self.entries@), models(tally.entries@)),
            tally.dir_count == self.dir_count,
            tally.filtered_out == self.filtered_out,
            tally.faults == self.faults,
    {
        let entries = sort_by_path(&self.entries);
        Tally {
            entries,
            dir_count: self.dir_count,
            filtered_out: self.filtered_out,
            faults: self.faults,
        }
    }

    /// The sum of the sizes of the entries.
    pub fn total_size(&self) -> (total: u128)
        ensures
            total == size_sum(models(self.entries@)),
    {
        let ghost all = models(self.entries@);
        let mut total: u128 = 0;
        let mut i: usize = 0;
        assert(all.take(0) =~= Seq::empty());
        while i < self.entries.len()
            invariant
                i <= self.entries@.len(),
                all == models(self.entries@),
                total == size_sum(all.take(i as int)),
                total <= i * 0xffff_ffff_ffff_ffff,
            decreases self.entries@.len() - i,
        {
            proof {
                assert(all.take(i + 1).drop_last() =~= all.take(i as int));
                assert(i < 0xffff_ffff_ffff_ffff);
            }
            total = total + self.entries[i].size as u128;
            i = i + 1;
        }
        assert(all.take(i as int) =~= all);
        total
    }
}

/// The tally of nothing.
pub open spec fn empty_tally() -> TallyModel {
    TallyModel {
        entries: Seq::empty(),
        dir_count: 0,
        filtered_out: 0,
        faults: Seq::empty(),
    }
}

/// A tally with one more entry taken into account.
pub open spec fn tallied(
    tally: TallyModel,
    found: Found,
    filter: Option<&FileFilter>,
) -> TallyModel {
    match found.path {
        Err(fault) => TallyModel { faults: tally.faults.push(fault), ..tally },
        Ok(path) => if found.directory {
            TallyModel { dir_count: tally.dir_count + 1, ..tally }
        } else if !passes(filter, path) {
            TallyModel { filtered_out: tally.filtered_out + 1, ..tally }
        } else {
            TallyModel { entries: tally.entries.push((path, found.size, found.chunks)), ..tally }
        },
    }
}

/// The tally of a list of entries, taken into account one after the other.
pub open spec fn tally_all(found: Seq<Found>, filter: Option<&FileFilter>) -> TallyModel
    decreases found.len(),
{
    if found.len() == 0 {
        empty_tally()
    } else {
        tallied(tally_all(found.drop_last(), filter), found.last(), filter)
    }
}

/// The sum of the sizes of a list of entries.
pub open spec fn size_sum(entries: Seq<EntryModel>) -> nat
    decreases entries.len(),
{
    if entries.len() == 0 {
        0
    } else {
        size_sum(entries.drop_last()) + entries.last().1 as nat
    }
}

// ---------------------------------------------------------------------------
// Laws
// ---------------------------------------------------------------------------

/// Whether no two entries have the same path.
pub open spec fn distinct_paths(entries: Seq<EntryModel>) -> bool {
    forall|i: int, j: int|
        0 <= i < j < entries.len() ==> (#[trigger] entries[i]).0 != (#[trigger] entries[j]).0
}

/// Whether the paths of a list rise.
pub open spec fn rising(entries: Seq<EntryModel>) -> bool {
    forall|i: int, j: int|
        0 <= i < j < entries.len() ==> text::before(
            (#[trigger] entries[i]).0,
            (#[trigger] entries[j]).0,
        )
}

/// Whether two lists hold the same entries.
pub open spec fn same_entries(a: Seq<EntryModel>, b: Seq<EntryModel>) -> bool {
    forall|e: EntryModel| #[trigger] a.contains(e) == b.contains(e)
}

/// Sorting neither loses nor adds entries, and puts paths in order.
pub proof fn law_sorting_keeps_entries(entries: Seq<EntryModel>, sorted: Seq<EntryModel>)
    requires
        is_sorted_from(entries, sorted),
    ensures
        sorted.len() == entries.len(),
        same_entries(entries, sorted),
        forall|i: int, j: int|
            0 <= i < j < sorted.len() ==> !text::before(
                (#[trigger] sorted[j]).0,
                (#[trigger] sorted[i]).0,
            ),
        distinct_paths(entries) ==> rising(sorted),
{
    let order = choose|order: Seq<int>|
        #[trigger] orders(entries, order) && sorted == order.map_values(|i: int| entries[i]);
    assert forall|e: EntryModel| #[trigger] entries.contains(e) == sorted.contains(e) by {
        if entries.contains(e) {
            let i = choose|i: int| 0 <= i < entries.len() && entries[i] == e;
            assert(order.contains(i));
            let k = choose|k: int| 0 <= k < order.len() && order[k] == i;
            assert(sorted[k] == e);
        }
        if sorted.contains(e) {
            let k = choose|k: int| 0 <= k < sorted.len() && sorted[k] == e;
            assert(entries[order[k]] == e);
        }
    }
    assert forall|i: int, j: int| 0 <= i < j < sorted.len() implies !text::before(
        (#[trigger] sorted[j]).0,
        (#[trigger] sorted[i]).0,
    ) by {
        assert(goes_first(entries, order[i], order[j]));
        if text::before(sorted[j].0, sorted[i].0) {
            if text::before(sorted[i].0, sorted[j].0) {
                text::lemma_before_transitive(sorted[i].0, sorted[j].0, sorted[i].0);
            }
            text::lemma_before_irreflexive(sorted[i].0);
        }
    }
    if distinct_paths(entries) {
        assert forall|i: int, j: int| 0 <= i < j < sorted.len() implies text::before(
            (#[trigger] sorted[i]).0,
            (#[trigger] sorted[j]).0,
        ) by {
            assert(goes_first(entries, order[i], order[j]));
            if entries[order[i]].0 == entries[order[j]].0 {
                text::lemma_before_irreflexive(entries[order[i]].0);
                assert(order[i] < order[j]);
            }
        }
    }
}

/// Two rising lists with the same entries are the same list.
proof fn lemma_rising_unique(a: Seq<EntryModel>, b: Seq<EntryModel>)
    requires
        rising(a),
        rising(b),
        same_entries(a, b),
    ensures
        a == b,
    decreases a.len(),
{
    if a.len() == 0 {
        if b.len() > 0 {
            assert(b.contains(b[0]));
            assert(a.contains(b[0]));
        }
        assert(a =~= b);
    } else {
        assert(a.contains(a[0]));
        assert(b.contains(a[0]));
        let i = choose|i: int| 0 <= i < b.len() && b[i] == a[0];
        assert(b.contains(b[0]));
        assert(a.contains(b[0]));
        let j = choose|j: int| 0 <= j < a.len() && a[j] == b[0];
        if i > 0 && j > 0 {
            assert(text::before(b[0].0, b[i].0));
            assert(text::before(a[0].0, a[j].0));
            text::lemma_before_transitive(a[0].0, b[0].0, a[0].0);
            text::lemma_before_irreflexive(a[0].0);
        }
        assert(a[0] == b[0]);
        let ra = a.drop_first();
        let rb = b.drop_first();
        assert forall|x: int, y: int| 0 <= x < y < ra.len() implies text::before(
            (#[trigger] ra[x]).0,
            (#[trigger] ra[y]).0,
        ) by {
            assert(text::before(a[x + 1].0, a[y + 1].0));
        }
        assert forall|x: int, y: int| 0 <= x < y < rb.len() implies text::before(
            (#[trigger] rb[x]).0,
            (#[trigger] rb[y]).0,
        ) by {
            assert(text::before(b[x + 1].0, b[y + 1].0));
        }
        text::lemma_before_irreflexive(a[0].0);
        assert forall|e: EntryModel| #[trigger] ra.contains(e) == rb.contains(e) by {
            if ra.contains(e) {
                let k = choose|k: int| 0 <= k < ra.len() && ra[k] == e;
                assert(a[k + 1] == e);
                assert(text::before(a[0].0, a[k + 1].0));
                assert(a.contains(e));
                assert(b.contains(e));
                let l = choose|l: int| 0 <= l < b.len() && b[l] == e;
                assert(l > 0);
                assert(rb[l - 1] == e);
            }
            if rb.contains(e) {
                let k = choose|k: int| 0 <= k < rb.len() && rb[k] == e;
                assert(b[k + 1] == e);
                assert(text::before(b[0].0, b[k + 1].0));
                assert(b.contains(e));
                assert(a.contains(e));
                let l = choose|l: int| 0 <= l < a.len() && a[l] == e;
                assert(l > 0);
                assert(ra[l - 1] == e);
            }
        }
        lemma_rising_unique(ra, rb);
        assert(a =~= seq![a[0]] + ra);
        assert(b =~= seq![b[0]] + rb);
    }
}

/// A listing does not depend on the order in which its entries were found.
pub proof fn law_listing_ignores_found_order(
    a: Seq<EntryModel>,
    b: Seq<EntryModel>,
    sorted_a: Seq<EntryModel>,
    sorted_b: Seq<EntryModel>,
)
    requires
        same_entries(a, b),
        distinct_paths(a),
        distinct_paths(b),
        is_sorted_from(a, sorted_a),
        is_sorted_from(b, sorted_b),
    ensures
        sorted_a == sorted_b,
{
    law_sorting_keeps_entries(a, sorted_a);
    law_sorting_keeps_entries(b, sorted_b);
    assert forall|e: EntryModel| #[trigger] sorted_a.contains(e) == sorted_b.contains(e) by {
        assert(a.contains(e) == b.contains(e));
        assert(a.contains(e) == sorted_a.contains(e));
        assert(b.contains(e) == sorted_b.contains(e));
    }
    lemma_rising_unique(sorted_a, sorted_b);
}

/// Every list can be sorted in one way only.
pub proof fn law_sorting_is_unique(
    entries: Seq<EntryModel>,
    x: Seq<EntryModel>,
    y: Seq<EntryModel>,
)
    requires
        is_sorted_from(entries, x),
        is_sorted_from(entries, y),
    ensures
        x == y,
{
    let a = choose|order: Seq<int>|
        #[trigger] orders(entries, order) && x == order.map_values(|i: int| entries[i]);
    let b = choose|order: Seq<int>|
        #[trigger] orders(entries, order) && y == order.map_values(|i: int| entries[i]);
    lemma_order_unique(entries, a, b, 0);
    assert(a =~= b);
}

/// From a position on where two orders agree they agree.
proof fn lemma_order_unique(entries: Seq<EntryModel>, a: Seq<int>, b: Seq<int>, from: int)
    requires
        orders(entries, a),
        orders(entries, b),
        0 <= from <= a.len(),
        forall|k: int| 0 <= k < from ==> a[k] == b[k],
    ensures
        forall|k: int| 0 <= k < a.len() ==> a[k] == b[k],
    decreases a.len() - from,
{
    if from < a.len() {
        assert(b.contains(a[from]));
        assert(a.contains(b[from]));
        let i = choose|i: int| 0 <= i < b.len() && b[i] == a[from];
        let j = choose|j: int| 0 <= j < a.len() && a[j] == b[from];
        if i < from {
            assert(goes_first(entries, a[i], a[from]));
            text::lemma_before_irreflexive(entries[a[from]].0);
        }
        if j < from {
            assert(goes_first(entries, b[j], b[from]));
            text::lemma_before_irreflexive(entries[b[from]].0);
        }
        if i > from && j > from {
            assert(goes_first(entries, b[from], b[i]));
            assert(goes_first(entries, a[from], a[j]));
            lemma_goes_first_transitive(entries, a[from], b[from], a[from]);
            text::lemma_before_irreflexive(entries[a[from]].0);
        }
        lemma_order_unique(entries, a, b, from + 1);
    }
}

/// Every entry is accounted for: it is listed, a directory, filtered out, or
/// has a path that cannot be read.
pub proof fn law_every_entry_is_accounted_for(found: Seq<Found>, filter: Option<&FileFilter>)
    ensures
        ({
            let tally = tally_all(found, filter);
            tally.entries.len() + tally.dir_count + tally.filtered_out + tally.faults.len()
                == found.len()
        }),
    decreases found.len(),
{
    if found.len() > 0 {
        law_every_entry_is_accounted_for(found.drop_last(), filter);
    }
}

/// Whether two tallies agree in all but the order.
pub open spec fn same_tally(a: TallyModel, b: TallyModel) -> bool {
    &&& a.entries.to_multiset() == b.entries.to_multiset()
    &&& a.dir_count == b.dir_count
    &&& a.filtered_out == b.filtered_out
    &&& a.faults.to_multiset() == b.faults.to_multiset()
}

/// Whatever the place of an entry, it adds the same to a tally.
proof fn lemma_place_does_not_matter(found: Seq<Found>, k: int, filter: Option<&FileFilter>)
    requires
        0 <= k < found.len(),
    ensures
        same_tally(
            tally_all(found, filter),
            tallied(tally_all(found.remove(k), filter), found[k], filter),
        ),
    decreases found.len(),
{
    broadcast use vstd::seq_lib::group_to_multiset_ensures;

    let rest = found.remove(k);
    if k == found.len() - 1 {
        assert(rest =~= found.drop_last());
    } else {
        let fewer = found.drop_last();
        lemma_place_does_not_matter(fewer, k, filter);
        assert(fewer.remove(k) =~= rest.drop_last());
        assert(rest.last() == found.last());
        let inner = tally_all(rest.drop_last(), filter);
        lemma_same_tally_grows(
            tally_all(fewer, filter),
            tallied(inner, found[k], filter),
            found.last(),
            filter,
        );
        lemma_swap(inner, found[k], found.last(), filter);
    }
}

/// Tallies that agree still agree with one more entry.
proof fn lemma_same_tally_grows(
    a: TallyModel,
    b: TallyModel,
    more: Found,
    filter: Option<&FileFilter>,
)
    requires
        same_tally(a, b),
    ensures
        same_tally(tallied(a, more, filter), tallied(b, more, filter)),
{
    broadcast use vstd::seq_lib::group_to_multiset_ensures;

}

/// Two entries may change places.
proof fn lemma_swap(tally: TallyModel, x: Found, y: Found, filter: Option<&FileFilter>)
    ensures
        same_tally(
            tallied(tallied(tally, x, filter), y, filter),
            tallied(tallied(tally, y, filter), x, filter),
        ),
{
    broadcast use vstd::seq_lib::group_to_multiset_ensures;

    let one = tallied(tallied(tally, x, filter), y, filter);
    let two = tallied(tallied(tally, y, filter), x, filter);
    assert(one.entries.to_multiset() =~= two.entries.to_multiset());
    assert(one.faults.to_multiset() =~= two.faults.to_multiset());
}

/// The order in which a manifest is walked does not change its tally.
pub proof fn law_walk_order_does_not_matter(
    a: Seq<Found>,
    b: Seq<Found>,
    filter: Option<&FileFilter>,
)
    requires
        a.to_multiset() == b.to_multiset(),
    ensures
        same_tally(tally_all(a, filter), tally_all(b, filter)),
    decreases a.len(),
{
    broadcast use vstd::seq_lib::group_to_multiset_ensures;

    assert(a.len() == a.to_multiset().len());
    assert(b.len() == b.to_multiset().len());
    if a.len() > 0 {
        let x = a.last();
        let n = a.len() - 1;
        assert(a.to_multiset().count(a[n]) > 0);
        assert(b.to_multiset().count(x) > 0);
        assert(b.contains(x));
        let k = choose|k: int| 0 <= k < b.len() && b[k] == x;
        assert(a.remove(n) =~= a.drop_last());
        law_walk_order_does_not_matter(a.drop_last(), b.remove(k), filter);
        lemma_same_tally_grows(
            tally_all(a.drop_last(), filter),
            tally_all(b.remove(k), filter),
            x,
            filter,
        );
        lemma_place_does_not_matter(b, k, filter);
    }
}

/// The listing of a manifest does not depend on the order in which it is
/// walked, where no two of its files have the same path.
pub proof fn law_listing_is_deterministic(
    a: Seq<Found>,
    b: Seq<Found>,
    filter: Option<&FileFilter>,
    sorted_a: Seq<EntryModel>,
    sorted_b: Seq<EntryModel>,
)
    requires
        a.to_multiset() == b.to_multiset(),
        distinct_paths(tally_all(a, filter).entries),
        distinct_paths(tally_all(b, filter).entries),
        is_sorted_from(tally_all(a, filter).entries, sorted_a),
        is_sorted_from(tally_all(b, filter).entries, sorted_b),
    ensures
        sorted_a == sorted_b,
{
    broadcast use vstd::seq_lib::group_to_multiset_ensures;

    law_walk_order_does_not_matter(a, b, filter);
    let x = tally_all(a, filter).entries;
    let y = tally_all(b, filter).entries;
    assert forall|e: EntryModel| #[trigger] x.contains(e) == y.contains(e) by {
        assert(x.to_multiset().count(e) == y.to_multiset().count(e));
    }
    law_listing_ignores_found_order(x, y, sorted_a, sorted_b);
}

/// A list of entries is seen as the path, the size and the number of chunks of
/// each, in order, and a tally as what it holds.
pub proof fn law_entries_are_seen_whole(entries: Seq<ListEntry>, tally: Tally)
    ensures
        models(entries).len() == entries.len(),
        forall|i: int|
            0 <= i < entries.len() ==> (#[trigger] models(entries)[i]).0 == entries[i].path@
                && models(entries)[i].1 == entries[i].size && models(entries)[i].2
                == entries[i].chunks,
        tally.model().entries == models(tally.entries@),
        tally.model().dir_count == tally.dir_count,
        tally.model().filtered_out == tally.filtered_out,
        tally.model().faults == tally.faults@,
{
}

/// Whether `sorted` takes each position of `entries` once, as `order` says, by
/// path, and positions of one path in their order.
pub open spec fn rearranges(
    entries: Seq<EntryModel>,
    sorted: Seq<EntryModel>,
    order: Seq<int>,
) -> bool {
    &&& order.len() == entries.len() == sorted.len()
    &&& forall|k: int|
        0 <= k < order.len() ==> 0 <= #[trigger] order[k] < entries.len() && sorted[k]
            == entries[order[k]]
    &&& forall|k: int, l: int|
        0 <= k < l < order.len() ==> (#[trigger] order[k]) != (#[trigger] order[l]) && (sorted[k].0
            == sorted[l].0 ==> order[k] < order[l]) && (sorted[k].0 == sorted[l].0
            || text::before(sorted[k].0, sorted[l].0))
}

/// Sorting is a rearrangement by path that leaves entries of one path in the
/// order in which they stood.
pub proof fn law_sorting_is_stable(entries: Seq<EntryModel>, sorted: Seq<EntryModel>)
    requires
        is_sorted_from(entries, sorted),
    ensures
        exists|order: Seq<int>| #[trigger] rearranges(entries, sorted, order),
{
    let order = choose|order: Seq<int>|
        #[trigger] orders(entries, order) && sorted == order.map_values(|i: int| entries[i]);
    assert forall|k: int| 0 <= k < order.len() implies 0 <= #[trigger] order[k] < entries.len()
        && sorted[k] == entries[order[k]] by {
        assert(sorted[k] == order.map_values(|i: int| entries[i])[k]);
    }
    assert forall|k: int, l: int| 0 <= k < l < order.len() implies (#[trigger] order[k])
        != (#[trigger] order[l]) && (sorted[k].0 == sorted[l].0 ==> order[k] < order[l]) && (
    sorted[k].0 == sorted[l].0 || text::before(sorted[k].0, sorted[l].0)) by {
        assert(goes_first(entries, order[k], order[l]));
        text::lemma_before_irreflexive(entries[order[k]].0);
    }
    assert(rearranges(entries, sorted, order));
}

/// Whether a filter lets a path through: without one every path passes.
pub open spec fn goes_through(filter: Option<&FileFilter>, path: Seq<char>) -> bool {
    filter is None || filter::keeps(
        filter->Some_0.conditions(),
        filter->Some_0.inverted(),
        path,
    )
}

/// The files whose path can be read and passes the filter.
pub open spec fn is_kept(filter: Option<&FileFilter>) -> spec_fn(Found) -> bool {
    |f: Found| f.path is Ok && !f.directory && goes_through(filter, f.path->Ok_0)
}

/// The directories whose path can be read.
pub open spec fn is_dir() -> spec_fn(Found) -> bool {
    |f: Found| f.path is Ok && f.directory
}

/// The files whose path can be read and does not pass the filter.
pub open spec fn is_refused(filter: Option<&FileFilter>) -> spec_fn(Found) -> bool {
    |f: Found| f.path is Ok && !f.directory && !goes_through(filter, f.path->Ok_0)
}

/// The entries whose path cannot be read.
pub open spec fn is_unreadable() -> spec_fn(Found) -> bool {
    |f: Found| f.path is Err
}

/// A tally lists, in the order found, exactly the files that can be read and
/// pass the filter, each with its own path, size and number of chunks; it counts
/// the directories and the files that do not pass, and keeps why the others
/// cannot be read.
pub proof fn law_tally_sorts_entries_out(found: Seq<Found>, filter: Option<&FileFilter>)
    ensures
        ({
            let tally = tally_all(found, filter);
            let kept = found.filter(is_kept(filter));
            let unreadable = found.filter(is_unreadable());
            &&& tally.entries.len() == kept.len()
            &&& forall|k: int|
                0 <= k < kept.len() ==> (#[trigger] tally.entries[k]).0 == kept[k].path->Ok_0
                    && tally.entries[k].1 == kept[k].size && tally.entries[k].2 == kept[k].chunks
            &&& tally.dir_count == found.filter(is_dir()).len()
            &&& tally.filtered_out == found.filter(is_refused(filter)).len()
            &&& tally.faults.len() == unreadable.len()
            &&& forall|k: int|
                0 <= k < unreadable.len() ==> #[trigger] tally.faults[k]
                    == unreadable[k].path->Err_0
        }),
    decreases found.len(),
{
    reveal(Seq::filter);
    if found.len() > 0 {
        law_tally_sorts_entries_out(found.drop_last(), filter);
    }
}

/// The sum of the sizes of two lists together is the sum of their sums, and that
/// of one entry its size.
pub proof fn law_sizes_add_up(a: Seq<EntryModel>, b: Seq<EntryModel>, entry: EntryModel)
    ensures
        size_sum(Seq::empty()) == 0,
        size_sum(seq![entry]) == entry.1,
        size_sum(a + b) == size_sum(a) + size_sum(b),
    decreases b.len(),
{
    assert(seq![entry].drop_last() =~= Seq::empty());
    if b.len() == 0 {
        assert(a + b =~= a);
    } else {
        assert((a + b).drop_last() =~= a + b.drop_last());
        law_sizes_add_up(a, b.drop_last(), entry);
    }
}

} // verus!
