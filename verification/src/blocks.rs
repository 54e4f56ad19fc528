//! Files made of blocks: where each block goes, which ones are left to fetch,
//! and what the file holds in the end.
use vstd::prelude::*;
use vstd::string::*;
use crate::numerals;
use crate::resume;
use crate::resume::SidecarKind;

verus! {

/// Maximum number of blocks fetched concurrently within a single file.
pub const PARALLEL_OBJECTS: usize = 5;

/// The sum of the sizes.
pub open spec fn sum(sizes: Seq<u64>) -> nat
    decreases sizes.len(),
{
    if sizes.len() == 0 {
        0
    } else {
        sum(sizes.drop_last()) + sizes.last() as nat
    }
}

/// Computes `sum`; no list of sizes is too long or too large for it.
pub fn sum_of(sizes: &[u64]) -> (total: u128)
    ensures
        total == sum(sizes@),
{
    let mut total: u128 = 0;
    let mut i: usize = 0;
    assert(sizes@.take(0) =~= Seq::empty());
    while i < sizes.len()
        invariant
            i <= sizes@.len(),
            total == sum(sizes@.take(i as int)),
            total <= i * 0xffff_ffff_ffff_ffff,
        decreases sizes@.len() - i,
    {
        proof {
            assert(sizes@.take(i + 1).drop_last() =~= sizes@.take(i as int));
            assert(i < 0xffff_ffff_ffff_ffff);
        }
        total = total + sizes[i] as u128;
        i = i + 1;
    }
    assert(sizes@.take(i as int) =~= sizes@);
    total
}

/// Where block `i` begins: behind all blocks before it.
pub open spec fn offset(sizes: Seq<u64>, i: int) -> nat {
    sum(sizes.take(i))
}

/// The next block begins where this one ends.
pub proof fn lemma_offset_step(sizes: Seq<u64>, i: int)
    requires
        0 <= i < sizes.len(),
    ensures
        offset(sizes, i + 1) == offset(sizes, i) + sizes[i],
{
    assert(sizes.take(i + 1).drop_last() =~= sizes.take(i));
}

/// Offsets do not fall.
pub proof fn lemma_offset_monotone(sizes: Seq<u64>, i: int, j: int)
    requires
        0 <= i <= j <= sizes.len(),
    ensures
        offset(sizes, i) <= offset(sizes, j),
    decreases j - i,
{
    if i < j {
        lemma_offset_monotone(sizes, i, j - 1);
        lemma_offset_step(sizes, j - 1);
    }
}

/// The smaller of two numbers.
pub open spec fn least(a: int, b: int) -> int {
    if a < b {
        a
    } else {
        b
    }
}

/// Computes the byte offset of each of `num_objects` blocks. With fewer sizes
/// than blocks there is an offset for each size and one behind the last.
pub fn object_offsets(sizes: &[u64], num_objects: usize) -> (offsets: Vec<u64>)
    requires
        num_objects > 0 ==> offset(sizes@, least(num_objects - 1, sizes@.len() as int))
            <= u64::MAX,
    ensures
        offsets@.len() == least(num_objects as int, sizes@.len() as int + 1),
        forall|i: int|
            0 <= i < offsets@.len() ==> #[trigger] offsets@[i] == offset(sizes@, i),
{
    let mut offsets: Vec<u64> = Vec::new();
    if num_objects == 0 {
        return offsets;
    }
    let mut at: u64 = 0;
    offsets.push(0);
    let mut i: usize = 0;
    assert(sizes@.take(0) =~= Seq::empty());
    while i < sizes.len() && i < num_objects - 1
        invariant
            num_objects > 0,
            offset(sizes@, least(num_objects - 1, sizes@.len() as int)) <= u64::MAX,
            i <= sizes@.len(),
            i <= num_objects - 1,
            at == offset(sizes@, i as int),
            offsets@.len() == i + 1,
            forall|j: int| 0 <= j <= i ==> #[trigger] offsets@[j] == offset(sizes@, j),
        decreases sizes@.len() - i,
    {
        proof {
            lemma_offset_step(sizes@, i as int);
            lemma_offset_monotone(
                sizes@,
                i + 1,
                least(num_objects - 1, sizes@.len() as int),
            );
        }
        at = at + sizes[i];
        offsets.push(at);
        i = i + 1;
    }
    offsets
}

/// The size that block `i` should have; a block without one should be empty.
pub open spec fn expected(sizes: Seq<u64>, i: int) -> u64 {
    if 0 <= i < sizes.len() {
        sizes[i]
    } else {
        0
    }
}

/// Computes `expected`.
pub fn expected_size(sizes: &[u64], i: usize) -> (size: u64)
    ensures
        size == expected(sizes@, i as int),
{
    if i < sizes.len() {
        sizes[i]
    } else {
        0
    }
}

/// A block whose size is not what was expected.
#[derive(Clone, Debug)]
pub struct SizeMismatch {
    pub object_id: String,
    pub expected: u64,
    pub got: u64,
}

impl SizeMismatch {
    /// The words for this error.
    pub open spec fn words(self) -> Seq<char> {
        "object "@ + self.object_id@ + " decompressed size mismatch: expected "@
            + numerals::decimal(self.expected as nat) + ", got "@ + numerals::decimal(
            self.got as nat,
        )
    }

    /// The message for this error.
    pub fn message(&self) -> (s: String)
        ensures
            s@ == self.words(),
    {
        let mut s = String::new();
        s.append("object ");
        s.append(self.object_id.as_str());
        s.append(" decompressed size mismatch: expected ");
        numerals::push_decimal(&mut s, self.expected as u128);
        s.append(", got ");
        numerals::push_decimal(&mut s, self.got as u128);
        s
    }
}

/// Holds the size of a fetched block against the expected one.
pub fn check_size(object_id: &str, expected: u64, data: &[u8]) -> (result: Result<
    (),
    SizeMismatch,
>)
    ensures
        if data@.len() == expected {
            result is Ok
        } else {
            &&& result matches Err(e)
            &&& e.object_id@ == object_id@
            &&& e.expected == expected
            &&& e.got == data@.len()
        },
{
    if data.len() as u64 == expected {
        Ok(())
    } else {
        Err(SizeMismatch { object_id: object_id.to_owned(), expected, got: data.len() as u64 })
    }
}

// ---------------------------------------------------------------------------
// Resuming
// ---------------------------------------------------------------------------

/// What a sidecar tells: a byte for each block, not zero where it is done; the
/// number of blocks; the size of the file.
pub type Saved = (Vec<u8>, u32, u64);

/// Whether a sidecar belongs to this file as it lies on disk.
pub open spec fn usable(
    saved: Option<Saved>,
    num_objects: int,
    total: u64,
    dest_len: Option<u64>,
) -> bool {
    &&& saved matches Some((bits, objects, size))
    &&& objects == num_objects
    &&& size == total
    &&& dest_len == Some(total)
}

/// Which blocks are done.
pub open spec fn done_mask(
    saved: Option<Saved>,
    num_objects: int,
    total: u64,
    dest_len: Option<u64>,
) -> Seq<bool> {
    match saved {
        Some((bits, _, _)) if usable(saved, num_objects, total, dest_len) => Seq::new(
            num_objects as nat,
            |i: int| bits@[i] != 0,
        ),
        _ => Seq::new(num_objects as nat, |i: int| false),
    }
}

/// The bytes of the blocks that are done.
pub open spec fn done_bytes(mask: Seq<bool>, sizes: Seq<u64>) -> nat
    decreases mask.len(),
{
    if mask.len() == 0 {
        0
    } else {
        done_bytes(mask.drop_last(), sizes) + (if mask.last() {
            expected(sizes, mask.len() - 1) as nat
        } else {
            0
        })
    }
}

/// The number of blocks that are done.
pub open spec fn done_count(mask: Seq<bool>) -> nat
    decreases mask.len(),
{
    if mask.len() == 0 {
        0
    } else {
        done_count(mask.drop_last()) + (if mask.last() {
            1nat
        } else {
            0
        })
    }
}

/// The positions of the blocks that are left, rising.
pub open spec fn left_over(mask: Seq<bool>) -> Seq<int>
    decreases mask.len(),
{
    if mask.len() == 0 {
        Seq::empty()
    } else if mask.last() {
        left_over(mask.drop_last())
    } else {
        left_over(mask.drop_last()).push(mask.len() - 1)
    }
}

/// What is to be done about a file once it is laid out on disk.
#[derive(Clone, Copy, Debug, PartialEq, Eq, Structural)]
pub enum FileStep {
    /// Nothing is left; only the sidecar is to be removed.
    Finished,
    /// One block, which is the whole file.
    Single,
    /// Several blocks, by so many workers.
    Parallel { workers: usize },
}

/// How a file is to be fetched.
#[derive(Debug)]
pub struct FilePlan {
    /// Which blocks are done.
    pub completed: Vec<bool>,
    /// Whether a sidecar was found that does not fit the file: it and the file
    /// are to be discarded.
    pub stale: bool,
    /// Whether work of an earlier run goes on; otherwise the file and its
    /// sidecar are to be created.
    pub resuming: bool,
    /// The bytes of the blocks that are done.
    pub already_done: u128,
    /// The number of blocks that are done.
    pub done_count: usize,
    /// The positions of the blocks that are left.
    pub pending: Vec<usize>,
    /// What is to be done.
    pub step: FileStep,
}

/// What the number of blocks and those left call for.
pub open spec fn file_step(num_objects: int, resuming: bool, left: int) -> FileStep {
    if left == 0 {
        FileStep::Finished
    } else if num_objects == 1 && !resuming {
        FileStep::Single
    } else {
        FileStep::Parallel { workers: least(PARALLEL_OBJECTS as int, left) as usize }
    }
}

/// The positions as numbers.
pub open spec fn positions(list: Seq<usize>) -> Seq<int> {
    Seq::new(list.len(), |i: int| list[i] as int)
}

/// Plans how to fetch a file of `num_objects` blocks: `saved` is what its
/// sidecar tells, if there is one, and `dest_len` the length of the file on
/// disk, if it is there.
pub fn plan_file(
    num_objects: usize,
    sizes: &[u64],
    total: u64,
    saved: Option<Saved>,
    dest_len: Option<u64>,
) -> (plan: FilePlan)
    requires
        saved matches Some((bits, objects, _)) ==> bits@.len() == objects,
    ensures
        plan.completed@ == done_mask(saved, num_objects as int, total, dest_len),
        plan.stale == (saved is Some && !usable(saved, num_objects as int, total, dest_len)),
        plan.resuming == (done_count(plan.completed@) > 0),
        plan.already_done == done_bytes(plan.completed@, sizes@),
        plan.done_count == done_count(plan.completed@),
        positions(plan.pending@) == left_over(plan.completed@),
        plan.step == file_step(num_objects as int, plan.resuming, plan.pending@.len() as int),
{
    let ghost given = saved;
    let mut fits = false;
    let mut stale = false;
    let mut bits: Vec<u8> = Vec::new();
    if let Some((found, objects, size)) = saved {
        let there = match dest_len {
            Some(len) => len == total,
            None => false,
        };
        fits = objects as usize == num_objects && size == total && there;
        stale = !fits;
        bits = found;
    }
    let ghost mask = done_mask(given, num_objects as int, total, dest_len);
    let mut completed: Vec<bool> = Vec::new();
    let mut pending: Vec<usize> = Vec::new();
    let mut already_done: u128 = 0;
    let mut count: usize = 0;
    let mut i: usize = 0;
    assert(positions(pending@) =~= left_over(mask.take(0)));
    while i < num_objects
        invariant
            i <= num_objects,
            mask == done_mask(given, num_objects as int, total, dest_len),
            fits == usable(given, num_objects as int, total, dest_len),
            fits ==> given == Some((bits, num_objects as u32, total)) && bits@.len()
                == num_objects,
            completed@ == mask.take(i as int),
            positions(pending@) == left_over(mask.take(i as int)),
            count == done_count(mask.take(i as int)),
            count <= i,
            already_done == done_bytes(mask.take(i as int), sizes@),
            already_done <= i * 0xffff_ffff_ffff_ffff,
        decreases num_objects - i,
    {
        let done = fits && bits[i] != 0;
        proof {
            assert(mask[i as int] == done);
            assert(mask.take(i + 1).drop_last() =~= mask.take(i as int));
            assert(mask.take(i + 1).last() == done);
            assert(i < 0xffff_ffff_ffff_ffff);
        }
        let ghost before = pending@;
        completed.push(done);
        if done {
            already_done = already_done + expected_size(sizes, i) as u128;
            count = count + 1;
        } else {
            pending.push(i);
            assert(positions(pending@) =~= positions(before).push(i as int));
        }
        assert(completed@ =~= mask.take(i + 1));
        i = i + 1;
    }
    assert(mask.take(i as int) =~= mask);
    let resuming = count > 0;
    let step = if pending.len() == 0 {
        FileStep::Finished
    } else if num_objects == 1 && !resuming {
        FileStep::Single
    } else if pending.len() < PARALLEL_OBJECTS {
        FileStep::Parallel { workers: pending.len() }
    } else {
        FileStep::Parallel { workers: PARALLEL_OBJECTS }
    };
    FilePlan { completed, stale, resuming, already_done, done_count: count, pending, step }
}

// ---------------------------------------------------------------------------
// Laws
// ---------------------------------------------------------------------------

/// The blocks that are left are those that are not done, each once and in
/// order.
pub proof fn law_pending_is_the_rest(mask: Seq<bool>)
    ensures
        forall|i: int|
            #[trigger] left_over(mask).contains(i) <==> (0 <= i < mask.len() && !mask[i]),
        forall|k: int, l: int|
            0 <= k < l < left_over(mask).len() ==> left_over(mask)[k] < left_over(mask)[l],
        left_over(mask).len() + done_count(mask) == mask.len(),
    decreases mask.len(),
{
    if mask.len() > 0 {
        let rest = mask.drop_last();
        let before = left_over(rest);
        law_pending_is_the_rest(rest);
        let all = left_over(mask);
        assert forall|i: int| #[trigger]
            all.contains(i) <==> (0 <= i < mask.len() && !mask[i]) by {
            assert(before.contains(i) <==> (0 <= i < rest.len() && !rest[i]));
            if before.contains(i) {
                let k = choose|k: int| 0 <= k < before.len() && before[k] == i;
                assert(all[k] == i);
            }
            if all.contains(i) {
                let k = choose|k: int| 0 <= k < all.len() && all[k] == i;
                if k < before.len() {
                    assert(before[k] == i);
                }
            }
            if i == mask.len() - 1 && !mask.last() {
                assert(all[before.len() as int] == i);
            }
        }
        assert forall|k: int, l: int| 0 <= k < l < all.len() implies all[k] < all[l] by {
            assert(before.contains(before[k]));
        }
    }
}

/// A block that is marked in the sidecar is not fetched again by a later run,
/// and no other block is passed over on that account.
pub proof fn law_marked_block_is_not_fetched_again(
    data: Seq<u8>,
    kind: SidecarKind,
    index: int,
    saved: Saved,
    total: u64,
)
    requires
        resume::is_sidecar(data, kind),
        0 <= index < resume::objects_in(data),
        total == resume::size_in(data),
        saved.0@ == resume::unpacked(resume::with_done(data, index)),
        saved.1 == resume::objects_in(resume::with_done(data, index)),
        saved.2 == resume::size_in(resume::with_done(data, index)),
    ensures
        ({
            let n = resume::objects_in(data) as int;
            let left = left_over(done_mask(Some(saved), n, total, Some(total)));
            forall|i: int|
                #[trigger] left.contains(i) <==> (0 <= i < n && i != index
                    && resume::unpacked(data)[i] == 0)
        }),
{
    resume::law_mark_sets_one_bit(data, kind, index);
    let n = resume::objects_in(data) as int;
    let mask = done_mask(Some(saved), n, total, Some(total));
    law_pending_is_the_rest(mask);
    assert forall|i: int| #[trigger]
        left_over(mask).contains(i) <==> (0 <= i < n && i != index && resume::unpacked(data)[i]
            == 0) by {
        if 0 <= i < n {
            assert(mask[i] == (saved.0@[i] != 0));
        }
    }
}

/// A block for which a size is given takes up that much of the file: what one
/// block leaves off the next takes up, and the last one ends with the file.
pub proof fn law_blocks_tile_the_file(sizes: Seq<u64>, i: int, j: int)
    requires
        0 <= i < j < sizes.len(),
    ensures
        offset(sizes, 0) == 0,
        offset(sizes, i) + sizes[i] <= offset(sizes, j),
        offset(sizes, i + 1) == offset(sizes, i) + sizes[i],
        offset(sizes, j) + sizes[j] <= sum(sizes),
        offset(sizes, sizes.len() as int) == sum(sizes),
{
    lemma_offset_step(sizes, i);
    lemma_offset_step(sizes, j);
    lemma_offset_monotone(sizes, i + 1, j);
    lemma_offset_monotone(sizes, j + 1, sizes.len() as int);
    assert(sizes.take(sizes.len() as int) =~= sizes);
    assert(sizes.take(0) =~= Seq::empty());
}

/// A file after `data` was written over it from position `at` on.
pub open spec fn written(file: Seq<u8>, at: int, data: Seq<u8>) -> Seq<u8> {
    file.subrange(0, at) + data + file.subrange(at + data.len(), file.len() as int)
}

/// The blocks one after the other.
pub open spec fn joined(blocks: Seq<Seq<u8>>) -> Seq<u8>
    decreases blocks.len(),
{
    if blocks.len() == 0 {
        Seq::empty()
    } else {
        joined(blocks.drop_last()) + blocks.last()
    }
}

/// Whether the blocks have the sizes, and the file has room for them.
pub open spec fn fit(file: Seq<u8>, sizes: Seq<u64>, blocks: Seq<Seq<u8>>) -> bool {
    &&& blocks.len() == sizes.len()
    &&& forall|i: int| 0 <= i < sizes.len() ==> (#[trigger] blocks[i]).len() == sizes[i]
    &&& file.len() == sum(sizes)
}

/// Whether the file holds block `i` in its place.
pub open spec fn holds(file: Seq<u8>, sizes: Seq<u64>, blocks: Seq<Seq<u8>>, i: int) -> bool {
    file.subrange(offset(sizes, i) as int, offset(sizes, i) as int + sizes[i]) == blocks[i]
}

/// Whether the file holds every block that the mask calls done.
pub open spec fn honest(
    file: Seq<u8>,
    sizes: Seq<u64>,
    blocks: Seq<Seq<u8>>,
    mask: Seq<bool>,
) -> bool {
    &&& mask.len() == sizes.len()
    &&& forall|i: int| 0 <= i < mask.len() && #[trigger] mask[i] ==> holds(file, sizes, blocks, i)
}

/// The file after the blocks in `order` were written, one after the other.
pub open spec fn write_blocks(
    file: Seq<u8>,
    sizes: Seq<u64>,
    blocks: Seq<Seq<u8>>,
    order: Seq<int>,
) -> Seq<u8>
    decreases order.len(),
{
    if order.len() == 0 {
        file
    } else {
        let i = order.last();
        written(
            write_blocks(file, sizes, blocks, order.drop_last()),
            offset(sizes, i) as int,
            blocks[i],
        )
    }
}

/// Where a block lies in the file.
proof fn lemma_block_in_range(file: Seq<u8>, sizes: Seq<u64>, blocks: Seq<Seq<u8>>, i: int)
    requires
        fit(file, sizes, blocks),
        0 <= i < sizes.len(),
    ensures
        offset(sizes, i) + sizes[i] <= file.len(),
        blocks[i].len() == sizes[i],
{
    lemma_offset_step(sizes, i);
    lemma_offset_monotone(sizes, i + 1, sizes.len() as int);
    assert(sizes.take(sizes.len() as int) =~= sizes);
}

/// Writing a block in its place puts it there and leaves the others alone, so
/// that a mask that was honest stays so, also with this block marked: a run
/// that is broken off between the writing and the marking can be resumed.
pub proof fn law_writing_keeps_the_mask_honest(
    file: Seq<u8>,
    sizes: Seq<u64>,
    blocks: Seq<Seq<u8>>,
    mask: Seq<bool>,
    i: int,
)
    requires
        fit(file, sizes, blocks),
        honest(file, sizes, blocks, mask),
        0 <= i < sizes.len(),
    ensures
        ({
            let after = written(file, offset(sizes, i) as int, blocks[i]);
            &&& fit(after, sizes, blocks)
            &&& holds(after, sizes, blocks, i)
            &&& honest(after, sizes, blocks, mask)
            &&& honest(after, sizes, blocks, mask.update(i, true))
        }),
{
    let at = offset(sizes, i) as int;
    let after = written(file, at, blocks[i]);
    lemma_block_in_range(file, sizes, blocks, i);
    assert(after.len() == file.len());
    assert(after.subrange(at, at + sizes[i]) =~= blocks[i]);
    assert forall|j: int| 0 <= j < mask.len() && #[trigger] mask[j] implies holds(
        after,
        sizes,
        blocks,
        j,
    ) by {
        lemma_block_in_range(file, sizes, blocks, j);
        if j < i {
            law_blocks_tile_the_file(sizes, j, i);
        } else if i < j {
            law_blocks_tile_the_file(sizes, i, j);
        }
        if j != i {
            let from = offset(sizes, j) as int;
            assert(after.subrange(from, from + sizes[j]) =~= file.subrange(
                from,
                from + sizes[j],
            ));
        }
    }
    let marked = mask.update(i, true);
    assert forall|j: int| 0 <= j < marked.len() && #[trigger] marked[j] implies holds(
        after,
        sizes,
        blocks,
        j,
    ) by {
        if j != i {
            assert(mask[j]);
        }
    }
}

/// A file that holds every block in its place is the blocks joined.
proof fn lemma_all_held_is_joined(file: Seq<u8>, sizes: Seq<u64>, blocks: Seq<Seq<u8>>, n: int)
    requires
        fit(file, sizes, blocks),
        0 <= n <= sizes.len(),
        forall|i: int| 0 <= i < n ==> holds(file, sizes, blocks, i),
    ensures
        offset(sizes, n) <= file.len(),
        file.subrange(0, offset(sizes, n) as int) == joined(blocks.take(n)),
    decreases n,
{
    if n == 0 {
        assert(sizes.take(0) =~= Seq::empty());
        assert(file.subrange(0, 0) =~= joined(blocks.take(0)));
    } else {
        lemma_all_held_is_joined(file, sizes, blocks, n - 1);
        lemma_offset_step(sizes, n - 1);
        lemma_block_in_range(file, sizes, blocks, n - 1);
        assert(holds(file, sizes, blocks, n - 1));
        assert(blocks.take(n).drop_last() =~= blocks.take(n - 1));
        let from = offset(sizes, n - 1) as int;
        let to = offset(sizes, n) as int;
        assert(file.subrange(0, to) =~= file.subrange(0, from) + file.subrange(from, to));
    }
}

/// Writing blocks keeps the file's length, keeps the mask honest and puts every
/// block that was written in its place.
proof fn lemma_write_blocks(
    file: Seq<u8>,
    sizes: Seq<u64>,
    blocks: Seq<Seq<u8>>,
    mask: Seq<bool>,
    order: Seq<int>,
)
    requires
        fit(file, sizes, blocks),
        honest(file, sizes, blocks, mask),
        forall|k: int| 0 <= k < order.len() ==> 0 <= #[trigger] order[k] < sizes.len(),
    ensures
        ({
            let after = write_blocks(file, sizes, blocks, order);
            &&& fit(after, sizes, blocks)
            &&& honest(
                after,
                sizes,
                blocks,
                Seq::new(mask.len(), |i: int| mask[i] || order.contains(i)),
            )
        }),
    decreases order.len(),
{
    let after = write_blocks(file, sizes, blocks, order);
    let marked = Seq::new(mask.len(), |i: int| mask[i] || order.contains(i));
    if order.len() == 0 {
        assert forall|i: int| 0 <= i < marked.len() && #[trigger] marked[i] implies holds(
            after,
            sizes,
            blocks,
            i,
        ) by {
            assert(mask[i]);
        }
    } else {
        let earlier = order.drop_last();
        assert forall|k: int| 0 <= k < earlier.len() implies 0 <= #[trigger] earlier[k]
            < sizes.len() by {
            assert(earlier[k] == order[k]);
        }
        lemma_write_blocks(file, sizes, blocks, mask, earlier);
        let mid = write_blocks(file, sizes, blocks, earlier);
        let mid_mask = Seq::new(mask.len(), |i: int| mask[i] || earlier.contains(i));
        let last = order.last();
        assert(0 <= last < sizes.len()) by {
            assert(last == order[order.len() - 1]);
        }
        law_writing_keeps_the_mask_honest(mid, sizes, blocks, mid_mask, last);
        let next = mid_mask.update(last, true);
        assert forall|i: int| 0 <= i < marked.len() && #[trigger] marked[i] implies holds(
            after,
            sizes,
            blocks,
            i,
        ) by {
            if order.contains(i) {
                let k = choose|k: int| 0 <= k < order.len() && order[k] == i;
                if k < earlier.len() {
                    assert(earlier[k] == i);
                }
            }
            assert(next[i]);
        }
    }
}

/// However a download is cut up into runs, and in whatever order its workers
/// finish, the file is in the end the blocks joined: it is enough that those
/// marked done were in place and that all others were written.
pub proof fn law_blocks_make_the_file(
    file: Seq<u8>,
    sizes: Seq<u64>,
    blocks: Seq<Seq<u8>>,
    mask: Seq<bool>,
    order: Seq<int>,
)
    requires
        fit(file, sizes, blocks),
        honest(file, sizes, blocks, mask),
        forall|k: int| 0 <= k < order.len() ==> 0 <= #[trigger] order[k] < sizes.len(),
        forall|k: int|
            0 <= k < left_over(mask).len() ==> order.contains(#[trigger] left_over(mask)[k]),
    ensures
        write_blocks(file, sizes, blocks, order) == joined(blocks),
{
    let after = write_blocks(file, sizes, blocks, order);
    let marked = Seq::new(mask.len(), |i: int| mask[i] || order.contains(i));
    lemma_write_blocks(file, sizes, blocks, mask, order);
    law_pending_is_the_rest(mask);
    assert forall|i: int| 0 <= i < sizes.len() implies holds(after, sizes, blocks, i) by {
        if !mask[i] {
            let rest = left_over(mask);
            assert(rest.contains(i));
            let k = choose|k: int| 0 <= k < rest.len() && rest[k] == i;
            assert(order.contains(rest[k]));
        }
        assert(marked[i]);
    }
    lemma_all_held_is_joined(after, sizes, blocks, sizes.len() as int);
    assert(sizes.take(sizes.len() as int) =~= sizes);
    assert(blocks.take(sizes.len() as int) =~= blocks);
    assert(after.subrange(0, after.len() as int) =~= after);
}

/// The sum of two lists of sizes is the sum of their sums, and that of one size
/// the size.
pub proof fn law_sums_add_up(a: Seq<u64>, b: Seq<u64>, size: u64)
    ensures
        sum(Seq::empty()) == 0,
        sum(seq![size]) == size,
        sum(a + b) == sum(a) + sum(b),
    decreases b.len(),
{
    assert(seq![size].drop_last() =~= Seq::empty());
    if b.len() == 0 {
        assert(a + b =~= a);
    } else {
        assert((a + b).drop_last() =~= a + b.drop_last());
        law_sums_add_up(a, b.drop_last(), size);
    }
}

/// A sidecar is gone by exactly where it is for as many blocks and the same size,
/// and the file on disk has that size; a block is then done where its byte is not
/// zero. Otherwise no block is.
pub proof fn law_only_a_fitting_sidecar_counts(
    saved: Saved,
    num_objects: int,
    total: u64,
    dest_len: Option<u64>,
    i: int,
)
    requires
        0 <= i < num_objects,
    ensures
        ({
            let fits = saved.1 == num_objects && saved.2 == total && dest_len == Some(total);
            let mask = done_mask(Some(saved), num_objects, total, dest_len);
            &&& usable(Some(saved), num_objects, total, dest_len) <==> fits
            &&& !usable(None, num_objects, total, dest_len)
            &&& mask.len() == num_objects
            &&& mask[i] <==> fits && saved.0@[i] != 0
            &&& done_mask(None, num_objects, total, dest_len).len() == num_objects
            &&& !done_mask(None, num_objects, total, dest_len)[i]
        }),
{
}

/// The sizes of the blocks at some positions.
pub open spec fn sizes_at(sizes: Seq<u64>, positions: Seq<int>) -> Seq<u64> {
    Seq::new(
        positions.len(),
        |k: int|
            if 0 <= positions[k] < sizes.len() {
                sizes[positions[k]]
            } else {
                0
            },
    )
}

/// What is done and what is left make up the whole file: the bytes of the blocks
/// that are done and of those that are left are together those of all blocks, a
/// block without a size having none.
pub proof fn law_done_and_left_make_the_whole(mask: Seq<bool>, sizes: Seq<u64>)
    ensures
        done_bytes(mask, sizes) + sum(sizes_at(sizes, left_over(mask))) == sum(
            Seq::new(
                mask.len(),
                |i: int|
                    if i < sizes.len() {
                        sizes[i]
                    } else {
                        0
                    },
            ),
        ),
    decreases mask.len(),
{
    let all = Seq::new(
        mask.len(),
        |i: int|
            if i < sizes.len() {
                sizes[i]
            } else {
                0
            },
    );
    if mask.len() > 0 {
        let rest = mask.drop_last();
        law_done_and_left_make_the_whole(rest, sizes);
        assert(all.drop_last() =~= Seq::new(
            rest.len(),
            |i: int|
                if i < sizes.len() {
                    sizes[i]
                } else {
                    0
                },
        ));
        let left = sizes_at(sizes, left_over(mask));
        if !mask.last() {
            assert(left.drop_last() =~= sizes_at(sizes, left_over(rest)));
        }
    }
}

/// Nothing is fetched where nothing is left, a file of a single block that is not
/// there yet is fetched at once, and otherwise as many workers fetch as there are
/// blocks left, but no more than five.
pub proof fn law_steps_fit_what_is_left(num_objects: int, resuming: bool, left: int)
    requires
        0 <= left <= usize::MAX,
    ensures
        left == 0 <==> file_step(num_objects, resuming, left) is Finished,
        left > 0 && num_objects == 1 && !resuming <==> file_step(num_objects, resuming, left)
            is Single,
        left > 0 && !(num_objects == 1 && !resuming) ==> (file_step(
            num_objects,
            resuming,
            left,
        ) matches FileStep::Parallel { workers } && 1 <= workers <= 5 && workers <= left && (workers
            == left || workers == 5)),
{
}

/// A block should have the size that stands for it, and be empty where none does;
/// the smaller of two numbers is one of them and above neither; positions are seen
/// as numbers.
pub proof fn law_sizes_stand_for_blocks(
    sizes: Seq<u64>,
    i: int,
    a: int,
    b: int,
    list: Seq<usize>,
)
    ensures
        0 <= i < sizes.len() ==> expected(sizes, i) == sizes[i],
        i >= sizes.len() ==> expected(sizes, i) == 0,
        least(a, b) <= a && least(a, b) <= b && (least(a, b) == a || least(a, b) == b),
        positions(list).len() == list.len(),
        forall|k: int| 0 <= k < list.len() ==> #[trigger] positions(list)[k] == list[k],
{
}

/// Each block begins where the one before it ends, and the first at the front.
pub proof fn law_offsets_follow_the_sizes(sizes: Seq<u64>, i: int)
    requires
        0 <= i < sizes.len(),
    ensures
        offset(sizes, 0) == 0,
        offset(sizes, i + 1) == offset(sizes, i) + sizes[i],
{
    assert(sizes.take(0) =~= Seq::empty());
    lemma_offset_step(sizes, i);
}

/// A message about a block names the block, then the size that was expected, then
/// the one that came.
pub proof fn law_mismatches_name_block_and_sizes(object_id: String, expected: u64, got: u64)
    ensures
        (SizeMismatch { object_id, expected, got }).words() == "object "@ + object_id@
            + " decompressed size mismatch: expected "@ + numerals::decimal(expected as nat)
            + ", got "@ + numerals::decimal(got as nat),
{
}

} // verus!
