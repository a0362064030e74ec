//! Block identity: handing out ids, giving every unidentified block and note one on load, and the
//! orders derived from identities — which notes are set, what they are numbered, which blocks a
//! cross-reference points at.
//!
//! Blocks and footnotes share one id space. A duplicate is refused rather than repaired.

use vstd::prelude::*;
use crate::load::LoadError;
use crate::model::{BlockId, RunSource};
use crate::numbering::{decimal_digits, footnote_number};

verus! {

/// Hand out a fresh id from the document's counter, never one already used: ids start at 1 so
/// that 0 can mean unassigned.
pub fn new_block_id(next_block_id: &mut u64) -> (id: BlockId)
    requires
        *old(next_block_id) < u64::MAX,
    ensures
        id.0 == (if *old(next_block_id) == 0 { 1 } else { *old(next_block_id) }),
        *final(next_block_id) == id.0 + 1,
{
    if *next_block_id == 0 {
        *next_block_id = 1;
    }
    let id = BlockId(*next_block_id);
    *next_block_id = *next_block_id + 1;
    id
}

/// The first position (among the first `n`) whose assigned id repeats an earlier one.
pub open spec fn first_duplicate(ids: Seq<BlockId>, n: int) -> Option<int>
    decreases n,
{
    if n <= 0 {
        None
    } else {
        match first_duplicate(ids, n - 1) {
            Some(j) => Some(j),
            None => if ids[n - 1].0 != 0 && exists|k: int| 0 <= k < n - 1 && #[trigger] ids[k] == ids[n - 1] {
                Some(n - 1)
            } else {
                None
            },
        }
    }
}

/// The highest id among the first `n` (0 if none is assigned).
pub open spec fn highest_id(ids: Seq<BlockId>, n: int) -> nat
    decreases n,
{
    if n <= 0 {
        0
    } else {
        let rest = highest_id(ids, n - 1);
        if ids[n - 1].0 > rest { ids[n - 1].0 as nat } else { rest }
    }
}

/// How many of the first `n` are unassigned.
pub open spec fn unassigned_count(ids: Seq<BlockId>, n: int) -> nat
    decreases n,
{
    if n <= 0 {
        0
    } else {
        unassigned_count(ids, n - 1) + if ids[n - 1].0 == 0 { 1nat } else { 0nat }
    }
}

/// The first id handed out: past the counter, and past every id already in use.
pub open spec fn first_fresh(ids: Seq<BlockId>, next_block_id: u64) -> nat {
    let above = highest_id(ids, ids.len() as int) + 1;
    if next_block_id >= above { next_block_id as nat } else { above }
}

/// `ids` with each unassigned one given the next fresh id, in order, starting at `start`.
pub open spec fn filled(ids: Seq<BlockId>, start: nat) -> Seq<BlockId> {
    Seq::new(ids.len(), |i: int| if ids[i].0 == 0 { BlockId((start + unassigned_count(ids, i)) as u64) } else { ids[i] })
}

proof fn lemma_highest_bounds(ids: Seq<BlockId>, n: int)
    requires
        0 <= n <= ids.len(),
    ensures
        forall|i: int| 0 <= i < n ==> (#[trigger] ids[i]).0 <= highest_id(ids, n),
        highest_id(ids, n) <= u64::MAX,
    decreases n,
{
    if n > 0 {
        lemma_highest_bounds(ids, n - 1);
    }
}

proof fn lemma_unassigned_count_grows(ids: Seq<BlockId>, i: int, j: int)
    requires
        0 <= i < j <= ids.len(),
        ids[i].0 == 0,
    ensures
        unassigned_count(ids, i) < unassigned_count(ids, j),
    decreases j - i,
{
    if j > i + 1 {
        lemma_unassigned_count_grows(ids, i, j - 1);
    }
}

/// Counting unassigned ids over a longer prefix never counts fewer.
pub proof fn lemma_unassigned_count_bounded(ids: Seq<BlockId>, i: int, n: int)
    requires
        0 <= i <= n <= ids.len(),
    ensures
        unassigned_count(ids, i) <= unassigned_count(ids, n),
    decreases n - i,
{
    if n > i {
        lemma_unassigned_count_bounded(ids, i, n - 1);
    }
}

/// Give every unidentified block and footnote an id, and refuse identified ones that are not
/// unique.
///
/// `blocks` and `notes` are the ids of the document's content blocks and of its footnotes, which
/// share one id space. On success each unassigned id, blocks first and then notes, in order, takes
/// the next fresh id from the later of the counter and one past the highest id in use, and the
/// counter moves past them. A duplicate is refused, naming the first id that repeats, and nothing
/// changes.
pub fn assign_missing_block_ids(
    blocks: &mut Vec<BlockId>,
    notes: &mut Vec<BlockId>,
    next_block_id: &mut u64,
) -> (r: Result<(), LoadError>)
    requires
        old(blocks)@.len() + old(notes)@.len() <= usize::MAX,
        first_duplicate(old(blocks)@ + old(notes)@, (old(blocks)@.len() + old(notes)@.len()) as int) is None ==> first_fresh(
            old(blocks)@ + old(notes)@,
            *old(next_block_id),
        ) + unassigned_count(old(blocks)@ + old(notes)@, (old(blocks)@.len() + old(notes)@.len()) as int) <= u64::MAX,
    ensures
        ({
            let ids = old(blocks)@ + old(notes)@;
            let n = ids.len() as int;
            match r {
                Ok(()) => {
                    &&& first_duplicate(ids, n) is None
                    &&& final(blocks)@ + final(notes)@ == filled(ids, first_fresh(ids, *old(next_block_id)))
                    &&& final(blocks)@.len() == old(blocks)@.len()
                    &&& *final(next_block_id) == first_fresh(ids, *old(next_block_id)) + unassigned_count(ids, n)
                },
                Err(e) => {
                    &&& first_duplicate(ids, n) matches Some(j) && e == LoadError::DuplicateBlockId(ids[j].0)
                    &&& final(blocks)@ == old(blocks)@
                    &&& final(notes)@ == old(notes)@
                    &&& *final(next_block_id) == *old(next_block_id)
                },
            }
        }),
{
    let ghost ids = blocks@ + notes@;
    let nb = blocks.len();
    let total = blocks.len() + notes.len();
    // Refuse a duplicate before changing anything.
    let mut j: usize = 0;
    let mut highest: u64 = 0;
    while j < total
        invariant
            ids == blocks@ + notes@,
            nb == blocks@.len(),
            total == ids.len(),
            0 <= j <= total,
            first_duplicate(ids, j as int) is None,
            highest == highest_id(ids, j as int),
        decreases total - j,
    {
        let id = if j < nb { blocks[j] } else { notes[j - nb] };
        assert(id == ids[j as int]);
        if id.0 != 0 {
            let mut k: usize = 0;
            while k < j
                invariant
                    ids == blocks@ + notes@,
                    nb == blocks@.len(),
                    total == ids.len(),
                    0 <= k <= j < total,
                    id == ids[j as int],
                    id.0 != 0,
                    first_duplicate(ids, j as int) is None,
                    forall|q: int| 0 <= q < k ==> ids[q] != id,
                decreases j - k,
            {
                let other = if k < nb { blocks[k] } else { notes[k - nb] };
                assert(other == ids[k as int]);
                if other.0 == id.0 {
                    assert(ids[k as int] == ids[j as int]);
                    assert(first_duplicate(ids, j + 1) == Some(j as int));
                    proof {
                        lemma_first_duplicate_stays(ids, j + 1, total as int);
                    }
                    return Err(LoadError::DuplicateBlockId(id.0));
                }
                k = k + 1;
            }
            assert(!exists|q: int| 0 <= q < j && #[trigger] ids[q] == ids[j as int]);
        }
        if id.0 > highest {
            highest = id.0;
        }
        j = j + 1;
    }
    proof {
        lemma_highest_bounds(ids, total as int);
        lemma_unassigned_count_bounded(ids, 0, total as int);
    }
    assert(highest < u64::MAX);
    let start: u64 = if *next_block_id >= highest + 1 { *next_block_id } else { highest + 1 };
    let mut next = start;
    let mut i: usize = 0;
    while i < nb
        invariant
            ids == old(blocks)@ + old(notes)@,
            nb == blocks@.len() == old(blocks)@.len(),
            notes@ == old(notes)@,
            total == ids.len(),
            0 <= i <= nb,
            start == first_fresh(ids, *old(next_block_id)),
            start + unassigned_count(ids, total as int) <= u64::MAX,
            next == start + unassigned_count(ids, i as int),
            forall|q: int| 0 <= q < i ==> blocks@[q] == filled(ids, start as nat)[q],
            forall|q: int| i <= q < nb ==> blocks@[q] == ids[q],
        decreases nb - i,
    {
        proof {
            lemma_unassigned_count_bounded(ids, i + 1, total as int);
        }
        if blocks[i].0 == 0 {
            blocks.set(i, BlockId(next));
            next = next + 1;
        }
        i = i + 1;
    }
    let mut m: usize = 0;
    while m < notes.len()
        invariant
            ids == old(blocks)@ + old(notes)@,
            nb == blocks@.len() == old(blocks)@.len(),
            notes@.len() == old(notes)@.len(),
            total == ids.len(),
            0 <= m <= notes@.len(),
            start == first_fresh(ids, *old(next_block_id)),
            start + unassigned_count(ids, total as int) <= u64::MAX,
            next == start + unassigned_count(ids, nb + m),
            forall|q: int| 0 <= q < nb ==> blocks@[q] == filled(ids, start as nat)[q],
            forall|q: int| 0 <= q < m ==> notes@[q] == filled(ids, start as nat)[nb + q],
            forall|q: int| m <= q < notes@.len() ==> notes@[q] == ids[nb + q],
        decreases notes.len() - m,
    {
        proof {
            lemma_unassigned_count_bounded(ids, nb + m + 1, total as int);
        }
        if notes[m].0 == 0 {
            notes.set(m, BlockId(next));
            next = next + 1;
        }
        m = m + 1;
    }
    assert(blocks@ + notes@ =~= filled(ids, start as nat));
    *next_block_id = next;
    Ok(())
}

proof fn lemma_first_duplicate_stays(ids: Seq<BlockId>, m: int, n: int)
    requires
        0 <= m <= n,
        first_duplicate(ids, m) is Some,
    ensures
        first_duplicate(ids, n) == first_duplicate(ids, m),
    decreases n - m,
{
    if n > m {
        lemma_first_duplicate_stays(ids, m, n - 1);
    }
}

proof fn lemma_no_duplicate(ids: Seq<BlockId>, n: int)
    requires
        0 <= n <= ids.len(),
        first_duplicate(ids, n) is None,
    ensures
        forall|a: int, b: int| 0 <= a < b < n && ids[b].0 != 0 ==> #[trigger] ids[a] != #[trigger] ids[b],
    decreases n,
{
    if n > 0 {
        lemma_no_duplicate(ids, n - 1);
        assert forall|a: int, b: int| 0 <= a < b < n && ids[b].0 != 0 implies #[trigger] ids[a] != #[trigger] ids[b] by {
            if b == n - 1 {
                if ids[a] == ids[b] {
                    assert(exists|k: int| 0 <= k < n - 1 && #[trigger] ids[k] == ids[n - 1]);
                }
            }
        }
    }
}

/// **An assigned id is never changed**: assignment keeps every id already assigned where it is,
/// so assigning again — to ids that are all assigned, as after a load — changes nothing.
pub proof fn lemma_assignment_keeps_assigned_ids(ids: Seq<BlockId>, start: nat)
    ensures
        filled(ids, start).len() == ids.len(),
        forall|i: int| 0 <= i < ids.len() && ids[i].0 != 0 ==> #[trigger] filled(ids, start)[i] == ids[i],
        (forall|i: int| 0 <= i < ids.len() ==> (#[trigger] ids[i]).0 != 0) ==> filled(ids, start) == ids,
{
    if forall|i: int| 0 <= i < ids.len() ==> (#[trigger] ids[i]).0 != 0 {
        assert(filled(ids, start) =~= ids);
    }
}

/// **After a successful assignment every id is assigned, no two are equal, and the counter is past
/// them all**: a block built or loaded later can never be handed an id already in the document.
pub proof fn lemma_assignment_is_unique(ids: Seq<BlockId>, next_block_id: u64)
    requires
        first_duplicate(ids, ids.len() as int) is None,
    ensures
        ({
            let start = first_fresh(ids, next_block_id);
            let out = filled(ids, start);
            &&& out.len() == ids.len()
            &&& forall|i: int| 0 <= i < out.len() ==> (#[trigger] out[i]).0 != 0 || start + unassigned_count(ids, i) > u64::MAX
            &&& forall|i: int| 0 <= i < out.len() && start + unassigned_count(ids, ids.len() as int) <= u64::MAX
                ==> (#[trigger] out[i]).0 < start + unassigned_count(ids, ids.len() as int)
            &&& forall|a: int, b: int| 0 <= a < b < out.len() && start + unassigned_count(ids, ids.len() as int) <= u64::MAX
                ==> #[trigger] out[a] != #[trigger] out[b]
        }),
{
    let n = ids.len() as int;
    let start = first_fresh(ids, next_block_id);
    let out = filled(ids, start);
    lemma_highest_bounds(ids, n);
    lemma_no_duplicate(ids, n);
    assert forall|i: int| 0 <= i < out.len() implies (#[trigger] out[i]).0 != 0 || start + unassigned_count(ids, i) > u64::MAX by {
        if ids[i].0 == 0 && start + unassigned_count(ids, i) <= u64::MAX {
            assert(start >= 1);
        }
    }
    assert forall|i: int| 0 <= i < out.len() && start + unassigned_count(ids, n) <= u64::MAX
        implies (#[trigger] out[i]).0 < start + unassigned_count(ids, n) by {
        if ids[i].0 == 0 {
            lemma_unassigned_count_grows(ids, i, n);
        } else {
            assert(ids[i].0 <= highest_id(ids, n));
        }
    }
    assert forall|a: int, b: int| 0 <= a < b < out.len() && start + unassigned_count(ids, n) <= u64::MAX
        implies #[trigger] out[a] != #[trigger] out[b] by {
        lemma_unassigned_count_bounded(ids, b, n);
        lemma_unassigned_count_bounded(ids, a, n);
        if ids[a].0 == 0 && ids[b].0 == 0 {
            lemma_unassigned_count_grows(ids, a, b);
        } else if ids[a].0 == 0 {
            assert(ids[b].0 <= highest_id(ids, n));
        } else if ids[b].0 == 0 {
            assert(ids[a].0 <= highest_id(ids, n));
        } else {
            assert(ids[a] != ids[b]);
        }
    }
}

/// The first position among the first `n` anchors that names `id`.
pub open spec fn anchored_before(anchors: Seq<BlockId>, id: BlockId, n: int) -> bool {
    exists|k: int| 0 <= k < n && #[trigger] anchors[k] == id
}

/// The first note (by position) with identity `id`, among the first `n`.
pub open spec fn first_note(notes: Seq<BlockId>, id: BlockId, n: int) -> Option<int>
    decreases n,
{
    if n <= 0 {
        None
    } else {
        match first_note(notes, id, n - 1) {
            Some(i) => Some(i),
            None => if notes[n - 1] == id { Some(n - 1) } else { None },
        }
    }
}

/// The notes that are set, in the order they are set and numbered: the first `n` anchors in
/// document order, each note once, the first time an anchor names it, and only if the document
/// holds it — as (note id, position of the note among the document's footnotes).
pub open spec fn footnote_order_spec(anchors: Seq<BlockId>, notes: Seq<BlockId>, n: int) -> Seq<(BlockId, int)>
    decreases n,
{
    if n <= 0 {
        Seq::empty()
    } else {
        let rest = footnote_order_spec(anchors, notes, n - 1);
        let id = anchors[n - 1];
        if anchored_before(anchors, id, n - 1) {
            rest
        } else {
            match first_note(notes, id, notes.len() as int) {
                Some(i) => rest.push((id, i)),
                None => rest,
            }
        }
    }
}

/// Which notes are set, in the order they are set and numbered.
///
/// `anchors` are the note ids the content's footnote anchors name, in document order; `notes` are
/// the ids of the document's footnotes. Each note is set once, where an anchor first names it; an
/// anchor naming a note the document does not hold sets nothing (it prints the unresolved marker),
/// and the notes that are there stay numbered without a hole.
pub fn footnote_order(anchors: &[BlockId], notes: &[BlockId]) -> (out: Vec<(BlockId, usize)>)
    ensures
        out@.len() == footnote_order_spec(anchors@, notes@, anchors@.len() as int).len(),
        forall|i: int| 0 <= i < out@.len() ==> (#[trigger] out@[i]).0 == footnote_order_spec(anchors@, notes@, anchors@.len() as int)[i].0
            && out@[i].1 as int == footnote_order_spec(anchors@, notes@, anchors@.len() as int)[i].1,
{
    let mut out: Vec<(BlockId, usize)> = Vec::new();
    let mut a: usize = 0;
    while a < anchors.len()
        invariant
            0 <= a <= anchors@.len(),
            out@.len() == footnote_order_spec(anchors@, notes@, a as int).len(),
            forall|i: int| 0 <= i < out@.len() ==> (#[trigger] out@[i]).0 == footnote_order_spec(anchors@, notes@, a as int)[i].0
                && out@[i].1 as int == footnote_order_spec(anchors@, notes@, a as int)[i].1,
        decreases anchors.len() - a,
    {
        let id = anchors[a];
        let mut seen = false;
        let mut k: usize = 0;
        while k < a
            invariant
                0 <= k <= a < anchors@.len(),
                id == anchors@[a as int],
                seen == anchored_before(anchors@, id, k as int),
            decreases a - k,
        {
            if anchors[k].0 == id.0 {
                assert(anchors@[k as int] == id);
                seen = true;
            }
            k = k + 1;
        }
        if !seen {
            let mut found: Option<usize> = None;
            let mut q: usize = 0;
            while q < notes.len()
                invariant
                    0 <= q <= notes@.len(),
                    match found {
                        Some(i) => first_note(notes@, id, q as int) == Some(i as int),
                        None => first_note(notes@, id, q as int) is None,
                    },
                decreases notes.len() - q,
            {
                if found.is_none() && notes[q].0 == id.0 {
                    assert(notes@[q as int] == id);
                    found = Some(q);
                }
                q = q + 1;
            }
            if let Some(i) = found {
                out.push((id, i));
            }
        }
        a = a + 1;
    }
    out
}

/// What each set note prints: 1, 2, 3… in the order [`footnote_order`] sets them.
pub fn footnote_numbers(set_notes: &[BlockId]) -> (out: Vec<(BlockId, String)>)
    requires
        set_notes@.len() < u32::MAX,
    ensures
        out@.len() == set_notes@.len(),
        forall|i: int| 0 <= i < out@.len() ==> (#[trigger] out@[i]).0 == set_notes@[i]
            && out@[i].1@ == decimal_digits((i + 1) as nat),
{
    let mut out: Vec<(BlockId, String)> = Vec::new();
    let mut i: usize = 0;
    while i < set_notes.len()
        invariant
            0 <= i <= set_notes@.len() < u32::MAX,
            out@.len() == i,
            forall|k: int| 0 <= k < i ==> (#[trigger] out@[k]).0 == set_notes@[k]
                && out@[k].1@ == decimal_digits((k + 1) as nat),
        decreases set_notes.len() - i,
    {
        let n: u32 = (i + 1) as u32;
        out.push((set_notes[i], footnote_number(n)));
        i = i + 1;
    }
    out
}

/// Every block a cross-reference among `sources` points at, in the order first pointed at.
pub fn reference_targets(sources: &[RunSource]) -> (out: Vec<BlockId>)
    ensures
        out@.to_set() == Set::new(|id: BlockId| exists|k: int| 0 <= k < sources@.len()
            && #[trigger] sources@[k] == (RunSource::Reference { target: id })),
        out@.no_duplicates(),
{
    let mut out: Vec<BlockId> = Vec::new();
    let mut k: usize = 0;
    while k < sources.len()
        invariant
            0 <= k <= sources@.len(),
            out@.no_duplicates(),
            out@.to_set() == Set::new(|id: BlockId| exists|j: int| 0 <= j < k
                && #[trigger] sources@[j] == (RunSource::Reference { target: id })),
        decreases sources.len() - k,
    {
        let ghost before = out@;
        if let Some(t) = sources[k].target() {
            let mut present = false;
            let mut q: usize = 0;
            while q < out.len()
                invariant
                    0 <= q <= out@.len(),
                    out@ == before,
                    present == exists|j: int| 0 <= j < q && out@[j] == t,
                decreases out.len() - q,
            {
                if out[q].0 == t.0 {
                    present = true;
                }
                q = q + 1;
            }
            if present {
                let ghost w = choose|j: int| 0 <= j < out@.len() && out@[j] == t;
                assert(out@[w] == t);
                assert(out@.contains(t));
            } else {
                out.push(t);
                assert(out@[out@.len() - 1] == t);
                assert(out@.contains(t));
                proof {
                    assert forall|a: int, b: int| 0 <= a < b < out@.len() implies out@[a] != out@[b] by {
                        if b == out@.len() - 1 {
                            assert(out@[a] == before[a]);
                        } else {
                            assert(out@[a] == before[a] && out@[b] == before[b]);
                        }
                    }
                }
            }
        }
        proof {
            let target_set = Set::new(|id: BlockId| exists|j: int| 0 <= j < k + 1
                && #[trigger] sources@[j] == (RunSource::Reference { target: id }));
            let old_set = Set::new(|id: BlockId| exists|j: int| 0 <= j < k
                && #[trigger] sources@[j] == (RunSource::Reference { target: id }));
            assert(before.to_set() == old_set);
            assert forall|id: BlockId| out@.to_set().contains(id) <==> target_set.contains(id) by {
                if target_set.contains(id) {
                    let j = choose|j: int| 0 <= j < k + 1 && #[trigger] sources@[j] == (RunSource::Reference { target: id });
                    if j < k {
                        assert(old_set.contains(id));
                        assert(before.contains(id));
                        let w = choose|w: int| 0 <= w < before.len() && before[w] == id;
                        assert(out@[w] == id);
                    } else {
                        assert(out@.contains(id));
                    }
                }
                if out@.to_set().contains(id) {
                    let w = choose|w: int| 0 <= w < out@.len() && out@[w] == id;
                    if w < before.len() {
                        assert(before[w] == id);
                        assert(before.contains(id));
                        assert(old_set.contains(id));
                        let j = choose|j: int| 0 <= j < k && #[trigger] sources@[j] == (RunSource::Reference { target: id });
                        assert(target_set.contains(id));
                    } else {
                        assert(sources@[k as int] == (RunSource::Reference { target: id }));
                        assert(target_set.contains(id));
                    }
                }
            }
            assert(out@.to_set() =~= target_set);
        }
        k = k + 1;
    }
    out
}

} // verus!
