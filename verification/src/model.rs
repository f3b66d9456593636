//! The mathematical model of the delta engine: blocks of the reference
//! file, the chunk index as a map from weak checksum to candidate list,
//! the greedy sliding-window scan that produces a recipe, and the replay
//! of a recipe back into bytes.

use vstd::prelude::*;
use crate::strong::md5_of;
use crate::weak::weak_of;

verus! {

/// One recipe instruction at the specification level: a run of literal
/// bytes, or a reference to a block of the reference file.
pub enum Step {
    Bytes(Seq<u8>),
    Block(u64),
}

pub open spec fn min_nat(a: nat, b: nat) -> nat {
    if a <= b {
        a
    } else {
        b
    }
}

/// How many blocks a reference file of the given length splits into: full
/// blocks of `cs` bytes, plus one shorter final block for any remainder.
pub open spec fn num_blocks(source: Seq<u8>, cs: nat) -> nat
    recommends
        cs >= 1,
{
    (((source.len() + cs - 1) as int) / (cs as int)) as nat
}

/// The bytes of block `i` of the reference file: `cs` bytes starting at
/// `i * cs`, clipped to the end of the file.
pub open spec fn block_at(source: Seq<u8>, cs: nat, i: nat) -> Seq<u8> {
    let lo = if i * cs <= source.len() {
        (i * cs) as int
    } else {
        source.len() as int
    };
    let hi = if (i + 1) * cs <= source.len() {
        ((i + 1) * cs) as int
    } else {
        source.len() as int
    };
    source.subrange(lo, hi)
}

/// Every entry of the candidate list stored under weak checksum `w`
/// describes a real block of the reference file: a block whose weak
/// checksum is `w` and whose strong digest is the stored one.
pub open spec fn candidates_wf(
    w: u32,
    list: Seq<(Seq<u8>, u64)>,
    source: Seq<u8>,
    cs: nat,
) -> bool {
    forall|k: int|
        0 <= k < list.len() ==> {
            let entry = #[trigger] list[k];
            &&& (entry.1 as nat) < num_blocks(source, cs)
            &&& entry.0 == md5_of(block_at(source, cs, entry.1 as nat))
            &&& w == weak_of(block_at(source, cs, entry.1 as nat))
        }
}

/// Block `i` of the reference file is listed in the index, under its own
/// weak checksum and with its own strong digest.
pub open spec fn index_covers(
    index: Map<u32, Seq<(Seq<u8>, u64)>>,
    source: Seq<u8>,
    cs: nat,
    i: nat,
) -> bool {
    let w = weak_of(block_at(source, cs, i));
    &&& index.contains_key(w)
    &&& exists|k: int|
        0 <= k < index[w].len() && index[w][k] == (md5_of(block_at(source, cs, i)), i as u64)
}

/// The chunk index is a faithful, complete picture of the reference file:
/// every listed candidate is a real block, every block is listed, and each
/// candidate list is ordered by ascending block index.
pub open spec fn index_wf(
    index: Map<u32, Seq<(Seq<u8>, u64)>>,
    cs: nat,
    source: Seq<u8>,
) -> bool {
    &&& cs >= 1
    &&& forall|w: u32| index.contains_key(w) ==> candidates_wf(w, #[trigger] index[w], source, cs)
    &&& forall|i: nat| i < num_blocks(source, cs) ==> #[trigger] index_covers(index, source, cs, i)
    &&& forall|w: u32, k1: int, k2: int|
        index.contains_key(w) && 0 <= k1 < k2 < (#[trigger] index[w]).len()
            ==> #[trigger] index[w][k1].1 < #[trigger] index[w][k2].1
}

/// Position of the first candidate in `list` whose strong digest is `s`,
/// or -1 if there is none.
pub open spec fn first_match_idx(list: Seq<(Seq<u8>, u64)>, s: Seq<u8>) -> int
    decreases list.len(),
{
    if list.len() == 0 {
        -1
    } else if list[0].0 == s {
        0
    } else {
        let r = first_match_idx(list.drop_first(), s);
        if r < 0 {
            -1
        } else {
            r + 1
        }
    }
}

/// Whether the scan matches `window` against some block: the weak checksum
/// must be listed and some candidate under it must carry the window's
/// strong digest.
pub open spec fn match_at(index: Map<u32, Seq<(Seq<u8>, u64)>>, window: Seq<u8>) -> bool {
    let w = weak_of(window);
    index.contains_key(w) && first_match_idx(index[w], md5_of(window)) >= 0
}

/// The block index the scan chooses for a matched `window`: the first
/// candidate, in stored order, whose strong digest agrees.
pub open spec fn match_block(index: Map<u32, Seq<(Seq<u8>, u64)>>, window: Seq<u8>) -> u64 {
    let w = weak_of(window);
    index[w][first_match_idx(index[w], md5_of(window))].1
}

/// The recipe the greedy scan produces from the state where `new[l..p]`
/// are the pending literal bytes and `new[p..p + wl]` is the current
/// window.  On a match the pending literal (if any) and a block reference
/// are emitted and the window refills after the match; on a miss the
/// window slides one byte, or the tail is flushed as one literal at the
/// end of the file.
pub open spec fn build_from(
    new: Seq<u8>,
    index: Map<u32, Seq<(Seq<u8>, u64)>>,
    cs: nat,
    l: nat,
    p: nat,
    wl: nat,
) -> Seq<Step>
    decreases new.len() - p,
{
    if !(1 <= cs && l <= p && 1 <= wl && p + wl <= new.len()) {
        Seq::empty()
    } else {
        let window = new.subrange(p as int, (p + wl) as int);
        if match_at(index, window) {
            let lit: Seq<Step> = if l < p {
                seq![Step::Bytes(new.subrange(l as int, p as int))]
            } else {
                Seq::empty()
            };
            let emitted = lit + seq![Step::Block(match_block(index, window))];
            if p + wl == new.len() {
                emitted
            } else {
                emitted + build_from(
                    new,
                    index,
                    cs,
                    (p + wl) as nat,
                    (p + wl) as nat,
                    min_nat(cs, (new.len() - (p + wl)) as nat),
                )
            }
        } else {
            if wl < cs {
                seq![Step::Bytes(new.subrange(l as int, (p + wl) as int))]
            } else if p + wl == new.len() {
                seq![Step::Bytes(new.subrange(l as int, new.len() as int))]
            } else {
                build_from(new, index, cs, l, (p + 1) as nat, wl)
            }
        }
    }
}

/// A reachable state of the greedy scan: the pending literal starts at or
/// before the window, and the window is as long as the chunk size allows
/// before the end of the file.
pub open spec fn scan_wf(new: Seq<u8>, cs: nat, l: nat, p: nat, wl: nat) -> bool {
    &&& 1 <= cs
    &&& l <= p
    &&& 1 <= wl
    &&& p + wl <= new.len()
    &&& wl == min_nat(cs, (new.len() - p) as nat)
}

/// The recipe for a whole target file: nothing for an empty file, else the
/// scan starting with the first window.
pub open spec fn recipe_spec(
    new: Seq<u8>,
    index: Map<u32, Seq<(Seq<u8>, u64)>>,
    cs: nat,
) -> Seq<Step> {
    if new.len() == 0 {
        Seq::empty()
    } else {
        build_from(new, index, cs, 0, 0, min_nat(cs, new.len()))
    }
}

/// The bytes one instruction replays to: a literal run yields its own
/// bytes; a block reference yields the referenced block of the reference
/// file.
pub open spec fn replay_step(source: Seq<u8>, cs: nat, step: Step) -> Seq<u8> {
    match step {
        Step::Bytes(b) => b,
        Step::Block(i) => block_at(source, cs, i as nat),
    }
}

/// The bytes a whole recipe replays to, instruction by instruction.
pub open spec fn replay_steps(source: Seq<u8>, cs: nat, steps: Seq<Step>) -> Seq<u8>
    decreases steps.len(),
{
    if steps.len() == 0 {
        Seq::empty()
    } else {
        replay_steps(source, cs, steps.drop_last()) + replay_step(source, cs, steps.last())
    }
}

/// No two adjacent instructions are both literal runs.
pub open spec fn coalesced(steps: Seq<Step>) -> bool {
    forall|k: int|
        0 <= k && k + 1 < steps.len() ==> !((#[trigger] steps[k]) is Bytes && steps[k + 1] is Bytes)
}

/// The set of distinct block indices a recipe references.
pub open spec fn block_refs(steps: Seq<Step>) -> Set<u64>
    decreases steps.len(),
{
    if steps.len() == 0 {
        Set::empty()
    } else {
        let rest = block_refs(steps.drop_last());
        match steps.last() {
            Step::Block(i) => rest.insert(i),
            Step::Bytes(_) => rest,
        }
    }
}

/// Within `new`, no window shares a strong digest with a block of the
/// reference file without being byte-for-byte equal to it.  Replay is
/// exact for every pair of files that satisfies this; only a strong-hash
/// collision between a window and an unequal block can break it.
pub open spec fn strong_sound(source: Seq<u8>, new: Seq<u8>, cs: nat) -> bool {
    forall|i: nat, a: int, b: int|
        #![trigger md5_of(new.subrange(a, b)), block_at(source, cs, i)]
        i < num_blocks(source, cs) && 0 <= a <= b <= new.len() && md5_of(new.subrange(a, b))
            == md5_of(block_at(source, cs, i)) ==> new.subrange(a, b) == block_at(source, cs, i)
}

/// A block that starts strictly inside the file is counted.
pub proof fn lemma_num_blocks_lower(source: Seq<u8>, cs: nat, i: nat)
    requires
        cs >= 1,
        i * cs < source.len(),
    ensures
        i < num_blocks(source, cs),
{
    let len = source.len() as int;
    let c = cs as int;
    assert((i + 1) * c == i * c + c) by (nonlinear_arith);
    vstd::arithmetic::div_mod::lemma_div_is_ordered((i + 1) as int * c, len + c - 1, c);
    vstd::arithmetic::div_mod::lemma_div_multiples_vanish((i + 1) as int, c);
    assert(c * ((i + 1) as int) == (i + 1) as int * c) by (nonlinear_arith);
}

/// A block that starts inside the file and reaches its end (or past it) is
/// the last one.
pub proof fn lemma_num_blocks_exact(source: Seq<u8>, cs: nat, i: nat)
    requires
        cs >= 1,
        i * cs < source.len(),
        source.len() <= (i + 1) * cs,
    ensures
        num_blocks(source, cs) == i + 1,
{
    let len = source.len() as int;
    let c = cs as int;
    lemma_num_blocks_lower(source, cs, i);
    vstd::arithmetic::div_mod::lemma_div_is_ordered(len + c - 1, (i + 1) as int * c + c - 1, c);
    vstd::arithmetic::div_mod::lemma_hoist_over_denominator(c - 1, (i + 1) as int, cs);
    vstd::arithmetic::div_mod::lemma_basic_div(c - 1, c);
}

/// An empty reference file has no blocks.
pub proof fn lemma_num_blocks_zero(source: Seq<u8>, cs: nat)
    requires
        cs >= 1,
        source.len() == 0,
    ensures
        num_blocks(source, cs) == 0,
{
    vstd::arithmetic::div_mod::lemma_basic_div(cs as int - 1, cs as int);
}

/// What `first_match_idx` returns: -1 exactly when no candidate carries
/// the digest, else the position of the first one that does.
pub proof fn lemma_first_match_idx(list: Seq<(Seq<u8>, u64)>, s: Seq<u8>)
    ensures
        first_match_idx(list, s) >= -1,
        first_match_idx(list, s) == -1 ==> (forall|k: int|
            0 <= k < list.len() ==> (#[trigger] list[k]).0 != s),
        first_match_idx(list, s) >= 0 ==> {
            let r = first_match_idx(list, s);
            &&& r < list.len()
            &&& list[r].0 == s
            &&& forall|k: int| 0 <= k < r ==> (#[trigger] list[k]).0 != s
        },
    decreases list.len(),
{
    if list.len() == 0 {
    } else if list[0].0 == s {
    } else {
        lemma_first_match_idx(list.drop_first(), s);
        assert(forall|k: int|
            1 <= k < list.len() ==> (#[trigger] list[k]) == list.drop_first()[k - 1]);
    }
}

/// The set of distinct block references is finite and no larger than the
/// recipe itself.
pub proof fn lemma_block_refs_bound(steps: Seq<Step>)
    ensures
        block_refs(steps).finite(),
        block_refs(steps).len() <= steps.len(),
    decreases steps.len(),
{
    broadcast use vstd::set::group_set_axioms;

    if steps.len() > 0 {
        lemma_block_refs_bound(steps.drop_last());
    }
}

/// The bytes still to be yielded when the cursor stands at item `i`,
/// offset `off`: the tail of the current item, then all later items.
pub open spec fn concat_from(items: Seq<Seq<u8>>, i: int, off: int) -> Seq<u8>
    decreases items.len() - i,
{
    if i < 0 || i >= items.len() {
        Seq::empty()
    } else if 0 <= off <= items[i].len() {
        items[i].subrange(off, items[i].len() as int) + concat_from(items, i + 1, 0)
    } else {
        concat_from(items, i + 1, 0)
    }
}

/// Appending one more item appends its bytes to the concatenation.
pub proof fn lemma_concat_push(items: Seq<Seq<u8>>, x: Seq<u8>, i: int)
    requires
        0 <= i <= items.len(),
    ensures
        concat_from(items.push(x), i, 0) == concat_from(items, i, 0) + x,
    decreases items.len() - i,
{
    let pushed = items.push(x);
    if i == items.len() {
        assert(pushed[i] == x);
        assert(x.subrange(0, x.len() as int) =~= x);
        assert(concat_from(pushed, i + 1, 0) =~= Seq::<u8>::empty());
        assert(concat_from(pushed, i, 0) =~= x);
        assert(concat_from(items, i, 0) + x =~= x);
    } else {
        lemma_concat_push(items, x, i + 1);
        assert(pushed[i] == items[i]);
        assert(concat_from(pushed, i, 0) =~= concat_from(items, i, 0) + x);
    }
}

/// If each stored item holds exactly the bytes its instruction replays
/// to, the concatenation of the items is the replay of the recipe.
pub proof fn lemma_concat_replay(items: Seq<Seq<u8>>, source: Seq<u8>, cs: nat, steps: Seq<Step>)
    requires
        items.len() == steps.len(),
        forall|j: int| 0 <= j < steps.len() ==> items[j] == replay_step(source, cs, #[trigger] steps[j]),
    ensures
        concat_from(items, 0, 0) == replay_steps(source, cs, steps),
    decreases steps.len(),
{
    if steps.len() == 0 {
    } else {
        let front = items.drop_last();
        lemma_concat_replay(front, source, cs, steps.drop_last());
        lemma_concat_push(front, items.last(), 0);
        assert(front.push(items.last()) =~= items);
    }
}

} // verus!
