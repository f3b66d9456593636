//! The global guarantees of the engine, each proved once over the model:
//! replaying a recipe rebuilds the target file exactly, empty inputs
//! produce the degenerate recipes, a window equal to an indexed block is
//! never scanned past without a block reference being emitted, and no
//! recipe holds two adjacent literal runs.

use vstd::prelude::*;
use crate::model::{
    block_at, build_from, candidates_wf, coalesced, first_match_idx, index_covers, index_wf,
    lemma_first_match_idx, match_at, match_block, min_nat, num_blocks, recipe_spec, replay_step,
    replay_steps, scan_wf, strong_sound, Step,
};
use crate::strong::md5_of;
use crate::weak::weak_of;

verus! {

/// Replay distributes over concatenation of recipes.
proof fn lemma_replay_concat(source: Seq<u8>, cs: nat, a: Seq<Step>, b: Seq<Step>)
    ensures
        replay_steps(source, cs, a + b) == replay_steps(source, cs, a) + replay_steps(
            source,
            cs,
            b,
        ),
    decreases b.len(),
{
    if b.len() == 0 {
        assert(a + b =~= a);
        assert(replay_steps(source, cs, a) + replay_steps(source, cs, b) =~= replay_steps(
            source,
            cs,
            a,
        ));
    } else {
        lemma_replay_concat(source, cs, a, b.drop_last());
        assert((a + b).drop_last() =~= a + b.drop_last());
        assert((a + b).last() == b.last());
        assert(replay_steps(source, cs, a) + (replay_steps(source, cs, b.drop_last())
            + replay_step(source, cs, b.last())) =~= (replay_steps(source, cs, a) + replay_steps(
            source,
            cs,
            b.drop_last(),
        )) + replay_step(source, cs, b.last()));
    }
}

/// Replay of a single instruction.
proof fn lemma_replay_singleton(source: Seq<u8>, cs: nat, s: Step)
    ensures
        replay_steps(source, cs, seq![s]) == replay_step(source, cs, s),
{
    assert(seq![s].drop_last() =~= Seq::<Step>::empty());
    assert(seq![s].last() == s);
    assert(replay_steps(source, cs, Seq::<Step>::empty()) == Seq::<u8>::empty());
    assert(Seq::<u8>::empty() + replay_step(source, cs, s) =~= replay_step(source, cs, s));
}

/// On a match, the scan's chosen block holds exactly the window's bytes
/// (absent a strong-hash collision).
proof fn lemma_match_exact(
    source: Seq<u8>,
    new: Seq<u8>,
    index: Map<u32, Seq<(Seq<u8>, u64)>>,
    cs: nat,
    p: nat,
    wl: nat,
)
    requires
        index_wf(index, cs, source),
        strong_sound(source, new, cs),
        p + wl <= new.len(),
        match_at(index, new.subrange(p as int, (p + wl) as int)),
    ensures
        ({
            let window = new.subrange(p as int, (p + wl) as int);
            let b = match_block(index, window);
            &&& (b as nat) < num_blocks(source, cs)
            &&& block_at(source, cs, b as nat) == window
        }),
{
    let window = new.subrange(p as int, (p + wl) as int);
    let w = weak_of(window);
    let fmi = first_match_idx(index[w], md5_of(window));
    lemma_first_match_idx(index[w], md5_of(window));
    assert(candidates_wf(w, index[w], source, cs));
    let entry = index[w][fmi];
    assert(entry.0 == md5_of(block_at(source, cs, entry.1 as nat)));
    assert(md5_of(window) == md5_of(block_at(source, cs, entry.1 as nat)));
    assert(window == block_at(source, cs, entry.1 as nat));
}

/// From any reachable scan state, replaying what the scan still emits
/// yields precisely the unconsumed bytes of the target file.
proof fn lemma_build_from_replay(
    source: Seq<u8>,
    new: Seq<u8>,
    index: Map<u32, Seq<(Seq<u8>, u64)>>,
    cs: nat,
    l: nat,
    p: nat,
    wl: nat,
)
    requires
        index_wf(index, cs, source),
        strong_sound(source, new, cs),
        scan_wf(new, cs, l, p, wl),
    ensures
        replay_steps(source, cs, build_from(new, index, cs, l, p, wl)) == new.subrange(
            l as int,
            new.len() as int,
        ),
    decreases new.len() - p,
{
    let n = new.len() as int;
    let window = new.subrange(p as int, (p + wl) as int);
    if match_at(index, window) {
        lemma_match_exact(source, new, index, cs, p, wl);
        let b = match_block(index, window);
        let lit: Seq<Step> = if l < p {
            seq![Step::Bytes(new.subrange(l as int, p as int))]
        } else {
            Seq::empty()
        };
        let emitted = lit + seq![Step::Block(b)];
        lemma_replay_concat(source, cs, lit, seq![Step::Block(b)]);
        lemma_replay_singleton(source, cs, Step::Block(b));
        if l < p {
            lemma_replay_singleton(source, cs, Step::Bytes(new.subrange(l as int, p as int)));
            assert(replay_steps(source, cs, lit) == new.subrange(l as int, p as int));
        }
        assert(replay_steps(source, cs, emitted) =~= new.subrange(l as int, (p + wl) as int));
        if p + wl == new.len() {
            assert(build_from(new, index, cs, l, p, wl) == emitted);
        } else {
            let p2 = (p + wl) as nat;
            let wl2 = min_nat(cs, (new.len() - p2) as nat);
            let rest = build_from(new, index, cs, p2, p2, wl2);
            lemma_build_from_replay(source, new, index, cs, p2, p2, wl2);
            lemma_replay_concat(source, cs, emitted, rest);
            assert(new.subrange(l as int, (p + wl) as int) + new.subrange(p2 as int, n)
                =~= new.subrange(l as int, n));
        }
    } else {
        if wl < cs {
            assert(p + wl == new.len());
            lemma_replay_singleton(source, cs, Step::Bytes(new.subrange(l as int, n)));
        } else if p + wl == new.len() {
            lemma_replay_singleton(source, cs, Step::Bytes(new.subrange(l as int, n)));
        } else {
            lemma_build_from_replay(source, new, index, cs, l, (p + 1) as nat, wl);
        }
    }
}

/// Round trip: against a faithful, complete index of the reference file,
/// replaying the recipe built for a target file yields that target file,
/// byte for byte, for any chunk size and any pair of files in which no
/// window of the target collides with an unequal block under the strong
/// digest.
pub proof fn lemma_round_trip(
    source: Seq<u8>,
    new: Seq<u8>,
    index: Map<u32, Seq<(Seq<u8>, u64)>>,
    cs: nat,
)
    requires
        index_wf(index, cs, source),
        strong_sound(source, new, cs),
    ensures
        replay_steps(source, cs, recipe_spec(new, index, cs)) == new,
{
    if new.len() == 0 {
        assert(replay_steps(source, cs, recipe_spec(new, index, cs)) =~= new);
    } else {
        let wl = min_nat(cs, new.len());
        lemma_build_from_replay(source, new, index, cs, 0, 0, wl);
        assert(new.subrange(0, new.len() as int) =~= new);
    }
}

/// An empty target file always yields an empty recipe.
pub proof fn lemma_empty_target(new: Seq<u8>, index: Map<u32, Seq<(Seq<u8>, u64)>>, cs: nat)
    requires
        new.len() == 0,
    ensures
        recipe_spec(new, index, cs) == Seq::<Step>::empty(),
{
}

/// Against the index of an empty reference file, a non-empty target file
/// yields a single literal holding the whole file.
pub proof fn lemma_empty_index(
    source: Seq<u8>,
    new: Seq<u8>,
    index: Map<u32, Seq<(Seq<u8>, u64)>>,
    cs: nat,
)
    requires
        index_wf(index, cs, source),
        source.len() == 0,
        new.len() > 0,
    ensures
        recipe_spec(new, index, cs) == seq![Step::Bytes(new)],
{
    crate::model::lemma_num_blocks_zero(source, cs);
    lemma_empty_index_from(source, new, index, cs, 0, 0, min_nat(cs, new.len()));
    assert(new.subrange(0, new.len() as int) =~= new);
}

proof fn lemma_empty_index_from(
    source: Seq<u8>,
    new: Seq<u8>,
    index: Map<u32, Seq<(Seq<u8>, u64)>>,
    cs: nat,
    l: nat,
    p: nat,
    wl: nat,
)
    requires
        index_wf(index, cs, source),
        num_blocks(source, cs) == 0,
        scan_wf(new, cs, l, p, wl),
    ensures
        build_from(new, index, cs, l, p, wl) == seq![
            Step::Bytes(new.subrange(l as int, new.len() as int)),
        ],
    decreases new.len() - p,
{
    let window = new.subrange(p as int, (p + wl) as int);
    if match_at(index, window) {
        let w = weak_of(window);
        let fmi = first_match_idx(index[w], md5_of(window));
        lemma_first_match_idx(index[w], md5_of(window));
        assert(candidates_wf(w, index[w], source, cs));
        assert((index[w][fmi].1 as nat) < num_blocks(source, cs));
        assert(false);
    }
    if wl < cs {
        assert(p + wl == new.len());
    } else if p + wl == new.len() {
    } else {
        lemma_empty_index_from(source, new, index, cs, l, (p + 1) as nat, wl);
    }
}

/// The scan never slides past a position whose full window equals an
/// indexed block: if any such position exists, the recipe holds at least
/// one block reference.
pub proof fn lemma_no_skipped_window(
    source: Seq<u8>,
    new: Seq<u8>,
    index: Map<u32, Seq<(Seq<u8>, u64)>>,
    cs: nat,
    j: nat,
    i: nat,
)
    requires
        index_wf(index, cs, source),
        i < num_blocks(source, cs),
        j + cs <= new.len(),
        new.subrange(j as int, (j + cs) as int) == block_at(source, cs, i),
    ensures
        exists|k: int|
            0 <= k < recipe_spec(new, index, cs).len() && recipe_spec(new, index, cs)[k] is Block,
{
    lemma_scan_reaches(source, new, index, cs, 0, 0, min_nat(cs, new.len()), j, i);
    let built = build_from(new, index, cs, 0, 0, min_nat(cs, new.len()));
    let k0 = choose|k: int| 0 <= k < built.len() && built[k] is Block;
    assert(recipe_spec(new, index, cs) == built);
    assert(recipe_spec(new, index, cs)[k0] is Block);
}

proof fn lemma_scan_reaches(
    source: Seq<u8>,
    new: Seq<u8>,
    index: Map<u32, Seq<(Seq<u8>, u64)>>,
    cs: nat,
    l: nat,
    p: nat,
    wl: nat,
    j: nat,
    i: nat,
)
    requires
        index_wf(index, cs, source),
        i < num_blocks(source, cs),
        j + cs <= new.len(),
        new.subrange(j as int, (j + cs) as int) == block_at(source, cs, i),
        scan_wf(new, cs, l, p, wl),
        p <= j,
    ensures
        exists|k: int|
            0 <= k < build_from(new, index, cs, l, p, wl).len() && build_from(
                new,
                index,
                cs,
                l,
                p,
                wl,
            )[k] is Block,
    decreases j - p,
{
    let n = new.len() as int;
    let window = new.subrange(p as int, (p + wl) as int);
    let result = build_from(new, index, cs, l, p, wl);
    if match_at(index, window) {
        let b = match_block(index, window);
        let lit: Seq<Step> = if l < p {
            seq![Step::Bytes(new.subrange(l as int, p as int))]
        } else {
            Seq::empty()
        };
        let pos = lit.len() as int;
        assert(result[pos] is Block);
        assert(0 <= pos < result.len());
    } else {
        // a miss at j itself is impossible: the window there is an
        // indexed block, so both checksums match
        if p == j {
            assert(wl == cs);
            assert(window == block_at(source, cs, i));
            assert(index_covers(index, source, cs, i));
            let w = weak_of(block_at(source, cs, i));
            let s = md5_of(block_at(source, cs, i));
            let k = choose|k: int| 0 <= k < index[w].len() && index[w][k] == (s, i as u64);
            lemma_first_match_idx(index[w], s);
            assert(first_match_idx(index[w], s) >= 0);
            assert(false);
        }
        assert(wl == cs);
        assert(p + wl < n);
        lemma_scan_reaches(source, new, index, cs, l, (p + 1) as nat, wl, j, i);
    }
}

/// No two adjacent instructions of a produced recipe are both literals.
pub proof fn lemma_recipe_coalesced(new: Seq<u8>, index: Map<u32, Seq<(Seq<u8>, u64)>>, cs: nat)
    ensures
        coalesced(recipe_spec(new, index, cs)),
{
    if new.len() > 0 {
        lemma_build_from_coalesced(new, index, cs, 0, 0, min_nat(cs, new.len()));
    }
}

/// Appending after a sequence that ends in a block reference keeps the
/// no-adjacent-literals property.
proof fn lemma_coalesced_concat(a: Seq<Step>, b: Seq<Step>)
    requires
        coalesced(a),
        coalesced(b),
        a.len() > 0,
        !(a.last() is Bytes),
    ensures
        coalesced(a + b),
{
    let c = a + b;
    assert forall|k: int| 0 <= k && k + 1 < c.len() implies !((#[trigger] c[k]) is Bytes && c[k
        + 1] is Bytes) by {
        if k + 1 < a.len() {
            assert(c[k] == a[k] && c[k + 1] == a[k + 1]);
        } else if k + 1 == a.len() {
            assert(c[k] == a[a.len() - 1]);
        } else {
            assert(c[k] == b[k - a.len()] && c[k + 1] == b[k + 1 - a.len()]);
        }
    }
}

proof fn lemma_build_from_coalesced(
    new: Seq<u8>,
    index: Map<u32, Seq<(Seq<u8>, u64)>>,
    cs: nat,
    l: nat,
    p: nat,
    wl: nat,
)
    ensures
        coalesced(build_from(new, index, cs, l, p, wl)),
    decreases new.len() - p,
{
    if !(1 <= cs && l <= p && 1 <= wl && p + wl <= new.len()) {
    } else {
        let window = new.subrange(p as int, (p + wl) as int);
        if match_at(index, window) {
            let b = match_block(index, window);
            let lit: Seq<Step> = if l < p {
                seq![Step::Bytes(new.subrange(l as int, p as int))]
            } else {
                Seq::empty()
            };
            let emitted = lit + seq![Step::Block(b)];
            assert(emitted.last() is Block);
            assert(coalesced(emitted));
            if p + wl == new.len() {
            } else {
                let p2 = (p + wl) as nat;
                let wl2 = min_nat(cs, (new.len() - p2) as nat);
                lemma_build_from_coalesced(new, index, cs, p2, p2, wl2);
                lemma_coalesced_concat(emitted, build_from(new, index, cs, p2, p2, wl2));
            }
        } else {
            if wl < cs {
            } else if p + wl == new.len() {
            } else {
                lemma_build_from_coalesced(new, index, cs, l, (p + 1) as nat, wl);
            }
        }
    }
}

} // verus!
