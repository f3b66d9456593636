//! The delta engine itself: the chunk index of a reference file, the
//! recipe built by scanning a target file against that index, and the
//! cached replay of a recipe back into the target's bytes.  All three
//! stages work on in-memory byte buffers; opening and reading files is a
//! caller's concern.

use std::collections::HashMap;
use vstd::prelude::*;
use crate::model::{
    block_at, block_refs, build_from, candidates_wf, coalesced, concat_from, first_match_idx,
    index_covers, index_wf, match_at, match_block, lemma_block_refs_bound, lemma_concat_replay,
    lemma_first_match_idx, lemma_num_blocks_exact, lemma_num_blocks_lower, lemma_num_blocks_zero,
    min_nat, num_blocks, recipe_spec, replay_step, replay_steps, Step,
};
use crate::strong::{bytes_eq, md5_digest, md5_of};
use crate::weak::{weak_of, Adler32Hash, RollingWeak};

verus! {

broadcast use vstd::std_specs::hash::group_hash_axioms, vstd::set::group_set_axioms;

/// One recipe instruction: a run of literal bytes that the reference file
/// does not provide, or a reference to one of its blocks.
#[derive(Debug)]
pub enum FileIngredient {
    Data(Vec<u8>),
    Reference(u64),
}

impl View for FileIngredient {
    type V = Step;

    open spec fn view(&self) -> Step {
        match self {
            FileIngredient::Data(v) => Step::Bytes(v@),
            FileIngredient::Reference(i) => Step::Block(*i),
        }
    }
}

/// The abstraction of one stored candidate list.
pub open spec fn list_model(v: Vec<(Vec<u8>, u64)>) -> Seq<(Seq<u8>, u64)> {
    v@.map_values(|e: (Vec<u8>, u64)| (e.0@, e.1))
}

/// The abstraction of the stored lookup table.
pub open spec fn map_model(m: Map<u32, Vec<(Vec<u8>, u64)>>) -> Map<u32, Seq<(Seq<u8>, u64)>> {
    Map::new(|w: u32| m.contains_key(w), |w: u32| list_model(m[w]))
}

/// Configures and runs the chunk index builder.
pub struct FileDigestBuilder {
    chunk_size: u64,
}

/// The chunk index of one reference file: for each weak checksum, the
/// blocks carrying it, as (strong digest, block index) pairs in ascending
/// index order, together with the chunk size the file was split with.
pub struct FileDigest {
    chunk_size: u64,
    n_blocks: u64,
    chunks: HashMap<u32, Vec<(Vec<u8>, u64)>>,
    source: Ghost<Seq<u8>>,
}

impl FileDigestBuilder {
    pub closed spec fn chunk_size_spec(&self) -> u64 {
        self.chunk_size
    }

    /// A chunk is never empty.
    pub open spec fn wf(&self) -> bool {
        self.chunk_size_spec() >= 1
    }

    /// A builder with the default chunk size of 512 bytes.
    pub fn new() -> (b: Self)
        ensures
            b.wf(),
            b.chunk_size_spec() == 512,
    {
        FileDigestBuilder { chunk_size: 512 }
    }

    /// The same builder with another chunk size; a chunk is never empty.
    pub fn chunk_size(self, chunk_size: u64) -> (b: Self)
        requires
            chunk_size >= 1,
        ensures
            b.wf(),
            b.chunk_size_spec() == chunk_size,
    {
        FileDigestBuilder { chunk_size }
    }

    /// Split the reference bytes into consecutive blocks of the configured
    /// chunk size (the last one may be shorter) and index every block
    /// under its weak checksum.
    pub fn build(self, source: &Vec<u8>) -> (d: FileDigest)
        requires
            self.wf(),
        ensures
            d.wf(),
            d.chunk_size_spec() == self.chunk_size_spec(),
            d.source() == source@,
    {
        let cs = self.chunk_size;
        let ghost csn = cs as nat;
        let ghost src = source@;
        let mut chunks: HashMap<u32, Vec<(Vec<u8>, u64)>> = HashMap::new();
        let mut i: u64 = 0;
        let mut off: usize = 0;
        proof {
            if source@.len() == 0 {
                lemma_num_blocks_zero(src, csn);
            }
            assert(map_model(chunks@) =~= Map::<u32, Seq<(Seq<u8>, u64)>>::empty());
        }
        while off < source.len()
            invariant
                cs == self.chunk_size,
                cs >= 1,
                csn == cs as nat,
                src == source@,
                off <= source.len(),
                off < source.len() ==> i as int * cs as int == off as int,
                off == source.len() ==> i as nat == num_blocks(src, csn),
                forall|w: u32|
                    map_model(chunks@).contains_key(w) ==> candidates_wf(
                        w,
                        #[trigger] map_model(chunks@)[w],
                        src,
                        csn,
                    ),
                forall|w: u32, k: int|
                    map_model(chunks@).contains_key(w) && 0 <= k < map_model(chunks@)[w].len()
                        ==> (#[trigger] map_model(chunks@)[w][k]).1 < i,
                forall|b: nat| b < i ==> #[trigger] index_covers(map_model(chunks@), src, csn, b),
                forall|w: u32, k1: int, k2: int|
                    map_model(chunks@).contains_key(w) && 0 <= k1 < k2 < (#[trigger] map_model(
                        chunks@,
                    )[w]).len() ==> #[trigger] map_model(chunks@)[w][k1].1 < #[trigger] map_model(
                        chunks@,
                    )[w][k2].1,
            decreases source.len() - off,
        {
            let rem = source.len() - off;
            let take_n: usize = if cs < rem as u64 {
                cs as usize
            } else {
                rem
            };
            let end = off + take_n;
            let window = copy_range(source, off, end);
            proof {
                assert((i + 1) as int * cs as int == i as int * cs as int + cs as int)
                    by (nonlinear_arith);
                assert(window@ == block_at(src, csn, i as nat));
            }
            let w = Adler32Hash::new(&window).0;
            let s = md5_digest(&window);
            let ghost pre = map_model(chunks@);
            let ghost entry = (s@, i);
            match chunks.remove(&w) {
                Some(mut list) => {
                    let ghost old_list = list_model(list);
                    list.push((s, i));
                    proof {
                        assert(list_model(list) =~= old_list.push(entry));
                    }
                    chunks.insert(w, list);
                    proof {
                        assert(map_model(chunks@) =~= pre.insert(w, pre[w].push(entry)));
                    }
                },
                None => {
                    let mut list: Vec<(Vec<u8>, u64)> = Vec::new();
                    list.push((s, i));
                    proof {
                        assert(list_model(list) =~= Seq::<(Seq<u8>, u64)>::empty().push(entry));
                    }
                    chunks.insert(w, list);
                    proof {
                        assert(map_model(chunks@) =~= pre.insert(
                            w,
                            Seq::<(Seq<u8>, u64)>::empty().push(entry),
                        ));
                    }
                },
            }
            proof {
                let post = map_model(chunks@);
                lemma_num_blocks_lower(src, csn, i as nat);
                if end == source.len() {
                    lemma_num_blocks_exact(src, csn, i as nat);
                }
                assert(i < i + 1 <= u64::MAX) by {
                    vstd::arithmetic::mul::lemma_mul_inequality(1, cs as int, i as int);
                }
                // the new entry describes block i exactly
                assert(w == weak_of(block_at(src, csn, i as nat)));
                assert(entry.0 == md5_of(block_at(src, csn, i as nat)));
                // every block below i is still covered: only the list under
                // `w` changed, and it only grew at its end
                assert forall|b: nat| b < i + 1 implies #[trigger] index_covers(
                    post,
                    src,
                    csn,
                    b,
                ) by {
                    if b < i {
                        assert(index_covers(pre, src, csn, b));
                        let wb = weak_of(block_at(src, csn, b));
                        let eb = (md5_of(block_at(src, csn, b)), b as u64);
                        let k = choose|k: int| 0 <= k < pre[wb].len() && pre[wb][k] == eb;
                        assert(post[wb][k] == eb);
                    } else {
                        assert(post[w][post[w].len() - 1] == entry);
                    }
                }
            }
            i = i + 1;
            off = end;
        }
        let d = FileDigest { chunk_size: cs, n_blocks: i, chunks, source: Ghost(source@) };
        proof {
            assert(d.index_model() == map_model(d.chunks@));
        }
        d
    }
}

impl FileDigest {
    pub closed spec fn chunk_size_spec(&self) -> u64 {
        self.chunk_size
    }

    pub closed spec fn num_blocks_spec(&self) -> u64 {
        self.n_blocks
    }

    /// The bytes of the reference file the index was built from.
    pub closed spec fn source(&self) -> Seq<u8> {
        self.source@
    }

    /// The lookup table as a map from weak checksum to candidate list.
    pub closed spec fn index_model(&self) -> Map<u32, Seq<(Seq<u8>, u64)>> {
        map_model(self.chunks@)
    }

    /// A digest is a faithful, complete index of its reference file.
    pub open spec fn wf(&self) -> bool {
        &&& index_wf(self.index_model(), self.chunk_size_spec() as nat, self.source())
        &&& self.num_blocks_spec() as nat == num_blocks(
            self.source(),
            self.chunk_size_spec() as nat,
        )
    }

    /// How many blocks the reference file was split into.
    pub fn block_count(&self) -> (n: u64)
        ensures
            n == self.num_blocks_spec(),
    {
        self.n_blocks
    }

    /// The chunk size the index was built with.
    pub fn chunk_size(&self) -> (n: u64)
        ensures
            n == self.chunk_size_spec(),
    {
        self.chunk_size
    }

    /// The candidate list stored under one weak checksum, if any.
    pub(crate) fn lookup(&self, w: u32) -> (r: Option<&Vec<(Vec<u8>, u64)>>)
        ensures
            match r {
                Some(list) => self.index_model().contains_key(w) && list_model(*list)
                    == self.index_model()[w],
                None => !self.index_model().contains_key(w),
            },
    {
        self.chunks.get(&w)
    }
}

/// The first candidate of `list` whose strong digest is `s`, if any.
fn find_candidate(list: &Vec<(Vec<u8>, u64)>, s: &Vec<u8>) -> (r: Option<u64>)
    ensures
        match r {
            Some(b) => first_match_idx(list_model(*list), s@) >= 0 && b == list_model(
                *list,
            )[first_match_idx(list_model(*list), s@)].1,
            None => first_match_idx(list_model(*list), s@) == -1,
        },
{
    let ghost lm = list_model(*list);
    let mut k: usize = 0;
    while k < list.len()
        invariant
            k <= list@.len(),
            lm == list_model(*list),
            lm.len() == list@.len(),
            forall|j: int| 0 <= j < k ==> (#[trigger] lm[j]).0 != s@,
        decreases list.len() - k,
    {
        let pair: &(Vec<u8>, u64) = &list[k];
        if bytes_eq(&pair.0, s) {
            proof {
                lemma_first_match_idx(lm, s@);
                assert(lm[k as int].0 == s@);
            }
            return Some(pair.1);
        }
        k = k + 1;
    }
    proof {
        lemma_first_match_idx(lm, s@);
    }
    None
}

proof fn lemma_steps_push(v: Seq<FileIngredient>, x: FileIngredient)
    ensures
        (v.push(x)).map_values(|i: FileIngredient| i@) =~= v.map_values(
            |i: FileIngredient| i@,
        ).push(x@),
{
}

/// A recipe: the ordered list of instructions that rebuilds one target
/// file out of literal byte runs and references to blocks of the
/// reference file the digest describes, plus the chunk size in force.
#[derive(Debug)]
pub struct FileRecipe {
    chunk_size: u64,
    recipe: Vec<FileIngredient>,
}

impl FileRecipe {
    pub closed spec fn chunk_size_spec(&self) -> u64 {
        self.chunk_size
    }

    /// The instructions of this recipe, abstractly.
    pub closed spec fn steps(&self) -> Seq<Step> {
        self.recipe@.map_values(|i: FileIngredient| i@)
    }

    pub open spec fn wf(&self) -> bool {
        &&& self.chunk_size_spec() >= 1
        &&& self.steps().len() <= usize::MAX
    }

    /// The instructions of this recipe, for inspection.
    pub fn instructions(&self) -> (r: &Vec<FileIngredient>)
        ensures
            r@.map_values(|i: FileIngredient| i@) == self.steps(),
    {
        &self.recipe
    }

    /// Scan the target file left to right with a window of the digest's
    /// chunk size: where the window's weak checksum and strong digest both
    /// match an indexed block, emit any pending literal and a reference to
    /// that block and jump past the window; otherwise slide one byte.  The
    /// result is exactly the recipe of the greedy scan in the model.
    pub fn new(dest_file: &Vec<u8>, file_digest: &FileDigest) -> (r: Self)
        requires
            file_digest.wf(),
        ensures
            r.wf(),
            r.chunk_size_spec() == file_digest.chunk_size_spec(),
            r.steps() == recipe_spec(
                dest_file@,
                file_digest.index_model(),
                file_digest.chunk_size_spec() as nat,
            ),
            coalesced(r.steps()),
    {
        proof {
            crate::laws::lemma_recipe_coalesced(
                dest_file@,
                file_digest.index_model(),
                file_digest.chunk_size_spec() as nat,
            );
        }
        let cs = file_digest.chunk_size();
        let ghost csn = cs as nat;
        let ghost idx = file_digest.index_model();
        let ghost dst = dest_file@;
        let n = dest_file.len();
        let mut recipe: Vec<FileIngredient> = Vec::new();
        if n == 0 {
            proof {
                assert(recipe@.map_values(|i: FileIngredient| i@) =~= recipe_spec(dst, idx, csn));
            }
            return FileRecipe { chunk_size: cs, recipe };
        }
        let mut l: usize = 0;
        let mut p: usize = 0;
        let mut wl: usize = if cs < n as u64 {
            cs as usize
        } else {
            n
        };
        let mut hash = RollingWeak::from_buffer(&copy_range(dest_file, 0, wl));
        proof {
            assert(wl as nat == min_nat(csn, dst.len() as nat));
            assert(Seq::<Step>::empty() + build_from(dst, idx, csn, 0, 0, wl as nat)
                =~= build_from(dst, idx, csn, 0, 0, wl as nat));
            assert(recipe@.map_values(|i: FileIngredient| i@) =~= Seq::<Step>::empty());
        }
        loop
            invariant_except_break
                cs >= 1,
                csn == cs as nat,
                idx == file_digest.index_model(),
                dst == dest_file@,
                n == dest_file.len(),
                l <= p,
                1 <= wl,
                wl as u64 <= cs,
                p + wl <= n,
                hash.wf(),
                hash.window() == dst.subrange(p as int, (p + wl) as int),
                recipe@.map_values(|i: FileIngredient| i@) + build_from(
                    dst,
                    idx,
                    csn,
                    l as nat,
                    p as nat,
                    wl as nat,
                ) == recipe_spec(dst, idx, csn),
            ensures
                recipe@.map_values(|i: FileIngredient| i@) == recipe_spec(dst, idx, csn),
            decreases n - p,
        {
            let ghost window = dst.subrange(p as int, (p + wl) as int);
            let ghost rest0 = build_from(dst, idx, csn, l as nat, p as nat, wl as nat);
            let ghost emitted0 = recipe@.map_values(|i: FileIngredient| i@);
            let wk = hash.hash();
            let mut matched: Option<u64> = None;
            match file_digest.lookup(wk) {
                Some(list) => {
                    let window_bytes = copy_range(dest_file, p, p + wl);
                    let strong = md5_digest(&window_bytes);
                    matched = find_candidate(list, &strong);
                },
                None => {
                    proof {
                        assert(!match_at(idx, window));
                    }
                },
            }
            match matched {
                Some(block) => {
                    proof {
                        assert(match_at(idx, window));
                        assert(block == match_block(idx, window));
                    }
                    let ghost lit: Seq<Step> = if l < p {
                        seq![Step::Bytes(dst.subrange(l as int, p as int))]
                    } else {
                        Seq::empty()
                    };
                    if l < p {
                        let excess = copy_range(dest_file, l, p);
                        proof {
                            lemma_steps_push(recipe@, FileIngredient::Data(excess));
                        }
                        recipe.push(FileIngredient::Data(excess));
                    }
                    proof {
                        lemma_steps_push(recipe@, FileIngredient::Reference(block));
                    }
                    recipe.push(FileIngredient::Reference(block));
                    proof {
                        let emitted1 = recipe@.map_values(|i: FileIngredient| i@);
                        assert(emitted1 =~= emitted0 + lit + seq![Step::Block(block)]);
                    }
                    p = p + wl;
                    l = p;
                    if p == n {
                        proof {
                            assert(rest0 == lit + seq![Step::Block(block)]);
                            assert(recipe@.map_values(|i: FileIngredient| i@) =~= emitted0
                                + rest0);
                        }
                        break;
                    }
                    wl = if cs < (n - p) as u64 {
                        cs as usize
                    } else {
                        n - p
                    };
                    hash = RollingWeak::from_buffer(&copy_range(dest_file, p, p + wl));
                    proof {
                        let rest1 = build_from(dst, idx, csn, p as nat, p as nat, wl as nat);
                        assert(wl as nat == min_nat(csn, (n - p) as nat));
                        assert(rest0 == lit + seq![Step::Block(block)] + rest1);
                        assert(recipe@.map_values(|i: FileIngredient| i@) + rest1 =~= emitted0
                            + rest0);
                    }
                },
                None => {
                    proof {
                        assert(!match_at(idx, window));
                    }
                    if (wl as u64) < cs {
                        proof {
                            assert(rest0 == seq![
                                Step::Bytes(dst.subrange(l as int, (p + wl) as int)),
                            ]);
                        }
                        let tail = copy_range(dest_file, l, p + wl);
                        proof {
                            lemma_steps_push(recipe@, FileIngredient::Data(tail));
                        }
                        recipe.push(FileIngredient::Data(tail));
                        proof {
                            assert(recipe@.map_values(|i: FileIngredient| i@) =~= emitted0
                                + rest0);
                        }
                        break;
                    }
                    if p + wl == n {
                        proof {
                            assert(rest0 == seq![Step::Bytes(dst.subrange(l as int, n as int))]);
                        }
                        let tail = copy_range(dest_file, l, n);
                        recipe.push(FileIngredient::Data(tail));
                        proof {
                            assert(recipe@.map_values(|i: FileIngredient| i@) =~= emitted0
                                + rest0);
                        }
                        break;
                    }
                    let dead = dest_file[p];
                    let incoming = dest_file[p + wl];
                    hash.remove_oldest(dead);
                    hash.push_newest(incoming);
                    proof {
                        assert(rest0 == build_from(dst, idx, csn, l as nat, (p + 1) as nat,
                            wl as nat));
                        assert(window.drop_first().push(dst[(p + wl) as int]) =~= dst.subrange(
                            (p + 1) as int,
                            (p + 1 + wl) as int,
                        ));
                    }
                    p = p + 1;
                },
            }
        }
        let n_steps = recipe.len();
        proof {
            assert(recipe@.map_values(|i: FileIngredient| i@).len() == recipe@.len());
            assert(recipe@.len() == n_steps <= usize::MAX);
        }
        FileRecipe { chunk_size: cs, recipe }
    }
}

/// The reference file during replay: its bytes, plus a count of how many
/// block reads have been performed against it, so that the caching
/// discipline of the replayer is observable.
pub struct BlockSource {
    data: Vec<u8>,
    reads: u64,
}

impl BlockSource {
    /// The bytes of the reference file.
    pub closed spec fn data_spec(&self) -> Seq<u8> {
        self.data@
    }

    /// How many block reads have been performed so far.
    pub closed spec fn reads_spec(&self) -> u64 {
        self.reads
    }

    /// A fresh source over the given bytes, with no reads performed yet.
    pub fn new(data: Vec<u8>) -> (s: Self)
        ensures
            s.data_spec() == data@,
            s.reads_spec() == 0,
    {
        BlockSource { data, reads: 0 }
    }

    pub fn reads(&self) -> (r: u64)
        ensures
            r == self.reads_spec(),
    {
        self.reads
    }

    /// One read of block `index`: up to `chunk_size` bytes starting at
    /// `index * chunk_size`, clipped at the end of the file (a seek past
    /// the end yields no bytes).  Counts as one read.
    fn read_block(&mut self, index: u64, chunk_size: u64) -> (r: Vec<u8>)
        requires
            chunk_size >= 1,
            old(self).reads_spec() < u64::MAX,
        ensures
            final(self).data_spec() == old(self).data_spec(),
            final(self).reads_spec() == old(self).reads_spec() + 1,
            r@ == block_at(old(self).data_spec(), chunk_size as nat, index as nat),
    {
        self.reads = self.reads + 1;
        let ghost src = self.data@;
        let ghost csn = chunk_size as nat;
        let ghost i = index as nat;
        let len = self.data.len();
        let offset = match index.checked_mul(chunk_size) {
            Some(o) => o,
            None => {
                proof {
                    assert(i * csn > u64::MAX);
                    assert(src.len() <= usize::MAX <= u64::MAX);
                    assert((i + 1) * csn >= i * csn) by (nonlinear_arith)
                        requires csn >= 1;
                    assert(block_at(src, csn, i) =~= Seq::<u8>::empty());
                }
                return Vec::new();
            },
        };
        if offset >= len as u64 {
            proof {
                assert(i * csn == offset);
                assert((i + 1) * csn >= i * csn) by (nonlinear_arith)
                    requires csn >= 1;
                assert(block_at(src, csn, i) =~= Seq::<u8>::empty());
            }
            return Vec::new();
        }
        let start = offset as usize;
        let rem = len - start;
        let take_n: usize = if chunk_size < rem as u64 {
            chunk_size as usize
        } else {
            rem
        };
        let r = copy_range(&self.data, start, start + take_n);
        proof {
            assert((i + 1) * csn == i * csn + csn) by (nonlinear_arith);
            assert(r@ == block_at(src, csn, i));
        }
        r
    }
}

/// Yields the replayed target file byte by byte: the bytes of each
/// instruction in recipe order.
#[derive(Clone)]
pub struct FileRecipeIterator {
    items: Vec<Vec<u8>>,
    item: usize,
    off: usize,
}

impl FileRecipeIterator {
    /// The byte runs still to be walked, one per instruction.
    pub closed spec fn items_model(&self) -> Seq<Seq<u8>> {
        self.items@.map_values(|v: Vec<u8>| v@)
    }

    /// The bytes not yet yielded.
    pub closed spec fn remaining(&self) -> Seq<u8> {
        concat_from(self.items_model(), self.item as int, self.off as int)
    }

    /// The cursor stands inside the current item (or at the very start of
    /// a fully walked iterator).
    pub closed spec fn wf(&self) -> bool {
        &&& self.item <= self.items@.len()
        &&& self.item < self.items@.len() ==> self.off <= self.items@[self.item as int]@.len()
        &&& self.item >= self.items@.len() ==> self.off == 0
    }

    /// The next byte of the reconstructed file, or nothing once all
    /// instructions are exhausted.
    pub fn next(&mut self) -> (r: Option<u8>)
        requires
            old(self).wf(),
        ensures
            final(self).wf(),
            match r {
                Some(b) => old(self).remaining().len() > 0 && b == old(self).remaining()[0]
                    && final(self).remaining() == old(self).remaining().drop_first(),
                None => old(self).remaining().len() == 0 && final(self).remaining().len() == 0,
            },
    {
        let ghost m = self.items_model();
        let ghost r0 = self.remaining();
        while self.item < self.items.len() && self.off >= self.items[self.item].len()
            invariant
                self.items_model() == m,
                self.item <= self.items@.len(),
                self.item < self.items@.len() ==> self.off <= self.items@[self.item as int]@.len(),
                self.item >= self.items@.len() ==> self.off == 0,
                self.remaining() == r0,
            decreases self.items@.len() - self.item,
        {
            proof {
                assert(m[self.item as int].subrange(
                    self.off as int,
                    m[self.item as int].len() as int,
                ) =~= Seq::<u8>::empty());
                assert(concat_from(m, self.item as int, self.off as int) =~= concat_from(
                    m,
                    self.item + 1,
                    0,
                ));
            }
            self.item = self.item + 1;
            self.off = 0;
        }
        if self.item >= self.items.len() {
            proof {
                assert(r0.len() == 0);
            }
            return None;
        }
        let b = self.items[self.item][self.off];
        proof {
            let i = self.item as int;
            let off = self.off as int;
            assert(m[i].subrange(off, m[i].len() as int) =~= seq![m[i][off]] + m[i].subrange(
                off + 1,
                m[i].len() as int,
            ));
            assert(concat_from(m, i, off) =~= seq![m[i][off]] + concat_from(m, i, off + 1));
            assert(r0[0] == b);
            assert(r0.drop_first() =~= concat_from(m, i, off + 1));
        }
        self.off = self.off + 1;
        Some(b)
    }
}

impl FileRecipe {
    /// Turn the recipe into the replayed byte stream, reading each
    /// distinct referenced block of the reference file exactly once and
    /// serving repeats from a cache.
    pub fn get_data(self, src_file: &mut BlockSource) -> (r: FileRecipeIterator)
        requires
            self.wf(),
            old(src_file).reads_spec() + self.steps().len() <= u64::MAX,
        ensures
            final(src_file).data_spec() == old(src_file).data_spec(),
            final(src_file).reads_spec() == old(src_file).reads_spec() + block_refs(
                self.steps(),
            ).len(),
            r.wf(),
            r.remaining() == replay_steps(
                old(src_file).data_spec(),
                self.chunk_size_spec() as nat,
                self.steps(),
            ),
    {
        let FileRecipe { chunk_size: cs, recipe } = self;
        let ghost steps = recipe@.map_values(|i: FileIngredient| i@);
        let ghost src0 = src_file.data_spec();
        let ghost r0 = src_file.reads_spec();
        let ghost csn = cs as nat;
        let mut cache: HashMap<u64, Vec<u8>> = HashMap::new();
        let mut items: Vec<Vec<u8>> = Vec::new();
        let mut k: usize = 0;
        proof {
            assert(steps.take(0) =~= Seq::<Step>::empty());
            assert(cache@.dom() =~= block_refs(steps.take(0)));
        }
        while k < recipe.len()
            invariant
                csn == cs as nat,
                cs >= 1,
                steps == recipe@.map_values(|i: FileIngredient| i@),
                steps.len() == recipe@.len(),
                k <= recipe@.len(),
                src_file.data_spec() == src0,
                r0 + steps.len() <= u64::MAX,
                src_file.reads_spec() == r0 + block_refs(steps.take(k as int)).len(),
                cache@.dom() == block_refs(steps.take(k as int)),
                forall|b: u64| cache@.contains_key(b) ==> (#[trigger] cache@[b])@ == block_at(
                    src0,
                    csn,
                    b as nat,
                ),
                items@.len() == k,
                forall|j: int| 0 <= j < k ==> items@[j]@ == replay_step(src0, csn, #[trigger] steps[j]),
            decreases recipe@.len() - k,
        {
            let ghost refs_pre = block_refs(steps.take(k as int));
            proof {
                lemma_block_refs_bound(steps.take(k as int));
                assert(steps.take(k as int).len() == k);
                assert(steps.take(k + 1).drop_last() =~= steps.take(k as int));
                assert(steps.take(k + 1).last() == steps[k as int]);
            }
            match &recipe[k] {
                FileIngredient::Data(v) => {
                    let item = copy_range(v, 0, v.len());
                    proof {
                        assert(item@ =~= v@);
                        assert(block_refs(steps.take(k + 1)) =~= refs_pre);
                    }
                    items.push(item);
                },
                FileIngredient::Reference(b) => {
                    let bi = *b;
                    proof {
                        assert(block_refs(steps.take(k + 1)) =~= refs_pre.insert(bi));
                    }
                    let mut found = false;
                    if let Some(cached) = cache.get(&bi) {
                        let item = copy_range(cached, 0, cached.len());
                        proof {
                            assert(item@ =~= cached@);
                            assert(refs_pre.insert(bi) =~= refs_pre);
                        }
                        items.push(item);
                        found = true;
                    }
                    if !found {
                        let fresh = src_file.read_block(bi, cs);
                        let item = copy_range(&fresh, 0, fresh.len());
                        proof {
                            assert(item@ =~= fresh@);
                        }
                        cache.insert(bi, fresh);
                        items.push(item);
                        proof {
                            assert(cache@.dom() =~= refs_pre.insert(bi));
                        }
                    }
                },
            }
            k = k + 1;
        }
        proof {
            assert(steps.take(steps.len() as int) =~= steps);
            lemma_concat_replay(
                items@.map_values(|v: Vec<u8>| v@),
                src0,
                csn,
                steps,
            );
        }
        FileRecipeIterator { items, item: 0, off: 0 }
    }
}

/// A fresh copy of `v[start..end]`.
pub(crate) fn copy_range(v: &Vec<u8>, start: usize, end: usize) -> (r: Vec<u8>)
    requires
        start <= end,
        end <= v.len(),
    ensures
        r@ == v@.subrange(start as int, end as int),
{
    let mut r: Vec<u8> = Vec::new();
    let mut i = start;
    while i < end
        invariant
            start <= i <= end <= v@.len(),
            r@ == v@.subrange(start as int, i as int),
        decreases end - i,
    {
        r.push(v[i]);
        proof {
            assert(v@.subrange(start as int, i as int).push(v@[i as int]) =~= v@.subrange(
                start as int,
                i + 1,
            ));
        }
        i = i + 1;
    }
    r
}

} // verus!
