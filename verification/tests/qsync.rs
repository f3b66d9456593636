use rumor::qsync::{BlockSource, FileDigestBuilder, FileIngredient, FileRecipe, FileRecipeIterator};
use rumor::weak::{Adler32Hash, RollingWeak};

fn drain(mut it: FileRecipeIterator) -> Vec<u8> {
    let mut out = Vec::new();
    while let Some(b) = it.next() {
        out.push(b);
    }
    assert!(it.next().is_none());
    out
}

fn build_recipe(old: &[u8], new: &[u8], chunk_size: u64) -> FileRecipe {
    let old_vec = old.to_vec();
    let new_vec = new.to_vec();
    let digest = FileDigestBuilder::new().chunk_size(chunk_size).build(&old_vec);
    FileRecipe::new(&new_vec, &digest)
}

fn replay(recipe: FileRecipe, old: &[u8]) -> Vec<u8> {
    let mut src = BlockSource::new(old.to_vec());
    drain(recipe.get_data(&mut src))
}

fn assert_coalesced(recipe: &FileRecipe) {
    let ins = recipe.instructions();
    for k in 0..ins.len() {
        if k + 1 < ins.len() {
            let both_literal = matches!(ins[k], FileIngredient::Data(_))
                && matches!(ins[k + 1], FileIngredient::Data(_));
            assert!(!both_literal, "two adjacent literal instructions at {}", k);
        }
    }
}

fn has_reference(recipe: &FileRecipe) -> bool {
    recipe
        .instructions()
        .iter()
        .any(|i| matches!(i, FileIngredient::Reference(_)))
}

#[test]
fn concrete_scenario() {
    let old = b"AAAABBBBCCCC";
    let new = b"AAAAXXXXCCCC";
    let recipe = build_recipe(old, new, 4);
    {
        let ins = recipe.instructions();
        assert_eq!(ins.len(), 3);
        assert!(matches!(ins[0], FileIngredient::Reference(0)));
        match &ins[1] {
            FileIngredient::Data(v) => assert_eq!(v, &b"XXXX".to_vec()),
            other => panic!("expected a literal, got {:?}", other),
        }
        assert!(matches!(ins[2], FileIngredient::Reference(2)));
    }
    assert_eq!(replay(recipe, old), b"AAAAXXXXCCCC".to_vec());
}

#[test]
fn uneven_chunk_size_scenario() {
    let content = b"hello world";
    let old_vec = content.to_vec();
    let digest = FileDigestBuilder::new().build(&old_vec);
    assert_eq!(digest.block_count(), 1);
    assert_eq!(digest.chunk_size(), 512);
    let recipe = FileRecipe::new(&old_vec, &digest);
    {
        let ins = recipe.instructions();
        assert_eq!(ins.len(), 1);
        assert!(matches!(ins[0], FileIngredient::Reference(0)));
    }
    assert_eq!(replay(recipe, content), content.to_vec());
}

#[test]
fn empty_old_file() {
    let old = b"";
    let new = b"entirely fresh content";
    let old_vec = old.to_vec();
    let digest = FileDigestBuilder::new().chunk_size(4).build(&old_vec);
    assert_eq!(digest.block_count(), 0);
    let recipe = FileRecipe::new(&new.to_vec(), &digest);
    {
        let ins = recipe.instructions();
        assert_eq!(ins.len(), 1);
        match &ins[0] {
            FileIngredient::Data(v) => assert_eq!(v, &new.to_vec()),
            other => panic!("expected a literal, got {:?}", other),
        }
    }
    assert_eq!(replay(recipe, old), new.to_vec());
}

#[test]
fn empty_new_file() {
    let old = b"AAAABBBBCCCC";
    let recipe = build_recipe(old, b"", 4);
    assert_eq!(recipe.instructions().len(), 0);
    assert_eq!(replay(recipe, old), Vec::<u8>::new());
}

#[test]
fn both_files_empty() {
    let recipe = build_recipe(b"", b"", 4);
    assert_eq!(recipe.instructions().len(), 0);
    assert_eq!(replay(recipe, b""), Vec::<u8>::new());
}

#[test]
fn identical_files_all_references() {
    let old = b"abcdefghijklmnopqrstuvwx";
    let recipe = build_recipe(old, old, 4);
    {
        let ins = recipe.instructions();
        assert_eq!(ins.len(), 6);
        for (k, i) in ins.iter().enumerate() {
            assert!(matches!(i, FileIngredient::Reference(n) if *n == k as u64));
        }
    }
    assert_eq!(replay(recipe, old), old.to_vec());
}

fn edited_round_trip(old: &[u8], new: &[u8], chunk_size: u64, expect_reference: bool) {
    let recipe = build_recipe(old, new, chunk_size);
    assert_coalesced(&recipe);
    if expect_reference {
        assert!(has_reference(&recipe), "no block reference survived the edit");
    }
    assert_eq!(replay(recipe, old), new.to_vec());
}

#[test]
fn single_byte_insertion_keeps_matches() {
    let old = b"abcdefghijklmnopqrstuvwxyz0123456789ABCD";
    for at in 0..=old.len() {
        let mut new = old.to_vec();
        new.insert(at, b'!');
        edited_round_trip(old, &new, 4, true);
    }
}

#[test]
fn single_byte_deletion_keeps_matches() {
    let old = b"abcdefghijklmnopqrstuvwxyz0123456789ABCD";
    for at in 0..old.len() {
        let mut new = old.to_vec();
        new.remove(at);
        edited_round_trip(old, &new, 4, true);
    }
}

#[test]
fn single_byte_substitution_keeps_matches() {
    let old = b"abcdefghijklmnopqrstuvwxyz0123456789ABCD";
    for at in 0..old.len() {
        let mut new = old.to_vec();
        new[at] = b'!';
        edited_round_trip(old, &new, 4, true);
    }
}

#[test]
fn repeated_reference_reads_block_once() {
    let old = b"ABCD";
    let mut new = Vec::new();
    for _ in 0..5 {
        new.extend_from_slice(b"ABCD");
    }
    let recipe = build_recipe(old, &new, 4);
    {
        let ins = recipe.instructions();
        assert_eq!(ins.len(), 5);
        for i in ins.iter() {
            assert!(matches!(i, FileIngredient::Reference(0)));
        }
    }
    let mut src = BlockSource::new(old.to_vec());
    let it = recipe.get_data(&mut src);
    assert_eq!(src.reads(), 1);
    assert_eq!(drain(it), new);
}

#[test]
fn distinct_references_read_once_each() {
    let old = b"AAAABBBBCCCC";
    let new = b"CCCCAAAACCCCBBBBAAAA";
    let recipe = build_recipe(old, new, 4);
    assert!(recipe.instructions().len() == 5);
    let mut src = BlockSource::new(old.to_vec());
    let it = recipe.get_data(&mut src);
    assert_eq!(src.reads(), 3);
    assert_eq!(drain(it), new.to_vec());
}

#[test]
fn duplicate_blocks_pick_lowest_index() {
    let old = b"AAAAAAAA";
    let new = b"AAAA";
    let recipe = build_recipe(old, new, 4);
    {
        let ins = recipe.instructions();
        assert_eq!(ins.len(), 1);
        assert!(matches!(ins[0], FileIngredient::Reference(0)));
    }
    assert_eq!(replay(recipe, old), new.to_vec());
}

#[test]
fn default_chunk_size_is_512() {
    let mut old = Vec::new();
    for k in 0..1037u32 {
        old.push((k % 251) as u8);
    }
    let digest = FileDigestBuilder::new().build(&old);
    assert_eq!(digest.block_count(), 3);
    assert_eq!(digest.chunk_size(), 512);
}

fn pseudo_random_bytes(len: usize, mut seed: u64) -> Vec<u8> {
    let mut out = Vec::with_capacity(len);
    for _ in 0..len {
        seed = seed.wrapping_mul(6364136223846793005).wrapping_add(1442695040888963407);
        out.push((seed >> 33) as u8);
    }
    out
}

#[test]
fn mixed_edits_round_trip() {
    let old = pseudo_random_bytes(300, 7);
    let mut new = old.clone();
    new[10] = new[10].wrapping_add(1);
    new.insert(100, 0xAB);
    new.remove(200);
    new.extend_from_slice(b"tail bytes beyond the old file");
    for cs in [1u64, 3, 16, 64, 512] {
        edited_round_trip(&old, &new, cs, cs <= 64);
    }
}

#[test]
fn disjoint_files_round_trip() {
    let old = pseudo_random_bytes(96, 1);
    let new = pseudo_random_bytes(131, 2);
    for cs in [1u64, 5, 32, 200] {
        let recipe = build_recipe(&old, &new, cs);
        assert_coalesced(&recipe);
        assert_eq!(replay(recipe, &old), new);
    }
}

#[test]
fn weak_collision_resolved_by_strong_digest() {
    // these two windows share their weak checksum but differ in content,
    // so only the strong digest can tell them apart
    let old = vec![1u8, 0, 1];
    let new = vec![0u8, 2, 0];
    assert_eq!(
        adler32::RollingAdler32::from_buffer(&old).hash(),
        adler32::RollingAdler32::from_buffer(&new).hash()
    );
    let recipe = build_recipe(&old, &new, 3);
    {
        let ins = recipe.instructions();
        assert_eq!(ins.len(), 1);
        match &ins[0] {
            FileIngredient::Data(v) => assert_eq!(v, &new),
            other => panic!("a weak collision must not become a reference: {:?}", other),
        }
    }
    assert_eq!(replay(recipe, &old), new);
}

#[test]
fn weak_hash_matches_adler32_crate() {
    let samples: Vec<Vec<u8>> = vec![
        b"".to_vec(),
        b"a".to_vec(),
        b"abc".to_vec(),
        b"message digest".to_vec(),
        pseudo_random_bytes(1000, 42),
        vec![255u8; 4000],
    ];
    for data in samples {
        let expected = adler32::RollingAdler32::from_buffer(&data).hash();
        assert_eq!(Adler32Hash::new(&data).0, expected);
    }
}

#[test]
fn rolling_slide_matches_adler32_crate() {
    let data = pseudo_random_bytes(64, 9);
    let window = 8usize;
    let mut rolling = RollingWeak::from_buffer(&data[0..window].to_vec());
    for start in 0..=(data.len() - window) {
        let fresh = adler32::RollingAdler32::from_buffer(&data[start..start + window]).hash();
        assert_eq!(rolling.hash(), fresh);
        if start + window < data.len() {
            rolling.remove_oldest(data[start]);
            rolling.push_newest(data[start + window]);
        }
    }
}
