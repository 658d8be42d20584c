use merkle_trie::debug_functions::same_structure;
use merkle_trie::treenode::roothash_from_proof;
use merkle_trie::MerkleTree;
use rand::seq::SliceRandom;
use rand::Rng;
use rand::SeedableRng;

fn rand_bool_vec(seed: u64, n: usize) -> Vec<bool> {
    let mut rng = rand_chacha::ChaCha8Rng::seed_from_u64(seed);
    let mut v: Vec<bool> = vec![];
    for _ in 0..n {
        v.push(rng.gen());
    }
    v
}

fn rand_int_vec(seed: u64, n: usize, max_value: i32) -> Vec<i32> {
    let mut rng = rand_chacha::ChaCha8Rng::seed_from_u64(seed);
    let mut v: Vec<i32> = vec![];
    for _ in 0..n {
        v.push(rng.gen_range(-max_value..max_value + 1));
    }
    v
}

#[test]
fn insert_contains() {
    let mut testree = MerkleTree::new();
    let v = rand_int_vec(1u64, 500, 20);
    // add vertices
    for i in 0..v.len() {
        for _ in 0..v[i] {
            testree.insert(i);
        }
    }

    //check
    for i in 0..v.len() {
        if v[i] > 0 {
            assert_eq!(testree.contains(i).unwrap(), v[i]);
        } else {
            assert!(testree.contains(i) == None);
        }
    }
}

#[test]
fn proof_contains() {
    let mut testree = MerkleTree::new();
    let v = rand_int_vec(1u64, 500, 20);
    // add vertices
    for i in 0..v.len() {
        for _ in 0..v[i] {
            testree.insert(i);
        }
    }

    //check
    for i in 0..v.len() {
        if v[i] > 0 {
            assert_eq!(testree.contains(i).unwrap(), v[i]);
        } else {
            assert!(testree.contains(i) == None);
        }
        let mut proof = testree.get_proof(i).unwrap();
        let proof_root_hash = roothash_from_proof(&mut proof).unwrap();
        assert_eq!(testree.get_hash().unwrap(), proof_root_hash);
    }
}

#[test]
fn root_hash_invariance() {
    let (mut testree1, mut testree2) = (MerkleTree::new(), MerkleTree::new());
    let m = 40;
    let mut v: Vec<i32> = rand_int_vec(7u64, 400, m);

    for i in 0..v.len() {
        for _ in 0..v[i] {
            testree1.insert(v[i]);
        }
    }

    //shuffle range
    let mut rng = rand_chacha::ChaCha8Rng::seed_from_u64(2);
    v.shuffle(&mut rng);

    for j in 0..m + 1 {
        v.shuffle(&mut rng);
        for i in 0..v.len() {
            if v[i] > j {
                testree2.insert(v[i]);
            }
        }
    }

    //test
    assert_eq!(testree1.get_hash().unwrap(), testree2.get_hash().unwrap());
    assert!(same_structure(&testree1, &testree2));

    //Test contains_invariance
    for i in 0..v.len() {
        assert_eq!(testree1.contains(v[i]), testree2.contains(v[i]));
    }
}

#[test]
fn multiple_insert_variance() {
    let mut testree1 = MerkleTree::new();
    let mut testree2 = MerkleTree::new();

    let v = rand_bool_vec(5u64, 100);
    // add vertices
    for i in 0..v.len() {
        testree1.insert(i);
        testree2.insert(i);
        if v[i] {
            testree1.insert(i);
        }
    }
    assert_ne!(testree1.get_hash(), testree2.get_hash());
}
