use dep2j::hash::PathHasher;

/**
 * PathHasher::finish()
 *
 * A fresh hasher reports the fixed non-zero start value.
 */
#[test]
fn hash_initial_value() {
    let hasher = PathHasher::default();

    assert_eq!(1, hasher.finish());
}

/**
 * PathHasher::add()
 *
 * One accumulation step rotates the start value by half the width and
 * xors the chunk in.
 */
#[test]
fn hash_add_step() {
    let mut hasher = PathHasher::default();
    hasher.add(0xabcd);

    assert_eq!((1u64 << 32) ^ 0xabcd, hasher.finish());
}

/**
 * PathHasher::write()
 *
 * A single byte is folded as a one-byte chunk.
 */
#[test]
fn hash_write_single_byte() {
    let mut hasher = PathHasher::default();
    hasher.write(b"a");

    assert_eq!((1u64 << 32) ^ (b'a' as u64), hasher.finish());
}

/**
 * PathHasher::write()
 *
 * Eight bytes are folded as one little-endian word.
 */
#[test]
fn hash_write_word() {
    let mut hasher = PathHasher::default();
    hasher.write(&[1, 0, 0, 0, 0, 0, 0, 0]);

    assert_eq!((1u64 << 32) ^ 1u64, hasher.finish());
}

/**
 * PathHasher::write()
 *
 * Equal byte strings hash identically, and the chunking covers every
 * tail length.
 */
#[test]
fn hash_deterministic() {
    for len in 0..20usize {
        let data: Vec<u8> = (0..len as u8).collect();

        let mut h1 = PathHasher::default();
        let mut h2 = PathHasher::default();
        h1.write(&data);
        h2.write(&data);

        assert_eq!(h1.finish(), h2.finish());
    }
}

/**
 * PathHasher::write()
 *
 * Nearby short path-like strings land on different values.
 */
#[test]
fn hash_distinguishes_paths() {
    let mut h1 = PathHasher::default();
    let mut h2 = PathHasher::default();
    h1.write(b"src/main.o");
    h2.write(b"src/main.c");

    assert_ne!(h1.finish(), h2.finish());
}
