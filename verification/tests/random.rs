use game_of_life::GameOfLife;

fn storage_words(seed: u128, count: usize) -> Vec<u64> {
    let mut rng = oorandom::Rand64::new(seed);
    (0..count).map(|_| rng.rand_u64()).collect()
}

#[test]
fn randomize_stores_the_generator_words_in_storage_order() {
    let (width, height) = (150usize, 6usize);
    let mut grid = GameOfLife::new(width, height);
    grid.randomize(0xdeadbeaf);
    let words = storage_words(0xdeadbeaf, 3 * height);
    for y in 0..height {
        for x in 0..width {
            let word = words[(x / 62) * height + y];
            assert_eq!(grid.is_alive(x, y), (word >> (x % 62 + 1)) & 1 == 1, "({x}, {y})");
        }
    }
}

#[test]
fn randomize_keeps_halo_bits_and_padding_clear() {
    let (width, height) = (70usize, 4usize);
    let mut grid = GameOfLife::new(width, height);
    grid.randomize(7);
    let words = storage_words(7, 2 * height);
    let mut expected = 0u64;
    for (index, word) in words.iter().enumerate() {
        let mask = if index < height { 0x7FFF_FFFF_FFFF_FFFEu64 } else { 0b1_1111_1110 };
        expected ^= word & mask;
    }
    assert_eq!(grid.parity(), expected);
}

#[test]
fn randomize_overwrites_earlier_cells() {
    let mut grid = GameOfLife::new(40, 3);
    for y in 0..3 {
        for x in 0..40 {
            grid.set_alive(x, y, true);
        }
    }
    let mut fresh = GameOfLife::new(40, 3);
    grid.randomize(99);
    fresh.randomize(99);
    assert_eq!(grid.parity(), fresh.parity());
    for y in 0..3 {
        for x in 0..40 {
            assert_eq!(grid.is_alive(x, y), fresh.is_alive(x, y));
        }
    }
}

#[test]
fn different_seeds_give_different_grids() {
    let mut one = GameOfLife::new(100, 100);
    let mut two = GameOfLife::new(100, 100);
    one.randomize(1);
    two.randomize(2);
    assert_ne!(one.parity(), two.parity());
}

#[test]
fn checksum_after_many_generations_is_reproducible() {
    let run = |seed: u128, steps: usize| {
        let mut grid = GameOfLife::new(100, 100);
        grid.randomize(seed);
        grid.advance(steps);
        grid.parity()
    };
    let first = run(0xdeadbeaf, 100);
    assert_eq!(first, run(0xdeadbeaf, 100));
    assert_eq!(run(12345, 37), run(12345, 37));
}

#[test]
fn checksum_never_holds_a_halo_bit_after_a_generation() {
    let mut grid = GameOfLife::new(300, 50);
    grid.randomize(0xdeadbeaf);
    for _ in 0..20 {
        grid.tick();
        assert_eq!(grid.parity() & 0x8000_0000_0000_0001, 0);
    }
}
