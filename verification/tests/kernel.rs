use game_of_life::next_row;

fn rule(alive: bool, neighbours: u32) -> bool {
    neighbours == 3 || (alive && neighbours == 2)
}

/// Places the three low bits of `pattern` in lanes `lane - 1`, `lane`, `lane + 1`.
fn spread(pattern: u64, lane: u32) -> u64 {
    (pattern & 7) << (lane - 1)
}

fn check_all_neighbourhoods(lane: u32) {
    for assignment in 0u64..512 {
        let a = assignment & 7;
        let r = (assignment >> 3) & 7;
        let b = (assignment >> 6) & 7;
        let next = next_row(spread(a, lane), spread(r, lane), spread(b, lane));
        let alive = (r >> 1) & 1 == 1;
        let neighbours = a.count_ones() + b.count_ones() + (r & 5).count_ones();
        assert_eq!(
            (next >> lane) & 1 == 1,
            rule(alive, neighbours),
            "lane {lane}, assignment {assignment:09b}"
        );
    }
}

#[test]
fn kernel_matches_rule_on_every_neighbourhood_of_a_middle_lane() {
    check_all_neighbourhoods(30);
}

#[test]
fn kernel_matches_rule_on_every_neighbourhood_of_the_first_lane() {
    check_all_neighbourhoods(1);
}

#[test]
fn kernel_matches_rule_on_every_neighbourhood_of_the_last_lane() {
    check_all_neighbourhoods(62);
}

#[test]
fn kernel_clears_both_halo_bits() {
    for &(a, r, b) in &[
        (u64::MAX, u64::MAX, u64::MAX),
        (0b111, 0, 0),
        (0, 0b11, 0b1),
        (1 << 63 | 1 << 62, 1 << 62, 1 << 61),
        (0x5555_5555_5555_5555, 0xAAAA_AAAA_AAAA_AAAA, 0x3333_3333_3333_3333),
    ] {
        let next = next_row(a, r, b);
        assert_eq!(next & 0x8000_0000_0000_0001, 0);
    }
}

#[test]
fn kernel_of_dead_rows_is_dead() {
    assert_eq!(next_row(0, 0, 0), 0);
}

#[test]
fn kernel_births_on_three_in_the_row_above() {
    // Lanes 4, 5, 6 alive above: the cell under the middle one is born.
    assert_eq!(next_row(0b111 << 4, 0, 0), 1 << 5);
}

#[test]
fn kernel_keeps_the_middle_of_a_horizontal_triple() {
    // Three in a row: the middle survives with two neighbours, the ends die.
    assert_eq!(next_row(0, 0b111 << 10, 0), 1 << 11);
}

#[test]
fn kernel_kills_an_overcrowded_cell() {
    // A full 3x3 square in lanes 20 to 22: its middle row dies of five and
    // eight neighbours, and the lanes beside it, with three each, come alive.
    assert_eq!(next_row(0b111 << 20, 0b111 << 20, 0b111 << 20), 1 << 19 | 1 << 23);
}

#[test]
fn kernel_reads_the_halo_bits_as_neighbours() {
    // Bit 0 counts as the left neighbour of lane 1, bit 63 as the right
    // neighbour of lane 62.
    assert_eq!(next_row(0b11, 0, 0b1) & 0b10, 0b10);
    assert_eq!(next_row(0b10, 0, 0b10) & 0b10, 0);
    assert_eq!(next_row(3 << 62, 0, 1 << 63) & (1 << 62), 1 << 62);
}
