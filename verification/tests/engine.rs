use margolus::codec::{BlockInt, CellState};
use margolus::permutation::PermutationArray;
use margolus::rules::{construct_rules, ConstructError, Rules};
use margolus::world::World;

fn table(values: &[u8]) -> PermutationArray {
    PermutationArray(values.iter().map(|&v| BlockInt(v)).collect())
}

const CRITTERS: [u8; 16] = [
    0b1111, 0b1110, 0b1101, 0b0011, 0b1011, 0b0101, 0b0110, 0b0001, 0b0111, 0b1001, 0b1010,
    0b0010, 0b1100, 0b0100, 0b1000, 0b0000,
];

const SINGLE_ROTATE: [u8; 16] = [0, 2, 8, 3, 1, 5, 6, 7, 4, 9, 10, 11, 12, 13, 14, 15];

const TENET_STEP1: [u8; 81] = [
    0, 1, 54, 3, 36, 7, 18, 5, 72, 9, 30, 19, 28, 39, 66, 21, 48, 75, 6, 11, 60, 15, 42, 69, 56,
    51, 26, 27, 12, 55, 10, 37, 64, 57, 46, 73, 4, 31, 58, 13, 40, 67, 22, 49, 76, 63, 34, 61,
    16, 43, 70, 25, 68, 79, 2, 29, 24, 33, 38, 65, 20, 47, 62, 45, 32, 59, 14, 41, 52, 23, 50,
    77, 8, 35, 74, 17, 44, 71, 78, 53, 80,
];

const TENET_STEP2: [u8; 81] = [
    0, 27, 2, 9, 36, 7, 6, 5, 72, 3, 30, 19, 28, 13, 66, 21, 48, 75, 18, 11, 60, 15, 42, 69, 56,
    51, 78, 1, 12, 55, 10, 31, 64, 57, 46, 73, 4, 37, 58, 39, 40, 67, 22, 49, 76, 63, 34, 61, 16,
    43, 70, 25, 68, 79, 54, 29, 24, 33, 38, 65, 20, 47, 74, 45, 32, 59, 14, 41, 52, 23, 50, 77,
    8, 35, 62, 17, 44, 71, 26, 53, 80,
];

fn critters_rules() -> Rules {
    construct_rules(vec![table(&CRITTERS)]).unwrap()
}

fn cells_of(world: &World) -> Vec<u8> {
    world.arr().iter().map(|c| c.0).collect()
}

#[test]
fn critters_scenario() {
    // A 4x4 two-state grid, both phases starting even, with one live 2x2
    // block painted at (1, 1): its four cells each sit in a different block
    // of the even partition, so one step transforms every block through the
    // Critters table, which complements empty blocks.
    let mut world = World::new(critters_rules(), 2, 2);
    world.set_rect(1, 1, 2, 2, CellState(1));
    let painted = cells_of(&world);
    assert_eq!(
        painted,
        vec![
            0, 0, 0, 0, //
            0, 1, 1, 0, //
            0, 1, 1, 0, //
            0, 0, 0, 0,
        ]
    );
    world.step();
    assert!(world.is_intermediate_step());
    assert_eq!(
        cells_of(&world),
        vec![
            1, 1, 1, 1, //
            1, 0, 0, 1, //
            1, 0, 0, 1, //
            1, 1, 1, 1,
        ]
    );
    world.step_back();
    assert!(!world.is_intermediate_step());
    assert_eq!(cells_of(&world), painted);
}

#[test]
fn single_rotate_moves_one_cell() {
    // Under Single Rotate an empty block stays empty and a block with one
    // live top-left cell rotates it to the top right, so a lone cell moves
    // and every other cell stays unchanged.
    let rules = construct_rules(vec![table(&SINGLE_ROTATE)]).unwrap();
    let mut world = World::new(rules, 2, 2);
    world.set(0, 0, CellState(1));
    world.step();
    assert_eq!(
        cells_of(&world),
        vec![
            0, 1, 0, 0, //
            0, 0, 0, 0, //
            0, 0, 0, 0, //
            0, 0, 0, 0,
        ]
    );
}

#[test]
fn round_trip_many_steps() {
    let mut world = World::new(critters_rules(), 3, 2);
    world.set(0, 0, CellState(1));
    world.set(3, 1, CellState(1));
    world.set_rect(4, 2, 3, 2, CellState(1));
    let start = cells_of(&world);
    let mut world2 = world;
    for _ in 0..7 {
        world2.step();
    }
    for _ in 0..7 {
        world2.step_back();
    }
    assert_eq!(cells_of(&world2), start);
    assert!(!world2.is_intermediate_step());
}

#[test]
fn tenet_round_trip_three_states() {
    let rules = construct_rules(vec![table(&TENET_STEP1), table(&TENET_STEP2)]).unwrap();
    let mut world = World::new(rules, 2, 3);
    world.set(1, 1, CellState(2));
    world.set(2, 4, CellState(1));
    world.set(3, 3, CellState(2));
    let start = cells_of(&world);
    for _ in 0..5 {
        world.step();
    }
    for _ in 0..5 {
        world.step_back();
    }
    assert_eq!(cells_of(&world), start);
}

#[test]
fn toroidal_addressing() {
    let mut world = World::new(critters_rules(), 3, 3);
    world.set(1, 2, CellState(1));
    world.set(7, 11, CellState(1));
    for x in 0..6usize {
        for y in 0..6usize {
            let direct = world.get(x, y);
            assert_eq!(world.get(x + 6, y), direct);
            assert_eq!(world.get(x, y + 6), direct);
            assert_eq!(world.get(x + 12, y + 6), direct);
        }
    }
    // The wrapped writes landed where wrapped reads find them.
    assert_eq!(world.get(1, 5), CellState(1));
    assert_eq!(world.get(1, 2), CellState(1));
}

#[test]
fn set_rect_wraps_around_edges() {
    let mut world = World::new(critters_rules(), 2, 2);
    // A 2x2 rectangle at the far corner covers all four grid corners.
    world.set_rect(3, 3, 2, 2, CellState(1));
    assert_eq!(
        cells_of(&world),
        vec![
            1, 0, 0, 1, //
            0, 0, 0, 0, //
            0, 0, 0, 0, //
            1, 0, 0, 1,
        ]
    );
}

#[test]
fn resize_preserves_top_left() {
    let mut world = World::new(critters_rules(), 2, 2);
    world.set(0, 0, CellState(1));
    world.set(3, 3, CellState(1));
    world.set_new_size(3, 1);
    // Width grew to 6, height shrank to 2: the top-left overlap is kept,
    // new cells hold the default state, the far corner is gone.
    assert_eq!(
        cells_of(&world),
        vec![
            1, 0, 0, 0, 0, 0, //
            0, 0, 0, 0, 0, 0,
        ]
    );
}

#[test]
fn change_rules_normalizes_cells() {
    let tenet = construct_rules(vec![table(&TENET_STEP1), table(&TENET_STEP2)]).unwrap();
    let mut world = World::new(tenet, 2, 2);
    world.set(0, 0, CellState(2));
    world.set(1, 0, CellState(1));
    // Two-state rules have no state 2: it collapses to 1, valid cells stay.
    world.change_rules(critters_rules());
    assert_eq!(world.get(0, 0), CellState(1));
    assert_eq!(world.get(1, 0), CellState(1));
    assert_eq!(world.get(2, 0), CellState(0));
}

#[test]
fn construct_rules_error_kinds() {
    // No array, or more than two, is a wrong step count.
    assert!(matches!(
        construct_rules(vec![]),
        Err(ConstructError::WrongSteps { steps_count: 0 })
    ));
    assert!(matches!(
        construct_rules(vec![table(&CRITTERS), table(&CRITTERS), table(&CRITTERS)]),
        Err(ConstructError::WrongSteps { steps_count: 3 })
    ));
    // A length matching no supported alphabet.
    assert!(matches!(
        construct_rules(vec![table(&[0, 1, 2])]),
        Err(ConstructError::WrongElementsCount)
    ));
    // Two arrays of different supported lengths.
    assert!(matches!(
        construct_rules(vec![table(&CRITTERS), table(&TENET_STEP1)]),
        Err(ConstructError::WrongElementsCount)
    ));
    // A duplicate entry.
    let mut dup = CRITTERS.to_vec();
    dup[3] = dup[2];
    assert!(matches!(
        construct_rules(vec![table(&dup)]),
        Err(ConstructError::NotPermutationArrays)
    ));
    // An entry out of range.
    let mut big = CRITTERS.to_vec();
    big[5] = 16;
    assert!(matches!(
        construct_rules(vec![table(&big)]),
        Err(ConstructError::NotPermutationArrays)
    ));
}

#[test]
fn block_codec_bijection() {
    let two = critters_rules();
    for code in 0..16u8 {
        let cells = two.from_block_int(BlockInt(code));
        assert_eq!(two.to_block_int(cells), BlockInt(code));
    }
    for a in 0..2u8 {
        for b in 0..2u8 {
            for c in 0..2u8 {
                for d in 0..2u8 {
                    let block = [CellState(a), CellState(b), CellState(c), CellState(d)];
                    let code = two.to_block_int(block);
                    assert_eq!(two.from_block_int(code), block);
                }
            }
        }
    }
    let three = construct_rules(vec![table(&TENET_STEP1), table(&TENET_STEP2)]).unwrap();
    for code in 0..81u8 {
        let cells = three.from_block_int(BlockInt(code));
        assert_eq!(three.to_block_int(cells), BlockInt(code));
        for cell in cells {
            assert!(cell.0 < 3);
        }
    }
}

#[test]
fn inverse_tables_are_exact() {
    let rules = construct_rules(vec![table(&TENET_STEP1), table(&TENET_STEP2)]).unwrap();
    let step1 = rules.step1();
    let step1_invert = rules.step1_invert();
    let step2 = rules.step2();
    let step2_invert = rules.step2_invert();
    for i in 0..81usize {
        assert_eq!(step1_invert[step1[i].0 as usize].0 as usize, i);
        assert_eq!(step1[step1_invert[i].0 as usize].0 as usize, i);
        assert_eq!(step2_invert[step2[i].0 as usize].0 as usize, i);
        assert_eq!(step2[step2_invert[i].0 as usize].0 as usize, i);
    }
}

#[test]
fn edit_states_per_alphabet() {
    let two = critters_rules();
    assert_eq!(two.mouse_1(), CellState(1));
    assert_eq!(two.mouse_2(), CellState(0));
    assert_eq!(two.mouse_3(), CellState(0));
    assert_eq!(two.default_state(), CellState(0));
    assert_eq!(two.normalize_state(CellState(7)), CellState(1));
    assert_eq!(two.normalize_state(CellState(1)), CellState(1));
    let three = construct_rules(vec![table(&TENET_STEP1), table(&TENET_STEP2)]).unwrap();
    assert_eq!(three.mouse_1(), CellState(1));
    assert_eq!(three.mouse_2(), CellState(2));
    assert_eq!(three.mouse_3(), CellState(0));
    assert_eq!(three.normalize_state(CellState(2)), CellState(2));
    assert_eq!(three.normalize_state(CellState(3)), CellState(1));
}

#[test]
fn phase_alternates() {
    let mut world = World::new(critters_rules(), 1, 1);
    assert!(!world.is_intermediate_step());
    world.step();
    assert!(world.is_intermediate_step());
    world.step();
    assert!(!world.is_intermediate_step());
    world.step_back();
    assert!(world.is_intermediate_step());
    world.step_back();
    assert!(!world.is_intermediate_step());
}

#[test]
fn raw_index_writes() {
    let mut world = World::new(critters_rules(), 2, 2);
    world.arr_mut(5, CellState(1));
    world.arr_mut(15, CellState(1));
    assert_eq!(world.get(1, 1), CellState(1));
    assert_eq!(world.get(3, 3), CellState(1));
    assert_eq!(cells_of(&world).iter().filter(|&&c| c == 1).count(), 2);
}

#[test]
fn new_world_is_cleared() {
    let world = World::new(critters_rules(), 4, 3);
    let cells = cells_of(&world);
    assert_eq!(cells.len(), 8 * 6);
    assert!(cells.iter().all(|&c| c == 0));
    assert_eq!(world.get_rules().default_state(), CellState(0));
}
