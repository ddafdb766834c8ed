use puzzles::disk;
use puzzles::disk_files;
use puzzles::field::Field;
use puzzles::keypad::Direction::{Down, Left, Right, Up};
use puzzles::keypad::{
    count_keys, Dirpad, DirpadKey, Direction, MoveCountCache, Numpad, NumpadKey,
};
use puzzles::reports;
use puzzles::computer::{ComboOp, Computer, Instruction, Register};
use puzzles::robots::{Robot, Vector};

#[test]
fn test_direction_order() {
    assert!(Left < Down);
    assert!(Down < Up);
    assert!(Up < Right);

    let a = vec![Left, Down];
    let b = vec![Down, Left];
    assert!(a < b);
}

#[test]
fn main_test_direction_order() {
    assert!(Left < Down);
    assert!(Down < Up);
    assert!(Up < Right);

    let a = vec![Left, Down];
    let b = vec![Down, Left];
    assert!(a < b);
}

#[test]
fn test_numpad() {
    let keys = vec![NumpadKey::N1, NumpadKey::N9, NumpadKey::N2, NumpadKey::N1];
    let move_opts = Numpad::move_sequence(&keys);

    assert_eq!(
        move_opts,
        vec![
            vec![Up, Left, Left],
            vec![Up, Up, Right, Right],
            vec![Left, Down, Down],
            vec![Left],
        ]
    );
}

#[test]
fn main_test_numpad() {
    let keys = vec![NumpadKey::N1, NumpadKey::N9, NumpadKey::N2, NumpadKey::N1];
    let move_opts = Numpad::move_sequence(&keys);

    assert_eq!(
        move_opts,
        vec![
            vec![Up, Left, Left],
            vec![Up, Up, Right, Right],
            vec![Left, Down, Down],
            vec![Left],
        ]
    );
}

#[test]
fn test_count_keys() {
    let mut cache = MoveCountCache::new();
    assert_eq!(
        count_keys(
            &mut cache,
            &vec![DirpadKey::Up, DirpadKey::Right, DirpadKey::Down, DirpadKey::A],
            0,
        ),
        4
    );
    assert_eq!(count_keys(&mut cache, &vec![DirpadKey::Left], 1), 4);
    assert_eq!(count_keys(&mut cache, &vec![DirpadKey::Down], 2), 9);

    let num_keys = vec![NumpadKey::N0, NumpadKey::N2, NumpadKey::N9, NumpadKey::A];
    let moves = Numpad::move_sequence(&num_keys);
    let dirpad_keys: Vec<DirpadKey> = moves
        .iter()
        .flat_map(|step| Dirpad::keys_from_moves(step))
        .collect();
    assert_eq!(dirpad_keys.len(), 12);
    assert_eq!(count_keys(&mut cache, &dirpad_keys, 3), 164);
}

#[test]
fn dirpad_moves_and_keys() {
    // from `A` to the far left key: down first, then the two lefts
    let moves = Dirpad::get_cheapest_moves(DirpadKey::A, DirpadKey::Left);
    assert_eq!(moves, vec![Down, Left, Left]);
    let keys = Dirpad::keys_from_moves(&moves);
    assert_eq!(
        keys,
        vec![DirpadKey::Down, DirpadKey::Left, DirpadKey::Left, DirpadKey::A]
    );
}

#[test]
fn numpad_from_char() {
    assert_eq!(NumpadKey::from_char('7'), Some(NumpadKey::N7));
    assert_eq!(NumpadKey::from_char('A'), Some(NumpadKey::A));
    assert_eq!(NumpadKey::from_char('x'), None);
}

#[test]
fn field_set_get() {
    let mut f = Field::<4, 3, bool>::new();
    assert!(!f.get(2, 1));
    f.set(2, 1, true);
    assert!(f.get(2, 1));
    assert!(!f.get(2, 0));

    let mut counts = Field::<2, 2, u32>::new();
    counts.set(0, 0, 7);
    assert_eq!(counts.get(0, 0), 7);
    assert_eq!(counts.get(1, 1), 0);

    let marks = Field::<2, 2, Option<u32>>::new();
    assert_eq!(marks.get(1, 0), None);
}

#[test]
fn disk_compacts_and_checksums() {
    let mut fs = disk::FS::parse("2333133121414131402");
    fs.defrag();
    assert_eq!(fs.checksum(), 1928);
}

#[test]
fn disk_parse_layout() {
    let fs = disk::FS::parse("12345");
    assert_eq!(fs.blocks.len(), 15);
    assert_eq!(fs.blocks[0], Some(0));
    assert_eq!(fs.blocks[1], None);
    assert_eq!(fs.blocks[2], None);
    assert_eq!(fs.blocks[3], Some(1));
}

#[test]
fn disk_files_compacts_whole_files() {
    let mut fs = disk_files::FS::parse("2333133121414131402");
    fs.defrag();
    assert_eq!(fs.checksum(), 2858);
}

#[test]
fn sector_checksum_formula() {
    let s = disk_files::Sector {
        id: Some(3),
        length: 4,
    };
    // positions 10..14 each times id 3
    assert_eq!(s.checksum(10), (10 + 11 + 12 + 13) * 3);
    let gap = disk_files::Sector {
        id: None,
        length: 9,
    };
    assert_eq!(gap.checksum(50), 0);
}

#[test]
fn vector_parses_signed_pairs() {
    assert_eq!(Vector::parse("1,3"), Some(Vector { x: 1, y: 3 }));
    assert_eq!(Vector::parse("-12,40"), Some(Vector { x: -12, y: 40 }));
    assert_eq!(Vector::parse("12"), None);
    assert_eq!(Vector::parse("a,3"), None);
}

#[test]
fn robot_parses_and_steps() {
    let mut r = Robot::parse("p=2,4 v=2,-3").unwrap();
    assert_eq!(r.pos, Vector { x: 2, y: 4 });
    assert_eq!(r.dir, Vector { x: 2, y: -3 });
    r.step();
    assert_eq!(r.pos, Vector { x: 4, y: 1 });
    // wrapping at the field edge
    let mut w = Robot {
        pos: Vector { x: 100, y: 0 },
        dir: Vector { x: 2, y: -1 },
    };
    w.step();
    assert_eq!(w.pos, Vector { x: 1, y: 102 });
    assert!(Robot::parse("p=2,4").is_none());
}

#[test]
fn report_safety() {
    assert!(reports::is_safe(&vec![7, 6, 4, 2, 1]));
    assert!(reports::is_safe(&vec![1, 3, 6, 7, 9]));
    assert!(!reports::is_safe(&vec![1, 2, 7, 8, 9]));
    assert!(!reports::is_safe(&vec![8, 6, 4, 4, 1]));
}

#[test]
fn report_fixability() {
    assert!(reports::is_fixable(&vec![1, 3, 2, 4, 5]));
    assert!(reports::is_fixable(&vec![8, 6, 4, 4, 1]));
    assert!(!reports::is_fixable(&vec![9, 7, 6, 2, 1]));
    let all = vec![
        vec![7, 6, 4, 2, 1],
        vec![1, 2, 7, 8, 9],
        vec![9, 7, 6, 2, 1],
        vec![1, 3, 2, 4, 5],
        vec![8, 6, 4, 4, 1],
        vec![1, 3, 6, 7, 9],
    ];
    assert_eq!(reports::count_safe(&all), 2);
    assert_eq!(reports::count_fixable(&all), 2);
}

#[test]
fn guard_walks_off_an_open_field() {
    let obstacles = Field::<
        { puzzles::guard::FIELD_SIZE },
        { puzzles::guard::FIELD_SIZE },
        bool,
    >::new();
    assert!(!puzzles::guard::loops(&obstacles, (5, 5), 0));
}

#[test]
fn guard_caught_in_a_cycle() {
    let mut obstacles = Field::<
        { puzzles::guard::FIELD_SIZE },
        { puzzles::guard::FIELD_SIZE },
        bool,
    >::new();
    // four blocks arranged so the guard circles a small square forever
    obstacles.set(0, 1, true);
    obstacles.set(1, 3, true);
    obstacles.set(3, 2, true);
    obstacles.set(2, 0, true);
    assert!(puzzles::guard::loops(&obstacles, (1, 1), 0));
}

#[test]
fn guard_boxed_in_spins() {
    let mut obstacles = Field::<
        { puzzles::guard::FIELD_SIZE },
        { puzzles::guard::FIELD_SIZE },
        bool,
    >::new();
    obstacles.set(4, 5, true);
    obstacles.set(6, 5, true);
    obstacles.set(5, 4, true);
    obstacles.set(5, 6, true);
    assert!(puzzles::guard::loops(&obstacles, (5, 5), 0));
}

#[test]
fn calibration_single_equations() {
    assert!(puzzles::calibration::test(190, &[10, 19]));
    assert!(puzzles::calibration::test(3267, &[81, 40, 27]));
    assert!(!puzzles::calibration::test(83, &[17, 5]));
    assert!(!puzzles::calibration::test(161011, &[16, 10, 13]));
}

#[test]
fn calibration_total() {
    let equations: Vec<(u64, Vec<u64>)> = vec![
        (190, vec![10, 19]),
        (3267, vec![81, 40, 27]),
        (83, vec![17, 5]),
        (156, vec![15, 6]),
        (7290, vec![6, 8, 6, 15]),
        (161011, vec![16, 10, 13]),
        (192, vec![17, 8, 14]),
        (21037, vec![9, 7, 18, 13]),
        (292, vec![11, 6, 16, 20]),
    ];
    assert_eq!(puzzles::calibration::total_calibration(&equations), Some(3749));
}

#[test]
fn claw_machine_solutions() {
    let m1 = puzzles::claw::Equation {
        dx_a: 94,
        dy_a: 34,
        dx_b: 22,
        dy_b: 67,
        x: 8400,
        y: 5400,
    };
    assert_eq!(m1.solve(), Some((80, 40)));

    let m2 = puzzles::claw::Equation {
        dx_a: 26,
        dy_a: 66,
        dx_b: 67,
        dy_b: 21,
        x: 12748,
        y: 12176,
    };
    assert_eq!(m2.solve(), None);

    // a far prize still solves exactly
    let far = puzzles::claw::Equation {
        dx_a: 26,
        dy_a: 66,
        dx_b: 67,
        dy_b: 21,
        x: 10000000012748,
        y: 10000000012176,
    };
    let (a, b) = far.solve().unwrap();
    assert_eq!(a * 26 + b * 67, 10000000012748);
    assert_eq!(a * 66 + b * 21, 10000000012176);

    // linearly dependent buttons are reported unsolvable
    let flat = puzzles::claw::Equation {
        dx_a: 2,
        dy_a: 2,
        dx_b: 1,
        dy_b: 1,
        x: 10,
        y: 10,
    };
    assert_eq!(flat.solve(), None);
}

#[test]
fn computer_runs_sample_program() {
    let raw: Vec<u8> = vec![0, 1, 5, 4, 3, 0];
    let mut program: Vec<Instruction> = Vec::new();
    let mut i = 0;
    while i + 1 < raw.len() {
        program.push(Instruction::from_pair(raw[i], raw[i + 1]).unwrap());
        i += 2;
    }
    let mut m = Computer {
        registers: [729, 0, 0],
        program,
        pc: 0,
        output: Vec::new(),
    };
    let halted = m.run(10_000);
    assert!(halted);
    assert_eq!(m.output, vec![4, 6, 3, 5, 6, 3, 5, 2, 1, 0]);
}

#[test]
fn computer_decodes_operands() {
    assert_eq!(ComboOp::from_code(3), Some(ComboOp::Literal(3)));
    assert_eq!(ComboOp::from_code(5), Some(ComboOp::Register(Register::B)));
    assert_eq!(ComboOp::from_code(7), None);
    assert!(Instruction::from_pair(4, 9).is_some());
    assert!(Instruction::from_pair(0, 7).is_none());
    assert!(Instruction::from_pair(9, 0).is_none());
}

#[test]
fn computer_budget_reports_unfinished() {
    // jump back to the start forever while register A is nonzero
    let program = vec![Instruction::from_pair(3, 0).unwrap()];
    let mut m = Computer {
        registers: [1, 0, 0],
        program,
        pc: 0,
        output: Vec::new(),
    };
    let halted = m.run(100);
    assert!(!halted);
}
