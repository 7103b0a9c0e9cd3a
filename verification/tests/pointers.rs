use ipts::pointers::Pointers;
use ipts::Report;
use std::time::Instant;

fn read_reports(_pointers: &Pointers) {
    // for event in pointers.events() {
    //     print!("{:?} ", event);
    // }
    // println!();
}

#[test]
fn tests_it_works() {
    let start = Instant::now();
    let mut pointers = Pointers::new();
    let mut expected = [Report::Idle; 10];
    assert_eq!(pointers.events(), &expected);
    read_reports(&pointers);

    let mut positions: [(u32, u32); 10] = [(0, 0); 10];
    pointers.update(positions, 0);
    assert_eq!(pointers.events(), &expected);
    read_reports(&pointers);

    positions[0] = (1, 1);
    pointers.update(positions, 0);
    assert_eq!(pointers.events(), &expected);
    read_reports(&pointers);

    pointers.update(positions, 1);
    expected[0] = Report::Down((1, 1));
    assert_eq!(pointers.events(), &expected);
    read_reports(&pointers);

    pointers.update(positions, 1);
    expected[0] = Report::Move((1, 1));
    assert_eq!(pointers.events(), &expected);
    read_reports(&pointers);

    positions[0] = (1, 2);
    pointers.update(positions, 1);
    expected[0] = Report::Move((1, 1));
    assert_eq!(pointers.events(), &expected);
    read_reports(&pointers);

    positions[0] = (1, 20);
    pointers.update(positions, 1);
    expected[0] = Report::Move((1, 20));
    assert_eq!(pointers.events(), &expected);
    read_reports(&pointers);

    positions[0] = (1, 50);
    pointers.update(positions, 1);
    expected[0] = Report::Move((1, 50));
    assert_eq!(pointers.events(), &expected);
    read_reports(&pointers);

    positions[0] = (1, 5);
    positions[1] = (100, 500);
    pointers.update(positions, 2);
    expected[0] = Report::Move((1, 5));
    expected[1] = Report::Down((100, 500));
    assert_eq!(pointers.events(), &expected);
    read_reports(&pointers);

    pointers.update(positions, 2);
    expected[0] = Report::Move((1, 5));
    expected[1] = Report::Move((100, 500));
    assert_eq!(pointers.events(), &expected);
    read_reports(&pointers);

    positions.swap(0, 1);
    pointers.update(positions, 2);
    assert_eq!(pointers.events(), &expected);
    read_reports(&pointers);

    pointers.update(positions, 2);
    assert_eq!(pointers.events(), &expected);
    read_reports(&pointers);

    positions.swap(0, 1);
    pointers.update(positions, 2);
    assert_eq!(pointers.events(), &expected);
    read_reports(&pointers);

    positions[2] = (50, 40);
    pointers.update(positions, 2);
    assert_eq!(pointers.events(), &expected);
    read_reports(&pointers);

    pointers.update(positions, 3);
    expected[2] = Report::Down((50, 40));
    assert_eq!(pointers.events(), &expected);
    read_reports(&pointers);

    positions[1] = positions[2];
    pointers.update(positions, 2);
    expected[1] = Report::Up;
    expected[2] = Report::Move((50, 40));
    assert_eq!(pointers.events(), &expected);
    read_reports(&pointers);

    pointers.update(positions, 2);
    expected[1] = Report::Idle;
    assert_eq!(pointers.events(), &expected);
    read_reports(&pointers);

    positions[2] = (800, 900);
    pointers.update(positions, 3);
    expected[1] = Report::Down((800, 900));
    assert_eq!(pointers.events(), &expected);
    read_reports(&pointers);

    positions[0] = positions[1];
    pointers.update(positions, 1);
    expected[0] = Report::Up;
    expected[1] = Report::Up;
    assert_eq!(pointers.events(), &expected);
    read_reports(&pointers);

    positions[0] = (71, 61);
    pointers.update(positions, 1);
    expected[0] = Report::Idle;
    expected[1] = Report::Idle;
    expected[2] = Report::Move((71, 61));
    assert_eq!(pointers.events(), &expected);
    read_reports(&pointers);

    positions[0] = (52, 42);
    positions[1] = (11, 22);
    pointers.update(positions, 2);
    expected[0] = Report::Down((11, 22));
    expected[2] = Report::Move((52, 42));
    assert_eq!(pointers.events(), &expected);
    read_reports(&pointers);
    println!("Elapsed {:?}", Instant::now() - start);
}

fn row_of_ten() -> [(u32, u32); 10] {
    let mut p = [(0u32, 0u32); 10];
    for (i, x) in p.iter_mut().enumerate() {
        *x = (200 * i as u32 + 100, 100);
    }
    p
}

#[test]
fn jitter_keeps_the_old_position() {
    let mut pointers = Pointers::new();
    let mut p = [(0u32, 0u32); 10];
    p[0] = (500, 500);
    pointers.update(p, 1);
    assert_eq!(pointers.events()[0], Report::Down((500, 500)));
    p[0] = (503, 504);
    assert!(pointers.distances_fit(&p) && pointers.fits(&p, 1));
    pointers.update(p, 1);
    assert_eq!(pointers.events()[0], Report::Move((500, 500)));
    p[0] = (520, 500);
    pointers.update(p, 1);
    assert_eq!(pointers.events()[0], Report::Move((520, 500)));
}

#[test]
fn far_points_do_not_fit_the_table() {
    let mut pointers = Pointers::new();
    let mut p = [(0u32, 0u32); 10];
    pointers.update(p, 1);
    p[0] = (u32::MAX, 0);
    assert!(!pointers.distances_fit(&p));
    p[0] = (40000, 40000);
    assert!(pointers.distances_fit(&p));
}

#[test]
fn last_slot_lifted_with_every_slot_needed_does_not_fit() {
    let mut pointers = Pointers::new();
    let mut p = row_of_ten();
    assert!(pointers.fits(&p, 10));
    pointers.update(p, 10);
    for i in 0..10 {
        assert_eq!(pointers.events()[i], Report::Down(p[i]));
    }
    p[9] = (100, 1500);
    assert!(pointers.distances_fit(&p));
    assert!(!pointers.fits(&p, 10));
    assert!(pointers.fits(&p, 9));
}

#[test]
fn every_finger_leaves() {
    let mut pointers = Pointers::new();
    let mut p = [(0u32, 0u32); 10];
    p[0] = (100, 100);
    p[1] = (900, 900);
    p[2] = (1500, 300);
    pointers.update(p, 3);
    pointers.update(p, 0);
    let mut expected = [Report::Idle; 10];
    expected[0] = Report::Up;
    expected[1] = Report::Up;
    expected[2] = Report::Up;
    assert_eq!(pointers.events(), &expected);
    pointers.update(p, 0);
    assert_eq!(pointers.events(), &[Report::Idle; 10]);
}
