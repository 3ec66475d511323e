//! Tests of the companion puzzle modules: the stream scorer, the firewall
//! trip, the dueling generators, the spinlock, the memory reallocation loop
//! and the spiral grid.

use knotgrid::spiral::Cell;
use knotgrid::spiral::Grid;

#[test]
fn it_works() {
    let input = r#" {} "#;
    assert_eq!(knotgrid::streams::get_score(&input), 1);
    let input = r#" {{{}}} "#;
    assert_eq!(knotgrid::streams::get_score(&input), 6);
    let input = r#" {{},{}} "#;
    assert_eq!(knotgrid::streams::get_score(&input), 5);
    let input = r#" {{{},{},{{}}}} "#;
    assert_eq!(knotgrid::streams::get_score(&input), 16);
    let input = r#" {<a>,<a>,<a>,<a>} "#;
    assert_eq!(knotgrid::streams::get_score(&input), 1);
    let input = r#" {{<ab>},{<ab>},{<ab>},{<ab>}} "#;
    assert_eq!(knotgrid::streams::get_score(&input), 9);
    let input = r#" {{<!!>},{<!!>},{<!!>},{<!!>}} "#;
    assert_eq!(knotgrid::streams::get_score(&input), 9);
    let input = r#" {{<a!>},{<a!>},{<a!>},{<ab>}} "#;
    assert_eq!(knotgrid::streams::get_score(&input), 3);
}

#[test]
fn lib_it_works() {
    assert_eq!(knotgrid::generators::run(65, 4, 8921, 8, 5_000_000), 309);
}

#[test]
fn lib_answer() {
    println!("answer is {}", knotgrid::generators::run(591, 4, 393, 8, 5_000_000));
}

#[test]
fn spinlock_it_works() {
    assert_eq!(knotgrid::spinlock::run(3), 638);
}

#[test]
fn answer() {
    println!("{}", knotgrid::spinlock::run(324));
}

#[test]
fn memory_test_input() {
    let input = "14 0   15  12  11  11  3   5   1   6   8   4   9   1   8   4";
    let num = knotgrid::memory::run(&input);
    println!("answer is: {}", &num);
}

#[test]
fn given_test() {
    let input = "0\t2\t7\t0";
    let num = knotgrid::memory::run(&input);
    assert_eq!(num, 5);
}

#[test]
fn firewall_it_works() {
    let input = T_IT_LIT;
    assert_eq!(knotgrid::firewall::run(&input), 24);
}

#[test]
fn test_answer() {
    let input = T_ANS_LIT;
    println!("{}", knotgrid::firewall::run(&input));
}

#[test]
fn generators_low_bits() {
    assert_eq!(knotgrid::generators::low16bits(0x12345678), 0x5678);
    assert_eq!(knotgrid::generators::low16bits(0xffff_ffff_ffff_ffff), 0xffff);
}

#[test]
fn basic_test() {
    let should_be = vec![
        Cell { pos: (0, 0), val: 1 },
        Cell { pos: (1, 0), val: 1 },
        Cell { pos: (1, 1), val: 2 },
        Cell { pos: (0, 1), val: 4 },
        Cell { pos: (-1, 1), val: 5 },
        Cell { pos: (-1, 0), val: 10 },
        Cell { pos: (-1, -1), val: 11 },
        Cell { pos: (0, -1), val: 23 },
        Cell { pos: (1, -1), val: 25 },
        Cell { pos: (2, -1), val: 26 },
        Cell { pos: (2, 0), val: 54 },
        Cell { pos: (2, 1), val: 57 },
        Cell { pos: (2, 2), val: 59 },
        Cell { pos: (1, 2), val: 122 },
        Cell { pos: (0, 2), val: 133 },
        Cell { pos: (-1, 2), val: 142 },
        Cell { pos: (-2, 2), val: 147 },
        Cell { pos: (-2, 1), val: 304 },
        Cell { pos: (-2, 0), val: 330 },
        Cell { pos: (-2, -1), val: 351 },
        Cell { pos: (-2, -2), val: 362 },
        Cell { pos: (-1, -2), val: 747 },
        Cell { pos: (0, -2), val: 806 },
        Cell { pos: (1, -2), val: 880 },
        Cell { pos: (2, -2), val: 931 },
    ];
    let mut g = Grid::new();
    g.build(Some(2), 932);
    assert!(should_be == g.cells);

    let mut g = Grid::new();
    g.build(None, 347992);
    assert!(g.num >= 347992);
}

#[test]
fn spiral_distances() {
    let mut g = Grid::new();
    g.build(Some(2), 932);
    assert_eq!(g.get_distance(1), 0);
    assert_eq!(g.get_cell_with_val(3).pos, (1, 1));
    assert_eq!(g.get_distance(3), 2);
}

const T_IT_LIT: &str = r#"
            0: 3
            1: 2
            4: 4
            6: 4
        "#;
const T_ANS_LIT: &str = r#"
            0: 3
            1: 2
            2: 4
            4: 6
            6: 5
            8: 8
            10: 6
            12: 4
            14: 8
            16: 6
            18: 8
            20: 8
            22: 6
            24: 8
            26: 9
            28: 12
            30: 8
            32: 14
            34: 10
            36: 12
            38: 12
            40: 10
            42: 12
            44: 12
            46: 12
            48: 12
            50: 14
            52: 12
            54: 14
            56: 12
            60: 14
            62: 12
            64: 14
            66: 14
            68: 14
            70: 14
            72: 14
            74: 14
            78: 26
            80: 18
            82: 17
            86: 18
            88: 14
            96: 18
        "#;

#[test]
fn firewall_rows_render() {
    let layers = vec![
        Some(knotgrid::firewall::Layer::new(2)),
        None,
        Some(knotgrid::firewall::Layer::new(2)),
    ];
    let b = knotgrid::firewall::Board::new(layers, 0);
    assert_eq!(b.number_row(), "0   1   2");
    assert_eq!(b.top_layer_row(), "(S) ... [S]");
    assert_eq!(b.other_row(1), "[ ]     [ ]");
    assert_eq!(b.max_depth(), 2);
}
