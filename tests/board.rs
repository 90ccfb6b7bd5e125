use hlt::board::{invert, normalize, Board, Offset, Position};
use hlt::game::Direction;

#[test]
fn test_normalize() {
    assert_eq!(normalize(-5, 10), 5);
    assert_eq!(normalize(5, 10), 5);
    assert_eq!(normalize(10, 10), 0);
}

#[test]
fn test_invert() {
    assert_eq!(invert(-12, 10), 8);
    assert_eq!(invert(-10, 10), 0);
    assert_eq!(invert(-9, 10), 1);
    assert_eq!(invert(-5, 10), 5);
    assert_eq!(invert(0, 10), 0);
    assert_eq!(invert(1, 10), -9);
    assert_eq!(invert(5, 10), -5);
    assert_eq!(invert(10, 10), 0);
    assert_eq!(invert(19, 10), -1);
}

#[test]
fn test_position_plus_offset() {
    let position = Position::new(2, 3);
    let offset = Offset::new(3, 4);
    assert_eq!(position + offset, Position::new(5, 7));

    let position = Position::new(2, 3);
    let offset = Offset::new(3, -4);
    assert_eq!(position + offset, Position::new(5, -1));
}

#[test]
fn test_position_minus_position() {
    let position_a = Position::new(2, 3);
    let position_b = Position::new(5, 7);
    assert_eq!(position_b - position_a, Offset::new(3, 4));

    let position_a = Position::new(2, 3);
    let position_b = Position::new(5, -1);
    assert_eq!(position_b - position_a, Offset::new(3, -4));
}

#[test]
fn test_position_normalized() {
    let width = 5;
    let height = 10;

    let input = Position::new(0, 0);
    assert_eq!(input.normalized(width, height), input);

    let input = Position::new(4, 9);
    assert_eq!(input.normalized(width, height), input);

    let input = Position::new(-3, 12);
    let output = Position::new(2, 2);
    assert_eq!(input.normalized(width, height), output);

    let input = Position::new(12, -3);
    let output = Position::new(2, 7);
    assert_eq!(input.normalized(width, height), output);

    let input = Position::new(-3, -15);
    let output = Position::new(2, 5);
    assert_eq!(input.normalized(width, height), output);
}

#[test]
fn test_offset_inverted_dx() {
    let width = 5;

    let input = Offset::new(0, 0);
    assert_eq!(input.inverted_dx(width), input);

    let input = Offset::new(1, 1);
    assert_eq!(input.inverted_dx(width), Offset::new(-4, 1));

    let input = Offset::new(3, 4);
    assert_eq!(input.inverted_dx(width), Offset::new(-2, 4));
}

#[test]
fn test_offset_inverted_dy() {
    let height = 10;

    let input = Offset::new(0, 0);
    assert_eq!(input.inverted_dy(height), input);

    let input = Offset::new(1, 1);
    assert_eq!(input.inverted_dy(height), Offset::new(1, -9));

    let input = Offset::new(3, 4);
    assert_eq!(input.inverted_dy(height), Offset::new(3, -6));
}

#[test]
fn test_offset_inverted() {
    let width = 5;
    let height = 10;

    let input = Offset::new(0, 0);
    assert_eq!(input.inverted(width, height), input);

    let input = Offset::new(0, 2);
    let output = Offset::new(0, -8);
    assert_eq!(input.inverted(width, height), output);

    let input = Offset::new(2, 0);
    let output = Offset::new(-3, 0);
    assert_eq!(input.inverted(width, height), output);

    let input = Offset::new(3, 1);
    let output = Offset::new(-2, -9);
    assert_eq!(input.inverted(width, height), output);
}

#[test]
fn test_offset_mirrored_dx() {
    let input = Offset::new(0, 0);
    assert_eq!(input.mirrored_dx(), input);

    let input = Offset::new(1, 1);
    assert_eq!(input.mirrored_dx(), Offset::new(-1, 1));

    let input = Offset::new(3, 4);
    assert_eq!(input.mirrored_dx(), Offset::new(-3, 4));
}

#[test]
fn test_offset_mirrored_dy() {
    let input = Offset::new(0, 0);
    assert_eq!(input.mirrored_dy(), input);

    let input = Offset::new(1, 1);
    assert_eq!(input.mirrored_dy(), Offset::new(1, -1));

    let input = Offset::new(3, 4);
    assert_eq!(input.mirrored_dy(), Offset::new(3, -4));
}

#[test]
fn test_offset_reduce() {
    let width = 5;
    let height = 5;

    let input = Offset::new(0, 0);
    assert_eq!(input.reduce(width, height), input);

    let input = Position::new(3, 2) - Position::new(0, 1);
    let output = Offset::new(-2, 1);
    assert_eq!(input.reduce(width, height), output);

    let input = Position::new(0, 1) - Position::new(3, 2);
    let output = Offset::new(2, -1);
    assert_eq!(input.reduce(width, height), output);

    let input = Position::new(0, 1) - Position::new(3, 2);
    let output = Offset::new(2, -1);
    assert_eq!(input.reduce(width, height), output);

    let input = Position::new(4, 4) - Position::new(0, 0);
    let output = Offset::new(-1, -1);
    assert_eq!(input.reduce(width, height), output);
}

#[test]
fn reduce_prefers_direct_on_equal_lengths() {
    // On a side of 4, an offset of 2 and its wrapped form -2 are equally long.
    assert_eq!(Offset::new(2, 0).reduce(4, 4), Offset::new(2, 0));
    assert_eq!(Offset::new(0, -2).reduce(4, 4), Offset::new(0, -2));
}

#[test]
fn reduce_is_shortest_and_a_fixed_point() {
    let (w, h) = (7, 5);
    for dx in -6..7 {
        for dy in -4..5 {
            let o = Offset::new(dx, dy);
            let r = o.reduce(w, h);
            let candidates = [o, o.inverted_dx(w), o.inverted_dy(h), o.inverted(w, h)];
            for c in candidates.iter() {
                assert!(r.len() <= c.len());
            }
            assert_eq!(r.reduce(w, h), r);
        }
    }
}

#[test]
fn normalized_is_in_range_and_idempotent() {
    for x in -20..20 {
        for y in -20..20 {
            let n = Position::new(x, y).normalized(5, 10);
            assert!(0 <= n.x && n.x < 5 && 0 <= n.y && n.y < 10);
            assert_eq!(n.normalized(5, 10), n);
        }
    }
}

#[test]
fn offset_len_signum_and_parts() {
    let o = Offset::new(-3, 4);
    assert_eq!(o.len(), 7);
    assert_eq!(o.signum(), Offset::new(-1, 1));
    assert_eq!(o.dx(), Offset::new(-3, 0));
    assert_eq!(o.dy(), Offset::new(0, 4));
}

#[test]
fn direction_offsets_round_trip() {
    assert_eq!(Offset::from(Direction::North), Offset::new(0, -1));
    assert_eq!(Offset::from(Direction::East), Offset::new(1, 0));
    assert_eq!(Offset::from(Direction::South), Offset::new(0, 1));
    assert_eq!(Offset::from(Direction::West), Offset::new(-1, 0));
    for d in Direction::all() {
        assert_eq!(Offset::from(d).into_direction(), Some(d));
    }
    assert_eq!(Offset::new(0, -5).into_direction(), Some(Direction::North));
    assert_eq!(Offset::new(3, 3).into_direction(), None);
    assert_eq!(Offset::new(0, 0).into_direction(), None);
}

#[test]
fn surrounding_lists_north_east_south_west() {
    let p = Position::new(2, 3);
    assert_eq!(
        p.surrounding(),
        vec![
            Position::new(2, 2),
            Position::new(3, 3),
            Position::new(2, 4),
            Position::new(1, 3)
        ]
    );
    assert_eq!(p + Direction::West, Position::new(1, 3));
}

#[test]
fn board_indexing_aliases_congruent_positions() {
    let board = Board::new(5, 10);
    assert_eq!(board.cells.len(), 50);
    let a = board.index(Position::new(-3, 12));
    let b = board.index(Position::new(2, 2));
    let c = board.index(Position::new(7, -8));
    assert_eq!(a, b);
    assert_eq!(b, c);
    assert_eq!(b.position, Position::new(2, 2));
    assert!(b.is_empty());
    assert!(!b.is_occupied());
    assert!(!b.has_structure());
    assert_eq!(b.halite, 0);
}
