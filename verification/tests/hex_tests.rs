use civng::hexpos::{Direction, OffsetPos, Pos, PosPath, PathWalker};

#[test]
fn origin_is_zero() {
    assert_eq!(Pos::origin(), Pos::new(0, 0, 0));
}

#[test]
fn vector_equals_neighbor_of_origin() {
    let pos1 = Pos::origin().neighbor(Direction::North);
    let pos2 = Pos::vector(Direction::North);
    assert_eq!(pos1, pos2);
    assert_eq!(pos1, Pos::new(0, 1, -1));
}

#[test]
fn neighbor_deltas() {
    let o = Pos::origin();
    assert_eq!(o.neighbor(Direction::North), Pos::new(0, 1, -1));
    assert_eq!(o.neighbor(Direction::NorthEast), Pos::new(1, 0, -1));
    assert_eq!(o.neighbor(Direction::SouthEast), Pos::new(1, -1, 0));
    assert_eq!(o.neighbor(Direction::South), Pos::new(0, -1, 1));
    assert_eq!(o.neighbor(Direction::SouthWest), Pos::new(-1, 0, 1));
    assert_eq!(o.neighbor(Direction::NorthWest), Pos::new(-1, 1, 0));
}

#[test]
fn neighbors_preserve_cube_invariant() {
    for d in Direction::all() {
        let p = Pos::new(3, -5, 2).neighbor(d);
        assert_eq!(p.x + p.y + p.z, 0);
    }
}

#[test]
fn translate_adds_componentwise() {
    let pos1 = Pos::origin().neighbor(Direction::South);
    let pos2 = Pos::origin().neighbor(Direction::SouthWest);
    let pos3 = Pos::origin().neighbor(Direction::South).neighbor(Direction::SouthWest);
    assert_eq!(pos1.translate(pos2), pos3);
}

#[test]
fn amplify_scales() {
    let mut pos1 = Pos::origin();
    for _ in 0..3 {
        pos1 = pos1.neighbor(Direction::South);
    }
    let pos2 = Pos::origin().neighbor(Direction::South).amplify(3);
    assert_eq!(pos1, pos2);
}

#[test]
fn neg_mirrors() {
    let pos1 = Pos::origin().neighbor(Direction::South).neighbor(Direction::SouthWest);
    let pos2 = Pos::origin().neighbor(Direction::North).neighbor(Direction::NorthEast);
    assert_eq!(pos1, pos2.neg());
}

#[test]
fn offset_round_trip() {
    for x in -4..5 {
        for y in -4..5 {
            let p = OffsetPos::new(x, y).to_pos();
            assert_eq!(p.x + p.y + p.z, 0);
            let o = p.to_offset_pos();
            assert_eq!((o.x, o.y), (x, y));
        }
    }
}

#[test]
fn axial_round_trip() {
    let p = Pos::new(2, -3, 1);
    let a = p.to_axialpos();
    assert_eq!(a.q, 2);
    assert_eq!(a.r, 1);
    // `to_pos` rebuilds the middle coordinate as `-q - r`, restoring the
    // cube invariant, so the conversion is an inverse on valid positions.
    assert_eq!(a.to_pos(), p);
    let b = a.to_pos();
    assert_eq!(b.x + b.y + b.z, 0);
}

#[test]
fn around_gives_six_neighbors() {
    let p = Pos::new(1, -2, 1);
    let around = p.around();
    assert_eq!(around.len(), 6);
    for (i, d) in Direction::all().iter().enumerate() {
        assert_eq!(around[i], p.neighbor(*d));
    }
}

#[test]
fn pos_fmt_renders_decimal() {
    assert_eq!(Pos::new(1, -2, 1).fmt(), "1,-2,1");
    assert_eq!(Pos::origin().fmt(), "0,0,0");
    assert_eq!(OffsetPos::new(10, -3).fmt(), "10,-3");
    assert_eq!(Pos::new(5, -12, 7).to_axialpos().fmt(), "5,7");
}

#[test]
fn path_tracks_stack() {
    let mut path = PosPath::new(Pos::origin());
    assert_eq!(path.from(), Pos::origin());
    assert_eq!(path.to(), Pos::origin());
    assert_eq!(path.steps(), 0);
    assert_eq!(path.before_last(), None);
    path.go(Direction::North);
    assert_eq!(path.steps(), 1);
    assert_eq!(path.to(), Pos::new(0, 1, -1));
    assert_eq!(path.before_last(), Some(Pos::origin()));
    path.go(Direction::NorthEast);
    assert_eq!(path.steps(), 2);
    assert_eq!(path.pop(), Some(Pos::new(1, 1, -2)));
    assert_eq!(path.pop(), Some(Pos::new(0, 1, -1)));
    // The origin is never popped.
    assert_eq!(path.pop(), None);
    assert_eq!(path.from(), Pos::origin());
}

#[test]
fn walker_depth_zero_yields_nothing() {
    let mut walker = PathWalker::new(Pos::origin(), 0);
    assert!(walker.next().is_none());
}

#[test]
fn walker_depth_one_yields_six_neighbors() {
    let mut walker = PathWalker::new(Pos::origin(), 1);
    let mut seen = Vec::new();
    while let Some(p) = walker.next() {
        assert_eq!(p.steps(), 1);
        seen.push(p.to());
    }
    assert_eq!(seen.len(), 6);
    for d in Direction::all() {
        assert!(seen.contains(&Pos::vector(d)));
    }
}

#[test]
fn walker_depth_two_yields_forty_two_distinct_paths() {
    // 6 + 6^2 paths of lengths one and two.
    let mut walker = PathWalker::new(Pos::origin(), 2);
    let mut stacks: Vec<Vec<Pos>> = Vec::new();
    while let Some(p) = walker.next() {
        assert!(p.steps() >= 1 && p.steps() <= 2);
        let cells: Vec<Pos> = p.stack().to_vec();
        assert!(!stacks.contains(&cells), "duplicate path yielded");
        // consecutive cells are hex neighbors
        for w in cells.windows(2) {
            let found = Direction::all().iter().any(|d| w[0].neighbor(*d) == w[1]);
            assert!(found);
        }
        stacks.push(cells);
    }
    assert_eq!(stacks.len(), 42);
}

#[test]
fn backoff_removes_exactly_descendants() {
    // Prune the first yielded node: its six children disappear from the
    // traversal, its siblings and their subtrees remain.
    let mut walker = PathWalker::new(Pos::origin(), 2);
    let first = walker.next().unwrap();
    assert_eq!(first.steps(), 1);
    walker.backoff();
    let mut rest = 0;
    let mut saw_descendant_of_first = false;
    while let Some(p) = walker.next() {
        if p.steps() == 2 && p.stack()[1] == first.to() {
            saw_descendant_of_first = true;
        }
        rest += 1;
    }
    assert_eq!(rest, 42 - 1 - 6);
    assert!(!saw_descendant_of_first);
}

#[test]
fn get_current_path_matches_walked_directions() {
    let mut walker = PathWalker::new(Pos::new(2, -2, 0), 2);
    let p1 = walker.next().unwrap();
    assert_eq!(walker.get_current_path().stack(), p1.stack());
    assert_eq!(p1.from(), Pos::new(2, -2, 0));
    assert_eq!(p1.to(), Pos::new(2, -2, 0).neighbor(Direction::North));
}
