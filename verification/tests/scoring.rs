use figure_fit::problem::{
    Edge, Figure, InvalidEdge, Point, Pose, PoseBonus, PoseValidationError,
    Problem, ProblemBonus, ProblemBonusType, ProblemId,
};
use geo::algorithm::contains::Contains;

/// The exact test on the polygon itself.
struct ExactHole(geo::Polygon<f64>);

impl ExactHole {
    fn new(hole: &[Point]) -> ExactHole {
        let ring: Vec<(f64, f64)> = hole.iter().map(|p| (p.0 as f64, p.1 as f64)).collect();
        ExactHole(geo::Polygon::new(geo::LineString::from(ring), vec![]))
    }
}

impl InvalidEdge for ExactHole {
    fn edge_invalid(&self, edge_from: Point, edge_to: Point) -> bool {
        self.is_edge_invalid(edge_from, edge_to)
    }

    fn is_edge_invalid(&self, edge_from: Point, edge_to: Point) -> bool {
        let line = geo::Line::new(
            (edge_from.0 as f64, edge_from.1 as f64),
            (edge_to.0 as f64, edge_to.1 as f64),
        );
        !(self.0.contains(&line) || self.0.exterior().contains(&line))
    }
}

fn problem_13() -> Problem {
    Problem {
        hole: vec![Point(20, 0), Point(40, 20), Point(20, 40), Point(0, 20)],
        figure: Figure {
            edges: vec![Edge(0, 1), Edge(0, 2), Edge(1, 3), Edge(2, 3)],
            vertices: vec![Point(15, 21), Point(34, 0), Point(0, 45), Point(19, 24)],
        },
        epsilon: 2494,
        bonuses: Some(vec![ProblemBonus { position: Point(20, 20), bonus: ProblemBonusType::Globalist, problem: ProblemId(46) }, ProblemBonus { position: Point(30, 30), bonus: ProblemBonusType::BreakALeg, problem: ProblemId(88) }]),
    }
}

fn pose_13_score_0() -> Pose {
    Pose {
        vertices: vec![Point(20, 0), Point(40, 20), Point(0, 20), Point(20, 40)],
        bonuses: None,
    }
}

fn problem_50() -> Problem {
    Problem {
        hole: vec![Point(21, 35), Point(0, 22), Point(26, 14), Point(0, 8), Point(15, 0), Point(45, 0), Point(52, 12), Point(52, 48), Point(51, 60), Point(49, 86), Point(38, 73), Point(17, 85), Point(31, 92), Point(24, 103), Point(2, 103), Point(0, 85), Point(0, 52), Point(8, 41)],
        figure: Figure {
            edges: vec![Edge(0, 3), Edge(0, 4), Edge(1, 2), Edge(1, 5), Edge(2, 3), Edge(2, 5), Edge(3, 6), Edge(3, 7), Edge(4, 6), Edge(5, 8), Edge(6, 7), Edge(7, 8)],
            vertices: vec![Point(0, 75), Point(7, 0), Point(10, 26), Point(20, 55), Point(20, 95), Point(29, 13), Point(40, 75), Point(46, 52), Point(48, 28)],
        },
        epsilon: 17065,
        bonuses: Some(vec![ProblemBonus { position: Point(0, 8), bonus: ProblemBonusType::Globalist, problem: ProblemId(9) }, ProblemBonus { position: Point(33, 48), bonus: ProblemBonusType::Globalist, problem: ProblemId(70) }, ProblemBonus { position: Point(42, 33), bonus: ProblemBonusType::Wallhack, problem: ProblemId(91) }]),
    }
}

fn pose_50_broken() -> Pose {
    Pose {
        vertices: vec![Point(18, 81), Point(40, 46), Point(28, 23), Point(22, 53), Point(38, 61), Point(51, 23), Point(42, 33), Point(48, 56), Point(32, 38)],
        bonuses: None,
    }
}

fn problem_50_triangle() -> Problem {
    Problem {
        hole: vec![Point(21, 35), Point(0, 22), Point(26, 14), Point(0, 8), Point(15, 0), Point(45, 0), Point(52, 12), Point(52, 48), Point(51, 60), Point(49, 86), Point(38, 73), Point(17, 85), Point(31, 92), Point(24, 103), Point(2, 103), Point(0, 85), Point(0, 52), Point(8, 41)],
        figure: Figure {
            edges: vec![Edge(0, 1), Edge(0, 2), Edge(1, 2)],
            vertices: vec![Point(0, 75), Point(7, 0), Point(10, 26)],
        },
        epsilon: 17065,
        bonuses: Some(vec![ProblemBonus { position: Point(0, 8), bonus: ProblemBonusType::Globalist, problem: ProblemId(9) }, ProblemBonus { position: Point(33, 48), bonus: ProblemBonusType::Globalist, problem: ProblemId(70) }, ProblemBonus { position: Point(42, 33), bonus: ProblemBonusType::Wallhack, problem: ProblemId(91) }]),
    }
}

fn problem_47() -> Problem {
    Problem {
        hole: vec![Point(6, 14), Point(36, 19), Point(40, 17), Point(69, 0), Point(79, 21), Point(41, 36), Point(36, 33), Point(16, 44), Point(7, 34), Point(0, 28)],
        figure: Figure {
            edges: vec![Edge(0, 3), Edge(3, 7), Edge(7, 4), Edge(4, 0), Edge(7, 10), Edge(10, 9), Edge(9, 8), Edge(8, 7), Edge(4, 5), Edge(5, 8), Edge(8, 6), Edge(6, 1), Edge(1, 5), Edge(5, 2), Edge(2, 4)],
            vertices: vec![Point(0, 11), Point(1, 85), Point(8, 56), Point(11, 0), Point(14, 45), Point(14, 59), Point(14, 88), Point(30, 37), Point(30, 56), Point(56, 85), Point(67, 64)],
        },
        epsilon: 41323,
        bonuses: Some(vec![ProblemBonus { position: Point(59, 26), bonus: ProblemBonusType::BreakALeg, problem: ProblemId(43) }, ProblemBonus { position: Point(54, 9), bonus: ProblemBonusType::Superflex, problem: ProblemId(58) }, ProblemBonus { position: Point(21, 18), bonus: ProblemBonusType::Superflex, problem: ProblemId(27) }]),
    }
}

fn pose_47() -> Pose {
    Pose {
        vertices: vec![Point(22, 27), Point(33, 24), Point(53, 15), Point(12, 15), Point(59, 26), Point(59, 12), Point(21, 18), Point(54, 9), Point(56, 28), Point(19, 17), Point(21, 41)],
        bonuses: Some(vec![PoseBonus::Wallhack { problem: ProblemId(55) }]),
    }
}

fn problem_92() -> Problem {
    Problem {
        hole: vec![Point(5, 29), Point(4, 18), Point(0, 10), Point(8, 5), Point(16, 13), Point(21, 0), Point(33, 4), Point(33, 44), Point(47, 16), Point(59, 4), Point(68, 3), Point(78, 3), Point(115, 8), Point(72, 18), Point(83, 29), Point(92, 41), Point(109, 42), Point(101, 52), Point(97, 65), Point(115, 59), Point(115, 69), Point(108, 83), Point(110, 100), Point(102, 115), Point(100, 93), Point(99, 81), Point(85, 90), Point(92, 102), Point(74, 98), Point(70, 115), Point(61, 91), Point(61, 80), Point(77, 85), Point(65, 68), Point(73, 58), Point(91, 50), Point(71, 44), Point(59, 55), Point(55, 63), Point(51, 72), Point(47, 83), Point(41, 95), Point(25, 100), Point(44, 108), Point(26, 111), Point(15, 113), Point(5, 115), Point(2, 106), Point(14, 103), Point(12, 92), Point(24, 87), Point(36, 73), Point(56, 34), Point(24, 66), Point(22, 54), Point(0, 82), Point(4, 59), Point(2, 49), Point(1, 40), Point(19, 37)],
        figure: Figure {
            edges: vec![Edge(2, 5), Edge(5, 4), Edge(4, 1), Edge(1, 0), Edge(0, 8), Edge(8, 3), Edge(3, 7), Edge(7, 11), Edge(11, 13), Edge(13, 12), Edge(12, 18), Edge(18, 19), Edge(19, 14), Edge(14, 15), Edge(15, 17), Edge(17, 16), Edge(16, 10), Edge(10, 6), Edge(6, 2), Edge(8, 12), Edge(7, 9), Edge(9, 3), Edge(8, 9), Edge(9, 12), Edge(13, 9), Edge(9, 11), Edge(4, 8), Edge(12, 14), Edge(5, 10), Edge(10, 15)],
            vertices: vec![Point(30, 40), Point(30, 50), Point(40, 105), Point(50, 25), Point(50, 45), Point(50, 75), Point(50, 105), Point(55, 15), Point(55, 35), Point(60, 25), Point(60, 80), Point(65, 15), Point(65, 35), Point(70, 25), Point(70, 45), Point(70, 75), Point(70, 105), Point(80, 105), Point(90, 40), Point(90, 50)],
        },
        epsilon: 160000,
        bonuses: Some(vec![ProblemBonus { position: Point(96, 12), bonus: ProblemBonusType::BreakALeg, problem: ProblemId(99) }, ProblemBonus { position: Point(30, 24), bonus: ProblemBonusType::Superflex, problem: ProblemId(30) }, ProblemBonus { position: Point(84, 72), bonus: ProblemBonusType::Globalist, problem: ProblemId(7) }]),
    }
}

fn pose_92() -> Pose {
    Pose {
        vertices: vec![Point(81, 43), Point(74, 35), Point(15, 31), Point(50, 26), Point(52, 33), Point(35, 55), Point(17, 22), Point(61, 27), Point(61, 28), Point(53, 35), Point(25, 49), Point(52, 24), Point(51, 24), Point(43, 32), Point(50, 13), Point(31, 39), Point(8, 70), Point(10, 60), Point(77, 23), Point(67, 22)],
        bonuses: Some(vec![PoseBonus::Wallhack { problem: ProblemId(119) }]),
    }
}

fn problem_2_outer() -> Problem {
    Problem {
        hole: vec![Point(20, 0), Point(40, 20), Point(20, 40), Point(0, 20)],
        figure: Figure {
            edges: vec![Edge(0, 1), Edge(0, 2), Edge(1, 3), Edge(2, 3)],
            vertices: vec![Point(15, 21), Point(34, 0), Point(0, 45), Point(19, 24)],
        },
        epsilon: 2494,
        bonuses: Some(vec![ProblemBonus { position: Point(20, 20), bonus: ProblemBonusType::Globalist, problem: ProblemId(46) }, ProblemBonus { position: Point(30, 30), bonus: ProblemBonusType::BreakALeg, problem: ProblemId(88) }, ProblemBonus { position: Point(30, 12), bonus: ProblemBonusType::Globalist, problem: ProblemId(20) }]),
    }
}

fn pose_2_outer() -> Pose {
    Pose {
        vertices: vec![Point(15, 21), Point(34, 0), Point(0, 45), Point(19, 24)],
        bonuses: Some(vec![PoseBonus::Wallhack { problem: ProblemId(999) }]),
    }
}

fn problem_1_outer() -> Problem {
    Problem {
        hole: vec![Point(20, 0), Point(40, 20), Point(20, 40), Point(0, 20)],
        figure: Figure {
            edges: vec![Edge(0, 1), Edge(0, 2), Edge(1, 3), Edge(2, 3)],
            vertices: vec![Point(15, 21), Point(34, 0), Point(15, 15), Point(19, 24)],
        },
        epsilon: 2494,
        bonuses: Some(vec![ProblemBonus { position: Point(20, 20), bonus: ProblemBonusType::Globalist, problem: ProblemId(46) }, ProblemBonus { position: Point(30, 30), bonus: ProblemBonusType::BreakALeg, problem: ProblemId(88) }, ProblemBonus { position: Point(30, 12), bonus: ProblemBonusType::Globalist, problem: ProblemId(20) }]),
    }
}

fn pose_1_outer_no_bonus() -> Pose {
    Pose {
        vertices: vec![Point(15, 21), Point(34, 0), Point(15, 15), Point(19, 24)],
        bonuses: None,
    }
}

fn pose_1_outer_wallhack() -> Pose {
    Pose {
        vertices: vec![Point(15, 21), Point(34, 0), Point(15, 15), Point(19, 24)],
        bonuses: Some(vec![PoseBonus::Wallhack { problem: ProblemId(999) }]),
    }
}

fn problem_2_outer_same() -> Problem {
    Problem {
        hole: vec![Point(20, 0), Point(40, 20), Point(20, 40), Point(0, 20)],
        figure: Figure {
            edges: vec![Edge(0, 1), Edge(0, 2), Edge(1, 3), Edge(2, 3)],
            vertices: vec![Point(15, 21), Point(34, 0), Point(34, 0), Point(19, 24)],
        },
        epsilon: 2494,
        bonuses: Some(vec![ProblemBonus { position: Point(20, 20), bonus: ProblemBonusType::Globalist, problem: ProblemId(46) }, ProblemBonus { position: Point(30, 30), bonus: ProblemBonusType::BreakALeg, problem: ProblemId(88) }, ProblemBonus { position: Point(30, 12), bonus: ProblemBonusType::Globalist, problem: ProblemId(20) }]),
    }
}

fn pose_2_outer_same_nobonus() -> Pose {
    Pose {
        vertices: vec![Point(15, 21), Point(34, 0), Point(34, 0), Point(19, 24)],
        bonuses: None,
    }
}

fn pose_2_outer_same_wallhack() -> Pose {
    Pose {
        vertices: vec![Point(15, 21), Point(34, 0), Point(34, 0), Point(19, 24)],
        bonuses: Some(vec![PoseBonus::Wallhack { problem: ProblemId(999) }]),
    }
}

#[test]
fn score_vertices_check_count() {
    let problem = problem_13();

    assert_eq!(
        problem.score_vertices_check_count(&vec![], None),
        Err(PoseValidationError::VerticeCountMismatch)
    );
    assert_eq!(
        problem.score_vertices_check_count(&vec![Point(15, 21), Point(34, 0), Point(0, 45)], None),
        Err(PoseValidationError::VerticeCountMismatch)
    );
    assert_eq!(
        problem.score_vertices_check_count(
            &vec![Point(15, 21), Point(34, 0), Point(0, 45), Point(19, 24)],
            None
        ),
        Ok(())
    );
    assert_eq!(
        problem.score_vertices_check_count(
            &vec![Point(15, 21), Point(34, 0), Point(0, 45), Point(0, 45), Point(0, 45)],
            None
        ),
        Err(PoseValidationError::VerticeCountMismatch)
    );
}

#[test]
fn score_vertices_check_stretching() {
    let problem = problem_13();
    assert!(problem
        .score_vertices_check_stretching(
            &vec![Point(15, 21), Point(34, 0), Point(0, 45), Point(19, 24)],
            None
        )
        .is_ok());
    assert!(problem
        .score_vertices_check_stretching(
            &vec![Point(15, 0), Point(34, 0), Point(0, 45), Point(19, 24)],
            None
        )
        .is_err());
}

#[test]
fn score_vertices_check_hole() {
    let problem = problem_13();
    let hole = ExactHole::new(&problem.hole);
    assert!(problem
        .score_vertices_check_hole(
            &hole,
            &vec![Point(15, 21), Point(34, 0), Point(0, 45), Point(19, 24)],
            None
        )
        .is_err());
    assert!(problem
        .score_vertices_check_hole(
            &hole,
            &vec![Point(20, 0), Point(0, 20), Point(20, 40), Point(19, 24)],
            None
        )
        .is_ok());
}

#[test]
fn score_vertices() {
    let problem = problem_13();
    let pose = pose_13_score_0();
    let hole = ExactHole::new(&problem.hole);

    assert!(problem.score_vertices(&hole, &problem.export_pose().vertices, None).is_err());
    assert_eq!(problem.score_vertices(&hole, &pose.vertices, None), Ok(0));
}

#[test]
fn score_vertices_check_stretching_broken_pose_task_50() {
    let problem = problem_50();
    let pose = pose_50_broken();
    let hole = ExactHole::new(&problem.hole);

    assert!(matches!(
        problem.score_vertices_check_stretching(&pose.vertices, None),
        Err(PoseValidationError::BrokenEdgesFound { broken_edges_count: 1, .. }),
    ));
    assert!(matches!(
        problem.score_vertices(&hole, &pose.vertices, None),
        Err(PoseValidationError::BrokenEdgesFound { broken_edges_count: 1, .. }),
    ));
}

#[test]
fn score_vertices_check_hole_with_wallhack() {
    let problem = problem_50_triangle();
    let hole = ExactHole::new(&problem.hole);
    let wallhack = Some(PoseBonus::Wallhack { problem: ProblemId(0) });

    let pose_vertices = vec![Point(32, 47), Point(34, 47), Point(33, 48)];
    assert_eq!(problem.score_vertices_check_hole(&hole, &pose_vertices, None), Ok(()));
    assert_eq!(problem.score_vertices_check_hole(&hole, &pose_vertices, wallhack), Ok(()));

    let pose_vertices = vec![Point(32, 47), Point(0, 48), Point(33, 48)];
    assert!(problem.score_vertices_check_hole(&hole, &pose_vertices, None).is_err());
    assert_eq!(problem.score_vertices_check_hole(&hole, &pose_vertices, wallhack), Ok(()));

    let pose_vertices = vec![Point(0, 48), Point(34, 47), Point(1000, 48)];
    assert!(problem.score_vertices_check_hole(&hole, &pose_vertices, None).is_err());
    assert!(problem.score_vertices_check_hole(&hole, &pose_vertices, wallhack).is_err());
}

#[test]
fn score_vertice_broken_wallhack_tasks() {
    let problem_47 = problem_47();
    let pose_47 = pose_47();
    assert!(problem_47.score_pose(&ExactHole::new(&problem_47.hole), &pose_47).is_err());

    let problem_92 = problem_92();
    let pose_92 = pose_92();
    assert!(problem_92.score_pose(&ExactHole::new(&problem_92.hole), &pose_92).is_err());
}

#[test]
fn score_vertice_wallhack_synthetic() {
    let problem_2_outer = problem_2_outer();
    let pose_2_outer = pose_2_outer();
    assert!(problem_2_outer
        .score_pose(&ExactHole::new(&problem_2_outer.hole), &pose_2_outer)
        .is_err());

    let problem_1_outer = problem_1_outer();
    let hole_1_outer = ExactHole::new(&problem_1_outer.hole);
    assert!(problem_1_outer.score_pose(&hole_1_outer, &pose_1_outer_no_bonus()).is_err());
    assert!(problem_1_outer.score_pose(&hole_1_outer, &pose_1_outer_wallhack()).is_ok());

    let problem_2_outer_same = problem_2_outer_same();
    let hole_2_outer_same = ExactHole::new(&problem_2_outer_same.hole);
    assert!(problem_2_outer_same
        .score_pose(&hole_2_outer_same, &pose_2_outer_same_nobonus())
        .is_err());
    assert!(problem_2_outer_same
        .score_pose(&hole_2_outer_same, &pose_2_outer_same_wallhack())
        .is_err());
}
