use caliper::model::urdf::{UrdfJoint, UrdfJointType, UrdfLink, UrdfRobot};
use caliper::model::Model;
use caliper::motion::limits::MotionLimits;
use caliper::motion::MotionError;
use caliper::planning::geometry::{dist, lerp, steer};
use caliper::planning::planner::{Endpoint, PlanError, Planner, PlannerConfig};
use caliper::planning::prm::{build_roadmap, dijkstra, PrmParams};
use caliper::planning::reach::{sweep, ReachStatus};
use caliper::planning::rng::Rng;
use caliper::planning::smooth::{path_length, shortcut_smooth};
use caliper::planning::star::{radius_gamma, rrt_star, unit_ball_volume, StarParams};
use caliper::scalar::{Scalar, Vec3};

fn s(x: f64) -> Scalar {
    Scalar { bits: x.to_bits() }
}

fn v(xs: &[f64]) -> Vec<Scalar> {
    xs.iter().map(|x| s(*x)).collect()
}

fn f(x: Scalar) -> f64 {
    f64::from_bits(x.bits)
}

fn rows(path: &[&[f64]]) -> Vec<Vec<Scalar>> {
    path.iter().map(|q| v(q)).collect()
}

fn cbrt(x: Scalar) -> Scalar {
    s(f(x).cbrt())
}

fn joint(name: &str, kind: UrdfJointType, parent: &str, child: &str) -> UrdfJoint {
    UrdfJoint {
        name: name.to_string(),
        joint_type: kind,
        parent: parent.to_string(),
        child: child.to_string(),
        axis: Vec3::new(s(0.0), s(1.0), s(0.0)),
        lower: s(-3.2),
        upper: s(3.2),
        velocity: s(2.0),
        effort: s(10.0),
        mimic: None,
    }
}

/// Three links of 0.3 that bend in a plane.
fn arm() -> Model {
    let link = |name: &str| UrdfLink {
        name: name.to_string(),
        mass: s(0.0),
        collision: vec![],
        visual: vec![],
    };
    Model::from_urdf(&UrdfRobot {
        name: "arm".to_string(),
        links: vec![link("base"), link("l1"), link("l2"), link("l3")],
        joints: vec![
            joint("j1", UrdfJointType::Revolute, "base", "l1"),
            joint("j2", UrdfJointType::Revolute, "l1", "l2"),
            joint("j3", UrdfJointType::Revolute, "l2", "l3"),
        ],
        materials: vec![],
    })
    .unwrap()
}

/// Points along the arm: which link, and where.
fn points(q: &[Scalar]) -> Vec<(usize, f64, f64)> {
    let mut out = vec![];
    let (mut x, mut z, mut a) = (0.0, 0.0, 0.0);
    for (i, qi) in q.iter().enumerate() {
        a += f(*qi);
        for k in 0..=10 {
            let t = 0.03 * k as f64;
            out.push((i, x + t * a.sin(), z + t * a.cos()));
        }
        x += 0.3 * a.sin();
        z += 0.3 * a.cos();
    }
    out
}

/// The first and the last link keep apart.
fn apart(q: &[Scalar]) -> bool {
    let p = points(q);
    !p.iter().any(|a| {
        p.iter().any(|b| {
            a.0 == 0 && b.0 == 2 && (a.1 - b.1).powi(2) + (a.2 - b.2).powi(2) < 0.02 * 0.02
        })
    })
}

/// A ground and a box.
fn clear(q: &[Scalar]) -> bool {
    apart(q)
        && points(q)
            .iter()
            .all(|p| p.2 > -0.1 && !((p.1 - 0.6).abs() < 0.15 && (p.2 - 0.3).abs() < 0.15))
}

fn end(q: &[Scalar], free: bool) -> Endpoint {
    if q.len() == 3 && !free {
        Endpoint::Blocked("l1/l3".to_string())
    } else {
        Endpoint::Free
    }
}

fn planner() -> Planner {
    Planner::new(&arm(), PlannerConfig::default())
}

fn plan(p: &Planner, start: &[f64], goal: &[f64]) -> Result<Vec<Vec<Scalar>>, PlanError> {
    let (a, b) = (v(start), v(goal));
    p.plan(&a, &b, end(&a, apart(&a)), end(&b, apart(&b)), &apart)
}

const PI: f64 = std::f64::consts::PI;

#[test]
fn rng_deterministic_same_seed() {
    let mut a = Rng::new(0xCA11);
    let mut b = Rng::new(0xCA11);
    for _ in 0..1000 {
        assert_eq!(a.unit().bits, b.unit().bits);
    }
}

#[test]
fn different_seed_diverges() {
    let mut a = Rng::new(1);
    let mut b = Rng::new(2);
    let da: Vec<u64> = (0..16).map(|_| a.unit().bits).collect();
    let db: Vec<u64> = (0..16).map(|_| b.unit().bits).collect();
    assert_ne!(da, db);
}

#[test]
fn unit_in_range() {
    let mut r = Rng::new(7);
    for _ in 0..10_000 {
        let u = f(r.unit());
        assert!((0.0..1.0).contains(&u));
    }
}

#[test]
fn unit_is_splitmix() {
    let mut state: u64 = 42;
    let mut r = Rng::new(42);
    for _ in 0..100 {
        state = state.wrapping_add(0x9E37_79B9_7F4A_7C15);
        let mut z = state;
        z = (z ^ (z >> 30)).wrapping_mul(0xBF58_476D_1CE4_E5B9);
        z = (z ^ (z >> 27)).wrapping_mul(0x94D0_49BB_1331_11EB);
        z ^= z >> 31;
        assert_eq!(f(r.unit()), (z >> 11) as f64 / (1u64 << 53) as f64);
    }
    let u = f(Rng::new(9).unit());
    assert_eq!(f(Rng::new(9).range(s(-2.0), s(3.0))), -2.0 + u * (3.0 - -2.0));
}

#[test]
fn steering_stops_at_the_step() {
    let (a, b) = (v(&[0.0, 0.0]), v(&[3.0, 4.0]));
    assert_eq!(f(dist(&a, &b)), 5.0);
    assert_eq!(lerp(&a, &b, s(0.5)), v(&[1.5, 2.0]));
    assert_eq!(steer(&a, &b, s(10.0)), b);
    let near = steer(&a, &b, s(1.0));
    assert_eq!(near, v(&[3.0 * (1.0 / 5.0), 4.0 * (1.0 / 5.0)]));
}

#[test]
fn length_and_endpoints() {
    let path = rows(&[&[0.0, 0.0], &[0.0, 1.0], &[1.0, 1.0], &[1.0, 0.0], &[2.0, 0.0]]);
    let before = f(path_length(&path));
    assert_eq!(before, 4.0);
    let out = shortcut_smooth(path.clone(), 200, 0xCA11, &|_: &[Scalar], _: &[Scalar]| true);
    assert_eq!(out.first().unwrap(), &path[0]);
    assert_eq!(out.last().unwrap(), path.last().unwrap());
    assert!(f(path_length(&out)) <= before + 1e-12);
    assert!(out.len() == 2);
}

#[test]
fn deterministic() {
    let path = rows(&[&[0.0, 0.0], &[0.0, 1.0], &[1.0, 1.0], &[1.0, 0.0]]);
    let a = shortcut_smooth(path.clone(), 50, 7, &|_: &[Scalar], _: &[Scalar]| true);
    let b = shortcut_smooth(path.clone(), 50, 7, &|_: &[Scalar], _: &[Scalar]| true);
    assert_eq!(a, b);
}

#[test]
fn respects_invalid_edges() {
    let path = rows(&[&[0.0], &[1.0], &[2.0], &[3.0]]);
    let out = shortcut_smooth(path.clone(), 100, 1, &|_: &[Scalar], _: &[Scalar]| false);
    assert_eq!(out, path);
}

fn links(adj: &[&[(usize, f64)]]) -> Vec<Vec<(usize, Scalar)>> {
    adj.iter().map(|row| row.iter().map(|(i, w)| (*i, s(*w))).collect()).collect()
}

#[test]
fn dijkstra_shortest_on_hand_graph() {
    let adj = links(&[
        &[(1, 1.0), (2, 1.0)],
        &[(0, 1.0), (3, 1.0)],
        &[(0, 1.0), (3, 5.0)],
        &[(1, 1.0), (2, 5.0)],
    ]);
    let prev = dijkstra(&adj, 0, 3).unwrap();
    let mut chain = vec![3usize];
    let mut cur = 3;
    while cur != 0 {
        cur = prev[cur];
        chain.push(cur);
    }
    chain.reverse();
    assert_eq!(chain, vec![0, 1, 3]);
}

#[test]
fn dijkstra_disconnected_returns_none() {
    let adj = links(&[&[(1, 1.0)], &[(0, 1.0)], &[]]);
    assert!(dijkstra(&adj, 0, 2).is_none());
}

#[test]
fn free_space_roadmap_connects() {
    let bounds = vec![(s(-1.0), s(1.0)), (s(-1.0), s(1.0))];
    let params = PrmParams { seed: 0xCA11, samples: 200, k: 8 };
    let any = |_: &[Scalar], _: &[Scalar]| true;
    let rm = build_roadmap(&bounds, &params, &|_: &[Scalar]| true, &any);
    assert_eq!(rm.len(), 200);
    let (start, goal) = (v(&[-0.9, -0.9]), v(&[0.9, 0.9]));
    let path = rm.query(&start, &goal, 8, &any).unwrap();
    assert_eq!(path.first().unwrap(), &start);
    assert_eq!(path.last().unwrap(), &goal);
    assert!(f(path_length(&path)) >= f(dist(&start, &goal)) - 1e-9);
}

#[test]
fn prm_deterministic_same_seed() {
    let bounds = vec![(s(-1.0), s(1.0)), (s(-1.0), s(1.0))];
    let any = |_: &[Scalar], _: &[Scalar]| true;
    let (start, goal) = (v(&[-0.5, -0.5]), v(&[0.7, 0.6]));
    let ask = || {
        let params = PrmParams { seed: 42, samples: 120, k: 6 };
        build_roadmap(&bounds, &params, &|_: &[Scalar]| true, &any)
            .query(&start, &goal, 6, &any)
            .unwrap()
    };
    assert_eq!(ask(), ask());
}

#[test]
fn roadmap_keeps_to_free_space() {
    let bounds = vec![(s(-1.0), s(1.0)), (s(-1.0), s(1.0))];
    let right = |q: &[Scalar]| f(q[0]) > 0.0;
    let edge = |a: &[Scalar], b: &[Scalar]| f(a[0]) > 0.0 && f(b[0]) > 0.0;
    let params = PrmParams { seed: 3, samples: 40, k: 5 };
    let rm = build_roadmap(&bounds, &params, &right, &edge);
    assert_eq!(rm.len(), 40);
    let path = rm.query(&v(&[0.1, -0.9]), &v(&[0.9, 0.9]), 5, &edge).unwrap();
    assert!(path.iter().all(|q| f(q[0]) > 0.0));
    assert!(rm.query(&v(&[-0.5, 0.0]), &v(&[0.9, 0.9]), 5, &edge).is_none());
}

#[test]
fn connects_start_to_goal_collision_free() {
    let p = planner();
    assert_eq!(p.ndof(), 3);
    assert_eq!(p.config().max_iters, 10_000);
    let (start, goal) = ([0.0, 0.0, 0.0], [0.4, -0.4, 0.4]);
    let path = plan(&p, &start, &goal).unwrap();
    assert!(path.len() >= 2);
    assert_eq!(path[0], v(&start));
    assert_eq!(path.last().unwrap(), &v(&goal));
    assert!(p.verify_path(&path, &apart));
}

#[test]
fn lib_deterministic_same_seed() {
    let a = plan(&planner(), &[0.0, 0.0, 0.0], &[0.4, -0.4, 0.4]).unwrap();
    let b = plan(&planner(), &[0.0, 0.0, 0.0], &[0.4, -0.4, 0.4]).unwrap();
    assert_eq!(a, b);
}

#[test]
fn plans_with_world_scene_collision_free() {
    let (start, goal) = (v(&[0.0, 0.0, 0.0]), v(&[0.4, -0.4, 0.4]));
    assert!(clear(&start));
    assert!(clear(&goal));
    let p = planner();
    let path = p.plan(&start, &goal, Endpoint::Free, Endpoint::Free, &clear).unwrap();
    assert!(p.verify_path(&path, &clear));
}

#[test]
fn start_in_collision_errors() {
    let folded = [0.0, PI, PI];
    let err = plan(&planner(), &folded, &[0.0, 0.0, 0.0]).unwrap_err();
    assert!(matches!(err, PlanError::StartInCollision(_)), "{err:?}");
}

#[test]
fn goal_in_collision_errors() {
    let folded = [0.0, PI, PI];
    let err = plan(&planner(), &[0.0, 0.0, 0.0], &folded).unwrap_err();
    assert!(matches!(err, PlanError::GoalInCollision(_)), "{err:?}");
}

fn limits() -> MotionLimits {
    MotionLimits { vmax: v(&[1.0; 3]), amax: v(&[3.0; 3]), jmax: v(&[20.0; 3]) }
}

#[test]
fn plan_trajectory_endpoints_and_duration() {
    let p = planner();
    let (start, goal) = ([0.0, 0.0, 0.0], [0.4, -0.4, 0.4]);
    let ends = (Endpoint::Free, Endpoint::Free);
    let traj = p
        .plan_trajectory(&v(&start), &v(&goal), ends, &apart, &limits(), s(1e-3), &cbrt)
        .unwrap();
    assert!(f(traj.duration()) > 0.0);
    let s0 = traj.q_at(s(0.0));
    let s1 = traj.q_at(traj.duration());
    for i in 0..3 {
        assert!((f(s0[i]) - start[i]).abs() < 1e-6);
        assert!((f(s1[i]) - goal[i]).abs() < 1e-3);
    }
}

#[test]
fn dim_and_finite_guards() {
    let p = planner();
    assert!(matches!(plan(&p, &[0.0, 0.0], &[0.0, 0.0, 0.0]), Err(PlanError::Dim { .. })));
    assert!(matches!(
        plan(&p, &[0.0, f64::NAN, 0.0], &[0.0, 0.0, 0.0]),
        Err(PlanError::NonFinite(_))
    ));
}

#[test]
fn planner_errors_name_their_cause() {
    let p = planner();
    let (a, b) = (v(&[0.0, 0.0, 0.0]), v(&[0.4, -0.4, 0.4]));
    let failed = Endpoint::Failed("query".to_string());
    assert!(matches!(p.plan(&a, &b, failed, Endpoint::Free, &apart), Err(PlanError::Collision(_))));
    let ik = p.plan_to_pose(&a, Err(s(0.5)), Endpoint::Free, Endpoint::Free, &apart);
    assert!(matches!(ik, Err(PlanError::IkUnreachable(_))));
    let found = p.plan_to_pose(&a, Ok(b.clone()), Endpoint::Free, Endpoint::Free, &apart).unwrap();
    assert_eq!(found.last().unwrap(), &b);
    let ends = (Endpoint::Free, Endpoint::Free);
    let two = MotionLimits { vmax: v(&[1.0; 2]), amax: v(&[3.0; 2]), jmax: v(&[20.0; 2]) };
    let bad = p.plan_trajectory(&a, &b, ends, &apart, &two, s(1e-3), &cbrt);
    assert!(matches!(bad, Err(PlanError::Retime(MotionError::DimMismatch))), "{bad:?}");
    let cfg = PlannerConfig { max_iters: 20, ..PlannerConfig::default() };
    let few = Planner::new(&arm(), cfg);
    let walled = few.plan(&a, &b, Endpoint::Free, Endpoint::Free, &|_: &[Scalar]| false);
    assert!(matches!(walled, Err(PlanError::Unreachable(20))), "{walled:?}");
}

#[test]
fn smoothed_plan_goes_round_an_obstacle() {
    let p = planner();
    let (a, b) = (v(&[-1.5, 0.0, 0.0]), v(&[1.5, 0.0, 0.0]));
    let hole = |q: &[Scalar]| !(f(q[0]).abs() < 0.3 && f(q[1]).abs() < 0.5);
    let path = p.plan(&a, &b, Endpoint::Free, Endpoint::Free, &hole).unwrap();
    assert!(p.verify_path(&path, &hole));
    assert!(path.len() >= 3);
    assert!(f(path_length(&path)) > 3.0);
    assert!(!p.verify_path(&vec![a, b], &hole));
}

#[test]
fn sweep_counts_what_is_reached() {
    let list = vec![ReachStatus::Reachable, ReachStatus::Blocked, ReachStatus::Reachable];
    assert_eq!(sweep(&list), (2, 3));
    assert_eq!(sweep(&vec![]), (0, 0));
}

fn ln(x: Scalar) -> Scalar {
    s(f(x).ln())
}

fn powf(x: Scalar, y: Scalar) -> Scalar {
    s(f(x).powf(f(y)))
}

fn square() -> Vec<(Scalar, Scalar)> {
    vec![(s(-1.0), s(1.0)), (s(-1.0), s(1.0))]
}

#[test]
fn unit_ball_volumes() {
    assert!((f(unit_ball_volume(1)) - 2.0).abs() < 1e-12);
    assert!((f(unit_ball_volume(2)) - PI).abs() < 1e-12);
    assert!((f(unit_ball_volume(3)) - 4.0 * PI / 3.0).abs() < 1e-12);
}

#[test]
fn neighbourhood_constant_is_the_formula() {
    let e = 1.0 / 2.0_f64;
    let want = 2.0 * (1.0_f64 + e).powf(e) * (4.0 / PI).powf(e) * 1.1;
    assert!((f(radius_gamma(&square(), s(0.2), &powf)) - want).abs() < 1e-12);
    let flat = vec![(s(1.0), s(-1.0))];
    assert_eq!(f(radius_gamma(&flat, s(0.2), &powf)), 0.4);
}

#[test]
fn free_space_approaches_optimal() {
    let (start, goal) = (v(&[-0.9, -0.9]), v(&[0.9, 0.9]));
    let p = StarParams { seed: 0xCA11, iters: 4000, step: s(0.2), goal_bias: s(0.1) };
    let any = |_: &[Scalar], _: &[Scalar]| true;
    let path = rrt_star(&start, &goal, &square(), &p, &any, &ln, &powf).unwrap();
    assert_eq!(path.first().unwrap(), &start);
    assert_eq!(path.last().unwrap(), &goal);
    let len = f(path_length(&path));
    let straight = f(dist(&start, &goal));
    assert!(len >= straight - 1e-9);
    assert!(len <= straight * 1.10, "{len} vs {straight}");
}

#[test]
fn rrtstar_deterministic_same_seed() {
    let (start, goal) = (v(&[-0.9, -0.9]), v(&[0.9, 0.9]));
    let any = |_: &[Scalar], _: &[Scalar]| true;
    let run = || {
        let p = StarParams { seed: 7, iters: 800, step: s(0.2), goal_bias: s(0.1) };
        rrt_star(&start, &goal, &square(), &p, &any, &ln, &powf).unwrap()
    };
    assert_eq!(run(), run());
}

#[test]
fn star_goes_round_a_wall() {
    let (start, goal) = (v(&[-0.5, 0.0]), v(&[0.5, 0.0]));
    let p = StarParams { seed: 5, iters: 600, step: s(0.2), goal_bias: s(0.1) };
    let clear = |a: &[Scalar], b: &[Scalar]| {
        (0..=50).all(|k| {
            let t = k as f64 / 50.0;
            let at = |i: usize| f(a[i]) + t * (f(b[i]) - f(a[i]));
            !(at(0).abs() < 0.1 && at(1).abs() < 0.5)
        })
    };
    let path = rrt_star(&start, &goal, &square(), &p, &clear, &ln, &powf).unwrap();
    assert!(path.windows(2).all(|w| clear(&w[0], &w[1])));
    assert!(f(path_length(&path)) > 1.2);
    let walled = |_: &[Scalar], _: &[Scalar]| false;
    assert!(rrt_star(&start, &goal, &square(), &p, &walled, &ln, &powf).is_none());
}

#[test]
fn dijkstra_agrees_with_trying_every_walk() {
    let mut rng = Rng::new(11);
    for _ in 0..20 {
        let n = 7;
        let mut adj: Vec<Vec<(usize, Scalar)>> = vec![vec![]; n];
        for i in 0..n {
            for j in 0..n {
                if i != j && f(rng.unit()) < 0.4 {
                    adj[i].push((j, rng.unit()));
                }
            }
        }
        let mut best = vec![f64::INFINITY; n];
        best[0] = 0.0;
        for _ in 0..n {
            for i in 0..n {
                for (j, c) in &adj[i] {
                    best[*j] = best[*j].min(best[i] + f(*c));
                }
            }
        }
        for dst in 1..n {
            match dijkstra(&adj, 0, dst) {
                None => assert!(best[dst].is_infinite()),
                Some(prev) => {
                    let mut chain = vec![dst];
                    while *chain.last().unwrap() != 0 {
                        chain.push(prev[*chain.last().unwrap()]);
                    }
                    chain.reverse();
                    let length = chain.windows(2).fold(0.0, |sum, w| {
                        let c = adj[w[0]].iter().find(|e| e.0 == w[1]).unwrap().1;
                        sum + f(c)
                    });
                    assert_eq!(length, best[dst]);
                }
            }
        }
    }
}

#[test]
fn plans_hold_one_number_for_each_joint() {
    let p = planner();
    let hole = |q: &[Scalar]| !(f(q[0]).abs() < 0.3 && f(q[1]).abs() < 0.5);
    let (a, b) = (v(&[-1.5, 0.0, 0.0]), v(&[1.5, 0.0, 0.0]));
    let path = p.plan(&a, &b, Endpoint::Free, Endpoint::Free, &hole).unwrap();
    assert!(path.iter().all(|q| q.len() == p.ndof() && q.iter().all(|x| f(*x).is_finite())));
}

#[test]
fn smoothing_keeps_some_of_the_nodes() {
    let path = rows(&[&[0.0, 0.0], &[0.0, 1.0], &[0.5, 2.0], &[1.0, 1.0], &[1.0, 0.0]]);
    let free = |a: &[Scalar], b: &[Scalar]| (f(a[0]) - f(b[0])).abs() < 0.75;
    for seed in 0..20 {
        let out = shortcut_smooth(path.clone(), 60, seed, &free);
        assert!(out.iter().all(|q| path.contains(q)));
        assert!(f(path_length(&out)) <= f(path_length(&path)) + 1e-12);
    }
}
