use caliper::hal::recorder::{
    column_stats, episode_file, parse_header, read_header, replay_frame, replay_target, DatasetSpec, Episode,
    EpisodeTable, Recorder, CHUNK_SIZE, CODEBASE_VERSION,
};
use caliper::hal::control::Frame;
use caliper::hal::{Error, RobotBackend, SimBackend};
use caliper::scalar::Scalar;

fn s(x: f64) -> Scalar {
    Scalar { bits: x.to_bits() }
}

fn v(xs: &[f64]) -> Vec<Scalar> {
    xs.iter().map(|x| s(*x)).collect()
}

fn f(x: Scalar) -> f64 {
    f64::from_bits(x.bits)
}

fn spec(ndof: usize) -> DatasetSpec {
    DatasetSpec {
        fps: 50,
        ndof,
        joint_names: (0..ndof).map(|i| format!("j{}", i + 1)).collect(),
        robot_type: "test".to_string(),
    }
}

/// What a file of single-precision numbers gives back of a table.
fn read_back(t: &EpisodeTable) -> Episode {
    let narrow = |x: &Scalar| s(f(*x) as f32 as f64);
    let rows = |r: &Vec<Vec<Scalar>>| -> Vec<Vec<Scalar>> {
        r.iter().map(|row| row.iter().map(narrow).collect()).collect()
    };
    Episode {
        index: t.meta.episode_index as u64,
        states: rows(&t.states),
        actions: rows(&t.actions),
        timestamps: t.timestamps.iter().map(narrow).collect(),
    }
}

#[test]
fn write_read_roundtrip_and_replay() {
    let mut rec = Recorder::create(spec(2));
    rec.start_episode("wave").unwrap();
    let states: Vec<[f64; 2]> = (0..5).map(|k| [k as f64 * 0.1, -(k as f64) * 0.2]).collect();
    let actions: Vec<[f64; 2]> =
        (0..5).map(|k| [k as f64 * 0.1 + 0.01, -(k as f64) * 0.2]).collect();
    for k in 0..5 {
        rec.append_frame(&v(&states[k]), &v(&actions[k]), s(k as f64 / 50.0)).unwrap();
    }
    let table = rec.finalize_episode().unwrap();
    assert_eq!(table.file_name, "episode_000000.parquet");
    let ep = read_back(&table);
    rec.commit(table.meta);
    let info = rec.close();
    assert_eq!(info.codebase_version, CODEBASE_VERSION);
    assert_eq!(info.chunks_size, CHUNK_SIZE);
    assert_eq!(info.total_episodes, 1);
    assert_eq!(info.total_frames, 5);
    assert_eq!(info.train_split, "0:1");
    assert_eq!(info.tasks, vec!["wave".to_string()]);
    assert_eq!(info.features.len(), 7);
    assert_eq!((info.features[1].name, info.features[1].width), ("action", 2));

    assert_eq!(ep.len(), 5);
    assert!(!ep.is_empty());
    for k in 0..5 {
        for j in 0..2 {
            assert!((f(ep.states[k][j]) - states[k][j]).abs() < 1e-6);
            assert!((f(ep.actions[k][j]) - actions[k][j]).abs() < 1e-6);
        }
        assert!((f(ep.timestamps[k]) - k as f64 / 50.0).abs() < 1e-6);
    }

    // replay drives a backend to the recorded action
    let mut b = SimBackend::new(2);
    replay_frame(&mut b, &ep, 3).unwrap();
    let q = b.joint_positions();
    for j in 0..2 {
        assert!((f(q[j]) - actions[3][j]).abs() < 1e-6);
    }
    let err = replay_frame(&mut b, &ep, 5).unwrap_err();
    assert_eq!(err.to_string(), "backend error: frame 5 out of range");
    assert_eq!(replay_target(&ep, 0).unwrap(), &ep.actions[0]);
}

#[test]
fn global_index_monotonic_across_episodes() {
    let mut rec = Recorder::create(spec(1));
    let mut all: Vec<i64> = Vec::new();
    for e in 0..2 {
        rec.start_episode("t").unwrap();
        for k in 0..3 {
            rec.append_frame(&v(&[k as f64]), &v(&[e as f64]), s(k as f64)).unwrap();
        }
        let table = rec.finalize_episode().unwrap();
        assert_eq!(table.frame_index, vec![0, 1, 2]);
        assert_eq!(table.episode_index, vec![e; 3]);
        assert_eq!(table.task_index, vec![0; 3]);
        all.extend(table.index.iter());
        rec.commit(table.meta);
    }
    assert_eq!(all, vec![0, 1, 2, 3, 4, 5]);
    let info = rec.close();
    assert_eq!(info.total_episodes, 2);
    assert_eq!(info.tasks.len(), 1);
    assert_eq!(info.episodes[1].length, 3);
}

#[test]
fn recorder_refuses_out_of_turn() {
    let mut rec = Recorder::create(spec(1));
    assert_eq!(
        rec.append_frame(&v(&[0.0]), &v(&[0.0]), s(0.0)).unwrap_err().to_string(),
        "backend error: no open episode"
    );
    assert!(rec.finalize_episode().is_err());
    rec.start_episode("a").unwrap();
    assert_eq!(
        rec.start_episode("b").unwrap_err().to_string(),
        "backend error: episode already open"
    );
    assert!(matches!(
        rec.append_frame(&v(&[0.0]), &v(&[0.0, 1.0]), s(0.0)),
        Err(Error::DofMismatch { expected: 1, got: 1 })
    ));
    let fr = Frame {
        tick: 0,
        t: s(0.25),
        measured: v(&[1.0]),
        measured_qd: v(&[0.0]),
        command: v(&[2.0]),
        warn: false,
    };
    rec.append_control_frame(&fr).unwrap();
    let t = rec.finalize_episode().unwrap();
    assert_eq!((t.states, t.actions, t.timestamps), (vec![v(&[1.0])], vec![v(&[2.0])], v(&[0.25])));
}

#[test]
fn statistics_by_hand() {
    let st = column_stats(&vec![v(&[1.0, -1.0]), v(&[3.0, -1.0])], 2);
    assert_eq!(st.min, v(&[1.0, -1.0]));
    assert_eq!(st.max, v(&[3.0, -1.0]));
    assert_eq!(st.mean, v(&[2.0, -1.0]));
    assert_eq!(st.std, v(&[1.0, 0.0]));
    assert_eq!(st.count, 2);
    let none = column_stats(&Vec::new(), 1);
    assert_eq!((none.min, none.max, none.count), (v(&[0.0]), v(&[0.0]), 0));
}

#[test]
fn statistics_match_hardware_floats() {
    let rows: Vec<Vec<f64>> = (0..50).map(|k| vec![(k as f64 * 0.37).sin() * 3.0]).collect();
    let st = column_stats(&rows.iter().map(|r| v(r)).collect(), 1);
    let n = rows.len() as f64;
    let (mut lo, mut hi, mut mean, mut var) = (f64::INFINITY, f64::NEG_INFINITY, 0.0, 0.0);
    for r in &rows {
        lo = lo.min(r[0]);
        hi = hi.max(r[0]);
        mean += r[0] / n;
    }
    for r in &rows {
        let d = r[0] - mean;
        var += d * d / n;
    }
    let var: f64 = var;
    assert_eq!(
        (st.min, st.max, st.mean, st.std),
        (v(&[lo]), v(&[hi]), v(&[mean]), v(&[var.sqrt()]))
    );
}

#[test]
fn files_and_headers() {
    assert_eq!(episode_file(42), "episode_000042.parquet");
    assert_eq!(episode_file(1234567), "episode_1234567.parquet");
    let h = read_header(None, None, None);
    assert_eq!((h.total_episodes, h.fps, h.ndof), (0, 30, 0));
    let h = read_header(Some(2), Some(50), Some(6));
    assert_eq!((h.total_episodes, h.fps, h.ndof), (2, 50, 6));
}

#[test]
fn headers_are_read_from_their_text() {
    let text = r#"{"total_episodes": 3, "fps": 25, "features": {"action": {"shape": [6]}}}"#;
    let h = parse_header(text).unwrap();
    assert_eq!((h.total_episodes, h.fps, h.ndof), (3, 25, 6));
    let h = parse_header("{}").unwrap();
    assert_eq!((h.total_episodes, h.fps, h.ndof), (0, 30, 0));
    let h = parse_header(r#"{"fps": -1, "total_episodes": "3", "features": []}"#).unwrap();
    assert_eq!((h.total_episodes, h.fps, h.ndof), (0, 30, 0));
    let keyed = r#"{"features": {"action": {"shape": {"0": 7}}}}"#;
    assert_eq!(parse_header(keyed).unwrap().ndof, 0);
    match parse_header("{") {
        Err(Error::Backend(m)) => assert!(m.contains("EOF"), "{m}"),
        other => panic!("{other:?}"),
    }
}
