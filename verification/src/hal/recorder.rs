//! Recording of episodes: what is kept of every tick, the table an episode becomes, its
//! statistics, and what a data set says of itself.

use vstd::prelude::*;

use crate::hal::backend::{copy_scalars, zeros, RobotBackend};
use crate::hal::control::Frame;
use crate::hal::error::{backend_error, Error};
#[allow(unused_imports)]
use crate::hal::error::ErrorV;
use crate::model::Model;
#[allow(unused_imports)]
use crate::motion::trajectory::rows_of;
use crate::scalar::consts::{INFINITY_BITS, MINUS_INFINITY_BITS};
#[allow(unused_imports)]
use crate::scalar::convert::{fmax, fmin, from_int};
#[allow(unused_imports)]
use crate::scalar::number::{fadd, fdiv, fmul, fsub};
#[allow(unused_imports)]
use crate::scalar::root::fsqrt;
use crate::scalar::Scalar;
use crate::text::{chars_of, decimal_text, is_text, push_lit, push_text, string_of};
#[allow(unused_imports)]
use crate::text::decimal;

verus! {

/// Version of the layout on disk.
pub const CODEBASE_VERSION: &'static str = "v2.1";

/// Episodes per directory.
pub const CHUNK_SIZE: usize = 1000;

/// Frame rate that a data set has if it names none.
pub const DEFAULT_FPS: u64 = 30;

/// What a data set is about.
#[derive(Clone, Debug)]
pub struct DatasetSpec {
    pub fps: u32,
    pub ndof: usize,
    pub joint_names: Vec<String>,
    pub robot_type: String,
}

/// The texts of some strings.
pub open spec fn strings(v: Seq<String>) -> Seq<Seq<char>> {
    Seq::new(v.len(), |i: int| v[i]@)
}

fn copy_strings(v: &Vec<String>) -> (r: Vec<String>)
    ensures
        strings(r@) == strings(v@),
{
    let mut out: Vec<String> = Vec::new();
    let mut i: usize = 0;
    while i < v.len()
        invariant
            i <= v.len(),
            out.len() == i,
            forall|k: int| 0 <= k < i ==> (#[trigger] out@[k])@ == v@[k]@,
        decreases v.len() - i,
    {
        let s = chars_of(v[i].as_str());
        out.push(string_of(&s));
        i = i + 1;
    }
    assert(strings(out@) =~= strings(v@));
    out
}

impl DatasetSpec {
    pub fn from_model(model: &Model, fps: u32) -> (r: DatasetSpec)
        ensures
            r.fps == fps,
            r.ndof == model.ndof,
            strings(r.joint_names@) == strings(model.joint_names@),
            r.robot_type@ == model.name@,
    {
        let name = chars_of(model.name.as_str());
        DatasetSpec {
            fps,
            ndof: model.ndof,
            joint_names: copy_strings(&model.joint_names),
            robot_type: string_of(&name),
        }
    }
}

/// Statistics of each column over an episode.
#[derive(Debug)]
pub struct Stats {
    pub min: Vec<Scalar>,
    pub max: Vec<Scalar>,
    pub mean: Vec<Scalar>,
    pub std: Vec<Scalar>,
    pub count: usize,
}

/// `Stats` over sequences.
#[verifier::ext_equal]
pub struct StatsV {
    pub min: Seq<Scalar>,
    pub max: Seq<Scalar>,
    pub mean: Seq<Scalar>,
    pub std: Seq<Scalar>,
    pub count: nat,
}

impl View for Stats {
    type V = StatsV;

    open spec fn view(&self) -> StatsV {
        StatsV {
            min: self.min@,
            max: self.max@,
            mean: self.mean@,
            std: self.std@,
            count: self.count as nat,
        }
    }
}

/// The least of the first `k` entries of a column.
pub open spec fn least(rows: Seq<Seq<Scalar>>, j: int, k: nat) -> Scalar
    decreases k,
{
    if k == 0 {
        Scalar { bits: INFINITY_BITS }
    } else {
        fmin(least(rows, j, (k - 1) as nat), rows[k - 1][j])
    }
}

/// The greatest of the first `k` entries of a column.
pub open spec fn greatest(rows: Seq<Seq<Scalar>>, j: int, k: nat) -> Scalar
    decreases k,
{
    if k == 0 {
        Scalar { bits: MINUS_INFINITY_BITS }
    } else {
        fmax(greatest(rows, j, (k - 1) as nat), rows[k - 1][j])
    }
}

/// What the first `k` entries of a column add to its mean over `n`.
pub open spec fn mean_part(rows: Seq<Seq<Scalar>>, j: int, n: Scalar, k: nat) -> Scalar
    decreases k,
{
    if k == 0 {
        Scalar { bits: 0 }
    } else {
        fadd(mean_part(rows, j, n, (k - 1) as nat), fdiv(rows[k - 1][j], n))
    }
}

/// What the first `k` entries of a column add to its variance over `n`.
pub open spec fn variance_part(
    rows: Seq<Seq<Scalar>>,
    j: int,
    mean: Scalar,
    n: Scalar,
    k: nat,
) -> Scalar
    decreases k,
{
    if k == 0 {
        Scalar { bits: 0 }
    } else {
        let d = fsub(rows[k - 1][j], mean);
        fadd(variance_part(rows, j, mean, n, (k - 1) as nat), fdiv(fmul(d, d), n))
    }
}

/// How many rows a mean is over: at least one.
pub open spec fn share(rows: Seq<Seq<Scalar>>) -> Scalar {
    from_int(
        if rows.len() < 1 {
            1
        } else {
            rows.len() as int
        },
    )
}

/// Statistics of the first `width` columns. Without rows all of them are zero.
pub open spec fn stats_of(rows: Seq<Seq<Scalar>>, width: nat) -> StatsV {
    let n = share(rows);
    StatsV {
        min: Seq::new(
            width,
            |j: int|
                if rows.len() == 0 {
                    Scalar { bits: 0 }
                } else {
                    least(rows, j, rows.len())
                },
        ),
        max: Seq::new(
            width,
            |j: int|
                if rows.len() == 0 {
                    Scalar { bits: 0 }
                } else {
                    greatest(rows, j, rows.len())
                },
        ),
        mean: Seq::new(width, |j: int| mean_part(rows, j, n, rows.len())),
        std: Seq::new(
            width,
            |j: int|
                fsqrt(
                    variance_part(rows, j, mean_part(rows, j, n, rows.len()), n, rows.len()),
                ),
        ),
        count: rows.len(),
    }
}

/// Every row has at least `width` entries.
pub open spec fn wide(rows: Seq<Seq<Scalar>>, width: nat) -> bool {
    forall|i: int| 0 <= i < rows.len() ==> (#[trigger] rows[i]).len() >= width
}

/// The least, the greatest and the mean of one column.
fn column_range(rows: &Vec<Vec<Scalar>>, j: usize, n: Scalar) -> (r: (Scalar, Scalar, Scalar))
    requires
        wide(rows_of(rows@), (j + 1) as nat),
    ensures
        r == (
            least(rows_of(rows@), j as int, rows@.len()),
            greatest(rows_of(rows@), j as int, rows@.len()),
            mean_part(rows_of(rows@), j as int, n, rows@.len()),
        ),
{
    let ghost v = rows_of(rows@);
    let mut lo = Scalar { bits: INFINITY_BITS };
    let mut hi = Scalar { bits: MINUS_INFINITY_BITS };
    let mut mean = Scalar { bits: 0 };
    let mut i: usize = 0;
    while i < rows.len()
        invariant
            i <= rows.len(),
            v == rows_of(rows@),
            wide(v, (j + 1) as nat),
            lo == least(v, j as int, i as nat),
            hi == greatest(v, j as int, i as nat),
            mean == mean_part(v, j as int, n, i as nat),
        decreases rows.len() - i,
    {
        assert(v[i as int] == rows@[i as int]@);
        let x = rows[i][j];
        lo = lo.min(x);
        hi = hi.max(x);
        mean = mean.add(x.div(n));
        i = i + 1;
    }
    (lo, hi, mean)
}

fn column_variance(rows: &Vec<Vec<Scalar>>, j: usize, mean: Scalar, n: Scalar) -> (r: Scalar)
    requires
        wide(rows_of(rows@), (j + 1) as nat),
    ensures
        r == variance_part(rows_of(rows@), j as int, mean, n, rows@.len()),
{
    let ghost v = rows_of(rows@);
    let mut var = Scalar { bits: 0 };
    let mut i: usize = 0;
    while i < rows.len()
        invariant
            i <= rows.len(),
            v == rows_of(rows@),
            wide(v, (j + 1) as nat),
            var == variance_part(v, j as int, mean, n, i as nat),
        decreases rows.len() - i,
    {
        assert(v[i as int] == rows@[i as int]@);
        let d = rows[i][j].sub(mean);
        var = var.add(d.mul(d).div(n));
        i = i + 1;
    }
    var
}

/// Statistics of the first `width` columns.
pub fn column_stats(rows: &Vec<Vec<Scalar>>, width: usize) -> (r: Stats)
    requires
        wide(rows_of(rows@), width as nat),
    ensures
        r@ == stats_of(rows_of(rows@), width as nat),
{
    let ghost v = rows_of(rows@);
    let ghost target = stats_of(v, width as nat);
    let n = Scalar::from_usize(
        if rows.len() < 1 {
            1
        } else {
            rows.len()
        },
    );
    let empty = rows.len() == 0;
    let mut min: Vec<Scalar> = Vec::new();
    let mut max: Vec<Scalar> = Vec::new();
    let mut mean: Vec<Scalar> = Vec::new();
    let mut std: Vec<Scalar> = Vec::new();
    let mut j: usize = 0;
    while j < width
        invariant
            j <= width,
            v == rows_of(rows@),
            v.len() == rows@.len(),
            wide(v, width as nat),
            target == stats_of(v, width as nat),
            n == share(v),
            empty == (v.len() == 0),
            min.len() == j,
            max.len() == j,
            mean.len() == j,
            std.len() == j,
            forall|k: int| 0 <= k < j ==> #[trigger] min@[k] == target.min[k],
            forall|k: int| 0 <= k < j ==> #[trigger] max@[k] == target.max[k],
            forall|k: int| 0 <= k < j ==> #[trigger] mean@[k] == target.mean[k],
            forall|k: int| 0 <= k < j ==> #[trigger] std@[k] == target.std[k],
        decreases width - j,
    {
        let (lo, hi, m) = column_range(rows, j, n);
        let var = column_variance(rows, j, m, n);
        min.push(
            if empty {
                Scalar { bits: 0 }
            } else {
                lo
            },
        );
        max.push(
            if empty {
                Scalar { bits: 0 }
            } else {
                hi
            },
        );
        mean.push(m);
        std.push(var.sqrt());
        j = j + 1;
    }
    let r = Stats { min, max, mean, std, count: rows.len() };
    assert(r@ =~= target);
    r
}

/// What is kept of an episode that is being recorded.
#[derive(Debug)]
pub struct EpisodeBuf {
    pub task_index: usize,
    pub states: Vec<Vec<Scalar>>,
    pub actions: Vec<Vec<Scalar>>,
    pub timestamps: Vec<Scalar>,
}

/// `EpisodeBuf` over sequences.
#[verifier::ext_equal]
pub struct BufV {
    pub task: nat,
    pub states: Seq<Seq<Scalar>>,
    pub actions: Seq<Seq<Scalar>>,
    pub times: Seq<Scalar>,
}

impl View for EpisodeBuf {
    type V = BufV;

    open spec fn view(&self) -> BufV {
        BufV {
            task: self.task_index as nat,
            states: rows_of(self.states@),
            actions: rows_of(self.actions@),
            times: self.timestamps@,
        }
    }
}

/// What is said of an episode beside its table.
#[derive(Debug)]
pub struct EpisodeMeta {
    pub episode_index: usize,
    pub task: String,
    pub length: usize,
    pub state_stats: Stats,
    pub action_stats: Stats,
    pub time_stats: Stats,
}

/// `EpisodeMeta` over sequences.
pub struct MetaV {
    pub episode: nat,
    pub task: Seq<char>,
    pub length: nat,
    pub state_stats: StatsV,
    pub action_stats: StatsV,
    pub time_stats: StatsV,
}

impl View for EpisodeMeta {
    type V = MetaV;

    open spec fn view(&self) -> MetaV {
        MetaV {
            episode: self.episode_index as nat,
            task: self.task@,
            length: self.length as nat,
            state_stats: self.state_stats@,
            action_stats: self.action_stats@,
            time_stats: self.time_stats@,
        }
    }
}

/// The table of an episode: one entry per frame in every column.
#[derive(Debug)]
pub struct EpisodeTable {
    pub file_name: String,
    pub states: Vec<Vec<Scalar>>,
    pub actions: Vec<Vec<Scalar>>,
    pub timestamps: Vec<Scalar>,
    pub frame_index: Vec<i64>,
    pub episode_index: Vec<i64>,
    pub index: Vec<i64>,
    pub task_index: Vec<i64>,
    pub meta: EpisodeMeta,
}

/// `EpisodeTable` over sequences.
pub struct TableV {
    pub file_name: Seq<char>,
    pub states: Seq<Seq<Scalar>>,
    pub actions: Seq<Seq<Scalar>>,
    pub times: Seq<Scalar>,
    pub frame_index: Seq<i64>,
    pub episode_index: Seq<i64>,
    pub index: Seq<i64>,
    pub task_index: Seq<i64>,
    pub meta: MetaV,
}

impl View for EpisodeTable {
    type V = TableV;

    open spec fn view(&self) -> TableV {
        TableV {
            file_name: self.file_name@,
            states: rows_of(self.states@),
            actions: rows_of(self.actions@),
            times: self.timestamps@,
            frame_index: self.frame_index@,
            episode_index: self.episode_index@,
            index: self.index@,
            task_index: self.task_index@,
            meta: self.meta@,
        }
    }
}

/// Zeros in front of a short number.
pub open spec fn padded(s: Seq<char>, width: nat) -> Seq<char> {
    if s.len() >= width {
        s
    } else {
        Seq::new((width - s.len()) as nat, |i: int| '0') + s
    }
}

/// The file of an episode.
pub open spec fn file_of(episode: nat) -> Seq<char> {
    "episode_"@ + padded(decimal(episode), 6) + ".parquet"@
}

pub fn episode_file(episode: usize) -> (r: String)
    ensures
        r@ == file_of(episode as nat),
{
    let digits = decimal_text(episode as u128);
    let mut out = chars_of("episode_");
    let ghost head = out@;
    let ghost d = digits@;
    let mut pad: usize = digits.len();
    let ghost mut zeros: Seq<char> = Seq::empty();
    while pad < 6
        invariant
            d.len() <= pad,
            pad <= 6 || pad == d.len(),
            zeros == Seq::new((pad - d.len()) as nat, |i: int| '0'),
            out@ == head + zeros,
        decreases 6 - pad,
    {
        out.push('0');
        proof {
            let more = zeros.push('0');
            assert(out@ =~= head + more);
            assert(more =~= Seq::new((pad + 1 - d.len()) as nat, |i: int| '0'));
            zeros = more;
        }
        pad = pad + 1;
    }
    assert(out@ =~= head + zeros);
    push_text(&mut out, &digits);
    push_lit(&mut out, ".parquet");
    proof {
        assert(padded(d, 6) =~= zeros + d);
        assert(out@ =~= head + padded(d, 6) + ".parquet"@);
    }
    string_of(&out)
}

/// One time per row.
pub open spec fn single_column(times: Seq<Scalar>) -> Seq<Seq<Scalar>> {
    Seq::new(times.len(), |i: int| seq![times[i]])
}

/// The same number in every entry.
pub open spec fn constant(x: i64, n: nat) -> Seq<i64> {
    Seq::new(n, |i: int| x)
}

/// Numbers counted up from `x`.
pub open spec fn counted(x: int, n: nat) -> Seq<i64> {
    Seq::new(n, |i: int| (x + i) as i64)
}

/// The table of an episode.
pub open spec fn table_of(
    buf: BufV,
    ndof: nat,
    episode: nat,
    first: int,
    task: Seq<char>,
) -> TableV {
    let n = buf.times.len();
    TableV {
        file_name: file_of(episode),
        states: buf.states,
        actions: buf.actions,
        times: buf.times,
        frame_index: counted(0, n),
        episode_index: constant(episode as i64, n),
        index: counted(first, n),
        task_index: constant(buf.task as i64, n),
        meta: MetaV {
            episode,
            task,
            length: n,
            state_stats: stats_of(buf.states, ndof),
            action_stats: stats_of(buf.actions, ndof),
            time_stats: stats_of(single_column(buf.times), 1),
        },
    }
}

/// Keeps episodes, one at a time. What it hands out is written elsewhere.
pub struct Recorder {
    spec: DatasetSpec,
    next_episode: usize,
    global_index: i64,
    total_frames: usize,
    cur: Option<EpisodeBuf>,
    episodes: Vec<EpisodeMeta>,
    tasks: Vec<String>,
}

/// `Recorder` over sequences.
#[verifier::ext_equal]
pub struct RecorderV {
    pub spec: DatasetSpec,
    pub next: nat,
    pub index: int,
    pub frames: nat,
    pub cur: Option<BufV>,
    pub episodes: Seq<MetaV>,
    pub tasks: Seq<Seq<char>>,
}

pub open spec fn metas(v: Seq<EpisodeMeta>) -> Seq<MetaV> {
    Seq::new(v.len(), |i: int| v[i]@)
}

impl View for Recorder {
    type V = RecorderV;

    closed spec fn view(&self) -> RecorderV {
        RecorderV {
            spec: self.spec,
            next: self.next_episode as nat,
            index: self.global_index as int,
            frames: self.total_frames as nat,
            cur: match self.cur {
                Some(b) => Some(b@),
                None => None,
            },
            episodes: metas(self.episodes@),
            tasks: strings(self.tasks@),
        }
    }
}

/// Where a task is among the first `n` known ones.
pub open spec fn task_at(tasks: Seq<Seq<char>>, task: Seq<char>, from: int) -> Option<int>
    decreases tasks.len() - from,
{
    if from < 0 || from >= tasks.len() {
        None
    } else if tasks[from] == task {
        Some(from)
    } else {
        task_at(tasks, task, from + 1)
    }
}

/// The known tasks with one more, if it is new, and its place among them.
pub open spec fn with_task(tasks: Seq<Seq<char>>, task: Seq<char>) -> (Seq<Seq<char>>, int) {
    match task_at(tasks, task, 0) {
        Some(i) => (tasks, i),
        None => (tasks.push(task), tasks.len() as int),
    }
}

/// An episode without frames.
pub open spec fn fresh_buf(task: nat) -> BufV {
    BufV { task, states: Seq::empty(), actions: Seq::empty(), times: Seq::empty() }
}

/// Why a frame is refused.
pub open spec fn frame_fault(r: RecorderV, state: Seq<Scalar>, action: Seq<Scalar>) -> Option<
    ErrorV,
> {
    if state.len() != r.spec.ndof || action.len() != r.spec.ndof {
        Some(
            ErrorV::DofMismatch {
                expected: r.spec.ndof as nat,
                got: if action.len() < state.len() {
                    action.len()
                } else {
                    state.len()
                },
            },
        )
    } else if r.cur is None {
        Some(ErrorV::Backend("no open episode"@))
    } else {
        None
    }
}

/// A recorder with one more frame in the open episode.
pub open spec fn with_frame(
    r: RecorderV,
    state: Seq<Scalar>,
    action: Seq<Scalar>,
    t: Scalar,
) -> RecorderV {
    match r.cur {
        None => r,
        Some(b) => RecorderV {
            cur: Some(
                BufV {
                    states: b.states.push(state),
                    actions: b.actions.push(action),
                    times: b.times.push(t),
                    ..b
                },
            ),
            ..r
        },
    }
}

/// A recorder after an episode was written.
pub open spec fn with_episode(r: RecorderV, m: MetaV) -> RecorderV {
    RecorderV {
        next: r.next + 1,
        index: r.index + m.length,
        frames: r.frames + m.length,
        episodes: r.episodes.push(m),
        ..r
    }
}

/// One feature of a data set.
#[derive(Debug)]
pub struct Feature {
    pub name: &'static str,
    pub dtype: &'static str,
    pub width: usize,
    /// Whether its entries are named after the joints.
    pub named: bool,
}

/// `Feature` over sequences.
pub struct FeatureV {
    pub name: Seq<char>,
    pub dtype: Seq<char>,
    pub width: nat,
    pub named: bool,
}

impl View for Feature {
    type V = FeatureV;

    open spec fn view(&self) -> FeatureV {
        FeatureV {
            name: self.name@,
            dtype: self.dtype@,
            width: self.width as nat,
            named: self.named,
        }
    }
}

/// What a data set says of itself.
#[derive(Debug)]
pub struct DatasetInfo {
    pub codebase_version: &'static str,
    pub spec: DatasetSpec,
    pub total_episodes: usize,
    pub total_frames: usize,
    pub chunks_size: usize,
    pub train_split: String,
    pub features: Vec<Feature>,
    pub episodes: Vec<EpisodeMeta>,
    pub tasks: Vec<String>,
}

pub open spec fn features_of(ndof: nat) -> Seq<FeatureV> {
    seq![
        FeatureV { name: "observation.state"@, dtype: "float32"@, width: ndof, named: true },
        FeatureV { name: "action"@, dtype: "float32"@, width: ndof, named: true },
        FeatureV { name: "timestamp"@, dtype: "float32"@, width: 1, named: false },
        FeatureV { name: "frame_index"@, dtype: "int64"@, width: 1, named: false },
        FeatureV { name: "episode_index"@, dtype: "int64"@, width: 1, named: false },
        FeatureV { name: "index"@, dtype: "int64"@, width: 1, named: false },
        FeatureV { name: "task_index"@, dtype: "int64"@, width: 1, named: false },
    ]
}

pub open spec fn features_seen(v: Seq<Feature>) -> Seq<FeatureV> {
    Seq::new(v.len(), |i: int| v[i]@)
}

fn integers(n: usize, first: i64, step: bool) -> (r: Vec<i64>)
    requires
        first >= 0,
        step ==> first + n <= i64::MAX,
    ensures
        step ==> r@ == counted(first as int, n as nat),
        !step ==> r@ == constant(first, n as nat),
{
    let mut out: Vec<i64> = Vec::new();
    let mut i: usize = 0;
    let mut x: i64 = first;
    while i < n
        invariant
            i <= n,
            out.len() == i,
            first >= 0,
            step ==> first + n <= i64::MAX,
            step ==> x == first + i,
            !step ==> x == first,
            forall|k: int|
                0 <= k < i ==> #[trigger] out@[k] == (if step {
                    (first + k) as i64
                } else {
                    first
                }),
        decreases n - i,
    {
        out.push(x);
        if step {
            x = x + 1;
        }
        i = i + 1;
    }
    proof {
        if step {
            assert(out@ =~= counted(first as int, n as nat));
        } else {
            assert(out@ =~= constant(first, n as nat));
        }
    }
    out
}

fn column(times: &Vec<Scalar>) -> (r: Vec<Vec<Scalar>>)
    ensures
        rows_of(r@) == single_column(times@),
{
    let mut out: Vec<Vec<Scalar>> = Vec::new();
    let mut i: usize = 0;
    while i < times.len()
        invariant
            i <= times.len(),
            out.len() == i,
            forall|k: int| 0 <= k < i ==> (#[trigger] out@[k])@ == seq![times@[k]],
        decreases times.len() - i,
    {
        let row: Vec<Scalar> = vec![times[i]];
        assert(row@ =~= seq![times@[i as int]]);
        out.push(row);
        i = i + 1;
    }
    assert(rows_of(out@) =~= single_column(times@));
    out
}

impl Recorder {
    #[verifier::type_invariant]
    spec fn sound(&self) -> bool {
        &&& self.global_index >= 0
        &&& match self.cur {
            Some(b) => {
                &&& b.task_index < self.tasks@.len()
                &&& b.states@.len() == b.timestamps@.len()
                &&& b.actions@.len() == b.timestamps@.len()
                &&& wide(rows_of(b.states@), self.spec.ndof as nat)
                &&& wide(rows_of(b.actions@), self.spec.ndof as nat)
            },
            None => true,
        }
    }

    /// A recorder of a data set without episodes.
    pub fn create(spec: DatasetSpec) -> (r: Recorder)
        ensures
            r@ == (RecorderV {
                spec,
                next: 0,
                index: 0,
                frames: 0,
                cur: None,
                episodes: Seq::empty(),
                tasks: Seq::empty(),
            }),
    {
        let r = Recorder {
            spec,
            next_episode: 0,
            global_index: 0,
            total_frames: 0,
            cur: None,
            episodes: Vec::new(),
            tasks: Vec::new(),
        };
        assert(r@.episodes =~= Seq::empty());
        assert(r@.tasks =~= Seq::empty());
        r
    }

    fn find_task(&self, task: &str) -> (r: Option<usize>)
        ensures
            match r {
                Some(i) => task_at(self@.tasks, task@, 0) == Some(i as int) && i
                    < self@.tasks.len(),
                None => task_at(self@.tasks, task@, 0) is None,
            },
    {
        let mut i: usize = 0;
        while i < self.tasks.len()
            invariant
                i <= self.tasks.len(),
                self@.tasks == strings(self.tasks@),
                task_at(self@.tasks, task@, 0) == task_at(self@.tasks, task@, i as int),
            decreases self.tasks.len() - i,
        {
            let known = chars_of(self.tasks[i].as_str());
            assert(self@.tasks[i as int] == self.tasks@[i as int]@);
            if is_text(&known, task) {
                return Some(i);
            }
            i = i + 1;
        }
        None
    }

    /// Opens an episode of a task.
    pub fn start_episode(&mut self, task: &str) -> (r: Result<(), Error>)
        ensures
            match r {
                Ok(_) => {
                    &&& old(self)@.cur is None
                    &&& final(self)@ == (RecorderV {
                        tasks: with_task(old(self)@.tasks, task@).0,
                        cur: Some(fresh_buf(with_task(old(self)@.tasks, task@).1 as nat)),
                        ..old(self)@
                    })
                },
                Err(e) => old(self)@.cur is Some && e@ == ErrorV::Backend(
                    "episode already open"@,
                ) && final(self)@ == old(self)@,
            },
    {
        if self.cur.is_some() {
            return Err(backend_error("episode already open"));
        }
        proof {
            use_type_invariant(&*self);
        }
        let ghost before = self@;
        let mut task_index: usize = self.tasks.len();
        match self.find_task(task) {
            Some(i) => {
                task_index = i;
            },
            None => {
                let text = chars_of(task);
                let ghost tv = self.tasks@;
                let mut tasks: Vec<String> = Vec::new();
                std::mem::swap(&mut tasks, &mut self.tasks);
                tasks.push(string_of(&text));
                self.tasks = tasks;
                proof {
                    assert(strings(self.tasks@) =~= strings(tv).push(task@));
                }
            },
        }
        let buf = EpisodeBuf {
            task_index,
            states: Vec::new(),
            actions: Vec::new(),
            timestamps: Vec::new(),
        };
        self.cur = Some(buf);
        proof {
            assert(buf@ =~= fresh_buf(task_index as nat));
            assert(self@ =~= (RecorderV {
                tasks: with_task(before.tasks, task@).0,
                cur: Some(fresh_buf(with_task(before.tasks, task@).1 as nat)),
                ..before
            }));
        }
        Ok(())
    }

    /// Adds a frame: the state before the command, the command, and the time.
    pub fn append_frame(&mut self, state: &[Scalar], action: &[Scalar], t: Scalar) -> (r: Result<
        (),
        Error,
    >)
        ensures
            match r {
                Ok(_) => frame_fault(old(self)@, state@, action@) is None && final(self)@
                    == with_frame(old(self)@, state@, action@, t),
                Err(e) => frame_fault(old(self)@, state@, action@) == Some(e@) && final(self)@
                    == old(self)@,
            },
    {
        let n: usize = self.spec.ndof;
        if state.len() != n || action.len() != n {
            return Err(
                Error::DofMismatch {
                    expected: n,
                    got: if action.len() < state.len() {
                        action.len()
                    } else {
                        state.len()
                    },
                },
            );
        }
        proof {
            use_type_invariant(&*self);
        }
        let ghost before = self@;
        let mut cur: Option<EpisodeBuf> = None;
        std::mem::swap(&mut cur, &mut self.cur);
        match cur {
            None => Err(backend_error("no open episode")),
            Some(b) => {
                let mut b = b;
                let ghost bv = b;
                b.states.push(copy_scalars(state));
                b.actions.push(copy_scalars(action));
                b.timestamps.push(t);
                proof {
                    assert(rows_of(b.states@) =~= rows_of(bv.states@).push(state@));
                    assert(rows_of(b.actions@) =~= rows_of(bv.actions@).push(action@));
                }
                self.cur = Some(b);
                assert(self@ =~= with_frame(before, state@, action@, t));
                Ok(())
            },
        }
    }

    /// Adds a tick of a control loop.
    pub fn append_control_frame(&mut self, f: &Frame) -> (r: Result<(), Error>)
        ensures
            match r {
                Ok(_) => frame_fault(old(self)@, f@.measured, f@.command) is None && final(self)@
                    == with_frame(old(self)@, f@.measured, f@.command, f@.t),
                Err(e) => frame_fault(old(self)@, f@.measured, f@.command) == Some(e@)
                    && final(self)@ == old(self)@,
            },
    {
        self.append_frame(f.measured.as_slice(), f.command.as_slice(), f.t)
    }

    /// Closes the open episode and gives its table. The episode counts once it was
    /// written: see `commit`.
    pub fn finalize_episode(&mut self) -> (r: Result<EpisodeTable, Error>)
        requires
            old(self)@.cur matches Some(b) ==> old(self)@.index + b.times.len() <= i64::MAX
                && old(self)@.next <= i64::MAX && b.task <= i64::MAX,
        ensures
            match r {
                Ok(t) => old(self)@.cur matches Some(b) && t@ == table_of(
                    b,
                    old(self)@.spec.ndof as nat,
                    old(self)@.next,
                    old(self)@.index,
                    old(self)@.tasks[b.task as int],
                ),
                Err(e) => old(self)@.cur is None && e@ == ErrorV::Backend("no open episode"@),
            },
            final(self)@ == (RecorderV { cur: None, ..old(self)@ }),
    {
        proof {
            use_type_invariant(&*self);
        }
        let ghost before = self@;
        let ghost tasks = self.tasks@;
        let mut cur: Option<EpisodeBuf> = None;
        std::mem::swap(&mut cur, &mut self.cur);
        assert(self@ =~= (RecorderV { cur: None, ..before }));
        match cur {
            None => Err(backend_error("no open episode")),
            Some(b) => {
                let n: usize = self.spec.ndof;
                let len: usize = b.timestamps.len();
                let name = chars_of(self.tasks[b.task_index].as_str());
                let state_stats = column_stats(&b.states, n);
                let action_stats = column_stats(&b.actions, n);
                let times = column(&b.timestamps);
                assert(wide(rows_of(times@), 1));
                let time_stats = column_stats(&times, 1);
                let meta = EpisodeMeta {
                    episode_index: self.next_episode,
                    task: string_of(&name),
                    length: len,
                    state_stats,
                    action_stats,
                    time_stats,
                };
                let table = EpisodeTable {
                    file_name: episode_file(self.next_episode),
                    frame_index: integers(len, 0, true),
                    episode_index: integers(len, self.next_episode as i64, false),
                    index: integers(len, self.global_index, true),
                    task_index: integers(len, b.task_index as i64, false),
                    states: b.states,
                    actions: b.actions,
                    timestamps: b.timestamps,
                    meta,
                };
                assert(before.tasks[b.task_index as int] == tasks[b.task_index as int]@);
                Ok(table)
            },
        }
    }

    /// Counts an episode that was written.
    pub fn commit(&mut self, meta: EpisodeMeta)
        requires
            old(self)@.next < usize::MAX,
            old(self)@.index + meta.length <= i64::MAX,
            old(self)@.frames + meta.length <= usize::MAX,
        ensures
            final(self)@ == with_episode(old(self)@, meta@),
    {
        proof {
            use_type_invariant(&*self);
        }
        let ghost before = self@;
        let ghost ev = self.episodes@;
        let len: usize = meta.length;
        self.global_index = self.global_index + len as i64;
        self.total_frames = self.total_frames + len;
        self.next_episode = self.next_episode + 1;
        let mut episodes: Vec<EpisodeMeta> = Vec::new();
        std::mem::swap(&mut episodes, &mut self.episodes);
        episodes.push(meta);
        self.episodes = episodes;
        proof {
            assert(metas(self.episodes@) =~= metas(ev).push(meta@));
            assert(self@ =~= with_episode(before, meta@));
        }
    }

    /// What the finished data set says of itself.
    pub fn close(self) -> (r: DatasetInfo)
        ensures
            r.codebase_version@ == CODEBASE_VERSION@,
            r.spec == self@.spec,
            r.total_episodes == self@.next,
            r.total_frames == self@.frames,
            r.chunks_size == CHUNK_SIZE,
            r.train_split@ == "0:"@ + decimal(self@.next),
            features_seen(r.features@) == features_of(self@.spec.ndof as nat),
            metas(r.episodes@) == self@.episodes,
            strings(r.tasks@) == self@.tasks,
    {
        let n: usize = self.spec.ndof;
        let features: Vec<Feature> = vec![
            Feature { name: "observation.state", dtype: "float32", width: n, named: true },
            Feature { name: "action", dtype: "float32", width: n, named: true },
            Feature { name: "timestamp", dtype: "float32", width: 1, named: false },
            Feature { name: "frame_index", dtype: "int64", width: 1, named: false },
            Feature { name: "episode_index", dtype: "int64", width: 1, named: false },
            Feature { name: "index", dtype: "int64", width: 1, named: false },
            Feature { name: "task_index", dtype: "int64", width: 1, named: false },
        ];
        assert(features_seen(features@) =~= features_of(n as nat));
        let mut split = chars_of("0:");
        push_text(&mut split, &decimal_text(self.next_episode as u128));
        DatasetInfo {
            codebase_version: CODEBASE_VERSION,
            total_episodes: self.next_episode,
            total_frames: self.total_frames,
            chunks_size: CHUNK_SIZE,
            train_split: string_of(&split),
            features,
            spec: self.spec,
            episodes: self.episodes,
            tasks: self.tasks,
        }
    }
}

/// An episode read back.
#[derive(Debug)]
pub struct Episode {
    pub index: u64,
    pub states: Vec<Vec<Scalar>>,
    pub actions: Vec<Vec<Scalar>>,
    pub timestamps: Vec<Scalar>,
}

impl Episode {
    /// Number of frames.
    pub fn len(&self) -> (r: usize)
        ensures
            r == self.timestamps@.len(),
    {
        self.timestamps.len()
    }

    pub fn is_empty(&self) -> (r: bool)
        ensures
            r == (self.timestamps@.len() == 0),
    {
        self.timestamps.len() == 0
    }
}

/// What a reader needs to know of a data set.
#[derive(Clone, Copy, Debug, PartialEq, Eq, Structural)]
pub struct DatasetHeader {
    pub total_episodes: usize,
    pub fps: u32,
    pub ndof: usize,
}

/// The header for the numbers that a data set gives of itself, where it gives them.
pub fn read_header(total_episodes: Option<usize>, fps: Option<u32>, ndof: Option<usize>) -> (r:
    DatasetHeader)
    ensures
        r == (DatasetHeader {
            total_episodes: match total_episodes {
                Some(n) => n,
                None => 0,
            },
            fps: match fps {
                Some(n) => n,
                None => DEFAULT_FPS as u32,
            },
            ndof: match ndof {
                Some(n) => n,
                None => 0,
            },
        }),
{
    DatasetHeader {
        total_episodes: match total_episodes {
            Some(n) => n,
            None => 0,
        },
        fps: match fps {
            Some(n) => n,
            None => DEFAULT_FPS as u32,
        },
        ndof: match ndof {
            Some(n) => n,
            None => 0,
        },
    }
}

/// The whole number that stands at a pointer in a JSON text, if one stands there; or why
/// the text is no JSON.
pub uninterp spec fn json_number(text: Seq<char>, pointer: Seq<char>) -> Result<
    Option<u64>,
    Seq<char>,
>;

/// Reads a JSON text with `serde_json::from_str` into a `serde_json::Value`, and from that
/// takes what `Value::pointer` finds, as `Value::as_u64` sees it. Claims that the result, or
/// the words of the error, depend on the text and the pointer alone.
#[verifier::external_body]
fn number_in(text: &str, pointer: &str) -> (r: Result<Option<u64>, String>)
    ensures
        json_number(text@, pointer@) == (match r {
            Ok(n) => Ok::<Option<u64>, Seq<char>>(n),
            Err(e) => Err::<Option<u64>, Seq<char>>(e@),
        }),
{
    match serde_json::from_str::<serde_json::Value>(text) {
        Ok(v) => Ok(v.pointer(pointer).and_then(serde_json::Value::as_u64)),
        Err(e) => Err(e.to_string()),
    }
}

/// The whole number at an index of a list, which stands at a pointer in a JSON text, if
/// there is one; or why the text is no JSON.
pub uninterp spec fn json_item_number(text: Seq<char>, pointer: Seq<char>, index: nat) -> Result<
    Option<u64>,
    Seq<char>,
>;

/// Reads a JSON text with `serde_json::from_str` into a `serde_json::Value`, and from what
/// `Value::pointer` finds takes the item that `Value::get` has at a numeric index (only a
/// list has items), as `Value::as_u64` sees it. Claims that the result, or the words of the
/// error, depend on the text, the pointer and the index alone.
#[verifier::external_body]
fn item_number_in(text: &str, pointer: &str, index: usize) -> (r: Result<Option<u64>, String>)
    ensures
        json_item_number(text@, pointer@, index as nat) == (match r {
            Ok(n) => Ok::<Option<u64>, Seq<char>>(n),
            Err(e) => Err::<Option<u64>, Seq<char>>(e@),
        }),
{
    match serde_json::from_str::<serde_json::Value>(text) {
        Ok(v) => match v.pointer(pointer) {
            Some(list) => match list.get(index) {
                Some(item) => Ok(item.as_u64()),
                None => Ok(None),
            },
            None => Ok(None),
        },
        Err(e) => Err(e.to_string()),
    }
}

/// What comes of the three numbers that a header is read from: the first that cannot be
/// read fails it, and what is not there has its default.
pub open spec fn header_of(
    total_episodes: Result<Option<u64>, Seq<char>>,
    fps: Result<Option<u64>, Seq<char>>,
    ndof: Result<Option<u64>, Seq<char>>,
    r: Result<DatasetHeader, Error>,
) -> bool {
    match (total_episodes, fps, ndof) {
        (Err(m), _, _) => r matches Err(e) && e@ == ErrorV::Backend(m),
        (_, Err(m), _) => r matches Err(e) && e@ == ErrorV::Backend(m),
        (_, _, Err(m)) => r matches Err(e) && e@ == ErrorV::Backend(m),
        (Ok(a), Ok(b), Ok(c)) => r matches Ok(h) && h.total_episodes == (match a {
            Some(n) => n as usize,
            None => 0,
        }) && h.fps == (match b {
            Some(n) => n as u32,
            None => 30,
        }) && h.ndof == (match c {
            Some(n) => n as usize,
            None => 0,
        }),
    }
}

fn small(n: Option<u64>) -> (r: Option<u32>)
    ensures
        r == (match n {
            Some(x) => Some(x as u32),
            None => None,
        }),
{
    match n {
        Some(x) => Some(#[verifier::truncate] (x as u32)),
        None => None,
    }
}

fn count(n: Option<u64>) -> (r: Option<usize>)
    ensures
        r == (match n {
            Some(x) => Some(x as usize),
            None => None,
        }),
{
    match n {
        Some(x) => Some(#[verifier::truncate] (x as usize)),
        None => None,
    }
}

/// Reads the header of a data set from the text of its `meta/info.json`.
pub fn parse_header(text: &str) -> (r: Result<DatasetHeader, Error>)
    ensures
        header_of(
            json_number(text@, "/total_episodes"@),
            json_number(text@, "/fps"@),
            json_item_number(text@, "/features/action/shape"@, 0),
            r,
        ),
{
    let total_episodes = match number_in(text, "/total_episodes") {
        Ok(n) => n,
        Err(m) => {
            return Err(Error::Backend(m));
        },
    };
    let fps = match number_in(text, "/fps") {
        Ok(n) => n,
        Err(m) => {
            return Err(Error::Backend(m));
        },
    };
    let ndof = match item_number_in(text, "/features/action/shape", 0) {
        Ok(n) => n,
        Err(m) => {
            return Err(Error::Backend(m));
        },
    };
    Ok(read_header(count(total_episodes), small(fps), count(ndof)))
}

/// Why frame `i` cannot be replayed.
pub open spec fn no_frame(i: nat) -> Seq<char> {
    "frame "@ + decimal(i) + " out of range"@
}

/// The command of frame `i`.
pub fn replay_target(ep: &Episode, i: usize) -> (r: Result<&Vec<Scalar>, Error>)
    ensures
        match r {
            Ok(a) => i < ep.actions@.len() && *a == ep.actions@[i as int],
            Err(e) => i >= ep.actions@.len() && e@ == ErrorV::Backend(no_frame(i as nat)),
        },
{
    if i < ep.actions.len() {
        return Ok(&ep.actions[i]);
    }
    let mut msg = chars_of("frame ");
    push_text(&mut msg, &decimal_text(i as u128));
    push_lit(&mut msg, " out of range");
    let text = string_of(&msg);
    Err(backend_error(text.as_str()))
}

/// Sends the command of frame `i` to a backend.
pub fn replay_frame<B: RobotBackend>(backend: &mut B, ep: &Episode, i: usize) -> (r: Result<
    (),
    Error,
>)
    ensures
        i >= ep.actions@.len() ==> (r matches Err(e) && e@ == ErrorV::Backend(
            no_frame(i as nat),
        )) && *final(backend) == *old(backend),
        i < ep.actions@.len() ==> exists|m: &mut B, q: &[Scalar]|
            *m == *old(backend) && *final(m) == *final(backend) && q@ == ep.actions@[i as int]@
                && #[trigger] call_ensures(B::command_joint_positions, (m, q), r),
{
    match replay_target(ep, i) {
        Ok(a) => backend.command_joint_positions(a.as_slice()),
        Err(e) => Err(e),
    }
}

// ---- laws ----

/// The frames of an episode are numbered on from those of the one before it.
pub proof fn law_frame_numbers_go_on(r: RecorderV, m: MetaV, buf: BufV, task: Seq<char>, k: int)
    requires
        r.index + m.length + buf.times.len() <= i64::MAX,
        r.index >= 0,
        0 <= k < buf.times.len(),
    ensures
        table_of(
            buf,
            r.spec.ndof as nat,
            with_episode(r, m).next,
            with_episode(r, m).index,
            task,
        ).index[k] == r.index + m.length + k,
{
}

proof fn lemma_task_at(tasks: Seq<Seq<char>>, task: Seq<char>, from: int)
    requires
        0 <= from,
    ensures
        task_at(tasks, task, from) matches Some(i) ==> from <= i < tasks.len() && tasks[i] == task,
    decreases tasks.len() - from,
{
    if from < tasks.len() && tasks[from] != task {
        lemma_task_at(tasks, task, from + 1);
    }
}

proof fn lemma_no_task(tasks: Seq<Seq<char>>, task: Seq<char>, from: int, i: int)
    requires
        0 <= from <= i < tasks.len(),
        task_at(tasks, task, from) is None,
    ensures
        tasks[i] != task,
    decreases tasks.len() - from,
{
    if tasks[from] != task && i > from {
        lemma_no_task(tasks, task, from + 1, i);
    }
}

/// A task has one number: opening an episode of a known task adds no task, and of a new
/// one adds it once.
pub proof fn law_tasks_are_listed_once(tasks: Seq<Seq<char>>, task: Seq<char>)
    requires
        forall|i: int, j: int|
            #![trigger tasks[i], tasks[j]]
            0 <= i < j < tasks.len() ==> tasks[i] != tasks[j],
    ensures
        ({
            let (after, at) = with_task(tasks, task);
            &&& 0 <= at < after.len()
            &&& after[at] == task
            &&& forall|i: int, j: int|
                #![trigger after[i], after[j]]
                0 <= i < j < after.len() ==> after[i] != after[j]
        }),
{
    lemma_task_at(tasks, task, 0);
    if task_at(tasks, task, 0) is None {
        let after = tasks.push(task);
        assert forall|i: int, j: int|
            #![trigger after[i], after[j]]
            0 <= i < j < after.len() implies after[i] != after[j] by {
            lemma_no_task(tasks, task, 0, i);
            if j < tasks.len() {
                assert(tasks[i] != tasks[j]);
            }
        }
    }
}

} // verus!
