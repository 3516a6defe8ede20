//! What lies outside the text: package directories and included files. An
//! expansion that needs one not yet known stops and names it.

use vstd::prelude::*;

use crate::text::{copy_text, same_text, string_of};
use crate::xacro::env::copy_opt;
#[allow(unused_imports)]
use crate::xacro::env::opt_text;
use crate::xacro::error::XacroError;
#[allow(unused_imports)]
use crate::xacro::error::Fault;

verus! {

/// One root of the package search, as found on disk. A path that is not valid
/// text is `None`.
pub struct SearchRoot {
    /// The directory of that name under the root.
    pub sub: Option<String>,
    pub sub_is_dir: bool,
    /// The root itself, and its last component.
    pub dir: Option<String>,
    pub name: Option<String>,
    pub is_dir: bool,
}

/// The search roots of a package, seen from a directory.
pub struct PackageReply {
    pub pkg: Vec<char>,
    pub dir: Option<Vec<char>>,
    pub roots: Vec<SearchRoot>,
}

/// The contents of a file and the directory it lies in, or why it cannot be read.
pub enum FileReply {
    Text { text: Vec<char>, dir: Option<Vec<char>> },
    Failed(Vec<char>),
}

/// What a file name led to, seen from a directory.
pub struct FileEntry {
    pub name: Vec<char>,
    pub dir: Option<Vec<char>>,
    pub reply: FileReply,
}

/// Everything known so far.
pub struct World {
    pub packages: Vec<PackageReply>,
    pub files: Vec<FileEntry>,
}

/// What an expansion must know before it can go on.
#[derive(Debug)]
pub enum Request {
    /// The search roots of `pkg`, seen from `dir`.
    Package { pkg: Vec<char>, dir: Option<Vec<char>> },
    /// The file `name`, relative to `dir`.
    File { name: Vec<char>, dir: Option<Vec<char>> },
}

/// Why an expansion stops early.
pub enum Halt {
    Fault(XacroError),
    Need(Request),
}

/// `Halt` over character sequences.
pub enum HaltV {
    Fault(Fault),
    NeedPackage { pkg: Seq<char>, dir: Option<Seq<char>> },
    NeedFile { name: Seq<char>, dir: Option<Seq<char>> },
}

/// `FileReply` over character sequences.
pub enum FileReplyV {
    Text { text: Seq<char>, dir: Option<Seq<char>> },
    Failed(Seq<char>),
}

/// `World` as two tables.
pub struct WorldV {
    pub packages: Map<(Seq<char>, Option<Seq<char>>), Seq<SearchRoot>>,
    pub files: Map<(Seq<char>, Option<Seq<char>>), FileReplyV>,
}

pub open spec fn request_view(r: Request) -> HaltV {
    match r {
        Request::Package { pkg, dir } => HaltV::NeedPackage { pkg: pkg@, dir: opt_text(dir) },
        Request::File { name, dir } => HaltV::NeedFile { name: name@, dir: opt_text(dir) },
    }
}

impl View for Halt {
    type V = HaltV;

    open spec fn view(&self) -> HaltV {
        match *self {
            Halt::Fault(e) => HaltV::Fault(e@),
            Halt::Need(r) => request_view(r),
        }
    }
}

pub open spec fn reply_view(r: FileReply) -> FileReplyV {
    match r {
        FileReply::Text { text, dir } => FileReplyV::Text { text: text@, dir: opt_text(dir) },
        FileReply::Failed(m) => FileReplyV::Failed(m@),
    }
}

pub open spec fn packages_view(s: Seq<PackageReply>) -> Map<
    (Seq<char>, Option<Seq<char>>),
    Seq<SearchRoot>,
>
    decreases s.len(),
{
    if s.len() == 0 {
        Map::empty()
    } else {
        packages_view(s.drop_last()).insert(
            (s.last().pkg@, opt_text(s.last().dir)),
            s.last().roots@,
        )
    }
}

pub open spec fn files_view(s: Seq<FileEntry>) -> Map<(Seq<char>, Option<Seq<char>>), FileReplyV>
    decreases s.len(),
{
    if s.len() == 0 {
        Map::empty()
    } else {
        files_view(s.drop_last()).insert(
            (s.last().name@, opt_text(s.last().dir)),
            reply_view(s.last().reply),
        )
    }
}

impl View for World {
    type V = WorldV;

    open spec fn view(&self) -> WorldV {
        WorldV { packages: packages_view(self.packages@), files: files_view(self.files@) }
    }
}

pub open spec fn opt_string(s: Option<String>) -> Option<Seq<char>> {
    match s {
        Some(t) => Some(t@),
        None => None,
    }
}

/// Whether a root holds the package: a directory of its name, or the root itself.
pub open spec fn root_holds(pkg: Seq<char>, r: SearchRoot) -> bool {
    r.sub_is_dir || (opt_string(r.name) == Some(pkg) && r.is_dir)
}

/// The directory of the package under that root.
pub open spec fn root_path(pkg: Seq<char>, r: SearchRoot) -> Option<Seq<char>> {
    if r.sub_is_dir {
        opt_string(r.sub)
    } else {
        opt_string(r.dir)
    }
}

/// The first root that holds the package decides; `None` when none does or its
/// path is not valid text.
pub open spec fn package_path(pkg: Seq<char>, roots: Seq<SearchRoot>) -> Option<Seq<char>>
    decreases roots.len(),
{
    if roots.len() == 0 {
        None
    } else if root_holds(pkg, roots[0]) {
        root_path(pkg, roots[0])
    } else {
        package_path(pkg, roots.subrange(1, roots.len() as int))
    }
}

fn same_opt(a: &Option<Vec<char>>, b: &Option<Vec<char>>) -> (r: bool)
    ensures
        r == (opt_text(*a) == opt_text(*b)),
{
    match (a, b) {
        (Some(x), Some(y)) => same_text(x, y),
        (None, None) => true,
        _ => false,
    }
}

fn copy_opt_string(s: &Option<String>) -> (r: Option<Vec<char>>)
    ensures
        opt_text(r) == opt_string(*s),
{
    match s {
        Some(t) => Some(crate::text::chars_of(t.as_str())),
        None => None,
    }
}

/// The directory of a package, from what the search found.
pub fn resolve_package_dir(pkg: &Vec<char>, roots: &Vec<SearchRoot>) -> (r: Option<Vec<char>>)
    ensures
        opt_text(r) == package_path(pkg@, roots@),
{
    let mut i: usize = 0;
    assert(roots@.subrange(0, roots@.len() as int) =~= roots@);
    while i < roots.len()
        invariant
            i <= roots.len(),
            package_path(pkg@, roots@) == package_path(
                pkg@,
                roots@.subrange(i as int, roots@.len() as int),
            ),
        decreases roots.len() - i,
    {
        let ghost rest = roots@.subrange(i as int, roots@.len() as int);
        assert(rest[0] == roots@[i as int]);
        assert(rest.subrange(1, rest.len() as int) =~= roots@.subrange(
            i + 1,
            roots@.len() as int,
        ));
        let root = &roots[i];
        if root.sub_is_dir {
            return copy_opt_string(&root.sub);
        }
        let named = match &root.name {
            Some(n) => crate::text::is_text(pkg, n.as_str()),
            None => false,
        };
        if named && root.is_dir {
            return copy_opt_string(&root.dir);
        }
        i = i + 1;
    }
    None
}

/// The last reply on a package.
pub fn find_package<'a>(
    w: &'a World,
    pkg: &Vec<char>,
    dir: &Option<Vec<char>>,
) -> (r: Option<&'a Vec<SearchRoot>>)
    ensures
        match r {
            Some(v) => w@.packages.dom().contains((pkg@, opt_text(*dir))) && w@.packages[(
                pkg@,
                opt_text(*dir),
            )] == v@,
            None => !w@.packages.dom().contains((pkg@, opt_text(*dir))),
        },
{
    let ghost key = (pkg@, opt_text(*dir));
    let mut i: usize = w.packages.len();
    assert(w.packages@.take(i as int) =~= w.packages@);
    while i > 0
        invariant
            i <= w.packages.len(),
            key == (pkg@, opt_text(*dir)),
            w@.packages.dom().contains(key) == packages_view(
                w.packages@.take(i as int),
            ).dom().contains(key),
            w@.packages.dom().contains(key) ==> w@.packages[key] == packages_view(
                w.packages@.take(i as int),
            )[key],
        decreases i,
    {
        i = i - 1;
        assert(w.packages@.take(i + 1).drop_last() =~= w.packages@.take(i as int));
        assert(w.packages@.take(i + 1).last() == w.packages@[i as int]);
        if same_text(&w.packages[i].pkg, pkg) && same_opt(&w.packages[i].dir, dir) {
            return Some(&w.packages[i].roots);
        }
    }
    None
}

/// The last reply on a file.
pub fn find_file<'a>(w: &'a World, name: &Vec<char>, dir: &Option<Vec<char>>) -> (r: Option<
    &'a FileReply,
>)
    ensures
        match r {
            Some(v) => w@.files.dom().contains((name@, opt_text(*dir))) && w@.files[(
                name@,
                opt_text(*dir),
            )] == reply_view(*v),
            None => !w@.files.dom().contains((name@, opt_text(*dir))),
        },
{
    let ghost key = (name@, opt_text(*dir));
    let mut i: usize = w.files.len();
    assert(w.files@.take(i as int) =~= w.files@);
    while i > 0
        invariant
            i <= w.files.len(),
            key == (name@, opt_text(*dir)),
            w@.files.dom().contains(key) == files_view(w.files@.take(i as int)).dom().contains(key),
            w@.files.dom().contains(key) ==> w@.files[key] == files_view(w.files@.take(i as int))[key],
        decreases i,
    {
        i = i - 1;
        assert(w.files@.take(i + 1).drop_last() =~= w.files@.take(i as int));
        assert(w.files@.take(i + 1).last() == w.files@[i as int]);
        if same_text(&w.files[i].name, name) && same_opt(&w.files[i].dir, dir) {
            return Some(&w.files[i].reply);
        }
    }
    None
}

/// The directory that `$(find pkg)` stands for.
pub open spec fn find_text_value(
    pkg: Seq<char>,
    dir: Option<Seq<char>>,
    w: WorldV,
) -> Result<Seq<char>, HaltV> {
    if !w.packages.dom().contains((pkg, dir)) {
        Err(HaltV::NeedPackage { pkg, dir })
    } else {
        match package_path(pkg, w.packages[(pkg, dir)]) {
            Some(p) => Ok(p),
            None => Err(HaltV::Fault(Fault::FindPackage(pkg))),
        }
    }
}

pub fn find_package_text(pkg: &Vec<char>, dir: &Option<Vec<char>>, w: &World) -> (r: Result<
    Vec<char>,
    Halt,
>)
    ensures
        match r {
            Ok(t) => find_text_value(pkg@, opt_text(*dir), w@) == Ok::<Seq<char>, HaltV>(t@),
            Err(h) => find_text_value(pkg@, opt_text(*dir), w@) == Err::<Seq<char>, HaltV>(h@),
        },
{
    match find_package(w, pkg, dir) {
        None => Err(Halt::Need(Request::Package { pkg: copy_text(pkg), dir: copy_opt(dir) })),
        Some(roots) => match resolve_package_dir(pkg, roots) {
            Some(p) => Ok(p),
            None => Err(Halt::Fault(XacroError::FindPackage(string_of(pkg)))),
        },
    }
}

} // verus!
