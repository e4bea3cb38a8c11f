//! The state of one volume scan: the directories and `.exe` files read from
//! the master file table, and the reconstruction of each file's full path.
use vstd::prelude::*;
use rustc_hash::FxHashMap;
use crate::wide::{WideString, WideError, max_wide_len};
use crate::hstring_utils::{trim_end, combine_hstring_paths, replace, replace_all};
use crate::usn::{UsnBatch, UsnRecordView, record_views, FILE_ATTRIBUTE_DIRECTORY};

verus! {

/// A file kept by the scan: its name and the reference of its directory.
#[derive(Debug)]
pub struct MiniFile {
    pub name: WideString,
    pub parent: u64,
}

/// A directory kept by the scan. `full_name` is its full path once known.
#[derive(Debug)]
pub struct MiniDir {
    pub name: WideString,
    pub full_name: Option<WideString>,
    pub parent: u64,
}

/// What a [`MiniFile`] stands for.
pub struct MiniFileView {
    pub name: Seq<u16>,
    pub parent: u64,
}

/// What a [`MiniDir`] stands for.
pub struct MiniDirView {
    pub name: Seq<u16>,
    pub full_name: Option<Seq<u16>>,
    pub parent: u64,
}

impl View for MiniFile {
    type V = MiniFileView;

    open spec fn view(&self) -> MiniFileView {
        MiniFileView { name: self.name@, parent: self.parent }
    }
}

/// The view of an optional string.
pub open spec fn opt_view(o: Option<WideString>) -> Option<Seq<u16>> {
    match o {
        Some(s) => Some(s@),
        None => None,
    }
}

impl View for MiniDir {
    type V = MiniDirView;

    open spec fn view(&self) -> MiniDirView {
        MiniDirView { name: self.name@, full_name: opt_view(self.full_name), parent: self.parent }
    }
}

/// The directories of a volume, keyed by file reference number, held in an
/// `FxHashMap` (a standard hash map with the Fx hasher).
#[verifier::external_body]
pub struct DirTable {
    map: FxHashMap<u64, MiniDir>,
}

/// What a [`DirTable`] holds.
pub uninterp spec fn dir_table_contents(t: DirTable) -> Map<u64, MiniDirView>;

impl DirTable {
    /// `FxHashMap::default`: an empty map.
    #[verifier::external_body]
    pub(crate) fn new() -> (table: DirTable)
        ensures
            dir_table_contents(table) =~= Map::empty(),
    {
        DirTable { map: FxHashMap::default() }
    }

    /// `HashMap::insert`: maps `key` to `dir`, handing back the directory it
    /// mapped to before, if any.
    #[verifier::external_body]
    pub(crate) fn insert(&mut self, key: u64, dir: MiniDir) -> (prev: Option<MiniDir>)
        ensures
            dir_table_contents(*final(self)) == dir_table_contents(*old(self)).insert(key, dir@),
            match prev {
                Some(d) => dir_table_contents(*old(self)).contains_key(key) && d@
                    == dir_table_contents(*old(self))[key],
                None => !dir_table_contents(*old(self)).contains_key(key),
            },
    {
        self.map.insert(key, dir)
    }

    /// `HashMap::get`: the directory that `key` maps to, if any.
    #[verifier::external_body]
    pub(crate) fn get(&self, key: u64) -> (r: Option<&MiniDir>)
        ensures
            match r {
                Some(d) => dir_table_contents(*self).contains_key(key) && d@
                    == dir_table_contents(*self)[key],
                None => !dir_table_contents(*self).contains_key(key),
            },
    {
        self.map.get(&key)
    }

    /// `HashMap::len`: the number of keys.
    #[verifier::external_body]
    pub(crate) fn len(&self) -> (n: usize)
        ensures
            n == dir_table_contents(*self).dom().len(),
    {
        self.map.len()
    }
}

/// The UTF-16 units of `.exe`.
pub open spec fn exe_suffix() -> Seq<u16> {
    seq![46u16, 101u16, 120u16, 101u16]
}

/// The UTF-16 unit of a backslash.
pub const BACKSLASH_UTF16: u16 = 92;

/// Whether a name ends in `.exe` (case-sensitive).
pub open spec fn is_exe_name(name: Seq<u16>) -> bool {
    name.len() >= 4 && name.subrange(name.len() - 4, name.len() as int) == exe_suffix()
}

/// Whether the file attributes mark a directory.
pub open spec fn is_directory(attributes: u32) -> bool {
    attributes & FILE_ATTRIBUTE_DIRECTORY != 0
}

/// The directory table after taking in `recs` in order: each directory
/// record maps its reference to a directory with no full path yet, later
/// records overriding earlier ones.
pub open spec fn ingest_dirs(dirs: Map<u64, MiniDirView>, recs: Seq<UsnRecordView>) -> Map<
    u64,
    MiniDirView,
>
    decreases recs.len(),
{
    if recs.len() == 0 {
        dirs
    } else {
        let d = ingest_dirs(dirs, recs.drop_last());
        let r = recs.last();
        if is_directory(r.attributes) {
            d.insert(r.reference, MiniDirView { name: r.name, full_name: None, parent: r.parent })
        } else {
            d
        }
    }
}

/// The files of `recs` that are not directories and whose name ends in
/// `.exe`, in order.
pub open spec fn ingest_exes(recs: Seq<UsnRecordView>) -> Seq<MiniFileView>
    decreases recs.len(),
{
    if recs.len() == 0 {
        Seq::empty()
    } else {
        let e = ingest_exes(recs.drop_last());
        let r = recs.last();
        if !is_directory(r.attributes) && is_exe_name(r.name) {
            e.push(MiniFileView { name: r.name, parent: r.parent })
        } else {
            e
        }
    }
}

/// Whether the scan keeps a record as an `.exe` file: it is not a directory
/// and its name ends in `.exe`.
pub open spec fn is_exe_record(r: UsnRecordView) -> bool {
    !is_directory(r.attributes) && is_exe_name(r.name)
}

/// The file kept for a record.
pub open spec fn exe_of(r: UsnRecordView) -> MiniFileView {
    MiniFileView { name: r.name, parent: r.parent }
}

/// Every record that is an `.exe` file is kept, once, in buffer order, with
/// its name and parent, whatever the other records are: the files taken
/// from a buffer are exactly its `.exe` records.
pub proof fn lemma_ingest_keeps_every_exe(recs: Seq<UsnRecordView>)
    ensures
        ingest_exes(recs) == recs.filter(|r: UsnRecordView| is_exe_record(r)).map_values(
            |r: UsnRecordView| exe_of(r),
        ),
        ingest_exes(recs).len() == recs.filter(|r: UsnRecordView| is_exe_record(r)).len(),
        forall|i: int|
            0 <= i < recs.len() && is_exe_record(#[trigger] recs[i]) ==> ingest_exes(recs).contains(
                exe_of(recs[i]),
            ),
    decreases recs.len(),
{
    let keep = |r: UsnRecordView| is_exe_record(r);
    let view = |r: UsnRecordView| exe_of(r);
    if recs.len() > 0 {
        let init = recs.drop_last();
        lemma_ingest_keeps_every_exe(init);
        let fi = init.filter(keep);
        reveal(Seq::filter);
        assert(recs.filter(keep) == if keep(recs.last()) {
            fi.push(recs.last())
        } else {
            fi
        });
        if keep(recs.last()) {
            assert(fi.push(recs.last()).map_values(view) =~= fi.map_values(view).push(
                view(recs.last()),
            ));
        }
        assert forall|i: int|
            0 <= i < recs.len() && is_exe_record(#[trigger] recs[i]) implies ingest_exes(
                recs,
            ).contains(exe_of(recs[i])) by {
            if i < recs.len() - 1 {
                assert(init[i] == recs[i]);
                let j = choose|j: int| 0 <= j < ingest_exes(init).len() && ingest_exes(init)[j]
                    == exe_of(init[i]);
                if keep(recs.last()) {
                    assert(ingest_exes(recs)[j] == exe_of(recs[i]));
                } else {
                    assert(ingest_exes(recs)[j] == exe_of(recs[i]));
                }
            } else {
                assert(ingest_exes(recs).last() == exe_of(recs[i]));
                assert(ingest_exes(recs)[ingest_exes(recs).len() - 1] == exe_of(recs[i]));
            }
        }
    }
}

/// The outcome of rebuilding a path.
pub enum PathOutcome {
    /// The full path.
    Known(Seq<u16>),
    /// The walk up the directories reached a reference the table does not hold.
    Unknown(u64),
    /// The walk up the directories passed more directories without a full
    /// path than the table holds (which only a cycle allows).
    Cyclic,
    /// The joined path does not fit in a `WideString`.
    TooLong,
}

/// `parent`, a backslash and `name` joined as `combine_hstring_paths` joins them.
pub open spec fn join_path(parent: Seq<u16>, name: Seq<u16>) -> PathOutcome {
    if parent.len() + 1 + name.len() <= max_wide_len() {
        PathOutcome::Known(trim_end(parent + seq![BACKSLASH_UTF16] + name, 0))
    } else {
        PathOutcome::TooLong
    }
}

/// Joins `name` onto a known outcome and passes any other outcome on.
pub open spec fn then_join(o: PathOutcome, name: Seq<u16>) -> PathOutcome {
    match o {
        PathOutcome::Known(p) => join_path(p, name),
        _ => o,
    }
}

/// The full path of directory `id`, walking up at most `fuel` directories
/// whose full path is not yet known.
pub open spec fn dir_path(dirs: Map<u64, MiniDirView>, id: u64, fuel: nat) -> PathOutcome
    decreases fuel,
{
    if !dirs.contains_key(id) {
        PathOutcome::Unknown(id)
    } else {
        match dirs[id].full_name {
            Some(p) => PathOutcome::Known(p),
            None => if fuel == 0 {
                PathOutcome::Cyclic
            } else {
                then_join(dir_path(dirs, dirs[id].parent, (fuel - 1) as nat), dirs[id].name)
            },
        }
    }
}

/// The full path of file `f`: the path of its directory, a backslash and its name.
pub open spec fn file_path(dirs: Map<u64, MiniDirView>, f: MiniFileView) -> PathOutcome {
    then_join(dir_path(dirs, f.parent, dirs.dom().len()), f.name)
}

/// The path of a known outcome.
pub open spec fn known_path(o: PathOutcome) -> Seq<u16> {
    match o {
        PathOutcome::Known(p) => p,
        _ => Seq::empty(),
    }
}

/// `new` is `old` with the full path of some directories filled in with the
/// path that `old` gives them.
pub open spec fn memoized(old: Map<u64, MiniDirView>, new: Map<u64, MiniDirView>) -> bool {
    &&& new.dom() == old.dom()
    &&& forall|id: u64|
        #![trigger new[id]]
        old.contains_key(id) ==> (new[id] == old[id] || {
            &&& old[id].full_name is None
            &&& dir_path(old, id, old.dom().len()) is Known
            &&& new[id] == MiniDirView {
                full_name: Some(known_path(dir_path(old, id, old.dom().len()))),
                ..old[id]
            }
        })
}

/// `clean_path` on a view: the `\\?\` long-path prefix removed everywhere,
/// then every doubled backslash made single.
pub open spec fn clean_path_view(p: Seq<u16>) -> Seq<u16> {
    replace_all(
        replace_all(p, seq![92u16, 92u16, 63u16, 92u16], Seq::empty()),
        seq![92u16, 92u16],
        seq![92u16],
    )
}

proof fn lemma_replace_shrinks(s: Seq<u16>, from: Seq<u16>, to: Seq<u16>)
    requires
        to.len() <= from.len(),
    ensures
        replace_all(s, from, to).len() <= s.len(),
    decreases s.len(),
{
    if from.len() == 0 || s.len() < from.len() {
    } else if s.subrange(0, from.len() as int) == from {
        lemma_replace_shrinks(s.subrange(from.len() as int, s.len() as int), from, to);
    } else {
        lemma_replace_shrinks(s.subrange(1, s.len() as int), from, to);
    }
}

/// Strips the `\\?\` long-path prefix and makes doubled backslashes single.
/// Never fails: the result is never longer than the input.
pub fn clean_path(path: WideString) -> (r: Result<WideString, WideError>)
    ensures
        r matches Ok(s) && s@ == clean_path_view(path@),
{
    proof {
        reveal_strlit("\\\\?\\");
        crate::wide::lemma_encode_utf16_len("\\\\?\\"@);
        reveal_strlit("\\\\");
        crate::wide::lemma_encode_utf16_len("\\\\"@);
        reveal_strlit("\\");
        crate::wide::lemma_encode_utf16_len("\\"@);
    }
    let prefix = WideString::from_str("\\\\?\\");
    let double = WideString::from_str("\\\\");
    let single = WideString::from_str("\\");
    proof {
        reveal_with_fuel(crate::wide::encode_utf16, 5);
        let p = "\\\\?\\"@;
        assert(p.drop_last().drop_last().drop_last().drop_last() =~= Seq::<char>::empty());
        assert(p.drop_last().drop_last().drop_last() =~= seq![p[0]]);
        assert(p.drop_last().drop_last() =~= seq![p[0], p[1]]);
        assert(p.drop_last() =~= seq![p[0], p[1], p[2]]);
        let d = "\\\\"@;
        assert(d.drop_last().drop_last() =~= Seq::<char>::empty());
        assert(d.drop_last() =~= seq![d[0]]);
        assert(prefix@ == seq![92u16, 92u16, 63u16, 92u16]);
        assert(double@ == seq![92u16, 92u16]);
        assert(single@ == seq![92u16]);
        lemma_replace_shrinks(path@, prefix@, Seq::empty());
        lemma_replace_shrinks(replace_all(path@, prefix@, Seq::empty()), double@, single@);
    }
    let len = path.len();
    assert(len <= max_wide_len());
    let stripped = replace(path, prefix, WideString::new());
    match stripped {
        Ok(s) => replace(s, double, single),
        Err(e) => Err(e),
    }
}


/// The outcome `base` with `names` joined on, the last name first: the path
/// of the directory that a chain of directories named `names` leads up from.
pub open spec fn unwind(base: PathOutcome, names: Seq<Seq<u16>>) -> PathOutcome
    decreases names.len(),
{
    if names.len() == 0 {
        base
    } else {
        then_join(unwind(base, names.drop_first()), names[0])
    }
}

proof fn lemma_unwind_push(b: PathOutcome, s: Seq<Seq<u16>>, n: Seq<u16>)
    ensures
        unwind(then_join(b, n), s) == unwind(b, s.push(n)),
    decreases s.len(),
{
    if s.len() == 0 {
        assert(s.push(n).drop_first() =~= Seq::<Seq<u16>>::empty());
        assert(s.push(n)[0] == n);
        assert(unwind(b, s.push(n).drop_first()) == b);
    } else {
        lemma_unwind_push(b, s.drop_first(), n);
        assert(s.push(n).drop_first() =~= s.drop_first().push(n));
        assert(s.push(n)[0] == s[0]);
    }
}

proof fn lemma_unwind_not_known(b: PathOutcome, s: Seq<Seq<u16>>)
    requires
        !(b is Known),
    ensures
        unwind(b, s) == b,
    decreases s.len(),
{
    if s.len() > 0 {
        lemma_unwind_not_known(b, s.drop_first());
    }
}

proof fn lemma_unwind_split(b: PathOutcome, s: Seq<Seq<u16>>, j: int)
    requires
        0 <= j <= s.len(),
    ensures
        unwind(b, s) == unwind(unwind(b, s.subrange(j, s.len() as int)), s.subrange(0, j)),
    decreases j,
{
    if j == 0 {
        assert(s.subrange(j, s.len() as int) =~= s);
    } else {
        lemma_unwind_split(b, s.drop_first(), j - 1);
        assert(s.drop_first().subrange(j - 1, s.drop_first().len() as int) =~= s.subrange(
            j,
            s.len() as int,
        ));
        assert(s.subrange(0, j).drop_first() =~= s.drop_first().subrange(0, j - 1));
        assert(s.subrange(0, j)[0] == s[0]);
    }
}

/// A path that is not cyclic for some fuel stays the same with more fuel.
pub(crate) proof fn lemma_dir_path_fuel(dirs: Map<u64, MiniDirView>, id: u64, f1: nat, f2: nat)
    requires
        f1 <= f2,
        !(dir_path(dirs, id, f1) is Cyclic),
    ensures
        dir_path(dirs, id, f2) == dir_path(dirs, id, f1),
    decreases f1,
{
    if dirs.contains_key(id) && dirs[id].full_name is None {
        let p = dirs[id].parent;
        if !(dir_path(dirs, p, (f1 - 1) as nat) is Cyclic) {
            lemma_dir_path_fuel(dirs, p, (f1 - 1) as nat, (f2 - 1) as nat);
        }
    }
}

pub(crate) proof fn lemma_memo_dir_path(
    old: Map<u64, MiniDirView>,
    new: Map<u64, MiniDirView>,
    id: u64,
    f: nat,
)
    requires
        memoized(old, new),
        !(dir_path(old, id, f) is Cyclic),
    ensures
        dir_path(new, id, f) == dir_path(old, id, f),
    decreases f,
{
    if old.contains_key(id) {
        let _ = new[id];
        if new[id] != old[id] {
            let big = old.dom().len();
            if f <= big {
                lemma_dir_path_fuel(old, id, f, big);
            } else {
                lemma_dir_path_fuel(old, id, big, f);
            }
        } else if old[id].full_name is None && f > 0 {
            let p = old[id].parent;
            if !(dir_path(old, p, (f - 1) as nat) is Cyclic) {
                lemma_memo_dir_path(old, new, p, (f - 1) as nat);
            }
        }
    }
}

/// Filling in the full path of directories, as `VolumeScan::resolve` does,
/// never changes the path rebuilt for any file whose path did not go round
/// a cycle.
pub proof fn lemma_memoized_file_path(
    old: Map<u64, MiniDirView>,
    new: Map<u64, MiniDirView>,
    f: MiniFileView,
)
    requires
        memoized(old, new),
        !(file_path(old, f) is Cyclic),
    ensures
        file_path(new, f) == file_path(old, f),
{
    let fuel = old.dom().len();
    assert(new.dom().len() == fuel);
    if !(dir_path(old, f.parent, fuel) is Cyclic) {
        lemma_memo_dir_path(old, new, f.parent, fuel);
    }
}

/// The directory `k` steps up from `id`.
pub open spec fn ancestor(dirs: Map<u64, MiniDirView>, id: u64, k: nat) -> u64
    decreases k,
{
    if k == 0 {
        id
    } else {
        ancestor(dirs, dirs[id].parent, (k - 1) as nat)
    }
}

pub(crate) proof fn lemma_ancestor_step(dirs: Map<u64, MiniDirView>, id: u64, k: nat)
    ensures
        ancestor(dirs, id, k + 1) == dirs[ancestor(dirs, id, k)].parent,
    decreases k,
{
    let p = dirs[id].parent;
    if k > 0 {
        lemma_ancestor_step(dirs, p, (k - 1) as nat);
        assert(ancestor(dirs, id, k) == ancestor(dirs, p, (k - 1) as nat));
        assert(ancestor(dirs, id, k + 1) == ancestor(dirs, p, k));
    } else {
        assert(ancestor(dirs, p, 0) == p);
        assert(ancestor(dirs, id, 1) == ancestor(dirs, p, 0));
    }
}

/// How many directories without a full path the walk up from `id` passes,
/// counting at most `fuel`, before it reaches a directory whose full path is
/// known or a reference the table does not hold.
pub open spec fn unknown_run(dirs: Map<u64, MiniDirView>, id: u64, fuel: nat) -> nat
    decreases fuel,
{
    if dirs.contains_key(id) && dirs[id].full_name is None && fuel > 0 {
        1 + unknown_run(dirs, dirs[id].parent, (fuel - 1) as nat)
    } else {
        0
    }
}

/// Directory `id` of `dirs` with its full path filled in from `dirs`.
pub open spec fn filled(dirs: Map<u64, MiniDirView>, id: u64) -> MiniDirView {
    MiniDirView { full_name: Some(known_path(dir_path(dirs, id, dirs.dom().len()))), ..dirs[id] }
}

/// Whether `id` is one of the first `n` directories up from `start`.
pub open spec fn among_first(dirs: Map<u64, MiniDirView>, start: u64, n: nat, id: u64) -> bool {
    exists|k: nat| k < n && #[trigger] ancestor(dirs, start, k) == id
}

/// `new` is `old` with the full path filled in for exactly those directories
/// passed on the walk up from `start` (the ones without a full path) whose
/// own path comes out known.
pub open spec fn filled_up_from(
    old: Map<u64, MiniDirView>,
    new: Map<u64, MiniDirView>,
    start: u64,
) -> bool {
    &&& new.dom() == old.dom()
    &&& forall|id: u64|
        #![trigger new[id]]
        old.contains_key(id) ==> new[id] == if among_first(
            old,
            start,
            unknown_run(old, start, old.dom().len()),
            id,
        ) && dir_path(old, id, old.dom().len()) is Known {
            filled(old, id)
        } else {
            old[id]
        }
}

pub(crate) proof fn lemma_cyclic_walk(dirs: Map<u64, MiniDirView>, id: u64, f: nat, k: nat)
    requires
        dir_path(dirs, id, f) is Cyclic,
        k <= f,
    ensures
        dirs.contains_key(ancestor(dirs, id, k)),
        dirs[ancestor(dirs, id, k)].full_name is None,
    decreases f,
{
    if k > 0 {
        let p = dirs[id].parent;
        let up = dir_path(dirs, p, (f - 1) as nat);
        if up is Known {
            assert(!(join_path(known_path(up), dirs[id].name) is Cyclic));
        }
        lemma_cyclic_walk(dirs, p, (f - 1) as nat, (k - 1) as nat);
    }
}

/// A walk that comes out cyclic really goes round a cycle: among the first
/// steps up from the directory, one directory comes back.
pub proof fn lemma_cyclic_means_cycle(dirs: Map<u64, MiniDirView>, id: u64)
    requires
        dirs.dom().finite(),
        dir_path(dirs, id, dirs.dom().len()) is Cyclic,
    ensures
        exists|i: nat, j: nat|
            i < j <= dirs.dom().len() && #[trigger] ancestor(dirs, id, i) == #[trigger] ancestor(
                dirs,
                id,
                j,
            ),
{
    let n = dirs.dom().len();
    let walk = Seq::new(n + 1, |k: int| ancestor(dirs, id, k as nat));
    assert forall|k: int| 0 <= k < walk.len() implies dirs.dom().contains(#[trigger] walk[k]) by {
        lemma_cyclic_walk(dirs, id, n, k as nat);
    }
    if walk.no_duplicates() {
        walk.unique_seq_to_set();
        assert(walk.to_set().subset_of(dirs.dom()));
        vstd::set_lib::lemma_len_subset(walk.to_set(), dirs.dom());
        assert(false);
    } else {
        let (a, b) = choose|a: int, b: int|
            0 <= a < walk.len() && 0 <= b < walk.len() && a != b && walk[a] == walk[b];
        if a < b {
            assert(ancestor(dirs, id, a as nat) == ancestor(dirs, id, b as nat));
        } else {
            assert(ancestor(dirs, id, b as nat) == ancestor(dirs, id, a as nat));
        }
    }
}

/// The end of a walk up the directory table.
#[derive(Debug)]
enum WalkEnd {
    /// A directory whose full path is known, with that path.
    Base(WideString),
    /// A reference the table does not hold.
    Missing(u64),
    /// More directories than the table holds.
    Cyclic,
}

/// The outcome that the end of a walk stands for.
spec fn walk_end_outcome(e: WalkEnd) -> PathOutcome {
    match e {
        WalkEnd::Base(b) => PathOutcome::Known(b@),
        WalkEnd::Missing(id) => PathOutcome::Unknown(id),
        WalkEnd::Cyclic => PathOutcome::Cyclic,
    }
}

/// The views of a list of strings.
pub open spec fn wide_views(v: Seq<WideString>) -> Seq<Seq<u16>> {
    v.map_values(|w: WideString| w@)
}

/// The views of a list of files.
pub open spec fn file_views(v: Seq<MiniFile>) -> Seq<MiniFileView> {
    v.map_values(|f: MiniFile| f@)
}

/// The directories passed on a walk up from a directory, nearest first,
/// with how the walk ended.
#[derive(Debug)]
struct Walk {
    ids: Vec<u64>,
    names: Vec<WideString>,
    parents: Vec<u64>,
    end: WalkEnd,
}

/// How a file's path came out.
#[derive(Debug)]
pub enum Resolution {
    /// The full path, cleaned by `clean_path`.
    Path(WideString),
    /// The path does not fit in a `WideString`.
    TooLong,
    /// The walk up the directories reached this reference, which the table
    /// does not hold: its path must be looked up on the volume and handed to
    /// `add_known_dir` before trying again.
    NeedPath(u64),
    /// The directories above the file form a cycle: walking up from it, a
    /// directory comes back before any full path is known.
    Cyclic,
}

/// The state of the scan of one volume.
pub struct VolumeScan {
    exes: Vec<MiniFile>,
    dirs: DirTable,
}

impl VolumeScan {
    #[verifier::type_invariant]
    pub(crate) open spec fn inv(self) -> bool {
        self.dirs_view().dom().finite()
    }

    /// The `.exe` files found so far, in the order found.
    pub closed spec fn exes_view(&self) -> Seq<MiniFileView> {
        file_views(self.exes@)
    }

    /// The directories found so far.
    pub closed spec fn dirs_view(&self) -> Map<u64, MiniDirView> {
        dir_table_contents(self.dirs)
    }

    /// A scan that has found nothing.
    pub fn new() -> (s: Self)
        ensures
            s.exes_view() == Seq::<MiniFileView>::empty(),
            s.dirs_view() == Map::<u64, MiniDirView>::empty(),
    {
        let s = VolumeScan { exes: Vec::new(), dirs: DirTable::new() };
        assert(file_views(s.exes@) =~= Seq::<MiniFileView>::empty());
        s
    }

    /// Takes in the records of one enumeration buffer: each directory is
    /// entered in the table under its reference, and each other file whose
    /// name ends in `.exe` is added to the list.
    pub fn ingest(&mut self, batch: &UsnBatch)
        ensures
            final(self).dirs_view() == ingest_dirs(old(self).dirs_view(), record_views(batch.records@)),
            final(self).exes_view() == old(self).exes_view() + ingest_exes(record_views(batch.records@)),
            final(self).exes_view() == old(self).exes_view() + record_views(batch.records@).filter(
                |r: UsnRecordView| is_exe_record(r),
            ).map_values(|r: UsnRecordView| exe_of(r)),
    {
        proof {
            use_type_invariant(&*self);
        }
        let ghost rv = record_views(batch.records@);
        let ghost d0 = self.dirs_view();
        let ghost e0 = self.exes_view();
        let mut dirs = DirTable::new();
        std::mem::swap(&mut dirs, &mut self.dirs);
        let mut exes: Vec<MiniFile> = Vec::new();
        std::mem::swap(&mut exes, &mut self.exes);
        let mut i: usize = 0;
        assert(rv.subrange(0, 0) =~= Seq::<UsnRecordView>::empty());
        assert(e0 + Seq::<MiniFileView>::empty() =~= e0);
        while i < batch.records.len()
            invariant
                rv == record_views(batch.records@),
                i <= batch.records@.len(),
                d0.dom().finite(),
                dir_table_contents(dirs).dom().finite(),
                dir_table_contents(dirs) == ingest_dirs(d0, rv.subrange(0, i as int)),
                file_views(exes@) == e0 + ingest_exes(rv.subrange(0, i as int)),
            decreases batch.records@.len() - i,
        {
            let r = &batch.records[i];
            let ghost sub = rv.subrange(0, i + 1);
            assert(sub.drop_last() =~= rv.subrange(0, i as int));
            assert(sub.last() == r@);
            if r.attributes & FILE_ATTRIBUTE_DIRECTORY != 0 {
                let dir = MiniDir { name: r.name.duplicate(), full_name: None, parent: r.parent };
                let _prev = dirs.insert(r.reference, dir);
            } else if ends_with_exe(r.name.as_wide()) {
                let ghost before = exes@;
                exes.push(MiniFile { name: r.name.duplicate(), parent: r.parent });
                assert(file_views(exes@) =~= file_views(before).push(exes@.last()@));
            }
            i = i + 1;
        }
        assert(rv.subrange(0, i as int) =~= rv);
        proof {
            lemma_ingest_keeps_every_exe(rv);
        }
        self.dirs = dirs;
        self.exes = exes;
    }

    /// Hands over the `.exe` files found, leaving the list empty.
    pub fn take_exes(&mut self) -> (exes: Vec<MiniFile>)
        ensures
            file_views(exes@) == old(self).exes_view(),
            final(self).exes_view() == Seq::<MiniFileView>::empty(),
            final(self).dirs_view() == old(self).dirs_view(),
    {
        proof {
            use_type_invariant(&*self);
        }
        let mut exes: Vec<MiniFile> = Vec::new();
        std::mem::swap(&mut exes, &mut self.exes);
        assert(file_views(self.exes@) =~= Seq::<MiniFileView>::empty());
        exes
    }

    /// The number of `.exe` files found.
    pub fn exe_count(&self) -> (n: usize)
        ensures
            n == self.exes_view().len(),
    {
        self.exes.len()
    }

    /// The number of directories in the table.
    pub fn dir_count(&self) -> (n: usize)
        ensures
            n == self.dirs_view().dom().len(),
    {
        self.dirs.len()
    }

    /// Enters a directory whose full path was looked up on the volume, as the
    /// answer to `Resolution::NeedPath(id)`.
    pub fn add_known_dir(&mut self, id: u64, path: WideString)
        ensures
            final(self).dirs_view() == old(self).dirs_view().insert(
                id,
                MiniDirView { name: Seq::empty(), full_name: Some(path@), parent: 0 },
            ),
            final(self).exes_view() == old(self).exes_view(),
    {
        proof {
            use_type_invariant(&*self);
        }
        let dir = MiniDir { name: WideString::new(), full_name: Some(path), parent: 0 };
        let mut table = DirTable::new();
        std::mem::swap(&mut table, &mut self.dirs);
        let _prev = table.insert(id, dir);
        self.dirs = table;
    }

    /// Rebuilds the full path of `file`: the full path of its directory, then
    /// a backslash and its name, each directory's path being its parent's
    /// path, a backslash and its name. On the way, the directories passed
    /// get their full path filled in, so later files find it at once (when
    /// the path comes out too long, only those above the failure). The path
    /// is cleaned with `clean_path`.
    pub fn resolve(&mut self, file: &MiniFile) -> (r: Resolution)
        ensures
            memoized(old(self).dirs_view(), final(self).dirs_view()),
            r is NeedPath || r is Cyclic ==> final(self).dirs_view() == old(self).dirs_view(),
            r is Path || r is TooLong ==> filled_up_from(
                old(self).dirs_view(),
                final(self).dirs_view(),
                file.parent,
            ),
            final(self).exes_view() == old(self).exes_view(),
            old(self).dirs_view().dom().finite(),
            match r {
                Resolution::Path(p) => file_path(old(self).dirs_view(), file@) is Known && p@
                    == clean_path_view(known_path(file_path(old(self).dirs_view(), file@))),
                Resolution::TooLong => file_path(old(self).dirs_view(), file@) is TooLong,
                Resolution::NeedPath(id) => file_path(old(self).dirs_view(), file@)
                    == PathOutcome::Unknown(id),
                Resolution::Cyclic => file_path(old(self).dirs_view(), file@) is Cyclic && exists|
                    i: nat,
                    j: nat,
                |
                    i < j <= old(self).dirs_view().dom().len() && #[trigger] ancestor(
                        old(self).dirs_view(),
                        file.parent,
                        i,
                    ) == #[trigger] ancestor(old(self).dirs_view(), file.parent, j),
            },
    {
        proof {
            use_type_invariant(&*self);
        }
        let mut table = DirTable::new();
        std::mem::swap(&mut table, &mut self.dirs);
        let r = resolve_in(&mut table, file);
        proof {
            let d = old(self).dirs_view();
            let o = dir_path(d, file.parent, d.dom().len());
            if r is Cyclic {
                if o is Known {
                    assert(!(join_path(known_path(o), file.name@) is Cyclic));
                }
                lemma_cyclic_means_cycle(d, file.parent);
            }
        }
        self.dirs = table;
        r
    }
}

/// Walks up from directory `start` while the directories passed have no
/// full path, at most as many steps as the table has directories.
fn walk_up(table: &DirTable, start: u64) -> (w: Walk)
    ensures
        w.ids@.len() == w.names@.len(),
        w.ids@.len() == w.parents@.len(),
        w.ids@.len() <= dir_table_contents(*table).dom().len(),
        forall|j: int|
            0 <= j < w.ids@.len() ==> {
                &&& #[trigger] dir_table_contents(*table).contains_key(w.ids@[j])
                &&& dir_table_contents(*table)[w.ids@[j]].full_name is None
                &&& dir_table_contents(*table)[w.ids@[j]].name == w.names@[j]@
                &&& dir_table_contents(*table)[w.ids@[j]].parent == w.parents@[j]
                &&& dir_path(
                    dir_table_contents(*table),
                    w.ids@[j],
                    (dir_table_contents(*table).dom().len() - j) as nat,
                ) == unwind(
                    walk_end_outcome(w.end),
                    wide_views(w.names@).subrange(j, w.ids@.len() as int),
                )
            },
        dir_path(dir_table_contents(*table), start, dir_table_contents(*table).dom().len()) == unwind(
            walk_end_outcome(w.end),
            wide_views(w.names@),
        ),
        forall|j: int|
            0 <= j < w.ids@.len() ==> #[trigger] w.ids@[j] == ancestor(
                dir_table_contents(*table),
                start,
                j as nat,
            ),
        w.end is Base ==> w.ids@.len() == unknown_run(
            dir_table_contents(*table),
            start,
            dir_table_contents(*table).dom().len(),
        ),
{
    let ghost d = dir_table_contents(*table);
    let fuel = table.len();
    let mut ids: Vec<u64> = Vec::new();
    let mut names: Vec<WideString> = Vec::new();
    let mut parents: Vec<u64> = Vec::new();
    let mut cur = start;
    assert(wide_views(names@) =~= Seq::<Seq<u16>>::empty());
    loop
        invariant
            d == dir_table_contents(*table),
            fuel == d.dom().len(),
            ids@.len() == names@.len(),
            ids@.len() == parents@.len(),
            ids@.len() <= fuel,
            forall|j: int|
                0 <= j < ids@.len() ==> {
                    &&& #[trigger] d.contains_key(ids@[j])
                    &&& d[ids@[j]].full_name is None
                    &&& d[ids@[j]].name == names@[j]@
                    &&& d[ids@[j]].parent == parents@[j]
                    &&& dir_path(d, ids@[j], (fuel - j) as nat) == unwind(
                        dir_path(d, cur, (fuel - ids@.len()) as nat),
                        wide_views(names@).subrange(j, ids@.len() as int),
                    )
                },
            dir_path(d, start, fuel as nat) == unwind(
                dir_path(d, cur, (fuel - ids@.len()) as nat),
                wide_views(names@),
            ),
            forall|j: int| 0 <= j < ids@.len() ==> #[trigger] ids@[j] == ancestor(d, start, j as nat),
            cur == ancestor(d, start, ids@.len() as nat),
            unknown_run(d, start, fuel as nat) == ids@.len() + unknown_run(
                d,
                cur,
                (fuel - ids@.len()) as nat,
            ),
        decreases fuel - ids@.len(),
    {
        let k = ids.len();
        match table.get(cur) {
            None => {
                return Walk { ids, names, parents, end: WalkEnd::Missing(cur) };
            },
            Some(dir) => {
                match &dir.full_name {
                    Some(p) => {
                        let base = p.duplicate();
                        return Walk { ids, names, parents, end: WalkEnd::Base(base) };
                    },
                    None => {
                        if k >= fuel {
                            return Walk { ids, names, parents, end: WalkEnd::Cyclic };
                        }
                        let ghost nv = wide_views(names@);
                        let ghost ids0 = ids@;
                        let ghost names0 = names@;
                        let ghost parents0 = parents@;
                        let ghost out0 = dir_path(d, cur, (fuel - k) as nat);
                        let ghost n = dir.name@;
                        let ghost next_out = dir_path(d, dir.parent, (fuel - k - 1) as nat);
                        assert(dir_path(d, cur, (fuel - k) as nat) == then_join(next_out, n));
                        proof {
                            lemma_ancestor_step(d, start, k as nat);
                        }
                        ids.push(cur);
                        names.push(dir.name.duplicate());
                        parents.push(dir.parent);
                        cur = dir.parent;
                        proof {
                            assert forall|j: int| 0 <= j < ids@.len() implies #[trigger] ids@[j] == ancestor(d, start, j as nat) by {
                                if j < k {
                                    assert(ids@[j] == ids0[j]);
                                }
                            }
                            let nv2 = wide_views(names@);
                            assert(nv2 =~= nv.push(n));
                            lemma_unwind_push(next_out, nv, n);
                            assert forall|j: int| 0 <= j < ids@.len() implies {
                                &&& #[trigger] d.contains_key(ids@[j])
                                &&& d[ids@[j]].full_name is None
                                &&& d[ids@[j]].name == names@[j]@
                                &&& d[ids@[j]].parent == parents@[j]
                                &&& dir_path(d, ids@[j], (fuel - j) as nat) == unwind(
                                    dir_path(d, cur, (fuel - ids@.len()) as nat),
                                    wide_views(names@).subrange(j, ids@.len() as int),
                                )
                            } by {
                                if j < k {
                                    assert(ids@[j] == ids0[j]);
                                    assert(names@[j] == names0[j]);
                                    assert(parents@[j] == parents0[j]);
                                    assert(d.contains_key(ids0[j]));
                                    assert(dir_path(d, ids0[j], (fuel - j) as nat) == unwind(out0, nv.subrange(j, k as int)));
                                    assert(nv2.subrange(j, k + 1) =~= nv.subrange(j, k as int).push(n));
                                    lemma_unwind_push(next_out, nv.subrange(j, k as int), n);
                                } else {
                                    assert(nv2.subrange(j, k + 1) =~= seq![n]);
                                    assert(seq![n].drop_first() =~= Seq::<Seq<u16>>::empty());
                                    assert(seq![n][0] == n);
                                    assert(unwind(next_out, Seq::<Seq<u16>>::empty()) == next_out);
                                    assert(unwind(next_out, seq![n]) == then_join(next_out, n));
                                }
                            }
                        }
                    },
                }
            },
        }
    }
}

/// `VolumeScan::resolve` on a directory table.
fn resolve_in(table: &mut DirTable, file: &MiniFile) -> (r: Resolution)
    requires
        dir_table_contents(*old(table)).dom().finite(),
    ensures
        dir_table_contents(*final(table)).dom().finite(),
        memoized(dir_table_contents(*old(table)), dir_table_contents(*final(table))),
        r is NeedPath || r is Cyclic ==> dir_table_contents(*final(table)) == dir_table_contents(
            *old(table),
        ),
        r is Path || r is TooLong ==> filled_up_from(
            dir_table_contents(*old(table)),
            dir_table_contents(*final(table)),
            file.parent,
        ),
        match r {
            Resolution::Path(p) => file_path(dir_table_contents(*old(table)), file@) is Known && p@
                == clean_path_view(known_path(file_path(dir_table_contents(*old(table)), file@))),
            Resolution::TooLong => file_path(dir_table_contents(*old(table)), file@) is TooLong,
            Resolution::NeedPath(id) => file_path(dir_table_contents(*old(table)), file@)
                == PathOutcome::Unknown(id),
            Resolution::Cyclic => file_path(dir_table_contents(*old(table)), file@) is Cyclic,
        },
{
    let ghost d = dir_table_contents(*table);
    let fuel = table.len();
    let w = walk_up(table, file.parent);
    let ghost nv = wide_views(w.names@);
    let ghost kk = w.ids@.len();
    assert(memoized(d, d));
    let base = match w.end {
        WalkEnd::Missing(id) => {
            proof {
                lemma_unwind_not_known(PathOutcome::Unknown(id), nv);
            }
            return Resolution::NeedPath(id);
        },
        WalkEnd::Cyclic => {
            proof {
                lemma_unwind_not_known(PathOutcome::Cyclic, nv);
            }
            return Resolution::Cyclic;
        },
        WalkEnd::Base(b) => b,
    };
    let ghost b0 = base@;
    proof {
        reveal_strlit("\\");
        crate::wide::lemma_encode_utf16_len("\\"@);
    }
    let sep = WideString::from_str("\\");
    proof {
        reveal_with_fuel(crate::wide::encode_utf16, 2);
        assert("\\"@.drop_last() =~= Seq::<char>::empty());
        assert(sep@ == seq![BACKSLASH_UTF16]);
        assert(nv.subrange(kk as int, kk as int) =~= Seq::<Seq<u16>>::empty());
    }
    let mut path = base;
    let mut j: usize = w.ids.len();
    proof {
        assert forall|x: u64| #![trigger dir_table_contents(*table)[x]] d.contains_key(x) implies dir_table_contents(*table)[x] == if exists|m: int|
                    j <= m < kk && #[trigger] w.ids@[m] == x {
                    filled(d, x)
                } else {
                    d[x]
                } by {
        }
    }
    while j > 0
        invariant
            w.ids@.len() == w.names@.len(),
            w.ids@.len() == w.parents@.len(),
            kk == w.ids@.len(),
            nv == wide_views(w.names@),
            j <= kk,
            kk <= fuel,
            d == dir_table_contents(*old(table)),
            fuel == d.dom().len(),
            sep@ == seq![BACKSLASH_UTF16],
            forall|i: int|
                0 <= i < kk ==> {
                    &&& #[trigger] d.contains_key(w.ids@[i])
                    &&& d[w.ids@[i]].full_name is None
                    &&& d[w.ids@[i]].name == w.names@[i]@
                    &&& d[w.ids@[i]].parent == w.parents@[i]
                    &&& dir_path(d, w.ids@[i], (fuel - i) as nat) == unwind(
                        PathOutcome::Known(b0),
                        nv.subrange(i, kk as int),
                    )
                },
            dir_path(d, file.parent, fuel as nat) == unwind(PathOutcome::Known(b0), nv),
            PathOutcome::Known(path@) == unwind(
                PathOutcome::Known(b0),
                nv.subrange(j as int, kk as int),
            ),
            memoized(d, dir_table_contents(*table)),
            dir_table_contents(*table).dom().finite(),
            dir_table_contents(*table).dom() == d.dom(),
            forall|x: u64|
                #![trigger dir_table_contents(*table)[x]]
                d.contains_key(x) ==> dir_table_contents(*table)[x] == if exists|m: int|
                    j <= m < kk && #[trigger] w.ids@[m] == x {
                    filled(d, x)
                } else {
                    d[x]
                },
            forall|m: int| 0 <= m < kk ==> #[trigger] w.ids@[m] == ancestor(d, file.parent, m as nat),
            kk == unknown_run(d, file.parent, fuel as nat),
            forall|m: int| j <= m < kk ==> dir_path(d, #[trigger] w.ids@[m], fuel as nat) is Known,
        decreases j,
    {
        let i = j - 1;
        let joined = combine_hstring_paths(&path, &sep, &w.names[i]);
        proof {
            assert(nv.subrange(i as int, kk as int).drop_first() =~= nv.subrange(j as int, kk as int));
            assert(nv.subrange(i as int, kk as int)[0] == w.names@[i as int]@);
        }
        match joined {
            Ok(p) => {
                let ghost id = w.ids@[i as int];
                proof {
                    assert(d.contains_key(id));
                    assert(dir_path(d, id, (fuel - i) as nat) == PathOutcome::Known(p@));
                    lemma_dir_path_fuel(d, id, (fuel - i) as nat, fuel as nat);
                }
                let ghost before = dir_table_contents(*table);
                let dir = MiniDir {
                    name: w.names[i].duplicate(),
                    full_name: Some(p.duplicate()),
                    parent: w.parents[i],
                };
                let _prev = table.insert(w.ids[i], dir);
                proof {
                    let after = dir_table_contents(*table);
                    assert(after.dom() =~= d.dom());
                    assert forall|x: u64| #![trigger after[x]] d.contains_key(x) implies (after[x] == d[x] || {
                        &&& d[x].full_name is None
                        &&& dir_path(d, x, d.dom().len()) is Known
                        &&& after[x] == MiniDirView {
                            full_name: Some(known_path(dir_path(d, x, d.dom().len()))),
                            ..d[x]
                        }
                    }) by {
                        if x != id {
                            assert(after[x] == before[x]);
                            let _ = before[x];
                        }
                    }
                    assert(dir@ == filled(d, id));
                    assert(dir_path(d, w.ids@[i as int], fuel as nat) is Known);
                    assert forall|x: u64| #![trigger after[x]] d.contains_key(x) implies after[x] == if exists|m: int|
                            i <= m < kk && #[trigger] w.ids@[m] == x {
                            filled(d, x)
                        } else {
                            d[x]
                        } by {
                        let e_new = exists|m: int| i <= m < kk && #[trigger] w.ids@[m] == x;
                        let e_old = exists|m: int| j <= m < kk && #[trigger] w.ids@[m] == x;
                        if x == id {
                            assert(w.ids@[i as int] == x);
                            assert(e_new);
                        } else {
                            assert(after[x] == before[x]);
                            let _ = before[x];
                            if e_new {
                                let m = choose|m: int| i <= m < kk && #[trigger] w.ids@[m] == x;
                                assert(m != i);
                                assert(e_old);
                            }
                            if e_old {
                                let m = choose|m: int| j <= m < kk && #[trigger] w.ids@[m] == x;
                                assert(i <= m < kk && w.ids@[m] == x);
                                assert(e_new);
                            }
                        }
                    }
                }
                path = p;
                j = i;
            },
            Err(_) => {
                proof {
                    lemma_unwind_split(PathOutcome::Known(b0), nv, i as int);
                    assert(nv.subrange(i as int, nv.len() as int) == nv.subrange(i as int, kk as int));
                    lemma_unwind_not_known(PathOutcome::TooLong, nv.subrange(0, i as int));
                    assert forall|m: int| 0 <= m <= i implies !(dir_path(d, #[trigger] w.ids@[m], fuel as nat) is Known) by {
                        let sm = nv.subrange(m, kk as int);
                        lemma_unwind_split(PathOutcome::Known(b0), sm, i - m);
                        assert(sm.subrange(i - m, sm.len() as int) =~= nv.subrange(i as int, kk as int));
                        lemma_unwind_not_known(PathOutcome::TooLong, sm.subrange(0, i - m));
                        lemma_dir_path_fuel(d, w.ids@[m], (fuel - m) as nat, fuel as nat);
                    }
                    let t = dir_table_contents(*table);
                    assert forall|x: u64| #![trigger t[x]] d.contains_key(x) implies t[x] == if among_first(
                        d,
                        file.parent,
                        unknown_run(d, file.parent, d.dom().len()),
                        x,
                    ) && dir_path(d, x, d.dom().len()) is Known {
                        filled(d, x)
                    } else {
                        d[x]
                    } by {
                        let e = exists|m: int| j <= m < kk && #[trigger] w.ids@[m] == x;
                        let a = among_first(d, file.parent, kk as nat, x);
                        if e {
                            let m = choose|m: int| j <= m < kk && #[trigger] w.ids@[m] == x;
                            assert(ancestor(d, file.parent, m as nat) == x);
                            assert(a);
                            assert(dir_path(d, w.ids@[m], fuel as nat) is Known);
                        }
                        if a && dir_path(d, x, d.dom().len()) is Known {
                            let k = choose|k: nat| k < kk && #[trigger] ancestor(d, file.parent, k) == x;
                            assert(w.ids@[k as int] == x);
                            if k <= i {
                                assert(!(dir_path(d, w.ids@[k as int], fuel as nat) is Known));
                            }
                            assert(e);
                        }
                    }
                }
                return Resolution::TooLong;
            },
        }
    }
    proof {
        assert(nv.subrange(0, kk as int) =~= nv);
        let t = dir_table_contents(*table);
        assert forall|x: u64| #![trigger t[x]] d.contains_key(x) implies t[x] == if among_first(
            d,
            file.parent,
            unknown_run(d, file.parent, d.dom().len()),
            x,
        ) && dir_path(d, x, d.dom().len()) is Known {
            filled(d, x)
        } else {
            d[x]
        } by {
            let e = exists|m: int| 0 <= m < kk && #[trigger] w.ids@[m] == x;
            let a = among_first(d, file.parent, kk as nat, x);
            if e {
                let m = choose|m: int| 0 <= m < kk && #[trigger] w.ids@[m] == x;
                assert(ancestor(d, file.parent, m as nat) == x);
                assert(a);
                assert(dir_path(d, w.ids@[m], fuel as nat) is Known);
            }
            if a {
                let k = choose|k: nat| k < kk && #[trigger] ancestor(d, file.parent, k) == x;
                assert(w.ids@[k as int] == x);
                assert(e);
            }
        }
    }
    match combine_hstring_paths(&path, &sep, &file.name) {
        Ok(full) => match clean_path(full) {
            Ok(cleaned) => Resolution::Path(cleaned),
            Err(_) => Resolution::TooLong,
        },
        Err(_) => Resolution::TooLong,
    }
}

/// Whether a name ends in `.exe`.
fn ends_with_exe(name: &[u16]) -> (b: bool)
    ensures
        b == is_exe_name(name@),
{
    let n = name.len();
    if n < 4 {
        return false;
    }
    let r = name[n - 4] == 46u16 && name[n - 3] == 101u16 && name[n - 2] == 120u16 && name[n - 1]
        == 101u16;
    assert(r == (name@.subrange(n - 4, n as int) =~= exe_suffix()));
    r
}

} // verus!
