//! Turning the `.exe` files of one volume scan into the list of their full
//! paths. Rebuilding a path may need the path of a directory that only the
//! volume itself can give; the collection then stops, asks for it, and goes
//! on with the answer.
use vstd::prelude::*;
use crate::wide::WideString;
use crate::volume_scan::{
    MiniFile, MiniFileView, MiniDirView, PathOutcome, Resolution, VolumeScan, file_path, dir_path,
    memoized, filled_up_from, filled, among_first, unknown_run, clean_path_view, file_views,
    wide_views, ancestor, known_path, lemma_memo_dir_path, lemma_cyclic_walk,
    lemma_ancestor_step, lemma_cyclic_means_cycle, lemma_dir_path_fuel,
};

verus! {

/// What a collection step asks of its caller.
#[derive(Debug, Clone, Copy, PartialEq, Eq, Structural)]
pub enum CollectAction {
    /// Every file has been handled.
    Done,
    /// The path of this directory reference must be looked up on the volume
    /// and handed to the next step.
    LookUp(u64),
    /// The directories above the current file form a cycle.
    Cycle,
}

/// What the caller hands to a collection step.
#[derive(Debug)]
pub enum LookupAnswer {
    /// Nothing was asked (the first step).
    Start,
    /// The path of the directory asked for.
    Found(WideString),
    /// The directory asked for could not be looked up: the file that needed
    /// it is skipped.
    Failed,
}

/// The directory table after taking in the answer to the pending lookup: the
/// directory asked for is entered with its full path.
pub open spec fn answered_dirs(
    dirs: Map<u64, MiniDirView>,
    pending: Option<u64>,
    answer: LookupAnswer,
) -> Map<u64, MiniDirView> {
    match (pending, answer) {
        (Some(id), LookupAnswer::Found(p)) => dirs.insert(
            id,
            MiniDirView { name: Seq::empty(), full_name: Some(p@), parent: 0 },
        ),
        _ => dirs,
    }
}

/// The index of the next file after taking in the answer to the pending
/// lookup: a failed lookup skips the file that needed it.
pub open spec fn answered_next(next: nat, pending: Option<u64>, answer: LookupAnswer) -> nat {
    match (pending, answer) {
        (Some(_), LookupAnswer::Failed) => next + 1,
        _ => next,
    }
}

/// The directory table after rebuilding a path from directory `start`:
/// the directories without a full path passed on the walk up from `start`
/// get the full path that the table gives them, where it gives one.
pub open spec fn fill_up(dirs: Map<u64, MiniDirView>, start: u64) -> Map<u64, MiniDirView> {
    Map::new(
        |id: u64| dirs.contains_key(id),
        |id: u64|
            if among_first(dirs, start, unknown_run(dirs, start, dirs.dom().len()), id) && dir_path(
                dirs,
                id,
                dirs.dom().len(),
            ) is Known && dirs[id].full_name is None {
                filled(dirs, id)
            } else {
                dirs[id]
            },
    )
}

/// The outcome of handling files in order until one needs a lookup or lies
/// below a cycle.
pub struct CollectRun {
    /// The directory table afterwards.
    pub dirs: Map<u64, MiniDirView>,
    /// How many files were handled.
    pub done: nat,
    /// The cleaned full paths found, in order.
    pub paths: Seq<Seq<u16>>,
    /// Why the run stopped.
    pub action: CollectAction,
}

/// Handles `files` in order on the table `dirs`, each with the table left by
/// the ones before: a file whose path is known adds its cleaned path, one
/// whose path is too long is passed over, and the run stops at a file whose
/// path needs a directory the table lacks or lies below a cycle.
pub open spec fn collect_run(dirs: Map<u64, MiniDirView>, files: Seq<MiniFileView>) -> CollectRun
    decreases files.len(),
{
    if files.len() == 0 {
        CollectRun { dirs, done: 0, paths: Seq::empty(), action: CollectAction::Done }
    } else {
        let f = files[0];
        match file_path(dirs, f) {
            PathOutcome::Known(p) => {
                let r = collect_run(fill_up(dirs, f.parent), files.drop_first());
                CollectRun { done: r.done + 1, paths: seq![clean_path_view(p)] + r.paths, ..r }
            },
            PathOutcome::TooLong => {
                let r = collect_run(fill_up(dirs, f.parent), files.drop_first());
                CollectRun { done: r.done + 1, ..r }
            },
            PathOutcome::Unknown(id) => CollectRun {
                dirs,
                done: 0,
                paths: Seq::empty(),
                action: CollectAction::LookUp(id),
            },
            PathOutcome::Cyclic => CollectRun {
                dirs,
                done: 0,
                paths: Seq::empty(),
                action: CollectAction::Cycle,
            },
        }
    }
}

/// The cleaned full paths that the table `dirs` gives the files, in order,
/// leaving out those too long, up to the first file whose path needs a
/// directory the table lacks or lies below a cycle.
pub open spec fn listed_paths(dirs: Map<u64, MiniDirView>, files: Seq<MiniFileView>) -> Seq<
    Seq<u16>,
>
    decreases files.len(),
{
    if files.len() == 0 {
        Seq::empty()
    } else {
        match file_path(dirs, files[0]) {
            PathOutcome::Known(p) => seq![clean_path_view(p)] + listed_paths(
                dirs,
                files.drop_first(),
            ),
            PathOutcome::TooLong => listed_paths(dirs, files.drop_first()),
            _ => Seq::empty(),
        }
    }
}

/// Where a run over `files` on the table `dirs` stops: at the first file
/// whose path needs a directory the table lacks, or that lies below a cycle,
/// or after the last file.
pub open spec fn listed_stop(dirs: Map<u64, MiniDirView>, files: Seq<MiniFileView>) -> CollectAction
    decreases files.len(),
{
    if files.len() == 0 {
        CollectAction::Done
    } else {
        match file_path(dirs, files[0]) {
            PathOutcome::Unknown(id) => CollectAction::LookUp(id),
            PathOutcome::Cyclic => CollectAction::Cycle,
            _ => listed_stop(dirs, files.drop_first()),
        }
    }
}

/// Every directory of `s` is in the table without a full path, and its
/// parent is in `s` again.
spec fn closed_chain(dirs: Map<u64, MiniDirView>, s: Seq<u64>) -> bool {
    forall|m: int|
        0 <= m < s.len() ==> {
            &&& #[trigger] dirs.contains_key(s[m])
            &&& dirs[s[m]].full_name is None
            &&& s.contains(dirs[s[m]].parent)
        }
}

proof fn lemma_closed_chain_cyclic(dirs: Map<u64, MiniDirView>, s: Seq<u64>, y: u64, f: nat)
    requires
        closed_chain(dirs, s),
        s.contains(y),
    ensures
        dir_path(dirs, y, f) is Cyclic,
    decreases f,
{
    let m = choose|m: int| 0 <= m < s.len() && s[m] == y;
    assert(dirs.contains_key(s[m]));
    if f > 0 {
        lemma_closed_chain_cyclic(dirs, s, dirs[y].parent, (f - 1) as nat);
    }
}

/// Filling in full paths never gets a directory out of a cycle.
proof fn lemma_memo_keeps_cyclic(old: Map<u64, MiniDirView>, new: Map<u64, MiniDirView>, x: u64)
    requires
        old.dom().finite(),
        memoized(old, new),
        dir_path(old, x, old.dom().len()) is Cyclic,
    ensures
        dir_path(new, x, new.dom().len()) is Cyclic,
{
    let n = old.dom().len();
    lemma_cyclic_means_cycle(old, x);
    let (i, j) = choose|i: nat, j: nat|
        i < j <= n && #[trigger] ancestor(old, x, i) == #[trigger] ancestor(old, x, j);
    let s = Seq::new(j, |m: int| ancestor(old, x, m as nat));
    assert forall|m: int| 0 <= m < s.len() implies {
        &&& #[trigger] old.contains_key(s[m])
        &&& old[s[m]].full_name is None
        &&& s.contains(old[s[m]].parent)
    } by {
        lemma_cyclic_walk(old, x, n, m as nat);
        lemma_ancestor_step(old, x, m as nat);
        if m + 1 < j {
            assert(s[m + 1] == old[s[m]].parent);
        } else {
            assert(s[i as int] == old[s[m]].parent);
        }
    }
    assert forall|m: int| 0 <= m < s.len() implies #[trigger] new[s[m]] == old[s[m]] by {
        lemma_closed_chain_cyclic(old, s, s[m], n);
        assert(old.contains_key(s[m]));
    }
    assert forall|m: int| 0 <= m < s.len() implies {
        &&& #[trigger] new.contains_key(s[m])
        &&& new[s[m]].full_name is None
        &&& s.contains(new[s[m]].parent)
    } by {
        assert(new[s[m]] == old[s[m]]);
        assert(old.contains_key(s[m]));
    }
    assert(s[0] == x);
    lemma_closed_chain_cyclic(new, s, x, new.dom().len());
}

proof fn lemma_fill_up_memoized(dirs: Map<u64, MiniDirView>, start: u64)
    ensures
        memoized(dirs, fill_up(dirs, start)),
{
    let f = fill_up(dirs, start);
    assert(f.dom() =~= dirs.dom());
}

/// What rebuilding a path does to the table is exactly `fill_up`.
proof fn lemma_filled_up_is_fill_up(
    old: Map<u64, MiniDirView>,
    new: Map<u64, MiniDirView>,
    start: u64,
)
    requires
        memoized(old, new),
        filled_up_from(old, new, start),
    ensures
        new == fill_up(old, start),
{
    let f = fill_up(old, start);
    assert(f.dom() =~= old.dom());
    assert forall|id: u64| #[trigger] new.contains_key(id) implies new[id] == f[id] by {
        assert(old.contains_key(id));
        let _ = new[id];
    }
    assert(new =~= f);
}

/// `later` gives every directory the path `earlier` gives it, and keeps
/// every cycle of `earlier`.
spec fn same_paths(earlier: Map<u64, MiniDirView>, later: Map<u64, MiniDirView>) -> bool {
    &&& later.dom() == earlier.dom()
    &&& forall|x: u64|
        #[trigger] dir_path(later, x, earlier.dom().len()) == dir_path(earlier, x, earlier.dom().len())
            || (dir_path(earlier, x, earlier.dom().len()) is Cyclic && dir_path(
            later,
            x,
            earlier.dom().len(),
        ) is Cyclic)
}

proof fn lemma_same_paths_memo(
    d: Map<u64, MiniDirView>,
    e: Map<u64, MiniDirView>,
    g: Map<u64, MiniDirView>,
)
    requires
        d.dom().finite(),
        same_paths(d, e),
        memoized(e, g),
    ensures
        same_paths(d, g),
{
    let n = d.dom().len();
    assert forall|x: u64|
        #[trigger] dir_path(g, x, n) == dir_path(d, x, n) || (dir_path(d, x, n) is Cyclic
            && dir_path(g, x, n) is Cyclic) by {
        let _ = dir_path(e, x, n);
        if dir_path(e, x, n) is Cyclic {
            lemma_memo_keeps_cyclic(e, g, x);
        } else {
            lemma_memo_dir_path(e, g, x, n);
        }
    }
}

proof fn lemma_collect_run_same(
    d: Map<u64, MiniDirView>,
    e: Map<u64, MiniDirView>,
    files: Seq<MiniFileView>,
)
    requires
        d.dom().finite(),
        same_paths(d, e),
    ensures
        collect_run(e, files).paths == listed_paths(d, files),
        collect_run(e, files).action == listed_stop(d, files),
    decreases files.len(),
{
    if files.len() > 0 {
        let f = files[0];
        let n = d.dom().len();
        let _ = dir_path(e, f.parent, n);
        assert(file_path(e, f) == file_path(d, f) || (file_path(d, f) is Cyclic && file_path(
            e,
            f,
        ) is Cyclic));
        let g = fill_up(e, f.parent);
        lemma_fill_up_memoized(e, f.parent);
        lemma_same_paths_memo(d, e, g);
        lemma_collect_run_same(d, g, files.drop_first());
    }
}

/// Within one step of the collection, resolving a file never changes the
/// path of a later one: the paths found are exactly the cleaned full paths
/// that the table at the start of the step gives the files, in order,
/// leaving out those too long, and the step stops at the first file whose
/// path needs a directory the table lacks or lies below a cycle.
pub proof fn lemma_collect_run_paths(dirs: Map<u64, MiniDirView>, files: Seq<MiniFileView>)
    requires
        dirs.dom().finite(),
    ensures
        collect_run(dirs, files).paths == listed_paths(dirs, files),
        collect_run(dirs, files).action == listed_stop(dirs, files),
{
    lemma_collect_run_same(dirs, dirs, files);
}

/// The directory entered for a looked-up path, as `add_known_dir` enters it.
pub open spec fn answer_dir(path: Seq<u16>) -> MiniDirView {
    MiniDirView { name: Seq::empty(), full_name: Some(path), parent: 0 }
}

/// The table `dirs` with the looked-up paths `answers` entered for the
/// references it lacks.
pub open spec fn with_answers(dirs: Map<u64, MiniDirView>, answers: Map<u64, Seq<u16>>) -> Map<
    u64,
    MiniDirView,
> {
    Map::new(
        |id: u64| dirs.contains_key(id) || answers.contains_key(id),
        |id: u64|
            if dirs.contains_key(id) {
                dirs[id]
            } else {
                answer_dir(answers[id])
            },
    )
}

/// A whole collection over `files` from the table `dirs`, each lookup
/// answered with the path that `answers` gives the reference asked for (at
/// most `lookups` of them): the paths found, and how it ended.
pub open spec fn answered_run(
    dirs: Map<u64, MiniDirView>,
    files: Seq<MiniFileView>,
    answers: Map<u64, Seq<u16>>,
    lookups: nat,
) -> (Seq<Seq<u16>>, CollectAction)
    decreases lookups,
{
    let r = collect_run(dirs, files);
    match r.action {
        CollectAction::LookUp(id) => if answers.contains_key(id) && lookups > 0 {
            let rest = answered_run(
                r.dirs.insert(id, answer_dir(answers[id])),
                files.skip(r.done as int),
                answers,
                (lookups - 1) as nat,
            );
            (r.paths + rest.0, rest.1)
        } else {
            (r.paths, r.action)
        },
        _ => (r.paths, r.action),
    }
}

/// `t` holds entries of `big` only, each as `big` has it or with the full
/// path that `big` gives it filled in.
spec fn within(big: Map<u64, MiniDirView>, t: Map<u64, MiniDirView>) -> bool {
    &&& t.dom().subset_of(big.dom())
    &&& forall|id: u64|
        #![trigger t[id]]
        t.contains_key(id) ==> (t[id] == big[id] || {
            &&& big[id].full_name is None
            &&& dir_path(big, id, big.dom().len()) is Known
            &&& t[id] == MiniDirView {
                full_name: Some(known_path(dir_path(big, id, big.dom().len()))),
                ..big[id]
            }
        })
}

/// A directory whose path goes round a cycle does so with any fuel.
proof fn lemma_cyclic_every_fuel(dirs: Map<u64, MiniDirView>, x: u64, g: nat)
    requires
        dirs.dom().finite(),
        dir_path(dirs, x, dirs.dom().len()) is Cyclic,
    ensures
        dir_path(dirs, x, g) is Cyclic,
{
    let n = dirs.dom().len();
    lemma_cyclic_means_cycle(dirs, x);
    let (i, j) = choose|i: nat, j: nat|
        i < j <= n && #[trigger] ancestor(dirs, x, i) == #[trigger] ancestor(dirs, x, j);
    let s = Seq::new(j, |m: int| ancestor(dirs, x, m as nat));
    assert forall|m: int| 0 <= m < s.len() implies {
        &&& #[trigger] dirs.contains_key(s[m])
        &&& dirs[s[m]].full_name is None
        &&& s.contains(dirs[s[m]].parent)
    } by {
        lemma_cyclic_walk(dirs, x, n, m as nat);
        lemma_ancestor_step(dirs, x, m as nat);
        if m + 1 < j {
            assert(s[m + 1] == dirs[s[m]].parent);
        } else {
            assert(s[i as int] == dirs[s[m]].parent);
        }
    }
    assert(s[0] == x);
    lemma_closed_chain_cyclic(dirs, s, x, g);
}

proof fn lemma_within_path_fuel(
    big: Map<u64, MiniDirView>,
    t: Map<u64, MiniDirView>,
    x: u64,
    f: nat,
    g: nat,
)
    requires
        big.dom().finite(),
        within(big, t),
        g >= f + big.dom().len(),
        dir_path(t, x, f) is Known || dir_path(t, x, f) is TooLong,
    ensures
        dir_path(big, x, g) == dir_path(t, x, f),
    decreases f,
{
    let n = big.dom().len();
    assert(t.contains_key(x));
    assert(big.contains_key(x));
    let _ = t[x];
    if t[x] != big[x] {
        lemma_dir_path_fuel(big, x, n, g);
    } else if t[x].full_name is None {
        let p = t[x].parent;
        let up = dir_path(t, p, (f - 1) as nat);
        assert(up is Known || up is TooLong);
        lemma_within_path_fuel(big, t, p, (f - 1) as nat, (g - 1) as nat);
    }
}

/// A table `within` `big` gives every directory whose path it knows (or
/// finds too long) the same outcome as `big`.
proof fn lemma_within_path(big: Map<u64, MiniDirView>, t: Map<u64, MiniDirView>, x: u64)
    requires
        big.dom().finite(),
        within(big, t),
        dir_path(t, x, t.dom().len()) is Known || dir_path(t, x, t.dom().len()) is TooLong,
    ensures
        dir_path(big, x, big.dom().len()) == dir_path(t, x, t.dom().len()),
{
    let n = big.dom().len();
    let g = t.dom().len() + n;
    lemma_within_path_fuel(big, t, x, t.dom().len(), g);
    if dir_path(big, x, n) is Cyclic {
        lemma_cyclic_every_fuel(big, x, g);
    } else {
        lemma_dir_path_fuel(big, x, n, g);
    }
}

proof fn lemma_within_file(big: Map<u64, MiniDirView>, t: Map<u64, MiniDirView>, f: MiniFileView)
    requires
        big.dom().finite(),
        within(big, t),
        file_path(t, f) is Known || file_path(t, f) is TooLong,
    ensures
        file_path(big, f) == file_path(t, f),
{
    let o = dir_path(t, f.parent, t.dom().len());
    assert(o is Known || o is TooLong);
    lemma_within_path(big, t, f.parent);
}

proof fn lemma_within_fill_up(big: Map<u64, MiniDirView>, t: Map<u64, MiniDirView>, start: u64)
    requires
        big.dom().finite(),
        within(big, t),
    ensures
        within(big, fill_up(t, start)),
        fill_up(t, start).dom() == t.dom(),
{
    let t2 = fill_up(t, start);
    assert(t2.dom() =~= t.dom());
    assert forall|id: u64| #[trigger] t2.contains_key(id) implies (t2[id] == big[id] || {
        &&& big[id].full_name is None
        &&& dir_path(big, id, big.dom().len()) is Known
        &&& t2[id] == MiniDirView {
            full_name: Some(known_path(dir_path(big, id, big.dom().len()))),
            ..big[id]
        }
    }) by {
        let _ = t[id];
        if t2[id] != t[id] {
            assert(t[id].full_name is None);
            assert(t[id] == big[id]);
            lemma_within_path(big, t, id);
        }
    }
}

/// Collecting on a table `within` `big`: the files handled have the same
/// path in `big`, so what `big` lists for them is what was found.
proof fn lemma_collect_within(
    big: Map<u64, MiniDirView>,
    base: Map<u64, MiniDirView>,
    t: Map<u64, MiniDirView>,
    files: Seq<MiniFileView>,
)
    requires
        big.dom().finite(),
        within(big, t),
        base.dom().subset_of(t.dom()),
    ensures
        within(big, collect_run(t, files).dirs),
        base.dom().subset_of(collect_run(t, files).dirs.dom()),
        collect_run(t, files).done <= files.len(),
        listed_paths(big, files) == collect_run(t, files).paths + listed_paths(
            big,
            files.skip(collect_run(t, files).done as int),
        ),
        listed_stop(big, files) == listed_stop(big, files.skip(collect_run(t, files).done as int)),
        collect_run(t, files).action is Done ==> collect_run(t, files).done == files.len(),
        collect_run(t, files).action matches CollectAction::LookUp(id) ==> !collect_run(
            t,
            files,
        ).dirs.contains_key(id),
    decreases files.len(),
{
    let r = collect_run(t, files);
    if files.len() == 0 {
        assert(files.skip(0) =~= files);
    } else {
        let f = files[0];
        let o = file_path(t, f);
        if o is Known || o is TooLong {
            lemma_within_file(big, t, f);
            let t2 = fill_up(t, f.parent);
            lemma_within_fill_up(big, t, f.parent);
            let rest = files.drop_first();
            lemma_collect_within(big, base, t2, rest);
            let r2 = collect_run(t2, rest);
            assert(files.skip(r.done as int) =~= rest.skip(r2.done as int));
            if o is Known {
                assert(listed_paths(big, files) == seq![clean_path_view(known_path(o))]
                    + listed_paths(big, rest));
                assert(r.paths == seq![clean_path_view(known_path(o))] + r2.paths);
                assert(seq![clean_path_view(known_path(o))] + (r2.paths + listed_paths(
                    big,
                    rest.skip(r2.done as int),
                )) =~= seq![clean_path_view(known_path(o))] + r2.paths + listed_paths(
                    big,
                    rest.skip(r2.done as int),
                ));
            }
        } else {
            assert(files.skip(0) =~= files);
            assert(r.paths + listed_paths(big, files) =~= listed_paths(big, files));
            if o matches PathOutcome::Unknown(id) {
                let _ = dir_path(t, f.parent, t.dom().len());
                lemma_unknown_absent(t, f.parent, t.dom().len());
            }
        }
    }
}

/// A walk that ends at a reference the table lacks names a reference the
/// table does not hold.
proof fn lemma_unknown_absent(t: Map<u64, MiniDirView>, x: u64, f: nat)
    ensures
        dir_path(t, x, f) matches PathOutcome::Unknown(id) ==> !t.contains_key(id),
    decreases f,
{
    if t.contains_key(x) && t[x].full_name is None && f > 0 {
        lemma_unknown_absent(t, t[x].parent, (f - 1) as nat);
    }
}

proof fn lemma_answered_within(
    base: Map<u64, MiniDirView>,
    answers: Map<u64, Seq<u16>>,
    t: Map<u64, MiniDirView>,
    files: Seq<MiniFileView>,
    lookups: nat,
)
    requires
        base.dom().finite(),
        answers.dom().finite(),
        within(with_answers(base, answers), t),
        base.dom().subset_of(t.dom()),
        answered_run(t, files, answers, lookups).1 is Done,
    ensures
        answered_run(t, files, answers, lookups).0 == listed_paths(with_answers(base, answers), files),
        listed_stop(with_answers(base, answers), files) is Done,
    decreases lookups,
{
    let big = with_answers(base, answers);
    assert(big.dom() =~= base.dom().union(answers.dom()));
    lemma_collect_within(big, base, t, files);
    let r = collect_run(t, files);
    let rest = files.skip(r.done as int);
    if r.action is Done {
        assert(rest =~= Seq::<MiniFileView>::empty());
        assert(r.paths + Seq::<Seq<u16>>::empty() =~= r.paths);
    } else {
        let id = r.action->LookUp_0;
        let t2 = r.dirs.insert(id, answer_dir(answers[id]));
        assert(!base.contains_key(id));
        assert(big[id] == answer_dir(answers[id]));
        assert(t2.dom().subset_of(big.dom()));
        assert forall|x: u64| #[trigger] t2.contains_key(x) implies (t2[x] == big[x] || {
            &&& big[x].full_name is None
            &&& dir_path(big, x, big.dom().len()) is Known
            &&& t2[x] == MiniDirView {
                full_name: Some(known_path(dir_path(big, x, big.dom().len()))),
                ..big[x]
            }
        }) by {
            if x != id {
                let _ = r.dirs[x];
            }
        }
        lemma_answered_within(base, answers, t2, rest, (lookups - 1) as nat);
    }
}

/// A whole collection in which every lookup is answered with the path of
/// the reference asked for: when it ends with every file handled, the paths
/// found are exactly the cleaned full paths of all the files, in order
/// (leaving out those too long), as the table of the volume gives them
/// once the looked-up directories are entered; and in that table no file
/// lacks a directory or lies below a cycle.
pub proof fn lemma_answered_run_paths(
    dirs: Map<u64, MiniDirView>,
    files: Seq<MiniFileView>,
    answers: Map<u64, Seq<u16>>,
    lookups: nat,
)
    requires
        dirs.dom().finite(),
        answers.dom().finite(),
        answered_run(dirs, files, answers, lookups).1 is Done,
    ensures
        answered_run(dirs, files, answers, lookups).0 == listed_paths(
            with_answers(dirs, answers),
            files,
        ),
        listed_stop(with_answers(dirs, answers), files) is Done,
{
    let big = with_answers(dirs, answers);
    assert forall|x: u64| #[trigger] dirs.contains_key(x) implies dirs[x] == big[x] by {}
    lemma_answered_within(dirs, answers, dirs, files, lookups);
}

/// The `.exe` files of a volume whose full paths are being collected, the
/// index of the next one, the lookup it waits for and the paths found.
pub struct ExeCollector {
    exes: Vec<MiniFile>,
    next: usize,
    pending: Option<u64>,
    files: Vec<WideString>,
}

impl ExeCollector {
    #[verifier::type_invariant]
    spec fn inv(self) -> bool {
        &&& self.next <= self.exes@.len()
        &&& self.pending is Some ==> self.next < self.exes@.len()
    }

    /// The files whose paths are collected.
    pub closed spec fn exes_view(&self) -> Seq<MiniFileView> {
        file_views(self.exes@)
    }

    /// The index of the next file to handle.
    pub closed spec fn next_index(&self) -> nat {
        self.next as nat
    }

    /// The directory whose lookup the next step waits for.
    pub closed spec fn pending(&self) -> Option<u64> {
        self.pending
    }

    /// The paths found so far, in order.
    pub closed spec fn files_view(&self) -> Seq<Seq<u16>> {
        wide_views(self.files@)
    }

    /// A collection over `exes` that has handled none of them.
    pub fn new(exes: Vec<MiniFile>) -> (c: Self)
        ensures
            c.exes_view() == file_views(exes@),
            c.next_index() == 0,
            c.pending() is None,
            c.files_view() == Seq::<Seq<u16>>::empty(),
    {
        let c = ExeCollector { exes, next: 0, pending: None, files: Vec::new() };
        assert(wide_views(c.files@) =~= Seq::<Seq<u16>>::empty());
        c
    }

    /// Hands over the paths found, leaving the list empty.
    pub fn take_files(&mut self) -> (files: Vec<WideString>)
        ensures
            wide_views(files@) == old(self).files_view(),
            final(self).files_view() == Seq::<Seq<u16>>::empty(),
            final(self).exes_view() == old(self).exes_view(),
            final(self).next_index() == old(self).next_index(),
            final(self).pending() == old(self).pending(),
    {
        proof {
            use_type_invariant(&*self);
        }
        let mut files: Vec<WideString> = Vec::new();
        std::mem::swap(&mut files, &mut self.files);
        assert(wide_views(self.files@) =~= Seq::<Seq<u16>>::empty());
        files
    }

    /// One step of the collection. The answer to the pending lookup is
    /// taken in first: a directory found is entered in the scan's table
    /// with its path, and a failed lookup skips the file that needed it.
    /// Then the files are resolved in order, each found path added to the
    /// list and each path too long passed over, until every file is handled
    /// (`Done`), a file needs a directory the table lacks (`LookUp`, which
    /// the next step waits for), or a file lies below a cycle (`Cycle`).
    pub fn step(&mut self, scan: &mut VolumeScan, answer: LookupAnswer) -> (action: CollectAction)
        ensures
            ({
                let d0 = answered_dirs(old(scan).dirs_view(), old(self).pending(), answer);
                let i0 = answered_next(old(self).next_index(), old(self).pending(), answer);
                let run = collect_run(d0, old(self).exes_view().skip(i0 as int));
                &&& final(scan).dirs_view() == run.dirs
                &&& final(self).next_index() == i0 + run.done
                &&& final(self).files_view() == old(self).files_view() + run.paths
                &&& action == run.action
                &&& run.paths == listed_paths(d0, old(self).exes_view().skip(i0 as int))
                &&& action == listed_stop(d0, old(self).exes_view().skip(i0 as int))
            }),
            final(scan).exes_view() == old(scan).exes_view(),
            final(self).exes_view() == old(self).exes_view(),
            final(self).pending() == match action {
                CollectAction::LookUp(id) => Some(id),
                _ => None,
            },
    {
        proof {
            use_type_invariant(&*self);
            use_type_invariant(&*scan);
        }
        let ghost ans = answer;
        let pending = self.pending;
        self.pending = None;
        match answer {
            LookupAnswer::Found(p) => {
                if let Some(id) = pending {
                    scan.add_known_dir(id, p);
                }
            },
            LookupAnswer::Failed => {
                if pending.is_some() && self.next < self.exes.len() {
                    self.next = self.next + 1;
                }
            },
            LookupAnswer::Start => {},
        }
        let ghost d0 = scan.dirs_view();
        let ghost i0 = self.next as nat;
        let ghost ev = self.exes_view();
        let ghost files0 = self.files_view();
        let ghost r0 = collect_run(d0, ev.skip(i0 as int));
        proof {
            use_type_invariant(&*scan);
            lemma_collect_run_paths(d0, ev.skip(i0 as int));
        }
        assert(files0 + r0.paths =~= self.files_view() + r0.paths);
        while self.next < self.exes.len()
            invariant
                ev == self.exes_view(),
                ev == old(self).exes_view(),
                ans == answer,
                d0 == answered_dirs(old(scan).dirs_view(), old(self).pending(), ans),
                i0 == answered_next(old(self).next_index(), old(self).pending(), ans),
                r0 == collect_run(d0, ev.skip(i0 as int)),
                r0.paths == listed_paths(d0, ev.skip(i0 as int)),
                r0.action == listed_stop(d0, ev.skip(i0 as int)),
                ev.len() == self.exes@.len(),
                i0 <= self.next <= self.exes@.len(),
                self.pending is None,
                files0 == old(self).files_view(),
                scan.exes_view() == old(scan).exes_view(),
                ({
                    let rc = collect_run(scan.dirs_view(), ev.skip(self.next as int));
                    &&& r0.dirs == rc.dirs
                    &&& r0.done == (self.next - i0) + rc.done
                    &&& r0.action == rc.action
                    &&& files0 + r0.paths == self.files_view() + rc.paths
                }),
            decreases self.exes@.len() - self.next,
        {
            proof {
                use_type_invariant(&*self);
            }
            let ghost cur = scan.dirs_view();
            let ghost rest = ev.skip(self.next as int);
            let i = self.next;
            assert(rest[0] == self.exes@[i as int]@);
            assert(rest.drop_first() =~= ev.skip(i + 1));
            let r = scan.resolve(&self.exes[i]);
            match r {
                Resolution::Path(p) => {
                    proof {
                        lemma_filled_up_is_fill_up(cur, scan.dirs_view(), self.exes@[i as int].parent);
                    }
                    let mut files: Vec<WideString> = Vec::new();
                    std::mem::swap(&mut files, &mut self.files);
                    let ghost before = files@;
                    files.push(p);
                    self.files = files;
                    self.next = i + 1;
                    proof {
                        assert(wide_views(self.files@) =~= wide_views(before).push(self.files@.last()@));
                        let rc2 = collect_run(scan.dirs_view(), ev.skip(self.next as int));
                        assert(wide_views(before).push(self.files@.last()@) + rc2.paths
                            =~= wide_views(before) + (seq![self.files@.last()@] + rc2.paths));
                    }
                },
                Resolution::TooLong => {
                    proof {
                        lemma_filled_up_is_fill_up(cur, scan.dirs_view(), self.exes@[i as int].parent);
                    }
                    self.next = i + 1;
                },
                Resolution::NeedPath(id) => {
                    assert(rest.len() > 0);
                    assert(file_path(cur, rest[0]) == PathOutcome::Unknown(id));
                    assert(collect_run(cur, rest).paths =~= Seq::<Seq<u16>>::empty());
                    assert(self.files_view() + Seq::<Seq<u16>>::empty() =~= self.files_view());
                    self.pending = Some(id);
                    return CollectAction::LookUp(id);
                },
                Resolution::Cyclic => {
                    assert(rest.len() > 0);
                    assert(file_path(cur, rest[0]) is Cyclic);
                    assert(collect_run(cur, rest).paths =~= Seq::<Seq<u16>>::empty());
                    assert(self.files_view() + Seq::<Seq<u16>>::empty() =~= self.files_view());
                    return CollectAction::Cycle;
                },
            }
        }
        assert(ev.skip(self.next as int) =~= Seq::<MiniFileView>::empty());
        assert(self.files_view() + Seq::<Seq<u16>>::empty() =~= self.files_view());
        CollectAction::Done
    }
}

} // verus!
