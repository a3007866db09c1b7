//! A model of what performing a plan does to the filesystem.
//!
//! A runner performs the plan's steps strictly in order and stops at the
//! first failing one: a directory creation fails when the directory
//! already exists, a move fails when the source file is gone or the
//! destination directory is missing.  The lemmas here state what a run
//! leaves behind: a run over sources that exist and users whose
//! subdirectories do not yet exist performs every step, moves every
//! matched file to its user's subdirectory with its bytes unchanged, and
//! a run that hits a pre-existing subdirectory stops there, leaving every
//! later match's source file in place.

use vstd::prelude::*;
use crate::plan::{spec_plan, steps_for, users_of, StepModel};
use crate::scan::DirMatchModel;

verus! {

/// The filesystem a run touches, abstracted: which per-user destination
/// subdirectories exist, the movable files by source path, and the
/// destination files by user id and original filename, each with its
/// byte content.
#[verifier::ext_equal]
pub struct FsModel {
    pub dirs: Set<Seq<char>>,
    pub source_files: Map<Seq<char>, Seq<u8>>,
    pub dest_files: Map<(Seq<char>, Seq<char>), Seq<u8>>,
}

/// The effect of one step: the new state, or `None` when the step fails —
/// creating a directory that already exists, or moving a file that is
/// gone or whose destination directory is missing.
pub open spec fn apply_step(fs: FsModel, st: StepModel) -> Option<FsModel> {
    match st {
        StepModel::CreateDir { user_id } => {
            if fs.dirs.contains(user_id) {
                None
            } else {
                Some(
                    FsModel {
                        dirs: fs.dirs.insert(user_id),
                        source_files: fs.source_files,
                        dest_files: fs.dest_files,
                    },
                )
            }
        },
        StepModel::MoveFile { source_path, user_id, original_filename } => {
            if fs.source_files.dom().contains(source_path) && fs.dirs.contains(user_id) {
                Some(
                    FsModel {
                        dirs: fs.dirs,
                        source_files: fs.source_files.remove(source_path),
                        dest_files: fs.dest_files.insert(
                            (user_id, original_filename),
                            fs.source_files[source_path],
                        ),
                    },
                )
            } else {
                None
            }
        },
    }
}

/// Performs the steps in order, stopping at the first failing one: the
/// state left behind, and how many steps were performed.
pub open spec fn run_steps(fs: FsModel, plan: Seq<StepModel>) -> (FsModel, int)
    decreases plan.len(),
{
    if plan.len() == 0 {
        (fs, 0)
    } else {
        match apply_step(fs, plan[0]) {
            Option::None => (fs, 0),
            Option::Some(fs1) => {
                let (f, k) = run_steps(fs1, plan.subrange(1, plan.len() as int));
                (f, k + 1)
            },
        }
    }
}

proof fn lemma_run_concat(fs: FsModel, a: Seq<StepModel>, b: Seq<StepModel>)
    ensures
        ({
            let (fa, ka) = run_steps(fs, a);
            if ka == a.len() {
                let (fb, kb) = run_steps(fa, b);
                run_steps(fs, a + b) == (fb, a.len() + kb)
            } else {
                run_steps(fs, a + b) == (fa, ka)
            }
        }),
    decreases a.len(),
{
    if a.len() == 0 {
        assert(a + b =~= b);
    } else {
        assert((a + b)[0] == a[0]);
        match apply_step(fs, a[0]) {
            Option::None => {
            },
            Option::Some(fs1) => {
                let a1 = a.subrange(1, a.len() as int);
                lemma_run_concat(fs1, a1, b);
                assert((a + b).subrange(1, (a + b).len() as int) =~= a1 + b);
            },
        }
    }
}

/// No two matches of the batch move the same source file.
pub open spec fn distinct_sources(ms: Seq<DirMatchModel>) -> bool {
    forall|i: int, j: int|
        0 <= i < j < ms.len() ==> ms[i].source_path != ms[j].source_path
}

/// Every matched source file is present in the state.
pub open spec fn sources_present(fs: FsModel, ms: Seq<DirMatchModel>) -> bool {
    forall|i: int|
        0 <= i < ms.len() ==> fs.source_files.dom().contains(#[trigger] ms[i].source_path)
}

/// No matched user's destination subdirectory exists yet.
pub open spec fn no_user_dirs(fs: FsModel, ms: Seq<DirMatchModel>) -> bool {
    forall|i: int|
        0 <= i < ms.len() ==> !fs.dirs.contains(#[trigger] ms[i].fields.user_id)
}

/// Some match of the batch has `p` as its source path.
pub open spec fn has_source(ms: Seq<DirMatchModel>, p: Seq<char>) -> bool {
    exists|i: int| 0 <= i < ms.len() && #[trigger] ms[i].source_path == p
}

/// The source files left after the moves of `ms`: each match's path
/// removed.
pub open spec fn remove_sources(
    m0: Map<Seq<char>, Seq<u8>>,
    ms: Seq<DirMatchModel>,
) -> Map<Seq<char>, Seq<u8>>
    decreases ms.len(),
{
    if ms.len() == 0 {
        m0
    } else {
        remove_sources(m0, ms.drop_last()).remove(ms.last().source_path)
    }
}

/// The destination files after the moves of `ms`, each match's bytes
/// taken from the source files `src0`.
pub open spec fn add_dests(
    d0: Map<(Seq<char>, Seq<char>), Seq<u8>>,
    src0: Map<Seq<char>, Seq<u8>>,
    ms: Seq<DirMatchModel>,
) -> Map<(Seq<char>, Seq<char>), Seq<u8>>
    decreases ms.len(),
{
    if ms.len() == 0 {
        d0
    } else {
        add_dests(d0, src0, ms.drop_last()).insert(
            (ms.last().fields.user_id, ms.last().fields.original_filename),
            src0[ms.last().source_path],
        )
    }
}

proof fn lemma_remove_sources_at(m0: Map<Seq<char>, Seq<u8>>, ms: Seq<DirMatchModel>, p: Seq<char>)
    ensures
        remove_sources(m0, ms).dom().contains(p) == (m0.dom().contains(p) && !has_source(ms, p)),
        remove_sources(m0, ms).dom().contains(p) ==> remove_sources(m0, ms)[p] == m0[p],
    decreases ms.len(),
{
    if ms.len() == 0 {
        assert(!has_source(ms, p));
    } else {
        let p0 = ms.drop_last();
        lemma_remove_sources_at(m0, p0, p);
        assert(forall|i: int| 0 <= i < p0.len() ==> p0[i] == ms[i]);
        if has_source(ms, p) {
            let i = choose|i: int| 0 <= i < ms.len() && #[trigger] ms[i].source_path == p;
            if i < ms.len() - 1 {
                assert(p0[i].source_path == p);
                assert(has_source(p0, p));
            }
        }
        if has_source(p0, p) {
            let i = choose|i: int| 0 <= i < p0.len() && #[trigger] p0[i].source_path == p;
            assert(ms[i].source_path == p);
            assert(has_source(ms, p));
        }
        if ms.last().source_path == p {
            assert(has_source(ms, p));
        }
    }
}

/// The state a clean run reaches: starting from a state that holds every
/// matched source file and none of the matched users' subdirectories, a
/// run performs every step of the plan; it creates exactly the matched
/// users' subdirectories, removes exactly the matched source files, and
/// writes each match's bytes to its user and original filename.
pub proof fn lemma_run_exact(fs: FsModel, ms: Seq<DirMatchModel>)
    requires
        distinct_sources(ms),
        sources_present(fs, ms),
        no_user_dirs(fs, ms),
    ensures
        run_steps(fs, spec_plan(ms)) == (
            FsModel {
                dirs: fs.dirs.union(users_of(ms)),
                source_files: remove_sources(fs.source_files, ms),
                dest_files: add_dests(fs.dest_files, fs.source_files, ms),
            },
            spec_plan(ms).len() as int,
        ),
    decreases ms.len(),
{
    if ms.len() == 0 {
        let expect = FsModel {
            dirs: fs.dirs.union(users_of(ms)),
            source_files: remove_sources(fs.source_files, ms),
            dest_files: add_dests(fs.dest_files, fs.source_files, ms),
        };
        assert(fs.dirs.union(users_of(ms)) =~= fs.dirs);
        assert(expect =~= fs);
    } else {
        let p0 = ms.drop_last();
        let m = ms.last();
        assert(forall|i: int| 0 <= i < p0.len() ==> p0[i] == ms[i]);
        lemma_run_exact(fs, p0);
        let seen = users_of(p0).contains(m.fields.user_id);
        let st = steps_for(m, seen);
        lemma_run_concat(fs, spec_plan(p0), st);
        let s0 = FsModel {
            dirs: fs.dirs.union(users_of(p0)),
            source_files: remove_sources(fs.source_files, p0),
            dest_files: add_dests(fs.dest_files, fs.source_files, p0),
        };
        // the source of the last match survived the earlier moves
        lemma_remove_sources_at(fs.source_files, p0, m.source_path);
        assert(fs.source_files.dom().contains(m.source_path));
        assert(!has_source(p0, m.source_path)) by {
            if has_source(p0, m.source_path) {
                let i = choose|i: int|
                    0 <= i < p0.len() && #[trigger] p0[i].source_path == m.source_path;
                assert(ms[i].source_path == ms[ms.len() - 1].source_path);
            }
        }
        assert(s0.source_files.dom().contains(m.source_path));
        assert(s0.source_files[m.source_path] == fs.source_files[m.source_path]);
        let expect = FsModel {
            dirs: fs.dirs.union(users_of(ms)),
            source_files: remove_sources(fs.source_files, ms),
            dest_files: add_dests(fs.dest_files, fs.source_files, ms),
        };
        let mv = StepModel::MoveFile {
            source_path: m.source_path,
            user_id: m.fields.user_id,
            original_filename: m.fields.original_filename,
        };
        if seen {
            assert(s0.dirs.contains(m.fields.user_id));
            assert(st =~= seq![mv]);
            assert(st[0] == mv);
            let s1 = apply_step(s0, mv).unwrap();
            assert(st.subrange(1, 1) =~= Seq::<StepModel>::empty());
            assert(run_steps(s1, st.subrange(1, 1)) == (s1, 0int));
            assert(run_steps(s0, st) == (s1, 1int));
            assert(s1 =~= expect) by {
                assert(fs.dirs.union(users_of(ms)) =~= fs.dirs.union(users_of(p0)));
            }
        } else {
            let cd = StepModel::CreateDir { user_id: m.fields.user_id };
            assert(st[0] == cd && st[1] == mv);
            assert(!s0.dirs.contains(m.fields.user_id)) by {
                assert(!fs.dirs.contains(ms[ms.len() - 1].fields.user_id));
            }
            let s1 = apply_step(s0, cd).unwrap();
            assert(s1.dirs.contains(m.fields.user_id));
            let s2 = apply_step(s1, mv).unwrap();
            assert(st.subrange(1, 2) =~= seq![mv]);
            assert(st.subrange(1, 2)[0] == mv);
            assert(st.subrange(1, 2).subrange(1, 1) =~= Seq::<StepModel>::empty());
            assert(run_steps(s2, st.subrange(1, 2).subrange(1, 1)) == (s2, 0int));
            assert(run_steps(s1, st.subrange(1, 2)) == (s2, 1int));
            assert(run_steps(s0, st) == (s2, 2int));
            assert(s2 =~= expect) by {
                assert(fs.dirs.union(users_of(ms)) =~= fs.dirs.union(users_of(p0)).insert(
                    m.fields.user_id,
                ));
            }
        }
    }
}

/// No two matches of the batch land on the same user id and original
/// filename — without this a later match overwrites an earlier one.
pub open spec fn distinct_destinations(ms: Seq<DirMatchModel>) -> bool {
    forall|i: int, j: int|
        0 <= i < j < ms.len() ==> !(ms[i].fields.user_id == ms[j].fields.user_id
            && ms[i].fields.original_filename == ms[j].fields.original_filename)
}

proof fn lemma_add_dests_value(
    d0: Map<(Seq<char>, Seq<char>), Seq<u8>>,
    src0: Map<Seq<char>, Seq<u8>>,
    ms: Seq<DirMatchModel>,
    i: int,
)
    requires
        distinct_destinations(ms),
        0 <= i < ms.len(),
    ensures
        add_dests(d0, src0, ms).contains_pair(
            (ms[i].fields.user_id, ms[i].fields.original_filename),
            src0[ms[i].source_path],
        ),
    decreases ms.len(),
{
    let p0 = ms.drop_last();
    assert(forall|k: int| 0 <= k < p0.len() ==> p0[k] == ms[k]);
    if i == ms.len() - 1 {
    } else {
        lemma_add_dests_value(d0, src0, p0, i);
        assert(!(ms[i].fields.user_id == ms.last().fields.user_id
            && ms[i].fields.original_filename == ms.last().fields.original_filename));
    }
}

/// Move semantics: after a run from a state that holds every matched
/// source file and none of the users' subdirectories, and whose matches
/// collide on neither source nor destination, every step was performed,
/// every matched source file is gone from its source path, and its bytes
/// sit unchanged at its user's subdirectory under its original filename.
pub proof fn lemma_move_semantics(fs: FsModel, ms: Seq<DirMatchModel>, i: int)
    requires
        distinct_sources(ms),
        distinct_destinations(ms),
        sources_present(fs, ms),
        no_user_dirs(fs, ms),
        0 <= i < ms.len(),
    ensures
        ({
            let (f, k) = run_steps(fs, spec_plan(ms));
            &&& k == spec_plan(ms).len()
            &&& !f.source_files.dom().contains(ms[i].source_path)
            &&& f.dest_files.contains_pair(
                (ms[i].fields.user_id, ms[i].fields.original_filename),
                fs.source_files[ms[i].source_path],
            )
        }),
{
    lemma_run_exact(fs, ms);
    lemma_remove_sources_at(fs.source_files, ms, ms[i].source_path);
    assert(has_source(ms, ms[i].source_path));
    lemma_add_dests_value(fs.dest_files, fs.source_files, ms, i);
}

/// The plan steps contributed by the matches from index `n` on, each
/// taken against the users the matches before it already handled.
pub open spec fn plan_suffix(ms: Seq<DirMatchModel>, n: int) -> Seq<StepModel>
    decreases ms.len() - n,
{
    if n < 0 || n >= ms.len() {
        Seq::empty()
    } else {
        steps_for(ms[n], users_of(ms.subrange(0, n)).contains(ms[n].fields.user_id))
            + plan_suffix(ms, n + 1)
    }
}

proof fn lemma_plan_split(ms: Seq<DirMatchModel>, n: int)
    requires
        0 <= n <= ms.len(),
    ensures
        spec_plan(ms) == spec_plan(ms.subrange(0, n)) + plan_suffix(ms, n),
    decreases ms.len() - n,
{
    if n == ms.len() {
        assert(ms.subrange(0, n) =~= ms);
        assert(spec_plan(ms.subrange(0, n)) + plan_suffix(ms, n) =~= spec_plan(ms));
    } else {
        lemma_plan_split(ms, n + 1);
        let pre_n = ms.subrange(0, n);
        let pre_n1 = ms.subrange(0, n + 1);
        assert(pre_n1.drop_last() =~= pre_n);
        assert(pre_n1.last() == ms[n]);
        let st = steps_for(ms[n], users_of(pre_n).contains(ms[n].fields.user_id));
        assert(spec_plan(pre_n1) == spec_plan(pre_n) + st);
        assert(spec_plan(pre_n) + plan_suffix(ms, n) =~= (spec_plan(pre_n) + st) + plan_suffix(
            ms,
            n + 1,
        ));
    }
}

proof fn lemma_users_of_index(ms: Seq<DirMatchModel>, uid: Seq<char>)
    ensures
        users_of(ms).contains(uid) == exists|j: int|
            0 <= j < ms.len() && #[trigger] ms[j].fields.user_id == uid,
    decreases ms.len(),
{
    if ms.len() == 0 {
    } else {
        let p0 = ms.drop_last();
        lemma_users_of_index(p0, uid);
        assert(forall|k: int| 0 <= k < p0.len() ==> p0[k] == ms[k]);
        if users_of(ms).contains(uid) {
            if ms.last().fields.user_id == uid {
                assert(ms[ms.len() - 1].fields.user_id == uid);
            } else {
                let j = choose|j: int|
                    0 <= j < p0.len() && #[trigger] p0[j].fields.user_id == uid;
                assert(ms[j].fields.user_id == uid);
            }
        }
        if exists|j: int| 0 <= j < ms.len() && #[trigger] ms[j].fields.user_id == uid {
            let j = choose|j: int| 0 <= j < ms.len() && #[trigger] ms[j].fields.user_id == uid;
            if j < ms.len() - 1 {
                assert(p0[j].fields.user_id == uid);
            }
        }
    }
}

/// Fatal abort: when the destination subdirectory of some match's user
/// id already exists before the run starts — and no earlier match's does
/// — the run performs the earlier matches' steps, fails at that user's
/// directory creation, and stops there: every match from the failing one
/// on keeps its source file, untouched, at its source path.
pub proof fn lemma_abort_leaves_later_sources(fs: FsModel, ms: Seq<DirMatchModel>, i: int)
    requires
        distinct_sources(ms),
        sources_present(fs, ms),
        0 <= i < ms.len(),
        fs.dirs.contains(ms[i].fields.user_id),
        forall|j: int| 0 <= j < i ==> !fs.dirs.contains(#[trigger] ms[j].fields.user_id),
    ensures
        ({
            let (f, k) = run_steps(fs, spec_plan(ms));
            &&& k < spec_plan(ms).len()
            &&& forall|j: int|
                i <= j < ms.len() ==> f.source_files.contains_pair(
                    #[trigger] ms[j].source_path,
                    fs.source_files[ms[j].source_path],
                )
        }),
{
    let pre = ms.subrange(0, i);
    assert(forall|k: int| 0 <= k < i ==> pre[k] == ms[k]);
    lemma_run_exact(fs, pre);
    lemma_plan_split(ms, i);
    let suffix = plan_suffix(ms, i);
    lemma_run_concat(fs, spec_plan(pre), suffix);
    let s0 = FsModel {
        dirs: fs.dirs.union(users_of(pre)),
        source_files: remove_sources(fs.source_files, pre),
        dest_files: add_dests(fs.dest_files, fs.source_files, pre),
    };
    let seen_i = users_of(pre).contains(ms[i].fields.user_id);
    assert(!seen_i) by {
        lemma_users_of_index(pre, ms[i].fields.user_id);
        if seen_i {
            let j = choose|j: int|
                0 <= j < pre.len() && #[trigger] pre[j].fields.user_id == ms[i].fields.user_id;
            assert(!fs.dirs.contains(ms[j].fields.user_id));
        }
    }
    let cd = StepModel::CreateDir { user_id: ms[i].fields.user_id };
    let st = steps_for(ms[i], seen_i);
    assert(st[0] == cd);
    assert(suffix == st + plan_suffix(ms, i + 1));
    assert(suffix[0] == cd);
    assert(suffix.len() >= st.len());
    assert(s0.dirs.contains(ms[i].fields.user_id));
    assert(apply_step(s0, cd) is None);
    assert(run_steps(s0, suffix) == (s0, 0int));
    assert(run_steps(fs, spec_plan(ms)) == (s0, spec_plan(pre).len() as int));
    assert forall|j: int| i <= j < ms.len() implies s0.source_files.contains_pair(
        #[trigger] ms[j].source_path,
        fs.source_files[ms[j].source_path],
    ) by {
        lemma_remove_sources_at(fs.source_files, pre, ms[j].source_path);
        assert(!has_source(pre, ms[j].source_path)) by {
            if has_source(pre, ms[j].source_path) {
                let k = choose|k: int|
                    0 <= k < pre.len() && #[trigger] pre[k].source_path == ms[j].source_path;
                assert(ms[k].source_path == ms[j].source_path);
            }
        }
        assert(fs.source_files.dom().contains(ms[j].source_path));
    }
}

} // verus!
