//! The organizer: turns an ordered batch of matches into the ordered list
//! of filesystem steps a run performs.
//!
//! For each match in order, the destination subdirectory named after its
//! user id is created the first time that user id is seen in the batch,
//! and the source file is then moved into it under the original filename.
//! The caller performs the steps strictly in order and stops at the first
//! failing one, so a failing directory creation leaves every later match
//! untouched.

use vstd::prelude::*;
use crate::scan::{DirMatch, DirMatchModel};

verus! {

/// One filesystem step of an organizer run, in the order it is performed.
#[derive(Debug, Clone, PartialEq, Eq)]
pub enum PlanStep {
    /// Create the destination subdirectory named after the user id.
    CreateDir { user_id: String },
    /// Move the file at `source_path` to `<dst>/<user_id>/<original_filename>`.
    MoveFile { source_path: String, user_id: String, original_filename: String },
}

/// The mathematical value of a plan step.
#[verifier::ext_equal]
pub enum StepModel {
    CreateDir { user_id: Seq<char> },
    MoveFile { source_path: Seq<char>, user_id: Seq<char>, original_filename: Seq<char> },
}

impl View for PlanStep {
    type V = StepModel;

    open spec fn view(&self) -> StepModel {
        match self {
            PlanStep::CreateDir { user_id } => StepModel::CreateDir { user_id: user_id@ },
            PlanStep::MoveFile { source_path, user_id, original_filename } => StepModel::MoveFile {
                source_path: source_path@,
                user_id: user_id@,
                original_filename: original_filename@,
            },
        }
    }
}

/// The user ids occurring in a batch of matches.
pub open spec fn users_of(ms: Seq<DirMatchModel>) -> Set<Seq<char>>
    decreases ms.len(),
{
    if ms.len() == 0 {
        Set::empty()
    } else {
        users_of(ms.drop_last()).insert(ms.last().fields.user_id)
    }
}

/// The move step of one match.
pub open spec fn move_step(m: DirMatchModel) -> StepModel {
    StepModel::MoveFile {
        source_path: m.source_path,
        user_id: m.fields.user_id,
        original_filename: m.fields.original_filename,
    }
}

/// The steps one match contributes: its move, preceded by the creation of
/// its user's subdirectory when no earlier match had the same user id.
pub open spec fn steps_for(m: DirMatchModel, seen: bool) -> Seq<StepModel> {
    if seen {
        seq![move_step(m)]
    } else {
        seq![StepModel::CreateDir { user_id: m.fields.user_id }, move_step(m)]
    }
}

/// The ordered steps of an organizer run over a batch of matches.
pub open spec fn spec_plan(ms: Seq<DirMatchModel>) -> Seq<StepModel>
    decreases ms.len(),
{
    if ms.len() == 0 {
        Seq::empty()
    } else {
        spec_plan(ms.drop_last()) + steps_for(
            ms.last(),
            users_of(ms.drop_last()).contains(ms.last().fields.user_id),
        )
    }
}

pub(crate) fn contains_user(seen: &Vec<String>, uid: &String) -> (r: bool)
    ensures
        r == crate::scan::views_of(seen@).contains(uid@),
{
    let ghost vs = crate::scan::views_of(seen@);
    let mut i: usize = 0;
    while i < seen.len()
        invariant
            i <= seen.len(),
            vs == crate::scan::views_of(seen@),
            forall|j: int| 0 <= j < i ==> vs[j] != uid@,
        decreases seen.len() - i,
    {
        proof {
            assert(vs[i as int] == seen@[i as int]@);
        }
        if seen[i].eq(uid) {
            assert(vs[i as int] == uid@);
            return true;
        }
        i = i + 1;
    }
    false
}

/// Turns a batch of matches into the ordered steps of a run: for each
/// match in batch order, a directory creation the first time its user id
/// appears, then its move.
pub fn plan_moves(matches: &Vec<DirMatch>) -> (r: Vec<PlanStep>)
    ensures
        r@.map_values(|st: PlanStep| st@) == spec_plan(
            matches@.map_values(|dm: DirMatch| dm@),
        ),
{
    let ghost ms = matches@.map_values(|dm: DirMatch| dm@);
    let mut r: Vec<PlanStep> = Vec::new();
    let mut seen: Vec<String> = Vec::new();
    let mut i: usize = 0;
    while i < matches.len()
        invariant
            i <= matches.len(),
            ms == matches@.map_values(|dm: DirMatch| dm@),
            r@.map_values(|st: PlanStep| st@) == spec_plan(ms.subrange(0, i as int)),
            forall|uid: Seq<char>|
                users_of(ms.subrange(0, i as int)).contains(uid) == crate::scan::views_of(
                    seen@,
                ).contains(uid),
        decreases matches.len() - i,
    {
        let m: &DirMatch = &matches[i];
        proof {
            assert(ms[i as int] == m@);
        }
        let ghost seen0 = seen@;
        let was_seen = contains_user(&seen, &m.fields.user_id);
        if !was_seen {
            r.push(PlanStep::CreateDir { user_id: m.fields.user_id.clone() });
            seen.push(m.fields.user_id.clone());
        }
        r.push(
            PlanStep::MoveFile {
                source_path: m.source_path.clone(),
                user_id: m.fields.user_id.clone(),
                original_filename: m.fields.original_filename.clone(),
            },
        );
        proof {
            let p0 = ms.subrange(0, i as int);
            let p1 = ms.subrange(0, i + 1 as int);
            assert(p1.drop_last() =~= p0);
            assert(p1.last() == ms[i as int]);
            assert(r@.map_values(|st: PlanStep| st@) =~= spec_plan(p0) + steps_for(
                m@,
                was_seen,
            ));
            assert(users_of(p1) =~= users_of(p0).insert(m.fields.user_id@));
            if !was_seen {
                assert(crate::scan::views_of(seen@) =~= crate::scan::views_of(seen0).push(
                    m.fields.user_id@,
                ));
            }
            assert forall|uid: Seq<char>|
                users_of(p1).contains(uid) == crate::scan::views_of(seen@).contains(uid) by {
                if !was_seen {
                    vstd::seq_lib::lemma_seq_contains_after_push(
                        crate::scan::views_of(seen0),
                        m.fields.user_id@,
                        uid,
                    );
                }
            }
        }
        i = i + 1;
    }
    proof {
        assert(ms.subrange(0, matches@.len() as int) =~= ms);
    }
    r
}

/// The user id a step concerns.
pub open spec fn step_user(st: StepModel) -> Seq<char> {
    match st {
        StepModel::CreateDir { user_id } => user_id,
        StepModel::MoveFile { user_id, .. } => user_id,
    }
}

/// The number of steps in a plan that create the subdirectory of `uid`.
pub open spec fn creates_for(plan: Seq<StepModel>, uid: Seq<char>) -> int
    decreases plan.len(),
{
    if plan.len() == 0 {
        0
    } else {
        creates_for(plan.drop_last(), uid) + if plan.last() == (StepModel::CreateDir {
            user_id: uid,
        }) {
            1int
        } else {
            0int
        }
    }
}

proof fn lemma_creates_concat(a: Seq<StepModel>, b: Seq<StepModel>, uid: Seq<char>)
    ensures
        creates_for(a + b, uid) == creates_for(a, uid) + creates_for(b, uid),
    decreases b.len(),
{
    if b.len() == 0 {
        assert(a + b =~= a);
    } else {
        assert((a + b).drop_last() =~= a + b.drop_last());
        assert((a + b).last() == b.last());
        lemma_creates_concat(a, b.drop_last(), uid);
    }
}

/// Grouping correctness: however many matches of a batch share a user id,
/// and whatever their labels and timestamps, the plan creates that user's
/// destination subdirectory exactly once; and it creates none for a user
/// id that no match carries.
pub proof fn lemma_one_create_per_user(ms: Seq<DirMatchModel>, uid: Seq<char>)
    ensures
        creates_for(spec_plan(ms), uid) == if users_of(ms).contains(uid) {
            1int
        } else {
            0int
        },
    decreases ms.len(),
{
    if ms.len() == 0 {
    } else {
        let m = ms.last();
        let p0 = ms.drop_last();
        let seen = users_of(p0).contains(m.fields.user_id);
        let st = steps_for(m, seen);
        lemma_one_create_per_user(p0, uid);
        lemma_creates_concat(spec_plan(p0), st, uid);
        assert(creates_for(Seq::<StepModel>::empty(), uid) == 0);
        if seen {
            assert(st.drop_last() =~= Seq::<StepModel>::empty());
            assert(st.last() == move_step(m));
            assert(creates_for(st.drop_last(), uid) == 0);
            assert(creates_for(st, uid) == 0);
        } else {
            assert(st.drop_last() =~= seq![StepModel::CreateDir { user_id: m.fields.user_id }]);
            assert(st.drop_last().drop_last() =~= Seq::<StepModel>::empty());
            assert(st.last() == move_step(m));
            assert(creates_for(st.drop_last().drop_last(), uid) == 0);
            assert(st.drop_last().last() == (StepModel::CreateDir { user_id: m.fields.user_id }));
            if m.fields.user_id == uid {
                assert(creates_for(st.drop_last(), uid) == 1);
                assert(creates_for(st, uid) == 1);
            } else {
                assert(creates_for(st.drop_last(), uid) == 0);
                assert(creates_for(st, uid) == 0);
            }
        }
    }
}

/// The move steps of a plan, in plan order.
pub open spec fn moves_of(plan: Seq<StepModel>) -> Seq<StepModel>
    decreases plan.len(),
{
    if plan.len() == 0 {
        Seq::empty()
    } else {
        moves_of(plan.drop_last()) + if plan.last() is MoveFile {
            seq![plan.last()]
        } else {
            Seq::empty()
        }
    }
}

proof fn lemma_moves_concat(a: Seq<StepModel>, b: Seq<StepModel>)
    ensures
        moves_of(a + b) == moves_of(a) + moves_of(b),
    decreases b.len(),
{
    if b.len() == 0 {
        assert(a + b =~= a);
        assert(moves_of(b) =~= Seq::<StepModel>::empty());
        assert(moves_of(a) + moves_of(b) =~= moves_of(a));
    } else {
        assert((a + b).drop_last() =~= a + b.drop_last());
        assert((a + b).last() == b.last());
        lemma_moves_concat(a, b.drop_last());
        assert(moves_of(a) + moves_of(b.drop_last()) + (if b.last() is MoveFile {
            seq![b.last()]
        } else {
            Seq::<StepModel>::empty()
        }) =~= moves_of(a) + moves_of(b));
    }
}

/// Move semantics, plan side: a plan moves each matched file exactly
/// once, in batch order, from its source path to its user's subdirectory
/// under the original filename — no more and no fewer moves than matches.
pub proof fn lemma_moves_exact(ms: Seq<DirMatchModel>)
    ensures
        moves_of(spec_plan(ms)) == ms.map_values(|m: DirMatchModel| move_step(m)),
    decreases ms.len(),
{
    if ms.len() == 0 {
        assert(moves_of(spec_plan(ms)) =~= ms.map_values(|m: DirMatchModel| move_step(m)));
    } else {
        let m = ms.last();
        let p0 = ms.drop_last();
        let seen = users_of(p0).contains(m.fields.user_id);
        let st = steps_for(m, seen);
        lemma_moves_exact(p0);
        lemma_moves_concat(spec_plan(p0), st);
        assert(moves_of(Seq::<StepModel>::empty()) =~= Seq::<StepModel>::empty());
        if seen {
            assert(st.drop_last() =~= Seq::<StepModel>::empty());
            assert(st.last() == move_step(m));
            assert(moves_of(st.drop_last()) =~= Seq::<StepModel>::empty());
            assert(moves_of(st) =~= seq![move_step(m)]);
        } else {
            assert(st.drop_last() =~= seq![StepModel::CreateDir { user_id: m.fields.user_id }]);
            assert(st.drop_last().drop_last() =~= Seq::<StepModel>::empty());
            assert(st.drop_last().last() == (StepModel::CreateDir { user_id: m.fields.user_id }));
            assert(st.last() == move_step(m));
            assert(moves_of(st.drop_last().drop_last()) =~= Seq::<StepModel>::empty());
            assert(moves_of(st.drop_last()) =~= Seq::<StepModel>::empty());
            assert(moves_of(st) =~= seq![move_step(m)]);
        }
        assert(moves_of(spec_plan(ms)) =~= ms.map_values(|m2: DirMatchModel| move_step(m2)));
    }
}

proof fn lemma_creates_pos(p: Seq<StepModel>, uid: Seq<char>)
    requires
        creates_for(p, uid) > 0,
    ensures
        exists|j: int|
            0 <= j < p.len() && p[j] == (StepModel::CreateDir { user_id: uid }),
    decreases p.len(),
{
    if p.last() == (StepModel::CreateDir { user_id: uid }) {
        assert(p[p.len() - 1] == (StepModel::CreateDir { user_id: uid }));
    } else {
        lemma_creates_pos(p.drop_last(), uid);
        let j = choose|j: int|
            0 <= j < p.drop_last().len() && p.drop_last()[j] == (StepModel::CreateDir {
                user_id: uid,
            });
        assert(p[j] == p.drop_last()[j]);
    }
}

/// Fatal-abort safety, plan side: every move step is preceded in the plan
/// by the creation of its user's subdirectory.  A run that performs the
/// steps strictly in order and stops at the first failure therefore never
/// reaches a match's move when the creation for its user failed — no
/// match after the failing step is relocated.
pub proof fn lemma_create_precedes_move(ms: Seq<DirMatchModel>, k: int)
    requires
        0 <= k < spec_plan(ms).len(),
        spec_plan(ms)[k] is MoveFile,
    ensures
        exists|j: int|
            0 <= j < k && spec_plan(ms)[j] == (StepModel::CreateDir {
                user_id: step_user(spec_plan(ms)[k]),
            }),
    decreases ms.len(),
{
    if ms.len() == 0 {
    } else {
        let m = ms.last();
        let p0 = ms.drop_last();
        let seen = users_of(p0).contains(m.fields.user_id);
        let st = steps_for(m, seen);
        let plan = spec_plan(ms);
        let n0 = spec_plan(p0).len() as int;
        assert(forall|i: int| 0 <= i < n0 ==> plan[i] == spec_plan(p0)[i]);
        assert(forall|i: int| n0 <= i < plan.len() ==> plan[i] == st[i - n0]);
        if k < n0 {
            lemma_create_precedes_move(p0, k);
            let j = choose|j: int|
                0 <= j < k && spec_plan(p0)[j] == (StepModel::CreateDir {
                    user_id: step_user(spec_plan(p0)[k]),
                });
            assert(plan[j] == spec_plan(p0)[j]);
        } else {
            if seen {
                assert(plan[k] == st[0] && st[0] == move_step(m));
                lemma_one_create_per_user(p0, m.fields.user_id);
                lemma_creates_pos(spec_plan(p0), m.fields.user_id);
                let j = choose|j: int|
                    0 <= j < n0 && spec_plan(p0)[j] == (StepModel::CreateDir {
                        user_id: m.fields.user_id,
                    });
                assert(plan[j] == spec_plan(p0)[j]);
            } else {
                assert(st[0] == (StepModel::CreateDir { user_id: m.fields.user_id }));
                assert(st[1] == move_step(m));
                assert(plan[k] == st[k - n0]);
                assert(k == n0 + 1);
                assert(plan[n0] == (StepModel::CreateDir {
                    user_id: step_user(plan[k]),
                }));
            }
        }
    }
}

} // verus!
