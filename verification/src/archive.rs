//! The archive scanner: applies the filename matcher to the entry names
//! of a zip archive and plans the extraction inline, in entry order.
//!
//! Unlike the directory scanner it buffers no match list: each matching
//! entry contributes its steps at once — the creation of its user's
//! subdirectory the first time that user id appears among the matching
//! entries, then the extraction of the entry into that subdirectory under
//! the original filename.  Reading and decompressing the entries is input
//! and output handled by the caller, which performs the steps strictly in
//! order and stops at the first failing one.

use vstd::prelude::*;
use crate::pattern;
use crate::pattern::FieldsModel;
use crate::scan::views_of;

verus! {

/// One step of an archive run, in the order it is performed.
#[derive(Debug, Clone, PartialEq, Eq)]
pub enum ArchiveStep {
    /// Create the destination subdirectory named after the user id.
    CreateDir { user_id: String },
    /// Decompress the entry at `entry_index` and write its bytes to
    /// `<dst>/<user_id>/<original_filename>`.
    ExtractFile { entry_index: usize, user_id: String, original_filename: String },
}

/// The mathematical value of an archive step.
#[verifier::ext_equal]
pub enum ArchiveStepModel {
    CreateDir { user_id: Seq<char> },
    ExtractFile { entry_index: int, user_id: Seq<char>, original_filename: Seq<char> },
}

impl View for ArchiveStep {
    type V = ArchiveStepModel;

    open spec fn view(&self) -> ArchiveStepModel {
        match self {
            ArchiveStep::CreateDir { user_id } => ArchiveStepModel::CreateDir {
                user_id: user_id@,
            },
            ArchiveStep::ExtractFile { entry_index, user_id, original_filename } => {
                ArchiveStepModel::ExtractFile {
                    entry_index: *entry_index as int,
                    user_id: user_id@,
                    original_filename: original_filename@,
                }
            },
        }
    }
}

/// The user ids of the matching names of a listing.
pub open spec fn matched_users(names: Seq<Seq<char>>) -> Set<Seq<char>>
    decreases names.len(),
{
    if names.len() == 0 {
        Set::empty()
    } else {
        let prev = matched_users(names.drop_last());
        if pattern::has_match(names.last()) {
            prev.insert(pattern::spec_fields(names.last()).user_id)
        } else {
            prev
        }
    }
}

/// The steps one matching entry contributes: its extraction, preceded by
/// the creation of its user's subdirectory when no earlier matching entry
/// had the same user id.
pub open spec fn extract_steps_for(idx: int, f: FieldsModel, seen: bool) -> Seq<
    ArchiveStepModel,
> {
    let ex = ArchiveStepModel::ExtractFile {
        entry_index: idx,
        user_id: f.user_id,
        original_filename: f.original_filename,
    };
    if seen {
        seq![ex]
    } else {
        seq![ArchiveStepModel::CreateDir { user_id: f.user_id }, ex]
    }
}

/// The ordered steps of an archive run over the entry names, by index.
pub open spec fn spec_archive_plan(names: Seq<Seq<char>>) -> Seq<ArchiveStepModel>
    decreases names.len(),
{
    if names.len() == 0 {
        Seq::empty()
    } else {
        let prefix = spec_archive_plan(names.drop_last());
        let s = names.last();
        if pattern::has_match(s) {
            prefix + extract_steps_for(
                names.len() - 1,
                pattern::spec_fields(s),
                matched_users(names.drop_last()).contains(pattern::spec_fields(s).user_id),
            )
        } else {
            prefix
        }
    }
}

/// Turns the entry names of an archive, listed by index, into the ordered
/// steps of a run: for each entry whose name matches, in entry order, a
/// directory creation the first time its user id appears, then its
/// extraction.  Entries whose names do not match contribute nothing.
pub fn plan_archive(entry_names: &Vec<String>) -> (r: Vec<ArchiveStep>)
    ensures
        r@.map_values(|st: ArchiveStep| st@) == spec_archive_plan(views_of(entry_names@)),
{
    let ghost vs = views_of(entry_names@);
    let mut r: Vec<ArchiveStep> = Vec::new();
    let mut seen: Vec<String> = Vec::new();
    let mut i: usize = 0;
    while i < entry_names.len()
        invariant
            i <= entry_names.len(),
            vs == views_of(entry_names@),
            r@.map_values(|st: ArchiveStep| st@) == spec_archive_plan(vs.subrange(0, i as int)),
            forall|uid: Seq<char>|
                matched_users(vs.subrange(0, i as int)).contains(uid) == views_of(
                    seen@,
                ).contains(uid),
        decreases entry_names.len() - i,
    {
        let name: &String = &entry_names[i];
        proof {
            assert(vs[i as int] == name@);
        }
        let ghost p0 = vs.subrange(0, i as int);
        let ghost p1 = vs.subrange(0, i + 1 as int);
        proof {
            assert(p1.drop_last() =~= p0);
            assert(p1.last() == vs[i as int]);
        }
        let ghost seen0 = seen@;
        match pattern::match_name(name.as_str()) {
            Some(m) => {
                proof {
                    let (lab, u) = choose|lab: int, u: int|
                        #[trigger] pattern::is_extraction(name@, lab, u) && pattern::fields_of(
                            name@,
                            lab,
                            u,
                            m,
                        );
                    pattern::lemma_spec_fields(name@, lab, u);
                    assert(m@ =~= pattern::spec_fields(name@));
                    assert(pattern::match_at(name@, lab, u));
                    assert(pattern::has_match(name@));
                }
                let was_seen = crate::plan::contains_user(&seen, &m.user_id);
                if !was_seen {
                    r.push(ArchiveStep::CreateDir { user_id: m.user_id.clone() });
                    seen.push(m.user_id.clone());
                }
                r.push(
                    ArchiveStep::ExtractFile {
                        entry_index: i,
                        user_id: m.user_id.clone(),
                        original_filename: m.original_filename.clone(),
                    },
                );
                proof {
                    assert(r@.map_values(|st: ArchiveStep| st@) =~= spec_archive_plan(p0)
                        + extract_steps_for(i as int, m@, was_seen));
                    assert(matched_users(p1) =~= matched_users(p0).insert(m.user_id@));
                    if !was_seen {
                        assert(views_of(seen@) =~= views_of(seen0).push(m.user_id@));
                    }
                    assert forall|uid: Seq<char>|
                        matched_users(p1).contains(uid) == views_of(seen@).contains(uid) by {
                        if !was_seen {
                            vstd::seq_lib::lemma_seq_contains_after_push(
                                views_of(seen0),
                                m.user_id@,
                                uid,
                            );
                        }
                    }
                }
            },
            None => {
                proof {
                    assert(matched_users(p1) =~= matched_users(p0));
                }
            },
        }
        i = i + 1;
    }
    proof {
        assert(vs.subrange(0, entry_names@.len() as int) =~= vs);
    }
    r
}

/// The number of steps in an archive plan that create the subdirectory
/// of `uid`.
pub open spec fn archive_creates_for(plan: Seq<ArchiveStepModel>, uid: Seq<char>) -> int
    decreases plan.len(),
{
    if plan.len() == 0 {
        0
    } else {
        archive_creates_for(plan.drop_last(), uid) + if plan.last() == (ArchiveStepModel::CreateDir {
            user_id: uid,
        }) {
            1int
        } else {
            0int
        }
    }
}

proof fn lemma_archive_creates_concat(
    a: Seq<ArchiveStepModel>,
    b: Seq<ArchiveStepModel>,
    uid: Seq<char>,
)
    ensures
        archive_creates_for(a + b, uid) == archive_creates_for(a, uid) + archive_creates_for(
            b,
            uid,
        ),
    decreases b.len(),
{
    if b.len() == 0 {
        assert(a + b =~= a);
    } else {
        assert((a + b).drop_last() =~= a + b.drop_last());
        assert((a + b).last() == b.last());
        lemma_archive_creates_concat(a, b.drop_last(), uid);
    }
}

/// However many matching entries share a user id, the archive plan
/// creates that user's destination subdirectory exactly once; and it
/// creates none for a user id no matching entry carries.
pub proof fn lemma_archive_one_create_per_user(names: Seq<Seq<char>>, uid: Seq<char>)
    ensures
        archive_creates_for(spec_archive_plan(names), uid) == if matched_users(names).contains(
            uid,
        ) {
            1int
        } else {
            0int
        },
    decreases names.len(),
{
    if names.len() == 0 {
    } else {
        let p0 = names.drop_last();
        let s = names.last();
        lemma_archive_one_create_per_user(p0, uid);
        assert(archive_creates_for(Seq::<ArchiveStepModel>::empty(), uid) == 0);
        if pattern::has_match(s) {
            let f = pattern::spec_fields(s);
            let seen = matched_users(p0).contains(f.user_id);
            let st = extract_steps_for(names.len() - 1, f, seen);
            let ex = ArchiveStepModel::ExtractFile {
                entry_index: names.len() - 1,
                user_id: f.user_id,
                original_filename: f.original_filename,
            };
            lemma_archive_creates_concat(spec_archive_plan(p0), st, uid);
            if seen {
                assert(st.drop_last() =~= Seq::<ArchiveStepModel>::empty());
                assert(st.last() == ex);
                assert(archive_creates_for(st.drop_last(), uid) == 0);
                assert(archive_creates_for(st, uid) == 0);
            } else {
                assert(st.drop_last() =~= seq![ArchiveStepModel::CreateDir { user_id: f.user_id }]);
                assert(st.drop_last().drop_last() =~= Seq::<ArchiveStepModel>::empty());
                assert(st.last() == ex);
                assert(archive_creates_for(st.drop_last().drop_last(), uid) == 0);
                assert(st.drop_last().last() == (ArchiveStepModel::CreateDir {
                    user_id: f.user_id,
                }));
                if f.user_id == uid {
                    assert(archive_creates_for(st.drop_last(), uid) == 1);
                    assert(archive_creates_for(st, uid) == 1);
                } else {
                    assert(archive_creates_for(st.drop_last(), uid) == 0);
                    assert(archive_creates_for(st, uid) == 0);
                }
            }
        }
    }
}

} // verus!
