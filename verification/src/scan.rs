//! The directory scanner: applies the filename matcher to a listing of
//! path strings and collects the matches in listing order.
//!
//! Enumerating a directory is input handled by the caller; this module
//! holds the part with a contract: which names match and what each match
//! carries.

use vstd::prelude::*;
use crate::pattern;
use crate::pattern::{FieldsModel, SubmissionMatch};

verus! {

/// A match found in a directory listing: the extracted fields together
/// with the source path the file can be moved from.
#[derive(Debug, Clone, PartialEq, Eq)]
pub struct DirMatch {
    /// The path string the match was found in, kept for the move.
    pub source_path: String,
    /// The extracted fields.
    pub fields: SubmissionMatch,
}

/// The mathematical value of a directory match.
#[verifier::ext_equal]
pub struct DirMatchModel {
    pub source_path: Seq<char>,
    pub fields: FieldsModel,
}

impl View for DirMatch {
    type V = DirMatchModel;

    open spec fn view(&self) -> DirMatchModel {
        DirMatchModel { source_path: self.source_path@, fields: self.fields@ }
    }
}

/// The views of a sequence of strings.
pub open spec fn views_of(names: Seq<String>) -> Seq<Seq<char>> {
    names.map_values(|n: String| n@)
}

/// The matches of a listing, in listing order: one entry for each name
/// the grammar holds in, carrying that name and its extracted fields.
pub open spec fn spec_scan(names: Seq<Seq<char>>) -> Seq<DirMatchModel>
    decreases names.len(),
{
    if names.len() == 0 {
        Seq::empty()
    } else {
        let prefix = spec_scan(names.drop_last());
        let s = names.last();
        if pattern::has_match(s) {
            prefix.push(DirMatchModel { source_path: s, fields: pattern::spec_fields(s) })
        } else {
            prefix
        }
    }
}

/// Applies the matcher to every name of a directory listing and collects
/// the matches in listing order; names the grammar does not hold in are
/// skipped.
pub fn scan_names(names: &Vec<String>) -> (r: Vec<DirMatch>)
    ensures
        r@.map_values(|dm: DirMatch| dm@) == spec_scan(views_of(names@)),
{
    let ghost vs = views_of(names@);
    let mut r: Vec<DirMatch> = Vec::new();
    let mut i: usize = 0;
    while i < names.len()
        invariant
            i <= names.len(),
            vs == views_of(names@),
            r@.map_values(|dm: DirMatch| dm@) == spec_scan(vs.subrange(0, i as int)),
        decreases names.len() - i,
    {
        let name: &String = &names[i];
        proof {
            assert(vs[i as int] == name@);
        }
        match pattern::match_name(name.as_str()) {
            Some(m) => {
                let dm = DirMatch { source_path: name.clone(), fields: m };
                proof {
                    let (lab, u) = choose|lab: int, u: int|
                        #[trigger] pattern::is_extraction(name@, lab, u) && pattern::fields_of(
                            name@,
                            lab,
                            u,
                            m,
                        );
                    pattern::lemma_spec_fields(name@, lab, u);
                    assert(m@ =~= pattern::spec_fields(name@));
                    assert(pattern::match_at(name@, lab, u));
                    assert(pattern::has_match(name@));
                    let p0 = vs.subrange(0, i as int);
                    let p1 = vs.subrange(0, i + 1 as int);
                    assert(p1.drop_last() =~= p0);
                    assert(p1.last() == vs[i as int]);
                    assert(r@.push(dm).map_values(|dm2: DirMatch| dm2@) =~= r@.map_values(
                        |dm2: DirMatch| dm2@,
                    ).push(dm@));
                }
                r.push(dm);
            },
            None => {
                proof {
                    let p0 = vs.subrange(0, i as int);
                    let p1 = vs.subrange(0, i + 1 as int);
                    assert(p1.drop_last() =~= p0);
                    assert(p1.last() == vs[i as int]);
                }
            },
        }
        i = i + 1;
    }
    proof {
        assert(vs.subrange(0, names@.len() as int) =~= vs);
    }
    r
}

/// The scanner is a function of the listing alone: scanning an unchanged
/// directory a second time yields the same matches, in the same order —
/// in particular the same match set.
pub proof fn lemma_scan_repeatable(names1: Seq<Seq<char>>, names2: Seq<Seq<char>>)
    requires
        names1 == names2,
    ensures
        spec_scan(names1) == spec_scan(names2),
{
}

} // verus!
