//! The submission filename grammar and its matcher.
//!
//! A submission export names each file
//! `<group_label>_<user_id>_attempt_<timestamp>_<original_filename>`,
//! where the group label is one or more word-character runs separated by
//! single whitespace characters, the user id is exactly eight word
//! characters, the timestamp has the lexical shape `YYYY-MM-DD-HH-MM-SS`,
//! and the original filename is a word-character base name, one dot, and a
//! word-character extension reaching the end of the string.  Arbitrary
//! leading text (such as path segments) may precede the label.

use vstd::prelude::*;

verus! {

/// Word characters: ASCII letters, digits, and the underscore.
pub open spec fn is_word_char(c: char) -> bool {
    ||| c == '_'
    ||| 'a' <= c && c <= 'z'
    ||| 'A' <= c && c <= 'Z'
    ||| '0' <= c && c <= '9'
}

/// ASCII whitespace characters accepted inside a group label.
pub open spec fn is_space_char(c: char) -> bool {
    c == ' ' || c == '\t' || c == '\n' || c == '\r' || c == '\u{b}' || c == '\u{c}'
}

/// ASCII decimal digits.
pub open spec fn is_digit_char(c: char) -> bool {
    '0' <= c && c <= '9'
}

/// A valid group label: nonempty, made of word characters and whitespace,
/// starting with a word character, and never two whitespace characters in
/// a row (each whitespace separates word-character runs).
pub open spec fn valid_label(s: Seq<char>) -> bool {
    &&& s.len() > 0
    &&& is_word_char(s[0])
    &&& forall|i: int|
        0 <= i < s.len() ==> is_word_char(s[i]) || (is_space_char(s[i]) && 0 < i
            && is_word_char(s[i - 1]))
}

/// Positions of the dashes inside the 19-character timestamp.
pub open spec fn is_dash_pos(i: int) -> bool {
    i == 4 || i == 7 || i == 10 || i == 13 || i == 16
}

/// A valid timestamp: exactly the lexical form `YYYY-MM-DD-HH-MM-SS`.
pub open spec fn valid_timestamp(s: Seq<char>) -> bool {
    &&& s.len() == 19
    &&& forall|i: int|
        0 <= i < 19 ==> if is_dash_pos(i) {
            s[i] == '-'
        } else {
            is_digit_char(s[i])
        }
}

/// A valid original filename: a nonempty word-character base name, a
/// single dot, and a nonempty word-character extension.
pub open spec fn valid_original_name(s: Seq<char>) -> bool {
    exists|d: int|
        0 < d < s.len() - 1 && #[trigger] s[d] == '.' && (forall|i: int|
            0 <= i < s.len() && i != d ==> is_word_char(#[trigger] s[i]))
}

/// The literal separator `_attempt_` between the user id and the timestamp.
pub open spec fn attempt_lit() -> Seq<char> {
    seq!['_', 'a', 't', 't', 'e', 'm', 'p', 't', '_']
}

/// Everything to the right of the label holds at separator position `u`:
/// `u` indexes the underscore before the user id, the eight id characters
/// follow, then the `_attempt_` literal, the timestamp, an underscore, and
/// the original filename running to the end of the string.
pub open spec fn right_ok(s: Seq<char>, u: int) -> bool {
    &&& 0 <= u
    &&& u + 41 <= s.len()
    &&& s[u] == '_'
    &&& forall|i: int| u + 1 <= i < u + 9 ==> is_word_char(#[trigger] s[i])
    &&& s.subrange(u + 9, u + 18) == attempt_lit()
    &&& valid_timestamp(s.subrange(u + 18, u + 37))
    &&& s[u + 37] == '_'
    &&& valid_original_name(s.subrange(u + 38, s.len() as int))
}

/// The whole grammar holds with the label occupying `[lab, u)` and the
/// separator underscore at `u`.
pub open spec fn match_at(s: Seq<char>, lab: int, u: int) -> bool {
    &&& 0 <= lab < u
    &&& valid_label(s.subrange(lab, u))
    &&& right_ok(s, u)
}

/// The string contains a submission filename somewhere.
pub open spec fn has_match(s: Seq<char>) -> bool {
    exists|lab: int, u: int| match_at(s, lab, u)
}

/// The four fields extracted from a matching filename.
#[derive(Debug, Clone, PartialEq, Eq)]
pub struct SubmissionMatch {
    /// Free-text label before the user id; informational only.
    pub group_label: String,
    /// Exactly eight word characters; the grouping key.
    pub user_id: String,
    /// The timestamp text, `YYYY-MM-DD-HH-MM-SS`.
    pub submitted_at: String,
    /// The trailing `name.ext` token.
    pub original_filename: String,
}

/// The fields of `m` are exactly the pieces of `s` cut at label start
/// `lab` and separator `u`.
pub open spec fn fields_of(s: Seq<char>, lab: int, u: int, m: SubmissionMatch) -> bool {
    &&& m.group_label@ == s.subrange(lab, u)
    &&& m.user_id@ == s.subrange(u + 1, u + 9)
    &&& m.submitted_at@ == s.subrange(u + 18, u + 37)
    &&& m.original_filename@ == s.subrange(u + 38, s.len() as int)
}

/// `(lab, u)` is the decomposition the matcher reports: the grammar holds
/// there and no label start further left works for the same separator.
pub open spec fn is_extraction(s: Seq<char>, lab: int, u: int) -> bool {
    &&& match_at(s, lab, u)
    &&& forall|l2: int| 0 <= l2 < lab ==> !match_at(s, l2, u)
}

/// The mathematical value of a match: the four fields as character
/// sequences.
#[verifier::ext_equal]
pub struct FieldsModel {
    pub group_label: Seq<char>,
    pub user_id: Seq<char>,
    pub submitted_at: Seq<char>,
    pub original_filename: Seq<char>,
}

impl View for SubmissionMatch {
    type V = FieldsModel;

    open spec fn view(&self) -> FieldsModel {
        FieldsModel {
            group_label: self.group_label@,
            user_id: self.user_id@,
            submitted_at: self.submitted_at@,
            original_filename: self.original_filename@,
        }
    }
}

/// The fields cut out of `s` at label start `lab` and separator `u`.
pub open spec fn fields_at(s: Seq<char>, lab: int, u: int) -> FieldsModel {
    FieldsModel {
        group_label: s.subrange(lab, u),
        user_id: s.subrange(u + 1, u + 9),
        submitted_at: s.subrange(u + 18, u + 37),
        original_filename: s.subrange(u + 38, s.len() as int),
    }
}

/// The fields of a matching string: the cut at its extraction point.
/// Meaningful only when `has_match(s)` holds.
pub open spec fn spec_fields(s: Seq<char>) -> FieldsModel {
    let (lab, u) = choose|lab: int, u: int| is_extraction(s, lab, u);
    fields_at(s, lab, u)
}

/// A matching string has an extraction point: among the label starts that
/// work for its separator there is a leftmost one.
pub proof fn lemma_extraction_exists(s: Seq<char>)
    requires
        has_match(s),
    ensures
        exists|lab: int, u: int| is_extraction(s, lab, u),
{
    let (lab, u) = choose|lab: int, u: int| match_at(s, lab, u);
    lemma_min_label(s, lab, u);
}

proof fn lemma_min_label(s: Seq<char>, lab: int, u: int)
    requires
        match_at(s, lab, u),
    ensures
        exists|l2: int, u2: int| is_extraction(s, l2, u2),
    decreases lab,
{
    if forall|l2: int| 0 <= l2 < lab ==> !match_at(s, l2, u) {
        assert(is_extraction(s, lab, u));
    } else {
        let l2 = choose|l2: int| 0 <= l2 < lab && match_at(s, l2, u);
        lemma_min_label(s, l2, u);
    }
}

/// `spec_fields` agrees with any extraction point: the cut is the same
/// wherever the witness comes from.
pub proof fn lemma_spec_fields(s: Seq<char>, lab: int, u: int)
    requires
        is_extraction(s, lab, u),
    ensures
        spec_fields(s) == fields_at(s, lab, u),
{
    let (l2, u2) = choose|l2: int, u2: int| is_extraction(s, l2, u2);
    assert(is_extraction(s, l2, u2));
    lemma_extraction_unique(s, lab, u, l2, u2);
}

/// For every string the grammar holds in, the matcher's result carries
/// exactly the tokens of that decomposition: whatever witness the caller
/// has, the user id is the eight characters before the `_attempt_`
/// literal, the timestamp the nineteen after it, and the original
/// filename the trailing token.
pub proof fn lemma_fields_are_the_tokens(
    s: Seq<char>,
    lab: int,
    u: int,
    l2: int,
    u2: int,
    m: SubmissionMatch,
)
    requires
        match_at(s, lab, u),
        is_extraction(s, l2, u2),
        fields_of(s, l2, u2, m),
    ensures
        m.user_id@ == s.subrange(u + 1, u + 9),
        m.submitted_at@ == s.subrange(u + 18, u + 37),
        m.original_filename@ == s.subrange(u + 38, s.len() as int),
        m.user_id@.len() == 8,
{
    lemma_separator_unique(s, lab, u, l2, u2);
}

/// The extracted user id is always exactly the eight word characters
/// before the `_attempt_` literal — never longer and never shorter.
pub proof fn lemma_user_id_len(s: Seq<char>, lab: int, u: int)
    requires
        match_at(s, lab, u),
    ensures
        fields_at(s, lab, u).user_id.len() == 8,
        forall|i: int|
            0 <= i < 8 ==> is_word_char(#[trigger] fields_at(s, lab, u).user_id[i]),
{
    assert(forall|i: int|
        0 <= i < 8 ==> fields_at(s, lab, u).user_id[i] == s[u + 1 + i]);
}

fn word_char(c: char) -> (r: bool)
    ensures
        r == is_word_char(c),
{
    c == '_' || ('a' <= c && c <= 'z') || ('A' <= c && c <= 'Z') || ('0' <= c && c <= '9')
}

fn space_char(c: char) -> (r: bool)
    ensures
        r == is_space_char(c),
{
    c == ' ' || c == '\t' || c == '\n' || c == '\r' || c == '\u{b}' || c == '\u{c}'
}

fn digit_char(c: char) -> (r: bool)
    ensures
        r == is_digit_char(c),
{
    '0' <= c && c <= '9'
}

fn to_chars(s: &str) -> (r: Vec<char>)
    ensures
        r@ == s@,
{
    let n = s.unicode_len();
    let mut r: Vec<char> = Vec::new();
    let mut i: usize = 0;
    while i < n
        invariant
            i <= n,
            n == s@.len(),
            r@ == s@.subrange(0, i as int),
        decreases n - i,
    {
        r.push(s.get_char(i));
        assert(r@ =~= s@.subrange(0, i + 1 as int));
        i = i + 1;
    }
    assert(r@ =~= s@);
    r
}

/// Checks every part of the grammar to the right of the label, with the
/// separator underscore at index `u`.
fn check_right(s: &Vec<char>, u: usize) -> (r: bool)
    requires
        u < s.len(),
    ensures
        r == right_ok(s@, u as int),
{
    if s.len() - u < 41 {
        return false;
    }
    if s[u] != '_' {
        return false;
    }
    // eight word characters of the user id
    let mut i: usize = u + 1;
    while i < u + 9
        invariant
            u + 1 <= i <= u + 9,
            u + 41 <= s.len(),
            forall|j: int| u + 1 <= j < i ==> is_word_char(#[trigger] s@[j]),
        decreases u + 9 - i,
    {
        if !word_char(s[i]) {
            return false;
        }
        i = i + 1;
    }
    // the literal `_attempt_`
    if !(s[u + 9] == '_' && s[u + 10] == 'a' && s[u + 11] == 't' && s[u + 12] == 't' && s[u + 13] == 'e' && s[u + 14] == 'm' && s[u + 15] == 'p'
        && s[u + 16] == 't' && s[u + 17] == '_') {
        proof {
            if s@.subrange(u + 9, u + 18) == attempt_lit() {
                assert(forall|k: int|
                    0 <= k < 9 ==> #[trigger] s@.subrange(u as int + 9, u as int + 18)[k] == s@[u
                        + 9 + k]);
                assert(s@[u + 9] == attempt_lit()[0]);
                assert(s@[u + 10] == attempt_lit()[1]);
                assert(s@[u + 11] == attempt_lit()[2]);
                assert(s@[u + 12] == attempt_lit()[3]);
                assert(s@[u + 13] == attempt_lit()[4]);
                assert(s@[u + 14] == attempt_lit()[5]);
                assert(s@[u + 15] == attempt_lit()[6]);
                assert(s@[u + 16] == attempt_lit()[7]);
                assert(s@[u + 17] == attempt_lit()[8]);
            }
        }
        return false;
    }
    proof {
        assert(s@.subrange(u + 9, u + 18) =~= attempt_lit());
    }
    // the timestamp
    let mut i: usize = 0;
    while i < 19
        invariant
            i <= 19,
            u + 41 <= s.len(),
            forall|j: int|
                0 <= j < i ==> if is_dash_pos(j) {
                    s@[u + 18 + j] == '-'
                } else {
                    is_digit_char(#[trigger] s@[u + 18 + j])
                },
        decreases 19 - i,
    {
        let c = s[u + 18 + i];
        if i == 4 || i == 7 || i == 10 || i == 13 || i == 16 {
            if c != '-' {
                proof {
                    lemma_ts_fail(s@, u as int, i as int);
                }
                return false;
            }
        } else {
            if !digit_char(c) {
                proof {
                    lemma_ts_fail(s@, u as int, i as int);
                }
                return false;
            }
        }
        i = i + 1;
    }
    proof {
        let ts = s@.subrange(u + 18, u + 37);
        assert(forall|j: int| 0 <= j < 19 ==> ts[j] == s@[u + 18 + j]);
        assert(valid_timestamp(ts));
    }
    if s[u + 37] != '_' {
        return false;
    }
    // the trailing original filename
    let n = s.len();
    let mut dot: Option<usize> = None;
    let mut i: usize = u + 38;
    while i < n
        invariant
            u + 38 <= i <= n,
            n == s.len(),
            u + 41 <= n,
            match dot {
                Some(d) => u + 38 < d < n - 1 && d < i && s@[d as int] == '.' && (forall|j: int|
                    u + 38 <= j < i && j != d ==> is_word_char(#[trigger] s@[j])),
                None => forall|j: int| u + 38 <= j < i ==> is_word_char(#[trigger] s@[j]),
            },
        decreases n - i,
    {
        let c = s[i];
        if c == '.' {
            if dot.is_some() || i == u + 38 || i == n - 1 {
                proof {
                    lemma_name_fail_dot(s@, u as int, dot, i as int);
                }
                return false;
            }
            dot = Some(i);
        } else if !word_char(c) {
            proof {
                lemma_name_fail_char(s@, u as int, i as int);
            }
            return false;
        }
        i = i + 1;
    }
    match dot {
        Some(d) => {
            proof {
                let t = s@.subrange(u + 38, n as int);
                assert(forall|j: int| 0 <= j < t.len() ==> t[j] == s@[u + 38 + j]);
                let dd = d - (u + 38);
                assert(t[dd] == '.');
                assert(forall|j: int| 0 <= j < t.len() && j != dd ==> is_word_char(t[j]));
                assert(valid_original_name(t));
            }
            true
        },
        None => {
            proof {
                let t = s@.subrange(u + 38, n as int);
                assert(forall|j: int| 0 <= j < t.len() ==> t[j] == s@[u + 38 + j]);
                assert(forall|j: int| 0 <= j < t.len() ==> is_word_char(t[j]));
                assert(!valid_original_name(t)) by {
                    if valid_original_name(t) {
                        let d = choose|d: int|
                            0 < d < t.len() - 1 && #[trigger] t[d] == '.' && (forall|i2: int|
                                0 <= i2 < t.len() && i2 != d ==> is_word_char(#[trigger] t[i2]));
                        assert(is_word_char(t[d]));
                    }
                }
            }
            false
        },
    }
}

/// Position `i` of `s` may stand inside a label whose earlier character
/// is also in the label: a word character, or whitespace right after a
/// word character.
pub open spec fn label_char_ok(s: Seq<char>, i: int) -> bool {
    is_word_char(s[i]) || (is_space_char(s[i]) && 0 < i && is_word_char(s[i - 1]))
}

/// The label grammar on `s[j..u)` restated over absolute positions of `s`.
proof fn lemma_label_shift(s: Seq<char>, j: int, u: int)
    requires
        0 <= j < u <= s.len(),
    ensures
        valid_label(s.subrange(j, u)) <==> (is_word_char(s[j]) && (forall|i: int|
            j < i < u ==> label_char_ok(s, i))),
{
    let t = s.subrange(j, u);
    assert(forall|k: int| 0 <= k < t.len() ==> t[k] == s[j + k]);
    if valid_label(t) {
        assert(is_word_char(s[j])) by {
            assert(t[0] == s[j]);
        }
        assert(forall|i: int| j < i < u ==> label_char_ok(s, i)) by {
            assert forall|i: int| j < i < u implies label_char_ok(s, i) by {
                let k = i - j;
                assert(is_word_char(t[k]) || (is_space_char(t[k]) && 0 < k && is_word_char(
                    t[k - 1],
                )));
            }
        }
    }
    if is_word_char(s[j]) && (forall|i: int| j < i < u ==> label_char_ok(s, i)) {
        assert(t[0] == s[j]);
        assert forall|k: int| 0 <= k < t.len() implies is_word_char(t[k]) || (is_space_char(t[k])
            && 0 < k && is_word_char(t[k - 1])) by {
            assert(t[k] == s[j + k]);
            if k > 0 {
                assert(t[k - 1] == s[j + k - 1]);
                assert(label_char_ok(s, j + k));
            }
        }
        assert(valid_label(t));
    }
}

/// Finds the leftmost start of a valid label ending just before the
/// separator at `u`, or reports that none exists.
fn find_label_start(s: &Vec<char>, u: usize) -> (r: Option<usize>)
    requires
        u < s.len(),
    ensures
        match r {
            Some(lab) => lab < u && valid_label(s@.subrange(lab as int, u as int)) && (forall|
                l2: int,
            |
                0 <= l2 < lab ==> !valid_label(s@.subrange(l2, u as int))),
            None => forall|l2: int| 0 <= l2 < u ==> !valid_label(s@.subrange(l2, u as int)),
        },
{
    let mut k: usize = u;
    let mut all_ok: bool = true;
    let mut best: Option<usize> = None;
    while k > 0
        invariant
            k <= u < s.len(),
            all_ok == (forall|i: int| k <= i < u ==> label_char_ok(s@, i)),
            match best {
                Some(b) => k <= b < u && is_word_char(s@[b as int]) && (forall|i: int|
                    b < i < u ==> label_char_ok(s@, i)) && (forall|l2: int|
                    k <= l2 < b ==> !(is_word_char(s@[l2]) && (forall|i: int|
                        l2 < i < u ==> label_char_ok(s@, i)))),
                None => forall|l2: int|
                    k <= l2 < u ==> !(is_word_char(s@[l2]) && (forall|i: int|
                        l2 < i < u ==> label_char_ok(s@, i))),
            },
        decreases k,
    {
        let j = k - 1;
        let cj = s[j];
        if all_ok && word_char(cj) {
            best = Some(j);
        }
        let ok_j = word_char(cj) || (space_char(cj) && j > 0 && word_char(s[j - 1]));
        proof {
            assert(ok_j == label_char_ok(s@, j as int));
        }
        all_ok = all_ok && ok_j;
        k = j;
    }
    proof {
        match best {
            Some(b) => {
                lemma_label_shift(s@, b as int, u as int);
                assert forall|l2: int| 0 <= l2 < b implies !valid_label(
                    s@.subrange(l2, u as int),
                ) by {
                    lemma_label_shift(s@, l2, u as int);
                }
            },
            None => {
                assert forall|l2: int| 0 <= l2 < u implies !valid_label(
                    s@.subrange(l2, u as int),
                ) by {
                    lemma_label_shift(s@, l2, u as int);
                }
            },
        }
    }
    best
}

/// Parses a string against the submission filename grammar.  Returns the
/// four extracted fields cut at the unique separator position, with the
/// label extended as far left as the grammar allows, or `None` when the
/// grammar holds nowhere in the string.
pub fn match_name(s: &str) -> (r: Option<SubmissionMatch>)
    ensures
        match r {
            Some(m) => exists|lab: int, u: int|
                #[trigger] is_extraction(s@, lab, u) && fields_of(s@, lab, u, m),
            None => !has_match(s@),
        },
{
    let chars = to_chars(s);
    let n = chars.len();
    let mut u: usize = 0;
    while u < n
        invariant
            u <= n,
            n == s@.len(),
            chars@ == s@,
            forall|l2: int, u2: int| 0 <= u2 < u ==> !match_at(s@, l2, u2),
        decreases n - u,
    {
        if check_right(&chars, u) {
            match find_label_start(&chars, u) {
                Some(lab) => {
                    let m = SubmissionMatch {
                        group_label: s.substring_char(lab, u).to_owned(),
                        user_id: s.substring_char(u + 1, u + 9).to_owned(),
                        submitted_at: s.substring_char(u + 18, u + 37).to_owned(),
                        original_filename: s.substring_char(u + 38, n).to_owned(),
                    };
                    proof {
                        assert(match_at(s@, lab as int, u as int));
                        assert(is_extraction(s@, lab as int, u as int));
                    }
                    return Some(m);
                },
                None => {
                },
            }
        }
        u = u + 1;
    }
    proof {
        assert forall|lab: int, u2: int| !match_at(s@, lab, u2) by {
            if match_at(s@, lab, u2) {
                assert(0 <= u2 && u2 + 41 <= n);
            }
        }
    }
    None
}

/// Helper for the separator-uniqueness proof: with the grammar holding at
/// two separators, the second cannot sit strictly to the right.
proof fn lemma_no_second_separator(s: Seq<char>, l1: int, u1: int, l2: int, u2: int)
    requires
        match_at(s, l1, u1),
        match_at(s, l2, u2),
    ensures
        u2 <= u1,
{
    if u2 <= u1 {
        return;
    }
    let lit1 = s.subrange(u1 + 9, u1 + 18);
    let lit2 = s.subrange(u2 + 9, u2 + 18);
    assert(forall|k: int| 0 <= k < 9 ==> lit1[k] == s[u1 + 9 + k]);
    assert(forall|k: int| 0 <= k < 9 ==> lit2[k] == s[u2 + 9 + k]);
    let d = u2 - u1;
    if d <= 7 {
        // the first character of the second literal, an underscore, lands
        // inside the letters of the first literal
        assert(s[u2 + 9] == attempt_lit()[0]);
        assert(s[u1 + 9 + d] == attempt_lit()[d]);
        assert(attempt_lit()[1] == 'a' && attempt_lit()[2] == 't' && attempt_lit()[3] == 't'
            && attempt_lit()[4] == 'e' && attempt_lit()[5] == 'm' && attempt_lit()[6] == 'p'
            && attempt_lit()[7] == 't');
    } else if d == 8 {
        // the second character of the second literal lands on the first
        // digit of the first timestamp
        let ts1 = s.subrange(u1 + 18, u1 + 37);
        assert(s[u2 + 10] == attempt_lit()[1]);
        assert(ts1[0] == s[u1 + 18]);
        assert(is_digit_char(s[u1 + 18]));
    } else if d <= 27 {
        // the underscore opening the second literal lands inside the
        // first timestamp, which holds only digits and dashes
        let ts1 = s.subrange(u1 + 18, u1 + 37);
        let k = u2 + 9 - (u1 + 18);
        assert(0 <= k < 19);
        assert(ts1[k] == s[u2 + 9]);
        assert(s[u2 + 9] == attempt_lit()[0]);
    } else {
        // the first dash of the second timestamp lands inside the first
        // trailing filename, which holds only word characters and one dot
        let ts2 = s.subrange(u2 + 18, u2 + 37);
        assert(ts2[4] == s[u2 + 22]);
        assert(s[u2 + 22] == '-');
        let t = s.subrange(u1 + 38, s.len() as int);
        assert(forall|j: int| 0 <= j < t.len() ==> t[j] == s[u1 + 38 + j]);
        let k = u2 + 22 - (u1 + 38);
        assert(0 <= k < t.len());
        assert(valid_original_name(t));
        let dd = choose|dd: int|
            0 < dd < t.len() - 1 && #[trigger] t[dd] == '.' && (forall|i2: int|
                0 <= i2 < t.len() && i2 != dd ==> is_word_char(#[trigger] t[i2]));
        if k == dd {
            assert(t[k] == '.');
        } else {
            assert(is_word_char(t[k]));
        }
    }
}

/// The separator position of a matching filename is unique: the grammar
/// cannot hold at two different separator underscores of one string.
pub proof fn lemma_separator_unique(s: Seq<char>, l1: int, u1: int, l2: int, u2: int)
    requires
        match_at(s, l1, u1),
        match_at(s, l2, u2),
    ensures
        u1 == u2,
{
    lemma_no_second_separator(s, l1, u1, l2, u2);
    lemma_no_second_separator(s, l2, u2, l1, u1);
}

/// Every field the matcher reports is determined by the string alone:
/// two extractions of the same string agree on all four fields.
pub proof fn lemma_extraction_unique(s: Seq<char>, l1: int, u1: int, l2: int, u2: int)
    requires
        is_extraction(s, l1, u1),
        is_extraction(s, l2, u2),
    ensures
        l1 == l2,
        u1 == u2,
{
    lemma_separator_unique(s, l1, u1, l2, u2);
    if l1 < l2 {
        assert(!match_at(s, l1, u2));
    }
    if l2 < l1 {
        assert(!match_at(s, l2, u1));
    }
}

/// A timestamp region with a wrong character at offset `i` is invalid.
proof fn lemma_ts_fail(s: Seq<char>, u: int, i: int)
    requires
        0 <= u,
        u + 41 <= s.len(),
        0 <= i < 19,
        if is_dash_pos(i) {
            s[u + 18 + i] != '-'
        } else {
            !is_digit_char(s[u + 18 + i])
        },
    ensures
        !valid_timestamp(s.subrange(u + 18, u + 37)),
{
    let ts = s.subrange(u + 18, u + 37);
    assert(ts[i] == s[u + 18 + i]);
}

/// A dot at the first or last position, or a second dot, breaks the
/// trailing-name grammar.
proof fn lemma_name_fail_dot(s: Seq<char>, u: int, dot: Option<usize>, i: int)
    requires
        0 <= u,
        u + 41 <= s.len(),
        u + 38 <= i < s.len(),
        s[i] == '.',
        match dot {
            Some(d) => u + 38 < d < s.len() - 1 && s[d as int] == '.' && d < i,
            None => i == u + 38 || i == s.len() - 1,
        },
    ensures
        !valid_original_name(s.subrange(u + 38, s.len() as int)),
{
    let t = s.subrange(u + 38, s.len() as int);
    assert(forall|j: int| 0 <= j < t.len() ==> t[j] == s[u + 38 + j]);
    if valid_original_name(t) {
        let d2 = choose|d2: int|
            0 < d2 < t.len() - 1 && #[trigger] t[d2] == '.' && (forall|i2: int|
                0 <= i2 < t.len() && i2 != d2 ==> is_word_char(#[trigger] t[i2]));
        match dot {
            Some(d) => {
                // two distinct dots, at least one of them off `d2`
                let a = d - (u + 38);
                let b = i - (u + 38);
                assert(t[a] == '.');
                assert(t[b] == '.');
                if a != d2 {
                    assert(is_word_char(t[a]));
                } else {
                    assert(is_word_char(t[b]));
                }
            },
            None => {
                let b = i - (u + 38);
                assert(t[b] == '.');
                if b != d2 {
                    assert(is_word_char(t[b]));
                }
            },
        }
    }
}

/// A character that is neither a word character nor a dot breaks the
/// trailing-name grammar.
proof fn lemma_name_fail_char(s: Seq<char>, u: int, i: int)
    requires
        0 <= u,
        u + 41 <= s.len(),
        u + 38 <= i < s.len(),
        s[i] != '.',
        !is_word_char(s[i]),
    ensures
        !valid_original_name(s.subrange(u + 38, s.len() as int)),
{
    let t = s.subrange(u + 38, s.len() as int);
    assert(t[i - (u + 38)] == s[i]);
}

} // verus!
