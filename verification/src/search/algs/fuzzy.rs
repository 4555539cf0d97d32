//! The fuzzy leaf scorer as the engine uses it: a one-byte-query fast path,
//! a bounded scratch grid allocated per call, and the alignment of the
//! scoring module.

use vstd::prelude::*;
use vstd::string::StringSliceAdditionalSpecFns;


use crate::scoring;
use crate::text;

use super::Algorithm;

verus! {

broadcast use vstd::std_specs::vec::group_vec_axioms, vstd::seq::group_seq_axioms;

/// The number of cells the scratch grid may hold.
pub const GRID_CELLS: usize = 102400;

/// What the fuzzy scorer returns for a target and a query: a fixed bonus for
/// a one-byte query found case-insensitively, zero when the grid would not
/// fit, and the alignment score otherwise.
pub open spec fn fuzzy_leaf(t: Seq<char>, q: Seq<char>) -> int {
    if vstd::utf8::encode_utf8(q).len() == 1 {
        if text::contains_seq(text::lower(t), text::lower(q)) {
            16
        } else {
            0
        }
    } else if (t.len() + 1) * (q.len() + 1) > GRID_CELLS {
        0
    } else {
        scoring::fuzzy_score(t, q)
    }
}

/// The fuzzy alignment constants, fixed by its `Default`.
pub struct Fuzzy {
    eq: i16,
    target_gap: i16,
    target_gap_extend: i16,
}

impl Fuzzy {
    /// The constants every value carries.
    #[verifier::type_invariant]
    pub closed spec fn wf(self) -> bool {
        self.eq == 16 && self.target_gap == -3 && self.target_gap_extend == -1
    }
}

impl Default for Fuzzy {
    fn default() -> (r: Self) {
        Self { eq: 16, target_gap: -3, target_gap_extend: -1 }
    }
}

impl Algorithm for Fuzzy {
    fn score(&self, target: &str, query: &str) -> (r: i16)
        ensures
            r == fuzzy_leaf(target@, query@),
    {
        proof {
            use_type_invariant(self);
        }
        let query_bytes = query.as_bytes();
        let qbytes = query_bytes.len();
        proof {
            assert(query.spec_bytes() == vstd::utf8::encode_utf8(query@));
            assert(qbytes == vstd::utf8::encode_utf8(query@).len());
        }
        if qbytes == 1 {
            let folded_target = text::lower_vec(target);
            let folded_query = text::lower_vec(query);
            if text::chars_contains(&folded_target, &folded_query) {
                return self.eq;
            }
            return 0;
        }
        let target_chars = text::chars_vec(target);
        let query_chars = text::chars_vec(query);
        let ghost t = target@;
        let ghost q = query@;

        let width = match target_chars.len().checked_add(1) {
            Some(w) => w,
            None => {
                proof {
                    assert((t.len() + 1) * (q.len() + 1) > GRID_CELLS) by (nonlinear_arith)
                        requires
                            t.len() + 1 > GRID_CELLS,
                            q.len() >= 0,
                    ;
                }
                return 0;
            },
        };
        let height = match query_chars.len().checked_add(1) {
            Some(h) => h,
            None => {
                proof {
                    assert((t.len() + 1) * (q.len() + 1) > GRID_CELLS) by (nonlinear_arith)
                        requires
                            q.len() + 1 > GRID_CELLS,
                            t.len() >= 0,
                    ;
                }
                return 0;
            },
        };

        if !scoring::validate(target_chars.as_slice(), query_chars.as_slice()) {
            return 0;
        }

        let cells = match width.checked_mul(height) {
            Some(c) => c,
            None => {
                proof {
                    assert((t.len() + 1) * (q.len() + 1) > GRID_CELLS) by (nonlinear_arith)
                        requires
                            (t.len() + 1) * (q.len() + 1) > usize::MAX,
                            GRID_CELLS <= usize::MAX,
                    ;
                }
                return 0;
            },
        };
        if cells > GRID_CELLS {
            return 0;
        }

        proof {
            lemma_subseq_shorter(q, t);
            assert(16 * q.len() <= i16::MAX) by (nonlinear_arith)
                requires
                    q.len() <= t.len(),
                    (t.len() + 1) * (q.len() + 1) <= GRID_CELLS,
                    GRID_CELLS == 102400,
            ;
        }
        let mut opt: Vec<i16> = Vec::new();
        let mut i: usize = 0;
        while i < cells
            invariant
                i <= cells,
                opt@.len() == i,
            decreases cells - i,
        {
            opt.push(0);
            i = i + 1;
        }
        let criteria = scoring::ScoringCriteria::default();
        scoring::score(target, query, &criteria, &mut opt)
    }
}

/// A case-insensitive subsequence is never longer than its target.
pub proof fn lemma_subseq_shorter(q: Seq<char>, t: Seq<char>)
    requires
        scoring::is_subseq_ci(q, t),
    ensures
        q.len() <= t.len(),
    decreases t.len(),
{
    if q.len() > 0 && t.len() > 0 {
        if text::lower_char(t[0]) == text::lower_char(q[0]) {
            lemma_subseq_shorter(q.drop_first(), t.drop_first());
        } else {
            lemma_subseq_shorter(q, t.drop_first());
        }
    }
}

/// Subsequence validity: whenever the fuzzy scorer rates a target above
/// zero, the query's characters occur in the target in order, compared
/// case-insensitively.
pub proof fn lemma_fuzzy_positive_subsequence(t: Seq<char>, q: Seq<char>)
    ensures
        fuzzy_leaf(t, q) > 0 ==> scoring::is_subseq_ci(q, t),
{
    if fuzzy_leaf(t, q) > 0 {
        if vstd::utf8::encode_utf8(q).len() == 1 {
            scoring::lemma_contains_subseq(text::lower(t), text::lower(q));
            scoring::lemma_subseq_ci_lower(q, t);
        }
    }
}

} // verus!
