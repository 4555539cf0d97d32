//! The fuzzy subsequence scorer: a case-insensitive ordered-subsequence
//! alignment, scored by dynamic programming over a grid whose rows are query
//! characters and whose columns are target characters.

use vstd::prelude::*;

use crate::text;
use crate::value::Value;

verus! {

broadcast use vstd::std_specs::vec::group_vec_axioms, vstd::seq::group_seq_axioms;

/// Reward for a matching character pair.
pub const EQ_BONUS: i16 = 16;

/// Penalty for opening a gap in the target.
pub const GAP_OPEN: i16 = -3;

/// Penalty for extending a gap in the target.
pub const GAP_EXTEND: i16 = -1;

/// The alignment constants: a bonus for equal characters and two penalties
/// for skipping target characters, one for a fresh skip and a milder one for
/// a continued skip.
pub struct ScoringCriteria {
    eq: i16,
    target_gap: i16,
    target_gap_extend: i16,
}

impl ScoringCriteria {
    /// The constants every criteria value carries.
    #[verifier::type_invariant]
    pub closed spec fn wf(self) -> bool {
        self.eq == EQ_BONUS && self.target_gap == GAP_OPEN && self.target_gap_extend == GAP_EXTEND
    }
}

impl Default for ScoringCriteria {
    fn default() -> (r: Self) {
        Self { eq: 16, target_gap: -3, target_gap_extend: -1 }
    }
}

/// `q` is an ordered, case-insensitive subsequence of `t`: consuming `t` left
/// to right, every character of `q` can be matched in order.
pub open spec fn is_subseq_ci(q: Seq<char>, t: Seq<char>) -> bool
    decreases t.len(),
{
    if q.len() == 0 {
        true
    } else if t.len() == 0 {
        false
    } else if text::lower_char(t[0]) == text::lower_char(q[0]) {
        is_subseq_ci(q.drop_first(), t.drop_first())
    } else {
        is_subseq_ci(q, t.drop_first())
    }
}

/// Makes sure that all characters in query
/// exist in the target string in the correct order.
pub fn validate(target: &[char], query: &[char]) -> (r: bool)
    ensures
        r == is_subseq_ci(query@, target@),
{
    let mut query_ptr: usize = 0;
    let mut i: usize = 0;
    proof {
        assert(query@.skip(0) =~= query@);
        assert(target@.skip(0) =~= target@);
    }
    while i < target.len()
        invariant
            i <= target@.len(),
            query_ptr <= query@.len(),
            is_subseq_ci(query@, target@) == is_subseq_ci(
                query@.skip(query_ptr as int),
                target@.skip(i as int),
            ),
        decreases target@.len() - i,
    {
        proof {
            assert(target@.skip(i as int)[0] == target@[i as int]);
            assert(target@.skip(i as int).drop_first() =~= target@.skip(i + 1));
        }
        if query_ptr < query.len() {
            proof {
                assert(query@.skip(query_ptr as int)[0] == query@[query_ptr as int]);
                assert(query@.skip(query_ptr as int).drop_first() =~= query@.skip(
                    query_ptr + 1,
                ));
            }
            if text::to_lower_char(target[i]) == text::to_lower_char(query[query_ptr]) {
                query_ptr = query_ptr + 1;
            }
        } else {
            proof {
                assert(query@.skip(query_ptr as int).len() == 0);
            }
        }
        i = i + 1;
    }
    proof {
        assert(target@.skip(i as int).len() == 0);
        if query_ptr < query@.len() {
            assert(query@.skip(query_ptr as int).len() > 0);
        } else {
            assert(query@.skip(query_ptr as int).len() == 0);
        }
    }
    query_ptr == query.len()
}

/// Best score ending at cell `(r, c)` of the alignment grid: row `r` stands
/// for the first `r` query characters, column `c` for the first `c` target
/// characters.
pub open spec fn dp_cell(t: Seq<char>, q: Seq<char>, r: int, c: int) -> int
    decreases r, c, 2int,
{
    if r <= 0 || c <= 0 {
        0
    } else if dp_match(t, q, r, c) >= dp_gap(t, q, r, c) {
        dp_match(t, q, r, c)
    } else {
        dp_gap(t, q, r, c)
    }
}

/// The match branch: extend a diagonal alignment when the characters agree.
pub open spec fn dp_match(t: Seq<char>, q: Seq<char>, r: int, c: int) -> int
    decreases r, c, 0int,
{
    if r <= 0 || c <= 0 {
        0
    } else if text::lower_char(t[c - 1]) == text::lower_char(q[r - 1]) {
        dp_cell(t, q, r - 1, c - 1) + EQ_BONUS
    } else {
        0
    }
}

/// The gap branch: skip a target character, cheaper when already skipping.
pub open spec fn dp_gap(t: Seq<char>, q: Seq<char>, r: int, c: int) -> int
    decreases r, c, 1int,
{
    if r <= 0 || c <= 0 {
        0
    } else {
        let penalty = if dp_gapflag(t, q, r, c - 1) {
            GAP_EXTEND as int
        } else {
            GAP_OPEN as int
        };
        let open_score = dp_cell(t, q, r, c - 1) + penalty;
        if open_score >= 0 {
            open_score
        } else {
            0
        }
    }
}

/// Whether the cell at `(r, c)` was produced by the gap branch, which makes
/// the next column's skip an extension.
pub open spec fn dp_gapflag(t: Seq<char>, q: Seq<char>, r: int, c: int) -> bool
    decreases r, c, 3int,
{
    if c <= 0 {
        false
    } else {
        dp_match(t, q, r, c) < dp_gap(t, q, r, c)
    }
}

/// The largest value among the first `c` true columns of row `r`, and zero.
pub open spec fn row_max(t: Seq<char>, q: Seq<char>, r: int, c: int) -> int
    decreases c,
{
    if c <= 0 {
        0
    } else if dp_cell(t, q, r, c) > row_max(t, q, r, c - 1) {
        dp_cell(t, q, r, c)
    } else {
        row_max(t, q, r, c - 1)
    }
}

/// What the grid yields: the best alignment ending anywhere in the target,
/// read off the last row; zero when the query is not a subsequence.
pub open spec fn fuzzy_score(t: Seq<char>, q: Seq<char>) -> int {
    if !is_subseq_ci(q, t) {
        0
    } else {
        row_max(t, q, q.len() as int, t.len() as int)
    }
}

/// Every cell is non-negative and at most the bonus times its row.
pub proof fn lemma_cell_bounds(t: Seq<char>, q: Seq<char>, r: int, c: int)
    ensures
        0 <= dp_cell(t, q, r, c) <= 16 * (if r <= 0 { 0int } else { r }),
        0 <= dp_gap(t, q, r, c) <= 16 * (if r <= 0 { 0int } else { r }),
        dp_match(t, q, r, c) <= 16 * (if r <= 0 { 0int } else { r }),
    decreases (if r <= 0 { 0int } else { r }), (if c <= 0 { 0int } else { c }),
{
    if r <= 0 || c <= 0 {
    } else {
        lemma_cell_bounds(t, q, r - 1, c - 1);
        lemma_cell_bounds(t, q, r, c - 1);
    }
}

/// A zero row's running maximum is zero.
pub proof fn lemma_row_max_zero(t: Seq<char>, q: Seq<char>, c: int)
    ensures
        row_max(t, q, 0, c) == 0,
    decreases c,
{
    if c > 0 {
        lemma_row_max_zero(t, q, c - 1);
    }
}

/// The alignment scorer. The caller supplies the scratch grid; it must be
/// large enough for the `(target + 1) x (query + 1)` cell matrix, and the
/// query must be short enough for its best score to fit in an `i16`.
pub fn score(target: &str, query: &str, criteria: &ScoringCriteria, opt: &mut Vec<i16>) -> (r:
    i16)
    requires
        (target@.len() + 1) * (query@.len() + 1) <= old(opt)@.len(),
        16 * query@.len() <= i16::MAX,
    ensures
        final(opt)@.len() == old(opt)@.len(),
        r == fuzzy_score(target@, query@),
{
    proof {
        use_type_invariant(criteria);
    }
    let target_chars = text::chars_vec(target);
    let query_chars = text::chars_vec(query);
    let ghost t = target@;
    let ghost q = query@;

    let buf_len = opt.len();
    proof {
        assert(t.len() + 1 <= buf_len && q.len() + 1 <= buf_len) by (nonlinear_arith)
            requires
                (t.len() + 1) * (q.len() + 1) <= buf_len,
        ;
    }
    let width = target_chars.len() + 1;
    let height = query_chars.len() + 1;
    proof {
        assert(width * height <= buf_len) by (nonlinear_arith)
            requires
                width == t.len() + 1,
                height == q.len() + 1,
                (t.len() + 1) * (q.len() + 1) <= buf_len,
        ;
    }

    if !validate(target_chars.as_slice(), query_chars.as_slice()) {
        return 0;
    }

    // Reset the "first row" to zero
    let mut col: usize = 0;
    while col < width
        invariant
            width <= buf_len,
            col <= width,
            opt@.len() == buf_len,
            opt@.len() == old(opt)@.len(),
            forall|j: int| 0 <= j < col ==> opt@[j] == 0,
        decreases width - col,
    {
        opt[col] = 0;
        col = col + 1;
    }

    proof {
        if height == 1 {
            lemma_row_max_zero(t, q, width - 1);
        }
        assert forall|rr: int, cc: int|
            0 <= rr < 1 && 0 <= cc < width implies #[trigger] opt@[rr * width + cc] == dp_cell(
            t,
            q,
            rr,
            cc,
        ) by {
            assert(rr == 0);
            assert(rr * width + cc == cc);
            assert(opt@[cc] == 0);
        }
    }
    let mut max_score: i16 = 0;
    let mut row: usize = 1;
    while row < height
        invariant
            width == t.len() + 1,
            height == q.len() + 1,
            width * height <= buf_len,
            opt@.len() == buf_len,
            opt@.len() == old(opt)@.len(),
            16 * q.len() <= i16::MAX,
            target_chars@ == t,
            query_chars@ == q,
            1 <= row <= height,
            forall|rr: int, cc: int|
                0 <= rr < row && 0 <= cc < width ==> #[trigger] opt@[rr * width + cc] == dp_cell(
                    t,
                    q,
                    rr,
                    cc,
                ),
            max_score == if row > height - 1 {
                row_max(t, q, height - 1, width - 1)
            } else {
                0int
            },
        decreases height - row,
    {
        let mut in_gap = false;
        proof {
            assert(row * width + width - 1 < width * height) by (nonlinear_arith)
                requires
                    1 <= row < height,
                    1 <= width,
            ;
            assert(row * width >= 0) by (nonlinear_arith)
                requires
                    row >= 0,
                    width >= 0,
            ;
            assert(forall|rr: int, cc: int|
                0 <= rr < row && 0 <= cc < width ==> #[trigger] (rr * width + cc) < row * width
                    && rr * width + cc >= 0) by (nonlinear_arith)
                requires
                    width >= 1,
            ;
        }
        opt[row * width] = 0;
        let mut col: usize = 1;
        while col < width
            invariant
                width == t.len() + 1,
                height == q.len() + 1,
                width * height <= buf_len,
                opt@.len() == buf_len,
                opt@.len() == old(opt)@.len(),
                16 * q.len() <= i16::MAX,
                target_chars@ == t,
                query_chars@ == q,
                1 <= row < height,
                1 <= col <= width,
                row * width + width - 1 < width * height,
                row * width >= 0,
                forall|rr: int, cc: int|
                    0 <= rr < row && 0 <= cc < width ==> #[trigger] opt@[rr * width + cc]
                        == dp_cell(t, q, rr, cc),
                forall|cc: int|
                    0 <= cc < col ==> #[trigger] opt@[row * width + cc] == dp_cell(
                        t,
                        q,
                        row as int,
                        cc,
                    ),
                in_gap == dp_gapflag(t, q, row as int, col - 1),
                max_score == if row == height - 1 {
                    row_max(t, q, height - 1, col - 1)
                } else {
                    0int
                },
            decreases width - col,
        {
            proof {
                use_type_invariant(criteria);
                assert((row - 1) * width + col - 1 < row * width && (row - 1) * width >= 0)
                    by (nonlinear_arith)
                    requires
                        1 <= row,
                        1 <= col <= width,
                ;
                lemma_cell_bounds(t, q, row as int, col - 1);
                lemma_cell_bounds(t, q, row as int - 1, col - 1);
                assert(16 * (row as int - 1) + 16 == 16 * row);
                assert(16 * row <= 16 * q.len()) by (nonlinear_arith)
                    requires
                        row <= q.len(),
                ;
            }
            let left = opt[row * width + (col - 1)];
            let diag = opt[(row - 1) * width + (col - 1)];
            proof {
                assert(opt@[row * width + (col - 1)] == dp_cell(t, q, row as int, col - 1));
                assert(opt@[(row - 1) * width + (col - 1)] == dp_cell(t, q, row as int - 1, col - 1));
                assert(0 <= left <= 16 * row);
                assert(0 <= diag <= 16 * (row - 1));
                assert(16 * row <= i16::MAX);
                assert(criteria.target_gap_extend == -1 && criteria.target_gap == -3
                    && criteria.eq == 16);
            }

            let gap_score = if in_gap {
                let g = left + criteria.target_gap_extend;
                if g >= 0 {
                    g
                } else {
                    0
                }
            } else {
                let g = left + criteria.target_gap;
                if g >= 0 {
                    g
                } else {
                    0
                }
            };

            let target_ch = text::to_lower_char(target_chars[col - 1]);
            let query_ch = text::to_lower_char(query_chars[row - 1]);
            let match_score = if target_ch == query_ch {
                diag + criteria.eq
            } else {
                0
            };

            proof {
                assert(gap_score == dp_gap(t, q, row as int, col as int));
                assert(match_score == dp_match(t, q, row as int, col as int));
            }

            in_gap = match_score < gap_score;

            let score = if match_score >= gap_score {
                match_score
            } else {
                gap_score
            };
            opt[row * width + col] = score;

            if (height - 1) == row && score > max_score {
                max_score = score;
            }
            proof {
                assert(forall|rr: int, cc: int|
                    0 <= rr < row && 0 <= cc < width ==> #[trigger] (rr * width + cc) < row
                        * width) by (nonlinear_arith)
                    requires
                        width >= 1,
                ;
            }
            col = col + 1;
        }
        row = row + 1;
    }
    proof {
        if height == 1 {
            lemma_row_max_zero(t, q, width - 1);
        }
    }
    max_score
}

/// Dropping the head of the query preserves a subsequence.
pub proof fn lemma_subseq_q_drop(q: Seq<char>, t: Seq<char>)
    requires
        is_subseq_ci(q, t),
        q.len() > 0,
    ensures
        is_subseq_ci(q.drop_first(), t),
    decreases t.len(), q.len(),
{
    if t.len() > 0 {
        if text::lower_char(t[0]) == text::lower_char(q[0]) {
            assert(is_subseq_ci(q.drop_first(), t.drop_first()));
            if q.len() > 1 {
                lemma_subseq_widen(q.drop_first(), t);
            } else {
                assert(q.drop_first().len() == 0);
                assert(is_subseq_ci(q.drop_first(), t));
            }
        } else {
            lemma_subseq_q_drop(q, t.drop_first());
            if q.len() > 1 && text::lower_char(t[0]) == text::lower_char(q.drop_first()[0]) {
                lemma_subseq_q_drop(q.drop_first(), t.drop_first());
            }
            assert(is_subseq_ci(q.drop_first(), t));
        }
    } else {
        assert(!is_subseq_ci(q, t));
    }
}

/// A subsequence of a tail is a subsequence of the whole.
pub proof fn lemma_subseq_widen(q: Seq<char>, t: Seq<char>)
    requires
        t.len() > 0,
        is_subseq_ci(q, t.drop_first()),
    ensures
        is_subseq_ci(q, t),
    decreases t.len(), q.len(),
{
    if q.len() > 0 && text::lower_char(t[0]) == text::lower_char(q[0]) {
        lemma_subseq_q_drop(q, t.drop_first());
    }
}

/// Folding both sides does not change what is a subsequence of what.
pub proof fn lemma_subseq_ci_lower(q: Seq<char>, t: Seq<char>)
    ensures
        is_subseq_ci(text::lower(q), text::lower(t)) == is_subseq_ci(q, t),
    decreases t.len(),
{
    if q.len() == 0 {
    } else if t.len() == 0 {
    } else {
        let lq = text::lower(q);
        let lt = text::lower(t);
        assert(lt[0] == text::lower_char(t[0]));
        assert(lq[0] == text::lower_char(q[0]));
        text::lemma_lower_char_idempotent(t[0]);
        text::lemma_lower_char_idempotent(q[0]);
        assert(lt.drop_first() =~= text::lower(t.drop_first()));
        assert(lq.drop_first() =~= text::lower(q.drop_first()));
        if text::lower_char(t[0]) == text::lower_char(q[0]) {
            lemma_subseq_ci_lower(q.drop_first(), t.drop_first());
        } else {
            lemma_subseq_ci_lower(q, t.drop_first());
        }
    }
}

/// A substring occurs in order, so it is a subsequence as well.
pub proof fn lemma_contains_subseq(t: Seq<char>, q: Seq<char>)
    requires
        text::contains_seq(t, q),
    ensures
        is_subseq_ci(q, t),
    decreases t.len(),
{
    let i = choose|i: int| text::match_at(t, q, i);
    if q.len() == 0 {
    } else if i == 0 {
        assert(t[0] == q[0]);
        assert(text::match_at(t.drop_first(), q.drop_first(), 0)) by {
            assert(forall|m: int|
                0 <= m < q.len() - 1 ==> t.drop_first()[m] == t[m + 1] && q.drop_first()[m]
                    == #[trigger] q[m + 1]);
        }
        assert(text::contains_seq(t.drop_first(), q.drop_first()));
        lemma_contains_subseq(t.drop_first(), q.drop_first());
    } else {
        assert(text::match_at(t.drop_first(), q, i - 1)) by {
            assert(forall|m: int|
                0 <= m < q.len() ==> t.drop_first()[i - 1 + m] == t[i + m] && t[i + m]
                    == #[trigger] q[m]);
        }
        assert(text::contains_seq(t.drop_first(), q));
        lemma_contains_subseq(t.drop_first(), q);
        if text::lower_char(t[0]) == text::lower_char(q[0]) {
            lemma_subseq_q_drop(q, t.drop_first());
        }
    }
}

/// Every running maximum of a row stays within the row's score bound.
pub proof fn lemma_row_max_bound(t: Seq<char>, q: Seq<char>, r: int, c: int)
    requires
        r >= 0,
    ensures
        0 <= row_max(t, q, r, c) <= 16 * r,
    decreases c,
{
    if c > 0 {
        lemma_row_max_bound(t, q, r, c - 1);
        lemma_cell_bounds(t, q, r, c);
    }
}

/// The running row maximum dominates every cell it has passed.
pub proof fn lemma_row_max_ge(t: Seq<char>, q: Seq<char>, r: int, c: int, c0: int)
    requires
        1 <= c0 <= c,
    ensures
        row_max(t, q, r, c) >= dp_cell(t, q, r, c0),
    decreases c,
{
    if c > c0 {
        lemma_row_max_ge(t, q, r, c - 1, c0);
    }
}

/// A non-empty subsequence's last character occurs in the target, folded.
pub proof fn lemma_subseq_last_char(q: Seq<char>, t: Seq<char>)
    requires
        is_subseq_ci(q, t),
        q.len() > 0,
    ensures
        exists|i: int|
            0 <= i < t.len() && #[trigger] text::lower_char(t[i]) == text::lower_char(
                q[q.len() - 1],
            ),
    decreases t.len(),
{
    if text::lower_char(t[0]) == text::lower_char(q[0]) {
        if q.len() == 1 {
            assert(text::lower_char(t[0]) == text::lower_char(q[q.len() - 1]));
        } else {
            lemma_subseq_last_char(q.drop_first(), t.drop_first());
            let i = choose|i: int|
                0 <= i < t.drop_first().len() && #[trigger] text::lower_char(t.drop_first()[i])
                    == text::lower_char(q.drop_first()[q.drop_first().len() - 1]);
            assert(q.drop_first()[q.drop_first().len() - 1] == q[q.len() - 1]);
            assert(text::lower_char(t[i + 1]) == text::lower_char(q[q.len() - 1]));
        }
    } else {
        lemma_subseq_last_char(q, t.drop_first());
        let i = choose|i: int|
            0 <= i < t.drop_first().len() && #[trigger] text::lower_char(t.drop_first()[i])
                == text::lower_char(q[q.len() - 1]);
        assert(text::lower_char(t[i + 1]) == text::lower_char(q[q.len() - 1]));
    }
}

/// A non-empty subsequence scores at least one match bonus in the grid.
pub proof fn lemma_fuzzy_score_positive(t: Seq<char>, q: Seq<char>)
    requires
        is_subseq_ci(q, t),
        q.len() > 0,
    ensures
        fuzzy_score(t, q) >= 16,
{
    lemma_subseq_last_char(q, t);
    let i = choose|i: int|
        0 <= i < t.len() && #[trigger] text::lower_char(t[i]) == text::lower_char(q[q.len() - 1]);
    let r = q.len() as int;
    let c = i + 1;
    lemma_cell_bounds(t, q, r - 1, c - 1);
    assert(dp_match(t, q, r, c) >= 16);
    assert(dp_cell(t, q, r, c) >= 16);
    lemma_row_max_ge(t, q, r, t.len() as int, c);
}

/// Any leading part of a subsequence is still a subsequence.
pub proof fn lemma_subseq_take(q: Seq<char>, t: Seq<char>, m: int)
    requires
        is_subseq_ci(q, t),
        0 <= m <= q.len(),
    ensures
        is_subseq_ci(q.take(m), t),
    decreases t.len(),
{
    if m == q.len() {
        assert(q.take(m) =~= q);
    } else if m == 0 {
        assert(q.take(0).len() == 0);
    } else {
        assert(q.take(m)[0] == q[0]);
        if text::lower_char(t[0]) == text::lower_char(q[0]) {
            lemma_subseq_take(q.drop_first(), t.drop_first(), m - 1);
            assert(q.take(m).drop_first() =~= q.drop_first().take(m - 1));
        } else {
            lemma_subseq_take(q, t.drop_first(), m);
        }
    }
}

/// Any trailing part of a subsequence is still a subsequence.
pub proof fn lemma_subseq_skip(q: Seq<char>, t: Seq<char>, m: int)
    requires
        is_subseq_ci(q, t),
        0 <= m <= q.len(),
    ensures
        is_subseq_ci(q.skip(m), t),
    decreases m,
{
    if m == 0 {
        assert(q.skip(0) =~= q);
    } else {
        lemma_subseq_q_drop(q, t);
        assert(q.skip(m) =~= q.drop_first().skip(m - 1));
        lemma_subseq_skip(q.drop_first(), t, m - 1);
    }
}

/// A single-character subsequence occurs as a folded substring.
pub proof fn lemma_subseq_single_contains(q: Seq<char>, t: Seq<char>)
    requires
        is_subseq_ci(q, t),
        q.len() == 1,
    ensures
        text::contains_seq(text::lower(t), text::lower(q)),
{
    lemma_subseq_last_char(q, t);
    let i = choose|i: int|
        0 <= i < t.len() && #[trigger] text::lower_char(t[i]) == text::lower_char(q[q.len() - 1]);
    assert(text::match_at(text::lower(t), text::lower(q), i)) by {
        assert(text::lower(t)[i] == text::lower_char(t[i]));
        assert(text::lower(q)[0] == text::lower_char(q[0]));
        assert(forall|k: int|
            0 <= k < text::lower(q).len() ==> text::lower(t)[i + k] == #[trigger] text::lower(
                q,
            )[k]);
    }
}

/// The fuzzy score a filter key receives when the scratch grid can hold the
/// alignment; an oversized pair safely scores nothing.
pub open spec fn safe_fuzzy(t: Seq<char>, q: Seq<char>) -> int {
    if (t.len() + 1) * (q.len() + 1) <= 102400 && 16 * q.len() <= 32767 {
        fuzzy_score(t, q)
    } else {
        0
    }
}

/// What one indexed path scores in the filter: its path text fuzzily, and,
/// for a childless path, also its pretty-rendered value, whichever is more.
pub open spec fn filter_score(doc: Value, key: Seq<char>, children: Seq<Seq<char>>, q: Seq<char>)
    -> int {
    let base = safe_fuzzy(key, q);
    if children.len() == 0 {
        match crate::pointer::parse_pointer(key) {
            Some(toks) => match crate::pointer::resolve(doc, toks) {
                Ok(node) => {
                    let raw = safe_fuzzy(crate::render::render(node, 0), q);
                    if raw >= base {
                        raw
                    } else {
                        base
                    }
                },
                Err(_) => base,
            },
            None => base,
        }
    } else {
        base
    }
}

/// The filter's scored rows, in the order the path universe enumerates.
pub open spec fn filter_rows_spec(
    doc: Value,
    rows: Seq<(Seq<char>, Vec<String>)>,
    q: Seq<char>,
) -> Seq<(Seq<char>, i16)>
    decreases rows.len(),
{
    if rows.len() == 0 {
        Seq::empty()
    } else {
        let prev = filter_rows_spec(doc, rows.drop_last(), q);
        let sc = filter_score(doc, rows.last().0, rows.last().1.deep_view(), q);
        if sc > 0 {
            prev.push((rows.last().0, sc as i16))
        } else {
            prev
        }
    }
}

/// A fuzzy score in bounds of the score type.
pub proof fn lemma_safe_fuzzy_bounds(t: Seq<char>, q: Seq<char>)
    ensures
        0 <= safe_fuzzy(t, q) <= 32767,
{
    if (t.len() + 1) * (q.len() + 1) <= 102400 && 16 * q.len() <= 32767 {
        lemma_row_max_bound(t, q, q.len() as int, t.len() as int);
    }
}

/// One gated call of the alignment scorer.
fn fuzzy_gated(target: &str, query: &str, criteria: &ScoringCriteria, opt: &mut Vec<i16>) -> (r:
    i16)
    requires
        old(opt)@.len() == 102400,
    ensures
        final(opt)@.len() == old(opt)@.len(),
        r as int == safe_fuzzy(target@, query@),
{
    let tv = text::chars_vec(target);
    let qv = text::chars_vec(query);
    let tl = tv.len();
    let ql = qv.len();
    let width = match tl.checked_add(1) {
        Some(w) => w,
        None => {
            proof {
                assert((target@.len() + 1) * (query@.len() + 1) > 102400) by (nonlinear_arith)
                    requires
                        target@.len() + 1 > 102400,
                        query@.len() >= 0,
                ;
            }
            return 0;
        },
    };
    let height = match ql.checked_add(1) {
        Some(h) => h,
        None => {
            proof {
                assert((target@.len() + 1) * (query@.len() + 1) > 102400) by (nonlinear_arith)
                    requires
                        query@.len() + 1 > 102400,
                        target@.len() >= 0,
                ;
            }
            return 0;
        },
    };
    let cells = match width.checked_mul(height) {
        Some(c) => c,
        None => {
            proof {
                assert((target@.len() + 1) * (query@.len() + 1) > 102400) by (nonlinear_arith)
                    requires
                        (target@.len() + 1) * (query@.len() + 1) > usize::MAX,
                        102400 <= usize::MAX,
                ;
            }
            return 0;
        },
    };
    if cells > 102400 {
        return 0;
    }
    if ql > 2047 {
        return 0;
    }
    score(target, query, criteria, opt)
}

/// Rank the indexed paths against a query: each path is scored fuzzily, a
/// childless path also by its rendered value, and the positive scorers come
/// back best first.
pub fn filter(doc: &Value, graph: &crate::string_map::StringMap<Vec<String>>, value: &str) -> (r:
    Vec<String>)
    ensures
        r.deep_view() == crate::search::row_keys(
            crate::search::sort_rows(filter_rows_spec(*doc, graph@, value@)),
        ),
{
    let mut opt: Vec<i16> = Vec::new();
    let mut z: usize = 0;
    while z < 102400
        invariant
            z <= 102400,
            opt@.len() == z,
        decreases 102400 - z,
    {
        opt.push(0);
        z = z + 1;
    }
    let criteria = ScoringCriteria::default();
    let ghost g = graph@;
    let mut result: Vec<(String, i16)> = Vec::new();
    let n = graph.len();
    let mut i: usize = 0;
    proof {
        assert(crate::search::pairs_model(result@) =~= crate::search::sort_rows(
            filter_rows_spec(*doc, g.take(0), value@),
        ));
    }
    while i < n
        invariant
            g == graph@,
            n == g.len(),
            i <= n,
            opt@.len() == 102400,
            crate::search::pairs_model(result@) == crate::search::sort_rows(
                filter_rows_spec(*doc, g.take(i as int), value@),
            ),
        decreases n - i,
    {
        proof {
            assert(g.take(i + 1).drop_last() =~= g.take(i as int));
            assert(g.take(i + 1).last() == g[i as int]);
        }
        let key = graph.key_at(i);
        let children = graph.value_at(i);
        let mut key_score = fuzzy_gated(key.as_str(), value, &criteria, &mut opt);
        proof {
            lemma_safe_fuzzy_bounds(key@, value@);
        }
        if children.len() == 0 {
            match crate::pointer::ValuePointer::parse(key.as_str()) {
                Ok(pointer) => {
                    match pointer.get(doc) {
                        Ok(node) => {
                            let raw = crate::render::render_pretty(node);
                            let raw_score = fuzzy_gated(raw.as_str(), value, &criteria, &mut opt);
                            proof {
                                lemma_safe_fuzzy_bounds(raw@, value@);
                            }
                            if raw_score >= key_score {
                                key_score = raw_score;
                            }
                        },
                        Err(_) => {},
                    }
                },
                Err(_) => {},
            }
        }
        proof {
            assert(children.deep_view() == g[i as int].1.deep_view());
            assert(key_score as int == filter_score(*doc, g[i as int].0, g[i as int].1.deep_view(), value@));
        }
        if key_score > 0 {
            let pair_key = key.clone();
            let mut j = result.len();
            while j > 0 && result[j - 1].1 < key_score
                invariant
                    j <= result@.len(),
                    forall|k: int|
                        j <= k < result@.len() ==> (#[trigger] result@[k]).1 < key_score,
                decreases j,
            {
                j = j - 1;
            }
            let ghost before = crate::search::pairs_model(result@);
            proof {
                assert(forall|k: int|
                    j <= k < before.len() ==> (#[trigger] before[k]).1 < key_score);
                if j > 0 {
                    assert(before[j - 1].1 == result@[j - 1].1);
                }
                crate::search::lemma_insert_desc_at(before, (key@, key_score), j as int);
            }
            result.insert(j, (pair_key, key_score));
            proof {
                assert(crate::search::pairs_model(result@) =~= before.take(j as int).push(
                    (key@, key_score),
                ) + before.skip(j as int));
                let row_prev = filter_rows_spec(*doc, g.take(i as int), value@);
                let row_new = filter_rows_spec(*doc, g.take(i + 1), value@);
                assert(row_new == row_prev.push((key@, key_score)));
                assert(row_new.drop_last() =~= row_prev);
                assert(crate::search::sort_rows(row_new) == crate::search::insert_desc(
                    crate::search::sort_rows(row_prev),
                    (key@, key_score),
                ));
            }
        } else {
            proof {
                let row_prev = filter_rows_spec(*doc, g.take(i as int), value@);
                let row_new = filter_rows_spec(*doc, g.take(i + 1), value@);
                assert(row_new == row_prev);
            }
        }
        i = i + 1;
    }
    proof {
        assert(g.take(n as int) =~= g);
    }
    let mut keys: Vec<String> = Vec::new();
    let m = result.len();
    let mut k: usize = 0;
    while k < m
        invariant
            m == result@.len(),
            k <= m,
            keys@.len() == k,
            keys.deep_view() == crate::search::row_keys(
                crate::search::pairs_model(result@),
            ).take(k as int),
        decreases m - k,
    {
        let ghost prev = keys@;
        let ghost prev_dv = keys.deep_view();
        keys.push(result[k].0.clone());
        proof {
            assert forall|t: int|
                0 <= t < keys@.len() implies #[trigger] keys.deep_view()[t]
                == crate::search::row_keys(crate::search::pairs_model(result@)).take(k + 1)[t] by {
                assert(keys.deep_view()[t] == keys@[t]@);
                if t < k {
                    assert(keys@[t] == prev[t]);
                    assert(prev_dv[t] == prev[t]@);
                    assert(prev_dv[t] == crate::search::row_keys(
                        crate::search::pairs_model(result@),
                    ).take(k as int)[t]);
                }
            }
            assert(keys.deep_view() =~= crate::search::row_keys(
                crate::search::pairs_model(result@),
            ).take(k + 1));
        }
        k = k + 1;
    }
    proof {
        assert(crate::search::row_keys(crate::search::pairs_model(result@)).take(m as int)
            =~= crate::search::row_keys(crate::search::pairs_model(result@)));
    }
    keys
}

} // verus!
