//! Case-aware subsequence matcher.
//!
//! `match_cost_chars` scores how well a pattern matches a candidate
//! name.  The pattern must appear as an ASCII-case-insensitive ordered
//! subsequence of the name; gaps between matched characters, skipped
//! separators, case mismatches and the unmatched tail of the name all add
//! to the cost, and a lower cost is a better match.
//!
//! Every weight of the rule is a multiple of one eighth (an eighth per
//! skipped byte around separators, a half per case mismatch, a full point
//! per other skipped byte), so costs are counted exactly, in integer
//! eighths of a point.

use crate::text::{char_len, char_utf8_len, eq_ci, eq_ignore_case, utf8_len};
use vstd::prelude::*;

verus! {

/// True for the separator characters that are cheap to skip over.
pub fn is_separator(ch: char) -> (r: bool)
    ensures
        r == spec_is_separator(ch),
{
    ch == '.' || ch == '_'
}

pub open spec fn spec_is_separator(ch: char) -> bool {
    ch == '.' || ch == '_'
}

/// The state of the left-to-right scan over the candidate name: the cost
/// accumulated so far in eighths, the byte offset just past the last
/// matched or skipped character, and how many pattern characters have been
/// consumed.
pub ghost struct ScanState {
    pub cost: int,
    pub last_match: int,
    pub pat_idx: int,
}

/// One step per name character, starting at character index `i` (byte
/// offset `b`): a character that case-insensitively equals the next
/// pattern character is matched, charging the byte gap since `last_match`
/// (an eighth per byte when the pattern character is a separator, a full
/// point per byte otherwise) and half a point if the cases differ; an
/// unmatched separator is skipped for an eighth per byte; any other
/// character is left for a later gap.  The scan stops when the name or the
/// pattern runs out.
pub open spec fn scan(name: Seq<char>, pat: Seq<char>, i: int, b: int, st: ScanState) -> ScanState
    decreases name.len() - i,
{
    if i < 0 || i >= name.len() || st.pat_idx >= pat.len() {
        st
    } else {
        let d = name[i];
        let dlen = char_utf8_len(d);
        let p = pat[st.pat_idx];
        if eq_ci(p, d) {
            let gap = b - st.last_match;
            let weighted = if spec_is_separator(p) {
                gap
            } else {
                8 * gap
            };
            let case_penalty: int = if p != d {
                4
            } else {
                0
            };
            scan(
                name,
                pat,
                i + 1,
                b + dlen,
                ScanState {
                    cost: st.cost + weighted + case_penalty,
                    last_match: b + dlen,
                    pat_idx: st.pat_idx + 1,
                },
            )
        } else if spec_is_separator(d) {
            scan(
                name,
                pat,
                i + 1,
                b + dlen,
                ScanState { cost: st.cost + (b + dlen - st.last_match), last_match: b + dlen, ..st },
            )
        } else {
            scan(name, pat, i + 1, b + dlen, st)
        }
    }
}

/// The cost of matching `pat` against `name`, in eighths: the scan's cost
/// plus an eighth per byte of the name after its last matched or skipped
/// character, or nothing when the scan does not consume the whole
/// pattern.
pub open spec fn spec_match_cost(name: Seq<char>, pat: Seq<char>) -> Option<int> {
    let st = scan(name, pat, 0, 0, ScanState { cost: 0, last_match: 0, pat_idx: 0 });
    if st.pat_idx == pat.len() {
        Some(st.cost + (utf8_len(name) - st.last_match))
    } else {
        None
    }
}

/// `utf8_len` over a prefix one longer adds the byte length of the next
/// character.
proof fn lemma_utf8_len_take_succ(s: Seq<char>, i: int)
    requires
        0 <= i < s.len(),
    ensures
        utf8_len(s.take(i + 1)) == utf8_len(s.take(i)) + char_utf8_len(s[i]),
{
    assert(s.take(i + 1).drop_last() =~= s.take(i));
    assert(s.take(i + 1).last() == s[i]);
}

/// `utf8_len` is monotone over prefixes, growing by at least a byte per
/// character.
proof fn lemma_utf8_len_take_le(s: Seq<char>, i: int, j: int)
    requires
        0 <= i <= j <= s.len(),
    ensures
        utf8_len(s.take(i)) + (j - i) <= utf8_len(s.take(j)),
    decreases j - i,
{
    if i < j {
        lemma_utf8_len_take_succ(s, i);
        assert(char_utf8_len(s[i]) >= 1);
        lemma_utf8_len_take_le(s, i + 1, j);
    }
}

/// Score `pat` against `name`, both given as character vectors.  The
/// result is the cost in eighths, or `None` when the pattern is not
/// consumed in full.
pub fn match_cost_chars(name: &Vec<char>, pat: &Vec<char>) -> (r: Option<u128>)
    ensures
        match r {
            Some(c) => spec_match_cost(name@, pat@) == Some(c as int),
            None => spec_match_cost(name@, pat@) is None,
        },
{
    let n = name.len();
    let pn = pat.len();
    let mut i: usize = 0;
    let mut b: u128 = 0;
    let mut cost: u128 = 0;
    let mut last_match: u128 = 0;
    let mut pat_idx: usize = 0;
    proof {
        assert(name@.take(0) =~= Seq::<char>::empty());
    }
    while i < n && pat_idx < pn
        invariant
            n == name@.len(),
            pn == pat@.len(),
            0 <= i <= n,
            0 <= pat_idx <= pn,
            b == utf8_len(name@.take(i as int)),
            last_match <= b,
            cost <= 8 * last_match + 4 * pat_idx,
            b <= 4 * i,
            i <= usize::MAX,
            pn <= usize::MAX,
            scan(name@, pat@, 0, 0, ScanState { cost: 0, last_match: 0, pat_idx: 0 }) == scan(
                name@,
                pat@,
                i as int,
                b as int,
                ScanState {
                    cost: cost as int,
                    last_match: last_match as int,
                    pat_idx: pat_idx as int,
                },
            ),
        decreases n - i,
    {
        let d = name[i];
        let dlen = char_len(d);
        proof {
            lemma_utf8_len_take_succ(name@, i as int);
            assert(40 * (usize::MAX as int) + 100 < u128::MAX as int);
        }
        let p = pat[pat_idx];
        if eq_ignore_case(p, d) {
            let gap = b - last_match;
            if is_separator(p) {
                cost = cost + gap;
            } else {
                cost = cost + 8 * gap;
            }
            if p != d {
                cost = cost + 4;
            }
            b = b + dlen as u128;
            last_match = b;
            pat_idx = pat_idx + 1;
        } else if is_separator(d) {
            b = b + dlen as u128;
            cost = cost + (b - last_match);
            last_match = b;
        } else {
            b = b + dlen as u128;
        }
        i = i + 1;
    }
    if pat_idx < pn {
        return None;
    }
    proof {
        lemma_utf8_len_take_le(name@, i as int, n as int);
        assert(name@.take(n as int) =~= name@);
        assert(40 * (usize::MAX as int) + 100 < u128::MAX as int);
    }
    let tail = utf8_tail_len(name, i);
    Some(cost + (b - last_match) + tail)
}

/// Score `pattern` against `decl_name`: the cost in eighths of a point,
/// or `None` when the pattern is not an ASCII-case-insensitive ordered
/// subsequence of the name.
pub fn match_case_sensitive(decl_name: &str, pattern: &str) -> (r: Option<u128>)
    ensures
        match r {
            Some(c) => spec_match_cost(decl_name@, pattern@) == Some(c as int),
            None => spec_match_cost(decl_name@, pattern@) is None,
        },
{
    let name_chars = crate::text::str_chars(decl_name);
    let pat_chars = crate::text::str_chars(pattern);
    match_cost_chars(&name_chars, &pat_chars)
}

/// The byte length of the tail of `name` from character `from` on.
fn utf8_tail_len(name: &Vec<char>, from: usize) -> (r: u128)
    requires
        from <= name@.len(),
    ensures
        r == utf8_len(name@) - utf8_len(name@.take(from as int)),
        r <= 4 * (name@.len() - from),
{
    let n = name.len();
    let mut i: usize = from;
    let mut r: u128 = 0;
    while i < n
        invariant
            from <= i <= n,
            n == name@.len(),
            r == utf8_len(name@.take(i as int)) - utf8_len(name@.take(from as int)),
            r <= 4 * (i - from),
        decreases n - i,
    {
        proof {
            lemma_utf8_len_take_succ(name@, i as int);
        }
        r = r + char_len(name[i]) as u128;
        i = i + 1;
    }
    proof {
        assert(name@.take(n as int) =~= name@);
    }
    r
}

/// How many positions of `pat`, from `i` on, differ from `name` outright.
pub open spec fn case_mismatches(name: Seq<char>, pat: Seq<char>, i: int) -> int
    decreases name.len() - i,
{
    if i < 0 || i >= name.len() {
        0
    } else {
        (if pat[i] != name[i] {
            1int
        } else {
            0int
        }) + case_mismatches(name, pat, i + 1)
    }
}

pub proof fn lemma_case_mismatches_nonneg(name: Seq<char>, pat: Seq<char>, i: int)
    ensures
        case_mismatches(name, pat, i) >= 0,
    decreases name.len() - i,
{
    if 0 <= i < name.len() {
        lemma_case_mismatches_nonneg(name, pat, i + 1);
    }
}

pub proof fn lemma_case_mismatches_pos(name: Seq<char>, pat: Seq<char>, i: int, j: int)
    requires
        0 <= i <= j < name.len(),
        pat[j] != name[j],
    ensures
        case_mismatches(name, pat, i) >= 1,
    decreases j - i,
{
    lemma_case_mismatches_nonneg(name, pat, i + 1);
    if i < j {
        lemma_case_mismatches_pos(name, pat, i + 1, j);
    }
}

/// When every remaining pattern character equals the name character at the
/// same position up to ASCII case, the scan matches in lockstep: no gaps,
/// no skipped tail, and half a point for each position whose case
/// differs.
proof fn lemma_scan_lockstep(name: Seq<char>, pat: Seq<char>, i: int, b: int, st: ScanState)
    requires
        pat.len() == name.len(),
        0 <= i <= name.len(),
        st.pat_idx == i,
        st.last_match == b,
        forall|j: int| i <= j < name.len() ==> eq_ci(#[trigger] pat[j], name[j]),
    ensures
        ({
            let r = scan(name, pat, i, b, st);
            &&& r.cost == st.cost + 4 * case_mismatches(name, pat, i)
            &&& r.last_match == b + (utf8_len(name) - utf8_len(name.take(i)))
            &&& r.pat_idx == name.len()
        }),
    decreases name.len() - i,
{
    if i >= name.len() {
        assert(name.take(i) =~= name);
    } else {
        let d = name[i];
        let dlen = char_utf8_len(d);
        assert(eq_ci(pat[i], name[i]));
        let st2 = ScanState {
            cost: st.cost + (if pat[i] != d {
                4int
            } else {
                0int
            }),
            last_match: b + dlen,
            pat_idx: i + 1,
        };
        assert(scan(name, pat, i, b, st) == scan(name, pat, i + 1, b + dlen, st2));
        lemma_scan_lockstep(name, pat, i + 1, b + dlen, st2);
        lemma_utf8_len_take_succ(name, i);
    }
}

/// THE LAW OF EXACT AND CASE-FOLDED MATCHES.  When the pattern has the
/// name's length and agrees with it character by character up to ASCII
/// case, the match succeeds and costs exactly half a point (four eighths)
/// per position whose case differs.  In particular a pattern identical to
/// the name costs nothing, and a match that differs from the exact-case
/// pattern only by case costs strictly more, by exactly half a point per
/// differing position.
pub proof fn lemma_case_only_match_cost(name: Seq<char>, pat: Seq<char>)
    requires
        pat.len() == name.len(),
        forall|j: int| 0 <= j < name.len() ==> eq_ci(#[trigger] pat[j], name[j]),
    ensures
        spec_match_cost(name, pat) == Some(4 * case_mismatches(name, pat, 0)),
{
    let st0 = ScanState { cost: 0, last_match: 0, pat_idx: 0 };
    lemma_scan_lockstep(name, pat, 0, 0, st0);
    assert(name.take(0) =~= Seq::<char>::empty());
}

/// A pattern that is the name itself, character for character, matches at
/// cost zero.
pub proof fn lemma_exact_match_is_free(name: Seq<char>)
    ensures
        spec_match_cost(name, name) == Some(0int),
{
    lemma_case_only_match_cost(name, name);
    lemma_case_mismatches_zero(name, 0);
}

proof fn lemma_case_mismatches_zero(name: Seq<char>, i: int)
    ensures
        case_mismatches(name, name, i) == 0,
    decreases name.len() - i,
{
    if 0 <= i < name.len() {
        lemma_case_mismatches_zero(name, i + 1);
    }
}

/// `m` lists, in strictly increasing order, positions of `name` at or
/// after `lo` that carry the characters of `pat` from `pi` on, up to ASCII
/// case.
pub open spec fn ci_embedding_from(
    m: Seq<int>,
    pat: Seq<char>,
    pi: int,
    name: Seq<char>,
    lo: int,
) -> bool {
    &&& m.len() == pat.len() - pi
    &&& forall|j: int| 0 <= j < m.len() ==> lo <= #[trigger] m[j] < name.len()
    &&& forall|j: int| 0 <= j < m.len() - 1 ==> #[trigger] m[j] < m[j + 1]
    &&& forall|j: int| 0 <= j < m.len() ==> eq_ci(pat[pi + j], name[#[trigger] m[j]])
}

/// `pat` appears inside `name` as an ordered subsequence, matching up to
/// ASCII case.
pub open spec fn is_ci_subsequence(pat: Seq<char>, name: Seq<char>) -> bool {
    exists|m: Seq<int>| #[trigger] ci_embedding_from(m, pat, 0, name, 0)
}

/// A scan that consumes the whole pattern pins an embedding of its
/// remainder into the rest of the name.
#[verifier::rlimit(100)]
#[verifier::spinoff_prover]
proof fn lemma_scan_embedding(name: Seq<char>, pat: Seq<char>, i: int, b: int, st: ScanState)
    requires
        0 <= i <= name.len(),
        0 <= st.pat_idx <= pat.len(),
        scan(name, pat, i, b, st).pat_idx == pat.len(),
    ensures
        exists|m: Seq<int>| #[trigger] ci_embedding_from(m, pat, st.pat_idx, name, i),
    decreases name.len() - i,
{
    if st.pat_idx == pat.len() {
        let m = Seq::<int>::empty();
        assert(ci_embedding_from(m, pat, st.pat_idx, name, i));
    } else if i >= name.len() {
        assert(scan(name, pat, i, b, st) == st);
    } else {
        let d = name[i];
        let dlen = char_utf8_len(d);
        let p = pat[st.pat_idx];
        if eq_ci(p, d) {
            let st2 = ScanState {
                cost: st.cost + (if spec_is_separator(p) {
                    b - st.last_match
                } else {
                    8 * (b - st.last_match)
                }) + (if p != d {
                    4int
                } else {
                    0int
                }),
                last_match: b + dlen,
                pat_idx: st.pat_idx + 1,
            };
            assert(scan(name, pat, i, b, st) == scan(name, pat, i + 1, b + dlen, st2));
            lemma_scan_embedding(name, pat, i + 1, b + dlen, st2);
            let m2 = choose|m2: Seq<int>|
                #[trigger] ci_embedding_from(m2, pat, st.pat_idx + 1, name, i + 1);
            let m = seq![i] + m2;
            assert forall|j: int| 0 <= j < m.len() implies eq_ci(
                pat[st.pat_idx + j],
                name[#[trigger] m[j]],
            ) by {
                if j > 0 {
                    assert(m[j] == m2[j - 1]);
                    assert(eq_ci(pat[st.pat_idx + 1 + (j - 1)], name[m2[j - 1]]));
                }
            }
            assert(ci_embedding_from(m, pat, st.pat_idx, name, i));
        } else {
            let st2 = if spec_is_separator(d) {
                ScanState {
                    cost: st.cost + (b + dlen - st.last_match),
                    last_match: b + dlen,
                    ..st
                }
            } else {
                st
            };
            assert(scan(name, pat, i, b, st) == scan(name, pat, i + 1, b + dlen, st2));
            lemma_scan_embedding(name, pat, i + 1, b + dlen, st2);
            let m2 = choose|m2: Seq<int>|
                #[trigger] ci_embedding_from(m2, pat, st.pat_idx, name, i + 1);
            assert(ci_embedding_from(m2, pat, st.pat_idx, name, i));
        }
    }
}

/// THE LAW OF SUBSEQUENCE MATCHING.  A pattern can only match at some cost
/// if it appears in the name as an ASCII-case-insensitive ordered
/// subsequence; a pattern that does not so appear is refused.
pub proof fn lemma_match_implies_subsequence(name: Seq<char>, pat: Seq<char>)
    requires
        spec_match_cost(name, pat) is Some,
    ensures
        is_ci_subsequence(pat, name),
{
    let st0 = ScanState { cost: 0, last_match: 0, pat_idx: 0 };
    lemma_scan_embedding(name, pat, 0, 0, st0);
}

} // verus!
