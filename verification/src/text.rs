//! Character and string utilities: ASCII-case-insensitive equality,
//! whitespace handling, UTF-8 byte lengths, and substring search.
//!
//! Case handling is deliberately ASCII-only: candidate names may contain
//! mathematical Unicode symbols, and folding those would do more harm than
//! good.

use vstd::prelude::*;
use vstd::seq_lib::lemma_seq_skip_of_skip;

verus! {

/// An ASCII uppercase letter.
pub open spec fn spec_is_ascii_upper(c: char) -> bool {
    0x41 <= c as u32 <= 0x5a
}

/// ASCII-case-insensitive character equality: equal outright, or equal
/// ASCII letters that differ only in case.
pub open spec fn eq_ci(a: char, b: char) -> bool {
    ||| a == b
    ||| (spec_is_ascii_upper(a) && a as u32 + 32 == b as u32)
    ||| (spec_is_ascii_upper(b) && b as u32 + 32 == a as u32)
}

/// Compare two characters ignoring ASCII case.
pub fn eq_ignore_case(a: char, b: char) -> (r: bool)
    ensures
        r == eq_ci(a, b),
{
    let ua = a as u32;
    let ub = b as u32;
    if ua == ub {
        true
    } else if 0x41 <= ua && ua <= 0x5a && ua + 32 == ub {
        true
    } else {
        0x41 <= ub && ub <= 0x5a && ub + 32 == ua
    }
}

/// The Unicode white-space characters, as the White_Space property lists
/// them.
pub open spec fn spec_is_whitespace(c: char) -> bool {
    let u = c as u32;
    ||| 0x09 <= u <= 0x0d
    ||| u == 0x20
    ||| u == 0x85
    ||| u == 0xa0
    ||| u == 0x1680
    ||| 0x2000 <= u <= 0x200a
    ||| u == 0x2028
    ||| u == 0x2029
    ||| u == 0x202f
    ||| u == 0x205f
    ||| u == 0x3000
}

/// Whether a character has the Unicode White_Space property.
pub fn is_whitespace_char(c: char) -> (r: bool)
    ensures
        r == spec_is_whitespace(c),
{
    let u = c as u32;
    (0x09 <= u && u <= 0x0d) || u == 0x20 || u == 0x85 || u == 0xa0 || u == 0x1680
        || (0x2000 <= u && u <= 0x200a) || u == 0x2028 || u == 0x2029 || u == 0x202f
        || u == 0x205f || u == 0x3000
}

/// The number of bytes the UTF-8 encoding of a character takes.
pub open spec fn char_utf8_len(c: char) -> int {
    let u = c as u32;
    if u < 0x80 {
        1
    } else if u < 0x800 {
        2
    } else if u < 0x10000 {
        3
    } else {
        4
    }
}

/// Compute the UTF-8 byte length of a character.
pub fn char_len(c: char) -> (n: usize)
    ensures
        n == char_utf8_len(c),
        1 <= n <= 4,
{
    let u = c as u32;
    if u < 0x80 {
        1
    } else if u < 0x800 {
        2
    } else if u < 0x10000 {
        3
    } else {
        4
    }
}

/// The UTF-8 byte length of a character sequence.
pub open spec fn utf8_len(s: Seq<char>) -> int
    decreases s.len(),
{
    if s.len() == 0 {
        0
    } else {
        utf8_len(s.drop_last()) + char_utf8_len(s.last())
    }
}

/// Compute the UTF-8 byte length of a character sequence.
pub fn utf8_len_chars(s: &Vec<char>) -> (r: u128)
    ensures
        r == utf8_len(s@),
{
    let n = s.len();
    let mut i: usize = 0;
    let mut r: u128 = 0;
    while i < n
        invariant
            i <= n,
            n == s@.len(),
            r == utf8_len(s@.take(i as int)),
            r <= 4 * i,
        decreases n - i,
    {
        proof {
            assert(s@.take(i + 1).drop_last() =~= s@.take(i as int));
            assert(s@.take(i + 1).last() == s@[i as int]);
        }
        r = r + char_len(s[i]) as u128;
        i = i + 1;
    }
    proof {
        assert(s@.take(n as int) =~= s@);
    }
    r
}

/// The views of a sequence of character vectors.
pub open spec fn seq_views(s: Seq<Vec<char>>) -> Seq<Seq<char>> {
    s.map_values(|v: Vec<char>| v@)
}

/// Collect the characters of a string slice.
pub fn str_chars(s: &str) -> (r: Vec<char>)
    ensures
        r@ == s@,
{
    let n = s.unicode_len();
    let mut r: Vec<char> = Vec::new();
    let mut i: usize = 0;
    while i < n
        invariant
            n == s@.len(),
            i <= n,
            r@ == s@.take(i as int),
        decreases n - i,
    {
        r.push(s.get_char(i));
        i = i + 1;
        proof {
            assert(s@.take(i as int) =~= s@.take(i - 1).push(s@[i - 1]));
        }
    }
    proof {
        assert(s@.take(n as int) =~= s@);
    }
    r
}

/// The characters of a sequence with the white space removed.
pub open spec fn strip_ws(s: Seq<char>) -> Seq<char> {
    s.filter(|c: char| !spec_is_whitespace(c))
}

/// Remove every white-space character.
pub fn remove_whitespace(s: &Vec<char>) -> (r: Vec<char>)
    ensures
        r@ == strip_ws(s@),
{
    let n = s.len();
    let mut r: Vec<char> = Vec::new();
    let mut i: usize = 0;
    proof {
        reveal(Seq::filter);
        assert(s@.take(0) =~= Seq::<char>::empty());
    }
    while i < n
        invariant
            i <= n,
            n == s@.len(),
            r@ == strip_ws(s@.take(i as int)),
        decreases n - i,
    {
        let c = s[i];
        if !is_whitespace_char(c) {
            r.push(c);
        }
        i = i + 1;
        proof {
            reveal(Seq::filter);
            assert(s@.take(i as int).drop_last() =~= s@.take(i - 1));
            assert(s@.take(i as int).last() == s@[i - 1]);
        }
    }
    proof {
        assert(s@.take(n as int) =~= s@);
    }
    r
}

/// The index of the first white-space character, or the length if there is
/// none.
pub open spec fn first_ws_index(s: Seq<char>) -> int
    decreases s.len(),
{
    if s.len() == 0 {
        0
    } else if spec_is_whitespace(s[0]) {
        0
    } else {
        1 + first_ws_index(s.drop_first())
    }
}

pub proof fn lemma_first_ws_index_range(s: Seq<char>)
    ensures
        0 <= first_ws_index(s) <= s.len(),
    decreases s.len(),
{
    if s.len() > 0 && !spec_is_whitespace(s[0]) {
        lemma_first_ws_index_range(s.drop_first());
    }
}

/// The maximal white-space-separated words of a sequence, in order.
pub open spec fn split_ws(s: Seq<char>) -> Seq<Seq<char>>
    decreases s.len(),
    via split_ws_decreases
{
    if s.len() == 0 {
        Seq::empty()
    } else if spec_is_whitespace(s[0]) {
        split_ws(s.drop_first())
    } else {
        let k = first_ws_index(s);
        seq![s.take(k)] + split_ws(s.skip(k))
    }
}

#[via_fn]
proof fn split_ws_decreases(s: Seq<char>) {
    if s.len() > 0 && !spec_is_whitespace(s[0]) {
        lemma_first_ws_index_range(s.drop_first());
    }
}

/// In a sequence whose first `k` characters are not white space and whose
/// character at `k`, if any, is, the first word is exactly `take(k)`.
proof fn lemma_first_ws_index_split(s: Seq<char>, k: int)
    requires
        0 < k <= s.len(),
        forall|j: int| 0 <= j < k ==> !spec_is_whitespace(#[trigger] s[j]),
        k < s.len() ==> spec_is_whitespace(s[k]),
    ensures
        first_ws_index(s) == k,
        split_ws(s) == seq![s.take(k)] + split_ws(s.skip(k)),
    decreases k,
{
    let t = s.drop_first();
    assert(!spec_is_whitespace(s[0]));
    if k == 1 {
        if s.len() > 1 {
            assert(t[0] == s[1]);
            assert(spec_is_whitespace(t[0]));
            assert(first_ws_index(t) == 0);
        } else {
            assert(t.len() == 0);
            assert(first_ws_index(t) == 0);
        }
        assert(first_ws_index(s) == 1);
    } else {
        assert forall|j: int| 0 <= j < k - 1 implies !spec_is_whitespace(#[trigger] t[j]) by {
            assert(t[j] == s[j + 1]);
        }
        if k - 1 < t.len() {
            assert(t[k - 1] == s[k]);
        }
        lemma_first_ws_index_split(t, k - 1);
        assert(first_ws_index(s) == 1 + first_ws_index(t));
    }
}

/// Split a sequence at white space into its words.
pub fn split_whitespace(s: &Vec<char>) -> (r: Vec<Vec<char>>)
    ensures
        seq_views(r@) == split_ws(s@),
{
    let mut r: Vec<Vec<char>> = Vec::new();
    let n = s.len();
    let mut i: usize = 0;
    proof {
        assert(s@.skip(0) =~= s@);
        assert(seq_views(r@) + split_ws(s@.skip(0)) =~= split_ws(s@));
    }
    while i < n
        invariant
            i <= n,
            n == s@.len(),
            seq_views(r@) + split_ws(s@.skip(i as int)) == split_ws(s@),
        decreases n - i,
    {
        if is_whitespace_char(s[i]) {
            proof {
                assert(s@.skip(i as int)[0] == s@[i as int]);
                assert(s@.skip(i as int).drop_first() =~= s@.skip(i + 1));
            }
            i = i + 1;
        } else {
            let start = i;
            let mut word: Vec<char> = Vec::new();
            while i < n && !is_whitespace_char(s[i])
                invariant
                    start <= i <= n,
                    n == s@.len(),
                    word@ == s@.subrange(start as int, i as int),
                    forall|j: int| start <= j < i ==> !spec_is_whitespace(#[trigger] s@[j]),
                decreases n - i,
            {
                word.push(s[i]);
                i = i + 1;
                proof {
                    assert(s@.subrange(start as int, i as int) =~= s@.subrange(
                        start as int,
                        i - 1,
                    ).push(s@[i - 1]));
                }
            }
            proof {
                let rest = s@.skip(start as int);
                assert forall|j: int| 0 <= j < i - start implies !spec_is_whitespace(
                    #[trigger] rest[j],
                ) by {
                    assert(rest[j] == s@[start + j]);
                }
                if (i - start) < rest.len() {
                    assert(rest[i - start] == s@[i as int]);
                }
                lemma_first_ws_index_split(rest, i - start);
                assert(rest.take(i - start) =~= s@.subrange(start as int, i as int));
                lemma_seq_skip_of_skip(s@, (i - start) as int, start as int);
                assert(rest.skip(i - start) =~= s@.skip(i as int));
                assert(split_ws(rest) == seq![word@] + split_ws(s@.skip(i as int)));
            }
            let ghost old_views = seq_views(r@);
            r.push(word);
            proof {
                assert(seq_views(r@) =~= old_views + seq![word@]);
                assert(seq_views(r@) + split_ws(s@.skip(i as int)) =~= (old_views + seq![word@])
                    + split_ws(s@.skip(i as int)));
                assert((old_views + seq![word@]) + split_ws(s@.skip(i as int)) =~= old_views + (
                seq![word@] + split_ws(s@.skip(i as int))));
            }
        }
    }
    proof {
        assert(s@.skip(n as int) =~= Seq::<char>::empty());
        assert(seq_views(r@) + split_ws(s@.skip(n as int)) =~= seq_views(r@));
    }
    r
}

/// `sub` occurs at position `k` of `text` when the characters are compared
/// ignoring ASCII case.
pub open spec fn ci_match_at(sub: Seq<char>, text: Seq<char>, k: int) -> bool {
    forall|j: int| 0 <= j < sub.len() ==> eq_ci(#[trigger] sub[j], text[k + j])
}

/// `sub` occurs inside `text` when the characters are compared ignoring
/// ASCII case.
pub open spec fn is_ci_substring(sub: Seq<char>, text: Seq<char>) -> bool {
    exists|k: int| 0 <= k <= text.len() - sub.len() && #[trigger] ci_match_at(sub, text, k)
}

/// Search for `sub` inside `text`, comparing characters ignoring ASCII
/// case.
pub fn contains_ci(text: &Vec<char>, sub: &Vec<char>) -> (r: bool)
    ensures
        r == is_ci_substring(sub@, text@),
{
    let tn = text.len();
    let sn = sub.len();
    if sn > tn {
        return false;
    }
    let mut k: usize = 0;
    while k <= tn - sn
        invariant
            sn == sub@.len(),
            tn == text@.len(),
            sn <= tn,
            k <= tn - sn + 1,
            forall|k0: int| 0 <= k0 < k ==> !ci_match_at(sub@, text@, k0),
        decreases tn - sn - k + 1,
    {
        let mut j: usize = 0;
        let mut all: bool = true;
        while j < sn
            invariant
                sn == sub@.len(),
                tn == text@.len(),
                k + sn <= tn,
                j <= sn,
                all == (forall|j0: int| 0 <= j0 < j ==> eq_ci(#[trigger] sub@[j0], text@[k + j0])),
            decreases sn - j,
        {
            if !eq_ignore_case(sub[j], text[k + j]) {
                all = false;
                proof {
                    assert(!eq_ci(sub@[j as int], text@[k + j]));
                }
            }
            j = j + 1;
        }
        if all {
            proof {
                assert(ci_match_at(sub@, text@, k as int));
            }
            return true;
        }
        proof {
            assert(!ci_match_at(sub@, text@, k as int));
        }
        k = k + 1;
    }
    false
}

} // verus!
