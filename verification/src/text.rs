//! Character-level helpers: the whitespace set used for trimming, trimming
//! itself, and string equality over character sequences.

use vstd::prelude::*;
use vstd::string::StrSliceExecFns;

verus! {

/// A character the library treats as whitespace when trimming text: the
/// Unicode White_Space set.
pub open spec fn ws_char(c: char) -> bool {
    let u = c as u32;
    (9 <= u && u <= 13) || u == 32 || u == 0x85 || u == 0xa0 || u == 0x1680 || (0x2000 <= u && u
        <= 0x200a) || u == 0x2028 || u == 0x2029 || u == 0x202f || u == 0x205f || u == 0x3000
}

/// The sequence with leading and trailing whitespace removed.
pub open spec fn spec_trim(s: Seq<char>) -> Seq<char>
    decreases s.len(),
{
    if s.len() == 0 {
        s
    } else if ws_char(s[0]) {
        spec_trim(s.drop_first())
    } else if ws_char(s.last()) {
        spec_trim(s.drop_last())
    } else {
        s
    }
}

proof fn lemma_trim_all_ws(s: Seq<char>)
    requires
        forall|k: int| 0 <= k < s.len() ==> ws_char(s[k]),
    ensures
        spec_trim(s).len() == 0,
    decreases s.len(),
{
    if s.len() > 0 {
        assert(forall|k: int| 0 <= k < s.drop_first().len() ==> ws_char(s.drop_first()[k]));
        lemma_trim_all_ws(s.drop_first());
    }
}

proof fn lemma_trim_subrange(s: Seq<char>, i: int, j: int)
    requires
        0 <= i <= j <= s.len(),
        forall|k: int| 0 <= k < i ==> ws_char(s[k]),
        forall|k: int| j <= k < s.len() ==> ws_char(s[k]),
        i < j ==> !ws_char(s[i]) && !ws_char(s[j - 1]),
    ensures
        spec_trim(s) == s.subrange(i, j),
    decreases s.len(),
{
    if i == j {
        lemma_trim_all_ws(s);
        assert(spec_trim(s) =~= s.subrange(i, j));
    } else if ws_char(s[0]) {
        assert(i >= 1);
        let t = s.drop_first();
        assert(forall|k: int| 0 <= k < i - 1 ==> ws_char(t[k]));
        assert(forall|k: int| j - 1 <= k < t.len() ==> ws_char(t[k]));
        lemma_trim_subrange(t, i - 1, j - 1);
        assert(t.subrange(i - 1, j - 1) =~= s.subrange(i, j));
    } else if ws_char(s.last()) {
        assert(j < s.len());
        let t = s.drop_last();
        assert(forall|k: int| 0 <= k < i ==> ws_char(t[k]));
        assert(forall|k: int| j <= k < t.len() ==> ws_char(t[k]));
        lemma_trim_subrange(t, i, j);
        assert(t.subrange(i, j) =~= s.subrange(i, j));
    } else {
        assert(i == 0);
        assert(j == s.len());
        assert(s.subrange(0, s.len() as int) =~= s);
    }
}

/// Whether the library counts this character as whitespace.
pub fn is_ws(c: char) -> (r: bool)
    ensures
        r == ws_char(c),
{
    let u = c as u32;
    (9 <= u && u <= 13) || u == 32 || u == 0x85 || u == 0xa0 || u == 0x1680 || (0x2000 <= u && u
        <= 0x200a) || u == 0x2028 || u == 0x2029 || u == 0x202f || u == 0x205f || u == 0x3000
}

/// The first and one-past-last positions of the non-whitespace core of `s`.
fn trim_bounds(s: &str) -> (r: (usize, usize))
    ensures
        r.0 <= r.1 <= s@.len(),
        forall|k: int| 0 <= k < r.0 ==> ws_char(s@[k]),
        forall|k: int| r.1 <= k < s@.len() ==> ws_char(s@[k]),
        r.0 < r.1 ==> !ws_char(s@[r.0 as int]) && !ws_char(s@[r.1 - 1]),
{
    let n = s.unicode_len();
    let mut i: usize = 0;
    while i < n && is_ws(s.get_char(i))
        invariant
            0 <= i <= n,
            n == s@.len(),
            forall|k: int| 0 <= k < i ==> ws_char(s@[k]),
        decreases n - i,
    {
        i = i + 1;
    }
    let mut j: usize = n;
    while j > i && is_ws(s.get_char(j - 1))
        invariant
            i <= j <= n,
            n == s@.len(),
            i < n ==> !ws_char(s@[i as int]) || i >= j,
            forall|k: int| j <= k < s@.len() ==> ws_char(s@[k]),
        decreases j,
    {
        j = j - 1;
    }
    (i, j)
}

/// A copy of `s` with leading and trailing whitespace removed.
pub fn trim_str(s: &str) -> (r: String)
    ensures
        r@ == spec_trim(s@),
{
    let b = trim_bounds(s);
    proof {
        lemma_trim_subrange(s@, b.0 as int, b.1 as int);
    }
    let sub = s.substring_char(b.0, b.1);
    sub.to_owned()
}

/// The character count of `s` after trimming leading and trailing whitespace.
pub fn trimmed_len(s: &str) -> (r: usize)
    ensures
        r == spec_trim(s@).len(),
{
    let b = trim_bounds(s);
    proof {
        lemma_trim_subrange(s@, b.0 as int, b.1 as int);
    }
    b.1 - b.0
}

/// Whether two string slices hold the same characters.
pub fn str_eq(a: &str, b: &str) -> (r: bool)
    ensures
        r == (a@ == b@),
{
    let na = a.unicode_len();
    let nb = b.unicode_len();
    if na != nb {
        return false;
    }
    let mut k: usize = 0;
    while k < na
        invariant
            na == a@.len(),
            na == b@.len(),
            0 <= k <= na,
            forall|t: int| 0 <= t < k ==> a@[t] == b@[t],
        decreases na - k,
    {
        if a.get_char(k) != b.get_char(k) {
            return false;
        }
        k = k + 1;
    }
    proof {
        assert(a@ =~= b@);
    }
    true
}

} // verus!
