//! Character and string utilities shared by the parser and the snapshot
//! codec: whitespace classification, prefix tests, substring search, and
//! token scanning, each with a specification over `Seq<char>`.

use vstd::prelude::*;
use vstd::string::*;

verus! {

/// Whether `c` has the Unicode `White_Space` property, the classification
/// used when a token "ends at the first whitespace".
pub open spec fn is_space(c: char) -> bool {
    let u = c as u32;
    u == 32 || (9 <= u && u <= 13) || u == 0x85 || u == 0xa0 || u == 0x1680 || (0x2000 <= u
        && u <= 0x200a) || u == 0x2028 || u == 0x2029 || u == 0x202f || u == 0x205f || u == 0x3000
}

/// Runtime test for [`is_space`].
pub fn is_space_char(c: char) -> (b: bool)
    ensures
        b == is_space(c),
{
    let u = c as u32;
    u == 32 || (9 <= u && u <= 13) || u == 0x85 || u == 0xa0 || u == 0x1680 || (0x2000 <= u
        && u <= 0x200a) || u == 0x2028 || u == 0x2029 || u == 0x202f || u == 0x205f || u == 0x3000
}

/// Relies on `String::push`: appends exactly the given character at the end.
#[verifier::external_body]
pub(crate) fn push_char(s: &mut String, c: char)
    ensures
        final(s)@ == old(s)@.push(c),
{
    s.push(c);
}

/// Whether two string slices hold the same characters.
pub fn str_eq(a: &str, b: &str) -> (r: bool)
    ensures
        r == (a@ == b@),
{
    let al = a.unicode_len();
    let bl = b.unicode_len();
    if al != bl {
        return false;
    }
    let mut i: usize = 0;
    while i < al
        invariant
            i <= al,
            al == a@.len(),
            al == b@.len(),
            forall|j: int| 0 <= j < i ==> a@[j] == b@[j],
        decreases al - i,
    {
        if a.get_char(i) != b.get_char(i) {
            return false;
        }
        i += 1;
    }
    proof {
        assert(a@ =~= b@);
    }
    true
}

/// Whether `p` is a prefix of `s`.
pub open spec fn is_prefix(p: Seq<char>, s: Seq<char>) -> bool {
    p.len() <= s.len() && s.take(p.len() as int) == p
}

/// Runtime test for [`is_prefix`].
pub fn starts_with_str(s: &str, p: &str) -> (b: bool)
    ensures
        b == is_prefix(p@, s@),
{
    let sl = s.unicode_len();
    let pl = p.unicode_len();
    if pl > sl {
        return false;
    }
    let mut i: usize = 0;
    while i < pl
        invariant
            i <= pl <= sl,
            sl == s@.len(),
            pl == p@.len(),
            forall|j: int| 0 <= j < i ==> s@[j] == p@[j],
        decreases pl - i,
    {
        if s.get_char(i) != p.get_char(i) {
            proof {
                assert(s@.take(pl as int)[i as int] != p@[i as int]);
            }
            return false;
        }
        i += 1;
    }
    proof {
        assert(s@.take(pl as int) =~= p@);
    }
    true
}

/// Whether `p` occurs in `s` starting at index `i`.
pub open spec fn occurs_at(s: Seq<char>, p: Seq<char>, i: int) -> bool {
    0 <= i && i + p.len() <= s.len() && s.subrange(i, i + p.len() as int) == p
}

/// The number of indices below `k` at which `p` occurs in `s`.
pub open spec fn matches_below(s: Seq<char>, p: Seq<char>, k: int) -> nat
    decreases k,
{
    if k <= 0 {
        0
    } else {
        matches_below(s, p, k - 1) + (if occurs_at(s, p, k - 1) {
            1nat
        } else {
            0nat
        })
    }
}

/// How many times `p` occurs in `s`.
pub open spec fn match_count(s: Seq<char>, p: Seq<char>) -> nat {
    matches_below(s, p, s.len() as int)
}

/// The first index at or after `i` where `p` occurs in `s`; `-1` when it
/// does not occur there (or when `p` is empty).
pub open spec fn first_match_from(s: Seq<char>, p: Seq<char>, i: int) -> int
    decreases s.len() - i,
{
    if i < 0 || p.len() == 0 || i + p.len() > s.len() {
        -1
    } else if occurs_at(s, p, i) {
        i
    } else {
        first_match_from(s, p, i + 1)
    }
}

/// Runtime test for [`occurs_at`].
pub fn occurs_at_index(s: &str, p: &str, i: usize) -> (b: bool)
    ensures
        b == occurs_at(s@, p@, i as int),
{
    let sl = s.unicode_len();
    let pl = p.unicode_len();
    if i > sl || pl > sl - i {
        return false;
    }
    let mut j: usize = 0;
    while j < pl
        invariant
            j <= pl,
            i + pl <= sl,
            sl == s@.len(),
            pl == p@.len(),
            forall|m: int| 0 <= m < j ==> s@[i + m] == p@[m],
        decreases pl - j,
    {
        if s.get_char(i + j) != p.get_char(j) {
            proof {
                assert(s@.subrange(i as int, i + pl) != p@) by {
                    assert(s@.subrange(i as int, i + pl)[j as int] != p@[j as int]);
                }
            }
            return false;
        }
        j += 1;
    }
    proof {
        assert(s@.subrange(i as int, i + pl) =~= p@);
    }
    true
}

/// Scans `s` for occurrences of `p`: returns how many there are, and the
/// index of the first one (`s.len()` when there is none).
pub fn scan_matches(s: &str, p: &str) -> (r: (usize, usize))
    requires
        p@.len() > 0,
    ensures
        r.0 == match_count(s@, p@),
        r.0 > 0 ==> r.1 == first_match_from(s@, p@, 0) && occurs_at(s@, p@, r.1 as int),
        r.0 == 0 ==> r.1 == s@.len(),
{
    let sl = s.unicode_len();
    let mut count: usize = 0;
    let mut first: usize = sl;
    let mut i: usize = 0;
    while i < sl
        invariant
            i <= sl,
            sl == s@.len(),
            p@.len() > 0,
            count <= i,
            count == matches_below(s@, p@, i as int),
            count == 0 ==> first == sl && first_match_from(s@, p@, 0) == first_match_from(
                s@,
                p@,
                i as int,
            ),
            count > 0 ==> first < i && first == first_match_from(s@, p@, 0) && occurs_at(
                s@,
                p@,
                first as int,
            ),
        decreases sl - i,
    {
        let found = occurs_at_index(s, p, i);
        proof {
            if found {
                assert(first_match_from(s@, p@, i as int) == i);
            } else {
                assert(first_match_from(s@, p@, i as int) == first_match_from(
                    s@,
                    p@,
                    i as int + 1,
                ));
            }
        }
        if found {
            if count == 0 {
                first = i;
            }
            count += 1;
        }
        i += 1;
    }
    proof {
        if count == 0 {
            assert(first_match_from(s@, p@, sl as int) == -1);
        }
    }
    (count, first)
}

/// The length of the leading run of non-whitespace characters.
pub open spec fn token_len(s: Seq<char>) -> nat
    decreases s.len(),
{
    if s.len() == 0 || is_space(s[0]) {
        0
    } else {
        1 + token_len(s.drop_first())
    }
}

/// The length of the leading run of whitespace characters.
pub open spec fn space_len(s: Seq<char>) -> nat
    decreases s.len(),
{
    if s.len() == 0 || !is_space(s[0]) {
        0
    } else {
        1 + space_len(s.drop_first())
    }
}

/// The number of characters before the first line break, or all of them.
pub open spec fn line_len(s: Seq<char>) -> nat
    decreases s.len(),
{
    if s.len() == 0 || s[0] == '\n' {
        0
    } else {
        1 + line_len(s.drop_first())
    }
}

/// A scan that stops at the first index satisfying the boundary condition
/// pins down [`token_len`].
proof fn lemma_token_len_characterize(s: Seq<char>, i: int)
    requires
        0 <= i <= s.len(),
        forall|j: int| 0 <= j < i ==> !is_space(s[j]),
        i == s.len() || is_space(s[i]),
    ensures
        token_len(s) == i,
    decreases s.len(),
{
    if i > 0 {
        assert(!is_space(s[0]));
        lemma_token_len_characterize(s.drop_first(), i - 1);
    }
}

/// The same characterization for [`space_len`].
proof fn lemma_space_len_characterize(s: Seq<char>, i: int)
    requires
        0 <= i <= s.len(),
        forall|j: int| 0 <= j < i ==> is_space(s[j]),
        i == s.len() || !is_space(s[i]),
    ensures
        space_len(s) == i,
    decreases s.len(),
{
    if i > 0 {
        assert(is_space(s[0]));
        lemma_space_len_characterize(s.drop_first(), i - 1);
    }
}

/// The same characterization for [`line_len`].
proof fn lemma_line_len_characterize(s: Seq<char>, i: int)
    requires
        0 <= i <= s.len(),
        forall|j: int| 0 <= j < i ==> s[j] != '\n',
        i == s.len() || s[i] == '\n',
    ensures
        line_len(s) == i,
    decreases s.len(),
{
    if i > 0 {
        lemma_line_len_characterize(s.drop_first(), i - 1);
    }
}

/// Runtime scan for [`token_len`].
pub fn scan_token(s: &str) -> (n: usize)
    ensures
        n == token_len(s@),
        n <= s@.len(),
{
    let sl = s.unicode_len();
    let mut i: usize = 0;
    while i < sl
        invariant
            i <= sl,
            sl == s@.len(),
            forall|j: int| 0 <= j < i ==> !is_space(s@[j]),
        decreases sl - i,
    {
        if is_space_char(s.get_char(i)) {
            proof {
                lemma_token_len_characterize(s@, i as int);
            }
            return i;
        }
        i += 1;
    }
    proof {
        lemma_token_len_characterize(s@, sl as int);
    }
    sl
}

/// Runtime scan for [`space_len`].
pub fn scan_spaces(s: &str) -> (n: usize)
    ensures
        n == space_len(s@),
        n <= s@.len(),
{
    let sl = s.unicode_len();
    let mut i: usize = 0;
    while i < sl
        invariant
            i <= sl,
            sl == s@.len(),
            forall|j: int| 0 <= j < i ==> is_space(s@[j]),
        decreases sl - i,
    {
        if !is_space_char(s.get_char(i)) {
            proof {
                lemma_space_len_characterize(s@, i as int);
            }
            return i;
        }
        i += 1;
    }
    proof {
        lemma_space_len_characterize(s@, sl as int);
    }
    sl
}

/// Runtime scan for [`line_len`].
pub fn scan_line(s: &str) -> (n: usize)
    ensures
        n == line_len(s@),
        n <= s@.len(),
{
    let sl = s.unicode_len();
    let mut i: usize = 0;
    while i < sl
        invariant
            i <= sl,
            sl == s@.len(),
            forall|j: int| 0 <= j < i ==> s@[j] != '\n',
        decreases sl - i,
    {
        if s.get_char(i) == '\n' {
            proof {
                lemma_line_len_characterize(s@, i as int);
            }
            return i;
        }
        i += 1;
    }
    proof {
        lemma_line_len_characterize(s@, sl as int);
    }
    sl
}

/// The first line of a request: the characters before the first line
/// break, with a trailing carriage return removed.
pub open spec fn first_line(s: Seq<char>) -> Seq<char> {
    let l = s.take(line_len(s) as int);
    if l.len() > 0 && l.last() == '\r' {
        l.drop_last()
    } else {
        l
    }
}

/// Extracts [`first_line`] from a request buffer.
pub fn take_first_line<'a>(s: &'a str) -> (line: &'a str)
    ensures
        line@ == first_line(s@),
{
    let ll = scan_line(s);
    let line = s.substring_char(0, ll);
    proof {
        assert(line@ =~= s@.take(ll as int));
    }
    let lln = line.unicode_len();
    if lln > 0 && line.get_char(lln - 1) == '\r' {
        let trimmed = line.substring_char(0, lln - 1);
        proof {
            assert(trimmed@ =~= line@.drop_last());
        }
        trimmed
    } else {
        line
    }
}

} // verus!

