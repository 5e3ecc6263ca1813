//! Unicode white space and trimming of a string at both ends.
use vstd::prelude::*;
use vstd::string::*;

verus! {

/// The characters with the Unicode property White_Space.
pub open spec fn is_white_space(c: char) -> bool {
    let v = c as u32;
    ||| 0x09 <= v <= 0x0D
    ||| v == 0x20
    ||| v == 0x85
    ||| v == 0xA0
    ||| v == 0x1680
    ||| 0x2000 <= v <= 0x200A
    ||| v == 0x2028
    ||| v == 0x2029
    ||| v == 0x202F
    ||| v == 0x205F
    ||| v == 0x3000
}

/// Number of white-space characters at the front of `s`.
pub open spec fn leading_white_space(s: Seq<char>) -> nat
    decreases s.len(),
{
    if s.len() == 0 || !is_white_space(s[0]) {
        0
    } else {
        1 + leading_white_space(s.drop_first())
    }
}

/// Number of white-space characters at the back of `s`.
pub open spec fn trailing_white_space(s: Seq<char>) -> nat
    decreases s.len(),
{
    if s.len() == 0 || !is_white_space(s.last()) {
        0
    } else {
        1 + trailing_white_space(s.drop_last())
    }
}

/// `s` with white space removed at its start and then at its end.
pub open spec fn trimmed(s: Seq<char>) -> Seq<char> {
    let t = s.skip(leading_white_space(s) as int);
    t.take(t.len() - trailing_white_space(t))
}

/// Whether a character is Unicode white space.
pub fn char_is_white_space(c: char) -> (b: bool)
    ensures
        b == is_white_space(c),
{
    let v = c as u32;
    (0x09 <= v && v <= 0x0D) || v == 0x20 || v == 0x85 || v == 0xA0 || v == 0x1680 || (0x2000
        <= v && v <= 0x200A) || v == 0x2028 || v == 0x2029 || v == 0x202F || v == 0x205F || v
        == 0x3000
}

/// If the first `j` characters are white space and the next is not,
/// `j` white-space characters lead.
proof fn lemma_leading_white_space(s: Seq<char>, j: int)
    requires
        0 <= j <= s.len(),
        forall|i: int| 0 <= i < j ==> is_white_space(#[trigger] s[i]),
        j < s.len() ==> !is_white_space(s[j]),
    ensures
        leading_white_space(s) == j,
    decreases j,
{
    if j > 0 {
        let t = s.drop_first();
        assert forall|i: int| 0 <= i < j - 1 implies is_white_space(#[trigger] t[i]) by {
            assert(t[i] == s[i + 1]);
        }
        if j - 1 < t.len() {
            assert(t[j - 1] == s[j]);
        }
        lemma_leading_white_space(t, j - 1);
    }
}

/// If the characters from `e` on are white space and the one before is not,
/// `len - e` white-space characters trail.
proof fn lemma_trailing_white_space(s: Seq<char>, e: int)
    requires
        0 <= e <= s.len(),
        forall|i: int| e <= i < s.len() ==> is_white_space(#[trigger] s[i]),
        e > 0 ==> !is_white_space(s[e - 1]),
    ensures
        trailing_white_space(s) == s.len() - e,
    decreases s.len() - e,
{
    if e < s.len() {
        let t = s.drop_last();
        assert(is_white_space(s[s.len() - 1]));
        assert forall|i: int| e <= i < t.len() implies is_white_space(#[trigger] t[i]) by {
            assert(t[i] == s[i]);
        }
        if e > 0 {
            assert(t[e - 1] == s[e - 1]);
        }
        lemma_trailing_white_space(t, e);
    }
}

/// `s` with leading and trailing white space removed.
pub fn trim_white_space(s: &str) -> (r: &str)
    ensures
        r@ == trimmed(s@),
{
    let ghost cs = s@;
    let total = crate::text_metrics::text_len(s);
    let mut count: usize = 0;
    let mut start: usize = 0;
    let mut end: usize = 0;
    let mut found = false;
    for ch in it: s.chars()
        invariant
            count == it.index(),
            it.seq() == cs,
            count <= cs.len(),
            cs.len() <= total <= isize::MAX,
            found ==> start < end <= count,
            found ==> !is_white_space(cs[start as int]),
            found ==> !is_white_space(cs[end - 1]),
            !found ==> start == 0 && end == 0,
            forall|i: int|
                0 <= i < count && !found ==> is_white_space(#[trigger] cs[i]),
            forall|i: int|
                0 <= i < start && found ==> is_white_space(#[trigger] cs[i]),
            forall|i: int|
                end <= i < count && found ==> is_white_space(#[trigger] cs[i]),
    {
        assert(ch == cs[count as int]);
        if !char_is_white_space(ch) {
            if !found {
                start = count;
                found = true;
            }
            end = count + 1;
        }
        count = count + 1;
    }
    if found {
        proof {
            lemma_leading_white_space(cs, start as int);
            let t = cs.skip(start as int);
            assert forall|i: int| end - start <= i < t.len() implies is_white_space(
                #[trigger] t[i],
            ) by {
                assert(t[i] == cs[start + i]);
            }
            assert(t[end - start - 1] == cs[end - 1]);
            lemma_trailing_white_space(t, end - start);
            assert(t.take(end - start) =~= cs.subrange(start as int, end as int));
        }
        s.substring_char(start, end)
    } else {
        proof {
            lemma_leading_white_space(cs, cs.len() as int);
            assert(cs.skip(cs.len() as int).len() == 0);
            assert(trimmed(cs) =~= cs.subrange(0, 0));
        }
        s.substring_char(0, 0)
    }
}

/// The code points of the Unicode property White_Space, one by one.
pub open spec fn white_space_code_points() -> Set<u32> {
    set![
        0x0009u32, 0x000A, 0x000B, 0x000C, 0x000D, 0x0020, 0x0085, 0x00A0, 0x1680, 0x2000,
        0x2001, 0x2002, 0x2003, 0x2004, 0x2005, 0x2006, 0x2007, 0x2008, 0x2009, 0x200A, 0x2028,
        0x2029, 0x202F, 0x205F, 0x3000,
    ]
}

/// A character is white space exactly when its code point is one of the
/// White_Space code points.
pub proof fn lemma_white_space_code_points(c: char)
    ensures
        is_white_space(c) <==> white_space_code_points().contains(c as u32),
{
}

/// What leads and trails: the counted characters at each end are white
/// space, and the character just past them is not.
proof fn lemma_white_space_counts(s: Seq<char>)
    ensures
        leading_white_space(s) <= s.len(),
        forall|i: int| 0 <= i < leading_white_space(s) ==> is_white_space(#[trigger] s[i]),
        leading_white_space(s) < s.len() ==> !is_white_space(s[leading_white_space(s) as int]),
        trailing_white_space(s) <= s.len(),
        forall|i: int|
            s.len() - trailing_white_space(s) <= i < s.len() ==> is_white_space(#[trigger] s[i]),
        trailing_white_space(s) < s.len() ==> !is_white_space(
            s[s.len() - trailing_white_space(s) - 1],
        ),
    decreases s.len(),
{
    if s.len() > 0 {
        let t = s.drop_first();
        let u = s.drop_last();
        lemma_white_space_counts(t);
        lemma_white_space_counts(u);
        assert forall|i: int| 0 <= i < t.len() implies #[trigger] t[i] == s[i + 1] by {}
        assert forall|i: int| 0 <= i < u.len() implies #[trigger] u[i] == s[i] by {}
        assert(s.last() == s[s.len() - 1]);
        assert forall|i: int| 0 <= i < leading_white_space(s) implies is_white_space(
            #[trigger] s[i],
        ) by {
            if i > 0 {
                assert(t[i - 1] == s[i]);
            }
        }
        assert forall|i: int|
            s.len() - trailing_white_space(s) <= i < s.len() implies is_white_space(
            #[trigger] s[i],
        ) by {
            if i < s.len() - 1 {
                assert(u[i] == s[i]);
            }
        }
    }
}

/// Trimming keeps a contiguous part of the text: everything cut away at
/// either end is white space, and what is kept neither starts nor ends with
/// white space. A text of white space only trims to nothing.
pub proof fn lemma_trimmed_shape(s: Seq<char>)
    ensures
        ({
            let i = leading_white_space(s) as int;
            let j = i + trimmed(s).len();
            &&& j <= s.len()
            &&& trimmed(s) == s.subrange(i, j)
            &&& forall|k: int| 0 <= k < i ==> is_white_space(#[trigger] s[k])
            &&& forall|k: int| j <= k < s.len() ==> is_white_space(#[trigger] s[k])
            &&& trimmed(s).len() > 0 ==> !is_white_space(trimmed(s)[0]) && !is_white_space(
                trimmed(s).last(),
            )
        }),
        trimmed(s).len() == 0 <==> forall|k: int| 0 <= k < s.len() ==> is_white_space(#[trigger] s[k]),
{
    let i = leading_white_space(s) as int;
    lemma_white_space_counts(s);
    let t = s.skip(i);
    lemma_white_space_counts(t);
    let n = t.len() - trailing_white_space(t);
    assert(trimmed(s) == t.take(n));
    assert(t.take(n) =~= s.subrange(i, i + n));
    assert forall|k: int| i + n <= k < s.len() implies is_white_space(#[trigger] s[k]) by {
        assert(t[k - i] == s[k]);
    }
    if n > 0 {
        assert(t.take(n)[0] == t[0]);
        assert(t[0] == s[i]);
        assert(t.take(n).last() == t[n - 1]);
    }
    if i < s.len() {
        assert(t[0] == s[i]);
        if n == 0 {
            assert(trailing_white_space(t) == t.len());
            assert(is_white_space(t[0]));
        }
    }
}

} // verus!
