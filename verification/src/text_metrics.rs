//! Character widths in UTF-8 and UTF-16, byte offsets of character
//! positions, and the facts that tie them to vstd's UTF-8 encoding.
use vstd::prelude::*;
use vstd::utf8::*;

verus! {

/// Number of bytes that `c` takes in UTF-8.
pub open spec fn utf8_width(c: char) -> nat {
    let v = c as u32;
    if v <= 0x7F {
        1
    } else if v <= 0x7FF {
        2
    } else if v <= 0xFFFF {
        3
    } else {
        4
    }
}

/// Number of UTF-16 code units that `c` takes.
pub open spec fn utf16_width(c: char) -> nat {
    if (c as u32) <= 0xFFFF {
        1
    } else {
        2
    }
}

/// Length of `s` in UTF-8 bytes.
pub open spec fn utf8_len(s: Seq<char>) -> nat
    decreases s.len(),
{
    if s.len() == 0 {
        0
    } else {
        utf8_width(s[0]) + utf8_len(s.drop_first())
    }
}

/// Length of `s` in UTF-16 code units.
pub open spec fn utf16_len(s: Seq<char>) -> nat
    decreases s.len(),
{
    if s.len() == 0 {
        0
    } else {
        utf16_width(s[0]) + utf16_len(s.drop_first())
    }
}

/// Byte offset at which the character with index `k` starts.
pub open spec fn byte_offset(s: Seq<char>, k: int) -> nat {
    utf8_len(s.take(k))
}

/// UTF-16 offset at which the character with index `k` starts.
pub open spec fn utf16_offset(s: Seq<char>, k: int) -> nat {
    utf16_len(s.take(k))
}

/// `b` is a byte offset at which a character starts, or the end of the text.
pub open spec fn is_boundary(s: Seq<char>, b: int) -> bool {
    exists|k: int| 0 <= k <= s.len() && #[trigger] byte_offset(s, k) == b
}

/// Number of leading characters whose encoding fits whole in the first `b` bytes.
pub open spec fn chars_within(s: Seq<char>, b: int) -> nat
    decreases s.len(),
{
    if s.len() == 0 || b < utf8_width(s[0]) {
        0
    } else {
        1 + chars_within(s.drop_first(), b - utf8_width(s[0]))
    }
}

/// Largest character boundary that is not past byte `b` (for `b >= 0`).
pub open spec fn floor_boundary(s: Seq<char>, b: int) -> nat {
    byte_offset(s, chars_within(s, b) as int)
}

/// Number of leading characters, counted from the front, before the UTF-8
/// length of the prefix reaches `b` (all of them when it never does).
pub open spec fn chars_reaching_utf8(s: Seq<char>, b: int) -> nat
    decreases s.len(),
{
    if s.len() == 0 || b <= 0 {
        0
    } else {
        1 + chars_reaching_utf8(s.drop_first(), b - utf8_width(s[0]))
    }
}

/// Number of leading characters, counted from the front, before the UTF-16
/// length of the prefix reaches `u` (all of them when it never does).
pub open spec fn chars_reaching_utf16(s: Seq<char>, u: int) -> nat
    decreases s.len(),
{
    if s.len() == 0 || u <= 0 {
        0
    } else {
        1 + chars_reaching_utf16(s.drop_first(), u - utf16_width(s[0]))
    }
}

/// `str::len`: the length of `s` in bytes. The bytes of a `str` are the
/// UTF-8 encoding of its characters, and Rust never lets an object take more
/// than `isize::MAX` bytes; this contract claims both of the std function.
#[verifier::external_body]
fn str_byte_len(s: &str) -> (n: usize)
    ensures
        n as int == encode_utf8(s@).len(),
        n <= isize::MAX,
{
    s.len()
}

/// The byte length of `s`, with what follows from it: every count of
/// characters or UTF-16 units of `s` fits in `isize`.
pub fn text_len(s: &str) -> (n: usize)
    ensures
        n == utf8_len(s@),
        n <= isize::MAX,
        s@.len() <= n,
        utf16_len(s@) <= n,
{
    let n = str_byte_len(s);
    proof {
        lemma_encode_len(s@);
        lemma_widths_bound_len(s@);
    }
    n
}

/// The UTF-8 width of a character.
pub fn char_utf8_width(c: char) -> (w: usize)
    ensures
        w == utf8_width(c),
{
    let v = c as u32;
    if v <= 0x7F {
        1
    } else if v <= 0x7FF {
        2
    } else if v <= 0xFFFF {
        3
    } else {
        4
    }
}

/// The UTF-16 width of a character.
pub fn char_utf16_width(c: char) -> (w: usize)
    ensures
        w == utf16_width(c),
{
    if (c as u32) <= 0xFFFF {
        1
    } else {
        2
    }
}

pub proof fn lemma_utf8_len_concat(a: Seq<char>, b: Seq<char>)
    ensures
        utf8_len(a + b) == utf8_len(a) + utf8_len(b),
    decreases a.len(),
{
    if a.len() == 0 {
        assert(a + b =~= b);
    } else {
        assert((a + b).drop_first() =~= a.drop_first() + b);
        lemma_utf8_len_concat(a.drop_first(), b);
    }
}

pub proof fn lemma_utf16_len_concat(a: Seq<char>, b: Seq<char>)
    ensures
        utf16_len(a + b) == utf16_len(a) + utf16_len(b),
    decreases a.len(),
{
    if a.len() == 0 {
        assert(a + b =~= b);
    } else {
        assert((a + b).drop_first() =~= a.drop_first() + b);
        lemma_utf16_len_concat(a.drop_first(), b);
    }
}

/// Stepping one character forward adds that character's widths.
pub proof fn lemma_offset_step(s: Seq<char>, k: int)
    requires
        0 <= k < s.len(),
    ensures
        byte_offset(s, k + 1) == byte_offset(s, k) + utf8_width(s[k]),
        utf16_offset(s, k + 1) == utf16_offset(s, k) + utf16_width(s[k]),
{
    let one = seq![s[k]];
    assert(s.take(k + 1) =~= s.take(k) + one);
    lemma_utf8_len_concat(s.take(k), one);
    lemma_utf16_len_concat(s.take(k), one);
    assert(one[0] == s[k]);
    assert(utf8_len(one.drop_first()) == 0);
    assert(utf16_len(one.drop_first()) == 0);
    assert(utf8_len(one) == utf8_width(s[k]));
    assert(utf16_len(one) == utf16_width(s[k]));
}

/// Offsets seen from the text with its first character dropped.
pub proof fn lemma_offset_front(s: Seq<char>, k: int)
    requires
        0 <= k < s.len(),
    ensures
        byte_offset(s, k + 1) == utf8_width(s[0]) + byte_offset(s.drop_first(), k),
        utf16_offset(s, k + 1) == utf16_width(s[0]) + utf16_offset(s.drop_first(), k),
{
    assert(s.take(k + 1).drop_first() =~= s.drop_first().take(k));
}

pub proof fn lemma_offset_zero_and_end(s: Seq<char>)
    ensures
        byte_offset(s, 0) == 0,
        utf16_offset(s, 0) == 0,
        byte_offset(s, s.len() as int) == utf8_len(s),
        utf16_offset(s, s.len() as int) == utf16_len(s),
{
    assert(s.take(s.len() as int) =~= s);
    assert(s.take(0).len() == 0);
}

/// Byte offsets grow strictly with the character index.
pub proof fn lemma_offset_strictly_increasing(s: Seq<char>, i: int, j: int)
    requires
        0 <= i < j <= s.len(),
    ensures
        byte_offset(s, i) < byte_offset(s, j),
        utf16_offset(s, i) < utf16_offset(s, j),
    decreases j - i,
{
    lemma_offset_step(s, j - 1);
    if i < j - 1 {
        lemma_offset_strictly_increasing(s, i, j - 1);
    }
}

pub proof fn lemma_offset_monotone(s: Seq<char>, i: int, j: int)
    requires
        0 <= i <= j <= s.len(),
    ensures
        byte_offset(s, i) <= byte_offset(s, j),
        utf16_offset(s, i) <= utf16_offset(s, j),
{
    if i < j {
        lemma_offset_strictly_increasing(s, i, j);
    }
}

/// What `chars_within` counts.
pub proof fn lemma_chars_within(s: Seq<char>, b: int)
    requires
        b >= 0,
    ensures
        chars_within(s, b) <= s.len(),
        byte_offset(s, chars_within(s, b) as int) <= b,
        chars_within(s, b) < s.len() ==> b < byte_offset(s, chars_within(s, b) as int + 1),
    decreases s.len(),
{
    let k = chars_within(s, b);
    lemma_offset_zero_and_end(s);
    if s.len() == 0 {
    } else if b < utf8_width(s[0]) {
        lemma_offset_step(s, 0);
    } else {
        let t = s.drop_first();
        let b2 = b - utf8_width(s[0]);
        lemma_chars_within(t, b2);
        lemma_offset_front(s, k - 1);
        if k < s.len() {
            lemma_offset_front(s, k as int);
        }
    }
}

/// The floor boundary is a boundary, not past `b`, and no boundary lies
/// strictly between it and `b`.
pub proof fn lemma_floor_boundary(s: Seq<char>, b: int, x: int)
    requires
        b >= 0,
    ensures
        is_boundary(s, floor_boundary(s, b) as int),
        floor_boundary(s, b) <= b,
        is_boundary(s, x) && x <= b ==> x <= floor_boundary(s, b),
{
    let k = chars_within(s, b) as int;
    lemma_chars_within(s, b);
    if is_boundary(s, x) && x <= b {
        let j = choose|j: int| 0 <= j <= s.len() && #[trigger] byte_offset(s, j) == x;
        if j > k {
            lemma_offset_monotone(s, k + 1, j);
        }
        lemma_offset_monotone(s, j, k);
    }
}

/// Every character takes at least one byte, and no more UTF-16 units than bytes.
pub proof fn lemma_widths_bound_len(s: Seq<char>)
    ensures
        s.len() <= utf8_len(s),
        utf16_len(s) <= utf8_len(s),
    decreases s.len(),
{
    if s.len() > 0 {
        lemma_widths_bound_len(s.drop_first());
    }
}

/// The UTF-8 length of a text is the length of its vstd encoding.
pub proof fn lemma_encode_len(s: Seq<char>)
    ensures
        encode_utf8(s).len() == utf8_len(s),
    decreases s.len(),
{
    if s.len() > 0 {
        char_is_scalar(s[0]);
        lemma_encode_len(s.drop_first());
    }
}

pub proof fn lemma_encode_concat(a: Seq<char>, b: Seq<char>)
    ensures
        encode_utf8(a + b) == encode_utf8(a) + encode_utf8(b),
    decreases a.len(),
{
    if a.len() == 0 {
        assert(a + b =~= b);
        assert(encode_utf8(a) + encode_utf8(b) =~= encode_utf8(b));
    } else {
        assert((a + b).drop_first() =~= a.drop_first() + b);
        lemma_encode_concat(a.drop_first(), b);
        assert(encode_utf8(a + b) =~= encode_utf8(a) + encode_utf8(b));
    }
}


/// Character index of a boundary: `chars_within` undoes `byte_offset`.
pub proof fn lemma_chars_within_offset(s: Seq<char>, k: int)
    requires
        0 <= k <= s.len(),
    ensures
        chars_within(s, byte_offset(s, k) as int) == k,
{
    let b = byte_offset(s, k) as int;
    let j = chars_within(s, b) as int;
    lemma_chars_within(s, b);
    if j < k {
        lemma_offset_monotone(s, j + 1, k);
    } else if j > k {
        lemma_offset_strictly_increasing(s, k, j);
    }
}

/// vstd's `is_char_boundary` on the encoding of `s` is `is_boundary`.
pub proof fn lemma_char_boundary(s: Seq<char>, b: int)
    ensures
        is_char_boundary(encode_utf8(s), b) == is_boundary(s, b),
    decreases s.len(),
{
    let bytes = encode_utf8(s);
    encode_utf8_valid_utf8(s);
    lemma_encode_len(s);
    lemma_offset_zero_and_end(s);
    if b == 0 {
        assert(byte_offset(s, 0) == 0);
    } else if b < 0 || bytes.len() < b {
        if is_boundary(s, b) {
            let k = choose|k: int| 0 <= k <= s.len() && #[trigger] byte_offset(s, k) == b;
            lemma_offset_monotone(s, k, s.len() as int);
        }
    } else {
        let t = s.drop_first();
        encode_utf8_first_scalar(s);
        lemma_encode_len(t);
        let w = utf8_width(s[0]);
        assert(pop_first_scalar(bytes) =~= encode_utf8(t));
        lemma_char_boundary(t, b - w);
        if is_boundary(s, b) {
            let k = choose|k: int| 0 <= k <= s.len() && #[trigger] byte_offset(s, k) == b;
            lemma_offset_front(s, k - 1);
            assert(byte_offset(t, k - 1) == b - w);
        }
        if is_boundary(t, b - w) {
            let j = choose|j: int| 0 <= j <= t.len() && #[trigger] byte_offset(t, j) == b - w;
            lemma_offset_front(s, j);
            assert(byte_offset(s, j + 1) == b);
        }
    }
}

/// The encoding of `s` cut at the boundary of character `k`.
pub proof fn lemma_encode_split(s: Seq<char>, k: int)
    requires
        0 <= k <= s.len(),
    ensures
        encode_utf8(s).subrange(0, byte_offset(s, k) as int) == encode_utf8(s.take(k)),
        encode_utf8(s).subrange(byte_offset(s, k) as int, encode_utf8(s).len() as int)
            == encode_utf8(s.skip(k)),
{
    assert(s =~= s.take(k) + s.skip(k));
    lemma_encode_concat(s.take(k), s.skip(k));
    lemma_encode_len(s.take(k));
    assert(encode_utf8(s).subrange(0, byte_offset(s, k) as int) =~= encode_utf8(s.take(k)));
    assert(encode_utf8(s).subrange(byte_offset(s, k) as int, encode_utf8(s).len() as int)
        =~= encode_utf8(s.skip(k)));
}

/// Texts with the same encoding are the same.
pub proof fn lemma_encode_injective(a: Seq<char>, b: Seq<char>)
    requires
        encode_utf8(a) == encode_utf8(b),
    ensures
        a == b,
{
    encode_utf8_decode_utf8(a);
    encode_utf8_decode_utf8(b);
}

/// Splits `s` at byte `b`, which must be a character boundary.
pub fn split_at_boundary(s: &str, b: usize) -> (r: (&str, &str))
    requires
        is_boundary(s@, b as int),
    ensures
        r.0@ == s@.take(chars_within(s@, b as int) as int),
        r.1@ == s@.skip(chars_within(s@, b as int) as int),
{
    proof {
        lemma_char_boundary(s@, b as int);
    }
    let r = s.split_at(b);
    proof {
        let k = choose|k: int| 0 <= k <= s@.len() && #[trigger] byte_offset(s@, k) == b;
        lemma_chars_within_offset(s@, k);
        lemma_encode_split(s@, k);
        lemma_encode_injective(r.0@, s@.take(k));
        lemma_encode_injective(r.1@, s@.skip(k));
    }
    r
}

/// The characters of `s` from boundary `from` to boundary `to`.
pub fn slice_between(s: &str, from: usize, to: usize) -> (r: &str)
    requires
        is_boundary(s@, from as int),
        is_boundary(s@, to as int),
        from <= to,
    ensures
        r@ == s@.subrange(chars_within(s@, from as int) as int, chars_within(s@, to as int) as int),
{
    let ghost kf = choose|k: int| 0 <= k <= s@.len() && #[trigger] byte_offset(s@, k) == from;
    let ghost kt = choose|k: int| 0 <= k <= s@.len() && #[trigger] byte_offset(s@, k) == to;
    proof {
        lemma_chars_within_offset(s@, kf);
        lemma_chars_within_offset(s@, kt);
        if kf > kt {
            lemma_offset_strictly_increasing(s@, kt, kf);
        }
    }
    let (head, _) = split_at_boundary(s, to);
    proof {
        assert(head@ == s@.take(kt));
        assert(byte_offset(head@, kf) == byte_offset(s@, kf)) by {
            assert(head@.take(kf) =~= s@.take(kf));
        }
    }
    let (_, mid) = split_at_boundary(head, from);
    proof {
        lemma_chars_within_offset(head@, kf);
        assert(mid@ =~= s@.subrange(kf, kt));
    }
    mid
}

/// Counting characters up to the offset of character `k` gives `k`, in
/// bytes and in UTF-16 units alike.
pub proof fn lemma_chars_reaching_offset(s: Seq<char>, k: int)
    requires
        0 <= k <= s.len(),
    ensures
        chars_reaching_utf8(s, byte_offset(s, k) as int) == k,
        chars_reaching_utf16(s, utf16_offset(s, k) as int) == k,
    decreases k,
{
    lemma_offset_zero_and_end(s);
    if k > 0 {
        lemma_offset_front(s, k - 1);
        lemma_chars_reaching_offset(s.drop_first(), k - 1);
    }
}

/// No more characters are counted than there are.
pub proof fn lemma_chars_reaching_bound(s: Seq<char>, b: int)
    ensures
        chars_reaching_utf8(s, b) <= s.len(),
        chars_reaching_utf16(s, b) <= s.len(),
    decreases s.len(),
{
    if s.len() > 0 {
        lemma_chars_reaching_bound(s.drop_first(), b - utf8_width(s[0]));
        lemma_chars_reaching_bound(s.drop_first(), b - utf16_width(s[0]));
    }
}

/// A boundary is its own floor.
pub proof fn lemma_floor_of_boundary(s: Seq<char>, b: int)
    requires
        is_boundary(s, b),
    ensures
        floor_boundary(s, b) == b,
{
    let k = choose|k: int| 0 <= k <= s.len() && #[trigger] byte_offset(s, k) == b;
    lemma_chars_within_offset(s, k);
}

/// The floor boundary grows with the offset.
pub proof fn lemma_floor_monotone(s: Seq<char>, a: int, b: int)
    requires
        0 <= a <= b,
    ensures
        floor_boundary(s, a) <= floor_boundary(s, b),
{
    lemma_floor_boundary(s, a, 0);
    lemma_floor_boundary(s, b, floor_boundary(s, a) as int);
}

/// Every boundary lies within the text.
pub proof fn lemma_boundary_within(s: Seq<char>, b: int)
    requires
        is_boundary(s, b),
    ensures
        0 <= b <= utf8_len(s),
{
    let k = choose|k: int| 0 <= k <= s.len() && #[trigger] byte_offset(s, k) == b;
    lemma_offset_monotone(s, k, s.len() as int);
    lemma_offset_zero_and_end(s);
}
/// `chars_reaching_utf16` counts exactly the characters whose UTF-16 start
/// lies before `u`.
pub proof fn lemma_chars_reaching_utf16_order(s: Seq<char>, u: int, k: int)
    requires
        0 <= k < s.len(),
    ensures
        k < chars_reaching_utf16(s, u) <==> utf16_offset(s, k) < u,
    decreases s.len(),
{
    lemma_offset_zero_and_end(s);
    if u > 0 && k > 0 {
        lemma_offset_front(s, k - 1);
        lemma_chars_reaching_utf16_order(s.drop_first(), u - utf16_width(s[0]), k - 1);
    }
}

/// `chars_reaching_utf8` counts exactly the characters whose byte start lies
/// before `b`.
pub proof fn lemma_chars_reaching_utf8_order(s: Seq<char>, b: int, k: int)
    requires
        0 <= k < s.len(),
    ensures
        k < chars_reaching_utf8(s, b) <==> byte_offset(s, k) < b,
    decreases s.len(),
{
    lemma_offset_zero_and_end(s);
    if b > 0 && k > 0 {
        lemma_offset_front(s, k - 1);
        lemma_chars_reaching_utf8_order(s.drop_first(), b - utf8_width(s[0]), k - 1);
    }
}

} // verus!
