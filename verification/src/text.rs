//! Characters: the handful of things this library does to text, stated
//! exactly.
//!
//! Text is read character by character, as a `Seq<char>`, and written back
//! into a `String` once it is what it should be.

use vstd::prelude::*;

verus! {

/// Whether `c` has the Unicode `White_Space` property, which is what
/// `char::is_whitespace` answers and what `str::trim` and
/// `str::split_whitespace` cut on.
pub open spec fn is_space(c: char) -> bool {
    let u = c as u32;
    ||| 9 <= u <= 13
    ||| u == 32
    ||| u == 0x85
    ||| u == 0xA0
    ||| u == 0x1680
    ||| 0x2000 <= u <= 0x200A
    ||| u == 0x2028
    ||| u == 0x2029
    ||| u == 0x202F
    ||| u == 0x205F
    ||| u == 0x3000
}

/// Returns whether `c` has the Unicode `White_Space` property.
pub fn space(c: char) -> (yes: bool)
    ensures
        yes == is_space(c),
{
    let u = c as u32;
    (9 <= u && u <= 13) || u == 32 || u == 0x85 || u == 0xA0 || u == 0x1680 || (0x2000 <= u && u
        <= 0x200A) || u == 0x2028 || u == 0x2029 || u == 0x202F || u == 0x205F || u == 0x3000
}

/// Whether `c` is an ASCII letter or digit.
pub open spec fn is_alphanumeric(c: char) -> bool {
    let u = c as u32;
    ||| 48 <= u <= 57
    ||| 65 <= u <= 90
    ||| 97 <= u <= 122
}

/// Returns whether `c` is an ASCII letter or digit.
pub fn alphanumeric(c: char) -> (yes: bool)
    ensures
        yes == is_alphanumeric(c),
{
    let u = c as u32;
    (48 <= u && u <= 57) || (65 <= u && u <= 90) || (97 <= u && u <= 122)
}

/// Whether `c` is an ASCII digit.
pub open spec fn is_digit(c: char) -> bool {
    48 <= (c as u32) <= 57
}

/// `c` with an ASCII capital taken down to its small letter; anything else
/// unchanged.
pub open spec fn lowered(c: char) -> char {
    if 65 <= (c as u32) <= 90 {
        ((c as u32) + 32) as char
    } else {
        c
    }
}

/// Returns `c` with an ASCII capital taken down to its small letter.
pub fn lower(c: char) -> (l: char)
    ensures
        l == lowered(c),
{
    let u = c as u32;
    if 65 <= u && u <= 90 {
        proof {
            assert((u + 32) as char == ((c as u32) + 32) as char);
        }
        ((u + 32) as u8) as char
    } else {
        c
    }
}

/// How far into `s` the leading white space runs.
pub open spec fn leading_space(s: Seq<char>, i: int) -> int
    decreases s.len() - i,
{
    if i >= s.len() || !is_space(s[i]) {
        i
    } else {
        leading_space(s, i + 1)
    }
}

/// Where the trailing white space of `s[..end]` starts.
pub open spec fn trailing_space(s: Seq<char>, start: int, end: int) -> int
    decreases end - start,
{
    if end <= start || !is_space(s[end - 1]) {
        end
    } else {
        trailing_space(s, start, end - 1)
    }
}

/// `s` with the white space at either end taken off, which is `str::trim`.
pub open spec fn trimmed(s: Seq<char>) -> Seq<char> {
    let start = leading_space(s, 0);
    s.subrange(start, trailing_space(s, start, s.len() as int))
}

/// Where the leading white space ends, and that all of it is white space.
pub proof fn lemma_leading_space(s: Seq<char>, i: int)
    requires
        0 <= i <= s.len(),
    ensures
        i <= leading_space(s, i) <= s.len(),
        forall|j: int| i <= j < leading_space(s, i) ==> is_space(#[trigger] s[j]),
        leading_space(s, i) < s.len() ==> !is_space(s[leading_space(s, i)]),
    decreases s.len() - i,
{
    if i < s.len() && is_space(s[i]) {
        lemma_leading_space(s, i + 1);
    }
}

/// Where the trailing white space starts, and that all of it is white space.
pub proof fn lemma_trailing_space(s: Seq<char>, start: int, end: int)
    requires
        0 <= start <= end <= s.len(),
    ensures
        start <= trailing_space(s, start, end) <= end,
        forall|j: int| trailing_space(s, start, end) <= j < end ==> is_space(#[trigger] s[j]),
        trailing_space(s, start, end) > start ==> !is_space(s[trailing_space(s, start, end) - 1]),
    decreases end - start,
{
    if end > start && is_space(s[end - 1]) {
        lemma_trailing_space(s, start, end - 1);
    }
}

/// Returns the characters of `s`, in order.
pub fn chars_of(s: &str) -> (chars: Vec<char>)
    ensures
        chars@ == s@,
{
    let count = s.unicode_len();
    let mut chars: Vec<char> = Vec::new();
    let mut i: usize = 0;
    while i < count
        invariant
            count == s@.len(),
            i <= count,
            chars@ == s@.subrange(0, i as int),
        decreases count - i,
    {
        chars.push(s.get_char(i));
        i = i + 1;
        proof {
            assert(chars@ =~= s@.subrange(0, i as int));
        }
    }
    proof {
        assert(chars@ =~= s@);
    }
    chars
}

/// `String::from_iter`, over characters.
///
/// Trusted to produce the string made of exactly these characters, in this
/// order, which is what the standard library documents for collecting
/// characters into a `String`.
#[verifier::external_body]
pub(crate) fn string_of(chars: &Vec<char>) -> (s: String)
    ensures
        s@ == chars@,
{
    String::from_iter(chars.iter())
}

/// Returns `chars[from..to]` as a vector of its own.
pub fn slice_of(chars: &Vec<char>, from: usize, to: usize) -> (part: Vec<char>)
    requires
        from <= to <= chars@.len(),
    ensures
        part@ == chars@.subrange(from as int, to as int),
{
    let mut part: Vec<char> = Vec::new();
    let mut i: usize = from;
    while i < to
        invariant
            from <= i <= to,
            to <= chars@.len(),
            part@ == chars@.subrange(from as int, i as int),
        decreases to - i,
    {
        part.push(chars[i]);
        i = i + 1;
        proof {
            assert(part@ =~= chars@.subrange(from as int, i as int));
        }
    }
    part
}

/// Returns `chars` with the white space at either end taken off.
pub fn trim(chars: &Vec<char>) -> (inner: Vec<char>)
    ensures
        inner@ == trimmed(chars@),
{
    proof {
        lemma_leading_space(chars@, 0);
    }
    let mut start: usize = 0;
    while start < chars.len() && space(chars[start])
        invariant
            start <= chars@.len(),
            leading_space(chars@, 0) == leading_space(chars@, start as int),
        decreases chars@.len() - start,
    {
        start = start + 1;
    }
    proof {
        lemma_trailing_space(chars@, start as int, chars@.len() as int);
    }
    let mut end: usize = chars.len();
    while end > start && space(chars[end - 1])
        invariant
            start <= end <= chars@.len(),
            start == leading_space(chars@, 0),
            trailing_space(chars@, start as int, chars@.len() as int) == trailing_space(
                chars@,
                start as int,
                end as int,
            ),
        decreases end - start,
    {
        end = end - 1;
    }
    slice_of(chars, start, end)
}

/// Returns whether `s` is empty once trimmed.
pub fn is_blank(s: &str) -> (blank: bool)
    ensures
        blank == (trimmed(s@).len() == 0),
{
    let chars = chars_of(s);
    trim(&chars).len() == 0
}

/// The character that writes the digit `d`.
pub open spec fn digit_char(d: nat) -> char {
    (48 + d) as char
}

/// The decimal digits of `n`, most significant first.
pub open spec fn digits(n: nat) -> Seq<char>
    decreases n,
{
    if n < 10 {
        seq![digit_char(n)]
    } else {
        digits(n / 10).push(digit_char(n % 10))
    }
}

/// Returns the decimal digits of `n`, most significant first.
pub fn decimal(n: u64) -> (out: Vec<char>)
    ensures
        out@ == digits(n as nat),
    decreases n,
{
    let last = ((n % 10) as u8 + 48) as char;
    proof {
        assert(last == digit_char((n % 10) as nat));
    }
    if n < 10 {
        let mut out: Vec<char> = Vec::new();
        out.push(last);
        proof {
            assert(out@ =~= seq![digit_char(n as nat)]);
        }
        out
    } else {
        let mut out = decimal(n / 10);
        out.push(last);
        out
    }
}

/// Appends `more` to `chars`.
pub fn extend(chars: &mut Vec<char>, more: &Vec<char>)
    ensures
        final(chars)@ == old(chars)@ + more@,
{
    let mut i: usize = 0;
    let ghost start = chars@;
    while i < more.len()
        invariant
            i <= more@.len(),
            chars@ == start + more@.subrange(0, i as int),
        decreases more@.len() - i,
    {
        chars.push(more[i]);
        i = i + 1;
        proof {
            assert(chars@ =~= start + more@.subrange(0, i as int));
        }
    }
    proof {
        assert(more@.subrange(0, more@.len() as int) =~= more@);
    }
}

/// Whether `needle` occurs in `hay` as a run of consecutive characters. The
/// empty needle occurs in everything.
pub open spec fn occurs(hay: Seq<char>, needle: Seq<char>) -> bool {
    exists|i: int| 0 <= i <= hay.len() - needle.len() && #[trigger] hay.subrange(i, i + needle.len()) == needle
}

/// Returns whether `needle` occurs in `hay`, which is `str::contains`.
pub fn contains(hay: &Vec<char>, needle: &Vec<char>) -> (found: bool)
    ensures
        found == occurs(hay@, needle@),
{
    if needle.len() > hay.len() {
        return false;
    }
    if needle.len() == 0 {
        proof {
            assert(hay@.subrange(0int, 0int + needle@.len()) =~= needle@);
        }
        return true;
    }
    let last = hay.len() - needle.len();
    let mut i: usize = 0;
    while i <= last
        invariant
            last == hay@.len() - needle@.len(),
            needle@.len() > 0,
            hay@.len() <= usize::MAX,
            i <= last + 1,
            forall|k: int| 0 <= k < i ==> #[trigger] hay@.subrange(k, k + needle@.len()) != needle@,
        decreases last + 1 - i,
    {
        let mut j: usize = 0;
        while j < needle.len() && hay[i + j] == needle[j]
            invariant
                i <= last,
                last == hay@.len() - needle@.len(),
                needle@.len() > 0,
                hay@.len() <= usize::MAX,
                j <= needle@.len(),
                forall|m: int| 0 <= m < j ==> hay@[i + m] == needle@[m],
            decreases needle@.len() - j,
        {
            j = j + 1;
        }
        if j == needle.len() {
            proof {
                assert(hay@.subrange(i as int, i + needle@.len()) =~= needle@);
            }
            return true;
        }
        proof {
            assert(hay@.subrange(i as int, i + needle@.len())[j as int] != needle@[j as int]);
        }
        i = i + 1;
    }
    false
}

/// Whether `a` comes before `b` in the order `str` sorts by: character by
/// character, by code point, a text before any text it begins.
pub open spec fn text_before(a: Seq<char>, b: Seq<char>) -> bool
    decreases a.len(),
{
    if a.len() == 0 {
        b.len() > 0
    } else if b.len() == 0 {
        false
    } else if a[0] != b[0] {
        a[0] < b[0]
    } else {
        text_before(a.drop_first(), b.drop_first())
    }
}

/// Of two different texts exactly one comes before the other.
pub proof fn lemma_before_total(a: Seq<char>, b: Seq<char>)
    ensures
        a != b ==> text_before(a, b) || text_before(b, a),
        !(text_before(a, b) && text_before(b, a)),
    decreases a.len(),
{
    if a.len() > 0 && b.len() > 0 && a[0] == b[0] {
        lemma_before_total(a.drop_first(), b.drop_first());
        if a != b {
            assert(a.drop_first() != b.drop_first()) by {
                if a.drop_first() == b.drop_first() {
                    assert(a =~= seq![a[0]] + a.drop_first());
                    assert(b =~= seq![b[0]] + b.drop_first());
                }
            }
        }
    } else if a.len() == 0 && b.len() == 0 {
        assert(a =~= b);
    } else if a.len() > 0 && b.len() > 0 {
        assert(a[0] != b[0] ==> a[0] < b[0] || b[0] < a[0]);
    }
}

/// Coming before is transitive.
pub proof fn lemma_before_transitive(a: Seq<char>, b: Seq<char>, c: Seq<char>)
    requires
        text_before(a, b),
        text_before(b, c),
    ensures
        text_before(a, c),
    decreases a.len(),
{
    if a.len() > 0 && b.len() > 0 && c.len() > 0 && a[0] == b[0] && b[0] == c[0] {
        lemma_before_transitive(a.drop_first(), b.drop_first(), c.drop_first());
    }
}

/// Returns whether `a` comes before `b`.
pub fn before(a: &Vec<char>, b: &Vec<char>) -> (yes: bool)
    ensures
        yes == text_before(a@, b@),
{
    let mut i: usize = 0;
    proof {
        assert(a@.skip(0) =~= a@);
        assert(b@.skip(0) =~= b@);
    }
    while i < a.len() && i < b.len() && a[i] == b[i]
        invariant
            i <= a@.len(),
            i <= b@.len(),
            text_before(a@, b@) == text_before(a@.skip(i as int), b@.skip(i as int)),
        decreases a@.len() - i,
    {
        proof {
            assert(a@.skip(i as int).drop_first() =~= a@.skip(i + 1));
            assert(b@.skip(i as int).drop_first() =~= b@.skip(i + 1));
        }
        i = i + 1;
    }
    if i == a.len() {
        i < b.len()
    } else if i == b.len() {
        false
    } else {
        a[i] < b[i]
    }
}

/// Returns whether two texts are the same.
pub fn same_chars(one: &Vec<char>, other: &Vec<char>) -> (same: bool)
    ensures
        same == (one@ == other@),
{
    if one.len() != other.len() {
        return false;
    }
    let mut i: usize = 0;
    while i < one.len()
        invariant
            i <= one@.len(),
            one@.len() == other@.len(),
            forall|m: int| 0 <= m < i ==> one@[m] == other@[m],
        decreases one@.len() - i,
    {
        if one[i] != other[i] {
            return false;
        }
        i = i + 1;
    }
    proof {
        assert(one@ =~= other@);
    }
    true
}

} // verus!
