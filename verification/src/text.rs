//! Character-level helpers: moving between strings and character buffers,
//! white space, trimming and counting.

use vstd::prelude::*;

verus! {

/// Trusted: `String::push` of the standard library appends the given
/// character to the end of the string and changes nothing else.
pub assume_specification[ std::string::String::push ](s: &mut std::string::String, ch: char)
    ensures
        final(s)@ == old(s)@.push(ch),
;

/// The views of a sequence of strings, in the same order.
pub open spec fn texts(v: Seq<String>) -> Seq<Seq<char>> {
    Seq::new(v.len(), |i: int| v[i]@)
}

/// The characters that carry the Unicode property `White_Space`.
pub open spec fn is_whitespace(c: char) -> bool {
    let n = c as u32;
    ||| 0x09 <= n <= 0x0D
    ||| n == 0x20
    ||| n == 0x85
    ||| n == 0xA0
    ||| n == 0x1680
    ||| 0x2000 <= n <= 0x200A
    ||| n == 0x2028
    ||| n == 0x2029
    ||| n == 0x202F
    ||| n == 0x205F
    ||| n == 0x3000
}

/// `s` without its leading white space.
pub open spec fn trim_start(s: Seq<char>) -> Seq<char>
    decreases s.len(),
{
    if s.len() > 0 && is_whitespace(s[0]) {
        trim_start(s.skip(1))
    } else {
        s
    }
}

/// `s` without its trailing white space.
pub open spec fn trim_end(s: Seq<char>) -> Seq<char>
    decreases s.len(),
{
    if s.len() > 0 && is_whitespace(s.last()) {
        trim_end(s.drop_last())
    } else {
        s
    }
}

/// `s` without its leading and trailing white space.
pub open spec fn trimmed(s: Seq<char>) -> Seq<char> {
    trim_end(trim_start(s))
}

/// How many positions of `s` hold the character `c`.
pub open spec fn count_of(s: Seq<char>, c: char) -> nat
    decreases s.len(),
{
    if s.len() == 0 {
        0
    } else {
        count_of(s.drop_last(), c) + if s.last() == c {
            1nat
        } else {
            0nat
        }
    }
}

/// Tells whether `c` is white space.
pub fn is_whitespace_char(c: char) -> (b: bool)
    ensures
        b == is_whitespace(c),
{
    let n: u32 = c as u32;
    (0x09 <= n && n <= 0x0D) || n == 0x20 || n == 0x85 || n == 0xA0 || n == 0x1680 || (0x2000 <= n
        && n <= 0x200A) || n == 0x2028 || n == 0x2029 || n == 0x202F || n == 0x205F || n == 0x3000
}

/// The characters of `s`, in order.
pub(crate) fn chars_of(s: &str) -> (v: Vec<char>)
    ensures
        v@ == s@,
{
    broadcast use vstd::string::group_string_axioms;

    let mut v: Vec<char> = Vec::new();
    for c in it: s.chars()
        invariant
            it.seq() == s@,
            v@ == s@.take(it.index() as int),
    {
        v.push(c);
    }
    v
}

/// The string made of `chars[from..to]`.
pub(crate) fn string_of(chars: &Vec<char>, from: usize, to: usize) -> (s: String)
    requires
        from <= to <= chars.len(),
    ensures
        s@ == chars@.subrange(from as int, to as int),
{
    let mut s = String::new();
    let mut i: usize = from;
    while i < to
        invariant
            from <= i <= to <= chars.len(),
            s@ == chars@.subrange(from as int, i as int),
        decreases to - i,
    {
        s.push(chars[i]);
        i += 1;
    }
    s
}

/// Counts the positions of `chars` that hold `c`.
pub(crate) fn count_char(chars: &Vec<char>, c: char) -> (n: usize)
    ensures
        n == count_of(chars@, c),
{
    let mut n: usize = 0;
    let mut i: usize = 0;
    while i < chars.len()
        invariant
            i <= chars.len(),
            n == count_of(chars@.take(i as int), c),
            n <= i,
        decreases chars.len() - i,
    {
        proof {
            assert(chars@.take(i + 1).drop_last() == chars@.take(i as int));
        }
        if chars[i] == c {
            n += 1;
        }
        i += 1;
    }
    proof {
        assert(chars@.take(i as int) == chars@);
    }
    n
}

/// The string made of `chars` without leading and trailing white space.
pub(crate) fn trimmed_string(chars: &Vec<char>) -> (s: String)
    ensures
        s@ == trimmed(chars@),
{
    let n = chars.len();
    let mut a: usize = 0;
    proof {
        assert(chars@.skip(0) == chars@);
    }
    while a < n && is_whitespace_char(chars[a])
        invariant
            a <= n == chars.len(),
            trim_start(chars@) == trim_start(chars@.skip(a as int)),
        decreases n - a,
    {
        proof {
            assert(chars@.skip(a as int).skip(1) == chars@.skip(a + 1));
        }
        a += 1;
    }
    let mut b: usize = n;
    while b > a && is_whitespace_char(chars[b - 1])
        invariant
            a <= b <= n == chars.len(),
            trim_start(chars@) == chars@.subrange(a as int, n as int),
            trimmed(chars@) == trim_end(chars@.subrange(a as int, b as int)),
        decreases b - a,
    {
        proof {
            assert(chars@.subrange(a as int, b as int).drop_last() == chars@.subrange(
                a as int,
                b - 1,
            ));
        }
        b -= 1;
    }
    string_of(chars, a, b)
}

} // verus!
