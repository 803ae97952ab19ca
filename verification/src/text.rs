use vstd::prelude::*;
use vstd::string::StrSliceExecFns;

verus! {

broadcast use vstd::string::group_string_axioms;

/// The characters with the Unicode `White_Space` property.
pub open spec fn is_white_space(c: char) -> bool {
    let u = c as u32;
    ||| 0x09 <= u <= 0x0d
    ||| u == 0x20
    ||| u == 0x85
    ||| u == 0xa0
    ||| u == 0x1680
    ||| 0x2000 <= u <= 0x200a
    ||| u == 0x2028
    ||| u == 0x2029
    ||| u == 0x202f
    ||| u == 0x205f
    ||| u == 0x3000
}

/// Whether `c` is whitespace in the sense of `char::is_whitespace` (the
/// Unicode `White_Space` property).
pub fn char_is_whitespace(c: char) -> (b: bool)
    ensures
        b == is_white_space(c),
{
    let u = c as u32;
    (0x09 <= u && u <= 0x0d) || u == 0x20 || u == 0x85 || u == 0xa0 || u == 0x1680 || (0x2000
        <= u && u <= 0x200a) || u == 0x2028 || u == 0x2029 || u == 0x202f || u == 0x205f || u
        == 0x3000
}

/// `str::split_once` with a `char` pattern: splits `s` around the first
/// occurrence of `sep`, or gives `None` where `sep` does not occur.
#[verifier::external_body]
pub(crate) fn str_split_once(s: &str, sep: char) -> (r: Option<(&str, &str)>)
    ensures
        match r {
            None => !s@.contains(sep),
            Some((head, tail)) => {
                &&& s@ == head@ + seq![sep] + tail@
                &&& !head@.contains(sep)
            },
        },
{
    s.split_once(sep)
}

/// The characters of `s`, in order.
pub fn chars_of(s: &str) -> (v: Vec<char>)
    ensures
        v@ == s@,
{
    let mut v: Vec<char> = Vec::new();
    for c in it: s.chars()
        invariant
            it.seq() == s@,
            v@ == it.seq().take(it.index()),
    {
        v.push(c);
    }
    v
}

/// Whether the characters `v[from..to]` spell out `lit`.
pub fn chars_equal(v: &Vec<char>, from: usize, to: usize, lit: &str) -> (b: bool)
    requires
        from <= to <= v@.len(),
    ensures
        b == (v@.subrange(from as int, to as int) == lit@),
{
    let m = lit.unicode_len();
    if to - from != m {
        return false;
    }
    let mut i: usize = 0;
    while i < m
        invariant
            m == lit@.len(),
            to - from == m,
            from <= to <= v@.len(),
            i <= m,
            forall|k: int| 0 <= k < i ==> v@[from + k] == lit@[k],
        decreases m - i,
    {
        if v[from + i] != lit.get_char(i) {
            assert(v@.subrange(from as int, to as int)[i as int] != lit@[i as int]);
            return false;
        }
        i = i + 1;
    }
    assert(v@.subrange(from as int, to as int) =~= lit@);
    true
}

} // verus!
