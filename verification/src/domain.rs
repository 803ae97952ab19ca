use vstd::prelude::*;
use vstd::utf8::{encode_scalar, encode_utf8};
use crate::text::chars_of;

verus! {

broadcast use vstd::string::group_string_axioms;

/// Byte of `.`, the separator between labels.
pub const DOT: u8 = 0x2e;

/// Byte of `-`.
pub const HYPHEN: u8 = 0x2d;

/// Byte of `_`.
pub const UNDERSCORE: u8 = 0x5f;

/// Longest domain accepted, in bytes.
pub const MAX_DOMAIN_LEN: usize = 253;

/// Longest label accepted, in bytes.
pub const MAX_LABEL_LEN: usize = 63;

/// Why a string is not a domain name that the blocker stores or looks up.
#[derive(Debug, Clone, Copy, PartialEq, Eq, Structural)]
pub enum DomainError {
    NotLowercase,
    InvalidLength,
    InvalidLabelLength,
    InvalidHyphen,
    InvalidCharacter,
}

impl DomainError {
    /// The description of each error.
    pub open spec fn spec_message(self) -> Seq<char> {
        match self {
            DomainError::NotLowercase => "must be lowercase for zero-cost query"@,
            DomainError::InvalidLength => "invalid domain length"@,
            DomainError::InvalidLabelLength => "invalid label length"@,
            DomainError::InvalidHyphen => "label cannot start or end with a hyphen"@,
            DomainError::InvalidCharacter => "invalid character in label"@,
        }
    }

    /// A human-readable description of the error.
    pub fn message(&self) -> (m: &'static str)
        ensures
            m@ == self.spec_message(),
    {
        match self {
            DomainError::NotLowercase => "must be lowercase for zero-cost query",
            DomainError::InvalidLength => "invalid domain length",
            DomainError::InvalidLabelLength => "invalid label length",
            DomainError::InvalidHyphen => "label cannot start or end with a hyphen",
            DomainError::InvalidCharacter => "invalid character in label",
        }
    }
}

/// A byte that may occur in a label: an ASCII letter or digit, `-` or `_`.
/// (Every byte of a non-ASCII character is at least 0x80, so a label holds
/// only such bytes exactly when it holds only such characters.)
pub open spec fn is_label_byte(b: u8) -> bool {
    ||| 0x30 <= b <= 0x39
    ||| 0x41 <= b <= 0x5a
    ||| 0x61 <= b <= 0x7a
    ||| b == HYPHEN
    ||| b == UNDERSCORE
}

/// What is wrong with one label, if anything; the checks go in this order.
pub open spec fn label_error(label: Seq<u8>) -> Option<DomainError> {
    if label.len() == 0 || label.len() > MAX_LABEL_LEN {
        Some(DomainError::InvalidLabelLength)
    } else if label[0] == HYPHEN || label.last() == HYPHEN {
        Some(DomainError::InvalidHyphen)
    } else if exists|i: int| 0 <= i < label.len() && !is_label_byte(#[trigger] label[i]) {
        Some(DomainError::InvalidCharacter)
    } else {
        None
    }
}

/// The end of the label that starts at `i`: the index of the first `.` at or
/// after `i`, or the length of `b` where there is none.
pub open spec fn label_end(b: Seq<u8>, i: int) -> int
    decreases b.len() - i,
{
    if i >= b.len() || b[i] == DOT {
        i
    } else {
        label_end(b, i + 1)
    }
}

pub proof fn lemma_label_end_bounds(b: Seq<u8>, i: int)
    ensures
        i <= label_end(b, i),
        i <= b.len() ==> label_end(b, i) <= b.len(),
        0 <= i ==> forall|k: int| i <= k < label_end(b, i) ==> b[k] != DOT,
        0 <= i && label_end(b, i) < b.len() ==> b[label_end(b, i)] == DOT,
    decreases b.len() - i,
{
    if !(i >= b.len() || b[i] == DOT) {
        lemma_label_end_bounds(b, i + 1);
    }
}

/// Checks the labels of `b` from the one that starts at `start` on, left to
/// right: the error of the first label that has one, else `Ok`.
pub open spec fn labels_check(b: Seq<u8>, start: int) -> Result<(), DomainError>
    decreases b.len() - start,
{
    let end = label_end(b, start);
    proof {
        lemma_label_end_bounds(b, start);
    }
    match label_error(b.subrange(start, end)) {
        Some(e) => Err(e),
        None => if end >= b.len() {
            Ok(())
        } else {
            labels_check(b, end + 1)
        },
    }
}

/// Validation of a domain given as its UTF-8 bytes: its length, then each of
/// its `.`-separated labels.
pub open spec fn domain_check(b: Seq<u8>) -> Result<(), DomainError> {
    if b.len() == 0 || b.len() > MAX_DOMAIN_LEN {
        Err(DomainError::InvalidLength)
    } else {
        labels_check(b, 0)
    }
}

pub open spec fn is_ascii_upper(c: char) -> bool {
    'A' as u32 <= c as u32 <= 'Z' as u32
}

pub open spec fn has_ascii_upper(s: Seq<char>) -> bool {
    exists|i: int| 0 <= i < s.len() && is_ascii_upper(#[trigger] s[i])
}

/// The ASCII lower case of one character; any other character is unchanged.
pub open spec fn ascii_lower_char(c: char) -> char {
    if is_ascii_upper(c) {
        ((c as u32) + 32) as char
    } else {
        c
    }
}

pub open spec fn ascii_lowercase(s: Seq<char>) -> Seq<char> {
    s.map_values(|c: char| ascii_lower_char(c))
}

/// Validation of a query name: no ASCII upper case letter, then the checks of
/// `domain_check` on its UTF-8 bytes.
pub open spec fn query_check(s: Seq<char>) -> Result<(), DomainError> {
    if has_ascii_upper(s) {
        Err(DomainError::NotLowercase)
    } else {
        domain_check(encode_utf8(s))
    }
}

/// A name the blocker stores and looks up: lower case and valid.
pub open spec fn is_domain(s: Seq<char>) -> bool {
    query_check(s) is Ok
}

/// The stored form of `s`: its ASCII lower case, where that is valid.
pub open spec fn normalized_name(s: Seq<char>) -> Result<Seq<char>, DomainError> {
    let lower = ascii_lowercase(s);
    match domain_check(encode_utf8(lower)) {
        Ok(_) => Ok(lower),
        Err(e) => Err(e),
    }
}

/// The labels of `b`: its `.`-separated parts, left to right, as
/// `split('.')` gives them (so there is always at least one).
pub open spec fn split_labels(b: Seq<u8>) -> Seq<Seq<u8>>
    decreases b.len(),
{
    let k = label_end(b, 0);
    proof {
        lemma_label_end_bounds(b, 0);
    }
    if k >= b.len() {
        seq![b]
    } else {
        seq![b.take(k)] + split_labels(b.skip(k + 1))
    }
}

/// Labels joined with a `.` between each two.
pub open spec fn join_labels(labels: Seq<Seq<u8>>) -> Seq<u8>
    decreases labels.len(),
{
    if labels.len() == 0 {
        Seq::empty()
    } else if labels.len() == 1 {
        labels[0]
    } else {
        labels[0] + seq![DOT] + join_labels(labels.drop_first())
    }
}

/// The error of the first label, left to right, that has one.
pub open spec fn first_label_error(labels: Seq<Seq<u8>>) -> Result<(), DomainError>
    decreases labels.len(),
{
    if labels.len() == 0 {
        Ok(())
    } else {
        match label_error(labels[0]) {
            Some(e) => Err(e),
            None => first_label_error(labels.drop_first()),
        }
    }
}

pub open spec fn dot_free(labels: Seq<Seq<u8>>) -> bool {
    forall|i: int| 0 <= i < labels.len() ==> !(#[trigger] labels[i]).contains(DOT)
}

/// `split_labels` cuts `b` at every `.`: joining its parts gives `b` back,
/// and no part holds a `.`.
pub proof fn lemma_split_labels(b: Seq<u8>)
    ensures
        split_labels(b).len() >= 1,
        join_labels(split_labels(b)) == b,
        dot_free(split_labels(b)),
    decreases b.len(),
{
    lemma_label_end_bounds(b, 0);
    let k = label_end(b, 0);
    if k >= b.len() {
        assert(!b.contains(DOT));
    } else {
        let rest = b.skip(k + 1);
        lemma_split_labels(rest);
        let parts = split_labels(b);
        assert(parts.drop_first() =~= split_labels(rest));
        assert(!b.take(k).contains(DOT));
        assert(b =~= b.take(k) + seq![DOT] + rest);
        assert forall|i: int| 0 <= i < parts.len() implies !(#[trigger] parts[i]).contains(DOT) by {
            if i > 0 {
                assert(parts[i] == split_labels(rest)[i - 1]);
            }
        }
    }
}

proof fn lemma_label_end_at(b: Seq<u8>, s: int, n: int)
    requires
        0 <= s,
        0 <= n,
        s + n <= b.len(),
        forall|k: int| s <= k < s + n ==> b[k] != DOT,
        s + n == b.len() || b[s + n] == DOT,
    ensures
        label_end(b, s) == s + n,
    decreases n,
{
    if n > 0 {
        lemma_label_end_at(b, s + 1, n - 1);
    }
}

proof fn lemma_labels_check_join(b: Seq<u8>, s: int, labels: Seq<Seq<u8>>)
    requires
        0 <= s <= b.len(),
        labels.len() >= 1,
        dot_free(labels),
        b.skip(s) == join_labels(labels),
    ensures
        labels_check(b, s) == first_label_error(labels),
    decreases labels.len(),
{
    let l0 = labels[0];
    let n = l0.len() as int;
    let t = b.skip(s);
    assert(!l0.contains(DOT));
    if labels.len() == 1 {
        assert(t == l0);
        assert(b.len() == s + n);
        assert forall|k: int| s <= k < s + n implies b[k] != DOT by {
            assert(b[k] == t[k - s]);
        }
        lemma_label_end_at(b, s, n);
        assert(b.subrange(s, s + n) =~= l0);
        assert(labels.drop_first() =~= Seq::<Seq<u8>>::empty());
        assert(first_label_error(labels.drop_first()) == Ok::<(), DomainError>(()));
    } else {
        let rest = labels.drop_first();
        let j = join_labels(rest);
        assert(t == l0 + seq![DOT] + j);
        assert(b.len() == s + n + 1 + j.len());
        assert forall|k: int| s <= k < s + n implies b[k] != DOT by {
            assert(b[k] == t[k - s]);
        }
        assert(b[s + n] == t[n]);
        lemma_label_end_at(b, s, n);
        assert(b.subrange(s, s + n) =~= l0) by {
            assert forall|k: int| 0 <= k < n implies b.subrange(s, s + n)[k] == l0[k] by {
                assert(b[s + k] == t[k]);
            }
        }
        assert(b.skip(s + n + 1) =~= j) by {
            assert forall|k: int| 0 <= k < j.len() implies b.skip(s + n + 1)[k] == j[k] by {
                assert(b[s + n + 1 + k] == t[n + 1 + k]);
            }
        }
        assert(dot_free(rest)) by {
            assert forall|i: int| 0 <= i < rest.len() implies !(#[trigger] rest[i]).contains(DOT) by {
                assert(rest[i] == labels[i + 1]);
            }
        }
        lemma_labels_check_join(b, s + n + 1, rest);
    }
}

/// Validation label by label: for any way of writing a string as labels
/// without `.` joined by `.`, it is valid exactly when its length is 1 to
/// 253 bytes and no label has an error; otherwise the error is the length
/// error, or else that of the first failing label.
pub proof fn lemma_domain_check_by_labels(labels: Seq<Seq<u8>>)
    requires
        labels.len() >= 1,
        dot_free(labels),
    ensures
        domain_check(join_labels(labels)) == if join_labels(labels).len() == 0
            || join_labels(labels).len() > MAX_DOMAIN_LEN {
            Err(DomainError::InvalidLength)
        } else {
            first_label_error(labels)
        },
{
    let b = join_labels(labels);
    assert(b.skip(0) =~= b);
    lemma_labels_check_join(b, 0, labels);
}

/// `first_label_error` is `Ok` exactly when no label has an error.
pub proof fn lemma_first_label_error_ok(labels: Seq<Seq<u8>>)
    ensures
        first_label_error(labels) is Ok <==> forall|i: int|
            0 <= i < labels.len() ==> label_error(#[trigger] labels[i]) is None,
    decreases labels.len(),
{
    if labels.len() > 0 {
        lemma_first_label_error_ok(labels.drop_first());
        if first_label_error(labels) is Ok {
            assert forall|i: int| 0 <= i < labels.len() implies label_error(
                #[trigger] labels[i],
            ) is None by {
                if i > 0 {
                    assert(labels[i] == labels.drop_first()[i - 1]);
                }
            }
        }
        if forall|i: int| 0 <= i < labels.len() ==> label_error(#[trigger] labels[i]) is None {
            assert forall|i: int| 0 <= i < labels.drop_first().len() implies label_error(
                #[trigger] labels.drop_first()[i],
            ) is None by {
                assert(labels.drop_first()[i] == labels[i + 1]);
            }
        }
    }
}

/// The validation rules in the words of `split('.')`: `b` is a valid domain
/// exactly when it has 1 to 253 bytes and each of its `.`-separated labels
/// has 1 to 63 bytes, does not start or end with `-`, and holds only ASCII
/// letters, digits, `-` and `_`. Where it is not, the error is the length
/// error, or else that of its first failing label.
pub proof fn lemma_domain_check_split(b: Seq<u8>)
    ensures
        domain_check(b) == if b.len() == 0 || b.len() > MAX_DOMAIN_LEN {
            Err(DomainError::InvalidLength)
        } else {
            first_label_error(split_labels(b))
        },
        domain_check(b) is Ok <==> {
            &&& 1 <= b.len() <= MAX_DOMAIN_LEN
            &&& forall|i: int| 0 <= i < split_labels(b).len() ==> {
                let l = #[trigger] split_labels(b)[i];
                &&& 1 <= l.len() <= MAX_LABEL_LEN
                &&& l[0] != HYPHEN
                &&& l.last() != HYPHEN
                &&& forall|j: int| 0 <= j < l.len() ==> is_label_byte(#[trigger] l[j])
            }
        },
{
    lemma_split_labels(b);
    lemma_domain_check_by_labels(split_labels(b));
    lemma_first_label_error_ok(split_labels(b));
    let parts = split_labels(b);
    assert forall|i: int| 0 <= i < parts.len() implies (label_error(#[trigger] parts[i]) is None
        <==> {
        let l = parts[i];
        &&& 1 <= l.len() <= MAX_LABEL_LEN
        &&& l[0] != HYPHEN
        &&& l.last() != HYPHEN
        &&& forall|j: int| 0 <= j < l.len() ==> is_label_byte(#[trigger] l[j])
    }) by {}
}

/// An ASCII letter or digit, as a byte.
pub open spec fn is_ascii_alphanumeric_byte(b: u8) -> bool {
    ||| '0' as u32 <= b as u32 <= '9' as u32
    ||| 'a' as u32 <= b as u32 <= 'z' as u32
    ||| 'A' as u32 <= b as u32 <= 'Z' as u32
}

/// The bytes a label may hold are exactly the ASCII letters and digits,
/// `-` and `_` (RFC 1035, with RFC 8552's `_`).
pub proof fn lemma_label_bytes(b: u8)
    ensures
        is_label_byte(b) <==> is_ascii_alphanumeric_byte(b) || b as u32 == '-' as u32 || b as u32
            == '_' as u32,
{
}

/// Any name made of labels of 1 to 63 ASCII letters and digits, joined by
/// `.`, and at most 253 bytes long, is a valid domain (`2mdn.net` among
/// them).
pub proof fn lemma_alphanumeric_labels_valid(labels: Seq<Seq<u8>>)
    requires
        labels.len() >= 1,
        forall|i: int|
            0 <= i < labels.len() ==> 1 <= (#[trigger] labels[i]).len() <= MAX_LABEL_LEN,
        forall|i: int, j: int|
            0 <= i < labels.len() && 0 <= j < labels[i].len() ==> is_ascii_alphanumeric_byte(
                #[trigger] labels[i][j],
            ),
        join_labels(labels).len() <= MAX_DOMAIN_LEN,
    ensures
        domain_check(join_labels(labels)) == Ok::<(), DomainError>(()),
{
    assert(dot_free(labels)) by {
        assert forall|i: int| 0 <= i < labels.len() implies !(#[trigger] labels[i]).contains(
            DOT,
        ) by {
            if labels[i].contains(DOT) {
                let j = choose|j: int| 0 <= j < labels[i].len() && labels[i][j] == DOT;
                assert(is_ascii_alphanumeric_byte(labels[i][j]));
            }
        }
    }
    lemma_domain_check_by_labels(labels);
    lemma_first_label_error_ok(labels);
    assert forall|i: int| 0 <= i < labels.len() implies label_error(#[trigger] labels[i])
        is None by {
        let l = labels[i];
        assert(is_ascii_alphanumeric_byte(l[0]));
        assert(is_ascii_alphanumeric_byte(l[l.len() - 1]));
        assert forall|j: int| 0 <= j < l.len() implies is_label_byte(#[trigger] l[j]) by {
            assert(is_ascii_alphanumeric_byte(labels[i][j]));
        }
    }
    assert(join_labels(labels).len() >= 1) by {
        if labels.len() > 1 {
            assert(join_labels(labels) == labels[0] + seq![DOT] + join_labels(labels.drop_first()));
        }
    }
    let r = first_label_error(labels);
    assert(r matches Ok(u) && u == ());
}

/// The labels from `start` on pass, so the last byte is not a `.`.
proof fn lemma_labels_check_last(b: Seq<u8>, start: int)
    requires
        0 <= start <= b.len(),
        labels_check(b, start) is Ok,
    ensures
        b.len() > 0,
        b.last() != DOT,
    decreases b.len() - start,
{
    lemma_label_end_bounds(b, start);
    let end = label_end(b, start);
    if end < b.len() {
        lemma_labels_check_last(b, end + 1);
    }
}

proof fn lemma_encode_utf8_append(a: Seq<char>, b: Seq<char>)
    ensures
        encode_utf8(a + b) == encode_utf8(a) + encode_utf8(b),
    decreases a.len(),
{
    if a.len() == 0 {
        assert(a + b =~= b);
    } else {
        assert((a + b).drop_first() =~= a.drop_first() + b);
        lemma_encode_utf8_append(a.drop_first(), b);
    }
}

/// A valid domain is not empty and does not end with a `.`.
pub proof fn lemma_domain_no_trailing_dot(s: Seq<char>)
    requires
        is_domain(s),
    ensures
        s.len() > 0,
        s.last() != '.',
{
    lemma_labels_check_last(encode_utf8(s), 0);
    if s.len() == 0 {
        assert(encode_utf8(s) =~= Seq::<u8>::empty());
    }
    if s.last() == '.' {
        let head = s.drop_last();
        assert(s =~= head + seq!['.']);
        lemma_encode_utf8_append(head, seq!['.']);
        assert(seq!['.'].drop_first() =~= Seq::<char>::empty());
        assert(('.' as u32) == 0x2e);
        assert((0x2eu32 & 0x7fu32) as u8 == 0x2eu8) by (bit_vector);
        assert(encode_utf8(Seq::<char>::empty()) =~= Seq::<u8>::empty());
        assert(encode_scalar(0x2eu32) =~= seq![DOT]);
        assert(encode_utf8(seq!['.']) =~= seq![DOT]);
    }
}

/// Lower-casing twice changes nothing more.
proof fn lemma_ascii_lowercase_twice(s: Seq<char>)
    ensures
        ascii_lowercase(ascii_lowercase(s)) == ascii_lowercase(s),
        !has_ascii_upper(ascii_lowercase(s)),
{
    assert(ascii_lowercase(ascii_lowercase(s)) =~= ascii_lowercase(s));
    assert forall|i: int| 0 <= i < ascii_lowercase(s).len() implies !is_ascii_upper(
        #[trigger] ascii_lowercase(s)[i],
    ) by {
        assert(ascii_lowercase(s)[i] == ascii_lower_char(s[i]));
    }
}

/// A name as stored is one that a query may name: storing lower-cases, and a
/// query must already be lower case, so a stored name is found when it is
/// looked up by its own text.
pub proof fn lemma_stored_name_is_domain(s: Seq<char>)
    requires
        normalized_name(s) is Ok,
    ensures
        is_domain(normalized_name(s)->Ok_0),
        query_check(normalized_name(s)->Ok_0) == Ok::<(), DomainError>(()),
{
    lemma_ascii_lowercase_twice(s);
    let r = domain_check(encode_utf8(ascii_lowercase(s)));
    assert(r matches Ok(u) && u == ());
}

/// Storing is case-insensitive and idempotent: a name and its lower case are
/// stored alike, and a stored name is stored as itself.
pub proof fn lemma_normalized_name_idempotent(s: Seq<char>)
    ensures
        normalized_name(ascii_lowercase(s)) == normalized_name(s),
        normalized_name(s) matches Ok(n) ==> normalized_name(n) == Ok::<Seq<char>, DomainError>(n),
{
    lemma_ascii_lowercase_twice(s);
}

/// A valid lower-case domain is stored as itself.
pub proof fn lemma_domain_stored_as_itself(s: Seq<char>)
    requires
        is_domain(s),
    ensures
        normalized_name(s) == Ok::<Seq<char>, DomainError>(s),
{
    assert(ascii_lowercase(s) =~= s) by {
        assert forall|i: int| 0 <= i < s.len() implies #[trigger] ascii_lowercase(s)[i] == s[i] by {
            if is_ascii_upper(s[i]) {
                assert(has_ascii_upper(s));
            }
        }
    }
}

/// `str::to_ascii_lowercase`: a copy of `s` with 'A'..='Z' mapped to
/// 'a'..='z' and every other character unchanged.
#[verifier::external_body]
fn str_to_ascii_lowercase(s: &str) -> (r: String)
    ensures
        r@ == ascii_lowercase(s@),
{
    s.to_ascii_lowercase()
}

/// A domain name as stored in the blocklist: lower case and valid.
#[derive(Debug, PartialEq, Eq, Hash)]
pub struct DomainName(String);

impl Clone for DomainName {
    fn clone(&self) -> (r: Self)
        ensures
            r@ == self@,
    {
        proof {
            use_type_invariant(self);
        }
        DomainName(self.0.clone())
    }
}

impl View for DomainName {
    type V = Seq<char>;

    closed spec fn view(&self) -> Seq<char> {
        self.0@
    }
}

impl DomainName {
    #[verifier::type_invariant]
    closed spec fn inv(self) -> bool {
        is_domain(self.0@)
    }

    /// Lower-cases `s` and validates the result.
    pub fn try_from(s: &str) -> (r: Result<DomainName, DomainError>)
        ensures
            match r {
                Ok(n) => normalized_name(s@) == Ok::<Seq<char>, DomainError>(n@),
                Err(e) => normalized_name(s@) == Err::<Seq<char>, DomainError>(e),
            },
            r matches Ok(n) ==> is_domain(n@),
    {
        let lower = str_to_ascii_lowercase(s);
        proof {
            assert forall|i: int| 0 <= i < lower@.len() implies !is_ascii_upper(
                #[trigger] lower@[i],
            ) by {
                assert(lower@[i] == ascii_lower_char(s@[i]));
            }
        }
        match validate_domain(lower.as_str()) {
            Ok(()) => Ok(DomainName(lower)),
            Err(e) => Err(e),
        }
    }
}

/// The characters of a borrowed string.
pub open spec fn text_of(s: &str) -> Seq<char> {
    s@
}

impl std::borrow::Borrow<str> for DomainName {
    fn borrow(&self) -> (r: &str)
        ensures
            text_of(r) == self@,
    {
        self.0.as_str()
    }
}

/// A name taken from a query, borrowed: lower case and valid.
#[derive(Debug, Clone, Copy, PartialEq, Eq, Hash)]
pub struct DomainRef<'a>(&'a str);

impl<'a> View for DomainRef<'a> {
    type V = Seq<char>;

    closed spec fn view(&self) -> Seq<char> {
        self.0@
    }
}

impl<'a> DomainRef<'a> {
    #[verifier::type_invariant]
    closed spec fn inv(self) -> bool {
        is_domain(self.0@)
    }

    /// Accepts `s` as it is when it holds no ASCII upper case letter and is a
    /// valid domain; it is never lower-cased.
    pub fn parse(s: &'a str) -> (r: Result<Self, DomainError>)
        ensures
            r is Ok <==> query_check(s@) is Ok,
            r matches Ok(d) ==> d@ == s@,
            r matches Err(e) ==> query_check(s@) == Err::<(), DomainError>(e),
    {
        if has_uppercase(s) {
            return Err(DomainError::NotLowercase);
        }
        match validate_domain(s) {
            Ok(()) => Ok(DomainRef(s)),
            Err(e) => Err(e),
        }
    }

    pub fn as_str(&self) -> (r: &str)
        ensures
            r@ == self@,
    {
        self.0
    }
}

/// Whether `s` holds an ASCII upper case letter.
fn has_uppercase(s: &str) -> (b: bool)
    ensures
        b == has_ascii_upper(s@),
{
    let v = chars_of(s);
    let n = v.len();
    let mut i: usize = 0;
    while i < n
        invariant
            n == v@.len(),
            v@ == s@,
            i <= n,
            forall|k: int| 0 <= k < i ==> !is_ascii_upper(#[trigger] v@[k]),
        decreases n - i,
    {
        let u = v[i] as u32;
        if 0x41 <= u && u <= 0x5a {
            assert(is_ascii_upper(v@[i as int]));
            return true;
        }
        i = i + 1;
    }
    false
}

fn is_label_byte_exec(b: u8) -> (r: bool)
    ensures
        r == is_label_byte(b),
{
    (0x30 <= b && b <= 0x39) || (0x41 <= b && b <= 0x5a) || (0x61 <= b && b <= 0x7a) || b
        == HYPHEN || b == UNDERSCORE
}

/// The error of the label `b[start..end]`, if any.
fn check_label(b: &[u8], start: usize, end: usize) -> (r: Option<DomainError>)
    requires
        start <= end <= b@.len(),
    ensures
        r == label_error(b@.subrange(start as int, end as int)),
{
    let ghost label = b@.subrange(start as int, end as int);
    let len = end - start;
    if len == 0 || len > MAX_LABEL_LEN {
        return Some(DomainError::InvalidLabelLength);
    }
    assert(label[0] == b@[start as int]);
    assert(label.last() == b@[end - 1]);
    if b[start] == HYPHEN || b[end - 1] == HYPHEN {
        return Some(DomainError::InvalidHyphen);
    }
    let mut i = start;
    while i < end
        invariant
            start <= i <= end <= b@.len(),
            label == b@.subrange(start as int, end as int),
            0 < label.len() <= MAX_LABEL_LEN,
            label[0] != HYPHEN,
            label.last() != HYPHEN,
            forall|k: int| 0 <= k < i - start ==> is_label_byte(#[trigger] label[k]),
        decreases end - i,
    {
        if !is_label_byte_exec(b[i]) {
            assert(label[i - start] == b@[i as int]);
            assert(!is_label_byte(label[i - start]));
            return Some(DomainError::InvalidCharacter);
        }
        i = i + 1;
    }
    None
}

/// Checks the length of `s` and each of its labels, as RFC 1035 and RFC 8552
/// (which allows `_`) restrict them, counted in bytes.
pub fn validate_domain(s: &str) -> (r: Result<(), DomainError>)
    ensures
        r == domain_check(encode_utf8(s@)),
{
    let b = s.as_bytes();
    let n = b.len();
    if n == 0 || n > MAX_DOMAIN_LEN {
        return Err(DomainError::InvalidLength);
    }
    let mut start: usize = 0;
    loop
        invariant
            n == b@.len(),
            b@ == encode_utf8(s@),
            0 < n <= MAX_DOMAIN_LEN,
            start <= n,
            domain_check(b@) == labels_check(b@, start as int),
        decreases n - start,
    {
        let mut end = start;
        while end < n && b[end] != DOT
            invariant
                n == b@.len(),
                start <= end <= n,
                label_end(b@, end as int) == label_end(b@, start as int),
            decreases n - end,
        {
            end = end + 1;
        }
        assert(label_end(b@, start as int) == end);
        match check_label(b, start, end) {
            Some(e) => {
                return Err(e);
            },
            None => {},
        }
        if end >= n {
            return Ok(());
        }
        start = end + 1;
    }
}

/// Something that decides whether a query's domain is blocked.
pub trait Blocklist {
    fn is_blocked(&self, domain: DomainRef<'_>) -> bool;
}

} // verus!
