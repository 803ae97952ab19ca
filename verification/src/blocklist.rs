use vstd::prelude::*;
use vstd::string::{StrSliceExecFns, StringExecFns};
use ahash::AHashSet;
use crate::domain::{DomainName, DomainRef, is_domain, lemma_stored_name_is_domain, normalized_name};
use crate::text::{chars_equal, chars_of, char_is_whitespace, is_white_space, str_split_once};

verus! {

broadcast use vstd::string::group_string_axioms;

#[verifier::external_type_specification]
#[verifier::external_body]
#[verifier::reject_recursive_types(T)]
#[verifier::reject_recursive_types(S)]
pub struct ExAHashSet<T, S>(AHashSet<T, S>);

#[verifier::external_type_specification]
#[verifier::external_body]
pub struct ExRandomState(ahash::RandomState);

/// The names held by an `AHashSet` of domain names, each taken by its view.
/// A `DomainName`'s `Eq`, `Hash` and `Borrow<str>` all go by its text, so the
/// set holds one entry per text and finds it by a `str` of that text.
pub uninterp spec fn held_names(set: AHashSet<DomainName>) -> Set<Seq<char>>;

/// Largest capacity asked of `AHashSet::with_capacity`: the table it sizes
/// from such a count can be laid out on 32-bit and 64-bit targets alike.
pub const PRESIZE_LIMIT: usize = 0x0100_0000;

/// `AHashSet::with_capacity`: an empty set. It panics ("capacity overflow")
/// only when the table for `capacity` items cannot be laid out, which the
/// bound rules out.
#[verifier::external_body]
fn names_with_capacity(capacity: usize) -> (set: AHashSet<DomainName>)
    requires
        capacity <= PRESIZE_LIMIT,
    ensures
        held_names(set) == Set::<Seq<char>>::empty(),
{
    AHashSet::with_capacity(capacity)
}

/// `HashSet::insert` (through `AHashSet`'s `DerefMut`): the set then holds
/// `name` as well; `true` when it did not hold it before.
#[verifier::external_body]
fn names_insert(set: &mut AHashSet<DomainName>, name: DomainName) -> (added: bool)
    ensures
        held_names(*final(set)) == held_names(*old(set)).insert(name@),
        added == !held_names(*old(set)).contains(name@),
{
    set.insert(name)
}

/// `HashSet::contains` (through `AHashSet`'s `Deref`), looked up by `str`
/// through `DomainName`'s `Borrow<str>`: whether the set holds `name`.
#[verifier::external_body]
fn names_contain(set: &AHashSet<DomainName>, name: &str) -> (found: bool)
    ensures
        found == held_names(*set).contains(name@),
{
    set.contains(name)
}

/// `HashSet::shrink_to_fit`: frees spare capacity; the contents stay.
#[verifier::external_body]
fn names_shrink_to_fit(set: &mut AHashSet<DomainName>)
    ensures
        held_names(*final(set)) == held_names(*old(set)),
{
    set.shrink_to_fit()
}

/// Index of the first non-whitespace character at or after `i`.
pub open spec fn skip_white_space(s: Seq<char>, i: int) -> int
    decreases s.len() - i,
{
    if 0 <= i < s.len() && is_white_space(s[i]) {
        skip_white_space(s, i + 1)
    } else {
        i
    }
}

/// Going down from `j`, but not below `lo`: the end of `s[lo..j]` once its
/// trailing whitespace is cut off.
pub open spec fn trim_end_index(s: Seq<char>, j: int, lo: int) -> int
    decreases j - lo,
{
    if lo < j <= s.len() && is_white_space(s[j - 1]) {
        trim_end_index(s, j - 1, lo)
    } else {
        j
    }
}

/// Going down from `j`, but not below `lo`: the start of the run of
/// non-whitespace characters that ends at `j`.
pub open spec fn field_start(s: Seq<char>, j: int, lo: int) -> int
    decreases j - lo,
{
    if lo < j <= s.len() && !is_white_space(s[j - 1]) {
        field_start(s, j - 1, lo)
    } else {
        j
    }
}

/// The domain that one line of a hosts file or domain list names. The line
/// is trimmed; a blank line or a comment (`#` first) names none; otherwise
/// the last whitespace-separated field counts (both `domain.com` and
/// `0.0.0.0 domain.com`), unless it is exactly `localhost` or
/// `broadcasthost`, and it is stored lower-cased where valid.
pub open spec fn line_entry(line: Seq<char>) -> Option<Seq<char>> {
    let lo = skip_white_space(line, 0);
    let hi = trim_end_index(line, line.len() as int, lo);
    if lo >= hi || line[lo] == '#' {
        None
    } else {
        let field = line.subrange(field_start(line, hi, lo), hi);
        if field == "localhost"@ || field == "broadcasthost"@ {
            None
        } else {
            match normalized_name(field) {
                Ok(n) => Some(n),
                Err(_) => None,
            }
        }
    }
}

proof fn lemma_skip_white_space(s: Seq<char>, i: int)
    requires
        0 <= i <= s.len(),
    ensures
        i <= skip_white_space(s, i) <= s.len(),
        forall|k: int| i <= k < skip_white_space(s, i) ==> is_white_space(s[k]),
        skip_white_space(s, i) < s.len() ==> !is_white_space(s[skip_white_space(s, i)]),
    decreases s.len() - i,
{
    if i < s.len() && is_white_space(s[i]) {
        lemma_skip_white_space(s, i + 1);
    }
}

proof fn lemma_trim_end_index(s: Seq<char>, j: int, lo: int)
    requires
        0 <= lo <= j <= s.len(),
    ensures
        lo <= trim_end_index(s, j, lo) <= j,
        forall|k: int| trim_end_index(s, j, lo) <= k < j ==> is_white_space(s[k]),
        trim_end_index(s, j, lo) > lo ==> !is_white_space(s[trim_end_index(s, j, lo) - 1]),
    decreases j - lo,
{
    if lo < j && is_white_space(s[j - 1]) {
        lemma_trim_end_index(s, j - 1, lo);
    }
}

proof fn lemma_field_start(s: Seq<char>, j: int, lo: int)
    requires
        0 <= lo <= j <= s.len(),
    ensures
        lo <= field_start(s, j, lo) <= j,
        forall|k: int| field_start(s, j, lo) <= k < j ==> !is_white_space(s[k]),
        field_start(s, j, lo) > lo ==> is_white_space(s[field_start(s, j, lo) - 1]),
    decreases j - lo,
{
    if lo < j && !is_white_space(s[j - 1]) {
        lemma_field_start(s, j - 1, lo);
    }
}

/// What `line_entry` reads off a line. With `lo` and `hi` as there,
/// `line[lo..hi]` is the line trimmed: everything before `lo` and from `hi`
/// on is whitespace, and where it is not empty it starts and ends with a
/// character that is not. `line[f..hi]`, with `f` the `field_start`, is the
/// last whitespace-separated field of it: no whitespace inside, and
/// whitespace just before it unless it starts the trimmed line.
pub proof fn lemma_line_entry_parts(line: Seq<char>)
    ensures
        ({
            let lo = skip_white_space(line, 0);
            let hi = trim_end_index(line, line.len() as int, lo);
            let f = field_start(line, hi, lo);
            &&& 0 <= lo <= hi <= line.len()
            &&& forall|k: int| 0 <= k < lo ==> is_white_space(#[trigger] line[k])
            &&& forall|k: int| hi <= k < line.len() ==> is_white_space(#[trigger] line[k])
            &&& lo < hi ==> !is_white_space(line[lo]) && !is_white_space(line[hi - 1])
            &&& lo < hi ==> lo <= f < hi
            &&& forall|k: int| f <= k < hi ==> !is_white_space(#[trigger] line[k])
            &&& f > lo ==> is_white_space(line[f - 1])
        }),
{
    let lo = skip_white_space(line, 0);
    lemma_skip_white_space(line, 0);
    lemma_trim_end_index(line, line.len() as int, lo);
    let hi = trim_end_index(line, line.len() as int, lo);
    lemma_field_start(line, hi, lo);
    if lo == line.len() {
        assert(hi == lo);
    }
    if lo < hi {
        assert(!is_white_space(line[hi - 1]));
    }
}

/// Every character of `s` is whitespace.
pub open spec fn all_white_space(s: Seq<char>) -> bool {
    forall|k: int| 0 <= k < s.len() ==> is_white_space(#[trigger] s[k])
}

/// The domain a hosts-file or list line names. For a line made of optional
/// whitespace, then either nothing or a first part (such as `0.0.0.0`) that
/// starts with neither whitespace nor `#` and ends with whitespace, then a
/// field `f` without whitespace, then optional whitespace: the line names
/// nothing when `f` is exactly `localhost` or `broadcasthost`, and otherwise
/// the lower case of `f` where that is a valid domain, and nothing where it
/// is not.
pub proof fn lemma_line_entry_of(ws1: Seq<char>, prefix: Seq<char>, f: Seq<char>, ws3: Seq<char>)
    requires
        all_white_space(ws1),
        all_white_space(ws3),
        f.len() > 0,
        forall|k: int| 0 <= k < f.len() ==> !is_white_space(#[trigger] f[k]),
        prefix.len() == 0 ==> f[0] != '#',
        prefix.len() > 0 ==> !is_white_space(prefix[0]) && prefix[0] != '#' && is_white_space(
            prefix.last(),
        ),
    ensures
        line_entry(ws1 + prefix + f + ws3) == if f == "localhost"@ || f == "broadcasthost"@ {
            None
        } else {
            match normalized_name(f) {
                Ok(n) => Some(n),
                Err(_) => None,
            }
        },
{
    let line = ws1 + prefix + f + ws3;
    let p0 = ws1.len() as int;
    let fs = p0 + prefix.len();
    let fe = fs + f.len();
    lemma_line_entry_parts(line);
    let lo = skip_white_space(line, 0);
    let hi = trim_end_index(line, line.len() as int, lo);
    let fst = field_start(line, hi, lo);
    assert forall|k: int| 0 <= k < p0 implies is_white_space(line[k]) by {
        assert(line[k] == ws1[k]);
    }
    assert forall|k: int| fe <= k < line.len() implies is_white_space(line[k]) by {
        assert(line[k] == ws3[k - fe]);
    }
    assert forall|k: int| fs <= k < fe implies !is_white_space(line[k]) by {
        assert(line[k] == f[k - fs]);
    }
    if prefix.len() > 0 {
        assert(line[p0] == prefix[0]);
        assert(line[fs - 1] == prefix.last());
    } else {
        assert(line[p0] == f[0]);
    }
    assert(!is_white_space(line[p0]));
    if lo < p0 {
        assert(is_white_space(line[lo]));
    }
    if lo > p0 {
        assert(is_white_space(line[p0]));
    }
    assert(lo == p0);
    assert(!is_white_space(line[fe - 1]));
    if hi <= lo {
        assert(is_white_space(line[fe - 1]));
    }
    if hi > fe {
        assert(is_white_space(line[hi - 1]));
    }
    if hi < fe {
        assert(is_white_space(line[fe - 1]));
    }
    assert(hi == fe);
    if fst < fs {
        assert(!is_white_space(line[fs - 1]));
    }
    if fst > fs {
        assert(!is_white_space(line[fst - 1]));
    }
    assert(fst == fs);
    assert(line.subrange(fst, hi) =~= f);
}

/// A line whose first character other than whitespace is `#` is a comment
/// and names nothing; so does a line of whitespace only.
pub proof fn lemma_line_entry_comment(ws1: Seq<char>, rest: Seq<char>)
    requires
        all_white_space(ws1),
        rest.len() == 0 || rest[0] == '#',
    ensures
        line_entry(ws1 + rest) is None,
{
    let line = ws1 + rest;
    let p0 = ws1.len() as int;
    lemma_line_entry_parts(line);
    let lo = skip_white_space(line, 0);
    let hi = trim_end_index(line, line.len() as int, lo);
    assert forall|k: int| 0 <= k < p0 implies is_white_space(line[k]) by {
        assert(line[k] == ws1[k]);
    }
    if rest.len() == 0 {
        if lo < hi {
            assert(is_white_space(line[lo]));
        }
    } else {
        assert(line[p0] == '#');
        assert(!is_white_space('#'));
        if lo < p0 {
            assert(is_white_space(line[lo]));
        }
        if lo > p0 {
            assert(is_white_space(line[p0]));
        }
    }
}

pub open spec fn entry_set(line: Seq<char>) -> Set<Seq<char>> {
    match line_entry(line) {
        Some(n) => set![n],
        None => Set::empty(),
    }
}

/// Index of the first `\n` at or after `i`, or the length of `s`.
pub open spec fn newline_from(s: Seq<char>, i: int) -> int
    decreases s.len() - i,
{
    if i >= s.len() || (0 <= i && s[i] == '\n') {
        i
    } else {
        newline_from(s, i + 1)
    }
}

pub proof fn lemma_newline_from(s: Seq<char>, i: int)
    requires
        0 <= i <= s.len(),
    ensures
        i <= newline_from(s, i) <= s.len(),
        newline_from(s, i) < s.len() ==> s[newline_from(s, i)] == '\n',
        forall|j: int| i <= j < newline_from(s, i) ==> s[j] != '\n',
    decreases s.len() - i,
{
    if !(i >= s.len() || s[i] == '\n') {
        lemma_newline_from(s, i + 1);
    }
}

/// The domains that the lines of `raw` name, lines being separated by `\n`.
pub open spec fn listed_domains(raw: Seq<char>) -> Set<Seq<char>>
    decreases raw.len(),
{
    let k = newline_from(raw, 0);
    proof {
        lemma_newline_from(raw, 0);
    }
    if k >= raw.len() {
        entry_set(raw)
    } else {
        entry_set(raw.take(k)).union(listed_domains(raw.skip(k + 1)))
    }
}

/// Splitting off the first line: its entry, and the domains of the rest.
pub proof fn lemma_listed_first_line(line: Seq<char>, rest: Seq<char>)
    requires
        !line.contains('\n'),
    ensures
        listed_domains(line + seq!['\n'] + rest) == entry_set(line).union(listed_domains(rest)),
{
    let raw = line + seq!['\n'] + rest;
    lemma_newline_from(raw, 0);
    let k = newline_from(raw, 0);
    if k < line.len() {
        assert(raw[k] == line[k]);
        assert(false);
    }
    if k > line.len() {
        assert(raw[line.len() as int] == '\n');
        assert(false);
    }
    assert(raw.take(k) =~= line);
    assert(raw.skip(k + 1) =~= rest);
}

/// A line without `\n` is a single line.
pub proof fn lemma_listed_single_line(line: Seq<char>)
    requires
        !line.contains('\n'),
    ensures
        listed_domains(line) == entry_set(line),
{
    lemma_newline_from(line, 0);
    let k = newline_from(line, 0);
    if k < line.len() {
        assert(line[k] == '\n');
    }
}

/// Joining two lists with a line break blocks what each of them blocks,
/// and nothing else.
pub proof fn lemma_listed_concat(a: Seq<char>, b: Seq<char>)
    ensures
        listed_domains(a + seq!['\n'] + b) == listed_domains(a).union(listed_domains(b)),
    decreases a.len(),
{
    lemma_newline_from(a, 0);
    let k = newline_from(a, 0);
    if k >= a.len() {
        assert(!a.contains('\n'));
        lemma_listed_first_line(a, b);
        lemma_listed_single_line(a);
    } else {
        let a1 = a.take(k);
        let a2 = a.skip(k + 1);
        assert(!a1.contains('\n'));
        assert(a =~= a1 + seq!['\n'] + a2);
        assert(a + seq!['\n'] + b =~= a1 + seq!['\n'] + (a2 + seq!['\n'] + b));
        lemma_listed_first_line(a1, a2 + seq!['\n'] + b);
        lemma_listed_first_line(a1, a2);
        lemma_listed_concat(a2, b);
        assert(listed_domains(a + seq!['\n'] + b) =~= listed_domains(a).union(
            listed_domains(b),
        ));
    }
}

/// Every domain a list names is a valid lower-case domain.
pub proof fn lemma_listed_are_domains(raw: Seq<char>)
    ensures
        forall|n: Seq<char>| listed_domains(raw).contains(n) ==> is_domain(n),
    decreases raw.len(),
{
    lemma_newline_from(raw, 0);
    let k = newline_from(raw, 0);
    let line = if k >= raw.len() {
        raw
    } else {
        raw.take(k)
    };
    let lo = skip_white_space(line, 0);
    let hi = trim_end_index(line, line.len() as int, lo);
    if !(lo >= hi || line[lo] == '#') {
        let field = line.subrange(field_start(line, hi, lo), hi);
        if normalized_name(field) is Ok {
            lemma_stored_name_is_domain(field);
        }
    }
    if k < raw.len() {
        lemma_listed_are_domains(raw.skip(k + 1));
    }
}

/// What one line of a list names is blocked: for a line `line` of `raw`
/// (what comes before it is empty or ends with a line break, what comes
/// after is empty or starts with one), the domain that `line_entry` gives is
/// in `listed_domains(raw)`.
pub proof fn lemma_line_is_listed(before: Seq<char>, line: Seq<char>, after: Seq<char>)
    requires
        !line.contains('\n'),
        before.len() == 0 || before.last() == '\n',
        after.len() == 0 || after[0] == '\n',
    ensures
        line_entry(line) matches Some(n) ==> listed_domains(before + line + after).contains(n),
{
    let tail = line + after;
    if after.len() == 0 {
        assert(tail =~= line);
        lemma_listed_single_line(line);
    } else {
        assert(tail =~= line + seq!['\n'] + after.drop_first());
        lemma_listed_first_line(line, after.drop_first());
    }
    if before.len() == 0 {
        assert(before + line + after =~= tail);
    } else {
        let head = before.drop_last();
        assert(before + line + after =~= head + seq!['\n'] + tail);
        lemma_listed_concat(head, tail);
    }
}

/// `line` is one of the lines of `raw`, with `before` and `after` the text
/// around it.
pub open spec fn is_line_of(raw: Seq<char>, before: Seq<char>, line: Seq<char>, after: Seq<char>) -> bool {
    &&& raw == before + line + after
    &&& !line.contains('\n')
    &&& before.len() == 0 || before.last() == '\n'
    &&& after.len() == 0 || after[0] == '\n'
}

proof fn lemma_listed_from_a_line(raw: Seq<char>, n: Seq<char>)
    requires
        listed_domains(raw).contains(n),
    ensures
        exists|b: Seq<char>, l: Seq<char>, a: Seq<char>|
            #[trigger] is_line_of(raw, b, l, a) && line_entry(l) == Some(n),
    decreases raw.len(),
{
    lemma_newline_from(raw, 0);
    let k = newline_from(raw, 0);
    if k >= raw.len() {
        assert(!raw.contains('\n'));
        assert(raw == Seq::<char>::empty() + raw + Seq::<char>::empty());
        assert(is_line_of(raw, Seq::<char>::empty(), raw, Seq::<char>::empty()));
    } else {
        let line = raw.take(k);
        let rest = raw.skip(k + 1);
        if entry_set(line).contains(n) {
            let after = raw.skip(k);
            assert(!line.contains('\n'));
            assert(raw =~= Seq::<char>::empty() + line + after);
            assert(after[0] == '\n');
            assert(is_line_of(raw, Seq::<char>::empty(), line, after));
        } else {
            lemma_listed_from_a_line(rest, n);
            let (b, l, a) = choose|b: Seq<char>, l: Seq<char>, a: Seq<char>|
                #[trigger] is_line_of(rest, b, l, a) && line_entry(l) == Some(n);
            let b2 = raw.take(k + 1) + b;
            assert(raw =~= raw.take(k + 1) + rest);
            assert(rest == b + l + a);
            assert(b2 + l + a =~= raw.take(k + 1) + (b + l + a));
            assert(raw == b2 + l + a);
            if b.len() == 0 {
                assert(b2.last() == raw[k]);
            } else {
                assert(b2.last() == b.last());
            }
            assert(is_line_of(raw, b2, l, a));
        }
    }
}

/// A list blocks exactly the domains that its lines name: a domain is in
/// `listed_domains(raw)` if and only if some line of `raw` names it.
pub proof fn lemma_listed_iff_named_by_a_line(raw: Seq<char>, n: Seq<char>)
    ensures
        listed_domains(raw).contains(n) <==> exists|b: Seq<char>, l: Seq<char>, a: Seq<char>|
            #[trigger] is_line_of(raw, b, l, a) && line_entry(l) == Some(n),
{
    if listed_domains(raw).contains(n) {
        lemma_listed_from_a_line(raw, n);
    }
    if exists|b: Seq<char>, l: Seq<char>, a: Seq<char>|
        #[trigger] is_line_of(raw, b, l, a) && line_entry(l) == Some(n) {
        let (b, l, a) = choose|b: Seq<char>, l: Seq<char>, a: Seq<char>|
            #[trigger] is_line_of(raw, b, l, a) && line_entry(l) == Some(n);
        lemma_line_is_listed(b, l, a);
    }
}

/// The domains of the lists that were fetched; a source that failed (`None`)
/// adds nothing.
pub open spec fn fetched_domains(sources: Seq<Option<String>>) -> Set<Seq<char>>
    decreases sources.len(),
{
    if sources.len() == 0 {
        Set::empty()
    } else {
        let last = match sources.last() {
            Some(data) => listed_domains(data@),
            None => Set::empty(),
        };
        fetched_domains(sources.drop_last()).union(last)
    }
}

/// How many sources were fetched.
pub open spec fn loaded_count(sources: Seq<Option<String>>) -> nat
    decreases sources.len(),
{
    if sources.len() == 0 {
        0
    } else {
        loaded_count(sources.drop_last()) + if sources.last() is Some {
            1nat
        } else {
            0nat
        }
    }
}

/// The domains that one source adds: its list's, where it was fetched.
pub open spec fn source_domains(source: Option<String>) -> Set<Seq<char>> {
    match source {
        Some(data) => listed_domains(data@),
        None => Set::empty(),
    }
}

/// One more source adds its own domains and nothing else, whatever came
/// before it (a failed source does not stop the ones after it), and counts
/// as loaded exactly when it was fetched.
pub proof fn lemma_fetched_push(sources: Seq<Option<String>>, source: Option<String>)
    ensures
        fetched_domains(sources.push(source)) == fetched_domains(sources).union(
            source_domains(source),
        ),
        loaded_count(sources.push(source)) == loaded_count(sources) + if source is Some {
            1nat
        } else {
            0nat
        },
{
    assert(sources.push(source).drop_last() =~= sources);
}

/// A domain is blocked after merging exactly when one of the fetched lists
/// names it.
pub proof fn lemma_fetched_domains_members(sources: Seq<Option<String>>, n: Seq<char>)
    ensures
        fetched_domains(sources).contains(n) <==> exists|i: int|
            0 <= i < sources.len() && (#[trigger] sources[i] matches Some(data)
                && listed_domains(data@).contains(n)),
    decreases sources.len(),
{
    if sources.len() > 0 {
        let init = sources.drop_last();
        lemma_fetched_domains_members(init, n);
        if exists|i: int|
            0 <= i < init.len() && (#[trigger] init[i] matches Some(data) && listed_domains(
                data@,
            ).contains(n)) {
            let i = choose|i: int|
                0 <= i < init.len() && (#[trigger] init[i] matches Some(data) && listed_domains(
                    data@,
                ).contains(n));
            assert(sources[i] == init[i]);
        }
        if exists|i: int|
            0 <= i < sources.len() && (#[trigger] sources[i] matches Some(data)
                && listed_domains(data@).contains(n)) {
            let i = choose|i: int|
                0 <= i < sources.len() && (#[trigger] sources[i] matches Some(data)
                    && listed_domains(data@).contains(n));
            if i < sources.len() - 1 {
                assert(init[i] == sources[i]);
            }
        }
    }
}

/// The count of loaded lists is the number of sources that were fetched.
pub proof fn lemma_loaded_count(sources: Seq<Option<String>>)
    ensures
        loaded_count(sources) == sources.filter(|o: Option<String>| o is Some).len(),
    decreases sources.len(),
{
    reveal(Seq::filter);
    if sources.len() > 0 {
        lemma_loaded_count(sources.drop_last());
    }
}

/// A blank text names no domain.
pub proof fn lemma_listed_empty()
    ensures
        listed_domains(Seq::<char>::empty()) == Set::<Seq<char>>::empty(),
{
    lemma_listed_single_line(Seq::<char>::empty());
    assert(entry_set(Seq::<char>::empty()) =~= Set::<Seq<char>>::empty());
}

/// Appending one list and a line break to text that is empty or ends with a
/// line break adds exactly that list's domains.
proof fn lemma_listed_append(text: Seq<char>, data: Seq<char>)
    requires
        text.len() == 0 || text.last() == '\n',
    ensures
        listed_domains(text + data + seq!['\n']) == listed_domains(text).union(
            listed_domains(data),
        ),
{
    lemma_listed_empty();
    lemma_listed_concat(data, Seq::<char>::empty());
    assert(data + seq!['\n'] + Seq::<char>::empty() =~= data + seq!['\n']);
    if text.len() == 0 {
        assert(text + data + seq!['\n'] =~= data + seq!['\n']);
        assert(listed_domains(text + data + seq!['\n']) =~= listed_domains(text).union(
            listed_domains(data),
        ));
    } else {
        let head = text.drop_last();
        assert(text =~= head + seq!['\n'] + Seq::<char>::empty());
        assert(text + data + seq!['\n'] =~= head + seq!['\n'] + (data + seq!['\n']));
        lemma_listed_concat(head, data + seq!['\n']);
        lemma_listed_concat(head, Seq::<char>::empty());
        assert(listed_domains(text + data + seq!['\n']) =~= listed_domains(text).union(
            listed_domains(data),
        ));
    }
}

/// A blocklist: the set of domains it blocks, matched exactly.
pub struct Blocklist {
    domains: AHashSet<DomainName>,
}

impl View for Blocklist {
    type V = Set<Seq<char>>;

    closed spec fn view(&self) -> Set<Seq<char>> {
        held_names(self.domains)
    }
}

impl Blocklist {
    #[verifier::type_invariant]
    closed spec fn inv(self) -> bool {
        forall|n: Seq<char>| held_names(self.domains).contains(n) ==> is_domain(n)
    }

    /// The domain that `line` names, if any (see `line_entry`).
    pub fn parse_line(line: &str) -> (r: Option<DomainName>)
        ensures
            match r {
                Some(n) => line_entry(line@) == Some(n@),
                None => line_entry(line@) is None,
            },
            r matches Some(n) ==> is_domain(n@),
    {
        let v = chars_of(line);
        let n = v.len();
        let mut lo: usize = 0;
        while lo < n && char_is_whitespace(v[lo])
            invariant
                n == v@.len(),
                lo <= n,
                skip_white_space(v@, lo as int) == skip_white_space(v@, 0),
            decreases n - lo,
        {
            lo = lo + 1;
        }
        let mut hi: usize = n;
        while hi > lo && char_is_whitespace(v[hi - 1])
            invariant
                n == v@.len(),
                lo <= hi <= n,
                trim_end_index(v@, hi as int, lo as int) == trim_end_index(
                    v@,
                    n as int,
                    lo as int,
                ),
            decreases hi - lo,
        {
            hi = hi - 1;
        }
        if lo >= hi || v[lo] == '#' {
            return None;
        }
        let mut start: usize = hi;
        while start > lo && !char_is_whitespace(v[start - 1])
            invariant
                n == v@.len(),
                lo <= start <= hi <= n,
                field_start(v@, start as int, lo as int) == field_start(
                    v@,
                    hi as int,
                    lo as int,
                ),
            decreases start - lo,
        {
            start = start - 1;
        }
        if chars_equal(&v, start, hi, "localhost") || chars_equal(&v, start, hi, "broadcasthost") {
            return None;
        }
        let field = line.substring_char(start, hi);
        match DomainName::try_from(field) {
            Ok(d) => Some(d),
            Err(_) => None,
        }
    }

    /// Builds the blocklist from the text of one or more lists: every line
    /// that names a domain adds it (see `line_entry`).
    pub fn parse_list(raw_data: &str) -> (bl: Blocklist)
        ensures
            bl@ == listed_domains(raw_data@),
            forall|n: Seq<char>| bl@.contains(n) ==> is_domain(n),
    {
        // Presize the set from the number of line breaks.
        let bytes = raw_data.as_bytes();
        let mut lines_count: usize = 0;
        let mut i: usize = 0;
        while i < bytes.len()
            invariant
                i <= bytes@.len(),
                lines_count <= i,
            decreases bytes@.len() - i,
        {
            if bytes[i] == 0x0a {
                lines_count = lines_count + 1;
            }
            i = i + 1;
        }
        let capacity = if lines_count < PRESIZE_LIMIT {
            lines_count
        } else {
            PRESIZE_LIMIT
        };
        let mut domains = names_with_capacity(capacity);
        let mut rest: &str = raw_data;
        loop
            invariant
                listed_domains(raw_data@) == held_names(domains).union(listed_domains(rest@)),
                forall|n: Seq<char>| held_names(domains).contains(n) ==> is_domain(n),
            ensures
                held_names(domains) == listed_domains(raw_data@),
                forall|n: Seq<char>| held_names(domains).contains(n) ==> is_domain(n),
            decreases rest@.len(),
        {
            match str_split_once(rest, '\n') {
                Some((line, tail)) => {
                    proof {
                        lemma_listed_first_line(line@, tail@);
                    }
                    let ghost before = held_names(domains);
                    match Self::parse_line(line) {
                        Some(d) => {
                            names_insert(&mut domains, d);
                        },
                        None => {},
                    }
                    assert(held_names(domains) == before.union(entry_set(line@)));
                    rest = tail;
                    assert(listed_domains(raw_data@) =~= held_names(domains).union(
                        listed_domains(rest@),
                    ));
                },
                None => {
                    proof {
                        lemma_listed_single_line(rest@);
                    }
                    let ghost before = held_names(domains);
                    match Self::parse_line(rest) {
                        Some(d) => {
                            names_insert(&mut domains, d);
                        },
                        None => {},
                    }
                    assert(held_names(domains) =~= listed_domains(raw_data@));
                    break ;
                },
            }
        }
        names_shrink_to_fit(&mut domains);
        Blocklist { domains }
    }

    /// Whether `domain` is one of the blocked names; only an exact match counts.
    pub fn is_blocked(&self, domain: DomainRef<'_>) -> (b: bool)
        ensures
            b == self@.contains(domain@),
    {
        names_contain(&self.domains, domain.as_str())
    }

    /// Builds the blocklist from the lists that were fetched, in order, each
    /// followed by a line break; a source that failed is skipped. Also gives
    /// how many lists were loaded.
    pub fn from_fetched(sources: &Vec<Option<String>>) -> (r: (Blocklist, usize))
        ensures
            r.0@ == fetched_domains(sources@),
            r.1 == loaded_count(sources@),
            forall|n: Seq<char>| r.0@.contains(n) ==> is_domain(n),
    {
        let mut combined = String::new();
        let mut loaded: usize = 0;
        let ghost srcs = sources@;
        proof {
            lemma_listed_empty();
            assert(srcs.take(0) =~= Seq::<Option<String>>::empty());
        }
        for i in 0..sources.len()
            invariant
                srcs == sources@,
                combined@.len() == 0 || combined@.last() == '\n',
                listed_domains(combined@) == fetched_domains(srcs.take(i as int)),
                loaded == loaded_count(srcs.take(i as int)),
                loaded <= i,
        {
            assert(srcs.take(i + 1).drop_last() =~= srcs.take(i as int));
            let ghost before = combined@;
            match &sources[i] {
                Some(data) => {
                    combined.append(data.as_str());
                    proof {
                        reveal_strlit("\n");
                    }
                    combined.append("\n");
                    proof {
                        assert(combined@ =~= before + data@ + seq!['\n']);
                        lemma_listed_append(before, data@);
                    }
                    loaded = loaded + 1;
                },
                None => {},
            }
        }
        assert(srcs.take(sources.len() as int) =~= srcs);
        let bl = Self::parse_list(combined.as_str());
        (bl, loaded)
    }
}

} // verus!
