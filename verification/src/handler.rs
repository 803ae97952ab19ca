use vstd::prelude::*;
use vstd::string::StrSliceExecFns;
use crate::blocklist::Blocklist;
use crate::domain::{DomainRef, is_domain, lemma_domain_no_trailing_dot};
use crate::text::chars_of;

verus! {

broadcast use vstd::string::group_string_axioms;

/// `s` with every trailing `.` removed (a query name arrives fully
/// qualified, as `example.com.`).
pub open spec fn without_trailing_dots(s: Seq<char>) -> Seq<char>
    decreases s.len(),
{
    if s.len() > 0 && s.last() == '.' {
        without_trailing_dots(s.drop_last())
    } else {
        s
    }
}

/// Whether a query for `name` is blocked by a blocklist that holds `list`:
/// the name, without its trailing dots, is a valid lower-case domain that the
/// list holds.
pub open spec fn blocks_query(list: Set<Seq<char>>, name: Seq<char>) -> bool {
    let d = without_trailing_dots(name);
    is_domain(d) && list.contains(d)
}

/// A listed domain is blocked whether the query names it bare or fully
/// qualified (with its trailing dot).
pub proof fn lemma_listed_domain_blocked(list: Set<Seq<char>>, name: Seq<char>)
    requires
        list.contains(name),
        is_domain(name),
    ensures
        blocks_query(list, name),
        blocks_query(list, name + seq!['.']),
{
    lemma_domain_no_trailing_dot(name);
    assert((name + seq!['.']).drop_last() =~= name);
    assert(without_trailing_dots(name) == name);
}

/// A name the list does not hold is never blocked.
pub proof fn lemma_unlisted_not_blocked(list: Set<Seq<char>>, name: Seq<char>)
    requires
        !list.contains(without_trailing_dots(name)),
    ensures
        !blocks_query(list, name),
{
}

/// Removes the trailing dots of `s`.
pub fn trim_trailing_dots(s: &str) -> (r: &str)
    ensures
        r@ == without_trailing_dots(s@),
{
    let v = chars_of(s);
    let mut end: usize = v.len();
    assert(v@.take(end as int) =~= v@);
    while end > 0 && v[end - 1] == '.'
        invariant
            end <= v@.len(),
            v@ == s@,
            without_trailing_dots(v@.take(end as int)) == without_trailing_dots(v@),
        decreases end,
    {
        assert(v@.take(end - 1) =~= v@.take(end as int).drop_last());
        end = end - 1;
    }
    s.substring_char(0, end)
}

/// Whether the query for `name` is to be answered as blocked.
pub fn is_query_blocked(blocklist: &Blocklist, name: &str) -> (b: bool)
    ensures
        b == blocks_query(blocklist@, name@),
{
    let domain = trim_trailing_dots(name);
    match DomainRef::parse(domain) {
        Ok(d) => blocklist.is_blocked(d),
        Err(_) => false,
    }
}

/// The answer the server sends.
#[derive(Debug, Clone, Copy, PartialEq, Eq, Structural)]
pub enum Reply {
    /// The request could not be read (FORMERR).
    FormErr,
    /// The name does not exist: a blocked name, or one the upstream could not
    /// resolve (NXDOMAIN).
    NxDomain,
    /// The upstream's answers, relayed.
    Answer,
    /// The response could not be sent (SERVFAIL).
    ServFail,
}

/// What the server does next.
#[derive(Debug, Clone, Copy, PartialEq, Eq, Structural)]
pub enum Action {
    Respond(Reply),
    /// Ask the upstream resolvers.
    Forward,
}

/// What happened last while serving one request.
#[derive(Debug, Clone, Copy, PartialEq, Eq)]
pub enum Event<'a> {
    /// A request arrived: its query name, or `None` where it could not be read.
    Request(Option<&'a str>),
    /// The upstream lookup ended: `true` where it gave answers.
    Upstream(bool),
    /// Sending the response failed.
    SendFailed,
}

/// The action that `event` calls for.
pub open spec fn next_action(list: Set<Seq<char>>, event: Event) -> Action {
    match event {
        Event::Request(None) => Action::Respond(Reply::FormErr),
        Event::Request(Some(name)) => if blocks_query(list, name@) {
            Action::Respond(Reply::NxDomain)
        } else {
            Action::Forward
        },
        Event::Upstream(true) => Action::Respond(Reply::Answer),
        Event::Upstream(false) => Action::Respond(Reply::NxDomain),
        Event::SendFailed => Action::Respond(Reply::ServFail),
    }
}

/// How requests are routed: a query is answered NXDOMAIN exactly when the
/// list blocks its name, and forwarded otherwise; an unreadable request gets
/// FORMERR, an upstream answer is relayed, a failed lookup gets NXDOMAIN and
/// a failed send SERVFAIL.
pub proof fn lemma_routing(list: Set<Seq<char>>, name: &str, answered: bool)
    ensures
        next_action(list, Event::Request(Some(name))) == Action::Respond(Reply::NxDomain)
            <==> blocks_query(list, name@),
        next_action(list, Event::Request(Some(name))) == Action::Forward <==> !blocks_query(
            list,
            name@,
        ),
        next_action(list, Event::Request(None)) == Action::Respond(Reply::FormErr),
        next_action(list, Event::Upstream(answered)) == Action::Respond(
            if answered {
                Reply::Answer
            } else {
                Reply::NxDomain
            },
        ),
        next_action(list, Event::SendFailed) == Action::Respond(Reply::ServFail),
{
}

/// Every listed domain is answered NXDOMAIN, whether the query names it bare
/// or fully qualified; a name whose dot-trimmed form is not listed is
/// forwarded.
pub proof fn lemma_listed_names_answered_nxdomain(list: Set<Seq<char>>, d: Seq<char>, name: &str)
    ensures
        list.contains(d) && is_domain(d) && (name@ == d || name@ == d + seq!['.'])
            ==> next_action(list, Event::Request(Some(name))) == Action::Respond(Reply::NxDomain),
        !list.contains(without_trailing_dots(name@)) ==> next_action(
            list,
            Event::Request(Some(name)),
        ) == Action::Forward,
{
    if list.contains(d) && is_domain(d) {
        lemma_listed_domain_blocked(list, d);
    }
}

/// Routes a request: a blocked name is answered NXDOMAIN at once (rather
/// than with a fake address, which would leave clients waiting on a
/// connection), a clean one is forwarded, and a failed lookup is answered
/// NXDOMAIN as well.
pub fn decide(blocklist: &Blocklist, event: Event) -> (a: Action)
    ensures
        a == next_action(blocklist@, event),
{
    match event {
        Event::Request(None) => Action::Respond(Reply::FormErr),
        Event::Request(Some(name)) => {
            if is_query_blocked(blocklist, name) {
                Action::Respond(Reply::NxDomain)
            } else {
                Action::Forward
            }
        },
        Event::Upstream(answered) => {
            if answered {
                Action::Respond(Reply::Answer)
            } else {
                Action::Respond(Reply::NxDomain)
            }
        },
        Event::SendFailed => Action::Respond(Reply::ServFail),
    }
}

} // verus!
