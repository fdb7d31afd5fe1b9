//! The cross-origin policy: permissive when the configured origins hold the
//! wildcard `*`, otherwise an allow-list of the well-formed origins.
use vstd::prelude::*;
use crate::config::strings_view;

verus! {

/// A text that an HTTP header value may hold: every byte of it is a tab or at
/// least 32 and not 127. A character beyond ASCII is encoded in bytes of 128
/// and more, so the test goes character by character.
pub open spec fn header_value_ok(s: Seq<char>) -> bool {
    forall|i: int|
        0 <= i < s.len() ==> {
            let u = (#[trigger] s[i]) as u32;
            (u >= 32 && u != 127) || u == 9
        }
}

/// Relies on axum::http::HeaderValue::from_str: it accepts a text exactly when
/// every byte is a tab, or is at least 32 and not 127.
#[verifier::external_body]
fn is_header_value(s: &str) -> (r: bool)
    ensures
        r == header_value_ok(s@),
{
    axum::http::HeaderValue::from_str(s).is_ok()
}

pub open spec fn is_wildcard(o: Seq<char>) -> bool {
    o == "*"@
}

pub open spec fn has_wildcard(origins: Seq<Seq<char>>) -> bool {
    exists|i: int| 0 <= i < origins.len() && is_wildcard(#[trigger] origins[i])
}

/// The entries of `origins` that a header value can hold, in order.
pub open spec fn usable_origins(origins: Seq<Seq<char>>) -> Seq<Seq<char>>
    decreases origins.len(),
{
    if origins.len() == 0 {
        Seq::empty()
    } else {
        let rest = usable_origins(origins.drop_last());
        if header_value_ok(origins.last()) {
            rest.push(origins.last())
        } else {
            rest
        }
    }
}

/// The entries of `origins` that a header value cannot hold, in order.
pub open spec fn unusable_origins(origins: Seq<Seq<char>>) -> Seq<Seq<char>>
    decreases origins.len(),
{
    if origins.len() == 0 {
        Seq::empty()
    } else {
        let rest = unusable_origins(origins.drop_last());
        if header_value_ok(origins.last()) {
            rest
        } else {
            rest.push(origins.last())
        }
    }
}

/// Which cross-origin requests are granted.
#[derive(Clone, Debug)]
pub enum CorsPolicy {
    /// Any origin.
    Permissive,
    /// The origins listed, exactly.
    AllowList(Vec<String>),
}

/// A policy together with the configured origins that were dropped from it
/// because no header value can hold them.
#[derive(Clone, Debug)]
pub struct CorsPlan {
    pub policy: CorsPolicy,
    pub ignored: Vec<String>,
}

/// Whether one of `origins` is the wildcard `*`.
fn wildcard_present(origins: &Vec<String>) -> (r: bool)
    ensures
        r == has_wildcard(strings_view(origins@)),
{
    let star = String::from_str("*");
    let mut i: usize = 0;
    while i < origins.len()
        invariant
            i <= origins@.len(),
            star@ == "*"@,
            forall|j: int| 0 <= j < i ==> !is_wildcard(#[trigger] strings_view(origins@)[j]),
        decreases origins@.len() - i,
    {
        if origins[i] == star {
            assert(is_wildcard(strings_view(origins@)[i as int]));
            return true;
        }
        i = i + 1;
    }
    false
}

/// The cross-origin policy for the configured origins: permissive where one of
/// them is `*`; otherwise the origins that a header value can hold, with the
/// others reported as ignored.
pub fn make_cors_policy(origins: &Vec<String>) -> (r: CorsPlan)
    ensures
        has_wildcard(strings_view(origins@)) ==> r.policy is Permissive && r.ignored@.len() == 0,
        !has_wildcard(strings_view(origins@)) ==> (r.policy matches CorsPolicy::AllowList(l)
            && strings_view(l@) == usable_origins(strings_view(origins@)) && strings_view(
            r.ignored@,
        ) == unusable_origins(strings_view(origins@))),
{
    if wildcard_present(origins) {
        return CorsPlan { policy: CorsPolicy::Permissive, ignored: Vec::new() };
    }
    let mut allowed: Vec<String> = Vec::new();
    let mut ignored: Vec<String> = Vec::new();
    let mut i: usize = 0;
    while i < origins.len()
        invariant
            i <= origins@.len(),
            strings_view(allowed@) == usable_origins(strings_view(origins@).subrange(0, i as int)),
            strings_view(ignored@) == unusable_origins(
                strings_view(origins@).subrange(0, i as int),
            ),
        decreases origins@.len() - i,
    {
        let ghost pre = strings_view(origins@).subrange(0, i as int);
        let ghost next = strings_view(origins@).subrange(0, i + 1);
        assert(next.drop_last() =~= pre);
        let o = origins[i].clone();
        if is_header_value(o.as_str()) {
            allowed.push(o);
            assert(strings_view(allowed@) =~= usable_origins(next));
        } else {
            ignored.push(o);
            assert(strings_view(ignored@) =~= unusable_origins(next));
        }
        i = i + 1;
    }
    assert(strings_view(origins@).subrange(0, origins@.len() as int) =~= strings_view(origins@));
    CorsPlan { policy: CorsPolicy::AllowList(allowed), ignored }
}

/// Whether `policy` grants a request from `origin` the allow-origin header.
pub open spec fn grants(policy: CorsPolicy, origin: Seq<char>) -> bool {
    match policy {
        CorsPolicy::Permissive => true,
        CorsPolicy::AllowList(l) => strings_view(l@).contains(origin),
    }
}

/// Whether a request from `origin` is granted the allow-origin header.
pub fn origin_allowed(policy: &CorsPolicy, origin: &str) -> (r: bool)
    ensures
        r == grants(*policy, origin@),
{
    match policy {
        CorsPolicy::Permissive => true,
        CorsPolicy::AllowList(l) => list_contains(l, origin),
    }
}

fn list_contains(l: &Vec<String>, origin: &str) -> (r: bool)
    ensures
        r == strings_view(l@).contains(origin@),
{
    let o = origin.to_owned();
    let mut i: usize = 0;
    while i < l.len()
        invariant
            i <= l@.len(),
            o@ == origin@,
            forall|j: int| 0 <= j < i ==> strings_view(l@)[j] != origin@,
        decreases l@.len() - i,
    {
        if l[i] == o {
            assert(strings_view(l@)[i as int] == origin@);
            return true;
        }
        i = i + 1;
    }
    assert(!strings_view(l@).contains(origin@));
    false
}

/// Under a policy built from configured origins, the wildcard grants every
/// origin, and otherwise an origin is granted exactly when it was configured
/// and a header value can hold it.
pub proof fn law_policy_grants(origins: Seq<String>, plan: CorsPlan, origin: Seq<char>)
    requires
        has_wildcard(strings_view(origins)) ==> plan.policy is Permissive,
        !has_wildcard(strings_view(origins)) ==> (plan.policy matches CorsPolicy::AllowList(l)
            && strings_view(l@) == usable_origins(strings_view(origins))),
    ensures
        has_wildcard(strings_view(origins)) ==> grants(plan.policy, origin),
        !has_wildcard(strings_view(origins)) ==> (grants(plan.policy, origin) <==> (strings_view(
            origins,
        ).contains(origin) && header_value_ok(origin))),
{
    if !has_wildcard(strings_view(origins)) {
        lemma_usable_members(strings_view(origins), origin);
    }
}

proof fn lemma_usable_members(origins: Seq<Seq<char>>, o: Seq<char>)
    ensures
        usable_origins(origins).contains(o) <==> (origins.contains(o) && header_value_ok(o)),
    decreases origins.len(),
{
    if origins.len() > 0 {
        let init = origins.drop_last();
        lemma_usable_members(init, o);
        assert(origins =~= init.push(origins.last()));
        if origins.contains(o) && header_value_ok(o) {
            let k = choose|k: int| 0 <= k < origins.len() && origins[k] == o;
            if k < origins.len() - 1 {
                assert(init[k] == o);
            }
        }
        if init.contains(o) {
            let k = choose|k: int| 0 <= k < init.len() && init[k] == o;
            assert(origins[k] == o);
        }
        let rest = usable_origins(init);
        if usable_origins(origins).contains(o) && header_value_ok(origins.last()) {
            let k = choose|k: int| 0 <= k < rest.len() + 1 && rest.push(origins.last())[k] == o;
            if k < rest.len() {
                assert(rest[k] == o);
            }
        }
        if rest.contains(o) && header_value_ok(origins.last()) {
            let k = choose|k: int| 0 <= k < rest.len() && rest[k] == o;
            assert(rest.push(origins.last())[k] == o);
        }
        if header_value_ok(origins.last()) && o == origins.last() {
            assert(rest.push(origins.last())[rest.len() as int] == o);
        }
    }
}

} // verus!
