//! Route policies: reading them from either of the two accepted text
//! formats (a simple DSL and a Juniper-style `policy-statement`), and
//! applying them to BGP routes.

use vstd::prelude::*;

use crate::models::{
    AttrsView, BgpRoute, RouteView, opt_string_view, set_actions_view, strings_view, MatchConditions, MatchView, PolicyAction,
    PolicySetAction, PolicyTerm, PolicyView, RoutePolicy, SetActionView, TermView,
};
use crate::text::{
    contains_chars, contains_seq, has_prefix_chars, has_suffix_chars, join_decimal, join_decimal_string, replace_char, replace_chars,
    chars_eq_str, contains_char, copy_range, ends_with, find_char, find_from, has_prefix,
    has_suffix, lemma_find_from_bounds, parse_u32, parse_u32_chars, push_chars, seqs_of,
    split_trimmed_lines, split_whitespace, split_ws, starts_with, str_chars, string_from,
    string_of, strip_prefix, strip_prefix_chars, strip_suffix, strip_suffix_chars, trim,
    trim_chars, trim_end_matches, trim_end_matches_chars, trim_matches, trim_matches_chars,
    trimmed_lines,
};

verus! {

// ===========================================================================
// Applying a policy to a route
// ===========================================================================

/// The AS path as text: the AS numbers in decimal, separated by spaces.
pub open spec fn as_path_text(p: Seq<u32>) -> Seq<char> {
    join_decimal(p)
}

/// The simplified AS-path pattern match: `^X` matches paths whose text
/// starts with X, `X$` paths whose text ends with X, any other pattern
/// paths whose text contains it; in each case `_` stands for a space.
pub open spec fn as_path_matches(pattern: Seq<char>, text: Seq<char>) -> bool {
    if starts_with(pattern, "^"@) {
        starts_with(text, replace_char(pattern.skip(1), '_', ' '))
    } else if ends_with(pattern, "$"@) {
        ends_with(text, replace_char(pattern.take(pattern.len() - 1), '_', ' '))
    } else {
        contains_seq(text, replace_char(pattern, '_', ' '))
    }
}

/// Whether a route meets every condition that a term states (a term that
/// states none matches every route).
pub open spec fn matches_spec(mc: MatchView, route: RouteView) -> bool {
    &&& (mc.prefix_list matches Some(l) ==> l.contains(route.prefix))
    &&& (mc.community matches Some(c) ==> route.attributes.communities.contains(c))
    &&& (mc.as_path_regex matches Some(r) ==> as_path_matches(
        r,
        as_path_text(route.attributes.as_path),
    ))
}

/// `s` without any element equal to `c`, order kept.
pub open spec fn remove_all(s: Seq<Seq<char>>, c: Seq<char>) -> Seq<Seq<char>>
    decreases s.len(),
{
    if s.len() == 0 {
        s
    } else if s.last() == c {
        remove_all(s.drop_last(), c)
    } else {
        remove_all(s.drop_last(), c).push(s.last())
    }
}

pub open spec fn with_attrs(route: RouteView, a: AttrsView) -> RouteView {
    RouteView {
        prefix: route.prefix,
        attributes: a,
        received_from: route.received_from,
        is_best: route.is_best,
    }
}

/// The effect of one set action on a route.
pub open spec fn set_action_spec(action: SetActionView, route: RouteView) -> RouteView {
    let a = route.attributes;
    with_attrs(
        route,
        match action {
            SetActionView::SetLocalPref(v) => AttrsView { local_pref: v, ..a },
            SetActionView::SetMed(v) => AttrsView { med: v, ..a },
            SetActionView::PrependAsPath { asn, count } => AttrsView {
                as_path: Seq::new(count as nat, |i: int| asn) + a.as_path,
                ..a
            },
            SetActionView::AddCommunity(c) => AttrsView {
                communities: if a.communities.contains(c) {
                    a.communities
                } else {
                    a.communities.push(c)
                },
                ..a
            },
            SetActionView::RemoveCommunity(c) => AttrsView {
                communities: remove_all(a.communities, c),
                ..a
            },
        },
    )
}

/// The effect of the first `n` set actions, applied in order.
pub open spec fn set_actions_spec(actions: Seq<SetActionView>, n: int, route: RouteView) -> RouteView
    decreases n,
{
    if n <= 0 {
        route
    } else {
        set_action_spec(actions[n - 1], set_actions_spec(actions, n - 1, route))
    }
}

/// Index of the first term from `i` on whose conditions the route meets,
/// or the number of terms.
pub open spec fn first_matching_term(terms: Seq<TermView>, route: RouteView, i: int) -> int
    decreases terms.len() - i,
{
    if i < 0 || i >= terms.len() {
        terms.len() as int
    } else if matches_spec(terms[i].match_conditions, route) {
        i
    } else {
        first_matching_term(terms, route, i + 1)
    }
}

/// A policy's verdict on a route and the route as the policy leaves it:
/// the first term whose conditions the route meets applies its set
/// actions in order and gives its terminal action; when no term matches,
/// the route is unchanged and the default action is given.
pub open spec fn apply_policy_spec(policy: PolicyView, route: RouteView) -> (PolicyAction, RouteView) {
    let k = first_matching_term(policy.terms, route, 0);
    if k < policy.terms.len() {
        let t = policy.terms[k];
        (t.terminal_action, set_actions_spec(t.actions, t.actions.len() as int, route))
    } else {
        (policy.default_action, route)
    }
}

fn string_in(list: &Vec<String>, s: &String) -> (r: bool)
    ensures
        r == strings_view(list@).contains(s@),
{
    let mut i: usize = 0;
    while i < list.len()
        invariant
            i <= list@.len(),
            forall|j: int| 0 <= j < i ==> list@[j]@ != s@,
        decreases list@.len() - i,
    {
        if list[i] == *s {
            proof {
                assert(strings_view(list@)[i as int] == s@);
            }
            return true;
        }
        i += 1;
    }
    proof {
        if strings_view(list@).contains(s@) {
            let j = choose|j: int| 0 <= j < strings_view(list@).len() && strings_view(list@)[j] == s@;
            assert(list@[j]@ == s@);
        }
    }
    false
}

fn as_path_matches_exec(pattern: &String, path: &Vec<u32>) -> (r: bool)
    ensures
        r == as_path_matches(pattern@, as_path_text(path@)),
{
    let text = join_decimal_string(path.as_slice());
    let text = str_chars(text.as_str());
    let pat = str_chars(pattern.as_str());
    if has_prefix(pat.as_slice(), "^") {
        let rest = after_prefix(pat.as_slice(), "^");
        proof {
            reveal_strlit("^");
        }
        let want = replace_chars(rest.as_slice(), '_', ' ');
        has_prefix_chars(text.as_slice(), want.as_slice())
    } else if has_suffix(pat.as_slice(), "$") {
        proof {
            reveal_strlit("$");
        }
        let body = copy_range(pat.as_slice(), 0, pat.len() - 1);
        let want = replace_chars(body.as_slice(), '_', ' ');
        has_suffix_chars(text.as_slice(), want.as_slice())
    } else {
        let want = replace_chars(pat.as_slice(), '_', ' ');
        contains_chars(text.as_slice(), want.as_slice())
    }
}

/// Whether `route` meets the conditions `mc`.
fn matches_conditions(mc: &MatchConditions, route: &BgpRoute) -> (r: bool)
    ensures
        r == matches_spec(mc@, route@),
{
    match &mc.prefix_list {
        Some(prefixes) => {
            if !string_in(prefixes, &route.prefix) {
                return false;
            }
        },
        None => {},
    }
    match &mc.community {
        Some(c) => {
            if !string_in(&route.attributes.communities, c) {
                return false;
            }
        },
        None => {},
    }
    match &mc.as_path_regex {
        Some(pattern) => {
            if !as_path_matches_exec(pattern, &route.attributes.as_path) {
                return false;
            }
        },
        None => {},
    }
    true
}

fn remove_community(list: &Vec<String>, c: &String) -> (r: Vec<String>)
    ensures
        strings_view(r@) == remove_all(strings_view(list@), c@),
{
    let mut out: Vec<String> = Vec::new();
    let mut i: usize = 0;
    while i < list.len()
        invariant
            i <= list@.len(),
            strings_view(out@) == remove_all(strings_view(list@.take(i as int)), c@),
        decreases list@.len() - i,
    {
        let ghost before = out@;
        proof {
            assert(list@.take(i + 1) =~= list@.take(i as int).push(list@[i as int]));
            assert(strings_view(list@.take(i + 1)).drop_last() =~= strings_view(
                list@.take(i as int),
            ));
        }
        if list[i] != *c {
            out.push(list[i].clone());
            proof {
                assert(strings_view(out@) =~= strings_view(before).push(list@[i as int]@));
            }
        }
        i += 1;
    }
    proof {
        assert(list@.take(list@.len() as int) =~= list@);
    }
    out
}

/// Applies one set action to a route.
fn apply_set_action(action: &PolicySetAction, route: &mut BgpRoute)
    ensures
        final(route)@ == set_action_spec(action@, old(route)@),
{
    match action {
        PolicySetAction::SetLocalPref(v) => {
            route.attributes.local_pref = *v;
        },
        PolicySetAction::SetMed(v) => {
            route.attributes.med = *v;
        },
        PolicySetAction::PrependAsPath { asn, count } => {
            let ghost p0 = route.attributes.as_path@;
            let mut k: u32 = 0;
            while k < *count
                invariant
                    k <= *count,
                    route.attributes.as_path@ == Seq::new(k as nat, |i: int| *asn) + p0,
                    route@.prefix == old(route)@.prefix,
                    route@.received_from == old(route)@.received_from,
                    route@.is_best == old(route)@.is_best,
                    route@.attributes == (AttrsView {
                        as_path: route.attributes.as_path@,
                        ..old(route)@.attributes
                    }),
                decreases *count - k,
            {
                let ghost before = route.attributes.as_path@;
                route.attributes.as_path.insert(0, *asn);
                k += 1;
                proof {
                    assert(route.attributes.as_path@ =~= Seq::new(k as nat, |i: int| *asn) + p0);
                }
            }
        },
        PolicySetAction::AddCommunity(c) => {
            if !string_in(&route.attributes.communities, c) {
                let ghost before = route.attributes.communities@;
                route.attributes.communities.push(c.clone());
                proof {
                    assert(strings_view(route.attributes.communities@) =~= strings_view(before).push(
                        c@,
                    ));
                }
            }
        },
        PolicySetAction::RemoveCommunity(c) => {
            let kept = remove_community(&route.attributes.communities, c);
            route.attributes.communities = kept;
        },
    }
}

/// Applies `policy` to `route`: the first term whose conditions the route
/// meets applies its set actions, in order, and gives its terminal action;
/// when no term matches, the route is left as it is and the policy's
/// default action is given.
pub fn apply_policy(policy: &RoutePolicy, route: &mut BgpRoute) -> (r: PolicyAction)
    ensures
        (r, final(route)@) == apply_policy_spec(policy@, old(route)@),
{
    let ghost pv = policy@;
    let ghost r0 = route@;
    let mut i: usize = 0;
    while i < policy.terms.len()
        invariant
            pv == policy@,
            route@ == r0,
            old(route)@ == r0,
            i <= policy.terms@.len(),
            first_matching_term(pv.terms, r0, i as int) == first_matching_term(pv.terms, r0, 0),
        decreases policy.terms@.len() - i,
    {
        let term = &policy.terms[i];
        if matches_conditions(&term.match_conditions, route) {
            proof {
                assert(pv.terms[i as int] == term@);
                assert(first_matching_term(pv.terms, r0, i as int) == i);
            }
            let mut j: usize = 0;
            while j < term.actions.len()
                invariant
                    pv == policy@,
                    first_matching_term(pv.terms, r0, 0) == i,
                    old(route)@ == r0,
                    pv.terms[i as int] == term@,
                    i < policy.terms@.len(),
                    term == policy.terms@[i as int],
                    j <= term.actions@.len(),
                    route@ == set_actions_spec(pv.terms[i as int].actions, j as int, r0),
                decreases term.actions@.len() - j,
            {
                apply_set_action(&term.actions[j], route);
                j += 1;
            }
            proof {
                let k = first_matching_term(pv.terms, r0, 0);
                assert(pv.terms[k].actions.len() == term.actions@.len());
            }
            return term.terminal_action;
        }
        i += 1;
    }
    policy.default_action
}

// ===========================================================================
// The grammar, as spec functions over trimmed lines
// ===========================================================================

/// The text between the first two double quotes of `s`.
pub open spec fn extract_quoted_spec(s: Seq<char>) -> Option<Seq<char>> {
    let a = find_from(s, '"', 0);
    if a >= s.len() {
        None
    } else {
        let b = find_from(s, '"', a + 1);
        if b >= s.len() {
            None
        } else {
            Some(s.subrange(a + 1, b))
        }
    }
}

pub open spec fn quoted_or_empty(s: Seq<char>) -> Seq<char> {
    match extract_quoted_spec(s) {
        Some(q) => q,
        None => Seq::empty(),
    }
}

/// `accept` or `reject` (surrounding whitespace ignored).
pub open spec fn action_keyword(s: Seq<char>) -> Result<PolicyAction, Seq<char>> {
    let t = trim(s);
    if t == "accept"@ {
        Ok(PolicyAction::Accept)
    } else if t == "reject"@ {
        Ok(PolicyAction::Reject)
    } else {
        Err("Unknown action: "@ + t)
    }
}

/// What a term has gathered so far while its lines are read.
pub struct TermAcc {
    pub mc: MatchView,
    pub actions: Seq<SetActionView>,
    pub terminal: PolicyAction,
}

pub open spec fn empty_match() -> MatchView {
    MatchView { prefix_list: None, as_path_regex: None, community: None }
}

pub open spec fn empty_acc() -> TermAcc {
    TermAcc { mc: empty_match(), actions: Seq::empty(), terminal: PolicyAction::Accept }
}

pub open spec fn with_community(mc: MatchView, c: Seq<char>) -> MatchView {
    MatchView { prefix_list: mc.prefix_list, as_path_regex: mc.as_path_regex, community: Some(c) }
}

pub open spec fn with_as_path(mc: MatchView, r: Seq<char>) -> MatchView {
    MatchView { prefix_list: mc.prefix_list, as_path_regex: Some(r), community: mc.community }
}

/// `mc` with `p` appended to its prefix list (creating the list if absent).
pub open spec fn with_prefix(mc: MatchView, p: Seq<char>) -> MatchView {
    MatchView {
        prefix_list: Some(
            match mc.prefix_list {
                Some(l) => l.push(p),
                None => seq![p],
            },
        ),
        as_path_regex: mc.as_path_regex,
        community: mc.community,
    }
}

pub open spec fn with_mc(acc: TermAcc, mc: MatchView) -> TermAcc {
    TermAcc { mc, actions: acc.actions, terminal: acc.terminal }
}

pub open spec fn with_action(acc: TermAcc, a: SetActionView) -> TermAcc {
    TermAcc { mc: acc.mc, actions: acc.actions.push(a), terminal: acc.terminal }
}

pub open spec fn with_terminal(acc: TermAcc, t: PolicyAction) -> TermAcc {
    TermAcc { mc: acc.mc, actions: acc.actions, terminal: t }
}

pub open spec fn term_of(name: Seq<char>, acc: TermAcc) -> TermView {
    TermView {
        name,
        match_conditions: acc.mc,
        actions: acc.actions,
        terminal_action: acc.terminal,
    }
}

// ---- simple DSL ----

/// One line inside a `term N { ... }` block of the simple DSL.
pub open spec fn simple_term_line(line: Seq<char>, acc: TermAcc) -> Result<TermAcc, Seq<char>> {
    if starts_with(line, "match community "@) {
        Ok(with_mc(acc, with_community(acc.mc, quoted_or_empty(line))))
    } else if starts_with(line, "match as-path "@) {
        Ok(with_mc(acc, with_as_path(acc.mc, quoted_or_empty(line))))
    } else if starts_with(line, "match prefix "@) {
        Ok(with_mc(acc, with_prefix(acc.mc, quoted_or_empty(line))))
    } else if starts_with(line, "set local-pref "@) {
        match parse_u32(line.skip("set local-pref "@.len() as int)) {
            Some(v) => Ok(with_action(acc, SetActionView::SetLocalPref(v))),
            None => Err("Invalid local-pref value"@),
        }
    } else if starts_with(line, "set med "@) {
        match parse_u32(line.skip("set med "@.len() as int)) {
            Some(v) => Ok(with_action(acc, SetActionView::SetMed(v))),
            None => Err("Invalid med value"@),
        }
    } else if starts_with(line, "prepend-as "@) {
        let parts = split_ws(line.skip("prepend-as "@.len() as int));
        if parts.len() != 2 {
            Err("prepend-as requires ASN and count"@)
        } else {
            match parse_u32(parts[0]) {
                None => Err("Invalid ASN"@),
                Some(asn) => match parse_u32(parts[1]) {
                    None => Err("Invalid count"@),
                    Some(count) => Ok(
                        with_action(acc, SetActionView::PrependAsPath { asn, count }),
                    ),
                },
            }
        }
    } else if starts_with(line, "add-community "@) {
        Ok(with_action(acc, SetActionView::AddCommunity(quoted_or_empty(line))))
    } else if starts_with(line, "remove-community "@) {
        Ok(with_action(acc, SetActionView::RemoveCommunity(quoted_or_empty(line))))
    } else if line == "accept"@ {
        Ok(with_terminal(acc, PolicyAction::Accept))
    } else if line == "reject"@ {
        Ok(with_terminal(acc, PolicyAction::Reject))
    } else {
        Ok(acc)
    }
}

/// The lines of a simple-DSL term from `i` up to and including its `}`;
/// gives what was gathered and the index after the term.
pub open spec fn simple_term_body(lines: Seq<Seq<char>>, i: int, acc: TermAcc) -> Result<
    (TermAcc, int),
    Seq<char>,
>
    decreases lines.len() - i,
{
    if i < 0 || i >= lines.len() {
        Ok((acc, i))
    } else if lines[i] == "}"@ {
        Ok((acc, i + 1))
    } else {
        match simple_term_line(lines[i], acc) {
            Err(e) => Err(e),
            Ok(a) => simple_term_body(lines, i + 1, a),
        }
    }
}

/// The name in a `term <name> {` header (`unnamed` when the header has
/// another shape).
pub open spec fn simple_term_name(header: Seq<char>) -> Seq<char> {
    let inner = match strip_prefix(header, "term "@) {
        Some(s) => match strip_suffix(s, " {"@) {
            Some(x) => Some(x),
            None => strip_suffix(s, "{"@),
        },
        None => None,
    };
    trim(
        match inner {
            Some(x) => x,
            None => "unnamed"@,
        },
    )
}

/// A simple-DSL term whose header is line `start`.
pub open spec fn simple_term(lines: Seq<Seq<char>>, start: int) -> Result<
    (TermView, int),
    Seq<char>,
> {
    match simple_term_body(lines, start + 1, empty_acc()) {
        Err(e) => Err(e),
        Ok((acc, end)) => Ok((term_of(simple_term_name(lines[start]), acc), end)),
    }
}

pub proof fn lemma_simple_term_body_end(lines: Seq<Seq<char>>, i: int, acc: TermAcc)
    requires
        0 <= i <= lines.len(),
    ensures
        simple_term_body(lines, i, acc) matches Ok((_, end)) ==> i <= end <= lines.len(),
    decreases lines.len() - i,
{
    if i < lines.len() && lines[i] != "}"@ {
        if let Ok(a) = simple_term_line(lines[i], acc) {
            lemma_simple_term_body_end(lines, i + 1, a);
        }
    }
}

/// The policy body of the simple DSL from line `i`: terms and
/// `default accept|reject` lines; other lines are skipped.
pub open spec fn simple_items(
    lines: Seq<Seq<char>>,
    i: int,
    terms: Seq<TermView>,
    dflt: PolicyAction,
) -> Result<(Seq<TermView>, PolicyAction), Seq<char>>
    decreases lines.len() - i,
{
    if i < 0 || i >= lines.len() {
        Ok((terms, dflt))
    } else if starts_with(lines[i], "term "@) {
        match simple_term(lines, i) {
            Err(e) => Err(e),
            Ok((t, end)) => {
                proof {
                    lemma_simple_term_body_end(lines, i + 1, empty_acc());
                }
                simple_items(lines, end, terms.push(t), dflt)
            },
        }
    } else if starts_with(lines[i], "default "@) {
        let a = trim(lines[i].skip("default "@.len() as int));
        if a == "accept"@ {
            simple_items(lines, i + 1, terms, PolicyAction::Accept)
        } else if a == "reject"@ {
            simple_items(lines, i + 1, terms, PolicyAction::Reject)
        } else {
            Err("Unknown default action: "@ + a)
        }
    } else {
        simple_items(lines, i + 1, terms, dflt)
    }
}

/// A policy in the simple DSL.
pub open spec fn parse_simple_spec(text: Seq<char>) -> Result<PolicyView, Seq<char>> {
    let lines = trimmed_lines(text);
    if lines.len() == 0 {
        Err("Empty policy"@)
    } else {
        match extract_quoted_spec(lines[0]) {
            None => Err("Expected policy \"name\" {"@),
            Some(name) => match simple_items(lines, 1, Seq::empty(), PolicyAction::Accept) {
                Err(e) => Err(e),
                Ok((terms, d)) => Ok(PolicyView { name, terms, default_action: d }),
            },
        }
    }
}

// ---- Juniper-style syntax ----

/// A line of a `from { ... }` block.
pub open spec fn from_line(raw: Seq<char>, mc: MatchView) -> MatchView {
    let line = trim_end_matches(trim(raw), ';');
    if starts_with(line, "community "@) {
        with_community(mc, trim_matches(trim(line.skip("community "@.len() as int)), '"'))
    } else if starts_with(line, "as-path "@) {
        with_as_path(mc, trim_matches(trim(line.skip("as-path "@.len() as int)), '"'))
    } else if starts_with(line, "route-filter "@) {
        let words = split_ws(trim(line.skip("route-filter "@.len() as int)));
        let p = if words.len() > 0 {
            words[0]
        } else {
            Seq::empty()
        };
        if p.len() > 0 {
            with_prefix(mc, p)
        } else {
            mc
        }
    } else if starts_with(line, "prefix-list "@) || starts_with(line, "route-filter-list "@) {
        let rest = if starts_with(line, "prefix-list "@) {
            line.skip("prefix-list "@.len() as int)
        } else {
            line.skip("route-filter-list "@.len() as int)
        };
        let p = trim_matches(trim(rest), '"');
        if p.len() > 0 {
            with_prefix(mc, p)
        } else {
            mc
        }
    } else {
        mc
    }
}

/// How many of the first `n` words read as the number `asn`.
pub open spec fn count_asn(parts: Seq<Seq<char>>, asn: u32, n: int) -> nat
    decreases n,
{
    if n <= 0 {
        0
    } else {
        count_asn(parts, asn, n - 1) + if parse_u32(parts[n - 1]) == Some(asn) {
            1nat
        } else {
            0nat
        }
    }
}

/// What `as-path-prepend <rest>` adds: `ASN count` (a count over 10 is read
/// as a second ASN, and `N N` as two copies of N), or a list of one ASN
/// repeated.
pub open spec fn prepend_actions(rest: Seq<char>) -> Seq<SetActionView> {
    let parts = split_ws(rest);
    if parts.len() == 2 && parse_u32(parts[0]) is Some && parse_u32(parts[1]) is Some {
        let asn = parse_u32(parts[0])->0;
        let count = parse_u32(parts[1])->0;
        if asn == count {
            seq![SetActionView::PrependAsPath { asn, count: 2 }]
        } else if count <= 10 {
            seq![SetActionView::PrependAsPath { asn, count }]
        } else {
            seq![
                SetActionView::PrependAsPath { asn, count: 1 },
                SetActionView::PrependAsPath { asn: count, count: 1 },
            ]
        }
    } else if parts.len() > 0 && parse_u32(parts[0]) is Some {
        let asn = parse_u32(parts[0])->0;
        seq![
            SetActionView::PrependAsPath {
                asn,
                count: count_asn(parts, asn, parts.len() as int) as u32,
            },
        ]
    } else {
        Seq::empty()
    }
}

/// A line of a `then { ... }` block.
pub open spec fn then_line(raw: Seq<char>, acc: TermAcc) -> Result<TermAcc, Seq<char>> {
    let line = trim_end_matches(trim(raw), ';');
    if starts_with(line, "local-preference "@) {
        match parse_u32(trim(line.skip("local-preference "@.len() as int))) {
            Some(v) => Ok(with_action(acc, SetActionView::SetLocalPref(v))),
            None => Err("Invalid local-preference value"@),
        }
    } else if starts_with(line, "metric "@) {
        match parse_u32(trim(line.skip("metric "@.len() as int))) {
            Some(v) => Ok(with_action(acc, SetActionView::SetMed(v))),
            None => Err("Invalid metric value"@),
        }
    } else if starts_with(line, "as-path-prepend "@) {
        let rest = trim_matches(trim(line.skip("as-path-prepend "@.len() as int)), '"');
        Ok(
            TermAcc {
                mc: acc.mc,
                actions: acc.actions + prepend_actions(rest),
                terminal: acc.terminal,
            },
        )
    } else if starts_with(line, "community add "@) {
        Ok(
            with_action(
                acc,
                SetActionView::AddCommunity(
                    trim_matches(trim(line.skip("community add "@.len() as int)), '"'),
                ),
            ),
        )
    } else if starts_with(line, "community delete "@) || starts_with(line, "community remove "@) {
        let p = if starts_with(line, "community delete "@) {
            "community delete "@
        } else {
            "community remove "@
        };
        Ok(
            with_action(
                acc,
                SetActionView::RemoveCommunity(trim_matches(trim(line.skip(p.len() as int)), '"')),
            ),
        )
    } else if starts_with(line, "community set "@) {
        Ok(
            with_action(
                acc,
                SetActionView::AddCommunity(
                    trim_matches(trim(line.skip("community set "@.len() as int)), '"'),
                ),
            ),
        )
    } else if line == "accept"@ {
        Ok(with_terminal(acc, PolicyAction::Accept))
    } else if line == "reject"@ {
        Ok(with_terminal(acc, PolicyAction::Reject))
    } else if line == "next policy"@ || line == "next-policy"@ {
        Ok(with_terminal(acc, PolicyAction::Accept))
    } else {
        Ok(acc)
    }
}

/// The lines of a `from { ... }` block from `i` up to (not including) its
/// closing `}`; gives the conditions and the index of that `}` (or the
/// number of lines).
pub open spec fn from_block(lines: Seq<Seq<char>>, i: int, mc: MatchView) -> (MatchView, int)
    decreases lines.len() - i,
{
    if i < 0 || i >= lines.len() || lines[i] == "}"@ {
        (mc, i)
    } else {
        from_block(lines, i + 1, from_line(lines[i], mc))
    }
}

/// The lines of a `then { ... }` block, as `from_block`.
pub open spec fn then_block(lines: Seq<Seq<char>>, i: int, acc: TermAcc) -> Result<
    (TermAcc, int),
    Seq<char>,
>
    decreases lines.len() - i,
{
    if i < 0 || i >= lines.len() || lines[i] == "}"@ {
        Ok((acc, i))
    } else {
        match then_line(lines[i], acc) {
            Err(e) => Err(e),
            Ok(a) => then_block(lines, i + 1, a),
        }
    }
}

pub proof fn lemma_from_block_end(lines: Seq<Seq<char>>, i: int, mc: MatchView)
    requires
        0 <= i <= lines.len(),
    ensures
        i <= from_block(lines, i, mc).1 <= lines.len(),
    decreases lines.len() - i,
{
    if i < lines.len() && lines[i] != "}"@ {
        lemma_from_block_end(lines, i + 1, from_line(lines[i], mc));
    }
}

pub proof fn lemma_then_block_end(lines: Seq<Seq<char>>, i: int, acc: TermAcc)
    requires
        0 <= i <= lines.len(),
    ensures
        then_block(lines, i, acc) matches Ok((_, end)) ==> i <= end <= lines.len(),
    decreases lines.len() - i,
{
    if i < lines.len() && lines[i] != "}"@ {
        if let Ok(a) = then_line(lines[i], acc) {
            lemma_then_block_end(lines, i + 1, a);
        }
    }
}

/// The action of an inline `then accept;` / `then reject;` line.
pub open spec fn inline_then(line: Seq<char>) -> Result<PolicyAction, Seq<char>> {
    action_keyword(trim_end_matches(trim(line.skip("then "@.len() as int)), ';'))
}

pub open spec fn is_inline_then(line: Seq<char>) -> bool {
    starts_with(line, "then "@) && !line.contains('{')
}

/// The lines of a Juniper-style term from `i` up to and including its `}`.
pub open spec fn juniper_term_body(lines: Seq<Seq<char>>, i: int, acc: TermAcc) -> Result<
    (TermAcc, int),
    Seq<char>,
>
    decreases lines.len() + 1 - i,
{
    if i < 0 || i >= lines.len() {
        Ok((acc, i))
    } else {
        let line = lines[i];
        if line == "}"@ {
            Ok((acc, i + 1))
        } else if starts_with(line, "from"@) && (ends_with(line, "{"@) || line == "from {"@) {
            let (mc, j) = from_block(lines, i + 1, acc.mc);
            proof {
                lemma_from_block_end(lines, i + 1, acc.mc);
            }
            juniper_term_body(lines, j + 1, with_mc(acc, mc))
        } else if starts_with(line, "then"@) && ends_with(line, "{"@) {
            match then_block(lines, i + 1, acc) {
                Err(e) => Err(e),
                Ok((a, j)) => {
                    proof {
                        lemma_then_block_end(lines, i + 1, acc);
                    }
                    juniper_term_body(lines, j + 1, a)
                },
            }
        } else if is_inline_then(line) {
            match inline_then(line) {
                Err(e) => Err(e),
                Ok(t) => juniper_term_body(lines, i + 1, with_terminal(acc, t)),
            }
        } else {
            juniper_term_body(lines, i + 1, acc)
        }
    }
}

/// The name in a Juniper `term <name> {` header.
pub open spec fn juniper_term_name(header: Seq<char>) -> Seq<char> {
    let inner = match strip_prefix(header, "term "@) {
        Some(s) => match strip_suffix(s, "{"@) {
            Some(x) => Some(x),
            None => strip_suffix(s, " {"@),
        },
        None => None,
    };
    trim(
        match inner {
            Some(x) => x,
            None => "unnamed"@,
        },
    )
}

pub open spec fn juniper_term(lines: Seq<Seq<char>>, start: int) -> Result<
    (TermView, int),
    Seq<char>,
> {
    match juniper_term_body(lines, start + 1, empty_acc()) {
        Err(e) => Err(e),
        Ok((acc, end)) => Ok((term_of(juniper_term_name(lines[start]), acc), end)),
    }
}

pub proof fn lemma_juniper_term_body_end(lines: Seq<Seq<char>>, i: int, acc: TermAcc)
    requires
        0 <= i <= lines.len() + 1,
    ensures
        juniper_term_body(lines, i, acc) matches Ok((_, end)) ==> i <= end <= lines.len() + 1,
    decreases lines.len() + 1 - i,
{
    if i < lines.len() {
        let line = lines[i];
        if line == "}"@ {
        } else if starts_with(line, "from"@) && (ends_with(line, "{"@) || line == "from {"@) {
            lemma_from_block_end(lines, i + 1, acc.mc);
            let (mc, j) = from_block(lines, i + 1, acc.mc);
            lemma_juniper_term_body_end(lines, j + 1, with_mc(acc, mc));
        } else if starts_with(line, "then"@) && ends_with(line, "{"@) {
            lemma_then_block_end(lines, i + 1, acc);
            if let Ok((a, j)) = then_block(lines, i + 1, acc) {
                lemma_juniper_term_body_end(lines, j + 1, a);
            }
        } else if is_inline_then(line) {
            if let Ok(t) = inline_then(line) {
                lemma_juniper_term_body_end(lines, i + 1, with_terminal(acc, t));
            }
        } else {
            lemma_juniper_term_body_end(lines, i + 1, acc);
        }
    }
}

/// The body of a `policy-statement` from line `i`: terms and inline
/// `then` default actions, up to the statement's closing `}`.
pub open spec fn juniper_items(
    lines: Seq<Seq<char>>,
    i: int,
    terms: Seq<TermView>,
    dflt: PolicyAction,
) -> Result<(Seq<TermView>, PolicyAction), Seq<char>>
    decreases lines.len() + 1 - i,
{
    if i < 0 || i >= lines.len() || lines[i] == "}"@ {
        Ok((terms, dflt))
    } else if starts_with(lines[i], "term "@) {
        match juniper_term(lines, i) {
            Err(e) => Err(e),
            Ok((t, end)) => {
                proof {
                    lemma_juniper_term_body_end(lines, i + 1, empty_acc());
                }
                juniper_items(lines, end, terms.push(t), dflt)
            },
        }
    } else if is_inline_then(lines[i]) {
        match inline_then(lines[i]) {
            Err(e) => Err(e),
            Ok(a) => juniper_items(lines, i + 1, terms, a),
        }
    } else {
        juniper_items(lines, i + 1, terms, dflt)
    }
}

/// Index of the first line at or after `i` that starts `policy-statement`.
pub open spec fn first_statement(lines: Seq<Seq<char>>, i: int) -> int
    decreases lines.len() - i,
{
    if i < 0 || i >= lines.len() {
        lines.len() as int
    } else if starts_with(lines[i], "policy-statement"@) {
        i
    } else {
        first_statement(lines, i + 1)
    }
}

/// The name in a `policy-statement <name> {` line.
pub open spec fn statement_name(line: Seq<char>) -> Option<Seq<char>> {
    match strip_prefix(line, "policy-statement"@) {
        None => None,
        Some(s) => match strip_suffix(trim(s), "{"@) {
            None => None,
            Some(x) => Some(trim(x)),
        },
    }
}

/// A policy in the Juniper-style syntax (the `policy-options` wrapper is
/// optional).
pub open spec fn parse_juniper_spec(text: Seq<char>) -> Result<PolicyView, Seq<char>> {
    let lines = trimmed_lines(text);
    let i0: int = if lines.len() > 0 && starts_with(lines[0], "policy-options"@) {
        1
    } else {
        0
    };
    let i = first_statement(lines, i0);
    if i >= lines.len() {
        Err("Expected policy-statement"@)
    } else {
        match statement_name(lines[i]) {
            None => Err("Expected: policy-statement <name> {"@),
            Some(name) => if name.len() == 0 {
                Err("Policy statement name cannot be empty"@)
            } else {
                match juniper_items(lines, i + 1, Seq::empty(), PolicyAction::Accept) {
                    Err(e) => Err(e),
                    Ok((terms, d)) => Ok(PolicyView { name, terms, default_action: d }),
                }
            },
        }
    }
}

/// A policy in either format: text starting `policy-options` or
/// `policy-statement` (after trimming) is Juniper-style, any other text is
/// the simple DSL.
pub open spec fn policy_from_text(input: Seq<char>) -> Result<PolicyView, Seq<char>> {
    let t = trim(input);
    if starts_with(t, "policy-options"@) || starts_with(t, "policy-statement"@) {
        parse_juniper_spec(t)
    } else {
        parse_simple_spec(t)
    }
}

/// A parse result that agrees with the grammar's result.
pub open spec fn policy_result_is(
    r: Result<RoutePolicy, String>,
    s: Result<PolicyView, Seq<char>>,
) -> bool {
    match s {
        Ok(p) => r matches Ok(x) && x@ == p,
        Err(e) => r matches Err(m) && m@ == e,
    }
}


// ===========================================================================
// The parser
// ===========================================================================

/// What a term has gathered so far (executable counterpart of `TermAcc`).
struct TermState {
    mc: MatchConditions,
    actions: Vec<PolicySetAction>,
    terminal: PolicyAction,
}

impl View for TermState {
    type V = TermAcc;

    closed spec fn view(&self) -> TermAcc {
        TermAcc {
            mc: self.mc@,
            actions: set_actions_view(self.actions@),
            terminal: self.terminal,
        }
    }
}

fn new_term_state() -> (st: TermState)
    ensures
        st@ == empty_acc(),
{
    let st = TermState {
        mc: MatchConditions { prefix_list: None, as_path_regex: None, community: None },
        actions: Vec::new(),
        terminal: PolicyAction::Accept,
    };
    proof {
        assert(set_actions_view(st.actions@) =~= Seq::<SetActionView>::empty());
    }
    st
}

fn push_action(st: &mut TermState, a: PolicySetAction)
    ensures
        final(st)@ == with_action(old(st)@, a@),
{
    let ghost before = st.actions@;
    st.actions.push(a);
    proof {
        assert(set_actions_view(st.actions@) =~= set_actions_view(before).push(a@));
    }
}

fn push_prefix(mc: &mut MatchConditions, p: String)
    ensures
        final(mc)@ == with_prefix(old(mc)@, p@),
{
    let ghost old_mc = mc@;
    match mc.prefix_list.take() {
        Some(mut v) => {
            let ghost before = v@;
            v.push(p);
            proof {
                assert(strings_view(v@) =~= strings_view(before).push(p@));
            }
            mc.prefix_list = Some(v);
        },
        None => {
            let mut v: Vec<String> = Vec::new();
            v.push(p);
            proof {
                assert(strings_view(v@) =~= seq![p@]);
            }
            mc.prefix_list = Some(v);
        },
    }
}

fn term_from_state(name: String, st: TermState) -> (t: PolicyTerm)
    ensures
        t@ == term_of(name@, st@),
{
    PolicyTerm {
        name,
        match_conditions: st.mc,
        actions: st.actions,
        terminal_action: st.terminal,
    }
}

fn extract_quoted(s: &[char]) -> (r: Option<Vec<char>>)
    ensures
        match extract_quoted_spec(s@) {
            Some(q) => r matches Some(v) && v@ == q,
            None => r is None,
        },
{
    let a = find_char(s, '"', 0);
    if a >= s.len() {
        return None;
    }
    let b = find_char(s, '"', a + 1);
    if b >= s.len() {
        return None;
    }
    Some(copy_range(s, a + 1, b))
}

fn quoted_or_empty_string(s: &[char]) -> (r: String)
    ensures
        r@ == quoted_or_empty(s@),
{
    match extract_quoted(s) {
        Some(q) => string_of(q.as_slice()),
        None => String::new(),
    }
}

fn parse_action_keyword(s: &[char]) -> (r: Result<PolicyAction, String>)
    ensures
        match action_keyword(s@) {
            Ok(a) => r matches Ok(x) && x == a,
            Err(e) => r matches Err(m) && m@ == e,
        },
{
    let t = trim_chars(s);
    if chars_eq_str(t.as_slice(), "accept") {
        Ok(PolicyAction::Accept)
    } else if chars_eq_str(t.as_slice(), "reject") {
        Ok(PolicyAction::Reject)
    } else {
        let mut m = string_from("Unknown action: ");
        push_chars(&mut m, t.as_slice());
        Err(m)
    }
}

/// The characters of `line` after `p`, which `line` is known to start with.
fn after_prefix(line: &[char], p: &str) -> (r: Vec<char>)
    requires
        starts_with(line@, p@),
    ensures
        r@ == line@.skip(p@.len() as int),
{
    strip_prefix_chars(line, p).unwrap()
}

fn simple_term_line_exec(line: &[char], st: &mut TermState) -> (r: Result<(), String>)
    ensures
        match simple_term_line(line@, old(st)@) {
            Ok(a) => r is Ok && final(st)@ == a,
            Err(e) => r matches Err(m) && m@ == e,
        },
{
    if has_prefix(line, "match community ") {
        st.mc.community = Some(quoted_or_empty_string(line));
        Ok(())
    } else if has_prefix(line, "match as-path ") {
        st.mc.as_path_regex = Some(quoted_or_empty_string(line));
        Ok(())
    } else if has_prefix(line, "match prefix ") {
        let q = quoted_or_empty_string(line);
        push_prefix(&mut st.mc, q);
        Ok(())
    } else if has_prefix(line, "set local-pref ") {
        let rest = after_prefix(line, "set local-pref ");
        match parse_u32_chars(rest.as_slice()) {
            Some(v) => {
                push_action(st, PolicySetAction::SetLocalPref(v));
                Ok(())
            },
            None => Err(string_from("Invalid local-pref value")),
        }
    } else if has_prefix(line, "set med ") {
        let rest = after_prefix(line, "set med ");
        match parse_u32_chars(rest.as_slice()) {
            Some(v) => {
                push_action(st, PolicySetAction::SetMed(v));
                Ok(())
            },
            None => Err(string_from("Invalid med value")),
        }
    } else if has_prefix(line, "prepend-as ") {
        let rest = after_prefix(line, "prepend-as ");
        let parts = split_whitespace(rest.as_slice());
        if parts.len() != 2 {
            return Err(string_from("prepend-as requires ASN and count"));
        }
        let asn = match parse_u32_chars(parts[0].as_slice()) {
            Some(a) => a,
            None => {
                return Err(string_from("Invalid ASN"));
            },
        };
        let count = match parse_u32_chars(parts[1].as_slice()) {
            Some(c) => c,
            None => {
                return Err(string_from("Invalid count"));
            },
        };
        push_action(st, PolicySetAction::PrependAsPath { asn, count });
        Ok(())
    } else if has_prefix(line, "add-community ") {
        push_action(st, PolicySetAction::AddCommunity(quoted_or_empty_string(line)));
        Ok(())
    } else if has_prefix(line, "remove-community ") {
        push_action(st, PolicySetAction::RemoveCommunity(quoted_or_empty_string(line)));
        Ok(())
    } else if chars_eq_str(line, "accept") {
        st.terminal = PolicyAction::Accept;
        Ok(())
    } else if chars_eq_str(line, "reject") {
        st.terminal = PolicyAction::Reject;
        Ok(())
    } else {
        Ok(())
    }
}

fn simple_term_name_exec(header: &[char]) -> (r: String)
    ensures
        r@ == simple_term_name(header@),
{
    let inner: Option<Vec<char>> = match strip_prefix_chars(header, "term ") {
        Some(s) => match strip_suffix_chars(s.as_slice(), " {") {
            Some(x) => Some(x),
            None => strip_suffix_chars(s.as_slice(), "{"),
        },
        None => None,
    };
    let base = match inner {
        Some(x) => x,
        None => str_chars("unnamed"),
    };
    let t = trim_chars(base.as_slice());
    string_of(t.as_slice())
}

/// Reads the simple-DSL term whose header is `lines[start]`; gives the term
/// and the index of the line after it.
fn parse_simple_term(lines: &Vec<Vec<char>>, start: usize) -> (r: Result<(PolicyTerm, usize), String>)
    requires
        start < lines@.len(),
    ensures
        match simple_term(seqs_of(lines@), start as int) {
            Ok((t, end)) => r matches Ok((x, e)) && x@ == t && e == end,
            Err(err) => r matches Err(m) && m@ == err,
        },
{
    let ghost lv = seqs_of(lines@);
    let name = simple_term_name_exec(lines[start].as_slice());
    let mut st = new_term_state();
    let n_lines = lines.len();
    let mut i = start + 1;
    loop
        invariant
            lv == seqs_of(lines@),
            start < i <= lines@.len(),
            name@ == simple_term_name(lv[start as int]),
            simple_term_body(lv, i as int, st@) == simple_term_body(lv, start + 1, empty_acc()),
        decreases lines@.len() - i,
    {
        if i >= lines.len() {
            return Ok((term_from_state(name, st), i));
        }
        if chars_eq_str(lines[i].as_slice(), "}") {
            return Ok((term_from_state(name, st), i + 1));
        }
        match simple_term_line_exec(lines[i].as_slice(), &mut st) {
            Err(e) => {
                return Err(e);
            },
            Ok(()) => {},
        }
        i += 1;
    }
}

/// The policy of a simple-DSL text.
fn parse_simple_policy(text: &[char]) -> (r: Result<RoutePolicy, String>)
    ensures
        policy_result_is(r, parse_simple_spec(text@)),
{
    let lines = split_trimmed_lines(text);
    let ghost lv = seqs_of(lines@);
    if lines.len() == 0 {
        return Err(string_from("Empty policy"));
    }
    let name = match extract_quoted(lines[0].as_slice()) {
        None => {
            return Err(string_from("Expected policy \"name\" {"));
        },
        Some(n) => string_of(n.as_slice()),
    };
    let mut terms: Vec<PolicyTerm> = Vec::new();
    let mut dflt = PolicyAction::Accept;
    let mut i: usize = 1;
    proof {
        assert(terms@.map_values(|t: PolicyTerm| t@) =~= Seq::<TermView>::empty());
    }
    loop
        invariant
            lv == seqs_of(lines@),
            lv == trimmed_lines(text@),
            lv.len() > 0,
            extract_quoted_spec(lv[0]) == Some(name@),
            1 <= i <= lines@.len(),
            simple_items(lv, i as int, terms@.map_values(|t: PolicyTerm| t@), dflt)
                == simple_items(lv, 1, Seq::empty(), PolicyAction::Accept),
        decreases lines@.len() - i,
    {
        if i >= lines.len() {
            let p = RoutePolicy { name, terms, default_action: dflt };
            return Ok(p);
        }
        let line = lines[i].as_slice();
        if has_prefix(line, "term ") {
            proof {
                lemma_simple_term_body_end(lv, i + 1, empty_acc());
            }
            match parse_simple_term(&lines, i) {
                Err(e) => {
                    return Err(e);
                },
                Ok((t, end)) => {
                    let ghost before = terms@.map_values(|t: PolicyTerm| t@);
                    terms.push(t);
                    proof {
                        assert(terms@.map_values(|t: PolicyTerm| t@) =~= before.push(t@));
                    }
                    i = end;
                },
            }
        } else if has_prefix(line, "default ") {
            let rest = after_prefix(line, "default ");
            let a = trim_chars(rest.as_slice());
            if chars_eq_str(a.as_slice(), "accept") {
                dflt = PolicyAction::Accept;
            } else if chars_eq_str(a.as_slice(), "reject") {
                dflt = PolicyAction::Reject;
            } else {
                let mut m = string_from("Unknown default action: ");
                push_chars(&mut m, a.as_slice());
                return Err(m);
            }
            i += 1;
        } else {
            i += 1;
        }
    }
}

fn parse_juniper_from_line(raw: &[char], mc: &mut MatchConditions)
    ensures
        final(mc)@ == from_line(raw@, old(mc)@),
{
    let t = trim_chars(raw);
    let line = trim_end_matches_chars(t.as_slice(), ';');
    let line = line.as_slice();
    if has_prefix(line, "community ") {
        let rest = after_prefix(line, "community ");
        let v = trim_matches_chars(trim_chars(rest.as_slice()).as_slice(), '"');
        mc.community = Some(string_of(v.as_slice()));
    } else if has_prefix(line, "as-path ") {
        let rest = after_prefix(line, "as-path ");
        let v = trim_matches_chars(trim_chars(rest.as_slice()).as_slice(), '"');
        mc.as_path_regex = Some(string_of(v.as_slice()));
    } else if has_prefix(line, "route-filter ") {
        let rest = after_prefix(line, "route-filter ");
        let words = split_whitespace(trim_chars(rest.as_slice()).as_slice());
        if words.len() > 0 && words[0].len() > 0 {
            push_prefix(mc, string_of(words[0].as_slice()));
        }
    } else if has_prefix(line, "prefix-list ") || has_prefix(line, "route-filter-list ") {
        let rest = if has_prefix(line, "prefix-list ") {
            after_prefix(line, "prefix-list ")
        } else {
            after_prefix(line, "route-filter-list ")
        };
        let p = trim_matches_chars(trim_chars(rest.as_slice()).as_slice(), '"');
        if p.len() > 0 {
            push_prefix(mc, string_of(p.as_slice()));
        }
    }
}

/// `count_asn` over all the words.
fn count_matching_asn(parts: &Vec<Vec<char>>, asn: u32) -> (n: usize)
    ensures
        n == count_asn(seqs_of(parts@), asn, parts@.len() as int),
{
    let ghost pv = seqs_of(parts@);
    let mut n: usize = 0;
    let mut i: usize = 0;
    while i < parts.len()
        invariant
            pv == seqs_of(parts@),
            i <= parts@.len(),
            n == count_asn(pv, asn, i as int),
            n <= i,
        decreases parts@.len() - i,
    {
        if parse_u32_chars(parts[i].as_slice()) == Some(asn) {
            n += 1;
        }
        i += 1;
    }
    n
}

/// Appends what `as-path-prepend <rest>` adds.
fn push_prepend_actions(rest: &[char], st: &mut TermState)
    ensures
        final(st)@ == (TermAcc {
            mc: old(st)@.mc,
            actions: old(st)@.actions + prepend_actions(rest@),
            terminal: old(st)@.terminal,
        }),
{
    let parts = split_whitespace(rest);
    let ghost pv = seqs_of(parts@);
    let ghost acts = old(st)@.actions;
    if parts.len() == 2 {
        let a = parse_u32_chars(parts[0].as_slice());
        let c = parse_u32_chars(parts[1].as_slice());
        if a.is_some() && c.is_some() {
            let asn = a.unwrap();
            let count = c.unwrap();
            if asn == count {
                push_action(st, PolicySetAction::PrependAsPath { asn, count: 2 });
                proof {
                    assert(st@.actions =~= acts + prepend_actions(rest@));
                }
            } else if count <= 10 {
                push_action(st, PolicySetAction::PrependAsPath { asn, count });
                proof {
                    assert(st@.actions =~= acts + prepend_actions(rest@));
                }
            } else {
                push_action(st, PolicySetAction::PrependAsPath { asn, count: 1 });
                push_action(st, PolicySetAction::PrependAsPath { asn: count, count: 1 });
                proof {
                    assert(st@.actions =~= acts + prepend_actions(rest@));
                }
            }
            return;
        }
    }
    if parts.len() > 0 {
        match parse_u32_chars(parts[0].as_slice()) {
            Some(asn) => {
                let n = count_matching_asn(&parts, asn);
                push_action(st, PolicySetAction::PrependAsPath { asn, count: n as u32 });
                proof {
                    assert(st@.actions =~= acts + prepend_actions(rest@));
                }
                return;
            },
            None => {},
        }
    }
    proof {
        assert(acts + prepend_actions(rest@) =~= acts);
    }
}

fn parse_juniper_then_line(raw: &[char], st: &mut TermState) -> (r: Result<(), String>)
    ensures
        match then_line(raw@, old(st)@) {
            Ok(a) => r is Ok && final(st)@ == a,
            Err(e) => r matches Err(m) && m@ == e && final(st)@ == old(st)@,
        },
{
    let t = trim_chars(raw);
    let line = trim_end_matches_chars(t.as_slice(), ';');
    let line = line.as_slice();
    if has_prefix(line, "local-preference ") {
        let rest = after_prefix(line, "local-preference ");
        match parse_u32_chars(trim_chars(rest.as_slice()).as_slice()) {
            Some(v) => {
                push_action(st, PolicySetAction::SetLocalPref(v));
                Ok(())
            },
            None => Err(string_from("Invalid local-preference value")),
        }
    } else if has_prefix(line, "metric ") {
        let rest = after_prefix(line, "metric ");
        match parse_u32_chars(trim_chars(rest.as_slice()).as_slice()) {
            Some(v) => {
                push_action(st, PolicySetAction::SetMed(v));
                Ok(())
            },
            None => Err(string_from("Invalid metric value")),
        }
    } else if has_prefix(line, "as-path-prepend ") {
        let rest = after_prefix(line, "as-path-prepend ");
        let rest = trim_matches_chars(trim_chars(rest.as_slice()).as_slice(), '"');
        push_prepend_actions(rest.as_slice(), st);
        Ok(())
    } else if has_prefix(line, "community add ") {
        let rest = after_prefix(line, "community add ");
        let v = trim_matches_chars(trim_chars(rest.as_slice()).as_slice(), '"');
        push_action(st, PolicySetAction::AddCommunity(string_of(v.as_slice())));
        Ok(())
    } else if has_prefix(line, "community delete ") || has_prefix(line, "community remove ") {
        let rest = if has_prefix(line, "community delete ") {
            after_prefix(line, "community delete ")
        } else {
            after_prefix(line, "community remove ")
        };
        let v = trim_matches_chars(trim_chars(rest.as_slice()).as_slice(), '"');
        push_action(st, PolicySetAction::RemoveCommunity(string_of(v.as_slice())));
        Ok(())
    } else if has_prefix(line, "community set ") {
        let rest = after_prefix(line, "community set ");
        let v = trim_matches_chars(trim_chars(rest.as_slice()).as_slice(), '"');
        push_action(st, PolicySetAction::AddCommunity(string_of(v.as_slice())));
        Ok(())
    } else if chars_eq_str(line, "accept") {
        st.terminal = PolicyAction::Accept;
        Ok(())
    } else if chars_eq_str(line, "reject") {
        st.terminal = PolicyAction::Reject;
        Ok(())
    } else if chars_eq_str(line, "next policy") || chars_eq_str(line, "next-policy") {
        st.terminal = PolicyAction::Accept;
        Ok(())
    } else {
        Ok(())
    }
}

fn parse_inline_then(line: &[char]) -> (r: Result<PolicyAction, String>)
    requires
        is_inline_then(line@),
    ensures
        match inline_then(line@) {
            Ok(a) => r matches Ok(x) && x == a,
            Err(e) => r matches Err(m) && m@ == e,
        },
{
    let rest = after_prefix(line, "then ");
    let t = trim_chars(rest.as_slice());
    let a = trim_end_matches_chars(t.as_slice(), ';');
    parse_action_keyword(a.as_slice())
}

fn juniper_term_name_exec(header: &[char]) -> (r: String)
    ensures
        r@ == juniper_term_name(header@),
{
    let inner: Option<Vec<char>> = match strip_prefix_chars(header, "term ") {
        Some(s) => match strip_suffix_chars(s.as_slice(), "{") {
            Some(x) => Some(x),
            None => strip_suffix_chars(s.as_slice(), " {"),
        },
        None => None,
    };
    let base = match inner {
        Some(x) => x,
        None => str_chars("unnamed"),
    };
    let t = trim_chars(base.as_slice());
    string_of(t.as_slice())
}

/// `end`, or the number of lines when `end` is past them.
pub open spec fn clamp_end(end: int, n: int) -> int {
    if end > n {
        n
    } else {
        end
    }
}

/// Reads the Juniper-style term whose header is `lines[start]`; gives the
/// term and the index of the line after it (at most the number of lines).
fn parse_juniper_term(lines: &Vec<Vec<char>>, start: usize) -> (r: Result<(PolicyTerm, usize), String>)
    requires
        start < lines@.len(),
    ensures
        match juniper_term(seqs_of(lines@), start as int) {
            Ok((t, end)) => r matches Ok((x, e)) && x@ == t && e == clamp_end(
                end,
                lines@.len() as int,
            ),
            Err(err) => r matches Err(m) && m@ == err,
        },
{
    let ghost lv = seqs_of(lines@);
    let ghost n = lines@.len() as int;
    let name = juniper_term_name_exec(lines[start].as_slice());
    let mut st = new_term_state();
    let n_lines = lines.len();
    let mut i = start + 1;
    loop
        invariant
            lv == seqs_of(lines@),
            n == lines@.len(),
            start < i <= lines@.len(),
            name@ == juniper_term_name(lv[start as int]),
            juniper_term_body(lv, i as int, st@) == juniper_term_body(lv, start + 1, empty_acc()),
        decreases lines@.len() - i,
    {
        if i >= lines.len() {
            return Ok((term_from_state(name, st), i));
        }
        let line = lines[i].as_slice();
        if chars_eq_str(line, "}") {
            return Ok((term_from_state(name, st), i + 1));
        }
        if has_prefix(line, "from") && (has_suffix(line, "{") || chars_eq_str(line, "from {")) {
            let ghost acc0 = st@;
            let ghost fb = from_block(lv, i + 1, acc0.mc);
            proof {
                lemma_from_block_end(lv, i + 1, acc0.mc);
            }
            let ghost target = juniper_term_body(lv, start + 1, empty_acc());
            proof {
                assert(target == juniper_term_body(lv, fb.1 + 1, with_mc(acc0, fb.0)));
            }
            i += 1;
            while i < lines.len() && !chars_eq_str(lines[i].as_slice(), "}")
                invariant
                    lv == seqs_of(lines@),
                    start < i <= lines@.len(),
                    target == juniper_term_body(lv, start + 1, empty_acc()),
                    target == juniper_term_body(lv, fb.1 + 1, with_mc(acc0, fb.0)),
                    from_block(lv, i as int, st.mc@) == fb,
                    st@.actions == acc0.actions,
                    st@.terminal == acc0.terminal,
                decreases lines@.len() - i,
            {
                parse_juniper_from_line(lines[i].as_slice(), &mut st.mc);
                i += 1;
            }
            proof {
                assert(st@ == with_mc(acc0, fb.0));
            }
            if i >= lines.len() {
                return Ok((term_from_state(name, st), i));
            }
            i += 1;
        } else if has_prefix(line, "then") && has_suffix(line, "{") {
            let ghost acc0 = st@;
            let ghost tb = then_block(lv, i + 1, acc0);
            proof {
                lemma_then_block_end(lv, i + 1, acc0);
            }
            let ghost target = juniper_term_body(lv, start + 1, empty_acc());
            proof {
                assert(target == match tb {
                    Err(e) => Err(e),
                    Ok((a, j)) => juniper_term_body(lv, j + 1, a),
                });
            }
            i += 1;
            while i < lines.len() && !chars_eq_str(lines[i].as_slice(), "}")
                invariant
                    lv == seqs_of(lines@),
                    start < i <= lines@.len(),
                    then_block(lv, i as int, st@) == tb,
                    target == juniper_term_body(lv, start + 1, empty_acc()),
                    target == match tb {
                        Err(e) => Err(e),
                        Ok((a, j)) => juniper_term_body(lv, j + 1, a),
                    },
                decreases lines@.len() - i,
            {
                match parse_juniper_then_line(lines[i].as_slice(), &mut st) {
                    Err(e) => {
                        return Err(e);
                    },
                    Ok(()) => {},
                }
                i += 1;
            }
            if i >= lines.len() {
                return Ok((term_from_state(name, st), i));
            }
            i += 1;
        } else if has_prefix(line, "then ") && !contains_char(line, '{') {
            match parse_inline_then(line) {
                Err(e) => {
                    return Err(e);
                },
                Ok(a) => {
                    st.terminal = a;
                },
            }
            i += 1;
        } else {
            i += 1;
        }
    }
}

fn statement_name_exec(line: &[char]) -> (r: Option<Vec<char>>)
    ensures
        match statement_name(line@) {
            Some(n) => r matches Some(v) && v@ == n,
            None => r is None,
        },
{
    match strip_prefix_chars(line, "policy-statement") {
        None => None,
        Some(s) => {
            let t = trim_chars(s.as_slice());
            match strip_suffix_chars(t.as_slice(), "{") {
                None => None,
                Some(x) => Some(trim_chars(x.as_slice())),
            }
        },
    }
}

/// The policy of a Juniper-style text.
fn parse_juniper_policy(text: &[char]) -> (r: Result<RoutePolicy, String>)
    ensures
        policy_result_is(r, parse_juniper_spec(text@)),
{
    let lines = split_trimmed_lines(text);
    let ghost lv = seqs_of(lines@);
    let mut i: usize = 0;
    if lines.len() > 0 && has_prefix(lines[0].as_slice(), "policy-options") {
        i = 1;
    }
    let ghost i0 = i as int;
    while i < lines.len() && !has_prefix(lines[i].as_slice(), "policy-statement")
        invariant
            lv == seqs_of(lines@),
            i0 <= i <= lines@.len(),
            first_statement(lv, i as int) == first_statement(lv, i0),
        decreases lines@.len() - i,
    {
        i += 1;
    }
    if i >= lines.len() {
        return Err(string_from("Expected policy-statement"));
    }
    let name_chars = match statement_name_exec(lines[i].as_slice()) {
        None => {
            return Err(string_from("Expected: policy-statement <name> {"));
        },
        Some(n) => n,
    };
    if name_chars.len() == 0 {
        return Err(string_from("Policy statement name cannot be empty"));
    }
    let name = string_of(name_chars.as_slice());
    let ghost target = juniper_items(lv, i + 1, Seq::empty(), PolicyAction::Accept);
    let mut terms: Vec<PolicyTerm> = Vec::new();
    let mut dflt = PolicyAction::Accept;
    i += 1;
    proof {
        assert(terms@.map_values(|t: PolicyTerm| t@) =~= Seq::<TermView>::empty());
        assert(parse_juniper_spec(text@) == match target {
            Err(e) => Err(e),
            Ok((ts, d)) => Ok(PolicyView { name: name@, terms: ts, default_action: d }),
        });
    }
    loop
        invariant
            lv == seqs_of(lines@),
            i <= lines@.len(),
            juniper_items(lv, i as int, terms@.map_values(|t: PolicyTerm| t@), dflt) == target,
            parse_juniper_spec(text@) == match target {
                Err(e) => Err(e),
                Ok((ts, d)) => Ok(PolicyView { name: name@, terms: ts, default_action: d }),
            },
        decreases lines@.len() - i,
    {
        if i >= lines.len() || chars_eq_str(lines[i].as_slice(), "}") {
            return Ok(RoutePolicy { name, terms, default_action: dflt });
        }
        let line = lines[i].as_slice();
        if has_prefix(line, "term ") {
            proof {
                lemma_juniper_term_body_end(lv, i + 1, empty_acc());
            }
            match parse_juniper_term(&lines, i) {
                Err(e) => {
                    return Err(e);
                },
                Ok((t, end)) => {
                    let ghost before = terms@.map_values(|t: PolicyTerm| t@);
                    terms.push(t);
                    proof {
                        assert(terms@.map_values(|t: PolicyTerm| t@) =~= before.push(t@));
                        match juniper_term(lv, i as int) {
                            Ok((_, se)) => {
                                if se > lv.len() {
                                    assert(juniper_items(lv, se, before.push(t@), dflt)
                                        == juniper_items(lv, end as int, before.push(t@), dflt));
                                }
                            },
                            Err(_) => {},
                        }
                    }
                    i = end;
                },
            }
        } else if has_prefix(line, "then ") && !contains_char(line, '{') {
            match parse_inline_then(line) {
                Err(e) => {
                    return Err(e);
                },
                Ok(a) => {
                    dflt = a;
                },
            }
            i += 1;
        } else {
            i += 1;
        }
    }
}

/// Reads a route policy from its text, in either accepted format: text
/// that starts (after trimming) with `policy-options` or `policy-statement`
/// is Juniper-style, any other text is the simple DSL.  On failure the
/// error says what was expected or which value was invalid.
pub fn parse_policy(input: &str) -> (r: Result<RoutePolicy, String>)
    ensures
        policy_result_is(r, policy_from_text(input@)),
{
    let chars = str_chars(input);
    let t = trim_chars(chars.as_slice());
    if has_prefix(t.as_slice(), "policy-options") || has_prefix(t.as_slice(), "policy-statement") {
        parse_juniper_policy(t.as_slice())
    } else {
        parse_simple_policy(t.as_slice())
    }
}

// ── Laws ──

/// Indentation never changes how a policy reads: the parse sees a text
/// only through its lines, each trimmed, once the text as a whole is
/// trimmed; two texts that agree there (such as one text and the same text
/// re-indented) give the same policy or the same error, in either format.
pub proof fn law_parse_ignores_indentation(s1: Seq<char>, s2: Seq<char>)
    requires
        trimmed_lines(trim(s1)) == trimmed_lines(trim(s2)),
    ensures
        policy_from_text(s1) == policy_from_text(s2),
{
    let t1 = trim(s1);
    let t2 = trim(s2);
    crate::text::lemma_trim_starts_solid(s1);
    crate::text::lemma_trim_starts_solid(s2);
    reveal_strlit("policy-options");
    reveal_strlit("policy-statement");
    let po = "policy-options"@;
    let ps = "policy-statement"@;
    assert forall|i: int| 0 <= i < po.len() implies !crate::text::is_ws(#[trigger] po[i]) by {}
    assert forall|i: int| 0 <= i < ps.len() implies !crate::text::is_ws(#[trigger] ps[i]) by {}
    crate::text::lemma_first_line_prefix(t1, po);
    crate::text::lemma_first_line_prefix(t2, po);
    crate::text::lemma_first_line_prefix(t1, ps);
    crate::text::lemma_first_line_prefix(t2, ps);
    if t1.len() == 0 || t2.len() == 0 {
        assert(t1.len() == 0 && t2.len() == 0);
        assert(t1 =~= t2);
    }
}

/// An AS-path pattern `X$` tests the end of the path's text: every text
/// that ends with X (underscores read as spaces) meets it, whatever comes
/// before, so a path `... 65010` meets `65010$`.
pub proof fn law_suffix_pattern_matches_path_end(x: Seq<char>, before: Seq<char>)
    requires
        x.len() == 0 || x[0] != '^',
    ensures
        as_path_matches(x + "$"@, before + replace_char(x, '_', ' ')),
{
    reveal_strlit("$");
    reveal_strlit("^");
    let pat = x + "$"@;
    let want = replace_char(x, '_', ' ');
    let text = before + want;
    assert(pat.len() == x.len() + 1);
    assert(pat[0] != '^');
    assert(pat.take(1)[0] == pat[0]);
    assert("^"@[0] == '^' && "^"@.len() == 1);
    assert(!starts_with(pat, "^"@));
    assert(pat.skip(pat.len() - 1) =~= "$"@);
    assert(pat.take(pat.len() - 1) =~= x);
    assert(text.skip(text.len() - want.len()) =~= want);
}

/// An AS-path pattern `^X` tests the start of the path's text: every text
/// that starts with X (underscores read as spaces) meets it, whatever
/// comes after.
pub proof fn law_prefix_pattern_matches_path_start(x: Seq<char>, after: Seq<char>)
    ensures
        as_path_matches("^"@ + x, replace_char(x, '_', ' ') + after),
{
    reveal_strlit("^");
    let pat = "^"@ + x;
    let want = replace_char(x, '_', ' ');
    assert(pat.take(1) =~= "^"@);
    assert(pat.skip(1) =~= x);
    assert((want + after).take(want.len() as int) =~= want);
}

/// A suffix pattern `X$` is not met by a text that does not end with X:
/// e.g. a path `65010 65002` does not meet `65010$`.
pub proof fn law_suffix_pattern_needs_path_end(x: Seq<char>, text: Seq<char>)
    requires
        x.len() == 0 || x[0] != '^',
        as_path_matches(x + "$"@, text),
    ensures
        ends_with(text, replace_char(x, '_', ' ')),
{
    reveal_strlit("$");
    reveal_strlit("^");
    let pat = x + "$"@;
    assert(pat[0] != '^');
    assert(pat.skip(pat.len() - 1) =~= "$"@);
    assert(pat.take(pat.len() - 1) =~= x);
}

/// A term without conditions matches every route.
pub proof fn law_empty_conditions_match_all(route: RouteView)
    ensures
        matches_spec(empty_match(), route),
{
}

proof fn lemma_first_matching_term_is(terms: Seq<TermView>, route: RouteView, i: int, k: int)
    requires
        0 <= i <= k <= terms.len(),
        forall|j: int| i <= j < k ==> !matches_spec(#[trigger] terms[j].match_conditions, route),
        k < terms.len() ==> matches_spec(terms[k].match_conditions, route),
    ensures
        first_matching_term(terms, route, i) == k,
    decreases k - i,
{
    if i < k {
        lemma_first_matching_term_is(terms, route, i + 1, k);
    }
}

/// When no term of a policy matches a route, the policy gives its default
/// action and leaves the route as it was.
pub proof fn law_unmatched_route_gets_default(policy: PolicyView, route: RouteView)
    requires
        forall|j: int|
            0 <= j < policy.terms.len() ==> !matches_spec(#[trigger] policy.terms[j].match_conditions, route),
    ensures
        apply_policy_spec(policy, route) == (policy.default_action, route),
{
    lemma_first_matching_term_is(policy.terms, route, 0, policy.terms.len() as int);
}

/// Terms are tried in order: the first term that matches a route decides
/// the verdict, whatever the later terms say.
pub proof fn law_first_matching_term_decides(policy: PolicyView, route: RouteView, k: int)
    requires
        0 <= k < policy.terms.len(),
        matches_spec(policy.terms[k].match_conditions, route),
        forall|j: int| 0 <= j < k ==> !matches_spec(#[trigger] policy.terms[j].match_conditions, route),
    ensures
        apply_policy_spec(policy, route).0 == policy.terms[k].terminal_action,
        apply_policy_spec(policy, route).1 == set_actions_spec(
            policy.terms[k].actions,
            policy.terms[k].actions.len() as int,
            route,
        ),
{
    lemma_first_matching_term_is(policy.terms, route, 0, k);
}

/// Adding a community that a route already carries changes nothing, so
/// adding it twice is adding it once.
pub proof fn law_add_community_idempotent(route: RouteView, c: Seq<char>)
    ensures
        set_action_spec(
            SetActionView::AddCommunity(c),
            set_action_spec(SetActionView::AddCommunity(c), route),
        ) == set_action_spec(SetActionView::AddCommunity(c), route),
{
    let once = set_action_spec(SetActionView::AddCommunity(c), route);
    if !route.attributes.communities.contains(c) {
        assert(once.attributes.communities[route.attributes.communities.len() as int] == c);
    }
    assert(once.attributes.communities.contains(c));
}

proof fn lemma_remove_all(s: Seq<Seq<char>>, c: Seq<char>)
    ensures
        !remove_all(s, c).contains(c),
        forall|x: Seq<char>| x != c ==> (remove_all(s, c).contains(x) <==> s.contains(x)),
    decreases s.len(),
{
    if s.len() > 0 {
        lemma_remove_all(s.drop_last(), c);
        let r = remove_all(s.drop_last(), c);
        assert forall|x: Seq<char>| x != c implies (remove_all(s, c).contains(x) <==> s.contains(x)) by {
            if s.contains(x) {
                let i = choose|i: int| 0 <= i < s.len() && s[i] == x;
                if i < s.len() - 1 {
                    assert(s.drop_last()[i] == x);
                }
            }
            if s.drop_last().contains(x) {
                let i = choose|i: int| 0 <= i < s.drop_last().len() && s.drop_last()[i] == x;
                assert(s[i] == x);
            }
            if s.last() != c && r.push(s.last()).contains(x) && !r.contains(x) {
                assert(x == s.last());
                assert(s[s.len() - 1] == x);
            }
            if r.contains(x) && s.last() != c {
                let i = choose|i: int| 0 <= i < r.len() && r[i] == x;
                assert(r.push(s.last())[i] == x);
            }
            if s.last() != c && x == s.last() {
                assert(r.push(s.last())[r.len() as int] == x);
            }
        }
        if s.last() != c {
            assert forall|i: int| 0 <= i < r.push(s.last()).len() implies r.push(s.last())[i] != c by {
                if i < r.len() {
                    assert(r.push(s.last())[i] == r[i]);
                }
            }
        }
    }
}

/// Removing a community takes every copy of it off a route, and no other
/// community; in particular it undoes adding it to a route that did not
/// carry it.
pub proof fn law_remove_community_removes_it(route: RouteView, c: Seq<char>)
    ensures
        !set_action_spec(SetActionView::RemoveCommunity(c), route).attributes.communities.contains(c),
        forall|x: Seq<char>|
            x != c ==> (set_action_spec(SetActionView::RemoveCommunity(c), route).attributes.communities.contains(x)
                <==> route.attributes.communities.contains(x)),
        !route.attributes.communities.contains(c) ==> set_action_spec(
            SetActionView::RemoveCommunity(c),
            set_action_spec(SetActionView::AddCommunity(c), route),
        ).attributes.communities =~= route.attributes.communities,
{
    lemma_remove_all(route.attributes.communities, c);
    if !route.attributes.communities.contains(c) {
        lemma_remove_all_absent(route.attributes.communities, c);
        let s = route.attributes.communities;
        assert(s.push(c).drop_last() =~= s);
    }
}

proof fn lemma_remove_all_absent(s: Seq<Seq<char>>, c: Seq<char>)
    requires
        !s.contains(c),
    ensures
        remove_all(s, c) == s,
    decreases s.len(),
{
    if s.len() > 0 {
        assert(!s.drop_last().contains(c)) by {
            if s.drop_last().contains(c) {
                let i = choose|i: int| 0 <= i < s.drop_last().len() && s.drop_last()[i] == c;
                assert(s[i] == c);
            }
        }
        lemma_remove_all_absent(s.drop_last(), c);
        assert(s[s.len() - 1] != c);
        assert(s.drop_last().push(s.last()) =~= s);
    }
}

} // verus!
