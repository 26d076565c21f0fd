//! The ratsnest: the connections that a design rule check reports as missing, with
//! their ends resolved to the pads of the board.
use vstd::prelude::*;
use crate::order::{ascending, has_text, insert_ascending, texts};
use crate::pads::{records_view, PadRecord, PlacedPad};
use crate::report::{drcs_view, Drc, DrcViolation};
use crate::text::same_text;

verus! {

// ─── The pad at a position ────────────────────────────────────────────────────

/// Is `i` the first of the nearest among those that have a distance?
pub open spec fn is_nearest(distances: Seq<Option<u64>>, i: int) -> bool {
    &&& 0 <= i < distances.len()
    &&& distances[i] is Some
    &&& forall|j: int|
        0 <= j < distances.len() && (#[trigger] distances[j]) is Some ==> distances[i]->0
            <= distances[j]->0 && (j < i ==> distances[i]->0 < distances[j]->0)
}

/// The pad that a position resolves to: the first of the nearest. A pad that is too
/// far away to be meant has no distance; the distance of another is given as an
/// integer that orders as the distance does.
pub fn resolve_pad_at(distances: &Vec<Option<u64>>) -> (r: Option<usize>)
    ensures
        match r {
            Some(i) => is_nearest(distances@, i as int),
            None => forall|j: int| 0 <= j < distances@.len() ==> (#[trigger] distances@[j]) is None,
        },
{
    let mut best: Option<usize> = None;
    let mut i: usize = 0;
    while i < distances.len()
        invariant
            i <= distances@.len(),
            match best {
                Some(b) => b < i && is_nearest(distances@.take(i as int), b as int),
                None => forall|j: int| 0 <= j < i ==> (#[trigger] distances@[j]) is None,
            },
        decreases distances@.len() - i,
    {
        let ghost seen = distances@.take(i as int);
        let ghost next = distances@.take(i + 1);
        if let Some(d) = distances[i] {
            let nearer = match best {
                Some(b) => match distances[b] {
                    Some(least) => d < least,
                    None => true,
                },
                None => true,
            };
            if nearer {
                proof {
                    assert forall|j: int| 0 <= j < next.len() && (
                    #[trigger] next[j]) is Some implies d <= next[j]->0 && (j < i ==> d
                        < next[j]->0) by {
                        if j < i {
                            assert(seen[j] == next[j]);
                            assert(distances@[j] == next[j]);
                        }
                    }
                    assert(is_nearest(next, i as int));
                }
                best = Some(i);
            }
        }
        proof {
            if let Some(b) = best {
                if b < i {
                    assert forall|j: int| 0 <= j < next.len() && (
                    #[trigger] next[j]) is Some implies next[b as int]->0 <= next[j]->0 && (j < b
                        ==> next[b as int]->0 < next[j]->0) by {
                        if j < i {
                            assert(seen[j] == next[j]);
                        }
                        assert(seen[b as int] == next[b as int]);
                    }
                }
            }
        }
        i = i + 1;
    }
    assert(distances@.take(distances@.len() as int) =~= distances@);
    best
}

// ─── Connections ──────────────────────────────────────────────────────────────

/// A missing connection.
#[derive(Debug, Clone, PartialEq)]
pub struct Connection {
    /// The violation that reports it, as a position in the report.
    pub violation: usize,
    /// The net of the first end that is a pad, or the empty text.
    pub net: String,
    /// For each end the pad that it is, as a position in the list of pads, where it is
    /// one.
    pub endpoints: Vec<Option<usize>>,
    /// The two pads whose distance the connection has: there is one where it has two
    /// ends and both are pads.
    pub span: Option<(usize, usize)>,
}

/// What a missing connection is.
pub struct Link {
    pub violation: int,
    pub net: Seq<char>,
    pub endpoints: Seq<Option<usize>>,
    pub span: Option<(usize, usize)>,
}

impl View for Connection {
    type V = Link;

    open spec fn view(&self) -> Link {
        Link {
            violation: self.violation as int,
            net: self.net@,
            endpoints: self.endpoints@,
            span: self.span,
        }
    }
}

/// The connections that a list of them stands for.
pub open spec fn links_view(v: Seq<Connection>) -> Seq<Link> {
    Seq::new(v.len(), |i: int| v[i]@)
}

/// The pad that end `k` of violation `v` was resolved to, if any.
pub open spec fn hit_at(hits: Seq<Seq<Option<usize>>>, v: int, k: int, pads: nat) -> Option<usize> {
    if 0 <= v < hits.len() && 0 <= k < hits[v].len() {
        match hits[v][k] {
            Some(p) => if p < pads {
                Some(p)
            } else {
                None
            },
            None => None,
        }
    } else {
        None
    }
}

/// The ends of violation `v`.
pub open spec fn ends_of(hits: Seq<Seq<Option<usize>>>, v: int, ends: nat, pads: nat) -> Seq<
    Option<usize>,
> {
    Seq::new(ends, |k: int| hit_at(hits, v, k, pads))
}

/// The first end that is a pad.
pub open spec fn first_pad(ends: Seq<Option<usize>>) -> Option<usize>
    decreases ends.len(),
{
    if ends.len() == 0 {
        None
    } else {
        match first_pad(ends.drop_last()) {
            Some(p) => Some(p),
            None => ends.last(),
        }
    }
}

/// The net of the first end that is a pad, or the empty text.
pub open spec fn net_of(ends: Seq<Option<usize>>, pads: Seq<PlacedPad>) -> Seq<char> {
    match first_pad(ends) {
        Some(p) => pads[p as int].net,
        None => Seq::empty(),
    }
}

/// The two pads whose distance a connection has.
pub open spec fn span_of(ends: Seq<Option<usize>>) -> Option<(usize, usize)> {
    if ends.len() == 2 {
        match (ends[0], ends[1]) {
            (Some(a), Some(b)) => Some((a, b)),
            _ => None,
        }
    } else {
        None
    }
}

/// Does the filter let a connection through? Only one on a net that it names passes, so that
/// none does whose net is not known.
pub open spec fn passes(filter: Option<Seq<Seq<char>>>, net: Seq<char>) -> bool {
    match filter {
        Some(names) => names.contains(net),
        None => true,
    }
}

/// The connection that violation `v` reports as missing.
pub open spec fn link_of(
    violations: Seq<Drc>,
    v: int,
    hits: Seq<Seq<Option<usize>>>,
    pads: Seq<PlacedPad>,
) -> Link {
    let ends = ends_of(hits, v, violations[v].items.len(), pads.len());
    Link { violation: v, net: net_of(ends, pads), endpoints: ends, span: span_of(ends) }
}

/// The connections that the first `n` violations report as missing, in order.
pub open spec fn links_of(
    violations: Seq<Drc>,
    n: int,
    hits: Seq<Seq<Option<usize>>>,
    pads: Seq<PlacedPad>,
    filter: Option<Seq<Seq<char>>>,
) -> Seq<Link>
    decreases n,
{
    if n <= 0 {
        Seq::empty()
    } else {
        let before = links_of(violations, n - 1, hits, pads, filter);
        let link = link_of(violations, n - 1, hits, pads);
        if violations[n - 1].kind == "unconnected"@ && passes(filter, link.net) {
            before.push(link)
        } else {
            before
        }
    }
}

/// The nets that a list of connections affects.
pub open spec fn affected(links: Seq<Link>) -> Set<Seq<char>>
    decreases links.len(),
{
    if links.len() == 0 {
        Set::empty()
    } else {
        let before = affected(links.drop_last());
        if links.last().net.len() == 0 {
            before
        } else {
            before.insert(links.last().net)
        }
    }
}

/// The views of the lists of hits.
pub open spec fn hits_view(hits: Seq<Vec<Option<usize>>>) -> Seq<Seq<Option<usize>>> {
    Seq::new(hits.len(), |i: int| hits[i]@)
}

/// The names of a filter.
pub open spec fn filter_view(filter: Option<Vec<String>>) -> Option<Seq<Seq<char>>> {
    match filter {
        Some(v) => Some(texts(v@)),
        None => None,
    }
}

/// The missing connections of a board.
#[derive(Debug, Clone)]
pub struct Unrouted {
    pub connections: Vec<Connection>,
    /// The nets that are affected, each once, in ascending order.
    pub nets_affected: Vec<String>,
}

fn resolve_ends(hits: &Vec<Vec<Option<usize>>>, v: usize, ends: usize, pads: usize) -> (r: Vec<
    Option<usize>,
>)
    ensures
        r@ == ends_of(hits_view(hits@), v as int, ends as nat, pads as nat),
{
    let ghost all = hits_view(hits@);
    let mut out: Vec<Option<usize>> = Vec::new();
    let mut k: usize = 0;
    while k < ends
        invariant
            k <= ends,
            k == out@.len(),
            all == hits_view(hits@),
            forall|j: int| 0 <= j < k ==> #[trigger] out@[j] == hit_at(all, v as int, j, pads as nat),
        decreases ends - k,
    {
        let hit = if v < hits.len() && k < hits[v].len() {
            match hits[v][k] {
                Some(p) => if p < pads {
                    Some(p)
                } else {
                    None
                },
                None => None,
            }
        } else {
            None
        };
        out.push(hit);
        k = k + 1;
    }
    assert(out@ =~= ends_of(all, v as int, ends as nat, pads as nat));
    out
}

fn first_net(ends: &Vec<Option<usize>>, pads: &Vec<PadRecord>) -> (r: String)
    requires
        forall|k: int|
            0 <= k < ends@.len() ==> ((#[trigger] ends@[k]) matches Some(p) ==> p < pads@.len()),
    ensures
        r@ == net_of(ends@, records_view(pads@)),
{
    let mut found: Option<usize> = None;
    let mut i: usize = 0;
    while i < ends.len()
        invariant
            i <= ends@.len(),
            found == first_pad(ends@.take(i as int)),
            found matches Some(p) ==> p < pads@.len(),
            forall|k: int|
                0 <= k < ends@.len() ==> ((#[trigger] ends@[k]) matches Some(p) ==> p
                    < pads@.len()),
        decreases ends@.len() - i,
    {
        proof {
            assert(ends@.take(i + 1).drop_last() =~= ends@.take(i as int));
            assert(ends@.take(i + 1).last() == ends@[i as int]);
        }
        if found.is_none() {
            found = ends[i];
        }
        i = i + 1;
    }
    assert(ends@.take(ends@.len() as int) =~= ends@);
    match found {
        Some(p) => pads[p].net.clone(),
        None => String::new(),
    }
}

fn find_span(ends: &Vec<Option<usize>>) -> (r: Option<(usize, usize)>)
    ensures
        r == span_of(ends@),
{
    if ends.len() == 2 {
        match (ends[0], ends[1]) {
            (Some(a), Some(b)) => Some((a, b)),
            _ => None,
        }
    } else {
        None
    }
}

fn filter_passes(filter: &Option<Vec<String>>, net: &String) -> (r: bool)
    ensures
        r == passes(filter_view(*filter), net@),
{
    match filter {
        Some(names) => has_text(names, net.as_str()),
        None => true,
    }
}

fn list_affected(connections: &Vec<Connection>) -> (r: Vec<String>)
    ensures
        ascending(texts(r@)),
        texts(r@).to_set() == affected(links_view(connections@)),
{
    let ghost all = links_view(connections@);
    let mut out: Vec<String> = Vec::new();
    assert(texts(out@).to_set() =~= Set::<Seq<char>>::empty());
    let mut i: usize = 0;
    while i < connections.len()
        invariant
            i <= connections@.len(),
            all == links_view(connections@),
            ascending(texts(out@)),
            texts(out@).to_set() == affected(all.take(i as int)),
        decreases connections@.len() - i,
    {
        let c = &connections[i];
        proof {
            assert(all.take(i + 1).drop_last() =~= all.take(i as int));
            assert(all.take(i + 1).last() == c@);
        }
        if !c.net.as_str().is_empty() {
            insert_ascending(&mut out, c.net.clone());
        }
        i = i + 1;
    }
    assert(all.take(connections@.len() as int) =~= all);
    out
}

/// The missing connections that a design rule report gives. `hits` holds, for each
/// violation and each of its items, the position in `pads` of the pad that stands where
/// the item is, if one does.
pub fn unrouted_connections(
    violations: &Vec<DrcViolation>,
    hits: &Vec<Vec<Option<usize>>>,
    pads: &Vec<PadRecord>,
    net_filter: &Option<Vec<String>>,
) -> (r: Unrouted)
    ensures
        links_view(r.connections@) == links_of(
            drcs_view(violations@),
            violations@.len() as int,
            hits_view(hits@),
            records_view(pads@),
            filter_view(*net_filter),
        ),
        ascending(texts(r.nets_affected@)),
        texts(r.nets_affected@).to_set() == affected(links_view(r.connections@)),
{
    let ghost all = drcs_view(violations@);
    let ghost hv = hits_view(hits@);
    let ghost pv = records_view(pads@);
    let ghost fv = filter_view(*net_filter);
    let mut connections: Vec<Connection> = Vec::new();
    assert(links_view(connections@) =~= Seq::<Link>::empty());
    let mut i: usize = 0;
    while i < violations.len()
        invariant
            i <= violations@.len(),
            all == drcs_view(violations@),
            hv == hits_view(hits@),
            pv == records_view(pads@),
            fv == filter_view(*net_filter),
            links_view(connections@) == links_of(all, i as int, hv, pv, fv),
        decreases violations@.len() - i,
    {
        let v = &violations[i];
        assert(all[i as int] == v@);
        if same_text(v.kind.as_str(), "unconnected") {
            let endpoints = resolve_ends(hits, i, v.items.len(), pads.len());
            let net = first_net(&endpoints, pads);
            if filter_passes(net_filter, &net) {
                let span = find_span(&endpoints);
                let c = Connection { violation: i, net, endpoints, span };
                proof {
                    assert(c@ == link_of(all, i as int, hv, pv));
                    assert(links_view(connections@.push(c)) =~= links_view(connections@).push(c@));
                }
                connections.push(c);
            }
        }
        i = i + 1;
    }
    let nets_affected = list_affected(&connections);
    Unrouted { connections, nets_affected }
}

// ─── Laws ─────────────────────────────────────────────────────────────────────

proof fn lemma_affected(links: Seq<Link>, net: Seq<char>)
    ensures
        affected(links).contains(net) <==> net.len() > 0 && exists|i: int|
            0 <= i < links.len() && (#[trigger] links[i]).net == net,
    decreases links.len(),
{
    if links.len() > 0 {
        let before = links.drop_last();
        lemma_affected(before, net);
        if net.len() > 0 && exists|i: int|
            0 <= i < links.len() && (#[trigger] links[i]).net == net {
            let i = choose|i: int| 0 <= i < links.len() && (#[trigger] links[i]).net == net;
            if i < before.len() {
                assert(before[i].net == net);
            }
        }
        if affected(links).contains(net) {
            if affected(before).contains(net) {
                let i = choose|i: int| 0 <= i < before.len() && (#[trigger] before[i]).net == net;
                assert(links[i].net == net);
            } else {
                assert(links[links.len() - 1].net == net);
            }
        }
    }
}

/// The affected nets are the nets of the connections, but for those that are not known.
pub proof fn law_affected_nets(links: Seq<Link>, net: Seq<char>)
    ensures
        affected(links).contains(net) <==> net.len() > 0 && exists|i: int|
            0 <= i < links.len() && (#[trigger] links[i]).net == net,
{
    lemma_affected(links, net);
}

proof fn lemma_links(
    violations: Seq<Drc>,
    n: int,
    hits: Seq<Seq<Option<usize>>>,
    pads: Seq<PlacedPad>,
    filter: Option<Seq<Seq<char>>>,
    v: int,
)
    requires
        0 <= v < n <= violations.len(),
    ensures
        (exists|i: int|
            0 <= i < links_of(violations, n, hits, pads, filter).len() && (#[trigger] links_of(
                violations,
                n,
                hits,
                pads,
                filter,
            )[i]) == link_of(violations, v, hits, pads)) <== violations[v].kind == "unconnected"@
            && passes(filter, link_of(violations, v, hits, pads).net),
    decreases n,
{
    let all = links_of(violations, n, hits, pads, filter);
    let before = links_of(violations, n - 1, hits, pads, filter);
    let link = link_of(violations, v, hits, pads);
    if violations[v].kind == "unconnected"@ && passes(filter, link.net) {
        if v == n - 1 {
            assert(all[all.len() - 1] == link);
        } else {
            lemma_links(violations, n - 1, hits, pads, filter, v);
            let i = choose|i: int| 0 <= i < before.len() && (#[trigger] before[i]) == link;
            assert(all[i] == link);
        }
    }
}

proof fn lemma_links_sound(
    violations: Seq<Drc>,
    n: int,
    hits: Seq<Seq<Option<usize>>>,
    pads: Seq<PlacedPad>,
    filter: Option<Seq<Seq<char>>>,
)
    requires
        n <= violations.len(),
    ensures
        forall|i: int|
            0 <= i < links_of(violations, n, hits, pads, filter).len() ==> {
                let link = #[trigger] links_of(violations, n, hits, pads, filter)[i];
                &&& 0 <= link.violation < n
                &&& violations[link.violation].kind == "unconnected"@
                &&& link == link_of(violations, link.violation, hits, pads)
                &&& passes(filter, link.net)
            },
    decreases n,
{
    if n > 0 {
        lemma_links_sound(violations, n - 1, hits, pads, filter);
        let all = links_of(violations, n, hits, pads, filter);
        let before = links_of(violations, n - 1, hits, pads, filter);
        assert forall|i: int| 0 <= i < all.len() implies {
            let link = #[trigger] all[i];
            &&& 0 <= link.violation < n
            &&& violations[link.violation].kind == "unconnected"@
            &&& link == link_of(violations, link.violation, hits, pads)
            &&& passes(filter, link.net)
        } by {
            if i < before.len() {
                assert(all[i] == before[i]);
            }
        }
    }
}

/// Every connection comes from a violation of the kind "unconnected" and passes the
/// filter, and every such violation that passes the filter gives one.
pub proof fn law_connections_are_the_unconnected(
    violations: Seq<Drc>,
    hits: Seq<Seq<Option<usize>>>,
    pads: Seq<PlacedPad>,
    filter: Option<Seq<Seq<char>>>,
    v: int,
)
    requires
        0 <= v < violations.len(),
    ensures
        (exists|i: int|
            0 <= i < links_of(violations, violations.len() as int, hits, pads, filter).len() && (
            #[trigger] links_of(violations, violations.len() as int, hits, pads, filter)[i])
                == link_of(violations, v, hits, pads)) <==> violations[v].kind == "unconnected"@
            && passes(filter, link_of(violations, v, hits, pads).net),
{
    lemma_links(violations, violations.len() as int, hits, pads, filter, v);
    lemma_links_sound(violations, violations.len() as int, hits, pads, filter);
}

/// Where there is a filter, every connection is on one of the nets that it names.
pub proof fn law_filter_is_kept(
    violations: Seq<Drc>,
    hits: Seq<Seq<Option<usize>>>,
    pads: Seq<PlacedPad>,
    names: Seq<Seq<char>>,
    i: int,
)
    requires
        0 <= i < links_of(violations, violations.len() as int, hits, pads, Some(names)).len(),
    ensures
        names.contains(
            links_of(violations, violations.len() as int, hits, pads, Some(names))[i].net,
        ),
{
    lemma_links_sound(violations, violations.len() as int, hits, pads, Some(names));
}

proof fn lemma_same_links(
    a: Seq<Drc>,
    b: Seq<Drc>,
    n: int,
    hits: Seq<Seq<Option<usize>>>,
    pads: Seq<PlacedPad>,
    filter: Option<Seq<Seq<char>>>,
)
    requires
        n <= a.len(),
        a.len() == b.len(),
        forall|i: int|
            0 <= i < a.len() ==> (#[trigger] a[i]).kind == b[i].kind && a[i].items.len()
                == b[i].items.len(),
    ensures
        links_of(a, n, hits, pads, filter) == links_of(b, n, hits, pads, filter),
    decreases n,
{
    if n > 0 {
        lemma_same_links(a, b, n - 1, hits, pads, filter);
        assert(a[n - 1].kind == b[n - 1].kind);
    }
}

/// The language of a report does not matter: two reports that differ in their wording
/// alone give the same connections.
pub proof fn law_wording_does_not_matter(
    a: Seq<Drc>,
    b: Seq<Drc>,
    hits: Seq<Seq<Option<usize>>>,
    pads: Seq<PlacedPad>,
    filter: Option<Seq<Seq<char>>>,
)
    requires
        a.len() == b.len(),
        forall|i: int|
            0 <= i < a.len() ==> (#[trigger] a[i]).kind == b[i].kind && a[i].items.len()
                == b[i].items.len(),
    ensures
        links_of(a, a.len() as int, hits, pads, filter) == links_of(
            b,
            b.len() as int,
            hits,
            pads,
            filter,
        ),
{
    lemma_same_links(a, b, a.len() as int, hits, pads, filter);
}

proof fn lemma_first_pad(ends: Seq<Option<usize>>, k: int)
    requires
        k <= ends.len(),
        forall|j: int| 0 <= j < k ==> (#[trigger] ends[j]) is None,
        0 <= k < ends.len() ==> ends[k] is Some,
    ensures
        0 <= k < ends.len() ==> first_pad(ends) == ends[k],
        k == ends.len() ==> first_pad(ends) is None,
    decreases ends.len(),
{
    if ends.len() > 0 && k >= 0 {
        let before = ends.drop_last();
        let m = if k == ends.len() {
            k - 1
        } else {
            k
        };
        assert forall|j: int| 0 <= j < m implies (#[trigger] before[j]) is None by {
            assert(before[j] == ends[j]);
        }
        assert(k == ends.len() ==> ends[k - 1] is None);
        if m < before.len() {
            assert(before[m] == ends[m]);
        }
        lemma_first_pad(before, m);
    }
}

/// The net of a connection is that of its first end that is a pad, wherever among the ends
/// that one stands.
pub proof fn law_net_is_that_of_the_first_pad(
    violations: Seq<Drc>,
    hits: Seq<Seq<Option<usize>>>,
    pads: Seq<PlacedPad>,
    filter: Option<Seq<Seq<char>>>,
    i: int,
    k: int,
    p: usize,
)
    requires
        0 <= i < links_of(violations, violations.len() as int, hits, pads, filter).len(),
        ({
            let link = links_of(violations, violations.len() as int, hits, pads, filter)[i];
            &&& 0 <= k < link.endpoints.len()
            &&& link.endpoints[k] == Some(p)
            &&& forall|j: int| 0 <= j < k ==> (#[trigger] link.endpoints[j]) is None
        }),
    ensures
        p < pads.len(),
        links_of(violations, violations.len() as int, hits, pads, filter)[i].net
            == pads[p as int].net,
{
    lemma_links_sound(violations, violations.len() as int, hits, pads, filter);
    lemma_first_pad(
        links_of(violations, violations.len() as int, hits, pads, filter)[i].endpoints,
        k,
    );
}

/// Only a connection none of whose ends is a pad has no net.
pub proof fn law_no_pad_no_net(
    violations: Seq<Drc>,
    hits: Seq<Seq<Option<usize>>>,
    pads: Seq<PlacedPad>,
    filter: Option<Seq<Seq<char>>>,
    i: int,
)
    requires
        0 <= i < links_of(violations, violations.len() as int, hits, pads, filter).len(),
        ({
            let link = links_of(violations, violations.len() as int, hits, pads, filter)[i];
            forall|j: int| 0 <= j < link.endpoints.len() ==> (#[trigger] link.endpoints[j]) is None
        }),
    ensures
        links_of(violations, violations.len() as int, hits, pads, filter)[i].net == Seq::<
            char,
        >::empty(),
{
    lemma_links_sound(violations, violations.len() as int, hits, pads, filter);
    let ends = links_of(violations, violations.len() as int, hits, pads, filter)[i].endpoints;
    lemma_first_pad(ends, ends.len() as int);
}

/// A connection has an end for each object that its violation references, in order, and an
/// end is a pad where the object was resolved to one that the board has. It has a distance
/// where it has two ends and both are pads.
pub proof fn law_ends_of_a_connection(
    violations: Seq<Drc>,
    hits: Seq<Seq<Option<usize>>>,
    pads: Seq<PlacedPad>,
    filter: Option<Seq<Seq<char>>>,
    i: int,
    k: int,
    p: usize,
    q: usize,
)
    requires
        0 <= i < links_of(violations, violations.len() as int, hits, pads, filter).len(),
    ensures
        ({
            let link = links_of(violations, violations.len() as int, hits, pads, filter)[i];
            let v = link.violation;
            &&& 0 <= v < violations.len()
            &&& violations[v].kind == "unconnected"@
            &&& link.endpoints.len() == violations[v].items.len()
            &&& 0 <= k < link.endpoints.len() ==> (link.endpoints[k] == Some(p) <==> v < hits.len()
                && k < hits[v].len() && hits[v][k] == Some(p) && p < pads.len())
            &&& link.span == Some((p, q)) <==> link.endpoints.len() == 2 && link.endpoints[0]
                == Some(p) && link.endpoints[1] == Some(q)
        }),
{
    lemma_links_sound(violations, violations.len() as int, hits, pads, filter);
}

proof fn lemma_links_ordered(
    violations: Seq<Drc>,
    n: int,
    hits: Seq<Seq<Option<usize>>>,
    pads: Seq<PlacedPad>,
    filter: Option<Seq<Seq<char>>>,
    i: int,
    j: int,
)
    requires
        n <= violations.len(),
        0 <= i < j < links_of(violations, n, hits, pads, filter).len(),
    ensures
        links_of(violations, n, hits, pads, filter)[i].violation < links_of(
            violations,
            n,
            hits,
            pads,
            filter,
        )[j].violation,
    decreases n,
{
    let before = links_of(violations, n - 1, hits, pads, filter);
    if j < before.len() {
        lemma_links_ordered(violations, n - 1, hits, pads, filter, i, j);
    } else {
        lemma_links_sound(violations, n - 1, hits, pads, filter);
        assert(before[i].violation < n - 1);
    }
}

/// Without a filter, every violation of the kind "unconnected" gives one connection, in the
/// order of the report.
pub proof fn law_one_connection_per_violation(
    violations: Seq<Drc>,
    hits: Seq<Seq<Option<usize>>>,
    pads: Seq<PlacedPad>,
    v: int,
    i: int,
    j: int,
)
    ensures
        ({
            let links = links_of(violations, violations.len() as int, hits, pads, None);
            &&& 0 <= v < violations.len() && violations[v].kind == "unconnected"@ ==> exists|k: int|
                0 <= k < links.len() && (#[trigger] links[k]).violation == v
            &&& 0 <= i < j < links.len() ==> links[i].violation < links[j].violation
        }),
{
    let n = violations.len() as int;
    let links = links_of(violations, n, hits, pads, None);
    if 0 <= v < n && violations[v].kind == "unconnected"@ {
        lemma_links(violations, n, hits, pads, None, v);
        let k = choose|k: int|
            0 <= k < links.len() && (#[trigger] links[k]) == link_of(violations, v, hits, pads);
        assert(links[k].violation == v);
    }
    if 0 <= i < j < links.len() {
        lemma_links_ordered(violations, n, hits, pads, None, i, j);
    }
}

proof fn lemma_filtered_links(
    violations: Seq<Drc>,
    n: int,
    hits: Seq<Seq<Option<usize>>>,
    pads: Seq<PlacedPad>,
    names: Seq<Seq<char>>,
)
    ensures
        links_of(violations, n, hits, pads, Some(names)) == links_of(
            violations,
            n,
            hits,
            pads,
            None,
        ).filter(|l: Link| names.contains(l.net)),
    decreases n,
{
    reveal(Seq::filter);
    if n > 0 {
        lemma_filtered_links(violations, n - 1, hits, pads, names);
        let before = links_of(violations, n - 1, hits, pads, None);
        let link = link_of(violations, n - 1, hits, pads);
        assert(before.push(link).drop_last() =~= before);
    }
}

/// A filter only selects: it gives those of the connections that there are without it whose
/// net it names, as they are and in their order.
pub proof fn law_filter_selects(
    violations: Seq<Drc>,
    hits: Seq<Seq<Option<usize>>>,
    pads: Seq<PlacedPad>,
    names: Seq<Seq<char>>,
)
    ensures
        links_of(violations, violations.len() as int, hits, pads, Some(names)) == links_of(
            violations,
            violations.len() as int,
            hits,
            pads,
            None,
        ).filter(|l: Link| names.contains(l.net)),
{
    lemma_filtered_links(violations, violations.len() as int, hits, pads, names);
}

/// The pad that a position resolves to is nearer than every pad before it, and no farther than
/// any behind it; so there is only one such pad.
pub proof fn law_nearest_pad(distances: Seq<Option<u64>>, i: int, j: int)
    requires
        is_nearest(distances, i),
        0 <= j < distances.len(),
        distances[j] is Some,
    ensures
        0 <= i < distances.len(),
        distances[i] is Some,
        j < i ==> distances[i]->0 < distances[j]->0,
        j > i ==> distances[i]->0 <= distances[j]->0,
        is_nearest(distances, j) ==> i == j,
{
}

} // verus!
