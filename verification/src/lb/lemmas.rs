//! Facts about filtered sequences, about the mapping of an update and about
//! applying it, on which the proofs of the manager rest.
use super::DstAddr;
use super::endpoint::EndpointView;
use super::model::addr_index;
use super::model::distinct_addrs;
use super::model::distinct_names;
use super::model::first_awaiting;
use super::model::has_addr;
use super::model::is_named;
use super::model::is_retiring;
use super::model::ManagerView;
use super::model::mapping;
use super::model::named;
use super::model::named_index;
use super::model::remember;
use super::model::upsert;
use super::model::upsert_all;
use super::PeerAddr;
use vstd::prelude::*;

verus! {

/// Filtering one element more of a sequence adds that element or nothing.
pub proof fn lemma_filter_step<A>(s: Seq<A>, p: spec_fn(A) -> bool, i: int)
    requires
        0 <= i < s.len(),
    ensures
        s.take(i + 1).filter(p) == if p(s[i]) {
            s.take(i).filter(p).push(s[i])
        } else {
            s.take(i).filter(p)
        },
{
    assert(s.take(i + 1) =~= s.take(i).push(s[i]));
    s.take(i).lemma_filter_push(s[i], p);
}

/// Filtering twice by the same test is filtering once.
pub proof fn lemma_filter_idempotent<A>(s: Seq<A>, p: spec_fn(A) -> bool)
    ensures
        s.filter(p).filter(p) == s.filter(p),
    decreases s.len(),
{
    reveal(Seq::filter);
    if s.len() > 0 {
        lemma_filter_idempotent(s.drop_last(), p);
        if p(s.last()) {
            s.drop_last().filter(p).lemma_filter_push(s.last(), p);
        }
    }
}

/// Where every element passes the test, filtering changes nothing.
pub proof fn lemma_filter_all<A>(s: Seq<A>, p: spec_fn(A) -> bool)
    requires
        forall|i: int| 0 <= i < s.len() ==> p(#[trigger] s[i]),
    ensures
        s.filter(p) == s,
    decreases s.len(),
{
    reveal(Seq::filter);
    if s.len() > 0 {
        assert forall|i: int|
            0 <= i < s.drop_last().len() implies
            p(#[trigger] s.drop_last()[i]) by {
            assert(s.drop_last()[i] == s[i]);
        }
        lemma_filter_all(s.drop_last(), p);
        assert(p(s[s.len() - 1]));
        assert(s.drop_last().push(s.last()) =~= s);
    }
}

/// Nothing passes two tests that exclude each other.
pub proof fn lemma_filter_contrary<A>(s: Seq<A>, p: spec_fn(A) -> bool, q: spec_fn(A) -> bool)
    requires
        forall|x: A| #[trigger] p(x) ==> !q(x),
    ensures
        s.filter(p).filter(q) == Seq::<A>::empty(),
    decreases s.len(),
{
    reveal(Seq::filter);
    if s.len() > 0 {
        lemma_filter_contrary(s.drop_last(), p, q);
        if p(s.last()) {
            s.drop_last().filter(p).lemma_filter_push(s.last(), q);
        }
    }
}

/// Every element of a filtered sequence passes the test and comes from the
/// sequence.
pub proof fn lemma_filter_member<A>(s: Seq<A>, p: spec_fn(A) -> bool, k: int)
    requires
        0 <= k < s.filter(p).len(),
    ensures
        p(s.filter(p)[k]),
        exists|i: int| 0 <= i < s.len() && s[i] == s.filter(p)[k],
{
    s.lemma_filter_pred(p, k);
    assert(s.filter(p).contains(s.filter(p)[k]));
    s.lemma_filter_contains_rev(p, s.filter(p)[k]);
}

/// A peer with an endpoint in a filtered sequence has that endpoint in the
/// sequence, and it passes the test.
pub proof fn lemma_filter_has_addr(s: Seq<EndpointView>, p: spec_fn(EndpointView) -> bool, a: PeerAddr)
    requires
        has_addr(s.filter(p), a),
    ensures
        has_addr(s, a),
        exists|i: int| 0 <= i < s.len() && (#[trigger] s[i]).peer_addr == a && p(s[i]),
{
    let k = choose|k: int| 0 <= k < s.filter(p).len() && (#[trigger] s.filter(p)[k]).peer_addr == a;
    lemma_filter_member(s, p, k);
    let i = choose|i: int| 0 <= i < s.len() && s[i] == s.filter(p)[k];
    assert(s[i].peer_addr == a && p(s[i]));
}

/// Filtering keeps the peers of a sequence distinct.
pub proof fn lemma_filter_distinct(s: Seq<EndpointView>, p: spec_fn(EndpointView) -> bool)
    requires
        distinct_addrs(s),
    ensures
        distinct_addrs(s.filter(p)),
    decreases s.len(),
{
    reveal(Seq::filter);
    if s.len() > 0 {
        let rest = s.drop_last();
        assert forall|i: int, j: int| 0 <= i < j < rest.len() implies (#[trigger] rest[i]).peer_addr
            != (#[trigger] rest[j]).peer_addr by {
            assert(rest[i] == s[i] && rest[j] == s[j]);
        }
        lemma_filter_distinct(rest, p);
        if p(s.last()) {
            let f = rest.filter(p);
            assert forall|i: int, j: int|
                0 <= i < j < f.push(s.last()).len() implies
                (#[trigger] f.push(
                s.last(),
            )[i]).peer_addr != (#[trigger] f.push(s.last())[j]).peer_addr by {
                if j == f.len() {
                    if f[i].peer_addr == s.last().peer_addr {
                        assert(has_addr(f, s.last().peer_addr));
                        lemma_filter_has_addr(rest, p, s.last().peer_addr);
                        let k = choose|k: int|
                            0 <= k < rest.len() && (#[trigger] rest[k]).peer_addr == s.last().peer_addr
                                && p(rest[k]);
                        assert(rest[k] == s[k]);
                        assert(s[k].peer_addr != s[s.len() - 1].peer_addr);
                    }
                } else {
                    assert(f.push(s.last())[i] == f[i] && f.push(s.last())[j] == f[j]);
                }
            }
        }
    }
}

/// Two sequences of distinct peers that share no peer join into one.
pub proof fn lemma_concat_distinct(s: Seq<EndpointView>, t: Seq<EndpointView>)
    requires
        distinct_addrs(s),
        distinct_addrs(t),
        forall|a: PeerAddr| has_addr(s, a) ==> !has_addr(t, a),
    ensures
        distinct_addrs(s + t),
{
    assert forall|i: int, j: int|
        0 <= i < j < (s + t).len() implies
        (#[trigger] (s + t)[i]).peer_addr
        != (#[trigger] (s + t)[j]).peer_addr by {
        if j < s.len() {
            assert((s + t)[i] == s[i] && (s + t)[j] == s[j]);
        } else if i >= s.len() {
            assert((s + t)[i] == t[i - s.len()] && (s + t)[j] == t[j - s.len()]);
        } else {
            assert((s + t)[i] == s[i] && (s + t)[j] == t[j - s.len()]);
            assert(has_addr(s, s[i].peer_addr));
            if s[i].peer_addr == t[j - s.len()].peer_addr {
                assert(has_addr(t, s[i].peer_addr));
            }
        }
    }
}

/// The parts of a sequence of distinct peers have distinct peers and share
/// none.
pub proof fn lemma_split_distinct(s: Seq<EndpointView>, t: Seq<EndpointView>)
    requires
        distinct_addrs(s + t),
    ensures
        distinct_addrs(s),
        distinct_addrs(t),
        forall|a: PeerAddr| has_addr(s, a) ==> !has_addr(t, a),
{
    assert forall|i: int, j: int|
        0 <= i < j < s.len() implies
        (#[trigger] s[i]).peer_addr != (#[trigger] s[j]).peer_addr by {
        assert((s + t)[i] == s[i] && (s + t)[j] == s[j]);
    }
    assert forall|i: int, j: int|
        0 <= i < j < t.len() implies
        (#[trigger] t[i]).peer_addr != (#[trigger] t[j]).peer_addr by {
        assert((s + t)[i + s.len()] == t[i] && (s + t)[j + s.len()] == t[j]);
    }
    assert forall|a: PeerAddr| has_addr(s, a) implies !has_addr(t, a) by {
        let i = choose|i: int| 0 <= i < s.len() && (#[trigger] s[i]).peer_addr == a;
        if has_addr(t, a) {
            let j = choose|j: int| 0 <= j < t.len() && (#[trigger] t[j]).peer_addr == a;
            assert((s + t)[i] == s[i] && (s + t)[j + s.len()] == t[j]);
        }
    }
}

/// Among distinct peers, the position of a peer's endpoint is the one
/// position where it stands.
pub proof fn lemma_addr_index(s: Seq<EndpointView>, i: int)
    requires
        distinct_addrs(s),
        0 <= i < s.len(),
    ensures
        has_addr(s, s[i].peer_addr),
        addr_index(s, s[i].peer_addr) == i,
{
    let a = s[i].peer_addr;
    let j = addr_index(s, a);
    assert(0 <= j < s.len() && s[j].peer_addr == a);
    if j < i {
        assert(s[j].peer_addr != s[i].peer_addr);
    } else if i < j {
        assert(s[i].peer_addr != s[j].peer_addr);
    }
}

/// Among distinct names, the position of a peer's entry is the one position
/// where it stands.
pub proof fn lemma_named_index(m: Seq<DstAddr>, i: int)
    requires
        distinct_names(m),
        0 <= i < m.len(),
    ensures
        named(m, m[i].addr),
        named_index(m, m[i].addr) == i,
{
    let a = m[i].addr;
    let j = named_index(m, a);
    assert(0 <= j < m.len() && m[j].addr == a);
    if j < i {
        assert(m[j].addr != m[i].addr);
    } else if i < j {
        assert(m[i].addr != m[j].addr);
    }
}

/// One more entry keeps the names of a mapping distinct, and adds its peer
/// to those the mapping names.
pub proof fn lemma_remember(m: Seq<DstAddr>, d: DstAddr)
    requires
        distinct_names(m),
    ensures
        distinct_names(remember(m, d)),
        forall|a: PeerAddr| named(remember(m, d), a) <==> (named(m, a) || a == d.addr),
        m.len() <= remember(m, d).len() <= m.len() + 1,
{
    let r = remember(m, d);
    if named(m, d.addr) {
        let k = named_index(m, d.addr);
        assert(0 <= k < m.len() && m[k].addr == d.addr);
        assert forall|i: int, j: int|
            0 <= i < j < r.len() implies
            (#[trigger] r[i]).addr != (#[trigger] r[j]).addr by {
            assert(r[i].addr == m[i].addr && r[j].addr == m[j].addr);
        }
        assert forall|a: PeerAddr| named(r, a) <==> (named(m, a) || a == d.addr) by {
            if named(r, a) {
                let j = choose|j: int| 0 <= j < r.len() && (#[trigger] r[j]).addr == a;
                assert(m[j].addr == a);
            }
            if named(m, a) {
                let j = choose|j: int| 0 <= j < m.len() && (#[trigger] m[j]).addr == a;
                assert(r[j].addr == a);
            }
            if a == d.addr {
                assert(r[k].addr == a);
            }
        }
    } else {
        assert forall|i: int, j: int|
            0 <= i < j < r.len() implies
            (#[trigger] r[i]).addr != (#[trigger] r[j]).addr by {
            if j == m.len() {
                assert(r[i] == m[i]);
                assert(r[j] == d);
            } else {
                assert(r[i] == m[i] && r[j] == m[j]);
            }
        }
        assert forall|a: PeerAddr| named(r, a) <==> (named(m, a) || a == d.addr) by {
            if named(r, a) {
                let j = choose|j: int| 0 <= j < r.len() && (#[trigger] r[j]).addr == a;
                if j < m.len() {
                    assert(m[j].addr == a);
                }
            }
            if named(m, a) {
                let j = choose|j: int| 0 <= j < m.len() && (#[trigger] m[j]).addr == a;
                assert(r[j].addr == a);
            }
            if a == d.addr {
                assert(r[m.len() as int].addr == a);
            }
        }
    }
}

/// The mapping of an update names each peer once, and names exactly the
/// peers that the update names.
pub proof fn lemma_mapping(dsts: Seq<DstAddr>)
    ensures
        distinct_names(mapping(dsts)),
        forall|a: PeerAddr| named(mapping(dsts), a) <==> named(dsts, a),
        mapping(dsts).len() <= dsts.len(),
    decreases dsts.len(),
{
    if dsts.len() > 0 {
        let rest = dsts.drop_last();
        lemma_mapping(rest);
        lemma_remember(mapping(rest), dsts.last());
        assert forall|a: PeerAddr| named(mapping(dsts), a) <==> named(dsts, a) by {
            if named(dsts, a) {
                let j = choose|j: int| 0 <= j < dsts.len() && (#[trigger] dsts[j]).addr == a;
                if j < rest.len() {
                    assert(rest[j].addr == a);
                }
            }
            if named(rest, a) {
                let j = choose|j: int| 0 <= j < rest.len() && (#[trigger] rest[j]).addr == a;
                assert(dsts[j].addr == a);
            }
            if a == dsts.last().addr {
                assert(dsts[dsts.len() - 1].addr == a);
            }
        }
    }
}

/// The mapping of one entry more of an update.
pub proof fn lemma_mapping_step(dsts: Seq<DstAddr>, i: int)
    requires
        0 <= i < dsts.len(),
    ensures
        mapping(dsts.take(i + 1)) == remember(mapping(dsts.take(i)), dsts[i]),
{
    assert(dsts.take(i + 1).drop_last() =~= dsts.take(i));
}

/// Applying one entry keeps the peers distinct and adds the entry's peer.
pub proof fn lemma_upsert(s: Seq<EndpointView>, dst_name: Seq<char>, d: DstAddr)
    requires
        distinct_addrs(s),
    ensures
        distinct_addrs(upsert(s, dst_name, d)),
        forall|a: PeerAddr| has_addr(upsert(s, dst_name, d), a) <==> (has_addr(s, a) || a == d.addr),
{
    let r = upsert(s, dst_name, d);
    if has_addr(s, d.addr) {
        let k = addr_index(s, d.addr);
        assert(0 <= k < s.len() && s[k].peer_addr == d.addr);
        assert forall|i: int, j: int|
            0 <= i < j < r.len() implies
            (#[trigger] r[i]).peer_addr != (#[trigger] r[j]).peer_addr by {
            assert(r[i].peer_addr == s[i].peer_addr && r[j].peer_addr == s[j].peer_addr);
        }
        assert forall|a: PeerAddr| has_addr(r, a) <==> (has_addr(s, a) || a == d.addr) by {
            if has_addr(r, a) {
                let j = choose|j: int| 0 <= j < r.len() && (#[trigger] r[j]).peer_addr == a;
                assert(s[j].peer_addr == a);
            }
            if has_addr(s, a) {
                let j = choose|j: int| 0 <= j < s.len() && (#[trigger] s[j]).peer_addr == a;
                assert(r[j].peer_addr == a);
            }
            if a == d.addr {
                assert(r[k].peer_addr == a);
            }
        }
    } else {
        assert forall|i: int, j: int|
            0 <= i < j < r.len() implies
            (#[trigger] r[i]).peer_addr != (#[trigger] r[j]).peer_addr by {
            if j == s.len() {
                assert(r[i] == s[i]);
                assert(r[j].peer_addr == d.addr);
            } else {
                assert(r[i] == s[i] && r[j] == s[j]);
            }
        }
        assert forall|a: PeerAddr| has_addr(r, a) <==> (has_addr(s, a) || a == d.addr) by {
            if has_addr(r, a) {
                let j = choose|j: int| 0 <= j < r.len() && (#[trigger] r[j]).peer_addr == a;
                if j < s.len() {
                    assert(s[j].peer_addr == a);
                }
            }
            if has_addr(s, a) {
                let j = choose|j: int| 0 <= j < s.len() && (#[trigger] s[j]).peer_addr == a;
                assert(r[j].peer_addr == a);
            }
            if a == d.addr {
                assert(r[s.len() as int].peer_addr == a);
            }
        }
    }
}

/// Applying a mapping keeps the peers distinct and adds the peers it names.
pub proof fn lemma_upsert_all(s: Seq<EndpointView>, dst_name: Seq<char>, m: Seq<DstAddr>)
    requires
        distinct_addrs(s),
    ensures
        distinct_addrs(upsert_all(s, dst_name, m)),
        forall|a: PeerAddr| has_addr(upsert_all(s, dst_name, m), a) <==> (has_addr(s, a) || named(m, a)),
    decreases m.len(),
{
    if m.len() > 0 {
        let rest = m.drop_last();
        lemma_upsert_all(s, dst_name, rest);
        lemma_upsert(upsert_all(s, dst_name, rest), dst_name, m.last());
        assert forall|a: PeerAddr| has_addr(upsert_all(s, dst_name, m), a) <==> (has_addr(s, a) || named(m, a)) by {
            if named(m, a) {
                let j = choose|j: int| 0 <= j < m.len() && (#[trigger] m[j]).addr == a;
                if j < rest.len() {
                    assert(rest[j].addr == a);
                }
            }
            if named(rest, a) {
                let j = choose|j: int| 0 <= j < rest.len() && (#[trigger] rest[j]).addr == a;
                assert(m[j].addr == a);
            }
            if a == m.last().addr {
                assert(m[m.len() - 1].addr == a);
            }
        }
    } else {
        assert forall|a: PeerAddr| !named(m, a) by {}
    }
}

/// Applying one entry more of a mapping.
pub proof fn lemma_upsert_all_step(s: Seq<EndpointView>, dst_name: Seq<char>, m: Seq<DstAddr>, i: int)
    requires
        0 <= i < m.len(),
    ensures
        upsert_all(s, dst_name, m.take(i + 1)) == upsert(upsert_all(s, dst_name, m.take(i)), dst_name, m[i]),
{
    assert(m.take(i + 1).drop_last() =~= m.take(i));
}


/// A peer with an endpoint in a joined sequence has it in one of the parts.
pub proof fn lemma_has_addr_concat(s: Seq<EndpointView>, t: Seq<EndpointView>, a: PeerAddr)
    ensures
        has_addr(s + t, a) <==> (has_addr(s, a) || has_addr(t, a)),
{
    if has_addr(s + t, a) {
        let i = choose|i: int| 0 <= i < (s + t).len() && (#[trigger] (s + t)[i]).peer_addr == a;
        if i < s.len() {
            assert(s[i].peer_addr == a);
        } else {
            assert(t[i - s.len()].peer_addr == a);
        }
    }
    if has_addr(s, a) {
        let i = choose|i: int| 0 <= i < s.len() && (#[trigger] s[i]).peer_addr == a;
        assert((s + t)[i].peer_addr == a);
    }
    if has_addr(t, a) {
        let i = choose|i: int| 0 <= i < t.len() && (#[trigger] t[i]).peer_addr == a;
        assert((s + t)[i + s.len()].peer_addr == a);
    }
}

/// Among distinct peers, the peer at position `i` has no endpoint among
/// those filtered from the positions before it.
pub proof fn lemma_absent_before(s: Seq<EndpointView>, p: spec_fn(EndpointView) -> bool, i: int)
    requires
        distinct_addrs(s),
        0 <= i < s.len(),
    ensures
        !has_addr(s.take(i).filter(p), s[i].peer_addr),
{
    if has_addr(s.take(i).filter(p), s[i].peer_addr) {
        lemma_filter_has_addr(s.take(i), p, s[i].peer_addr);
        let j = choose|j: int|
            0 <= j < s.take(i).len() && (#[trigger] s.take(i)[j]).peer_addr == s[i].peer_addr && p(
                s.take(i)[j],
            );
        assert(s.take(i)[j] == s[j]);
        assert(s[j].peer_addr != s[i].peer_addr);
    }
}

/// The endpoints that an update keeps available, and those it retires, are
/// well formed together: the table stays a partition.
pub proof fn lemma_resolved_wf(v: ManagerView, dsts: Seq<DstAddr>)
    requires
        v.wf(),
    ensures
        v.resolved(dsts).wf(),
        distinct_addrs(v.available.filter(is_named(dsts)) + v.retired.filter(is_named(dsts))),
        distinct_addrs(v.retired.filter(is_retiring(dsts)) + v.available.filter(is_retiring(dsts))),
{
    let a0 = v.available;
    let r0 = v.retired;
    let an = a0.filter(is_named(dsts));
    let rn = r0.filter(is_named(dsts));
    let ar = a0.filter(is_retiring(dsts));
    let rr = r0.filter(is_retiring(dsts));
    lemma_split_distinct(a0, r0);
    lemma_filter_distinct(a0, is_named(dsts));
    lemma_filter_distinct(r0, is_named(dsts));
    lemma_filter_distinct(a0, is_retiring(dsts));
    lemma_filter_distinct(r0, is_retiring(dsts));
    assert forall|a: PeerAddr| has_addr(an, a) implies !has_addr(rn, a) by {
        lemma_filter_has_addr(a0, is_named(dsts), a);
        if has_addr(rn, a) {
            lemma_filter_has_addr(r0, is_named(dsts), a);
        }
    }
    lemma_concat_distinct(an, rn);
    assert forall|a: PeerAddr| has_addr(rr, a) implies !has_addr(ar, a) by {
        lemma_filter_has_addr(r0, is_retiring(dsts), a);
        if has_addr(ar, a) {
            lemma_filter_has_addr(a0, is_retiring(dsts), a);
        }
    }
    lemma_concat_distinct(rr, ar);
    lemma_mapping(dsts);
    lemma_upsert_all(an + rn, v.dst_name, mapping(dsts));
    let av = v.resolved(dsts).available;
    let rt = v.resolved(dsts).retired;
    assert forall|a: PeerAddr| has_addr(av, a) implies !has_addr(rt, a) by {
        lemma_has_addr_concat(an, rn, a);
        lemma_has_addr_concat(rr, ar, a);
        if has_addr(an, a) {
            lemma_filter_has_addr(a0, is_named(dsts), a);
        }
        if has_addr(rn, a) {
            lemma_filter_has_addr(r0, is_named(dsts), a);
        }
        assert(named(dsts, a));
        if has_addr(rr, a) {
            lemma_filter_has_addr(r0, is_retiring(dsts), a);
        }
        if has_addr(ar, a) {
            lemma_filter_has_addr(a0, is_retiring(dsts), a);
        }
    }
    lemma_concat_distinct(av, rt);
}

/// Applying a mapping leaves every endpoint in its place; the endpoint of
/// a peer that the mapping names takes the weight given, the others stay
/// as they are.
pub proof fn lemma_upsert_all_at(s: Seq<EndpointView>, dst_name: Seq<char>, m: Seq<DstAddr>, i: int)
    requires
        distinct_addrs(s),
        distinct_names(m),
        0 <= i < s.len(),
    ensures
        upsert_all(s, dst_name, m).len() >= s.len(),
        upsert_all(s, dst_name, m)[i] == if named(m, s[i].peer_addr) {
            s[i].with_weight(m[named_index(m, s[i].peer_addr)].weight)
        } else {
            s[i]
        },
    decreases m.len(),
{
    if m.len() > 0 {
        let rest = m.drop_last();
        let d = m.last();
        let a = s[i].peer_addr;
        assert forall|j: int, k: int|
            0 <= j < k < rest.len() implies
            (#[trigger] rest[j]).addr != (#[trigger] rest[k]).addr by {
            assert(rest[j] == m[j] && rest[k] == m[k]);
        }
        lemma_upsert_all_at(s, dst_name, rest, i);
        lemma_upsert_all(s, dst_name, rest);
        let before = upsert_all(s, dst_name, rest);
        lemma_upsert(before, dst_name, d);
        assert(before[i].peer_addr == a);
        if d.addr == a {
            assert(has_addr(before, a));
            lemma_addr_index(before, i);
            lemma_named_index(m, m.len() - 1);
            if named(rest, a) {
                let j = choose|j: int| 0 <= j < rest.len() && (#[trigger] rest[j]).addr == a;
                assert(m[j].addr != m[m.len() - 1].addr);
            }
        } else {
            if has_addr(before, d.addr) {
                let k = addr_index(before, d.addr);
                assert(0 <= k < before.len() && before[k].peer_addr == d.addr);
                assert(k != i);
            }
            if named(m, a) {
                let j = choose|j: int| 0 <= j < m.len() && (#[trigger] m[j]).addr == a;
                assert(j < rest.len());
                assert(rest[j].addr == a);
                lemma_named_index(m, j);
                lemma_named_index(rest, j);
            } else {
                if named(rest, a) {
                    let j = choose|j: int| 0 <= j < rest.len() && (#[trigger] rest[j]).addr == a;
                    assert(m[j].addr == a);
                }
            }
        }
    }
}

/// A peer that an update does not name has no endpoint after it unless it
/// had one with work left: what is neither named nor at work is gone.
pub proof fn lemma_dropped(v: ManagerView, dsts: Seq<DstAddr>, a: PeerAddr)
    requires
        v.wf(),
        !named(dsts, a),
        forall|i: int|
            0 <= i < v.available.len() && (#[trigger] v.available[i]).peer_addr == a
                ==> v.available[i].is_idle(),
        forall|i: int|
            0 <= i < v.retired.len() && (#[trigger] v.retired[i]).peer_addr == a
                ==> v.retired[i].is_idle(),
    ensures
        !has_addr(v.resolved(dsts).available, a),
        !has_addr(v.resolved(dsts).retired, a),
{
    let an = v.available.filter(is_named(dsts));
    let rn = v.retired.filter(is_named(dsts));
    let rr = v.retired.filter(is_retiring(dsts));
    let ar = v.available.filter(is_retiring(dsts));
    lemma_resolved_wf(v, dsts);
    lemma_mapping(dsts);
    lemma_upsert_all(an + rn, v.dst_name, mapping(dsts));
    lemma_has_addr_concat(an, rn, a);
    lemma_has_addr_concat(rr, ar, a);
    if has_addr(an, a) {
        lemma_filter_has_addr(v.available, is_named(dsts), a);
    }
    if has_addr(rn, a) {
        lemma_filter_has_addr(v.retired, is_named(dsts), a);
    }
    if has_addr(rr, a) {
        lemma_filter_has_addr(v.retired, is_retiring(dsts), a);
    }
    if has_addr(ar, a) {
        lemma_filter_has_addr(v.available, is_retiring(dsts), a);
    }
}

/// Filtering a sequence without repetitions leaves none.
pub proof fn lemma_filter_no_duplicates(s: Seq<u64>, p: spec_fn(u64) -> bool)
    requires
        s.no_duplicates(),
    ensures
        s.filter(p).no_duplicates(),
    decreases s.len(),
{
    reveal(Seq::filter);
    if s.len() > 0 {
        let rest = s.drop_last();
        lemma_filter_no_duplicates(rest, p);
        if p(s.last()) {
            let f = rest.filter(p);
            if f.contains(s.last()) {
                rest.lemma_filter_contains_rev(p, s.last());
                let k = choose|k: int| 0 <= k < rest.len() && rest[k] == s.last();
                assert(s[k] == s[s.len() - 1]);
            }
            assert forall|i: int, j: int|
                0 <= i < f.push(s.last()).len() && 0 <= j < f.push(s.last()).len() && i != j implies f.push(
                s.last(),
            )[i] != f.push(s.last())[j] by {
                if i == f.len() {
                    assert(f.contains(f[j]));
                } else if j == f.len() {
                    assert(f.contains(f[i]));
                }
            }
        }
    }
}

/// The parts of a sequence without repetitions have none and share
/// nothing.
pub proof fn lemma_no_duplicates_split(a: Seq<u64>, b: Seq<u64>)
    requires
        (a + b).no_duplicates(),
    ensures
        a.no_duplicates(),
        b.no_duplicates(),
        forall|x: u64| a.contains(x) ==> !b.contains(x),
{
    assert forall|i: int, j: int|
        0 <= i < a.len() && 0 <= j < a.len() && i != j implies
        a[i] != a[j] by {
        assert((a + b)[i] == a[i] && (a + b)[j] == a[j]);
    }
    assert forall|i: int, j: int|
        0 <= i < b.len() && 0 <= j < b.len() && i != j implies
        b[i] != b[j] by {
        assert((a + b)[i + a.len()] == b[i] && (a + b)[j + a.len()] == b[j]);
    }
    assert forall|x: u64| a.contains(x) implies !b.contains(x) by {
        let i = choose|i: int| 0 <= i < a.len() && a[i] == x;
        if b.contains(x) {
            let j = choose|j: int| 0 <= j < b.len() && b[j] == x;
            assert((a + b)[i] == a[i] && (a + b)[j + a.len()] == b[j]);
        }
    }
}

/// The first endpoint at or before position `k` that awaits the outcome of
/// connection `conn`, given that the one at `k` does.
pub proof fn lemma_least_awaiting(s: Seq<EndpointView>, conn: u64, k: int) -> (m: int)
    requires
        0 <= k < s.len(),
        s[k].completing.contains(conn),
    ensures
        0 <= m <= k,
        s[m].completing.contains(conn),
        forall|j: int| 0 <= j < m ==> !(#[trigger] s[j]).completing.contains(conn),
    decreases k,
{
    if exists|j: int| 0 <= j < k && (#[trigger] s[j]).completing.contains(conn) {
        let j = choose|j: int| 0 <= j < k && (#[trigger] s[j]).completing.contains(conn);
        lemma_least_awaiting(s, conn, j)
    } else {
        k
    }
}

/// Where an endpoint awaits the outcome of a connection, the first that
/// does is well defined: it awaits it, and none before it does.
pub proof fn lemma_first_awaiting(s: Seq<EndpointView>, conn: u64)
    ensures
        match first_awaiting(s, conn) {
            Some(i) => {
                &&& 0 <= i < s.len()
                &&& s[i].completing.contains(conn)
                &&& forall|j: int| 0 <= j < i ==> !(#[trigger] s[j]).completing.contains(conn)
            },
            None => forall|i: int| 0 <= i < s.len() ==> !(#[trigger] s[i]).completing.contains(conn),
        },
{
    if exists|i: int| 0 <= i < s.len() && (#[trigger] s[i]).completing.contains(conn) {
        let k = choose|i: int| 0 <= i < s.len() && (#[trigger] s[i]).completing.contains(conn);
        let m = lemma_least_awaiting(s, conn, k);
        assert(0 <= m < s.len() && s[m].completing.contains(conn));
    }
}

} // verus!
