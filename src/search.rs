//! The query planner and executor: a predicate tree of equality conditions
//! under `And` / `Or` is answered from the hash indexes.
use vstd::prelude::*;
use crate::index::{key_spec, to_key, CompositeKey};
use crate::codec::encode_spec;
use crate::table::{compose, decoded, first_error, fresh, index_fold, lemma_index_coherence, lemma_staged_documents_read_back, members_of, EngineTable, InsertionError};
use crate::codec::doc_fits;
use crate::types::DocView;
use crate::types::{same_text, text_of, DataValue, Document, Index, Table};
use chashmap::CHashMap;

verus! {

broadcast use vstd::std_specs::vec::group_vec_axioms;

/// A leaf condition: `key filter_type value`. Only `=` is answered.
#[derive(Clone, Debug)]
pub struct QueryVal {
    pub key: String,
    pub filter_type: String,
    pub value: DataValue,
}

/// A predicate tree.
#[derive(Debug)]
pub enum QueryOps {
    Condition(QueryVal),
    And(Vec<QueryOps>),
    Or(Vec<QueryOps>),
}

/// Whether a condition is an equality.
pub open spec fn is_eq(c: QueryVal) -> bool {
    c.filter_type@ == seq!['=']
}

/// The conditions along a tree with no `Or`, left to right.
pub open spec fn collect_spec(q: QueryOps) -> Option<Seq<QueryVal>>
    decreases q,
{
    match q {
        QueryOps::Condition(c) => Some(seq![c]),
        QueryOps::And(ops) => collect_list(ops@),
        QueryOps::Or(_) => None,
    }
}

pub open spec fn collect_list(ops: Seq<QueryOps>) -> Option<Seq<QueryVal>>
    decreases ops,
{
    if ops.len() == 0 {
        Some(Seq::empty())
    } else {
        match (collect_list(ops.drop_last()), collect_spec(ops.last())) {
            (Some(a), Some(b)) => Some(a + b),
            _ => None,
        }
    }
}

/// Every condition is an equality.
pub open spec fn all_eq(conds: Seq<QueryVal>) -> bool {
    forall|i: int| 0 <= i < conds.len() ==> is_eq(#[trigger] conds[i])
}

/// Some condition is on `key`.
pub open spec fn has_cond(conds: Seq<QueryVal>, key: Seq<char>) -> bool {
    exists|i: int| 0 <= i < conds.len() && conds[i].key@ == key
}

/// The members of `members` are exactly the keys of `conds`.
pub open spec fn covers(members: Seq<Seq<char>>, conds: Seq<QueryVal>) -> bool {
    &&& forall|i: int| 0 <= i < conds.len() ==> members.contains(#[trigger] conds[i].key@)
    &&& forall|j: int| 0 <= j < members.len() ==> #[trigger] has_cond(conds, members[j])
}

/// The first index whose members are exactly the keys of `conds`.
pub open spec fn first_cover(ixs: Seq<Index>, conds: Seq<QueryVal>) -> Option<int>
    decreases ixs.len(),
{
    if ixs.len() == 0 {
        None
    } else {
        match first_cover(ixs.drop_last(), conds) {
            Some(i) => Some(i),
            None => if covers(members_of(ixs.last()), conds) {
                Some(ixs.len() - 1)
            } else {
                None
            },
        }
    }
}

/// The first condition on `key`.
pub open spec fn first_cond(conds: Seq<QueryVal>, key: Seq<char>) -> Option<int>
    decreases conds.len(),
{
    if conds.len() == 0 {
        None
    } else {
        match first_cond(conds.drop_last(), key) {
            Some(i) => Some(i),
            None => if conds.last().key@ == key {
                Some(conds.len() - 1)
            } else {
                None
            },
        }
    }
}

/// The composite key that `conds` give for `members`: each member with the
/// text of the first condition on it; none where a member has no condition.
pub open spec fn gen_key(members: Seq<Seq<char>>, conds: Seq<QueryVal>) -> Option<Seq<(Seq<char>, Seq<char>)>>
    decreases members.len(),
{
    if members.len() == 0 {
        Some(Seq::empty())
    } else {
        match gen_key(members.drop_last(), conds) {
            Some(p) => match first_cond(conds, members.last()) {
                Some(i) => Some(p.push((conds[i].key@, text_of(conds[i].value@)))),
                None => None,
            },
            None => None,
        }
    }
}

/// Equalities on one key ask for one value: their values have the same
/// canonical text.
pub open spec fn consistent(conds: Seq<QueryVal>) -> bool {
    forall|a: int, b: int|
        0 <= a < conds.len() && 0 <= b < conds.len() && #[trigger] conds[a].key@ == #[trigger] conds[b].key@
            ==> text_of(conds[a].value@) == text_of(conds[b].value@)
}

/// The whole-query plan: an index and the one key to look up in it, where
/// the tree holds no `Or`, only equalities that agree on each key, and their
/// keys are exactly the members of a declared index. Equalities on one key
/// with different values get no plan: the per-node intersection answers.
pub open spec fn plan(q: QueryOps, ixs: Seq<Index>) -> Option<(int, Seq<(Seq<char>, Seq<char>)>)> {
    match collect_spec(q) {
        Some(conds) => if all_eq(conds) && consistent(conds) {
            match first_cover(ixs, conds) {
                Some(i) => match gen_key(members_of(ixs[i]), conds) {
                    Some(ck) => Some((i, ck)),
                    None => None,
                },
                None => None,
            }
        } else {
            None
        },
        None => None,
    }
}

/// The first index whose only member is `key`.
pub open spec fn single_index(ixs: Seq<Index>, key: Seq<char>) -> Option<int>
    decreases ixs.len(),
{
    if ixs.len() == 0 {
        None
    } else {
        match single_index(ixs.drop_last(), key) {
            Some(i) => Some(i),
            None => if members_of(ixs.last()) == seq![key] {
                Some(ixs.len() - 1)
            } else {
                None
            },
        }
    }
}

/// The ordinals an index holds under `key`: one or none.
pub open spec fn lookup_set(m: Map<Seq<u8>, u64>, key: Seq<u8>) -> Set<u64> {
    if m.contains_key(key) {
        set![m[key]]
    } else {
        Set::empty()
    }
}

/// The answer to one condition on its own.
pub open spec fn cond_result(c: QueryVal, ixs: Seq<Index>, views: Seq<Map<Seq<u8>, u64>>) -> Set<u64> {
    if !is_eq(c) {
        Set::empty()
    } else {
        match single_index(ixs, c.key@) {
            Some(i) => lookup_set(views[i], key_spec(seq![(c.key@, text_of(c.value@))])),
            None => Set::empty(),
        }
    }
}

/// The ordinals that answer `q`: the whole-query plan where there is one;
/// else the intersection over `And`, the union over `Or`, and a condition's
/// own answer.
pub open spec fn query_result(q: QueryOps, ixs: Seq<Index>, views: Seq<Map<Seq<u8>, u64>>) -> Set<u64>
    decreases q,
{
    match plan(q, ixs) {
        Some((i, ck)) => lookup_set(views[i], key_spec(ck)),
        None => match q {
            QueryOps::Condition(c) => cond_result(c, ixs, views),
            QueryOps::And(ops) => and_result(ops@, ixs, views),
            QueryOps::Or(ops) => or_result(ops@, ixs, views),
        },
    }
}

pub open spec fn and_result(ops: Seq<QueryOps>, ixs: Seq<Index>, views: Seq<Map<Seq<u8>, u64>>) -> Set<u64>
    decreases ops,
{
    if ops.len() == 0 {
        Set::empty()
    } else if ops.len() == 1 {
        query_result(ops[0], ixs, views)
    } else {
        and_result(ops.drop_last(), ixs, views).intersect(query_result(ops.last(), ixs, views))
    }
}

pub open spec fn or_result(ops: Seq<QueryOps>, ixs: Seq<Index>, views: Seq<Map<Seq<u8>, u64>>) -> Set<u64>
    decreases ops,
{
    if ops.len() == 0 {
        Set::empty()
    } else {
        or_result(ops.drop_last(), ixs, views).union(query_result(ops.last(), ixs, views))
    }
}

proof fn lemma_push_contains(s: Seq<u64>, z: u64)
    ensures
        forall|y: u64| #[trigger] s.push(z).contains(y) <==> (s.contains(y) || y == z),
{
    assert forall|y: u64| #[trigger] s.push(z).contains(y) <==> (s.contains(y) || y == z) by {
        if s.contains(y) {
            let k = choose|k: int| 0 <= k < s.len() && s[k] == y;
            assert(s.push(z)[k] == y);
        }
        if y == z {
            assert(s.push(z)[s.len() as int] == y);
        }
        if s.push(z).contains(y) {
            let k = choose|k: int| 0 <= k < s.len() + 1 && s.push(z)[k] == y;
            if k < s.len() {
                assert(s[k] == y);
            }
        }
    }
}

/// The ordinals an index holds under `key`, as a list of one or none.
pub open spec fn lookup_seq(m: Map<Seq<u8>, u64>, key: Seq<u8>) -> Seq<u64> {
    if m.contains_key(key) {
        seq![m[key]]
    } else {
        Seq::empty()
    }
}

/// The answer to one condition on its own, as a list.
pub open spec fn cond_seq(c: QueryVal, ixs: Seq<Index>, views: Seq<Map<Seq<u8>, u64>>) -> Seq<u64> {
    if !is_eq(c) {
        Seq::empty()
    } else {
        match single_index(ixs, c.key@) {
            Some(i) => lookup_seq(views[i], key_spec(seq![(c.key@, text_of(c.value@))])),
            None => Seq::empty(),
        }
    }
}

/// The ordinals that answer `q`, in the order a search returns them: the
/// whole-query lookup where there is a plan; else, for `And`, the first
/// child's answer kept where each later child agrees; for `Or`, the
/// children's answers one after another, each ordinal once.
pub open spec fn query_seq(q: QueryOps, ixs: Seq<Index>, views: Seq<Map<Seq<u8>, u64>>) -> Seq<u64>
    decreases q,
{
    match plan(q, ixs) {
        Some((i, ck)) => lookup_seq(views[i], key_spec(ck)),
        None => match q {
            QueryOps::Condition(c) => cond_seq(c, ixs, views),
            QueryOps::And(ops) => and_seq(ops@, ixs, views),
            QueryOps::Or(ops) => or_seq(ops@, ixs, views),
        },
    }
}

pub open spec fn and_seq(ops: Seq<QueryOps>, ixs: Seq<Index>, views: Seq<Map<Seq<u8>, u64>>) -> Seq<u64>
    decreases ops,
{
    if ops.len() == 0 {
        Seq::empty()
    } else if ops.len() == 1 {
        query_seq(ops[0], ixs, views)
    } else {
        keep_common(and_seq(ops.drop_last(), ixs, views), query_seq(ops.last(), ixs, views))
    }
}

pub open spec fn or_seq(ops: Seq<QueryOps>, ixs: Seq<Index>, views: Seq<Map<Seq<u8>, u64>>) -> Seq<u64>
    decreases ops,
{
    if ops.len() == 0 {
        Seq::empty()
    } else {
        union_seq(or_seq(ops.drop_last(), ixs, views), query_seq(ops.last(), ixs, views))
    }
}

/// Where the conjunction has no whole-query plan, `And[p, q]` is answered by
/// the ordinals that answer both `p` and `q`. A plan exists only where every
/// condition is an equality, equalities on one key agree on the value, and
/// the keys are exactly the members of a declared index; that one lookup
/// then answers instead.
pub proof fn lemma_search_and(ops: Vec<QueryOps>, ixs: Seq<Index>, views: Seq<Map<Seq<u8>, u64>>)
    requires
        ops@.len() == 2,
        plan(QueryOps::And(ops), ixs) is None,
    ensures
        query_result(QueryOps::And(ops), ixs, views) == query_result(ops@[0], ixs, views).intersect(
            query_result(ops@[1], ixs, views),
        ),
{
    let s = ops@;
    assert(s.drop_last().len() == 1);
    assert(s.drop_last()[0] == s[0]);
    assert(s.last() == s[1]);
    assert(and_result(s.drop_last(), ixs, views) == query_result(s[0], ixs, views));
    assert(and_result(s, ixs, views) == and_result(s.drop_last(), ixs, views).intersect(
        query_result(s.last(), ixs, views)));
    assert(query_result(QueryOps::And(ops), ixs, views) == and_result(s, ixs, views));
}

/// Two equalities on one key with different values have no whole-query plan,
/// so their conjunction is the intersection of their answers.
pub proof fn lemma_conflicting_equalities(ops: Vec<QueryOps>, c1: QueryVal, c2: QueryVal, ixs: Seq<Index>, views: Seq<Map<Seq<u8>, u64>>)
    requires
        ops@ == seq![QueryOps::Condition(c1), QueryOps::Condition(c2)],
        c1.key@ == c2.key@,
        text_of(c1.value@) != text_of(c2.value@),
    ensures
        plan(QueryOps::And(ops), ixs) is None,
        query_result(QueryOps::And(ops), ixs, views) == query_result(QueryOps::Condition(c1), ixs, views).intersect(
            query_result(QueryOps::Condition(c2), ixs, views),
        ),
{
    let s = ops@;
    let conds = seq![c1, c2];
    assert(s.drop_last() =~= seq![QueryOps::Condition(c1)]);
    assert(s.drop_last().drop_last() =~= Seq::<QueryOps>::empty());
    assert(collect_list(s.drop_last().drop_last()) == Some(Seq::<QueryVal>::empty()));
    assert(s.drop_last().last() == QueryOps::Condition(c1));
    assert(collect_spec(QueryOps::Condition(c1)) == Some(seq![c1]));
    assert(collect_spec(QueryOps::Condition(c2)) == Some(seq![c2]));
    assert(Seq::<QueryVal>::empty() + seq![c1] =~= seq![c1]);
    assert(collect_list(s.drop_last()) == Some(seq![c1]));
    assert(s.last() == QueryOps::Condition(c2));
    assert(collect_list(s) == Some(seq![c1] + seq![c2]));
    assert(seq![c1] + seq![c2] =~= conds);
    assert(!consistent(conds)) by {
        assert(conds[0].key@ == conds[1].key@);
    }
    lemma_search_and(ops, ixs, views);
}

/// `Or[p, q]` is answered by the ordinals that answer `p` or `q`.
pub proof fn lemma_search_or(ops: Vec<QueryOps>, ixs: Seq<Index>, views: Seq<Map<Seq<u8>, u64>>)
    requires
        ops@.len() == 2,
    ensures
        query_result(QueryOps::Or(ops), ixs, views) == query_result(ops@[0], ixs, views).union(
            query_result(ops@[1], ixs, views),
        ),
{
    let s = ops@;
    let p = s.drop_last();
    assert(p.len() == 1);
    assert(p.drop_last().len() == 0);
    assert(p.last() == s[0]);
    assert(s.last() == s[1]);
    assert(Set::<u64>::empty().union(query_result(s[0], ixs, views)) =~= query_result(s[0], ixs, views));
    assert(or_result(p.drop_last(), ixs, views) == Set::<u64>::empty());
    assert(or_result(p, ixs, views) == query_result(s[0], ixs, views));
    assert(or_result(s, ixs, views) == or_result(p, ixs, views).union(query_result(s.last(), ixs, views)));
    assert(plan(QueryOps::Or(ops), ixs) is None);
    assert(query_result(QueryOps::Or(ops), ixs, views) == or_result(s, ixs, views));
}

/// An equality on `k`, where the first index covering `{k}` has `k` as its
/// only member, is answered by that index's entry for `(k, text of v)`.
pub proof fn lemma_search_condition(c: QueryVal, ixs: Seq<Index>, views: Seq<Map<Seq<u8>, u64>>, i: int)
    requires
        is_eq(c),
        first_cover(ixs, seq![c]) == Some(i),
        members_of(ixs[i]) == seq![c.key@],
    ensures
        query_result(QueryOps::Condition(c), ixs, views) == lookup_set(
            views[i],
            key_spec(seq![(c.key@, text_of(c.value@))]),
        ),
{
    let conds = seq![c];
    let m = members_of(ixs[i]);
    assert(collect_spec(QueryOps::Condition(c)) == Some(conds));
    assert(all_eq(conds));
    assert(m.drop_last().len() == 0);
    assert(first_cond(conds.drop_last(), c.key@) is None);
    assert(first_cond(conds, c.key@) == Some(0int));
    assert(gen_key(m.drop_last(), conds) == Some(Seq::<(Seq<char>, Seq<char>)>::empty()));
    assert(gen_key(m, conds) == Some(seq![(c.key@, text_of(c.value@))]));
}

/// Rows that are only staged do not change an answer: two tables with the
/// same schema, stored rows and indexes answer every query alike.
pub proof fn lemma_staged_rows_invisible(t: EngineTable, u: EngineTable, q: QueryOps)
    requires
        t.schema() == u.schema(),
        t.records() == u.records(),
        t.index_views() == u.index_views(),
    ensures
        query_result(q, t.schema().indexes@, t.index_views()) == query_result(q, u.schema().indexes@, u.index_views()),
        t.rows() == u.rows(),
{
}

/// `s` with `x` at the end, unless `s` holds it already.
pub open spec fn push_new(s: Seq<u64>, x: u64) -> Seq<u64> {
    if s.contains(x) {
        s
    } else {
        s.push(x)
    }
}

/// `s` followed by the elements of `xs` it does not hold yet, in order.
pub open spec fn add_all(s: Seq<u64>, xs: Seq<u64>) -> Seq<u64>
    decreases xs.len(),
{
    if xs.len() == 0 {
        s
    } else {
        push_new(add_all(s, xs.drop_last()), xs.last())
    }
}

/// The elements of `xs` that `b` holds, each once, in `xs`'s order.
pub open spec fn keep_common(xs: Seq<u64>, b: Seq<u64>) -> Seq<u64>
    decreases xs.len(),
{
    if xs.len() == 0 {
        Seq::empty()
    } else if b.contains(xs.last()) {
        push_new(keep_common(xs.drop_last(), b), xs.last())
    } else {
        keep_common(xs.drop_last(), b)
    }
}

/// The elements of `a`, then those of `b`, each once, in that order.
pub open spec fn union_seq(a: Seq<u64>, b: Seq<u64>) -> Seq<u64> {
    add_all(add_all(Seq::empty(), a), b)
}

/// The elements of `a` that `b` holds, each once, in `a`'s order.
fn intersect_indices(a: Vec<u64>, b: Vec<u64>) -> (r: Vec<u64>)
    ensures
        r@ == keep_common(a@, b@),
        r@.no_duplicates(),
        r@.to_set() == a@.to_set().intersect(b@.to_set()),
        forall|x: u64| r@.contains(x) ==> a@.contains(x),
{
    let mut out: Vec<u64> = Vec::new();
    let mut i: usize = 0;
    while i < a.len()
        invariant
            i <= a@.len(),
            out@ == keep_common(a@.subrange(0, i as int), b@),
            out@.no_duplicates(),
            forall|y: u64| #[trigger] out@.contains(y) <==> (a@.subrange(0, i as int).contains(y) && b@.contains(y)),
        decreases a.len() - i,
    {
        let x = a[i];
        let ghost before = out@;
        let ghost p = a@.subrange(0, i + 1);
        proof {
            assert(p =~= a@.subrange(0, i as int).push(x));
            assert(p.drop_last() =~= a@.subrange(0, i as int));
            lemma_push_contains(a@.subrange(0, i as int), x);
            lemma_push_contains(before, x);
        }
        if holds(&b, x) && !holds(&out, x) {
            out.push(x);
        }
        proof {
            assert forall|y: u64| #[trigger] out@.contains(y) <==> (p.contains(y) && b@.contains(y)) by {
                assert(before.push(x).contains(y) <==> (before.contains(y) || y == x));
                assert(p.contains(y) <==> (a@.subrange(0, i as int).contains(y) || y == x));
            }
        }
        i = i + 1;
    }
    proof {
        assert(a@.subrange(0, i as int) =~= a@);
        assert(out@.to_set() =~= a@.to_set().intersect(b@.to_set()));
    }
    out
}

/// Whether `v` holds `x`.
fn holds(v: &Vec<u64>, x: u64) -> (r: bool)
    ensures
        r == v@.contains(x),
{
    let mut i: usize = 0;
    while i < v.len()
        invariant
            i <= v@.len(),
            forall|k: int| 0 <= k < i ==> v@[k] != x,
        decreases v.len() - i,
    {
        if v[i] == x {
            return true;
        }
        i = i + 1;
    }
    false
}

/// Adds to `out` the elements of `xs` it does not hold yet, in order.
fn add_new(out: &mut Vec<u64>, xs: &Vec<u64>)
    requires
        old(out)@.no_duplicates(),
    ensures
        final(out)@ == add_all(old(out)@, xs@),
        final(out)@.no_duplicates(),
        forall|y: u64| #[trigger] final(out)@.contains(y) <==> (old(out)@.contains(y) || xs@.contains(y)),
{
    let ghost start = out@;
    let mut j: usize = 0;
    while j < xs.len()
        invariant
            j <= xs@.len(),
            out@ == add_all(start, xs@.subrange(0, j as int)),
            out@.no_duplicates(),
            forall|y: u64| #[trigger] out@.contains(y) <==> (start.contains(y) || xs@.subrange(0, j as int).contains(y)),
        decreases xs.len() - j,
    {
        let x = xs[j];
        let ghost before = out@;
        let ghost p = xs@.subrange(0, j + 1);
        proof {
            assert(p =~= xs@.subrange(0, j as int).push(x));
            assert(p.drop_last() =~= xs@.subrange(0, j as int));
            lemma_push_contains(xs@.subrange(0, j as int), x);
            lemma_push_contains(before, x);
        }
        if !holds(out, x) {
            out.push(x);
        }
        proof {
            assert forall|y: u64| #[trigger] out@.contains(y) <==> (start.contains(y) || p.contains(y)) by {
                assert(before.push(x).contains(y) <==> (before.contains(y) || y == x));
                assert(p.contains(y) <==> (xs@.subrange(0, j as int).contains(y) || y == x));
            }
        }
        j = j + 1;
    }
    proof {
        assert(xs@.subrange(0, j as int) =~= xs@);
    }
}

/// The elements of `a`, then those of `b`, each once.
fn union_indices(a: Vec<u64>, b: Vec<u64>) -> (r: Vec<u64>)
    ensures
        r@ == union_seq(a@, b@),
        r@.no_duplicates(),
        r@.to_set() == a@.to_set().union(b@.to_set()),
{
    let mut out: Vec<u64> = Vec::new();
    add_new(&mut out, &a);
    add_new(&mut out, &b);
    proof {
        assert(out@.to_set() =~= a@.to_set().union(b@.to_set()));
    }
    out
}

/// The conditions of a list of references.
pub open spec fn conds_of(v: Seq<&QueryVal>) -> Seq<QueryVal> {
    v.map_values(|c: &QueryVal| *c)
}

/// The conditions along a tree with no `Or`; none where it holds an `Or`.
fn collect_conditions(query: &QueryOps) -> (r: Option<Vec<&QueryVal>>)
    ensures
        match r {
            Some(v) => collect_spec(*query) == Some(conds_of(v@)),
            None => collect_spec(*query) is None,
        },
    decreases query,
{
    match query {
        QueryOps::Condition(cond) => {
            let mut v: Vec<&QueryVal> = Vec::new();
            v.push(cond);
            proof {
                assert(conds_of(v@) =~= seq![*cond]);
            }
            Some(v)
        },
        QueryOps::And(ops) => {
            let mut conditions: Vec<&QueryVal> = Vec::new();
            let mut i: usize = 0;
            proof {
                assert(ops@.subrange(0, 0) =~= Seq::<QueryOps>::empty());
                assert(conds_of(conditions@) =~= Seq::<QueryVal>::empty());
            }
            while i < ops.len()
                invariant
                    i <= ops@.len(),
                    collect_spec(*query) == collect_list(ops@),
                    decreases_to!(*query => *ops),
                    collect_list(ops@.subrange(0, i as int)) == Some(conds_of(conditions@)),
                decreases ops.len() - i,
            {
                proof {
                    let p = ops@.subrange(0, i + 1);
                    assert(p.drop_last() =~= ops@.subrange(0, i as int));
                    assert(p.last() == ops@[i as int]);
                }
                proof {
                    assert(decreases_to!(*ops => ops[i as int]));
                }
                match collect_conditions(&ops[i]) {
                    Some(child) => {
                        let ghost before = conditions@;
                        let mut k: usize = 0;
                        while k < child.len()
                            invariant
                                k <= child@.len(),
                                conds_of(conditions@) == conds_of(before) + conds_of(child@).subrange(0, k as int),
                            decreases child.len() - k,
                        {
                            let ghost mid = conditions@;
                            conditions.push(child[k]);
                            proof {
                                assert(conds_of(conditions@) =~= conds_of(mid).push(*child@[k as int]));
                                assert(conds_of(child@).subrange(0, k + 1) =~= conds_of(child@).subrange(0, k as int).push(*child@[k as int]));
                                assert(conds_of(conditions@) =~= conds_of(before) + conds_of(child@).subrange(0, k + 1));
                            }
                            k = k + 1;
                        }
                        proof {
                            assert(conds_of(child@).subrange(0, k as int) =~= conds_of(child@));
                        }
                    },
                    None => {
                        proof {
                            lemma_collect_none_extends(ops@, i as int + 1);
                        }
                        return None;
                    },
                }
                i = i + 1;
            }
            proof {
                assert(ops@.subrange(0, i as int) =~= ops@);
            }
            Some(conditions)
        },
        QueryOps::Or(_) => None,
    }
}

proof fn lemma_collect_none_extends(ops: Seq<QueryOps>, k: int)
    requires
        0 <= k <= ops.len(),
        collect_list(ops.subrange(0, k)) is None,
    ensures
        collect_list(ops) is None,
    decreases ops.len() - k,
{
    if k < ops.len() {
        let p = ops.subrange(0, k + 1);
        assert(p.drop_last() =~= ops.subrange(0, k));
        lemma_collect_none_extends(ops, k + 1);
    } else {
        assert(ops.subrange(0, k) =~= ops);
    }
}

/// Whether `members` are exactly the keys of `conds`.
fn covers_exec(members: &Vec<String>, conds: &Vec<&QueryVal>) -> (r: bool)
    ensures
        r == covers(members@.map_values(|s: String| s@), conds_of(conds@)),
{
    let ghost mv = members@.map_values(|s: String| s@);
    let ghost cv = conds_of(conds@);
    let mut i: usize = 0;
    while i < conds.len()
        invariant
            i <= conds@.len(),
            mv == members@.map_values(|s: String| s@),
            cv == conds_of(conds@),
            forall|a: int| 0 <= a < i ==> mv.contains(#[trigger] cv[a].key@),
        decreases conds.len() - i,
    {
        let mut found = false;
        let mut j: usize = 0;
        while j < members.len()
            invariant
                j <= members@.len(),
                i < conds@.len(),
                mv == members@.map_values(|s: String| s@),
                cv == conds_of(conds@),
                found ==> mv.contains(cv[i as int].key@),
                !found ==> forall|b: int| 0 <= b < j ==> mv[b] != cv[i as int].key@,
            decreases members.len() - j,
        {
            if same_text(members[j].as_str(), conds[i].key.as_str()) {
                found = true;
                assert(mv[j as int] == cv[i as int].key@);
            }
            j = j + 1;
        }
        if !found {
            proof {
                if mv.contains(cv[i as int].key@) {
                    let b = choose|b: int| 0 <= b < mv.len() && mv[b] == cv[i as int].key@;
                    assert(mv[b] != cv[i as int].key@);
                }
            }
            return false;
        }
        i = i + 1;
    }
    let mut j: usize = 0;
    while j < members.len()
        invariant
            j <= members@.len(),
            mv == members@.map_values(|s: String| s@),
            cv == conds_of(conds@),
            forall|a: int| 0 <= a < cv.len() ==> mv.contains(#[trigger] cv[a].key@),
            forall|b: int| 0 <= b < j ==> #[trigger] has_cond(cv, mv[b]),
        decreases members.len() - j,
    {
        let mut found = false;
        let mut i: usize = 0;
        while i < conds.len()
            invariant
                i <= conds@.len(),
                j < members@.len(),
                mv == members@.map_values(|s: String| s@),
                cv == conds_of(conds@),
                found ==> has_cond(cv, mv[j as int]),
                !found ==> forall|a: int| 0 <= a < i ==> cv[a].key@ != mv[j as int],
            decreases conds.len() - i,
        {
            if same_text(members[j].as_str(), conds[i].key.as_str()) {
                found = true;
                assert(cv[i as int].key@ == mv[j as int]);
            }
            i = i + 1;
        }
        if !found {
            proof {
                assert(!has_cond(cv, mv[j as int]));
            }
            return false;
        }
        j = j + 1;
    }
    proof {
        assert(mv.len() == members@.len() && cv.len() == conds@.len());
    }
    true
}

/// The first index whose members are exactly the keys of `conds`.
fn find_index_for_conditions(conds: &Vec<&QueryVal>, indexes: &Vec<Index>) -> (r: Option<usize>)
    ensures
        r matches Some(i) ==> i < indexes@.len(),
        match r {
            Some(i) => first_cover(indexes@, conds_of(conds@)) == Some(i as int),
            None => first_cover(indexes@, conds_of(conds@)) is None,
        },
{
    let ghost cv = conds_of(conds@);
    let mut i: usize = 0;
    proof {
        assert(indexes@.subrange(0, 0) =~= Seq::<Index>::empty());
    }
    while i < indexes.len()
        invariant
            i <= indexes@.len(),
            cv == conds_of(conds@),
            first_cover(indexes@.subrange(0, i as int), cv) is None,
        decreases indexes.len() - i,
    {
        let ghost p = indexes@.subrange(0, i + 1);
        proof {
            assert(p.drop_last() =~= indexes@.subrange(0, i as int));
            assert(p.last() == indexes@[i as int]);
        }
        if covers_exec(&indexes[i].members, conds) {
            proof {
                lemma_first_cover_prefix(indexes@, cv, i as int + 1);
            }
            return Some(i);
        }
        i = i + 1;
    }
    proof {
        assert(indexes@.subrange(0, i as int) =~= indexes@);
    }
    None
}

/// A first cover found in a prefix is the first cover of the whole.
proof fn lemma_first_cover_prefix(ixs: Seq<Index>, conds: Seq<QueryVal>, k: int)
    requires
        0 <= k <= ixs.len(),
        first_cover(ixs.subrange(0, k), conds) is Some,
    ensures
        first_cover(ixs, conds) == first_cover(ixs.subrange(0, k), conds),
    decreases ixs.len() - k,
{
    if k < ixs.len() {
        let p = ixs.subrange(0, k + 1);
        assert(p.drop_last() =~= ixs.subrange(0, k));
        lemma_first_cover_prefix(ixs, conds, k + 1);
    } else {
        assert(ixs.subrange(0, k) =~= ixs);
    }
}

/// A first single-member index found in a prefix is the first of the whole.
proof fn lemma_single_index_prefix(ixs: Seq<Index>, key: Seq<char>, k: int)
    requires
        0 <= k <= ixs.len(),
        single_index(ixs.subrange(0, k), key) is Some,
    ensures
        single_index(ixs, key) == single_index(ixs.subrange(0, k), key),
    decreases ixs.len() - k,
{
    if k < ixs.len() {
        let p = ixs.subrange(0, k + 1);
        assert(p.drop_last() =~= ixs.subrange(0, k));
        lemma_single_index_prefix(ixs, key, k + 1);
    } else {
        assert(ixs.subrange(0, k) =~= ixs);
    }
}

/// The first index whose only member is the condition's key.
fn get_index_for_condition(cond: &QueryVal, indexes: &Vec<Index>) -> (r: Option<usize>)
    ensures
        match r {
            Some(i) => single_index(indexes@, cond.key@) == Some(i as int),
            None => single_index(indexes@, cond.key@) is None,
        },
{
    let mut i: usize = 0;
    proof {
        assert(indexes@.subrange(0, 0) =~= Seq::<Index>::empty());
    }
    while i < indexes.len()
        invariant
            i <= indexes@.len(),
            single_index(indexes@.subrange(0, i as int), cond.key@) is None,
        decreases indexes.len() - i,
    {
        let ghost p = indexes@.subrange(0, i + 1);
        proof {
            assert(p.drop_last() =~= indexes@.subrange(0, i as int));
            assert(p.last() == indexes@[i as int]);
        }
        let members = &indexes[i].members;
        if members.len() == 1 && same_text(members[0].as_str(), cond.key.as_str()) {
            proof {
                assert(members_of(indexes@[i as int]) =~= seq![cond.key@]);
                lemma_single_index_prefix(indexes@, cond.key@, i as int + 1);
            }
            return Some(i);
        }
        proof {
            if members_of(indexes@[i as int]) == seq![cond.key@] {
                assert(members_of(indexes@[i as int]).len() == 1);
                assert(members_of(indexes@[i as int])[0] == members@[0]@);
            }
        }
        i = i + 1;
    }
    proof {
        assert(indexes@.subrange(0, i as int) =~= indexes@);
    }
    None
}

/// The first condition on `key`.
fn find_cond<'a>(conds: &Vec<&'a QueryVal>, key: &str) -> (r: Option<&'a QueryVal>)
    ensures
        match r {
            Some(c) => first_cond(conds_of(conds@), key@) matches Some(i) && conds_of(conds@)[i] == *c,
            None => first_cond(conds_of(conds@), key@) is None,
        },
{
    let ghost cv = conds_of(conds@);
    let mut i: usize = 0;
    proof {
        assert(cv.subrange(0, 0) =~= Seq::<QueryVal>::empty());
    }
    while i < conds.len()
        invariant
            i <= conds@.len(),
            cv == conds_of(conds@),
            first_cond(cv.subrange(0, i as int), key@) is None,
        decreases conds.len() - i,
    {
        let ghost p = cv.subrange(0, i + 1);
        proof {
            assert(p.drop_last() =~= cv.subrange(0, i as int));
        }
        if same_text(conds[i].key.as_str(), key) {
            proof {
                lemma_first_cond_prefix(cv, key@, i as int + 1);
            }
            return Some(conds[i]);
        }
        i = i + 1;
    }
    proof {
        assert(cv.subrange(0, i as int) =~= cv);
    }
    None
}

proof fn lemma_first_cond_prefix(conds: Seq<QueryVal>, key: Seq<char>, k: int)
    requires
        0 <= k <= conds.len(),
        first_cond(conds.subrange(0, k), key) is Some,
    ensures
        first_cond(conds, key) == first_cond(conds.subrange(0, k), key),
    decreases conds.len() - k,
{
    if k < conds.len() {
        let p = conds.subrange(0, k + 1);
        assert(p.drop_last() =~= conds.subrange(0, k));
        lemma_first_cond_prefix(conds, key, k + 1);
    } else {
        assert(conds.subrange(0, k) =~= conds);
    }
}

proof fn lemma_first_cond_in_range(conds: Seq<QueryVal>, key: Seq<char>)
    ensures
        first_cond(conds, key) matches Some(i) ==> 0 <= i < conds.len() && conds[i].key@ == key,
    decreases conds.len(),
{
    if conds.len() > 0 {
        lemma_first_cond_in_range(conds.drop_last(), key);
    }
}

proof fn lemma_gen_key_none_extends(members: Seq<Seq<char>>, conds: Seq<QueryVal>, k: int)
    requires
        0 <= k <= members.len(),
        gen_key(members.subrange(0, k), conds) is None,
    ensures
        gen_key(members, conds) is None,
    decreases members.len() - k,
{
    if k < members.len() {
        let p = members.subrange(0, k + 1);
        assert(p.drop_last() =~= members.subrange(0, k));
        lemma_gen_key_none_extends(members, conds, k + 1);
    } else {
        assert(members.subrange(0, k) =~= members);
    }
}

/// The composite key the conditions give for the index's members.
fn generate_index_key(index: &Index, conditions: &Vec<&QueryVal>) -> (r: Option<CompositeKey>)
    ensures
        match r {
            Some(ck) => gen_key(members_of(*index), conds_of(conditions@)) == Some(ck@),
            None => gen_key(members_of(*index), conds_of(conditions@)) is None,
        },
{
    let ghost mv = members_of(*index);
    let ghost cv = conds_of(conditions@);
    let mut key_parts: Vec<(String, String)> = Vec::new();
    let mut i: usize = 0;
    proof {
        assert(mv.subrange(0, 0) =~= Seq::<Seq<char>>::empty());
        assert(key_parts@.map_values(|p: (String, String)| (p.0@, p.1@)) =~= Seq::<(Seq<char>, Seq<char>)>::empty());
    }
    while i < index.members.len()
        invariant
            i <= index.members@.len(),
            mv == members_of(*index),
            cv == conds_of(conditions@),
            gen_key(mv.subrange(0, i as int), cv) == Some(key_parts@.map_values(|p: (String, String)| (p.0@, p.1@))),
        decreases index.members.len() - i,
    {
        let ghost p = mv.subrange(0, i + 1);
        proof {
            assert(p.drop_last() =~= mv.subrange(0, i as int));
            assert(p.last() == index.members@[i as int]@);
        }
        match find_cond(conditions, index.members[i].as_str()) {
            Some(cond) => {
                let ghost before = key_parts@;
                key_parts.push((cond.key.clone(), cond.value.to_text()));
                proof {
                    lemma_first_cond_in_range(cv, p.last());
                    let f = |q: (String, String)| (q.0@, q.1@);
                    assert(key_parts@.map_values(f) =~= before.map_values(f).push((cond.key@, text_of(cond.value@))));
                }
            },
            None => {
                proof {
                    lemma_gen_key_none_extends(mv, cv, i as int + 1);
                }
                return None;
            },
        }
        i = i + 1;
    }
    proof {
        assert(mv.subrange(0, i as int) =~= mv);
    }
    Some(CompositeKey(key_parts))
}

/// Whether every condition is an equality.
fn all_equalities(conds: &Vec<&QueryVal>) -> (r: bool)
    ensures
        r == all_eq(conds_of(conds@)),
{
    let mut i: usize = 0;
    while i < conds.len()
        invariant
            i <= conds@.len(),
            forall|j: int| 0 <= j < i ==> is_eq(#[trigger] conds_of(conds@)[j]),
        decreases conds.len() - i,
    {
        let eq = "=";
        proof {
            reveal_strlit("=");
            assert(eq@ =~= seq!['=']);
            assert(conds_of(conds@)[i as int] == *conds@[i as int]);
        }
        if !same_text(conds[i].filter_type.as_str(), eq) {
            proof {
                assert(!is_eq(conds_of(conds@)[i as int]));
            }
            return false;
        }
        i = i + 1;
    }
    true
}

/// Whether equalities on one key agree on the canonical text of their values.
fn consistent_conditions(conds: &Vec<&QueryVal>) -> (r: bool)
    ensures
        r == consistent(conds_of(conds@)),
{
    let ghost cv = conds_of(conds@);
    let n = conds.len();
    let mut a: usize = 0;
    while a < n
        invariant
            n == conds@.len(),
            cv == conds_of(conds@),
            a <= n,
            forall|x: int, y: int| 0 <= x < a && 0 <= y < n && cv[x].key@ == cv[y].key@ ==> text_of(cv[x].value@) == text_of(cv[y].value@),
        decreases n - a,
    {
        let ta = conds[a].value.to_text();
        let mut b: usize = 0;
        while b < n
            invariant
                n == conds@.len(),
                cv == conds_of(conds@),
                a < n,
                b <= n,
                ta@ == text_of(cv[a as int].value@),
                forall|x: int, y: int| 0 <= x < a && 0 <= y < n && cv[x].key@ == cv[y].key@ ==> text_of(cv[x].value@) == text_of(cv[y].value@),
                forall|y: int| 0 <= y < b && cv[a as int].key@ == cv[y].key@ ==> text_of(cv[a as int].value@) == text_of(cv[y].value@),
            decreases n - b,
        {
            assert(cv[a as int] == *conds@[a as int] && cv[b as int] == *conds@[b as int]);
            if same_text(conds[a].key.as_str(), conds[b].key.as_str()) {
                let tb = conds[b].value.to_text();
                if !same_text(ta.as_str(), tb.as_str()) {
                    proof {
                        assert(!(text_of(cv[a as int].value@) == text_of(cv[b as int].value@)));
                        assert(cv[a as int].key@ == cv[b as int].key@);
                    }
                    return false;
                }
            }
            b = b + 1;
        }
        a = a + 1;
    }
    proof {
        assert forall|x: int, y: int|
            0 <= x < cv.len() && 0 <= y < cv.len() && #[trigger] cv[x].key@ == #[trigger] cv[y].key@
            implies text_of(cv[x].value@) == text_of(cv[y].value@) by {
            assert(cv.len() == n);
        }
    }
    true
}

/// The whole-query plan: an index and the key to look up in it.
fn find_index_for_query(query: &QueryOps, indexes: &Vec<Index>) -> (r: Option<(usize, CompositeKey)>)
    ensures
        match r {
            Some((i, ck)) => plan(*query, indexes@) == Some((i as int, ck@)),
            None => plan(*query, indexes@) is None,
        },
{
    if let Some(conditions) = collect_conditions(query) {
        if all_equalities(&conditions) && consistent_conditions(&conditions) {
            if let Some(i) = find_index_for_conditions(&conditions, indexes) {
                if let Some(key) = generate_index_key(&indexes[i], &conditions) {
                    return Some((i, key));
                }
            }
        }
    }
    None
}

/// The ordinals index `i` of `tbl` holds under `key`, as a list.
fn lookup_list(tbl: &EngineTable, i: usize, key: &Vec<u8>) -> (r: Vec<u64>)
    requires
        tbl.wf(),
        i < tbl.schema().indexes@.len(),
    ensures
        r@ == lookup_seq(tbl.index_views()[i as int], key@),
        r@.to_set() == lookup_set(tbl.index_views()[i as int], key@),
        r@.no_duplicates(),
        forall|k: int| 0 <= k < r@.len() ==> r@[k] < tbl.records().len(),
{
    let mut r: Vec<u64> = Vec::new();
    match tbl.index_get(i, key) {
        Some(p) => {
            r.push(p);
            proof {
                assert(r@ =~= seq![p]);
                assert(r@.to_set() =~= set![p]) by {
                    assert(r@[0] == p);
                }
            }
        },
        None => {
            proof {
                assert(r@ =~= Seq::<u64>::empty());
                assert(r@.to_set() =~= Set::<u64>::empty());
            }
        },
    }
    r
}

/// The answer to one condition from a single-member index on its key.
fn evaluate_condition(tbl: &EngineTable, cond: &QueryVal) -> (r: Vec<u64>)
    requires
        tbl.wf(),
    ensures
        r@ == cond_seq(*cond, tbl.schema().indexes@, tbl.index_views()),
        r@.to_set() == cond_result(*cond, tbl.schema().indexes@, tbl.index_views()),
        r@.no_duplicates(),
        forall|k: int| 0 <= k < r@.len() ==> r@[k] < tbl.records().len(),
{
    let eq = "=";
    proof {
        reveal_strlit("=");
        assert(eq@ =~= seq!['=']);
    }
    if !same_text(cond.filter_type.as_str(), eq) {
        let r: Vec<u64> = Vec::new();
        proof {
            assert(r@ =~= Seq::<u64>::empty());
            assert(r@.to_set() =~= Set::<u64>::empty());
        }
        return r;
    }
    match get_index_for_condition(cond, &tbl.table().indexes) {
        Some(i) => {
            proof {
                lemma_single_index_in_range(tbl.schema().indexes@, cond.key@);
            }
            let mut parts: Vec<(String, String)> = Vec::new();
            parts.push((cond.key.clone(), cond.value.to_text()));
            let ck = CompositeKey(parts);
            proof {
                assert(ck@ =~= seq![(cond.key@, text_of(cond.value@))]);
            }
            let key = to_key(&ck);
            lookup_list(tbl, i, &key)
        },
        None => {
            let r: Vec<u64> = Vec::new();
            proof {
                assert(r@ =~= Seq::<u64>::empty());
                assert(r@.to_set() =~= Set::<u64>::empty());
            }
            r
        },
    }
}

proof fn lemma_single_index_in_range(ixs: Seq<Index>, key: Seq<char>)
    ensures
        single_index(ixs, key) matches Some(i) ==> 0 <= i < ixs.len(),
    decreases ixs.len(),
{
    if ixs.len() > 0 {
        lemma_single_index_in_range(ixs.drop_last(), key);
    }
}

proof fn lemma_first_cover_in_range(ixs: Seq<Index>, conds: Seq<QueryVal>)
    ensures
        first_cover(ixs, conds) matches Some(i) ==> 0 <= i < ixs.len(),
    decreases ixs.len(),
{
    if ixs.len() > 0 {
        lemma_first_cover_in_range(ixs.drop_last(), conds);
    }
}

/// The ordinals that answer `query` on `tbl`, each once.
fn execute_query(tbl: &EngineTable, query: &QueryOps) -> (r: Vec<u64>)
    requires
        tbl.wf(),
    ensures
        r@ == query_seq(*query, tbl.schema().indexes@, tbl.index_views()),
        r@.to_set() == query_result(*query, tbl.schema().indexes@, tbl.index_views()),
        r@.no_duplicates(),
        forall|k: int| 0 <= k < r@.len() ==> r@[k] < tbl.records().len(),
    decreases query,
{
    let ghost ixs = tbl.schema().indexes@;
    let ghost views = tbl.index_views();
    if let Some((i, key)) = find_index_for_query(query, &tbl.table().indexes) {
        proof {
            assert(collect_spec(*query) is Some);
            let conds = collect_spec(*query).unwrap();
            lemma_first_cover_in_range(ixs, conds);
        }
        let k = to_key(&key);
        return lookup_list(tbl, i, &k);
    }
    match query {
        QueryOps::Condition(cond) => evaluate_condition(tbl, cond),
        QueryOps::And(ops) => {
            let mut results: Vec<u64> = Vec::new();
            let mut i: usize = 0;
            while i < ops.len()
                invariant
                    tbl.wf(),
                    i <= ops@.len(),
                    ixs == tbl.schema().indexes@,
                    views == tbl.index_views(),
                    decreases_to!(*query => *ops),
                    results@.no_duplicates(),
                    forall|k: int| 0 <= k < results@.len() ==> results@[k] < tbl.records().len(),
                    i > 0 ==> results@.to_set() == and_result(ops@.subrange(0, i as int), ixs, views),
                    i > 0 ==> results@ == and_seq(ops@.subrange(0, i as int), ixs, views),
                    i == 0 ==> results@.len() == 0,
                decreases ops.len() - i,
            {
                proof {
                    assert(decreases_to!(*ops => ops[i as int]));
                }
                let res = execute_query(tbl, &ops[i]);
                let ghost p = ops@.subrange(0, i + 1);
                proof {
                    assert(p.drop_last() =~= ops@.subrange(0, i as int));
                    assert(p.last() == ops@[i as int]);
                }
                if i == 0 {
                    results = res;
                    proof {
                        assert(p.len() == 1 && p[0] == ops@[0]);
                    }
                } else {
                    let ghost ra = results@;
                    results = intersect_indices(results, res);
                    proof {
                        assert forall|k: int| 0 <= k < results@.len() implies results@[k] < tbl.records().len() by {
                            assert(results@.contains(results@[k]));
                            let t = choose|t: int| 0 <= t < ra.len() && ra[t] == results@[k];
                        }
                    }
                }
                i = i + 1;
            }
            proof {
                assert(ops@.subrange(0, i as int) =~= ops@);
                if i == 0 {
                    assert(results@.to_set() =~= Set::<u64>::empty());
                    assert(results@ =~= Seq::<u64>::empty());
                }
            }
            results
        },
        QueryOps::Or(ops) => {
            let mut results: Vec<u64> = Vec::new();
            let mut i: usize = 0;
            proof {
                assert(ops@.subrange(0, 0) =~= Seq::<QueryOps>::empty());
                assert(results@.to_set() =~= Set::<u64>::empty());
                assert(results@ =~= Seq::<u64>::empty());
            }
            while i < ops.len()
                invariant
                    tbl.wf(),
                    i <= ops@.len(),
                    ixs == tbl.schema().indexes@,
                    views == tbl.index_views(),
                    decreases_to!(*query => *ops),
                    results@.no_duplicates(),
                    forall|k: int| 0 <= k < results@.len() ==> results@[k] < tbl.records().len(),
                    results@.to_set() == or_result(ops@.subrange(0, i as int), ixs, views),
                    results@ == or_seq(ops@.subrange(0, i as int), ixs, views),
                decreases ops.len() - i,
            {
                proof {
                    assert(decreases_to!(*ops => ops[i as int]));
                }
                let res = execute_query(tbl, &ops[i]);
                let ghost p = ops@.subrange(0, i + 1);
                proof {
                    assert(p.drop_last() =~= ops@.subrange(0, i as int));
                    assert(p.last() == ops@[i as int]);
                }
                let ghost ra = results@;
                let ghost rb = res@;
                results = union_indices(results, res);
                proof {
                    assert forall|k: int| 0 <= k < results@.len() implies results@[k] < tbl.records().len() by {
                        assert(results@.to_set().contains(results@[k]));
                        if ra.to_set().contains(results@[k]) {
                            let t = choose|t: int| 0 <= t < ra.len() && ra[t] == results@[k];
                        } else {
                            assert(rb.to_set().contains(results@[k]));
                            let t = choose|t: int| 0 <= t < rb.len() && rb[t] == results@[k];
                        }
                    }
                }
                i = i + 1;
            }
            proof {
                assert(ops@.subrange(0, i as int) =~= ops@);
            }
            results
        },
    }
}

#[verifier::external_type_specification]
#[verifier::external_body]
#[verifier::reject_recursive_types(K)]
#[verifier::reject_recursive_types(V)]
pub struct ExCHashMap<K, V>(CHashMap<K, V>);

/// A map from table name to position.
pub type PositionMap = CHashMap<String, usize>;

/// The entries of a table-name → position map.
pub uninterp spec fn position_entries(m: PositionMap) -> Map<Seq<char>, usize>;

/// Relies on CHashMap::new: a new map holds no entries.
#[verifier::external_body]
fn positions_new() -> (r: PositionMap)
    ensures
        position_entries(r).dom() == Set::<Seq<char>>::empty(),
{
    CHashMap::new()
}

/// Relies on CHashMap::get: the value stored under an equal key, if any.
#[verifier::external_body]
fn positions_get(m: &PositionMap, name: &String) -> (r: Option<usize>)
    ensures
        r == (if position_entries(*m).contains_key(name@) {
            Some(position_entries(*m)[name@])
        } else {
            None::<usize>
        }),
{
    m.get(name).map(|g| *g)
}

/// Relies on CHashMap::insert: the entry for the key is added or replaced.
#[verifier::external_body]
fn positions_insert(m: &mut PositionMap, name: String, pos: usize)
    ensures
        position_entries(*final(m)) == position_entries(*old(m)).insert(name@, pos),
{
    m.insert(name, pos);
}

/// Errors of the query layer.
#[derive(Clone, Debug)]
pub enum QueryError {
    /// No table of that name is registered.
    InvalidTable(String),
    /// The row was rejected.
    InvalidInsertion(InsertionError),
    /// The table's ordinal space cannot take the staged rows.
    StorageFull(String),
}

/// `u` is table `t` reconciled: its staged rows follow its stored rows, in
/// order, and every index recorded them from ordinal `t.records().len()` on.
pub open spec fn reconciled(t: EngineTable, u: EngineTable) -> bool {
    &&& u.schema() == t.schema()
    &&& u.db_view() == t.db_view()
    &&& u.temp_capacity() == t.temp_capacity()
    &&& u.data_prefix() == t.data_prefix()
    &&& u.temp_prefix() == t.temp_prefix()
    &&& u.pending().len() == 0
    &&& u.records() == t.records() + t.pending()
    &&& u.index_views().len() == t.index_views().len()
    &&& forall|i: int| 0 <= i < t.index_views().len() ==> #[trigger] u.index_views()[i]
        == index_fold(t.index_views()[i], members_of(t.schema().indexes@[i]), decoded(t.pending()), t.records().len() as int)
}

/// Documents staged in order and then reconciled are read back, at the
/// ordinals after the rows stored before, as exactly those documents in that
/// order, and the rows stored before stay as they were.
pub proof fn lemma_reconcile_reads_back(t: EngineTable, u: EngineTable, docs: Seq<DocView>)
    requires
        reconciled(t, u),
        t.pending() == docs.map_values(|d: DocView| encode_spec(d)),
        forall|i: int| 0 <= i < docs.len() ==> #[trigger] doc_fits(docs[i]),
    ensures
        u.rows().len() == t.rows().len() + docs.len(),
        u.rows().subrange(0, t.rows().len() as int) == t.rows(),
        u.rows().subrange(t.rows().len() as int, (t.rows().len() + docs.len()) as int) == docs,
{
    lemma_staged_documents_read_back(t.records(), docs);
    assert(u.rows().subrange(0, t.rows().len() as int) =~= t.rows());
}

/// After documents are staged and reconciled, an equality on the only
/// member of the first index covering its key finds the last of those rows
/// that has the value, and only it.
pub proof fn lemma_search_finds_last_row(t: EngineTable, u: EngineTable, docs: Seq<DocView>, c: QueryVal, i: int, j: int)
    requires
        t.wf(),
        reconciled(t, u),
        t.pending() == docs.map_values(|d: DocView| encode_spec(d)),
        forall|k: int| 0 <= k < docs.len() ==> #[trigger] doc_fits(docs[k]),
        is_eq(c),
        first_cover(t.schema().indexes@, seq![c]) == Some(i),
        members_of(t.schema().indexes@[i]) == seq![c.key@],
        0 <= j < docs.len(),
        compose(seq![c.key@], docs[j]) == Some(seq![(c.key@, text_of(c.value@))]),
        forall|k: int| j < k < docs.len() && (#[trigger] compose(seq![c.key@], docs[k])) is Some ==> key_spec(
            compose(seq![c.key@], docs[k]).unwrap(),
        ) != key_spec(seq![(c.key@, text_of(c.value@))]),
    ensures
        query_result(QueryOps::Condition(c), u.schema().indexes@, u.index_views()) == set![(t.records().len() + j) as u64],
{
    let ixs = t.schema().indexes@;
    let members = seq![c.key@];
    let ck = seq![(c.key@, text_of(c.value@))];
    t.lemma_index_count();
    lemma_first_cover_in_range(ixs, seq![c]);
    crate::table::lemma_reconciled_order(docs);
    assert(decoded(t.pending()) == docs);
    lemma_search_condition(c, ixs, u.index_views(), i);
    lemma_index_coherence(t.index_views()[i], members, docs, t.records().len() as int, j);
    assert(set![u.index_views()[i][key_spec(ck)]] =~= set![(t.records().len() + j) as u64]);
}

/// The tables of one database, found by name, and the searches over them.
pub struct QuerySearchManager {
    table_shards: Vec<EngineTable>,
    positions: PositionMap,
}

impl QuerySearchManager {
    /// The tables, in order of registration.
    pub closed spec fn tables(&self) -> Seq<EngineTable> {
        self.table_shards@
    }

    /// Table name → position among the tables.
    pub closed spec fn positions_view(&self) -> Map<Seq<char>, usize> {
        position_entries(self.positions)
    }

    /// The table registered under `name`.
    pub open spec fn table_of(&self, name: Seq<char>) -> Option<EngineTable> {
        if self.positions_view().contains_key(name) {
            Some(self.tables()[self.positions_view()[name] as int])
        } else {
            None
        }
    }

    pub closed spec fn wf(&self) -> bool {
        &&& forall|i: int| 0 <= i < self.table_shards@.len() ==> (#[trigger] self.table_shards@[i]).wf()
        &&& forall|n: Seq<char>| #[trigger] self.positions_view().contains_key(n) ==> {
            &&& self.positions_view()[n] < self.table_shards@.len()
            &&& self.table_shards@[self.positions_view()[n] as int].schema().name@ == n
        }
        &&& forall|i: int| 0 <= i < self.table_shards@.len() ==> self.positions_view().contains_key(
            #[trigger] self.table_shards@[i].schema().name@) && self.positions_view()[self.table_shards@[i].schema().name@] == i
    }

    /// A manager with no tables.
    pub fn new() -> (r: QuerySearchManager)
        ensures
            r.wf(),
            r.tables().len() == 0,
            r.positions_view().dom() == Set::<Seq<char>>::empty(),
    {
        QuerySearchManager { table_shards: Vec::new(), positions: positions_new() }
    }

    /// Registers `table` for database `db`; a table of the same name is
    /// replaced by an empty one with the new schema.
    pub fn register_table(&mut self, db: &str, table: Table)
        requires
            old(self).wf(),
        ensures
            final(self).wf(),
            final(self).positions_view().dom() == old(self).positions_view().dom().insert(table.name@),
            final(self).table_of(table.name@) matches Some(t) && fresh(t, table),
            forall|n: Seq<char>| n != table.name@ ==> #[trigger] final(self).table_of(n) == old(self).table_of(n),
    {
        let t = EngineTable::new(db, table);
        self.add_table_shard(t);
    }

    /// Registers a table with its storage, under its schema's name; a table
    /// of the same name is replaced.
    pub fn add_table_shard(&mut self, t: EngineTable)
        requires
            old(self).wf(),
            t.wf(),
        ensures
            final(self).wf(),
            final(self).positions_view().dom() == old(self).positions_view().dom().insert(t.schema().name@),
            final(self).table_of(t.schema().name@) == Some(t),
            forall|n: Seq<char>| n != t.schema().name@ ==> #[trigger] final(self).table_of(n) == old(self).table_of(n),
    {
        let name = t.table().name.clone();
        let ghost tv = t;
        match positions_get(&self.positions, &name) {
            Some(pos) => {
                self.table_shards.set(pos, t);
                proof {
                    assert forall|i: int| 0 <= i < self.table_shards@.len() implies (#[trigger] self.table_shards@[i]).wf() by {
                        if i != pos {
                            assert(self.table_shards@[i] == old(self).table_shards@[i]);
                        }
                    }
                    assert forall|i: int| 0 <= i < self.table_shards@.len() implies self.positions_view().contains_key(
                        #[trigger] self.table_shards@[i].schema().name@) && self.positions_view()[self.table_shards@[i].schema().name@] == i by {
                        if i != pos {
                            assert(self.table_shards@[i] == old(self).table_shards@[i]);
                        }
                    }
                    assert(self.positions_view().dom() =~= old(self).positions_view().dom().insert(name@));
                }
            },
            None => {
                let pos = self.table_shards.len();
                self.table_shards.push(t);
                positions_insert(&mut self.positions, name, pos);
                proof {
                    assert forall|i: int| 0 <= i < self.table_shards@.len() implies (#[trigger] self.table_shards@[i]).wf() by {
                        if i < pos {
                            assert(self.table_shards@[i] == old(self).table_shards@[i]);
                        }
                    }
                    assert forall|n: Seq<char>| #[trigger] self.positions_view().contains_key(n) implies {
                        &&& self.positions_view()[n] < self.table_shards@.len()
                        &&& self.table_shards@[self.positions_view()[n] as int].schema().name@ == n
                    } by {
                        if n != name@ {
                            assert(old(self).positions_view().contains_key(n));
                        }
                    }
                    assert forall|i: int| 0 <= i < self.table_shards@.len() implies self.positions_view().contains_key(
                        #[trigger] self.table_shards@[i].schema().name@) && self.positions_view()[self.table_shards@[i].schema().name@] == i by {
                        if i < pos {
                            assert(self.table_shards@[i] == old(self).table_shards@[i]);
                            assert(old(self).positions_view().contains_key(old(self).table_shards@[i].schema().name@));
                        }
                    }
                    assert(self.positions_view().dom() =~= old(self).positions_view().dom().insert(name@));
                    assert forall|n: Seq<char>| n != name@ implies #[trigger] self.table_of(n) == old(self).table_of(n) by {
                        if old(self).positions_view().contains_key(n) {
                            assert(self.table_shards@[old(self).positions_view()[n] as int] == old(self).table_shards@[old(self).positions_view()[n] as int]);
                        }
                    }
                }
            },
        }
    }

    /// Every registered name is the name of one of the tables, every table
    /// is registered under its name, and no two tables share a name.
    pub proof fn lemma_names_are_tables(&self)
        requires
            self.wf(),
        ensures
            forall|i: int| 0 <= i < self.tables().len() ==> #[trigger] self.positions_view().contains_key(
                self.tables()[i].schema().name@),
            forall|i: int, j: int| 0 <= i < j < self.tables().len() ==> self.tables()[i].schema().name@
                != self.tables()[j].schema().name@,
            forall|n: Seq<char>| #[trigger] self.positions_view().contains_key(n) ==> exists|i: int|
                0 <= i < self.tables().len() && self.tables()[i].schema().name@ == n,
    {
        assert forall|n: Seq<char>| #[trigger] self.positions_view().contains_key(n) implies exists|i: int|
            0 <= i < self.tables().len() && self.tables()[i].schema().name@ == n by {
            let i = self.positions_view()[n] as int;
            assert(self.tables()[i].schema().name@ == n);
        }
        assert forall|i: int, j: int| 0 <= i < j < self.tables().len() implies self.tables()[i].schema().name@
            != self.tables()[j].schema().name@ by {
            assert(self.positions_view()[self.table_shards@[i].schema().name@] == i);
            assert(self.positions_view()[self.table_shards@[j].schema().name@] == j);
        }
    }

    /// The names of the registered tables.
    pub fn table_names(&self) -> (r: Vec<String>)
        requires
            self.wf(),
        ensures
            r@.len() == self.tables().len(),
            forall|i: int| 0 <= i < r@.len() ==> #[trigger] r@[i]@ == self.tables()[i].schema().name@,
    {
        let mut r: Vec<String> = Vec::new();
        let mut i: usize = 0;
        while i < self.table_shards.len()
            invariant
                i <= self.table_shards@.len(),
                r@.len() == i,
                forall|j: int| 0 <= j < i ==> #[trigger] r@[j]@ == self.table_shards@[j].schema().name@,
            decreases self.table_shards.len() - i,
        {
            r.push(self.table_shards[i].table().name.clone());
            i = i + 1;
        }
        r
    }

    /// Validates `doc` against table `table_name` and stages it there.
    pub fn insert(&mut self, table_name: &String, doc: Document) -> (r: Result<(), QueryError>)
        requires
            old(self).wf(),
        ensures
            final(self).wf(),
            final(self).positions_view() == old(self).positions_view(),
            forall|n: Seq<char>| n != table_name@ ==> #[trigger] final(self).table_of(n) == old(self).table_of(n),
            match r {
                Ok(()) => old(self).table_of(table_name@) matches Some(t) && final(self).table_of(table_name@) matches Some(u)
                    && first_error(t.schema().columns@, doc@) is None
                    && crate::codec::doc_fits(doc@)
                    && u.pending() == t.pending().push(encode_spec(doc@))
                    && u.records() == t.records() && u.index_views() == t.index_views() && u.schema() == t.schema(),
                Err(QueryError::InvalidTable(n)) => old(self).table_of(table_name@) is None && n@ == table_name@
                    && final(self).tables() == old(self).tables(),
                Err(QueryError::InvalidInsertion(InsertionError::ValidationError(e))) => old(self).table_of(table_name@) matches Some(t)
                    && final(self).table_of(table_name@) matches Some(u)
                    && first_error(t.schema().columns@, doc@) == Some(e@)
                    && u.pending() == t.pending() && u.records() == t.records() && u.index_views() == t.index_views()
                    && u.schema() == t.schema(),
                Err(QueryError::StorageFull(_)) => old(self).table_of(table_name@) matches Some(t)
                    && t.pending().len() == u64::MAX && final(self).tables() == old(self).tables(),
            },
    {
        let pos = match positions_get(&self.positions, table_name) {
            Some(p) => p,
            None => {
                return Err(QueryError::InvalidTable(table_name.clone()));
            },
        };
        if self.table_shards[pos].pending_len() == u64::MAX {
            return Err(QueryError::StorageFull(table_name.clone()));
        }
        let mut t = self.table_shards.remove(pos);
        let res = t.insert_row(doc);
        self.table_shards.insert(pos, t);
        proof {
            assert forall|i: int| 0 <= i < self.table_shards@.len() implies (#[trigger] self.table_shards@[i]).wf() by {
                if i != pos {
                    assert(self.table_shards@[i] == old(self).table_shards@[i]);
                }
            }
            assert forall|i: int| 0 <= i < self.table_shards@.len() implies self.positions_view().contains_key(
                #[trigger] self.table_shards@[i].schema().name@) && self.positions_view()[self.table_shards@[i].schema().name@] == i by {
                if i != pos {
                    assert(self.table_shards@[i] == old(self).table_shards@[i]);
                }
            }
            assert forall|n: Seq<char>| #[trigger] self.positions_view().contains_key(n) implies {
                &&& self.positions_view()[n] < self.table_shards@.len()
                &&& self.table_shards@[self.positions_view()[n] as int].schema().name@ == n
            } by {
                assert(old(self).positions_view().contains_key(n));
            }
            assert forall|n: Seq<char>| n != table_name@ implies #[trigger] self.table_of(n) == old(self).table_of(n) by {
                if old(self).positions_view().contains_key(n) {
                    assert(old(self).positions_view()[n] != pos);
                }
            }
        }
        match res {
            Ok(()) => Ok(()),
            Err(e) => Err(QueryError::InvalidInsertion(e)),
        }
    }

    /// Reconciles table `table_name`: its staged rows move, in order, behind
    /// its stored rows and into its indexes. Returns the first new ordinal.
    pub fn reconcile(&mut self, table_name: &String) -> (r: Result<u64, QueryError>)
        requires
            old(self).wf(),
        ensures
            final(self).wf(),
            final(self).positions_view() == old(self).positions_view(),
            forall|n: Seq<char>| n != table_name@ ==> #[trigger] final(self).table_of(n) == old(self).table_of(n),
            match r {
                Ok(first) => old(self).table_of(table_name@) matches Some(t) && final(self).table_of(table_name@) matches Some(u)
                    && first == t.records().len() && t.records().len() + t.pending().len() <= u64::MAX
                    && reconciled(t, u),
                Err(QueryError::InvalidTable(n)) => old(self).table_of(table_name@) is None && n@ == table_name@
                    && final(self).tables() == old(self).tables(),
                Err(QueryError::StorageFull(_)) => old(self).table_of(table_name@) matches Some(t)
                    && t.records().len() + t.pending().len() > u64::MAX && final(self).tables() == old(self).tables(),
                Err(_) => false,
            },
    {
        let pos = match positions_get(&self.positions, table_name) {
            Some(p) => p,
            None => {
                return Err(QueryError::InvalidTable(table_name.clone()));
            },
        };
        let stored = self.table_shards[pos].len();
        let staged = self.table_shards[pos].pending_len();
        if stored > u64::MAX - staged {
            return Err(QueryError::StorageFull(table_name.clone()));
        }
        let mut t = self.table_shards.remove(pos);
        let first = t.reconcile();
        self.table_shards.insert(pos, t);
        proof {
            assert forall|i: int| 0 <= i < self.table_shards@.len() implies (#[trigger] self.table_shards@[i]).wf() by {
                if i != pos {
                    assert(self.table_shards@[i] == old(self).table_shards@[i]);
                }
            }
            assert forall|i: int| 0 <= i < self.table_shards@.len() implies self.positions_view().contains_key(
                #[trigger] self.table_shards@[i].schema().name@) && self.positions_view()[self.table_shards@[i].schema().name@] == i by {
                if i != pos {
                    assert(self.table_shards@[i] == old(self).table_shards@[i]);
                }
            }
            assert forall|n: Seq<char>| #[trigger] self.positions_view().contains_key(n) implies {
                &&& self.positions_view()[n] < self.table_shards@.len()
                &&& self.table_shards@[self.positions_view()[n] as int].schema().name@ == n
            } by {
                assert(old(self).positions_view().contains_key(n));
            }
            assert forall|n: Seq<char>| n != table_name@ implies #[trigger] self.table_of(n) == old(self).table_of(n) by {
                if old(self).positions_view().contains_key(n) {
                    assert(old(self).positions_view()[n] != pos);
                }
            }
        }
        Ok(first)
    }

    /// The table registered under `name`.
    pub fn get_table(&self, name: &String) -> (r: Option<&EngineTable>)
        requires
            self.wf(),
        ensures
            match r {
                Some(t) => self.table_of(name@) == Some(*t) && t.wf(),
                None => self.table_of(name@) is None,
            },
    {
        match positions_get(&self.positions, name) {
            Some(pos) => Some(&self.table_shards[pos]),
            None => None,
        }
    }

    /// Searches table `table_name` for the rows that answer `ops`: the rows
    /// at the ordinals of [`query_result`], each once.
    pub fn search(&self, table_name: String, ops: &QueryOps) -> (r: Result<Vec<Document>, QueryError>)
        requires
            self.wf(),
        ensures
            match r {
                Err(QueryError::InvalidTable(n)) => self.table_of(table_name@) is None && n@ == table_name@,
                Err(_) => false,
                Ok(docs) => self.table_of(table_name@) matches Some(t) && {
                    let os = query_seq(*ops, t.schema().indexes@, t.index_views());
                    &&& os.no_duplicates()
                    &&& forall|k: int| 0 <= k < os.len() ==> #[trigger] os[k] < t.records().len()
                    &&& os.to_set() == query_result(*ops, t.schema().indexes@, t.index_views())
                    &&& docs@.map_values(|d: Document| d@) == os.map_values(|o: u64| t.rows()[o as int])
                },
            },
    {
        let tbl = match self.get_table(&table_name) {
            Some(t) => t,
            None => {
                return Err(QueryError::InvalidTable(table_name));
            },
        };
        let pointers = execute_query(tbl, ops);
        let mut results: Vec<Document> = Vec::new();
        let mut i: usize = 0;
        while i < pointers.len()
            invariant
                tbl.wf(),
                i <= pointers@.len(),
                forall|k: int| 0 <= k < pointers@.len() ==> pointers@[k] < tbl.records().len(),
                results@.map_values(|d: Document| d@) == pointers@.subrange(0, i as int).map_values(|o: u64| tbl.rows()[o as int]),
            decreases pointers.len() - i,
        {
            let d = tbl.row_at(pointers[i]);
            let ghost before = results@;
            let ghost dv = d@;
            results.push(d);
            proof {
                let f = |d: Document| d@;
                let g = |o: u64| tbl.rows()[o as int];
                assert(results@.map_values(f) =~= before.map_values(f).push(dv));
                assert(pointers@.subrange(0, i + 1).map_values(g) =~= pointers@.subrange(0, i as int).map_values(g).push(g(pointers@[i as int])));
                assert(results@.map_values(|d: Document| d@) =~= pointers@.subrange(0, i + 1).map_values(|o: u64| tbl.rows()[o as int]));
            }
            i = i + 1;
        }
        proof {
            assert(pointers@.subrange(0, i as int) =~= pointers@);
        }
        Ok(results)
    }
}

} // verus!
