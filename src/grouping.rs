use vstd::prelude::*;

use crate::model::{
    effective_resource, lemma_same_resource_equivalence, same_resource, spans_view, Resource,
    ResourceView, Scope, ScopeView, Span, SpanView,
};

verus! {

/// The spans of one instrumentation scope, as positions in the exported batch.
#[derive(Clone, Debug)]
pub struct ScopeGroup {
    pub scope: Scope,
    pub spans: Vec<usize>,
}

/// The scope groups of one resource.
#[derive(Clone, Debug)]
pub struct ResourceGroup {
    pub resource: Resource,
    pub scopes: Vec<ScopeGroup>,
}

/// A batch regrouped by resource, then by scope.
#[derive(Clone, Debug)]
pub struct WireRequest {
    pub resource_groups: Vec<ResourceGroup>,
}

pub ghost struct ScopeGroupView {
    pub scope: ScopeView,
    pub spans: Seq<usize>,
}

pub ghost struct ResourceGroupView {
    pub resource: ResourceView,
    pub scopes: Seq<ScopeGroupView>,
}

impl View for ScopeGroup {
    type V = ScopeGroupView;

    open spec fn view(&self) -> ScopeGroupView {
        ScopeGroupView { scope: self.scope@, spans: self.spans@ }
    }
}

impl View for ResourceGroup {
    type V = ResourceGroupView;

    open spec fn view(&self) -> ResourceGroupView {
        ResourceGroupView { resource: self.resource@, scopes: self.scopes@.map_values(|g: ScopeGroup| g@) }
    }
}

impl View for WireRequest {
    type V = Seq<ResourceGroupView>;

    open spec fn view(&self) -> Seq<ResourceGroupView> {
        self.resource_groups@.map_values(|g: ResourceGroup| g@)
    }
}

/// `(r, s, k)` names the `k`-th span of scope group `s` of resource group `r`.
pub open spec fn is_pos(g: Seq<ResourceGroupView>, r: int, s: int, k: int) -> bool {
    &&& 0 <= r < g.len()
    &&& 0 <= s < g[r].scopes.len()
    &&& 0 <= k < g[r].scopes[s].spans.len()
}

/// The batch position held at `(r, s, k)`.
pub open spec fn entry(g: Seq<ResourceGroupView>, r: int, s: int, k: int) -> int {
    g[r].scopes[s].spans[k] as int
}

/// The position of the first span of scope group `s` of resource group `r`.
pub open spec fn first_of_scope(g: Seq<ResourceGroupView>, r: int, s: int) -> int {
    g[r].scopes[s].spans[0] as int
}

/// The position of the first span of resource group `r`.
pub open spec fn first_of_resource(g: Seq<ResourceGroupView>, r: int) -> int {
    first_of_scope(g, r, 0)
}

/// Each entry is a position below `n` whose span's resource and scope are those of
/// its groups.
pub open spec fn entries_placed(batch: Seq<SpanView>, fallback: ResourceView, g: Seq<ResourceGroupView>, n: int) -> bool {
    forall|r: int, s: int, k: int| #[trigger] is_pos(g, r, s, k) ==> {
        let i = entry(g, r, s, k);
        &&& 0 <= i < n
        &&& same_resource(effective_resource(batch[i], fallback), g[r].resource)
        &&& batch[i].scope == g[r].scopes[s].scope
    }
}

/// No group is empty, and each group's key is the one of its first span.
pub open spec fn groups_keyed_by_first(batch: Seq<SpanView>, fallback: ResourceView, g: Seq<ResourceGroupView>) -> bool {
    &&& forall|r: int| 0 <= r < g.len() ==> (#[trigger] g[r]).scopes.len() > 0
    &&& forall|r: int, s: int| 0 <= r < g.len() && 0 <= s < g[r].scopes.len()
        ==> (#[trigger] g[r].scopes[s]).spans.len() > 0
    &&& forall|r: int| 0 <= r < g.len() ==> (#[trigger] g[r]).resource == effective_resource(
        batch[first_of_resource(g, r)],
        fallback,
    )
}

/// Resource groups have pairwise different resources, and the scope groups of one
/// resource group pairwise different scopes.
pub open spec fn keys_distinct(g: Seq<ResourceGroupView>) -> bool {
    &&& forall|r1: int, r2: int| 0 <= r1 < g.len() && 0 <= r2 < g.len() && r1 != r2
        ==> !same_resource(#[trigger] g[r1].resource, #[trigger] g[r2].resource)
    &&& forall|r: int, s1: int, s2: int|
        0 <= r < g.len() && 0 <= s1 < g[r].scopes.len() && 0 <= s2 < g[r].scopes.len() && s1 != s2
        ==> #[trigger] g[r].scopes[s1].scope != #[trigger] g[r].scopes[s2].scope
}

/// Groups come in the order in which their first spans occur in the batch, and the
/// spans of a scope group keep their order in the batch.
pub open spec fn first_seen_order(g: Seq<ResourceGroupView>) -> bool {
    &&& forall|r1: int, r2: int| 0 <= r1 < r2 < g.len()
        ==> #[trigger] first_of_resource(g, r1) < #[trigger] first_of_resource(g, r2)
    &&& forall|r: int, s1: int, s2: int| 0 <= r < g.len() && 0 <= s1 < s2 < g[r].scopes.len()
        ==> #[trigger] first_of_scope(g, r, s1) < #[trigger] first_of_scope(g, r, s2)
    &&& forall|r: int, s: int, k1: int, k2: int|
        #[trigger] is_pos(g, r, s, k1) && #[trigger] is_pos(g, r, s, k2) && k1 < k2
        ==> entry(g, r, s, k1) < entry(g, r, s, k2)
}

/// Position `i` is held somewhere in `g`.
pub open spec fn holds(g: Seq<ResourceGroupView>, i: int) -> bool {
    exists|r: int, s: int, k: int| #[trigger] is_pos(g, r, s, k) && entry(g, r, s, k) == i
}

/// Every position below `n` is held somewhere.
pub open spec fn covers(g: Seq<ResourceGroupView>, n: int) -> bool {
    forall|i: int| 0 <= i < n ==> #[trigger] holds(g, i)
}

/// `g` groups the first `n` spans of `batch`.
pub open spec fn groups_prefix(batch: Seq<SpanView>, fallback: ResourceView, g: Seq<ResourceGroupView>, n: int) -> bool {
    &&& entries_placed(batch, fallback, g, n)
    &&& groups_keyed_by_first(batch, fallback, g)
    &&& keys_distinct(g)
    &&& first_seen_order(g)
    &&& covers(g, n)
}

/// `g` is the grouping of the whole batch, spans without a resource falling back to
/// `fallback`.
pub open spec fn is_grouping(batch: Seq<SpanView>, fallback: ResourceView, g: Seq<ResourceGroupView>) -> bool {
    groups_prefix(batch, fallback, g, batch.len() as int)
}

/// The request for `batch`: its grouping; for an empty batch, the fallback
/// resource alone with no scope groups, so that the request still names it.
pub open spec fn is_request_for(batch: Seq<SpanView>, fallback: ResourceView, g: Seq<ResourceGroupView>) -> bool {
    if batch.len() == 0 {
        g == seq![ResourceGroupView { resource: fallback, scopes: Seq::empty() }]
    } else {
        is_grouping(batch, fallback, g)
    }
}


pub open spec fn groups_view(v: Seq<ResourceGroup>) -> Seq<ResourceGroupView> {
    v.map_values(|g: ResourceGroup| g@)
}

/// `g` with position `i` appended to scope group `s` of resource group `r`.
pub open spec fn add_to_scope(g: Seq<ResourceGroupView>, r: int, s: int, i: usize) -> Seq<ResourceGroupView> {
    g.update(
        r,
        ResourceGroupView {
            resource: g[r].resource,
            scopes: g[r].scopes.update(
                s,
                ScopeGroupView { scope: g[r].scopes[s].scope, spans: g[r].scopes[s].spans.push(i) },
            ),
        },
    )
}

/// `g` with a new scope group holding position `i` alone, at the end of resource
/// group `r`.
pub open spec fn add_scope(g: Seq<ResourceGroupView>, r: int, scope: ScopeView, i: usize) -> Seq<ResourceGroupView> {
    g.update(
        r,
        ResourceGroupView {
            resource: g[r].resource,
            scopes: g[r].scopes.push(ScopeGroupView { scope, spans: seq![i] }),
        },
    )
}

/// `g` with a new resource group holding position `i` alone.
pub open spec fn add_resource(g: Seq<ResourceGroupView>, resource: ResourceView, scope: ScopeView, i: usize) -> Seq<ResourceGroupView> {
    g.push(ResourceGroupView { resource, scopes: seq![ScopeGroupView { scope, spans: seq![i] }] })
}

/// `h` keeps every group of `g` with its key, and every position that `g` holds
/// at the same place.
pub open spec fn extends(g: Seq<ResourceGroupView>, h: Seq<ResourceGroupView>) -> bool {
    &&& g.len() <= h.len()
    &&& forall|r: int| 0 <= r < g.len() ==> (#[trigger] h[r]).resource == g[r].resource
        && g[r].scopes.len() <= h[r].scopes.len()
    &&& forall|r: int, s: int| 0 <= r < g.len() && 0 <= s < g[r].scopes.len()
        ==> (#[trigger] h[r].scopes[s]).scope == g[r].scopes[s].scope
        && g[r].scopes[s].spans.len() <= h[r].scopes[s].spans.len()
    &&& forall|r: int, s: int, k: int| #[trigger] is_pos(g, r, s, k) ==> entry(h, r, s, k) == entry(g, r, s, k)
}

/// What a grouping of the first `i` spans passes on to any extension of it:
/// the positions it holds, the first spans of its groups, and that its keys are
/// those of their first spans and pairwise distinct.
proof fn lemma_extension(batch: Seq<SpanView>, fallback: ResourceView, g: Seq<ResourceGroupView>, h: Seq<ResourceGroupView>, i: int)
    requires
        groups_prefix(batch, fallback, g, i),
        extends(g, h),
    ensures
        forall|r: int, s: int, k: int| #[trigger] is_pos(g, r, s, k) ==> is_pos(h, r, s, k),
        forall|j: int| 0 <= j < i ==> #[trigger] holds(h, j),
        forall|r: int| 0 <= r < g.len() ==> #[trigger] first_of_resource(h, r) == first_of_resource(g, r),
        forall|r: int, s: int| 0 <= r < g.len() && 0 <= s < g[r].scopes.len()
            ==> #[trigger] first_of_scope(h, r, s) == first_of_scope(g, r, s),
        forall|r: int| 0 <= r < g.len() ==> (#[trigger] h[r]).resource == effective_resource(
            batch[first_of_resource(h, r)],
            fallback,
        ),
        forall|r1: int, r2: int| 0 <= r1 < g.len() && 0 <= r2 < g.len() && r1 != r2
            ==> !same_resource(#[trigger] h[r1].resource, #[trigger] h[r2].resource),
        forall|r: int, s1: int, s2: int|
            0 <= r < g.len() && 0 <= s1 < g[r].scopes.len() && 0 <= s2 < g[r].scopes.len() && s1 != s2
            ==> #[trigger] h[r].scopes[s1].scope != #[trigger] h[r].scopes[s2].scope,
{
    assert forall|j: int| 0 <= j < i implies #[trigger] holds(h, j) by {
        assert(holds(g, j));
        let (r, s, k) = choose|r: int, s: int, k: int| #[trigger] is_pos(g, r, s, k) && entry(g, r, s, k) == j;
        assert(is_pos(h, r, s, k));
    }
    assert forall|r: int| 0 <= r < g.len() implies #[trigger] first_of_resource(h, r) == first_of_resource(g, r) by {
        assert(is_pos(g, r, 0, 0));
    }
    assert forall|r: int, s: int| 0 <= r < g.len() && 0 <= s < g[r].scopes.len()
        implies #[trigger] first_of_scope(h, r, s) == first_of_scope(g, r, s) by {
        assert(is_pos(g, r, s, 0));
    }
    assert forall|r: int| 0 <= r < g.len() implies (#[trigger] h[r]).resource == effective_resource(
        batch[first_of_resource(h, r)],
        fallback,
    ) by {
        assert(first_of_resource(h, r) == first_of_resource(g, r));
    }
    assert forall|r: int, s1: int, s2: int|
        0 <= r < g.len() && 0 <= s1 < g[r].scopes.len() && 0 <= s2 < g[r].scopes.len() && s1 != s2
        implies #[trigger] h[r].scopes[s1].scope != #[trigger] h[r].scopes[s2].scope by {
        assert(h[r].scopes[s1].scope == g[r].scopes[s1].scope);
        assert(h[r].scopes[s2].scope == g[r].scopes[s2].scope);
    }
}

proof fn lemma_add_to_scope(batch: Seq<SpanView>, fallback: ResourceView, g: Seq<ResourceGroupView>, r: int, s: int, i: usize)
    requires
        groups_prefix(batch, fallback, g, i as int),
        i < batch.len(),
        0 <= r < g.len(),
        0 <= s < g[r].scopes.len(),
        same_resource(g[r].resource, effective_resource(batch[i as int], fallback)),
        g[r].scopes[s].scope == batch[i as int].scope,
    ensures
        groups_prefix(batch, fallback, add_to_scope(g, r, s, i), i + 1),
{
    let h = add_to_scope(g, r, s, i);
    let kn = g[r].scopes[s].spans.len() as int;
    lemma_same_resource_equivalence(g[r].resource, effective_resource(batch[i as int], fallback), g[r].resource);
    lemma_extension(batch, fallback, g, h, i as int);
    assert forall|r1: int, s1: int, k1: int| is_pos(h, r1, s1, k1) implies is_pos(g, r1, s1, k1) || (r1 == r
        && s1 == s && k1 == kn) by {}
    assert(holds(h, i as int)) by {
        assert(is_pos(h, r, s, kn));
    }
    assert forall|r1: int, s1: int, k1: int, k2: int|
        #[trigger] is_pos(h, r1, s1, k1) && #[trigger] is_pos(h, r1, s1, k2) && k1 < k2
        implies entry(h, r1, s1, k1) < entry(h, r1, s1, k2) by {
        assert(is_pos(g, r1, s1, k1));
    }
}

proof fn lemma_add_scope(batch: Seq<SpanView>, fallback: ResourceView, g: Seq<ResourceGroupView>, r: int, i: usize)
    requires
        groups_prefix(batch, fallback, g, i as int),
        i < batch.len(),
        0 <= r < g.len(),
        same_resource(g[r].resource, effective_resource(batch[i as int], fallback)),
        forall|s: int| 0 <= s < g[r].scopes.len() ==> (#[trigger] g[r].scopes[s]).scope != batch[i as int].scope,
    ensures
        groups_prefix(batch, fallback, add_scope(g, r, batch[i as int].scope, i), i + 1),
{
    let h = add_scope(g, r, batch[i as int].scope, i);
    let sn = g[r].scopes.len() as int;
    lemma_same_resource_equivalence(g[r].resource, effective_resource(batch[i as int], fallback), g[r].resource);
    lemma_extension(batch, fallback, g, h, i as int);
    assert forall|r1: int, s1: int, k1: int| is_pos(h, r1, s1, k1) implies is_pos(g, r1, s1, k1) || (r1 == r
        && s1 == sn && k1 == 0) by {}
    assert(holds(h, i as int)) by {
        assert(is_pos(h, r, sn, 0));
    }
    assert forall|r1: int, s1: int| 0 <= r1 < h.len() && 0 <= s1 < h[r1].scopes.len()
        implies (#[trigger] h[r1].scopes[s1]).spans.len() > 0 by {
        if r1 != r || s1 != sn {
            assert(h[r1].scopes[s1] == g[r1].scopes[s1]);
        }
    }
    assert forall|r1: int, s1: int, s2: int| 0 <= r1 < h.len() && 0 <= s1 < s2 < h[r1].scopes.len()
        implies #[trigger] first_of_scope(h, r1, s1) < #[trigger] first_of_scope(h, r1, s2) by {
        assert(is_pos(g, r1, s1, 0));
    }
    assert forall|r1: int, s1: int, k1: int, k2: int|
        #[trigger] is_pos(h, r1, s1, k1) && #[trigger] is_pos(h, r1, s1, k2) && k1 < k2
        implies entry(h, r1, s1, k1) < entry(h, r1, s1, k2) by {
        assert(is_pos(g, r1, s1, k1));
    }
    assert forall|s1: int, s2: int| 0 <= s1 < h[r].scopes.len() && 0 <= s2 < h[r].scopes.len() && s1 != s2
        implies #[trigger] h[r].scopes[s1].scope != #[trigger] h[r].scopes[s2].scope by {
        if s1 == sn {
            assert(g[r].scopes[s2].scope != batch[i as int].scope);
        } else if s2 == sn {
            assert(g[r].scopes[s1].scope != batch[i as int].scope);
        }
    }
}

proof fn lemma_add_resource(batch: Seq<SpanView>, fallback: ResourceView, g: Seq<ResourceGroupView>, i: usize)
    requires
        groups_prefix(batch, fallback, g, i as int),
        i < batch.len(),
        forall|r: int| 0 <= r < g.len() ==> !same_resource(
            (#[trigger] g[r]).resource,
            effective_resource(batch[i as int], fallback),
        ),
    ensures
        groups_prefix(
            batch,
            fallback,
            add_resource(g, effective_resource(batch[i as int], fallback), batch[i as int].scope, i),
            i + 1,
        ),
{
    let e = effective_resource(batch[i as int], fallback);
    let h = add_resource(g, e, batch[i as int].scope, i);
    let rn = g.len() as int;
    lemma_same_resource_equivalence(e, e, e);
    lemma_extension(batch, fallback, g, h, i as int);
    assert forall|r1: int, s1: int, k1: int| is_pos(h, r1, s1, k1) implies is_pos(g, r1, s1, k1) || (r1 == rn
        && s1 == 0 && k1 == 0) by {}
    assert(holds(h, i as int)) by {
        assert(is_pos(h, rn, 0, 0));
    }
    assert forall|r1: int, s1: int| 0 <= r1 < h.len() && 0 <= s1 < h[r1].scopes.len()
        implies (#[trigger] h[r1].scopes[s1]).spans.len() > 0 by {
        if r1 < rn {
            assert(h[r1].scopes[s1] == g[r1].scopes[s1]);
        }
    }
    assert forall|r1: int, r2: int| 0 <= r1 < r2 < h.len()
        implies #[trigger] first_of_resource(h, r1) < #[trigger] first_of_resource(h, r2) by {
        assert(is_pos(g, r1, 0, 0));
    }
    assert forall|r1: int, s1: int, k1: int, k2: int|
        #[trigger] is_pos(h, r1, s1, k1) && #[trigger] is_pos(h, r1, s1, k2) && k1 < k2
        implies entry(h, r1, s1, k1) < entry(h, r1, s1, k2) by {
        assert(is_pos(g, r1, s1, k1));
    }
    assert forall|r1: int, r2: int| 0 <= r1 < h.len() && 0 <= r2 < h.len() && r1 != r2
        implies !same_resource(#[trigger] h[r1].resource, #[trigger] h[r2].resource) by {
        if r1 == rn {
            lemma_same_resource_equivalence(e, g[r2].resource, e);
        } else if r2 == rn {
            assert(!same_resource(g[r1].resource, e));
        }
    }
}

fn find_resource_group(groups: &Vec<ResourceGroup>, resource: &Resource) -> (r: Option<usize>)
    ensures
        match r {
            Some(j) => j < groups@.len() && same_resource(groups@[j as int].resource@, resource@),
            None => forall|j: int| 0 <= j < groups@.len() ==> !same_resource(
                (#[trigger] groups@[j]).resource@,
                resource@,
            ),
        },
{
    let mut j: usize = 0;
    while j < groups.len()
        invariant
            j <= groups@.len(),
            forall|k: int| 0 <= k < j ==> !same_resource((#[trigger] groups@[k]).resource@, resource@),
        decreases groups@.len() - j,
    {
        if groups[j].resource.same_as(resource) {
            return Some(j);
        }
        j = j + 1;
    }
    None
}

fn find_scope_group(scopes: &Vec<ScopeGroup>, scope: &Scope) -> (r: Option<usize>)
    ensures
        match r {
            Some(j) => j < scopes@.len() && scopes@[j as int].scope@ == scope@,
            None => forall|j: int| 0 <= j < scopes@.len() ==> (#[trigger] scopes@[j]).scope@ != scope@,
        },
{
    let mut j: usize = 0;
    while j < scopes.len()
        invariant
            j <= scopes@.len(),
            forall|k: int| 0 <= k < j ==> (#[trigger] scopes@[k]).scope@ != scope@,
        decreases scopes@.len() - j,
    {
        if scopes[j].scope.same_as(scope) {
            return Some(j);
        }
        j = j + 1;
    }
    None
}

/// Regroups a batch by resource, then by scope, in one pass. A span without a
/// resource of its own is grouped under `fallback`. Resources compare by value
/// (`same_resource`), scopes by equality; groups appear in the order in which the
/// batch first shows them, and each scope group lists the positions of its spans
/// in increasing order. An empty batch gives one group: `fallback`, with no
/// scope groups.
pub fn group_spans(batch: &Vec<Span>, fallback: &Resource) -> (req: WireRequest)
    ensures
        is_request_for(spans_view(batch@), fallback@, req@),
{
    let ghost bv = spans_view(batch@);
    let mut groups: Vec<ResourceGroup> = Vec::new();
    let mut i: usize = 0;
    while i < batch.len()
        invariant
            i <= batch@.len(),
            bv == spans_view(batch@),
            groups_prefix(bv, fallback@, groups_view(groups@), i as int),
        decreases batch@.len() - i,
    {
        let span = &batch[i];
        let resource: &Resource = match &span.resource {
            Some(r) => r,
            None => fallback,
        };
        let ghost g0 = groups_view(groups@);
        assert(bv[i as int] == span@);
        assert(resource@ == effective_resource(bv[i as int], fallback@));
        match find_resource_group(&groups, resource) {
            Some(r) => {
                assert(g0[r as int] == groups@[r as int]@);
                match find_scope_group(&groups[r].scopes, &span.scope) {
                    Some(s) => {
                        assert(g0[r as int].scopes[s as int] == groups@[r as int].scopes@[s as int]@);
                        let ghost before = groups@;
                        groups[r].scopes[s].spans.push(i);
                        proof {
                            lemma_add_to_scope(bv, fallback@, g0, r as int, s as int, i);
                            let h = add_to_scope(g0, r as int, s as int, i);
                            let gv = groups_view(groups@);
                            assert(groups@[r as int].scopes@[s as int]@ == h[r as int].scopes[s as int]);
                            assert forall|s2: int| 0 <= s2 < h[r as int].scopes.len() implies gv[r as int].scopes[s2]
                                == h[r as int].scopes[s2] by {
                                if s2 != s {
                                    assert(groups@[r as int].scopes@[s2] == before[r as int].scopes@[s2]);
                                    assert(g0[r as int].scopes[s2] == before[r as int].scopes@[s2]@);
                                }
                            }
                            assert(gv[r as int].scopes =~= h[r as int].scopes);
                            assert forall|r2: int| 0 <= r2 < h.len() implies gv[r2] == h[r2] by {
                                if r2 != r {
                                    assert(groups@[r2] == before[r2]);
                                    assert(g0[r2] == before[r2]@);
                                }
                            }
                            assert(gv =~= h);
                        }
                    },
                    None => {
                        assert forall|s: int| 0 <= s < g0[r as int].scopes.len() implies (
                        #[trigger] g0[r as int].scopes[s]).scope != bv[i as int].scope by {
                            assert(g0[r as int].scopes[s] == groups@[r as int].scopes@[s]@);
                        }
                        let mut spans: Vec<usize> = Vec::new();
                        spans.push(i);
                        let group = ScopeGroup { scope: span.scope.copy(), spans };
                        assert(group@ == ScopeGroupView { scope: bv[i as int].scope, spans: seq![i] });
                        let ghost before = groups@;
                        groups[r].scopes.push(group);
                        proof {
                            lemma_add_scope(bv, fallback@, g0, r as int, i);
                            let h = add_scope(g0, r as int, bv[i as int].scope, i);
                            let gv = groups_view(groups@);
                            assert forall|s2: int| 0 <= s2 < h[r as int].scopes.len() implies gv[r as int].scopes[s2]
                                == h[r as int].scopes[s2] by {
                                if s2 < g0[r as int].scopes.len() {
                                    assert(groups@[r as int].scopes@[s2] == before[r as int].scopes@[s2]);
                                    assert(g0[r as int].scopes[s2] == before[r as int].scopes@[s2]@);
                                }
                            }
                            assert(gv[r as int].scopes =~= h[r as int].scopes);
                            assert forall|r2: int| 0 <= r2 < h.len() implies gv[r2] == h[r2] by {
                                if r2 != r {
                                    assert(groups@[r2] == before[r2]);
                                    assert(g0[r2] == before[r2]@);
                                }
                            }
                            assert(gv =~= h);
                        }
                    },
                }
            },
            None => {
                assert forall|r: int| 0 <= r < g0.len() implies !same_resource(
                    (#[trigger] g0[r]).resource,
                    effective_resource(bv[i as int], fallback@),
                ) by {
                    assert(g0[r] == groups@[r]@);
                }
                let mut spans: Vec<usize> = Vec::new();
                spans.push(i);
                assert(spans@ =~= seq![i]);
                let mut scopes: Vec<ScopeGroup> = Vec::new();
                scopes.push(ScopeGroup { scope: span.scope.copy(), spans });
                let group = ResourceGroup { resource: resource.copy(), scopes };
                assert(group@.scopes =~~= seq![ScopeGroupView { scope: bv[i as int].scope, spans: seq![i] }]);
                let ghost before = groups@;
                groups.push(group);
                proof {
                    assert forall|r2: int| 0 <= r2 < g0.len() implies groups_view(groups@)[r2] == g0[r2] by {
                        assert(groups@[r2] == before[r2]);
                    }
                }
                proof {
                    lemma_add_resource(bv, fallback@, g0, i);
                    assert(groups_view(groups@) =~~= add_resource(
                        g0,
                        effective_resource(bv[i as int], fallback@),
                        bv[i as int].scope,
                        i,
                    ));
                }
            },
        }
        i = i + 1;
    }
    if batch.len() == 0 {
        let group = ResourceGroup { resource: fallback.copy(), scopes: Vec::new() };
        assert(group@.scopes =~= Seq::<ScopeGroupView>::empty());
        groups = Vec::new();
        groups.push(group);
        assert(groups_view(groups@) =~= seq![ResourceGroupView { resource: fallback@, scopes: Seq::empty() }]);
    }
    let req = WireRequest { resource_groups: groups };
    assert(req@ == groups_view(groups@));
    req
}


proof fn lemma_empty_request_holds_nothing(batch: Seq<SpanView>, fallback: ResourceView, g: Seq<ResourceGroupView>)
    requires
        is_request_for(batch, fallback, g),
    ensures
        batch.len() == 0 ==> forall|r: int, s: int, k: int| !#[trigger] is_pos(g, r, s, k),
{
}

/// Grouping loses no span and repeats none: every position of the batch is held,
/// only positions of the batch are held, and no position is held twice.
pub proof fn lemma_grouping_complete(batch: Seq<SpanView>, fallback: ResourceView, g: Seq<ResourceGroupView>)
    requires
        is_request_for(batch, fallback, g),
    ensures
        forall|i: int| 0 <= i < batch.len() ==> #[trigger] holds(g, i),
        forall|r: int, s: int, k: int| #[trigger] is_pos(g, r, s, k) ==> 0 <= entry(g, r, s, k) < batch.len(),
        forall|r1: int, s1: int, k1: int, r2: int, s2: int, k2: int|
            #[trigger] is_pos(g, r1, s1, k1) && #[trigger] is_pos(g, r2, s2, k2) && entry(g, r1, s1, k1)
                == entry(g, r2, s2, k2) ==> r1 == r2 && s1 == s2 && k1 == k2,
{
    lemma_empty_request_holds_nothing(batch, fallback, g);
    assert forall|r1: int, s1: int, k1: int, r2: int, s2: int, k2: int|
        #[trigger] is_pos(g, r1, s1, k1) && #[trigger] is_pos(g, r2, s2, k2) && entry(g, r1, s1, k1) == entry(
            g,
            r2,
            s2,
            k2,
        ) implies r1 == r2 && s1 == s2 && k1 == k2 by {
        let i = entry(g, r1, s1, k1);
        let e = effective_resource(batch[i], fallback);
        lemma_same_resource_equivalence(g[r1].resource, e, g[r2].resource);
        lemma_same_resource_equivalence(e, g[r2].resource, e);
        if k1 < k2 {
            assert(entry(g, r1, s1, k1) < entry(g, r1, s1, k2));
        } else if k2 < k1 {
            assert(entry(g, r1, s1, k2) < entry(g, r1, s1, k1));
        }
    }
}

/// Spans whose resources are the same by value land in one resource group, and
/// if their scopes are equal too, in one scope group.
pub proof fn lemma_grouping_collapses_equal_keys(
    batch: Seq<SpanView>,
    fallback: ResourceView,
    g: Seq<ResourceGroupView>,
    r1: int,
    s1: int,
    k1: int,
    r2: int,
    s2: int,
    k2: int,
)
    requires
        is_request_for(batch, fallback, g),
        is_pos(g, r1, s1, k1),
        is_pos(g, r2, s2, k2),
        same_resource(
            effective_resource(batch[entry(g, r1, s1, k1)], fallback),
            effective_resource(batch[entry(g, r2, s2, k2)], fallback),
        ),
    ensures
        r1 == r2,
        batch[entry(g, r1, s1, k1)].scope == batch[entry(g, r2, s2, k2)].scope ==> s1 == s2,
{
    lemma_empty_request_holds_nothing(batch, fallback, g);
    let e1 = effective_resource(batch[entry(g, r1, s1, k1)], fallback);
    let e2 = effective_resource(batch[entry(g, r2, s2, k2)], fallback);
    lemma_same_resource_equivalence(e1, g[r1].resource, e2);
    lemma_same_resource_equivalence(g[r1].resource, e1, e2);
    lemma_same_resource_equivalence(g[r1].resource, e2, g[r2].resource);
}

/// Groups appear in first-seen order: each span of a later resource group comes
/// after the first span of an earlier one, each span of a later scope group after
/// the first span of an earlier scope group of the same resource, and spans keep
/// their batch order within a scope group.
pub proof fn lemma_grouping_first_seen(batch: Seq<SpanView>, fallback: ResourceView, g: Seq<ResourceGroupView>)
    requires
        is_request_for(batch, fallback, g),
    ensures
        forall|r1: int, r2: int, s: int, k: int| 0 <= r1 < r2 && #[trigger] is_pos(g, r2, s, k)
            ==> #[trigger] first_of_resource(g, r1) < entry(g, r2, s, k),
        forall|r: int, s1: int, s2: int, k: int| 0 <= s1 < s2 && #[trigger] is_pos(g, r, s2, k)
            ==> #[trigger] first_of_scope(g, r, s1) < entry(g, r, s2, k),
        forall|r: int, s: int, k1: int, k2: int|
            #[trigger] is_pos(g, r, s, k1) && #[trigger] is_pos(g, r, s, k2) && k1 < k2
            ==> entry(g, r, s, k1) < entry(g, r, s, k2),
{
    lemma_empty_request_holds_nothing(batch, fallback, g);
    assert forall|r: int, s: int, k: int| #[trigger] is_pos(g, r, s, k) implies first_of_resource(g, r) <= entry(
        g,
        r,
        s,
        k,
    ) by {
        assert(is_pos(g, r, s, 0));
        if k > 0 {
            assert(entry(g, r, s, 0) < entry(g, r, s, k));
        }
        if s > 0 {
            assert(first_of_scope(g, r, 0) < first_of_scope(g, r, s));
        }
    }
    assert forall|r1: int, r2: int, s: int, k: int| 0 <= r1 < r2 && #[trigger] is_pos(g, r2, s, k)
        implies #[trigger] first_of_resource(g, r1) < entry(g, r2, s, k) by {
        assert(first_of_resource(g, r1) < first_of_resource(g, r2));
    }
    assert forall|r: int, s1: int, s2: int, k: int| 0 <= s1 < s2 && #[trigger] is_pos(g, r, s2, k)
        implies #[trigger] first_of_scope(g, r, s1) < entry(g, r, s2, k) by {
        assert(is_pos(g, r, s2, 0));
        if k > 0 {
            assert(entry(g, r, s2, 0) < entry(g, r, s2, k));
        }
        assert(first_of_scope(g, r, s1) < first_of_scope(g, r, s2));
    }
}


/// A span that carries no resource is grouped under a resource equal by value
/// to the fallback.
pub proof fn lemma_resourceless_spans_use_fallback(
    batch: Seq<SpanView>,
    fallback: ResourceView,
    g: Seq<ResourceGroupView>,
    r: int,
    s: int,
    k: int,
)
    requires
        is_request_for(batch, fallback, g),
        is_pos(g, r, s, k),
        batch[entry(g, r, s, k)].resource is None,
    ensures
        same_resource(g[r].resource, fallback),
{
    lemma_empty_request_holds_nothing(batch, fallback, g);
    lemma_same_resource_equivalence(fallback, g[r].resource, fallback);
}

} // verus!
