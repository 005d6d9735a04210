//! An index from byte offsets to the innermost scope around each.
//!
//! The scopes of a text nest: two of them are disjoint, or one lies within the
//! other. The index cuts the text at every offset where a scope starts or ends
//! and records, for each cut, the innermost scope that holds it. What holds at
//! a cut holds up to the next one.

use std::ops::Range;
use vstd::prelude::*;
use vstd::string::*;

verus! {

/// The scope that a position lies in.
#[derive(Debug)]
pub enum ScopeLookupResult {
    /// A scope with a name.
    NamedScope(String),
    /// A scope for which no name was found.
    AnonymousScope,
    /// No scope: the position lies in the global scope, or nothing is known of it.
    Unknown,
}

/// The mathematical value of a [`ScopeLookupResult`].
pub enum ScopeResult {
    Named(Seq<char>),
    Anonymous,
    Unknown,
}

impl View for ScopeLookupResult {
    type V = ScopeResult;

    open spec fn view(&self) -> ScopeResult {
        match self {
            ScopeLookupResult::NamedScope(name) => ScopeResult::Named(name@),
            ScopeLookupResult::AnonymousScope => ScopeResult::Anonymous,
            ScopeLookupResult::Unknown => ScopeResult::Unknown,
        }
    }
}

impl Clone for ScopeLookupResult {
    fn clone(&self) -> (copy: ScopeLookupResult)
        ensures
            copy == *self,
    {
        match self {
            ScopeLookupResult::NamedScope(name) => ScopeLookupResult::NamedScope(name.clone()),
            ScopeLookupResult::AnonymousScope => ScopeLookupResult::AnonymousScope,
            ScopeLookupResult::Unknown => ScopeLookupResult::Unknown,
        }
    }
}

/// The scopes do not nest: two of them overlap without one holding the other,
/// or one ends before it starts.
#[derive(Clone, Copy, Debug, PartialEq, Eq, Structural)]
pub struct ScopeIndexError;

/// The mathematical value of a scope with its resolved name.
pub struct ResolvedScope {
    pub start: u32,
    pub end: u32,
    pub name: Option<Seq<char>>,
}

/// The value of a scope as it is handed to [`ScopeIndex::new`].
pub open spec fn resolved_view(scope: (Range<u32>, Option<String>)) -> ResolvedScope {
    ResolvedScope {
        start: scope.0.start,
        end: scope.0.end,
        name: match scope.1 {
            Some(name) => Some(name@),
            None => None,
        },
    }
}

/// The values of the entries of `scopes`.
pub open spec fn resolved_views(scopes: Seq<(Range<u32>, Option<String>)>) -> Seq<ResolvedScope> {
    Seq::new(scopes.len(), |i: int| resolved_view(scopes[i]))
}

/// Scopes `a` and `b` overlap, and neither lies within the other.
pub open spec fn crossing(a: ResolvedScope, b: ResolvedScope) -> bool {
    a.start < b.start && b.start < a.end && a.end < b.end
}

/// Every scope ends no earlier than it starts, and no two of them cross.
pub open spec fn scopes_nest(scopes: Seq<ResolvedScope>) -> bool {
    &&& forall|i: int| 0 <= i < scopes.len() ==> (#[trigger] scopes[i]).start <= scopes[i].end
    &&& forall|i: int, j: int|
        0 <= i < scopes.len() && 0 <= j < scopes.len() ==> !crossing(
            #[trigger] scopes[i],
            #[trigger] scopes[j],
        )
}

/// Scope `a` comes before scope `b` in the document: it starts earlier, or at
/// the same offset and ends no earlier.
pub open spec fn comes_before(a: ResolvedScope, b: ResolvedScope) -> bool {
    a.start < b.start || (a.start == b.start && a.end >= b.end)
}

/// Every scope comes before the ones behind it.
pub open spec fn in_document_order(scopes: Seq<ResolvedScope>) -> bool {
    forall|i: int, j: int|
        0 <= i < j < scopes.len() ==> comes_before(#[trigger] scopes[i], #[trigger] scopes[j])
}

/// Offset `p` lies in `scope`.
pub open spec fn holds(scope: ResolvedScope, p: int) -> bool {
    scope.start <= p < scope.end
}

/// Scope `a` lies within scope `b`, or is the same range.
pub open spec fn within(a: ResolvedScope, b: ResolvedScope) -> bool {
    b.start <= a.start && a.end <= b.end
}

/// The innermost of the first `n` scopes that hold offset `p`, by its index.
/// Of two scopes with the same range the later counts as the inner one.
pub open spec fn innermost(scopes: Seq<ResolvedScope>, n: int, p: int) -> Option<int>
    decreases n,
{
    if n <= 0 {
        None
    } else {
        let earlier = innermost(scopes, n - 1, p);
        if holds(scopes[n - 1], p) && (earlier is None || within(
            scopes[n - 1],
            scopes[earlier.unwrap()],
        )) {
            Some(n - 1)
        } else {
            earlier
        }
    }
}

/// The index of a scope as a mathematical integer.
pub open spec fn owner_view(owner: Option<usize>) -> Option<int> {
    match owner {
        Some(i) => Some(i as int),
        None => None,
    }
}

/// Among scopes that nest, the innermost scope at an offset holds the offset
/// and lies within every scope that holds it; where there is none, no scope
/// holds the offset.
pub proof fn lemma_innermost(scopes: Seq<ResolvedScope>, n: int, p: int)
    requires
        scopes_nest(scopes),
        0 <= n <= scopes.len(),
    ensures
        match innermost(scopes, n, p) {
            Some(i) => 0 <= i < n && holds(scopes[i], p) && forall|j: int|
                0 <= j < n && holds(#[trigger] scopes[j], p) ==> within(scopes[i], scopes[j]),
            None => forall|j: int| 0 <= j < n ==> !holds(#[trigger] scopes[j], p),
        },
    decreases n,
{
    if n > 0 {
        lemma_innermost(scopes, n - 1, p);
        let last = scopes[n - 1];
        if holds(last, p) {
            if let Some(e) = innermost(scopes, n - 1, p) {
                assert(!crossing(scopes[e], last) && !crossing(last, scopes[e]));
                if within(last, scopes[e]) {
                    assert forall|j: int| 0 <= j < n && holds(#[trigger] scopes[j], p) implies within(
                        last,
                        scopes[j],
                    ) by {
                        if j < n - 1 {
                            assert(within(scopes[e], scopes[j]));
                        }
                    }
                } else {
                    assert(within(scopes[e], last));
                }
            }
        }
    }
}

/// What the scope at `at` says of the offsets in it.
pub open spec fn result_of(scopes: Seq<ResolvedScope>, at: Option<int>) -> ScopeResult {
    match at {
        None => ScopeResult::Unknown,
        Some(i) => match scopes[i].name {
            Some(name) => ScopeResult::Named(name),
            None => ScopeResult::Anonymous,
        },
    }
}

/// The scope that offset `p` lies in.
pub open spec fn result_at(scopes: Seq<ResolvedScope>, p: int) -> ScopeResult {
    result_of(scopes, innermost(scopes, scopes.len() as int, p))
}

/// The ascending sequence `sorted` with `x` put in its place, unless it is there.
pub open spec fn with_boundary(sorted: Seq<u32>, x: u32) -> Seq<u32>
    decreases sorted.len(),
{
    if sorted.len() == 0 {
        seq![x]
    } else if sorted.last() < x {
        sorted.push(x)
    } else if sorted.last() == x {
        sorted
    } else {
        with_boundary(sorted.drop_last(), x).push(sorted.last())
    }
}

/// Offset 0 and the offsets at which one of the first `n` scopes starts or
/// ends, each once, in ascending order.
pub open spec fn boundaries(scopes: Seq<ResolvedScope>, n: int) -> Seq<u32>
    decreases n,
{
    if n <= 0 {
        seq![0u32]
    } else {
        with_boundary(with_boundary(boundaries(scopes, n - 1), scopes[n - 1].start), scopes[n - 1].end)
    }
}

/// The entries of the index of `scopes`: one for each boundary, with the scope
/// that the boundary lies in. Without scopes there are no entries.
pub open spec fn index_entries(scopes: Seq<ResolvedScope>) -> Seq<(u32, ScopeResult)> {
    if scopes.len() == 0 {
        Seq::empty()
    } else {
        let cuts = boundaries(scopes, scopes.len() as int);
        Seq::new(cuts.len(), |i: int| (cuts[i], result_at(scopes, cuts[i] as int)))
    }
}

/// Each offset of `s` is smaller than the next.
pub open spec fn ascending(s: Seq<u32>) -> bool {
    forall|i: int, j: int| 0 <= i < j < s.len() ==> s[i] < s[j]
}

/// Putting an offset in its place keeps the sequence ascending, and adds that
/// offset and no other.
pub proof fn lemma_with_boundary(sorted: Seq<u32>, x: u32)
    requires
        ascending(sorted),
    ensures
        ascending(with_boundary(sorted, x)),
        with_boundary(sorted, x).contains(x),
        forall|y: u32| sorted.contains(y) ==> with_boundary(sorted, x).contains(y),
        forall|y: u32| with_boundary(sorted, x).contains(y) ==> y == x || sorted.contains(y),
    decreases sorted.len(),
{
    let r = with_boundary(sorted, x);
    if sorted.len() == 0 {
        assert(r[0] == x);
    } else if sorted.last() < x {
        assert(r[sorted.len() as int] == x);
        assert forall|y: u32| sorted.contains(y) implies r.contains(y) by {
            let i = choose|i: int| 0 <= i < sorted.len() && sorted[i] == y;
            assert(r[i] == y);
        }
    } else if sorted.last() == x {
        assert(sorted[sorted.len() - 1] == x);
    } else {
        let front = sorted.drop_last();
        lemma_with_boundary(front, x);
        let inner = with_boundary(front, x);
        assert forall|i: int, j: int| 0 <= i < j < r.len() implies r[i] < r[j] by {
            if j == inner.len() {
                let y = inner[i];
                assert(inner.contains(y));
                assert(y == x || front.contains(y));
                if y != x {
                    let k = choose|k: int| 0 <= k < front.len() && front[k] == y;
                    assert(sorted[k] == y);
                    assert(sorted[k] < sorted[sorted.len() - 1]);
                }
            } else {
                assert(inner[i] < inner[j]);
            }
        }
        let w = choose|w: int| 0 <= w < inner.len() && inner[w] == x;
        assert(r[w] == x);
        assert forall|y: u32| sorted.contains(y) implies r.contains(y) by {
            let i = choose|i: int| 0 <= i < sorted.len() && sorted[i] == y;
            if i < front.len() {
                assert(front[i] == y);
                assert(front.contains(y));
                let k = choose|k: int| 0 <= k < inner.len() && inner[k] == y;
                assert(r[k] == y);
            } else {
                assert(r[inner.len() as int] == y);
            }
        }
        assert forall|y: u32| r.contains(y) implies y == x || sorted.contains(y) by {
            let i = choose|i: int| 0 <= i < r.len() && r[i] == y;
            if i < inner.len() {
                assert(inner[i] == y);
                assert(inner.contains(y));
                assert(y == x || front.contains(y));
                if y != x {
                    let k = choose|k: int| 0 <= k < front.len() && front[k] == y;
                    assert(sorted[k] == y);
                }
            } else {
                assert(sorted[sorted.len() - 1] == y);
            }
        }
    }
}

/// The boundaries are ascending and start with offset 0.
pub proof fn lemma_boundaries_ascending(scopes: Seq<ResolvedScope>, n: int)
    ensures
        ascending(boundaries(scopes, n)),
        boundaries(scopes, n).contains(0u32),
        forall|i: int|
            0 <= i < n && i < scopes.len() ==> boundaries(scopes, n).contains(
                (#[trigger] scopes[i]).start,
            ) && boundaries(scopes, n).contains(scopes[i].end),
    decreases n,
{
    if n <= 0 {
        assert(seq![0u32][0] == 0u32);
    } else {
        lemma_boundaries_ascending(scopes, n - 1);
        let before = boundaries(scopes, n - 1);
        lemma_with_boundary(before, scopes[n - 1].start);
        lemma_with_boundary(with_boundary(before, scopes[n - 1].start), scopes[n - 1].end);
    }
}

/// The offsets of the entries are ascending.
pub open spec fn entries_ascending(entries: Seq<(u32, ScopeResult)>) -> bool {
    forall|i: int, j: int|
        0 <= i < j < entries.len() ==> (#[trigger] entries[i]).0 < (#[trigger] entries[j]).0
}

/// The entries of an index are in ascending order of their offsets.
pub proof fn lemma_index_entries_ascending(scopes: Seq<ResolvedScope>)
    ensures
        entries_ascending(index_entries(scopes)),
{
    if scopes.len() > 0 {
        lemma_boundaries_ascending(scopes, scopes.len() as int);
    }
}

/// The number of the first `n` entries whose offset is not larger than `p`.
pub open spec fn entries_not_after(entries: Seq<(u32, ScopeResult)>, n: int, p: int) -> int
    decreases n,
{
    if n <= 0 {
        0
    } else if entries[n - 1].0 <= p {
        entries_not_after(entries, n - 1, p) + 1
    } else {
        entries_not_after(entries, n - 1, p)
    }
}

/// What an index says of offset `p`: what its last entry at or before `p`
/// says, and that nothing is known where there is no such entry.
pub open spec fn lookup_at(entries: Seq<(u32, ScopeResult)>, p: int) -> ScopeResult {
    let k = entries_not_after(entries, entries.len() as int, p);
    if k == 0 {
        ScopeResult::Unknown
    } else {
        entries[k - 1].1
    }
}

/// Of ascending entries, those that are not larger than `p` come first.
pub proof fn lemma_entries_not_after(entries: Seq<(u32, ScopeResult)>, n: int, p: int)
    requires
        entries_ascending(entries),
        0 <= n <= entries.len(),
    ensures
        0 <= entries_not_after(entries, n, p) <= n,
        forall|i: int| 0 <= i < entries_not_after(entries, n, p) ==> (#[trigger] entries[i]).0 <= p,
        forall|i: int| entries_not_after(entries, n, p) <= i < n ==> (#[trigger] entries[i]).0 > p,
    decreases n,
{
    if n > 0 {
        lemma_entries_not_after(entries, n - 1, p);
        if entries[n - 1].0 <= p {
            let k = entries_not_after(entries, n - 1, p);
            if k < n - 1 {
                assert(entries[k].0 > p);
                assert(entries[k].0 < entries[n - 1].0);
            }
        }
    }
}

/// The innermost scope is the same at two offsets that the same scopes hold.
pub proof fn lemma_innermost_same(scopes: Seq<ResolvedScope>, n: int, p: int, q: int)
    requires
        n <= scopes.len(),
        forall|i: int| 0 <= i < n ==> holds(#[trigger] scopes[i], p) == holds(scopes[i], q),
    ensures
        innermost(scopes, n, p) == innermost(scopes, n, q),
    decreases n,
{
    if n > 0 {
        lemma_innermost_same(scopes, n - 1, p, q);
    }
}

/// The index covers the text: looking up any offset gives the innermost scope
/// that holds it.
pub proof fn lemma_index_covers(scopes: Seq<ResolvedScope>, p: int)
    requires
        scopes.len() > 0,
        0 <= p <= u32::MAX,
    ensures
        lookup_at(index_entries(scopes), p) == result_at(scopes, p),
{
    let n = scopes.len() as int;
    let cuts = boundaries(scopes, n);
    let entries = index_entries(scopes);
    lemma_boundaries_ascending(scopes, n);
    lemma_index_entries_ascending(scopes);
    lemma_entries_not_after(entries, entries.len() as int, p);
    let k = entries_not_after(entries, entries.len() as int, p);
    let zero = choose|i: int| 0 <= i < cuts.len() && cuts[i] == 0u32;
    assert(entries[zero].0 == 0);
    assert(k > 0);
    let q = cuts[k - 1] as int;
    assert(entries[k - 1].0 == q);
    assert forall|i: int| 0 <= i < n implies holds(#[trigger] scopes[i], p) == holds(scopes[i], q) by {
        let a = choose|a: int| 0 <= a < cuts.len() && cuts[a] == scopes[i].start;
        let b = choose|b: int| 0 <= b < cuts.len() && cuts[b] == scopes[i].end;
        assert(entries[a].0 == scopes[i].start);
        assert(entries[b].0 == scopes[i].end);
        if a > k - 1 {
            assert(cuts[k - 1] < cuts[a]);
        }
        if a < k - 1 {
            assert(cuts[a] < cuts[k - 1]);
        }
        if b > k - 1 {
            assert(cuts[k - 1] < cuts[b]);
        }
        if b < k - 1 {
            assert(cuts[b] < cuts[k - 1]);
        }
    }
    lemma_innermost_same(scopes, n, p, q);
}

/// Puts `x` in its place in the ascending `sorted`, unless it is there.
fn insert_boundary(sorted: &mut Vec<u32>, x: u32)
    ensures
        final(sorted)@ == with_boundary(old(sorted)@, x),
{
    let ghost before = sorted@;
    let mut j: usize = sorted.len();
    assert(before.take(j as int) =~= before);
    assert(before.skip(j as int) =~= Seq::<u32>::empty());
    while j > 0 && sorted[j - 1] > x
        invariant
            sorted@ == before,
            0 <= j <= before.len(),
            with_boundary(before, x) == with_boundary(before.take(j as int), x) + before.skip(
                j as int,
            ),
        decreases j,
    {
        proof {
            assert(before.take(j as int).drop_last() =~= before.take(j - 1));
            assert(with_boundary(before.take(j - 1), x).push(before[j - 1]) + before.skip(j as int)
                =~= with_boundary(before.take(j - 1), x) + before.skip(j - 1));
        }
        j -= 1;
    }
    if j > 0 && sorted[j - 1] == x {
        assert(before.take(j as int) + before.skip(j as int) =~= before);
        return ;
    }
    sorted.insert(j, x);
    assert(sorted@ =~= before.take(j as int).push(x) + before.skip(j as int));
}

/// A sorted list of the offsets at which the innermost scope changes.
pub struct ScopeIndex {
    entries: Vec<(u32, ScopeLookupResult)>,
}

/// The values of the entries of an index.
pub open spec fn entries_view(entries: Seq<(u32, ScopeLookupResult)>) -> Seq<(u32, ScopeResult)> {
    Seq::new(entries.len(), |i: int| (entries[i].0, entries[i].1@))
}

impl View for ScopeIndex {
    type V = Seq<(u32, ScopeResult)>;

    closed spec fn view(&self) -> Seq<(u32, ScopeResult)> {
        entries_view(self.entries@)
    }
}

impl ScopeIndex {
    #[verifier::type_invariant]
    spec fn inv(self) -> bool {
        entries_ascending(entries_view(self.entries@))
    }

    /// Tells whether the scopes are in document order.
    fn is_in_document_order(scopes: &Vec<(Range<u32>, Option<String>)>) -> (ok: bool)
        ensures
            ok == in_document_order(resolved_views(scopes@)),
    {
        let ghost views = resolved_views(scopes@);
        let n = scopes.len();
        let mut i: usize = 1;
        while i < n
            invariant
                n == scopes@.len(),
                views == resolved_views(scopes@),
                1 <= i,
                forall|a: int, b: int|
                    0 <= a < b < i && b < n ==> comes_before(#[trigger] views[a], #[trigger] views[b]),
            decreases n - i,
        {
            let prev = &scopes[i - 1].0;
            let next = &scopes[i].0;
            assert(views[i - 1] == resolved_view(scopes@[i - 1]));
            assert(views[i as int] == resolved_view(scopes@[i as int]));
            if !(prev.start < next.start || (prev.start == next.start && prev.end >= next.end)) {
                assert(!comes_before(views[i - 1], views[i as int]));
                return false;
            }
            assert forall|a: int, b: int| 0 <= a < b < i + 1 && b < n implies comes_before(
                #[trigger] views[a],
                #[trigger] views[b],
            ) by {
                if b == i && a < i - 1 {
                    assert(comes_before(views[a], views[i - 1]));
                }
            }
            i += 1;
        }
        true
    }

    /// Tells whether scopes in document order nest, in one pass over them with
    /// a stack of the scopes that are open.
    fn check_nesting_in_order(scopes: &Vec<(Range<u32>, Option<String>)>) -> (ok: bool)
        requires
            in_document_order(resolved_views(scopes@)),
        ensures
            ok == scopes_nest(resolved_views(scopes@)),
    {
        let ghost views = resolved_views(scopes@);
        let n = scopes.len();
        let mut open: Vec<usize> = Vec::new();
        let mut j: usize = 0;
        while j < n
            invariant
                n == scopes@.len(),
                views == resolved_views(scopes@),
                in_document_order(views),
                0 <= j <= n,
                forall|k: int| 0 <= k < open@.len() ==> (#[trigger] open@[k]) < j,
                forall|k: int, l: int|
                    0 <= k <= l < open@.len() ==> views[(#[trigger] open@[k]) as int].end >= views[(
                    #[trigger] open@[l]) as int].end,
                forall|i: int|
                    0 <= i < j && j < n && (#[trigger] views[i]).end > views[j as int].start
                        ==> exists|k: int| 0 <= k < open@.len() && #[trigger] open@[k] == i,
                forall|a: int| 0 <= a < j ==> (#[trigger] views[a]).start <= views[a].end,
                forall|a: int, b: int|
                    0 <= a < j && 0 <= b < j ==> !crossing(#[trigger] views[a], #[trigger] views[b]),
            decreases n - j,
        {
            let start = scopes[j].0.start;
            let end = scopes[j].0.end;
            assert(views[j as int] == resolved_view(scopes@[j as int]));
            if start > end {
                return false;
            }
            let ghost before = open@;
            while open.len() > 0 && scopes[open[open.len() - 1]].0.end <= start
                invariant
                    n == scopes@.len(),
                    views == resolved_views(scopes@),
                    0 <= j < n,
                    start == views[j as int].start,
                    open@.len() <= before.len(),
                    open@ == before.take(open@.len() as int),
                    forall|k: int| 0 <= k < before.len() ==> (#[trigger] before[k]) < j,
                    forall|k: int, l: int|
                        0 <= k <= l < before.len() ==> views[(#[trigger] before[k]) as int].end
                            >= views[(#[trigger] before[l]) as int].end,
                    forall|k: int|
                        open@.len() <= k < before.len() ==> views[(#[trigger] before[k]) as int].end
                            <= start,
                decreases open@.len(),
            {
                let ghost top = open@[open@.len() - 1];
                assert(views[top as int] == resolved_view(scopes@[top as int]));
                open.pop();
            }
            assert forall|i: int|
                0 <= i < j && (#[trigger] views[i]).end > start implies exists|k: int|
                0 <= k < open@.len() && #[trigger] open@[k] == i by {
                let k = choose|k: int| 0 <= k < before.len() && #[trigger] before[k] == i;
                assert(open@[k] == before[k]);
            }
            if open.len() > 0 {
                let top = open[open.len() - 1];
                assert(views[top as int] == resolved_view(scopes@[top as int]));
                assert(open@[open@.len() - 1] == before[open@.len() - 1]);
                if scopes[top].0.end < end {
                    assert(comes_before(views[top as int], views[j as int]));
                    assert(crossing(views[top as int], views[j as int]));
                    return false;
                }
            }
            assert forall|a: int, b: int| 0 <= a < j + 1 && 0 <= b < j + 1 implies !crossing(
                #[trigger] views[a],
                #[trigger] views[b],
            ) by {
                if a == j && b < j {
                    assert(comes_before(views[b], views[a]));
                } else if b == j && a < j {
                    assert(comes_before(views[a], views[b]));
                    if views[a].end > start {
                        let k = choose|k: int| 0 <= k < open@.len() && #[trigger] open@[k] == a;
                        assert(open@[k] == before[k]);
                        assert(views[before[k] as int].end >= views[before[open@.len() - 1] as int].end);
                    }
                }
            }
            let ghost kept = open@;
            open.push(j);
            assert forall|k: int, l: int| 0 <= k <= l < open@.len() implies views[(
            #[trigger] open@[k]) as int].end >= views[(#[trigger] open@[l]) as int].end by {
                if l < kept.len() {
                    assert(open@[k] == before[k] && open@[l] == before[l]);
                } else if k < kept.len() {
                    assert(open@[k] == before[k]);
                    assert(views[before[k] as int].end >= views[before[kept.len() - 1] as int].end);
                }
            }
            assert forall|i: int|
                0 <= i < j + 1 && j + 1 < n && (#[trigger] views[i]).end > views[j + 1].start
                implies exists|k: int| 0 <= k < open@.len() && #[trigger] open@[k] == i by {
                assert(comes_before(views[j as int], views[j + 1]));
                if i < j {
                    let k = choose|k: int| 0 <= k < kept.len() && #[trigger] kept[k] == i;
                    assert(open@[k] == i);
                } else {
                    assert(open@[kept.len() as int] == i);
                }
            }
            j += 1;
        }
        true
    }

    /// Tells whether the scopes nest. Scopes in document order, as a walk over
    /// a syntax tree meets them, are checked in one pass; others pair by pair.
    fn check_nesting(scopes: &Vec<(Range<u32>, Option<String>)>) -> (ok: bool)
        ensures
            ok == scopes_nest(resolved_views(scopes@)),
    {
        if Self::is_in_document_order(scopes) {
            Self::check_nesting_in_order(scopes)
        } else {
            Self::check_nesting_by_pairs(scopes)
        }
    }

    /// Tells whether the scopes nest by looking at every pair of them.
    fn check_nesting_by_pairs(scopes: &Vec<(Range<u32>, Option<String>)>) -> (ok: bool)
        ensures
            ok == scopes_nest(resolved_views(scopes@)),
    {
        let ghost views = resolved_views(scopes@);
        let n = scopes.len();
        let mut i: usize = 0;
        while i < n
            invariant
                n == scopes@.len(),
                views == resolved_views(scopes@),
                0 <= i <= n,
                forall|a: int| 0 <= a < i ==> (#[trigger] views[a]).start <= views[a].end,
                forall|a: int, b: int|
                    0 <= a < i && 0 <= b < n ==> !crossing(#[trigger] views[a], #[trigger] views[b]),
            decreases n - i,
        {
            if scopes[i].0.start > scopes[i].0.end {
                assert(views[i as int].start > views[i as int].end);
                return false;
            }
            let mut j: usize = 0;
            while j < n
                invariant
                    n == scopes@.len(),
                    views == resolved_views(scopes@),
                    0 <= i < n,
                    0 <= j <= n,
                    forall|b: int| 0 <= b < j ==> !crossing(views[i as int], #[trigger] views[b]),
                decreases n - j,
            {
                if scopes[i].0.start < scopes[j].0.start && scopes[j].0.start < scopes[i].0.end
                    && scopes[i].0.end < scopes[j].0.end {
                    assert(crossing(views[i as int], views[j as int]));
                    return false;
                }
                j += 1;
            }
            i += 1;
        }
        true
    }

    /// The index of the first of the ascending `cuts` that is not smaller than `p`.
    fn first_cut_from(cuts: &Vec<u32>, p: u32) -> (at: usize)
        requires
            ascending(cuts@),
        ensures
            at <= cuts@.len(),
            forall|i: int| 0 <= i < at ==> (#[trigger] cuts@[i]) < p,
            forall|i: int| at <= i < cuts@.len() ==> (#[trigger] cuts@[i]) >= p,
    {
        let mut lo: usize = 0;
        let mut hi: usize = cuts.len();
        while lo < hi
            invariant
                ascending(cuts@),
                0 <= lo <= hi <= cuts@.len(),
                forall|i: int| 0 <= i < lo ==> (#[trigger] cuts@[i]) < p,
                forall|i: int| hi <= i < cuts@.len() ==> (#[trigger] cuts@[i]) >= p,
            decreases hi - lo,
        {
            let mid = lo + (hi - lo) / 2;
            if cuts[mid] < p {
                lo = mid + 1;
            } else {
                hi = mid;
            }
        }
        lo
    }

    /// For each of the ascending `cuts`, the innermost scope that holds it.
    /// Each scope is laid over the cuts that it holds, on top of the scopes
    /// around it.
    fn innermost_at_cuts(scopes: &Vec<(Range<u32>, Option<String>)>, cuts: &Vec<u32>) -> (owners: Vec<
        Option<usize>,
    >)
        requires
            ascending(cuts@),
        ensures
            owners@.len() == cuts@.len(),
            forall|i: int|
                0 <= i < cuts@.len() ==> owner_view(#[trigger] owners@[i]) == innermost(
                    resolved_views(scopes@),
                    scopes@.len() as int,
                    cuts@[i] as int,
                ),
            forall|i: int|
                0 <= i < cuts@.len() ==> ((#[trigger] owners@[i]) matches Some(b) ==> b
                    < scopes@.len()),
    {
        let ghost views = resolved_views(scopes@);
        let n = scopes.len();
        let m = cuts.len();
        let mut owners: Vec<Option<usize>> = Vec::new();
        while owners.len() < m
            invariant
                m == cuts@.len(),
                owners@.len() <= m,
                forall|i: int| 0 <= i < owners@.len() ==> (#[trigger] owners@[i]) is None,
            decreases m - owners@.len(),
        {
            owners.push(None);
        }
        let mut k: usize = 0;
        while k < n
            invariant
                n == scopes@.len(),
                m == cuts@.len(),
                views == resolved_views(scopes@),
                ascending(cuts@),
                owners@.len() == m,
                0 <= k <= n,
                forall|i: int|
                    0 <= i < m ==> owner_view(#[trigger] owners@[i]) == innermost(
                        views,
                        k as int,
                        cuts@[i] as int,
                    ),
                forall|i: int| 0 <= i < m ==> ((#[trigger] owners@[i]) matches Some(b) ==> b < k),
            decreases n - k,
        {
            let start = scopes[k].0.start;
            let end = scopes[k].0.end;
            assert(views[k as int] == resolved_view(scopes@[k as int]));
            let from = Self::first_cut_from(cuts, start);
            let mut i: usize = from;
            while i < m && cuts[i] < end
                invariant
                    n == scopes@.len(),
                    m == cuts@.len(),
                    views == resolved_views(scopes@),
                    ascending(cuts@),
                    owners@.len() == m,
                    0 <= k < n,
                    start == views[k as int].start,
                    end == views[k as int].end,
                    from <= i <= m,
                    forall|t: int| 0 <= t < from ==> (#[trigger] cuts@[t]) < start,
                    forall|t: int| from <= t < m ==> (#[trigger] cuts@[t]) >= start,
                    forall|t: int|
                        from <= t < i ==> owner_view(#[trigger] owners@[t]) == innermost(
                            views,
                            k + 1,
                            cuts@[t] as int,
                        ),
                    forall|t: int|
                        0 <= t < m && !(from <= t < i) ==> owner_view(#[trigger] owners@[t])
                            == innermost(views, k as int, cuts@[t] as int),
                    forall|t: int|
                        0 <= t < m ==> ((#[trigger] owners@[t]) matches Some(b) ==> b <= k),
                    forall|t: int|
                        0 <= t < m && !(from <= t < i) ==> ((#[trigger] owners@[t]) matches Some(b)
                            ==> b < k),
                decreases m - i,
            {
                assert(cuts@[i as int] >= start);
                assert(holds(views[k as int], cuts@[i as int] as int));
                let inner = match owners[i] {
                    None => true,
                    Some(b) => {
                        assert(views[b as int] == resolved_view(scopes@[b as int]));
                        scopes[b].0.start <= start && end <= scopes[b].0.end
                    },
                };
                if inner {
                    owners.set(i, Some(k));
                }
                i += 1;
            }
            assert forall|t: int| 0 <= t < m implies owner_view(#[trigger] owners@[t]) == innermost(
                views,
                k + 1,
                cuts@[t] as int,
            ) by {
                if t < from {
                    assert(cuts@[t] < start);
                } else if t >= i {
                    if i < m {
                        assert(cuts@[i as int] >= end);
                        if t > i {
                            assert(cuts@[i as int] < cuts@[t]);
                        }
                    }
                }
            }
            k += 1;
        }
        owners
    }

    /// Builds the index of `scopes`. Fails if and only if the scopes do not nest.
    pub fn new(scopes: Vec<(Range<u32>, Option<String>)>) -> (r: Result<ScopeIndex, ScopeIndexError>)
        ensures
            match r {
                Ok(index) => scopes_nest(resolved_views(scopes@)) && index@ == index_entries(
                    resolved_views(scopes@),
                ),
                Err(_) => !scopes_nest(resolved_views(scopes@)),
            },
    {
        let ghost views = resolved_views(scopes@);
        if !Self::check_nesting(&scopes) {
            return Err(ScopeIndexError);
        }
        let n = scopes.len();
        let mut entries: Vec<(u32, ScopeLookupResult)> = Vec::new();
        proof {
            lemma_index_entries_ascending(views);
        }
        if n == 0 {
            assert(entries_view(entries@) =~= index_entries(views));
            return Ok(ScopeIndex { entries });
        }
        let mut cuts: Vec<u32> = Vec::new();
        cuts.push(0);
        assert(cuts@ =~= boundaries(views, 0));
        let mut i: usize = 0;
        while i < n
            invariant
                n == scopes@.len(),
                views == resolved_views(scopes@),
                0 <= i <= n,
                cuts@ == boundaries(views, i as int),
            decreases n - i,
        {
            insert_boundary(&mut cuts, scopes[i].0.start);
            insert_boundary(&mut cuts, scopes[i].0.end);
            assert(views[i as int] == resolved_view(scopes@[i as int]));
            i += 1;
        }
        proof {
            lemma_boundaries_ascending(views, n as int);
        }
        let owners = Self::innermost_at_cuts(&scopes, &cuts);
        let m = cuts.len();
        let mut k: usize = 0;
        while k < m
            invariant
                m == cuts@.len(),
                owners@.len() == m,
                views == resolved_views(scopes@),
                0 <= k <= m,
                entries@.len() == k,
                forall|i: int|
                    0 <= i < m ==> owner_view(#[trigger] owners@[i]) == innermost(
                        views,
                        scopes@.len() as int,
                        cuts@[i] as int,
                    ),
                forall|i: int|
                    0 <= i < m ==> ((#[trigger] owners@[i]) matches Some(b) ==> b < scopes@.len()),
                forall|a: int|
                    0 <= a < k ==> (#[trigger] entries@[a]).0 == cuts@[a] && entries@[a].1@
                        == result_at(views, cuts@[a] as int),
            decreases m - k,
        {
            let result = match owners[k] {
                None => ScopeLookupResult::Unknown,
                Some(b) => {
                    assert(views[b as int] == resolved_view(scopes@[b as int]));
                    match &scopes[b].1 {
                        Some(name) => ScopeLookupResult::NamedScope(name.clone()),
                        None => ScopeLookupResult::AnonymousScope,
                    }
                },
            };
            entries.push((cuts[k], result));
            k += 1;
        }
        assert(entries_view(entries@) =~= index_entries(views));
        Ok(ScopeIndex { entries })
    }

    /// The entries of the index, in ascending order of their offsets.
    pub fn entries(&self) -> (entries: &Vec<(u32, ScopeLookupResult)>)
        ensures
            entries_view(entries@) == self@,
            entries_ascending(self@),
    {
        proof {
            use_type_invariant(self);
        }
        &self.entries
    }

    /// Looks up the scope that byte offset `offset` lies in by binary search.
    pub fn lookup(&self, offset: u32) -> (scope: ScopeLookupResult)
        ensures
            scope@ == lookup_at(self@, offset as int),
    {
        proof {
            use_type_invariant(self);
        }
        let ghost view = self@;
        let n = self.entries.len();
        let mut lo: usize = 0;
        let mut hi: usize = n;
        while lo < hi
            invariant
                view == entries_view(self.entries@),
                entries_ascending(view),
                n == self.entries@.len(),
                0 <= lo <= hi <= n,
                forall|i: int| 0 <= i < lo ==> (#[trigger] view[i]).0 <= offset,
                forall|i: int| hi <= i < n ==> (#[trigger] view[i]).0 > offset,
            decreases hi - lo,
        {
            let mid = lo + (hi - lo) / 2;
            assert(view[mid as int].0 == self.entries@[mid as int].0);
            if self.entries[mid].0 <= offset {
                assert forall|i: int| 0 <= i < mid + 1 implies (#[trigger] view[i]).0 <= offset by {
                    if i < mid {
                        assert(view[i].0 < view[mid as int].0);
                    }
                }
                lo = mid + 1;
            } else {
                assert forall|i: int| mid <= i < n implies (#[trigger] view[i]).0 > offset by {
                    if i > mid {
                        assert(view[mid as int].0 < view[i].0);
                    }
                }
                hi = mid;
            }
        }
        proof {
            lemma_entries_not_after(view, n as int, offset as int);
            let k = entries_not_after(view, n as int, offset as int);
            if k < lo {
                assert(view[k].0 > offset);
            }
            if k > lo {
                assert(view[lo as int].0 <= offset);
            }
        }
        if lo == 0 {
            ScopeLookupResult::Unknown
        } else {
            assert(view[lo - 1].1 == self.entries@[lo - 1].1@);
            self.entries[lo - 1].1.clone()
        }
    }
}

} // verus!
