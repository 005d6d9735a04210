//! How the tables of the cache follow from a minified text, its source map and
//! its scopes, step by step.

use std::ops::Range;
use vstd::prelude::*;
use vstd::string::*;
use vstd::hash_map::StringHashMap;
use vstd::utf8::encode_utf8;
use crate::lines::{append_line_offsets, line_offsets_of};
use crate::name_resolver::{resolved_name, NameResolver};
use crate::scope_index::{
    entries_ascending, entries_view, resolved_views, ResolvedScope, ScopeIndex, ScopeLookupResult,
    ScopeResult,
};
use crate::scope_name::ScopeName;
use crate::scopes::{scopes_view, ScopeView};
use crate::smcache::files::{
    file_index, find_file, insert_entry, lemma_with_entry, lemma_with_entry_permutes,
    sorted_by_name, with_entry, FileEntry, FileEntryView,
};
use crate::smcache::raw::{
    File, LineOffset, MinifiedSourcePosition, OriginalSourceLocation, ANONYMOUS_SCOPE_SENTINEL,
    GLOBAL_SCOPE_SENTINEL,
};
use crate::smcache::strings::{insert_string, lemma_insert, StringTable};
use crate::source::{
    indexable, is_boundary, lemma_positions_increase, position_of, SourceContext, SourcePosition,
};
use crate::source_map::{sources_view, SourceMapData, SourceMapView, Token};

verus! {

/// The scope `scope` with its name resolved.
pub open spec fn resolved_scope(text: Seq<u8>, data: SourceMapView, scope: ScopeView) -> ResolvedScope {
    ResolvedScope {
        start: scope.start,
        end: scope.end,
        name: match scope.name {
            Some(name) => Some(resolved_name(text, data, name)),
            None => None,
        },
    }
}

/// The scopes with their names resolved.
pub open spec fn resolved_scopes(text: Seq<u8>, data: SourceMapView, scopes: Seq<ScopeView>) -> Seq<
    ResolvedScope,
> {
    Seq::new(scopes.len(), |i: int| resolved_scope(text, data, scopes[i]))
}

/// Resolves the name of every scope.
pub fn resolve_scopes(resolver: &NameResolver, scopes: &Vec<(Range<u32>, Option<ScopeName>)>) -> (resolved:
    Vec<(Range<u32>, Option<String>)>)
    ensures
        resolved_views(resolved@) == resolved_scopes(
            resolver.text(),
            resolver.data(),
            scopes_view(scopes@),
        ),
{
    let mut resolved: Vec<(Range<u32>, Option<String>)> = Vec::new();
    let n = scopes.len();
    let mut i: usize = 0;
    while i < n
        invariant
            n == scopes@.len(),
            0 <= i <= n,
            resolved@.len() == i,
            forall|k: int|
                0 <= k < i ==> #[trigger] resolved_views(resolved@)[k] == resolved_scope(
                    resolver.text(),
                    resolver.data(),
                    scopes_view(scopes@)[k],
                ),
        decreases n - i,
    {
        let ghost before = resolved@;
        let name = match &scopes[i].1 {
            Some(name) => Some(resolver.resolve_name(name)),
            None => None,
        };
        resolved.push((scopes[i].0.start..scopes[i].0.end, name));
        assert forall|k: int| 0 <= k < i + 1 implies #[trigger] resolved_views(resolved@)[k]
            == resolved_scope(resolver.text(), resolver.data(), scopes_view(scopes@)[k]) by {
            if k < i {
                assert(resolved@[k] == before[k]);
                assert(resolved_views(before)[k] == resolved_scope(
                    resolver.text(),
                    resolver.data(),
                    scopes_view(scopes@)[k],
                ));
            }
        }
        i += 1;
    }
    assert(resolved_views(resolved@) =~= resolved_scopes(
        resolver.text(),
        resolver.data(),
        scopes_view(scopes@),
    ));
    resolved
}

/// The entries of a scope index with their byte offsets turned into positions
/// in `text`. An entry whose offset has no position is left out.
pub open spec fn project(entries: Seq<(u32, ScopeResult)>, text: Seq<u8>) -> Seq<
    (SourcePosition, ScopeResult),
>
    decreases entries.len(),
{
    if entries.len() == 0 {
        Seq::empty()
    } else {
        let front = project(entries.drop_last(), text);
        match position_of(text, entries.last().0 as int) {
            Some(pos) => front.push((pos, entries.last().1)),
            None => front,
        }
    }
}

/// The values of the points of a projected index.
pub open spec fn points_view(points: Seq<(SourcePosition, ScopeLookupResult)>) -> Seq<
    (SourcePosition, ScopeResult),
> {
    Seq::new(points.len(), |i: int| (points[i].0, points[i].1@))
}

/// Each point stands before the next.
pub open spec fn points_ascending(points: Seq<(SourcePosition, ScopeResult)>) -> bool {
    forall|i: int, j: int|
        0 <= i < j < points.len() ==> (#[trigger] points[i]).0.precedes((#[trigger] points[j]).0)
}

/// Projecting ascending entries gives ascending points, and each of them stands
/// before the position of every character boundary behind the last entry.
pub proof fn lemma_project_ascending(entries: Seq<(u32, ScopeResult)>, text: Seq<u8>)
    requires
        entries_ascending(entries),
        indexable(text),
    ensures
        points_ascending(project(entries, text)),
        forall|i: int, b: int|
            #![trigger project(entries, text)[i], is_boundary(text, b)]
            0 <= i < project(entries, text).len() && entries.last().0 < b <= text.len()
                && is_boundary(text, b) ==> project(entries, text)[i].0.precedes(
                position_of(text, b).unwrap(),
            ),
    decreases entries.len(),
{
    if entries.len() == 0 {
        assert(project(entries, text).len() == 0);
    } else {
        let front = entries.drop_last();
        assert(entries_ascending(front)) by {
            assert forall|i: int, j: int| 0 <= i < j < front.len() implies (#[trigger] front[i]).0 < (
            #[trigger] front[j]).0 by {
                assert(front[i] == entries[i] && front[j] == entries[j]);
            }
        }
        lemma_project_ascending(front, text);
        let inner = project(front, text);
        let points = project(entries, text);
        let last = entries.last().0 as int;
        if front.len() > 0 {
            assert(front.last() == entries[entries.len() - 2]);
            assert(entries[entries.len() - 2].0 < entries[entries.len() - 1].0);
        } else {
            assert(inner.len() == 0);
        }
        assert forall|i: int, b: int|
            #![trigger points[i], is_boundary(text, b)]
            0 <= i < points.len() && last < b <= text.len() && is_boundary(
                text,
                b,
            ) implies points[i].0.precedes(position_of(text, b).unwrap()) by {
            if i < inner.len() {
                assert(points[i] == inner[i]);
                assert(is_boundary(text, b));
                assert(inner[i].0.precedes(position_of(text, b).unwrap()));
            } else {
                lemma_positions_increase(text, last, b);
            }
        }
        assert forall|i: int, j: int| 0 <= i < j < points.len() implies (#[trigger] points[i]).0.precedes(
            (#[trigger] points[j]).0,
        ) by {
            if j < inner.len() {
                assert(points[i] == inner[i] && points[j] == inner[j]);
            } else {
                assert(points[i] == inner[i]);
                assert(is_boundary(text, last));
                assert(inner[i].0.precedes(position_of(text, last).unwrap()));
            }
        }
    }
}

/// Turns the offsets of the index into positions in the text of `ctx`.
pub fn project_index(index: &ScopeIndex, ctx: &SourceContext) -> (points: Vec<
    (SourcePosition, ScopeLookupResult),
>)
    ensures
        points_view(points@) == project(index@, ctx.text()),
{
    let entries = index.entries();
    let ghost all = index@;
    let mut points: Vec<(SourcePosition, ScopeLookupResult)> = Vec::new();
    let n = entries.len();
    let mut i: usize = 0;
    assert(all.take(0) =~= Seq::<(u32, ScopeResult)>::empty());
    assert(points_view(points@) =~= project(all.take(0), ctx.text()));
    while i < n
        invariant
            all == entries_view(entries@),
            n == entries@.len(),
            0 <= i <= n,
            points_view(points@) == project(all.take(i as int), ctx.text()),
        decreases n - i,
    {
        let ghost before = points@;
        proof {
            assert(all.take(i + 1).drop_last() =~= all.take(i as int));
            assert(all.take(i + 1).last() == (entries@[i as int].0, entries@[i as int].1@));
        }
        if let Some(pos) = ctx.offset_to_position(entries[i].0) {
            points.push((pos, entries[i].1.clone()));
            assert(points_view(points@) =~= points_view(before).push((pos, entries@[i as int].1@)));
        }
        i += 1;
    }
    assert(all.take(n as int) =~= all);
    points
}

/// The number of the first `n` points that do not stand after `sp`.
pub open spec fn points_not_after(
    points: Seq<(SourcePosition, ScopeResult)>,
    n: int,
    sp: SourcePosition,
) -> int
    decreases n,
{
    if n <= 0 {
        0
    } else if points[n - 1].0.not_after(sp) {
        points_not_after(points, n - 1, sp) + 1
    } else {
        points_not_after(points, n - 1, sp)
    }
}

/// The scope at position `sp`: that of the last point that does not stand
/// after `sp`; that of the first point where `sp` stands before all of them;
/// unknown where there are no points.
pub open spec fn lookup_in(points: Seq<(SourcePosition, ScopeResult)>, sp: SourcePosition) -> ScopeResult {
    if points.len() == 0 {
        ScopeResult::Unknown
    } else {
        let k = points_not_after(points, points.len() as int, sp);
        if k == 0 {
            points[0].1
        } else {
            points[k - 1].1
        }
    }
}

/// Where the first `k` of `n` points do not stand after a position and the
/// others do, `k` is the number of those that do not.
pub proof fn lemma_points_not_after(
    points: Seq<(SourcePosition, ScopeResult)>,
    n: int,
    k: int,
    sp: SourcePosition,
)
    requires
        0 <= k <= n <= points.len(),
        forall|i: int| 0 <= i < k ==> (#[trigger] points[i]).0.not_after(sp),
        forall|i: int| k <= i < n ==> !(#[trigger] points[i]).0.not_after(sp),
    ensures
        points_not_after(points, n, sp) == k,
    decreases n,
{
    if n > 0 {
        if k == n {
            lemma_points_not_after(points, n - 1, k - 1, sp);
        } else {
            lemma_points_not_after(points, n - 1, k, sp);
        }
    }
}

/// Looks up the scope at position `sp` by binary search.
pub fn lookup_scope(points: &Vec<(SourcePosition, ScopeLookupResult)>, sp: SourcePosition) -> (scope:
    ScopeLookupResult)
    requires
        points_ascending(points_view(points@)),
    ensures
        scope@ == lookup_in(points_view(points@), sp),
{
    let ghost view = points_view(points@);
    let n = points.len();
    if n == 0 {
        return ScopeLookupResult::Unknown;
    }
    let mut lo: usize = 0;
    let mut hi: usize = n;
    while lo < hi
        invariant
            view == points_view(points@),
            points_ascending(view),
            n == points@.len(),
            0 <= lo <= hi <= n,
            forall|i: int| 0 <= i < lo ==> (#[trigger] view[i]).0.not_after(sp),
            forall|i: int| hi <= i < n ==> !(#[trigger] view[i]).0.not_after(sp),
        decreases hi - lo,
    {
        let mid = lo + (hi - lo) / 2;
        let p = points[mid].0;
        assert(view[mid as int].0 == p);
        if p.line < sp.line || (p.line == sp.line && p.column <= sp.column) {
            assert forall|i: int| 0 <= i < mid + 1 implies (#[trigger] view[i]).0.not_after(sp) by {
                if i < mid {
                    assert(view[i].0.precedes(view[mid as int].0));
                }
            }
            lo = mid + 1;
        } else {
            assert forall|i: int| mid <= i < n implies !(#[trigger] view[i]).0.not_after(sp) by {
                if i > mid {
                    assert(view[mid as int].0.precedes(view[i].0));
                }
            }
            hi = mid;
        }
    }
    proof {
        lemma_points_not_after(view, n as int, lo as int, sp);
    }
    let at = if lo == 0 {
        0
    } else {
        lo - 1
    };
    assert(view[at as int].1 == points@[at as int].1@);
    points[at].1.clone()
}

/// The tables after the files of a source map have been added.
pub struct FilesState {
    /// The string table, with the name and the text of every file.
    pub strings: StringTable,
    /// The line offset tables of the files, one behind the other.
    pub line_offsets: Seq<LineOffset>,
    /// The files, sorted by name.
    pub files: Seq<FileEntryView>,
}

/// The tables after the first `n` of `sources` have been added: for each, its
/// name and its text are interned, its line offsets are appended, and its
/// record is put in its place among the files.
pub open spec fn with_files(sources: Seq<(Seq<char>, Seq<char>)>, n: int) -> FilesState
    decreases n,
{
    if n <= 0 {
        FilesState { strings: StringTable::empty(), line_offsets: Seq::empty(), files: Seq::empty() }
    } else {
        let before = with_files(sources, n - 1);
        let name = sources[n - 1].0;
        let text = sources[n - 1].1;
        let named = before.strings.insert(name);
        let line_offsets = before.line_offsets + line_offsets_of(encode_utf8(text));
        let file = File {
            name_offset: before.strings.offset_of(name),
            source_offset: named.offset_of(text),
            line_offsets_start: before.line_offsets.len() as u32,
            line_offsets_end: line_offsets.len() as u32,
        };
        FilesState {
            strings: named.insert(text),
            line_offsets,
            files: with_entry(before.files, FileEntryView { name: encode_utf8(name), file }),
        }
    }
}

/// The files of the table are sorted by file name, and there is one for each
/// source.
pub proof fn lemma_files_sorted(sources: Seq<(Seq<char>, Seq<char>)>, n: int)
    requires
        0 <= n <= sources.len(),
    ensures
        sorted_by_name(with_files(sources, n).files),
        with_files(sources, n).files.len() == n,
    decreases n,
{
    if n > 0 {
        lemma_files_sorted(sources, n - 1);
        let before = with_files(sources, n - 1);
        let name = sources[n - 1].0;
        let text = sources[n - 1].1;
        let file = File {
            name_offset: before.strings.offset_of(name),
            source_offset: before.strings.insert(name).offset_of(text),
            line_offsets_start: before.line_offsets.len() as u32,
            line_offsets_end: (before.line_offsets + line_offsets_of(encode_utf8(text))).len() as u32,
        };
        lemma_with_entry(before.files, FileEntryView { name: encode_utf8(name), file });
    }
}

/// The file entry of the source at index `n - 1`, as it is made when that
/// source is added behind the ones before it.
pub open spec fn source_entry(sources: Seq<(Seq<char>, Seq<char>)>, n: int) -> FileEntryView {
    let before = with_files(sources, n - 1);
    let name = sources[n - 1].0;
    let text = sources[n - 1].1;
    FileEntryView {
        name: encode_utf8(name),
        file: File {
            name_offset: before.strings.offset_of(name),
            source_offset: before.strings.insert(name).offset_of(text),
            line_offsets_start: before.line_offsets.len() as u32,
            line_offsets_end: (before.line_offsets + line_offsets_of(encode_utf8(text))).len() as u32,
        },
    }
}

/// The file entries of the first `n` sources in the order of the sources.
pub open spec fn source_entries(sources: Seq<(Seq<char>, Seq<char>)>, n: int) -> Seq<FileEntryView> {
    Seq::new(n as nat, |i: int| source_entry(sources, i + 1))
}

/// `s` is the name of the file `entry`, and the table gives the offset in the
/// entry for it; for the empty name the offset is `u32::MAX`.
pub open spec fn is_name_of(strings: StringTable, entry: FileEntryView, s: Seq<char>) -> bool {
    &&& encode_utf8(s) == entry.name
    &&& if s.len() == 0 {
        entry.file.name_offset == u32::MAX
    } else {
        strings.holds_at(s, entry.file.name_offset)
    }
}

/// The name of the file `entry` is the string that the table holds at the
/// name offset of the entry.
pub open spec fn named_in(strings: StringTable, entry: FileEntryView) -> bool {
    exists|s: Seq<char>| #[trigger] is_name_of(strings, entry, s)
}

/// The files of the table are the entries of the sources in another order,
/// the name of each is the name of its source, and the string table holds it
/// at the name offset of the file. As long as the string table stays within
/// `u32::MAX` bytes, every string in it has its record at its offset.
pub proof fn lemma_files_named(sources: Seq<(Seq<char>, Seq<char>)>, n: int)
    requires
        0 <= n <= sources.len(),
    ensures
        with_files(sources, n).files.to_multiset() == source_entries(sources, n).to_multiset(),
        forall|i: int|
            0 <= i < n ==> (#[trigger] source_entries(sources, n)[i]).name == encode_utf8(
                sources[i].0,
            ),
        forall|j: int|
            0 <= j < with_files(sources, n).files.len() ==> named_in(
                with_files(sources, n).strings,
                #[trigger] with_files(sources, n).files[j],
            ),
        with_files(sources, n).strings.bytes.len() <= u32::MAX ==> with_files(sources, n).strings.wf(),
    decreases n,
{
    if n <= 0 {
        assert(with_files(sources, n).files =~= source_entries(sources, n));
    } else {
        lemma_files_named(sources, n - 1);
        lemma_files_sorted(sources, n - 1);
        let before = with_files(sources, n - 1);
        let after = with_files(sources, n);
        let name = sources[n - 1].0;
        let text = sources[n - 1].1;
        let entry = source_entry(sources, n);
        let named = before.strings.insert(name);
        assert(after.files == with_entry(before.files, entry));
        assert(after.strings == named.insert(text));
        lemma_with_entry_permutes(before.files, entry);
        lemma_with_entry(before.files, entry);
        assert(source_entries(sources, n) =~= source_entries(sources, n - 1).push(entry));
        vstd::seq_lib::to_multiset_build(source_entries(sources, n - 1), entry);
        lemma_insert(before.strings, name);
        lemma_insert(named, text);
        assert forall|j: int| 0 <= j < after.files.len() implies named_in(
            after.strings,
            #[trigger] after.files[j],
        ) by {
            let e = after.files[j];
            if e == entry {
                if name.len() > 0 {
                    assert(named.holds_at(name, entry.file.name_offset));
                }
                assert(is_name_of(after.strings, e, name));
            } else {
                assert(before.files.contains(e));
                let k = choose|k: int| 0 <= k < before.files.len() && before.files[k] == e;
                let s = choose|s: Seq<char>| #[trigger] is_name_of(before.strings, before.files[k], s);
                if s.len() > 0 {
                    assert(before.strings.holds_at(s, e.file.name_offset));
                    assert(named.holds_at(s, e.file.name_offset));
                }
                assert(is_name_of(after.strings, e, s));
            }
        }
    }
}

/// The name of the source that token `t` comes from, as UTF-8.
pub open spec fn token_source(data: SourceMapView, t: Token) -> Option<Seq<u8>> {
    if t.src_id != u32::MAX && t.src_id < data.sources.len() {
        Some(encode_utf8(data.sources[t.src_id as int].0))
    } else {
        None
    }
}

/// The scope of the token at index `k`. In a Hermes map without any scope from
/// the minified text, it is the function that the map itself names for the
/// token; else the scope that the index of scopes gives for its position.
pub open spec fn token_scope(
    data: SourceMapView,
    points: Seq<(SourcePosition, ScopeResult)>,
    k: int,
) -> ScopeResult {
    if data.function_names is Some && points.len() == 0 {
        match data.function_names.unwrap()[k] {
            Some(name) => ScopeResult::Named(name),
            None => ScopeResult::Unknown,
        }
    } else {
        lookup_in(
            points,
            SourcePosition { line: data.tokens[k].dst_line, column: data.tokens[k].dst_col },
        )
    }
}

/// What stands for `scope` in a mapping: for a named scope the offset of its
/// name in the string table, but no more than `GLOBAL_SCOPE_SENTINEL`; for the
/// others their sentinels.
pub open spec fn scope_idx_of(strings: StringTable, scope: ScopeResult) -> u32 {
    match scope {
        ScopeResult::Named(name) => if strings.offset_of(name) < GLOBAL_SCOPE_SENTINEL {
            strings.offset_of(name)
        } else {
            GLOBAL_SCOPE_SENTINEL
        },
        ScopeResult::Anonymous => ANONYMOUS_SCOPE_SENTINEL,
        ScopeResult::Unknown => GLOBAL_SCOPE_SENTINEL,
    }
}

/// The string table after the name of `scope` has been interned.
pub open spec fn with_scope(strings: StringTable, scope: ScopeResult) -> StringTable {
    match scope {
        ScopeResult::Named(name) => strings.insert(name),
        _ => strings,
    }
}

/// The scope slot of a mapping holds one of three things: the offset of the
/// name of the scope, which lies below `GLOBAL_SCOPE_SENTINEL`; that sentinel,
/// for an unknown scope and for a name whose offset would reach it; or
/// `ANONYMOUS_SCOPE_SENTINEL`, for an anonymous scope and for no other.
pub proof fn lemma_scope_idx(strings: StringTable, scope: ScopeResult)
    ensures
        scope is Anonymous <==> scope_idx_of(strings, scope) == ANONYMOUS_SCOPE_SENTINEL,
        scope is Unknown ==> scope_idx_of(strings, scope) == GLOBAL_SCOPE_SENTINEL,
        scope matches ScopeResult::Named(name) ==> scope_idx_of(strings, scope) <= GLOBAL_SCOPE_SENTINEL
            && (scope_idx_of(strings, scope) == strings.offset_of(name) || (strings.offset_of(name)
            >= GLOBAL_SCOPE_SENTINEL && scope_idx_of(strings, scope) == GLOBAL_SCOPE_SENTINEL)),
{
}

/// What the mappings are made from.
pub struct MappingInput {
    /// The source map.
    pub data: SourceMapView,
    /// The file table, sorted by name.
    pub files: Seq<FileEntryView>,
    /// The index of scopes by position.
    pub points: Seq<(SourcePosition, ScopeResult)>,
}

/// The tables that grow while tokens are mapped.
pub struct MappingState {
    /// The string table.
    pub strings: StringTable,
    /// The mappings so far.
    pub mappings: Seq<(MinifiedSourcePosition, OriginalSourceLocation)>,
}

/// The original location of the token at index `k`, given the string table
/// before its scope name is interned.
pub open spec fn token_location(input: MappingInput, strings: StringTable, k: int) -> OriginalSourceLocation {
    OriginalSourceLocation {
        file_idx: file_index(input.files, token_source(input.data, input.data.tokens[k])),
        line: input.data.tokens[k].src_line,
        scope_idx: scope_idx_of(strings, token_scope(input.data, input.points, k)),
    }
}

/// The tables after the first `n` tokens have been mapped, starting from the
/// string table `strings`. The name of the scope of each token is interned. A
/// token whose original location is that of the mapping before it adds no
/// mapping.
pub open spec fn with_tokens(input: MappingInput, strings: StringTable, n: int) -> MappingState
    decreases n,
{
    if n <= 0 {
        MappingState { strings, mappings: Seq::empty() }
    } else {
        let before = with_tokens(input, strings, n - 1);
        let t = input.data.tokens[n - 1];
        let location = token_location(input, before.strings, n - 1);
        let strings = with_scope(before.strings, token_scope(input.data, input.points, n - 1));
        if before.mappings.len() > 0 && before.mappings.last().1 == location {
            MappingState { strings, mappings: before.mappings }
        } else {
            MappingState {
                strings,
                mappings: before.mappings.push(
                    (MinifiedSourcePosition { line: t.dst_line, column: t.dst_col }, location),
                ),
            }
        }
    }
}

/// Mapping tokens keeps what is in the string table, and the scope slot of
/// every mapping that lies below `GLOBAL_SCOPE_SENTINEL` is the offset that the
/// table gives for a string. As long as the table stays within `u32::MAX`
/// bytes, every string in it has its record at its offset.
pub proof fn lemma_tokens_strings(input: MappingInput, strings: StringTable, n: int)
    ensures
        strings.bytes.len() <= with_tokens(input, strings, n).strings.bytes.len(),
        forall|key: Seq<char>, offset: u32| #[trigger]
            strings.holds_at(key, offset) ==> with_tokens(input, strings, n).strings.holds_at(
                key,
                offset,
            ),
        strings.wf() && with_tokens(input, strings, n).strings.bytes.len() <= u32::MAX
            ==> with_tokens(input, strings, n).strings.wf(),
        forall|i: int|
            0 <= i < with_tokens(input, strings, n).mappings.len() && (#[trigger] with_tokens(
                input,
                strings,
                n,
            ).mappings[i]).1.scope_idx < GLOBAL_SCOPE_SENTINEL ==> with_tokens(
                input,
                strings,
                n,
            ).strings.is_record_start(with_tokens(input, strings, n).mappings[i].1.scope_idx),
    decreases n,
{
    if n > 0 {
        lemma_tokens_strings(input, strings, n - 1);
        let before = with_tokens(input, strings, n - 1);
        let after = with_tokens(input, strings, n);
        let scope = token_scope(input.data, input.points, n - 1);
        if let ScopeResult::Named(name) = scope {
            lemma_insert(before.strings, name);
        }
        assert forall|i: int|
            0 <= i < after.mappings.len() && (#[trigger] after.mappings[i]).1.scope_idx
                < GLOBAL_SCOPE_SENTINEL implies after.strings.is_record_start(
            after.mappings[i].1.scope_idx,
        ) by {
            let slot = after.mappings[i].1.scope_idx;
            if i < before.mappings.len() {
                assert(after.mappings[i] == before.mappings[i]);
                let s = choose|s: Seq<char>| #[trigger] before.strings.holds_at(s, slot);
                assert(after.strings.holds_at(s, slot));
            } else {
                let name = scope->Named_0;
                assert(after.strings.holds_at(name, slot));
            }
        }
    }
}

/// Adds the files of `data` to the tables, which are empty before.
pub fn add_files(
    data: &SourceMapData,
    string_bytes: &mut Vec<u8>,
    strings: &mut StringHashMap<u32>,
    line_offsets: &mut Vec<LineOffset>,
) -> (files: Vec<FileEntry>)
    requires
        old(string_bytes)@.len() == 0,
        old(strings)@ == Map::<Seq<char>, u32>::empty(),
        old(line_offsets)@.len() == 0,
    ensures
        (FilesState {
            strings: StringTable { bytes: final(string_bytes)@, offsets: final(strings)@ },
            line_offsets: final(line_offsets)@,
            files: crate::smcache::files::entries_view(files@),
        }) == with_files(data@.sources, data@.sources.len() as int),
{
    let sources = data.sources();
    let ghost all = data@.sources;
    let mut files: Vec<FileEntry> = Vec::new();
    let n = sources.len();
    let mut i: usize = 0;
    assert(crate::smcache::files::entries_view(files@) =~= Seq::<FileEntryView>::empty());
    assert(string_bytes@ =~= Seq::<u8>::empty());
    assert(line_offsets@ =~= Seq::<LineOffset>::empty());
    while i < n
        invariant
            all == sources_view(sources@),
            n == sources@.len(),
            0 <= i <= n,
            (FilesState {
                strings: StringTable { bytes: string_bytes@, offsets: strings@ },
                line_offsets: line_offsets@,
                files: crate::smcache::files::entries_view(files@),
            }) == with_files(all, i as int),
        decreases n - i,
    {
        let source = &sources[i];
        assert(all[i as int] == (source.name@, source.contents@));
        let name_offset = insert_string(string_bytes, strings, source.name.as_str());
        let source_offset = insert_string(string_bytes, strings, source.contents.as_str());
        let line_offsets_start = #[verifier::truncate] (line_offsets.len() as u32);
        append_line_offsets(source.contents.as_str().as_bytes(), line_offsets);
        let line_offsets_end = #[verifier::truncate] (line_offsets.len() as u32);
        let file = File { name_offset, source_offset, line_offsets_start, line_offsets_end };
        insert_entry(&mut files, FileEntry { name: source.name.clone(), file });
        i += 1;
    }
    files
}

/// Maps the tokens of `data`: gives each its original location and adds a
/// mapping for it, unless the mapping before it has the same location.
pub fn add_mappings(
    data: &SourceMapData,
    files: &Vec<FileEntry>,
    points: &Vec<(SourcePosition, ScopeLookupResult)>,
    string_bytes: &mut Vec<u8>,
    strings: &mut StringHashMap<u32>,
) -> (mappings: Vec<(MinifiedSourcePosition, OriginalSourceLocation)>)
    requires
        sorted_by_name(crate::smcache::files::entries_view(files@)),
        points_ascending(points_view(points@)),
    ensures
        (MappingState {
            strings: StringTable { bytes: final(string_bytes)@, offsets: final(strings)@ },
            mappings: mappings@,
        }) == with_tokens(
            MappingInput {
                data: data@,
                files: crate::smcache::files::entries_view(files@),
                points: points_view(points@),
            },
            StringTable { bytes: old(string_bytes)@, offsets: old(strings)@ },
            data@.tokens.len() as int,
        ),
        data@.wf(),
{
    let ghost input = MappingInput {
        data: data@,
        files: crate::smcache::files::entries_view(files@),
        points: points_view(points@),
    };
    let ghost start = StringTable { bytes: string_bytes@, offsets: strings@ };
    let tokens = data.tokens();
    let sources = data.sources();
    let function_names = data.function_names();
    let mut mappings: Vec<(MinifiedSourcePosition, OriginalSourceLocation)> = Vec::new();
    let mut last: Option<OriginalSourceLocation> = None;
    let n = tokens.len();
    let mut i: usize = 0;
    assert(mappings@ =~= Seq::<(MinifiedSourcePosition, OriginalSourceLocation)>::empty());
    while i < n
        invariant
            input == (MappingInput {
                data: data@,
                files: crate::smcache::files::entries_view(files@),
                points: points_view(points@),
            }),
            data@.wf(),
            sorted_by_name(input.files),
            points_ascending(input.points),
            tokens@ == data@.tokens,
            sources_view(sources@) == data@.sources,
            match function_names {
                Some(names) => data@.function_names == Some(
                    crate::source_map::options_view(names@),
                ),
                None => data@.function_names is None,
            },
            n == tokens@.len(),
            0 <= i <= n,
            (MappingState {
                strings: StringTable { bytes: string_bytes@, offsets: strings@ },
                mappings: mappings@,
            }) == with_tokens(input, start, i as int),
            last == if mappings@.len() > 0 {
                Some(mappings@.last().1)
            } else {
                None::<OriginalSourceLocation>
            },
        decreases n - i,
    {
        let token = tokens[i];
        let sp = SourcePosition::new(token.dst_line, token.dst_col);
        let scope = match function_names {
            Some(names) if points.len() == 0 => {
                assert(crate::source_map::options_view(names@)[i as int] == (match names@[i as int] {
                    Some(name) => Some(name@),
                    None => None,
                }));
                match &names[i] {
                    Some(name) => ScopeLookupResult::NamedScope(name.clone()),
                    None => ScopeLookupResult::Unknown,
                }
            },
            _ => lookup_scope(points, sp),
        };
        assert(scope@ == token_scope(input.data, input.points, i as int));
        let file_idx = if token.src_id != 0xFFFF_FFFF && (token.src_id as usize) < sources.len() {
            assert(sources_view(sources@)[token.src_id as int].0 == sources@[token.src_id as int].name@);
            find_file(files, sources[token.src_id as usize].name.as_str())
        } else {
            crate::smcache::raw::NO_FILE_SENTINEL
        };
        let scope_idx = match scope {
            ScopeLookupResult::NamedScope(name) => {
                let offset = insert_string(string_bytes, strings, name.as_str());
                if offset < GLOBAL_SCOPE_SENTINEL {
                    offset
                } else {
                    GLOBAL_SCOPE_SENTINEL
                }
            },
            ScopeLookupResult::AnonymousScope => ANONYMOUS_SCOPE_SENTINEL,
            ScopeLookupResult::Unknown => GLOBAL_SCOPE_SENTINEL,
        };
        let sl = OriginalSourceLocation { file_idx, line: token.src_line, scope_idx };
        let same = match last {
            Some(l) => l == sl,
            None => false,
        };
        if !same {
            mappings.push((MinifiedSourcePosition { line: sp.line, column: sp.column }, sl));
            last = Some(sl);
        }
        i += 1;
    }
    mappings
}

} // verus!
