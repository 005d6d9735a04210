//! The writer of the cache: it builds the tables from a minified text, its
//! source map and its scopes, and lays them out as bytes.

use std::ops::Range;
use vstd::prelude::*;
use vstd::string::*;
use vstd::hash_map::StringHashMap;
use crate::name_resolver::NameResolver;
use crate::scope_index::{index_entries, scopes_nest, ScopeIndex, ScopeIndexError};
use crate::scope_name::ScopeName;
use crate::scopes::{scopes_view, ScopeView};
use crate::smcache::files::{entries_view, FileEntryView};
use crate::smcache::raw::{
    align_to_eight, le_bytes, padding_to_eight, File, Header, LineOffset, MinifiedSourcePosition,
    OriginalSourceLocation, SMCACHE_MAGIC, SMCACHE_VERSION,
};
use crate::smcache::strings::{record_at, StringTable};
use crate::smcache::tables::{
    add_files, add_mappings, is_name_of, lemma_files_named, lemma_files_sorted,
    lemma_project_ascending, lemma_tokens_strings, named_in, project, project_index,
    resolve_scopes, resolved_scopes, source_entries, token_location, with_files, with_tokens,
    MappingInput,
};
use crate::source::{indexable, SourceContext, SourceContextError};
use crate::source_map::{
    data_view, decoded, tokens_sorted, DecodeError, SourceMapData, SourceMapView,
};

verus! {

/// The kind of failure of the writer.
#[derive(Clone, Copy, Debug, PartialEq, Eq, Structural)]
pub enum ErrorKind {
    /// The source map could not be decoded or flattened.
    SourceMap,
    /// The scopes of the minified text do not nest.
    ScopeIndex,
    /// The minified text could not be indexed.
    SourceContext,
}

/// What went wrong while building a cache.
#[derive(Debug)]
pub enum SmCacheErrorInner {
    SourceMap(DecodeError),
    ScopeIndex(ScopeIndexError),
    SourceContext(SourceContextError),
}

/// An error that can happen when building a cache.
#[derive(Debug)]
pub struct SmCacheWriterError(SmCacheErrorInner);

impl SmCacheErrorInner {
    /// The kind of the failure.
    pub open spec fn kind_of(self) -> ErrorKind {
        match self {
            SmCacheErrorInner::SourceMap(_) => ErrorKind::SourceMap,
            SmCacheErrorInner::ScopeIndex(_) => ErrorKind::ScopeIndex,
            SmCacheErrorInner::SourceContext(_) => ErrorKind::SourceContext,
        }
    }
}

impl From<SmCacheErrorInner> for SmCacheWriterError {
    fn from(inner: SmCacheErrorInner) -> (error: SmCacheWriterError)
        ensures
            error == SmCacheWriterError::wrap(inner),
            error.kind_of() == inner.kind_of(),
    {
        SmCacheWriterError(inner)
    }
}

impl vstd::std_specs::convert::FromSpecImpl<SmCacheErrorInner> for SmCacheWriterError {
    open spec fn obeys_from_spec() -> bool {
        true
    }

    open spec fn from_spec(inner: SmCacheErrorInner) -> SmCacheWriterError {
        SmCacheWriterError::wrap(inner)
    }
}

/// Formats an error of the `sourcemap` crate with its `Display`. Nothing is
/// claimed of the text.
#[verifier::external_body]
fn describe(error: &sourcemap::Error) -> String {
    format!("{}", error)
}

impl SmCacheWriterError {
    /// The error that holds `inner`.
    pub closed spec fn wrap(inner: SmCacheErrorInner) -> SmCacheWriterError {
        SmCacheWriterError(inner)
    }

    /// The kind of the error.
    pub closed spec fn kind_of(&self) -> ErrorKind {
        self.0.kind_of()
    }

    /// The kind of the error.
    pub fn kind(&self) -> (kind: ErrorKind)
        ensures
            kind == self.kind_of(),
    {
        match &self.0 {
            SmCacheErrorInner::SourceMap(_) => ErrorKind::SourceMap,
            SmCacheErrorInner::ScopeIndex(_) => ErrorKind::ScopeIndex,
            SmCacheErrorInner::SourceContext(_) => ErrorKind::SourceContext,
        }
    }

    /// The error in words. For a failure of the source map they are those of
    /// the `sourcemap` crate.
    pub fn to_string(&self) -> (text: String)
        ensures
            self.kind_of() == ErrorKind::ScopeIndex ==> text@ == "scope index could not be built"@,
            self.kind_of() == ErrorKind::SourceContext ==> text@
                == "source could not be converted to source context"@,
    {
        match &self.0 {
            SmCacheErrorInner::SourceMap(DecodeError::Decode(e)) => describe(e),
            SmCacheErrorInner::SourceMap(DecodeError::OutOfRange) => {
                "source map index does not fit in 32 bits".to_owned()
            },
            SmCacheErrorInner::ScopeIndex(_) => "scope index could not be built".to_owned(),
            SmCacheErrorInner::SourceContext(_) => {
                "source could not be converted to source context".to_owned()
            },
        }
    }
}

/// The mathematical value of a cache: its four tables.
pub struct WriterView {
    /// The string table: one record for each distinct string.
    pub string_bytes: Seq<u8>,
    /// The files, sorted by name.
    pub files: Seq<File>,
    /// The line offset tables of the files.
    pub line_offsets: Seq<LineOffset>,
    /// The mappings from minified positions to original locations.
    pub mappings: Seq<(MinifiedSourcePosition, OriginalSourceLocation)>,
}

/// The records of the files.
pub open spec fn records(files: Seq<FileEntryView>) -> Seq<File> {
    Seq::new(files.len(), |i: int| files[i].file)
}

/// The cache of the minified text `text` with the source map `data` and the
/// scopes `scopes`, or the kind of failure. The text must be indexable and the
/// scopes, with their names resolved, must nest. Then the files of the map are
/// added and its tokens are mapped, each with the scope that the index of
/// scopes, projected to positions, gives for it.
pub open spec fn built(text: Seq<u8>, data: SourceMapView, scopes: Seq<ScopeView>) -> Result<
    WriterView,
    ErrorKind,
> {
    if !indexable(text) {
        Err(ErrorKind::SourceContext)
    } else if !scopes_nest(resolved_scopes(text, data, scopes)) {
        Err(ErrorKind::ScopeIndex)
    } else {
        let points = project(index_entries(resolved_scopes(text, data, scopes)), text);
        let files = with_files(data.sources, data.sources.len() as int);
        let state = with_tokens(
            MappingInput { data, files: files.files, points },
            files.strings,
            data.tokens.len() as int,
        );
        Ok(
            WriterView {
                string_bytes: state.strings.bytes,
                files: records(files.files),
                line_offsets: files.line_offsets,
                mappings: state.mappings,
            },
        )
    }
}

/// What holds of every cache that is built from a source map with sorted
/// tokens: the minified positions of its mappings do not decrease, no two
/// consecutive mappings have the same original location, and there is one file
/// for each source of the map, in the order of the file names.
pub proof fn lemma_built(text: Seq<u8>, data: SourceMapView, scopes: Seq<ScopeView>)
    requires
        data.wf(),
        built(text, data, scopes) is Ok,
    ensures
        ordered(built(text, data, scopes)->Ok_0.mappings),
        deduplicated(built(text, data, scopes)->Ok_0.mappings),
        built(text, data, scopes)->Ok_0.files == records(
            with_files(data.sources, data.sources.len() as int).files,
        ),
        crate::smcache::files::sorted_by_name(
            with_files(data.sources, data.sources.len() as int).files,
        ),
        built(text, data, scopes)->Ok_0.files.len() == data.sources.len(),
{
    let points = project(index_entries(resolved_scopes(text, data, scopes)), text);
    let files = with_files(data.sources, data.sources.len() as int);
    let input = MappingInput { data, files: files.files, points };
    lemma_mappings_ordered(input, files.strings, data.tokens.len() as int);
    lemma_mappings_deduplicated(input, files.strings, data.tokens.len() as int);
    lemma_files_sorted(data.sources, data.sources.len() as int);
}

/// The string `s` is not empty and its record stands in `bytes` at `slot`.
pub open spec fn is_scope_record(bytes: Seq<u8>, slot: u32, s: Seq<char>) -> bool {
    s.len() > 0 && record_at(bytes, slot, s)
}

/// The string `s` is the name of the file `entry`, and its record stands in
/// `bytes` at the name offset of the file; the empty name has no record and
/// the offset `u32::MAX`.
pub open spec fn reads_name(bytes: Seq<u8>, entry: FileEntryView, s: Seq<char>) -> bool {
    &&& vstd::utf8::encode_utf8(s) == entry.name
    &&& if s.len() == 0 {
        entry.file.name_offset == u32::MAX
    } else {
        record_at(bytes, entry.file.name_offset, s)
    }
}

/// The record of a string that is not empty stands in `bytes` at `slot`.
pub open spec fn scope_record_at(bytes: Seq<u8>, slot: u32) -> bool {
    exists|s: Seq<char>| #[trigger] is_scope_record(bytes, slot, s)
}

/// The name of the file `entry` is read back from `bytes` at its name offset.
pub open spec fn name_read_back(bytes: Seq<u8>, entry: FileEntryView) -> bool {
    exists|s: Seq<char>| #[trigger] reads_name(bytes, entry, s)
}

/// What holds of the string table of every cache that stays within `u32::MAX`
/// bytes of strings. Every scope slot below `GLOBAL_SCOPE_SENTINEL` is the
/// start of the record of a string that is not empty. The files are the
/// entries of the sources of the map in the order of their names, and the name
/// of each is read back from the string table at its name offset.
pub proof fn lemma_built_strings(text: Seq<u8>, data: SourceMapView, scopes: Seq<ScopeView>)
    requires
        built(text, data, scopes) is Ok,
        built(text, data, scopes)->Ok_0.string_bytes.len() <= u32::MAX,
    ensures
        forall|i: int|
            0 <= i < built(text, data, scopes)->Ok_0.mappings.len() && (#[trigger] built(
                text,
                data,
                scopes,
            )->Ok_0.mappings[i]).1.scope_idx < crate::smcache::raw::GLOBAL_SCOPE_SENTINEL
                ==> scope_record_at(
                built(text, data, scopes)->Ok_0.string_bytes,
                built(text, data, scopes)->Ok_0.mappings[i].1.scope_idx,
            ),
        with_files(data.sources, data.sources.len() as int).files.to_multiset() == source_entries(
            data.sources,
            data.sources.len() as int,
        ).to_multiset(),
        forall|i: int|
            0 <= i < data.sources.len() ==> (#[trigger] source_entries(
                data.sources,
                data.sources.len() as int,
            )[i]).name == vstd::utf8::encode_utf8(data.sources[i].0),
        forall|j: int|
            0 <= j < with_files(data.sources, data.sources.len() as int).files.len()
                ==> name_read_back(
                built(text, data, scopes)->Ok_0.string_bytes,
                #[trigger] with_files(data.sources, data.sources.len() as int).files[j],
            ),
{
    let v = built(text, data, scopes)->Ok_0;
    let points = project(index_entries(resolved_scopes(text, data, scopes)), text);
    let files = with_files(data.sources, data.sources.len() as int);
    let input = MappingInput { data, files: files.files, points };
    let n = data.tokens.len() as int;
    let state = with_tokens(input, files.strings, n);
    lemma_tokens_strings(input, files.strings, n);
    lemma_files_named(data.sources, data.sources.len() as int);
    assert(state.strings.wf());
    assert forall|i: int|
        0 <= i < v.mappings.len() && (#[trigger] v.mappings[i]).1.scope_idx
            < crate::smcache::raw::GLOBAL_SCOPE_SENTINEL implies scope_record_at(
        v.string_bytes,
        v.mappings[i].1.scope_idx,
    ) by {
        let slot = v.mappings[i].1.scope_idx;
        assert(state.strings.is_record_start(slot));
        let s = choose|s: Seq<char>| #[trigger] state.strings.holds_at(s, slot);
        assert(state.strings.offsets.contains_key(s));
        assert(is_scope_record(v.string_bytes, slot, s));
    }
    assert forall|j: int| 0 <= j < files.files.len() implies name_read_back(
        v.string_bytes,
        #[trigger] files.files[j],
    ) by {
        let e = files.files[j];
        assert(named_in(files.strings, e));
        let s = choose|s: Seq<char>| #[trigger] is_name_of(files.strings, e, s);
        if s.len() > 0 {
            assert(files.strings.holds_at(s, e.file.name_offset));
            assert(state.strings.holds_at(s, e.file.name_offset));
            assert(state.strings.offsets.contains_key(s));
        }
        assert(reads_name(v.string_bytes, e, s));
    }
}

/// The first position does not stand after the second.
pub open spec fn not_after(a: MinifiedSourcePosition, b: MinifiedSourcePosition) -> bool {
    a.line < b.line || (a.line == b.line && a.column <= b.column)
}

/// The minified positions of the mappings do not decrease.
pub open spec fn ordered(mappings: Seq<(MinifiedSourcePosition, OriginalSourceLocation)>) -> bool {
    forall|i: int, j: int|
        0 <= i <= j < mappings.len() ==> not_after((#[trigger] mappings[i]).0, (#[trigger] mappings[j]).0)
}

/// Mapping sorted tokens gives mappings whose minified positions do not
/// decrease, and none of which stands after a token that is yet to be mapped.
pub proof fn lemma_mappings_ordered(input: MappingInput, strings: StringTable, n: int)
    requires
        tokens_sorted(input.data.tokens),
        0 <= n <= input.data.tokens.len(),
    ensures
        ordered(with_tokens(input, strings, n).mappings),
        forall|i: int, k: int|
            #![trigger with_tokens(input, strings, n).mappings[i], input.data.tokens[k]]
            0 <= i < with_tokens(input, strings, n).mappings.len() && 0 <= k && n - 1 <= k
                < input.data.tokens.len() ==> not_after(
                with_tokens(input, strings, n).mappings[i].0,
                MinifiedSourcePosition {
                    line: input.data.tokens[k].dst_line,
                    column: input.data.tokens[k].dst_col,
                },
            ),
    decreases n,
{
    if n > 0 {
        lemma_mappings_ordered(input, strings, n - 1);
        let tokens = input.data.tokens;
        let before = with_tokens(input, strings, n - 1).mappings;
        let after = with_tokens(input, strings, n).mappings;
        let t = tokens[n - 1];
        let here = MinifiedSourcePosition { line: t.dst_line, column: t.dst_col };
        assert forall|i: int, k: int|
            #![trigger after[i], tokens[k]]
            0 <= i < after.len() && 0 <= k && n - 1 <= k < tokens.len() implies not_after(
            after[i].0,
            MinifiedSourcePosition { line: tokens[k].dst_line, column: tokens[k].dst_col },
        ) by {
            assert(tokens[n - 1].not_after(tokens[k].dst_line, tokens[k].dst_col));
            if i < before.len() {
                assert(after[i] == before[i]);
                assert(not_after(before[i].0, here));
            }
        }
        assert forall|i: int, j: int| 0 <= i <= j < after.len() implies not_after(
            (#[trigger] after[i]).0,
            (#[trigger] after[j]).0,
        ) by {
            if j < before.len() {
                assert(after[i] == before[i] && after[j] == before[j]);
            } else if i < before.len() {
                assert(after[i] == before[i]);
                assert(not_after(before[i].0, here));
            }
        }
    }
}

/// No two consecutive mappings have the same original location.
pub open spec fn deduplicated(mappings: Seq<(MinifiedSourcePosition, OriginalSourceLocation)>) -> bool {
    forall|i: int| 0 < i < mappings.len() ==> mappings[i - 1].1 != (#[trigger] mappings[i]).1
}

/// Mapping tokens never gives two consecutive mappings with the same original
/// location.
pub proof fn lemma_mappings_deduplicated(input: MappingInput, strings: StringTable, n: int)
    ensures
        deduplicated(with_tokens(input, strings, n).mappings),
    decreases n,
{
    if n > 0 {
        lemma_mappings_deduplicated(input, strings, n - 1);
        let before = with_tokens(input, strings, n - 1).mappings;
        let after = with_tokens(input, strings, n).mappings;
        assert forall|i: int| 0 < i < after.len() implies after[i - 1].1 != (#[trigger] after[i]).1 by {
            if i < before.len() {
                assert(before[i - 1].1 != before[i].1);
            }
        }
    }
}

/// The number of the first `n` mappings that do not stand after `at`.
pub open spec fn mappings_not_after(
    mappings: Seq<(MinifiedSourcePosition, OriginalSourceLocation)>,
    n: int,
    at: MinifiedSourcePosition,
) -> int
    decreases n,
{
    if n <= 0 {
        0
    } else if not_after(mappings[n - 1].0, at) {
        mappings_not_after(mappings, n - 1, at) + 1
    } else {
        mappings_not_after(mappings, n - 1, at)
    }
}

/// What a reader of the cache finds for the minified position `at`: the
/// original location of the last mapping that does not stand after it.
pub open spec fn lookup(
    mappings: Seq<(MinifiedSourcePosition, OriginalSourceLocation)>,
    at: MinifiedSourcePosition,
) -> Option<OriginalSourceLocation> {
    let k = mappings_not_after(mappings, mappings.len() as int, at);
    if k == 0 {
        None
    } else {
        Some(mappings[k - 1].1)
    }
}

/// Where the first `k` of `n` mappings do not stand after a position and the
/// others do, `k` is the number of those that do not.
pub proof fn lemma_mappings_not_after(
    mappings: Seq<(MinifiedSourcePosition, OriginalSourceLocation)>,
    n: int,
    k: int,
    at: MinifiedSourcePosition,
)
    requires
        0 <= k <= n <= mappings.len(),
        forall|i: int| 0 <= i < k ==> not_after((#[trigger] mappings[i]).0, at),
        forall|i: int| k <= i < n ==> !not_after((#[trigger] mappings[i]).0, at),
    ensures
        mappings_not_after(mappings, n, at) == k,
    decreases n,
{
    if n > 0 {
        if k == n {
            lemma_mappings_not_after(mappings, n - 1, k - 1, at);
        } else {
            lemma_mappings_not_after(mappings, n - 1, k, at);
        }
    }
}

/// Looking up the minified position of a mapping gives the original location
/// of that mapping, provided that the next mapping stands at a later position.
pub proof fn lemma_lookup_mapping(
    mappings: Seq<(MinifiedSourcePosition, OriginalSourceLocation)>,
    i: int,
)
    requires
        ordered(mappings),
        0 <= i < mappings.len(),
        i + 1 < mappings.len() ==> mappings[i].0 != mappings[i + 1].0,
    ensures
        lookup(mappings, mappings[i].0) == Some(mappings[i].1),
{
    let at = mappings[i].0;
    assert forall|j: int| 0 <= j < i + 1 implies not_after((#[trigger] mappings[j]).0, at) by {}
    assert forall|j: int| i + 1 <= j < mappings.len() implies !not_after(
        (#[trigger] mappings[j]).0,
        at,
    ) by {
        assert(not_after(mappings[i].0, mappings[i + 1].0));
        assert(not_after(mappings[i + 1].0, mappings[j].0));
    }
    lemma_mappings_not_after(mappings, mappings.len() as int, i + 1, at);
}

/// The minified position of the token at index `k`.
pub open spec fn token_position(input: MappingInput, k: int) -> MinifiedSourcePosition {
    MinifiedSourcePosition {
        line: input.data.tokens[k].dst_line,
        column: input.data.tokens[k].dst_col,
    }
}

/// Mapping more tokens keeps the mappings that are there, and each mapping
/// that it adds stands at the position of one of the further tokens.
pub proof fn lemma_mappings_extend(input: MappingInput, strings: StringTable, a: int, b: int)
    requires
        tokens_sorted(input.data.tokens),
        0 <= a <= b <= input.data.tokens.len(),
    ensures
        with_tokens(input, strings, a).mappings.len() <= with_tokens(input, strings, b).mappings.len(),
        forall|i: int|
            0 <= i < with_tokens(input, strings, a).mappings.len() ==> with_tokens(
                input,
                strings,
                a,
            ).mappings[i] == #[trigger] with_tokens(input, strings, b).mappings[i],
        forall|i: int|
            with_tokens(input, strings, a).mappings.len() <= i < with_tokens(
                input,
                strings,
                b,
            ).mappings.len() ==> a < input.data.tokens.len() && not_after(
                token_position(input, a),
                (#[trigger] with_tokens(input, strings, b).mappings[i]).0,
            ),
    decreases b - a,
{
    if a < b {
        lemma_mappings_extend(input, strings, a, b - 1);
        let tokens = input.data.tokens;
        let first = with_tokens(input, strings, a).mappings;
        let before = with_tokens(input, strings, b - 1).mappings;
        let after = with_tokens(input, strings, b).mappings;
        assert forall|i: int| 0 <= i < first.len() implies first[i] == #[trigger] after[i] by {
            assert(first[i] == before[i]);
        }
        assert forall|i: int| first.len() <= i < after.len() implies not_after(
            token_position(input, a),
            (#[trigger] after[i]).0,
        ) by {
            if i < before.len() {
                assert(after[i] == before[i]);
            } else {
                assert(after[i].0 == token_position(input, b - 1));
                assert(tokens[a].not_after(tokens[b - 1].dst_line, tokens[b - 1].dst_col));
            }
        }
    }
}

/// A reader finds for the minified position of any token the original location
/// that the writer gave to that token, provided that the next token stands at a
/// later position.
pub proof fn lemma_lookup_token(input: MappingInput, strings: StringTable, k: int)
    requires
        tokens_sorted(input.data.tokens),
        0 <= k < input.data.tokens.len(),
        k + 1 < input.data.tokens.len() ==> token_position(input, k) != token_position(input, k + 1),
    ensures
        lookup(
            with_tokens(input, strings, input.data.tokens.len() as int).mappings,
            token_position(input, k),
        ) == Some(token_location(input, with_tokens(input, strings, k).strings, k)),
{
    let tokens = input.data.tokens;
    let n = tokens.len() as int;
    let at = token_position(input, k);
    let own = with_tokens(input, strings, k + 1).mappings;
    let all = with_tokens(input, strings, n).mappings;
    lemma_mappings_ordered(input, strings, k + 1);
    lemma_mappings_extend(input, strings, k + 1, n);
    assert(own.len() > 0);
    assert(own.last().1 == token_location(input, with_tokens(input, strings, k).strings, k));
    assert forall|i: int| 0 <= i < own.len() implies not_after((#[trigger] all[i]).0, at) by {
        assert(own[i] == all[i]);
        assert(not_after(own[i].0, token_position(input, k)));
    }
    assert forall|i: int| own.len() <= i < all.len() implies !not_after((#[trigger] all[i]).0, at) by {
        assert(not_after(token_position(input, k + 1), all[i].0));
        assert(tokens[k].not_after(tokens[k + 1].dst_line, tokens[k + 1].dst_col));
    }
    lemma_mappings_not_after(all, all.len() as int, own.len() as int, at);
    assert(all[own.len() - 1] == own[own.len() - 1]);
}

/// `n` zero bytes.
pub open spec fn zeros(n: int) -> Seq<u8> {
    Seq::new(n as nat, |i: int| 0u8)
}

/// `bytes` with zero bytes behind it up to a multiple of 8.
pub open spec fn aligned(bytes: Seq<u8>) -> Seq<u8> {
    bytes + zeros(padding_to_eight(bytes.len() as int))
}

/// The header as bytes: six numbers and eight reserved bytes, which are zero.
pub open spec fn header_bytes(header: Header) -> Seq<u8> {
    le_bytes(header.magic) + le_bytes(header.version) + le_bytes(header.num_mappings) + le_bytes(
        header.num_files,
    ) + le_bytes(header.num_line_offsets) + le_bytes(header.string_bytes) + zeros(8)
}

/// The header of the cache `v`. A count that does not fit in 32 bits is cut
/// down to its lower 32 bits.
pub open spec fn header_of(v: WriterView) -> Header {
    Header {
        magic: SMCACHE_MAGIC,
        version: SMCACHE_VERSION,
        num_mappings: v.mappings.len() as u32,
        num_files: v.files.len() as u32,
        num_line_offsets: v.line_offsets.len() as u32,
        string_bytes: v.string_bytes.len() as u32,
    }
}

/// The minified positions of the first `n` mappings as bytes.
pub open spec fn positions_bytes(
    mappings: Seq<(MinifiedSourcePosition, OriginalSourceLocation)>,
    n: int,
) -> Seq<u8>
    decreases n,
{
    if n <= 0 {
        Seq::empty()
    } else {
        positions_bytes(mappings, n - 1) + le_bytes(mappings[n - 1].0.line) + le_bytes(
            mappings[n - 1].0.column,
        )
    }
}

/// The original locations of the first `n` mappings as bytes.
pub open spec fn locations_bytes(
    mappings: Seq<(MinifiedSourcePosition, OriginalSourceLocation)>,
    n: int,
) -> Seq<u8>
    decreases n,
{
    if n <= 0 {
        Seq::empty()
    } else {
        locations_bytes(mappings, n - 1) + le_bytes(mappings[n - 1].1.file_idx) + le_bytes(
            mappings[n - 1].1.line,
        ) + le_bytes(mappings[n - 1].1.scope_idx)
    }
}

/// The first `n` files as bytes.
pub open spec fn files_bytes(files: Seq<File>, n: int) -> Seq<u8>
    decreases n,
{
    if n <= 0 {
        Seq::empty()
    } else {
        files_bytes(files, n - 1) + le_bytes(files[n - 1].name_offset) + le_bytes(
            files[n - 1].source_offset,
        ) + le_bytes(files[n - 1].line_offsets_start) + le_bytes(files[n - 1].line_offsets_end)
    }
}

/// The first `n` line offsets as bytes.
pub open spec fn offsets_bytes(line_offsets: Seq<LineOffset>, n: int) -> Seq<u8>
    decreases n,
{
    if n <= 0 {
        Seq::empty()
    } else {
        offsets_bytes(line_offsets, n - 1) + le_bytes(line_offsets[n - 1].0)
    }
}

/// The file up to the end of section `k`, with its padding: the header is
/// section 0, then come the minified positions, the original locations, the
/// files and the line offsets.
pub open spec fn through_section(v: WriterView, k: int) -> Seq<u8>
    decreases k,
{
    if k <= 0 {
        aligned(header_bytes(header_of(v)))
    } else if k == 1 {
        aligned(through_section(v, 0) + positions_bytes(v.mappings, v.mappings.len() as int))
    } else if k == 2 {
        aligned(through_section(v, 1) + locations_bytes(v.mappings, v.mappings.len() as int))
    } else if k == 3 {
        aligned(through_section(v, 2) + files_bytes(v.files, v.files.len() as int))
    } else {
        aligned(
            through_section(v, 3) + offsets_bytes(v.line_offsets, v.line_offsets.len() as int),
        )
    }
}

/// The cache file: the five padded sections and the string table behind them.
pub open spec fn serialized(v: WriterView) -> Seq<u8> {
    through_section(v, 4) + v.string_bytes
}

/// The offset in the file at which section `k` starts; section 5 is the
/// string table.
pub open spec fn section_offset(v: WriterView, k: int) -> int {
    if k <= 0 {
        0
    } else {
        through_section(v, k - 1).len() as int
    }
}

/// The header takes 32 bytes.
pub proof fn lemma_header_size(header: Header)
    ensures
        header_bytes(header).len() == 32,
{
    assert(le_bytes(header.magic).len() == 4);
    assert(le_bytes(header.version).len() == 4);
    assert(le_bytes(header.num_mappings).len() == 4);
    assert(le_bytes(header.num_files).len() == 4);
    assert(le_bytes(header.num_line_offsets).len() == 4);
    assert(le_bytes(header.string_bytes).len() == 4);
}

/// A minified position takes 8 bytes, an original location 12.
pub proof fn lemma_mapping_sizes(
    mappings: Seq<(MinifiedSourcePosition, OriginalSourceLocation)>,
    n: int,
)
    requires
        0 <= n,
    ensures
        positions_bytes(mappings, n).len() == 8 * n,
        locations_bytes(mappings, n).len() == 12 * n,
    decreases n,
{
    if n > 0 {
        lemma_mapping_sizes(mappings, n - 1);
        assert(le_bytes(mappings[n - 1].0.line).len() == 4);
        assert(le_bytes(mappings[n - 1].0.column).len() == 4);
        assert(le_bytes(mappings[n - 1].1.file_idx).len() == 4);
        assert(le_bytes(mappings[n - 1].1.line).len() == 4);
        assert(le_bytes(mappings[n - 1].1.scope_idx).len() == 4);
    }
}

/// A file takes 16 bytes, a line offset 4.
pub proof fn lemma_file_sizes(files: Seq<File>, line_offsets: Seq<LineOffset>, n: int)
    requires
        0 <= n,
    ensures
        files_bytes(files, n).len() == 16 * n,
        offsets_bytes(line_offsets, n).len() == 4 * n,
    decreases n,
{
    if n > 0 {
        lemma_file_sizes(files, line_offsets, n - 1);
        assert(le_bytes(files[n - 1].name_offset).len() == 4);
        assert(le_bytes(files[n - 1].source_offset).len() == 4);
        assert(le_bytes(files[n - 1].line_offsets_start).len() == 4);
        assert(le_bytes(files[n - 1].line_offsets_end).len() == 4);
        assert(le_bytes(line_offsets[n - 1].0).len() == 4);
    }
}

/// Every section of the file starts at a multiple of 8.
pub proof fn lemma_sections_aligned(v: WriterView, k: int)
    ensures
        section_offset(v, k) % 8 == 0,
{
    if k > 0 {
        let j = if k - 1 > 4 {
            4
        } else {
            k - 1
        };
        assert(through_section(v, k - 1) == through_section(v, j));
    }
}

/// The sink of the serializer: it counts the bytes that go through it.
pub struct WriteWrapper {
    writer: Vec<u8>,
    position: usize,
}

impl WriteWrapper {
    /// No more bytes were counted than the sink holds.
    pub closed spec fn wf(&self) -> bool {
        self.position <= self.writer@.len()
    }

    /// All bytes of the sink.
    pub closed spec fn written(&self) -> Seq<u8> {
        self.writer@
    }

    /// The number of bytes written through the wrapper.
    pub closed spec fn position(&self) -> int {
        self.position as int
    }

    /// Wraps `writer`. What it holds stays in front of what is written.
    pub fn new(writer: Vec<u8>) -> (wrapper: WriteWrapper)
        ensures
            wrapper.wf(),
            wrapper.written() == writer@,
            wrapper.position() == 0,
    {
        WriteWrapper { writer, position: 0 }
    }

    /// Writes `data` and returns its length.
    pub fn write(&mut self, data: &[u8]) -> (len: usize)
        requires
            old(self).wf(),
        ensures
            final(self).wf(),
            len == data@.len(),
            final(self).written() == old(self).written() + data@,
            final(self).position() == old(self).position() + data@.len(),
    {
        let len = data.len();
        self.writer.extend_from_slice(data);
        assert(self.writer@ =~= old(self).writer@ + data@);
        assert(self.writer@.len() == self.writer.len());
        self.position = self.position + len;
        len
    }

    /// Writes `x` as four bytes, the lowest first.
    pub fn write_u32(&mut self, x: u32)
        requires
            old(self).wf(),
        ensures
            final(self).wf(),
            final(self).written() == old(self).written() + le_bytes(x),
            final(self).position() == old(self).position() + 4,
    {
        crate::smcache::raw::push_le_bytes(&mut self.writer, x);
        assert(self.writer@.len() == self.writer.len());
        self.position = self.position + 4;
    }

    /// Writes zero bytes up to the next multiple of 8 and returns their number.
    pub fn align(&mut self) -> (len: usize)
        requires
            old(self).wf(),
        ensures
            final(self).wf(),
            len == padding_to_eight(old(self).position()),
            final(self).written() == old(self).written() + zeros(len as int),
            final(self).position() == old(self).position() + len,
    {
        let len = align_to_eight(self.position);
        let mut k: usize = 0;
        while k < len
            invariant
                0 <= k <= len < 8,
                self.position <= self.writer@.len(),
                self.position == old(self).position + k,
                self.writer@ == old(self).writer@ + zeros(k as int),
            decreases len - k,
        {
            self.writer.push(0);
            assert(self.writer@.len() == self.writer.len());
            self.position = self.position + 1;
            k += 1;
            assert(self.writer@ =~= old(self).writer@ + zeros(k as int));
        }
        len
    }

    /// Hands the sink back.
    pub fn into_inner(self) -> (writer: Vec<u8>)
        ensures
            writer@ == self.written(),
    {
        self.writer
    }
}

/// A structure that allows quick resolution of minified positions to the
/// original locations that they map to.
pub struct SmCacheWriter {
    string_bytes: Vec<u8>,
    files: Vec<File>,
    line_offsets: Vec<LineOffset>,
    mappings: Vec<(MinifiedSourcePosition, OriginalSourceLocation)>,
}

impl View for SmCacheWriter {
    type V = WriterView;

    closed spec fn view(&self) -> WriterView {
        WriterView {
            string_bytes: self.string_bytes@,
            files: self.files@,
            line_offsets: self.line_offsets@,
            mappings: self.mappings@,
        }
    }
}

impl SmCacheWriter {
    /// Constructs a new cache from a minified source file, its source map as a
    /// JSON document, and the scopes that were found in the minified source.
    ///
    /// Fails with `SourceMap` if and only if the source map cannot be decoded
    /// or flattened. Else the outcome is that of `build`.
    pub fn new(source: &str, sourcemap: &str, scopes: Vec<(Range<u32>, Option<ScopeName>)>) -> (r:
        Result<SmCacheWriter, SmCacheWriterError>)
        ensures
            match decoded(sourcemap.spec_bytes()) {
                None => r is Err && r->Err_0.kind_of() == ErrorKind::SourceMap,
                Some(contents) => match built(
                    source.spec_bytes(),
                    data_view(contents),
                    scopes_view(scopes@),
                ) {
                    Ok(view) => r is Ok && r->Ok_0@ == view,
                    Err(kind) => r is Err && r->Err_0.kind_of() == kind,
                },
            },
            r matches Ok(w) ==> ordered(w@.mappings) && deduplicated(w@.mappings),
    {
        match SourceMapData::decode(sourcemap.as_bytes()) {
            Ok(data) => Self::build(source, &data, scopes),
            Err(e) => Err(SmCacheWriterError(SmCacheErrorInner::SourceMap(e))),
        }
    }

    /// Constructs a new cache from a minified source file, what its source map
    /// holds, and the scopes that were found in the minified source.
    ///
    /// Fails with `SourceContext` if and only if the source cannot be indexed,
    /// which is when it is longer than `u32::MAX` bytes; else with `ScopeIndex`
    /// if and only if the scopes, with their names resolved, do not nest.
    pub fn build(source: &str, data: &SourceMapData, scopes: Vec<(Range<u32>, Option<ScopeName>)>) -> (r:
        Result<SmCacheWriter, SmCacheWriterError>)
        ensures
            match built(source.spec_bytes(), data@, scopes_view(scopes@)) {
                Ok(view) => r is Ok && r->Ok_0@ == view,
                Err(kind) => r is Err && r->Err_0.kind_of() == kind,
            },
            (r is Err && r->Err_0.kind_of() == ErrorKind::SourceContext) <==> source.spec_bytes().len()
                > u32::MAX,
            r matches Ok(w) ==> ordered(w@.mappings) && deduplicated(w@.mappings),
    {
        let ctx = match SourceContext::new(source) {
            Ok(ctx) => ctx,
            Err(e) => {
                return Err(SmCacheWriterError(SmCacheErrorInner::SourceContext(e)));
            },
        };
        let ghost text = source.spec_bytes();
        let ghost resolved_spec = resolved_scopes(text, data@, scopes_view(scopes@));
        let resolver = NameResolver::new(&ctx, data);
        let resolved = resolve_scopes(&resolver, &scopes);
        let index = match ScopeIndex::new(resolved) {
            Ok(index) => index,
            Err(e) => {
                return Err(SmCacheWriterError(SmCacheErrorInner::ScopeIndex(e)));
            },
        };
        let points = project_index(&index, &ctx);
        proof {
            crate::scope_index::lemma_index_entries_ascending(resolved_spec);
            lemma_project_ascending(index@, text);
        }
        let mut string_bytes: Vec<u8> = Vec::new();
        let mut strings: StringHashMap<u32> = StringHashMap::new();
        let mut line_offsets: Vec<LineOffset> = Vec::new();
        let entries = add_files(data, &mut string_bytes, &mut strings, &mut line_offsets);
        proof {
            lemma_files_sorted(data@.sources, data@.sources.len() as int);
        }
        let ghost input = MappingInput {
            data: data@,
            files: entries_view(entries@),
            points: crate::smcache::tables::points_view(points@),
        };
        let ghost before = StringTable { bytes: string_bytes@, offsets: strings@ };
        let mappings = add_mappings(data, &entries, &points, &mut string_bytes, &mut strings);
        proof {
            lemma_mappings_ordered(input, before, data@.tokens.len() as int);
            lemma_mappings_deduplicated(input, before, data@.tokens.len() as int);
        }
        let mut files: Vec<File> = Vec::new();
        let n = entries.len();
        let mut i: usize = 0;
        while i < n
            invariant
                n == entries@.len(),
                0 <= i <= n,
                files@.len() == i,
                forall|k: int| 0 <= k < i ==> files@[k] == (#[trigger] entries@[k]).file,
            decreases n - i,
        {
            files.push(entries[i].file);
            i += 1;
        }
        assert(files@ =~= records(entries_view(entries@)));
        Ok(SmCacheWriter { string_bytes, files, line_offsets, mappings })
    }

    /// The string table.
    pub fn string_bytes(&self) -> (bytes: &Vec<u8>)
        ensures
            bytes@ == self@.string_bytes,
    {
        &self.string_bytes
    }

    /// The files, sorted by name.
    pub fn files(&self) -> (files: &Vec<File>)
        ensures
            files@ == self@.files,
    {
        &self.files
    }

    /// The line offset tables of the files.
    pub fn line_offsets_table(&self) -> (line_offsets: &Vec<LineOffset>)
        ensures
            line_offsets@ == self@.line_offsets,
    {
        &self.line_offsets
    }

    /// The mappings.
    pub fn mappings(&self) -> (mappings: &Vec<(MinifiedSourcePosition, OriginalSourceLocation)>)
        ensures
            mappings@ == self@.mappings,
    {
        &self.mappings
    }

    /// The line offset table of `source`: the offset at which each line
    /// starts, and the length of the source at the end.
    pub fn line_offsets(source: &str) -> (line_offsets: Vec<LineOffset>)
        ensures
            line_offsets@ == crate::lines::line_offsets_of(source.spec_bytes()),
    {
        let mut line_offsets: Vec<LineOffset> = Vec::new();
        crate::lines::append_line_offsets(source.as_bytes(), &mut line_offsets);
        assert(line_offsets@ =~= crate::lines::line_offsets_of(source.spec_bytes()));
        line_offsets
    }

    /// Serialize the converted data.
    ///
    /// This appends the cache file to `writer`.
    pub fn serialize(self, writer: &mut Vec<u8>)
        ensures
            final(writer)@ == old(writer)@ + serialized(self@),
    {
        let ghost v = self@;
        let ghost start = writer@;
        let mut sink: Vec<u8> = Vec::new();
        std::mem::swap(writer, &mut sink);
        let mut out = WriteWrapper::new(sink);
        let header = Header {
            magic: SMCACHE_MAGIC,
            version: SMCACHE_VERSION,
            num_mappings: #[verifier::truncate] (self.mappings.len() as u32),
            num_files: #[verifier::truncate] (self.files.len() as u32),
            num_line_offsets: #[verifier::truncate] (self.line_offsets.len() as u32),
            string_bytes: #[verifier::truncate] (self.string_bytes.len() as u32),
        };
        assert(header == header_of(v));
        out.write_u32(header.magic);
        out.write_u32(header.version);
        out.write_u32(header.num_mappings);
        out.write_u32(header.num_files);
        out.write_u32(header.num_line_offsets);
        out.write_u32(header.string_bytes);
        out.write_u32(0);
        out.write_u32(0);
        assert(le_bytes(0) + le_bytes(0) =~= zeros(8));
        assert(out.written() =~= start + header_bytes(header));
        out.align();
        assert(out.written() =~= start + through_section(v, 0));

        let n = self.mappings.len();
        let mut i: usize = 0;
        while i < n
            invariant
                v == self@,
                out.wf(),
                n == self.mappings@.len(),
                0 <= i <= n,
                out.written() == start + (through_section(v, 0) + positions_bytes(
                    v.mappings,
                    i as int,
                )),
                out.position() == (through_section(v, 0) + positions_bytes(v.mappings, i as int)).len(),
            decreases n - i,
        {
            let ghost before = out.written();
            out.write_u32(self.mappings[i].0.line);
            out.write_u32(self.mappings[i].0.column);
            assert(out.written() =~= start + (through_section(v, 0) + positions_bytes(
                v.mappings,
                i + 1,
            )));
            i += 1;
        }
        out.align();
        assert(out.written() =~= start + through_section(v, 1));

        let mut i: usize = 0;
        while i < n
            invariant
                v == self@,
                out.wf(),
                n == self.mappings@.len(),
                0 <= i <= n,
                out.written() == start + (through_section(v, 1) + locations_bytes(
                    v.mappings,
                    i as int,
                )),
                out.position() == (through_section(v, 1) + locations_bytes(v.mappings, i as int)).len(),
            decreases n - i,
        {
            out.write_u32(self.mappings[i].1.file_idx);
            out.write_u32(self.mappings[i].1.line);
            out.write_u32(self.mappings[i].1.scope_idx);
            assert(out.written() =~= start + (through_section(v, 1) + locations_bytes(
                v.mappings,
                i + 1,
            )));
            i += 1;
        }
        out.align();
        assert(out.written() =~= start + through_section(v, 2));

        let n = self.files.len();
        let mut i: usize = 0;
        while i < n
            invariant
                v == self@,
                out.wf(),
                n == self.files@.len(),
                0 <= i <= n,
                out.written() == start + (through_section(v, 2) + files_bytes(v.files, i as int)),
                out.position() == (through_section(v, 2) + files_bytes(v.files, i as int)).len(),
            decreases n - i,
        {
            out.write_u32(self.files[i].name_offset);
            out.write_u32(self.files[i].source_offset);
            out.write_u32(self.files[i].line_offsets_start);
            out.write_u32(self.files[i].line_offsets_end);
            assert(out.written() =~= start + (through_section(v, 2) + files_bytes(v.files, i + 1)));
            i += 1;
        }
        out.align();
        assert(out.written() =~= start + through_section(v, 3));

        let n = self.line_offsets.len();
        let mut i: usize = 0;
        while i < n
            invariant
                v == self@,
                out.wf(),
                n == self.line_offsets@.len(),
                0 <= i <= n,
                out.written() == start + (through_section(v, 3) + offsets_bytes(
                    v.line_offsets,
                    i as int,
                )),
                out.position() == (through_section(v, 3) + offsets_bytes(v.line_offsets, i as int)).len(),
            decreases n - i,
        {
            out.write_u32(self.line_offsets[i].0);
            assert(out.written() =~= start + (through_section(v, 3) + offsets_bytes(
                v.line_offsets,
                i + 1,
            )));
            i += 1;
        }
        out.align();
        assert(out.written() =~= start + through_section(v, 4));

        out.write(self.string_bytes.as_slice());
        assert(out.written() =~= start + serialized(v));
        *writer = out.into_inner();
    }
}

} // verus!
