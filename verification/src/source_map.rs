//! Reading a source map.
//!
//! The `sourcemap` crate decodes the JSON document and flattens an indexed map.
//! What it has decoded is copied, value by value, into a [`SourceMapData`], on
//! which the rest of the library works.

use vstd::prelude::*;
use vstd::string::*;
use crate::name_resolver::{find_token, nearest_token};

verus! {

/// A decoded source map of the `sourcemap` crate. Nothing is known of what is
/// inside one but through the functions below.
#[verifier::external_type_specification]
#[verifier::external_body]
pub struct ExDecodedMap(sourcemap::DecodedMap);

/// The error of the `sourcemap` crate.
#[verifier::external_type_specification]
#[verifier::external_body]
pub struct ExSourceMapError(sourcemap::Error);

/// One mapping of a source map: a position in the minified file and the
/// position in an original source that it comes from.
#[derive(Clone, Copy, Debug, PartialEq, Eq, Structural)]
pub struct Token {
    /// The line in the minified file.
    pub dst_line: u32,
    /// The column in the minified file, in UTF-16 code units.
    pub dst_col: u32,
    /// The line in the original source.
    pub src_line: u32,
    /// The column in the original source.
    pub src_col: u32,
    /// The index of the original source, or `u32::MAX` without one.
    pub src_id: u32,
    /// The index of the original name, or `u32::MAX` without one.
    pub name_id: u32,
}

impl Token {
    /// The token's place in the order of the minified positions: it stands at
    /// or before `(line, col)`.
    pub open spec fn not_after(self, line: u32, col: u32) -> bool {
        self.dst_line < line || (self.dst_line == line && self.dst_col <= col)
    }

    /// The token stands before `(line, col)`.
    pub open spec fn before(self, line: u32, col: u32) -> bool {
        self.dst_line < line || (self.dst_line == line && self.dst_col < col)
    }
}

/// The tokens are in ascending order of their minified positions.
pub open spec fn tokens_sorted(tokens: Seq<Token>) -> bool {
    forall|i: int, j: int|
        0 <= i <= j < tokens.len() ==> (#[trigger] tokens[i]).not_after(
            (#[trigger] tokens[j]).dst_line,
            tokens[j].dst_col,
        )
}

/// What a flat source map holds.
pub struct MapContents {
    /// The mappings, in the order in which the map yields them.
    pub tokens: Seq<Token>,
    /// The name of each original source that a 32-bit index reaches, and its
    /// text where the map carries it. A text that is there may be empty.
    pub sources: Seq<(Seq<char>, Option<Seq<char>>)>,
    /// The original names that tokens refer to, as far as a 32-bit index reaches.
    pub names: Seq<Seq<char>>,
    /// The map is of the kind that Hermes writes.
    pub hermes: bool,
    /// In a Hermes map, the name of the function around each bytecode offset
    /// that has one. Empty in a map of another kind.
    pub functions: Map<u32, Seq<char>>,
}

/// A section of an indexed map: where it starts in the minified file, and its
/// own map, if it is there.
pub struct Section {
    pub line: u32,
    pub column: u32,
    pub map: Option<MapShape>,
}

/// What a decoded map is made of: a flat map with its contents, or an indexed
/// map with its sections, each a map of its own.
pub enum MapShape {
    Flat(MapContents),
    Index(Seq<Section>),
}

/// What `sourcemap::decode_slice` makes of `bytes`, or `None` where it fails.
pub uninterp spec fn parsed(bytes: Seq<u8>) -> Option<MapShape>;

/// What `map` is made of.
pub uninterp spec fn shape(map: sourcemap::DecodedMap) -> MapShape;

/// What `SourceMapIndex::flatten` makes of an indexed map with these sections,
/// or `None` where it fails.
pub uninterp spec fn flattened(sections: Seq<Section>) -> Option<MapContents>;

/// `map` is flat.
pub open spec fn is_flat(map: sourcemap::DecodedMap) -> bool {
    shape(map) is Flat
}

/// What the flat map `map` holds.
pub open spec fn contents_of(map: sourcemap::DecodedMap) -> MapContents {
    shape(map)->Flat_0
}

/// What a map of this shape holds once it is flat.
pub open spec fn flat_contents(shape: MapShape) -> Option<MapContents> {
    match shape {
        MapShape::Flat(contents) => Some(contents),
        MapShape::Index(sections) => flattened(sections),
    }
}

/// How far a flat map reaches: the largest minified line of its tokens, the
/// largest column of its tokens on line 0, and how many sources and names it
/// has, where `0x1_0000_0000` stands for more than `u32::MAX`.
#[derive(Clone, Copy, Debug)]
pub struct Extent {
    pub lines: Option<u32>,
    pub columns: Option<u32>,
    pub sources: u64,
    pub names: u64,
}

/// What becomes of flattening a map.
#[derive(Clone, Copy, Debug)]
pub enum FlattenOutcome {
    /// A number may leave the range of 32 bits on the way: the offset of a
    /// section added to a position in it, or a count of sections, or the
    /// sources or names of all sections counted together.
    Overflow,
    /// A section lacks its map.
    Fails,
    /// The map is flat, or becomes a flat map of this extent.
    Flat(Extent),
}

/// The larger of two numbers, of those that are there.
pub open spec fn larger(a: Option<u32>, b: Option<u32>) -> Option<u32> {
    match a {
        None => b,
        Some(x) => match b {
            None => a,
            Some(y) => if x >= y {
                a
            } else {
                b
            },
        },
    }
}

/// `a` moved up by `by`.
pub open spec fn shifted(a: Option<u32>, by: u32) -> Option<u32> {
    match a {
        Some(x) => Some((x + by) as u32),
        None => None,
    }
}

/// `a` moved up by `by` stays within 32 bits.
pub open spec fn shift_fits(a: Option<u32>, by: u32) -> bool {
    a matches Some(x) ==> x + by <= u32::MAX
}

/// A count as a 64-bit number; `0x1_0000_0000` stands for any count above
/// `u32::MAX`.
pub open spec fn count_of(n: nat) -> u64 {
    if n > u32::MAX {
        0x1_0000_0000
    } else {
        n as u64
    }
}

/// The largest minified line of the first `n` tokens.
pub open spec fn last_line(tokens: Seq<Token>, n: int) -> Option<u32>
    decreases n,
{
    if n <= 0 {
        None
    } else {
        larger(last_line(tokens, n - 1), Some(tokens[n - 1].dst_line))
    }
}

/// The largest minified column of those of the first `n` tokens that stand on
/// line 0.
pub open spec fn first_line_width(tokens: Seq<Token>, n: int) -> Option<u32>
    decreases n,
{
    if n <= 0 {
        None
    } else if tokens[n - 1].dst_line == 0 {
        larger(first_line_width(tokens, n - 1), Some(tokens[n - 1].dst_col))
    } else {
        first_line_width(tokens, n - 1)
    }
}

/// How far a flat map with the contents `c` reaches.
pub open spec fn extent_of(c: MapContents) -> Extent {
    Extent {
        lines: last_line(c.tokens, c.tokens.len() as int),
        columns: first_line_width(c.tokens, c.tokens.len() as int),
        sources: count_of(c.sources.len()),
        names: count_of(c.names.len()),
    }
}

/// What becomes of the sections so far, of extent `all`, when a section at
/// `(line, column)` with a map of extent `e` joins them. Flattening adds
/// `line` to the line of every token of the section and `column` to the column
/// of those on its line 0, and it numbers the sources and names of all sections
/// together.
pub open spec fn with_section(all: Extent, e: Extent, line: u32, column: u32) -> FlattenOutcome {
    if !shift_fits(e.lines, line) || !shift_fits(e.columns, column) || all.sources + e.sources
        > u32::MAX || all.names + e.names > u32::MAX {
        FlattenOutcome::Overflow
    } else {
        FlattenOutcome::Flat(
            Extent {
                lines: larger(all.lines, shifted(e.lines, line)),
                columns: if line == 0 {
                    larger(all.columns, shifted(e.columns, column))
                } else {
                    all.columns
                },
                sources: (all.sources + e.sources) as u64,
                names: (all.names + e.names) as u64,
            },
        )
    }
}

/// What becomes of flattening a map of this shape. A flat map stays as it is.
pub open spec fn outcome(shape: MapShape) -> FlattenOutcome
    decreases shape, 0int,
{
    match shape {
        MapShape::Flat(contents) => FlattenOutcome::Flat(extent_of(contents)),
        MapShape::Index(sections) => sections_outcome(sections, sections.len() as int),
    }
}

/// What becomes of flattening the first `n` sections, one after another. The
/// first section that overflows or lacks its map decides. A section is
/// flattened itself before it joins the others.
pub open spec fn sections_outcome(sections: Seq<Section>, n: int) -> FlattenOutcome
    decreases sections, n,
{
    if n <= 0 || n > sections.len() {
        FlattenOutcome::Flat(Extent { lines: None, columns: None, sources: 0, names: 0 })
    } else {
        match sections_outcome(sections, n - 1) {
            FlattenOutcome::Flat(all) => if n - 1 >= u32::MAX {
                FlattenOutcome::Overflow
            } else {
                match sections[n - 1].map {
                    None => FlattenOutcome::Fails,
                    Some(map) => match outcome(map) {
                        FlattenOutcome::Flat(e) => with_section(
                            all,
                            e,
                            sections[n - 1].line,
                            sections[n - 1].column,
                        ),
                        other => other,
                    },
                }
            },
            other => other,
        }
    }
}

/// Once a section has decided, the further sections change nothing.
pub proof fn lemma_sections_decided(sections: Seq<Section>, k: int, n: int)
    requires
        0 <= k <= n <= sections.len(),
        !(sections_outcome(sections, k) is Flat),
    ensures
        sections_outcome(sections, n) == sections_outcome(sections, k),
    decreases n - k,
{
    if k < n {
        lemma_sections_decided(sections, k, n - 1);
    }
}

/// What decoding `bytes` as a source map and flattening the result gives.
/// There is nothing where decoding fails, where a section of an indexed map
/// lacks its map, and where flattening would leave the range of 32 bits.
pub open spec fn decoded(bytes: Seq<u8>) -> Option<MapContents> {
    match parsed(bytes) {
        None => None,
        Some(shape) => match outcome(shape) {
            FlattenOutcome::Flat(_) => flat_contents(shape),
            _ => None,
        },
    }
}

/// Calls `sourcemap::decode_slice`, which parses the JSON document `bytes` into
/// a regular, an indexed or a Hermes map. The contract names what the bytes
/// decode to: the crate decodes the same bytes to the same map every time. It
/// builds every regular and Hermes map with `SourceMap::new`, which sorts the
/// tokens by their minified line and column.
#[verifier::external_body]
fn decode_slice(bytes: &[u8]) -> (r: Result<sourcemap::DecodedMap, sourcemap::Error>)
    ensures
        match r {
            Ok(map) => parsed(bytes@) == Some(shape(map)) && (shape(map) matches MapShape::Flat(c)
                ==> tokens_sorted(c.tokens)),
            Err(_) => parsed(bytes@) is None,
        },
{
    sourcemap::decode_slice(bytes)
}

/// Calls `SourceMapIndex::flatten` on an indexed map and hands any other map
/// back as it is. Flattening fails where a section lacks its map, and only
/// there. The crate adds the offset of each section to the positions of its
/// tokens with plain 32-bit arithmetic and counts sections, sources and names
/// in 32 bits; the condition leaves out the maps on which one of these
/// overflows. It builds the flat map with `SourceMap::new`, which sorts the
/// tokens.
#[verifier::external_body]
fn flatten(map: sourcemap::DecodedMap) -> (r: Result<sourcemap::DecodedMap, sourcemap::Error>)
    requires
        !(outcome(shape(map)) is Overflow),
    ensures
        r is Err <==> outcome(shape(map)) is Fails,
        match r {
            Ok(flat) => shape(flat) is Flat && match shape(map) {
                MapShape::Flat(contents) => contents_of(flat) == contents,
                MapShape::Index(sections) => flattened(sections) == Some(contents_of(flat))
                    && tokens_sorted(contents_of(flat).tokens),
            },
            Err(_) => shape(map) matches MapShape::Index(sections) && flattened(sections) is None,
        },
{
    match map {
        sourcemap::DecodedMap::Index(index) => index.flatten().map(sourcemap::DecodedMap::Regular),
        other => Ok(other),
    }
}

/// Tells an indexed map from the other kinds.
#[verifier::external_body]
fn is_index_map(map: &sourcemap::DecodedMap) -> (index: bool)
    ensures
        index == (shape(*map) is Index),
{
    matches!(map, sourcemap::DecodedMap::Index(_))
}

/// Calls `SourceMapIndex::get_section` and `SourceMapSection::get_offset`: the
/// line and column at which section `idx` starts.
#[verifier::external_body]
fn section_offset(map: &sourcemap::DecodedMap, idx: u32) -> (offset: Option<(u32, u32)>)
    requires
        shape(*map) is Index,
    ensures
        match offset {
            Some(offset) => idx < shape(*map)->Index_0.len() && offset == (
                shape(*map)->Index_0[idx as int].line,
                shape(*map)->Index_0[idx as int].column,
            ),
            None => idx >= shape(*map)->Index_0.len(),
        },
{
    match map {
        sourcemap::DecodedMap::Index(index) => index.get_section(idx).map(|s| s.get_offset()),
        _ => None,
    }
}

/// Calls `SourceMapIndex::get_section` and `SourceMapSection::get_sourcemap`:
/// the map of section `idx`, if it is there.
#[verifier::external_body]
fn section_map(map: &sourcemap::DecodedMap, idx: u32) -> (sub: Option<&sourcemap::DecodedMap>)
    requires
        shape(*map) is Index,
        idx < shape(*map)->Index_0.len(),
    ensures
        match sub {
            Some(sub) => shape(*map)->Index_0[idx as int].map == Some(shape(*sub)),
            None => shape(*map)->Index_0[idx as int].map is None,
        },
{
    match map {
        sourcemap::DecodedMap::Index(index) => index.get_section(idx).and_then(
            |s| s.get_sourcemap(),
        ),
        _ => None,
    }
}

/// Calls `SourceMap::get_source_count`, which gives the number of sources as a
/// 32-bit number.
#[verifier::external_body]
fn source_count(map: &sourcemap::DecodedMap) -> (n: u32)
    requires
        is_flat(*map),
        contents_of(*map).sources.len() <= u32::MAX,
    ensures
        n == contents_of(*map).sources.len(),
{
    match map {
        sourcemap::DecodedMap::Regular(sm) => sm.get_source_count(),
        sourcemap::DecodedMap::Hermes(smh) => smh.get_source_count(),
        sourcemap::DecodedMap::Index(_) => 0,
    }
}

/// Calls `SourceMap::get_name_count`, which gives the number of names as a
/// 32-bit number.
#[verifier::external_body]
fn name_count(map: &sourcemap::DecodedMap) -> (n: u32)
    requires
        is_flat(*map),
        contents_of(*map).names.len() <= u32::MAX,
    ensures
        n == contents_of(*map).names.len(),
{
    match map {
        sourcemap::DecodedMap::Regular(sm) => sm.get_name_count(),
        sourcemap::DecodedMap::Hermes(smh) => smh.get_name_count(),
        sourcemap::DecodedMap::Index(_) => 0,
    }
}

/// Calls `SourceMap::get_token` and copies the fields of the token at `idx`.
/// The crate keeps the tokens in a `Vec`, so there is no token at `usize::MAX`.
#[verifier::external_body]
fn token_at(map: &sourcemap::DecodedMap, idx: usize) -> (t: Option<Token>)
    requires
        is_flat(*map),
    ensures
        t is Some ==> idx < usize::MAX,
        t == if idx < contents_of(*map).tokens.len() {
            Some(contents_of(*map).tokens[idx as int])
        } else {
            None
        },
{
    let token = match map {
        sourcemap::DecodedMap::Regular(sm) => sm.get_token(idx),
        sourcemap::DecodedMap::Hermes(smh) => smh.get_token(idx),
        sourcemap::DecodedMap::Index(_) => None,
    };
    token.map(|t| t.get_raw_token()).map(|raw| Token {
        dst_line: raw.dst_line,
        dst_col: raw.dst_col,
        src_line: raw.src_line,
        src_col: raw.src_col,
        src_id: raw.src_id,
        name_id: raw.name_id,
    })
}

/// Calls `SourceMap::get_source`: the name of the original source `idx`, with
/// the source root in front where the map has one.
#[verifier::external_body]
fn source_name(map: &sourcemap::DecodedMap, idx: u32) -> (name: Option<String>)
    requires
        is_flat(*map),
    ensures
        match name {
            Some(name) => idx < contents_of(*map).sources.len() <= u32::MAX + 1 && name@
                == contents_of(*map).sources[idx as int].0,
            None => idx >= contents_of(*map).sources.len(),
        },
{
    match map {
        sourcemap::DecodedMap::Regular(sm) => sm.get_source(idx).map(str::to_owned),
        sourcemap::DecodedMap::Hermes(smh) => smh.get_source(idx).map(str::to_owned),
        sourcemap::DecodedMap::Index(_) => None,
    }
}

/// Calls `SourceMap::get_source_contents`: the text of the original source
/// `idx`, or `None` where the map does not carry it.
#[verifier::external_body]
fn source_contents(map: &sourcemap::DecodedMap, idx: u32) -> (text: Option<String>)
    requires
        is_flat(*map),
        idx < contents_of(*map).sources.len(),
    ensures
        match text {
            Some(text) => contents_of(*map).sources[idx as int].1 == Some(text@),
            None => contents_of(*map).sources[idx as int].1 is None,
        },
{
    match map {
        sourcemap::DecodedMap::Regular(sm) => sm.get_source_contents(idx).map(str::to_owned),
        sourcemap::DecodedMap::Hermes(smh) => smh.get_source_contents(idx).map(str::to_owned),
        sourcemap::DecodedMap::Index(_) => None,
    }
}

/// Calls `SourceMap::get_name`: the original name `idx`.
#[verifier::external_body]
fn name_at(map: &sourcemap::DecodedMap, idx: u32) -> (name: Option<String>)
    requires
        is_flat(*map),
    ensures
        match name {
            Some(name) => idx < contents_of(*map).names.len() <= u32::MAX + 1 && name@
                == contents_of(*map).names[idx as int],
            None => idx >= contents_of(*map).names.len(),
        },
{
    match map {
        sourcemap::DecodedMap::Regular(sm) => sm.get_name(idx).map(str::to_owned),
        sourcemap::DecodedMap::Hermes(smh) => smh.get_name(idx).map(str::to_owned),
        sourcemap::DecodedMap::Index(_) => None,
    }
}

/// Tells a Hermes map from the other kinds.
#[verifier::external_body]
fn is_hermes(map: &sourcemap::DecodedMap) -> (hermes: bool)
    requires
        is_flat(*map),
    ensures
        hermes == contents_of(*map).hermes,
{
    matches!(map, sourcemap::DecodedMap::Hermes(_))
}

/// Calls `SourceMapHermes::get_original_function_name`: the name of the
/// function around bytecode offset `offset`. A map of another kind has none.
/// The crate looks up the token nearest to column `offset` of line 0 and adds
/// 1 to its original line, which the condition keeps in range.
#[verifier::external_body]
fn function_name(map: &sourcemap::DecodedMap, offset: u32) -> (name: Option<String>)
    requires
        is_flat(*map),
        offset_fits(contents_of(*map).tokens, offset),
    ensures
        match name {
            Some(name) => contents_of(*map).functions.contains_key(offset) && name@
                == contents_of(*map).functions[offset],
            None => !contents_of(*map).functions.contains_key(offset),
        },
{
    match map {
        sourcemap::DecodedMap::Hermes(smh) => smh.get_original_function_name(offset).map(
            str::to_owned,
        ),
        _ => None,
    }
}

/// An original source of a source map.
#[derive(Debug)]
pub struct SourceFile {
    /// The name of the file.
    pub name: String,
    /// The text of the file, empty where the map does not carry it.
    pub contents: String,
}

/// The names and texts of `sources`.
pub open spec fn sources_view(sources: Seq<SourceFile>) -> Seq<(Seq<char>, Seq<char>)> {
    Seq::new(sources.len(), |i: int| (sources[i].name@, sources[i].contents@))
}

/// The texts of `strings`.
pub open spec fn strings_view(strings: Seq<String>) -> Seq<Seq<char>> {
    Seq::new(strings.len(), |i: int| strings[i]@)
}

/// The texts of `names`, of those that are there.
pub open spec fn options_view(names: Seq<Option<String>>) -> Seq<Option<Seq<char>>> {
    Seq::new(
        names.len(),
        |i: int|
            match names[i] {
                Some(name) => Some(name@),
                None => None,
            },
    )
}

/// The mathematical value of a [`SourceMapData`].
pub struct SourceMapView {
    /// The mappings, in ascending order of their minified positions.
    pub tokens: Seq<Token>,
    /// The name and the text of each original source.
    pub sources: Seq<(Seq<char>, Seq<char>)>,
    /// The original names that tokens refer to.
    pub names: Seq<Seq<char>>,
    /// In a Hermes map, for each token the name of the function around the
    /// bytecode offset that its column is. `None` for a map of another kind.
    pub function_names: Option<Seq<Option<Seq<char>>>>,
}

impl SourceMapView {
    /// The tokens are sorted, and a Hermes map says of each token in which
    /// function it lies.
    pub open spec fn wf(self) -> bool {
        &&& tokens_sorted(self.tokens)
        &&& match self.function_names {
            Some(names) => names.len() == self.tokens.len(),
            None => true,
        }
    }
}

/// The token nearest to column `offset` of line 0, if there is one, has an
/// original line below `u32::MAX`. A token that is not mapped to a source has
/// the line `u32::MAX`.
pub open spec fn offset_fits(tokens: Seq<Token>, offset: u32) -> bool {
    match nearest_token(tokens, 0, offset) {
        Some(i) => tokens[i].src_line < u32::MAX,
        None => true,
    }
}

/// The name of the function around the bytecode offset of each of `tokens`.
/// Where the token nearest to the offset is not mapped to a line below
/// `u32::MAX`, no function is named.
pub open spec fn function_names_of(tokens: Seq<Token>, functions: Map<u32, Seq<char>>) -> Seq<
    Option<Seq<char>>,
> {
    Seq::new(
        tokens.len(),
        |i: int|
            if offset_fits(tokens, tokens[i].dst_col) && functions.contains_key(tokens[i].dst_col) {
                Some(functions[tokens[i].dst_col])
            } else {
                None
            },
    )
}

/// The text of a source: the empty text where the map carries none.
pub open spec fn text_of(text: Option<Seq<char>>) -> Seq<char> {
    match text {
        Some(text) => text,
        None => Seq::empty(),
    }
}

/// The value of the data that is read from a map with the contents `c`. A
/// source without a text is read as one with the empty text.
pub open spec fn data_view(c: MapContents) -> SourceMapView {
    SourceMapView {
        tokens: c.tokens,
        sources: Seq::new(c.sources.len(), |i: int| (c.sources[i].0, text_of(c.sources[i].1))),
        names: c.names,
        function_names: if c.hermes {
            Some(function_names_of(c.tokens, c.functions))
        } else {
            None
        },
    }
}

/// What a source map holds, in plain values.
pub struct SourceMapData {
    tokens: Vec<Token>,
    sources: Vec<SourceFile>,
    names: Vec<String>,
    function_names: Option<Vec<Option<String>>>,
}

impl View for SourceMapData {
    type V = SourceMapView;

    closed spec fn view(&self) -> SourceMapView {
        SourceMapView {
            tokens: self.tokens@,
            sources: sources_view(self.sources@),
            names: strings_view(self.names@),
            function_names: match self.function_names {
                Some(names) => Some(options_view(names@)),
                None => None,
            },
        }
    }
}

impl SourceMapData {
    #[verifier::type_invariant]
    spec fn inv(self) -> bool {
        self@.wf()
    }

    /// Puts the parts of a source map together. `function_names` is there for a
    /// Hermes map only. The result is `None` if and only if the tokens are not
    /// sorted by their minified positions, or the function names are not one
    /// for each token.
    pub fn new(
        tokens: Vec<Token>,
        sources: Vec<SourceFile>,
        names: Vec<String>,
        function_names: Option<Vec<Option<String>>>,
    ) -> (data: Option<SourceMapData>)
        ensures
            match data {
                Some(data) => data@.tokens == tokens@ && data@.sources == sources_view(sources@)
                    && data@.names == strings_view(names@) && data@.function_names == (
                match function_names {
                    Some(names) => Some(options_view(names@)),
                    None => None,
                }) && data@.wf(),
                None => !tokens_sorted(tokens@) || (function_names is Some
                    && function_names.unwrap()@.len() != tokens@.len()),
            },
    {
        if let Some(function_names) = &function_names {
            if function_names.len() != tokens.len() {
                return None;
            }
        }
        let n = tokens.len();
        let mut i: usize = 1;
        while i < n
            invariant
                n == tokens@.len(),
                1 <= i,
                forall|a: int, b: int|
                    0 <= a <= b < i && b < n ==> (#[trigger] tokens@[a]).not_after(
                        (#[trigger] tokens@[b]).dst_line,
                        tokens@[b].dst_col,
                    ),
            decreases n - i,
        {
            let prev = tokens[i - 1];
            let next = tokens[i];
            if !(prev.dst_line < next.dst_line || (prev.dst_line == next.dst_line && prev.dst_col
                <= next.dst_col)) {
                assert(!tokens@[i - 1].not_after(tokens@[i as int].dst_line, tokens@[i as int].dst_col));
                return None;
            }
            assert forall|a: int, b: int| 0 <= a <= b < i + 1 && b < n implies (
            #[trigger] tokens@[a]).not_after((#[trigger] tokens@[b]).dst_line, tokens@[b].dst_col) by {
                if b == i && a < i {
                    assert(tokens@[a].not_after(tokens@[i - 1].dst_line, tokens@[i - 1].dst_col));
                }
            }
            i += 1;
        }
        Some(SourceMapData { tokens, sources, names, function_names })
    }

    /// The mappings, which every value of this type holds in order.
    pub fn tokens(&self) -> (tokens: &Vec<Token>)
        ensures
            tokens@ == self@.tokens,
            self@.wf(),
    {
        proof {
            use_type_invariant(self);
        }
        &self.tokens
    }

    /// The original sources.
    pub fn sources(&self) -> (sources: &Vec<SourceFile>)
        ensures
            sources_view(sources@) == self@.sources,
    {
        &self.sources
    }

    /// The original names.
    pub fn names(&self) -> (names: &Vec<String>)
        ensures
            strings_view(names@) == self@.names,
    {
        &self.names
    }

    /// The function name of each token, in a Hermes map.
    pub fn function_names(&self) -> (names: &Option<Vec<Option<String>>>)
        ensures
            match names {
                Some(names) => self@.function_names == Some(options_view(names@)),
                None => self@.function_names is None,
            },
    {
        &self.function_names
    }

    /// Copies what the flat map `map` holds.
    fn read(map: &sourcemap::DecodedMap) -> (data: SourceMapData)
        requires
            is_flat(*map),
            tokens_sorted(contents_of(*map).tokens),
        ensures
            data@ == data_view(contents_of(*map)),
    {
        let ghost c = contents_of(*map);
        let mut tokens: Vec<Token> = Vec::new();
        let mut i: usize = 0;
        loop
            invariant
                is_flat(*map),
                c == contents_of(*map),
                tokens@ == c.tokens.take(i as int),
                i <= c.tokens.len(),
            ensures
                tokens@ == c.tokens,
            decreases c.tokens.len() - i,
        {
            match token_at(map, i) {
                Some(token) => {
                    tokens.push(token);
                    assert(tokens@ =~= c.tokens.take(i + 1));
                    i += 1;
                },
                None => {
                    assert(c.tokens.take(i as int) =~= c.tokens);
                    break ;
                },
            }
        }
        let mut sources: Vec<SourceFile> = Vec::new();
        let mut k: u32 = 0;
        loop
            invariant_except_break
                sources@.len() == k,
            invariant
                is_flat(*map),
                c == contents_of(*map),
                sources@.len() <= c.sources.len(),
                forall|j: int|
                    0 <= j < sources@.len() ==> (#[trigger] sources@[j]).name@ == c.sources[j].0
                        && sources@[j].contents@ == text_of(c.sources[j].1),
            ensures
                sources@.len() == c.sources.len(),
            decreases c.sources.len() - k,
        {
            match source_name(map, k) {
                Some(name) => {
                    let contents = match source_contents(map, k) {
                        Some(text) => text,
                        None => String::new(),
                    };
                    sources.push(SourceFile { name, contents });
                    if k == 0xFFFF_FFFF {
                        break ;
                    }
                    k += 1;
                },
                None => {
                    break ;
                },
            }
        }
        assert(sources_view(sources@) =~= data_view(c).sources);
        let mut names: Vec<String> = Vec::new();
        let mut k: u32 = 0;
        loop
            invariant_except_break
                names@.len() == k,
            invariant
                is_flat(*map),
                c == contents_of(*map),
                names@.len() <= c.names.len(),
                forall|j: int| 0 <= j < names@.len() ==> (#[trigger] names@[j])@ == c.names[j],
            ensures
                names@.len() == c.names.len(),
            decreases c.names.len() - k,
        {
            match name_at(map, k) {
                Some(name) => {
                    names.push(name);
                    if k == 0xFFFF_FFFF {
                        break ;
                    }
                    k += 1;
                },
                None => {
                    break ;
                },
            }
        }
        assert(strings_view(names@) =~= c.names);
        let function_names = if is_hermes(map) {
            let mut found: Vec<Option<String>> = Vec::new();
            let n = tokens.len();
            let mut i: usize = 0;
            while i < n
                invariant
                    tokens_sorted(c.tokens),
                    is_flat(*map),
                    c == contents_of(*map),
                    tokens@ == c.tokens,
                    n == tokens@.len(),
                    0 <= i <= n,
                    found@.len() == i,
                    forall|j: int|
                        0 <= j < i ==> options_view(found@)[j] == #[trigger] function_names_of(
                            c.tokens,
                            c.functions,
                        )[j],
                decreases n - i,
            {
                let ghost before = found@;
                let fits = match find_token(&tokens, 0, tokens[i].dst_col) {
                    Some(k) => tokens[k].src_line < 0xFFFF_FFFF,
                    None => true,
                };
                let name = if fits {
                    function_name(map, tokens[i].dst_col)
                } else {
                    None
                };
                found.push(name);
                assert forall|j: int| 0 <= j < i + 1 implies options_view(found@)[j]
                    == #[trigger] function_names_of(c.tokens, c.functions)[j] by {
                    if j < i {
                        assert(options_view(before)[j] == function_names_of(c.tokens, c.functions)[j]);
                        assert(found@[j] == before[j]);
                    }
                }
                i += 1;
            }
            assert(options_view(found@) =~= function_names_of(c.tokens, c.functions));
            Some(found)
        } else {
            None
        };
        SourceMapData { tokens, sources, names, function_names }
    }

    /// Decodes the source map `bytes`, a JSON document, and flattens it if it
    /// is an indexed map. Fails if and only if decoding fails, a section of an
    /// indexed map lacks its map, or flattening would leave the range of 32
    /// bits; the last is told apart as `OutOfRange`.
    pub fn decode(bytes: &[u8]) -> (r: Result<SourceMapData, DecodeError>)
        ensures
            match r {
                Ok(data) => decoded(bytes@) is Some && data@ == data_view(decoded(bytes@).unwrap())
                    && data@.wf(),
                Err(e) => decoded(bytes@) is None && (e is OutOfRange <==> (parsed(bytes@) matches Some(
                    shape,
                ) && outcome(shape) is Overflow)),
            },
    {
        let map = match decode_slice(bytes) {
            Ok(map) => map,
            Err(e) => {
                return Err(DecodeError::Decode(e));
            },
        };
        if is_index_map(&map) {
            if let FlattenOutcome::Overflow = flatten_outcome(&map) {
                return Err(DecodeError::OutOfRange);
            }
        }
        match flatten(map) {
            Ok(flat) => {
                let data = Self::read(&flat);
                proof {
                    use_type_invariant(&data);
                }
                Ok(data)
            },
            Err(e) => Err(DecodeError::Decode(e)),
        }
    }
}

/// Why a source map could not be decoded.
#[derive(Debug)]
pub enum DecodeError {
    /// The `sourcemap` crate could not decode or flatten the map.
    Decode(sourcemap::Error),
    /// Flattening the indexed map would leave the range of 32 bits.
    OutOfRange,
}

/// The larger of two numbers, of those that are there.
fn larger_of(a: Option<u32>, b: Option<u32>) -> (r: Option<u32>)
    ensures
        r == larger(a, b),
{
    match a {
        None => b,
        Some(x) => match b {
            None => a,
            Some(y) => if x >= y {
                a
            } else {
                b
            },
        },
    }
}

/// How far the flat map `map` reaches.
fn leaf_extent(map: &sourcemap::DecodedMap) -> (e: Extent)
    requires
        is_flat(*map),
    ensures
        e == extent_of(contents_of(*map)),
{
    let ghost c = contents_of(*map);
    let mut lines: Option<u32> = None;
    let mut columns: Option<u32> = None;
    let mut i: usize = 0;
    loop
        invariant_except_break
            i <= c.tokens.len(),
            lines == last_line(c.tokens, i as int),
            columns == first_line_width(c.tokens, i as int),
        invariant
            is_flat(*map),
            c == contents_of(*map),
        ensures
            lines == last_line(c.tokens, c.tokens.len() as int),
            columns == first_line_width(c.tokens, c.tokens.len() as int),
        decreases c.tokens.len() - i,
    {
        match token_at(map, i) {
            Some(token) => {
                lines = larger_of(lines, Some(token.dst_line));
                if token.dst_line == 0 {
                    columns = larger_of(columns, Some(token.dst_col));
                }
                i += 1;
            },
            None => {
                break ;
            },
        }
    }
    let sources: u64 = match source_name(map, 0xFFFF_FFFF) {
        Some(_) => 0x1_0000_0000,
        None => source_count(map) as u64,
    };
    let names: u64 = match name_at(map, 0xFFFF_FFFF) {
        Some(_) => 0x1_0000_0000,
        None => name_count(map) as u64,
    };
    Extent { lines, columns, sources, names }
}

/// What becomes of the sections so far when a further section joins them.
fn join_section(all: Extent, e: Extent, line: u32, column: u32) -> (r: FlattenOutcome)
    requires
        all.sources <= u32::MAX,
        all.names <= u32::MAX,
        e.sources <= 0x1_0000_0000,
        e.names <= 0x1_0000_0000,
    ensures
        r == with_section(all, e, line, column),
        r matches FlattenOutcome::Flat(x) ==> x.sources <= u32::MAX && x.names <= u32::MAX,
{
    let shifted_lines = match e.lines {
        Some(x) => {
            if x > 0xFFFF_FFFF - line {
                return FlattenOutcome::Overflow;
            }
            Some(x + line)
        },
        None => None,
    };
    let shifted_columns = match e.columns {
        Some(x) => {
            if x > 0xFFFF_FFFF - column {
                return FlattenOutcome::Overflow;
            }
            Some(x + column)
        },
        None => None,
    };
    if all.sources + e.sources > 0xFFFF_FFFF || all.names + e.names > 0xFFFF_FFFF {
        return FlattenOutcome::Overflow;
    }
    FlattenOutcome::Flat(
        Extent {
            lines: larger_of(all.lines, shifted_lines),
            columns: if line == 0 {
                larger_of(all.columns, shifted_columns)
            } else {
                all.columns
            },
            sources: all.sources + e.sources,
            names: all.names + e.names,
        },
    )
}

/// Tells what becomes of flattening `map`, without flattening it.
fn flatten_outcome(map: &sourcemap::DecodedMap) -> (r: FlattenOutcome)
    ensures
        r == outcome(shape(*map)),
        r matches FlattenOutcome::Flat(x) ==> x.sources <= 0x1_0000_0000 && x.names <= 0x1_0000_0000,
    decreases shape(*map),
{
    if !is_index_map(map) {
        return FlattenOutcome::Flat(leaf_extent(map));
    }
    let ghost sections = shape(*map)->Index_0;
    let mut all = Extent { lines: None, columns: None, sources: 0, names: 0 };
    let mut i: u32 = 0;
    loop
        invariant
            shape(*map) == MapShape::Index(sections),
            i <= sections.len(),
            sections_outcome(sections, i as int) == FlattenOutcome::Flat(all),
            all.sources <= u32::MAX,
            all.names <= u32::MAX,
        decreases sections.len() - i,
    {
        let (line, column) = match section_offset(map, i) {
            Some(offset) => offset,
            None => {
                return FlattenOutcome::Flat(all);
            },
        };
        if i == 0xFFFF_FFFF {
            proof {
                lemma_sections_decided(sections, i + 1, sections.len() as int);
            }
            return FlattenOutcome::Overflow;
        }
        let sub = match section_map(map, i) {
            Some(sub) => sub,
            None => {
                proof {
                    lemma_sections_decided(sections, i + 1, sections.len() as int);
                }
                return FlattenOutcome::Fails;
            },
        };
        let e = match flatten_outcome(sub) {
            FlattenOutcome::Flat(e) => e,
            other => {
                proof {
                    lemma_sections_decided(sections, i + 1, sections.len() as int);
                }
                return other;
            },
        };
        match join_section(all, e, line, column) {
            FlattenOutcome::Flat(joined) => {
                all = joined;
            },
            other => {
                proof {
                    lemma_sections_decided(sections, i + 1, sections.len() as int);
                }
                return other;
            },
        }
        i += 1;
    }
}

} // verus!
