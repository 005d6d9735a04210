//! Turns the name of a scope in the minified text into its original name.
//!
//! Each identifier of the name is looked up in the source map at the place
//! where it stands in the minified text. The token found there gives the
//! original name: the name that the map records for it or, without one, the
//! slice of the original source line at the token's original position that is
//! as long as the identifier. An identifier for which neither is found stays
//! as it is.

use std::ops::Range;
use vstd::prelude::*;
use vstd::string::*;
use crate::scope_name::{ComponentView, NameComponent, ScopeName};
use crate::source::{position_of, SourceContext};
use crate::source_map::{tokens_sorted, SourceMapData, SourceMapView, Token};

verus! {

/// What `SourceView::get_line_slice` of the `sourcemap` crate returns for the
/// text `source`: the part of line `line` that starts at column `col` and is
/// `span` columns long, columns counted in UTF-16 code units, or `None` where
/// the text has no such line or the line is too short.
pub uninterp spec fn line_slice_of(source: Seq<char>, line: u32, col: u32, span: u32) -> Option<
    Seq<char>,
>;

/// Calls `SourceView::get_line_slice` on a view of `source`. The crate adds
/// `col` and `span` as 32-bit numbers, which the condition keeps in range.
#[verifier::external_body]
fn line_slice(source: &str, line: u32, col: u32, span: u32) -> (slice: Option<String>)
    requires
        col + span <= u32::MAX,
    ensures
        match slice {
            Some(slice) => line_slice_of(source@, line, col, span) == Some(slice@),
            None => line_slice_of(source@, line, col, span) is None,
        },
{
    sourcemap::SourceView::new(source.into()).get_line_slice(line, col, span).map(str::to_owned)
}

/// The number of the first `n` tokens that stand before `(line, col)`.
pub open spec fn tokens_before(tokens: Seq<Token>, n: int, line: u32, col: u32) -> int
    decreases n,
{
    if n <= 0 {
        0
    } else if tokens[n - 1].before(line, col) {
        tokens_before(tokens, n - 1, line, col) + 1
    } else {
        tokens_before(tokens, n - 1, line, col)
    }
}

/// The token nearest to `(line, col)` in sorted tokens, by its index: the first
/// one at this very position, or else the last one before it.
pub open spec fn nearest_token(tokens: Seq<Token>, line: u32, col: u32) -> Option<int> {
    let k = tokens_before(tokens, tokens.len() as int, line, col);
    if k < tokens.len() && tokens[k].dst_line == line && tokens[k].dst_col == col {
        Some(k)
    } else if k > 0 {
        Some(k - 1)
    } else {
        None
    }
}

/// Where the first `k` of `n` tokens stand before a position and the others do
/// not, `k` is the number of those that do.
pub proof fn lemma_tokens_before(tokens: Seq<Token>, n: int, k: int, line: u32, col: u32)
    requires
        0 <= k <= n <= tokens.len(),
        forall|i: int| 0 <= i < k ==> (#[trigger] tokens[i]).before(line, col),
        forall|i: int| k <= i < n ==> !(#[trigger] tokens[i]).before(line, col),
    ensures
        tokens_before(tokens, n, line, col) == k,
    decreases n,
{
    if n > 0 {
        if k == n {
            lemma_tokens_before(tokens, n - 1, k - 1, line, col);
        } else {
            lemma_tokens_before(tokens, n - 1, k, line, col);
        }
    }
}

/// Finds the token nearest to `(line, col)` by binary search.
pub fn find_token(tokens: &Vec<Token>, line: u32, col: u32) -> (found: Option<usize>)
    requires
        tokens_sorted(tokens@),
    ensures
        match found {
            Some(i) => nearest_token(tokens@, line, col) == Some(i as int) && i < tokens@.len(),
            None => nearest_token(tokens@, line, col) is None,
        },
{
    let n = tokens.len();
    let mut lo: usize = 0;
    let mut hi: usize = n;
    while lo < hi
        invariant
            n == tokens@.len(),
            tokens_sorted(tokens@),
            0 <= lo <= hi <= n,
            forall|i: int| 0 <= i < lo ==> (#[trigger] tokens@[i]).before(line, col),
            forall|i: int| hi <= i < n ==> !(#[trigger] tokens@[i]).before(line, col),
        decreases hi - lo,
    {
        let mid = lo + (hi - lo) / 2;
        let t = tokens[mid];
        if t.dst_line < line || (t.dst_line == line && t.dst_col < col) {
            assert forall|i: int| 0 <= i < mid + 1 implies (#[trigger] tokens@[i]).before(
                line,
                col,
            ) by {
                assert(tokens@[i].not_after(tokens@[mid as int].dst_line, tokens@[mid as int].dst_col));
            }
            lo = mid + 1;
        } else {
            assert forall|i: int| mid <= i < n implies !(#[trigger] tokens@[i]).before(line, col) by {
                assert(tokens@[mid as int].not_after(tokens@[i].dst_line, tokens@[i].dst_col));
            }
            hi = mid;
        }
    }
    proof {
        lemma_tokens_before(tokens@, n as int, lo as int, line, col);
    }
    if lo < n && tokens[lo].dst_line == line && tokens[lo].dst_col == col {
        Some(lo)
    } else if lo > 0 {
        Some(lo - 1)
    } else {
        None
    }
}

/// The original name that the map records for token `t`.
pub open spec fn token_name(data: SourceMapView, t: Token) -> Option<Seq<char>> {
    if t.name_id != u32::MAX && t.name_id < data.names.len() {
        Some(data.names[t.name_id as int])
    } else {
        None
    }
}

/// The length of a byte range, 0 for one that ends before it starts.
pub open spec fn span_of(range: Range<u32>) -> u32 {
    if range.end >= range.start {
        (range.end - range.start) as u32
    } else {
        0
    }
}

/// The slice of the original source at the position that token `t` comes
/// from, `span` columns long, if the map carries the source and the slice is
/// there and not empty.
pub open spec fn excerpt(data: SourceMapView, t: Token, span: u32) -> Option<Seq<char>> {
    if t.src_id != u32::MAX && t.src_id < data.sources.len() && t.src_col + span <= u32::MAX {
        match line_slice_of(data.sources[t.src_id as int].1, t.src_line, t.src_col, span) {
            Some(slice) => if slice.len() > 0 {
                Some(slice)
            } else {
                None
            },
            None => None,
        }
    } else {
        None
    }
}

/// The original name that token `t` gives to an identifier that is `span`
/// bytes long.
pub open spec fn original_name(data: SourceMapView, t: Token, span: u32) -> Option<Seq<char>> {
    match token_name(data, t) {
        Some(name) => Some(name),
        None => excerpt(data, t, span),
    }
}

/// The text of a component of a name once it is resolved: for an identifier,
/// the original name that the nearest token at its start gives; its own text
/// where nothing is found, and for every other component.
pub open spec fn resolved_text(text: Seq<u8>, data: SourceMapView, c: ComponentView) -> Seq<char> {
    match c.range() {
        None => c.text(),
        Some(range) => match position_of(text, range.start as int) {
            None => c.text(),
            Some(pos) => match nearest_token(data.tokens, pos.line, pos.column) {
                None => c.text(),
                Some(i) => match original_name(data, data.tokens[i], span_of(range)) {
                    Some(name) => name,
                    None => c.text(),
                },
            },
        },
    }
}

/// The resolved name: the resolved texts of the components, one after another.
pub open spec fn resolved_name(text: Seq<u8>, data: SourceMapView, name: Seq<ComponentView>) -> Seq<
    char,
>
    decreases name.len(),
{
    if name.len() == 0 {
        Seq::empty()
    } else {
        resolved_name(text, data, name.drop_last()) + resolved_text(text, data, name.last())
    }
}

/// Resolves the names of scopes in a minified text with the help of its source map.
pub struct NameResolver<'a> {
    ctx: &'a SourceContext<'a>,
    data: &'a SourceMapData,
}

impl<'a> NameResolver<'a> {
    /// The minified text that the names are in.
    pub closed spec fn text(&self) -> Seq<u8> {
        self.ctx.text()
    }

    /// The source map that the names are resolved with.
    pub closed spec fn data(&self) -> SourceMapView {
        self.data@
    }

    /// A resolver for the text of `ctx` and its source map `data`.
    pub fn new(ctx: &'a SourceContext<'a>, data: &'a SourceMapData) -> (resolver: NameResolver<'a>)
        ensures
            resolver.text() == ctx.text(),
            resolver.data() == data@,
    {
        NameResolver { ctx, data }
    }

    /// The original name that the token at index `i` gives to an identifier
    /// with the byte range `range`.
    fn original_name(&self, i: usize, range: &Range<u32>) -> (name: Option<String>)
        requires
            i < self.data().tokens.len(),
        ensures
            match name {
                Some(name) => original_name(
                    self.data(),
                    self.data().tokens[i as int],
                    span_of(*range),
                ) == Some(name@),
                None => original_name(self.data(), self.data().tokens[i as int], span_of(*range))
                    is None,
            },
    {
        let t = self.data.tokens()[i];
        let names = self.data.names();
        if t.name_id != 0xFFFF_FFFF && (t.name_id as usize) < names.len() {
            assert(crate::source_map::strings_view(names@)[t.name_id as int] == names@[t.name_id as int]@);
            return Some(names[t.name_id as usize].clone());
        }
        let span = if range.end >= range.start {
            range.end - range.start
        } else {
            0
        };
        let sources = self.data.sources();
        if t.src_id != 0xFFFF_FFFF && (t.src_id as usize) < sources.len() && span <= 0xFFFF_FFFF
            - t.src_col {
            assert(crate::source_map::sources_view(sources@)[t.src_id as int].1
                == sources@[t.src_id as int].contents@);
            match line_slice(sources[t.src_id as usize].contents.as_str(), t.src_line, t.src_col, span) {
                Some(slice) => {
                    if slice.as_str().is_empty() {
                        None
                    } else {
                        Some(slice)
                    }
                },
                None => None,
            }
        } else {
            None
        }
    }

    /// The text of component `c` once it is resolved.
    fn resolve_component(&self, c: &NameComponent) -> (text: String)
        ensures
            text@ == resolved_text(self.text(), self.data(), c@),
    {
        if let Some(range) = c.range() {
            if let Some(pos) = self.ctx.offset_to_position(range.start) {
                if let Some(i) = find_token(self.data.tokens(), pos.line, pos.column) {
                    if let Some(name) = self.original_name(i, &range) {
                        return name;
                    }
                }
            }
        }
        c.text().to_owned()
    }

    /// The original name of the scope named `name`: each of its components
    /// resolved, one after another.
    pub fn resolve_name(&self, name: &ScopeName) -> (resolved: String)
        ensures
            resolved@ == resolved_name(self.text(), self.data(), name@),
    {
        let mut resolved = String::new();
        let components = name.components();
        let n = components.len();
        let mut i: usize = 0;
        while i < n
            invariant
                *components == name.components,
                n == components@.len(),
                0 <= i <= n,
                resolved@ == resolved_name(self.text(), self.data(), name@.take(i as int)),
            decreases n - i,
        {
            let piece = self.resolve_component(&components[i]);
            resolved.append(piece.as_str());
            assert(name@.take(i + 1).drop_last() =~= name@.take(i as int));
            i += 1;
        }
        assert(name@.take(n as int) =~= name@);
        resolved
    }
}

} // verus!
