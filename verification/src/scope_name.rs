//! The name of a scope, put together from the pieces of syntax around it.

use std::collections::VecDeque;
use std::ops::Range;
use vstd::prelude::*;
use vstd::string::*;
use crate::ast::Ident;

verus! {

/// A punctuation token of the source text.
#[derive(Clone, Copy, Debug, PartialEq, Eq, Structural)]
pub struct SyntaxToken;

/// What a [`NameComponent`] stands for.
#[derive(Debug)]
pub enum NameComponentInner {
    /// Text that is not in the source, such as `.` or `new `.
    Interpolation(&'static str),
    /// An identifier of the source text.
    SourceIdentifierToken(Ident),
    /// A punctuation token of the source text. It has no text and no range.
    SourcePunctuationToken(SyntaxToken),
}

/// The mathematical value of a [`NameComponent`].
pub enum ComponentView {
    Interpolation(Seq<char>),
    Identifier { sym: Seq<char>, lo: u32, hi: u32 },
    Punctuation,
}

impl ComponentView {
    /// The text that the component contributes to a name.
    pub open spec fn text(self) -> Seq<char> {
        match self {
            ComponentView::Interpolation(s) => s,
            ComponentView::Identifier { sym, .. } => sym,
            ComponentView::Punctuation => Seq::empty(),
        }
    }

    /// The byte range of the component in the source text, if it has one.
    pub open spec fn range(self) -> Option<Range<u32>> {
        match self {
            ComponentView::Identifier { lo, hi, .. } => Some(Range { start: lo, end: hi }),
            _ => None,
        }
    }

    /// The component that stands for the identifier `ident`.
    pub open spec fn of_ident(ident: Ident) -> ComponentView {
        ComponentView::Identifier { sym: ident.sym@, lo: ident.lo, hi: ident.hi }
    }
}

/// The text of a name: the texts of its components, one after another.
pub open spec fn rendered(components: Seq<ComponentView>) -> Seq<char>
    decreases components.len(),
{
    if components.len() == 0 {
        Seq::empty()
    } else {
        rendered(components.drop_last()) + components.last().text()
    }
}

/// An individual component of a [`ScopeName`].
#[derive(Debug)]
pub struct NameComponent {
    pub inner: NameComponentInner,
}

impl View for NameComponent {
    type V = ComponentView;

    open spec fn view(&self) -> ComponentView {
        match self.inner {
            NameComponentInner::Interpolation(s) => ComponentView::Interpolation(s@),
            NameComponentInner::SourceIdentifierToken(ident) => ComponentView::of_ident(ident),
            NameComponentInner::SourcePunctuationToken(_) => ComponentView::Punctuation,
        }
    }
}

impl NameComponent {
    /// The source text of this component.
    pub fn text(&self) -> (text: &str)
        ensures
            text@ == self@.text(),
    {
        proof {
            reveal_strlit("");
        }
        match &self.inner {
            NameComponentInner::Interpolation(s) => s,
            NameComponentInner::SourceIdentifierToken(t) => t.sym.as_str(),
            NameComponentInner::SourcePunctuationToken(_) => "",
        }
    }

    /// The range of this component inside of the source text.
    ///
    /// This is `None` for synthetic components, which do not correspond to a
    /// token of the source text.
    pub fn range(&self) -> (range: Option<Range<u32>>)
        ensures
            range == self@.range(),
    {
        match &self.inner {
            NameComponentInner::SourceIdentifierToken(t) => Some(t.lo..t.hi),
            NameComponentInner::SourcePunctuationToken(_) => None,
            _ => None,
        }
    }

    /// A component of text that is not in the source.
    pub fn interp(s: &'static str) -> (c: NameComponent)
        ensures
            c@ == ComponentView::Interpolation(s@),
    {
        NameComponent { inner: NameComponentInner::Interpolation(s) }
    }

    /// A component for an identifier of the source.
    pub fn ident(ident: Ident) -> (c: NameComponent)
        ensures
            c@ == ComponentView::of_ident(ident),
    {
        NameComponent { inner: NameComponentInner::SourceIdentifierToken(ident) }
    }

    /// A component for a punctuation token of the source.
    pub fn punct(token: SyntaxToken) -> (c: NameComponent)
        ensures
            c@ == ComponentView::Punctuation,
    {
        NameComponent { inner: NameComponentInner::SourcePunctuationToken(token) }
    }
}

/// An abstract scope name which can consist of multiple [`NameComponent`]s.
#[derive(Debug)]
pub struct ScopeName {
    pub components: VecDeque<NameComponent>,
}

impl View for ScopeName {
    type V = Seq<ComponentView>;

    open spec fn view(&self) -> Seq<ComponentView> {
        Seq::new(self.components@.len(), |i: int| self.components@[i]@)
    }
}

impl ScopeName {
    /// The name without components.
    pub fn new() -> (name: ScopeName)
        ensures
            name@ == Seq::<ComponentView>::empty(),
    {
        let name = ScopeName { components: VecDeque::new() };
        assert(name@ =~= Seq::<ComponentView>::empty());
        name
    }

    /// The individual components of this scope name, first to last.
    pub fn components(&self) -> (components: &VecDeque<NameComponent>)
        ensures
            *components == self.components,
    {
        &self.components
    }

    /// Puts `component` in front of the name.
    pub fn push_front(&mut self, component: NameComponent)
        ensures
            final(self)@ == seq![component@] + old(self)@,
    {
        self.components.push_front(component);
        assert(self@ =~= seq![component@] + old(self)@);
    }

    /// Puts `component` behind the name.
    pub fn push_back(&mut self, component: NameComponent)
        ensures
            final(self)@ == old(self)@.push(component@),
    {
        self.components.push_back(component);
        assert(self@ =~= old(self)@.push(component@));
    }

    /// Puts all of `front` before the name.
    pub fn prepend(&mut self, front: ScopeName)
        ensures
            final(self)@ == front@ + old(self)@,
    {
        let mut front = front;
        let ghost head = front@;
        front.components.append(&mut self.components);
        self.components = front.components;
        assert(self@ =~= head + old(self)@);
    }

    /// The name as text: the texts of its components, in order.
    pub fn to_string(&self) -> (text: String)
        ensures
            text@ == rendered(self@),
    {
        let mut text = String::new();
        let n = self.components.len();
        let mut i: usize = 0;
        while i < n
            invariant
                n == self.components@.len(),
                0 <= i <= n,
                text@ == rendered(self@.take(i as int)),
            decreases n - i,
        {
            let piece = self.components[i].text();
            text.append(piece);
            assert(self@.take(i + 1).drop_last() =~= self@.take(i as int));
            i += 1;
        }
        assert(self@.take(n as int) =~= self@);
        text
    }
}

} // verus!
