//! Structured paths: a raw string is split into segments, each segment
//! becomes a component, and the components render back to a canonical string.
//! Navigation (`.` and `..`) is kept as written, never resolved.

pub mod host;
pub mod laws;

use crate::error::{Error, ErrorKind, ErrorKindView, ErrorView};
use crate::text::{push_quoted_list, quoted_list};
use vstd::prelude::*;

verus! {

/// One unit of a path.
#[derive(Debug, PartialEq, Default)]
pub enum PathComponent<T> {
    /// The leading separator of an absolute path.
    #[default]
    Root,
    /// A literal segment.
    Ident(T),
    /// The segment `..`.
    Parent,
    /// The segment `.`.
    Current,
}

impl<T: View> View for PathComponent<T> {
    type V = PathComponent<T::V>;

    open spec fn view(&self) -> PathComponent<T::V> {
        match *self {
            PathComponent::Root => PathComponent::Root,
            PathComponent::Ident(name) => PathComponent::Ident(name@),
            PathComponent::Parent => PathComponent::Parent,
            PathComponent::Current => PathComponent::Current,
        }
    }
}

/// The components of `v`, each by its value.
pub open spec fn component_views(v: Seq<PathComponent<String>>) -> Seq<PathComponent<Seq<char>>> {
    v.map_values(|c: PathComponent<String>| c@)
}

/// The two characters that separate the segments of a path.
pub open spec fn is_separator(c: char) -> bool {
    c == '/' || c == '\\'
}

/// The characters that no segment may hold.
pub open spec fn is_forbidden(c: char) -> bool {
    c == ':' || c == '*' || c == '?' || c == '"' || c == '<' || c == '>' || c == '|'
}

/// The segments of `s`: the stretches of characters between its separators,
/// from left to right. A string without separators is one segment; each
/// separator ends a segment and begins the next, which may be empty.
pub open spec fn segments(s: Seq<char>) -> Seq<Seq<char>>
    decreases s.len(),
{
    if s.len() == 0 {
        seq![Seq::empty()]
    } else {
        let before = segments(s.drop_last());
        if is_separator(s.last()) {
            before.push(Seq::empty())
        } else {
            before.drop_last().push(before.last().push(s.last()))
        }
    }
}

/// The component that a segment stands for.
pub open spec fn component_of(segment: Seq<char>) -> PathComponent<Seq<char>> {
    if segment == seq!['.'] {
        PathComponent::Current
    } else if segment == seq!['.', '.'] {
        PathComponent::Parent
    } else {
        PathComponent::Ident(segment)
    }
}

/// The components of the segments that are not empty, in their order.
pub open spec fn components_of(segs: Seq<Seq<char>>) -> Seq<PathComponent<Seq<char>>> {
    segs.filter(|segment: Seq<char>| segment.len() > 0).map_values(
        |segment: Seq<char>| component_of(segment),
    )
}

/// The forbidden characters of `s`, each once, in the order in which they
/// first occur.
pub open spec fn offending(s: Seq<char>) -> Seq<char>
    decreases s.len(),
{
    if s.len() == 0 {
        Seq::empty()
    } else {
        let before = offending(s.drop_last());
        if is_forbidden(s.last()) && !before.contains(s.last()) {
            before.push(s.last())
        } else {
            before
        }
    }
}

/// The mathematical value of a path.
pub struct PathView {
    pub is_absolute: bool,
    pub components: Seq<PathComponent<Seq<char>>>,
}

impl PathView {
    /// What holds of every path: an absolute path begins with `Root`, and
    /// `Root` stands nowhere but there.
    pub open spec fn well_formed(self) -> bool {
        &&& self.is_absolute ==> self.components.len() > 0 && self.components[0] is Root
        &&& forall|i: int|
            0 <= i < self.components.len() && #[trigger] self.components[i] is Root ==> i == 0
                && self.is_absolute
    }
}

/// The path that `s` denotes: absolute where the first segment of `s` is
/// empty, then one component for each segment that is not.
pub open spec fn parse_path(s: Seq<char>) -> PathView {
    let is_absolute = segments(s)[0].len() == 0;
    PathView {
        is_absolute,
        components: if is_absolute {
            seq![PathComponent::Root] + components_of(segments(s))
        } else {
            components_of(segments(s))
        },
    }
}

/// The error that a path with the forbidden characters `chars` is refused
/// with.
pub open spec fn invalid_path_error(chars: Seq<char>) -> ErrorView {
    ErrorView {
        kind: ErrorKindView::InvalidPath(chars),
        label: "The inputted path contains invalid characters"@,
        msg: Some("Invalid characters found: ["@ + quoted_list(chars) + "]"@),
        source: None,
    }
}

/// The text of one component. What follows a literal segment is a slash,
/// unless `closing` says that the path ends with it.
pub open spec fn render_component(c: PathComponent<Seq<char>>, closing: bool) -> Seq<char> {
    match c {
        PathComponent::Root => seq!['/'],
        PathComponent::Ident(name) => if closing {
            name
        } else {
            name.push('/')
        },
        PathComponent::Parent => seq!['.', '.', '/'],
        PathComponent::Current => seq!['.', '/'],
    }
}

/// The texts of the components in a row, none of them taken as the last of
/// its path.
pub open spec fn render_open(components: Seq<PathComponent<Seq<char>>>) -> Seq<char>
    decreases components.len(),
{
    if components.len() == 0 {
        Seq::empty()
    } else {
        render_open(components.drop_last()) + render_component(components.last(), false)
    }
}

/// The canonical text of a path with the given components.
pub open spec fn render(components: Seq<PathComponent<Seq<char>>>) -> Seq<char> {
    if components.len() == 0 {
        Seq::empty()
    } else {
        render_open(components.drop_last()) + render_component(components.last(), true)
    }
}

/// The strings of `names`, each by its characters.
pub open spec fn name_views(names: Seq<String>) -> Seq<Seq<char>> {
    names.map_values(|name: String| name@)
}

/// The names that are left of a path when its navigation is resolved: `.`
/// stays where it is, `..` gives up the name before it, and a `..` that has
/// no name before it stays at the top.
pub open spec fn resolved(components: Seq<PathComponent<Seq<char>>>) -> Seq<Seq<char>>
    decreases components.len(),
{
    if components.len() == 0 {
        Seq::empty()
    } else {
        let before = resolved(components.drop_last());
        match components.last() {
            PathComponent::Root => before,
            PathComponent::Current => before,
            PathComponent::Parent => if before.len() > 0 {
                before.drop_last()
            } else {
                before
            },
            PathComponent::Ident(name) => before.push(name),
        }
    }
}

/// Tells whether `c` separates two segments.
pub fn separator(c: char) -> (out: bool)
    ensures
        out == is_separator(c),
{
    c == '/' || c == '\\'
}

/// Tells whether `c` is one of the characters that no segment may hold.
pub fn forbidden(c: char) -> (out: bool)
    ensures
        out == is_forbidden(c),
{
    c == ':' || c == '*' || c == '?' || c == '"' || c == '<' || c == '>' || c == '|'
}

/// Tells whether `c` occurs in `chars`.
fn holds(chars: &Vec<char>, c: char) -> (out: bool)
    ensures
        out == chars@.contains(c),
{
    let mut i: usize = 0;
    while i < chars.len()
        invariant
            i <= chars.len(),
            forall|k: int| 0 <= k < i ==> chars@[k] != c,
        decreases chars.len() - i,
    {
        if chars[i] == c {
            return true;
        }
        i += 1;
    }
    false
}

/// Adding a segment at the end adds its component, if the segment is not
/// empty.
pub proof fn lemma_components_push(segs: Seq<Seq<char>>, segment: Seq<char>)
    ensures
        components_of(segs.push(segment)) == if segment.len() > 0 {
            components_of(segs).push(component_of(segment))
        } else {
            components_of(segs)
        },
{
    reveal(Seq::filter);
    assert(segs.push(segment).drop_last() == segs);
}

/// The component that the segment `segment` stands for.
fn component_from(segment: String) -> (out: PathComponent<String>)
    ensures
        out@ == component_of(segment@),
{
    let n = segment.as_str().unicode_len();
    if n == 1 && segment.as_str().get_char(0) == '.' {
        assert(segment@ == seq!['.']);
        PathComponent::Current
    } else if n == 2 && segment.as_str().get_char(0) == '.' && segment.as_str().get_char(1) == '.' {
        assert(segment@ == seq!['.', '.']);
        PathComponent::Parent
    } else {
        assert(segment@ != seq!['.']) by {
            if segment@ == seq!['.'] {
                assert(segment@[0] == seq!['.'][0]);
            }
        }
        assert(segment@ != seq!['.', '.']) by {
            if segment@ == seq!['.', '.'] {
                assert(segment@[0] == seq!['.', '.'][0]);
                assert(segment@[1] == seq!['.', '.'][1]);
            }
        }
        PathComponent::Ident(segment)
    }
}

/// Closes a segment: its component, if it is not empty, joins `parsed`.
fn close_segment(
    parsed: &mut Vec<PathComponent<String>>,
    segment: String,
    Ghost(done): Ghost<Seq<Seq<char>>>,
)
    requires
        component_views(old(parsed)@) == components_of(done),
    ensures
        component_views(final(parsed)@) == components_of(done.push(segment@)),
{
    proof {
        lemma_components_push(done, segment@);
    }
    if !segment.as_str().is_empty() {
        let component = component_from(segment);
        parsed.push(component);
        assert(component_views(parsed@) == component_views(old(parsed)@).push(component@));
    }
}

/// The text of the components in `components`.
pub fn format_path_components(components: &Vec<PathComponent<String>>) -> (out: String)
    ensures
        out@ == render(component_views(components@)),
{
    let ghost views = component_views(components@);
    let mut output_string = String::new();
    let mut idx: usize = 0;
    while idx < components.len()
        invariant
            idx <= components.len(),
            views == component_views(components@),
            output_string@ == if idx < components.len() {
                render_open(views.take(idx as int))
            } else {
                render(views)
            },
        decreases components.len() - idx,
    {
        let ghost before = views.take(idx as int);
        proof {
            assert(views.take(idx + 1).drop_last() == before);
            assert(views.take(idx + 1).last() == views[idx as int]);
            assert(views.take(views.len() as int) == views);
            assert(views.drop_last() == views.take(views.len() - 1));
        }
        let closing = idx == components.len() - 1;
        match &components[idx] {
            PathComponent::Root => {
                output_string.push('/');
            },
            PathComponent::Ident(i) => {
                output_string.append(i.as_str());
                if !closing {
                    output_string.push('/');
                }
            },
            PathComponent::Parent => {
                output_string.push('.');
                output_string.push('.');
                output_string.push('/');
            },
            PathComponent::Current => {
                output_string.push('.');
                output_string.push('/');
            },
        }
        assert(output_string@ == render_open(before) + render_component(views[idx as int], closing));
        idx += 1;
    }
    output_string
}

/// A path: whether it is absolute, and its components in their order. It is
/// made by parsing and never changes.
#[derive(Debug, PartialEq)]
pub struct KosmoraPathBuf {
    is_absolute: bool,
    components: Vec<PathComponent<String>>,
}

impl View for KosmoraPathBuf {
    type V = PathView;

    closed spec fn view(&self) -> PathView {
        PathView { is_absolute: self.is_absolute, components: component_views(self.components@) }
    }
}

impl Default for KosmoraPathBuf {
    fn default() -> (out: Self)
        ensures
            out@ == (PathView { is_absolute: false, components: Seq::empty() }),
    {
        let out = Self { is_absolute: false, components: Vec::new() };
        assert(out@.components =~= Seq::empty());
        out
    }
}

impl KosmoraPathBuf {
    /// What holds of every value of the type.
    #[verifier::type_invariant]
    pub open spec fn valid(self) -> bool {
        self@.well_formed()
    }

    /// The relative path without components.
    pub fn new() -> (out: Self)
        ensures
            out@ == (PathView { is_absolute: false, components: Seq::empty() }),
    {
        let out = Self { is_absolute: false, components: Vec::new() };
        assert(out@.components =~= Seq::empty());
        out
    }

    /// Whether the path is absolute.
    pub fn is_absolute(&self) -> (out: bool)
        ensures
            out == self@.is_absolute,
            self@.well_formed(),
    {
        proof {
            use_type_invariant(self);
        }
        self.is_absolute
    }

    /// The components of the path.
    pub fn components(&self) -> (out: &Vec<PathComponent<String>>)
        ensures
            component_views(out@) == self@.components,
            self@.well_formed(),
    {
        proof {
            use_type_invariant(self);
        }
        &self.components
    }

    /// A borrowed form of the path.
    pub fn as_kpath<'path>(&'path self) -> (out: KosmoraPath<'path>)
        ensures
            out@ == self@,
    {
        KosmoraPath { buf: self }
    }

    /// The canonical text of the path.
    pub fn to_string(&self) -> (out: String)
        ensures
            out@ == render(self@.components),
    {
        format_path_components(&self.components)
    }

    /// Resolves the navigation of the path: the names that lead from the top
    /// to the place that the path denotes.
    pub fn resolve(&self) -> (out: Vec<String>)
        ensures
            name_views(out@) == resolved(self@.components),
    {
        let ghost views = component_views(self.components@);
        let mut names: Vec<String> = Vec::new();
        let mut idx: usize = 0;
        assert(name_views(names@) =~= resolved(views.take(0)));
        while idx < self.components.len()
            invariant
                idx <= self.components.len(),
                views == component_views(self.components@),
                name_views(names@) == resolved(views.take(idx as int)),
            decreases self.components.len() - idx,
        {
            proof {
                assert(views.take(idx + 1).drop_last() == views.take(idx as int));
                assert(views.take(idx + 1).last() == views[idx as int]);
            }
            match &self.components[idx] {
                PathComponent::Root => {},
                PathComponent::Current => {},
                PathComponent::Parent => {
                    if names.len() > 0 {
                        names.pop();
                    }
                },
                PathComponent::Ident(name) => {
                    names.push(name.clone());
                },
            }
            assert(name_views(names@) =~= resolved(views.take(idx + 1)));
            idx += 1;
        }
        assert(views.take(idx as int) == views);
        names
    }

    /// Parses `path`. Every forbidden character in it is found before the
    /// path is refused; a path without any is split into its components.
    pub fn from_str(path: &str) -> (out: Result<Self, Error>)
        ensures
            out is Ok <==> forall|i: int| 0 <= i < path@.len() ==> !is_forbidden(#[trigger] path@[i]),
            match out {
                Ok(parsed) => offending(path@).len() == 0 && parsed@ == parse_path(path@),
                Err(e) => offending(path@).len() > 0 && e@ == invalid_path_error(
                    offending(path@),
                ),
            },
    {
        proof {
            laws::lemma_accepted_inputs(path@);
        }
        let mut parsed: Vec<PathComponent<String>> = Vec::new();
        let mut invalid_chars: Vec<char> = Vec::new();
        let mut segment = String::new();
        // Whether the first segment has been closed, and whether it was empty.
        let mut past_first = false;
        let mut first_empty = false;

        proof {
            reveal(Seq::filter);
            assert(component_views(parsed@) == components_of(segments(path@.take(0)).drop_last()));
        }
        for c in it: path.chars()
            invariant
                it.seq() == path@,
                segment@ == segments(path@.take(it.index())).last(),
                segments(path@.take(it.index())).len() >= 1,
                component_views(parsed@) == components_of(
                    segments(path@.take(it.index())).drop_last(),
                ),
                invalid_chars@ == offending(path@.take(it.index())),
                past_first == (segments(path@.take(it.index())).len() > 1),
                past_first ==> first_empty == (segments(path@.take(it.index()))[0].len() == 0),
        {
            let ghost before = path@.take(it.index());
            let ghost after = path@.take(it.index() + 1);
            proof {
                assert(after.drop_last() == before);
                assert(after.last() == c);
            }
            if separator(c) {
                if !past_first {
                    first_empty = segment.as_str().is_empty();
                    past_first = true;
                }
                close_segment(&mut parsed, segment, Ghost(segments(before).drop_last()));
                segment = String::new();
                proof {
                    assert(segments(before).drop_last().push(segments(before).last()) == segments(
                        before,
                    ));
                    assert(segments(after).drop_last() == segments(before));
                }
            } else {
                if forbidden(c) && !holds(&invalid_chars, c) {
                    invalid_chars.push(c);
                }
                segment.push(c);
                proof {
                    assert(segments(after).drop_last() == segments(before).drop_last());
                }
            }
        }
        proof {
            assert(path@.take(path@.len() as int) == path@);
            assert(segments(path@).drop_last().push(segments(path@).last()) == segments(path@));
        }
        if !past_first {
            first_empty = segment.as_str().is_empty();
        }
        close_segment(&mut parsed, segment, Ghost(segments(path@).drop_last()));

        if invalid_chars.len() > 0 {
            let mut msg = String::from_str("Invalid characters found: [");
            push_quoted_list(&mut msg, &invalid_chars);
            msg.append("]");
            let label = String::from_str("The inputted path contains invalid characters");
            return Err(Error::from_parts(ErrorKind::InvalidPath(invalid_chars), label, Some(msg), None));
        }
        let is_absolute = first_empty;
        if is_absolute {
            parsed.insert(0, PathComponent::Root);
            assert(component_views(parsed@) == seq![PathComponent::Root] + components_of(
                segments(path@),
            ));
        }
        proof {
            laws::lemma_components_hold_no_root(segments(path@));
        }
        Ok(Self { is_absolute, components: parsed })
    }
}

/// A path that is borrowed from a [`KosmoraPathBuf`].
#[derive(Debug, PartialEq)]
pub struct KosmoraPath<'path> {
    buf: &'path KosmoraPathBuf,
}

impl<'path> View for KosmoraPath<'path> {
    type V = PathView;

    closed spec fn view(&self) -> PathView {
        self.buf@
    }
}

impl<'path> std::ops::Deref for KosmoraPath<'path> {
    type Target = KosmoraPathBuf;

    fn deref(&self) -> (out: &KosmoraPathBuf)
        ensures
            out@ == self@,
    {
        self.buf
    }
}

impl<'path> KosmoraPath<'path> {
    /// The canonical text of the path.
    pub fn to_string(&self) -> (out: String)
        ensures
            out@ == render(self@.components),
    {
        self.buf.to_string()
    }
}

} // verus!
