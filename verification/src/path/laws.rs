//! What holds of parsing and rendering.

use crate::path::{
    component_of, components_of, is_forbidden, is_separator, lemma_components_push, offending,
    parse_path, render, render_component, render_open, segments, PathComponent,
};
use vstd::prelude::*;

verus! {

/// No segment stands for `Root`: the components of segments hold none.
pub proof fn lemma_components_hold_no_root(segs: Seq<Seq<char>>)
    ensures
        forall|i: int|
            0 <= i < components_of(segs).len() ==> !(#[trigger] components_of(segs)[i] is Root),
{
}

/// Every string has at least one segment.
pub proof fn lemma_segments_exist(s: Seq<char>)
    ensures
        segments(s).len() >= 1,
    decreases s.len(),
{
    if s.len() > 0 {
        lemma_segments_exist(s.drop_last());
    }
}

/// A string with a single segment is that segment.
pub proof fn lemma_single_segment(s: Seq<char>)
    requires
        segments(s).len() == 1,
    ensures
        segments(s)[0] == s,
    decreases s.len(),
{
    if s.len() == 0 {
        assert(segments(s)[0] =~= s);
    } else {
        lemma_segments_exist(s.drop_last());
        if !is_separator(s.last()) {
            lemma_single_segment(s.drop_last());
            assert(segments(s)[0] =~= s);
        }
    }
}

/// The first segment of a string is empty exactly where the string is empty
/// or begins with a separator.
pub proof fn lemma_first_segment(s: Seq<char>)
    ensures
        segments(s).len() >= 1,
        segments(s)[0].len() == 0 <==> (s.len() == 0 || is_separator(s[0])),
    decreases s.len(),
{
    lemma_segments_exist(s);
    if s.len() > 0 {
        let t = s.drop_last();
        lemma_first_segment(t);
        if t.len() > 0 {
            assert(s[0] == t[0]);
        }
        if !is_separator(s.last()) && segments(t).len() == 1 {
            lemma_single_segment(t);
        }
    }
}

/// The data-model invariant holds of every parsed path: `Root` stands first
/// in an absolute path and nowhere else in any path.
pub proof fn lemma_parse_well_formed(s: Seq<char>)
    ensures
        parse_path(s).well_formed(),
{
    lemma_components_hold_no_root(segments(s));
}

/// Absolute invariant: a string that begins with a separator denotes an
/// absolute path, whose first component is `Root` and which holds `Root`
/// nowhere else.
pub proof fn lemma_absolute_invariant(s: Seq<char>)
    requires
        s.len() > 0,
        is_separator(s[0]),
    ensures
        parse_path(s).is_absolute,
        parse_path(s).components.len() > 0,
        parse_path(s).components[0] == PathComponent::<Seq<char>>::Root,
        forall|i: int|
            1 <= i < parse_path(s).components.len() ==> !(#[trigger] parse_path(s).components[i] is Root),
{
    lemma_first_segment(s);
    lemma_components_hold_no_root(segments(s));
}

/// A path is absolute exactly where its string is empty or begins with a
/// separator.
pub proof fn lemma_absolute_inputs(s: Seq<char>)
    ensures
        parse_path(s).is_absolute <==> (s.len() == 0 || is_separator(s[0])),
{
    lemma_first_segment(s);
}

/// Validation is exhaustive: the characters that a refused path is reported
/// with are the forbidden characters that occur in it, all of them, and each
/// of them once.
pub proof fn lemma_offending_exhaustive(s: Seq<char>)
    ensures
        offending(s).no_duplicates(),
        forall|c: char| #[trigger] offending(s).contains(c) <==> (s.contains(c) && is_forbidden(c)),
    decreases s.len(),
{
    if s.len() > 0 {
        let t = s.drop_last();
        let last = s.last();
        lemma_offending_exhaustive(t);
        assert forall|c: char| #[trigger] offending(s).contains(c) <==> (s.contains(c) && is_forbidden(c)) by {
            if s.contains(c) {
                let i = choose|i: int| 0 <= i < s.len() && s[i] == c;
                if i < t.len() {
                    assert(t[i] == c);
                    assert(t.contains(c));
                }
            }
            if t.contains(c) {
                let i = choose|i: int| 0 <= i < t.len() && t[i] == c;
                assert(s[i] == c);
            }
            if offending(t).contains(c) {
                let i = choose|i: int| 0 <= i < offending(t).len() && offending(t)[i] == c;
                if is_forbidden(last) && !offending(t).contains(last) {
                    assert(offending(s)[i] == c);
                }
            }
            if c == last {
                assert(s[s.len() - 1] == c);
                if is_forbidden(last) && !offending(t).contains(last) {
                    assert(offending(s)[offending(s).len() - 1] == c);
                }
            }
        }
    }
}

/// A path is accepted exactly where none of its characters is forbidden.
pub proof fn lemma_accepted_inputs(s: Seq<char>)
    ensures
        offending(s).len() == 0 <==> (forall|i: int| 0 <= i < s.len() ==> !is_forbidden(#[trigger] s[i])),
{
    lemma_offending_exhaustive(s);
    if offending(s).len() == 0 {
        assert forall|i: int| 0 <= i < s.len() implies !is_forbidden(#[trigger] s[i]) by {
            if is_forbidden(s[i]) {
                assert(s.contains(s[i]));
                assert(offending(s).contains(s[i]));
            }
        }
    } else {
        let c = offending(s)[0];
        assert(offending(s).contains(c));
        let i = choose|i: int| 0 <= i < s.len() && s[i] == c;
        assert(is_forbidden(s[i]));
    }
}

/// Rendering a row of components, none of them the last of its path, goes
/// component by component.
pub proof fn lemma_render_open_concat(
    a: Seq<PathComponent<Seq<char>>>,
    b: Seq<PathComponent<Seq<char>>>,
)
    ensures
        render_open(a + b) == render_open(a) + render_open(b),
    decreases b.len(),
{
    if b.len() == 0 {
        assert(a + b == a);
    } else {
        lemma_render_open_concat(a, b.drop_last());
        assert((a + b).drop_last() == a + b.drop_last());
    }
}

/// A segment that is not empty and not the last of its path renders as
/// itself and a slash.
pub proof fn lemma_render_segment(segment: Seq<char>)
    requires
        segment.len() > 0,
    ensures
        render_component(component_of(segment), false) == segment.push('/'),
{
    if segment == seq!['.'] {
        assert(seq!['.', '/'] =~= seq!['.'].push('/'));
    } else if segment == seq!['.', '.'] {
        assert(seq!['.', '.', '/'] =~= seq!['.', '.'].push('/'));
    }
}

/// The text in which the closed segments `done` of a path stand: a slash
/// for an empty first segment, then each segment that is not empty with the
/// slash that closes it.
pub open spec fn closed_text(done: Seq<Seq<char>>) -> Seq<char> {
    (if done.len() > 0 && done[0].len() == 0 {
        seq!['/']
    } else {
        Seq::empty()
    }) + render_open(components_of(done))
}

/// A string written with `/` alone, in which no segment between the first
/// and the last is empty, is the text of its closed segments followed by
/// its last segment.
pub proof fn lemma_closed_text(s: Seq<char>)
    requires
        forall|i: int| 0 <= i < s.len() ==> s[i] != '\\',
        forall|k: int| 1 <= k < segments(s).len() - 1 ==> (#[trigger] segments(s)[k]).len() > 0,
    ensures
        closed_text(segments(s).drop_last()) + segments(s).last() == s,
    decreases s.len(),
{
    reveal(Seq::filter);
    if s.len() == 0 {
        assert(closed_text(segments(s).drop_last()) + segments(s).last() =~= s);
    } else {
        let t = s.drop_last();
        let c = s.last();
        let done = segments(t).drop_last();
        let open = segments(t).last();
        lemma_segments_exist(t);
        assert(done.push(open) == segments(t));
        assert forall|i: int| 0 <= i < t.len() implies t[i] != '\\' by {
            assert(t[i] == s[i]);
        }
        if is_separator(c) {
            assert(c == '/') by {
                assert(s[s.len() - 1] == c);
            }
            assert(segments(s).drop_last() == segments(t));
            assert forall|k: int| 1 <= k < segments(t).len() - 1 implies (#[trigger] segments(
                t,
            )[k]).len() > 0 by {
                assert(segments(s)[k] == segments(t)[k]);
            }
            lemma_closed_text(t);
            lemma_components_push(done, open);
            if done.len() == 0 {
                if open.len() > 0 {
                    lemma_render_segment(open);
                    assert(components_of(done) =~= Seq::empty());
                    assert(components_of(segments(t)).drop_last() =~= Seq::empty());
                }
            } else {
                assert(open.len() > 0) by {
                    assert(segments(s)[segments(t).len() - 1] == open);
                }
                lemma_render_segment(open);
                assert(components_of(segments(t)).drop_last() == components_of(done));
                assert(segments(t)[0] == done[0]);
            }
            assert(closed_text(segments(t)) =~= t.push('/'));
            assert(closed_text(segments(s).drop_last()) + segments(s).last() =~= s);
        } else {
            assert(segments(s).drop_last() == done);
            assert forall|k: int| 1 <= k < segments(t).len() - 1 implies (#[trigger] segments(
                t,
            )[k]).len() > 0 by {
                assert(segments(s)[k] == segments(t)[k]);
            }
            lemma_closed_text(t);
            assert(closed_text(done) + open.push(c) =~= (closed_text(done) + open).push(c));
            assert(t.push(c) =~= s);
        }
    }
}

/// Round trip: a string that is written with `/` alone, whose segments are
/// none of them empty but perhaps the first, and whose last segment is a
/// literal one, is the text of the path that it denotes. Navigation is not
/// resolved on the way.
pub proof fn lemma_round_trip(s: Seq<char>)
    requires
        s.len() > 0,
        forall|i: int| 0 <= i < s.len() ==> s[i] != '\\',
        forall|k: int| 1 <= k < segments(s).len() ==> (#[trigger] segments(s)[k]).len() > 0,
        component_of(segments(s).last()) is Ident,
    ensures
        render(parse_path(s).components) == s,
{
    let segs = segments(s);
    let done = segs.drop_last();
    let last = segs.last();
    lemma_segments_exist(s);
    lemma_closed_text(s);
    assert(done.push(last) == segs);
    lemma_components_push(done, last);
    if segs.len() == 1 {
        lemma_single_segment(s);
    }
    assert(last.len() > 0);
    let named = components_of(done);
    assert(components_of(segs).drop_last() == named);
    if segs[0].len() == 0 {
        let lead = seq![PathComponent::<Seq<char>>::Root];
        assert(parse_path(s).components == lead + components_of(segs));
        assert((lead + components_of(segs)).drop_last() == lead + named);
        lemma_render_open_concat(lead, named);
        assert(lead.drop_last() =~= Seq::empty());
        assert(render_open(lead.drop_last()) =~= Seq::empty());
        assert(render_open(lead) =~= seq!['/']);
        assert(done[0] == segs[0]);
    } else {
        if done.len() > 0 {
            assert(done[0] == segs[0]);
        }
        assert(closed_text(done) =~= render_open(named));
    }
}

} // verus!
