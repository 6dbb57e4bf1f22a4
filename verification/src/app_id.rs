//! The identifier of the application, which names its development builds.

use vstd::prelude::*;

use crate::text;

verus! {

/// The end of the identifier of a development build.
pub const DEVEL: &'static str = "Devel";

/// What a development build adds to the identifier of the application.
pub const DEVEL_SUFFIX: &'static str = ".Devel";

/// Whether `s` ends with `end`.
pub open spec fn ends_with(s: Seq<char>, end: Seq<char>) -> bool {
    s.len() >= end.len() && s.skip(s.len() - end.len()) == end
}

/// `s` without the occurrences of `end` at its back.
pub open spec fn without_trailing(s: Seq<char>, end: Seq<char>) -> Seq<char>
    decreases s.len(),
{
    if end.len() > 0 && ends_with(s, end) {
        without_trailing(s.take(s.len() - end.len()), end)
    } else {
        s
    }
}

fn has_end(s: &[char], to: usize, end: &[char]) -> (r: bool)
    requires
        to <= s@.len(),
    ensures
        r == ends_with(s@.take(to as int), end@),
{
    if to < end.len() {
        return false;
    }
    let from: usize = to - end.len();
    let ghost tail = s@.take(to as int).skip(from as int);
    let mut i: usize = 0;
    while i < end.len()
        invariant
            i <= end@.len(),
            to <= s@.len(),
            from == to - end@.len(),
            tail == s@.take(to as int).skip(from as int),
            forall|k: int| 0 <= k < i ==> tail[k] == end@[k],
        decreases end@.len() - i,
    {
        assert(tail[i as int] == s@[from + i]);
        if s[from + i] != end[i] {
            return false;
        }
        i += 1;
    }
    assert(tail == end@);
    true
}

/// Whether the application is a development build.
pub fn is_devel(app_id: &str) -> (r: bool)
    ensures
        r == ends_with(app_id@, DEVEL@),
{
    let id: Vec<char> = text::chars_of(app_id);
    let end: Vec<char> = text::chars_of(DEVEL);
    assert(id@.take(id@.len() as int) == id@);
    has_end(id.as_slice(), id.len(), end.as_slice())
}

/// The identifier of the application, whatever build it is.
pub fn release_id(app_id: &str) -> (r: String)
    ensures
        r@ == without_trailing(app_id@, DEVEL_SUFFIX@),
{
    let id: Vec<char> = text::chars_of(app_id);
    let end: Vec<char> = text::chars_of(DEVEL_SUFFIX);
    proof {
        reveal_strlit(".Devel");
    }
    let mut to: usize = id.len();
    assert(id@.take(id@.len() as int) == id@);
    while has_end(id.as_slice(), to, end.as_slice())
        invariant
            to <= id@.len(),
            id@ == app_id@,
            end@ == DEVEL_SUFFIX@,
            end@.len() > 0,
            without_trailing(id@.take(to as int), end@) == without_trailing(app_id@, end@),
        decreases to,
    {
        assert(id@.take(to as int).take(to - end@.len()) == id@.take(to - end@.len()));
        to = to - end.len();
    }
    assert(id@.subrange(0, to as int) == id@.take(to as int));
    text::string_of(vstd::slice::slice_subrange(id.as_slice(), 0, to))
}

/// An identifier ends with what it is put together from last, and with
/// nothing else of that length.
pub proof fn law_ends_are_what_comes_last(head: Seq<char>, end: Seq<char>, other: Seq<char>)
    ensures
        ends_with(head + end, end),
        other.len() == end.len() && other != end ==> !ends_with(head + end, other),
        end.len() > head.len() ==> !ends_with(head, end),
{
    assert((head + end).skip(head.len() as int) == end);
}

/// The identifier of a release is the same whether a development build adds to
/// it or not, however often; it is left as it is where nothing was added.
pub proof fn law_release_is_the_same_for_every_build(id: Seq<char>, end: Seq<char>)
    requires
        end.len() > 0,
    ensures
        without_trailing(id + end, end) == without_trailing(id, end),
        !(exists|head: Seq<char>| id == #[trigger] (head + end)) ==> without_trailing(id, end) == id,
{
    assert((id + end).skip(id.len() as int) == end);
    assert((id + end).take(id.len() as int) == id);
    if ends_with(id, end) {
        let head = id.take(id.len() - end.len());
        assert(id == head + end);
    }
}

} // verus!
