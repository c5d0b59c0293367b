use vstd::prelude::*;

use crate::text::{chars_of, string_of};

verus! {

/// A checkbox marker `- [ ]`, `- [x]` or `- [X]` starts at `i` in `s`.
pub open spec fn marker_at(s: Seq<char>, i: int) -> bool {
    &&& 0 <= i
    &&& i + 5 <= s.len()
    &&& s[i] == '-'
    &&& s[i + 1] == ' '
    &&& s[i + 2] == '['
    &&& (s[i + 3] == ' ' || s[i + 3] == 'x' || s[i + 3] == 'X')
    &&& s[i + 4] == ']'
}

/// `s` holds a checkbox marker.
pub open spec fn has_marker(s: Seq<char>) -> bool {
    exists|i: int| marker_at(s, i)
}

/// The first checkbox marker of `s` starts at `i`.
pub open spec fn first_marker(s: Seq<char>, i: int) -> bool {
    marker_at(s, i) && forall|j: int| 0 <= j < i ==> !marker_at(s, j)
}

/// `s` with its first checkbox marker toggled: `[ ]` becomes `[X]`, `[x]`
/// and `[X]` become `[ ]`; `s` itself where it holds no marker.
pub open spec fn toggled(s: Seq<char>) -> Seq<char> {
    if has_marker(s) {
        let i = choose|i: int| first_marker(s, i);
        s.update(i + 3, if s[i + 3] == ' ' { 'X' } else { ' ' })
    } else {
        s
    }
}

/// Relies on `regex::Regex::find` with the valid pattern `- \[( |x|X)\]`: the
/// leftmost match, whose byte offset is turned into a character offset.
#[verifier::external_body]
fn find_marker(line: &str) -> (r: Option<usize>)
    ensures
        r is None <==> !has_marker(line@),
        r matches Some(i) ==> first_marker(line@, i as int),
{
    regex::Regex::new(r"- \[( |x|X)\]").unwrap().find(line).map(|m| line[..m.start()].chars().count())
}

proof fn lemma_first_marker_unique(s: Seq<char>, i: int)
    requires
        first_marker(s, i),
    ensures
        (choose|j: int| first_marker(s, j)) == i,
{
    let j = choose|j: int| first_marker(s, j);
    assert(first_marker(s, j));
    if j < i {
        assert(!marker_at(s, j));
    } else if i < j {
        assert(!marker_at(s, i));
    }
}

/// Whether `text` holds a checkbox marker `- [ ]`, `- [x]` or `- [X]`.
pub fn check_regex(text: &str) -> (r: bool)
    ensures
        r == has_marker(text@),
{
    find_marker(text).is_some()
}

/// `line` with its first checkbox marker toggled: unchecked becomes `[X]`,
/// checked (`x` or `X`) becomes `[ ]`. A line without a marker is returned
/// unchanged.
pub fn toggle_checklist(line: &str) -> (r: String)
    ensures
        r@ == toggled(line@),
{
    let mut s = chars_of(line);
    match find_marker(line) {
        None => {},
        Some(i) => {
            proof {
                lemma_first_marker_unique(line@, i as int);
            }
            let n: usize = s.len();
            assert(marker_at(s@, i as int) && i + 5 <= n);
            let c = if s[i + 3] == ' ' {
                'X'
            } else {
                ' '
            };
            s.set(i + 3, c);
        },
    }
    string_of(&s)
}

/// Toggling a line whose only checkbox marker is unchecked, and toggling the
/// result, gives the line back.
pub proof fn lemma_toggle_round_trip(s: Seq<char>, i: int)
    requires
        marker_at(s, i),
        s[i + 3] == ' ',
        forall|j: int| marker_at(s, j) ==> j == i,
    ensures
        toggled(toggled(s)) == s,
{
    assert(first_marker(s, i));
    lemma_first_marker_unique(s, i);
    let t = toggled(s);
    assert(t == s.update(i + 3, 'X'));
    assert forall|j: int| marker_at(t, j) implies j == i by {
        if j + 5 <= i + 3 || j > i + 3 {
            assert(marker_at(s, j));
        } else if j != i {
            assert(t[j] == '-');
            assert(t[j + 1] == ' ');
        }
    }
    assert(marker_at(t, i));
    assert(first_marker(t, i));
    lemma_first_marker_unique(t, i);
    assert(toggled(t) =~= s);
}

/// Toggling a line whose first checkbox marker is checked (`[x]` or `[X]`)
/// leaves that marker unchecked (`[ ]`).
pub proof fn lemma_toggle_unchecks(s: Seq<char>, i: int)
    requires
        first_marker(s, i),
        s[i + 3] != ' ',
    ensures
        toggled(s)[i + 3] == ' ',
        marker_at(toggled(s), i),
{
    lemma_first_marker_unique(s, i);
}

} // verus!
