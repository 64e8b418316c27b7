//! Dotted paths: `"menu.file.open"` addresses a node three levels down.
//!
//! A key string splits on `.` into segments; there is no escape for a
//! literal dot inside a segment name, and empty segments are kept as
//! empty strings.

use vstd::prelude::*;

verus! {

/// How many characters stand before the first `.` of `s`; the whole
/// length when `s` has no dot.
pub open spec fn first_dot(s: Seq<char>) -> int
    decreases s.len(),
{
    if s.len() == 0 {
        0
    } else if s[0] == '.' {
        0
    } else {
        1 + first_dot(s.skip(1))
    }
}

/// `first_dot` names the first dot: nothing before it is a dot, and it
/// is a dot unless the string has none.
pub proof fn lemma_first_dot(s: Seq<char>)
    ensures
        0 <= first_dot(s) <= s.len(),
        forall|j: int| 0 <= j < first_dot(s) ==> s[j] != '.',
        first_dot(s) < s.len() ==> s[first_dot(s)] == '.',
    decreases s.len(),
{
    if s.len() == 0 {
    } else if s[0] == '.' {
    } else {
        lemma_first_dot(s.skip(1));
        assert forall|j: int| 0 <= j < first_dot(s) implies s[j] != '.' by {
            if j > 0 {
                assert(s.skip(1)[j - 1] == s[j]);
            }
        }
        if first_dot(s) < s.len() {
            assert(s.skip(1)[first_dot(s) - 1] == s[first_dot(s)]);
        }
    }
}

/// The segments of `s`: the text before the first dot, then the
/// segments of the text after it.  A string without a dot is one
/// segment, so the result is never empty.
pub open spec fn split_path(s: Seq<char>) -> Seq<Seq<char>>
    decreases s.len(),
    via split_path_decreases
{
    let d = first_dot(s);
    if d == s.len() {
        seq![s]
    } else {
        seq![s.take(d)] + split_path(s.skip(d + 1))
    }
}

#[via_fn]
proof fn split_path_decreases(s: Seq<char>) {
    lemma_first_dot(s);
}

/// A split yields at least one segment.
pub proof fn lemma_split_path_len(s: Seq<char>)
    ensures
        split_path(s).len() >= 1,
    decreases s.len(),
{
    lemma_first_dot(s);
    let d = first_dot(s);
    if d != s.len() {
        lemma_split_path_len(s.skip(d + 1));
    }
}

/// The sequences of characters that a list of segment strings stands for.
pub open spec fn path_view(p: Seq<String>) -> Seq<Seq<char>> {
    p.map_values(|t: String| t@)
}

/// Splits a dotted key into its segments.
pub fn split_key(key: &str) -> (segments: Vec<String>)
    ensures
        path_view(segments@) == split_path(key@),
        segments@.len() >= 1,
{
    let n = key.unicode_len();
    let mut segments: Vec<String> = Vec::new();
    let mut start: usize = 0;
    let mut i: usize = 0;
    proof {
        assert(path_view(segments@) =~= Seq::<Seq<char>>::empty());
        assert(key@.skip(0) =~= key@);
        assert(path_view(segments@) + split_path(key@.skip(0)) =~= split_path(key@));
    }
    while i < n
        invariant
            n == key@.len(),
            start <= i <= n,
            forall|j: int| start <= j < i ==> key@[j] != '.',
            path_view(segments@) + split_path(key@.skip(start as int)) == split_path(key@),
        decreases n - i,
    {
        if key.get_char(i) == '.' {
            let seg = key.substring_char(start, i).to_owned();
            proof {
                let t = key@.skip(start as int);
                lemma_first_dot(t);
                let d = first_dot(t);
                assert forall|j: int| start <= j < i implies #[trigger] t[j - start] != '.' by {
                    assert(t[j - start] == key@[j]);
                }
                if d < i - start {
                    assert(t[d] == key@[start + d]);
                    assert(false);
                }
                if d > i - start {
                    assert(t[i - start] == key@[i as int]);
                    assert(false);
                }
                assert(d == i - start);
                assert(t.take(d) =~= key@.subrange(start as int, i as int));
                assert(t.skip(d + 1) =~= key@.skip(i + 1));
                assert(path_view(segments@.push(seg)) =~= path_view(segments@) + seq![seg@]);
                assert(path_view(segments@) + (seq![t.take(d)] + split_path(t.skip(d + 1)))
                    == (path_view(segments@) + seq![t.take(d)]) + split_path(t.skip(d + 1)));
            }
            segments.push(seg);
            start = i + 1;
        }
        i = i + 1;
    }
    let last = key.substring_char(start, n).to_owned();
    proof {
        let t = key@.skip(start as int);
        lemma_first_dot(t);
        let d = first_dot(t);
        assert forall|j: int| start <= j < n implies #[trigger] t[j - start] != '.' by {
            assert(t[j - start] == key@[j]);
        }
        if d < n - start {
            assert(t[d] == key@[start + d]);
            assert(false);
        }
        assert(d == t.len());
        assert(t =~= key@.subrange(start as int, n as int));
        assert(path_view(segments@.push(last)) =~= path_view(segments@) + seq![last@]);
        assert(seq![last@] =~= split_path(t));
    }
    segments.push(last);
    proof {
        lemma_split_path_len(key@);
    }
    segments
}

} // verus!
