//! The formatter: substitutes `{name}` placeholders in one pass.
//!
//! A placeholder is an open brace, one or more identifier characters
//! (ASCII letters, digits or `_`), and a close brace.  Each placeholder
//! whose name is bound in the argument mapping is replaced by its value;
//! every other character, and every placeholder with no binding, passes
//! through verbatim.  The template is scanned once, left to right, so a
//! substituted value is never re-scanned for further placeholders.

use vstd::prelude::*;

use crate::errors::I18nError;

verus! {

/// The characters a placeholder name may contain.
pub open spec fn is_ident_char(c: char) -> bool {
    ('a' <= c && c <= 'z') || ('A' <= c && c <= 'Z') || ('0' <= c && c <= '9') || c == '_'
}

/// Exec test for [`is_ident_char`].
fn ident_char(c: char) -> (b: bool)
    ensures
        b == is_ident_char(c),
{
    ('a' <= c && c <= 'z') || ('A' <= c && c <= 'Z') || ('0' <= c && c <= '9') || c == '_'
}

/// How many identifier characters stand at the front of `s`.
pub open spec fn ident_run(s: Seq<char>) -> int
    decreases s.len(),
{
    if s.len() == 0 {
        0
    } else if is_ident_char(s[0]) {
        1 + ident_run(s.skip(1))
    } else {
        0
    }
}

/// `ident_run` counts a maximal run: everything before it is an
/// identifier character and the character after it, if any, is not.
pub proof fn lemma_ident_run(s: Seq<char>)
    ensures
        0 <= ident_run(s) <= s.len(),
        forall|j: int| 0 <= j < ident_run(s) ==> is_ident_char(s[j]),
        ident_run(s) < s.len() ==> !is_ident_char(s[ident_run(s)]),
    decreases s.len(),
{
    if s.len() == 0 {
    } else if is_ident_char(s[0]) {
        lemma_ident_run(s.skip(1));
        assert forall|j: int| 0 <= j < ident_run(s) implies is_ident_char(s[j]) by {
            if j > 0 {
                assert(s.skip(1)[j - 1] == s[j]);
            }
        }
        if ident_run(s) < s.len() {
            assert(s.skip(1)[ident_run(s) - 1] == s[ident_run(s)]);
        }
    } else {
    }
}

/// `ident_run` is pinned by its characterization: `m` identifier
/// characters followed by the end or a non-identifier character.
pub proof fn lemma_ident_run_is(s: Seq<char>, m: int)
    requires
        0 <= m <= s.len(),
        forall|j: int| 0 <= j < m ==> is_ident_char(s[j]),
        m < s.len() ==> !is_ident_char(s[m]),
    ensures
        ident_run(s) == m,
{
    lemma_ident_run(s);
    if ident_run(s) < m {
        assert(is_ident_char(s[ident_run(s)]));
        assert(false);
    }
    if ident_run(s) > m {
        assert(is_ident_char(s[m]));
        assert(false);
    }
}

/// Whether some argument of `s` is named `k`.
pub open spec fn args_has_key(s: Seq<(String, String)>, k: Seq<char>) -> bool {
    exists|i: int| #![trigger s[i]] 0 <= i < s.len() && s[i].0@ == k
}

/// No two arguments of `s` share a name.
pub open spec fn args_unique(s: Seq<(String, String)>) -> bool {
    forall|i: int, j: int| #![trigger s[i], s[j]] 0 <= i < j < s.len() ==> s[i].0@ != s[j].0@
}

/// An index of an argument of `s` named `k`; meaningful only when
/// `args_has_key(s, k)` holds.
pub open spec fn args_index_of(s: Seq<(String, String)>, k: Seq<char>) -> int {
    choose|i: int| 0 <= i < s.len() && s[i].0@ == k
}

/// The mapping an argument list stands for.
pub open spec fn args_view(s: Seq<(String, String)>) -> Map<Seq<char>, Seq<char>> {
    Map::new(
        |k: Seq<char>| args_has_key(s, k),
        |k: Seq<char>|
            if args_has_key(s, k) {
                s[args_index_of(s, k)].1@
            } else {
                Seq::empty()
            },
    )
}

/// With unique names, the index found for a name is the only one that
/// carries it.
pub proof fn lemma_args_index_of(s: Seq<(String, String)>, k: Seq<char>, i: int)
    requires
        args_unique(s),
        0 <= i < s.len(),
        s[i].0@ == k,
    ensures
        args_has_key(s, k),
        args_index_of(s, k) == i,
{
    assert(args_has_key(s, k));
    let j = args_index_of(s, k);
    assert(0 <= j < s.len() && s[j].0@ == k);
    if i < j {
        assert(s[i].0@ != s[j].0@);
    } else if j < i {
        assert(s[j].0@ != s[i].0@);
    }
}

/// A borrow of the argument value named `key`, if one exists.
fn args_get<'a>(args: &'a Vec<(String, String)>, key: &String) -> (r: Option<&'a String>)
    requires
        args_unique(args@),
    ensures
        match r {
            Some(val) => args_has_key(args@, key@) && val@ == args_view(args@)[key@],
            None => !args_has_key(args@, key@),
        },
{
    let n = args.len();
    let mut i: usize = 0;
    while i < n
        invariant
            args_unique(args@),
            n == args@.len(),
            i <= n,
            forall|j: int| #![trigger args@[j]] 0 <= j < i ==> args@[j].0@ != key@,
        decreases n - i,
    {
        if args[i].0 == *key {
            proof {
                lemma_args_index_of(args@, key@, i as int);
            }
            return Some(&args[i].1);
        }
        i = i + 1;
    }
    None
}

/// What formatting `t` under `args` yields, one scan step at a time: a
/// well-formed placeholder token whose name `args` binds becomes the
/// bound value, any other token passes verbatim, and an open brace that
/// begins no token passes as itself.
pub open spec fn format_spec(t: Seq<char>, args: Map<Seq<char>, Seq<char>>) -> Seq<char>
    decreases t.len(),
    via format_spec_decreases
{
    if t.len() == 0 {
        t
    } else if t[0] == '{' {
        let n = ident_run(t.skip(1));
        if n > 0 && n + 1 < t.len() && t[n + 1] == '}' {
            let name = t.subrange(1, n + 1);
            if args.dom().contains(name) {
                args[name] + format_spec(t.skip(n + 2), args)
            } else {
                t.take(n + 2) + format_spec(t.skip(n + 2), args)
            }
        } else {
            seq!['{'] + format_spec(t.skip(1), args)
        }
    } else {
        seq![t[0]] + format_spec(t.skip(1), args)
    }
}

#[via_fn]
proof fn format_spec_decreases(t: Seq<char>, args: Map<Seq<char>, Seq<char>>) {
    if t.len() > 0 && t[0] == '{' {
        lemma_ident_run(t.skip(1));
    }
}

/// Formats `template` by substituting the arguments into its
/// placeholders, in a single left-to-right scan.
pub fn format_string(template: &str, args: &Vec<(String, String)>) -> (r: Result<
    String,
    I18nError,
>)
    requires
        args_unique(args@),
    ensures
        r is Ok,
        r matches Ok(out) ==> out@ == format_spec(template@, args_view(args@)),
{
    let ghost t = template@;
    let ghost am = args_view(args@);
    let n = template.unicode_len();
    let mut out = String::new();
    let mut i: usize = 0;
    proof {
        assert(t.skip(0) =~= t);
        assert(out@ + format_spec(t.skip(0), am) =~= format_spec(t, am));
    }
    while i < n
        invariant
            args_unique(args@),
            t == template@,
            am == args_view(args@),
            n == t.len(),
            i <= n,
            format_spec(t, am) == out@ + format_spec(t.skip(i as int), am),
        decreases n - i,
    {
        let ghost rest = t.skip(i as int);
        let ghost out0 = out@;
        proof {
            assert(rest[0] == t[i as int]);
        }
        let c = template.get_char(i);
        if c == '{' {
            let mut j = i + 1;
            while j < n && ident_char(template.get_char(j))
                invariant
                    t == template@,
                    n == t.len(),
                    i + 1 <= j <= n,
                    forall|k: int| i + 1 <= k < j ==> is_ident_char(t[k]),
                decreases n - j,
            {
                j = j + 1;
            }
            proof {
                let u = rest.skip(1);
                assert forall|k: int| 0 <= k < j - i - 1 implies is_ident_char(u[k]) by {
                    assert(u[k] == t[i + 1 + k]);
                }
                if j < n {
                    assert(u[j - i - 1] == t[j as int]);
                }
                lemma_ident_run(u);
                let m = ident_run(u);
                if m < j - i - 1 {
                    assert(is_ident_char(u[m]));
                    assert(false);
                }
                if m > j - i - 1 {
                    assert(is_ident_char(u[j - i - 1]));
                    assert(false);
                }
                assert(m == j - i - 1);
            }
            if j < n && j > i + 1 && template.get_char(j) == '}' {
                let ghost name = t.subrange(i + 1, j as int);
                proof {
                    assert(rest.subrange(1, (j - i) as int) =~= name);
                }
                let name_str = template.substring_char(i + 1, j).to_owned();
                match args_get(args, &name_str) {
                    Some(val) => {
                        proof {
                            assert(am.dom().contains(name));
                            assert(rest.skip((j - i + 1) as int) =~= t.skip(j + 1));
                            assert(format_spec(rest, am) == am[name] + format_spec(
                                t.skip(j + 1),
                                am,
                            ));
                        }
                        out.append(val.as_str());
                        proof {
                            assert(out@ + format_spec(t.skip(j + 1), am) =~= out0 + (am[name]
                                + format_spec(t.skip(j + 1), am)));
                        }
                    },
                    None => {
                        proof {
                            assert(!am.dom().contains(name));
                            assert(rest.skip((j - i + 1) as int) =~= t.skip(j + 1));
                            assert(rest.take((j - i + 1) as int) =~= t.subrange(i as int, j + 1));
                            assert(format_spec(rest, am) == rest.take((j - i + 1) as int)
                                + format_spec(t.skip(j + 1), am));
                        }
                        let token = template.substring_char(i, j + 1);
                        out.append(token);
                        proof {
                            assert(out@ + format_spec(t.skip(j + 1), am) =~= out0 + (t.subrange(
                                i as int,
                                j + 1,
                            ) + format_spec(t.skip(j + 1), am)));
                        }
                    },
                }
                i = j + 1;
                proof {
                    assert(i <= n);
                    assert(format_spec(t, am) == out@ + format_spec(t.skip(i as int), am));
                }
            } else {
                proof {
                    assert(rest.skip(1) =~= t.skip(i + 1));
                    assert(format_spec(rest, am) == seq!['{'] + format_spec(t.skip(i + 1), am));
                }
                let brace = template.substring_char(i, i + 1);
                out.append(brace);
                proof {
                    assert(brace@ =~= seq!['{']);
                    assert(out@ + format_spec(t.skip(i + 1), am) =~= out0 + (seq!['{']
                        + format_spec(t.skip(i + 1), am)));
                }
                i = i + 1;
                proof {
                    assert(i <= n);
                    assert(format_spec(t, am) == out@ + format_spec(t.skip(i as int), am));
                }
            }
        } else {
            proof {
                assert(rest.skip(1) =~= t.skip(i + 1));
                assert(format_spec(rest, am) == seq![t[i as int]] + format_spec(
                    t.skip(i + 1),
                    am,
                ));
            }
            let piece = template.substring_char(i, i + 1);
            out.append(piece);
            proof {
                assert(piece@ =~= seq![t[i as int]]);
                assert(out@ + format_spec(t.skip(i + 1), am) =~= out0 + (seq![t[i as int]]
                    + format_spec(t.skip(i + 1), am)));
            }
            i = i + 1;
            proof {
                assert(i <= n);
                assert(format_spec(t, am) == out@ + format_spec(t.skip(i as int), am));
            }
        }
    }
    proof {
        assert(t.skip(n as int).len() == 0);
        assert(out@ + format_spec(t.skip(n as int), am) =~= out@);
    }
    Ok(out)
}

} // verus!
