//! Placeholder templating for the configuration text: `${NAME}`, where a
//! name is one or more ASCII letters or underscores, is replaced by the
//! value bound to the name. The caller supplies the bindings; looking them
//! up in the environment is its business.

use vstd::prelude::*;

verus! {

/// A byte a placeholder name may hold: an ASCII letter or an underscore.
pub open spec fn is_name_byte(b: u8) -> bool {
    (97 <= b <= 122) || (65 <= b <= 90) || b == 95
}

/// The length of the run of name bytes starting at `i`.
pub open spec fn name_run(s: Seq<u8>, i: int) -> int
    decreases s.len() - i,
{
    if 0 <= i < s.len() && is_name_byte(s[i]) {
        1 + name_run(s, i + 1)
    } else {
        0
    }
}

/// Whether a `${NAME}` placeholder starts at `i`: a dollar, an opening
/// brace, at least one name byte, and a closing brace.
pub open spec fn placeholder_at(s: Seq<u8>, i: int) -> bool {
    let n = name_run(s, i + 2);
    &&& 0 <= i
    &&& i + 2 < s.len()
    &&& s[i] == 36
    &&& s[i + 1] == 123
    &&& n >= 1
    &&& i + 2 + n < s.len()
    &&& s[i + 2 + n] == 125
}

/// The name of the placeholder at `i`.
pub open spec fn placeholder_name(s: Seq<u8>, i: int) -> Seq<u8> {
    s.subrange(i + 2, i + 2 + name_run(s, i + 2))
}

/// The whole length of the placeholder at `i`, braces included.
pub open spec fn placeholder_len(s: Seq<u8>, i: int) -> int {
    name_run(s, i + 2) + 3
}

/// The value bound to the first occurrence of the name, if any.
pub open spec fn assoc(vars: Seq<(Seq<u8>, Seq<u8>)>, name: Seq<u8>) -> Option<Seq<u8>>
    decreases vars.len(),
{
    if vars.len() == 0 {
        None
    } else if vars[0].0 == name {
        Some(vars[0].1)
    } else {
        assoc(vars.drop_first(), name)
    }
}

/// The names of all placeholders from `i` on, in order of occurrence.
pub open spec fn names_from(s: Seq<u8>, i: int) -> Seq<Seq<u8>>
    decreases s.len() - i,
{
    if i < 0 || i >= s.len() {
        Seq::empty()
    } else if placeholder_at(s, i) {
        seq![placeholder_name(s, i)] + names_from(s, i + placeholder_len(s, i))
    } else {
        names_from(s, i + 1)
    }
}

/// The text from `i` on with every placeholder whose name is bound
/// replaced by its value; an unbound placeholder is left verbatim.
pub open spec fn subst_from(s: Seq<u8>, i: int, vars: Seq<(Seq<u8>, Seq<u8>)>) -> Seq<u8>
    decreases s.len() - i,
{
    if i < 0 || i >= s.len() {
        Seq::empty()
    } else if placeholder_at(s, i) {
        match assoc(vars, placeholder_name(s, i)) {
            Some(v) => v + subst_from(s, i + placeholder_len(s, i), vars),
            None => s.subrange(i, i + placeholder_len(s, i)) + subst_from(
                s,
                i + placeholder_len(s, i),
                vars,
            ),
        }
    } else {
        seq![s[i]] + subst_from(s, i + 1, vars)
    }
}

/// A run of name bytes followed by a non-name byte or the end evaluates
/// the run length.
proof fn lemma_name_run_eval(s: Seq<u8>, i: int, j: int)
    requires
        0 <= i <= j <= s.len(),
        forall|k: int| i <= k < j ==> is_name_byte(#[trigger] s[k]),
        j == s.len() || !is_name_byte(s[j]),
    ensures
        name_run(s, i) == j - i,
    decreases j - i,
{
    if i < j {
        lemma_name_run_eval(s, i + 1, j);
    }
}

/// Whether this byte may stand in a placeholder name.
fn name_byte(b: u8) -> (r: bool)
    ensures
        r == is_name_byte(b),
{
    (97 <= b && b <= 122) || (65 <= b && b <= 90) || b == 95
}

/// The length of the run of name bytes starting at `i`.
fn name_run_exec(s: &Vec<u8>, i: usize) -> (r: usize)
    requires
        i <= s@.len(),
    ensures
        r == name_run(s@, i as int),
        i + r <= s@.len(),
{
    let mut j = i;
    while j < s.len()
        invariant
            i <= j <= s@.len(),
            forall|k: int| i <= k < j ==> is_name_byte(#[trigger] s@[k]),
        decreases s@.len() - j,
    {
        if !name_byte(s[j]) {
            proof {
                lemma_name_run_eval(s@, i as int, j as int);
            }
            return j - i;
        }
        j = j + 1;
    }
    proof {
        lemma_name_run_eval(s@, i as int, j as int);
    }
    j - i
}

/// Character-wise equality of two byte strings.
fn bytes_eq(a: &Vec<u8>, b: &Vec<u8>) -> (r: bool)
    ensures
        r == (a@ == b@),
{
    if a.len() != b.len() {
        proof {
            assert(a@ != b@) by {
                assert(a@.len() != b@.len());
            }
        }
        return false;
    }
    let mut i: usize = 0;
    while i < a.len()
        invariant
            i <= a@.len(),
            a@.len() == b@.len(),
            forall|k: int| 0 <= k < i ==> a@[k] == b@[k],
        decreases a@.len() - i,
    {
        if a[i] != b[i] {
            return false;
        }
        i = i + 1;
    }
    proof {
        assert(a@ =~= b@);
    }
    true
}

/// The index of the first binding of the name, if any, matching [`assoc`].
fn assoc_index(vars: &Vec<(Vec<u8>, Vec<u8>)>, name: &Vec<u8>) -> (r: Option<usize>)
    ensures
        match r {
            Some(idx) => 0 <= idx < vars@.len() && assoc(vars.deep_view(), name@) == Some(
                vars.deep_view()[idx as int].1,
            ),
            None => assoc(vars.deep_view(), name@) is None,
        },
{
    let mut i: usize = 0;
    while i < vars.len()
        invariant
            i <= vars@.len(),
            forall|k: int| 0 <= k < i ==> (#[trigger] vars.deep_view()[k]).0 != name@,
        decreases vars@.len() - i,
    {
        let hit = bytes_eq(&vars[i].0, name);
        proof {
            assert(vars.deep_view()[i as int].0 =~= vars@[i as int].0@);
        }
        if hit {
            proof {
                assert(vars.deep_view()[i as int].0 == name@);
                lemma_assoc_first(vars.deep_view(), name@, i as int);
            }
            return Some(i);
        }
        i = i + 1;
    }
    proof {
        lemma_assoc_none(vars.deep_view(), name@);
    }
    None
}

/// The first matching binding is the one [`assoc`] yields.
proof fn lemma_assoc_first(vs: Seq<(Seq<u8>, Seq<u8>)>, name: Seq<u8>, idx: int)
    requires
        0 <= idx < vs.len(),
        vs[idx].0 == name,
        forall|k: int| 0 <= k < idx ==> (#[trigger] vs[k]).0 != name,
    ensures
        assoc(vs, name) == Some(vs[idx].1),
    decreases idx,
{
    if idx > 0 {
        lemma_assoc_first(vs.drop_first(), name, idx - 1);
    }
}

/// With no matching binding, [`assoc`] yields nothing.
proof fn lemma_assoc_none(vs: Seq<(Seq<u8>, Seq<u8>)>, name: Seq<u8>)
    requires
        forall|k: int| 0 <= k < vs.len() ==> (#[trigger] vs[k]).0 != name,
    ensures
        assoc(vs, name) is None,
    decreases vs.len(),
{
    if vs.len() > 0 {
        lemma_assoc_none(vs.drop_first(), name);
    }
}

/// Append `src[from..to]` to `out`.
fn push_range(out: &mut Vec<u8>, src: &Vec<u8>, from: usize, to: usize)
    requires
        from <= to <= src@.len(),
    ensures
        final(out)@ == old(out)@ + src@.subrange(from as int, to as int),
{
    let ghost base = out@;
    let mut k = from;
    while k < to
        invariant
            from <= k <= to <= src@.len(),
            out@ == base + src@.subrange(from as int, k as int),
        decreases to - k,
    {
        let ghost pre = out@;
        out.push(src[k]);
        proof {
            assert(out@ =~= base + src@.subrange(from as int, k as int + 1));
        }
        k = k + 1;
    }
    proof {
        assert(out@ =~= base + src@.subrange(from as int, to as int));
    }
}

/// The bytes of the placeholder starting at `i`, if one starts there:
/// its name and its whole length.
fn placeholder_here(text: &Vec<u8>, i: usize) -> (r: Option<(Vec<u8>, usize)>)
    requires
        i < text@.len(),
    ensures
        match r {
            Some(p) => placeholder_at(text@, i as int) && p.0@ == placeholder_name(text@, i as int)
                && p.1 == placeholder_len(text@, i as int) && i + p.1 <= text@.len(),
            None => !placeholder_at(text@, i as int),
        },
{
    if text[i] != 36 {
        return None;
    }
    if text.len() < 3 || i >= text.len() - 2 {
        return None;
    }
    if text[i + 1] != 123 {
        return None;
    }
    let run = name_run_exec(text, i + 2);
    if run == 0 {
        return None;
    }
    if !(i + 2 + run < text.len()) {
        return None;
    }
    if text[i + 2 + run] != 125 {
        return None;
    }
    let mut name: Vec<u8> = Vec::new();
    push_range(&mut name, text, i + 2, i + 2 + run);
    proof {
        assert(name@ =~= placeholder_name(text@, i as int));
    }
    Some((name, run + 3))
}

/// Every placeholder name occurring in the text, in order of occurrence.
/// The caller fetches a binding for each before substituting.
pub fn placeholder_names(text: &Vec<u8>) -> (r: Vec<Vec<u8>>)
    ensures
        r.deep_view() == names_from(text@, 0),
{
    let mut out: Vec<Vec<u8>> = Vec::new();
    let mut i: usize = 0;
    proof {
        assert(out.deep_view() =~= Seq::<Seq<u8>>::empty());
        assert(names_from(text@, 0) =~= out.deep_view() + names_from(text@, 0));
    }
    while i < text.len()
        invariant
            i <= text@.len(),
            names_from(text@, 0) == out.deep_view() + names_from(text@, i as int),
        decreases text@.len() - i,
    {
        let ghost pre = out.deep_view();
        match placeholder_here(text, i) {
            Some((name, len)) => {
                let ghost namev = name@;
                proof {
                    assert(name.deep_view() =~= name@);
                }
                out.push(name);
                proof {
                    assert(out.deep_view() =~= pre.push(namev));
                    assert(names_from(text@, i as int) =~= seq![namev] + names_from(
                        text@,
                        i + len,
                    ));
                    assert(names_from(text@, 0) =~= out.deep_view() + names_from(
                        text@,
                        i + len,
                    ));
                }
                i = i + len;
            },
            None => {
                proof {
                    assert(names_from(text@, i as int) == names_from(text@, i as int + 1));
                }
                i = i + 1;
            },
        }
    }
    proof {
        assert(names_from(text@, text@.len() as int) =~= Seq::<Seq<u8>>::empty());
        assert(names_from(text@, 0) =~= out.deep_view());
    }
    out
}

/// The text with every placeholder whose name is bound replaced by its
/// value; an unbound placeholder is left verbatim.
pub fn substitute_placeholders(text: &Vec<u8>, vars: &Vec<(Vec<u8>, Vec<u8>)>) -> (r: Vec<u8>)
    ensures
        r@ == subst_from(text@, 0, vars.deep_view()),
{
    let mut out: Vec<u8> = Vec::new();
    let mut i: usize = 0;
    proof {
        assert(out@ =~= Seq::<u8>::empty());
        assert(subst_from(text@, 0, vars.deep_view()) =~= out@ + subst_from(
            text@,
            0,
            vars.deep_view(),
        ));
    }
    while i < text.len()
        invariant
            i <= text@.len(),
            subst_from(text@, 0, vars.deep_view()) == out@ + subst_from(
                text@,
                i as int,
                vars.deep_view(),
            ),
        decreases text@.len() - i,
    {
        let ghost pre = out@;
        match placeholder_here(text, i) {
            Some((name, len)) => {
                match assoc_index(vars, &name) {
                    Some(idx) => {
                        push_range(&mut out, &vars[idx].1, 0, vars[idx].1.len());
                        proof {
                            assert(vars.deep_view()[idx as int].1 =~= vars@[
                                idx as int
                            ].1@.subrange(0, vars@[idx as int].1@.len() as int));
                            assert(out@ =~= pre + vars.deep_view()[idx as int].1);
                            assert(subst_from(text@, i as int, vars.deep_view()) == vars.deep_view()[
                                idx as int
                            ].1 + subst_from(text@, i + len, vars.deep_view()));
                            assert(subst_from(text@, 0, vars.deep_view()) =~= out@ + subst_from(
                                text@,
                                i + len,
                                vars.deep_view(),
                            ));
                        }
                    },
                    None => {
                        push_range(&mut out, text, i, i + len);
                        proof {
                            assert(out@ =~= pre + text@.subrange(i as int, i + len));
                            assert(subst_from(text@, i as int, vars.deep_view()) == text@.subrange(
                                i as int,
                                i + len,
                            ) + subst_from(text@, i + len, vars.deep_view()));
                            assert(subst_from(text@, 0, vars.deep_view()) =~= out@ + subst_from(
                                text@,
                                i + len,
                                vars.deep_view(),
                            ));
                        }
                    },
                }
                i = i + len;
            },
            None => {
                out.push(text[i]);
                proof {
                    assert(out@ =~= pre.push(text@[i as int]));
                    assert(subst_from(text@, i as int, vars.deep_view()) == seq![
                        text@[i as int],
                    ] + subst_from(text@, i as int + 1, vars.deep_view()));
                    assert(subst_from(text@, 0, vars.deep_view()) =~= out@ + subst_from(
                        text@,
                        i as int + 1,
                        vars.deep_view(),
                    ));
                }
                i = i + 1;
            },
        }
    }
    proof {
        assert(subst_from(text@, text@.len() as int, vars.deep_view()) =~= Seq::<u8>::empty());
        assert(out@ =~= subst_from(text@, 0, vars.deep_view()));
    }
    out
}

} // verus!
