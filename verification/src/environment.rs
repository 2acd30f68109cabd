//! Environment handling: `{{name}}` placeholder substitution over a
//! variable table, applied to a parsed document, and the pure part of
//! locating a collection root among a file's ancestor directories.

use vstd::prelude::*;
use vstd::string::StrSliceExecFns;
use vstd::string::StringExecFns;
use crate::ast::BodyModel;
use crate::ast::Body;
use crate::ast::BruFile;
use crate::ast::Environment;
use crate::ast::KvTable;
use crate::scan::char_at;

verus! {

/// Whether `p` occurs in `t` starting at position `i`.
pub open spec fn occurs_at(t: Seq<char>, p: Seq<char>, i: int) -> bool {
    0 <= i && i + p.len() <= t.len() && t.subrange(i, i + p.len() as int) == p
}

/// `t` with every occurrence of `p` replaced by `v`, scanning left to
/// right without rescanning replaced text.
pub open spec fn replace_all(t: Seq<char>, p: Seq<char>, v: Seq<char>) -> Seq<char>
    decreases t.len(),
    when p.len() > 0
{
    if t.len() < p.len() {
        t
    } else if t.subrange(0, p.len() as int) == p {
        v + replace_all(t.skip(p.len() as int), p, v)
    } else {
        seq![t[0]] + replace_all(t.drop_first(), p, v)
    }
}

/// Whether `p` occurs at `i` in `t`.
fn has_prefix_at(t: &str, i: usize, p: &str) -> (r: bool)
    requires
        i <= t@.len(),
    ensures
        r == occurs_at(t@, p@, i as int),
{
    let n = t.unicode_len();
    let m = p.unicode_len();
    if m > n - i {
        return false;
    }
    let mut k: usize = 0;
    while k < m
        invariant
            k <= m,
            i + m <= n,
            n == t@.len(),
            m == p@.len(),
            forall|q: int| 0 <= q < k ==> t@[i + q] == p@[q],
        decreases m - k,
    {
        if char_at(t, i + k) != char_at(p, k) {
            proof {
                assert(t@.subrange(i as int, i + m) != p@) by {
                    assert(t@.subrange(i as int, i + m)[k as int] != p@[k as int]);
                }
            }
            return false;
        }
        k += 1;
    }
    proof {
        assert(t@.subrange(i as int, i + m) =~= p@);
    }
    true
}

/// `t` with every occurrence of `p` replaced by `v`.
pub fn replace_all_str(t: &str, p: &str, v: &str) -> (r: String)
    requires
        p@.len() > 0,
    ensures
        r@ == replace_all(t@, p@, v@),
{
    let n = t.unicode_len();
    let m = p.unicode_len();
    let mut out = String::new();
    let mut i: usize = 0;
    proof {
        assert(t@.skip(0) =~= t@);
        assert(out@ + replace_all(t@, p@, v@) =~= replace_all(t@, p@, v@));
    }
    while i < n
        invariant
            i <= n,
            n == t@.len(),
            m == p@.len(),
            m > 0,
            out@ + replace_all(t@.skip(i as int), p@, v@) == replace_all(t@, p@, v@),
        decreases n - i,
    {
        let ghost tail = t@.skip(i as int);
        if has_prefix_at(t, i, p) {
            out.append(v);
            proof {
                assert(tail.len() >= m);
                assert(tail.subrange(0, m as int) =~= t@.subrange(i as int, i + m));
                assert(tail.skip(m as int) =~= t@.skip(i + m));
                assert(out@ + replace_all(t@.skip(i + m), p@, v@) =~= replace_all(t@, p@, v@));
            }
            i += m;
        } else {
            out.append(t.substring_char(i, i + 1));
            proof {
                if i + m <= n {
                    assert(tail.len() >= m);
                    assert(tail.subrange(0, m as int) =~= t@.subrange(i as int, i + m));
                    assert(tail[0] == t@[i as int]);
                    assert(tail.drop_first() =~= t@.skip(i + 1));
                    assert(t@.subrange(i as int, i + 1) =~= seq![t@[i as int]]);
                    assert(out@ + replace_all(t@.skip(i + 1), p@, v@) =~= replace_all(
                        t@,
                        p@,
                        v@,
                    ));
                } else {
                    assert(tail.len() < m);
                    assert(replace_all(tail, p@, v@) == tail);
                    assert(t@.skip(i + 1).len() < m);
                    assert(replace_all(t@.skip(i + 1), p@, v@) == t@.skip(i + 1));
                    assert(t@.subrange(i as int, i + 1) =~= seq![t@[i as int]]);
                    assert(tail =~= seq![t@[i as int]] + t@.skip(i + 1));
                    assert(out@ + replace_all(t@.skip(i + 1), p@, v@) =~= replace_all(
                        t@,
                        p@,
                        v@,
                    ));
                }
            }
            i += 1;
        }
    }
    proof {
        assert(t@.skip(n as int) =~= Seq::<char>::empty());
        assert(out@ =~= replace_all(t@, p@, v@));
    }
    out
}

/// A pattern that occurs nowhere in the text is replaced nowhere: an
/// unmatched placeholder is left untouched.
pub proof fn lemma_replace_all_absent(t: Seq<char>, p: Seq<char>, v: Seq<char>)
    requires
        p.len() > 0,
        forall|i: int| !#[trigger] occurs_at(t, p, i),
    ensures
        replace_all(t, p, v) == t,
    decreases t.len(),
{
    if t.len() < p.len() {
    } else if t.subrange(0, p.len() as int) == p {
        assert(occurs_at(t, p, 0));
    } else {
        assert forall|i: int| !#[trigger] occurs_at(t.drop_first(), p, i) by {
            if occurs_at(t.drop_first(), p, i) {
                assert(t.subrange(i + 1, i + 1 + p.len() as int) =~= t.drop_first().subrange(
                    i,
                    i + p.len() as int,
                ));
                assert(occurs_at(t, p, i + 1));
            }
        }
        lemma_replace_all_absent(t.drop_first(), p, v);
        assert(seq![t[0]] + t.drop_first() =~= t);
    }
}

/// The placeholder a variable named `k` is written as: `{{k}}`.
pub open spec fn pattern_of(k: Seq<char>) -> Seq<char> {
    "{{"@ + k + "}}"@
}

/// `t` after replacing each variable's placeholder with its value, one
/// variable at a time in table order.
pub open spec fn subst_all(t: Seq<char>, vars: Seq<(Seq<char>, Seq<char>)>) -> Seq<char>
    decreases vars.len(),
{
    if vars.len() == 0 {
        t
    } else {
        subst_all(replace_all(t, pattern_of(vars[0].0), vars[0].1), vars.drop_first())
    }
}

/// Replaces every `{{name}}` placeholder in `text` by the variable's
/// value, for each variable of the table; a placeholder with no matching
/// variable is left untouched.
pub fn substitute_variables(text: &str, vars: &KvTable) -> (r: String)
    ensures
        r@ == subst_all(text@, vars@),
{
    let mut result = String::from_str(text);
    let n = vars.len();
    let mut i: usize = 0;
    proof {
        assert(vars@.skip(0) =~= vars@);
    }
    while i < n
        invariant
            i <= n,
            n == vars@.len(),
            subst_all(result@, vars@.skip(i as int)) == subst_all(text@, vars@),
        decreases n - i,
    {
        let ghost tail = vars@.skip(i as int);
        let pattern = String::from_str("{{").concat(vars.key_at(i).as_str()).concat("}}");
        proof {
            reveal_strlit("{{");
            assert(pattern@ == pattern_of(vars@[i as int].0));
            assert(tail[0] == vars@[i as int]);
            assert(tail.drop_first() =~= vars@.skip(i + 1));
        }
        let value = vars.value_at(i).clone();
        result = replace_all_str(result.as_str(), pattern.as_str(), value.as_str());
        i += 1;
    }
    proof {
        assert(vars@.skip(n as int) =~= Seq::<(Seq<char>, Seq<char>)>::empty());
    }
    result
}

/// Applies an environment to a parsed document: substitutes variables in
/// the URL, the body content (when a body is present), and every header
/// value; methods, body types, and header keys are untouched.
pub fn apply_environment(bru: &mut BruFile, env: &Environment)
    ensures
        final(bru)@.request.method == old(bru)@.request.method,
        final(bru)@.request.url == subst_all(old(bru)@.request.url, env@),
        match old(bru)@.body {
            Some(b) => final(bru)@.body == Some(
                BodyModel { body_type: b.body_type, content: subst_all(b.content, env@) },
            ),
            None => final(bru)@.body is None,
        },
        final(bru)@.headers.len() == old(bru)@.headers.len(),
        forall|i: int|
            0 <= i < old(bru)@.headers.len() ==> #[trigger] final(bru)@.headers[i] == (
            old(bru)@.headers[i].0,
            subst_all(old(bru)@.headers[i].1, env@),
            ),
        old(bru).headers.wf() ==> final(bru).headers.wf(),
{
    let new_url = substitute_variables(bru.request.url.as_str(), &env.vars);
    bru.request.url = new_url;
    let new_body = match &bru.body {
        Some(b) => Some(
            Body {
                body_type: b.body_type.clone(),
                content: substitute_variables(b.content.as_str(), &env.vars),
            },
        ),
        None => None,
    };
    bru.body = new_body;
    let ghost req_done = bru@.request;
    let ghost body_done = bru@.body;
    let hn = bru.headers.len();
    let mut i: usize = 0;
    while i < hn
        invariant
            i <= hn,
            hn == old(bru)@.headers.len(),
            bru@.headers.len() == old(bru)@.headers.len(),
            bru@.request == req_done,
            bru@.body == body_done,
            req_done.method == old(bru)@.request.method,
            req_done.url == subst_all(old(bru)@.request.url, env@),
            body_done == match old(bru)@.body {
                Some(b) => Some(
                    BodyModel { body_type: b.body_type, content: subst_all(b.content, env@) },
                ),
                None => None::<BodyModel>,
            },
            old(bru).headers.wf() ==> bru.headers.wf(),
            forall|j: int|
                0 <= j < i ==> #[trigger] bru@.headers[j] == (
                old(bru)@.headers[j].0,
                subst_all(old(bru)@.headers[j].1, env@),
                ),
            forall|j: int| i <= j < hn ==> #[trigger] bru@.headers[j] == old(bru)@.headers[j],
        decreases hn - i,
    {
        let value = bru.headers.value_at(i).clone();
        let new_value = substitute_variables(value.as_str(), &env.vars);
        bru.headers.set_value_at(i, new_value);
        i += 1;
    }
}

/// The first position at or after `i` where the marker is present, or the
/// end of the list.
pub open spec fn marker_index(ms: Seq<bool>, i: int) -> int
    decreases ms.len() - i,
{
    if 0 <= i < ms.len() && !ms[i] {
        marker_index(ms, i + 1)
    } else {
        i
    }
}

/// Chooses the collection root among a file's ancestor directories,
/// nearest first: the first ancestor holding the marker file; with no
/// marker anywhere, the immediate parent; with no ancestors at all, the
/// `Cannot determine collection root` error.
pub fn find_collection_root(dirs: &Vec<String>, has_marker: &Vec<bool>) -> (r: Result<
    String,
    String,
>)
    requires
        dirs@.len() == has_marker@.len(),
    ensures
        dirs@.len() == 0 ==> r is Err && r->Err_0@ == "Cannot determine collection root"@,
        dirs@.len() > 0 ==> r is Ok && r->Ok_0@ == (if marker_index(has_marker@, 0)
            < has_marker@.len() {
            dirs@[marker_index(has_marker@, 0)]@
        } else {
            dirs@[0]@
        }),
{
    let n = dirs.len();
    let mut i: usize = 0;
    while i < n
        invariant
            i <= n,
            n == dirs@.len(),
            n == has_marker@.len(),
            marker_index(has_marker@, i as int) == marker_index(has_marker@, 0),
        decreases n - i,
    {
        if has_marker[i] {
            return Ok(dirs[i].clone());
        }
        i += 1;
    }
    if n > 0 {
        Ok(dirs[0].clone())
    } else {
        Err(String::from_str("Cannot determine collection root"))
    }
}

/// The conventional location of a named environment document under a
/// collection root.
pub fn environment_file_path(root: &str, env_name: &str) -> (r: String)
    ensures
        r@ == root@ + "/environments/"@ + env_name@ + ".bru"@,
{
    String::from_str(root).concat("/environments/").concat(env_name).concat(".bru")
}

} // verus!
