//! The request data model: HTTP method, request, body, whole document, and
//! environment, together with the key-value table that headers and
//! variables are stored in.
//!
//! Each executable type has a mathematical view; a parsed document is
//! specified entirely in terms of these views.

use vstd::prelude::*;
use vstd::string::StringExecFns;
use crate::scan::ci_eq;
use crate::scan::lower_code;
use crate::scan::str_eq;
use crate::scan::str_eq_ignore_case;

verus! {

/// The seven recognized HTTP methods.
#[derive(Debug, Clone, Copy)]
pub enum Method {
    Get,
    Post,
    Put,
    Delete,
    Patch,
    Options,
    Head,
}

/// The method whose keyword equals `s` up to ASCII case, if any.
pub open spec fn method_of_keyword(s: Seq<char>) -> Option<Method> {
    if ci_eq(s, "get"@) {
        Some(Method::Get)
    } else if ci_eq(s, "post"@) {
        Some(Method::Post)
    } else if ci_eq(s, "put"@) {
        Some(Method::Put)
    } else if ci_eq(s, "delete"@) {
        Some(Method::Delete)
    } else if ci_eq(s, "patch"@) {
        Some(Method::Patch)
    } else if ci_eq(s, "options"@) {
        Some(Method::Options)
    } else if ci_eq(s, "head"@) {
        Some(Method::Head)
    } else {
        None
    }
}

impl Method {
    /// The upper-case rendering of the method, as it appears after `-X`.
    pub open spec fn spec_str(self) -> Seq<char> {
        match self {
            Method::Get => "GET"@,
            Method::Post => "POST"@,
            Method::Put => "PUT"@,
            Method::Delete => "DELETE"@,
            Method::Patch => "PATCH"@,
            Method::Options => "OPTIONS"@,
            Method::Head => "HEAD"@,
        }
    }

    pub fn as_str(&self) -> (r: &'static str)
        ensures
            r@ == self.spec_str(),
    {
        match self {
            Method::Get => "GET",
            Method::Post => "POST",
            Method::Put => "PUT",
            Method::Delete => "DELETE",
            Method::Patch => "PATCH",
            Method::Options => "OPTIONS",
            Method::Head => "HEAD",
        }
    }

    /// Converts a block keyword to a method, ASCII-case-insensitively; any
    /// other keyword is the `Unknown method` error.
    pub fn from_keyword(s: &str) -> (r: Result<Method, String>)
        ensures
            match method_of_keyword(s@) {
                Some(m) => r == Ok::<Method, String>(m),
                None => r is Err && r->Err_0@ == "Unknown method: "@ + s@,
            },
    {
        if str_eq_ignore_case(s, "get") {
            Ok(Method::Get)
        } else if str_eq_ignore_case(s, "post") {
            Ok(Method::Post)
        } else if str_eq_ignore_case(s, "put") {
            Ok(Method::Put)
        } else if str_eq_ignore_case(s, "delete") {
            Ok(Method::Delete)
        } else if str_eq_ignore_case(s, "patch") {
            Ok(Method::Patch)
        } else if str_eq_ignore_case(s, "options") {
            Ok(Method::Options)
        } else if str_eq_ignore_case(s, "head") {
            Ok(Method::Head)
        } else {
            Err(String::from_str("Unknown method: ").concat(s))
        }
    }
}

impl core::str::FromStr for Method {
    type Err = String;

    fn from_str(s: &str) -> Result<Method, String> {
        Method::from_keyword(s)
    }
}

/// The seven lower-case keywords name their methods; the proof needs the
/// literal contents, so it stands once here for every dispatch site.
pub proof fn lemma_method_keywords()
    ensures
        method_of_keyword("get"@) == Some(Method::Get),
        method_of_keyword("post"@) == Some(Method::Post),
        method_of_keyword("put"@) == Some(Method::Put),
        method_of_keyword("delete"@) == Some(Method::Delete),
        method_of_keyword("patch"@) == Some(Method::Patch),
        method_of_keyword("options"@) == Some(Method::Options),
        method_of_keyword("head"@) == Some(Method::Head),
{
    reveal_strlit("get");
    reveal_strlit("post");
    reveal_strlit("put");
    reveal_strlit("delete");
    reveal_strlit("patch");
    reveal_strlit("options");
    reveal_strlit("head");
    assert(lower_code("put"@[0]) != lower_code("get"@[0]));
    assert(lower_code("head"@[0]) != lower_code("post"@[0]));
}

/// An unordered string-to-string table with unique keys; the
/// representation keeps entries in first-insertion order, and a later
/// insert of an existing key overwrites its value in place.
#[derive(Debug, Clone)]
pub struct KvTable {
    entries: Vec<(String, String)>,
}

impl View for KvTable {
    type V = Seq<(Seq<char>, Seq<char>)>;

    closed spec fn view(&self) -> Seq<(Seq<char>, Seq<char>)> {
        Seq::new(self.entries@.len(), |i: int| (self.entries@[i].0@, self.entries@[i].1@))
    }
}

/// Key uniqueness: no two entries share a key.
pub open spec fn table_wf(t: Seq<(Seq<char>, Seq<char>)>) -> bool {
    forall|i: int, j: int| 0 <= i < j < t.len() ==> t[i].0 != t[j].0
}

/// The value stored under `k`, if any.
pub open spec fn table_get(t: Seq<(Seq<char>, Seq<char>)>, k: Seq<char>) -> Option<Seq<char>>
    decreases t.len(),
{
    if t.len() == 0 {
        None
    } else if t[0].0 == k {
        Some(t[0].1)
    } else {
        table_get(t.drop_first(), k)
    }
}

/// The table after storing `v` under `k`: the value is overwritten in
/// place when the key is present, appended otherwise.
pub open spec fn table_set(
    t: Seq<(Seq<char>, Seq<char>)>,
    k: Seq<char>,
    v: Seq<char>,
) -> Seq<(Seq<char>, Seq<char>)>
    decreases t.len(),
{
    if t.len() == 0 {
        seq![(k, v)]
    } else if t[0].0 == k {
        seq![(k, v)] + t.drop_first()
    } else {
        seq![t[0]] + table_set(t.drop_first(), k, v)
    }
}

proof fn lemma_table_get_skip(t: Seq<(Seq<char>, Seq<char>)>, k: Seq<char>, i: int)
    requires
        0 <= i <= t.len(),
        forall|j: int| 0 <= j < i ==> t[j].0 != k,
    ensures
        table_get(t, k) == table_get(t.skip(i), k),
    decreases i,
{
    if i == 0 {
        assert(t.skip(0) =~= t);
    } else {
        lemma_table_get_skip(t, k, i - 1);
        assert(t.skip(i - 1)[0] == t[i - 1]);
        assert(t.skip(i - 1).drop_first() =~= t.skip(i));
    }
}

proof fn lemma_table_set_skip(t: Seq<(Seq<char>, Seq<char>)>, k: Seq<char>, v: Seq<char>, i: int)
    requires
        0 <= i <= t.len(),
        forall|j: int| 0 <= j < i ==> t[j].0 != k,
    ensures
        table_set(t, k, v) == t.take(i) + table_set(t.skip(i), k, v),
    decreases i,
{
    if i == 0 {
        assert(t.skip(0) =~= t);
        assert(t.take(0) + table_set(t, k, v) =~= table_set(t, k, v));
    } else {
        lemma_table_set_skip(t, k, v, i - 1);
        assert(t.skip(i - 1)[0] == t[i - 1]);
        assert(t.skip(i - 1).drop_first() =~= t.skip(i));
        assert(t.take(i - 1) + (seq![t[i - 1]] + table_set(t.skip(i), k, v)) =~= t.take(i)
            + table_set(t.skip(i), k, v));
    }
}

impl KvTable {
    /// Key uniqueness holds of the representation.
    pub open spec fn wf(&self) -> bool {
        table_wf(self@)
    }

    pub fn new() -> (r: KvTable)
        ensures
            r@ == Seq::<(Seq<char>, Seq<char>)>::empty(),
            r.wf(),
    {
        let r = KvTable { entries: Vec::new() };
        proof {
            assert(r@ =~= Seq::<(Seq<char>, Seq<char>)>::empty());
        }
        r
    }

    pub fn len(&self) -> (n: usize)
        ensures
            n == self@.len(),
    {
        self.entries.len()
    }

    pub fn is_empty(&self) -> (r: bool)
        ensures
            r == (self@.len() == 0),
    {
        self.entries.is_empty()
    }

    /// Stores `v` under `k`, overwriting in place if `k` is present.
    pub fn insert(&mut self, k: String, v: String)
        requires
            old(self).wf(),
        ensures
            final(self)@ == table_set(old(self)@, k@, v@),
            final(self).wf(),
    {
        let n = self.entries.len();
        let mut i: usize = 0;
        while i < n
            invariant
                i <= n,
                n == self.entries@.len(),
                self.entries@ == old(self).entries@,
                old(self).wf(),
                forall|j: int| 0 <= j < i ==> self@[j].0 != k@,
            decreases n - i,
        {
            if str_eq(self.entries[i].0.as_str(), k.as_str()) {
                proof {
                    lemma_table_set_skip(self@, k@, v@, i as int);
                    assert(self@.skip(i as int)[0] == self@[i as int]);
                }
                let ghost t0 = self@;
                self.entries.remove(i);
                self.entries.insert(i, (k, v));
                proof {
                    assert(self@ =~= t0.take(i as int) + (seq![(k@, v@)] + t0.skip(
                        i as int,
                    ).drop_first()));
                    assert(t0 =~= old(self)@);
                    assert(table_wf(t0));
                    assert forall|a: int, b: int|
                        0 <= a < b < self@.len() implies self@[a].0 != self@[b].0 by {
                        assert(self@.len() == t0.len());
                        assert(self@[a].0 == t0[a].0);
                        assert(self@[b].0 == t0[b].0);
                        assert(t0[a].0 != t0[b].0);
                    }
                }
                return ;
            }
            i += 1;
        }
        proof {
            lemma_table_set_skip(self@, k@, v@, n as int);
            assert(self@.skip(n as int) =~= Seq::<(Seq<char>, Seq<char>)>::empty());
        }
        let ghost t0 = self@;
        self.entries.push((k, v));
        proof {
            assert(self@ =~= t0.take(n as int) + table_set(t0.skip(n as int), k@, v@));
            assert(t0 =~= old(self)@);
            assert(table_wf(t0));
            assert forall|a: int, b: int|
                0 <= a < b < self@.len() implies self@[a].0 != self@[b].0 by {
                assert(self@.len() == t0.len() + 1);
                assert(self@[a] == t0[a]);
                if b < t0.len() {
                    assert(self@[b] == t0[b]);
                    assert(t0[a].0 != t0[b].0);
                } else {
                    assert(self@[b].0 == k@);
                    assert(t0[a].0 != k@);
                }
            }
        }
    }

    /// The value stored under `k`, if any.
    pub fn get(&self, k: &str) -> (r: Option<&String>)
        ensures
            r is Some <==> table_get(self@, k@) is Some,
            r is Some ==> r->0@ == table_get(self@, k@)->0,
    {
        let n = self.entries.len();
        let mut i: usize = 0;
        while i < n
            invariant
                i <= n,
                n == self.entries@.len(),
                forall|j: int| 0 <= j < i ==> self@[j].0 != k@,
            decreases n - i,
        {
            if str_eq(self.entries[i].0.as_str(), k) {
                proof {
                    lemma_table_get_skip(self@, k@, i as int);
                    assert(self@.skip(i as int)[0] == self@[i as int]);
                }
                return Some(&self.entries[i].1);
            }
            i += 1;
        }
        proof {
            lemma_table_get_skip(self@, k@, n as int);
            assert(self@.skip(n as int) =~= Seq::<(Seq<char>, Seq<char>)>::empty());
        }
        None
    }

    /// The key of the entry at position `i`.
    pub fn key_at(&self, i: usize) -> (r: &String)
        requires
            i < self@.len(),
        ensures
            r@ == self@[i as int].0,
    {
        &self.entries[i].0
    }

    /// The value of the entry at position `i`.
    pub fn value_at(&self, i: usize) -> (r: &String)
        requires
            i < self@.len(),
        ensures
            r@ == self@[i as int].1,
    {
        &self.entries[i].1
    }

    /// Replaces the value of the entry at position `i`, leaving its key.
    pub fn set_value_at(&mut self, i: usize, v: String)
        requires
            i < old(self)@.len(),
        ensures
            final(self)@ == old(self)@.update(i as int, (old(self)@[i as int].0, v@)),
            old(self).wf() ==> final(self).wf(),
    {
        let ghost t0 = self@;
        let kv = self.entries.remove(i);
        self.entries.insert(i, (kv.0, v));
        proof {
            assert(self@ =~= t0.update(i as int, (t0[i as int].0, v@)));
        }
    }

    /// Whether some key equals `k` up to ASCII case.
    pub fn has_key_ignore_case(&self, k: &str) -> (r: bool)
        ensures
            r == exists|i: int| 0 <= i < self@.len() && ci_eq(#[trigger] self@[i].0, k@),
    {
        let n = self.entries.len();
        let mut i: usize = 0;
        while i < n
            invariant
                i <= n,
                n == self.entries@.len(),
                forall|j: int| 0 <= j < i ==> !ci_eq(#[trigger] self@[j].0, k@),
            decreases n - i,
    {
            if str_eq_ignore_case(self.entries[i].0.as_str(), k) {
                proof {
                    assert(ci_eq(self@[i as int].0, k@));
                }
                return true;
            }
            i += 1;
        }
        false
    }
}

/// One HTTP request: method and target URL.
#[derive(Debug, Clone)]
pub struct Request {
    pub method: Method,
    pub url: String,
}

/// The view of a request.
pub struct RequestModel {
    pub method: Method,
    pub url: Seq<char>,
}

impl View for Request {
    type V = RequestModel;

    open spec fn view(&self) -> RequestModel {
        RequestModel { method: self.method, url: self.url@ }
    }
}

/// A request body: a free-form type tag and the raw payload text.
#[derive(Debug, Clone)]
pub struct Body {
    pub body_type: String,
    pub content: String,
}

/// The view of a body.
pub struct BodyModel {
    pub body_type: Seq<char>,
    pub content: Seq<char>,
}

impl View for Body {
    type V = BodyModel;

    open spec fn view(&self) -> BodyModel {
        BodyModel { body_type: self.body_type@, content: self.content@ }
    }
}

/// A parsed request document: the request, an optional body, and the
/// header table.
#[derive(Debug, Clone)]
pub struct BruFile {
    pub request: Request,
    pub body: Option<Body>,
    pub headers: KvTable,
}

/// The view of a whole document.
pub struct DocModel {
    pub request: RequestModel,
    pub body: Option<BodyModel>,
    pub headers: Seq<(Seq<char>, Seq<char>)>,
}

impl View for BruFile {
    type V = DocModel;

    open spec fn view(&self) -> DocModel {
        DocModel {
            request: self.request@,
            body: match self.body {
                Some(b) => Some(b@),
                None => None,
            },
            headers: self.headers@,
        }
    }
}

/// A parsed environment document: its variable table.
#[derive(Debug, Clone)]
pub struct Environment {
    pub vars: KvTable,
}

impl View for Environment {
    type V = Seq<(Seq<char>, Seq<char>)>;

    open spec fn view(&self) -> Seq<(Seq<char>, Seq<char>)> {
        self.vars@
    }
}

impl Default for Environment {
    /// An environment with no variables.
    fn default() -> (r: Environment)
        ensures
            r@ == Seq::<(Seq<char>, Seq<char>)>::empty(),
            r.vars.wf(),
    {
        Environment { vars: KvTable::new() }
    }
}

} // verus!
