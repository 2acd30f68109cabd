//! The command generator: renders a parsed document and options as one
//! shell-quoted curl command line, specified character-for-character by
//! `curl_text`.

use vstd::prelude::*;
use vstd::string::StrSliceExecFns;
use vstd::string::StringExecFns;
use crate::ast::BruFile;
use crate::ast::DocModel;
use crate::scan::char_at;
use crate::scan::ci_eq;
use crate::scan::str_eq;

verus! {

/// Options for the generated command line.
pub struct CurlOptions {
    pub verbose: bool,
    pub silent: bool,
}

impl Default for CurlOptions {
    /// Neither flag set.
    fn default() -> (r: CurlOptions)
        ensures
            !r.verbose && !r.silent,
    {
        CurlOptions { verbose: false, silent: false }
    }
}

/// `s` with each single quote replaced by the quote-close, literal quote,
/// quote-reopen sequence that keeps it safe inside a single-quoted shell
/// argument.
pub open spec fn escaped(s: Seq<char>) -> Seq<char>
    decreases s.len(),
{
    if s.len() == 0 {
        Seq::empty()
    } else {
        (if s[0] == '\'' {
            "'\"'\"'"@
        } else {
            seq![s[0]]
        }) + escaped(s.drop_first())
    }
}

proof fn lemma_escaped_push(t: Seq<char>, c: char)
    ensures
        escaped(t.push(c)) == escaped(t) + (if c == '\'' {
            "'\"'\"'"@
        } else {
            seq![c]
        }),
    decreases t.len(),
{
    let u = if c == '\'' {
        "'\"'\"'"@
    } else {
        seq![c]
    };
    if t.len() == 0 {
        assert(t.push(c).drop_first() =~= Seq::empty());
        assert(t =~= Seq::<char>::empty());
        assert(escaped(t.push(c)) =~= escaped(t) + u);
    } else {
        assert(t.push(c).drop_first() =~= t.drop_first().push(c));
        lemma_escaped_push(t.drop_first(), c);
        assert(t.push(c)[0] == t[0]);
        let h = if t[0] == '\'' {
            "'\"'\"'"@
        } else {
            seq![t[0]]
        };
        assert(escaped(t.push(c)) == h + (escaped(t.drop_first()) + u));
        assert(h + (escaped(t.drop_first()) + u) =~= (h + escaped(t.drop_first())) + u);
    }
}

/// Replaces each single quote in `content` with `'"'"'`.
pub fn escape_body(content: &str) -> (r: String)
    ensures
        r@ == escaped(content@),
{
    let n = content.unicode_len();
    let mut out = String::new();
    let mut i: usize = 0;
    while i < n
        invariant
            i <= n,
            n == content@.len(),
            out@ == escaped(content@.take(i as int)),
        decreases n - i,
    {
        proof {
            lemma_escaped_push(content@.take(i as int), content@[i as int]);
            assert(content@.take(i as int).push(content@[i as int]) =~= content@.take(i + 1));
        }
        if char_at(content, i) == '\'' {
            out.append("'\"'\"'");
        } else {
            out.append(content.substring_char(i, i + 1));
            proof {
                assert(content@.subrange(i as int, i + 1) =~= seq![content@[i as int]]);
            }
        }
        i += 1;
    }
    proof {
        assert(content@.take(n as int) =~= content@);
    }
    out
}

/// Whether some header key is `content-type` up to ASCII case.
pub open spec fn has_content_type(headers: Seq<(Seq<char>, Seq<char>)>) -> bool {
    exists|i: int| 0 <= i < headers.len() && ci_eq(#[trigger] headers[i].0, "content-type"@)
}

/// The content type inferred from a body-type tag; anything unrecognized
/// falls back to JSON.
pub open spec fn inferred_content_type(body_type: Seq<char>) -> Seq<char> {
    if body_type == "json"@ {
        "application/json"@
    } else if body_type == "xml"@ {
        "application/xml"@
    } else if body_type == "text"@ {
        "text/plain"@
    } else if body_type == "form-urlencoded"@ {
        "application/x-www-form-urlencoded"@
    } else {
        "application/json"@
    }
}

fn inferred_content_type_exec(body_type: &str) -> (r: &'static str)
    ensures
        r@ == inferred_content_type(body_type@),
{
    if str_eq(body_type, "json") {
        "application/json"
    } else if str_eq(body_type, "xml") {
        "application/xml"
    } else if str_eq(body_type, "text") {
        "text/plain"
    } else if str_eq(body_type, "form-urlencoded") {
        "application/x-www-form-urlencoded"
    } else {
        "application/json"
    }
}

/// The verbose/silent flag tokens, verbose first.
pub open spec fn flags_text(opts: CurlOptions) -> Seq<char> {
    (if opts.verbose {
        " -v"@
    } else {
        Seq::empty()
    }) + (if opts.silent {
        " -s"@
    } else {
        Seq::empty()
    })
}

/// The inferred `Content-Type` header token: present only when a body is
/// present and no header already names the content type.
pub open spec fn content_type_text(doc: DocModel) -> Seq<char> {
    match doc.body {
        Some(b) => if !has_content_type(doc.headers) {
            " -H 'Content-Type: "@ + inferred_content_type(b.body_type) + "'"@
        } else {
            Seq::empty()
        },
        None => Seq::empty(),
    }
}

/// One `-H` token per header, in table order.
pub open spec fn headers_text(headers: Seq<(Seq<char>, Seq<char>)>) -> Seq<char>
    decreases headers.len(),
{
    if headers.len() == 0 {
        Seq::empty()
    } else {
        " -H '"@ + headers[0].0 + ": "@ + headers[0].1 + "'"@ + headers_text(headers.drop_first())
    }
}

proof fn lemma_headers_text_push(t: Seq<(Seq<char>, Seq<char>)>, p: (Seq<char>, Seq<char>))
    ensures
        headers_text(t.push(p)) == headers_text(t) + (" -H '"@ + p.0 + ": "@ + p.1 + "'"@),
    decreases t.len(),
{
    let u = " -H '"@ + p.0 + ": "@ + p.1 + "'"@;
    if t.len() == 0 {
        assert(t.push(p).drop_first() =~= Seq::empty());
        assert(t =~= Seq::<(Seq<char>, Seq<char>)>::empty());
        assert(headers_text(t.push(p)) =~= headers_text(t) + u);
    } else {
        assert(t.push(p).drop_first() =~= t.drop_first().push(p));
        lemma_headers_text_push(t.drop_first(), p);
        assert(t.push(p)[0] == t[0]);
        let h = " -H '"@ + t[0].0 + ": "@ + t[0].1 + "'"@;
        assert(headers_text(t.push(p)) == h + (headers_text(t.drop_first()) + u));
        assert(h + (headers_text(t.drop_first()) + u) =~= (h + headers_text(t.drop_first())) + u);
    }
}

/// The `-d` token: present only when a body with non-empty content is
/// present; the content is escaped.
pub open spec fn data_text(doc: DocModel) -> Seq<char> {
    match doc.body {
        Some(b) => if b.content.len() > 0 {
            " -d '"@ + escaped(b.content) + "'"@
        } else {
            Seq::empty()
        },
        None => Seq::empty(),
    }
}

/// The whole generated command line.
pub open spec fn curl_text(doc: DocModel, opts: CurlOptions) -> Seq<char> {
    "curl"@ + flags_text(opts) + " -X "@ + doc.request.method.spec_str() + " '"@ + doc.request.url
        + "'"@ + content_type_text(doc) + headers_text(doc.headers) + data_text(doc)
}

/// Escaping touches single quotes only: content without a single quote
/// passes through the `-d` escaping unchanged.
pub proof fn lemma_escape_without_quotes(s: Seq<char>)
    requires
        forall|i: int| 0 <= i < s.len() ==> s[i] != '\'',
    ensures
        escaped(s) == s,
    decreases s.len(),
{
    if s.len() > 0 {
        lemma_escape_without_quotes(s.drop_first());
        assert(seq![s[0]] + s.drop_first() =~= s);
    }
}

/// Header lookup for the content type is case-insensitive: when a body is
/// present and any header key equals `content-type` up to ASCII case, the
/// command carries no inferred `Content-Type` token — only the header's
/// own `-H` token appears.
pub proof fn lemma_existing_content_type_wins(doc: DocModel, opts: CurlOptions, i: int)
    requires
        doc.body is Some,
        0 <= i < doc.headers.len(),
        ci_eq(doc.headers[i].0, "content-type"@),
    ensures
        content_type_text(doc) == Seq::<char>::empty(),
        curl_text(doc, opts) == "curl"@ + flags_text(opts) + " -X "@ + doc.request.method.spec_str()
            + " '"@ + doc.request.url + "'"@ + headers_text(doc.headers) + data_text(doc),
{
    assert(has_content_type(doc.headers));
    assert(curl_text(doc, opts) =~= "curl"@ + flags_text(opts) + " -X "@
        + doc.request.method.spec_str() + " '"@ + doc.request.url + "'"@ + headers_text(doc.headers)
        + data_text(doc));
}

/// Renders a parsed document and options as one curl command line:
/// `curl`, the flags, `-X` and the method, the quoted URL, an inferred
/// `Content-Type` header when a body is present and none is given, one
/// `-H` per header, and the escaped body under `-d`.
pub fn generate_curl(bru: &BruFile, options: &CurlOptions) -> (r: String)
    ensures
        r@ == curl_text(bru@, *options),
{
    let mut out = String::from_str("curl");
    if options.verbose {
        out.append(" -v");
    }
    if options.silent {
        out.append(" -s");
    }
    out.append(" -X ");
    out.append(bru.request.method.as_str());
    out.append(" '");
    out.append(bru.request.url.as_str());
    out.append("'");
    proof {
        assert(out@ =~= "curl"@ + flags_text(*options) + " -X "@ + bru@.request.method.spec_str()
            + " '"@ + bru@.request.url + "'"@);
    }
    let has_ct = bru.headers.has_key_ignore_case("content-type");
    match &bru.body {
        Some(b) => {
            if !has_ct {
                out.append(" -H 'Content-Type: ");
                out.append(inferred_content_type_exec(b.body_type.as_str()));
                out.append("'");
            }
        },
        None => {},
    }
    proof {
        assert(out@ =~= "curl"@ + flags_text(*options) + " -X "@ + bru@.request.method.spec_str()
            + " '"@ + bru@.request.url + "'"@ + content_type_text(bru@));
    }
    let ghost base = out@;
    let hn = bru.headers.len();
    let mut i: usize = 0;
    while i < hn
        invariant
            i <= hn,
            hn == bru.headers@.len(),
            out@ == base + headers_text(bru.headers@.take(i as int)),
        decreases hn - i,
    {
        proof {
            lemma_headers_text_push(bru.headers@.take(i as int), bru.headers@[i as int]);
            assert(bru.headers@.take(i as int).push(bru.headers@[i as int]) =~= bru.headers@.take(
                i + 1,
            ));
        }
        out.append(" -H '");
        out.append(bru.headers.key_at(i).as_str());
        out.append(": ");
        out.append(bru.headers.value_at(i).as_str());
        out.append("'");
        proof {
            assert(out@ =~= base + headers_text(bru.headers@.take(i + 1)));
        }
        i += 1;
    }
    proof {
        assert(bru.headers@.take(hn as int) =~= bru.headers@);
    }
    match &bru.body {
        Some(b) => {
            if !b.content.as_str().is_empty() {
                out.append(" -d '");
                let esc = escape_body(b.content.as_str());
                out.append(esc.as_str());
                out.append("'");
            }
        },
        None => {},
    }
    proof {
        assert(out@ =~= curl_text(bru@, *options));
    }
    out
}

} // verus!
