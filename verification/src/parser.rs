//! The document parser: two entry points sharing one top-level loop shape.
//!
//! `parse_bru_file` turns a request document into a `BruFile`;
//! `parse_environment` turns an environment document into an `Environment`.
//! Each is specified against a recursive spec-level parser over the
//! character sequence (`bru_loop`, `env_loop`, `kv_loop`), and the exec
//! code is proved to compute exactly what the spec parser describes.

use vstd::prelude::*;
use vstd::string::StrSliceExecFns;
use vstd::string::StringExecFns;
use crate::ast::BodyModel;
use crate::ast::Body;
use crate::ast::BruFile;
use crate::ast::DocModel;
use crate::ast::Environment;
use crate::ast::KvTable;
use crate::ast::Method;
use crate::ast::RequestModel;
use crate::ast::Request;
use crate::ast::lemma_method_keywords;
use crate::ast::method_of_keyword;
use crate::ast::table_get;
use crate::ast::table_set;
use crate::scan::after_close;
use crate::scan::after_line;
use crate::scan::close_index;
use crate::scan::ident_end;
use crate::scan::inline_ws_end;
use crate::scan::key_end;
use crate::scan::is_ident_char;
use crate::scan::lemma_after_close_bounds;
use crate::scan::lemma_ident_end_bounds;
use crate::scan::lemma_ident_end_run;
use crate::scan::lemma_inline_ws_end_run;
use crate::scan::lemma_key_end_run;
use crate::scan::lemma_line_end_run;
use crate::scan::lemma_balanced_content_captured;
use crate::scan::lemma_ws_end_run;
use crate::scan::rstrip_end;
use crate::scan::well_nested_at;
use crate::scan::lemma_inline_ws_end_bounds;
use crate::scan::lemma_key_end_bounds;
use crate::scan::lemma_line_end_bounds;
use crate::scan::lemma_ws_end_bounds;
use crate::scan::line_end;
use crate::scan::read_balanced_braces;
use crate::scan::read_identifier;
use crate::scan::read_line;
use crate::scan::read_until_colon;
use crate::scan::skip_block;
use crate::scan::skip_line;
use crate::scan::skip_whitespace;
use crate::scan::skip_whitespace_no_newline;
use crate::scan::str_eq;
use crate::scan::str_eq_ignore_case;
use crate::scan::trim_str;
use crate::scan::trimmed;
use crate::scan::ws_end;

verus! {

/// What a run of the shared key-value block loop produces: the table
/// entries and the cursor position it stops at.
pub struct KvOutcome {
    pub entries: Seq<(Seq<char>, Seq<char>)>,
    pub at: int,
}

/// The spec-level key-value block parser, entered just inside the opening
/// brace with `acc` accumulated so far: reads `key: value` lines, trimming
/// both sides, until the closing brace (consumed) or the end of input.
pub open spec fn kv_loop(s: Seq<char>, i: int, acc: Seq<(Seq<char>, Seq<char>)>) -> KvOutcome
    decreases s.len() - i,
    when 0 <= i <= s.len()
{
    let j = ws_end(s, i);
    if j < s.len() && s[j] == '}' {
        KvOutcome { entries: acc, at: j + 1 }
    } else if j >= s.len() {
        KvOutcome { entries: acc, at: j }
    } else {
        let ke = key_end(s, j);
        if ke == j {
            proof {
                lemma_ws_end_bounds(s, i);
                lemma_line_end_bounds(s, j);
            }
            kv_loop(s, after_line(s, j), acc)
        } else {
            let ac = if ke < s.len() && s[ke] == ':' {
                ke + 1
            } else {
                ke
            };
            let vs = inline_ws_end(s, ac);
            let ve = line_end(s, vs);
            proof {
                lemma_ws_end_bounds(s, i);
                lemma_key_end_bounds(s, j);
                lemma_inline_ws_end_bounds(s, ac);
                lemma_line_end_bounds(s, vs);
            }
            kv_loop(
                s,
                after_line(s, vs),
                table_set(acc, trimmed(s.subrange(j, ke)), trimmed(s.subrange(vs, ve))),
            )
        }
    }
}

/// The cursor position a key-value block run stops at lies between its
/// starting position and the end of input.
pub proof fn lemma_kv_loop_bounds(s: Seq<char>, i: int, acc: Seq<(Seq<char>, Seq<char>)>)
    requires
        0 <= i <= s.len(),
    ensures
        i <= kv_loop(s, i, acc).at <= s.len(),
    decreases s.len() - i,
{
    lemma_ws_end_bounds(s, i);
    let j = ws_end(s, i);
    if j < s.len() && s[j] == '}' {
    } else if j >= s.len() {
    } else {
        let ke = key_end(s, j);
        if ke == j {
            lemma_line_end_bounds(s, j);
            lemma_kv_loop_bounds(s, after_line(s, j), acc);
        } else {
            lemma_key_end_bounds(s, j);
            let ac = if ke < s.len() && s[ke] == ':' {
                ke + 1
            } else {
                ke
            };
            let vs = inline_ws_end(s, ac);
            let ve = line_end(s, vs);
            lemma_inline_ws_end_bounds(s, ac);
            lemma_line_end_bounds(s, vs);
            lemma_kv_loop_bounds(
                s,
                after_line(s, vs),
                table_set(acc, trimmed(s.subrange(j, ke)), trimmed(s.subrange(vs, ve))),
            );
        }
    }
}

/// The URL a method block yields: the entry under `url`, or empty.
pub open spec fn spec_url_of(entries: Seq<(Seq<char>, Seq<char>)>) -> Seq<char> {
    match table_get(entries, "url"@) {
        Some(v) => v,
        None => Seq::empty(),
    }
}

/// Whether `s` is exactly one of the seven method keywords in their
/// lower-case spelling; the dispatch itself recognizes every ASCII letter
/// case (`method_of_keyword`), so this names the canonical spellings the
/// laws below quantify over.
pub open spec fn is_method_keyword(s: Seq<char>) -> bool {
    s == "get"@ || s == "post"@ || s == "put"@ || s == "delete"@ || s == "patch"@ || s
        == "options"@ || s == "head"@
}

/// The method a lower-case keyword names.
pub open spec fn exact_method(s: Seq<char>) -> Method {
    if s == "get"@ {
        Method::Get
    } else if s == "post"@ {
        Method::Post
    } else if s == "put"@ {
        Method::Put
    } else if s == "delete"@ {
        Method::Delete
    } else if s == "patch"@ {
        Method::Patch
    } else if s == "options"@ {
        Method::Options
    } else {
        Method::Head
    }
}

/// The request parser's running state: the last method block seen, the
/// last body block seen, and the last headers block seen.
pub struct ParseState {
    pub request: Option<RequestModel>,
    pub body: Option<BodyModel>,
    pub headers: Seq<(Seq<char>, Seq<char>)>,
}

/// The state parsing starts from: nothing seen yet.
pub open spec fn init_state() -> ParseState {
    ParseState { request: None, body: None, headers: Seq::empty() }
}

/// The spec-level request document parser: from position `i` with state
/// `st`, reads blocks to the end of input and returns the final state.
/// Stray lines are skipped; a method keyword is recognized in any ASCII
/// letter case; later method, headers, and body blocks overwrite earlier
/// ones; unknown blocks are skipped brace-balanced.
pub open spec fn bru_loop(s: Seq<char>, i: int, st: ParseState) -> ParseState
    decreases s.len() - i,
    when 0 <= i <= s.len()
{
    if i >= s.len() {
        st
    } else {
        let j = ws_end(s, i);
        let ie = ident_end(s, j);
        let name = s.subrange(j, ie);
        if ie == j {
            proof {
                lemma_ws_end_bounds(s, i);
                lemma_line_end_bounds(s, j);
            }
            bru_loop(s, after_line(s, j), st)
        } else {
            let m = inline_ws_end(s, ie);
            proof {
                lemma_ws_end_bounds(s, i);
                lemma_ident_end_bounds(s, j);
                lemma_inline_ws_end_bounds(s, ie);
            }
            if name == "body"@ && m < s.len() && s[m] == ':' {
                let te = ident_end(s, m + 1);
                let btype = s.subrange(m + 1, te);
                let w = ws_end(s, te);
                proof {
                    lemma_ident_end_bounds(s, m + 1);
                    lemma_ws_end_bounds(s, te);
                }
                if w < s.len() && s[w] == '{' {
                    let ce = close_index(s, w + 1, 1);
                    let content = trimmed(s.subrange(w + 1, ce));
                    proof {
                        lemma_after_close_bounds(s, w + 1);
                    }
                    bru_loop(
                        s,
                        after_close(s, w + 1),
                        ParseState {
                            body: Some(BodyModel { body_type: btype, content }),
                            ..st
                        },
                    )
                } else {
                    bru_loop(s, w, st)
                }
            } else if !(m < s.len() && s[m] == '{') {
                proof {
                    lemma_line_end_bounds(s, m);
                }
                bru_loop(s, after_line(s, m), st)
            } else if method_of_keyword(name) is Some {
                let o = kv_loop(s, m + 1, Seq::empty());
                proof {
                    lemma_kv_loop_bounds(s, m + 1, Seq::empty());
                }
                bru_loop(
                    s,
                    o.at,
                    ParseState {
                        request: Some(
                            RequestModel {
                                method: method_of_keyword(name)->0,
                                url: spec_url_of(o.entries),
                            },
                        ),
                        ..st
                    },
                )
            } else if name == "headers"@ {
                let o = kv_loop(s, m + 1, Seq::empty());
                proof {
                    lemma_kv_loop_bounds(s, m + 1, Seq::empty());
                }
                bru_loop(s, o.at, ParseState { headers: o.entries, ..st })
            } else {
                proof {
                    lemma_after_close_bounds(s, m + 1);
                }
                bru_loop(s, after_close(s, m + 1), st)
            }
        }
    }
}

/// What parsing a whole request document yields.
pub open spec fn spec_parse_bru(s: Seq<char>) -> ParseState {
    bru_loop(s, 0, init_state())
}

/// Whether any method keyword occurs anywhere in `s` as a contiguous run,
/// in any ASCII letter case.
pub open spec fn contains_method_keyword(s: Seq<char>) -> bool {
    exists|i: int, j: int|
        0 <= i <= j <= s.len() && method_of_keyword(#[trigger] s.subrange(i, j)) is Some
}

proof fn lemma_bru_loop_no_method(s: Seq<char>, i: int, st: ParseState)
    requires
        0 <= i <= s.len(),
        !contains_method_keyword(s),
        st.request is None,
    ensures
        bru_loop(s, i, st).request is None,
    decreases s.len() - i,
{
    if i >= s.len() {
    } else {
        let j = ws_end(s, i);
        let ie = ident_end(s, j);
        let name = s.subrange(j, ie);
        lemma_ws_end_bounds(s, i);
        lemma_ident_end_bounds(s, j);
        if ie == j {
            lemma_line_end_bounds(s, j);
            lemma_bru_loop_no_method(s, after_line(s, j), st);
        } else {
            let m = inline_ws_end(s, ie);
            lemma_inline_ws_end_bounds(s, ie);
            if name == "body"@ && m < s.len() && s[m] == ':' {
                let te = ident_end(s, m + 1);
                let w = ws_end(s, te);
                lemma_ident_end_bounds(s, m + 1);
                lemma_ws_end_bounds(s, te);
                if w < s.len() && s[w] == '{' {
                    let ce = close_index(s, w + 1, 1);
                    let content = trimmed(s.subrange(w + 1, ce));
                    lemma_after_close_bounds(s, w + 1);
                    lemma_bru_loop_no_method(
                        s,
                        after_close(s, w + 1),
                        ParseState {
                            body: Some(
                                BodyModel { body_type: s.subrange(m + 1, te), content },
                            ),
                            ..st
                        },
                    );
                } else {
                    lemma_bru_loop_no_method(s, w, st);
                }
            } else if !(m < s.len() && s[m] == '{') {
                lemma_line_end_bounds(s, m);
                lemma_bru_loop_no_method(s, after_line(s, m), st);
            } else if method_of_keyword(name) is Some {
                assert(contains_method_keyword(s));
            } else if name == "headers"@ {
                let o = kv_loop(s, m + 1, Seq::empty());
                lemma_kv_loop_bounds(s, m + 1, Seq::empty());
                lemma_bru_loop_no_method(s, o.at, ParseState { headers: o.entries, ..st });
            } else {
                lemma_after_close_bounds(s, m + 1);
                lemma_bru_loop_no_method(s, after_close(s, m + 1), st);
            }
        }
    }
}

/// A request document in which no method keyword occurs anywhere, in any
/// ASCII letter case, cannot contain a method block, so parsing it fails
/// with the missing-request error, whatever other blocks are present.
pub proof fn lemma_missing_method_block_fails(s: Seq<char>)
    requires
        !contains_method_keyword(s),
    ensures
        spec_parse_bru(s).request is None,
{
    lemma_bru_loop_no_method(s, 0, init_state());
}

/// A method block `<keyword> {\nurl: <url>\n}` at the very start of a
/// document: the parser reads through its closing brace and continues
/// with exactly that request recorded, whatever follows and whatever was
/// seen before.
#[verifier::rlimit(50)]
proof fn lemma_method_block_head(s: Seq<char>, kw: Seq<char>, url: Seq<char>, st: ParseState)
    requires
        is_method_keyword(kw),
        forall|i: int| 0 <= i < url.len() ==> url[i] != '\n',
        trimmed(url) == url,
        kw.len() + 10 + url.len() <= s.len(),
        s.subrange(0, kw.len() as int) == kw,
        s.subrange(kw.len() as int, kw.len() as int + 8) == " {\nurl: "@,
        s.subrange(kw.len() as int + 8, kw.len() as int + 8 + url.len() as int) == url,
        s.subrange(
            kw.len() as int + 8 + url.len() as int,
            kw.len() as int + 10 + url.len() as int,
        ) == "\n}"@,
    ensures
        bru_loop(s, 0, st) == bru_loop(
            s,
            kw.len() as int + 10 + url.len() as int,
            (ParseState { request: Some(RequestModel { method: exact_method(kw), url }), ..st }),
        ),
{
    reveal_strlit("get");
    reveal_strlit("post");
    reveal_strlit("put");
    reveal_strlit("delete");
    reveal_strlit("patch");
    reveal_strlit("options");
    reveal_strlit("head");
    reveal_strlit(" {\nurl: ");
    reveal_strlit("\n}");
    reveal_strlit("url");
    reveal_strlit("body");
    lemma_method_keywords();
    let lit1 = " {\nurl: "@;
    let lit2 = "\n}"@;
    let kl = kw.len() as int;
    let ul = url.len() as int;
    assert(3 <= kl <= 7);
    assert forall|k: int| 0 <= k < kl implies s[k] == kw[k] by {
        assert(s.subrange(0, kl)[k] == s[k]);
    }
    assert forall|k: int| kl <= k < kl + 8 implies s[k] == lit1[k - kl] by {
        assert(s.subrange(kl, kl + 8)[k - kl] == s[k]);
    }
    assert forall|k: int| kl + 8 <= k < kl + 8 + ul implies s[k] == url[k - (kl + 8)] by {
        assert(s.subrange(kl + 8, kl + 8 + ul)[k - (kl + 8)] == s[k]);
    }
    assert forall|k: int| kl + 8 + ul <= k < kl + 10 + ul implies s[k] == lit2[k - (kl + 8 + ul)]
        by {
        assert(s.subrange(kl + 8 + ul, kl + 10 + ul)[k - (kl + 8 + ul)] == s[k]);
    }
    assert(s[kl] == ' ');
    assert(s[kl + 1] == '{');
    assert(s[kl + 2] == '\n');
    assert(s[kl + 3] == 'u');
    assert(s[kl + 4] == 'r');
    assert(s[kl + 5] == 'l');
    assert(s[kl + 6] == ':');
    assert(s[kl + 7] == ' ');
    assert(s[kl + 8 + ul] == '\n');
    assert(s[kl + 9 + ul] == '}');
    assert(forall|k: int| 0 <= k < kl ==> is_ident_char(kw[k]));
    assert(kw != "body"@) by {
        if kw == "post"@ {
            assert("post"@[0] != "body"@[0]);
        }
        if kw == "head"@ {
            assert("head"@[0] != "body"@[0]);
        }
    }
    // the top-level block scan: the keyword, one space, the opening brace
    assert(s[0] == kw[0]);
    assert(ws_end(s, 0) == 0);
    lemma_ident_end_run(s, 0, kl);
    assert(s.subrange(0, kl) =~= kw);
    lemma_inline_ws_end_run(s, kl, kl + 1);
    assert(s[kl + 1] == '{');
    // the key-value block: `url: <url>` then the closing brace
    lemma_ws_end_run(s, kl + 2, kl + 3);
    assert(s[kl + 3] != '}');
    lemma_key_end_run(s, kl + 3, kl + 6);
    assert(s.subrange(kl + 3, kl + 6) =~= "url"@);
    assert(s[kl + 6] == ':');
    if ul > 0 {
        crate::scan::lemma_trimmed_fixed(url);
    }
    lemma_inline_ws_end_run(s, kl + 7, kl + 8);
    lemma_line_end_run(s, kl + 8, kl + 8 + ul);
    assert(s.subrange(kl + 8, kl + 8 + ul) =~= url);
    assert(trimmed("url"@) == "url"@) by {
        assert(ws_end("url"@, 0) == 0);
        assert(rstrip_end("url"@, 3) == 3);
        assert("url"@.subrange(0, 3) =~= "url"@);
    }
    let acc1 = table_set(Seq::empty(), "url"@, url);
    assert(acc1 =~= seq![("url"@, url)]);
    // the line after the value holds only the closing brace
    assert(s[kl + 9 + ul] == '}');
    assert(ws_end(s, kl + 9 + ul) == kl + 9 + ul);
    assert(kv_loop(s, kl + 9 + ul, acc1) == (KvOutcome { entries: acc1, at: kl + 10 + ul }));
    assert(kv_loop(s, kl + 2, Seq::empty()) == (KvOutcome { entries: acc1, at: kl + 10 + ul }));
    assert(table_get(acc1, "url"@) == Some(url));
}

/// For every one of the seven method keywords, parsing the minimal
/// document `<keyword> {\nurl: <url>\n}` yields a request with that
/// method and exactly that URL, no body, and no headers. The URL may be
/// any single-line value that trimming leaves unchanged.
#[verifier::rlimit(50)]
pub proof fn lemma_minimal_method_document(kw: Seq<char>, url: Seq<char>)
    requires
        is_method_keyword(kw),
        forall|i: int| 0 <= i < url.len() ==> url[i] != '\n',
        trimmed(url) == url,
    ensures
        spec_parse_bru(kw + " {\nurl: "@ + url + "\n}"@) == (ParseState {
            request: Some(RequestModel { method: exact_method(kw), url }),
            body: None,
            headers: Seq::empty(),
        }),
{
    reveal_strlit(" {\nurl: ");
    reveal_strlit("\n}");
    let lit1 = " {\nurl: "@;
    let lit2 = "\n}"@;
    let s = kw + lit1 + url + lit2;
    let kl = kw.len() as int;
    let ul = url.len() as int;
    assert(s.len() == kl + 10 + ul);
    assert(s.subrange(0, kl) =~= kw);
    assert(s.subrange(kl, kl + 8) =~= lit1);
    assert(s.subrange(kl + 8, kl + 8 + ul) =~= url);
    assert(s.subrange(kl + 8 + ul, kl + 10 + ul) =~= lit2);
    lemma_method_block_head(s, kw, url, init_state());
    let fin = ParseState {
        request: Some(RequestModel { method: exact_method(kw), url }),
        body: None,
        headers: Seq::empty(),
    };
    assert(bru_loop(s, s.len() as int, fin) == fin);
}

/// Body content round-trips verbatim through parsing but for outer
/// trimming: a body block whose payload is well nested — inner brace
/// pairs and all — reaches the parse state as exactly that payload,
/// trimmed at its outer boundary only.
pub proof fn lemma_body_block_round_trip(btype: Seq<char>, c: Seq<char>)
    requires
        btype.len() > 0,
        forall|k: int| 0 <= k < btype.len() ==> is_ident_char(btype[k]),
        well_nested_at(c, 1),
    ensures
        spec_parse_bru("body:"@ + btype + " {"@ + c + "}"@) == (ParseState {
            request: None,
            body: Some(BodyModel { body_type: btype, content: trimmed(c) }),
            headers: Seq::empty(),
        }),
{
    reveal_strlit("body:");
    reveal_strlit("body");
    reveal_strlit(" {");
    reveal_strlit("}");
    let lit1 = "body:"@;
    let lit2 = " {"@;
    let lit3 = "}"@;
    let s = lit1 + btype + lit2 + c + lit3;
    let bl = btype.len() as int;
    let cl = c.len() as int;
    assert(s.len() == 8 + bl + cl);
    assert(forall|k: int| 0 <= k < 5 ==> s[k] == lit1[k]);
    assert(forall|k: int| 0 <= k < bl ==> s[5 + k] == btype[k]);
    assert(forall|k: int| 0 <= k < 2 ==> s[5 + bl + k] == lit2[k]);
    assert(forall|k: int| 0 <= k < cl ==> s[7 + bl + k] == c[k]);
    assert(s[7 + bl + cl] == '}');
    // the block scan: the name `body`, its colon, the type tag, the brace
    assert(ws_end(s, 0) == 0);
    lemma_ident_end_run(s, 0, 4);
    assert(s.subrange(0, 4) =~= "body"@);
    lemma_inline_ws_end_run(s, 4, 4);
    assert(s[4] == ':');
    lemma_ident_end_run(s, 5, 5 + bl);
    assert(s.subrange(5, 5 + bl) =~= btype);
    lemma_ws_end_run(s, 5 + bl, 6 + bl);
    assert(s[6 + bl] == '{');
    // the payload: well nested, so the scan stops at its closing brace
    assert(s.subrange(7 + bl, 7 + bl + cl) =~= c);
    lemma_balanced_content_captured(s, 7 + bl, 7 + bl + cl);
    assert(after_close(s, 7 + bl) == s.len());
    let fin = ParseState {
        request: None,
        body: Some(BodyModel { body_type: btype, content: trimmed(c) }),
        headers: Seq::empty(),
    };
    assert(bru_loop(s, s.len() as int, fin) == fin);
    assert(bru_loop(s, 0, init_state()) == fin);
}

proof fn lemma_body_block_tail(s: Seq<char>, i: int, st: ParseState, btype: Seq<char>, c: Seq<char>)
    requires
        0 <= i,
        s.len() == i + 9 + btype.len() + c.len(),
        s.subrange(i, i + 6) == "\nbody:"@,
        s.subrange(i + 6, i + 6 + btype.len() as int) == btype,
        s.subrange(i + 6 + btype.len() as int, i + 8 + btype.len() as int) == " {"@,
        s.subrange(i + 8 + btype.len() as int, i + 8 + btype.len() + c.len() as int) == c,
        s[i + 8 + btype.len() + c.len()] == '}',
        btype.len() > 0,
        forall|k: int| 0 <= k < btype.len() ==> is_ident_char(btype[k]),
        well_nested_at(c, 1),
    ensures
        bru_loop(s, i, st) == (ParseState {
            body: Some(BodyModel { body_type: btype, content: trimmed(c) }),
            ..st
        }),
{
    reveal_strlit("\nbody:");
    reveal_strlit(" {");
    reveal_strlit("body");
    let bl = btype.len() as int;
    let cl = c.len() as int;
    assert forall|k: int| i <= k < i + 6 implies s[k] == "\nbody:"@[k - i] by {
        assert(s.subrange(i, i + 6)[k - i] == s[k]);
    }
    assert forall|k: int| i + 6 <= k < i + 6 + bl implies s[k] == btype[k - (i + 6)] by {
        assert(s.subrange(i + 6, i + 6 + bl)[k - (i + 6)] == s[k]);
    }
    assert forall|k: int| i + 6 + bl <= k < i + 8 + bl implies s[k] == " {"@[k - (i + 6 + bl)] by {
        assert(s.subrange(i + 6 + bl, i + 8 + bl)[k - (i + 6 + bl)] == s[k]);
    }
    assert(s[i] == '\n');
    assert(s[i + 1] == 'b');
    assert(s[i + 2] == 'o');
    assert(s[i + 3] == 'd');
    assert(s[i + 4] == 'y');
    assert(s[i + 5] == ':');
    assert(s[i + 6 + bl] == ' ');
    assert(s[i + 7 + bl] == '{');
    lemma_ws_end_run(s, i, i + 1);
    lemma_ident_end_run(s, i + 1, i + 5);
    assert(s.subrange(i + 1, i + 5) =~= "body"@);
    lemma_inline_ws_end_run(s, i + 5, i + 5);
    lemma_ident_end_run(s, i + 6, i + 6 + bl);
    assert(s.subrange(i + 6, i + 6 + bl) =~= btype);
    lemma_ws_end_run(s, i + 6 + bl, i + 7 + bl);
    lemma_balanced_content_captured(s, i + 8 + bl, i + 8 + bl + cl);
    assert(after_close(s, i + 8 + bl) == s.len());
    let fin = ParseState { body: Some(BodyModel { body_type: btype, content: trimmed(c) }), ..st };
    assert(bru_loop(s, s.len() as int, fin) == fin);
    assert(bru_loop(s, i, st) == fin);
}

/// Body content round-trips through a whole, well-formed request document:
/// a document holding a method block and a `body:<type>` block whose
/// payload is well nested parses to exactly that request together with
/// exactly that payload — inner brace pairs and all — trimmed at its
/// outer boundary only.
#[verifier::rlimit(60)]
pub proof fn lemma_method_and_body_document(
    kw: Seq<char>,
    url: Seq<char>,
    btype: Seq<char>,
    c: Seq<char>,
)
    requires
        is_method_keyword(kw),
        forall|i: int| 0 <= i < url.len() ==> url[i] != '\n',
        trimmed(url) == url,
        btype.len() > 0,
        forall|k: int| 0 <= k < btype.len() ==> is_ident_char(btype[k]),
        well_nested_at(c, 1),
    ensures
        spec_parse_bru(kw + " {\nurl: "@ + url + "\n}\nbody:"@ + btype + " {"@ + c + "}"@) == (
        ParseState {
            request: Some(RequestModel { method: exact_method(kw), url }),
            body: Some(BodyModel { body_type: btype, content: trimmed(c) }),
            headers: Seq::empty(),
        }),
{
    reveal_strlit(" {\nurl: ");
    reveal_strlit("\n}\nbody:");
    reveal_strlit("\n}");
    reveal_strlit("\nbody:");
    reveal_strlit(" {");
    reveal_strlit("}");
    let lit1 = " {\nurl: "@;
    let lit2 = "\n}\nbody:"@;
    let lit3 = " {"@;
    let lit4 = "}"@;
    let s = kw + lit1 + url + lit2 + btype + lit3 + c + lit4;
    let kl = kw.len() as int;
    let ul = url.len() as int;
    let bl = btype.len() as int;
    let cl = c.len() as int;
    assert(s.len() == kl + 19 + ul + bl + cl);
    // the document decomposes as a method block head and a body block tail
    assert(s.subrange(0, kl) =~= kw);
    assert(s.subrange(kl, kl + 8) =~= lit1);
    assert(s.subrange(kl + 8, kl + 8 + ul) =~= url);
    assert(s.subrange(kl + 8 + ul, kl + 10 + ul) =~= "\n}"@);
    lemma_method_block_head(s, kw, url, init_state());
    let i2 = kl + 10 + ul;
    let st1 = ParseState {
        request: Some(RequestModel { method: exact_method(kw), url }),
        body: None,
        headers: Seq::empty(),
    };
    assert(s.subrange(i2, i2 + 6) =~= "\nbody:"@);
    assert(s.subrange(i2 + 6, i2 + 6 + bl) =~= btype);
    assert(s.subrange(i2 + 6 + bl, i2 + 8 + bl) =~= " {"@);
    assert(s.subrange(i2 + 8 + bl, i2 + 8 + bl + cl) =~= c);
    assert(s[i2 + 8 + bl + cl] == '}');
    lemma_body_block_tail(s, i2, st1, btype, c);
}

/// The spec-level environment document parser: only a `vars` block is
/// meaningful; its entries replace the variables seen so far.
pub open spec fn env_loop(s: Seq<char>, i: int, vars: Seq<(Seq<char>, Seq<char>)>) -> Seq<
    (Seq<char>, Seq<char>),
>
    decreases s.len() - i,
    when 0 <= i <= s.len()
{
    if i >= s.len() {
        vars
    } else {
        let j = ws_end(s, i);
        let ie = ident_end(s, j);
        let name = s.subrange(j, ie);
        if ie == j {
            proof {
                lemma_ws_end_bounds(s, i);
                lemma_line_end_bounds(s, j);
            }
            env_loop(s, after_line(s, j), vars)
        } else {
            let m = inline_ws_end(s, ie);
            proof {
                lemma_ws_end_bounds(s, i);
                lemma_ident_end_bounds(s, j);
                lemma_inline_ws_end_bounds(s, ie);
            }
            if !(m < s.len() && s[m] == '{') {
                proof {
                    lemma_line_end_bounds(s, m);
                }
                env_loop(s, after_line(s, m), vars)
            } else if name == "vars"@ {
                let o = kv_loop(s, m + 1, Seq::empty());
                proof {
                    lemma_kv_loop_bounds(s, m + 1, Seq::empty());
                }
                env_loop(s, o.at, o.entries)
            } else {
                proof {
                    lemma_after_close_bounds(s, m + 1);
                }
                env_loop(s, after_close(s, m + 1), vars)
            }
        }
    }
}

/// What parsing a whole environment document yields.
pub open spec fn spec_parse_env(s: Seq<char>) -> Seq<(Seq<char>, Seq<char>)> {
    env_loop(s, 0, Seq::empty())
}

/// Parses a `key: value` block with the cursor just inside its opening
/// brace, consuming through the balancing close brace (or to the end of
/// input); keys and values are trimmed, later duplicate keys overwrite.
pub fn parse_key_value_block(s: &str, pos: &mut usize) -> (r: KvTable)
    requires
        *old(pos) <= s@.len(),
    ensures
        r@ == kv_loop(s@, *old(pos) as int, Seq::empty()).entries,
        *final(pos) == kv_loop(s@, *old(pos) as int, Seq::empty()).at,
        *old(pos) <= *final(pos) <= s@.len(),
        r.wf(),
{
    let n = s.unicode_len();
    let mut m = KvTable::new();
    loop
        invariant_except_break
            *old(pos) <= *pos,
            *pos <= n,
            n == s@.len(),
            m.wf(),
            kv_loop(s@, *pos as int, m@) == kv_loop(s@, *old(pos) as int, Seq::empty()),
        ensures
            *old(pos) <= *pos,
            *pos <= n,
            n == s@.len(),
            m.wf(),
            m@ == kv_loop(s@, *old(pos) as int, Seq::empty()).entries,
            *pos == kv_loop(s@, *old(pos) as int, Seq::empty()).at,
        decreases n - *pos,
    {
        let ghost p0 = *pos as int;
        let ghost m0 = m@;
        skip_whitespace(s, pos);
        if *pos < n && s.get_char(*pos) == '}' {
            *pos += 1;
            break ;
        }
        if *pos >= n {
            break ;
        }
        let key = read_until_colon(s, pos);
        if key.as_str().is_empty() {
            skip_line(s, pos);
            proof {
                lemma_ws_end_bounds(s@, p0);
            }
            continue ;
        }
        if *pos < n && s.get_char(*pos) == ':' {
            *pos += 1;
        }
        skip_whitespace_no_newline(s, pos);
        let ghost vs = *pos as int;
        let value = read_line(s, pos);
        let tk = trim_str(key.as_str());
        let tv = trim_str(value.as_str());
        m.insert(tk, tv);
        proof {
            lemma_ws_end_bounds(s@, p0);
            assert(kv_loop(s@, p0, m0) == kv_loop(s@, *pos as int, m@));
        }
    }
    m
}

/// Parses the inside of a method block into a request: the method comes
/// from the block keyword, the URL from the block's `url` entry (empty
/// when absent).
pub fn parse_method_block(method_str: &str, s: &str, pos: &mut usize) -> (r: Result<
    Request,
    String,
>)
    requires
        *old(pos) <= s@.len(),
    ensures
        *final(pos) == kv_loop(s@, *old(pos) as int, Seq::empty()).at,
        *old(pos) <= *final(pos) <= s@.len(),
        match method_of_keyword(method_str@) {
            Some(m) => r is Ok && r->Ok_0@ == (RequestModel {
                method: m,
                url: spec_url_of(kv_loop(s@, *old(pos) as int, Seq::empty()).entries),
            }),
            None => r is Err && r->Err_0@ == "Unknown method: "@ + method_str@,
        },
{
    let entries = parse_key_value_block(s, pos);
    let method = match Method::from_keyword(method_str) {
        Ok(m) => m,
        Err(e) => {
            return Err(e);
        },
    };
    let url = match entries.get("url") {
        Some(v) => v.clone(),
        None => String::new(),
    };
    Ok(Request { method, url })
}

/// The view of the running exec state as a spec parse state.
pub open spec fn state_view(
    request: Option<Request>,
    body: Option<Body>,
    headers: Seq<(Seq<char>, Seq<char>)>,
) -> ParseState {
    ParseState {
        request: match request {
            Some(r) => Some(r@),
            None => None,
        },
        body: match body {
            Some(b) => Some(b@),
            None => None,
        },
        headers,
    }
}

/// Parses a request document. The result is exactly what the spec-level
/// parser describes; the one failing input is a document in which no
/// method block was found.
pub fn parse_bru_file(content: &str) -> (r: Result<BruFile, String>)
    ensures
        match spec_parse_bru(content@).request {
            Some(req) => r is Ok && r->Ok_0@ == (DocModel {
                request: req,
                body: spec_parse_bru(content@).body,
                headers: spec_parse_bru(content@).headers,
            }) && r->Ok_0.headers.wf(),
            None => r is Err && r->Err_0@ == "No request method block found"@,
        },
{
    let n = content.unicode_len();
    let mut pos: usize = 0;
    let mut request: Option<Request> = None;
    let mut body: Option<Body> = None;
    let mut headers = KvTable::new();
    proof {
        assert(state_view(request, body, headers@) == init_state());
    }
    while pos < n
        invariant
            pos <= n,
            n == content@.len(),
            headers.wf(),
            bru_loop(content@, pos as int, state_view(request, body, headers@)) == spec_parse_bru(
                content@,
            ),
        decreases n - pos,
    {
        let ghost p0 = pos as int;
        let ghost st0 = state_view(request, body, headers@);
        skip_whitespace(content, &mut pos);
        let block_name = read_identifier(content, &mut pos);
        if block_name.as_str().is_empty() {
            skip_line(content, &mut pos);
            proof {
                lemma_ws_end_bounds(content@, p0);
            }
            continue ;
        }
        skip_whitespace_no_newline(content, &mut pos);
        if str_eq(block_name.as_str(), "body") && pos < n && content.get_char(pos) == ':' {
            pos += 1;
            let body_type = read_identifier(content, &mut pos);
            skip_whitespace(content, &mut pos);
            if pos < n && content.get_char(pos) == '{' {
                pos += 1;
                let ghost w1 = pos as int;
                let content_str = read_balanced_braces(content, &mut pos);
                let trimmed_content = trim_str(content_str.as_str());
                body = Some(Body { body_type, content: trimmed_content });
            }
            proof {
                assert(bru_loop(content@, p0, st0) == bru_loop(
                    content@,
                    pos as int,
                    state_view(request, body, headers@),
                ));
            }
            continue ;
        }
        if !(pos < n && content.get_char(pos) == '{') {
            skip_line(content, &mut pos);
            proof {
                assert(bru_loop(content@, p0, st0) == bru_loop(
                    content@,
                    pos as int,
                    state_view(request, body, headers@),
                ));
            }
            continue ;
        }
        pos += 1;
        if str_eq_ignore_case(block_name.as_str(), "get") || str_eq_ignore_case(
            block_name.as_str(),
            "post",
        ) || str_eq_ignore_case(block_name.as_str(), "put") || str_eq_ignore_case(
            block_name.as_str(),
            "delete",
        ) || str_eq_ignore_case(block_name.as_str(), "patch") || str_eq_ignore_case(
            block_name.as_str(),
            "options",
        ) || str_eq_ignore_case(block_name.as_str(), "head") {
            let req = match parse_method_block(block_name.as_str(), content, &mut pos) {
                Ok(q) => q,
                Err(e) => {
                    proof {
                        assert(false);
                    }
                    return Err(e);
                },
            };
            request = Some(req);
            proof {
                assert(bru_loop(content@, p0, st0) == bru_loop(
                    content@,
                    pos as int,
                    state_view(request, body, headers@),
                ));
            }
        } else if str_eq(block_name.as_str(), "headers") {
            headers = parse_key_value_block(content, &mut pos);
            proof {
                assert(bru_loop(content@, p0, st0) == bru_loop(
                    content@,
                    pos as int,
                    state_view(request, body, headers@),
                ));
            }
        } else {
            skip_block(content, &mut pos);
            proof {
                assert(bru_loop(content@, p0, st0) == bru_loop(
                    content@,
                    pos as int,
                    state_view(request, body, headers@),
                ));
            }
        }
    }
    match request {
        Some(req) => {
            let r = BruFile { request: req, body, headers };
            Ok(r)
        },
        None => Err(String::from_str("No request method block found")),
    }
}

/// Parses an environment document: the variables of its `vars` block.
/// Parsing an environment document never fails.
pub fn parse_environment(content: &str) -> (r: Result<Environment, String>)
    ensures
        r is Ok,
        r->Ok_0@ == spec_parse_env(content@),
        r->Ok_0.vars.wf(),
{
    let n = content.unicode_len();
    let mut pos: usize = 0;
    let mut vars = KvTable::new();
    while pos < n
        invariant
            pos <= n,
            n == content@.len(),
            vars.wf(),
            env_loop(content@, pos as int, vars@) == spec_parse_env(content@),
        decreases n - pos,
    {
        let ghost p0 = pos as int;
        let ghost v0 = vars@;
        skip_whitespace(content, &mut pos);
        let block_name = read_identifier(content, &mut pos);
        if block_name.as_str().is_empty() {
            skip_line(content, &mut pos);
            proof {
                lemma_ws_end_bounds(content@, p0);
            }
            continue ;
        }
        skip_whitespace_no_newline(content, &mut pos);
        if !(pos < n && content.get_char(pos) == '{') {
            skip_line(content, &mut pos);
            proof {
                assert(env_loop(content@, p0, v0) == env_loop(content@, pos as int, vars@));
            }
            continue ;
        }
        pos += 1;
        if str_eq(block_name.as_str(), "vars") {
            vars = parse_key_value_block(content, &mut pos);
            proof {
                assert(env_loop(content@, p0, v0) == env_loop(content@, pos as int, vars@));
            }
        } else {
            skip_block(content, &mut pos);
            proof {
                assert(env_loop(content@, p0, v0) == env_loop(content@, pos as int, vars@));
            }
        }
    }
    Ok(Environment { vars })
}

} // verus!


