//! The block scanner: a forward-only cursor over the characters of the input
//! string, with the primitives the document parser is built from.
//!
//! Every primitive is specified against a spec function that computes, from
//! the character sequence and the cursor position, where the primitive stops;
//! the exec code is proved to land exactly there and (for the reading
//! primitives) to return exactly the characters in between.

use vstd::prelude::*;
use vstd::string::StrSliceExecFns;
use vstd::string::StringExecFns;

verus! {

/// Whitespace as the scanner understands it: space, tab, carriage return,
/// newline. The reading is deliberately ASCII: exotic Unicode whitespace
/// (form feed, no-break space, …) is ordinary content to this scanner.
pub open spec fn is_space(c: char) -> bool {
    c == ' ' || c == '\t' || c == '\n' || c == '\r'
}

/// Inline whitespace: space or tab, but not a line break.
pub open spec fn is_inline_space(c: char) -> bool {
    c == ' ' || c == '\t'
}

/// Identifier characters: ASCII letters, digits, `_` and `-`, and those
/// only — a block name written with a non-ASCII letter is not an
/// identifier here, so such a line is skipped rather than read as a block.
pub open spec fn is_ident_char(c: char) -> bool {
    ('a' <= c && c <= 'z') || ('A' <= c && c <= 'Z') || ('0' <= c && c <= '9') || c == '_' || c
        == '-'
}

/// The first position at or after `i` whose character is not whitespace,
/// or the end of input.
pub open spec fn ws_end(s: Seq<char>, i: int) -> int
    decreases s.len() - i,
{
    if 0 <= i < s.len() && is_space(s[i]) {
        ws_end(s, i + 1)
    } else {
        i
    }
}

/// The first position at or after `i` whose character is not inline
/// whitespace, or the end of input.
pub open spec fn inline_ws_end(s: Seq<char>, i: int) -> int
    decreases s.len() - i,
{
    if 0 <= i < s.len() && is_inline_space(s[i]) {
        inline_ws_end(s, i + 1)
    } else {
        i
    }
}

/// The first position at or after `i` whose character is not an identifier
/// character, or the end of input.
pub open spec fn ident_end(s: Seq<char>, i: int) -> int
    decreases s.len() - i,
{
    if 0 <= i < s.len() && is_ident_char(s[i]) {
        ident_end(s, i + 1)
    } else {
        i
    }
}

/// The first position at or after `i` holding `:`, a newline, or `}`, or
/// the end of input; keys run up to here.
pub open spec fn key_end(s: Seq<char>, i: int) -> int
    decreases s.len() - i,
{
    if 0 <= i < s.len() && s[i] != ':' && s[i] != '\n' && s[i] != '}' {
        key_end(s, i + 1)
    } else {
        i
    }
}

/// The first position at or after `i` holding a newline, or the end of
/// input; single-line values run up to here.
pub open spec fn line_end(s: Seq<char>, i: int) -> int
    decreases s.len() - i,
{
    if 0 <= i < s.len() && s[i] != '\n' {
        line_end(s, i + 1)
    } else {
        i
    }
}

/// Where the cursor stands after discarding the rest of the line: one past
/// the next newline, or the end of input.
pub open spec fn after_line(s: Seq<char>, i: int) -> int {
    if line_end(s, i) < s.len() {
        line_end(s, i) + 1
    } else {
        line_end(s, i)
    }
}

/// Scanning from `i` with `depth` braces already open: the position of the
/// closing brace that balances the outermost of them, or the end of input
/// if the input runs out first (unbalanced input is not an error).
pub open spec fn close_index(s: Seq<char>, i: int, depth: int) -> int
    decreases s.len() - i,
{
    if 0 <= i < s.len() {
        if s[i] == '{' {
            close_index(s, i + 1, depth + 1)
        } else if s[i] == '}' {
            if depth <= 1 {
                i
            } else {
                close_index(s, i + 1, depth - 1)
            }
        } else {
            close_index(s, i + 1, depth)
        }
    } else {
        i
    }
}

/// Where the cursor stands after a brace-balanced scan that started just
/// inside an opening brace at position `i`: one past the balancing closing
/// brace, or the end of input.
pub open spec fn after_close(s: Seq<char>, i: int) -> int {
    if close_index(s, i, 1) < s.len() {
        close_index(s, i, 1) + 1
    } else {
        close_index(s, i, 1)
    }
}

/// The last position at or before `j` that is not preceded by whitespace;
/// trimming from the right stops here.
pub open spec fn rstrip_end(s: Seq<char>, j: int) -> int
    decreases j,
{
    if 0 < j <= s.len() && is_space(s[j - 1]) {
        rstrip_end(s, j - 1)
    } else {
        j
    }
}

/// `s` with leading and trailing whitespace removed, whitespace in the
/// scanner's ASCII sense (`is_space`).
pub open spec fn trimmed(s: Seq<char>) -> Seq<char> {
    let a = ws_end(s, 0);
    let b = rstrip_end(s, s.len() as int);
    if a <= b {
        s.subrange(a, b)
    } else {
        Seq::empty()
    }
}

pub proof fn lemma_ws_end_bounds(s: Seq<char>, i: int)
    requires
        0 <= i <= s.len(),
    ensures
        i <= ws_end(s, i) <= s.len(),
    decreases s.len() - i,
{
    if i < s.len() && is_space(s[i]) {
        lemma_ws_end_bounds(s, i + 1);
    }
}

pub proof fn lemma_inline_ws_end_bounds(s: Seq<char>, i: int)
    requires
        0 <= i <= s.len(),
    ensures
        i <= inline_ws_end(s, i) <= s.len(),
    decreases s.len() - i,
{
    if i < s.len() && is_inline_space(s[i]) {
        lemma_inline_ws_end_bounds(s, i + 1);
    }
}

pub proof fn lemma_ident_end_bounds(s: Seq<char>, i: int)
    requires
        0 <= i <= s.len(),
    ensures
        i <= ident_end(s, i) <= s.len(),
    decreases s.len() - i,
{
    if i < s.len() && is_ident_char(s[i]) {
        lemma_ident_end_bounds(s, i + 1);
    }
}

pub proof fn lemma_key_end_bounds(s: Seq<char>, i: int)
    requires
        0 <= i <= s.len(),
    ensures
        i <= key_end(s, i) <= s.len(),
    decreases s.len() - i,
{
    if i < s.len() && s[i] != ':' && s[i] != '\n' && s[i] != '}' {
        lemma_key_end_bounds(s, i + 1);
    }
}

pub proof fn lemma_line_end_bounds(s: Seq<char>, i: int)
    requires
        0 <= i <= s.len(),
    ensures
        i <= line_end(s, i) <= s.len(),
        i <= after_line(s, i) <= s.len(),
        i < s.len() ==> i + 1 <= after_line(s, i),
    decreases s.len() - i,
{
    if i < s.len() && s[i] != '\n' {
        lemma_line_end_bounds(s, i + 1);
    }
}

pub proof fn lemma_close_index_bounds(s: Seq<char>, i: int, depth: int)
    requires
        0 <= i <= s.len(),
    ensures
        i <= close_index(s, i, depth) <= s.len(),
    decreases s.len() - i,
{
    if i < s.len() {
        if s[i] == '{' {
            lemma_close_index_bounds(s, i + 1, depth + 1);
        } else if s[i] == '}' {
            if depth > 1 {
                lemma_close_index_bounds(s, i + 1, depth - 1);
            }
        } else {
            lemma_close_index_bounds(s, i + 1, depth);
        }
    }
}

/// Scanning `c` with `d` braces already open: the depth never returns to
/// zero inside `c` and stands at exactly one at its end, so the next
/// closing brace after `c` balances the block.
pub open spec fn well_nested_at(c: Seq<char>, d: int) -> bool
    decreases c.len(),
{
    if c.len() == 0 {
        d == 1
    } else if c[0] == '{' {
        well_nested_at(c.drop_first(), d + 1)
    } else if c[0] == '}' {
        d > 1 && well_nested_at(c.drop_first(), d - 1)
    } else {
        well_nested_at(c.drop_first(), d)
    }
}

proof fn lemma_close_index_scan(s: Seq<char>, i: int, j: int, d: int)
    requires
        0 <= i <= j < s.len(),
        well_nested_at(s.subrange(i, j), d),
        s[j] == '}',
    ensures
        close_index(s, i, d) == j,
    decreases j - i,
{
    let c = s.subrange(i, j);
    if i == j {
    } else {
        assert(c[0] == s[i]);
        assert(c.drop_first() =~= s.subrange(i + 1, j));
        if s[i] == '{' {
            lemma_close_index_scan(s, i + 1, j, d + 1);
        } else if s[i] == '}' {
            lemma_close_index_scan(s, i + 1, j, d - 1);
        } else {
            lemma_close_index_scan(s, i + 1, j, d);
        }
    }
}

/// Brace-balanced content is captured in full, inner braces included: a
/// scan entered just inside an opening brace at `i` stops exactly at the
/// closing brace at `j` when the content between them is well nested, so
/// the captured text is that content, byte for byte.
pub proof fn lemma_balanced_content_captured(s: Seq<char>, i: int, j: int)
    requires
        0 <= i <= j < s.len(),
        well_nested_at(s.subrange(i, j), 1),
        s[j] == '}',
    ensures
        close_index(s, i, 1) == j,
        after_close(s, i) == j + 1,
{
    lemma_close_index_scan(s, i, j, 1);
}

pub proof fn lemma_after_close_bounds(s: Seq<char>, i: int)
    requires
        0 <= i <= s.len(),
    ensures
        i <= after_close(s, i) <= s.len(),
{
    lemma_close_index_bounds(s, i, 1);
}

/// A run of whitespace from `i` to `j` ends the whitespace scan at `j`.
pub proof fn lemma_ws_end_run(s: Seq<char>, i: int, j: int)
    requires
        0 <= i <= j <= s.len(),
        forall|k: int| i <= k < j ==> is_space(s[k]),
        j == s.len() || !is_space(s[j]),
    ensures
        ws_end(s, i) == j,
    decreases j - i,
{
    if i < j {
        lemma_ws_end_run(s, i + 1, j);
    }
}

/// A run of inline whitespace from `i` to `j` ends the inline scan at `j`.
pub proof fn lemma_inline_ws_end_run(s: Seq<char>, i: int, j: int)
    requires
        0 <= i <= j <= s.len(),
        forall|k: int| i <= k < j ==> is_inline_space(s[k]),
        j == s.len() || !is_inline_space(s[j]),
    ensures
        inline_ws_end(s, i) == j,
    decreases j - i,
{
    if i < j {
        lemma_inline_ws_end_run(s, i + 1, j);
    }
}

/// A run of identifier characters from `i` to `j` ends the identifier
/// scan at `j`.
pub proof fn lemma_ident_end_run(s: Seq<char>, i: int, j: int)
    requires
        0 <= i <= j <= s.len(),
        forall|k: int| i <= k < j ==> is_ident_char(s[k]),
        j == s.len() || !is_ident_char(s[j]),
    ensures
        ident_end(s, i) == j,
    decreases j - i,
{
    if i < j {
        lemma_ident_end_run(s, i + 1, j);
    }
}

/// A run of key characters from `i` to `j` ends the key scan at `j`.
pub proof fn lemma_key_end_run(s: Seq<char>, i: int, j: int)
    requires
        0 <= i <= j <= s.len(),
        forall|k: int| i <= k < j ==> s[k] != ':' && s[k] != '\n' && s[k] != '}',
        j == s.len() || s[j] == ':' || s[j] == '\n' || s[j] == '}',
    ensures
        key_end(s, i) == j,
    decreases j - i,
{
    if i < j {
        lemma_key_end_run(s, i + 1, j);
    }
}

/// A newline-free run from `i` to `j` ends the line scan at `j`.
pub proof fn lemma_line_end_run(s: Seq<char>, i: int, j: int)
    requires
        0 <= i <= j <= s.len(),
        forall|k: int| i <= k < j ==> s[k] != '\n',
        j == s.len() || s[j] == '\n',
    ensures
        line_end(s, i) == j,
    decreases j - i,
{
    if i < j {
        lemma_line_end_run(s, i + 1, j);
    }
}

/// A non-empty string that trimming leaves unchanged neither starts nor
/// ends with whitespace.
pub proof fn lemma_trimmed_fixed(s: Seq<char>)
    requires
        trimmed(s) == s,
        s.len() > 0,
    ensures
        !is_space(s[0]),
        !is_space(s[s.len() - 1]),
{
    lemma_ws_end_bounds(s, 0);
    lemma_rstrip_end_bounds(s, s.len() as int);
    let a = ws_end(s, 0);
    let b = rstrip_end(s, s.len() as int);
    if a <= b {
        assert(trimmed(s).len() == b - a);
    } else {
        assert(trimmed(s).len() == 0);
    }
    if is_space(s[0]) {
        assert(ws_end(s, 0) == ws_end(s, 1));
        lemma_ws_end_bounds(s, 1);
    }
    if is_space(s[s.len() - 1]) {
        assert(rstrip_end(s, s.len() as int) == rstrip_end(s, s.len() - 1));
        lemma_rstrip_end_bounds(s, s.len() - 1);
    }
}

proof fn lemma_rstrip_end_bounds(s: Seq<char>, j: int)
    requires
        0 <= j <= s.len(),
    ensures
        rstrip_end(s, j) <= j,
        0 <= rstrip_end(s, j),
    decreases j,
{
    if 0 < j && is_space(s[j - 1]) {
        lemma_rstrip_end_bounds(s, j - 1);
    }
}

/// The character at position `i`.
pub fn char_at(s: &str, i: usize) -> (c: char)
    requires
        i < s@.len(),
    ensures
        c == s@[i as int],
{
    s.get_char(i)
}

fn is_space_char(c: char) -> (r: bool)
    ensures
        r == is_space(c),
{
    c == ' ' || c == '\t' || c == '\n' || c == '\r'
}

fn is_inline_space_char(c: char) -> (r: bool)
    ensures
        r == is_inline_space(c),
{
    c == ' ' || c == '\t'
}

fn is_ident_char_exec(c: char) -> (r: bool)
    ensures
        r == is_ident_char(c),
{
    ('a' <= c && c <= 'z') || ('A' <= c && c <= 'Z') || ('0' <= c && c <= '9') || c == '_' || c
        == '-'
}

/// Consumes all whitespace, newlines included.
pub fn skip_whitespace(s: &str, pos: &mut usize)
    requires
        *old(pos) <= s@.len(),
    ensures
        *final(pos) == ws_end(s@, *old(pos) as int),
        *old(pos) <= *final(pos) <= s@.len(),
{
    let n = s.unicode_len();
    while *pos < n && is_space_char(char_at(s, *pos))
        invariant
            *old(pos) <= *pos <= n,
            n == s@.len(),
            ws_end(s@, *pos as int) == ws_end(s@, *old(pos) as int),
        decreases n - *pos,
    {
        *pos += 1;
    }
}

/// Consumes spaces and tabs only, stopping at a line break.
pub fn skip_whitespace_no_newline(s: &str, pos: &mut usize)
    requires
        *old(pos) <= s@.len(),
    ensures
        *final(pos) == inline_ws_end(s@, *old(pos) as int),
        *old(pos) <= *final(pos) <= s@.len(),
{
    let n = s.unicode_len();
    while *pos < n && is_inline_space_char(char_at(s, *pos))
        invariant
            *old(pos) <= *pos <= n,
            n == s@.len(),
            inline_ws_end(s@, *pos as int) == inline_ws_end(s@, *old(pos) as int),
        decreases n - *pos,
    {
        *pos += 1;
    }
}

/// Discards the rest of the line, the newline included.
pub fn skip_line(s: &str, pos: &mut usize)
    requires
        *old(pos) <= s@.len(),
    ensures
        *final(pos) == after_line(s@, *old(pos) as int),
        *old(pos) <= *final(pos) <= s@.len(),
        *old(pos) < s@.len() ==> *old(pos) < *final(pos),
{
    let n = s.unicode_len();
    proof {
        lemma_line_end_bounds(s@, *pos as int);
    }
    while *pos < n && char_at(s, *pos) != '\n'
        invariant
            *old(pos) <= *pos <= n,
            n == s@.len(),
            line_end(s@, *pos as int) == line_end(s@, *old(pos) as int),
        decreases n - *pos,
    {
        *pos += 1;
    }
    if *pos < n {
        *pos += 1;
    }
}

/// Reads a maximal run of identifier characters; an empty result means no
/// identifier starts here.
pub fn read_identifier(s: &str, pos: &mut usize) -> (r: String)
    requires
        *old(pos) <= s@.len(),
    ensures
        *final(pos) == ident_end(s@, *old(pos) as int),
        *final(pos) <= s@.len(),
        *old(pos) <= *final(pos),
        r@ == s@.subrange(*old(pos) as int, *final(pos) as int),
{
    let n = s.unicode_len();
    let start = *pos;
    while *pos < n && is_ident_char_exec(char_at(s, *pos))
        invariant
            start <= *pos <= n,
            n == s@.len(),
            ident_end(s@, *pos as int) == ident_end(s@, start as int),
        decreases n - *pos,
    {
        *pos += 1;
    }
    String::from_str(s.substring_char(start, *pos))
}

/// Reads characters up to (not consuming) a `:`, a newline, or a `}`.
pub fn read_until_colon(s: &str, pos: &mut usize) -> (r: String)
    requires
        *old(pos) <= s@.len(),
    ensures
        *final(pos) == key_end(s@, *old(pos) as int),
        *final(pos) <= s@.len(),
        *old(pos) <= *final(pos),
        r@ == s@.subrange(*old(pos) as int, *final(pos) as int),
{
    let n = s.unicode_len();
    let start = *pos;
    while *pos < n && char_at(s, *pos) != ':' && char_at(s, *pos) != '\n' && char_at(s, *pos)
        != '}'
        invariant
            start <= *pos <= n,
            n == s@.len(),
            key_end(s@, *pos as int) == key_end(s@, start as int),
        decreases n - *pos,
    {
        *pos += 1;
    }
    String::from_str(s.substring_char(start, *pos))
}

/// Reads the rest of the line; the newline is consumed but not returned.
pub fn read_line(s: &str, pos: &mut usize) -> (r: String)
    requires
        *old(pos) <= s@.len(),
    ensures
        *final(pos) == after_line(s@, *old(pos) as int),
        *old(pos) <= *final(pos) <= s@.len(),
        *old(pos) < s@.len() ==> *old(pos) < *final(pos),
        r@ == s@.subrange(*old(pos) as int, line_end(s@, *old(pos) as int)),
{
    let n = s.unicode_len();
    proof {
        lemma_line_end_bounds(s@, *pos as int);
    }
    let start = *pos;
    while *pos < n && char_at(s, *pos) != '\n'
        invariant
            start <= *pos <= n,
            n == s@.len(),
            line_end(s@, *pos as int) == line_end(s@, start as int),
        decreases n - *pos,
    {
        *pos += 1;
    }
    let r = String::from_str(s.substring_char(start, *pos));
    if *pos < n {
        *pos += 1;
    }
    r
}

/// With the cursor just inside an opening brace, reads everything up to the
/// brace that balances it (nested pairs counted), consuming but not
/// returning that closing brace. Unbalanced input is read to the end.
pub fn read_balanced_braces(s: &str, pos: &mut usize) -> (r: String)
    requires
        *old(pos) <= s@.len(),
    ensures
        *final(pos) == after_close(s@, *old(pos) as int),
        *old(pos) <= *final(pos) <= s@.len(),
        r@ == s@.subrange(*old(pos) as int, close_index(s@, *old(pos) as int, 1)),
{
    let n = s.unicode_len();
    let start = *pos;
    let mut depth: u128 = 1;
    loop
        invariant_except_break
            start <= *pos <= n,
            n == s@.len(),
            1 <= depth <= *pos - start + 1,
            close_index(s@, *pos as int, depth as int) == close_index(s@, start as int, 1),
        ensures
            start <= *pos <= n,
            n == s@.len(),
            *pos == close_index(s@, start as int, 1),
        decreases n - *pos,
    {
        if *pos >= n {
            break ;
        }
        let c = char_at(s, *pos);
        if c == '{' {
            depth = depth + 1;
            *pos += 1;
        } else if c == '}' {
            if depth == 1 {
                break ;
            }
            depth = depth - 1;
            *pos += 1;
        } else {
            *pos += 1;
        }
    }
    let r = String::from_str(s.substring_char(start, *pos));
    if *pos < n {
        *pos += 1;
    }
    r
}

/// With the cursor just inside an opening brace, discards everything
/// through the brace that balances it.
pub fn skip_block(s: &str, pos: &mut usize)
    requires
        *old(pos) <= s@.len(),
    ensures
        *final(pos) == after_close(s@, *old(pos) as int),
        *old(pos) <= *final(pos) <= s@.len(),
{
    let n = s.unicode_len();
    let start = *pos;
    let mut depth: u128 = 1;
    loop
        invariant_except_break
            start <= *pos <= n,
            n == s@.len(),
            1 <= depth <= *pos - start + 1,
            close_index(s@, *pos as int, depth as int) == close_index(s@, start as int, 1),
        ensures
            start <= *pos <= n,
            n == s@.len(),
            *pos == close_index(s@, start as int, 1),
        decreases n - *pos,
    {
        if *pos >= n {
            break ;
        }
        let c = char_at(s, *pos);
        if c == '{' {
            depth = depth + 1;
            *pos += 1;
        } else if c == '}' {
            if depth == 1 {
                break ;
            }
            depth = depth - 1;
            *pos += 1;
        } else {
            *pos += 1;
        }
    }
    if *pos < n {
        *pos += 1;
    }
}

/// Character-by-character string equality.
pub fn str_eq(a: &str, b: &str) -> (r: bool)
    ensures
        r == (a@ == b@),
{
    let n = a.unicode_len();
    let m = b.unicode_len();
    if n != m {
        return false;
    }
    let mut i: usize = 0;
    while i < n
        invariant
            i <= n,
            n == a@.len(),
            n == b@.len(),
            forall|k: int| 0 <= k < i ==> a@[k] == b@[k],
        decreases n - i,
    {
        if char_at(a, i) != char_at(b, i) {
            return false;
        }
        i += 1;
    }
    proof {
        assert(a@ =~= b@);
    }
    true
}

/// The code point of `c`, with ASCII upper-case letters folded to lower
/// case; the measure under which header names are compared.
pub open spec fn lower_code(c: char) -> int {
    if 65 <= c as int && c as int <= 90 {
        c as int + 32
    } else {
        c as int
    }
}

/// Equality of two character sequences up to ASCII case.
pub open spec fn ci_eq(a: Seq<char>, b: Seq<char>) -> bool {
    a.len() == b.len() && (forall|i: int| 0 <= i < a.len() ==> lower_code(a[i]) == lower_code(b[i]))
}

fn lower_code_exec(c: char) -> (r: u32)
    ensures
        r as int == lower_code(c),
{
    let x = c as u32;
    if 65 <= x && x <= 90 {
        x + 32
    } else {
        x
    }
}

/// String equality up to ASCII case.
pub fn str_eq_ignore_case(a: &str, b: &str) -> (r: bool)
    ensures
        r == ci_eq(a@, b@),
{
    let n = a.unicode_len();
    let m = b.unicode_len();
    if n != m {
        return false;
    }
    let mut i: usize = 0;
    while i < n
        invariant
            i <= n,
            n == a@.len(),
            n == b@.len(),
            forall|k: int| 0 <= k < i ==> lower_code(a@[k]) == lower_code(b@[k]),
        decreases n - i,
    {
        if lower_code_exec(char_at(a, i)) != lower_code_exec(char_at(b, i)) {
            return false;
        }
        i += 1;
    }
    true
}

/// Returns `s` with leading and trailing whitespace removed.
pub fn trim_str(s: &str) -> (r: String)
    ensures
        r@ == trimmed(s@),
{
    let n = s.unicode_len();
    let mut a: usize = 0;
    while a < n && is_space_char(char_at(s, a))
        invariant
            a <= n,
            n == s@.len(),
            ws_end(s@, a as int) == ws_end(s@, 0),
        decreases n - a,
    {
        a += 1;
    }
    let mut b: usize = n;
    while b > 0 && is_space_char(char_at(s, b - 1))
        invariant
            b <= n,
            n == s@.len(),
            rstrip_end(s@, b as int) == rstrip_end(s@, n as int),
        decreases b,
    {
        b -= 1;
    }
    if a <= b {
        String::from_str(s.substring_char(a, b))
    } else {
        String::new()
    }
}

} // verus!
