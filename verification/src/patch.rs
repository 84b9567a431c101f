//! The unified-diff patch engine: a sequential text transform over bytes.
//!
//! A diff is read line by line. File header lines (`---`, `+++`) are
//! skipped; each hunk header (`@@ -old_start,old_count +new_start,new_count @@`)
//! is parsed and its hunk applied; everything else is passed over. A hunk is
//! applied change by change, in order: an addition appends its text as a new
//! line, a deletion removes the first line equal to its text (a silent no-op
//! when none matches). Context lines are ignored, and the line numbers of
//! the hunk header are not consulted. Output lines are rejoined with a
//! single line feed, so the transform also normalizes line endings.

use vstd::prelude::*;
use vstd::slice::{slice_subrange, slice_to_vec};

verus! {

/// Line feed.
pub const LF: u8 = 10;

/// Carriage return.
pub const CR: u8 = 13;

/// Horizontal tab, the lowest ASCII whitespace byte.
pub const TAB: u8 = 9;

/// Space.
pub const SPACE: u8 = 32;

/// `+`.
pub const PLUS: u8 = 43;

/// `,`.
pub const COMMA: u8 = 44;

/// `-`.
pub const MINUS: u8 = 45;

/// `@`.
pub const AT: u8 = 64;

/// `0`.
pub const D0: u8 = 48;

/// `9`.
pub const D9: u8 = 57;

/// Why a diff was rejected. Each variant corresponds to one malformed
/// piece of a hunk header; a diff without such a piece never fails.
#[derive(Clone, Copy, Debug, PartialEq, Eq, Structural)]
pub enum PatchError {
    /// A hunk header with fewer than three whitespace-separated parts.
    InvalidHunkHeader,
    /// The start of a comma-separated range that is not a number.
    InvalidStartLine,
    /// The count of a comma-separated range that is not a number.
    InvalidLineCount,
    /// A lone range value that is not a number.
    InvalidLineNumber,
}

impl PatchError {
    /// The human-readable message of this error.
    pub fn message(&self) -> (r: String)
        ensures
            match *self {
                PatchError::InvalidHunkHeader => r@ == "Invalid hunk header"@,
                PatchError::InvalidStartLine => r@ == "Invalid start line number"@,
                PatchError::InvalidLineCount => r@ == "Invalid line count"@,
                PatchError::InvalidLineNumber => r@ == "Invalid line number"@,
            },
    {
        match self {
            PatchError::InvalidHunkHeader => String::from_str("Invalid hunk header"),
            PatchError::InvalidStartLine => String::from_str("Invalid start line number"),
            PatchError::InvalidLineCount => String::from_str("Invalid line count"),
            PatchError::InvalidLineNumber => String::from_str("Invalid line number"),
        }
    }
}

/// A parsed hunk header: the old and new ranges it announces.
#[derive(Clone, Copy, Debug, PartialEq, Eq, Structural)]
pub struct HunkInfo {
    pub old_start: usize,
    pub old_count: usize,
    pub new_start: usize,
    pub new_count: usize,
}

/// The views of a sequence of byte vectors.
pub open spec fn views(vs: Seq<Vec<u8>>) -> Seq<Seq<u8>> {
    vs.map_values(|v: Vec<u8>| v@)
}

/// First index at or after `k` holding byte `b`; the length when none does.
pub open spec fn spec_find_from(s: Seq<u8>, b: u8, k: nat) -> nat
    decreases s.len() - k,
{
    if k >= s.len() {
        s.len()
    } else if s[k as int] == b {
        k
    } else {
        spec_find_from(s, b, k + 1)
    }
}

/// What `spec_find_from` finds: an index in range, holding `b`, with no
/// earlier occurrence at or after `k`.
pub proof fn lemma_find_from_props(s: Seq<u8>, b: u8, k: nat)
    requires
        k <= s.len(),
    ensures
        k <= spec_find_from(s, b, k) <= s.len(),
        spec_find_from(s, b, k) < s.len() ==> s[spec_find_from(s, b, k) as int] == b,
        forall|j: int| k <= j < spec_find_from(s, b, k) ==> s[j] != b,
    decreases s.len() - k,
{
    if k < s.len() && s[k as int] != b {
        lemma_find_from_props(s, b, k + 1);
    }
}

fn find_from(s: &[u8], b: u8, k: usize) -> (r: usize)
    requires
        k <= s@.len(),
    ensures
        r == spec_find_from(s@, b, k as nat),
    decreases s@.len() - k,
{
    if k >= s.len() {
        s.len()
    } else if s[k] == b {
        k
    } else {
        find_from(s, b, k + 1)
    }
}

/// ASCII whitespace, as the tokens of a hunk header are separated.
pub open spec fn is_ws(b: u8) -> bool {
    b == SPACE || (TAB <= b && b <= CR)
}

/// A line, with one trailing carriage return stripped.
pub open spec fn strip_cr(l: Seq<u8>) -> Seq<u8> {
    if l.len() > 0 && l.last() == CR {
        l.drop_last()
    } else {
        l
    }
}

/// The lines of a byte text: split at each line feed, one trailing
/// carriage return stripped from each line, and no final empty line for a
/// text that ends with a line feed.
pub open spec fn spec_lines(s: Seq<u8>) -> Seq<Seq<u8>>
    decreases s.len(),
    via spec_lines_dec
{
    if s.len() == 0 {
        Seq::empty()
    } else {
        let k = spec_find_from(s, LF, 0);
        if k == s.len() {
            seq![strip_cr(s)]
        } else {
            seq![strip_cr(s.take(k as int))] + spec_lines(s.skip(k as int + 1))
        }
    }
}

#[via_fn]
proof fn spec_lines_dec(s: Seq<u8>) {
    if s.len() > 0 {
        lemma_find_from_props(s, LF, 0);
    }
}

fn strip_cr_vec(l: &[u8]) -> (r: Vec<u8>)
    ensures
        r@ == strip_cr(l@),
{
    if l.len() > 0 && l[l.len() - 1] == CR {
        let r = slice_to_vec(slice_subrange(l, 0, l.len() - 1));
        proof {
            assert(l@.subrange(0, l@.len() - 1) =~= l@.drop_last());
        }
        r
    } else {
        slice_to_vec(l)
    }
}

fn split_lines(text: &[u8]) -> (r: Vec<Vec<u8>>)
    ensures
        views(r@) == spec_lines(text@),
    decreases text@.len(),
{
    if text.len() == 0 {
        let r: Vec<Vec<u8>> = Vec::new();
        proof {
            assert(views(r@) =~= spec_lines(text@));
        }
        r
    } else {
        proof {
            lemma_find_from_props(text@, LF, 0);
        }
        let k = find_from(text, LF, 0);
        if k == text.len() {
            let mut r: Vec<Vec<u8>> = Vec::new();
            r.push(strip_cr_vec(text));
            proof {
                assert(views(r@) =~= spec_lines(text@));
            }
            r
        } else {
            let head = strip_cr_vec(slice_subrange(text, 0, k));
            let mut rest = split_lines(slice_subrange(text, k + 1, text.len()));
            rest.insert(0, head);
            proof {
                assert(text@.subrange(0, k as int) =~= text@.take(k as int));
                assert(text@.subrange(k as int + 1, text@.len() as int) =~= text@.skip(
                    k as int + 1,
                ));
                assert(views(rest@) =~= spec_lines(text@));
            }
            rest
        }
    }
}

/// Lines rejoined with a single line feed between them.
pub open spec fn spec_join(ls: Seq<Seq<u8>>) -> Seq<u8>
    decreases ls.len(),
{
    if ls.len() == 0 {
        Seq::empty()
    } else if ls.len() == 1 {
        ls[0]
    } else {
        ls[0] + seq![LF] + spec_join(ls.skip(1))
    }
}

fn join_lines(ls: &[Vec<u8>]) -> (r: Vec<u8>)
    ensures
        r@ == spec_join(views(ls@)),
    decreases ls@.len(),
{
    if ls.len() == 0 {
        Vec::new()
    } else if ls.len() == 1 {
        slice_to_vec(ls[0].as_slice())
    } else {
        let mut r = slice_to_vec(ls[0].as_slice());
        r.push(LF);
        let mut tail = join_lines(slice_subrange(ls, 1, ls.len()));
        r.append(&mut tail);
        proof {
            assert(views(ls@.subrange(1, ls@.len() as int)) =~= views(ls@).skip(1));
            assert(r@ =~= spec_join(views(ls@)));
        }
        r
    }
}

/// A decimal digit.
pub open spec fn is_digit(b: u8) -> bool {
    D0 <= b && b <= D9
}

/// A nonempty, all-digit byte string.
pub open spec fn is_digits(s: Seq<u8>) -> bool {
    s.len() > 0 && forall|i: int| 0 <= i < s.len() ==> is_digit(#[trigger] s[i])
}

/// The number the digit string denotes, most significant digit first.
pub open spec fn digits_val(s: Seq<u8>) -> int
    decreases s.len(),
{
    if s.len() == 0 {
        0
    } else {
        digits_val(s.drop_last()) * 10 + (s.last() - D0)
    }
}

proof fn lemma_digits_val_nonneg(s: Seq<u8>)
    requires
        forall|i: int| 0 <= i < s.len() ==> #[trigger] s[i] >= D0,
    ensures
        digits_val(s) >= 0,
    decreases s.len(),
{
    if s.len() > 0 {
        lemma_digits_val_nonneg(s.drop_last());
    }
}

proof fn lemma_digits_val_prefix_le(s: Seq<u8>, k: nat)
    requires
        k <= s.len(),
        forall|i: int| 0 <= i < s.len() ==> #[trigger] s[i] >= D0,
    ensures
        digits_val(s.take(k as int)) <= digits_val(s),
    decreases s.len() - k,
{
    if k < s.len() {
        lemma_digits_val_prefix_le(s, k + 1);
        assert(s.take(k as int + 1).drop_last() =~= s.take(k as int));
        assert(forall|i: int|
            0 <= i < s.take(k as int).len() ==> #[trigger] s.take(k as int)[i] >= D0);
        lemma_digits_val_nonneg(s.take(k as int));
        assert(digits_val(s.take(k as int + 1)) == digits_val(s.take(k as int)) * 10 + (s[k as int]
            - D0));
    } else {
        assert(s.take(k as int) =~= s);
    }
}

/// A digit string that denotes a value a `usize` can hold.
pub open spec fn valid_usize(s: Seq<u8>) -> bool {
    is_digits(s) && digits_val(s) <= usize::MAX
}

fn parse_usize(s: &[u8]) -> (r: Option<usize>)
    ensures
        r is Some <==> valid_usize(s@),
        r is Some ==> r.unwrap() == digits_val(s@),
{
    if s.len() == 0 {
        return None;
    }
    let mut v: usize = 0;
    let mut i: usize = 0;
    while i < s.len()
        invariant
            0 < s@.len(),
            i <= s@.len(),
            forall|j: int| 0 <= j < i ==> is_digit(#[trigger] s@[j]),
            v == digits_val(s@.take(i as int)),
        decreases s@.len() - i,
    {
        let b = s[i];
        if b < D0 || b > D9 {
            return None;
        }
        let d = (b - D0) as usize;
        let next = match v.checked_mul(10) {
            Some(x) => x.checked_add(d),
            None => None,
        };
        proof {
            assert(s@.take(i as int + 1).drop_last() =~= s@.take(i as int));
        }
        match next {
            Some(y) => {
                v = y;
            },
            None => {
                proof {
                    if is_digits(s@) {
                        assert(forall|j: int| 0 <= j < s@.len() ==> #[trigger] s@[j] >= D0);
                        lemma_digits_val_prefix_le(s@, i as nat + 1);
                        assert(digits_val(s@.take(i as int + 1)) > usize::MAX);
                    }
                }
                return None;
            },
        }
        i = i + 1;
    }
    proof {
        assert(s@.take(i as int) =~= s@);
    }
    Some(v)
}

/// The result of parsing one range of a hunk header: `start,count`, or a
/// lone `start` with an implied count of one. The same malformed range
/// yields a different error depending on which piece failed, exactly as
/// the errors are reported.
pub open spec fn spec_parse_range(s: Seq<u8>) -> Result<(usize, usize), PatchError> {
    let k = spec_find_from(s, COMMA, 0);
    if k < s.len() {
        if !valid_usize(s.take(k as int)) {
            Err(PatchError::InvalidStartLine)
        } else if !valid_usize(s.skip(k as int + 1)) {
            Err(PatchError::InvalidLineCount)
        } else {
            Ok(
                (
                    digits_val(s.take(k as int)) as usize,
                    digits_val(s.skip(k as int + 1)) as usize,
                ),
            )
        }
    } else {
        if !valid_usize(s) {
            Err(PatchError::InvalidLineNumber)
        } else {
            Ok((digits_val(s) as usize, 1))
        }
    }
}

/// Parses one range of a hunk header: `start,count`, or a lone `start`
/// whose count is one.
pub fn parse_range(range: &[u8]) -> (r: Result<(usize, usize), PatchError>)
    ensures
        r == spec_parse_range(range@),
{
    proof {
        lemma_find_from_props(range@, COMMA, 0);
    }
    let k = find_from(range, COMMA, 0);
    if k < range.len() {
        match parse_usize(slice_subrange(range, 0, k)) {
            None => Err(PatchError::InvalidStartLine),
            Some(start) => {
                match parse_usize(slice_subrange(range, k + 1, range.len())) {
                    None => Err(PatchError::InvalidLineCount),
                    Some(count) => Ok((start, count)),
                }
            },
        }
    } else {
        match parse_usize(range) {
            None => Err(PatchError::InvalidLineNumber),
            Some(start) => Ok((start, 1)),
        }
    }
}

/// First whitespace index at or after `k`; the length when none.
pub open spec fn spec_tok_end(s: Seq<u8>, k: nat) -> nat
    decreases s.len() - k,
{
    if k >= s.len() {
        s.len()
    } else if is_ws(s[k as int]) {
        k
    } else {
        spec_tok_end(s, k + 1)
    }
}

proof fn lemma_tok_end_props(s: Seq<u8>, k: nat)
    requires
        k <= s.len(),
    ensures
        k <= spec_tok_end(s, k) <= s.len(),
    decreases s.len() - k,
{
    if k < s.len() && !is_ws(s[k as int]) {
        lemma_tok_end_props(s, k + 1);
    }
}

/// The whitespace-separated tokens of `s` at or after position `k`:
/// maximal nonempty runs of non-whitespace bytes.
pub open spec fn spec_split_ws(s: Seq<u8>, k: nat) -> Seq<Seq<u8>>
    decreases s.len() - k,
    via spec_split_ws_dec
{
    if k >= s.len() {
        Seq::empty()
    } else if is_ws(s[k as int]) {
        spec_split_ws(s, k + 1)
    } else {
        let e = spec_tok_end(s, k + 1);
        seq![s.subrange(k as int, e as int)] + spec_split_ws(s, e)
    }
}

#[via_fn]
proof fn spec_split_ws_dec(s: Seq<u8>, k: nat) {
    if k < s.len() && !is_ws(s[k as int]) {
        lemma_tok_end_props(s, k + 1);
    }
}

/// Every token is nonempty.
proof fn lemma_split_ws_tokens_nonempty(s: Seq<u8>, k: nat)
    requires
        k <= s.len(),
    ensures
        forall|i: int|
            0 <= i < spec_split_ws(s, k).len() ==> #[trigger] spec_split_ws(s, k)[i].len() >= 1,
    decreases s.len() - k,
{
    if k < s.len() {
        if is_ws(s[k as int]) {
            lemma_split_ws_tokens_nonempty(s, k + 1);
            assert forall|i: int|
                0 <= i < spec_split_ws(s, k).len() implies #[trigger] spec_split_ws(s, k)[i].len()
                >= 1 by {
                assert(spec_split_ws(s, k)[i] == spec_split_ws(s, k + 1)[i]);
            }
        } else {
            lemma_tok_end_props(s, k + 1);
            let e = spec_tok_end(s, k + 1);
            lemma_split_ws_tokens_nonempty(s, e);
            assert forall|i: int|
                0 <= i < spec_split_ws(s, k).len() implies #[trigger] spec_split_ws(s, k)[i].len()
                >= 1 by {
                if i == 0 {
                    assert(spec_split_ws(s, k)[0] == s.subrange(k as int, e as int));
                } else {
                    assert(spec_split_ws(s, k)[i] == spec_split_ws(s, e)[i - 1]);
                }
            }
        }
    }
}

fn is_ws_byte(b: u8) -> (r: bool)
    ensures
        r == is_ws(b),
{
    b == SPACE || (b >= TAB && b <= CR)
}

fn tok_end(s: &[u8], k: usize) -> (r: usize)
    requires
        k <= s@.len(),
    ensures
        r == spec_tok_end(s@, k as nat),
    decreases s@.len() - k,
{
    if k >= s.len() {
        s.len()
    } else if is_ws_byte(s[k]) {
        k
    } else {
        tok_end(s, k + 1)
    }
}

fn split_ws(s: &[u8], k: usize) -> (r: Vec<Vec<u8>>)
    requires
        k <= s@.len(),
    ensures
        views(r@) == spec_split_ws(s@, k as nat),
    decreases s@.len() - k,
{
    if k >= s.len() {
        let r: Vec<Vec<u8>> = Vec::new();
        proof {
            assert(views(r@) =~= spec_split_ws(s@, k as nat));
        }
        r
    } else if is_ws_byte(s[k]) {
        split_ws(s, k + 1)
    } else {
        proof {
            lemma_tok_end_props(s@, k as nat + 1);
        }
        let e = tok_end(s, k + 1);
        let tok = slice_to_vec(slice_subrange(s, k, e));
        let mut rest = split_ws(s, e);
        rest.insert(0, tok);
        proof {
            assert(views(rest@) =~= spec_split_ws(s@, k as nat));
        }
        rest
    }
}

/// The result of parsing a hunk header line: at least three
/// whitespace-separated parts, the second and third each parsed as a
/// range after their first byte (the `-` or `+` sign position) is
/// dropped.
pub open spec fn spec_parse_hunk_header(line: Seq<u8>) -> Result<HunkInfo, PatchError> {
    let parts = spec_split_ws(line, 0);
    if parts.len() < 3 {
        Err(PatchError::InvalidHunkHeader)
    } else {
        match spec_parse_range(parts[1].skip(1)) {
            Err(e) => Err(e),
            Ok((old_start, old_count)) => match spec_parse_range(parts[2].skip(1)) {
                Err(e) => Err(e),
                Ok((new_start, new_count)) => Ok(
                    HunkInfo { old_start, old_count, new_start, new_count },
                ),
            },
        }
    }
}

/// Parses a hunk header line, `@@ -old_start,old_count +new_start,new_count @@`.
pub fn parse_hunk_header(line: &[u8]) -> (r: Result<HunkInfo, PatchError>)
    ensures
        r == spec_parse_hunk_header(line@),
{
    let parts = split_ws(line, 0);
    proof {
        lemma_split_ws_tokens_nonempty(line@, 0);
    }
    if parts.len() < 3 {
        return Err(PatchError::InvalidHunkHeader);
    }
    proof {
        assert(views(parts@)[1] == parts@[1]@);
        assert(views(parts@)[2] == parts@[2]@);
    }
    let old_part = slice_subrange(parts[1].as_slice(), 1, parts[1].len());
    proof {
        assert(old_part@ =~= views(parts@)[1].skip(1));
    }
    match parse_range(old_part) {
        Err(e) => Err(e),
        Ok((old_start, old_count)) => {
            let new_part = slice_subrange(parts[2].as_slice(), 1, parts[2].len());
            proof {
                assert(new_part@ =~= views(parts@)[2].skip(1));
            }
            match parse_range(new_part) {
                Err(e) => Err(e),
                Ok((new_start, new_count)) => Ok(
                    HunkInfo { old_start, old_count, new_start, new_count },
                ),
            }
        },
    }
}

/// A run of `n` copies of `b` at the start of `l`.
pub open spec fn spec_starts_run(l: Seq<u8>, b: u8, n: nat) -> bool {
    l.len() >= n && forall|i: int| 0 <= i < n ==> #[trigger] l[i] == b
}

fn has_prefix_run(l: &[u8], b: u8, n: usize) -> (r: bool)
    ensures
        r == spec_starts_run(l@, b, n as nat),
    decreases l@.len(),
{
    if l.len() < n {
        return false;
    }
    let mut i: usize = 0;
    while i < n
        invariant
            n <= l@.len(),
            i <= n,
            forall|j: int| 0 <= j < i ==> #[trigger] l@[j] == b,
        decreases n - i,
    {
        if l[i] != b {
            return false;
        }
        i = i + 1;
    }
    true
}

/// A hunk body line that adds: it starts with `+` but is not a `+++` file
/// header.
pub open spec fn is_add_line(l: Seq<u8>) -> bool {
    spec_starts_run(l, PLUS, 1) && !spec_starts_run(l, PLUS, 3)
}

/// A hunk body line that removes: it starts with `-` but is not a `---`
/// file header.
pub open spec fn is_remove_line(l: Seq<u8>) -> bool {
    spec_starts_run(l, MINUS, 1) && !spec_starts_run(l, MINUS, 3)
}

/// A hunk header line.
pub open spec fn is_hunk_marker(l: Seq<u8>) -> bool {
    spec_starts_run(l, AT, 2)
}

/// A file header line, skipped wherever it stands.
pub open spec fn is_file_header(l: Seq<u8>) -> bool {
    spec_starts_run(l, MINUS, 3) || spec_starts_run(l, PLUS, 3)
}

/// First index at or after `k` whose line equals `t`; the length when none.
pub open spec fn spec_find_line(cl: Seq<Seq<u8>>, t: Seq<u8>, k: nat) -> nat
    decreases cl.len() - k,
{
    if k >= cl.len() {
        cl.len()
    } else if cl[k as int] == t {
        k
    } else {
        spec_find_line(cl, t, k + 1)
    }
}

proof fn lemma_find_line_bounds(cl: Seq<Seq<u8>>, t: Seq<u8>, k: nat)
    requires
        k <= cl.len(),
    ensures
        k <= spec_find_line(cl, t, k) <= cl.len(),
    decreases cl.len() - k,
{
    if k < cl.len() && cl[k as int] != t {
        lemma_find_line_bounds(cl, t, k + 1);
    }
}

/// The lines with the first occurrence of `t` removed; unchanged when `t`
/// does not occur.
pub open spec fn spec_remove_first(cl: Seq<Seq<u8>>, t: Seq<u8>) -> Seq<Seq<u8>> {
    let k = spec_find_line(cl, t, 0);
    if k == cl.len() {
        cl
    } else {
        cl.remove(k as int)
    }
}

/// The content lines after applying the changes of the hunk body that
/// starts at `j`: additions append, deletions remove their first match,
/// context lines are passed over, and the body ends at the next hunk
/// header or at the end of the diff.
pub open spec fn spec_apply_changes(cl: Seq<Seq<u8>>, hunk: Seq<Seq<u8>>, j: nat) -> Seq<Seq<u8>>
    decreases hunk.len() - j,
{
    if j >= hunk.len() || is_hunk_marker(hunk[j as int]) {
        cl
    } else if is_add_line(hunk[j as int]) {
        spec_apply_changes(cl.push(hunk[j as int].skip(1)), hunk, j + 1)
    } else if is_remove_line(hunk[j as int]) {
        spec_apply_changes(spec_remove_first(cl, hunk[j as int].skip(1)), hunk, j + 1)
    } else {
        spec_apply_changes(cl, hunk, j + 1)
    }
}

/// The text after one hunk: the content's lines transformed by the body
/// and rejoined with line feeds.
pub open spec fn spec_apply_hunk(content: Seq<u8>, hunk: Seq<Seq<u8>>) -> Seq<u8> {
    spec_join(spec_apply_changes(spec_lines(content), hunk, 0))
}

fn bytes_eq(a: &[u8], b: &[u8]) -> (r: bool)
    ensures
        r == (a@ == b@),
{
    if a.len() != b.len() {
        return false;
    }
    let mut i: usize = 0;
    while i < a.len()
        invariant
            a@.len() == b@.len(),
            i <= a@.len(),
            forall|j: int| 0 <= j < i ==> #[trigger] a@[j] == b@[j],
        decreases a@.len() - i,
    {
        if a[i] != b[i] {
            return false;
        }
        i = i + 1;
    }
    proof {
        assert(a@ =~= b@);
    }
    true
}

fn find_line(cl: &Vec<Vec<u8>>, t: &[u8], k: usize) -> (r: usize)
    requires
        k <= cl@.len(),
    ensures
        r == spec_find_line(views(cl@), t@, k as nat),
    decreases cl@.len() - k,
{
    if k >= cl.len() {
        cl.len()
    } else if bytes_eq(cl[k].as_slice(), t) {
        proof {
            assert(views(cl@)[k as int] == cl@[k as int]@);
        }
        k
    } else {
        proof {
            assert(views(cl@)[k as int] == cl@[k as int]@);
        }
        find_line(cl, t, k + 1)
    }
}

/// Applies one hunk body to the content: its changes in order, additions
/// appended as new lines, deletions removing their first exact match.
/// The header's line numbers are received but not consulted, and the
/// application itself cannot fail.
pub fn apply_hunk(content: &[u8], hunk_lines: &[Vec<u8>], _hunk_info: &HunkInfo) -> (r: Result<
    Vec<u8>,
    PatchError,
>)
    ensures
        r matches Ok(v) && v@ == spec_apply_hunk(content@, views(hunk_lines@)),
{
    let mut cl = split_lines(content);
    let ghost cl0 = views(cl@);
    let ghost hv = views(hunk_lines@);
    let mut j: usize = 0;
    while j < hunk_lines.len() && !has_prefix_run(hunk_lines[j].as_slice(), AT, 2)
        invariant
            j <= hunk_lines@.len(),
            hv == views(hunk_lines@),
            cl0 == spec_lines(content@),
            spec_apply_changes(views(cl@), hv, j as nat) == spec_apply_changes(cl0, hv, 0),
        decreases hunk_lines@.len() - j,
    {
        proof {
            assert(hv[j as int] == hunk_lines@[j as int]@);
        }
        let l = &hunk_lines[j];
        if has_prefix_run(l.as_slice(), PLUS, 1) && !has_prefix_run(l.as_slice(), PLUS, 3) {
            let ghost pre = views(cl@);
            let text = slice_to_vec(slice_subrange(l.as_slice(), 1, l.len()));
            cl.push(text);
            proof {
                assert(text@ =~= hv[j as int].skip(1));
                assert(views(cl@) =~= pre.push(hv[j as int].skip(1)));
            }
        } else if has_prefix_run(l.as_slice(), MINUS, 1) && !has_prefix_run(
            l.as_slice(),
            MINUS,
            3,
        ) {
            let ghost pre = views(cl@);
            let ghost tseq = hv[j as int].skip(1);
            let text = slice_subrange(l.as_slice(), 1, l.len());
            proof {
                assert(text@ =~= tseq);
            }
            let k = find_line(&cl, text, 0);
            proof {
                assert(k == spec_find_line(pre, tseq, 0));
                assert(pre.len() == cl@.len());
                lemma_find_line_bounds(pre, tseq, 0);
            }
            if k < cl.len() {
                cl.remove(k);
                proof {
                    assert(views(cl@) =~= pre.remove(k as int));
                    assert(spec_remove_first(pre, tseq) == pre.remove(k as int));
                    assert(views(cl@) == spec_remove_first(pre, tseq));
                }
            } else {
                proof {
                    assert(spec_remove_first(pre, tseq) == pre);
                    assert(views(cl@) == spec_remove_first(pre, tseq));
                }
            }
        }
        j = j + 1;
    }
    Ok(join_lines(cl.as_slice()))
}

/// First index at or after `j` holding a hunk header line; the length
/// when none.
pub open spec fn spec_next_hunk(lines: Seq<Seq<u8>>, j: nat) -> nat
    decreases lines.len() - j,
{
    if j >= lines.len() || is_hunk_marker(lines[j as int]) {
        j
    } else {
        spec_next_hunk(lines, j + 1)
    }
}

proof fn lemma_next_hunk_ge(lines: Seq<Seq<u8>>, j: nat)
    requires
        j <= lines.len(),
    ensures
        j <= spec_next_hunk(lines, j) <= lines.len(),
    decreases lines.len() - j,
{
    if !(j >= lines.len() || is_hunk_marker(lines[j as int])) {
        lemma_next_hunk_ge(lines, j + 1);
    }
}

/// The whole transform, scanning the diff's lines from `i`: file headers
/// and unrecognized lines are passed over; at each hunk header, the header
/// is parsed — its error, if any, ends the transform — and the hunk body
/// is applied to the accumulated result, after which the scan resumes at
/// the next hunk header.
pub open spec fn spec_apply_diff(result: Seq<u8>, lines: Seq<Seq<u8>>, i: nat) -> Result<
    Seq<u8>,
    PatchError,
>
    decreases lines.len() - i,
    via spec_apply_diff_dec
{
    if i >= lines.len() {
        Ok(result)
    } else if is_file_header(lines[i as int]) {
        spec_apply_diff(result, lines, i + 1)
    } else if is_hunk_marker(lines[i as int]) {
        match spec_parse_hunk_header(lines[i as int]) {
            Err(e) => Err(e),
            Ok(info) => spec_apply_diff(
                spec_apply_hunk(result, lines.skip(i as int + 1)),
                lines,
                spec_next_hunk(lines, i + 1),
            ),
        }
    } else {
        spec_apply_diff(result, lines, i + 1)
    }
}

#[via_fn]
proof fn spec_apply_diff_dec(result: Seq<u8>, lines: Seq<Seq<u8>>, i: nat) {
    if i < lines.len() {
        lemma_next_hunk_ge(lines, i + 1);
    }
}

/// Applies a unified diff to a text, hunk by hunk, and returns the patched
/// text; the only failures are malformed hunk headers, reported exactly as
/// `spec_parse_hunk_header` classifies them. A diff without hunk headers
/// leaves the text unchanged.
pub fn apply_unified_diff(original: &[u8], diff: &[u8]) -> (r: Result<Vec<u8>, PatchError>)
    ensures
        ({
            let expected = spec_apply_diff(original@, spec_lines(diff@), 0);
            match expected {
                Ok(s) => r matches Ok(v) && v@ == s,
                Err(e) => r == Err::<Vec<u8>, PatchError>(e),
            }
        }),
{
    let lines = split_lines(diff);
    let ghost lv = spec_lines(diff@);
    let mut result = slice_to_vec(original);
    let mut i: usize = 0;
    while i < lines.len()
        invariant
            i <= lines@.len(),
            lv == views(lines@),
            lv == spec_lines(diff@),
            spec_apply_diff(result@, lv, i as nat) == spec_apply_diff(original@, lv, 0),
        decreases lines@.len() - i,
    {
        proof {
            assert(lv[i as int] == lines@[i as int]@);
        }
        let line_is_header = has_prefix_run(lines[i].as_slice(), MINUS, 3) || has_prefix_run(
            lines[i].as_slice(),
            PLUS,
            3,
        );
        if line_is_header {
            i = i + 1;
        } else if has_prefix_run(lines[i].as_slice(), AT, 2) {
            match parse_hunk_header(lines[i].as_slice()) {
                Err(e) => {
                    proof {
                        assert(spec_apply_diff(result@, lv, i as nat) == Err::<
                            Seq<u8>,
                            PatchError,
                        >(e));
                    }
                    return Err(e);
                },
                Ok(info) => {
                    let ghost i0 = i as nat;
                    let ghost r0 = result@;
                    let hunk = slice_subrange(lines.as_slice(), i + 1, lines.len());
                    proof {
                        assert(views(hunk@) =~= lv.skip(i0 as int + 1));
                    }
                    match apply_hunk(result.as_slice(), hunk, &info) {
                        Ok(v) => {
                            result = v;
                        },
                        Err(e) => {
                            return Err(e);
                        },
                    }
                    i = i + 1;
                    while i < lines.len() && !has_prefix_run(lines[i].as_slice(), AT, 2)
                        invariant
                            i0 + 1 <= i <= lines@.len(),
                            lv == views(lines@),
                            result@ == spec_apply_hunk(r0, lv.skip(i0 as int + 1)),
                            spec_next_hunk(lv, i as nat) == spec_next_hunk(lv, i0 + 1),
                            spec_apply_diff(r0, lv, i0) == spec_apply_diff(original@, lv, 0),
                            is_hunk_marker(lv[i0 as int]),
                            !is_file_header(lv[i0 as int]),
                            spec_parse_hunk_header(lv[i0 as int]) == Ok::<
                                HunkInfo,
                                PatchError,
                            >(info),
                        decreases lines@.len() - i,
                    {
                        proof {
                            assert(lv[i as int] == lines@[i as int]@);
                        }
                        i = i + 1;
                    }
                    proof {
                        if i < lines.len() {
                            assert(lv[i as int] == lines@[i as int]@);
                        }
                        assert(spec_next_hunk(lv, i as nat) == i as nat);
                        assert(spec_apply_diff(result@, lv, i as nat) == spec_apply_diff(
                            r0,
                            lv,
                            i0,
                        ));
                    }
                },
            }
        } else {
            i = i + 1;
        }
    }
    proof {
        assert(spec_apply_diff(result@, lv, i as nat) == Ok::<Seq<u8>, PatchError>(result@));
    }
    Ok(result)
}

} // verus!
