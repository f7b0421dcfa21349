//! Discovery of JSON value boundaries in a byte stream.
//!
//! A watch feed concatenates JSON texts with nothing between them but
//! optional whitespace, so the decoder must find, on the raw bytes, the
//! position where one complete value ends.  The spec functions in this module
//! are the mathematical model of that boundary: a recursive scan over the
//! byte sequence.  The executable scanner is proved to return exactly what
//! the model says.
//!
//! The scanner delimits values; it does not validate them.  A brace-balanced
//! but malformed text such as `{]` is delimited as one value and rejected
//! later, when the value is decoded.  Bytes that cannot even start a value
//! make the rest of the stream undecodable: the scan reports them as bad and
//! the outcome stream ends after one error item (no resynchronisation is
//! attempted past them).

use vstd::prelude::*;

verus! {

/// JSON insignificant whitespace: space, tab, line feed, carriage return.
pub open spec fn is_ws(b: u8) -> bool {
    b == 32 || b == 9 || b == 10 || b == 13
}

/// Bytes that may occur in a JSON number after its first byte
/// (digits, signs, decimal point, exponent marker).
pub open spec fn is_num_byte(b: u8) -> bool {
    (48 <= b && b <= 57) || b == 45 || b == 43 || b == 46 || b == 101 || b == 69
}

/// Bytes that may start a JSON number: a digit or a minus sign.
pub open spec fn is_num_start(b: u8) -> bool {
    (48 <= b && b <= 57) || b == 45
}

/// Every byte of `s` is whitespace.
pub open spec fn ws_only(s: Seq<u8>) -> bool {
    forall|i: int| 0 <= i < s.len() ==> is_ws(s[i])
}

/// Index of the first non-whitespace byte at or after `i`, or `s.len()`.
pub open spec fn skip_ws(s: Seq<u8>, i: int) -> int
    decreases s.len() - i when 0 <= i <= s.len()
{
    if i >= s.len() {
        i
    } else if is_ws(s[i]) {
        skip_ws(s, i + 1)
    } else {
        i
    }
}

/// Where scanning the tail of a string or container value ends.
///
/// `i` points just past the opening byte.  For a string value the scan runs
/// with `in_str` and `depth == 0` and ends just past the closing quote; for
/// an object or array it runs with `depth == 1` and ends just past the
/// bracket that brings the depth back to zero.  Strings inside a container
/// are tracked so that brackets and escaped quotes inside them do not count.
/// `None` means the value is still open when the bytes run out.
pub open spec fn scan_tail(s: Seq<u8>, i: int, depth: int, in_str: bool, esc: bool) -> Option<int>
    decreases s.len() - i when 0 <= i <= s.len()
{
    if i >= s.len() {
        None
    } else {
        let b = s[i];
        if in_str {
            if esc {
                scan_tail(s, i + 1, depth, true, false)
            } else if b == 92 {  // backslash
                scan_tail(s, i + 1, depth, true, true)
            } else if b == 34 {  // quote
                if depth == 0 {
                    Some(i + 1)
                } else {
                    scan_tail(s, i + 1, depth, false, false)
                }
            } else {
                scan_tail(s, i + 1, depth, true, false)
            }
        } else {
            if b == 34 {  // quote
                scan_tail(s, i + 1, depth, true, false)
            } else if b == 123 || b == 91 {  // { [
                scan_tail(s, i + 1, depth + 1, false, false)
            } else if b == 125 || b == 93 {  // } ]
                if depth == 1 {
                    Some(i + 1)
                } else {
                    scan_tail(s, i + 1, depth - 1, false, false)
                }
            } else {
                scan_tail(s, i + 1, depth, false, false)
            }
        }
    }
}

/// Outcome of matching the tail of a literal (`true`, `false`, `null`).
pub enum LitScan {
    /// The whole literal is present; the value ends at `end`.
    Hit { end: int },
    /// The bytes ran out while they still agreed with the literal.
    Short,
    /// A byte disagrees with the literal.
    Miss,
}

/// Match `lit[k..]` against `s` starting at `i`.
pub open spec fn scan_literal(s: Seq<u8>, i: int, lit: Seq<u8>, k: int) -> LitScan
    decreases lit.len() - k when 0 <= k <= lit.len()
{
    if k >= lit.len() {
        LitScan::Hit { end: i }
    } else if i >= s.len() {
        LitScan::Short
    } else if s[i] == lit[k] {
        scan_literal(s, i + 1, lit, k + 1)
    } else {
        LitScan::Miss
    }
}

/// Index of the first byte at or after `i` that cannot belong to a number,
/// or `s.len()`.
pub open spec fn num_end(s: Seq<u8>, i: int) -> int
    decreases s.len() - i when 0 <= i <= s.len()
{
    if i >= s.len() {
        i
    } else if is_num_byte(s[i]) {
        num_end(s, i + 1)
    } else {
        i
    }
}

pub open spec fn true_tail() -> Seq<u8> {
    seq![114u8, 117u8, 101u8]  // "rue"
}

pub open spec fn false_tail() -> Seq<u8> {
    seq![97u8, 108u8, 115u8, 101u8]  // "alse"
}

pub open spec fn null_tail() -> Seq<u8> {
    seq![117u8, 108u8, 108u8]  // "ull"
}

/// Result of looking for the first value boundary in a byte sequence.
pub enum Scan {
    /// One complete value occupies `s[start..end]`; `s[..start]` is whitespace.
    Found { start: int, end: int },
    /// More bytes are needed before the boundary can be known.
    More,
    /// The stream is over: nothing but whitespace, or an unfinished value
    /// that can never be completed because no more bytes will come.
    Stop,
    /// The byte at `start` cannot start a value: the stream is undecodable
    /// from there on.
    Bad { start: int },
}

/// Boundary of a literal value starting at `w` (whose first byte already
/// identified the literal whose remaining bytes are `lit`).
pub open spec fn lit_boundary(s: Seq<u8>, w: int, lit: Seq<u8>, eof: bool) -> Scan {
    match scan_literal(s, w + 1, lit, 0) {
        LitScan::Hit { end } => Scan::Found { start: w, end },
        LitScan::Short => if eof { Scan::Stop } else { Scan::More },
        LitScan::Miss => Scan::Bad { start: w },
    }
}

/// The first value boundary in `s`.
///
/// `eof` says whether `s` is all the bytes the stream will ever deliver.
/// It decides two things: whether exhausting the bytes mid-value means
/// "wait" or "the stream is over", and whether a number that runs to the
/// very end of the bytes is complete (a number is the one kind of value
/// that only a following byte or the end of the stream can delimit).
pub open spec fn scan_value(s: Seq<u8>, eof: bool) -> Scan {
    let w = skip_ws(s, 0);
    if w >= s.len() {
        if eof {
            Scan::Stop
        } else {
            Scan::More
        }
    } else {
        let b = s[w];
        if b == 123 || b == 91 {  // { [
            match scan_tail(s, w + 1, 1, false, false) {
                Some(e) => Scan::Found { start: w, end: e },
                None => if eof { Scan::Stop } else { Scan::More },
            }
        } else if b == 34 {  // "
            match scan_tail(s, w + 1, 0, true, false) {
                Some(e) => Scan::Found { start: w, end: e },
                None => if eof { Scan::Stop } else { Scan::More },
            }
        } else if b == 116 {  // t
            lit_boundary(s, w, true_tail(), eof)
        } else if b == 102 {  // f
            lit_boundary(s, w, false_tail(), eof)
        } else if b == 110 {  // n
            lit_boundary(s, w, null_tail(), eof)
        } else if is_num_start(b) {
            let e = num_end(s, w + 1);
            if e == s.len() && !eof {
                Scan::More
            } else {
                Scan::Found { start: w, end: e }
            }
        } else {
            Scan::Bad { start: w }
        }
    }
}

/// A sequence of bytes that is exactly one self-delimiting JSON value:
/// the scan finds a boundary covering all of it, without waiting for the
/// stream to end.  Objects, arrays, strings and literals qualify; a bare
/// top-level number does not, since only the byte after it can delimit it.
pub open spec fn is_frame(v: Seq<u8>) -> bool {
    scan_value(v, false) == (Scan::Found { start: 0, end: v.len() as int })
}

// ---------------------------------------------------------------------------
// Bounds of the scan.
// ---------------------------------------------------------------------------

pub proof fn lemma_skip_ws_bounds(s: Seq<u8>, i: int)
    requires
        0 <= i <= s.len(),
    ensures
        i <= skip_ws(s, i) <= s.len(),
    decreases s.len() - i,
{
    if i < s.len() && is_ws(s[i]) {
        lemma_skip_ws_bounds(s, i + 1);
    }
}

pub proof fn lemma_scan_tail_bounds(s: Seq<u8>, i: int, depth: int, in_str: bool, esc: bool)
    requires
        0 <= i <= s.len(),
        scan_tail(s, i, depth, in_str, esc) is Some,
    ensures
        i < scan_tail(s, i, depth, in_str, esc)->Some_0 <= s.len(),
    decreases s.len() - i,
{
    let b = s[i];
    if in_str {
        if esc {
            lemma_scan_tail_bounds(s, i + 1, depth, true, false);
        } else if b == 92 {
            lemma_scan_tail_bounds(s, i + 1, depth, true, true);
        } else if b == 34 {
            if depth != 0 {
                lemma_scan_tail_bounds(s, i + 1, depth, false, false);
            }
        } else {
            lemma_scan_tail_bounds(s, i + 1, depth, true, false);
        }
    } else {
        if b == 34 {
            lemma_scan_tail_bounds(s, i + 1, depth, true, false);
        } else if b == 123 || b == 91 {
            lemma_scan_tail_bounds(s, i + 1, depth + 1, false, false);
        } else if b == 125 || b == 93 {
            if depth != 1 {
                lemma_scan_tail_bounds(s, i + 1, depth - 1, false, false);
            }
        } else {
            lemma_scan_tail_bounds(s, i + 1, depth, false, false);
        }
    }
}

pub proof fn lemma_scan_literal_bounds(s: Seq<u8>, i: int, lit: Seq<u8>, k: int)
    requires
        0 <= i <= s.len(),
        0 <= k <= lit.len(),
        scan_literal(s, i, lit, k) is Hit,
    ensures
        i <= scan_literal(s, i, lit, k)->Hit_end <= s.len(),
    decreases lit.len() - k,
{
    if k < lit.len() && i < s.len() && s[i] == lit[k] {
        lemma_scan_literal_bounds(s, i + 1, lit, k + 1);
    }
}

pub proof fn lemma_num_end_bounds(s: Seq<u8>, i: int)
    requires
        0 <= i <= s.len(),
    ensures
        i <= num_end(s, i) <= s.len(),
    decreases s.len() - i,
{
    if i < s.len() && is_num_byte(s[i]) {
        lemma_num_end_bounds(s, i + 1);
    }
}

/// A discovered boundary or bad byte lies within the scanned bytes.
pub proof fn lemma_scan_value_bounds(s: Seq<u8>, eof: bool)
    ensures
        scan_value(s, eof) matches Scan::Found { start, end } ==> 0 <= start < end <= s.len(),
        scan_value(s, eof) matches Scan::Bad { start } ==> 0 <= start < s.len(),
{
    let w = skip_ws(s, 0);
    lemma_skip_ws_bounds(s, 0);
    if w < s.len() {
        let b = s[w];
        if b == 123 || b == 91 {
            if scan_tail(s, w + 1, 1, false, false) is Some {
                lemma_scan_tail_bounds(s, w + 1, 1, false, false);
            }
        } else if b == 34 {
            if scan_tail(s, w + 1, 0, true, false) is Some {
                lemma_scan_tail_bounds(s, w + 1, 0, true, false);
            }
        } else if b == 116 {
            if scan_literal(s, w + 1, true_tail(), 0) is Hit {
                lemma_scan_literal_bounds(s, w + 1, true_tail(), 0);
            }
        } else if b == 102 {
            if scan_literal(s, w + 1, false_tail(), 0) is Hit {
                lemma_scan_literal_bounds(s, w + 1, false_tail(), 0);
            }
        } else if b == 110 {
            if scan_literal(s, w + 1, null_tail(), 0) is Hit {
                lemma_scan_literal_bounds(s, w + 1, null_tail(), 0);
            }
        } else if is_num_start(b) {
            lemma_num_end_bounds(s, w + 1);
        }
    }
}

// ---------------------------------------------------------------------------
// Stability: a boundary, once decided without the end of the stream,
// does not move when more bytes arrive.
// ---------------------------------------------------------------------------

proof fn lemma_skip_ws_append(s: Seq<u8>, t: Seq<u8>, i: int)
    requires
        0 <= i <= s.len(),
        skip_ws(s, i) < s.len(),
    ensures
        skip_ws(s + t, i) == skip_ws(s, i),
    decreases s.len() - i,
{
    assert((s + t)[i] == s[i]);
    if is_ws(s[i]) {
        lemma_skip_ws_append(s, t, i + 1);
    }
}

proof fn lemma_scan_tail_append(s: Seq<u8>, t: Seq<u8>, i: int, depth: int, in_str: bool, esc: bool)
    requires
        0 <= i <= s.len(),
        scan_tail(s, i, depth, in_str, esc) is Some,
    ensures
        scan_tail(s + t, i, depth, in_str, esc) == scan_tail(s, i, depth, in_str, esc),
    decreases s.len() - i,
{
    let b = s[i];
    assert((s + t)[i] == s[i]);
    if in_str {
        if esc {
            lemma_scan_tail_append(s, t, i + 1, depth, true, false);
        } else if b == 92 {
            lemma_scan_tail_append(s, t, i + 1, depth, true, true);
        } else if b == 34 {
            if depth != 0 {
                lemma_scan_tail_append(s, t, i + 1, depth, false, false);
            }
        } else {
            lemma_scan_tail_append(s, t, i + 1, depth, true, false);
        }
    } else {
        if b == 34 {
            lemma_scan_tail_append(s, t, i + 1, depth, true, false);
        } else if b == 123 || b == 91 {
            lemma_scan_tail_append(s, t, i + 1, depth + 1, false, false);
        } else if b == 125 || b == 93 {
            if depth != 1 {
                lemma_scan_tail_append(s, t, i + 1, depth - 1, false, false);
            }
        } else {
            lemma_scan_tail_append(s, t, i + 1, depth, false, false);
        }
    }
}

proof fn lemma_scan_literal_append(s: Seq<u8>, t: Seq<u8>, i: int, lit: Seq<u8>, k: int)
    requires
        0 <= i,
        0 <= k <= lit.len(),
        !(scan_literal(s, i, lit, k) is Short),
    ensures
        scan_literal(s + t, i, lit, k) == scan_literal(s, i, lit, k),
    decreases lit.len() - k,
{
    if k < lit.len() {
        assert(i < s.len());
        assert((s + t)[i] == s[i]);
        if s[i] == lit[k] {
            lemma_scan_literal_append(s, t, i + 1, lit, k + 1);
        }
    }
}

proof fn lemma_num_end_append(s: Seq<u8>, t: Seq<u8>, i: int)
    requires
        0 <= i <= s.len(),
        num_end(s, i) < s.len(),
    ensures
        num_end(s + t, i) == num_end(s, i),
    decreases s.len() - i,
{
    assert((s + t)[i] == s[i]);
    if is_num_byte(s[i]) {
        lemma_num_end_append(s, t, i + 1);
    }
}

/// A boundary or a bad byte found while the stream was still open stays
/// exactly where it is, whatever bytes arrive later and whether or not the
/// stream then ends.
pub proof fn lemma_scan_value_decided_append(s: Seq<u8>, t: Seq<u8>, eof: bool)
    requires
        scan_value(s, false) is Found || scan_value(s, false) is Bad,
    ensures
        scan_value(s + t, eof) == scan_value(s, false),
{
    let w = skip_ws(s, 0);
    lemma_skip_ws_bounds(s, 0);
    assert(w < s.len());
    lemma_skip_ws_append(s, t, 0);
    assert((s + t)[w] == s[w]);
    let b = s[w];
    if b == 123 || b == 91 {
        lemma_scan_tail_append(s, t, w + 1, 1, false, false);
    } else if b == 34 {
        lemma_scan_tail_append(s, t, w + 1, 0, true, false);
    } else if b == 116 {
        lemma_scan_literal_append(s, t, w + 1, true_tail(), 0);
    } else if b == 102 {
        lemma_scan_literal_append(s, t, w + 1, false_tail(), 0);
    } else if b == 110 {
        lemma_scan_literal_append(s, t, w + 1, null_tail(), 0);
    } else if is_num_start(b) {
        let e = num_end(s, w + 1);
        lemma_num_end_bounds(s, w + 1);
        assert(e < s.len());
        lemma_num_end_append(s, t, w + 1);
    }
}

// ---------------------------------------------------------------------------
// Shifting: scanning after a prefix.
// ---------------------------------------------------------------------------

proof fn lemma_skip_ws_shift(p: Seq<u8>, s: Seq<u8>, i: int)
    requires
        0 <= i <= s.len(),
    ensures
        skip_ws(p + s, p.len() + i) == p.len() + skip_ws(s, i),
    decreases s.len() - i,
{
    if i < s.len() {
        assert((p + s)[p.len() + i] == s[i]);
        if is_ws(s[i]) {
            lemma_skip_ws_shift(p, s, i + 1);
        }
    }
}

proof fn lemma_scan_tail_shift(p: Seq<u8>, s: Seq<u8>, i: int, depth: int, in_str: bool, esc: bool)
    requires
        0 <= i <= s.len(),
    ensures
        scan_tail(p + s, p.len() + i, depth, in_str, esc) == match scan_tail(s, i, depth, in_str, esc) {
            Some(e) => Some(p.len() + e),
            None => None::<int>,
        },
    decreases s.len() - i,
{
    if i < s.len() {
        let b = s[i];
        assert((p + s)[p.len() + i] == s[i]);
        if in_str {
            if esc {
                lemma_scan_tail_shift(p, s, i + 1, depth, true, false);
            } else if b == 92 {
                lemma_scan_tail_shift(p, s, i + 1, depth, true, true);
            } else if b == 34 {
                if depth != 0 {
                    lemma_scan_tail_shift(p, s, i + 1, depth, false, false);
                }
            } else {
                lemma_scan_tail_shift(p, s, i + 1, depth, true, false);
            }
        } else {
            if b == 34 {
                lemma_scan_tail_shift(p, s, i + 1, depth, true, false);
            } else if b == 123 || b == 91 {
                lemma_scan_tail_shift(p, s, i + 1, depth + 1, false, false);
            } else if b == 125 || b == 93 {
                if depth != 1 {
                    lemma_scan_tail_shift(p, s, i + 1, depth - 1, false, false);
                }
            } else {
                lemma_scan_tail_shift(p, s, i + 1, depth, false, false);
            }
        }
    }
}

proof fn lemma_scan_literal_shift(p: Seq<u8>, s: Seq<u8>, i: int, lit: Seq<u8>, k: int)
    requires
        0 <= i <= s.len(),
        0 <= k <= lit.len(),
    ensures
        scan_literal(p + s, p.len() + i, lit, k) == match scan_literal(s, i, lit, k) {
            LitScan::Hit { end } => LitScan::Hit { end: p.len() + end },
            LitScan::Short => LitScan::Short,
            LitScan::Miss => LitScan::Miss,
        },
    decreases lit.len() - k,
{
    if k < lit.len() && i < s.len() {
        assert((p + s)[p.len() + i] == s[i]);
        if s[i] == lit[k] {
            lemma_scan_literal_shift(p, s, i + 1, lit, k + 1);
        }
    }
}

proof fn lemma_num_end_shift(p: Seq<u8>, s: Seq<u8>, i: int)
    requires
        0 <= i <= s.len(),
    ensures
        num_end(p + s, p.len() + i) == p.len() + num_end(s, i),
    decreases s.len() - i,
{
    if i < s.len() {
        assert((p + s)[p.len() + i] == s[i]);
        if is_num_byte(s[i]) {
            lemma_num_end_shift(p, s, i + 1);
        }
    }
}

proof fn lemma_skip_ws_over_ws(p: Seq<u8>, s: Seq<u8>, j: int)
    requires
        ws_only(p),
        0 <= j <= p.len(),
    ensures
        skip_ws(p + s, j) == skip_ws(p + s, p.len() as int),
    decreases p.len() - j,
{
    if j < p.len() {
        assert((p + s)[j] == p[j]);
        lemma_skip_ws_over_ws(p, s, j + 1);
    }
}

/// Scanning behind a whitespace prefix finds the same boundary, shifted.
pub proof fn lemma_scan_value_ws_shift(p: Seq<u8>, s: Seq<u8>, eof: bool)
    requires
        ws_only(p),
    ensures
        scan_value(p + s, eof) == match scan_value(s, eof) {
            Scan::Found { start, end } => Scan::Found { start: p.len() + start, end: p.len() + end },
            Scan::Bad { start } => Scan::Bad { start: p.len() + start },
            Scan::More => Scan::More,
            Scan::Stop => Scan::Stop,
        },
{
    let w = skip_ws(s, 0);
    lemma_skip_ws_bounds(s, 0);
    lemma_skip_ws_over_ws(p, s, 0);
    lemma_skip_ws_shift(p, s, 0);
    assert(skip_ws(p + s, 0) == p.len() + w);
    assert((p + s).len() == p.len() + s.len());
    if w < s.len() {
        assert((p + s)[p.len() + w] == s[w]);
        let b = s[w];
        if b == 123 || b == 91 {
            lemma_scan_tail_shift(p, s, w + 1, 1, false, false);
        } else if b == 34 {
            lemma_scan_tail_shift(p, s, w + 1, 0, true, false);
        } else if b == 116 {
            lemma_scan_literal_shift(p, s, w + 1, true_tail(), 0);
        } else if b == 102 {
            lemma_scan_literal_shift(p, s, w + 1, false_tail(), 0);
        } else if b == 110 {
            lemma_scan_literal_shift(p, s, w + 1, null_tail(), 0);
        } else if is_num_start(b) {
            lemma_num_end_shift(p, s, w + 1);
        }
    }
}

// ---------------------------------------------------------------------------
// The outcome stream of a whole byte stream.
// ---------------------------------------------------------------------------

/// One element of the outcome stream, at the level of raw bytes.
pub enum StreamItem {
    /// The bytes of one delimited value.
    Value(Seq<u8>),
    /// The undecodable remainder: bytes from the first position where no
    /// value can start.  Always the last item of an outcome stream.
    Garbage(Seq<u8>),
}

/// The sequence of items that a complete byte stream `s` yields: one item
/// per discovered value, in stream order; one final garbage item if the
/// stream becomes undecodable; nothing for a trailing unfinished value.
pub open spec fn outcomes_of(s: Seq<u8>) -> Seq<StreamItem>
    decreases s.len(),
{
    match scan_value(s, true) {
        Scan::Found { start, end } => if 0 <= start && start < end && end <= s.len() {
            seq![StreamItem::Value(s.subrange(start, end))] + outcomes_of(s.skip(end))
        } else {
            seq![]
        },
        Scan::Bad { start } => if 0 <= start <= s.len() {
            seq![StreamItem::Garbage(s.skip(start))]
        } else {
            seq![]
        },
        Scan::More => seq![],
        Scan::Stop => seq![],
    }
}

/// A garbage item, when there is one, is the last item of the outcome
/// stream: nothing is ever produced past the point where the stream
/// became undecodable.
pub proof fn lemma_garbage_is_last(s: Seq<u8>, k: int)
    requires
        0 <= k < outcomes_of(s).len(),
        outcomes_of(s)[k] is Garbage,
    ensures
        k == outcomes_of(s).len() - 1,
    decreases s.len(),
{
    match scan_value(s, true) {
        Scan::Found { start, end } => {
            if 0 <= start && start < end && end <= s.len() {
                if k > 0 {
                    lemma_garbage_is_last(s.skip(end), k - 1);
                }
            }
        },
        _ => {},
    }
}

/// Appending bytes to a stream whose next boundary is already decided
/// prepends that value to the outcomes of the rest.
pub proof fn lemma_outcomes_step_value(s: Seq<u8>, t: Seq<u8>)
    requires
        scan_value(s, false) is Found,
    ensures
        ({
            let start = scan_value(s, false)->Found_start;
            let end = scan_value(s, false)->Found_end;
            outcomes_of(s + t) == seq![StreamItem::Value(s.subrange(start, end))] + outcomes_of(
                s.skip(end) + t,
            )
        }),
{
    let start = scan_value(s, false)->Found_start;
    let end = scan_value(s, false)->Found_end;
    lemma_scan_value_bounds(s, false);
    lemma_scan_value_decided_append(s, t, true);
    assert(scan_value(s + t, true) == (Scan::Found { start, end }));
    assert((s + t).subrange(start, end) =~= s.subrange(start, end));
    assert((s + t).skip(end) =~= s.skip(end) + t);
}

/// A stream whose next byte cannot start a value yields one garbage item,
/// whatever arrives after it.
pub proof fn lemma_outcomes_step_garbage(s: Seq<u8>, t: Seq<u8>)
    requires
        scan_value(s, false) is Bad,
    ensures
        ({
            let start = scan_value(s, false)->Bad_start;
            outcomes_of(s + t) == seq![StreamItem::Garbage(s.skip(start) + t)]
        }),
{
    let start = scan_value(s, false)->Bad_start;
    lemma_scan_value_bounds(s, false);
    lemma_scan_value_decided_append(s, t, true);
    assert(scan_value(s + t, true) == (Scan::Bad { start }));
    assert((s + t).skip(start) =~= s.skip(start) + t);
}

/// Interleave whitespace gaps and values, then a final tail:
/// `gaps[0] + vals[0] + gaps[1] + vals[1] + ... + tail`.
pub open spec fn spliced(gaps: Seq<Seq<u8>>, vals: Seq<Seq<u8>>, tail: Seq<u8>) -> Seq<u8>
    decreases vals.len(),
{
    if vals.len() == 0 {
        tail
    } else {
        gaps[0] + vals[0] + spliced(gaps.skip(1), vals.skip(1), tail)
    }
}

/// The outcome stream of any whitespace-interleaved concatenation of
/// self-delimiting values is exactly those values, in order — however the
/// bytes were chunked on arrival, since the outcome stream is a function
/// of the concatenated bytes alone.  The tail may be empty, whitespace, or
/// an unfinished value cut off by the end of the stream: it contributes no
/// item.
pub proof fn lemma_spliced_outcomes(gaps: Seq<Seq<u8>>, vals: Seq<Seq<u8>>, tail: Seq<u8>)
    requires
        gaps.len() == vals.len(),
        forall|k: int| 0 <= k < gaps.len() ==> ws_only(#[trigger] gaps[k]),
        forall|k: int| 0 <= k < vals.len() ==> is_frame(#[trigger] vals[k]),
        scan_value(tail, true) == Scan::Stop,
    ensures
        outcomes_of(spliced(gaps, vals, tail)) == vals.map_values(
            |v: Seq<u8>| StreamItem::Value(v),
        ),
    decreases vals.len(),
{
    let f = |v: Seq<u8>| StreamItem::Value(v);
    if vals.len() == 0 {
        assert(outcomes_of(tail) == Seq::<StreamItem>::empty());
        assert(vals.map_values(f) =~= Seq::<StreamItem>::empty());
    } else {
        let g0 = gaps[0];
        let v0 = vals[0];
        let rest = spliced(gaps.skip(1), vals.skip(1), tail);
        let s = spliced(gaps, vals, tail);
        assert(is_frame(v0));
        lemma_scan_value_bounds(v0, false);
        assert(v0.len() > 0);
        lemma_scan_value_decided_append(v0, rest, true);
        assert(scan_value(v0 + rest, true) == (Scan::Found { start: 0, end: v0.len() as int }));
        lemma_scan_value_ws_shift(g0, v0 + rest, true);
        assert(scan_value(g0 + (v0 + rest), true) == (Scan::Found {
            start: g0.len() as int,
            end: g0.len() as int + v0.len() as int,
        }));
        assert(s =~= g0 + (v0 + rest));
        assert(scan_value(s, true) == (Scan::Found {
            start: g0.len() as int,
            end: g0.len() as int + v0.len() as int,
        }));
        assert(s.subrange(g0.len() as int, g0.len() as int + v0.len() as int) =~= v0);
        assert(s.skip(g0.len() as int + v0.len() as int) =~= rest);
        assert(outcomes_of(s) == seq![StreamItem::Value(v0)] + outcomes_of(rest));
        lemma_spliced_outcomes(gaps.skip(1), vals.skip(1), tail);
        assert(vals.skip(1).map_values(f) == outcomes_of(rest));
        assert(vals.map_values(f) =~= seq![StreamItem::Value(v0)] + vals.skip(1).map_values(f));
    }
}

// ---------------------------------------------------------------------------
// The executable scanner.
// ---------------------------------------------------------------------------

/// What the executable scanner reports; mirrors [`Scan`] with machine indices.
pub enum ScanStep {
    Found { start: usize, end: usize },
    More,
    Stop,
    Bad { start: usize },
}

/// The [`Scan`] that a [`ScanStep`] stands for.
pub open spec fn step_model(r: ScanStep) -> Scan {
    match r {
        ScanStep::Found { start, end } => Scan::Found { start: start as int, end: end as int },
        ScanStep::More => Scan::More,
        ScanStep::Stop => Scan::Stop,
        ScanStep::Bad { start } => Scan::Bad { start: start as int },
    }
}

fn ws_byte(b: u8) -> (r: bool)
    ensures
        r == is_ws(b),
{
    b == 32 || b == 9 || b == 10 || b == 13
}

fn num_byte(b: u8) -> (r: bool)
    ensures
        r == is_num_byte(b),
{
    (48 <= b && b <= 57) || b == 45 || b == 43 || b == 46 || b == 101 || b == 69
}

fn skip_ws_exec(buf: &[u8], from: usize) -> (r: usize)
    requires
        from <= buf@.len(),
    ensures
        r as int == skip_ws(buf@, from as int),
        from <= r <= buf@.len(),
{
    let mut i: usize = from;
    loop
        invariant
            from <= i <= buf@.len(),
            skip_ws(buf@, from as int) == skip_ws(buf@, i as int),
        ensures
            from <= i <= buf@.len(),
            skip_ws(buf@, from as int) == i as int,
        decreases buf@.len() - i,
    {
        if i >= buf.len() {
            assert(skip_ws(buf@, i as int) == i as int);
            break;
        }
        if !ws_byte(buf[i]) {
            assert(skip_ws(buf@, i as int) == i as int);
            break;
        }
        assert(skip_ws(buf@, i as int) == skip_ws(buf@, i as int + 1));
        i = i + 1;
    }
    i
}

fn scan_tail_exec(buf: &[u8], from: usize, depth0: usize, in_str0: bool) -> (r: Option<usize>)
    requires
        from <= buf@.len(),
        depth0 <= from,
        in_str0 || depth0 >= 1,
    ensures
        match r {
            Some(e) => scan_tail(buf@, from as int, depth0 as int, in_str0, false) == Some(e as int),
            None => scan_tail(buf@, from as int, depth0 as int, in_str0, false) is None,
        },
{
    let mut i: usize = from;
    let mut depth: usize = depth0;
    let mut in_str: bool = in_str0;
    let mut esc: bool = false;
    loop
        invariant
            from <= i <= buf@.len(),
            depth <= i,
            in_str || depth >= 1,
            esc ==> in_str,
            scan_tail(buf@, from as int, depth0 as int, in_str0, false) == scan_tail(
                buf@,
                i as int,
                depth as int,
                in_str,
                esc,
            ),
        decreases buf@.len() - i,
    {
        if i >= buf.len() {
            assert(scan_tail(buf@, i as int, depth as int, in_str, esc) is None);
            return None;
        }
        let b = buf[i];
        assert(b == buf@[i as int]);
        let ghost cur = scan_tail(buf@, i as int, depth as int, in_str, esc);
        if in_str {
            if esc {
                assert(cur == scan_tail(buf@, i as int + 1, depth as int, true, false));
                esc = false;
            } else if b == 92 {
                assert(cur == scan_tail(buf@, i as int + 1, depth as int, true, true));
                esc = true;
            } else if b == 34 {
                if depth == 0 {
                    assert(cur == Some(i as int + 1));
                    return Some(i + 1);
                }
                assert(cur == scan_tail(buf@, i as int + 1, depth as int, false, false));
                in_str = false;
            } else {
                assert(cur == scan_tail(buf@, i as int + 1, depth as int, true, false));
            }
        } else {
            if b == 34 {
                assert(cur == scan_tail(buf@, i as int + 1, depth as int, true, false));
                in_str = true;
            } else if b == 123 || b == 91 {
                assert(cur == scan_tail(buf@, i as int + 1, depth as int + 1, false, false));
                depth = depth + 1;
            } else if b == 125 || b == 93 {
                if depth == 1 {
                    assert(cur == Some(i as int + 1));
                    return Some(i + 1);
                }
                assert(cur == scan_tail(buf@, i as int + 1, depth as int - 1, false, false));
                depth = depth - 1;
            } else {
                assert(cur == scan_tail(buf@, i as int + 1, depth as int, false, false));
            }
        }
        i = i + 1;
    }
}

fn scan_literal_exec(buf: &[u8], from: usize, lit: &[u8]) -> (r: ScanStep)
    requires
        from <= buf@.len(),
    ensures
        match r {
            ScanStep::Found { start, end } => start == from && scan_literal(buf@, from as int, lit@, 0)
                == (LitScan::Hit { end: end as int }) && end <= buf@.len(),
            ScanStep::More => scan_literal(buf@, from as int, lit@, 0) is Short,
            ScanStep::Stop => false,
            ScanStep::Bad { start } => start == from && scan_literal(buf@, from as int, lit@, 0) is Miss,
        },
{
    let n = buf.len();
    let mut k: usize = 0;
    loop
        invariant
            n == buf@.len(),
            k <= lit@.len(),
            from <= buf@.len(),
            from as int + k as int <= n,
            scan_literal(buf@, from as int, lit@, 0) == scan_literal(
                buf@,
                from as int + k as int,
                lit@,
                k as int,
            ),
        decreases lit@.len() - k,
    {
        if k >= lit.len() {
            assert(scan_literal(buf@, from as int + k as int, lit@, k as int) == (LitScan::Hit {
                end: from as int + k as int,
            }));
            return ScanStep::Found { start: from, end: from + k };
        }
        if from + k >= buf.len() {
            assert(scan_literal(buf@, from as int + k as int, lit@, k as int) is Short);
            return ScanStep::More;
        }
        if buf[from + k] != lit[k] {
            assert(scan_literal(buf@, from as int + k as int, lit@, k as int) is Miss);
            return ScanStep::Bad { start: from };
        }
        assert(scan_literal(buf@, from as int + k as int, lit@, k as int) == scan_literal(
            buf@,
            from as int + k as int + 1,
            lit@,
            k as int + 1,
        ));
        k = k + 1;
    }
}

fn num_end_exec(buf: &[u8], from: usize) -> (r: usize)
    requires
        from <= buf@.len(),
    ensures
        r as int == num_end(buf@, from as int),
        from <= r <= buf@.len(),
{
    let mut i: usize = from;
    loop
        invariant
            from <= i <= buf@.len(),
            num_end(buf@, from as int) == num_end(buf@, i as int),
        ensures
            from <= i <= buf@.len(),
            num_end(buf@, from as int) == i as int,
        decreases buf@.len() - i,
    {
        if i >= buf.len() {
            assert(num_end(buf@, i as int) == i as int);
            break;
        }
        if !num_byte(buf[i]) {
            assert(num_end(buf@, i as int) == i as int);
            break;
        }
        assert(num_end(buf@, i as int) == num_end(buf@, i as int + 1));
        i = i + 1;
    }
    i
}

/// Find the first value boundary in `buf`, exactly as the model does.
pub fn scan_next(buf: &[u8], eof: bool) -> (r: ScanStep)
    ensures
        step_model(r) == scan_value(buf@, eof),
        r matches ScanStep::Found { start, end } ==> start < end <= buf@.len(),
        r matches ScanStep::Bad { start } ==> start < buf@.len(),
{
    proof {
        lemma_scan_value_bounds(buf@, eof);
    }
    let w = skip_ws_exec(buf, 0);
    if w >= buf.len() {
        if eof {
            return ScanStep::Stop;
        }
        return ScanStep::More;
    }
    let b = buf[w];
    if b == 123 || b == 91 {
        match scan_tail_exec(buf, w + 1, 1, false) {
            Some(e) => ScanStep::Found { start: w, end: e },
            None => if eof { ScanStep::Stop } else { ScanStep::More },
        }
    } else if b == 34 {
        match scan_tail_exec(buf, w + 1, 0, true) {
            Some(e) => ScanStep::Found { start: w, end: e },
            None => if eof { ScanStep::Stop } else { ScanStep::More },
        }
    } else if b == 116 {
        let lit: Vec<u8> = vec![114, 117, 101];
        assert(lit@ == true_tail());
        let r = scan_literal_exec(buf, w + 1, lit.as_slice());
        match r {
            ScanStep::Found { start: _, end } => ScanStep::Found { start: w, end },
            ScanStep::Bad { start: _ } => ScanStep::Bad { start: w },
            _ => if eof { ScanStep::Stop } else { ScanStep::More },
        }
    } else if b == 102 {
        let lit: Vec<u8> = vec![97, 108, 115, 101];
        assert(lit@ == false_tail());
        let r = scan_literal_exec(buf, w + 1, lit.as_slice());
        match r {
            ScanStep::Found { start: _, end } => ScanStep::Found { start: w, end },
            ScanStep::Bad { start: _ } => ScanStep::Bad { start: w },
            _ => if eof { ScanStep::Stop } else { ScanStep::More },
        }
    } else if b == 110 {
        let lit: Vec<u8> = vec![117, 108, 108];
        assert(lit@ == null_tail());
        let r = scan_literal_exec(buf, w + 1, lit.as_slice());
        match r {
            ScanStep::Found { start: _, end } => ScanStep::Found { start: w, end },
            ScanStep::Bad { start: _ } => ScanStep::Bad { start: w },
            _ => if eof { ScanStep::Stop } else { ScanStep::More },
        }
    } else if (48 <= b && b <= 57) || b == 45 {
        let e = num_end_exec(buf, w + 1);
        if e == buf.len() && !eof {
            ScanStep::More
        } else {
            ScanStep::Found { start: w, end: e }
        }
    } else {
        ScanStep::Bad { start: w }
    }
}

} // verus!
