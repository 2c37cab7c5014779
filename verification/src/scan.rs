//! Low-level scanners over the input bytes: whitespace, identifiers,
//! delimiter matching, and verbatim capture. Each runtime scanner returns
//! exactly what its specification-level twin computes.

use vstd::prelude::*;

verus! {

// The ASCII bytes the grammar speaks of.
pub const B_SPACE: u8 = 32;
pub const B_TAB: u8 = 9;
pub const B_LF: u8 = 10;
pub const B_CR: u8 = 13;
pub const B_HASH: u8 = 35;
pub const B_LBRACKET: u8 = 91;
pub const B_RBRACKET: u8 = 93;
pub const B_LPAREN: u8 = 40;
pub const B_RPAREN: u8 = 41;
pub const B_LBRACE: u8 = 123;
pub const B_RBRACE: u8 = 125;
pub const B_LT: u8 = 60;
pub const B_GT: u8 = 62;
pub const B_COMMA: u8 = 44;
pub const B_COLON: u8 = 58;
pub const B_SEMI: u8 = 59;
pub const B_SLASH: u8 = 47;
pub const B_DASH: u8 = 45;
pub const B_BANG: u8 = 33;

/// Whitespace: space, tab, line feed, carriage return.
pub open spec fn is_ws(b: u8) -> bool {
    b == 32 || b == 9 || b == 10 || b == 13
}

/// A byte that may open an identifier.
pub open spec fn is_ident_start(b: u8) -> bool {
    (97 <= b && b <= 122) || (65 <= b && b <= 90) || b == 95
}

/// A byte that may continue an identifier.
pub open spec fn is_ident_char(b: u8) -> bool {
    is_ident_start(b) || (48 <= b && b <= 57)
}

/// The first position at or after `i` holding a byte that is not whitespace.
pub open spec fn skip_ws(s: Seq<u8>, i: int) -> int
    decreases s.len() - i,
{
    if 0 <= i < s.len() && is_ws(s[i]) {
        skip_ws(s, i + 1)
    } else {
        i
    }
}

pub proof fn lemma_skip_ws(s: Seq<u8>, i: int)
    requires
        0 <= i <= s.len(),
    ensures
        i <= skip_ws(s, i) <= s.len(),
        skip_ws(s, i) < s.len() ==> !is_ws(s[skip_ws(s, i)]),
    decreases s.len() - i,
{
    if i < s.len() && is_ws(s[i]) {
        lemma_skip_ws(s, i + 1);
    }
}

/// The first position at or after `i` holding a byte that cannot continue an
/// identifier.
pub open spec fn ident_end(s: Seq<u8>, i: int) -> int
    decreases s.len() - i,
{
    if 0 <= i < s.len() && is_ident_char(s[i]) {
        ident_end(s, i + 1)
    } else {
        i
    }
}

pub proof fn lemma_ident_end(s: Seq<u8>, i: int)
    requires
        0 <= i <= s.len(),
    ensures
        i <= ident_end(s, i) <= s.len(),
    decreases s.len() - i,
{
    if i < s.len() && is_ident_char(s[i]) {
        lemma_ident_end(s, i + 1);
    }
}

/// The position just past the closer that matches `depth` already-open
/// `open` delimiters, counting nesting; `None` when the input ends first.
pub open spec fn scan_close(s: Seq<u8>, i: int, open: u8, close: u8, depth: int) -> Option<int>
    decreases s.len() - i,
{
    if !(0 <= i < s.len()) {
        Option::None
    } else if s[i] == open {
        scan_close(s, i + 1, open, close, depth + 1)
    } else if s[i] == close {
        if depth <= 1 {
            Option::Some(i + 1)
        } else {
            scan_close(s, i + 1, open, close, depth - 1)
        }
    } else {
        scan_close(s, i + 1, open, close, depth)
    }
}

pub proof fn lemma_scan_close(s: Seq<u8>, i: int, open: u8, close: u8, depth: int)
    requires
        0 <= i,
    ensures
        scan_close(s, i, open, close, depth) matches Option::Some(e) ==> i < e <= s.len(),
    decreases s.len() - i,
{
    if 0 <= i < s.len() {
        lemma_scan_close(s, i + 1, open, close, depth + 1);
        lemma_scan_close(s, i + 1, open, close, depth - 1);
        lemma_scan_close(s, i + 1, open, close, depth);
    }
}

/// The position of the first line feed at or after `i`, or the input's end.
pub open spec fn line_end(s: Seq<u8>, i: int) -> int
    decreases s.len() - i,
{
    if 0 <= i < s.len() {
        if s[i] == 10 {
            i
        } else {
            line_end(s, i + 1)
        }
    } else {
        i
    }
}

pub proof fn lemma_line_end(s: Seq<u8>, i: int)
    requires
        0 <= i <= s.len(),
    ensures
        i <= line_end(s, i) <= s.len(),
    decreases s.len() - i,
{
    if i < s.len() && s[i] != 10 {
        lemma_line_end(s, i + 1);
    }
}

/// The position just past the first `;` at or after `i`, or `None` when the
/// input ends first.
pub open spec fn semi_end(s: Seq<u8>, i: int) -> Option<int>
    decreases s.len() - i,
{
    if !(0 <= i < s.len()) {
        Option::None
    } else if s[i] == 59 {
        Option::Some(i + 1)
    } else {
        semi_end(s, i + 1)
    }
}

pub proof fn lemma_semi_end(s: Seq<u8>, i: int)
    requires
        0 <= i,
    ensures
        semi_end(s, i) matches Option::Some(e) ==> i < e <= s.len(),
    decreases s.len() - i,
{
    if 0 <= i < s.len() && s[i] != 59 {
        lemma_semi_end(s, i + 1);
    }
}

pub fn is_ws_exec(b: u8) -> (r: bool)
    ensures
        r == is_ws(b),
{
    b == B_SPACE || b == B_TAB || b == B_LF || b == B_CR
}

pub fn is_ident_start_exec(b: u8) -> (r: bool)
    ensures
        r == is_ident_start(b),
{
    (97 <= b && b <= 122) || (65 <= b && b <= 90) || b == 95
}

pub fn is_ident_char_exec(b: u8) -> (r: bool)
    ensures
        r == is_ident_char(b),
{
    is_ident_start_exec(b) || (48 <= b && b <= 57)
}

pub fn skip_ws_exec(s: &Vec<u8>, i: usize) -> (r: usize)
    requires
        i <= s@.len(),
    ensures
        r as int == skip_ws(s@, i as int),
        i <= r <= s@.len(),
    decreases s@.len() - i,
{
    if i < s.len() && is_ws_exec(s[i]) {
        skip_ws_exec(s, i + 1)
    } else {
        i
    }
}

pub fn ident_end_exec(s: &Vec<u8>, i: usize) -> (r: usize)
    requires
        i <= s@.len(),
    ensures
        r as int == ident_end(s@, i as int),
        i <= r <= s@.len(),
    decreases s@.len() - i,
{
    if i < s.len() && is_ident_char_exec(s[i]) {
        ident_end_exec(s, i + 1)
    } else {
        i
    }
}

pub fn scan_close_exec(s: &Vec<u8>, i: usize, open: u8, close: u8, depth: usize) -> (r: Option<
    usize,
>)
    requires
        depth >= 1,
        open != close,
    ensures
        match r {
            Option::Some(e) => scan_close(s@, i as int, open, close, depth as int) == Option::Some(
                e as int,
            ) && i < e <= s@.len(),
            Option::None => scan_close(s@, i as int, open, close, depth as int) is None,
        },
    decreases s@.len() - i,
{
    if i >= s.len() {
        Option::None
    } else if s[i] == open {
        if depth == usize::MAX {
            // nesting this deep cannot close within an addressable input
            proof {
                lemma_scan_close_depth(s@, i + 1, open, close, depth as int + 1);
            }
            Option::None
        } else {
            scan_close_exec(s, i + 1, open, close, depth + 1)
        }
    } else if s[i] == close {
        if depth <= 1 {
            Option::Some(i + 1)
        } else {
            scan_close_exec(s, i + 1, open, close, depth - 1)
        }
    } else {
        scan_close_exec(s, i + 1, open, close, depth)
    }
}

/// A scan that still has more delimiters open than there are bytes left can
/// never reach its matching closer.
proof fn lemma_scan_close_depth(s: Seq<u8>, i: int, open: u8, close: u8, depth: int)
    requires
        0 <= i,
        open != close,
        depth > s.len() - i,
    ensures
        scan_close(s, i, open, close, depth) is None,
    decreases s.len() - i,
{
    if 0 <= i < s.len() {
        lemma_scan_close_depth(s, i + 1, open, close, depth + 1);
        lemma_scan_close_depth(s, i + 1, open, close, depth - 1);
        lemma_scan_close_depth(s, i + 1, open, close, depth);
    }
}

pub fn line_end_exec(s: &Vec<u8>, i: usize) -> (r: usize)
    requires
        i <= s@.len(),
    ensures
        r as int == line_end(s@, i as int),
        i <= r <= s@.len(),
    decreases s@.len() - i,
{
    if i < s.len() {
        if s[i] == B_LF {
            i
        } else {
            line_end_exec(s, i + 1)
        }
    } else {
        i
    }
}

pub fn semi_end_exec(s: &Vec<u8>, i: usize) -> (r: Option<usize>)
    ensures
        match r {
            Option::Some(e) => semi_end(s@, i as int) == Option::Some(e as int) && i < e
                <= s@.len(),
            Option::None => semi_end(s@, i as int) is None,
        },
    decreases s@.len() - i,
{
    if i >= s.len() {
        Option::None
    } else if s[i] == B_SEMI {
        Option::Some(i + 1)
    } else {
        semi_end_exec(s, i + 1)
    }
}

/// Copy the bytes of `s` between `a` (inclusive) and `b` (exclusive).
pub fn copy_range(s: &Vec<u8>, a: usize, b: usize) -> (r: Vec<u8>)
    requires
        a <= b <= s@.len(),
    ensures
        r@ == s@.subrange(a as int, b as int),
{
    let mut r: Vec<u8> = Vec::new();
    let mut k: usize = a;
    while k < b
        invariant
            a <= k <= b <= s@.len(),
            r@ == s@.subrange(a as int, k as int),
        decreases b - k,
    {
        r.push(s[k]);
        proof {
            assert(s@.subrange(a as int, k + 1 as int) =~= s@.subrange(a as int, k as int).push(
                s@[k as int],
            ));
        }
        k = k + 1;
    }
    proof {
        assert(r@ =~= s@.subrange(a as int, b as int));
    }
    r
}

/// All of the input is whitespace: the empty configuration argument.
pub open spec fn is_blank(s: Seq<u8>) -> bool {
    skip_ws(s, 0) == s.len()
}

pub fn is_blank_exec(s: &Vec<u8>) -> (r: bool)
    ensures
        r == is_blank(s@),
{
    skip_ws_exec(s, 0) == s.len()
}

} // verus!
