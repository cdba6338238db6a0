//! How chunk files are named.
//!
//! The canonical chunk of a backlog lies at the backlog's own path, which ends
//! in `.bkl`. A chunk that was rotated `N` times carries `N` as a further
//! extension: `.bkl.1`, `.bkl.2` and so on. Paths are byte strings; `/` parts
//! their components and `.` starts an extension.

use vstd::prelude::*;

verus! {

pub const DOT: u8 = 0x2e;

pub const SLASH: u8 = 0x2f;

pub const ZERO: u8 = 0x30;

/// Whether `b` is an ASCII decimal digit.
pub open spec fn is_digit(b: u8) -> bool {
    0x30 <= b <= 0x39
}

/// Index of the last `.` in the final component of `path`, if it has one.
pub open spec fn last_dot(path: Seq<u8>) -> Option<int>
    decreases path.len(),
{
    if path.len() == 0 {
        None
    } else if path.last() == DOT {
        Some(path.len() - 1)
    } else if path.last() == SLASH {
        None
    } else {
        last_dot(path.drop_last())
    }
}

/// What follows the last `.` of the final component; empty where there is none.
pub open spec fn extension(path: Seq<u8>) -> Seq<u8> {
    match last_dot(path) {
        Some(at) => path.subrange(at + 1, path.len() as int),
        None => Seq::empty(),
    }
}

/// `s` without the bytes that stand before its first digit.
pub open spec fn from_first_digit(s: Seq<u8>) -> Seq<u8>
    decreases s.len(),
{
    if s.len() == 0 || is_digit(s[0]) {
        s
    } else {
        from_first_digit(s.drop_first())
    }
}

/// The number that `s` writes in decimal, if all of its bytes are digits.
pub open spec fn decimal_value(s: Seq<u8>) -> Option<nat>
    decreases s.len(),
{
    if s.len() == 0 {
        Some(0)
    } else {
        match decimal_value(s.drop_last()) {
            Some(v) if is_digit(s.last()) => Some(v * 10 + (s.last() - ZERO) as nat),
            _ => None,
        }
    }
}

/// `n` written in decimal, without leading zeros.
pub open spec fn decimal(n: nat) -> Seq<u8>
    decreases n,
{
    if n < 10 {
        seq![(ZERO + n) as u8]
    } else {
        decimal(n / 10).push((ZERO + n % 10) as u8)
    }
}

/// The digits that the extension of `path` carries: the extension from its
/// first digit on.
pub open spec fn suffix_digits(path: Seq<u8>) -> Seq<u8> {
    from_first_digit(extension(path))
}

/// The position that `path` names: 0 where its extension carries no digits,
/// else the number they write. `None` where they write no `u32`.
pub open spec fn suffix_of(path: Seq<u8>) -> Option<u32> {
    let digits = suffix_digits(path);
    if digits.len() == 0 {
        Some(0)
    } else {
        match decimal_value(digits) {
            Some(v) if v <= u32::MAX => Some(v as u32),
            _ => None,
        }
    }
}

/// The path of a chunk once it has moved to `position`: a path without a
/// numeric suffix gains one, a path with one has it replaced.
pub open spec fn with_suffix(path: Seq<u8>, position: nat) -> Seq<u8> {
    if suffix_digits(path).len() == 0 {
        path.push(DOT) + decimal(position)
    } else {
        path.subrange(0, last_dot(path).unwrap() + 1) + decimal(position)
    }
}

/// The last dot, where there is one, is a dot inside the path.
pub proof fn lemma_last_dot(path: Seq<u8>)
    ensures
        last_dot(path) matches Some(at) ==> 0 <= at < path.len() && path[at] == DOT,
    decreases path.len(),
{
    if path.len() > 0 && path.last() != DOT && path.last() != SLASH {
        lemma_last_dot(path.drop_last());
    }
}

/// Digits written behind a path do not move its last dot.
proof fn lemma_last_dot_append(path: Seq<u8>, digits: Seq<u8>)
    requires
        forall|i: int| 0 <= i < digits.len() ==> is_digit(#[trigger] digits[i]),
    ensures
        last_dot(path + digits) == last_dot(path),
    decreases digits.len(),
{
    if digits.len() == 0 {
        assert(path + digits =~= path);
    } else {
        let whole = path + digits;
        assert(whole.last() == digits.last());
        assert(whole.drop_last() =~= path + digits.drop_last());
        lemma_last_dot_append(path, digits.drop_last());
    }
}

/// The decimal form of a number consists of digits, at least one, and writes
/// that number.
pub proof fn lemma_decimal(n: nat)
    ensures
        decimal(n).len() >= 1,
        forall|i: int| 0 <= i < decimal(n).len() ==> is_digit(#[trigger] decimal(n)[i]),
        decimal_value(decimal(n)) == Some(n),
    decreases n,
{
    if n < 10 {
        let s = decimal(n);
        assert(s.drop_last() =~= Seq::<u8>::empty());
        assert(decimal_value(s.drop_last()) == Some(0nat));
    } else {
        lemma_decimal(n / 10);
        let s = decimal(n);
        assert(s.drop_last() =~= decimal(n / 10));
    }
}

/// A string that starts with a digit is kept whole.
proof fn lemma_from_first_digit(s: Seq<u8>)
    requires
        s.len() > 0,
        is_digit(s[0]),
    ensures
        from_first_digit(s) == s,
{
}

/// A path that moved to a position names that position.
pub proof fn lemma_with_suffix(path: Seq<u8>, position: nat)
    requires
        position <= u32::MAX,
    ensures
        suffix_of(with_suffix(path, position)) == Some(position as u32),
        suffix_digits(with_suffix(path, position)) == decimal(position),
{
    lemma_decimal(position);
    lemma_last_dot(path);
    let digits = decimal(position);
    let stem = if suffix_digits(path).len() == 0 {
        path.push(DOT)
    } else {
        path.subrange(0, last_dot(path).unwrap() + 1)
    };
    if suffix_digits(path).len() != 0 {
        assert(last_dot(path) is Some) by {
            if last_dot(path) is None {
                assert(extension(path).len() == 0);
            }
        }
    }
    assert(stem.len() > 0 && stem.last() == DOT);
    assert(last_dot(stem) == Some(stem.len() - 1));
    lemma_last_dot_append(stem, digits);
    let moved = stem + digits;
    assert(moved == with_suffix(path, position));
    assert(extension(moved) =~= digits);
    lemma_from_first_digit(digits);
}

/// Index of the last `.` in the final component of `path`.
pub fn find_last_dot(path: &[u8]) -> (at: Option<usize>)
    ensures
        at matches Some(i) ==> last_dot(path@) == Some(i as int) && i < path@.len(),
        at is None ==> last_dot(path@) is None,
{
    let mut i: usize = path.len();
    assert(path@.subrange(0, i as int) =~= path@);
    while i > 0
        invariant
            i <= path@.len(),
            last_dot(path@) == last_dot(path@.subrange(0, i as int)),
        decreases i,
    {
        let b = path[i - 1];
        let ghost head = path@.subrange(0, i as int);
        assert(head.last() == b);
        assert(head.drop_last() =~= path@.subrange(0, i - 1));
        if b == DOT {
            return Some(i - 1);
        }
        if b == SLASH {
            return None;
        }
        i -= 1;
    }
    assert(path@.subrange(0, 0) =~= Seq::<u8>::empty());
    None
}

/// Index at which the digits of the extension of `path` start; the length of
/// `path` where it carries none.
pub fn digits_start(path: &[u8]) -> (first: usize)
    ensures
        first <= path@.len(),
        suffix_digits(path@) == path@.subrange(first as int, path@.len() as int),
        first < path@.len() ==> last_dot(path@) is Some && last_dot(path@).unwrap() < first,
{
    let len = path.len();
    let start = match find_last_dot(path) {
        Some(at) => at + 1,
        None => len,
    };
    assert(extension(path@) =~= path@.subrange(start as int, len as int));
    let mut first = start;
    while first < len && !(ZERO <= path[first] && path[first] <= ZERO + 9)
        invariant
            start <= first <= len,
            len == path@.len(),
            suffix_digits(path@) == from_first_digit(path@.subrange(first as int, len as int)),
        decreases len - first,
    {
        assert(path@.subrange(first as int, len as int).drop_first() =~= path@.subrange(
            first + 1,
            len as int,
        ));
        first += 1;
    }
    first
}

/// `n` in decimal.
pub fn to_decimal(n: u32) -> (digits: Vec<u8>)
    ensures
        digits@ == decimal(n as nat),
    decreases n,
{
    if n < 10 {
        let mut digits: Vec<u8> = Vec::new();
        digits.push(ZERO + n as u8);
        assert(digits@ =~= decimal(n as nat));
        digits
    } else {
        let mut digits = to_decimal(n / 10);
        digits.push(ZERO + (n % 10) as u8);
        digits
    }
}

} // verus!
