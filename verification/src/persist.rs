//! Recovery metadata: the `.dumpfile` that sits beside the segments.
//!
//! The file holds one JSON object with the compaction threshold, an index
//! snapshot, and the dead-record count:
//!
//! ```text
//! {"compaction_threshold":64,"frozen_idx_map":{},"uncompacted_size":0}
//! ```
//!
//! This engine recomputes the index and the dead-record count by replaying
//! every segment, so the index snapshot it writes is always empty and only
//! the threshold is read back; the other fields are kept for the format's
//! sake.

use vstd::prelude::*;

use crate::codec::{has_prefix_at, prefix_at};

verus! {

/// Byte value of `0`.
pub const ZERO_BYTE: u8 = 48;

/// A decimal digit.
pub open spec fn digit_byte(b: u8) -> bool {
    48 <= b <= 57
}

/// The decimal digits of a non-negative number, most significant first.
pub open spec fn digits_of(n: int) -> Seq<u8>
    decreases n,
{
    if n < 10 {
        seq![(48 + if n >= 0 { n } else { 0 }) as u8]
    } else {
        digits_of(n / 10).push((48 + n % 10) as u8)
    }
}

/// The number a digit string denotes.
pub open spec fn val_of(ds: Seq<u8>) -> int
    decreases ds.len(),
{
    if ds.len() == 0 {
        0
    } else {
        val_of(ds.drop_last()) * 10 + (ds.last() - 48)
    }
}

/// Powers of ten.
pub open spec fn pow10(k: nat) -> int
    decreases k,
{
    if k == 0 {
        1
    } else {
        10 * pow10((k - 1) as nat)
    }
}

/// Greedy digit scan: consumes digits from `i` on, folding them into `acc`,
/// and stops at the first non-digit.
pub open spec fn scan_digits(s: Seq<u8>, i: int, acc: int) -> (int, int)
    decreases s.len() - i,
{
    if i < 0 || i >= s.len() || !digit_byte(s[i]) {
        (acc, i)
    } else {
        scan_digits(s, i + 1, acc * 10 + (s[i] - 48))
    }
}

/// Strict parse of a decimal number at `i`: at least one digit.
pub open spec fn parse_number(s: Seq<u8>, i: int) -> Option<(int, int)> {
    if 0 <= i < s.len() && digit_byte(s[i]) {
        Some(scan_digits(s, i, 0))
    } else {
        None
    }
}

/// Every byte that `digits_of` produces is a digit.
pub proof fn lemma_digits_of_digits(n: int)
    ensures
        digits_of(n).len() >= 1,
        forall|m: int| 0 <= m < digits_of(n).len() ==> digit_byte(#[trigger] digits_of(n)[m]),
    decreases n,
{
    if n >= 10 {
        lemma_digits_of_digits(n / 10);
    }
}

/// `digits_of` denotes the number it was built from.
pub proof fn lemma_val_of_digits(n: int)
    requires
        n >= 0,
    ensures
        val_of(digits_of(n)) == n,
    decreases n,
{
    if n < 10 {
        assert(((48 + n) as u8) as int == 48 + n);
        assert(val_of(Seq::<u8>::empty()) == 0);
        assert(digits_of(n).drop_last() =~= Seq::<u8>::empty());
        assert(val_of(digits_of(n)) == 0 * 10 + (digits_of(n).last() - 48));
    } else {
        lemma_val_of_digits(n / 10);
        assert(0 <= n % 10 < 10 && n / 10 >= 1) by (nonlinear_arith)
            requires
                n >= 10,
        ;
        assert(((48 + n % 10) as u8) as int == 48 + n % 10);
        assert(digits_of(n).drop_last() =~= digits_of(n / 10));
        assert(digits_of(n).last() == (48 + n % 10) as u8);
        assert(val_of(digits_of(n)) == val_of(digits_of(n / 10)) * 10 + (n % 10));
        assert(n / 10 * 10 + n % 10 == n) by (nonlinear_arith)
            requires
                n >= 10,
        ;
    }
}

/// Peeling the leading digit off a digit string.
proof fn lemma_val_of_cons(ds: Seq<u8>)
    requires
        ds.len() >= 1,
    ensures
        val_of(ds) == (ds[0] - 48) * pow10((ds.len() - 1) as nat) + val_of(ds.skip(1)),
    decreases ds.len(),
{
    if ds.len() == 1 {
        assert(val_of(Seq::<u8>::empty()) == 0);
        assert(ds.skip(1) =~= Seq::<u8>::empty());
        assert(ds.drop_last() =~= Seq::<u8>::empty());
        assert(ds.last() == ds[0]);
        assert(val_of(ds) == 0 * 10 + (ds[0] - 48));
        assert(pow10((ds.len() - 1) as nat) == 1);
        assert((ds[0] - 48) * 1 == ds[0] - 48);
    } else {
        lemma_val_of_cons(ds.drop_last());
        assert(ds.drop_last().skip(1) =~= ds.skip(1).drop_last());
        assert(ds.drop_last()[0] == ds[0]);
        let k = (ds.len() - 2) as nat;
        assert(pow10((ds.len() - 1) as nat) == 10 * pow10(k));
        assert(val_of(ds) == val_of(ds.drop_last()) * 10 + (ds.last() - 48));
        assert(val_of(ds.drop_last()) == (ds[0] - 48) * pow10(k) + val_of(ds.skip(1).drop_last()));
        assert(val_of(ds.skip(1)) == val_of(ds.skip(1).drop_last()) * 10 + (ds.skip(1).last()
            - 48));
        assert(ds.skip(1).last() == ds.last());
        assert(((ds[0] - 48) * pow10(k) + val_of(ds.skip(1).drop_last())) * 10 == (ds[0] - 48) * (
        10 * pow10(k)) + val_of(ds.skip(1).drop_last()) * 10) by (nonlinear_arith);
        assert(val_of(ds) == ((ds[0] - 48) * pow10(k) + val_of(ds.skip(1).drop_last())) * 10 + (
        ds.last() - 48));
        assert(val_of(ds) == (ds[0] - 48) * (10 * pow10(k)) + (val_of(ds.skip(1).drop_last()) * 10
            + (ds.last() - 48)));
    }
}

/// Scanning a digit region that ends at a non-digit yields its value,
/// shifted under the accumulator.
proof fn lemma_scan_digit_region(s: Seq<u8>, i: int, j: int, acc: int)
    requires
        0 <= i <= j <= s.len(),
        forall|m: int| i <= m < j ==> digit_byte(#[trigger] s[m]),
        j == s.len() || !digit_byte(s[j]),
    ensures
        scan_digits(s, i, acc) == (acc * pow10((j - i) as nat) + val_of(s.subrange(i, j)), j),
    decreases j - i,
{
    if i == j {
        assert(s.subrange(i, j) =~= Seq::<u8>::empty());
    } else {
        let d = s[i] - 48;
        lemma_scan_digit_region(s, i + 1, j, acc * 10 + d);
        let ds = s.subrange(i, j);
        lemma_val_of_cons(ds);
        assert(ds.skip(1) =~= s.subrange(i + 1, j));
        assert((acc * 10 + d) * pow10((j - i - 1) as nat) == acc * (10 * pow10((j - i - 1) as nat))
            + d * pow10((j - i - 1) as nat)) by (nonlinear_arith);
        assert(pow10((j - i) as nat) == 10 * pow10((j - i - 1) as nat));
    }
}

/// The scanned value only grows as digits are consumed.
proof fn lemma_scan_digits_lower(s: Seq<u8>, i: int, acc: int)
    requires
        acc >= 0,
    ensures
        scan_digits(s, i, acc).0 >= acc,
    decreases s.len() - i,
{
    if 0 <= i < s.len() && digit_byte(s[i]) {
        lemma_scan_digits_lower(s, i + 1, acc * 10 + (s[i] - 48));
        assert(acc * 10 + (s[i] - 48) >= acc) by (nonlinear_arith)
            requires
                acc >= 0 && s[i] >= 48,
        ;
    }
}

/// Parsing the digits of `n`, followed by a non-digit, gives back `n`.
pub proof fn lemma_parse_number_digits(s: Seq<u8>, i: int, n: int)
    requires
        n >= 0,
        0 <= i,
        i + digits_of(n).len() <= s.len(),
        s.subrange(i, i + digits_of(n).len()) == digits_of(n),
        i + digits_of(n).len() == s.len() || !digit_byte(s[i + digits_of(n).len()]),
    ensures
        parse_number(s, i) == Some((n, i + digits_of(n).len())),
{
    let len = digits_of(n).len() as int;
    lemma_digits_of_digits(n);
    lemma_val_of_digits(n);
    assert forall|m: int| i <= m < i + len implies digit_byte(#[trigger] s[m]) by {
        assert(s[m] == s.subrange(i, i + len)[m - i]);
    }
    assert(digit_byte(s[i])) by {
        assert(s[i] == s.subrange(i, i + len)[0]);
    }
    lemma_scan_digit_region(s, i, i + len, 0);
}


/// Bytes of `{"compaction_threshold":`.
pub open spec fn meta_open() -> Seq<u8> {
    seq![
        '{' as u8, '"' as u8, 'c' as u8, 'o' as u8, 'm' as u8, 'p' as u8, 'a' as u8, 'c' as u8,
        't' as u8, 'i' as u8, 'o' as u8, 'n' as u8, '_' as u8, 't' as u8, 'h' as u8, 'r' as u8,
        'e' as u8, 's' as u8, 'h' as u8, 'o' as u8, 'l' as u8, 'd' as u8, '"' as u8, ':' as u8,
    ]
}

/// Bytes of `,"frozen_idx_map":`.
pub open spec fn frozen_open() -> Seq<u8> {
    seq![
        ',' as u8, '"' as u8, 'f' as u8, 'r' as u8, 'o' as u8, 'z' as u8, 'e' as u8, 'n' as u8,
        '_' as u8, 'i' as u8, 'd' as u8, 'x' as u8, '_' as u8, 'm' as u8, 'a' as u8, 'p' as u8,
        '"' as u8, ':' as u8,
    ]
}

/// Bytes of `,"uncompacted_size":`.
pub open spec fn unc_open() -> Seq<u8> {
    seq![
        ',' as u8, '"' as u8, 'u' as u8, 'n' as u8, 'c' as u8, 'o' as u8, 'm' as u8, 'p' as u8,
        'a' as u8, 'c' as u8, 't' as u8, 'e' as u8, 'd' as u8, '_' as u8, 's' as u8, 'i' as u8,
        'z' as u8, 'e' as u8, '"' as u8, ':' as u8,
    ]
}

/// Scans past the rest of a brace-delimited object whose opening brace
/// was already consumed: `depth` open braces remain, tracking whether the
/// scan sits inside a string and right after a backslash.  Returns the
/// index just past the matching close brace.
pub open spec fn skip_object(s: Seq<u8>, i: int, depth: int, in_str: bool, esc: bool) -> Option<
    int,
>
    decreases s.len() - i,
{
    if i < 0 || i >= s.len() {
        None
    } else {
        let b = s[i];
        if in_str {
            if esc {
                skip_object(s, i + 1, depth, true, false)
            } else if b == crate::codec::BACKSLASH_BYTE {
                skip_object(s, i + 1, depth, true, true)
            } else if b == crate::codec::QUOTE_BYTE {
                skip_object(s, i + 1, depth, false, false)
            } else {
                skip_object(s, i + 1, depth, true, false)
            }
        } else if b == crate::codec::QUOTE_BYTE {
            skip_object(s, i + 1, depth, true, false)
        } else if b == '{' as u8 {
            skip_object(s, i + 1, depth + 1, false, false)
        } else if b == '}' as u8 {
            if depth == 1 {
                Some(i + 1)
            } else {
                skip_object(s, i + 1, depth - 1, false, false)
            }
        } else {
            skip_object(s, i + 1, depth, false, false)
        }
    }
}

/// Scans past one brace-delimited object starting at `i`.  The engine
/// only ever writes an empty index snapshot, but a populated one is
/// tolerated: recovery recomputes the index by replay, so the snapshot's
/// content is never needed.
pub open spec fn skip_json_object(s: Seq<u8>, i: int) -> Option<int> {
    if 0 <= i < s.len() && s[i] == '{' as u8 {
        skip_object(s, i + 1, 1, false, false)
    } else {
        None
    }
}

/// The canonical metadata object for a threshold and a dead-record
/// count: the index snapshot it carries is empty.
pub open spec fn encoded_metadata(threshold: int, uncompacted: int) -> Seq<u8> {
    meta_open() + digits_of(threshold) + frozen_open() + seq!['{' as u8, '}' as u8] + unc_open()
        + digits_of(uncompacted) + seq!['}' as u8]
}

/// Parse of the metadata object.  Numbers must fit in a `u64`; the index
/// snapshot may hold anything brace-balanced and is skipped.
pub open spec fn parse_metadata(s: Seq<u8>) -> Option<(int, int)> {
    if has_prefix_at(s, 0, meta_open()) {
        match parse_number(s, meta_open().len() as int) {
            None => None,
            Some((t, j)) => if t <= u64::MAX && has_prefix_at(s, j, frozen_open()) {
                match skip_json_object(s, j + frozen_open().len()) {
                    None => None,
                    Some(j1) => if has_prefix_at(s, j1, unc_open()) {
                        match parse_number(s, j1 + unc_open().len()) {
                            None => None,
                            Some((u, j2)) => if u <= u64::MAX && j2 + 1 == s.len() && s[j2]
                                == '}' as u8 {
                                Some((t, u))
                            } else {
                                None
                            },
                        }
                    } else {
                        None
                    },
                }
            } else {
                None
            },
        }
    } else {
        None
    }
}

/// Reading the metadata back gives the numbers it was written from.
pub proof fn lemma_parse_encoded_metadata(threshold: int, uncompacted: int)
    requires
        0 <= threshold <= u64::MAX,
        0 <= uncompacted <= u64::MAX,
    ensures
        parse_metadata(encoded_metadata(threshold, uncompacted)) == Some((threshold, uncompacted)),
{
    let s = encoded_metadata(threshold, uncompacted);
    let a = meta_open().len() as int;
    let dt = digits_of(threshold).len() as int;
    let b = a + dt;
    let f = frozen_open().len() as int;
    let j1 = b + f + 2;
    let m = unc_open().len() as int;
    let d2 = digits_of(uncompacted).len() as int;
    let j2 = j1 + m + d2;
    lemma_digits_of_digits(threshold);
    lemma_digits_of_digits(uncompacted);
    assert(s.len() == j2 + 1);
    assert(s.subrange(0, a) =~= meta_open());
    assert(s.subrange(a, b) =~= digits_of(threshold));
    assert(!digit_byte(s[b]));
    lemma_parse_number_digits(s, a, threshold);
    assert(s.subrange(b, b + f) =~= frozen_open());
    assert(s[b + f] == '{' as u8 && s[b + f + 1] == '}' as u8);
    assert(skip_object(s, b + f + 1, 1, false, false) == Some(j1));
    assert(skip_json_object(s, b + f) == Some(j1));
    assert(s.subrange(j1, j1 + m) =~= unc_open());
    assert(s.subrange(j1 + m, j2) =~= digits_of(uncompacted));
    assert(s[j2] == '}' as u8);
    assert(!digit_byte(s[j2]));
    lemma_parse_number_digits(s, j1 + m, uncompacted);
}

/// The persisted recovery metadata: what the `.dumpfile` holds.
#[derive(Debug, Clone, Copy, PartialEq, Eq, Structural)]
pub struct PersistentStruct {
    /// How many dead records the engine tolerates before compacting.
    pub compaction_threshold: u64,
    /// Dead-record count at the time the file was written.
    pub uncompacted_size: u64,
}

/// Appends the decimal digits of `n`.
fn push_u64(out: &mut Vec<u8>, n: u64)
    ensures
        final(out)@ == old(out)@ + digits_of(n as int),
    decreases n,
{
    if n < 10 {
        out.push(48 + (n as u8));
        assert(out@ =~= old(out)@ + digits_of(n as int));
    } else {
        push_u64(out, n / 10);
        out.push(48 + ((n % 10) as u8));
        assert(out@ =~= old(out)@ + digits_of(n as int));
    }
}

/// Appends the bytes of `{"compaction_threshold":`.
fn push_meta_open(out: &mut Vec<u8>)
    ensures
        final(out)@ == old(out)@ + meta_open(),
{
    out.push('{' as u8);
    out.push('"' as u8);
    out.push('c' as u8);
    out.push('o' as u8);
    out.push('m' as u8);
    out.push('p' as u8);
    out.push('a' as u8);
    out.push('c' as u8);
    out.push('t' as u8);
    out.push('i' as u8);
    out.push('o' as u8);
    out.push('n' as u8);
    out.push('_' as u8);
    out.push('t' as u8);
    out.push('h' as u8);
    out.push('r' as u8);
    out.push('e' as u8);
    out.push('s' as u8);
    out.push('h' as u8);
    out.push('o' as u8);
    out.push('l' as u8);
    out.push('d' as u8);
    out.push('"' as u8);
    out.push(':' as u8);
    assert(out@ =~= old(out)@ + meta_open());
}

/// Appends the bytes of `,"frozen_idx_map":`.
fn push_frozen_open(out: &mut Vec<u8>)
    ensures
        final(out)@ == old(out)@ + frozen_open(),
{
    out.push(',' as u8);
    out.push('"' as u8);
    out.push('f' as u8);
    out.push('r' as u8);
    out.push('o' as u8);
    out.push('z' as u8);
    out.push('e' as u8);
    out.push('n' as u8);
    out.push('_' as u8);
    out.push('i' as u8);
    out.push('d' as u8);
    out.push('x' as u8);
    out.push('_' as u8);
    out.push('m' as u8);
    out.push('a' as u8);
    out.push('p' as u8);
    out.push('"' as u8);
    out.push(':' as u8);
    assert(out@ =~= old(out)@ + frozen_open());
}

/// Appends the bytes of `,"uncompacted_size":`.
fn push_unc_open(out: &mut Vec<u8>)
    ensures
        final(out)@ == old(out)@ + unc_open(),
{
    out.push(',' as u8);
    out.push('"' as u8);
    out.push('u' as u8);
    out.push('n' as u8);
    out.push('c' as u8);
    out.push('o' as u8);
    out.push('m' as u8);
    out.push('p' as u8);
    out.push('a' as u8);
    out.push('c' as u8);
    out.push('t' as u8);
    out.push('e' as u8);
    out.push('d' as u8);
    out.push('_' as u8);
    out.push('s' as u8);
    out.push('i' as u8);
    out.push('z' as u8);
    out.push('e' as u8);
    out.push('"' as u8);
    out.push(':' as u8);
    assert(out@ =~= old(out)@ + unc_open());
}

/// Scans past one brace-delimited object starting at `start`, mirroring
/// [`skip_json_object`].
fn skip_object_at(s: &Vec<u8>, start: usize) -> (r: Option<usize>)
    ensures
        match r {
            Some(j) => skip_json_object(s@, start as int) == Some(j as int) && start < j
                <= s@.len(),
            None => skip_json_object(s@, start as int) is None,
        },
{
    if start >= s.len() || s[start] != '{' as u8 {
        return None;
    }
    let mut i: usize = start + 1;
    let mut depth: usize = 1;
    let mut in_str = false;
    let mut esc = false;
    loop
        invariant
            start < s@.len(),
            s@[start as int] == '{' as u8,
            start + 1 <= i,
            i <= s@.len() || i == start + 1,
            1 <= depth <= i,
            skip_object(s@, start + 1, 1, false, false) == skip_object(
                s@,
                i as int,
                depth as int,
                in_str,
                esc,
            ),
        decreases s@.len() - i,
    {
        if i >= s.len() {
            return None;
        }
        let b = s[i];
        let step: (usize, bool, bool) = if in_str {
            if esc {
                (depth, true, false)
            } else if b == crate::codec::BACKSLASH_BYTE {
                (depth, true, true)
            } else if b == crate::codec::QUOTE_BYTE {
                (depth, false, false)
            } else {
                (depth, true, false)
            }
        } else if b == crate::codec::QUOTE_BYTE {
            (depth, true, false)
        } else if b == '{' as u8 {
            (depth + 1, false, false)
        } else if b == '}' as u8 {
            if depth == 1 {
                proof {
                    assert(skip_object(s@, i as int, depth as int, in_str, esc) == Some(i + 1));
                }
                return Some(i + 1);
            }
            (depth - 1, false, false)
        } else {
            (depth, false, false)
        };
        proof {
            assert(skip_object(s@, i as int, depth as int, in_str, esc) == skip_object(
                s@,
                i + 1,
                step.0 as int,
                step.1,
                step.2,
            ));
        }
        depth = step.0;
        in_str = step.1;
        esc = step.2;
        i = i + 1;
    }
}

impl PersistentStruct {
    /// Serializes the metadata as its canonical JSON object.
    pub fn encode(&self) -> (out: Vec<u8>)
        ensures
            out@ == encoded_metadata(
                self.compaction_threshold as int,
                self.uncompacted_size as int,
            ),
    {
        let mut out: Vec<u8> = Vec::new();
        push_meta_open(&mut out);
        push_u64(&mut out, self.compaction_threshold);
        push_frozen_open(&mut out);
        out.push('{' as u8);
        out.push('}' as u8);
        push_unc_open(&mut out);
        push_u64(&mut out, self.uncompacted_size);
        out.push('}' as u8);
        assert(out@ =~= encoded_metadata(
            self.compaction_threshold as int,
            self.uncompacted_size as int,
        ));
        out
    }

    /// Parses the metadata object, rejecting anything but the canonical
    /// form.
    pub fn decode(bytes: &Vec<u8>) -> (r: Option<PersistentStruct>)
        ensures
            match r {
                Some(p) => parse_metadata(bytes@) == Some(
                    (p.compaction_threshold as int, p.uncompacted_size as int),
                ),
                None => parse_metadata(bytes@) is None,
            },
    {
        let mut open_lit: Vec<u8> = Vec::new();
        push_meta_open(&mut open_lit);
        let mut frozen_lit: Vec<u8> = Vec::new();
        push_frozen_open(&mut frozen_lit);
        let mut unc_lit: Vec<u8> = Vec::new();
        push_unc_open(&mut unc_lit);
        if !prefix_at(bytes, 0, &open_lit) {
            return None;
        }
        let t = match take_number(bytes, open_lit.len()) {
            None => {
                return None;
            },
            Some(x) => x,
        };
        if !prefix_at(bytes, t.1, &frozen_lit) {
            return None;
        }
        let total = bytes.len();
        assert(t.1 + frozen_lit@.len() <= total);
        let j1 = match skip_object_at(bytes, t.1 + frozen_lit.len()) {
            None => {
                return None;
            },
            Some(j1) => j1,
        };
        if !prefix_at(bytes, j1, &unc_lit) {
            return None;
        }
        assert(j1 + unc_lit@.len() <= total);
        let u = match take_number(bytes, j1 + unc_lit.len()) {
            None => {
                return None;
            },
            Some(x) => x,
        };
        if u.1 >= bytes.len() || u.1 + 1 != bytes.len() || bytes[u.1] != '}' as u8 {
            return None;
        }
        Some(PersistentStruct { compaction_threshold: t.0, uncompacted_size: u.0 })
    }
}

/// Parses a decimal number at `start`, rejecting values over `u64::MAX`.
fn take_number(s: &Vec<u8>, start: usize) -> (r: Option<(u64, usize)>)
    ensures
        match r {
            Some((v, j)) => parse_number(s@, start as int) == Some((v as int, j as int)) && start
                < j <= s@.len(),
            None => parse_number(s@, start as int) is None || parse_number(
                s@,
                start as int,
            )->Some_0.0 > u64::MAX,
        },
{
    if start >= s.len() {
        return None;
    }
    let b0 = s[start];
    if !(48 <= b0 && b0 <= 57) {
        return None;
    }
    let d0: u64 = (b0 - 48) as u64;
    let mut val: u64 = d0;
    let mut i: usize = start + 1;
    assert(scan_digits(s@, start as int, 0) == scan_digits(s@, i as int, val as int));
    loop
        invariant
            start < i <= s@.len(),
            scan_digits(s@, start as int, 0) == scan_digits(s@, i as int, val as int),
            digit_byte(s@[start as int]),
        ensures
            start < i <= s@.len(),
            scan_digits(s@, start as int, 0) == scan_digits(s@, i as int, val as int),
            i == s@.len() || !digit_byte(s@[i as int]),
        decreases s@.len() - i,
    {
        if i >= s.len() {
            break ;
        }
        let b = s[i];
        if !(48 <= b && b <= 57) {
            break ;
        }
        let d: u64 = (b - 48) as u64;
        if val > (u64::MAX - d) / 10 {
            proof {
                lemma_scan_digits_lower(s@, i + 1, val as int * 10 + d as int);
                assert(val as int * 10 + d as int > u64::MAX) by (nonlinear_arith)
                    requires
                        val as int > (u64::MAX - d as int) / 10,
                        0 <= d as int <= 9,
                        val as int >= 0,
                ;
            }
            return None;
        }
        assert(val as int * 10 + d as int <= u64::MAX) by (nonlinear_arith)
            requires
                val as int <= (u64::MAX - d as int) / 10,
                0 <= d as int <= 9,
                val as int >= 0,
        ;
        val = val * 10 + d;
        i = i + 1;
    }
    Some((val, i))
}

} // verus!
