use vstd::prelude::*;

use crate::codec::whole_dec;
use crate::codec::MessagePackSerializer;
use crate::errors::KvStoreError;
use crate::types::{Direction, KeyValuePair};
use crate::value::{doc_view, DocValue};
use vstd::string::*;

verus! {

// The range extractor.  `from` and `to` are decimal strings naming
// zero-based ordinal positions in the collection's key sequence; the
// window `[from, to]` is inclusive at both ends, clamped to the
// collection, traversed forward or in reverse, and cut off after `limit`
// records.  A string that does not parse as a position falls back to the
// start (for `from`) or the end (for `to`) of the collection.

/// A decimal digit.
pub open spec fn is_digit(c: char) -> bool {
    48 <= c as u32 <= 57
}

/// The number named by a digit string, most significant digit first.
pub open spec fn digits_val(s: Seq<char>) -> int
    decreases s.len(),
{
    if s.len() == 0 {
        0
    } else {
        digits_val(s.drop_last()) * 10 + (s.last() as u32 - 48)
    }
}

/// Whether every character is a digit.
pub open spec fn all_digits(s: Seq<char>) -> bool {
    forall|i: int| 0 <= i < s.len() ==> is_digit(#[trigger] s[i])
}

/// The position a string names, as the standard unsigned parse reads
/// it: an optional leading plus sign, then at least one digit, with a
/// value that fits the machine's word.
pub open spec fn parsed_index(s: Seq<char>) -> Option<int> {
    let digits = if s.len() > 0 && s[0] == '+' {
        s.drop_first()
    } else {
        s
    };
    if digits.len() > 0 && all_digits(digits) && digits_val(digits) <= usize::MAX {
        Some(digits_val(digits))
    } else {
        None
    }
}

/// A digit string names a non-negative number.
pub proof fn lemma_digits_val_nonneg(s: Seq<char>)
    requires
        all_digits(s),
    ensures
        digits_val(s) >= 0,
    decreases s.len(),
{
    if s.len() > 0 {
        assert(forall|i: int|
            0 <= i < s.drop_last().len() ==> #[trigger] s.drop_last()[i] == s[i]);
        lemma_digits_val_nonneg(s.drop_last());
    }
}

/// A digit string names at least what any of its prefixes names.
pub proof fn lemma_digits_prefix_bound(s: Seq<char>, k: int)
    requires
        all_digits(s),
        0 <= k <= s.len(),
    ensures
        digits_val(s) >= digits_val(s.take(k)),
    decreases s.len() - k,
{
    if k == s.len() {
        assert(s.take(k) =~= s);
    } else {
        lemma_digits_prefix_bound(s, k + 1);
        assert(s.take(k + 1).drop_last() =~= s.take(k));
        assert(s.take(k + 1).last() == s[k]);
        assert(forall|i: int| 0 <= i < k ==> #[trigger] s.take(k)[i] == s[i]);
        assert(all_digits(s.take(k)));
        lemma_digits_val_nonneg(s.take(k));
        assert(digits_val(s.take(k + 1)) == digits_val(s.take(k)) * 10 + (s[k] as u32 - 48));
        assert(digits_val(s.take(k + 1)) >= digits_val(s.take(k)));
    }
}

/// Parses a zero-based position, exactly as the standard parse does:
/// some value for an optionally plus-signed, non-empty digit string
/// whose value fits the machine's word, nothing otherwise.
#[verifier::loop_isolation(false)]
pub fn parse_index(s: &str) -> (r: Option<usize>)
    ensures
        r is Some <==> parsed_index(s@) is Some,
        r matches Some(v) ==> parsed_index(s@) == Some(v as int),
{
    let n = s.unicode_len();
    let start: usize = if n > 0 && s.get_char(0) == '+' {
        1
    } else {
        0
    };
    let ghost digits = if s@.len() > 0 && s@[0] == '+' {
        s@.drop_first()
    } else {
        s@
    };
    proof {
        assert(digits =~= s@.skip(start as int));
    }
    if n == start {
        return None;
    }
    let mut acc: usize = 0;
    let mut i: usize = start;
    while i < n
        invariant
            start <= i <= n,
            forall|j: int| start <= j < i ==> is_digit(#[trigger] s@[j]),
            acc as int == digits_val(s@.subrange(start as int, i as int)),
        decreases n - i,
    {
        let c = s.get_char(i);
        let cv = c as u32;
        if cv < 48 || cv > 57 {
            assert(!is_digit(s@[i as int]));
            assert(digits[i - start] == s@[i as int]);
            return None;
        }
        let d = (cv - 48) as usize;
        let next = match acc.checked_mul(10) {
            Some(t) => t.checked_add(d),
            None => None,
        };
        proof {
            assert(s@.subrange(start as int, i as int + 1).drop_last() =~= s@.subrange(
                start as int,
                i as int,
            ));
            assert(s@.subrange(start as int, i as int + 1).last() == s@[i as int]);
            assert(digits_val(s@.subrange(start as int, i as int + 1)) == digits_val(
                s@.subrange(start as int, i as int),
            ) * 10 + (s@[i as int] as u32 - 48));
        }
        match next {
            Some(a2) => {
                acc = a2;
            },
            None => {
                proof {
                    if all_digits(digits) {
                        lemma_digits_prefix_bound(digits, i as int + 1 - start);
                        assert(digits.take(i as int + 1 - start) =~= s@.subrange(
                            start as int,
                            i as int + 1,
                        ));
                    }
                }
                return None;
            },
        }
        i = i + 1;
    }
    proof {
        assert(s@.subrange(start as int, n as int) =~= digits);
    }
    Some(acc)
}

/// The first position of the window: the parsed `from`, clamped to the
/// collection's size; the start when `from` does not parse.
pub open spec fn start_bound(from: Seq<char>, n: int) -> int {
    match parsed_index(from) {
        Some(v) => if v <= n {
            v
        } else {
            n
        },
        None => 0,
    }
}

/// The position just past the window: one past the parsed `to` (the
/// window is inclusive), clamped to the collection's size; the end when
/// `to` does not parse.
pub open spec fn end_bound(to: Seq<char>, n: int) -> int {
    match parsed_index(to) {
        Some(v) => if v >= n {
            n
        } else {
            v + 1
        },
        None => n,
    }
}

/// Collection entries as pairs of key characters and stored bytes.
pub open spec fn entry_views(entries: Seq<(String, Vec<u8>)>) -> Seq<(Seq<char>, Seq<u8>)> {
    Seq::new(entries.len(), |i: int| (entries[i].0@, entries[i].1@))
}

/// The window of entries the request addresses, in iteration order.
pub open spec fn window(
    entries: Seq<(Seq<char>, Seq<u8>)>,
    from: Seq<char>,
    to: Seq<char>,
) -> Seq<(Seq<char>, Seq<u8>)> {
    let lo = start_bound(from, entries.len() as int);
    let hi = end_bound(to, entries.len() as int);
    if lo <= hi {
        entries.subrange(lo, hi)
    } else {
        Seq::empty()
    }
}

/// The entries a range request returns, in order: the window, reversed
/// when the direction asks for it, cut off after `limit`.
pub open spec fn selected(
    entries: Seq<(Seq<char>, Seq<u8>)>,
    from: Seq<char>,
    to: Seq<char>,
    limit: int,
    direction: Direction,
) -> Seq<(Seq<char>, Seq<u8>)> {
    let w = window(entries, from, to);
    let ordered = match direction {
        Direction::Forward => w,
        Direction::Reverse => w.reverse(),
    };
    if limit < ordered.len() {
        ordered.take(limit)
    } else {
        ordered
    }
}

/// Extracts and decodes the requested slice of a collection's entries.
/// Returns the decoded records of the selected window in the requested
/// order, never more than `limit` of them; fails with a decode error,
/// and returns nothing partial, exactly when a selected record's bytes
/// are not a canonical encoding.
#[verifier::loop_isolation(false)]
pub fn get_range_slice(
    entries: &Vec<(String, Vec<u8>)>,
    from: &str,
    to: &str,
    limit: usize,
    direction: Direction,
) -> (r: Result<Vec<DocValue>, KvStoreError>)
    ensures
        ({
            let sel = selected(entry_views(entries@), from@, to@, limit as int, direction);
            &&& (r matches Ok(vs) ==> vs@.len() == sel.len() && (forall|i: int|
                0 <= i < sel.len() ==> whole_dec((#[trigger] sel[i]).1) == Some(vs@[i]@)))
            &&& (r is Err ==> r matches Err(KvStoreError::DeserializationError(_)))
            &&& (r is Err <==> (exists|i: int|
                0 <= i < sel.len() && whole_dec((#[trigger] sel[i]).1) is None))
            &&& (r matches Ok(vs) ==> vs@.len() <= limit)
        }),
{
    let views = Ghost(entry_views(entries@));
    let n = entries.len();
    let lo = match parse_index(from) {
        Some(v) => if v <= n {
            v
        } else {
            n
        },
        None => 0,
    };
    let hi = match parse_index(to) {
        Some(v) => if v >= n {
            n
        } else {
            v + 1
        },
        None => n,
    };
    let ghost w = window(views@, from@, to@);
    let ghost sel = selected(views@, from@, to@, limit as int, direction);
    let codec = MessagePackSerializer;
    let mut out: Vec<DocValue> = Vec::new();
    if lo >= hi {
        assert(sel.len() == 0);
        return Ok(out);
    }
    assert(w == views@.subrange(lo as int, hi as int));
    match direction {
        Direction::Forward => {
            let mut i: usize = lo;
            while i < hi && out.len() < limit
                invariant
                    lo <= i <= hi <= n,
                    n == entries@.len(),
                    out@.len() == i - lo,
                    out@.len() <= limit,
                    forall|j: int|
                        0 <= j < out@.len() ==> whole_dec((#[trigger] w[j]).1) == Some(out@[j]@),
                decreases hi - i,
            {
                assert(w[i - lo] == (entries@[i as int].0@, entries@[i as int].1@));
                match codec.deserialize(entries[i].1.as_slice()) {
                    Ok(v) => {
                        out.push(v);
                    },
                    Err(e) => {
                        assert(sel[i - lo] == w[i - lo]);
                        return Err(e);
                    },
                }
                i = i + 1;
            }
            assert(out@.len() == sel.len());
            assert(forall|j: int| 0 <= j < sel.len() ==> #[trigger] sel[j] == w[j]);
            Ok(out)
        },
        Direction::Reverse => {
            let mut i: usize = hi;
            while i > lo && out.len() < limit
                invariant
                    lo <= i <= hi <= n,
                    n == entries@.len(),
                    out@.len() == hi - i,
                    out@.len() <= limit,
                    forall|j: int|
                        0 <= j < out@.len() ==> whole_dec((#[trigger] w.reverse()[j]).1) == Some(
                            out@[j]@,
                        ),
                decreases i - lo,
            {
                i = i - 1;
                assert(w.reverse()[hi - 1 - i] == w[i - lo]) by {
                    assert(w.reverse()[hi - 1 - i] == w[w.len() - 1 - (hi - 1 - i)]);
                }
                assert(w[i - lo] == (entries@[i as int].0@, entries@[i as int].1@));
                match codec.deserialize(entries[i].1.as_slice()) {
                    Ok(v) => {
                        out.push(v);
                    },
                    Err(e) => {
                        assert(sel[hi - 1 - i] == w.reverse()[hi - 1 - i]);
                        return Err(e);
                    },
                }
            }
            assert(out@.len() == sel.len());
            assert(forall|j: int| 0 <= j < sel.len() ==> #[trigger] sel[j] == w.reverse()[j]);
            Ok(out)
        },
    }
}

/// Extracts and decodes the requested slice, keeping each record's
/// collection key beside it.  The same window, order, limit and failure
/// rules as [`get_range_slice`].
#[verifier::loop_isolation(false)]
pub fn get_range_slice_with_keys(
    entries: &Vec<(String, Vec<u8>)>,
    from: &str,
    to: &str,
    limit: usize,
    direction: Direction,
) -> (r: Result<Vec<KeyValuePair<DocValue>>, KvStoreError>)
    ensures
        ({
            let sel = selected(entry_views(entries@), from@, to@, limit as int, direction);
            &&& (r matches Ok(kvs) ==> kvs@.len() == sel.len() && (forall|i: int|
                0 <= i < sel.len() ==> whole_dec((#[trigger] sel[i]).1) == Some(
                    doc_view(kvs@[i].value),
                ) && kvs@[i].key@ == sel[i].0))
            &&& (r is Err ==> r matches Err(KvStoreError::DeserializationError(_)))
            &&& (r is Err <==> (exists|i: int|
                0 <= i < sel.len() && whole_dec((#[trigger] sel[i]).1) is None))
            &&& (r matches Ok(kvs) ==> kvs@.len() <= limit)
        }),
{
    let views = Ghost(entry_views(entries@));
    let n = entries.len();
    let lo = match parse_index(from) {
        Some(v) => if v <= n {
            v
        } else {
            n
        },
        None => 0,
    };
    let hi = match parse_index(to) {
        Some(v) => if v >= n {
            n
        } else {
            v + 1
        },
        None => n,
    };
    let ghost w = window(views@, from@, to@);
    let ghost sel = selected(views@, from@, to@, limit as int, direction);
    let codec = MessagePackSerializer;
    let mut out: Vec<KeyValuePair<DocValue>> = Vec::new();
    if lo >= hi {
        assert(sel.len() == 0);
        return Ok(out);
    }
    assert(w == views@.subrange(lo as int, hi as int));
    match direction {
        Direction::Forward => {
            let mut i: usize = lo;
            while i < hi && out.len() < limit
                invariant
                    lo <= i <= hi <= n,
                    n == entries@.len(),
                    out@.len() == i - lo,
                    out@.len() <= limit,
                    forall|j: int|
                        0 <= j < out@.len() ==> (#[trigger] out@[j]).key@ == w[j].0 && whole_dec(
                            w[j].1,
                        ) == Some(doc_view(out@[j].value)),
                decreases hi - i,
            {
                assert(w[i - lo] == (entries@[i as int].0@, entries@[i as int].1@));
                match codec.deserialize(entries[i].1.as_slice()) {
                    Ok(v) => {
                        let key = entries[i].0.clone();
                        out.push(KeyValuePair { key: key, value: v });
                    },
                    Err(e) => {
                        assert(sel[i - lo] == w[i - lo]);
                        return Err(e);
                    },
                }
                i = i + 1;
            }
            assert(out@.len() == sel.len());
            assert(forall|j: int| 0 <= j < sel.len() ==> #[trigger] sel[j] == w[j]);
            assert(forall|i: int|
                0 <= i < sel.len() ==> whole_dec((#[trigger] sel[i]).1) == Some(
                    doc_view(out@[i].value),
                ) && out@[i].key@ == sel[i].0);
            Ok(out)
        },
        Direction::Reverse => {
            let mut i: usize = hi;
            while i > lo && out.len() < limit
                invariant
                    lo <= i <= hi <= n,
                    n == entries@.len(),
                    out@.len() == hi - i,
                    out@.len() <= limit,
                    forall|j: int|
                        0 <= j < out@.len() ==> (#[trigger] out@[j]).key@ == w.reverse()[j].0
                            && whole_dec(w.reverse()[j].1) == Some(doc_view(out@[j].value)),
                decreases i - lo,
            {
                i = i - 1;
                assert(w.reverse()[hi - 1 - i] == w[i - lo]) by {
                    assert(w.reverse()[hi - 1 - i] == w[w.len() - 1 - (hi - 1 - i)]);
                }
                assert(w[i - lo] == (entries@[i as int].0@, entries@[i as int].1@));
                match codec.deserialize(entries[i].1.as_slice()) {
                    Ok(v) => {
                        let key = entries[i].0.clone();
                        out.push(KeyValuePair { key: key, value: v });
                    },
                    Err(e) => {
                        assert(sel[hi - 1 - i] == w.reverse()[hi - 1 - i]);
                        return Err(e);
                    },
                }
            }
            assert(out@.len() == sel.len());
            assert(forall|j: int| 0 <= j < sel.len() ==> #[trigger] sel[j] == w.reverse()[j]);
            assert(forall|i: int|
                0 <= i < sel.len() ==> whole_dec((#[trigger] sel[i]).1) == Some(
                    doc_view(out@[i].value),
                ) && out@[i].key@ == sel[i].0);
            Ok(out)
        },
    }
}

/// Over entries whose keys ascend strictly (the engine's iteration
/// order), a forward range request returns entries whose keys still
/// ascend strictly, so no key repeats; by
/// [`lemma_key_order_is_byte_order`] the same holds in raw-byte order.
pub proof fn lemma_forward_selection_sorted(
    entries: Seq<(Seq<char>, Seq<u8>)>,
    from: Seq<char>,
    to: Seq<char>,
    limit: int,
)
    requires
        0 <= limit,
        forall|i: int, j: int|
            0 <= i < j < entries.len() ==> crate::query::chars_lt(
                (#[trigger] entries[i]).0,
                (#[trigger] entries[j]).0,
            ),
    ensures
        ({
            let sel = selected(entries, from, to, limit, Direction::Forward);
            forall|i: int, j: int|
                0 <= i < j < sel.len() ==> crate::query::chars_lt(
                    (#[trigger] sel[i]).0,
                    (#[trigger] sel[j]).0,
                )
        }),
{
    let n = entries.len() as int;
    let lo = start_bound(from, n);
    let hi = end_bound(to, n);
    let fd = if from.len() > 0 && from[0] == '+' {
        from.drop_first()
    } else {
        from
    };
    if parsed_index(from) is Some {
        lemma_digits_val_nonneg(fd);
    }
    let td = if to.len() > 0 && to[0] == '+' {
        to.drop_first()
    } else {
        to
    };
    if parsed_index(to) is Some {
        lemma_digits_val_nonneg(td);
    }
    assert(0 <= lo <= n);
    assert(0 <= hi <= n);
    let sel = selected(entries, from, to, limit, Direction::Forward);
    assert forall|i: int, j: int|
        0 <= i < j < sel.len() implies crate::query::chars_lt(
        (#[trigger] sel[i]).0,
        (#[trigger] sel[j]).0,
    ) by {
        let w = window(entries, from, to);
        assert(sel == (if limit < w.len() {
            w.take(limit)
        } else {
            w
        }));
        if lo <= hi {
            assert(w == entries.subrange(lo, hi));
            if limit < w.len() {
                assert(sel[i] == w.take(limit)[i]);
                assert(w.take(limit)[i] == w[i]);
                assert(sel[j] == w.take(limit)[j]);
                assert(w.take(limit)[j] == w[j]);
            }
            assert(sel[i] == w[i]);
            assert(sel[j] == w[j]);
            assert(w[i] == entries[lo + i]);
            assert(w[j] == entries[lo + j]);
        } else {
            assert(sel.len() == 0);
        }
    }
}

/// Strict lexicographic order on raw byte strings: the engine's
/// iteration order over keys.
pub open spec fn bytes_lt(a: Seq<u8>, b: Seq<u8>) -> bool
    decreases a.len(),
{
    if b.len() == 0 {
        false
    } else if a.len() == 0 {
        true
    } else if a[0] != b[0] {
        a[0] < b[0]
    } else {
        bytes_lt(a.drop_first(), b.drop_first())
    }
}

/// A shared prefix does not decide the order.
proof fn lemma_bytes_lt_common_prefix(p: Seq<u8>, x: Seq<u8>, y: Seq<u8>)
    ensures
        bytes_lt(p + x, p + y) == bytes_lt(x, y),
    decreases p.len(),
{
    if p.len() == 0 {
        assert(p + x =~= x);
        assert(p + y =~= y);
    } else {
        if (p + x).len() > 0 && (p + y).len() > 0 {
            assert((p + x)[0] == p[0]);
            assert((p + y)[0] == p[0]);
            assert((p + x).drop_first() =~= p.drop_first() + x);
            assert((p + y).drop_first() =~= p.drop_first() + y);
            lemma_bytes_lt_common_prefix(p.drop_first(), x, y);
        }
    }
}

/// A smaller scalar's encoding orders first, whatever follows either
/// encoding: the byte layouts of the four widths keep scalar order.
proof fn lemma_scalar_lt_bytes(u: u32, v: u32, x: Seq<u8>, y: Seq<u8>)
    requires
        vstd::utf8::is_scalar(u),
        vstd::utf8::is_scalar(v),
        u < v,
    ensures
        bytes_lt(vstd::utf8::encode_scalar(u) + x, vstd::utf8::encode_scalar(v) + y),
{
    let eu = vstd::utf8::encode_scalar(u);
    let ev = vstd::utf8::encode_scalar(v);
    let a = eu + x;
    let b = ev + y;
    let hu: u8 = if u <= 0x7F {
        (u & 0x7F) as u8
    } else if u <= 0x7FF {
        0xC0 | ((u >> 6) & 0x1F) as u8
    } else if u <= 0xFFFF {
        0xE0 | ((u >> 12) & 0x0F) as u8
    } else {
        0xF0 | ((u >> 18) & 0x7) as u8
    };
    let hv: u8 = if v <= 0x7F {
        (v & 0x7F) as u8
    } else if v <= 0x7FF {
        0xC0 | ((v >> 6) & 0x1F) as u8
    } else if v <= 0xFFFF {
        0xE0 | ((v >> 12) & 0x0F) as u8
    } else {
        0xF0 | ((v >> 18) & 0x7) as u8
    };
    assert(eu[0] == hu);
    assert(ev[0] == hv);
    assert(a[0] == eu[0]);
    assert(b[0] == ev[0]);
    if eu.len() < ev.len() {
        // a shorter encoding has a strictly smaller leading byte
        assert((u <= 0x7F && v > 0x7F) || (u <= 0x7FF && v > 0x7FF) || (u <= 0xFFFF && v
            > 0xFFFF));
        assert(hu < hv) by (bit_vector)
            requires
                (u <= 0x7F && v > 0x7F) || (u <= 0x7FF && v > 0x7FF) || (u <= 0xFFFF && v
                    > 0xFFFF),
                hu == (if u <= 0x7F {
                    (u & 0x7F) as u8
                } else if u <= 0x7FF {
                    0xC0 | ((u >> 6) & 0x1F) as u8
                } else if u <= 0xFFFF {
                    0xE0 | ((u >> 12) & 0x0F) as u8
                } else {
                    0xF0 | ((u >> 18) & 0x7) as u8
                }),
                hv == (if v <= 0x7F {
                    (v & 0x7F) as u8
                } else if v <= 0x7FF {
                    0xC0 | ((v >> 6) & 0x1F) as u8
                } else if v <= 0xFFFF {
                    0xE0 | ((v >> 12) & 0x0F) as u8
                } else {
                    0xF0 | ((v >> 18) & 0x7) as u8
                }),
                u < v,
                v <= 0x10FFFF,
        ;
        assert(bytes_lt(a, b));
    } else {
        assert(eu.len() == ev.len()) by {
            assert(!(v <= 0x7F && u > 0x7F));
            assert(!(v <= 0x7FF && u > 0x7FF));
            assert(!(v <= 0xFFFF && u > 0xFFFF));
        }
        if hu != hv {
            assert(hu < hv) by (bit_vector)
                requires
                    hu == (if u <= 0x7F {
                        (u & 0x7F) as u8
                    } else if u <= 0x7FF {
                        0xC0 | ((u >> 6) & 0x1F) as u8
                    } else if u <= 0xFFFF {
                        0xE0 | ((u >> 12) & 0x0F) as u8
                    } else {
                        0xF0 | ((u >> 18) & 0x7) as u8
                    }),
                    hv == (if v <= 0x7F {
                        (v & 0x7F) as u8
                    } else if v <= 0x7FF {
                        0xC0 | ((v >> 6) & 0x1F) as u8
                    } else if v <= 0xFFFF {
                        0xE0 | ((v >> 12) & 0x0F) as u8
                    } else {
                        0xF0 | ((v >> 18) & 0x7) as u8
                    }),
                    u < v,
                    v <= 0x10FFFF,
                    hu != hv,
                    (u <= 0x7F <==> v <= 0x7F),
                    (u <= 0x7FF <==> v <= 0x7FF),
                    (u <= 0xFFFF <==> v <= 0xFFFF),
            ;
            assert(bytes_lt(a, b));
        } else {
            // same width, same leading byte: order is decided in the
            // continuation bytes, highest first
            if u <= 0x7F {
                assert(u == v) by (bit_vector)
                    requires
                        u <= 0x7F,
                        v <= 0x7F,
                        hu == (u & 0x7F) as u8,
                        hv == (v & 0x7F) as u8,
                        hu == hv,
                ;
                assert(false);
            } else if u <= 0x7FF {
                let cu = vstd::utf8::last_continuation_byte(u);
                let cv = vstd::utf8::last_continuation_byte(v);
                assert(cu < cv) by (bit_vector)
                    requires
                        cu == 0x80 | (u & 0x3F) as u8,
                        cv == 0x80 | (v & 0x3F) as u8,
                        0x80 <= u,
                        u < v,
                        v <= 0x7FF,
                        hu == 0xC0 | ((u >> 6) & 0x1F) as u8,
                        hv == 0xC0 | ((v >> 6) & 0x1F) as u8,
                        hu == hv,
                ;
                assert(eu =~= seq![hu, cu]);
                assert(ev =~= seq![hv, cv]);
                assert(a.drop_first() =~= seq![cu] + x);
                assert(b.drop_first() =~= seq![cv] + y);
                assert((seq![cu] + x)[0] == cu);
                assert((seq![cv] + y)[0] == cv);
                assert(bytes_lt(seq![cu] + x, seq![cv] + y));
                assert(bytes_lt(a, b));
            } else if u <= 0xFFFF {
                let cu2 = vstd::utf8::second_last_continuation_byte(u);
                let cv2 = vstd::utf8::second_last_continuation_byte(v);
                let cu1 = vstd::utf8::last_continuation_byte(u);
                let cv1 = vstd::utf8::last_continuation_byte(v);
                assert(cu2 < cv2 || (cu2 == cv2 && cu1 < cv1)) by (bit_vector)
                    requires
                        cu2 == 0x80 | ((u >> 6) & 0x3F) as u8,
                        cv2 == 0x80 | ((v >> 6) & 0x3F) as u8,
                        cu1 == 0x80 | (u & 0x3F) as u8,
                        cv1 == 0x80 | (v & 0x3F) as u8,
                        0x800 <= u,
                        u < v,
                        v <= 0xFFFF,
                        hu == 0xE0 | ((u >> 12) & 0x0F) as u8,
                        hv == 0xE0 | ((v >> 12) & 0x0F) as u8,
                        hu == hv,
                ;
                assert(eu =~= seq![hu, cu2, cu1]);
                assert(ev =~= seq![hv, cv2, cv1]);
                assert(a.drop_first() =~= seq![cu2, cu1] + x);
                assert(b.drop_first() =~= seq![cv2, cv1] + y);
                assert((seq![cu2, cu1] + x)[0] == cu2);
                assert((seq![cv2, cv1] + y)[0] == cv2);
                if cu2 == cv2 {
                    assert((seq![cu2, cu1] + x).drop_first() =~= seq![cu1] + x);
                    assert((seq![cv2, cv1] + y).drop_first() =~= seq![cv1] + y);
                    assert((seq![cu1] + x)[0] == cu1);
                    assert((seq![cv1] + y)[0] == cv1);
                    assert(bytes_lt(seq![cu1] + x, seq![cv1] + y));
                }
                assert(bytes_lt(seq![cu2, cu1] + x, seq![cv2, cv1] + y));
                assert(bytes_lt(a, b));
            } else {
                let cu3 = vstd::utf8::third_last_continuation_byte(u);
                let cv3 = vstd::utf8::third_last_continuation_byte(v);
                let cu2 = vstd::utf8::second_last_continuation_byte(u);
                let cv2 = vstd::utf8::second_last_continuation_byte(v);
                let cu1 = vstd::utf8::last_continuation_byte(u);
                let cv1 = vstd::utf8::last_continuation_byte(v);
                assert(cu3 < cv3 || (cu3 == cv3 && cu2 < cv2) || (cu3 == cv3 && cu2 == cv2 && cu1
                    < cv1)) by (bit_vector)
                    requires
                        cu3 == 0x80 | ((u >> 12) & 0x3F) as u8,
                        cv3 == 0x80 | ((v >> 12) & 0x3F) as u8,
                        cu2 == 0x80 | ((u >> 6) & 0x3F) as u8,
                        cv2 == 0x80 | ((v >> 6) & 0x3F) as u8,
                        cu1 == 0x80 | (u & 0x3F) as u8,
                        cv1 == 0x80 | (v & 0x3F) as u8,
                        0x10000 <= u,
                        u < v,
                        v <= 0x10FFFF,
                        hu == 0xF0 | ((u >> 18) & 0x7) as u8,
                        hv == 0xF0 | ((v >> 18) & 0x7) as u8,
                        hu == hv,
                ;
                assert(eu =~= seq![hu, cu3, cu2, cu1]);
                assert(ev =~= seq![hv, cv3, cv2, cv1]);
                assert(a.drop_first() =~= seq![cu3, cu2, cu1] + x);
                assert(b.drop_first() =~= seq![cv3, cv2, cv1] + y);
                assert((seq![cu3, cu2, cu1] + x)[0] == cu3);
                assert((seq![cv3, cv2, cv1] + y)[0] == cv3);
                if cu3 == cv3 {
                    assert((seq![cu3, cu2, cu1] + x).drop_first() =~= seq![cu2, cu1] + x);
                    assert((seq![cv3, cv2, cv1] + y).drop_first() =~= seq![cv2, cv1] + y);
                    assert((seq![cu2, cu1] + x)[0] == cu2);
                    assert((seq![cv2, cv1] + y)[0] == cv2);
                    if cu2 == cv2 {
                        assert((seq![cu2, cu1] + x).drop_first() =~= seq![cu1] + x);
                        assert((seq![cv2, cv1] + y).drop_first() =~= seq![cv1] + y);
                        assert((seq![cu1] + x)[0] == cu1);
                        assert((seq![cv1] + y)[0] == cv1);
                        assert(bytes_lt(seq![cu1] + x, seq![cv1] + y));
                    }
                    assert(bytes_lt(seq![cu2, cu1] + x, seq![cv2, cv1] + y));
                }
                assert(bytes_lt(seq![cu3, cu2, cu1] + x, seq![cv3, cv2, cv1] + y));
                assert(bytes_lt(a, b));
            }
        }
    }
}

/// Keys in ascending character order stand in ascending raw-byte order:
/// the character-wise order the contracts use and the byte-wise order
/// the engine iterates in agree, so a key sequence sorted by one is
/// sorted by the other.
pub proof fn lemma_key_order_is_byte_order(a: Seq<char>, b: Seq<char>)
    requires
        crate::query::chars_lt(a, b),
    ensures
        bytes_lt(vstd::utf8::encode_utf8(a), vstd::utf8::encode_utf8(b)),
    decreases a.len() + b.len(),
{
    let ea = vstd::utf8::encode_utf8(a);
    let eb = vstd::utf8::encode_utf8(b);
    if a.len() == 0 {
        assert(b.len() > 0);
        assert(eb.len() >= 1) by {
            assert(eb == vstd::utf8::encode_scalar(b[0] as u32) + vstd::utf8::encode_utf8(
                b.drop_first(),
            ));
        }
        assert(ea.len() == 0);
    } else if a[0] != b[0] {
        vstd::utf8::char_is_scalar(a[0]);
        vstd::utf8::char_is_scalar(b[0]);
        assert((a[0] as u32) < (b[0] as u32));
        lemma_scalar_lt_bytes(
            a[0] as u32,
            b[0] as u32,
            vstd::utf8::encode_utf8(a.drop_first()),
            vstd::utf8::encode_utf8(b.drop_first()),
        );
    } else {
        lemma_key_order_is_byte_order(a.drop_first(), b.drop_first());
        lemma_bytes_lt_common_prefix(
            vstd::utf8::encode_scalar(a[0] as u32),
            vstd::utf8::encode_utf8(a.drop_first()),
            vstd::utf8::encode_utf8(b.drop_first()),
        );
    }
}

/// With the window open at both ends and no limit in reach, a forward
/// range request returns every entry, in the collection's ascending key
/// order.
pub proof fn lemma_full_forward_scan(
    entries: Seq<(Seq<char>, Seq<u8>)>,
    from: Seq<char>,
    to: Seq<char>,
    limit: int,
)
    requires
        start_bound(from, entries.len() as int) == 0,
        end_bound(to, entries.len() as int) == entries.len(),
        limit >= entries.len(),
    ensures
        selected(entries, from, to, limit, Direction::Forward) == entries,
{
    assert(window(entries, from, to) =~= entries);
}

/// Over the same window, with no limit in reach, the reverse traversal
/// returns the exact reverse of the forward one.
pub proof fn lemma_reverse_of_forward(
    entries: Seq<(Seq<char>, Seq<u8>)>,
    from: Seq<char>,
    to: Seq<char>,
    limit: int,
)
    requires
        limit >= window(entries, from, to).len(),
    ensures
        selected(entries, from, to, limit, Direction::Reverse) == selected(
            entries,
            from,
            to,
            limit,
            Direction::Forward,
        ).reverse(),
{
}

} // verus!
