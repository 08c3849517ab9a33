use vstd::prelude::*;

use crate::errors::KvStoreError;
use crate::query::{CmpOp, FilterExpr, FilterView, Operand, OperandView, PathQuery, QueryView, Selector, SelectorView};
use crate::range::{digits_val, is_digit};
use vstd::string::*;

verus! {

// The query grammar, written as a deterministic recursive-descent parse
// over the character sequence.  These functions are the grammar's
// definition: the executable parser mirrors them step for step and is
// proved to return exactly what they describe.
//
//   query     := '$' '[' selector ']' ( '.' ident )*
//   selector  := '*' | '?' or-expr | slice-or-positions
//   or-expr   := and-expr ( '||' and-expr )*
//   and-expr  := atom ( '&&' atom )*
//   atom      := '!' '(' or-expr ')' | '(' or-expr ')'
//              | operand cmp operand | attr-chain
//   operand   := attr-chain | integer | 'string' | true | false | null
//   cmp       := '==' | '!=' | '<=' | '>=' | '<' | '>'
//
// Blanks may stand between tokens of a filter and around the selector.
// A string literal runs to the next quote: it cannot contain one.

/// A blank character.
pub open spec fn is_blank(c: char) -> bool {
    c == ' '
}

/// The first position at or after `pos` that does not hold a blank.
pub open spec fn sp_ws(s: Seq<char>, pos: int) -> int
    decreases s.len() - pos,
{
    if 0 <= pos < s.len() && is_blank(s[pos]) {
        sp_ws(s, pos + 1)
    } else {
        pos
    }
}

/// A character that may start an attribute name.
pub open spec fn is_ident_start(c: char) -> bool {
    (97 <= c as u32 <= 122) || (65 <= c as u32 <= 90) || c == '_'
}

/// A character that may continue an attribute name.
pub open spec fn is_ident_char(c: char) -> bool {
    is_ident_start(c) || is_digit(c)
}

/// The end of the run of name characters starting at `pos`.
pub open spec fn ident_end(s: Seq<char>, pos: int) -> int
    decreases s.len() - pos,
{
    if 0 <= pos < s.len() && is_ident_char(s[pos]) {
        ident_end(s, pos + 1)
    } else {
        pos
    }
}

/// One attribute name: a letter or underscore, then letters, digits and
/// underscores.
pub open spec fn sp_ident(s: Seq<char>, pos: int) -> Option<(Seq<char>, int)> {
    if 0 <= pos < s.len() && is_ident_start(s[pos]) {
        let e = ident_end(s, pos);
        Some((s.subrange(pos, e), e))
    } else {
        None
    }
}

/// The end of the run of digits starting at `pos`.
pub open spec fn digit_end(s: Seq<char>, pos: int) -> int
    decreases s.len() - pos,
{
    if 0 <= pos < s.len() && is_digit(s[pos]) {
        digit_end(s, pos + 1)
    } else {
        pos
    }
}

/// The digit run stays within the text.
pub proof fn lemma_digit_end_bounds(s: Seq<char>, pos: int)
    requires
        0 <= pos <= s.len(),
    ensures
        pos <= digit_end(s, pos) <= s.len(),
    decreases s.len() - pos,
{
    if 0 <= pos < s.len() && is_digit(s[pos]) {
        lemma_digit_end_bounds(s, pos + 1);
    }
}

/// An integer literal: an optional minus sign and a digit run, kept only
/// when the value fits 64 signed bits.
pub open spec fn sp_int(s: Seq<char>, pos: int) -> Option<(int, int)> {
    let neg = 0 <= pos < s.len() && s[pos] == '-';
    let p1 = if neg {
        pos + 1
    } else {
        pos
    };
    if 0 <= p1 < s.len() && is_digit(s[p1]) {
        let e = digit_end(s, p1);
        let v = digits_val(s.subrange(p1, e));
        let sv = if neg {
            -v
        } else {
            v
        };
        if -0x8000_0000_0000_0000 <= sv < 0x8000_0000_0000_0000 {
            Some((sv, e))
        } else {
            None
        }
    } else {
        None
    }
}

/// A string literal: a quote, the characters up to the next quote, and
/// that closing quote.
pub open spec fn quote_end(s: Seq<char>, pos: int) -> int
    decreases s.len() - pos,
{
    if 0 <= pos < s.len() && s[pos] != '\'' {
        quote_end(s, pos + 1)
    } else {
        pos
    }
}

pub open spec fn sp_str_lit(s: Seq<char>, pos: int) -> Option<(Seq<char>, int)> {
    if 0 <= pos < s.len() && s[pos] == '\'' {
        let e = quote_end(s, pos + 1);
        if e < s.len() {
            Some((s.subrange(pos + 1, e), e + 1))
        } else {
            None
        }
    } else {
        None
    }
}

/// The attribute segments `.a.b` ... : as many as stand at `pos`.
pub open spec fn sp_path_segs(s: Seq<char>, pos: int) -> (Seq<Seq<char>>, int)
    decreases s.len() - pos,
{
    if 0 <= pos < s.len() && s[pos] == '.' {
        match sp_ident(s, pos + 1) {
            Some((id, p2)) => if pos + 1 < p2 <= s.len() {
                let (rest, p3) = sp_path_segs(s, p2);
                (seq![id] + rest, p3)
            } else {
                (Seq::empty(), pos)
            },
            None => (Seq::empty(), pos),
        }
    } else {
        (Seq::empty(), pos)
    }
}

/// A candidate-record attribute chain `@.a.b`, with at least one
/// segment.
pub open spec fn sp_attr(s: Seq<char>, pos: int) -> Option<(Seq<Seq<char>>, int)> {
    if 0 <= pos < s.len() && s[pos] == '@' {
        let (segs, p2) = sp_path_segs(s, pos + 1);
        if segs.len() >= 1 {
            Some((segs, p2))
        } else {
            None
        }
    } else {
        None
    }
}

/// One operand of a comparison.
pub open spec fn sp_operand(s: Seq<char>, pos: int) -> Option<(OperandView, int)> {
    if pos < 0 || pos >= s.len() {
        None
    } else if s[pos] == '@' {
        match sp_attr(s, pos) {
            Some((segs, p2)) => Some((OperandView::Attr(segs), p2)),
            None => None,
        }
    } else if s[pos] == '\'' {
        match sp_str_lit(s, pos) {
            Some((lit, p2)) => Some((OperandView::LitStr(lit), p2)),
            None => None,
        }
    } else if s[pos] == '-' || is_digit(s[pos]) {
        match sp_int(s, pos) {
            Some((v, p2)) => Some((OperandView::LitInt(v), p2)),
            None => None,
        }
    } else if pos + 4 <= s.len() && s.subrange(pos, pos + 4) == seq!['t', 'r', 'u', 'e'] {
        Some((OperandView::LitBool(true), pos + 4))
    } else if pos + 5 <= s.len() && s.subrange(pos, pos + 5) == seq!['f', 'a', 'l', 's', 'e'] {
        Some((OperandView::LitBool(false), pos + 5))
    } else if pos + 4 <= s.len() && s.subrange(pos, pos + 4) == seq!['n', 'u', 'l', 'l'] {
        Some((OperandView::LitNull, pos + 4))
    } else {
        None
    }
}

/// A comparison operator.
pub open spec fn sp_cmp_op(s: Seq<char>, pos: int) -> Option<(CmpOp, int)> {
    if 0 <= pos && pos + 2 <= s.len() && s[pos] == '=' && s[pos + 1] == '=' {
        Some((CmpOp::Eq, pos + 2))
    } else if 0 <= pos && pos + 2 <= s.len() && s[pos] == '!' && s[pos + 1] == '=' {
        Some((CmpOp::Ne, pos + 2))
    } else if 0 <= pos && pos + 2 <= s.len() && s[pos] == '<' && s[pos + 1] == '=' {
        Some((CmpOp::Le, pos + 2))
    } else if 0 <= pos && pos + 2 <= s.len() && s[pos] == '>' && s[pos + 1] == '=' {
        Some((CmpOp::Ge, pos + 2))
    } else if 0 <= pos && pos + 1 <= s.len() && s[pos] == '<' {
        Some((CmpOp::Lt, pos + 1))
    } else if 0 <= pos && pos + 1 <= s.len() && s[pos] == '>' {
        Some((CmpOp::Gt, pos + 1))
    } else {
        None
    }
}

/// A filter atom: a negated or plain parenthesized expression, a
/// comparison, or a bare attribute chain (an existence test).
pub open spec fn sp_atom(s: Seq<char>, pos: int) -> Option<(FilterView, int)>
    decreases s.len() - pos, 1int,
{
    if pos < 0 || pos > s.len() {
        None
    } else {
        let p = sp_ws(s, pos);
        if pos <= p < s.len() && s[p] == '!' {
            let p1 = sp_ws(s, p + 1);
            if p < p1 < s.len() && s[p1] == '(' {
                match sp_or(s, p1 + 1) {
                    Some((e, p2)) => {
                        let p3 = sp_ws(s, p2);
                        if p2 <= p3 < s.len() && s[p3] == ')' {
                            Some((FilterView::Not(Box::new(e)), p3 + 1))
                        } else {
                            None
                        }
                    },
                    None => None,
                }
            } else {
                None
            }
        } else if pos <= p < s.len() && s[p] == '(' {
            match sp_or(s, p + 1) {
                Some((e, p2)) => {
                    let p3 = sp_ws(s, p2);
                    if p2 <= p3 < s.len() && s[p3] == ')' {
                        Some((e, p3 + 1))
                    } else {
                        None
                    }
                },
                None => None,
            }
        } else if pos <= p {
            match sp_operand(s, p) {
                Some((o1, p1)) => {
                    let pw = sp_ws(s, p1);
                    match sp_cmp_op(s, pw) {
                        Some((op, p2)) => {
                            let p3 = sp_ws(s, p2);
                            match sp_operand(s, p3) {
                                Some((o2, p4)) => Some((FilterView::Cmp(o1, op, o2), p4)),
                                None => None,
                            }
                        },
                        None => match o1 {
                            OperandView::Attr(segs) => Some((FilterView::Exists(segs), p1)),
                            _ => None,
                        },
                    }
                },
                None => None,
            }
        } else {
            None
        }
    }
}

/// The `&& atom` continuations of a conjunction.
pub open spec fn sp_and_rest(s: Seq<char>, acc: FilterView, pos: int) -> (FilterView, int)
    decreases s.len() - pos, 0int,
{
    if pos < 0 || pos > s.len() {
        (acc, pos)
    } else {
        let p = sp_ws(s, pos);
        if pos <= p && p + 2 <= s.len() && s[p] == '&' && s[p + 1] == '&' {
            match sp_atom(s, p + 2) {
                Some((e2, p2)) => if p + 2 < p2 <= s.len() {
                    sp_and_rest(s, FilterView::And(Box::new(acc), Box::new(e2)), p2)
                } else {
                    (acc, pos)
                },
                None => (acc, pos),
            }
        } else {
            (acc, pos)
        }
    }
}

/// A conjunction: atoms joined by `&&`, grouping to the left.
pub open spec fn sp_and(s: Seq<char>, pos: int) -> Option<(FilterView, int)>
    decreases s.len() - pos, 2int,
{
    match sp_atom(s, pos) {
        Some((e, p1)) => if pos < p1 <= s.len() {
            Some(sp_and_rest(s, e, p1))
        } else {
            None
        },
        None => None,
    }
}

/// The `|| and-expr` continuations of a disjunction.
pub open spec fn sp_or_rest(s: Seq<char>, acc: FilterView, pos: int) -> (FilterView, int)
    decreases s.len() - pos, 0int,
{
    if pos < 0 || pos > s.len() {
        (acc, pos)
    } else {
        let p = sp_ws(s, pos);
        if pos <= p && p + 2 <= s.len() && s[p] == '|' && s[p + 1] == '|' {
            match sp_and(s, p + 2) {
                Some((e2, p2)) => if p + 2 < p2 <= s.len() {
                    sp_or_rest(s, FilterView::Or(Box::new(acc), Box::new(e2)), p2)
                } else {
                    (acc, pos)
                },
                None => (acc, pos),
            }
        } else {
            (acc, pos)
        }
    }
}

/// A disjunction: conjunctions joined by `||`, grouping to the left.
pub open spec fn sp_or(s: Seq<char>, pos: int) -> Option<(FilterView, int)>
    decreases s.len() - pos, 3int,
{
    match sp_and(s, pos) {
        Some((e, p1)) => if pos < p1 <= s.len() {
            Some(sp_or_rest(s, e, p1))
        } else {
            None
        },
        None => None,
    }
}

/// The `, position` continuations of a position listing.
pub open spec fn sp_pos_rest(s: Seq<char>, acc: Seq<int>, pos: int) -> (Seq<int>, int)
    decreases s.len() - pos,
{
    if pos < 0 || pos > s.len() {
        (acc, pos)
    } else {
        let p = sp_ws(s, pos);
        if pos <= p < s.len() && s[p] == ',' {
            let p1 = sp_ws(s, p + 1);
            if p < p1 {
                match sp_int(s, p1) {
                    Some((v, p2)) => if p1 < p2 <= s.len() {
                        sp_pos_rest(s, acc + seq![v], p2)
                    } else {
                        (acc, pos)
                    },
                    None => (acc, pos),
                }
            } else {
                (acc, pos)
            }
        } else {
            (acc, pos)
        }
    }
}

/// What stands between the brackets: a wildcard, a filter, a slice, or
/// positions.
pub open spec fn sp_selector(s: Seq<char>, pos: int) -> Option<(SelectorView, int)> {
    if pos < 0 || pos > s.len() {
        None
    } else {
        let p = sp_ws(s, pos);
        if p < s.len() && s[p] == '*' {
            Some((SelectorView::All, p + 1))
        } else if p < s.len() && s[p] == '?' {
            match sp_or(s, p + 1) {
                Some((e, p2)) => Some((SelectorView::Filter(e), p2)),
                None => None,
            }
        } else if p < s.len() && s[p] == ':' {
            // `[:b]` and `[:]`
            let p1 = sp_ws(s, p + 1);
            if p < p1 < s.len() && (s[p1] == '-' || is_digit(s[p1])) {
                match sp_int(s, p1) {
                    Some((b, p2)) => Some((SelectorView::Slice(None, Some(b)), p2)),
                    None => None,
                }
            } else {
                Some((SelectorView::Slice(None, None), p + 1))
            }
        } else {
            match sp_int(s, p) {
                Some((a, p1)) => {
                    let pw = sp_ws(s, p1);
                    if p1 <= pw < s.len() && s[pw] == ':' {
                        let p2 = sp_ws(s, pw + 1);
                        if pw < p2 < s.len() && (s[p2] == '-' || is_digit(s[p2])) {
                            match sp_int(s, p2) {
                                Some((b, p3)) => Some((SelectorView::Slice(Some(a), Some(b)), p3)),
                                None => None,
                            }
                        } else {
                            Some((SelectorView::Slice(Some(a), None), pw + 1))
                        }
                    } else if p1 <= pw < s.len() && s[pw] == ',' {
                        let (ps, p2) = sp_pos_rest(s, seq![a], p1);
                        Some((SelectorView::Positions(ps), p2))
                    } else {
                        Some((SelectorView::Positions(seq![a]), p1))
                    }
                },
                None => None,
            }
        }
    }
}

/// A whole query: `$[selector]` and a trailing attribute chain, with
/// nothing but blanks after it.
pub open spec fn sp_query(s: Seq<char>) -> Option<QueryView> {
    if s.len() >= 2 && s[0] == '$' && s[1] == '[' {
        match sp_selector(s, 2) {
            Some((sel, p1)) => {
                let p2 = sp_ws(s, p1);
                if p1 <= p2 < s.len() && s[p2] == ']' {
                    let (path, p3) = sp_path_segs(s, p2 + 1);
                    if sp_ws(s, p3) == s.len() {
                        Some(QueryView { selector: sel, path: path })
                    } else {
                        None
                    }
                } else {
                    None
                }
            },
            None => None,
        }
    } else {
        None
    }
}

// --- The executable parser, mirroring the grammar above. ---

/// The characters of a query string, for position-wise parsing.
fn to_chars(s: &str) -> (r: Vec<char>)
    ensures
        r@ == s@,
{
    let n = s.unicode_len();
    let mut out: Vec<char> = Vec::new();
    let mut i: usize = 0;
    while i < n
        invariant
            i <= n == s@.len(),
            out@ == s@.take(i as int),
        decreases n - i,
    {
        out.push(s.get_char(i));
        assert(out@ =~= s@.take(i as int + 1));
        i = i + 1;
    }
    assert(s@.take(n as int) =~= s@);
    out
}

fn ex_ws(cs: &Vec<char>, pos: usize) -> (r: usize)
    requires
        pos <= cs@.len(),
    ensures
        r as int == sp_ws(cs@, pos as int),
        pos <= r <= cs@.len(),
{
    let mut i = pos;
    while i < cs.len() && cs[i] == ' '
        invariant
            pos <= i <= cs@.len(),
            sp_ws(cs@, pos as int) == sp_ws(cs@, i as int),
        decreases cs@.len() - i,
    {
        i = i + 1;
    }
    i
}

fn ex_ident(cs: &Vec<char>, pos: usize) -> (r: Option<(Vec<char>, usize)>)
    requires
        pos <= cs@.len(),
    ensures
        r is Some <==> sp_ident(cs@, pos as int) is Some,
        r matches Some(idp) ==> sp_ident(cs@, pos as int) == Some((idp.0@, idp.1 as int)) && pos
            < idp.1 <= cs@.len(),
{
    if pos < cs.len() && (((cs[pos] as u32) >= 97 && (cs[pos] as u32) <= 122) || ((cs[pos] as u32)
        >= 65 && (cs[pos] as u32) <= 90) || cs[pos] == '_') {
        let mut e = pos;
        let mut out: Vec<char> = Vec::new();
        while e < cs.len() && ((((cs[e] as u32) >= 97 && (cs[e] as u32) <= 122) || ((cs[e] as u32)
            >= 65 && (cs[e] as u32) <= 90) || cs[e] == '_') || ((cs[e] as u32) >= 48 && (cs[e]
            as u32) <= 57))
            invariant
                pos <= e <= cs@.len(),
                ident_end(cs@, pos as int) == ident_end(cs@, e as int),
                out@ == cs@.subrange(pos as int, e as int),
            decreases cs@.len() - e,
        {
            out.push(cs[e]);
            assert(out@ =~= cs@.subrange(pos as int, e as int + 1));
            e = e + 1;
        }
        assert(ident_end(cs@, e as int) == e);
        assert(e > pos) by {
            assert(is_ident_char(cs@[pos as int]));
        }
        Some((out, e))
    } else {
        None
    }
}

/// Scans a digit run, giving its value unless it exceeds the 64-bit
/// unsigned range.
fn ex_digits(cs: &Vec<char>, pos: usize) -> (r: (Option<u64>, usize))
    requires
        pos <= cs@.len(),
    ensures
        r.1 as int == digit_end(cs@, pos as int),
        pos <= r.1 <= cs@.len(),
        crate::range::all_digits(cs@.subrange(pos as int, r.1 as int)),
        r.0 matches Some(v) ==> v as int == digits_val(cs@.subrange(pos as int, r.1 as int)),
        r.0 is None ==> digits_val(cs@.subrange(pos as int, r.1 as int)) > u64::MAX,
{
    let mut i = pos;
    let mut acc: u64 = 0;
    let mut over = false;
    while i < cs.len() && (cs[i] as u32) >= 48 && (cs[i] as u32) <= 57
        invariant
            pos <= i <= cs@.len(),
            digit_end(cs@, pos as int) == digit_end(cs@, i as int),
            crate::range::all_digits(cs@.subrange(pos as int, i as int)),
            !over ==> acc as int == digits_val(cs@.subrange(pos as int, i as int)),
            over ==> digits_val(cs@.subrange(pos as int, i as int)) > u64::MAX,
        decreases cs@.len() - i,
    {
        let ghost prefix = cs@.subrange(pos as int, i as int);
        let ghost prefix2 = cs@.subrange(pos as int, i as int + 1);
        proof {
            assert(prefix2.drop_last() =~= prefix);
            assert(prefix2.last() == cs@[i as int]);
            assert(digits_val(prefix2) == digits_val(prefix) * 10 + (cs@[i as int] as u32 - 48));
            assert(forall|j: int|
                0 <= j < prefix2.len() ==> #[trigger] prefix2[j] == cs@[pos + j]);
            assert(crate::range::all_digits(prefix2));
        }
        let d = ((cs[i] as u32) - 48) as u64;
        if !over {
            let stepped = match acc.checked_mul(10) {
                Some(t) => t.checked_add(d),
                None => None,
            };
            match stepped {
                Some(a) => {
                    acc = a;
                },
                None => {
                    over = true;
                    proof {
                        crate::range::lemma_digits_val_nonneg(prefix);
                    }
                },
            }
        } else {
            proof {
                crate::range::lemma_digits_val_nonneg(prefix);
            }
        }
        i = i + 1;
    }
    assert(digit_end(cs@, i as int) == i);
    (
        if over {
            None
        } else {
            Some(acc)
        },
        i,
    )
}

fn ex_int(cs: &Vec<char>, pos: usize) -> (r: Option<(i64, usize)>)
    requires
        pos <= cs@.len(),
    ensures
        r is Some <==> sp_int(cs@, pos as int) is Some,
        r matches Some(vp) ==> sp_int(cs@, pos as int) == Some((vp.0 as int, vp.1 as int)) && pos
            < vp.1 <= cs@.len(),
{
    let neg = pos < cs.len() && cs[pos] == '-';
    let p1 = if neg {
        pos + 1
    } else {
        pos
    };
    if p1 < cs.len() && (cs[p1] as u32) >= 48 && (cs[p1] as u32) <= 57 {
        let (val, e) = ex_digits(cs, p1);
        let ghost run = cs@.subrange(p1 as int, e as int);
        assert(e > p1) by {
            assert(is_digit(cs@[p1 as int]));
            assert(digit_end(cs@, p1 as int) == digit_end(cs@, p1 as int + 1));
            lemma_digit_end_bounds(cs@, p1 as int + 1);
        }
        match val {
            Some(v) => {
                if neg {
                    if v <= 0x8000_0000_0000_0000u64 {
                        let x: i64 = if v == 0x8000_0000_0000_0000u64 {
                            i64::MIN
                        } else {
                            -(v as i64)
                        };
                        Some((x, e))
                    } else {
                        None
                    }
                } else {
                    if v <= 0x7fff_ffff_ffff_ffffu64 {
                        Some((v as i64, e))
                    } else {
                        None
                    }
                }
            },
            None => {
                proof {
                    crate::range::lemma_digits_val_nonneg(run);
                }
                None
            },
        }
    } else {
        None
    }
}

fn ex_str_lit(cs: &Vec<char>, pos: usize) -> (r: Option<(Vec<char>, usize)>)
    requires
        pos <= cs@.len(),
    ensures
        r is Some <==> sp_str_lit(cs@, pos as int) is Some,
        r matches Some(lp) ==> sp_str_lit(cs@, pos as int) == Some((lp.0@, lp.1 as int)) && pos
            < lp.1 <= cs@.len(),
{
    if pos < cs.len() && cs[pos] == '\'' {
        let mut e = pos + 1;
        let mut out: Vec<char> = Vec::new();
        while e < cs.len() && cs[e] != '\''
            invariant
                pos + 1 <= e <= cs@.len(),
                quote_end(cs@, pos as int + 1) == quote_end(cs@, e as int),
                out@ == cs@.subrange(pos as int + 1, e as int),
            decreases cs@.len() - e,
        {
            out.push(cs[e]);
            assert(out@ =~= cs@.subrange(pos as int + 1, e as int + 1));
            e = e + 1;
        }
        assert(quote_end(cs@, e as int) == e);
        if e < cs.len() {
            Some((out, e + 1))
        } else {
            None
        }
    } else {
        None
    }
}

fn ex_path_segs(cs: &Vec<char>, pos: usize) -> (r: (Vec<Vec<char>>, usize))
    requires
        pos <= cs@.len(),
    ensures
        sp_path_segs(cs@, pos as int) == (r.0.deep_view(), r.1 as int),
        pos <= r.1 <= cs@.len(),
    decreases cs@.len() - pos,
{
    if pos < cs.len() && cs[pos] == '.' {
        match ex_ident(cs, pos + 1) {
            Some((id, p2)) => {
                let (tail, p3) = ex_path_segs(cs, p2);
                let mut segs = tail;
                let ghost prev = segs.deep_view();
                segs.insert(0, id);
                proof {
                    assert(segs.deep_view() =~~= seq![id@] + prev);
                }
                (segs, p3)
            },
            None => {
                let segs: Vec<Vec<char>> = Vec::new();
                assert(segs.deep_view() =~~= Seq::<Seq<char>>::empty());
                (segs, pos)
            },
        }
    } else {
        let segs: Vec<Vec<char>> = Vec::new();
        assert(segs.deep_view() =~~= Seq::<Seq<char>>::empty());
        (segs, pos)
    }
}

fn ex_attr(cs: &Vec<char>, pos: usize) -> (r: Option<(Vec<Vec<char>>, usize)>)
    requires
        pos <= cs@.len(),
    ensures
        r is Some <==> sp_attr(cs@, pos as int) is Some,
        r matches Some(ap) ==> sp_attr(cs@, pos as int) == Some((ap.0.deep_view(), ap.1 as int))
            && pos < ap.1 <= cs@.len(),
{
    if pos < cs.len() && cs[pos] == '@' {
        let (segs, p2) = ex_path_segs(cs, pos + 1);
        if segs.len() >= 1 {
            assert(segs.deep_view().len() == segs@.len());
            Some((segs, p2))
        } else {
            assert(segs.deep_view().len() == segs@.len());
            None
        }
    } else {
        None
    }
}

fn ex_operand(cs: &Vec<char>, pos: usize) -> (r: Option<(Operand, usize)>)
    requires
        pos <= cs@.len(),
    ensures
        r is Some <==> sp_operand(cs@, pos as int) is Some,
        r matches Some(op) ==> sp_operand(cs@, pos as int) == Some((op.0@, op.1 as int)) && pos
            < op.1 <= cs@.len(),
{
    if pos >= cs.len() {
        None
    } else if cs[pos] == '@' {
        match ex_attr(cs, pos) {
            Some((segs, p2)) => Some((Operand::Attr(segs), p2)),
            None => None,
        }
    } else if cs[pos] == '\'' {
        match ex_str_lit(cs, pos) {
            Some((lit, p2)) => Some((Operand::LitStr(lit), p2)),
            None => None,
        }
    } else if cs[pos] == '-' || ((cs[pos] as u32) >= 48 && (cs[pos] as u32) <= 57) {
        match ex_int(cs, pos) {
            Some((v, p2)) => Some((Operand::LitInt(v), p2)),
            None => None,
        }
    } else if cs.len() - pos >= 4 && cs[pos] == 't' && cs[pos + 1] == 'r' && cs[pos + 2] == 'u'
        && cs[pos + 3] == 'e' {
        assert(cs@.subrange(pos as int, pos as int + 4) =~= seq!['t', 'r', 'u', 'e']);
        Some((Operand::LitBool(true), pos + 4))
    } else if cs.len() - pos >= 5 && cs[pos] == 'f' && cs[pos + 1] == 'a' && cs[pos + 2] == 'l'
        && cs[pos + 3] == 's' && cs[pos + 4] == 'e' {
        assert(cs@.subrange(pos as int, pos as int + 5) =~= seq!['f', 'a', 'l', 's', 'e']);
        Some((Operand::LitBool(false), pos + 5))
    } else if cs.len() - pos >= 4 && cs[pos] == 'n' && cs[pos + 1] == 'u' && cs[pos + 2] == 'l'
        && cs[pos + 3] == 'l' {
        assert(cs@.subrange(pos as int, pos as int + 4) =~= seq!['n', 'u', 'l', 'l']);
        Some((Operand::LitNull, pos + 4))
    } else {
        proof {
            if pos as int + 4 <= cs@.len() {
                if cs@.subrange(pos as int, pos as int + 4) == seq!['t', 'r', 'u', 'e'] {
                    assert(cs@[pos as int] == seq!['t', 'r', 'u', 'e'][0]);
                    assert(cs@[pos as int + 1] == seq!['t', 'r', 'u', 'e'][1]);
                    assert(cs@[pos as int + 2] == seq!['t', 'r', 'u', 'e'][2]);
                    assert(cs@[pos as int + 3] == seq!['t', 'r', 'u', 'e'][3]);
                }
                if cs@.subrange(pos as int, pos as int + 4) == seq!['n', 'u', 'l', 'l'] {
                    assert(cs@[pos as int] == seq!['n', 'u', 'l', 'l'][0]);
                    assert(cs@[pos as int + 1] == seq!['n', 'u', 'l', 'l'][1]);
                    assert(cs@[pos as int + 2] == seq!['n', 'u', 'l', 'l'][2]);
                    assert(cs@[pos as int + 3] == seq!['n', 'u', 'l', 'l'][3]);
                }
            }
            if pos as int + 5 <= cs@.len() {
                if cs@.subrange(pos as int, pos as int + 5) == seq!['f', 'a', 'l', 's', 'e'] {
                    assert(cs@[pos as int] == seq!['f', 'a', 'l', 's', 'e'][0]);
                    assert(cs@[pos as int + 1] == seq!['f', 'a', 'l', 's', 'e'][1]);
                    assert(cs@[pos as int + 2] == seq!['f', 'a', 'l', 's', 'e'][2]);
                    assert(cs@[pos as int + 3] == seq!['f', 'a', 'l', 's', 'e'][3]);
                    assert(cs@[pos as int + 4] == seq!['f', 'a', 'l', 's', 'e'][4]);
                }
            }
        }
        None
    }
}

fn ex_cmp_op(cs: &Vec<char>, pos: usize) -> (r: Option<(CmpOp, usize)>)
    requires
        pos <= cs@.len(),
    ensures
        r is Some <==> sp_cmp_op(cs@, pos as int) is Some,
        r matches Some(op) ==> sp_cmp_op(cs@, pos as int) == Some((op.0, op.1 as int)) && pos
            < op.1 <= cs@.len(),
{
    if pos < cs.len() && cs.len() - pos >= 2 && cs[pos] == '=' && cs[pos + 1] == '=' {
        Some((CmpOp::Eq, pos + 2))
    } else if pos < cs.len() && cs.len() - pos >= 2 && cs[pos] == '!' && cs[pos + 1] == '=' {
        Some((CmpOp::Ne, pos + 2))
    } else if pos < cs.len() && cs.len() - pos >= 2 && cs[pos] == '<' && cs[pos + 1] == '=' {
        Some((CmpOp::Le, pos + 2))
    } else if pos < cs.len() && cs.len() - pos >= 2 && cs[pos] == '>' && cs[pos + 1] == '=' {
        Some((CmpOp::Ge, pos + 2))
    } else if pos < cs.len() && cs[pos] == '<' {
        Some((CmpOp::Lt, pos + 1))
    } else if pos < cs.len() && cs[pos] == '>' {
        Some((CmpOp::Gt, pos + 1))
    } else {
        None
    }
}

fn ex_atom(cs: &Vec<char>, pos: usize) -> (r: Option<(FilterExpr, usize)>)
    requires
        pos <= cs@.len(),
    ensures
        r is Some <==> sp_atom(cs@, pos as int) is Some,
        r matches Some(ep) ==> sp_atom(cs@, pos as int) == Some((ep.0@, ep.1 as int)) && pos < ep.1
            <= cs@.len(),
    decreases cs@.len() - pos, 1int,
{
    let p = ex_ws(cs, pos);
    if p < cs.len() && cs[p] == '!' {
        let p1 = ex_ws(cs, p + 1);
        if p1 < cs.len() && cs[p1] == '(' {
            match ex_or(cs, p1 + 1) {
                Some((e, p2)) => {
                    let p3 = ex_ws(cs, p2);
                    if p3 < cs.len() && cs[p3] == ')' {
                        Some((FilterExpr::Not(Box::new(e)), p3 + 1))
                    } else {
                        None
                    }
                },
                None => None,
            }
        } else {
            None
        }
    } else if p < cs.len() && cs[p] == '(' {
        match ex_or(cs, p + 1) {
            Some((e, p2)) => {
                let p3 = ex_ws(cs, p2);
                if p3 < cs.len() && cs[p3] == ')' {
                    Some((e, p3 + 1))
                } else {
                    None
                }
            },
            None => None,
        }
    } else {
        match ex_operand(cs, p) {
            Some((o1, p1)) => {
                let pw = ex_ws(cs, p1);
                match ex_cmp_op(cs, pw) {
                    Some((op, p2)) => {
                        let p3 = ex_ws(cs, p2);
                        match ex_operand(cs, p3) {
                            Some((o2, p4)) => Some((FilterExpr::Cmp(o1, op, o2), p4)),
                            None => None,
                        }
                    },
                    None => match o1 {
                        Operand::Attr(segs) => Some((FilterExpr::Exists(segs), p1)),
                        _ => None,
                    },
                }
            },
            None => None,
        }
    }
}

fn ex_and_rest(cs: &Vec<char>, acc: FilterExpr, pos: usize) -> (r: (FilterExpr, usize))
    requires
        pos <= cs@.len(),
    ensures
        sp_and_rest(cs@, acc@, pos as int) == (r.0@, r.1 as int),
        pos <= r.1 <= cs@.len(),
    decreases cs@.len() - pos, 0int,
{
    let p = ex_ws(cs, pos);
    if p < cs.len() && cs.len() - p >= 2 && cs[p] == '&' && cs[p + 1] == '&' {
        match ex_atom(cs, p + 2) {
            Some((e2, p2)) => ex_and_rest(cs, FilterExpr::And(Box::new(acc), Box::new(e2)), p2),
            None => (acc, pos),
        }
    } else {
        (acc, pos)
    }
}

fn ex_and(cs: &Vec<char>, pos: usize) -> (r: Option<(FilterExpr, usize)>)
    requires
        pos <= cs@.len(),
    ensures
        r is Some <==> sp_and(cs@, pos as int) is Some,
        r matches Some(ep) ==> sp_and(cs@, pos as int) == Some((ep.0@, ep.1 as int)) && pos < ep.1
            <= cs@.len(),
    decreases cs@.len() - pos, 2int,
{
    match ex_atom(cs, pos) {
        Some((e, p1)) => {
            let (e2, p2) = ex_and_rest(cs, e, p1);
            Some((e2, p2))
        },
        None => None,
    }
}

fn ex_or_rest(cs: &Vec<char>, acc: FilterExpr, pos: usize) -> (r: (FilterExpr, usize))
    requires
        pos <= cs@.len(),
    ensures
        sp_or_rest(cs@, acc@, pos as int) == (r.0@, r.1 as int),
        pos <= r.1 <= cs@.len(),
    decreases cs@.len() - pos, 0int,
{
    let p = ex_ws(cs, pos);
    if p < cs.len() && cs.len() - p >= 2 && cs[p] == '|' && cs[p + 1] == '|' {
        match ex_and(cs, p + 2) {
            Some((e2, p2)) => ex_or_rest(cs, FilterExpr::Or(Box::new(acc), Box::new(e2)), p2),
            None => (acc, pos),
        }
    } else {
        (acc, pos)
    }
}

fn ex_or(cs: &Vec<char>, pos: usize) -> (r: Option<(FilterExpr, usize)>)
    requires
        pos <= cs@.len(),
    ensures
        r is Some <==> sp_or(cs@, pos as int) is Some,
        r matches Some(ep) ==> sp_or(cs@, pos as int) == Some((ep.0@, ep.1 as int)) && pos < ep.1
            <= cs@.len(),
    decreases cs@.len() - pos, 3int,
{
    match ex_and(cs, pos) {
        Some((e, p1)) => {
            let (e2, p2) = ex_or_rest(cs, e, p1);
            Some((e2, p2))
        },
        None => None,
    }
}

fn ex_pos_rest(cs: &Vec<char>, acc: Vec<i64>, pos: usize) -> (r: (Vec<i64>, usize))
    requires
        pos <= cs@.len(),
    ensures
        ({
            let sp = sp_pos_rest(cs@, Seq::new(acc@.len(), |i: int| acc@[i] as int), pos as int);
            sp.0 == Seq::new(r.0@.len(), |i: int| r.0@[i] as int) && sp.1 == r.1 as int
        }),
        pos <= r.1 <= cs@.len(),
    decreases cs@.len() - pos,
{
    let p = ex_ws(cs, pos);
    if p < cs.len() && cs[p] == ',' {
        let p1 = ex_ws(cs, p + 1);
        match ex_int(cs, p1) {
            Some((v, p2)) => {
                let mut acc2 = acc;
                let ghost prev = Seq::new(acc2@.len(), |i: int| acc2@[i] as int);
                acc2.push(v);
                proof {
                    assert(Seq::new(acc2@.len(), |i: int| acc2@[i] as int) =~= prev + seq![
                        v as int,
                    ]);
                }
                ex_pos_rest(cs, acc2, p2)
            },
            None => (acc, pos),
        }
    } else {
        (acc, pos)
    }
}

fn ex_selector(cs: &Vec<char>, pos: usize) -> (r: Option<(Selector, usize)>)
    requires
        pos <= cs@.len(),
    ensures
        r is Some <==> sp_selector(cs@, pos as int) is Some,
        r matches Some(sp) ==> sp_selector(cs@, pos as int) == Some((sp.0@, sp.1 as int)) && pos
            <= sp.1 <= cs@.len(),
{
    let p = ex_ws(cs, pos);
    if p < cs.len() && cs[p] == '*' {
        Some((Selector::All, p + 1))
    } else if p < cs.len() && cs[p] == '?' {
        match ex_or(cs, p + 1) {
            Some((e, p2)) => Some((Selector::Filter(e), p2)),
            None => None,
        }
    } else if p < cs.len() && cs[p] == ':' {
        let p1 = ex_ws(cs, p + 1);
        if p1 < cs.len() && (cs[p1] == '-' || ((cs[p1] as u32) >= 48 && (cs[p1] as u32) <= 57)) {
            match ex_int(cs, p1) {
                Some((b, p2)) => Some((Selector::Slice(None, Some(b)), p2)),
                None => None,
            }
        } else {
            Some((Selector::Slice(None, None), p + 1))
        }
    } else {
        match ex_int(cs, p) {
            Some((a, p1)) => {
                let pw = ex_ws(cs, p1);
                if pw < cs.len() && cs[pw] == ':' {
                    let p2 = ex_ws(cs, pw + 1);
                    if p2 < cs.len() && (cs[p2] == '-' || ((cs[p2] as u32) >= 48 && (cs[p2] as u32)
                        <= 57)) {
                        match ex_int(cs, p2) {
                            Some((b, p3)) => Some((Selector::Slice(Some(a), Some(b)), p3)),
                            None => None,
                        }
                    } else {
                        Some((Selector::Slice(Some(a), None), pw + 1))
                    }
                } else if pw < cs.len() && cs[pw] == ',' {
                    let mut first: Vec<i64> = Vec::new();
                    first.push(a);
                    proof {
                        assert(Seq::new(first@.len(), |i: int| first@[i] as int) =~= seq![
                            a as int,
                        ]);
                    }
                    let (ps, p2) = ex_pos_rest(cs, first, p1);
                    Some((Selector::Positions(ps), p2))
                } else {
                    let mut one: Vec<i64> = Vec::new();
                    one.push(a);
                    proof {
                        assert(Seq::new(one@.len(), |i: int| one@[i] as int) =~= seq![a as int]);
                    }
                    Some((Selector::Positions(one), p1))
                }
            },
            None => None,
        }
    }
}

/// Compiles a query string.  Succeeds exactly when the string derives
/// from the grammar above, and then returns the query it denotes; a
/// malformed string is reported as an invalid query.
pub fn parse_query(q: &str) -> (r: Result<PathQuery, KvStoreError>)
    ensures
        r matches Ok(pq) ==> sp_query(q@) == Some(pq@),
        r is Err <==> sp_query(q@) is None,
        r is Err ==> r matches Err(KvStoreError::InvalidQuery(_)),
{
    let cs = to_chars(q);
    if cs.len() >= 2 && cs[0] == '$' && cs[1] == '[' {
        match ex_selector(&cs, 2) {
            Some((sel, p1)) => {
                let p2 = ex_ws(&cs, p1);
                if p2 < cs.len() && cs[p2] == ']' {
                    let (path, p3) = ex_path_segs(&cs, p2 + 1);
                    let p4 = ex_ws(&cs, p3);
                    if p4 == cs.len() {
                        Ok(PathQuery { selector: sel, path: path })
                    } else {
                        Err(KvStoreError::InvalidQuery("text after the query".to_owned()))
                    }
                } else {
                    Err(KvStoreError::InvalidQuery("unclosed selector bracket".to_owned()))
                }
            },
            None => Err(KvStoreError::InvalidQuery("unrecognized selector".to_owned())),
        }
    } else {
        Err(KvStoreError::InvalidQuery("a query starts with a bracketed selector".to_owned()))
    }
}

} // verus!
