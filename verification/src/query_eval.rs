use vstd::prelude::*;

use crate::codec::{whole_dec, MessagePackSerializer};
use crate::errors::KvStoreError;
use crate::query::{
    chars_lt, cmp_values, eval_filter, eval_operand, field_get, lookup_path, query_results,
    selected_indices, values_equal, values_lt, CmpOp, FilterExpr, Operand, PathQuery, QueryView,
    Selector, SelectorView,
};
use crate::query_parse::{parse_query, sp_query};
use crate::types::KeyValuePair;
use crate::value::{doc_view, DocValue, DocView};
use vstd::string::*;

verus! {

broadcast use
    vstd::std_specs::vec::axiom_vec_index_decreases,
    vstd::std_specs::vec::axiom_vec_decreases_to_view,
    vstd::seq::axiom_seq_index_decreases,
    vstd::seq::axiom_seq_subrange_decreases;

// The query evaluator.  A query runs against the materialized records of
// a collection: every record is decoded, the selector picks positions,
// and each picked record is dereferenced through the trailing attribute
// chain.  Each function here is proved to return exactly what the
// specification functions in `query` describe.

/// The views of a record sequence.
pub open spec fn docs_view(rs: Seq<DocValue>) -> Seq<DocView> {
    Seq::new(rs.len(), |i: int| doc_view(rs[i]))
}

/// Whether every stored byte string decodes.
pub open spec fn all_decodable(evs: Seq<(Seq<char>, Seq<u8>)>) -> bool {
    forall|i: int| 0 <= i < evs.len() ==> whole_dec((#[trigger] evs[i]).1) is Some
}

/// The decoded records of a collection's entries, in iteration order.
pub open spec fn decoded_records(evs: Seq<(Seq<char>, Seq<u8>)>) -> Seq<DocView> {
    Seq::new(evs.len(), |i: int| whole_dec(evs[i].1).unwrap())
}

/// A copy of a character vector.
fn copy_chars(v: &Vec<char>) -> (r: Vec<char>)
    ensures
        r@ == v@,
{
    let mut out: Vec<char> = Vec::new();
    let mut i: usize = 0;
    while i < v.len()
        invariant
            i <= v@.len(),
            out@ == v@.take(i as int),
        decreases v@.len() - i,
    {
        out.push(v[i]);
        assert(out@ =~= v@.take(i as int + 1));
        i = i + 1;
    }
    assert(v@.take(v@.len() as int) =~= v@);
    out
}

/// The characters of a string.
fn string_chars(s: &String) -> (r: Vec<char>)
    ensures
        r@ == s@,
{
    let st = s.as_str();
    let n = st.unicode_len();
    let mut out: Vec<char> = Vec::new();
    let mut i: usize = 0;
    while i < n
        invariant
            i <= n == st@.len(),
            st@ == s@,
            out@ == st@.take(i as int),
        decreases n - i,
    {
        out.push(st.get_char(i));
        assert(out@ =~= st@.take(i as int + 1));
        i = i + 1;
    }
    assert(st@.take(n as int) =~= st@);
    out
}

/// Whether two character vectors hold the same characters.
fn chars_eq(a: &Vec<char>, b: &Vec<char>) -> (r: bool)
    ensures
        r == (a@ == b@),
{
    if a.len() != b.len() {
        return false;
    }
    let mut i: usize = 0;
    while i < a.len()
        invariant
            i <= a@.len() == b@.len(),
            forall|j: int| 0 <= j < i ==> a@[j] == b@[j],
        decreases a@.len() - i,
    {
        if a[i] != b[i] {
            return false;
        }
        i = i + 1;
    }
    proof {
        assert(a@ =~= b@);
    }
    true
}

/// Whether one character vector orders strictly before another.
fn chars_lt_exec(a: &Vec<char>, b: &Vec<char>) -> (r: bool)
    ensures
        r == chars_lt(a@, b@),
{
    let mut i: usize = 0;
    assert(a@.skip(0) =~= a@);
    assert(b@.skip(0) =~= b@);
    loop
        invariant
            i <= a@.len(),
            i <= b@.len(),
            chars_lt(a@, b@) == chars_lt(a@.skip(i as int), b@.skip(i as int)),
        decreases a@.len() - i,
    {
        if i >= b.len() {
            assert(b@.skip(i as int).len() == 0);
            return false;
        }
        if i >= a.len() {
            assert(a@.skip(i as int).len() == 0);
            assert(b@.skip(i as int).len() > 0);
            return true;
        }
        assert(a@.skip(i as int)[0] == a@[i as int]);
        assert(b@.skip(i as int)[0] == b@[i as int]);
        if a[i] != b[i] {
            return (a[i] as u32) < (b[i] as u32);
        }
        proof {
            assert(a@.skip(i as int).drop_first() =~= a@.skip(i as int + 1));
            assert(b@.skip(i as int).drop_first() =~= b@.skip(i as int + 1));
        }
        i = i + 1;
    }
}

/// The scalar shape of a comparison side where the other side is known
/// to be scalar: scalars carry their content, arrays and objects only
/// the fact that they are composite.
enum ScalarVal {
    SNull,
    SBool(bool),
    SInt(i64),
    SStr(Vec<char>),
    SComposite,
}

/// Whether a scalar shape stands for a value.
spec fn sv_wf(s: ScalarVal, v: DocView) -> bool {
    match s {
        ScalarVal::SNull => v is Null,
        ScalarVal::SBool(b) => v == DocView::Bool(b),
        ScalarVal::SInt(i) => v == DocView::Int(i as int),
        ScalarVal::SStr(cs) => v == DocView::Str(cs@),
        ScalarVal::SComposite => v is Arr || v is Obj,
    }
}

/// The scalar shape of a record value.
fn to_scalar(v: &DocValue) -> (r: ScalarVal)
    ensures
        sv_wf(r, v@),
{
    match v {
        DocValue::Null => ScalarVal::SNull,
        DocValue::Bool(b) => ScalarVal::SBool(*b),
        DocValue::Int(i) => ScalarVal::SInt(*i),
        DocValue::Str(s) => ScalarVal::SStr(string_chars(s)),
        DocValue::Arr(_) => ScalarVal::SComposite,
        DocValue::Obj(_) => ScalarVal::SComposite,
    }
}

/// One comparison of two scalar shapes; at least one side must truly be
/// scalar, so that the collapsed composite shape never meets itself.
fn cmp_scalars(a: &ScalarVal, op: CmpOp, b: &ScalarVal, Ghost(va): Ghost<DocView>, Ghost(
    vb,
): Ghost<DocView>) -> (r: bool)
    requires
        sv_wf(*a, va),
        sv_wf(*b, vb),
        !((va is Arr || va is Obj) && (vb is Arr || vb is Obj)),
    ensures
        r == cmp_values(va, op, vb),
{
    let eq: bool = match (a, b) {
        (ScalarVal::SNull, ScalarVal::SNull) => true,
        (ScalarVal::SBool(x), ScalarVal::SBool(y)) => x == y,
        (ScalarVal::SInt(x), ScalarVal::SInt(y)) => x == y,
        (ScalarVal::SStr(x), ScalarVal::SStr(y)) => chars_eq(x, y),
        _ => false,
    };
    assert(eq == values_equal(va, vb));
    let lt: bool = match (a, b) {
        (ScalarVal::SInt(x), ScalarVal::SInt(y)) => x < y,
        (ScalarVal::SStr(x), ScalarVal::SStr(y)) => chars_lt_exec(x, y),
        (ScalarVal::SBool(x), ScalarVal::SBool(y)) => !*x && *y,
        _ => false,
    };
    assert(lt == values_lt(va, vb));
    let gt: bool = match (a, b) {
        (ScalarVal::SInt(x), ScalarVal::SInt(y)) => y < x,
        (ScalarVal::SStr(x), ScalarVal::SStr(y)) => chars_lt_exec(y, x),
        (ScalarVal::SBool(x), ScalarVal::SBool(y)) => !*y && *x,
        _ => false,
    };
    assert(gt == values_lt(vb, va));
    match op {
        CmpOp::Eq => eq,
        CmpOp::Ne => !eq,
        CmpOp::Lt => lt,
        CmpOp::Le => lt || eq,
        CmpOp::Gt => gt,
        CmpOp::Ge => gt || eq,
    }
}

/// The first field under a name, scanning the object in order.
fn field_get_exec<'a>(fields: &'a Vec<(String, DocValue)>, name: &Vec<char>) -> (r: Option<
    &'a DocValue,
>)
    ensures
        r is Some <==> field_get(crate::value::obj_views(fields@), name@) is Some,
        r matches Some(fv) ==> field_get(crate::value::obj_views(fields@), name@) == Some(fv@),
{
    let ghost fvs = crate::value::obj_views(fields@);
    proof {
        crate::value::lemma_obj_views_len(fields@);
    }
    assert(fvs.skip(0) =~= fvs);
    assert forall|j: int| 0 <= j < fvs.len() implies #[trigger] fvs[j] == (
        fields@[j].0@,
        doc_view(fields@[j].1),
    ) by {
        crate::value::lemma_obj_views_index(fields@, j);
    }
    let mut i: usize = 0;
    while i < fields.len()
        invariant
            i <= fields@.len() == fvs.len(),
            fvs == crate::value::obj_views(fields@),
            field_get(fvs, name@) == field_get(fvs.skip(i as int), name@),
            forall|j: int| 0 <= j < fvs.len() ==> #[trigger] fvs[j] == (fields@[j].0@, doc_view(
                fields@[j].1,
            )),
        decreases fields@.len() - i,
    {
        proof {
            assert(fvs.skip(i as int)[0] == fvs[i as int]);
            assert(fvs.skip(i as int).drop_first() =~= fvs.skip(i as int + 1));
        }
        let keych = string_chars(&fields[i].0);
        if chars_eq(&keych, name) {
            return Some(&fields[i].1);
        }
        i = i + 1;
    }
    assert(fvs.skip(fields@.len() as int).len() == 0);
    None
}

/// The value an attribute chain dereferences to, from segment `start`.
fn lookup_exec<'a>(v: &'a DocValue, path: &Vec<Vec<char>>, start: usize) -> (r: Option<
    &'a DocValue,
>)
    requires
        start <= path@.len(),
    ensures
        r is Some <==> lookup_path(v@, path.deep_view().skip(start as int)) is Some,
        r matches Some(fv) ==> lookup_path(v@, path.deep_view().skip(start as int)) == Some(fv@),
    decreases path@.len() - start,
{
    let ghost pv = path.deep_view();
    if start == path.len() {
        assert(pv.skip(start as int).len() == 0);
        Some(v)
    } else {
        proof {
            assert(pv.skip(start as int)[0] == pv[start as int]);
            assert(pv[start as int] == path@[start as int]@);
            assert(pv.skip(start as int).drop_first() =~= pv.skip(start as int + 1));
        }
        match v {
            DocValue::Obj(fields) => {
                match field_get_exec(fields, &path[start]) {
                    Some(fv) => lookup_exec(fv, path, start + 1),
                    None => None,
                }
            },
            _ => None,
        }
    }
}

/// One side of a comparison: an attribute's record value in full, or a
/// literal, which is always scalar.
enum OpVal<'a> {
    Doc(&'a DocValue),
    Lit(ScalarVal),
}

/// Whether a comparison side stands for a value.
spec fn opval_wf(o: OpVal, v: DocView) -> bool {
    match o {
        OpVal::Doc(d) => d@ == v,
        OpVal::Lit(s) => sv_wf(s, v) && !(v is Arr) && !(v is Obj),
    }
}

/// The scalar shape of a comparison side.
fn opval_scalar(o: OpVal<'_>, Ghost(v): Ghost<DocView>) -> (r: ScalarVal)
    requires
        opval_wf(o, v),
    ensures
        sv_wf(r, v),
{
    match o {
        OpVal::Doc(d) => to_scalar(d),
        OpVal::Lit(s) => s,
    }
}

/// Strict order of two record values: defined on the scalar shapes,
/// false elsewhere.
fn doc_lt(a: &DocValue, b: &DocValue) -> (r: bool)
    ensures
        r == values_lt(a@, b@),
{
    proof {
        crate::value::lemma_doc_view_shape(*a);
        crate::value::lemma_doc_view_shape(*b);
    }
    match (a, b) {
        (DocValue::Int(x), DocValue::Int(y)) => x < y,
        (DocValue::Str(x), DocValue::Str(y)) => {
            let xc = string_chars(x);
            let yc = string_chars(y);
            chars_lt_exec(&xc, &yc)
        },
        (DocValue::Bool(x), DocValue::Bool(y)) => !*x && *y,
        _ => false,
    }
}

/// One comparison of two sides: structural equality when both sides are
/// record values, scalar comparison otherwise.
fn cmp_opvals<'a>(a: OpVal<'a>, op: CmpOp, b: OpVal<'a>, Ghost(va): Ghost<DocView>, Ghost(
    vb,
): Ghost<DocView>) -> (r: bool)
    requires
        opval_wf(a, va),
        opval_wf(b, vb),
    ensures
        r == cmp_values(va, op, vb),
{
    match (a, b) {
        (OpVal::Doc(x), OpVal::Doc(y)) => {
            let eq = crate::value::doc_eq(x, y);
            let lt = doc_lt(x, y);
            let gt = doc_lt(y, x);
            match op {
                CmpOp::Eq => eq,
                CmpOp::Ne => !eq,
                CmpOp::Lt => lt,
                CmpOp::Le => lt || eq,
                CmpOp::Gt => gt,
                CmpOp::Ge => gt || eq,
            }
        },
        (av, bv) => {
            let sa = opval_scalar(av, Ghost(va));
            let sb = opval_scalar(bv, Ghost(vb));
            cmp_scalars(&sa, op, &sb, Ghost(va), Ghost(vb))
        },
    }
}

/// The value of an operand for a candidate record.
fn eval_operand_exec<'a>(o: &'a Operand, v: &'a DocValue) -> (r: Option<OpVal<'a>>)
    ensures
        r is Some <==> eval_operand(o@, v@) is Some,
        r matches Some(ov) ==> opval_wf(ov, eval_operand(o@, v@).unwrap()),
{
    match o {
        Operand::Attr(p) => {
            assert(p.deep_view().skip(0) =~= p.deep_view());
            match lookup_exec(v, p, 0) {
                Some(fv) => Some(OpVal::Doc(fv)),
                None => None,
            }
        },
        Operand::LitInt(i) => Some(OpVal::Lit(ScalarVal::SInt(*i))),
        Operand::LitStr(cs) => Some(OpVal::Lit(ScalarVal::SStr(copy_chars(cs)))),
        Operand::LitBool(b) => Some(OpVal::Lit(ScalarVal::SBool(*b))),
        Operand::LitNull => Some(OpVal::Lit(ScalarVal::SNull)),
    }
}

/// Whether a filter holds of a candidate record.
fn eval_filter_exec(e: &FilterExpr, v: &DocValue) -> (r: bool)
    ensures
        r == eval_filter(e@, v@),
    decreases e,
{
    match e {
        FilterExpr::Or(a, b) => {
            if eval_filter_exec(a, v) {
                true
            } else {
                eval_filter_exec(b, v)
            }
        },
        FilterExpr::And(a, b) => {
            if eval_filter_exec(a, v) {
                eval_filter_exec(b, v)
            } else {
                false
            }
        },
        FilterExpr::Not(a) => !eval_filter_exec(a, v),
        FilterExpr::Cmp(x, op, y) => {
            match eval_operand_exec(x, v) {
                Some(xs) => match eval_operand_exec(y, v) {
                    Some(ys) => cmp_opvals(
                        xs,
                        *op,
                        ys,
                        Ghost(eval_operand(x@, v@).unwrap()),
                        Ghost(eval_operand(y@, v@).unwrap()),
                    ),
                    None => false,
                },
                None => false,
            }
        },
        FilterExpr::Exists(p) => {
            assert(p.deep_view().skip(0) =~= p.deep_view());
            match lookup_exec(v, p, 0) {
                Some(fv) => match fv {
                    DocValue::Null => false,
                    _ => true,
                },
                None => false,
            }
        },
    }
}

/// Whether a position was already emitted.
fn holds_position(v: &Vec<usize>, x: usize) -> (r: bool)
    ensures
        r <==> (exists|i: int| 0 <= i < v@.len() && v@[i] == x),
{
    let mut i: usize = 0;
    while i < v.len()
        invariant
            i <= v@.len(),
            forall|j: int| 0 <= j < i ==> v@[j] != x,
        decreases v@.len() - i,
    {
        if v[i] == x {
            return true;
        }
        i = i + 1;
    }
    false
}

/// The record positions a selector picks, in emission order.
#[verifier::loop_isolation(false)]
fn selected_exec(sel: &Selector, records: &Vec<DocValue>) -> (r: Vec<usize>)
    ensures
        Seq::new(r@.len(), |i: int| r@[i] as int) == selected_indices(sel@, docs_view(records@)),
        forall|i: int| 0 <= i < r@.len() ==> r@[i] < records@.len(),
{
    let ghost docs = docs_view(records@);
    let n = records.len();
    match sel {
        Selector::All => {
            let mut out: Vec<usize> = Vec::new();
            let mut i: usize = 0;
            while i < n
                invariant
                    i <= n,
                    out@.len() == i,
                    forall|j: int| 0 <= j < i ==> out@[j] == j,
                decreases n - i,
            {
                out.push(i);
                i = i + 1;
            }
            assert(Seq::new(out@.len(), |i: int| out@[i] as int) =~= selected_indices(
                sel@,
                docs,
            ));
            out
        },
        Selector::Positions(ps) => {
            let mut out: Vec<usize> = Vec::new();
            let ghost pviews = sel@->Positions_0;
            proof {
                assert(pviews.take(0) =~= Seq::<int>::empty());
                assert(Seq::new(out@.len(), |k: int| out@[k] as int)
                    =~= crate::query::positions_indices(pviews.take(0), n as int));
            }
            let mut i: usize = 0;
            while i < ps.len()
                invariant
                    i <= ps@.len(),
                    forall|j: int| 0 <= j < out@.len() ==> out@[j] < records@.len(),
                    Seq::new(out@.len(), |k: int| out@[k] as int)
                        == crate::query::positions_indices(pviews.take(i as int), n as int),
                decreases ps@.len() - i,
            {
                let ghost emitted = Seq::new(out@.len(), |k: int| out@[k] as int);
                proof {
                    assert(pviews.take(i as int + 1).drop_last() =~= pviews.take(i as int));
                    assert(pviews.take(i as int + 1).last() == pviews[i as int]);
                    assert(pviews[i as int] == ps@[i as int] as int);
                }
                let p = ps[i];
                let resolved: i128 = if p >= 0 {
                    p as i128
                } else {
                    n as i128 + p as i128
                };
                if resolved >= 0 && resolved < n as i128 {
                    let rp = resolved as usize;
                    let seen = holds_position(&out, rp);
                    proof {
                        if seen {
                            let j = choose|j: int| 0 <= j < out@.len() && out@[j] == rp;
                            assert(emitted[j] == resolved as int);
                            assert(emitted.contains(resolved as int));
                        } else {
                            assert forall|j: int|
                                0 <= j < emitted.len() implies emitted[j] != resolved as int by {
                                assert(out@[j] != rp);
                            }
                            assert(!emitted.contains(resolved as int));
                        }
                    }
                    if !seen {
                        let ghost prev = out@;
                        out.push(rp);
                        proof {
                            assert(Seq::new(out@.len(), |k: int| out@[k] as int) =~= emitted.push(
                                resolved as int,
                            ));
                        }
                    }
                }
                i = i + 1;
            }
            proof {
                assert(pviews.take(pviews.len() as int) =~= pviews);
            }
            out
        },
        Selector::Slice(a, b) => {
            let lo128: i128 = match a {
                Some(x) => {
                    let rx: i128 = if *x >= 0 {
                        *x as i128
                    } else {
                        n as i128 + *x as i128
                    };
                    if rx < 0 {
                        0
                    } else if rx > n as i128 {
                        n as i128
                    } else {
                        rx
                    }
                },
                None => 0,
            };
            let hi128: i128 = match b {
                Some(x) => {
                    let rx: i128 = if *x >= 0 {
                        *x as i128
                    } else {
                        n as i128 + *x as i128
                    };
                    if rx < 0 {
                        0
                    } else if rx > n as i128 {
                        n as i128
                    } else {
                        rx
                    }
                },
                None => n as i128,
            };
            let lo: usize = lo128 as usize;
            let hi: usize = hi128 as usize;
            let mut out: Vec<usize> = Vec::new();
            if lo < hi {
                let mut i: usize = lo;
                while i < hi
                    invariant
                        lo <= i <= hi,
                        out@.len() == i - lo,
                        forall|j: int| 0 <= j < out@.len() ==> out@[j] == lo + j,
                    decreases hi - i,
                {
                    out.push(i);
                    i = i + 1;
                }
            }
            assert(Seq::new(out@.len(), |i: int| out@[i] as int) =~= selected_indices(
                sel@,
                docs,
            ));
            out
        },
        Selector::Filter(e) => {
            let mut out: Vec<usize> = Vec::new();
            proof {
                assert(Seq::<int>::empty() + crate::query::filter_indices(e@, docs, 0)
                    =~= crate::query::filter_indices(e@, docs, 0));
                assert(Seq::new(0, |k: int| 0int) =~= Seq::<int>::empty());
            }
            let mut i: usize = 0;
            while i < n
                invariant
                    i <= n,
                    forall|j: int| 0 <= j < out@.len() ==> out@[j] < records@.len(),
                    crate::query::filter_indices(e@, docs, 0) == Seq::new(
                        out@.len(),
                        |k: int| out@[k] as int,
                    ) + crate::query::filter_indices(e@, docs, i as int),
                decreases n - i,
            {
                assert(docs[i as int] == doc_view(records@[i as int]));
                if eval_filter_exec(e, &records[i]) {
                    let ghost prev = out@;
                    out.push(i);
                    proof {
                        assert(Seq::new(out@.len(), |k: int| out@[k] as int) =~= Seq::new(
                            prev.len(),
                            |k: int| prev[k] as int,
                        ) + seq![i as int]);
                    }
                }
                i = i + 1;
            }
            proof {
                assert(crate::query::filter_indices(e@, docs, n as int) =~= Seq::<int>::empty());
                assert(Seq::new(out@.len(), |k: int| out@[k] as int) + Seq::<int>::empty()
                    =~= Seq::new(out@.len(), |k: int| out@[k] as int));
            }
            out
        },
    }
}

/// Positions as mathematical integers.
pub open spec fn idx_ints(s: Seq<usize>) -> Seq<int> {
    Seq::new(s.len(), |i: int| s[i] as int)
}

/// Survivor pairs as mathematical pairs.
pub open spec fn pair_views(s: Seq<(usize, DocValue)>) -> Seq<(int, DocView)> {
    Seq::new(s.len(), |i: int| (s[i].0 as int, doc_view(s[i].1)))
}

/// Dereferences each selected record through the trailing chain,
/// keeping survivors with the positions they came from.
#[verifier::loop_isolation(false)]
fn project_exec(records: &Vec<DocValue>, idxs: &Vec<usize>, path: &Vec<Vec<char>>) -> (r: Vec<
    (usize, DocValue),
>)
    requires
        forall|i: int| 0 <= i < idxs@.len() ==> idxs@[i] < records@.len(),
    ensures
        pair_views(r@) == crate::query::project_indices(
            docs_view(records@),
            idx_ints(idxs@),
            path.deep_view(),
        ),
        forall|i: int| 0 <= i < r@.len() ==> (#[trigger] r@[i]).0 < records@.len(),
{
    let ghost docs = docs_view(records@);
    let ghost ints = idx_ints(idxs@);
    let ghost pv = path.deep_view();
    let mut out: Vec<(usize, DocValue)> = Vec::new();
    proof {
        assert(ints.skip(0) =~= ints);
        assert(pair_views(out@) =~= Seq::<(int, DocView)>::empty());
        assert(Seq::<(int, DocView)>::empty() + crate::query::project_indices(docs, ints, pv)
            =~= crate::query::project_indices(docs, ints, pv));
    }
    let mut k: usize = 0;
    while k < idxs.len()
        invariant
            k <= idxs@.len(),
            forall|i: int| 0 <= i < out@.len() ==> (#[trigger] out@[i]).0 < records@.len(),
            crate::query::project_indices(docs, ints, pv) == pair_views(out@)
                + crate::query::project_indices(docs, ints.skip(k as int), pv),
        decreases idxs@.len() - k,
    {
        proof {
            assert(ints.skip(k as int)[0] == ints[k as int]);
            assert(ints[k as int] == idxs@[k as int] as int);
            assert(ints.skip(k as int).drop_first() =~= ints.skip(k as int + 1));
            assert(docs[idxs@[k as int] as int] == doc_view(records@[idxs@[k as int] as int]));
        }
        let idx = idxs[k];
        match lookup_exec(&records[idx], path, 0) {
            Some(fv) => {
                proof {
                    assert(pv.skip(0) =~= pv);
                }
                let c = fv.clone();
                let ghost prev = out@;
                out.push((idx, c));
                proof {
                    assert(pair_views(out@) =~= pair_views(prev) + seq![
                        (idx as int, doc_view(c)),
                    ]);
                }
            },
            None => {
                proof {
                    assert(pv.skip(0) =~= pv);
                }
            },
        }
        k = k + 1;
    }
    proof {
        assert(ints.skip(idxs@.len() as int).len() == 0);
        assert(pair_views(out@) + Seq::<(int, DocView)>::empty() =~= pair_views(out@));
    }
    out
}

/// Every survivor's position points into the records.
pub proof fn lemma_project_range(records: Seq<DocView>, idxs: Seq<int>, path: Seq<Seq<char>>)
    ensures
        forall|i: int|
            0 <= i < crate::query::project_indices(records, idxs, path).len() ==> 0 <= (
            #[trigger] crate::query::project_indices(records, idxs, path)[i]).0 < records.len(),
    decreases idxs.len(),
{
    if idxs.len() > 0 {
        lemma_project_range(records, idxs.drop_first(), path);
        let rest = crate::query::project_indices(records, idxs.drop_first(), path);
        let whole = crate::query::project_indices(records, idxs, path);
        if 0 <= idxs[0] < records.len() {
            match lookup_path(records[idxs[0]], path) {
                Some(v) => {
                    assert(whole == seq![(idxs[0], v)] + rest);
                    assert forall|i: int| 0 <= i < whole.len() implies 0 <= (
                    #[trigger] whole[i]).0 < records.len() by {
                        if i > 0 {
                            assert(whole[i] == rest[i - 1]);
                        }
                    }
                },
                None => {},
            }
        }
    }
}

/// Evaluates a query over a collection's materialized entries and
/// returns the selected records.  A malformed query is reported before
/// any record is read; a record that does not decode fails the whole
/// call; otherwise the result is exactly what the query denotes over the
/// decoded record sequence.
#[verifier::loop_isolation(false)]
pub fn query_records(entries: &Vec<(String, Vec<u8>)>, query: &str) -> (r: Result<
    Vec<DocValue>,
    KvStoreError,
>)
    ensures
        ({
            let q = sp_query(query@);
            let evs = crate::range::entry_views(entries@);
            &&& (q is None <==> r matches Err(KvStoreError::InvalidQuery(_)))
            &&& (q is Some ==> ((!all_decodable(evs)) <==> r matches Err(
                KvStoreError::DeserializationError(_),
            )))
            &&& (q is Some && all_decodable(evs) ==> r is Ok)
            &&& (r matches Ok(vs) ==> q is Some && all_decodable(evs) && {
                let res = query_results(q.unwrap(), decoded_records(evs));
                vs@.len() == res.len() && (forall|i: int|
                    0 <= i < res.len() ==> doc_view(vs@[i]) == (#[trigger] res[i]).1)
            })
        }),
{
    let pairs = match query_survivors(entries, query) {
        Ok(ps) => ps,
        Err(e) => {
            return Err(e);
        },
    };
    let mut out: Vec<DocValue> = Vec::new();
    let mut j: usize = 0;
    while j < pairs.len()
        invariant
            j <= pairs@.len(),
            out@.len() == j,
            forall|i: int| 0 <= i < j ==> doc_view(out@[i]) == doc_view(
                (#[trigger] pairs@[i]).1,
            ),
        decreases pairs@.len() - j,
    {
        let c = pairs[j].1.clone();
        out.push(c);
        j = j + 1;
    }
    assert(forall|i: int|
        0 <= i < pairs@.len() ==> (#[trigger] pair_views(pairs@)[i]).1 == doc_view(pairs@[i].1));
    Ok(out)
}

/// Evaluates a query and returns each selected record together with the
/// collection key of the record it came from.
#[verifier::loop_isolation(false)]
pub fn query_records_with_keys(entries: &Vec<(String, Vec<u8>)>, query: &str) -> (r: Result<
    Vec<KeyValuePair<DocValue>>,
    KvStoreError,
>)
    ensures
        ({
            let q = sp_query(query@);
            let evs = crate::range::entry_views(entries@);
            &&& (q is None <==> r matches Err(KvStoreError::InvalidQuery(_)))
            &&& (q is Some ==> ((!all_decodable(evs)) <==> r matches Err(
                KvStoreError::DeserializationError(_),
            )))
            &&& (q is Some && all_decodable(evs) ==> r is Ok)
            &&& (r matches Ok(kvs) ==> q is Some && all_decodable(evs) && {
                let res = query_results(q.unwrap(), decoded_records(evs));
                kvs@.len() == res.len() && (forall|i: int|
                    0 <= i < res.len() ==> (#[trigger] kvs@[i]).key@ == evs[res[i].0].0
                        && doc_view(kvs@[i].value) == res[i].1)
            })
        }),
{
    let ghost evs = crate::range::entry_views(entries@);
    let pairs = match query_survivors(entries, query) {
        Ok(ps) => ps,
        Err(e) => {
            return Err(e);
        },
    };
    let mut out: Vec<KeyValuePair<DocValue>> = Vec::new();
    let mut j: usize = 0;
    while j < pairs.len()
        invariant
            j <= pairs@.len(),
            out@.len() == j,
            forall|i: int| 0 <= i < pairs@.len() ==> (#[trigger] pairs@[i]).0 < entries@.len(),
            forall|i: int|
                0 <= i < j ==> (#[trigger] out@[i]).key@ == entries@[pairs@[i].0 as int].0@
                    && doc_view(out@[i].value) == doc_view(pairs@[i].1),
        decreases pairs@.len() - j,
    {
        let idx = pairs[j].0;
        let key = entries[idx].0.clone();
        let value = pairs[j].1.clone();
        out.push(KeyValuePair { key: key, value: value });
        j = j + 1;
    }
    assert(forall|i: int|
        0 <= i < pairs@.len() ==> (#[trigger] pair_views(pairs@)[i]).1 == doc_view(pairs@[i].1)
            && pair_views(pairs@)[i].0 == pairs@[i].0 as int);
    assert(forall|i: int| 0 <= i < evs.len() ==> (#[trigger] evs[i]).0 == entries@[i].0@);
    Ok(out)
}

/// The shared body of the two query calls: compile, decode every
/// record, select and project.
#[verifier::loop_isolation(false)]
fn query_survivors(entries: &Vec<(String, Vec<u8>)>, query: &str) -> (r: Result<
    Vec<(usize, DocValue)>,
    KvStoreError,
>)
    ensures
        ({
            let q = sp_query(query@);
            let evs = crate::range::entry_views(entries@);
            &&& (q is None <==> r matches Err(KvStoreError::InvalidQuery(_)))
            &&& (q is Some ==> ((!all_decodable(evs)) <==> r matches Err(
                KvStoreError::DeserializationError(_),
            )))
            &&& (q is Some && all_decodable(evs) ==> r is Ok)
            &&& (r matches Ok(ps) ==> q is Some && all_decodable(evs) && pair_views(ps@)
                == query_results(q.unwrap(), decoded_records(evs)) && (forall|i: int|
                0 <= i < ps@.len() ==> (#[trigger] ps@[i]).0 < evs.len()))
        }),
{
    let ghost evs = crate::range::entry_views(entries@);
    let pq = match parse_query(query) {
        Ok(p) => p,
        Err(e) => {
            return Err(e);
        },
    };
    let codec = MessagePackSerializer;
    let mut records: Vec<DocValue> = Vec::new();
    let mut i: usize = 0;
    while i < entries.len()
        invariant
            i <= entries@.len() == evs.len(),
            records@.len() == i,
            forall|j: int|
                0 <= j < i ==> whole_dec((#[trigger] evs[j]).1) == Some(doc_view(records@[j])),
        decreases entries@.len() - i,
    {
        assert(evs[i as int].1 == entries@[i as int].1@);
        match codec.deserialize(entries[i].1.as_slice()) {
            Ok(v) => {
                records.push(v);
            },
            Err(e) => {
                assert(whole_dec(evs[i as int].1) is None);
                return Err(e);
            },
        }
        i = i + 1;
    }
    assert(docs_view(records@) =~= decoded_records(evs));
    let idxs = selected_exec(&pq.selector, &records);
    let pairs = project_exec(&records, &idxs, &pq.path);
    proof {
        assert(idx_ints(idxs@) =~= Seq::new(idxs@.len(), |i: int| idxs@[i] as int));
    }
    Ok(pairs)
}

/// The wildcard query `$[*]` compiles to the selector that takes every
/// record with no trailing chain.
pub proof fn lemma_wildcard_parse()
    ensures
        ({
            let q = sp_query("$[*]"@);
            q matches Some(qv) && qv.selector is All && qv.path.len() == 0
        }),
{
    reveal_strlit("$[*]");
    let s = "$[*]"@;
    assert(s.len() == 4);
    assert(s[0] == '$' && s[1] == '[' && s[2] == '*' && s[3] == ']');
    assert(crate::query_parse::sp_ws(s, 2) == 2);
    assert(crate::query_parse::sp_selector(s, 2) == Some((SelectorView::All, 3int)));
    assert(crate::query_parse::sp_ws(s, 3) == 3);
    assert(crate::query_parse::sp_path_segs(s, 4) == (Seq::<Seq<char>>::empty(), 4int));
    assert(crate::query_parse::sp_ws(s, 4) == 4);
}

/// The wildcard query returns the same records as a full forward range
/// scan: every decoded record, in the collection's iteration order.
pub proof fn lemma_wildcard_equals_forward_scan(
    evs: Seq<(Seq<char>, Seq<u8>)>,
    from: Seq<char>,
    to: Seq<char>,
    limit: int,
)
    requires
        crate::range::start_bound(from, evs.len() as int) == 0,
        crate::range::end_bound(to, evs.len() as int) == evs.len(),
        limit >= evs.len(),
        all_decodable(evs),
    ensures
        ({
            let q = sp_query("$[*]"@);
            let res = query_results(q.unwrap(), decoded_records(evs));
            let sel = crate::range::selected(evs, from, to, limit, crate::types::Direction::Forward);
            &&& res.len() == sel.len()
            &&& forall|i: int|
                0 <= i < res.len() ==> whole_dec((#[trigger] sel[i]).1) == Some(res[i].1)
        }),
{
    lemma_wildcard_parse();
    let q = sp_query("$[*]"@).unwrap();
    let records = decoded_records(evs);
    assert(q.path =~= Seq::<Seq<char>>::empty());
    crate::query::lemma_wildcard_selects_all(records);
    assert(query_results(QueryView { selector: SelectorView::All, path: Seq::empty() }, records)
        == query_results(q, records));
    crate::range::lemma_full_forward_scan(evs, from, to, limit);
}

} // verus!
