use vstd::prelude::*;

use crate::value::DocView;

verus! {

// The path-query language.  A query addresses the materialized sequence
// of a collection's records:
//
//   $[*]            every record
//   $[i]            the record at position i; negative counts from the end
//   $[i,j,...]      the union of the listed positions, in listing
//                   order, each position at most once
//   $[a:b]          the half-open ordinal range; either bound may be
//                   absent, negative bounds count from the end
//   $[?expr]        the records whose filter expression is true
//
// and may end with an attribute chain `.name.sub` that every selected
// record is dereferenced through; records lacking the chain are dropped.
// Inside a filter, `@.attr` names an attribute of the candidate record;
// comparisons are defined on numbers, strings and booleans; `&&`, `||`
// and `!(...)` combine filters; a bare `@.attr` is true when the
// attribute is present and not null.

/// The comparison operators of a filter.
#[derive(Debug, Clone, Copy, PartialEq, Eq, Structural)]
pub enum CmpOp {
    Eq,
    Ne,
    Lt,
    Le,
    Gt,
    Ge,
}

/// One side of a comparison: an attribute of the candidate record, or a
/// literal.
#[derive(Debug)]
pub enum Operand {
    Attr(Vec<Vec<char>>),
    LitInt(i64),
    LitStr(Vec<char>),
    LitBool(bool),
    LitNull,
}

/// A filter expression.
#[derive(Debug)]
pub enum FilterExpr {
    Or(Box<FilterExpr>, Box<FilterExpr>),
    And(Box<FilterExpr>, Box<FilterExpr>),
    Not(Box<FilterExpr>),
    Cmp(Operand, CmpOp, Operand),
    Exists(Vec<Vec<char>>),
}

/// What the bracket of a query selects.
#[derive(Debug)]
pub enum Selector {
    All,
    Positions(Vec<i64>),
    Slice(Option<i64>, Option<i64>),
    Filter(FilterExpr),
}

/// A compiled query: a selector and the trailing attribute chain.
#[derive(Debug)]
pub struct PathQuery {
    pub selector: Selector,
    pub path: Vec<Vec<char>>,
}

/// The mathematical form of an operand.
pub enum OperandView {
    Attr(Seq<Seq<char>>),
    LitInt(int),
    LitStr(Seq<char>),
    LitBool(bool),
    LitNull,
}

/// The mathematical form of a filter expression.
pub enum FilterView {
    Or(Box<FilterView>, Box<FilterView>),
    And(Box<FilterView>, Box<FilterView>),
    Not(Box<FilterView>),
    Cmp(OperandView, CmpOp, OperandView),
    Exists(Seq<Seq<char>>),
}

/// The mathematical form of a selector.
pub enum SelectorView {
    All,
    Positions(Seq<int>),
    Slice(Option<int>, Option<int>),
    Filter(FilterView),
}

/// The mathematical form of a compiled query.
pub struct QueryView {
    pub selector: SelectorView,
    pub path: Seq<Seq<char>>,
}

impl View for Operand {
    type V = OperandView;

    open spec fn view(&self) -> OperandView {
        match self {
            Operand::Attr(p) => OperandView::Attr(p.deep_view()),
            Operand::LitInt(i) => OperandView::LitInt(*i as int),
            Operand::LitStr(s) => OperandView::LitStr(s@),
            Operand::LitBool(b) => OperandView::LitBool(*b),
            Operand::LitNull => OperandView::LitNull,
        }
    }
}

impl View for FilterExpr {
    type V = FilterView;

    open spec fn view(&self) -> FilterView
        decreases self,
    {
        match self {
            FilterExpr::Or(a, b) => FilterView::Or(Box::new((**a)@), Box::new((**b)@)),
            FilterExpr::And(a, b) => FilterView::And(Box::new((**a)@), Box::new((**b)@)),
            FilterExpr::Not(a) => FilterView::Not(Box::new((**a)@)),
            FilterExpr::Cmp(a, op, b) => FilterView::Cmp(a@, *op, b@),
            FilterExpr::Exists(p) => FilterView::Exists(p.deep_view()),
        }
    }
}

impl View for Selector {
    type V = SelectorView;

    open spec fn view(&self) -> SelectorView {
        match self {
            Selector::All => SelectorView::All,
            Selector::Positions(ps) => SelectorView::Positions(
                Seq::new(ps@.len(), |i: int| ps@[i] as int),
            ),
            Selector::Slice(a, b) => SelectorView::Slice(
                match a {
                    Some(x) => Some(*x as int),
                    None => None,
                },
                match b {
                    Some(x) => Some(*x as int),
                    None => None,
                },
            ),
            Selector::Filter(e) => SelectorView::Filter(e@),
        }
    }
}

impl View for PathQuery {
    type V = QueryView;

    open spec fn view(&self) -> QueryView {
        QueryView { selector: self.selector@, path: self.path.deep_view() }
    }
}

/// The first field of the object under the given name, if any.
pub open spec fn field_get(fields: Seq<(Seq<char>, DocView)>, name: Seq<char>) -> Option<DocView>
    decreases fields.len(),
{
    if fields.len() == 0 {
        None
    } else if fields[0].0 == name {
        Some(fields[0].1)
    } else {
        field_get(fields.drop_first(), name)
    }
}

/// The value an attribute chain dereferences to, if every step names a
/// field of an object.
pub open spec fn lookup_path(v: DocView, path: Seq<Seq<char>>) -> Option<DocView>
    decreases path.len(),
{
    if path.len() == 0 {
        Some(v)
    } else {
        match v {
            DocView::Obj(fields) => match field_get(fields, path[0]) {
                Some(fv) => lookup_path(fv, path.drop_first()),
                None => None,
            },
            _ => None,
        }
    }
}

/// Strict character-wise lexicographic order on strings.  For UTF-8
/// encoded strings this agrees with byte order.
pub open spec fn chars_lt(a: Seq<char>, b: Seq<char>) -> bool
    decreases a.len(),
{
    if b.len() == 0 {
        false
    } else if a.len() == 0 {
        true
    } else if a[0] != b[0] {
        (a[0] as u32) < (b[0] as u32)
    } else {
        chars_lt(a.drop_first(), b.drop_first())
    }
}

/// Equality of two selection values: structural, on every shape.
/// Scalars compare by content, arrays and objects element by element;
/// values of different shapes are unequal.
pub open spec fn values_equal(a: DocView, b: DocView) -> bool {
    a == b
}

/// Strict order of two selection values: integers numerically, strings
/// lexicographically, booleans with false before true; everything else,
/// and mixed shapes, are unordered.
pub open spec fn values_lt(a: DocView, b: DocView) -> bool {
    match (a, b) {
        (DocView::Int(x), DocView::Int(y)) => x < y,
        (DocView::Str(x), DocView::Str(y)) => chars_lt(x, y),
        (DocView::Bool(x), DocView::Bool(y)) => !x && y,
        _ => false,
    }
}

/// The outcome of one comparison.
pub open spec fn cmp_values(a: DocView, op: CmpOp, b: DocView) -> bool {
    match op {
        CmpOp::Eq => values_equal(a, b),
        CmpOp::Ne => !values_equal(a, b),
        CmpOp::Lt => values_lt(a, b),
        CmpOp::Le => values_lt(a, b) || values_equal(a, b),
        CmpOp::Gt => values_lt(b, a),
        CmpOp::Ge => values_lt(b, a) || values_equal(a, b),
    }
}

/// The value of an operand for a candidate record, absent when an
/// attribute chain does not resolve.
pub open spec fn eval_operand(o: OperandView, v: DocView) -> Option<DocView> {
    match o {
        OperandView::Attr(p) => lookup_path(v, p),
        OperandView::LitInt(i) => Some(DocView::Int(i)),
        OperandView::LitStr(s) => Some(DocView::Str(s)),
        OperandView::LitBool(b) => Some(DocView::Bool(b)),
        OperandView::LitNull => Some(DocView::Null),
    }
}

/// Whether a filter holds of a candidate record.  A comparison with an
/// unresolvable attribute is false; a bare attribute chain is true when
/// it resolves to a non-null value.
pub open spec fn eval_filter(e: FilterView, v: DocView) -> bool
    decreases e,
{
    match e {
        FilterView::Or(a, b) => eval_filter(*a, v) || eval_filter(*b, v),
        FilterView::And(a, b) => eval_filter(*a, v) && eval_filter(*b, v),
        FilterView::Not(a) => !eval_filter(*a, v),
        FilterView::Cmp(x, op, y) => match (eval_operand(x, v), eval_operand(y, v)) {
            (Some(xv), Some(yv)) => cmp_values(xv, op, yv),
            _ => false,
        },
        FilterView::Exists(p) => match lookup_path(v, p) {
            Some(pv) => !(pv is Null),
            None => false,
        },
    }
}

/// A position resolved against the record count: negative positions
/// count from the end.
pub open spec fn resolve_pos(p: int, n: int) -> int {
    if p >= 0 {
        p
    } else {
        n + p
    }
}

/// The valid resolved positions of a listing, in listing order.  The
/// listing is a union: a position several mentions resolve to is
/// emitted once, at its first mention's place.
pub open spec fn positions_indices(ps: Seq<int>, n: int) -> Seq<int>
    decreases ps.len(),
{
    if ps.len() == 0 {
        Seq::empty()
    } else {
        let prefix = positions_indices(ps.drop_last(), n);
        let r = resolve_pos(ps.last(), n);
        if 0 <= r < n && !prefix.contains(r) {
            prefix.push(r)
        } else {
            prefix
        }
    }
}

/// A listing's resolved positions are distinct and lie within the
/// records.
proof fn lemma_positions_indices_distinct(ps: Seq<int>, n: int)
    ensures
        positions_indices(ps, n).no_duplicates(),
        forall|i: int|
            0 <= i < positions_indices(ps, n).len() ==> 0 <= #[trigger] positions_indices(
                ps,
                n,
            )[i] < n,
    decreases ps.len(),
{
    if ps.len() > 0 {
        lemma_positions_indices_distinct(ps.drop_last(), n);
        let prefix = positions_indices(ps.drop_last(), n);
        let x = resolve_pos(ps.last(), n);
        let whole = positions_indices(ps, n);
        if 0 <= x < n && !prefix.contains(x) {
            assert(whole == prefix.push(x));
            assert forall|i: int| 0 <= i < prefix.len() implies prefix[i] != x by {
                if prefix[i] == x {
                    assert(prefix.contains(x));
                }
            }
            assert forall|i: int, j: int|
                0 <= i < whole.len() && 0 <= j < whole.len() && i != j implies whole[i]
                != whole[j] by {
                if i < prefix.len() && j < prefix.len() {
                    assert(prefix[i] != prefix[j]);
                }
            }
        }
    }
}

/// A sequence of distinct positions within a range is no longer than
/// the range.
proof fn lemma_distinct_positions_count(r: Seq<int>, n: int)
    requires
        0 <= n,
        r.no_duplicates(),
        forall|i: int| 0 <= i < r.len() ==> 0 <= #[trigger] r[i] < n,
    ensures
        r.len() <= n,
{
    r.unique_seq_to_set();
    assert forall|x: int| r.to_set().contains(x) implies vstd::set_lib::set_int_range(
        0,
        n,
    ).contains(x) by {
        assert(r.contains(x));
        let i = choose|i: int| 0 <= i < r.len() && r[i] == x;
        assert(0 <= r[i] < n);
    }
    assert(r.to_set().subset_of(vstd::set_lib::set_int_range(0, n)));
    vstd::set_lib::lemma_int_range(0, n);
    vstd::set_lib::lemma_len_subset(r.to_set(), vstd::set_lib::set_int_range(0, n));
}

/// A listing is a union: it addresses distinct records within the
/// collection, never more of them than the collection holds.
pub proof fn lemma_positions_union(ps: Seq<int>, n: int)
    requires
        0 <= n,
    ensures
        positions_indices(ps, n).no_duplicates(),
        forall|i: int|
            0 <= i < positions_indices(ps, n).len() ==> 0 <= #[trigger] positions_indices(
                ps,
                n,
            )[i] < n,
        positions_indices(ps, n).len() <= n,
{
    lemma_positions_indices_distinct(ps, n);
    lemma_distinct_positions_count(positions_indices(ps, n), n);
}

/// A slice bound resolved against the record count and clamped to it.
pub open spec fn slice_bound(b: Option<int>, n: int, absent: int) -> int {
    match b {
        Some(x) => {
            let r = resolve_pos(x, n);
            if r < 0 {
                0
            } else if r > n {
                n
            } else {
                r
            }
        },
        None => absent,
    }
}

/// The indices a filter keeps, scanning from position `i`.
pub open spec fn filter_indices(e: FilterView, records: Seq<DocView>, i: int) -> Seq<int>
    decreases records.len() - i,
{
    if i < 0 || i >= records.len() {
        Seq::empty()
    } else {
        (if eval_filter(e, records[i]) {
            seq![i]
        } else {
            Seq::empty()
        }) + filter_indices(e, records, i + 1)
    }
}

/// The record positions a selector picks, in emission order.
pub open spec fn selected_indices(sel: SelectorView, records: Seq<DocView>) -> Seq<int> {
    let n = records.len() as int;
    match sel {
        SelectorView::All => Seq::new(records.len(), |i: int| i),
        SelectorView::Positions(ps) => positions_indices(ps, n),
        SelectorView::Slice(a, b) => {
            let lo = slice_bound(a, n, 0);
            let hi = slice_bound(b, n, n);
            if lo < hi {
                Seq::new((hi - lo) as nat, |i: int| lo + i)
            } else {
                Seq::empty()
            }
        },
        SelectorView::Filter(e) => filter_indices(e, records, 0),
    }
}

/// A filter's kept indices, scanning from `i`, are at least `i`,
/// within the records, and strictly ascending.
proof fn lemma_filter_indices_distinct(e: FilterView, records: Seq<DocView>, i: int)
    ensures
        forall|k: int|
            0 <= k < filter_indices(e, records, i).len() ==> i <= #[trigger] filter_indices(
                e,
                records,
                i,
            )[k] < records.len(),
        filter_indices(e, records, i).no_duplicates(),
    decreases records.len() - i,
{
    if 0 <= i < records.len() {
        lemma_filter_indices_distinct(e, records, i + 1);
        let rest = filter_indices(e, records, i + 1);
        let whole = filter_indices(e, records, i);
        if eval_filter(e, records[i]) {
            assert(whole == seq![i] + rest);
            assert forall|k: int, l: int|
                0 <= k < whole.len() && 0 <= l < whole.len() && k != l implies whole[k]
                != whole[l] by {
                if k > 0 && l > 0 {
                    assert(whole[k] == rest[k - 1]);
                    assert(whole[l] == rest[l - 1]);
                }
            }
        }
    }
}

/// Every selector addresses distinct records within the collection:
/// no position repeats, and never more positions than records.
pub proof fn lemma_selected_indices_distinct(sel: SelectorView, records: Seq<DocView>)
    ensures
        selected_indices(sel, records).no_duplicates(),
        forall|i: int|
            0 <= i < selected_indices(sel, records).len() ==> 0 <= #[trigger] selected_indices(
                sel,
                records,
            )[i] < records.len(),
        selected_indices(sel, records).len() <= records.len(),
{
    let n = records.len() as int;
    match sel {
        SelectorView::All => {},
        SelectorView::Positions(ps) => {
            lemma_positions_union(ps, n);
        },
        SelectorView::Slice(a, b) => {},
        SelectorView::Filter(e) => {
            lemma_filter_indices_distinct(e, records, 0);
            lemma_distinct_positions_count(selected_indices(sel, records), n);
        },
    }
}

/// Projection keeps at most one survivor per selected position, each
/// drawn from the positions it was given.
proof fn lemma_project_indices_distinct(
    records: Seq<DocView>,
    idxs: Seq<int>,
    path: Seq<Seq<char>>,
)
    requires
        idxs.no_duplicates(),
    ensures
        project_indices(records, idxs, path).len() <= idxs.len(),
        forall|i: int|
            0 <= i < project_indices(records, idxs, path).len() ==> idxs.contains(
                (#[trigger] project_indices(records, idxs, path)[i]).0,
            ),
        forall|i: int, j: int|
            0 <= i < project_indices(records, idxs, path).len() && 0 <= j < project_indices(
                records,
                idxs,
                path,
            ).len() && i != j ==> project_indices(records, idxs, path)[i].0 != project_indices(
                records,
                idxs,
                path,
            )[j].0,
    decreases idxs.len(),
{
    if idxs.len() > 0 {
        let tail = idxs.drop_first();
        assert(tail.no_duplicates()) by {
            assert(forall|k: int| 0 <= k < tail.len() ==> #[trigger] tail[k] == idxs[k + 1]);
        }
        lemma_project_indices_distinct(records, tail, path);
        let rest = project_indices(records, tail, path);
        let whole = project_indices(records, idxs, path);
        assert forall|i: int| 0 <= i < rest.len() implies idxs.contains(
            (#[trigger] rest[i]).0,
        ) by {
            assert(tail.contains(rest[i].0));
            let k = choose|k: int| 0 <= k < tail.len() && tail[k] == rest[i].0;
            assert(idxs[k + 1] == tail[k]);
        }
        if 0 <= idxs[0] < records.len() && lookup_path(records[idxs[0]], path) is Some {
            let v = lookup_path(records[idxs[0]], path).unwrap();
            assert(whole == seq![(idxs[0], v)] + rest);
            assert forall|i: int| 0 <= i < rest.len() implies rest[i].0 != idxs[0] by {
                assert(tail.contains(rest[i].0));
                let k = choose|k: int| 0 <= k < tail.len() && tail[k] == rest[i].0;
                assert(idxs[k + 1] == tail[k]);
            }
            assert forall|i: int, j: int|
                0 <= i < whole.len() && 0 <= j < whole.len() && i != j implies whole[i].0
                != whole[j].0 by {
                if i > 0 && j > 0 {
                    assert(whole[i] == rest[i - 1]);
                    assert(whole[j] == rest[j - 1]);
                }
            }
        } else {
            assert(whole == rest);
        }
    }
}

/// A query addresses each stored record at most once: its result is no
/// longer than the record sequence, and no two survivors come from the
/// same record, however the query lists, slices or filters positions.
pub proof fn lemma_query_addresses_distinct_records(q: QueryView, records: Seq<DocView>)
    ensures
        query_results(q, records).len() <= records.len(),
        forall|i: int, j: int|
            0 <= i < query_results(q, records).len() && 0 <= j < query_results(
                q,
                records,
            ).len() && i != j ==> query_results(q, records)[i].0 != query_results(q, records)[j].0,
{
    lemma_selected_indices_distinct(q.selector, records);
    lemma_project_indices_distinct(records, selected_indices(q.selector, records), q.path);
}

/// Dereferences each selected record through the trailing attribute
/// chain, dropping records that lack it; each survivor is paired with
/// the position it came from.
pub open spec fn project_indices(
    records: Seq<DocView>,
    idxs: Seq<int>,
    path: Seq<Seq<char>>,
) -> Seq<(int, DocView)>
    decreases idxs.len(),
{
    if idxs.len() == 0 {
        Seq::empty()
    } else {
        let rest = project_indices(records, idxs.drop_first(), path);
        if 0 <= idxs[0] < records.len() {
            match lookup_path(records[idxs[0]], path) {
                Some(v) => seq![(idxs[0], v)] + rest,
                None => rest,
            }
        } else {
            rest
        }
    }
}

/// What a query returns over a record sequence: the projected survivors
/// in selection order, each with the position of the record it came
/// from.
pub open spec fn query_results(q: QueryView, records: Seq<DocView>) -> Seq<(int, DocView)> {
    project_indices(records, selected_indices(q.selector, records), q.path)
}

/// The wildcard query selects every record, unchanged and in order.
pub proof fn lemma_wildcard_selects_all(records: Seq<DocView>)
    ensures
        query_results(
            QueryView { selector: SelectorView::All, path: Seq::empty() },
            records,
        ) =~= Seq::new(records.len(), |i: int| (i, records[i])),
{
    let idxs = Seq::new(records.len(), |i: int| i);
    lemma_project_identity(records, idxs, 0);
    assert(idxs.skip(0) =~= idxs);
}

/// Projection through the empty path keeps each valid index with its
/// record.
proof fn lemma_project_identity(records: Seq<DocView>, idxs: Seq<int>, k: int)
    requires
        0 <= k <= idxs.len(),
        idxs =~= Seq::new(records.len(), |i: int| i),
    ensures
        project_indices(records, idxs.skip(k), Seq::empty()) =~= Seq::new(
            (records.len() - k) as nat,
            |i: int| (k + i, records[k + i]),
        ),
    decreases idxs.len() - k,
{
    if k < idxs.len() {
        lemma_project_identity(records, idxs, k + 1);
        assert(idxs.skip(k).drop_first() =~= idxs.skip(k + 1));
        assert(idxs.skip(k)[0] == k);
    }
}

} // verus!
