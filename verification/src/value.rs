use vstd::prelude::*;

verus! {

broadcast use
    vstd::std_specs::vec::axiom_vec_index_decreases,
    vstd::std_specs::vec::axiom_vec_decreases_to_view,
    vstd::seq::axiom_seq_index_decreases,
    vstd::seq::axiom_seq_subrange_decreases;

/// A document value: the library's model of a typed record.
///
/// Records stored in a collection are documents built from null, booleans,
/// integers, strings, arrays and objects (ordered lists of named fields).
/// The codec serializes exactly these values, and the query engine
/// evaluates path expressions over them.
#[derive(Debug, PartialEq, Eq)]
pub enum DocValue {
    Null,
    Bool(bool),
    Int(i64),
    Str(String),
    Arr(Vec<DocValue>),
    Obj(Vec<(String, DocValue)>),
}

/// The mathematical shape of a [`DocValue`]: strings as character
/// sequences, collections as sequences.  Contracts speak of this form.
pub enum DocView {
    Null,
    Bool(bool),
    Int(int),
    Str(Seq<char>),
    Arr(Seq<DocView>),
    Obj(Seq<(Seq<char>, DocView)>),
}

/// The view of one document value.
pub open spec fn doc_view(v: DocValue) -> DocView
    decreases v,
{
    match v {
        DocValue::Null => DocView::Null,
        DocValue::Bool(b) => DocView::Bool(b),
        DocValue::Int(i) => DocView::Int(i as int),
        DocValue::Str(s) => DocView::Str(s@),
        DocValue::Arr(elems) => DocView::Arr(arr_views(elems@)),
        DocValue::Obj(fields) => DocView::Obj(obj_views(fields@)),
    }
}

/// The views of a sequence of array elements, in order.
pub open spec fn arr_views(s: Seq<DocValue>) -> Seq<DocView>
    decreases s,
{
    if s.len() == 0 {
        Seq::empty()
    } else {
        seq![doc_view(s[0])] + arr_views(s.drop_first())
    }
}

/// The views of a sequence of object fields, in order.
pub open spec fn obj_views(s: Seq<(String, DocValue)>) -> Seq<(Seq<char>, DocView)>
    decreases s,
{
    if s.len() == 0 {
        Seq::empty()
    } else {
        seq![(s[0].0@, doc_view(s[0].1))] + obj_views(s.drop_first())
    }
}

/// Appending one element appends its view.
pub proof fn lemma_arr_views_snoc(s: Seq<DocValue>, x: DocValue)
    ensures
        arr_views(s.push(x)) == arr_views(s) + seq![doc_view(x)],
    decreases s.len(),
{
    if s.len() == 0 {
        assert(s.push(x).drop_first() =~= Seq::<DocValue>::empty());
        assert(s.push(x)[0] == x);
        assert(arr_views(s.push(x)) == seq![doc_view(s.push(x)[0])] + arr_views(
            s.push(x).drop_first(),
        ));
        assert(arr_views(s.push(x)) =~= seq![doc_view(x)] + Seq::<DocView>::empty());
        assert(arr_views(s.push(x)) =~= arr_views(s) + seq![doc_view(x)]);
    } else {
        assert(s.push(x).drop_first() =~= s.drop_first().push(x));
        assert(s.push(x)[0] == s[0]);
        lemma_arr_views_snoc(s.drop_first(), x);
        assert(arr_views(s.push(x)) =~= seq![doc_view(s[0])] + (arr_views(s.drop_first())
            + seq![doc_view(x)]));
        assert(arr_views(s.push(x)) =~= arr_views(s) + seq![doc_view(x)]);
    }
}

/// Appending one field appends its view.
pub proof fn lemma_obj_views_snoc(s: Seq<(String, DocValue)>, f: (String, DocValue))
    ensures
        obj_views(s.push(f)) == obj_views(s) + seq![(f.0@, doc_view(f.1))],
    decreases s.len(),
{
    if s.len() == 0 {
        assert(s.push(f).drop_first() =~= Seq::<(String, DocValue)>::empty());
        assert(s.push(f)[0] == f);
        assert(obj_views(s.push(f)) == seq![(s.push(f)[0].0@, doc_view(s.push(f)[0].1))]
            + obj_views(s.push(f).drop_first()));
        assert(obj_views(s.push(f)) =~= seq![(f.0@, doc_view(f.1))] + Seq::<(Seq<char>,
            DocView,
        )>::empty());
        assert(obj_views(s.push(f)) =~= obj_views(s) + seq![(f.0@, doc_view(f.1))]);
    } else {
        assert(s.push(f).drop_first() =~= s.drop_first().push(f));
        assert(s.push(f)[0] == s[0]);
        lemma_obj_views_snoc(s.drop_first(), f);
        assert(obj_views(s.push(f)) =~= seq![(s[0].0@, doc_view(s[0].1))] + (obj_views(
            s.drop_first(),
        ) + seq![(f.0@, doc_view(f.1))]));
        assert(obj_views(s.push(f)) =~= obj_views(s) + seq![(f.0@, doc_view(f.1))]);
    }
}

impl View for DocValue {
    type V = DocView;

    open spec fn view(&self) -> DocView {
        doc_view(*self)
    }
}

impl Clone for DocValue {
    /// A structural copy: the copy's view is the original's.
    #[verifier::loop_isolation(false)]
    fn clone(&self) -> (r: Self)
        ensures
            r@ == self@,
        decreases self,
    {
        match self {
            DocValue::Null => DocValue::Null,
            DocValue::Bool(b) => DocValue::Bool(*b),
            DocValue::Int(i) => DocValue::Int(*i),
            DocValue::Str(s) => DocValue::Str(s.clone()),
            DocValue::Arr(elems) => {
                let mut out: Vec<DocValue> = Vec::new();
                let mut i: usize = 0;
                while i < elems.len()
                    invariant
                        i <= elems@.len(),
                        out@.len() == i,
                        arr_views(out@) == arr_views(elems@.take(i as int)),
                    decreases elems@.len() - i,
                {
                    let c = elems[i].clone();
                    let ghost prev = out@;
                    out.push(c);
                    proof {
                        assert(out@.drop_last() =~= prev);
                        lemma_arr_views_snoc(prev, out@.last());
                        assert(out@ =~= prev.push(out@.last()));
                        assert(elems@.take(i as int + 1) =~= elems@.take(i as int).push(
                            elems@[i as int],
                        ));
                        lemma_arr_views_snoc(elems@.take(i as int), elems@[i as int]);
                    }
                    i = i + 1;
                }
                proof {
                    assert(elems@.take(elems@.len() as int) =~= elems@);
                }
                DocValue::Arr(out)
            },
            DocValue::Obj(fields) => {
                let mut out: Vec<(String, DocValue)> = Vec::new();
                let mut i: usize = 0;
                while i < fields.len()
                    invariant
                        i <= fields@.len(),
                        out@.len() == i,
                        obj_views(out@) == obj_views(fields@.take(i as int)),
                    decreases fields@.len() - i,
                {
                    let k = fields[i].0.clone();
                    let c = fields[i].1.clone();
                    let ghost prev = out@;
                    out.push((k, c));
                    proof {
                        assert(out@.drop_last() =~= prev);
                        lemma_obj_views_snoc(prev, out@.last());
                        assert(out@ =~= prev.push(out@.last()));
                        assert(fields@.take(i as int + 1) =~= fields@.take(i as int).push(
                            fields@[i as int],
                        ));
                        lemma_obj_views_snoc(fields@.take(i as int), fields@[i as int]);
                    }
                    i = i + 1;
                }
                proof {
                    assert(fields@.take(fields@.len() as int) =~= fields@);
                }
                DocValue::Obj(out)
            },
        }
    }
}

/// Each value's view has its shape.
pub proof fn lemma_doc_view_shape(v: DocValue)
    ensures
        (v is Null <==> doc_view(v) is Null),
        (v is Bool <==> doc_view(v) is Bool),
        (v is Int <==> doc_view(v) is Int),
        (v is Str <==> doc_view(v) is Str),
        (v is Arr <==> doc_view(v) is Arr),
        (v is Obj <==> doc_view(v) is Obj),
{
}

/// Structural equality: whether two values have equal views.
#[verifier::loop_isolation(false)]
pub fn doc_eq(a: &DocValue, b: &DocValue) -> (r: bool)
    ensures
        r == (a@ == b@),
    decreases a,
{
    proof {
        lemma_doc_view_shape(*a);
        lemma_doc_view_shape(*b);
    }
    match (a, b) {
        (DocValue::Null, DocValue::Null) => true,
        (DocValue::Bool(x), DocValue::Bool(y)) => x == y,
        (DocValue::Int(x), DocValue::Int(y)) => x == y,
        (DocValue::Str(x), DocValue::Str(y)) => *x == *y,
        (DocValue::Arr(xs), DocValue::Arr(ys)) => {
            proof {
                lemma_arr_views_len(xs@);
                lemma_arr_views_len(ys@);
                assert(a@ == DocView::Arr(arr_views(xs@)));
                assert(b@ == DocView::Arr(arr_views(ys@)));
            }
            if xs.len() != ys.len() {
                return false;
            }
            let mut i: usize = 0;
            while i < xs.len()
                invariant
                    i <= xs@.len() == ys@.len(),
                    forall|j: int|
                        0 <= j < i ==> doc_view(#[trigger] xs@[j]) == doc_view(ys@[j]),
                decreases xs@.len() - i,
            {
                let same = doc_eq(&xs[i], &ys[i]);
                if !same {
                    proof {
                        lemma_arr_views_index(xs@, i as int);
                        lemma_arr_views_index(ys@, i as int);
                        assert(arr_views(xs@)[i as int] != arr_views(ys@)[i as int]);
                    }
                    return false;
                }
                i = i + 1;
            }
            proof {
                assert forall|j: int|
                    0 <= j < xs@.len() implies arr_views(xs@)[j] == arr_views(ys@)[j] by {
                    lemma_arr_views_index(xs@, j);
                    lemma_arr_views_index(ys@, j);
                }
                assert(arr_views(xs@) =~= arr_views(ys@));
            }
            true
        },
        (DocValue::Obj(xs), DocValue::Obj(ys)) => {
            proof {
                lemma_obj_views_len(xs@);
                lemma_obj_views_len(ys@);
                assert(a@ == DocView::Obj(obj_views(xs@)));
                assert(b@ == DocView::Obj(obj_views(ys@)));
            }
            if xs.len() != ys.len() {
                return false;
            }
            let mut i: usize = 0;
            while i < xs.len()
                invariant
                    i <= xs@.len() == ys@.len(),
                    forall|j: int|
                        0 <= j < i ==> (#[trigger] xs@[j]).0@ == ys@[j].0@ && doc_view(
                            xs@[j].1,
                        ) == doc_view(ys@[j].1),
                decreases xs@.len() - i,
            {
                let keys_same = xs[i].0 == ys[i].0;
                let vals_same = doc_eq(&xs[i].1, &ys[i].1);
                if !keys_same || !vals_same {
                    proof {
                        lemma_obj_views_index(xs@, i as int);
                        lemma_obj_views_index(ys@, i as int);
                        assert(obj_views(xs@)[i as int] != obj_views(ys@)[i as int]);
                    }
                    return false;
                }
                i = i + 1;
            }
            proof {
                assert forall|j: int|
                    0 <= j < xs@.len() implies obj_views(xs@)[j] == obj_views(ys@)[j] by {
                    lemma_obj_views_index(xs@, j);
                    lemma_obj_views_index(ys@, j);
                }
                assert(obj_views(xs@) =~= obj_views(ys@));
            }
            true
        },
        _ => {
            assert(a@ != b@);
            false
        },
    }
}

/// Indexing into `arr_views` is the view of the indexed element.
pub proof fn lemma_arr_views_index(s: Seq<DocValue>, i: int)
    requires
        0 <= i < s.len(),
    ensures
        arr_views(s).len() == s.len(),
        arr_views(s)[i] == doc_view(s[i]),
    decreases s.len(),
{
    if i > 0 {
        lemma_arr_views_index(s.drop_first(), i - 1);
    } else {
        lemma_arr_views_len(s);
    }
}

/// `arr_views` preserves length.
pub proof fn lemma_arr_views_len(s: Seq<DocValue>)
    ensures
        arr_views(s).len() == s.len(),
    decreases s.len(),
{
    if s.len() > 0 {
        lemma_arr_views_len(s.drop_first());
    }
}

/// Indexing into `obj_views` is the view of the indexed field.
pub proof fn lemma_obj_views_index(s: Seq<(String, DocValue)>, i: int)
    requires
        0 <= i < s.len(),
    ensures
        obj_views(s).len() == s.len(),
        obj_views(s)[i] == (s[i].0@, doc_view(s[i].1)),
    decreases s.len(),
{
    if i > 0 {
        lemma_obj_views_index(s.drop_first(), i - 1);
    } else {
        lemma_obj_views_len(s);
    }
}

/// `obj_views` preserves length.
pub proof fn lemma_obj_views_len(s: Seq<(String, DocValue)>)
    ensures
        obj_views(s).len() == s.len(),
    decreases s.len(),
{
    if s.len() > 0 {
        lemma_obj_views_len(s.drop_first());
    }
}

} // verus!
