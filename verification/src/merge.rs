use crate::bytes_order::{bytes_eq, bytes_lt, lex_lt};
use vstd::prelude::*;

verus! {

/// One classified key from the sorted merge of two staged sides.
#[derive(Debug, PartialEq)]
pub enum Diff {
    /// Key and record present on the left side only.
    LeftOnly(Vec<u8>, Vec<u8>),
    /// Key and record present on the right side only.
    RightOnly(Vec<u8>, Vec<u8>),
    /// Key present on both sides with byte-equal records; the shared record.
    BothUnchanged(Vec<u8>, Vec<u8>),
    /// Key present on both sides with differing records: left, then right.
    BothChanged(Vec<u8>, Vec<u8>, Vec<u8>),
}

/// Mathematical form of one classification.
pub ghost enum DiffV {
    LeftOnly(Seq<u8>, Seq<u8>),
    RightOnly(Seq<u8>, Seq<u8>),
    BothUnchanged(Seq<u8>, Seq<u8>),
    BothChanged(Seq<u8>, Seq<u8>, Seq<u8>),
}

pub open spec fn dv(d: Diff) -> DiffV {
    match d {
        Diff::LeftOnly(k, v) => DiffV::LeftOnly(k@, v@),
        Diff::RightOnly(k, v) => DiffV::RightOnly(k@, v@),
        Diff::BothUnchanged(k, v) => DiffV::BothUnchanged(k@, v@),
        Diff::BothChanged(k, l, r) => DiffV::BothChanged(k@, l@, r@),
    }
}

pub open spec fn dviews(s: Seq<Diff>) -> Seq<DiffV> {
    Seq::new(s.len(), |i: int| dv(s[i]))
}

/// Strict byte-wise key order.
pub open spec fn key_lt(a: Seq<u8>, b: Seq<u8>) -> bool {
    lex_lt(a, b)
}

/// The classic sorted merge over two key-ordered sequences of (key, value)
/// pairs: the lesser key is emitted as one-sided and that side advances;
/// equal keys are paired in arrival order, compared byte-wise, and both
/// sides advance. Duplicate keys on one side pair up within the key group,
/// extras surfacing as one-sided once the shorter group exhausts.
pub open spec fn merge_spec(l: Seq<(Seq<u8>, Seq<u8>)>, r: Seq<(Seq<u8>, Seq<u8>)>) -> Seq<DiffV>
    decreases l.len() + r.len(),
{
    if l.len() == 0 && r.len() == 0 {
        Seq::empty()
    } else if r.len() == 0 || (l.len() > 0 && key_lt(l[0].0, r[0].0)) {
        seq![DiffV::LeftOnly(l[0].0, l[0].1)] + merge_spec(l.skip(1), r)
    } else if l.len() == 0 || key_lt(r[0].0, l[0].0) {
        seq![DiffV::RightOnly(r[0].0, r[0].1)] + merge_spec(l, r.skip(1))
    } else {
        (if l[0].1 == r[0].1 {
            seq![DiffV::BothUnchanged(l[0].0, l[0].1)]
        } else {
            seq![DiffV::BothChanged(l[0].0, l[0].1, r[0].1)]
        }) + merge_spec(l.skip(1), r.skip(1))
    }
}

/// Sorted merge-join of two staged sides, already in ascending key order,
/// classifying every key occurrence as left-only, right-only, or both,
/// with a byte-wise value equality check deciding changed against unchanged.
pub fn merge_diff(left: &Vec<(Vec<u8>, Vec<u8>)>, right: &Vec<(Vec<u8>, Vec<u8>)>) -> (r: Vec<Diff>)
    ensures
        dviews(r@) == merge_spec(left.deep_view(), right.deep_view()),
{
    proof {
        crate::stager::lemma_entry_deep_view(*left);
        crate::stager::lemma_entry_deep_view(*right);
    }
    let ghost lv = left.deep_view();
    let ghost rv = right.deep_view();
    let mut out: Vec<Diff> = Vec::new();
    let mut i: usize = 0;
    let mut j: usize = 0;
    proof {
        assert(lv.skip(0) =~= lv);
        assert(rv.skip(0) =~= rv);
        assert(dviews(out@) =~= Seq::<DiffV>::empty());
        assert(dviews(out@) + merge_spec(lv, rv) =~= merge_spec(lv, rv));
    }
    while i < left.len() || j < right.len()
        invariant
            0 <= i <= lv.len(),
            0 <= j <= rv.len(),
            lv == left.deep_view(),
            rv == right.deep_view(),
            lv.len() == left@.len(),
            rv.len() == right@.len(),
            forall|t: int| 0 <= t < lv.len() ==> lv[t] == ((#[trigger] left@[t]).0@, left@[t].1@),
            forall|t: int|
                0 <= t < rv.len() ==> rv[t] == ((#[trigger] right@[t]).0@, right@[t].1@),
            dviews(out@) + merge_spec(lv.skip(i as int), rv.skip(j as int)) == merge_spec(lv, rv),
        decreases lv.len() - i + rv.len() - j,
    {
        let ghost lrest = lv.skip(i as int);
        let ghost rrest = rv.skip(j as int);
        let ghost out0 = out@;
        // 0: emit left-only; 1: emit right-only; 2: keys equal, pair them.
        let action: u8 = if j >= right.len() {
            0
        } else if i >= left.len() {
            1
        } else if bytes_lt(&left[i].0, &right[j].0) {
            0
        } else if bytes_lt(&right[j].0, &left[i].0) {
            1
        } else {
            2
        };
        if action == 0 {
            let key = vstd::slice::slice_to_vec(left[i].0.as_slice());
            let value = vstd::slice::slice_to_vec(left[i].1.as_slice());
            out.push(Diff::LeftOnly(key, value));
            proof {
                assert(lrest[0] == lv[i as int]);
                assert(lrest.len() > 0);
                assert(merge_spec(lrest, rrest) == seq![
                    DiffV::LeftOnly(lrest[0].0, lrest[0].1),
                ] + merge_spec(lrest.skip(1), rrest));
                assert(lrest.skip(1) =~= lv.skip(i + 1));
                assert(dviews(out@) =~= dviews(out0).push(
                    DiffV::LeftOnly(lv[i as int].0, lv[i as int].1),
                ));
                assert(dviews(out@) + merge_spec(lv.skip(i + 1), rv.skip(j as int)) =~= dviews(
                    out0,
                ) + merge_spec(lrest, rrest));
            }
            i = i + 1;
        } else if action == 1 {
            let key = vstd::slice::slice_to_vec(right[j].0.as_slice());
            let value = vstd::slice::slice_to_vec(right[j].1.as_slice());
            out.push(Diff::RightOnly(key, value));
            proof {
                assert(rrest[0] == rv[j as int]);
                assert(merge_spec(lrest, rrest) == seq![
                    DiffV::RightOnly(rrest[0].0, rrest[0].1),
                ] + merge_spec(lrest, rrest.skip(1)));
                assert(rrest.skip(1) =~= rv.skip(j + 1));
                assert(dviews(out@) =~= dviews(out0).push(
                    DiffV::RightOnly(rv[j as int].0, rv[j as int].1),
                ));
                assert(dviews(out@) + merge_spec(lv.skip(i as int), rv.skip(j + 1)) =~= dviews(
                    out0,
                ) + merge_spec(lrest, rrest));
            }
            j = j + 1;
        } else {
            let key = vstd::slice::slice_to_vec(left[i].0.as_slice());
            let lvalue = vstd::slice::slice_to_vec(left[i].1.as_slice());
            if bytes_eq(&left[i].1, &right[j].1) {
                out.push(Diff::BothUnchanged(key, lvalue));
            } else {
                let rvalue = vstd::slice::slice_to_vec(right[j].1.as_slice());
                out.push(Diff::BothChanged(key, lvalue, rvalue));
            }
            proof {
                assert(lrest[0] == lv[i as int]);
                assert(rrest[0] == rv[j as int]);
                assert(!key_lt(lrest[0].0, rrest[0].0) && !key_lt(rrest[0].0, lrest[0].0));
                assert(merge_spec(lrest, rrest) == (if lrest[0].1 == rrest[0].1 {
                    seq![DiffV::BothUnchanged(lrest[0].0, lrest[0].1)]
                } else {
                    seq![DiffV::BothChanged(lrest[0].0, lrest[0].1, rrest[0].1)]
                }) + merge_spec(lrest.skip(1), rrest.skip(1)));
                assert(lrest.skip(1) =~= lv.skip(i + 1));
                assert(rrest.skip(1) =~= rv.skip(j + 1));
                if lv[i as int].1 == rv[j as int].1 {
                    assert(dviews(out@) =~= dviews(out0).push(
                        DiffV::BothUnchanged(lv[i as int].0, lv[i as int].1),
                    ));
                } else {
                    assert(dviews(out@) =~= dviews(out0).push(
                        DiffV::BothChanged(lv[i as int].0, lv[i as int].1, rv[j as int].1),
                    ));
                }
                assert(dviews(out@) + merge_spec(lv.skip(i + 1), rv.skip(j + 1)) =~= dviews(out0)
                    + merge_spec(lrest, rrest));
            }
            i = i + 1;
            j = j + 1;
        }
    }
    proof {
        assert(lv.skip(lv.len() as int) =~= Seq::<(Seq<u8>, Seq<u8>)>::empty());
        assert(rv.skip(rv.len() as int) =~= Seq::<(Seq<u8>, Seq<u8>)>::empty());
        assert(merge_spec(lv.skip(i as int), rv.skip(j as int)) =~= Seq::<DiffV>::empty());
        assert(dviews(out@) + Seq::<DiffV>::empty() =~= dviews(out@));
    }
    out
}

} // verus!
