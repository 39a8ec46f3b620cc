//! Stream-level laws of the codec: filtering with no codes is the
//! identity, filtering twice is filtering once, the output is exactly
//! the concatenation of the kept records, and the removal counts are
//! exactly the number of matching records.

use vstd::prelude::*;
use vstd::seq_lib::group_seq_properties;
use crate::process::{step_at, out_from, count_from, trunc_from, clean_from, Step};
use crate::utils::tag_of;

verus! {

/// The tag of a whole record: the tag decoded from its payload, the
/// bytes after the 8-byte header.
pub open spec fn rec_tag(r: Seq<u8>) -> u32 {
    tag_of(r.skip(8))
}

/// The complete records parsed from `pos` on, each as its original
/// bytes, in stream order.
pub open spec fn recs_from(data: Seq<u8>, pos: int) -> Seq<Seq<u8>>
    decreases data.len() - pos,
{
    match step_at(data, pos) {
        Step::Stop => Seq::empty(),
        Step::Trunc => Seq::empty(),
        Step::Rec { end, .. } => seq![data.subrange(pos, end)] + recs_from(data, end),
    }
}

/// Holds of the records that a filter list keeps.
pub open spec fn kept_pred(filters: Seq<u32>) -> spec_fn(Seq<u8>) -> bool {
    |r: Seq<u8>| !filters.contains(rec_tag(r))
}

/// Holds of the records that are removed with tag `t`.
pub open spec fn removed_pred(filters: Seq<u32>, t: u32) -> spec_fn(Seq<u8>) -> bool {
    |r: Seq<u8>| rec_tag(r) == t && filters.contains(t)
}

/// One byte stream out of a sequence of records.
pub open spec fn concat_recs(rs: Seq<Seq<u8>>) -> Seq<u8>
    decreases rs.len(),
{
    if rs.len() == 0 {
        Seq::empty()
    } else {
        rs[0] + concat_recs(rs.skip(1))
    }
}

/// `Seq::filter` keeps the sole element of a singleton exactly when
/// the predicate holds of it.
proof fn lemma_filter_singleton<A>(x: A, pred: spec_fn(A) -> bool)
    ensures
        seq![x].filter(pred) == if pred(x) {
            seq![x]
        } else {
            Seq::<A>::empty()
        },
{
    reveal_with_fuel(Seq::filter, 2);
    assert(seq![x].drop_last() =~= Seq::<A>::empty());
    assert(seq![x].last() == x);
    if pred(x) {
        assert(Seq::<A>::empty().push(x) =~= seq![x]);
    }
}

/// Parsing the tail `b` of a concatenation `a + b` sees exactly what
/// parsing `b` alone sees: records are self-delimiting.
proof fn lemma_tail_agree(a: Seq<u8>, b: Seq<u8>, q: int, f: Seq<u32>)
    requires
        0 <= q <= b.len(),
    ensures
        out_from(a + b, a.len() + q, f) == out_from(b, q, f),
        trunc_from(a + b, a.len() + q) == trunc_from(b, q),
        clean_from(a + b, a.len() + q) == clean_from(b, q),
        recs_from(a + b, a.len() + q) == recs_from(b, q),
        forall|t: u32| #[trigger] count_from(a + b, a.len() + q, f, t) == count_from(b, q, f, t),
    decreases b.len() - q,
{
    let c = a + b;
    let al = a.len() as int;
    if q + 8 > b.len() {
        assert(step_at(c, al + q) is Stop);
        assert(step_at(b, q) is Stop);
        assert forall|t: u32| #[trigger]
            count_from(c, al + q, f, t) == count_from(b, q, f, t) by {
            assert(count_from(c, al + q, f, t) == 0);
            assert(count_from(b, q, f, t) == 0);
        }
    } else {
        assert(c[al + q + 4] == b[q + 4]);
        assert(c[al + q + 5] == b[q + 5]);
        assert(c[al + q + 6] == b[q + 6]);
        assert(c[al + q + 7] == b[q + 7]);
        assert(crate::utils::be_u32_at(c, al + q + 4) == crate::utils::be_u32_at(b, q + 4));
        let lenv = crate::utils::be_i32_at(b, q + 4) as int;
        if lenv <= 0 || lenv > 10_000_000 {
            assert(step_at(c, al + q) is Stop);
            assert(step_at(b, q) is Stop);
            assert forall|t: u32| #[trigger]
                count_from(c, al + q, f, t) == count_from(b, q, f, t) by {
                assert(count_from(c, al + q, f, t) == 0);
                assert(count_from(b, q, f, t) == 0);
            }
        } else if q + 8 + lenv > b.len() {
            assert(step_at(c, al + q) is Trunc);
            assert(step_at(b, q) is Trunc);
            assert forall|t: u32| #[trigger]
                count_from(c, al + q, f, t) == count_from(b, q, f, t) by {
                assert(count_from(c, al + q, f, t) == 0);
                assert(count_from(b, q, f, t) == 0);
            }
        } else {
            let e = q + 8 + lenv;
            assert(c.subrange(al + q + 8, al + e) =~= b.subrange(q + 8, e));
            let tag = tag_of(b.subrange(q + 8, e));
            assert(step_at(c, al + q) == (Step::Rec { end: al + e, tag }));
            assert(step_at(b, q) == (Step::Rec { end: e, tag }));
            lemma_tail_agree(a, b, e, f);
            assert(c.subrange(al + q, al + e) =~= b.subrange(q, e));
            assert(out_from(c, al + q, f) == out_from(b, q, f));
            assert(recs_from(c, al + q) =~~= recs_from(b, q));
            assert forall|t: u32| #[trigger]
                count_from(c, al + q, f, t) == count_from(b, q, f, t) by {
                assert(count_from(c, al + e, f, t) == count_from(b, e, f, t));
            }
        }
    }
}

/// The output stream is itself a clean record stream, every one of
/// its records survives the same filter, and nothing in it counts as
/// removed: the key step behind idempotence.
proof fn lemma_out_clean_fixed(data: Seq<u8>, pos: int, f: Seq<u32>)
    requires
        0 <= pos,
    ensures
        clean_from(out_from(data, pos, f), 0),
        !trunc_from(out_from(data, pos, f), 0),
        out_from(out_from(data, pos, f), 0, f) == out_from(data, pos, f),
        forall|t: u32| #[trigger] count_from(out_from(data, pos, f), 0, f, t) == 0,
    decreases data.len() - pos,
{
    let out = out_from(data, pos, f);
    match step_at(data, pos) {
        Step::Stop => {
            assert(out =~= Seq::<u8>::empty());
            assert(step_at(out, 0) is Stop);
            assert forall|t: u32| #[trigger] count_from(out, 0, f, t) == 0 by {}
        },
        Step::Trunc => {
            assert(out =~= Seq::<u8>::empty());
            assert(step_at(out, 0) is Stop);
            assert forall|t: u32| #[trigger] count_from(out, 0, f, t) == 0 by {}
        },
        Step::Rec { end, tag } => {
            lemma_out_clean_fixed(data, end, f);
            let s = out_from(data, end, f);
            if f.contains(tag) {
                assert(out == s);
            } else {
                let r = data.subrange(pos, end);
                let lenv = end - pos - 8;
                assert(out == r + s);
                let c = r + s;
                assert(c[4] == data[pos + 4]);
                assert(c[5] == data[pos + 5]);
                assert(c[6] == data[pos + 6]);
                assert(c[7] == data[pos + 7]);
                assert(crate::utils::be_u32_at(c, 4) == crate::utils::be_u32_at(data, pos + 4));
                assert(crate::utils::be_i32_at(c, 4) as int == lenv);
                assert(c.subrange(8, 8 + lenv) =~= data.subrange(pos + 8, end));
                assert(step_at(c, 0) == (Step::Rec { end: 8 + lenv, tag }));
                lemma_tail_agree(r, s, 0, f);
                assert(r.len() + 0 == 8 + lenv);
                assert(out_from(c, 8 + lenv, f) == out_from(s, 0, f));
                assert(c.subrange(0, 8 + lenv) =~= r);
                assert(out_from(c, 0, f) == r + out_from(s, 0, f));
                assert(out_from(s, 0, f) == s);
                assert(clean_from(c, 8 + lenv) == clean_from(s, 0));
                assert(trunc_from(c, 8 + lenv) == trunc_from(s, 0));
                assert forall|t: u32| #[trigger] count_from(c, 0, f, t) == 0 by {
                    assert(count_from(c, 8 + lenv, f, t) == count_from(s, 0, f, t));
                    assert(count_from(s, 0, f, t) == 0);
                }
            }
        },
    }
}

/// Filtering the records from `pos` on with an empty filter list
/// reproduces them byte-identically when they tile the buffer.
proof fn lemma_empty_filter_from(data: Seq<u8>, pos: int, filters: Seq<u32>)
    requires
        filters.len() == 0,
        0 <= pos <= data.len(),
        clean_from(data, pos),
    ensures
        out_from(data, pos, filters) == data.subrange(pos, data.len() as int),
        !trunc_from(data, pos),
        forall|t: u32| #[trigger] count_from(data, pos, filters, t) == 0,
    decreases data.len() - pos,
{
    if pos == data.len() {
        assert(step_at(data, pos) is Stop);
        assert(out_from(data, pos, filters) =~= data.subrange(pos, data.len() as int));
        assert forall|t: u32| #[trigger] count_from(data, pos, filters, t) == 0 by {}
    } else {
        match step_at(data, pos) {
            Step::Rec { end, tag } => {
                assert(!filters.contains(tag));
                lemma_empty_filter_from(data, end, filters);
                assert(data.subrange(pos, end) + data.subrange(end, data.len() as int)
                    =~= data.subrange(pos, data.len() as int));
                assert forall|t: u32| #[trigger] count_from(data, pos, filters, t) == 0 by {
                    assert(count_from(data, end, filters, t) == 0);
                }
            },
            _ => {
                assert(false);
            },
        }
    }
}

/// Filtering a clean stream with an empty filter list reproduces it
/// byte-identically and removes nothing.  (On a stream that halts
/// early — a malformed length or a trailing fragment — the output is
/// only the prefix walked, so cleanness is required here.)
pub proof fn lemma_empty_filter_identity(data: Seq<u8>, filters: Seq<u32>)
    requires
        filters.len() == 0,
        clean_from(data, 0),
    ensures
        out_from(data, 0, filters) == data,
        !trunc_from(data, 0),
        forall|t: u32| #[trigger] count_from(data, 0, filters, t) == 0,
{
    lemma_empty_filter_from(data, 0, filters);
    assert(data.subrange(0, data.len() as int) =~= data);
}

/// Filtering is idempotent: running the same filter list over the
/// output removes nothing and returns the output unchanged.
pub proof fn lemma_filter_idempotent(data: Seq<u8>, filters: Seq<u32>)
    ensures
        out_from(out_from(data, 0, filters), 0, filters) == out_from(data, 0, filters),
        forall|t: u32| #[trigger] count_from(out_from(data, 0, filters), 0, filters, t) == 0,
        !trunc_from(out_from(data, 0, filters), 0),
{
    lemma_out_clean_fixed(data, 0, filters);
}

/// The record-level characterization from `pos` on, proved by
/// induction over the parse.
proof fn lemma_characterization_from(data: Seq<u8>, pos: int, filters: Seq<u32>)
    requires
        0 <= pos,
    ensures
        out_from(data, pos, filters) == concat_recs(
            recs_from(data, pos).filter(kept_pred(filters)),
        ),
        forall|t: u32| #[trigger]
            count_from(data, pos, filters, t) == recs_from(data, pos).filter(
                removed_pred(filters, t),
            ).len(),
    decreases data.len() - pos,
{
    broadcast use group_seq_properties;

    match step_at(data, pos) {
        Step::Stop => {
            assert(recs_from(data, pos).filter(kept_pred(filters)) =~~= Seq::<Seq<u8>>::empty());
            assert forall|t: u32| #[trigger]
                count_from(data, pos, filters, t) == recs_from(data, pos).filter(
                    removed_pred(filters, t),
                ).len() by {
                assert(recs_from(data, pos).filter(removed_pred(filters, t))
                    =~~= Seq::<Seq<u8>>::empty());
            }
        },
        Step::Trunc => {
            assert(recs_from(data, pos).filter(kept_pred(filters)) =~~= Seq::<Seq<u8>>::empty());
            assert forall|t: u32| #[trigger]
                count_from(data, pos, filters, t) == recs_from(data, pos).filter(
                    removed_pred(filters, t),
                ).len() by {
                assert(recs_from(data, pos).filter(removed_pred(filters, t))
                    =~~= Seq::<Seq<u8>>::empty());
            }
        },
        Step::Rec { end, tag } => {
            lemma_characterization_from(data, end, filters);
            let r = data.subrange(pos, end);
            assert(r.skip(8) =~= data.subrange(pos + 8, end));
            assert(rec_tag(r) == tag);
            assert(recs_from(data, pos) == seq![r] + recs_from(data, end));
            Seq::filter_distributes_over_add(seq![r], recs_from(data, end), kept_pred(filters));
            lemma_filter_singleton(r, kept_pred(filters));
            if filters.contains(tag) {
                assert(seq![r].filter(kept_pred(filters)) =~~= Seq::<Seq<u8>>::empty());
                assert(recs_from(data, pos).filter(kept_pred(filters)) == recs_from(
                    data,
                    end,
                ).filter(kept_pred(filters)));
            } else {
                assert(seq![r].filter(kept_pred(filters)) =~~= seq![r]);
                let tail = recs_from(data, end).filter(kept_pred(filters));
                assert(recs_from(data, pos).filter(kept_pred(filters)) == seq![r] + tail);
                assert((seq![r] + tail)[0] == r);
                assert((seq![r] + tail).skip(1) =~~= tail);
                assert(concat_recs(seq![r] + tail) == r + concat_recs(tail));
            }
            assert forall|t: u32| #[trigger]
                count_from(data, pos, filters, t) == recs_from(data, pos).filter(
                    removed_pred(filters, t),
                ).len() by {
                Seq::filter_distributes_over_add(
                    seq![r],
                    recs_from(data, end),
                    removed_pred(filters, t),
                );
                lemma_filter_singleton(r, removed_pred(filters, t));
                assert(count_from(data, end, filters, t) == recs_from(data, end).filter(
                    removed_pred(filters, t),
                ).len());
            }
        },
    }
}

/// The output stream is exactly the concatenation of the input's
/// complete records whose tag is not in the filter list, each
/// byte-identical and in original relative order; and for every tag
/// `t`, the number of records removed with `t` is exactly the number
/// of complete records whose tag is `t` when `t` is in the filter
/// list, and zero otherwise.
pub proof fn lemma_filter_characterization(data: Seq<u8>, filters: Seq<u32>)
    ensures
        out_from(data, 0, filters) == concat_recs(recs_from(data, 0).filter(kept_pred(filters))),
        forall|t: u32| #[trigger]
            count_from(data, 0, filters, t) == recs_from(data, 0).filter(
                removed_pred(filters, t),
            ).len(),
{
    lemma_characterization_from(data, 0, filters);
}

} // verus!
