//! The record-stream codec: walks a length-delimited record stream,
//! drops records whose tag is in the filter list, and reproduces every
//! other record byte-identically.

use vstd::prelude::*;
use vstd::slice::slice_subrange;
use vstd::string::StringSliceAdditionalSpecFns;
use std::collections::HashMap;
use crate::McprError;
use crate::utils::{be_i32_at, i32_be_bytes, tag_of, read_int, write_int, read_varint};

verus! {

broadcast use vstd::std_specs::hash::group_hash_axioms;

/// What the stream parser finds at position `pos`: the end of the
/// stream (or a malformed header, which halts it), a record whose
/// declared payload overruns the buffer, or a complete record ending
/// at `end` whose payload decodes to `tag`.
pub enum Step {
    Stop,
    Trunc,
    Rec { end: int, tag: u32 },
}

/// Parses one record header at `pos`.  A short header or a declared
/// length outside `[1, 10_000_000]` halts the stream; a complete
/// header whose payload overruns the buffer is a truncation.
pub open spec fn step_at(data: Seq<u8>, pos: int) -> Step {
    if pos + 8 > data.len() {
        Step::Stop
    } else {
        let len = be_i32_at(data, pos + 4) as int;
        if len <= 0 || len > 10_000_000 {
            Step::Stop
        } else if pos + 8 + len > data.len() {
            Step::Trunc
        } else {
            Step::Rec { end: pos + 8 + len, tag: tag_of(data.subrange(pos + 8, pos + 8 + len)) }
        }
    }
}

/// The filtered output stream for the records from `pos` on: each
/// record whose tag is not in `filters` contributes its bytes
/// unchanged, every other record contributes nothing.
pub open spec fn out_from(data: Seq<u8>, pos: int, filters: Seq<u32>) -> Seq<u8>
    decreases data.len() - pos,
{
    match step_at(data, pos) {
        Step::Stop => Seq::empty(),
        Step::Trunc => Seq::empty(),
        Step::Rec { end, tag } => if filters.contains(tag) {
            out_from(data, end, filters)
        } else {
            data.subrange(pos, end) + out_from(data, end, filters)
        },
    }
}

/// How many records from `pos` on are removed with tag `t`.
pub open spec fn count_from(data: Seq<u8>, pos: int, filters: Seq<u32>, t: u32) -> nat
    decreases data.len() - pos,
{
    match step_at(data, pos) {
        Step::Stop => 0,
        Step::Trunc => 0,
        Step::Rec { end, tag } => (if tag == t && filters.contains(t) {
            1nat
        } else {
            0nat
        }) + count_from(data, end, filters, t),
    }
}

/// Whether parsing from `pos` on runs into a record whose declared
/// payload overruns the buffer — the one hard error of the codec.
pub open spec fn trunc_from(data: Seq<u8>, pos: int) -> bool
    decreases data.len() - pos,
{
    match step_at(data, pos) {
        Step::Stop => false,
        Step::Trunc => true,
        Step::Rec { end, .. } => trunc_from(data, end),
    }
}

/// Whether the records from `pos` on tile the rest of the buffer
/// exactly: no trailing fragment, no malformed header, no truncation.
pub open spec fn clean_from(data: Seq<u8>, pos: int) -> bool
    decreases data.len() - pos,
{
    if pos == data.len() {
        true
    } else {
        match step_at(data, pos) {
            Step::Rec { end, .. } => clean_from(data, end),
            _ => false,
        }
    }
}

/// The count recorded for `t` in a removal-count map; absent tags
/// count zero.
pub open spec fn count_in(m: Map<u32, u64>, t: u32) -> int {
    if m.contains_key(t) {
        m[t] as int
    } else {
        0
    }
}

/// What a removal-count map must say of a whole stream: a tag has an
/// entry exactly when some record was removed with it, and the entry
/// is the exact number of records removed with it.
pub open spec fn counts_ok(m: Map<u32, u64>, data: Seq<u8>, filters: Seq<u32>) -> bool {
    &&& forall|t: u32|
        #![trigger m.contains_key(t)]
        #![trigger count_from(data, 0, filters, t)]
        m.contains_key(t) <==> (filters.contains(t) && count_from(data, 0, filters, t) > 0)
    &&& forall|t: u32| #[trigger] m.contains_key(t) ==> m[t] == count_from(data, 0, filters, t)
}

/// Removing a record costs at least its 9 bytes, so removal counts
/// are bounded by the buffer length.
proof fn lemma_count_bound(data: Seq<u8>, pos: int, filters: Seq<u32>, t: u32)
    requires
        0 <= pos <= data.len(),
    ensures
        9 * count_from(data, pos, filters, t) <= data.len() - pos,
    decreases data.len() - pos,
{
    match step_at(data, pos) {
        Step::Stop => {},
        Step::Trunc => {},
        Step::Rec { end, .. } => {
            lemma_count_bound(data, end, filters, t);
        },
    }
}

/// When the walk stops normally at `pos`, the accumulated output and
/// counts are those of the whole stream.
proof fn lemma_stop_return(data: Seq<u8>, pos: int, f: Seq<u32>, m: Map<u32, u64>, out: Seq<u8>)
    requires
        step_at(data, pos) is Stop,
        out_from(data, 0, f) == out + out_from(data, pos, f),
        trunc_from(data, 0) == trunc_from(data, pos),
        forall|t: u32| #[trigger]
            count_from(data, 0, f, t) == count_in(m, t) + count_from(data, pos, f, t),
        forall|t: u32| #[trigger] m.contains_key(t) ==> f.contains(t) && m[t] >= 1,
    ensures
        out == out_from(data, 0, f),
        !trunc_from(data, 0),
        counts_ok(m, data, f),
{
    assert(out_from(data, pos, f) == Seq::<u8>::empty());
    assert(out + Seq::<u8>::empty() =~= out);
    assert forall|t: u32|
        #![trigger m.contains_key(t)]
        #![trigger count_from(data, 0, f, t)]
        m.contains_key(t) <==> (f.contains(t) && count_from(data, 0, f, t) > 0) by {
        assert(count_from(data, pos, f, t) == 0);
        assert(count_from(data, 0, f, t) == count_in(m, t));
    }
    assert forall|t: u32| #[trigger] m.contains_key(t) implies m[t] == count_from(
        data,
        0,
        f,
        t,
    ) by {
        assert(count_from(data, pos, f, t) == 0);
        assert(count_from(data, 0, f, t) == count_in(m, t));
    }
}

/// Whether `ids` holds `x`.
pub fn contains_u32(ids: &[u32], x: u32) -> (b: bool)
    ensures
        b == ids@.contains(x),
{
    let mut i: usize = 0;
    while i < ids.len()
        invariant
            0 <= i <= ids@.len(),
            forall|j: int| 0 <= j < i ==> ids@[j] != x,
        decreases ids@.len() - i,
    {
        if ids[i] == x {
            assert(ids@[i as int] == x);
            return true;
        }
        i = i + 1;
    }
    false
}

/// Appends `data[from .. to]` to `out` unchanged.
fn push_range(out: &mut Vec<u8>, data: &[u8], from: usize, to: usize)
    requires
        from <= to <= data@.len(),
    ensures
        final(out)@ == old(out)@ + data@.subrange(from as int, to as int),
{
    let mut k = from;
    while k < to
        invariant
            from <= k <= to <= data@.len(),
            out@ == old(out)@ + data@.subrange(from as int, k as int),
        decreases to - k,
    {
        out.push(data[k]);
        assert(out@ =~= old(out)@ + data@.subrange(from as int, k + 1));
        k = k + 1;
    }
    assert(out@ =~= old(out)@ + data@.subrange(from as int, to as int));
}

/// Walks the record stream in `data` once, from the front: each
/// record whose decoded tag is in `filter_ids` is dropped and
/// counted, every other record is copied to the output byte-for-byte
/// (timestamp, length, then payload, re-encoded exactly as read).
/// A short trailing fragment or a header with a length outside
/// `[1, 10_000_000]` ends the walk normally; a declared payload that
/// overruns the buffer is the one hard error.
pub fn process_tmcpr(data: &[u8], filter_ids: &[u32]) -> (r: Result<
    (Vec<u8>, HashMap<u32, u64>),
    McprError,
>)
    ensures
        r is Ok <==> !trunc_from(data@, 0),
        r matches Ok(p) ==> p.0@ == out_from(data@, 0, filter_ids@) && counts_ok(
            p.1@,
            data@,
            filter_ids@,
        ),
        r is Err ==> r == Err::<(Vec<u8>, HashMap<u32, u64>), McprError>(McprError::UnexpectedEof),
{
    let ghost f = filter_ids@;
    let data_len = data.len();
    let mut pos: usize = 0;
    let mut output: Vec<u8> = Vec::new();
    let mut counts: HashMap<u32, u64> = HashMap::new();
    loop
        invariant
            0 <= pos <= data@.len(),
            data_len == data@.len(),
            out_from(data@, 0, f) == output@ + out_from(data@, pos as int, f),
            trunc_from(data@, 0) == trunc_from(data@, pos as int),
            forall|t: u32| #[trigger]
                count_from(data@, 0, f, t) == count_in(counts@, t) + count_from(
                    data@,
                    pos as int,
                    f,
                    t,
                ),
            forall|t: u32| #[trigger] counts@.contains_key(t) ==> f.contains(t) && counts@[t] >= 1,
            f == filter_ids@,
        decreases data@.len() - pos,
    {
        let ghost p = pos as int;
        let timestamp = match read_int(data, pos) {
            Some(v) => v,
            None => {
                proof {
                    lemma_stop_return(data@, p, f, counts@, output@);
                }
                return Ok((output, counts));
            },
        };
        let length = match read_int(data, pos + 4) {
            Some(v) => v,
            None => {
                proof {
                    lemma_stop_return(data@, p, f, counts@, output@);
                }
                return Ok((output, counts));
            },
        };
        if length <= 0 || length > 10_000_000 {
            proof {
                lemma_stop_return(data@, p, f, counts@, output@);
            }
            return Ok((output, counts));
        }
        let length_us = length as usize;
        if length_us > data_len - (pos + 8) {
            proof {
                assert(step_at(data@, p) is Trunc);
                assert(trunc_from(data@, 0));
            }
            return Err(McprError::UnexpectedEof);
        }
        let end = pos + 8 + length_us;
        let payload = slice_subrange(data, pos + 8, end);
        let tag = match read_varint(payload) {
            Ok((t, _)) => t,
            Err(_) => 0xFFFF,
        };
        proof {
            assert(payload@ == data@.subrange(p + 8, p + 8 + length as int));
            assert(step_at(data@, p) == (Step::Rec { end: end as int, tag: tag_of(payload@) }));
            assert(tag == tag_of(payload@));
        }
        if contains_u32(filter_ids, tag) {
            let c: u64 = match counts.get(&tag) {
                Some(v) => *v,
                None => 0,
            };
            proof {
                assert(c == count_in(counts@, tag));
                assert(count_from(data@, p, f, tag) == 1 + count_from(data@, end as int, f, tag));
                lemma_count_bound(data@, 0, f, tag);
                assert(c + 1 <= count_from(data@, 0, f, tag));
            }
            counts.insert(tag, c + 1);
            proof {
                assert forall|t: u32| #[trigger]
                    count_from(data@, 0, f, t) == count_in(counts@, t) + count_from(
                        data@,
                        end as int,
                        f,
                        t,
                    ) by {
                    if t != tag {
                        assert(count_from(data@, p, f, t) == count_from(data@, end as int, f, t));
                    }
                }
                assert(out_from(data@, p, f) == out_from(data@, end as int, f));
                assert(trunc_from(data@, p) == trunc_from(data@, end as int));
            }
            pos = end;
        } else {
            let ghost out_snap = output@;
            write_int(&mut output, timestamp);
            write_int(&mut output, length);
            push_range(&mut output, data, pos + 8, end);
            proof {
                crate::utils::lemma_int_roundtrip(data@, p);
                crate::utils::lemma_int_roundtrip(data@, p + 4);
                assert(output@ =~= out_snap + data@.subrange(p, end as int));
                assert(out_from(data@, p, f) == data@.subrange(p, end as int) + out_from(
                    data@,
                    end as int,
                    f,
                ));
                assert(out_snap + out_from(data@, p, f) =~= output@ + out_from(
                    data@,
                    end as int,
                    f,
                ));
                assert forall|t: u32| #[trigger]
                    count_from(data@, 0, f, t) == count_in(counts@, t) + count_from(
                        data@,
                        end as int,
                        f,
                        t,
                    ) by {
                    assert(count_from(data@, p, f, t) == count_from(data@, end as int, f, t));
                }
                assert(trunc_from(data@, p) == trunc_from(data@, end as int));
            }
            pos = end;
        }
    }
}

/// Whether an archive entry name designates the record-stream entry.
pub open spec fn is_stream_entry(name: Seq<char>) -> bool {
    name == "recording.tmcpr"@
}

/// Compares an entry name against the record-stream entry name.
pub fn is_stream_entry_name(name: &str) -> (r: bool)
    ensures
        r == is_stream_entry(name@),
{
    proof {
        vstd::utf8::encode_utf8_decode_utf8(name@);
        vstd::utf8::encode_utf8_decode_utf8("recording.tmcpr"@);
    }
    let a = name.as_bytes();
    let b = "recording.tmcpr".as_bytes();
    if a.len() != b.len() {
        return false;
    }
    let mut i: usize = 0;
    while i < a.len()
        invariant
            a@ == name.spec_bytes(),
            b@ == ("recording.tmcpr").spec_bytes(),
            a@.len() == b@.len(),
            0 <= i <= a@.len(),
            forall|j: int| 0 <= j < i ==> a@[j] == b@[j],
        decreases a@.len() - i,
    {
        if a[i] != b[i] {
            return false;
        }
        i = i + 1;
    }
    assert(a@ =~= b@);
    assert(name@ == "recording.tmcpr"@);
    true
}

/// Applies the container rewrite rule to one archive entry: the
/// record-stream entry has its contents filtered and counted, every
/// other entry passes through byte-identically with no removals.
pub fn rewrite_entry(name: &str, data: &[u8], filter_ids: &[u32]) -> (r: Result<
    (Vec<u8>, HashMap<u32, u64>),
    McprError,
>)
    ensures
        is_stream_entry(name@) ==> {
            &&& r is Ok <==> !trunc_from(data@, 0)
            &&& (r matches Ok(p) ==> p.0@ == out_from(data@, 0, filter_ids@) && counts_ok(
                p.1@,
                data@,
                filter_ids@,
            ))
            &&& (r is Err ==> r == Err::<(Vec<u8>, HashMap<u32, u64>), McprError>(
                McprError::UnexpectedEof,
            ))
        },
        !is_stream_entry(name@) ==> (r matches Ok(p) && p.0@ == data@ && p.1@ == Map::<
            u32,
            u64,
        >::empty()),
{
    if is_stream_entry_name(name) {
        process_tmcpr(data, filter_ids)
    } else {
        let mut copy: Vec<u8> = Vec::new();
        push_range(&mut copy, data, 0, data.len());
        assert(copy@ =~= data@);
        Ok((copy, HashMap::new()))
    }
}

} // verus!
