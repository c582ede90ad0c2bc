//! Bytes that are made of records of one width.
use vstd::prelude::*;
use vstd::arithmetic::div_mod::lemma_fundamental_div_mod_converse;

verus! {

/// The records number 0 up to `count`, each `width` bytes wide, one after the other.
pub open spec fn records(count: nat, width: nat, record: spec_fn(int) -> Seq<u8>) -> Seq<u8> {
    Seq::new(count * width, |k: int| record(k / width as int)[k % width as int])
}

/// The byte number `at` of the record number `i` is the byte number `i * width + at` of the records.
pub(crate) proof fn lemma_record_byte(
    count: nat,
    width: nat,
    record: spec_fn(int) -> Seq<u8>,
    i: int,
    at: int,
)
    requires
        0 <= i < count,
        0 <= at < width,
    ensures
        0 <= i * width + at < count * width,
        records(count, width, record).len() == count * width,
        records(count, width, record)[i * width + at] == record(i)[at],
{
    let k = i * width + at;
    assert(0 <= i * width) by (nonlinear_arith)
        requires
            0 <= i,
            0 <= width,
    ;
    assert((i + 1) * width <= count * width) by (nonlinear_arith)
        requires
            i + 1 <= count,
            0 <= width,
    ;
    assert((i + 1) * width == i * width + width) by (nonlinear_arith);
    lemma_fundamental_div_mod_converse(k, width as int, i, at);
}

/// The records up to number `count`, then the record number `count`, are the records up to
/// number `count + 1`.
pub(crate) proof fn lemma_records_push(count: nat, width: nat, record: spec_fn(int) -> Seq<u8>)
    requires
        width > 0,
        record(count as int).len() == width,
    ensures
        records(count + 1, width, record) == records(count, width, record) + record(count as int),
        records(count, width, record).len() == count * width,
        records(count + 1, width, record).len() == count * width + width,
{
    let more = records(count + 1, width, record);
    let less = records(count, width, record) + record(count as int);
    assert((count + 1) * width == count * width + width) by (nonlinear_arith);
    assert forall|k: int| 0 <= k < more.len() implies more[k] == less[k] by {
        if k >= count * width {
            lemma_fundamental_div_mod_converse(k, width as int, count as int, k - count * width);
        }
    }
    assert(more =~= less);
}

/// Where the records of a section stand in bytes that hold the section from `start` on.
pub(crate) proof fn lemma_record_in(
    data: Seq<u8>,
    start: int,
    count: nat,
    width: nat,
    record: spec_fn(int) -> Seq<u8>,
    i: int,
)
    requires
        0 <= start,
        start + count * width <= data.len(),
        data.subrange(start, start + count * width) == records(count, width, record),
        0 <= i < count,
        width > 0,
        record(i).len() == width,
    ensures
        0 <= start + i * width,
        start + i * width + width <= start + count * width,
        data.subrange(start + i * width, start + i * width + width) == record(i),
{
    lemma_record_byte(count, width, record, i, 0);
    assert((i + 1) * width <= count * width) by (nonlinear_arith)
        requires
            i + 1 <= count,
            0 <= width,
    ;
    assert((i + 1) * width == i * width + width) by (nonlinear_arith);
    let part = data.subrange(start + i * width, start + i * width + width);
    assert forall|at: int| 0 <= at < width implies part[at] == record(i)[at] by {
        lemma_record_byte(count, width, record, i, at);
        assert(data.subrange(start, start + count * width)[i * width + at] == data[start + i * width
            + at]);
    }
    assert(part =~= record(i));
}

} // verus!
