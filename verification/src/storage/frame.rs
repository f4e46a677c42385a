//! Frames of the log: the bytes of a record between its length and its checksum, so that a record
//! that was not written to its end, or was damaged, is told from one that was.
use vstd::prelude::*;

verus! {

/// How many bytes stand before those of a record: its length and its checksum.
pub const HEADER: usize = 8;

/// The polynomial of the checksum, its bits in reverse order.
pub const POLYNOMIAL: u32 = 0xedb8_8320;

/// What one bit does to a checksum.
pub open spec fn shifted(sum: u32) -> u32 {
    if sum & 1 == 1 {
        (sum >> 1) ^ POLYNOMIAL
    } else {
        sum >> 1
    }
}

/// What some bits do to a checksum.
pub open spec fn shifted_times(sum: u32, bits: nat) -> u32
    decreases bits,
{
    if bits == 0 {
        sum
    } else {
        shifted(shifted_times(sum, (bits - 1) as nat))
    }
}

/// The register of the checksum after some bytes.
pub open spec fn register(bytes: Seq<u8>) -> u32
    decreases bytes.len(),
{
    if bytes.len() == 0 {
        0xffff_ffff
    } else {
        shifted_times(register(bytes.drop_last()) ^ (bytes.last() as u32), 8)
    }
}

/// The checksum of some bytes: a cyclic redundancy check of 32 bits.
pub open spec fn checksum(bytes: Seq<u8>) -> u32 {
    register(bytes) ^ 0xffff_ffff
}

/// A number as four bytes, the lowest first.
pub open spec fn four_bytes(value: u32) -> Seq<u8> {
    seq![
        (value % 256) as u8,
        (value / 256 % 256) as u8,
        (value / 65536 % 256) as u8,
        (value / 16777216) as u8,
    ]
}

/// The number that four bytes stand for.
pub open spec fn number_at(bytes: Seq<u8>, at: int) -> int {
    bytes[at] + 256 * bytes[at + 1] + 65536 * bytes[at + 2] + 16777216 * bytes[at + 3]
}

/// Whether a record can be framed: it has bytes, and their number fits into four bytes.
pub open spec fn can_be_framed(record: Seq<u8>) -> bool {
    0 < record.len() <= u32::MAX
}

/// A record with its length and its checksum before it.
#[verifier::opaque]
pub open spec fn framed(record: Seq<u8>) -> Seq<u8> {
    four_bytes(record.len() as u32) + four_bytes(checksum(record)) + record
}

/// Records one after the other, each framed.
pub open spec fn all_framed(records: Seq<Seq<u8>>) -> Seq<u8>
    decreases records.len(),
{
    if records.len() == 0 {
        Seq::empty()
    } else {
        framed(records[0]) + all_framed(records.drop_first())
    }
}

/// Whether some bytes begin with a whole record that is not damaged.
pub open spec fn begins_with_record(bytes: Seq<u8>) -> bool {
    &&& bytes.len() >= HEADER
    &&& number_at(bytes, 0) > 0
    &&& bytes.len() >= HEADER + number_at(bytes, 0)
    &&& checksum(bytes.subrange(HEADER as int, HEADER + number_at(bytes, 0))) == number_at(bytes, 4)
}

/// The records that some bytes hold, up to the first that is not whole or is damaged.
pub open spec fn records_in(bytes: Seq<u8>) -> Seq<Seq<u8>>
    decreases bytes.len(),
{
    if begins_with_record(bytes) {
        let end = HEADER + number_at(bytes, 0);
        seq![bytes.subrange(HEADER as int, end)] + records_in(bytes.skip(end))
    } else {
        Seq::empty()
    }
}

/// What one bit does to a checksum.
fn shift(sum: u32) -> (next: u32)
    ensures
        next == shifted(sum),
{
    if sum & 1 == 1 {
        (sum >> 1) ^ POLYNOMIAL
    } else {
        sum >> 1
    }
}

/// The checksum of the bytes between two places.
pub fn find_checksum(bytes: &Vec<u8>, from: usize, to: usize) -> (sum: u32)
    requires
        from <= to <= bytes@.len(),
    ensures
        sum == checksum(bytes@.subrange(from as int, to as int)),
{
    let mut sum: u32 = 0xffff_ffff;
    let mut i: usize = from;
    assert(bytes@.subrange(from as int, from as int) =~= Seq::<u8>::empty());
    while i < to
        invariant
            from <= i <= to <= bytes@.len(),
            sum == register(bytes@.subrange(from as int, i as int)),
        decreases to - i,
    {
        proof {
            let more = bytes@.subrange(from as int, i + 1);
            assert(more.drop_last() =~= bytes@.subrange(from as int, i as int));
            assert(more.last() == bytes@[i as int]);
        }
        let start: u32 = sum ^ (bytes[i] as u32);
        let mut next: u32 = start;
        let mut bit: usize = 0;
        while bit < 8
            invariant
                bit <= 8,
                next == shifted_times(start, bit as nat),
            decreases 8 - bit,
        {
            next = shift(next);
            bit += 1;
        }
        sum = next;
        i += 1;
    }
    sum ^ 0xffff_ffff
}

/// Four bytes stand for the number that they were made of.
proof fn lemma_four_bytes(value: u32, bytes: Seq<u8>, at: int)
    requires
        0 <= at,
        at + 4 <= bytes.len(),
        bytes.subrange(at, at + 4) == four_bytes(value),
    ensures
        number_at(bytes, at) == value,
{
    let part = bytes.subrange(at, at + 4);
    assert(part[0] == bytes[at] && part[1] == bytes[at + 1] && part[2] == bytes[at + 2] && part[3]
        == bytes[at + 3]);
}

/// Adds a number to a list as four bytes.
fn push_number(list: &mut Vec<u8>, value: u32)
    ensures
        final(list)@ == old(list)@ + four_bytes(value),
{
    let ghost before = list@;
    list.push((value % 256) as u8);
    list.push((value / 256 % 256) as u8);
    list.push((value / 65536 % 256) as u8);
    list.push((value / 16777216) as u8);
    assert(list@ =~= before + four_bytes(value));
}

/// The number that four bytes stand for.
fn read_number(bytes: &Vec<u8>, at: usize) -> (value: u32)
    requires
        at + 4 <= bytes@.len(),
    ensures
        value == number_at(bytes@, at as int),
{
    let limit: usize = bytes.len();
    assert(at + 4 <= limit);
    (bytes[at] as u32) + 256 * (bytes[at + 1] as u32) + 65536 * (bytes[at + 2] as u32) + 16777216
        * (bytes[at + 3] as u32)
}

/// A record with its length and its checksum before it. A record without bytes, or one whose length
/// does not fit, has no frame.
pub fn frame(record: &Vec<u8>) -> (bytes: Option<Vec<u8>>)
    ensures
        bytes is Some <==> can_be_framed(record@),
        bytes matches Some(list) ==> list@ == framed(record@),
{
    if record.len() == 0 || record.len() > u32::MAX as usize {
        return None;
    }
    let mut list: Vec<u8> = Vec::new();
    push_number(&mut list, record.len() as u32);
    assert(record@.subrange(0, record@.len() as int) =~= record@);
    push_number(&mut list, find_checksum(record, 0, record.len()));
    let ghost head = list@;
    let mut i: usize = 0;
    assert(list@ =~= head + record@.take(0));
    while i < record.len()
        invariant
            i <= record@.len(),
            list@ == head + record@.take(i as int),
        decreases record@.len() - i,
    {
        list.push(record[i]);
        proof {
            assert(record@.take(i + 1) =~= record@.take(i as int).push(record@[i as int]));
            assert(list@ =~= head + record@.take(i + 1));
        }
        i += 1;
    }
    proof {
        reveal(framed);
        assert(record@.take(i as int) =~= record@);
        assert(list@ =~= framed(record@));
    }
    Some(list)
}

/// A record that was read, and where its frame ends.
pub struct Framed {
    pub record: Vec<u8>,
    pub end: usize,
}

/// The bytes of records.
pub open spec fn record_views(list: Seq<Framed>) -> Seq<Seq<u8>> {
    Seq::new(list.len(), |i: int| list[i].record@)
}

/// The records that some bytes hold, up to the first that is not whole or is damaged, and where
/// their frames end.
pub fn read_frames(bytes: &Vec<u8>) -> (list: Vec<Framed>)
    ensures
        record_views(list@) == records_in(bytes@),
        forall|i: int|
            0 <= i < list@.len() ==> (#[trigger] list@[i]).end == all_framed(
                records_in(bytes@).take(i + 1),
            ).len(),
{
    let mut list: Vec<Framed> = Vec::new();
    let mut at: usize = 0;
    proof {
        assert(bytes@.skip(0) =~= bytes@);
        assert(record_views(list@) + records_in(bytes@) =~= records_in(bytes@));
    }
    while bytes.len() - at >= HEADER
        invariant
            at <= bytes@.len(),
            records_in(bytes@) == record_views(list@) + records_in(bytes@.skip(at as int)),
            at == all_framed(record_views(list@)).len(),
            forall|i: int|
                0 <= i < list@.len() ==> (#[trigger] list@[i]).end == all_framed(
                    record_views(list@).take(i + 1),
                ).len(),
        ensures
            !begins_with_record(bytes@.skip(at as int)),
        decreases bytes@.len() - at,
    {
        let ghost rest = bytes@.skip(at as int);
        let length: u32 = read_number(bytes, at);
        let sum: u32 = read_number(bytes, at + 4);
        proof {
            assert(number_at(rest, 0) == length);
            assert(number_at(rest, 4) == sum);
        }
        if length == 0 || bytes.len() - at - HEADER < length as usize {
            break;
        }
        let from: usize = at + HEADER;
        let end: usize = from + length as usize;
        let ghost payload = rest.subrange(HEADER as int, HEADER + length);
        assert(payload =~= bytes@.subrange(from as int, end as int));
        if find_checksum(bytes, from, end) != sum {
            break;
        }
        let mut record: Vec<u8> = Vec::new();
        let mut i: usize = from;
        assert(bytes@.subrange(from as int, from as int) =~= Seq::<u8>::empty());
        while i < end
            invariant
                from <= i <= end <= bytes@.len(),
                record@ == bytes@.subrange(from as int, i as int),
            decreases end - i,
        {
            record.push(bytes[i]);
            assert(bytes@.subrange(from as int, i + 1) =~= bytes@.subrange(
                from as int,
                i as int,
            ).push(bytes@[i as int]));
            i += 1;
        }
        let ghost before = list@;
        list.push(Framed { record, end });
        proof {
            let few = record_views(before);
            let more = record_views(list@);
            assert(more =~= few.push(payload));
            assert(rest.skip(HEADER + length) =~= bytes@.skip(end as int));
            assert(records_in(rest) == seq![payload] + records_in(bytes@.skip(end as int)));
            assert(few + (seq![payload] + records_in(bytes@.skip(end as int))) =~= more
                + records_in(bytes@.skip(end as int)));
            lemma_framed_push(few, payload);
            reveal(framed);
            assert forall|k: int| 0 <= k < list@.len() implies (#[trigger] list@[k]).end
                == all_framed(more.take(k + 1)).len() by {
                if k < before.len() {
                    assert(list@[k] == before[k]);
                    assert(more.take(k + 1) =~= few.take(k + 1));
                } else {
                    assert(more.take(k + 1) =~= more);
                }
            }
        }
        at = end;
    }
    proof {
        assert(records_in(bytes@.skip(at as int)) =~= Seq::<Seq<u8>>::empty());
        assert(record_views(list@) =~= records_in(bytes@));
    }
    list
}

/// One more record makes its frame more bytes.
proof fn lemma_framed_push(records: Seq<Seq<u8>>, record: Seq<u8>)
    ensures
        all_framed(records.push(record)) == all_framed(records) + framed(record),
    decreases records.len(),
{
    let more = records.push(record);
    if records.len() == 0 {
        assert(more.drop_first() =~= Seq::<Seq<u8>>::empty());
        assert(all_framed(more.drop_first()) =~= Seq::<u8>::empty());
        assert(all_framed(more) =~= all_framed(records) + framed(record));
    } else {
        lemma_framed_push(records.drop_first(), record);
        assert(more.drop_first() =~= records.drop_first().push(record));
        assert(all_framed(more) =~= all_framed(records) + framed(record));
    }
}

/// A frame is read as the record in it.
proof fn lemma_frame_reads(record: Seq<u8>, rest: Seq<u8>)
    requires
        can_be_framed(record),
    ensures
        records_in(framed(record) + rest) == seq![record] + records_in(rest),
        framed(record).len() == HEADER + record.len(),
{
    reveal(framed);
    let bytes = framed(record) + rest;
    assert(bytes.subrange(0, 4) =~= four_bytes(record.len() as u32));
    assert(bytes.subrange(4, 8) =~= four_bytes(checksum(record)));
    lemma_four_bytes(record.len() as u32, bytes, 0);
    lemma_four_bytes(checksum(record), bytes, 4);
    let end = HEADER + record.len();
    assert(bytes.subrange(HEADER as int, end) =~= record);
    assert(bytes.skip(end as int) =~= rest);
}

/// Bytes that are cut off within the first frame hold no record.
proof fn lemma_cut_frame(record: Seq<u8>, rest: Seq<u8>, cut: int)
    requires
        can_be_framed(record),
        0 <= cut < framed(record).len(),
    ensures
        records_in((framed(record) + rest).take(cut)) == Seq::<Seq<u8>>::empty(),
{
    reveal(framed);
    let bytes = (framed(record) + rest).take(cut);
    if bytes.len() >= HEADER {
        assert(bytes.subrange(0, 4) =~= four_bytes(record.len() as u32));
        lemma_four_bytes(record.len() as u32, bytes, 0);
        assert(!begins_with_record(bytes));
    }
}

/// What is written is read back: framed records, one after the other, are read as those records.
pub proof fn law_frames_read_back(records: Seq<Seq<u8>>)
    requires
        forall|i: int| 0 <= i < records.len() ==> can_be_framed(#[trigger] records[i]),
    ensures
        records_in(all_framed(records)) == records,
    decreases records.len(),
{
    if records.len() == 0 {
        assert(records_in(all_framed(records)) =~= records);
    } else {
        let rest = records.drop_first();
        assert forall|i: int| 0 <= i < rest.len() implies can_be_framed(#[trigger] rest[i]) by {
            assert(rest[i] == records[i + 1]);
        }
        law_frames_read_back(rest);
        lemma_frame_reads(records[0], all_framed(rest));
        assert(seq![records[0]] + rest =~= records);
    }
}

/// A log that was cut off is read up to the cut: where the bytes end after the frames of the first
/// `whole` records and before the end of the next, those records are read and nothing else.
pub proof fn law_cut_log_reads_its_whole_records(records: Seq<Seq<u8>>, cut: int, whole: int)
    requires
        forall|i: int| 0 <= i < records.len() ==> can_be_framed(#[trigger] records[i]),
        0 <= whole <= records.len(),
        all_framed(records.take(whole)).len() <= cut <= all_framed(records).len(),
        whole < records.len() ==> cut < all_framed(records.take(whole + 1)).len(),
    ensures
        records_in(all_framed(records).take(cut)) == records.take(whole),
    decreases records.len(),
{
    let bytes = all_framed(records);
    if records.len() == 0 {
        assert(records_in(bytes.take(cut)) =~= records.take(whole));
    } else {
        let first = records[0];
        let rest = records.drop_first();
        assert forall|i: int| 0 <= i < rest.len() implies can_be_framed(#[trigger] rest[i]) by {
            assert(rest[i] == records[i + 1]);
        }
        let after = all_framed(rest);
        if whole == 0 {
            assert(records.take(1).drop_first() =~= Seq::<Seq<u8>>::empty());
            assert(records.take(1)[0] == first);
            assert(all_framed(records.take(1).drop_first()) == Seq::<u8>::empty());
            assert(all_framed(records.take(1)) == framed(first) + all_framed(
                records.take(1).drop_first(),
            ));
            lemma_cut_frame(first, after, cut);
            assert(records.take(0) =~= Seq::<Seq<u8>>::empty());
        } else {
            let size = framed(first).len() as int;
            assert(records.take(whole).drop_first() =~= rest.take(whole - 1));
            assert(records.take(whole)[0] == first);
            if whole < records.len() {
                assert(records.take(whole + 1).drop_first() =~= rest.take(whole));
                assert(records.take(whole + 1)[0] == first);
            }
            law_cut_log_reads_its_whole_records(rest, cut - size, whole - 1);
            assert(bytes.take(cut) =~= framed(first) + after.take(cut - size));
            lemma_frame_reads(first, after.take(cut - size));
            assert(seq![first] + rest.take(whole - 1) =~= records.take(whole));
        }
    }
}

} // verus!
