//! What is written can be read again: names, questions, records and whole
//! messages, with the pointers that compression puts in.

use crate::buffer::{be16, be16_bytes, be32, be32_bytes};
use crate::compression::{
    depth_of, first_known, known_after, label_bytes, learn, name_ok, name_wire, pointer_bytes,
    wire_len, written_labels, Known, Slot, POINTER_LIMIT,
};
use crate::error::CodecError;
use crate::header::Header;
use crate::name::{
    parse_name, parse_name_from, pointer_target, MAX_JUMPS, MAX_LABEL, MAX_NAME, POINTER_MARK,
};
use crate::packet::{
    counted_header, packet_fault, packet_wire, parse_packet, parse_questions, parse_records,
    questions_fault, questions_wire, records_fault, records_wire, wire_additional, wire_answers,
    wire_authority, wire_questions, PacketView, HEADER_LEN,
};
use crate::record::{
    parse_question, parse_record, question_wire, record_wire, QuestionView, RecordView,
    MAX_RDATA, TTL_LIMIT,
};
use vstd::prelude::*;

verus! {

/// Whether `long` begins with `short`.
pub open spec fn begins(long: Seq<u8>, short: Seq<u8>) -> bool {
    short.len() <= long.len() && long.subrange(0, short.len() as int) == short
}

/// Where `long` begins with `short`, both hold the same byte at every index
/// of `short`.
pub proof fn lemma_begins_index(long: Seq<u8>, short: Seq<u8>, i: int)
    requires
        begins(long, short),
        0 <= i < short.len(),
    ensures
        long[i] == short[i],
{
    assert(long.subrange(0, short.len() as int)[i] == long[i]);
}

/// Where `long` begins with `short`, both hold the same bytes in every
/// range of `short`.
pub proof fn lemma_begins_range(long: Seq<u8>, short: Seq<u8>, a: int, b: int)
    requires
        begins(long, short),
        0 <= a <= b <= short.len(),
    ensures
        long.subrange(a, b) == short.subrange(a, b),
{
    assert forall|i: int| 0 <= i < b - a implies long.subrange(a, b)[i] == short.subrange(
        a,
        b,
    )[i] by {
        lemma_begins_index(long, short, a + i);
    }
    assert(long.subrange(a, b) =~= short.subrange(a, b));
}

/// Beginning with a sequence carries over to what that sequence begins
/// with.
pub proof fn lemma_begins_twice(long: Seq<u8>, mid: Seq<u8>, short: Seq<u8>)
    requires
        begins(long, mid),
        begins(mid, short),
    ensures
        begins(long, short),
{
    assert forall|i: int| 0 <= i < short.len() implies long.subrange(0, short.len() as int)[i]
        == short[i] by {
        lemma_begins_index(long, mid, i);
        lemma_begins_index(mid, short, i);
    }
    assert(long.subrange(0, short.len() as int) =~= short);
}

/// A sequence with more behind it begins with itself.
pub proof fn lemma_begins_append(short: Seq<u8>, more: Seq<u8>)
    ensures
        begins(short + more, short),
{
    assert((short + more).subrange(0, short.len() as int) =~= short);
}

/// A name that could be read, or was refused for anything but the end of
/// the buffer, is read in the same way from any buffer that begins with
/// this one.
pub proof fn lemma_parse_name_extends(
    short: Seq<u8>,
    long: Seq<u8>,
    at: int,
    jumps: int,
    used: int,
)
    requires
        begins(long, short),
        parse_name_from(short, at, jumps, used) != Err::<(Seq<Seq<u8>>, int), CodecError>(
            CodecError::TruncatedBuffer,
        ),
    ensures
        parse_name_from(long, at, jumps, used) == parse_name_from(short, at, jumps, used),
    decreases MAX_JUMPS - jumps, short.len() - at,
{
    if 0 <= at < short.len() {
        lemma_begins_index(long, short, at);
        let b = short[at];
        if b == 0 {
        } else if b >= POINTER_MARK {
            if at + 1 < short.len() {
                lemma_begins_index(long, short, at + 1);
                let target = pointer_target(b, short[at + 1]);
                if target < at && jumps < MAX_JUMPS {
                    lemma_parse_name_extends(short, long, target, jumps + 1, used);
                }
            }
        } else if b > MAX_LABEL {
        } else if at + 1 + b > short.len() {
        } else if used + 1 + b + 1 > MAX_NAME {
        } else {
            lemma_begins_range(long, short, at + 1, at + 1 + b);
            lemma_parse_name_extends(short, long, at + 1 + b, jumps, used + 1 + b);
        }
    }
}

/// A name that was read ends behind where it began and inside the buffer.
pub proof fn lemma_parse_name_bounds(buf: Seq<u8>, at: int, jumps: int, used: int)
    requires
        parse_name_from(buf, at, jumps, used) is Ok,
    ensures
        at < parse_name_from(buf, at, jumps, used)->Ok_0.1 <= buf.len(),
    decreases MAX_JUMPS - jumps, buf.len() - at,
{
    let b = buf[at];
    if b == 0 {
    } else if b >= POINTER_MARK {
    } else {
        lemma_parse_name_bounds(buf, at + 1 + b, jumps, used + 1 + b);
    }
}

/// How many bytes the name `labels` takes from its label `i` on, with the
/// byte that ends it.
pub open spec fn rest_len(labels: Seq<Seq<u8>>, i: int) -> int {
    label_bytes(labels, labels.len() as int).len() - label_bytes(labels, i).len() + 1
}

/// The first labels of a name stand at the front of any longer run of its
/// labels.
pub proof fn lemma_label_bytes_begins(labels: Seq<Seq<u8>>, i: int, n: int)
    requires
        0 <= i <= n,
    ensures
        begins(label_bytes(labels, n), label_bytes(labels, i)),
    decreases n - i,
{
    let whole = label_bytes(labels, n);
    let front = label_bytes(labels, i);
    if i < n {
        lemma_label_bytes_begins(labels, i, n - 1);
        let mid = label_bytes(labels, n - 1);
        assert(whole.subrange(0, front.len() as int) =~= mid.subrange(0, front.len() as int));
    } else {
        assert(whole.subrange(0, front.len() as int) =~= front);
    }
}

/// The labels of the rest of a name take as many bytes as they take within
/// the whole name.
pub proof fn lemma_label_bytes_skip(labels: Seq<Seq<u8>>, i: int, m: int)
    requires
        0 <= i,
        0 <= m,
        i + m <= labels.len(),
    ensures
        label_bytes(labels.skip(i), m).len() == label_bytes(labels, i + m).len() - label_bytes(
            labels,
            i,
        ).len(),
    decreases m,
{
    if m > 0 {
        lemma_label_bytes_skip(labels, i, m - 1);
        assert(labels.skip(i)[m - 1] == labels[i + m - 1]);
    }
}

/// The rest of a name written in full takes `rest_len` bytes.
pub proof fn lemma_wire_len_skip(labels: Seq<Seq<u8>>, i: int)
    requires
        0 <= i <= labels.len(),
    ensures
        wire_len(labels.skip(i)) == rest_len(labels, i),
{
    lemma_label_bytes_skip(labels, i, labels.len() - i);
}

/// The index that the two bytes of a pointer hold is the index that the
/// pointer was made for.
pub proof fn lemma_pointer_round_trip(offset: int)
    requires
        0 <= offset < POINTER_LIMIT,
    ensures
        pointer_bytes(offset).len() == 2,
        pointer_bytes(offset)[0] >= POINTER_MARK,
        pointer_target(pointer_bytes(offset)[0], pointer_bytes(offset)[1]) == offset,
{
}

/// Within a written name every label that was written out stands behind
/// the byte that holds its length.
pub proof fn lemma_label_in_place(
    labels: Seq<Seq<u8>>,
    i: int,
    k: int,
    pre: Seq<u8>,
    post: Seq<u8>,
)
    requires
        0 <= i < k <= labels.len(),
    ensures
        ({
            let w = pre + (label_bytes(labels, k) + post);
            let at = pre.len() as int + label_bytes(labels, i).len();
            &&& at + 1 + labels[i].len() == pre.len() as int + label_bytes(labels, i + 1).len()
            &&& at + 1 + labels[i].len() <= pre.len() as int + label_bytes(labels, k).len()
            &&& w[at] == labels[i].len() as u8
            &&& w.subrange(at + 1, at + 1 + labels[i].len()) == labels[i]
        }),
{
    let whole = label_bytes(labels, k);
    let front = label_bytes(labels, i);
    let next = label_bytes(labels, i + 1);
    let w = pre + (whole + post);
    let at = pre.len() as int + front.len();
    lemma_label_bytes_begins(labels, i + 1, k);
    assert(next == front + seq![labels[i].len() as u8] + labels[i]);
    assert forall|j: int| 0 <= j < next.len() implies w[pre.len() as int + j] == next[j] by {
        lemma_begins_index(whole, next, j);
    }
    assert(w[at] == next[front.len() as int]);
    assert forall|j: int| 0 <= j < labels[i].len() implies w.subrange(
        at + 1,
        at + 1 + labels[i].len(),
    )[j] == labels[i][j] by {
        assert(w[pre.len() as int + (front.len() + 1 + j)] == next[front.len() + 1 + j]);
    }
    assert(w.subrange(at + 1, at + 1 + labels[i].len()) =~= labels[i]);
}

/// From index `at` of `buf` the name `labels` is read, however many
/// pointers were followed and labels read before, as long as `depth` more
/// pointers and the bytes of `labels` are still within the limits.
pub open spec fn reads_as(buf: Seq<u8>, at: int, labels: Seq<Seq<u8>>, depth: int) -> bool {
    forall|jumps: int, used: int|
        0 <= jumps && jumps + depth <= MAX_JUMPS && 0 <= used && used + wire_len(labels)
            <= MAX_NAME ==> (#[trigger] parse_name_from(buf, at, jumps, used)) is Ok
            && parse_name_from(buf, at, jumps, used)->Ok_0.0 == labels
}

/// Every name that `known` holds can be read from `out` at the index that
/// `known` gives for it, and a pointer to that index can be written and
/// followed.
pub open spec fn table_fits(out: Seq<u8>, known: Known) -> bool {
    forall|key: Seq<Seq<u8>>| #[trigger]
        known.contains_key(key) ==> {
            &&& 0 <= known[key].offset < out.len()
            &&& known[key].offset < POINTER_LIMIT
            &&& 0 <= known[key].depth < MAX_JUMPS
            &&& reads_as(out, known[key].offset, key, known[key].depth)
        }
}

/// A table that fits a buffer fits every buffer that begins with it.
pub proof fn lemma_table_fits_extends(short: Seq<u8>, long: Seq<u8>, known: Known)
    requires
        begins(long, short),
        table_fits(short, known),
    ensures
        table_fits(long, known),
{
    assert forall|key: Seq<Seq<u8>>| #[trigger] known.contains_key(key) implies reads_as(
        long,
        known[key].offset,
        key,
        known[key].depth,
    ) by {
        let slot = known[key];
        assert(reads_as(short, slot.offset, key, slot.depth));
        assert forall|jumps: int, used: int|
            0 <= jumps && jumps + slot.depth <= MAX_JUMPS && 0 <= used && used + wire_len(key)
                <= MAX_NAME implies (#[trigger] parse_name_from(long, slot.offset, jumps, used))
            is Ok && parse_name_from(long, slot.offset, jumps, used)->Ok_0.0 == key by {
            assert(parse_name_from(short, slot.offset, jumps, used) is Ok);
            lemma_parse_name_extends(short, long, slot.offset, jumps, used);
        }
    }
}

/// The first label from which the rest of a name is known lies within the
/// name, and the rest from there is known where it is not the end.
pub proof fn lemma_first_known(labels: Seq<Seq<u8>>, known: Known, i: int)
    requires
        0 <= i <= labels.len(),
    ensures
        i <= first_known(labels, known, i) <= labels.len(),
        first_known(labels, known, i) < labels.len() ==> known.contains_key(
            labels.skip(first_known(labels, known, i)),
        ),
    decreases labels.len() - i,
{
    if i < labels.len() && !known.contains_key(labels.skip(i)) {
        lemma_first_known(labels, known, i + 1);
    }
}

/// In a written name the rest of the name is read from the place of each
/// label that was written out, and from the place where the name ends or
/// points back.
pub proof fn lemma_reads_rest(
    out: Seq<u8>,
    known: Known,
    labels: Seq<Seq<u8>>,
    i: int,
    jumps: int,
    used: int,
)
    requires
        table_fits(out, known),
        name_ok(labels),
        0 <= i <= written_labels(labels, known),
        0 <= jumps,
        jumps + depth_of(labels, known) <= MAX_JUMPS,
        0 <= used,
        used + rest_len(labels, i) <= MAX_NAME,
    ensures
        parse_name_from(
            out + name_wire(labels, known),
            out.len() as int + label_bytes(labels, i).len(),
            jumps,
            used,
        ) == Ok::<(Seq<Seq<u8>>, int), CodecError>(
            (labels.skip(i), out.len() as int + name_wire(labels, known).len()),
        ),
    decreases written_labels(labels, known) - i,
{
    let k = written_labels(labels, known);
    let n = labels.len() as int;
    let w = out + name_wire(labels, known);
    let at = out.len() as int + label_bytes(labels, i).len();
    lemma_first_known(labels, known, 0);
    if i == k {
        if k == n {
            assert(w[at] == 0u8);
            assert(labels.skip(i) =~= Seq::<Seq<u8>>::empty());
        } else {
            let key = labels.skip(k);
            let slot = known[key];
            assert(known.contains_key(key));
            lemma_pointer_round_trip(slot.offset);
            let pointer = pointer_bytes(slot.offset);
            assert(w[at] == pointer[0]);
            assert(w[at + 1] == pointer[1]);
            lemma_wire_len_skip(labels, k);
            assert(reads_as(out, slot.offset, key, slot.depth));
            assert(parse_name_from(out, slot.offset, jumps + 1, used) is Ok);
            lemma_begins_append(out, name_wire(labels, known));
            lemma_parse_name_extends(out, w, slot.offset, jumps + 1, used);
            assert(Seq::<Seq<u8>>::empty() + key =~= key);
        }
    } else {
        let post = if k == n {
            seq![0u8]
        } else {
            pointer_bytes(known[labels.skip(k)].offset)
        };
        assert(w == out + (label_bytes(labels, k) + post));
        lemma_label_in_place(labels, i, k, out, post);
        let size = labels[i].len() as int;
        assert(1 <= size <= MAX_LABEL);
        assert(w[at] == size as u8);
        lemma_label_bytes_begins(labels, i + 1, n);
        lemma_reads_rest(out, known, labels, i + 1, jumps, used + 1 + size);
        assert(seq![labels[i]] + labels.skip(i + 1) =~= labels.skip(i));
    }
}

/// The table that has learnt the first `m` rests of a written name fits
/// the buffer with the name in it.
pub proof fn lemma_learn_fits(out: Seq<u8>, known: Known, labels: Seq<Seq<u8>>, m: int)
    requires
        table_fits(out, known),
        name_ok(labels),
        0 <= m <= written_labels(labels, known),
    ensures
        table_fits(out + name_wire(labels, known), learn(labels, out.len() as int, known, m)),
    decreases m,
{
    let w = out + name_wire(labels, known);
    let k = written_labels(labels, known);
    lemma_begins_append(out, name_wire(labels, known));
    lemma_first_known(labels, known, 0);
    if m <= 0 {
        lemma_table_fits_extends(out, w, known);
    } else {
        lemma_learn_fits(out, known, labels, m - 1);
        let before = learn(labels, out.len() as int, known, m - 1);
        let offset = out.len() as int + label_bytes(labels, m - 1).len();
        let depth = depth_of(labels, known);
        if offset < POINTER_LIMIT && depth < MAX_JUMPS {
            let key = labels.skip(m - 1);
            let after = before.insert(key, Slot { offset, depth });
            lemma_label_bytes_begins(labels, m - 1, k);
            lemma_wire_len_skip(labels, m - 1);
            assert(reads_as(w, offset, key, depth)) by {
                assert forall|jumps: int, used: int|
                    0 <= jumps && jumps + depth <= MAX_JUMPS && 0 <= used && used + wire_len(key)
                        <= MAX_NAME implies (#[trigger] parse_name_from(w, offset, jumps, used))
                    is Ok && parse_name_from(w, offset, jumps, used)->Ok_0.0 == key by {
                    lemma_reads_rest(out, known, labels, m - 1, jumps, used);
                }
            }
            assert forall|other: Seq<Seq<u8>>| #[trigger] after.contains_key(other) implies {
                &&& 0 <= after[other].offset < w.len()
                &&& after[other].offset < POINTER_LIMIT
                &&& 0 <= after[other].depth < MAX_JUMPS
                &&& reads_as(w, after[other].offset, other, after[other].depth)
            } by {
                if other != key {
                    assert(before.contains_key(other));
                }
            }
        }
    }
}

/// A name that was written is read again from where it was written,
/// whatever stands behind it, and the table that has learnt it fits the
/// buffer with the name in it.
pub proof fn lemma_name_round_trip(
    out: Seq<u8>,
    known: Known,
    labels: Seq<Seq<u8>>,
    buf: Seq<u8>,
)
    requires
        table_fits(out, known),
        name_ok(labels),
        begins(buf, out + name_wire(labels, known)),
    ensures
        parse_name(buf, out.len() as int) == Ok::<(Seq<Seq<u8>>, int), CodecError>(
            (labels, out.len() as int + name_wire(labels, known).len()),
        ),
        table_fits(out + name_wire(labels, known), known_after(labels, out.len() as int, known)),
{
    let w = out + name_wire(labels, known);
    lemma_first_known(labels, known, 0);
    lemma_reads_rest(out, known, labels, 0, 0, 0);
    assert(labels.skip(0) =~= labels);
    lemma_parse_name_extends(w, buf, out.len() as int, 0, 0);
    lemma_learn_fits(out, known, labels, written_labels(labels, known));
}

/// A question that the wire can hold.
pub open spec fn question_ok(q: QuestionView) -> bool {
    name_ok(q.qname)
}

/// A record that the wire can hold and that is read as it is: beside its
/// name and the length of its data, its time to live has the top bit
/// clear.
pub open spec fn record_ok(r: RecordView) -> bool {
    &&& name_ok(r.qname)
    &&& r.rdata.len() <= MAX_RDATA
    &&& r.ttl < TTL_LIMIT
}

/// Two bytes written for a 16-bit value hold that value.
pub proof fn lemma_be16_round_trip(pre: Seq<u8>, v: u16, post: Seq<u8>)
    ensures
        be16(pre + be16_bytes(v) + post, pre.len() as int) == v,
{
    let w = pre + be16_bytes(v) + post;
    assert(w[pre.len() as int] == be16_bytes(v)[0]);
    assert(w[pre.len() as int + 1] == be16_bytes(v)[1]);
}

/// Four bytes written for a 32-bit value hold that value.
pub proof fn lemma_be32_round_trip(pre: Seq<u8>, v: u32, post: Seq<u8>)
    ensures
        be32(pre + be32_bytes(v) + post, pre.len() as int) == v,
{
    let w = pre + be32_bytes(v) + post;
    assert(w[pre.len() as int] == be32_bytes(v)[0]);
    assert(w[pre.len() as int + 1] == be32_bytes(v)[1]);
    assert(w[pre.len() as int + 2] == be32_bytes(v)[2]);
    assert(w[pre.len() as int + 3] == be32_bytes(v)[3]);
    let n = v as int;
    assert(n == 16777216 * (n / 16777216) + n % 16777216);
    assert(n / 65536 == 256 * (n / 16777216) + (n / 65536) % 256);
    assert(n / 256 == 256 * (n / 65536) + (n / 256) % 256);
    assert(n == 256 * (n / 256) + n % 256);
}

/// A question that was written is read again from where it was written,
/// whatever stands behind it.
pub proof fn lemma_question_round_trip(
    out: Seq<u8>,
    known: Known,
    q: QuestionView,
    buf: Seq<u8>,
)
    requires
        table_fits(out, known),
        question_ok(q),
        begins(buf, out + question_wire(q, known)),
    ensures
        parse_question(buf, out.len() as int) == Ok::<(QuestionView, int), CodecError>(
            (q, out.len() as int + question_wire(q, known).len()),
        ),
        table_fits(out + question_wire(q, known), known_after(q.qname, out.len() as int, known)),
{
    let name = name_wire(q.qname, known);
    let whole = out + question_wire(q, known);
    let named = out + name;
    let tail = be16_bytes(q.qtype) + be16_bytes(q.qclass);
    assert(whole =~= named + tail);
    lemma_begins_append(named, tail);
    lemma_begins_twice(buf, whole, named);
    lemma_name_round_trip(out, known, q.qname, buf);
    lemma_table_fits_extends(named, whole, known_after(q.qname, out.len() as int, known));
    let next = out.len() as int + name.len();
    assert(whole =~= named + be16_bytes(q.qtype) + be16_bytes(q.qclass));
    lemma_be16_round_trip(named, q.qtype, be16_bytes(q.qclass));
    assert(whole =~= (named + be16_bytes(q.qtype)) + be16_bytes(q.qclass) + Seq::<u8>::empty());
    lemma_be16_round_trip(named + be16_bytes(q.qtype), q.qclass, Seq::<u8>::empty());
    lemma_begins_index(buf, whole, next);
    lemma_begins_index(buf, whole, next + 1);
    lemma_begins_index(buf, whole, next + 2);
    lemma_begins_index(buf, whole, next + 3);
}

/// A record that was written is read again from where it was written,
/// whatever stands behind it.
pub proof fn lemma_record_round_trip(out: Seq<u8>, known: Known, r: RecordView, buf: Seq<u8>)
    requires
        table_fits(out, known),
        record_ok(r),
        begins(buf, out + record_wire(r, known)),
    ensures
        parse_record(buf, out.len() as int) == Ok::<(RecordView, int), CodecError>(
            (r, out.len() as int + record_wire(r, known).len()),
        ),
        table_fits(out + record_wire(r, known), known_after(r.qname, out.len() as int, known)),
{
    let name = name_wire(r.qname, known);
    let whole = out + record_wire(r, known);
    let named = out + name;
    let size = r.rdata.len() as u16;
    let a = be16_bytes(r.qtype);
    let b = be16_bytes(r.qclass);
    let c = be32_bytes(r.ttl);
    let d = be16_bytes(size);
    let tail = a + b + c + d + r.rdata;
    assert(whole =~= named + tail);
    lemma_begins_append(named, tail);
    lemma_begins_twice(buf, whole, named);
    lemma_name_round_trip(out, known, r.qname, buf);
    lemma_table_fits_extends(named, whole, known_after(r.qname, out.len() as int, known));
    let next = out.len() as int + name.len();
    assert(whole =~= named + a + (b + c + d + r.rdata));
    lemma_be16_round_trip(named, r.qtype, b + c + d + r.rdata);
    assert(whole =~= (named + a) + b + (c + d + r.rdata));
    lemma_be16_round_trip(named + a, r.qclass, c + d + r.rdata);
    assert(whole =~= (named + a + b) + c + (d + r.rdata));
    lemma_be32_round_trip(named + a + b, r.ttl, d + r.rdata);
    assert(whole =~= (named + a + b + c) + d + r.rdata);
    lemma_be16_round_trip(named + a + b + c, size, r.rdata);
    assert forall|i: int| next <= i < whole.len() implies buf[i] == whole[i] by {
        lemma_begins_index(buf, whole, i);
    }
    assert(be16(buf, next) == be16(whole, next));
    assert(be16(buf, next + 2) == be16(whole, next + 2));
    assert(be32(buf, next + 4) == be32(whole, next + 4));
    assert(be16(buf, next + 8) == be16(whole, next + 8));
    lemma_begins_range(buf, whole, next + 10, next + 10 + size);
    assert(whole.subrange(next + 10, next + 10 + size) =~= r.rdata);
}

/// Questions that were written one behind the other are read again in
/// their order from where they were written.
pub proof fn lemma_questions_round_trip(
    out: Seq<u8>,
    known: Known,
    qs: Seq<QuestionView>,
    n: int,
    buf: Seq<u8>,
)
    requires
        table_fits(out, known),
        0 <= n <= qs.len(),
        forall|i: int| 0 <= i < n ==> question_ok(#[trigger] qs[i]),
        begins(buf, out + questions_wire(qs, n, out.len() as int, known).bytes),
    ensures
        parse_questions(buf, out.len() as int, n) == Ok::<(Seq<QuestionView>, int), CodecError>(
            (
                qs.take(n),
                out.len() as int + questions_wire(qs, n, out.len() as int, known).bytes.len(),
            ),
        ),
        table_fits(
            out + questions_wire(qs, n, out.len() as int, known).bytes,
            questions_wire(qs, n, out.len() as int, known).known,
        ),
    decreases n,
{
    let done = questions_wire(qs, n, out.len() as int, known);
    if n <= 0 {
        assert(out + done.bytes =~= out);
        assert(qs.take(n) =~= Seq::<QuestionView>::empty());
    } else {
        let before = questions_wire(qs, n - 1, out.len() as int, known);
        let last = question_wire(qs[n - 1], before.known);
        assert(out + done.bytes =~= (out + before.bytes) + last);
        lemma_begins_append(out + before.bytes, last);
        lemma_begins_twice(buf, out + done.bytes, out + before.bytes);
        lemma_questions_round_trip(out, known, qs, n - 1, buf);
        lemma_question_round_trip(out + before.bytes, before.known, qs[n - 1], buf);
        assert(qs.take(n - 1).push(qs[n - 1]) =~= qs.take(n));
    }
}

/// Records that were written one behind the other are read again in their
/// order from where they were written.
pub proof fn lemma_records_round_trip(
    out: Seq<u8>,
    known: Known,
    rs: Seq<RecordView>,
    n: int,
    buf: Seq<u8>,
)
    requires
        table_fits(out, known),
        0 <= n <= rs.len(),
        forall|i: int| 0 <= i < n ==> record_ok(#[trigger] rs[i]),
        begins(buf, out + records_wire(rs, n, out.len() as int, known).bytes),
    ensures
        parse_records(buf, out.len() as int, n) == Ok::<(Seq<RecordView>, int), CodecError>(
            (
                rs.take(n),
                out.len() as int + records_wire(rs, n, out.len() as int, known).bytes.len(),
            ),
        ),
        table_fits(
            out + records_wire(rs, n, out.len() as int, known).bytes,
            records_wire(rs, n, out.len() as int, known).known,
        ),
    decreases n,
{
    let done = records_wire(rs, n, out.len() as int, known);
    if n <= 0 {
        assert(out + done.bytes =~= out);
        assert(rs.take(n) =~= Seq::<RecordView>::empty());
    } else {
        let before = records_wire(rs, n - 1, out.len() as int, known);
        let last = record_wire(rs[n - 1], before.known);
        assert(out + done.bytes =~= (out + before.bytes) + last);
        lemma_begins_append(out + before.bytes, last);
        lemma_begins_twice(buf, out + done.bytes, out + before.bytes);
        lemma_records_round_trip(out, known, rs, n - 1, buf);
        lemma_record_round_trip(out + before.bytes, before.known, rs[n - 1], buf);
        assert(rs.take(n - 1).push(rs[n - 1]) =~= rs.take(n));
    }
}

/// Questions that the wire can hold are not at fault.
pub proof fn lemma_questions_sound(qs: Seq<QuestionView>, n: int)
    requires
        0 <= n <= qs.len(),
        forall|i: int| 0 <= i < n ==> question_ok(#[trigger] qs[i]),
    ensures
        questions_fault(qs, n) is None,
    decreases n,
{
    if n > 0 {
        lemma_questions_sound(qs, n - 1);
        assert(question_ok(qs[n - 1]));
    }
}

/// Records that the wire can hold are not at fault.
pub proof fn lemma_records_sound(rs: Seq<RecordView>, n: int)
    requires
        0 <= n <= rs.len(),
        forall|i: int| 0 <= i < n ==> record_ok(#[trigger] rs[i]),
    ensures
        records_fault(rs, n) is None,
    decreases n,
{
    if n > 0 {
        lemma_records_sound(rs, n - 1);
        assert(record_ok(rs[n - 1]));
    }
}

/// A well-formed message: the fields of its header fit their bits, the
/// counts of its header are the lengths of its lists, and each question
/// and record is one that the wire can hold and that is read as it is.
pub open spec fn packet_ok(p: PacketView) -> bool {
    &&& p.header.wf()
    &&& p.header.questions == p.questions.len()
    &&& p.header.answers == p.answers.len()
    &&& p.header.authoritative_entries == p.authority.len()
    &&& p.header.additional_records == p.additional.len()
    &&& forall|i: int| 0 <= i < p.questions.len() ==> question_ok(#[trigger] p.questions[i])
    &&& forall|i: int| 0 <= i < p.answers.len() ==> record_ok(#[trigger] p.answers[i])
    &&& forall|i: int| 0 <= i < p.authority.len() ==> record_ok(#[trigger] p.authority[i])
    &&& forall|i: int| 0 <= i < p.additional.len() ==> record_ok(#[trigger] p.additional[i])
}

/// The bytes of a message up to the end of its questions.
pub open spec fn upto_questions(p: PacketView) -> Seq<u8> {
    counted_header(p).wire() + wire_questions(p).bytes
}

/// The bytes of a message up to the end of its answer records.
pub open spec fn upto_answers(p: PacketView) -> Seq<u8> {
    upto_questions(p) + wire_answers(p).bytes
}

/// The bytes of a message up to the end of its authority records.
pub open spec fn upto_authority(p: PacketView) -> Seq<u8> {
    upto_answers(p) + wire_authority(p).bytes
}

/// The bytes of a message begin with its header and with each of its
/// lists in turn.
proof fn lemma_layout(p: PacketView)
    ensures
        counted_header(p).wire().len() == HEADER_LEN,
        packet_wire(p) == upto_authority(p) + wire_additional(p).bytes,
        begins(packet_wire(p), counted_header(p).wire()),
        begins(packet_wire(p), upto_questions(p)),
        begins(packet_wire(p), upto_answers(p)),
        begins(packet_wire(p), upto_authority(p)),
{
    let buf = packet_wire(p);
    let head = counted_header(p).wire();
    lemma_begins_append(upto_authority(p), wire_additional(p).bytes);
    lemma_begins_append(upto_answers(p), wire_authority(p).bytes);
    lemma_begins_append(upto_questions(p), wire_answers(p).bytes);
    lemma_begins_append(head, wire_questions(p).bytes);
    lemma_begins_twice(buf, upto_authority(p), upto_answers(p));
    lemma_begins_twice(buf, upto_answers(p), upto_questions(p));
    lemma_begins_twice(buf, upto_questions(p), head);
}

/// The bytes of a well-formed message hold its header.
proof fn lemma_header_round_trip(p: PacketView)
    requires
        packet_ok(p),
    ensures
        Header::of(packet_wire(p)) == p.header,
{
    let rest = wire_questions(p).bytes + wire_answers(p).bytes + wire_authority(p).bytes
        + wire_additional(p).bytes;
    assert(counted_header(p) == p.header);
    assert(packet_wire(p) =~= p.header.wire() + rest);
    p.header.lemma_decode_encode(rest);
}

/// The bytes of a well-formed message hold its questions behind the header.
proof fn lemma_section_questions(p: PacketView)
    requires
        packet_ok(p),
    ensures
        parse_questions(packet_wire(p), HEADER_LEN as int, p.questions.len() as int) == Ok::<
            (Seq<QuestionView>, int),
            CodecError,
        >((p.questions, upto_questions(p).len() as int)),
        table_fits(upto_questions(p), wire_questions(p).known),
{
    let head = counted_header(p).wire();
    let empty = Map::<Seq<Seq<u8>>, Slot>::empty();
    lemma_layout(p);
    assert(table_fits(head, empty));
    lemma_questions_round_trip(head, empty, p.questions, p.questions.len() as int, packet_wire(p));
    assert(p.questions.take(p.questions.len() as int) =~= p.questions);
}

/// The bytes of a well-formed message hold its answer records behind the
/// questions.
proof fn lemma_section_answers(p: PacketView)
    requires
        packet_ok(p),
    ensures
        parse_records(
            packet_wire(p),
            upto_questions(p).len() as int,
            p.answers.len() as int,
        ) == Ok::<(Seq<RecordView>, int), CodecError>((p.answers, upto_answers(p).len() as int)),
        table_fits(upto_answers(p), wire_answers(p).known),
{
    lemma_layout(p);
    lemma_section_questions(p);
    lemma_records_round_trip(
        upto_questions(p),
        wire_questions(p).known,
        p.answers,
        p.answers.len() as int,
        packet_wire(p),
    );
    assert(p.answers.take(p.answers.len() as int) =~= p.answers);
}

/// The bytes of a well-formed message hold its authority records behind
/// the answer records.
proof fn lemma_section_authority(p: PacketView)
    requires
        packet_ok(p),
    ensures
        parse_records(
            packet_wire(p),
            upto_answers(p).len() as int,
            p.authority.len() as int,
        ) == Ok::<(Seq<RecordView>, int), CodecError>(
            (p.authority, upto_authority(p).len() as int),
        ),
        table_fits(upto_authority(p), wire_authority(p).known),
{
    lemma_layout(p);
    lemma_section_answers(p);
    lemma_records_round_trip(
        upto_answers(p),
        wire_answers(p).known,
        p.authority,
        p.authority.len() as int,
        packet_wire(p),
    );
    assert(p.authority.take(p.authority.len() as int) =~= p.authority);
}

/// The bytes of a well-formed message hold its additional records behind
/// the authority records, and end with them.
proof fn lemma_section_additional(p: PacketView)
    requires
        packet_ok(p),
    ensures
        parse_records(
            packet_wire(p),
            upto_authority(p).len() as int,
            p.additional.len() as int,
        ) == Ok::<(Seq<RecordView>, int), CodecError>(
            (p.additional, packet_wire(p).len() as int),
        ),
{
    let buf = packet_wire(p);
    let out = upto_authority(p);
    lemma_layout(p);
    lemma_section_authority(p);
    assert(out.len() == HEADER_LEN + wire_questions(p).bytes.len() + wire_answers(p).bytes.len()
        + wire_authority(p).bytes.len());
    assert(buf.subrange(0, buf.len() as int) =~= buf);
    assert(begins(buf, out + wire_additional(p).bytes));
    lemma_records_round_trip(
        upto_authority(p),
        wire_authority(p).known,
        p.additional,
        p.additional.len() as int,
        packet_wire(p),
    );
    assert(p.additional.take(p.additional.len() as int) =~= p.additional);
}

/// A well-formed message can be encoded, and decoding its bytes gives the
/// same message: header, questions and records, each list in its order. The
/// decoding ends where the bytes end.
pub proof fn lemma_round_trip(p: PacketView)
    requires
        packet_ok(p),
    ensures
        packet_fault(p) is None,
        parse_packet(packet_wire(p)) == Ok::<(PacketView, int), CodecError>(
            (p, packet_wire(p).len() as int),
        ),
{
    assert(packet_fault(p) is None) by {
        lemma_questions_sound(p.questions, p.questions.len() as int);
        lemma_records_sound(p.answers, p.answers.len() as int);
        lemma_records_sound(p.authority, p.authority.len() as int);
        lemma_records_sound(p.additional, p.additional.len() as int);
    }
    lemma_layout(p);
    lemma_header_round_trip(p);
    lemma_section_questions(p);
    lemma_section_answers(p);
    lemma_section_authority(p);
    lemma_section_additional(p);
}

/// A name that was read is one that the wire can hold, with room left for
/// the labels that were read before it.
pub proof fn lemma_parsed_name_ok(buf: Seq<u8>, at: int, jumps: int, used: int)
    requires
        0 <= used,
        used + 1 <= MAX_NAME,
        parse_name_from(buf, at, jumps, used) is Ok,
    ensures
        forall|i: int|
            0 <= i < parse_name_from(buf, at, jumps, used)->Ok_0.0.len() ==> 1 <= (
            #[trigger] parse_name_from(buf, at, jumps, used)->Ok_0.0[i]).len() <= MAX_LABEL,
        used + wire_len(parse_name_from(buf, at, jumps, used)->Ok_0.0) <= MAX_NAME,
    decreases MAX_JUMPS - jumps, buf.len() - at,
{
    let b = buf[at];
    let labels = parse_name_from(buf, at, jumps, used)->Ok_0.0;
    if b == 0 {
        assert(label_bytes(labels, 0).len() == 0);
    } else if b >= POINTER_MARK {
        let target = pointer_target(b, buf[at + 1]);
        lemma_parsed_name_ok(buf, target, jumps + 1, used);
        let inner = parse_name_from(buf, target, jumps + 1, used)->Ok_0.0;
        assert(labels =~= inner);
    } else {
        let next = at + 1 + b;
        lemma_parsed_name_ok(buf, next, jumps, used + 1 + b);
        let rest = parse_name_from(buf, next, jumps, used + 1 + b)->Ok_0.0;
        let label = buf.subrange(at + 1, next);
        assert(labels == seq![label] + rest);
        assert(labels.skip(1) =~= rest);
        lemma_label_bytes_skip(labels, 1, rest.len() as int);
        assert(label_bytes(labels, 0).len() == 0);
        assert(label_bytes(labels, 1).len() == 1 + label.len());
        assert forall|i: int| 0 <= i < labels.len() implies 1 <= (#[trigger] labels[i]).len()
            <= MAX_LABEL by {
            if i > 0 {
                assert(labels[i] == rest[i - 1]);
            }
        }
    }
}

/// Questions that were read are as many as were asked for, and each is one
/// that the wire can hold.
pub proof fn lemma_parsed_questions_ok(buf: Seq<u8>, at: int, n: int)
    requires
        0 <= n,
        parse_questions(buf, at, n) is Ok,
    ensures
        parse_questions(buf, at, n)->Ok_0.0.len() == n,
        forall|i: int|
            0 <= i < n ==> question_ok(#[trigger] parse_questions(buf, at, n)->Ok_0.0[i]),
    decreases n,
{
    if n > 0 {
        lemma_parsed_questions_ok(buf, at, n - 1);
        let mid = parse_questions(buf, at, n - 1)->Ok_0.1;
        lemma_parsed_name_ok(buf, mid, 0, 0);
    }
}

/// Records that were read are as many as were asked for, and each is one
/// that is written and read again as it is.
pub proof fn lemma_parsed_records_ok(buf: Seq<u8>, at: int, n: int)
    requires
        0 <= n,
        parse_records(buf, at, n) is Ok,
    ensures
        parse_records(buf, at, n)->Ok_0.0.len() == n,
        forall|i: int| 0 <= i < n ==> record_ok(#[trigger] parse_records(buf, at, n)->Ok_0.0[i]),
    decreases n,
{
    if n > 0 {
        lemma_parsed_records_ok(buf, at, n - 1);
        let mid = parse_records(buf, at, n - 1)->Ok_0.1;
        lemma_parsed_name_ok(buf, mid, 0, 0);
    }
}

/// A message that was decoded is well formed: the counts of its header are
/// the lengths of its lists, and every name, record and field of it is one
/// that the wire can hold.
pub proof fn lemma_decoded_is_well_formed(buf: Seq<u8>)
    requires
        parse_packet(buf) is Ok,
    ensures
        packet_ok(parse_packet(buf)->Ok_0.0),
{
    let header = Header::of(buf);
    Header::lemma_decoded_is_well_formed(buf);
    lemma_parsed_questions_ok(buf, HEADER_LEN as int, header.questions as int);
    let a = parse_questions(buf, HEADER_LEN as int, header.questions as int)->Ok_0.1;
    lemma_parsed_records_ok(buf, a, header.answers as int);
    let b = parse_records(buf, a, header.answers as int)->Ok_0.1;
    lemma_parsed_records_ok(buf, b, header.authoritative_entries as int);
    let c = parse_records(buf, b, header.authoritative_entries as int)->Ok_0.1;
    lemma_parsed_records_ok(buf, c, header.additional_records as int);
}

/// A message that was decoded can be encoded, and decoding those bytes
/// gives the same message again.
pub proof fn lemma_decoded_round_trip(buf: Seq<u8>)
    requires
        parse_packet(buf) is Ok,
    ensures
        packet_fault(parse_packet(buf)->Ok_0.0) is None,
        parse_packet(packet_wire(parse_packet(buf)->Ok_0.0)) == Ok::<
            (PacketView, int),
            CodecError,
        >((parse_packet(buf)->Ok_0.0, packet_wire(parse_packet(buf)->Ok_0.0).len() as int)),
{
    lemma_decoded_is_well_formed(buf);
    lemma_round_trip(parse_packet(buf)->Ok_0.0);
}

} // verus!
