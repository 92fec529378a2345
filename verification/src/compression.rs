//! Writing names, with the table of names already written that lets a
//! later name point back at an earlier one.

use crate::buffer::{lemma_overlay_twice, overlay, Buffer};
use crate::error::CodecError;
use crate::name::{label_views, Name, MAX_JUMPS, MAX_LABEL, MAX_NAME};
use vstd::prelude::*;
use vstd::slice::slice_to_vec;

verus! {

/// Only an index below this fits the fourteen bits of a pointer.
pub const POINTER_LIMIT: usize = 16384;

/// The first `n` labels of a name as they stand on the wire: each one
/// behind the byte that holds its length.
pub open spec fn label_bytes(labels: Seq<Seq<u8>>, n: int) -> Seq<u8>
    decreases n,
{
    if n <= 0 {
        Seq::empty()
    } else {
        label_bytes(labels, n - 1) + seq![labels[n - 1].len() as u8] + labels[n - 1]
    }
}

/// How many bytes a name takes on the wire when it is written in full.
pub open spec fn wire_len(labels: Seq<Seq<u8>>) -> int {
    label_bytes(labels, labels.len() as int).len() as int + 1
}

/// A name that the wire can hold: every label has from 1 to 63 bytes, and
/// the name in full takes no more than 255.
pub open spec fn name_ok(labels: Seq<Seq<u8>>) -> bool {
    &&& forall|i: int| 0 <= i < labels.len() ==> 1 <= #[trigger] labels[i].len() <= MAX_LABEL
    &&& wire_len(labels) <= MAX_NAME
}

/// What is wrong with a name that the wire cannot hold. An empty label is
/// named first, then a label that is too long, then the length of the
/// whole.
pub open spec fn name_fault(labels: Seq<Seq<u8>>) -> Option<CodecError> {
    if exists|i: int| 0 <= i < labels.len() && #[trigger] labels[i].len() == 0 {
        Some(CodecError::EmptyLabel)
    } else if exists|i: int| 0 <= i < labels.len() && #[trigger] labels[i].len() > MAX_LABEL {
        Some(CodecError::LabelTooLong)
    } else if wire_len(labels) > MAX_NAME {
        Some(CodecError::NameTooLong)
    } else {
        None
    }
}

/// Where a name was written, and how many pointers a reader follows from
/// there to its end.
pub struct Slot {
    pub offset: int,
    pub depth: int,
}

/// The names written so far, each with its slot.
pub type Known = Map<Seq<Seq<u8>>, Slot>;

/// The index of the first label of `labels`, from `i` on, from which the
/// rest of the name is known; the number of labels where none is.
pub open spec fn first_known(labels: Seq<Seq<u8>>, known: Known, i: int) -> int
    decreases labels.len() - i,
{
    if i >= labels.len() {
        labels.len() as int
    } else if known.contains_key(labels.skip(i)) {
        i
    } else {
        first_known(labels, known, i + 1)
    }
}

/// How many labels of `labels` are written out before the name ends or
/// points back.
pub open spec fn written_labels(labels: Seq<Seq<u8>>, known: Known) -> int {
    first_known(labels, known, 0)
}

/// The two bytes of a pointer to `offset`.
pub open spec fn pointer_bytes(offset: int) -> Seq<u8> {
    seq![(192 + offset / 256) as u8, (offset % 256) as u8]
}

/// The bytes that stand for `labels` when `known` holds the names written
/// before: the labels up to the first one from which the rest is known,
/// then a pointer to that rest, or a zero byte where the name is written to
/// its end.
pub open spec fn name_wire(labels: Seq<Seq<u8>>, known: Known) -> Seq<u8> {
    let k = written_labels(labels, known);
    if k == labels.len() {
        label_bytes(labels, k) + seq![0u8]
    } else {
        label_bytes(labels, k) + pointer_bytes(known[labels.skip(k)].offset)
    }
}

/// How many pointers a reader follows from any label that is written out
/// for `labels`.
pub open spec fn depth_of(labels: Seq<Seq<u8>>, known: Known) -> int {
    let k = written_labels(labels, known);
    if k == labels.len() {
        0
    } else {
        known[labels.skip(k)].depth + 1
    }
}

/// `known` and, for each of the first `n` labels of a name written at
/// index `at`, the rest of the name from that label on. A rest is left out
/// where its index does not fit a pointer, or where a reader that came to
/// it by a pointer would follow more than `MAX_JUMPS` of them.
pub open spec fn learn(labels: Seq<Seq<u8>>, at: int, known: Known, n: int) -> Known
    decreases n,
{
    if n <= 0 {
        known
    } else {
        let before = learn(labels, at, known, n - 1);
        let offset = at + label_bytes(labels, n - 1).len();
        if offset < POINTER_LIMIT && depth_of(labels, known) < MAX_JUMPS {
            before.insert(labels.skip(n - 1), Slot { offset, depth: depth_of(labels, known) })
        } else {
            before
        }
    }
}

/// What is known after `labels` has been written at index `at`.
pub open spec fn known_after(labels: Seq<Seq<u8>>, at: int, known: Known) -> Known {
    learn(labels, at, known, written_labels(labels, known))
}

/// The labels of a name take more bytes the more of them are counted.
pub proof fn lemma_label_bytes_grow(labels: Seq<Seq<u8>>, i: int, n: int)
    requires
        0 <= i <= n,
    ensures
        label_bytes(labels, i).len() <= label_bytes(labels, n).len(),
    decreases n - i,
{
    if i < n {
        lemma_label_bytes_grow(labels, i, n - 1);
    }
}

/// One name of the table with its slot.
struct Entry {
    labels: Vec<Vec<u8>>,
    offset: u16,
    depth: u8,
}

/// What a list of entries lets know: a later entry of a name stands for it.
spec fn known_of(entries: Seq<Entry>) -> Known
    decreases entries.len(),
{
    if entries.len() == 0 {
        Map::empty()
    } else {
        known_of(entries.drop_last()).insert(
            label_views(entries.last().labels@),
            Slot { offset: entries.last().offset as int, depth: entries.last().depth as int },
        )
    }
}

/// The names written so far into one message, each with the index at which
/// it stands. It lives for one encoding.
pub struct CompressionTable {
    entries: Vec<Entry>,
}

impl View for CompressionTable {
    type V = Known;

    closed spec fn view(&self) -> Known {
        known_of(self.entries@)
    }
}

/// Whether `a` and `b` hold the same bytes.
fn same_bytes(a: &Vec<u8>, b: &Vec<u8>) -> (r: bool)
    ensures
        r == (a@ == b@),
{
    if a.len() != b.len() {
        return false;
    }
    let mut i: usize = 0;
    while i < a.len()
        invariant
            i <= a@.len(),
            a@.len() == b@.len(),
            a@.subrange(0, i as int) == b@.subrange(0, i as int),
        decreases a@.len() - i,
    {
        if a[i] != b[i] {
            return false;
        }
        i += 1;
        assert(a@.subrange(0, i as int) == a@.subrange(0, i - 1).push(a@[i - 1]));
        assert(b@.subrange(0, i as int) == b@.subrange(0, i - 1).push(b@[i - 1]));
    }
    assert(a@ == a@.subrange(0, i as int));
    assert(b@ == b@.subrange(0, i as int));
    true
}

/// Whether `stored` is the name `labels` from its label `from` on.
fn same_rest(stored: &Vec<Vec<u8>>, labels: &Vec<Vec<u8>>, from: usize) -> (r: bool)
    requires
        from <= labels@.len(),
    ensures
        r == (label_views(stored@) == label_views(labels@).skip(from as int)),
{
    let ghost rest = label_views(labels@).skip(from as int);
    let total: usize = labels.len();
    if stored.len() != total - from {
        assert(label_views(stored@).len() != rest.len());
        return false;
    }
    let mut i: usize = 0;
    while i < stored.len()
        invariant
            i <= stored@.len(),
            from <= labels@.len(),
            total == labels@.len(),
            stored@.len() == labels@.len() - from,
            rest == label_views(labels@).skip(from as int),
            forall|j: int| 0 <= j < i ==> label_views(stored@)[j] == rest[j],
        decreases stored@.len() - i,
    {
        if !same_bytes(&stored[i], &labels[from + i]) {
            assert(label_views(stored@)[i as int] != rest[i as int]);
            return false;
        }
        i += 1;
    }
    assert(label_views(stored@) =~= rest);
    true
}

/// A copy of the name `labels` from its label `from` on.
fn copy_rest(labels: &Vec<Vec<u8>>, from: usize) -> (r: Vec<Vec<u8>>)
    requires
        from <= labels@.len(),
    ensures
        label_views(r@) == label_views(labels@).skip(from as int),
{
    let mut rest: Vec<Vec<u8>> = Vec::new();
    let mut i: usize = from;
    while i < labels.len()
        invariant
            from <= i <= labels@.len(),
            rest@.len() == i - from,
            forall|j: int| 0 <= j < i - from ==> rest@[j]@ == labels@[from + j]@,
        decreases labels@.len() - i,
    {
        rest.push(slice_to_vec(labels[i].as_slice()));
        i += 1;
    }
    assert(label_views(rest@) =~= label_views(labels@).skip(from as int));
    rest
}

impl CompressionTable {
    #[verifier::type_invariant]
    spec fn bounded(self) -> bool {
        forall|i: int|
            0 <= i < self.entries@.len() ==> (#[trigger] self.entries@[i]).offset < POINTER_LIMIT
                && self.entries@[i].depth < MAX_JUMPS
    }

    /// A table that knows no name.
    pub fn new() -> (r: CompressionTable)
        ensures
            r@ == Map::<Seq<Seq<u8>>, Slot>::empty(),
    {
        CompressionTable { entries: Vec::new() }
    }

    /// The slot of the name `labels` from its label `from` on, where the
    /// table knows that name.
    fn lookup(&self, labels: &Vec<Vec<u8>>, from: usize) -> (r: Option<(u16, u8)>)
        requires
            from <= labels@.len(),
        ensures
            match r {
                Some((offset, depth)) => self@.contains_key(
                    label_views(labels@).skip(from as int),
                ) && self@[label_views(labels@).skip(from as int)] == (Slot {
                    offset: offset as int,
                    depth: depth as int,
                }) && offset < POINTER_LIMIT && depth < MAX_JUMPS,
                None => !self@.contains_key(label_views(labels@).skip(from as int)),
            },
    {
        proof {
            use_type_invariant(self);
        }
        let ghost key = label_views(labels@).skip(from as int);
        let ghost all = self.entries@;
        let mut i: usize = self.entries.len();
        assert(all.take(i as int) == all);
        while i > 0
            invariant
                i <= all.len(),
                all == self.entries@,
                from <= labels@.len(),
                key == label_views(labels@).skip(from as int),
                known_of(all).contains_key(key) == known_of(all.take(i as int)).contains_key(key),
                known_of(all).contains_key(key) ==> known_of(all)[key] == known_of(
                    all.take(i as int),
                )[key],
            decreases i,
        {
            i -= 1;
            let entry = &self.entries[i];
            proof {
                use_type_invariant(self);
                assert(all.take(i + 1).drop_last() == all.take(i as int));
                assert(all.take(i + 1).last() == all[i as int]);
                assert(known_of(all.take(i + 1)) == known_of(all.take(i as int)).insert(
                    label_views(entry.labels@),
                    Slot { offset: entry.offset as int, depth: entry.depth as int },
                ));
                assert(all[i as int].offset < POINTER_LIMIT);
            }
            if same_rest(&entry.labels, labels, from) {
                return Some((entry.offset, entry.depth));
            }
        }
        assert(all.take(0).len() == 0);
        None
    }

    /// Lets the table know the name `labels` from its label `from` on.
    fn insert(&mut self, labels: &Vec<Vec<u8>>, from: usize, offset: u16, depth: u8)
        requires
            from <= labels@.len(),
            offset < POINTER_LIMIT,
            depth < MAX_JUMPS,
        ensures
            final(self)@ == old(self)@.insert(
                label_views(labels@).skip(from as int),
                Slot { offset: offset as int, depth: depth as int },
            ),
    {
        proof {
            use_type_invariant(&*self);
        }
        let entry = Entry { labels: copy_rest(labels, from), offset, depth };
        // The entries are taken out while they grow and put back whole.
        let mut entries: Vec<Entry> = Vec::new();
        core::mem::swap(&mut entries, &mut self.entries);
        let ghost before = entries@;
        entries.push(entry);
        assert(entries@.drop_last() == before);
        core::mem::swap(&mut entries, &mut self.entries);
    }
}

impl Name {
    /// Whether the wire can hold this name, and what is wrong where it
    /// cannot.
    pub fn validate(&self) -> (r: Result<(), CodecError>)
        ensures
            match name_fault(self@) {
                Some(e) => r == Err::<(), CodecError>(e),
                None => r == Ok::<(), CodecError>(()),
            },
            r is Ok <==> name_ok(self@),
    {
        let ghost labels = self@;
        let mut empty: bool = false;
        let mut long: bool = false;
        let mut size: usize = 0;
        let mut i: usize = 0;
        while i < self.labels.len()
            invariant
                i <= self.labels@.len(),
                labels == self@,
                empty == (exists|j: int| 0 <= j < i && #[trigger] labels[j].len() == 0),
                long == (exists|j: int| 0 <= j < i && #[trigger] labels[j].len() > MAX_LABEL),
                size <= MAX_NAME ==> size == label_bytes(labels, i as int).len(),
                size > MAX_NAME ==> label_bytes(labels, i as int).len() > MAX_NAME,
                size <= 2 * MAX_NAME + 1,
            decreases self.labels@.len() - i,
        {
            let length: usize = self.labels[i].len();
            assert(labels[i as int].len() == length);
            if length == 0 {
                empty = true;
            }
            if length > MAX_LABEL {
                long = true;
            }
            if length >= MAX_NAME {
                size = MAX_NAME + 1;
            } else if size <= MAX_NAME {
                size = size + 1 + length;
            }
            i += 1;
        }
        if empty {
            Err(CodecError::EmptyLabel)
        } else if long {
            Err(CodecError::LabelTooLong)
        } else if size + 1 > MAX_NAME {
            Err(CodecError::NameTooLong)
        } else {
            Ok(())
        }
    }
}

impl Buffer {
    /// Writes `name` from the cursor on and steps past it. The labels are
    /// written out up to the first one from which `table` knows the rest of
    /// the name; a pointer to that rest follows, or a zero byte where the
    /// name is written to its end. The table then knows the name from each
    /// label that was written out. A name that the wire cannot hold is
    /// refused, and buffer and table stay as they are.
    pub fn write_name(&mut self, name: &Name, table: &mut CompressionTable) -> (r: Result<
        (),
        CodecError,
    >)
        ensures
            match name_fault(name@) {
                Some(e) => r == Err::<(), CodecError>(e) && final(self)@ == old(self)@
                    && final(table)@ == old(table)@,
                None => r == Ok::<(), CodecError>(()) && final(self)@.bytes == overlay(
                    old(self)@.bytes,
                    old(self)@.position,
                    name_wire(name@, old(table)@),
                ) && final(self)@.position == old(self)@.position + name_wire(
                    name@,
                    old(table)@,
                ).len() && final(table)@ == known_after(
                    name@,
                    old(self)@.position,
                    old(table)@,
                ),
            },
    {
        match name.validate() {
            Ok(()) => {},
            Err(e) => {
                return Err(e);
            },
        }
        let ghost labels = name@;
        let ghost known = table@;
        let ghost base = self@.bytes;
        let start: usize = self.position();
        let count: usize = name.labels.len();
        let mut k: usize = 0;
        let mut found: Option<(u16, u8)> = None;
        while k < count && found.is_none()
            invariant
                k <= count,
                count == labels.len(),
                labels == name@,
                known == table@,
                written_labels(labels, known) == first_known(labels, known, k as int),
                match found {
                    Some((offset, depth)) => k < count && known.contains_key(labels.skip(k as int))
                        && known[labels.skip(k as int)] == (Slot {
                        offset: offset as int,
                        depth: depth as int,
                    }) && offset < POINTER_LIMIT && depth < MAX_JUMPS,
                    None => true,
                },
            decreases count - k, if found is None { 1int } else { 0int },
        {
            match table.lookup(&name.labels, k) {
                Some(hit) => {
                    found = Some(hit);
                },
                None => {
                    k += 1;
                },
            }
        }
        assert(written_labels(labels, known) == k);
        let depth: u8 = match found {
            Some((_, below)) => below + 1,
            None => 0,
        };
        assert(depth == depth_of(labels, known));
        let mut i: usize = 0;
        while i < k
            invariant
                i <= k <= count,
                count == labels.len(),
                labels == name@,
                name_ok(labels),
                start <= base.len(),
                depth == depth_of(labels, known),
                self@.bytes == overlay(base, start as int, label_bytes(labels, i as int)),
                self@.position == start + label_bytes(labels, i as int).len(),
                table@ == learn(labels, start as int, known, i as int),
            decreases k - i,
        {
            let at: usize = self.position();
            if at < POINTER_LIMIT && (depth as usize) < MAX_JUMPS {
                table.insert(&name.labels, i, at as u16, depth);
            }
            let label: &Vec<u8> = &name.labels[i];
            assert(label@ == labels[i as int]);
            let ghost sofar = label_bytes(labels, i as int);
            self.write_u8(label.len() as u8);
            self.write_bytes(label.as_slice());
            proof {
                let head = seq![label@.len() as u8];
                lemma_overlay_twice(base, start as int, sofar, head);
                lemma_overlay_twice(base, start as int, sofar + head, label@);
            }
            i += 1;
        }
        let ghost sofar = label_bytes(labels, k as int);
        match found {
            Some((offset, _)) => {
                let pointer: [u8; 2] = [192 + (offset / 256) as u8, (offset % 256) as u8];
                assert(pointer@ == pointer_bytes(offset as int));
                self.write_bytes(&pointer);
                proof {
                    lemma_overlay_twice(base, start as int, sofar, pointer@);
                }
            },
            None => {
                self.write_u8(0);
                proof {
                    lemma_overlay_twice(base, start as int, sofar, seq![0u8]);
                }
            },
        }
        Ok(())
    }
}

} // verus!
