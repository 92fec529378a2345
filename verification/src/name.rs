//! Domain names: a sequence of labels, read from the wire with its
//! compression pointers followed.

use crate::buffer::Buffer;
use crate::error::CodecError;
use vstd::prelude::*;
use vstd::string::StringExecFns;

verus! {

/// The longest label, in bytes.
pub const MAX_LABEL: usize = 63;

/// The longest name, in bytes on the wire: every label with its length
/// byte, and the byte that ends the name.
pub const MAX_NAME: usize = 255;

/// How many compression pointers the decoder follows for one name.
pub const MAX_JUMPS: usize = 16;

/// The first length byte that marks a compression pointer.
pub const POINTER_MARK: u8 = 192;

/// A domain name: its labels from the leftmost to the one under the root.
/// The root itself is the name without labels.
#[derive(Debug, Clone, PartialEq, Eq)]
pub struct Name {
    pub labels: Vec<Vec<u8>>,
}

/// The labels of a name as sequences of bytes.
pub open spec fn label_views(labels: Seq<Vec<u8>>) -> Seq<Seq<u8>> {
    labels.map_values(|label: Vec<u8>| label@)
}

impl View for Name {
    type V = Seq<Seq<u8>>;

    open spec fn view(&self) -> Seq<Seq<u8>> {
        label_views(self.labels@)
    }
}

/// The text that a run of bytes stands for when it is read as UTF-8 and
/// each malformed part of it is replaced by the replacement character.
pub uninterp spec fn lossy_text(bytes: Seq<u8>) -> Seq<char>;

/// `String::from_utf8_lossy` of std, with its result as an owned string.
/// The contract gives that result its name, `lossy_text` of the bytes, and
/// claims nothing more of it: std decides what the text is.
#[verifier::external_body]
fn lossy(bytes: &[u8]) -> (text: String)
    ensures
        text@ == lossy_text(bytes@),
{
    String::from_utf8_lossy(bytes).into_owned()
}

/// The first `n` of `parts` with a dot between each two of them.
pub open spec fn joined(parts: Seq<Seq<char>>, n: int) -> Seq<char>
    decreases n,
{
    if n <= 0 {
        Seq::empty()
    } else if n == 1 {
        parts[0]
    } else {
        joined(parts, n - 1) + seq!['.'] + parts[n - 1]
    }
}

/// The strings of a list as the texts that they hold.
pub open spec fn texts(parts: Seq<String>) -> Seq<Seq<char>> {
    parts.map_values(|part: String| part@)
}

/// The text of each label of a name.
pub open spec fn label_texts(labels: Seq<Seq<u8>>) -> Seq<Seq<char>> {
    labels.map_values(|label: Seq<u8>| lossy_text(label))
}

/// A name as text: the text of each label, with a dot between each two of
/// them, and nothing for the root.
pub open spec fn dotted(labels: Seq<Seq<u8>>) -> Seq<char> {
    joined(label_texts(labels), labels.len() as int)
}

/// Joins `parts` with a dot between each two of them.
pub fn join_labels(parts: &Vec<String>) -> (text: String)
    ensures
        text@ == joined(texts(parts@), parts@.len() as int),
{
    let mut text = String::new();
    let mut i: usize = 0;
    while i < parts.len()
        invariant
            i <= parts@.len(),
            text@ == joined(texts(parts@), i as int),
        decreases parts@.len() - i,
    {
        if i > 0 {
            proof {
                reveal_strlit(".");
            }
            text.append(".");
            assert("."@ =~= seq!['.']);
        }
        text.append(parts[i].as_str());
        proof {
            assert(texts(parts@)[i as int] == parts@[i as int]@);
            if i == 0 {
                assert(Seq::<char>::empty() + parts@[0]@ =~= parts@[0]@);
            }
        }
        i += 1;
    }
    text
}

impl Name {
    /// This name as text: each label read as UTF-8, with the replacement
    /// character for what is malformed, and a dot between each two labels.
    /// The root gives the empty string.
    pub fn to_text(&self) -> (text: String)
        ensures
            text@ == dotted(self@),
    {
        let mut parts: Vec<String> = Vec::new();
        let mut i: usize = 0;
        while i < self.labels.len()
            invariant
                i <= self.labels@.len(),
                texts(parts@) == label_texts(self@).take(i as int),
            decreases self.labels@.len() - i,
        {
            let part = lossy(self.labels[i].as_slice());
            proof {
                assert(texts(parts@.push(part)) =~= label_texts(self@).take(i as int).push(
                    lossy_text(self.labels@[i as int]@),
                ));
                assert(label_texts(self@).take(i as int).push(lossy_text(self.labels@[i as int]@))
                    =~= label_texts(self@).take(i + 1));
            }
            parts.push(part);
            i += 1;
        }
        assert(label_texts(self@).take(i as int) =~= label_texts(self@));
        join_labels(&parts)
    }
}

/// What reading a name gives: its labels, and the index of the byte that
/// follows the name where the reading began.
pub type Parsed = Result<(Seq<Seq<u8>>, int), CodecError>;

/// Puts `head` in front of the labels of `tail`. Where `resume` is given it
/// replaces the index at which `tail` ended.
pub open spec fn graft(head: Seq<Seq<u8>>, resume: Option<int>, tail: Parsed) -> Parsed {
    match tail {
        Ok((labels, next)) => Ok(
            (
                head + labels,
                match resume {
                    Some(index) => index,
                    None => next,
                },
            ),
        ),
        Err(e) => Err(e),
    }
}

/// The index that a compression pointer made of the bytes `mark` and `low`
/// points to: the low six bits of `mark`, then the eight bits of `low`.
pub open spec fn pointer_target(mark: u8, low: u8) -> int {
    (mark - 192) * 256 + low
}

/// Reads the rest of a name from index `at` of `buf`, after `jumps`
/// pointers have been followed and labels that take `used` bytes on the
/// wire have been read.
///
/// A zero byte ends the name. A byte of 192 or more is, with the byte after
/// it, a pointer: the name goes on at the index it holds, which must lie
/// before the pointer itself, and no more than `MAX_JUMPS` pointers are
/// followed. A byte from 64 to 191 is no length. Any other byte is the
/// length of the label behind it.
pub open spec fn parse_name_from(buf: Seq<u8>, at: int, jumps: int, used: int) -> Parsed
    decreases MAX_JUMPS - jumps, buf.len() - at,
{
    if !(0 <= at < buf.len()) {
        Err(CodecError::TruncatedBuffer)
    } else if buf[at] == 0 {
        Ok((Seq::empty(), at + 1))
    } else if buf[at] >= POINTER_MARK {
        if at + 1 >= buf.len() {
            Err(CodecError::TruncatedBuffer)
        } else if pointer_target(buf[at], buf[at + 1]) >= at {
            Err(CodecError::InvalidPointer)
        } else if jumps >= MAX_JUMPS {
            Err(CodecError::PointerChainTooLong)
        } else {
            graft(
                Seq::empty(),
                Some(at + 2),
                parse_name_from(buf, pointer_target(buf[at], buf[at + 1]), jumps + 1, used),
            )
        }
    } else if buf[at] > MAX_LABEL {
        Err(CodecError::LabelTooLong)
    } else if at + 1 + buf[at] > buf.len() {
        Err(CodecError::TruncatedBuffer)
    } else if used + 1 + buf[at] + 1 > MAX_NAME {
        Err(CodecError::NameTooLong)
    } else {
        graft(
            seq![buf.subrange(at + 1, at + 1 + buf[at])],
            None,
            parse_name_from(buf, at + 1 + buf[at], jumps, used + 1 + buf[at]),
        )
    }
}

/// Reads the name that starts at index `at` of `buf`.
pub open spec fn parse_name(buf: Seq<u8>, at: int) -> Parsed {
    parse_name_from(buf, at, 0, 0)
}

/// Grafting twice is grafting once.
proof fn lemma_graft_twice(
    head: Seq<Seq<u8>>,
    resume: Option<int>,
    mid: Seq<Seq<u8>>,
    inner: Option<int>,
    tail: Parsed,
)
    ensures
        graft(head, resume, graft(mid, inner, tail)) == graft(
            head + mid,
            match resume {
                Some(index) => Some(index),
                None => inner,
            },
            tail,
        ),
{
    match tail {
        Ok((labels, next)) => {
            assert(head + (mid + labels) =~= (head + mid) + labels);
        },
        Err(e) => {},
    }
}

impl Buffer {
    /// Reads the name under the cursor as text, with a dot between each two
    /// labels, and steps past it as `read_labels` does. Where the name
    /// cannot be read the cursor stays.
    pub fn read_name(&mut self) -> (r: Result<String, CodecError>)
        ensures
            final(self)@.bytes == old(self)@.bytes,
            match parse_name(old(self)@.bytes, old(self)@.position) {
                Ok((labels, next)) => r is Ok && r->Ok_0@ == dotted(labels) && final(self)@.position
                    == next,
                Err(e) => r is Err && r->Err_0 == e && final(self)@ == old(self)@,
            },
    {
        match self.read_labels() {
            Ok(name) => Ok(name.to_text()),
            Err(e) => Err(e),
        }
    }

    /// Reads the labels of the name under the cursor, following its
    /// compression pointers, and steps past it: past the zero byte that
    /// ends it, or past the first pointer in it. Where the name cannot be
    /// read the cursor stays.
    pub fn read_labels(&mut self) -> (r: Result<Name, CodecError>)
        ensures
            final(self)@.bytes == old(self)@.bytes,
            match parse_name(old(self)@.bytes, old(self)@.position) {
                Ok((labels, next)) => r is Ok && r->Ok_0@ == labels && final(self)@.position
                    == next,
                Err(e) => r is Err && r->Err_0 == e && final(self)@ == old(self)@,
            },
    {
        let start: usize = self.position();
        let total: usize = self.len();
        let mut at: usize = start;
        let mut jumps: usize = 0;
        let mut used: usize = 0;
        let mut resume: Option<usize> = None;
        let mut labels: Vec<Vec<u8>> = Vec::new();
        let ghost bytes = self@.bytes;
        proof {
            assert(graft(Seq::empty(), None, parse_name_from(bytes, at as int, 0, 0))
                == parse_name_from(bytes, at as int, 0, 0)) by {
                match parse_name_from(bytes, at as int, 0, 0) {
                    Ok((found, next)) => {
                        assert(Seq::<Seq<u8>>::empty() + found =~= found);
                    },
                    Err(e) => {},
                }
            }
            assert(label_views(labels@) =~= Seq::<Seq<u8>>::empty());
        }
        loop
            invariant
                self@ == old(self)@,
                bytes == old(self)@.bytes,
                start == old(self)@.position,
                total == bytes.len(),
                jumps <= MAX_JUMPS,
                used + 1 <= MAX_NAME,
                resume matches Some(index) ==> index <= total,
                parse_name(bytes, start as int) == graft(
                    label_views(labels@),
                    match resume {
                        Some(index) => Some(index as int),
                        None => None,
                    },
                    parse_name_from(bytes, at as int, jumps as int, used as int),
                ),
            decreases MAX_JUMPS - jumps, total - at,
        {
            let length: u8 = match self.get(at) {
                Ok(byte) => byte,
                Err(e) => {
                    return Err(e);
                },
            };
            if length == 0 {
                let next: usize = match resume {
                    Some(index) => index,
                    None => at + 1,
                };
                proof {
                    assert(label_views(labels@) + Seq::<Seq<u8>>::empty() =~= label_views(
                        labels@,
                    ));
                }
                match self.seek(next) {
                    Ok(()) => {},
                    Err(e) => {
                        return Err(e);
                    },
                }
                return Ok(Name { labels });
            }
            if length >= POINTER_MARK {
                let low: u8 = match self.get(at + 1) {
                    Ok(byte) => byte,
                    Err(e) => {
                        return Err(e);
                    },
                };
                let high: usize = (length - POINTER_MARK) as usize;
                let target: usize = high * 256 + low as usize;
                if target >= at {
                    return Err(CodecError::InvalidPointer);
                }
                if jumps >= MAX_JUMPS {
                    return Err(CodecError::PointerChainTooLong);
                }
                proof {
                    lemma_graft_twice(
                        label_views(labels@),
                        match resume {
                            Some(index) => Some(index as int),
                            None => None,
                        },
                        Seq::empty(),
                        Some(at + 2),
                        parse_name_from(bytes, target as int, jumps + 1, used as int),
                    );
                    assert(label_views(labels@) + Seq::<Seq<u8>>::empty() =~= label_views(
                        labels@,
                    ));
                }
                if resume.is_none() {
                    resume = Some(at + 2);
                }
                at = target;
                jumps += 1;
            } else if length > MAX_LABEL as u8 {
                return Err(CodecError::LabelTooLong);
            } else {
                let size: usize = length as usize;
                let label: Vec<u8> = match self.read_sized_at_offset(size, at + 1) {
                    Ok(label) => label,
                    Err(e) => {
                        return Err(e);
                    },
                };
                if used + 1 + size + 1 > MAX_NAME {
                    return Err(CodecError::NameTooLong);
                }
                proof {
                    lemma_graft_twice(
                        label_views(labels@),
                        match resume {
                            Some(index) => Some(index as int),
                            None => None,
                        },
                        seq![label@],
                        None,
                        parse_name_from(bytes, at + 1 + size, jumps as int, used + 1 + size),
                    );
                    assert(label_views(labels@) + seq![label@] =~= label_views(
                        labels@.push(label),
                    ));
                }
                labels.push(label);
                used = used + 1 + size;
                at = at + 1 + size;
            }
        }
    }
}

} // verus!
