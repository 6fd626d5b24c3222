//! Topics: a directory of segments composed into one ordered message stream.

use vstd::arithmetic::div_mod::lemma_fundamental_div_mod;
use vstd::prelude::*;
use vstd::slice::{slice_index_get, slice_subrange};

use crate::codec::Error;
use crate::segment::{
    check_segment_data, complete_segment, footer_bytes, lemma_extends_refl,
    lemma_footer_round_trip, segment_crc_fault, segment_extends, segment_messages,
    wf_segment_data, SegmentInfo, SegmentIterator, SegmentWriter, FOOTER_BYTE_COUNT,
};
use vstd::bytes::{lemma_auto_spec_u64_to_from_le_bytes, spec_u64_to_le_bytes};

use crate::codec::Persistable;

verus! {

/// The data region of a closed segment file: everything before the footer.
pub open spec fn data_region(f: Seq<u8>) -> Seq<u8> {
    f.take(f.len() - 33)
}

/// The characters that a sequence of ASCII bytes decodes to.
pub open spec fn ascii_chars(s: Seq<u8>) -> Seq<char> {
    Seq::new(s.len(), |i: int| s[i] as char)
}

/// The decimal digits of `n` as ASCII bytes, most significant first.
pub open spec fn dec_digits(n: int) -> Seq<u8>
    decreases n,
{
    if n < 10 {
        seq![(48 + n) as u8]
    } else {
        dec_digits(n / 10).push((48 + n % 10) as u8)
    }
}

/// The eight bytes of `segment_`.
pub open spec fn segment_name_prefix() -> Seq<u8> {
    seq![115u8, 101u8, 103u8, 109u8, 101u8, 110u8, 116u8, 95u8]
}

/// The file name of segment `index`: `segment_` followed by the index as
/// decimal digits, zero-padded on the left to at least nine digits.
pub open spec fn spec_segment_file_name(index: u64) -> Seq<u8> {
    let d = dec_digits(index as int);
    segment_name_prefix() + (if d.len() >= 9 {
        d
    } else {
        Seq::new((9 - d.len()) as nat, |i: int| 48u8) + d
    })
}

/// The path of segment `index` under `dir`.
pub open spec fn spec_segment_path(dir: Seq<char>, index: u64) -> Seq<char> {
    dir + seq!['/'] + ascii_chars(spec_segment_file_name(index))
}

proof fn lemma_dec_digits_ascii(n: int)
    requires
        n >= 0,
    ensures
        dec_digits(n).len() >= 1,
        forall|i: int| 0 <= i < dec_digits(n).len() ==> 48 <= #[trigger] dec_digits(n)[i] <= 57,
    decreases n,
{
    if n >= 10 {
        lemma_dec_digits_ascii(n / 10);
    }
}

/// Write the decimal digits of `n` after what `out` already holds.
fn push_dec_digits(n: u64, out: &mut Vec<u8>)
    ensures
        final(out)@ == old(out)@ + dec_digits(n as int),
    decreases n,
{
    if n < 10 {
        out.push(48 + n as u8);
        proof {
            assert(out@ =~= old(out)@ + dec_digits(n as int));
        }
    } else {
        push_dec_digits(n / 10, out);
        let d = (n % 10) as u8;
        out.push(48 + d);
        proof {
            assert(out@ =~= old(out)@ + dec_digits(n as int));
        }
    }
}

/// The bytes of segment `index`'s file name: the naming rule of the store.
pub fn segment_file_name(index: u64) -> (r: Vec<u8>)
    ensures
        r@ == spec_segment_file_name(index),
        forall|i: int| 0 <= i < r@.len() ==> #[trigger] r@[i] < 128,
{
    let mut digits: Vec<u8> = Vec::new();
    push_dec_digits(index, &mut digits);
    proof {
        lemma_dec_digits_ascii(index as int);
    }
    let mut name: Vec<u8> = Vec::new();
    name.push(115);
    name.push(101);
    name.push(103);
    name.push(109);
    name.push(101);
    name.push(110);
    name.push(116);
    name.push(95);
    proof {
        assert(name@ =~= segment_name_prefix());
    }
    proof {
        assert(name@ =~= segment_name_prefix() + Seq::new(0nat, |i: int| 48u8));
    }
    let mut pad = digits.len();
    while pad < 9
        invariant
            digits.len() <= pad,
            pad <= 9 || pad == digits@.len(),
            digits@ == dec_digits(index as int),
            name@ == segment_name_prefix() + Seq::new((pad - digits.len()) as nat, |i: int| 48u8),
        decreases 9 - pad,
    {
        name.push(48);
        proof {
            assert(name@ =~= segment_name_prefix() + Seq::new(
                (pad + 1 - digits.len()) as nat,
                |i: int| 48u8,
            ));
        }
        pad = pad + 1;
    }
    let ghost padded = name@;
    let mut i: usize = 0;
    while i < digits.len()
        invariant
            i <= digits@.len(),
            digits@ == dec_digits(index as int),
            name@ == padded + digits@.take(i as int),
        decreases digits@.len() - i,
    {
        let b = digits[i];
        name.push(b);
        proof {
            assert(name@ =~= padded + digits@.take(i + 1));
        }
        i = i + 1;
    }
    proof {
        assert(digits@.take(digits@.len() as int) =~= digits@);
        assert(name@ =~= spec_segment_file_name(index));
    }
    name
}

/// Relies on `String::from_utf8`: bytes below 128 decode one-for-one to
/// the characters with the same code points.
#[verifier::external_body]
fn ascii_to_string(bytes: &Vec<u8>) -> (r: String)
    requires
        forall|i: int| 0 <= i < bytes@.len() ==> bytes@[i] < 128,
    ensures
        r@ == ascii_chars(bytes@),
{
    String::from_utf8(bytes.clone()).expect("bytes below 128 are valid utf-8")
}

/// Relies on std's `format!`: joins the two pieces with a `/` between them.
#[verifier::external_body]
fn join_path(dir: &str, name: &str) -> (r: String)
    ensures
        r@ == dir@ + seq!['/'] + name@,
{
    format!("{}/{}", dir, name)
}

/// The path of segment `index` under `dir`.
fn segment_path(dir: &str, index: u64) -> (r: String)
    ensures
        r@ == spec_segment_path(dir@, index),
{
    let name_bytes = segment_file_name(index);
    let name = ascii_to_string(&name_bytes);
    join_path(dir, name.as_str())
}

/// A directory of segments forming one logical ordered message stream.
///
/// Closed segments are kept with their file images; at most one open
/// segment accepts appends at the tail. Callers that persist a topic write
/// the file images out under each segment's path.
pub struct Topic {
    pub dir: String,
    pub segments: Vec<SegmentInfo>,
    pub files: Vec<Vec<u8>>,
    pub open_segment: Option<SegmentWriter>,
    pub buffer_size: usize,
}

impl Topic {
    pub open spec fn spec_bs(self) -> int {
        self.buffer_size as int
    }

    /// The closed segment at position `i` is sound: a well-formed complete
    /// data region holding at least one message, closed by the footer of
    /// its descriptor, with the topic's block size and its position as its
    /// index.
    pub open spec fn closed_ok(self, i: int) -> bool {
        let f = self.files@[i]@;
        let info = self.segments@[i];
        &&& f.len() >= 33
        &&& (f.len() - 33) as int % self.spec_bs() == 0
        &&& wf_segment_data(data_region(f), self.spec_bs())
        &&& complete_segment(data_region(f), self.spec_bs())
        &&& segment_messages(data_region(f), self.spec_bs()).len() >= 1
        &&& f.skip(f.len() - 33) == footer_bytes(info)
        &&& info.buffer_size == self.buffer_size as u64
        &&& info.index == i as u64
        &&& info.path@ == spec_segment_path(self.dir@, info.index)
        &&& info.next_offset == info.start_offset + segment_messages(
            data_region(f),
            self.spec_bs(),
        ).len()
    }

    pub open spec fn wf(self) -> bool {
        &&& 10 <= self.buffer_size <= u32::MAX
        &&& self.segments@.len() == self.files@.len()
        &&& (forall|i: int| 0 <= i < self.files@.len() ==> self.closed_ok(i))
        &&& (forall|i: int|
            0 <= i < self.segments@.len() ==> (#[trigger] self.segments@[i]).start_offset as int
                == if i == 0 {
                0int
            } else {
                self.segments@[i - 1].next_offset as int
            })
        &&& match self.open_segment {
            None => true,
            Some(w) => {
                &&& w.wf()
                &&& w.spec_bs() == self.spec_bs()
                &&& w.spec_messages().len() >= 1
                &&& w.spec_info().index == self.segments@.len() as u64
                &&& w.spec_info().path@ == spec_segment_path(self.dir@, w.spec_info().index)
                &&& w.spec_info().start_offset as int == if self.segments@.len() == 0 {
                    0int
                } else {
                    self.segments@[self.segments@.len() - 1].next_offset as int
                }
            },
        }
    }

    /// The messages of the first `n` closed segments, in order.
    pub open spec fn closed_msgs_upto(self, n: int) -> Seq<Seq<u8>>
        decreases n,
    {
        if n <= 0 {
            Seq::empty()
        } else {
            self.closed_msgs_upto(n - 1) + segment_messages(
                data_region(self.files@[n - 1]@),
                self.spec_bs(),
            )
        }
    }

    /// The messages of all closed segments, in order.
    pub open spec fn closed_messages(self) -> Seq<Seq<u8>> {
        self.closed_msgs_upto(self.files@.len() as int)
    }

    /// The messages of the open segment, if any.
    pub open spec fn open_messages(self) -> Seq<Seq<u8>> {
        match self.open_segment {
            None => Seq::empty(),
            Some(w) => w.spec_messages(),
        }
    }

    /// Every message produced to this topic, in order.
    pub open spec fn all_messages(self) -> Seq<Seq<u8>> {
        self.closed_messages() + self.open_messages()
    }

    /// The open segment's file image length (0 when none is open).
    pub open spec fn open_file_len(self) -> int {
        match self.open_segment {
            None => 0,
            Some(w) => w.file@.len() as int,
        }
    }

    /// The message index the next `produce` will assign.
    pub open spec fn next_produce_offset(self) -> int {
        match self.open_segment {
            Some(w) => w.segment_info.next_offset as int,
            None => {
                if self.segments@.len() == 0 {
                    0
                } else {
                    self.segments@[self.segments@.len() - 1].next_offset as int
                }
            },
        }
    }
}

/// Two topics with the same block size and the same first `n` closed files
/// store the same first messages.
proof fn lemma_upto_same(t1: Topic, t2: Topic, n: int)
    requires
        t1.spec_bs() == t2.spec_bs(),
        0 <= n <= t1.files@.len(),
        n <= t2.files@.len(),
        forall|i: int| 0 <= i < n ==> t1.files@[i]@ == t2.files@[i]@,
    ensures
        t1.closed_msgs_upto(n) == t2.closed_msgs_upto(n),
    decreases n,
{
    if n > 0 {
        lemma_upto_same(t1, t2, n - 1);
    }
}

/// Earlier prefixes of the closed message stream stay in place.
proof fn lemma_upto_extend(t: Topic, k: int, n: int)
    requires
        0 <= k <= n,
    ensures
        t.closed_msgs_upto(k).len() <= t.closed_msgs_upto(n).len(),
        forall|i: int|
            0 <= i < t.closed_msgs_upto(k).len() ==> t.closed_msgs_upto(n)[i]
                == t.closed_msgs_upto(k)[i],
    decreases n,
{
    if n > k {
        lemma_upto_extend(t, k, n - 1);
    }
}

impl Topic {
    /// A fresh, empty topic over `path` with the given block size. The
    /// block size must leave room for a chunk header and one payload byte.
    pub fn new(path: &str, buffer_size: usize) -> (t: Topic)
        requires
            10 <= buffer_size <= u32::MAX,
        ensures
            t.wf(),
            t.dir@ == path@,
            t.buffer_size == buffer_size,
            t.all_messages() == Seq::<Seq<u8>>::empty(),
            t.closed_messages() == Seq::<Seq<u8>>::empty(),
            t.segments@.len() == 0,
            t.open_segment is None,
    {
        Topic {
            dir: path.to_string(),
            segments: Vec::new(),
            files: Vec::new(),
            open_segment: None,
            buffer_size,
        }
    }

    /// Append one message to the topic, opening a new segment when none is
    /// open. An empty message is refused with `EmptyMessage` and nothing
    /// changes; otherwise the message is stored whole at the tail.
    pub fn produce(&mut self, message: &[u8]) -> (r: Result<(), Error>)
        requires
            old(self).wf(),
            old(self).open_file_len() + 10 * message@.len() + 10 * old(self).spec_bs()
                <= usize::MAX,
            old(self).next_produce_offset() < u64::MAX,
        ensures
            final(self).wf(),
            final(self).dir == old(self).dir,
            final(self).buffer_size == old(self).buffer_size,
            message@.len() == 0 ==> r == Err::<(), Error>(Error::EmptyMessage) && *final(self)
                == *old(self),
            message@.len() >= 1 ==> {
                &&& r == Ok::<(), Error>(())
                &&& final(self).all_messages() == old(self).all_messages().push(message@)
                &&& final(self).closed_messages() == old(self).closed_messages()
                &&& final(self).segments == old(self).segments
                &&& final(self).files == old(self).files
                &&& final(self).open_segment is Some
                &&& final(self).next_produce_offset() == old(self).next_produce_offset() + 1
                &&& final(self).open_file_len() <= old(self).open_file_len() + 10
                    * message@.len() + 10 * old(self).spec_bs()
            },
    {
        if message.len() == 0 {
            return Err(Error::EmptyMessage);
        }
        let ghost t0 = *self;
        if self.open_segment.is_none() {
            proof {
                if self.segments@.len() > 0 {
                    assert(self.closed_ok(self.segments@.len() - 1));
                }
            }
            let next_index: u64 = if self.segments.len() == 0 {
                0
            } else {
                self.segments[self.segments.len() - 1].index + 1
            };
            let start_offset: u64 = if self.segments.len() == 0 {
                0
            } else {
                self.segments[self.segments.len() - 1].next_offset
            };
            let path = segment_path(self.dir.as_str(), next_index);
            let segment_info = SegmentInfo::new(
                path.as_str(),
                next_index,
                start_offset,
                self.buffer_size as u64,
            );
            self.open_segment = Some(SegmentWriter::new(segment_info));
            proof {
                assert(self.closed_msgs_upto(self.files@.len() as int) == t0.closed_msgs_upto(
                    t0.files@.len() as int,
                )) by {
                    lemma_upto_same(t0, *self, t0.files@.len() as int);
                }
            }
        }
        let ghost t1 = *self;
        match &mut self.open_segment {
            Some(w) => {
                let res = w.append(message);
                proof {
                    assert(res is Ok);
                    assert(w.wf());
                    assert(w.spec_messages().len() >= 1);
                    assert(self.closed_msgs_upto(self.files@.len() as int) == t1.closed_msgs_upto(
                        t1.files@.len() as int,
                    )) by {
                        lemma_upto_same(t1, *self, t1.files@.len() as int);
                    }
                    assert(self.all_messages() =~= old(self).all_messages().push(message@));
                    assert forall|i: int| 0 <= i < self.files@.len() implies self.closed_ok(
                        i,
                    ) by {
                        assert(old(self).closed_ok(i));
                        assert(self.files@[i] == old(self).files@[i]);
                        assert(self.segments@[i] == old(self).segments@[i]);
                        assert(self.dir == old(self).dir);
                    }
                }
                Ok(())
            },
            None => {
                proof {
                    assert(false);
                }
                Err(Error::EmptyMessage)
            },
        }
    }

    /// Close the open segment, if any: its footer is written and its
    /// descriptor and file image join the closed list. The stored messages
    /// are untouched.
    pub fn close(&mut self)
        requires
            old(self).wf(),
            old(self).open_file_len() + 33 <= usize::MAX,
        ensures
            final(self).wf(),
            final(self).dir == old(self).dir,
            final(self).buffer_size == old(self).buffer_size,
            final(self).open_segment is None,
            final(self).closed_messages() == old(self).all_messages(),
            final(self).all_messages() == old(self).all_messages(),
            old(self).open_segment is None ==> *final(self) == *old(self),
            old(self).open_segment is Some ==> {
                let w = old(self).open_segment.unwrap();
                &&& final(self).segments@ == old(self).segments@.push(w.spec_info())
                &&& final(self).files@.drop_last() == old(self).files@
                &&& final(self).files@.last()@ == w.file_view() + footer_bytes(w.spec_info())
            },
    {
        let ghost t0 = *self;
        let taken = self.open_segment.take();
        match taken {
            None => {
                proof {
                    assert(self.all_messages() =~= t0.all_messages());
                    assert(*self == t0);
                }
            },
            Some(writer) => {
                let ghost w = writer;
                let closed = writer.close();
                let segment_info = closed.0;
                let file = closed.1;
                proof {
                    assert(file@.len() == w.file@.len() + 33);
                    assert(data_region(file@) == w.file@);
                }
                self.segments.push(segment_info);
                self.files.push(file);
                proof {
                    assert(w.wf());
                    let n = t0.files@.len() as int;
                    assert(self.files@.len() == n + 1);
                    assert(self.files@[n] == file);
                    assert(data_region(self.files@[n]@) =~= w.file_view());
                    assert(self.spec_bs() == w.spec_bs());
                    lemma_upto_same(t0, *self, n);
                    assert(self.closed_msgs_upto(n + 1) == self.closed_msgs_upto(n)
                        + segment_messages(data_region(self.files@[n]@), self.spec_bs()));
                    assert(segment_messages(data_region(self.files@[n]@), self.spec_bs())
                        == w.spec_messages());
                    assert(self.closed_messages() =~= t0.all_messages());
                    assert(self.all_messages() =~= t0.all_messages());
                    assert(self.closed_ok(n)) by {
                        assert(self.files@[n]@.skip(self.files@[n]@.len() - 33) =~= footer_bytes(
                            self.segments@[n],
                        ));
                        assert(wf_segment_data(data_region(self.files@[n]@), self.spec_bs()));
                        assert(complete_segment(data_region(self.files@[n]@), self.spec_bs()));
                    }
                    assert forall|i: int| 0 <= i < self.files@.len() implies self.closed_ok(
                        i,
                    ) by {
                        if i < n {
                            assert(t0.closed_ok(i));
                            assert(self.files@[i] == t0.files@[i]);
                            assert(self.segments@[i] == t0.segments@[i]);
                        }
                    }
                    assert(self.segments@ =~= t0.segments@.push(w.spec_info()));
                    assert(self.files@.drop_last() =~= t0.files@);
                }
            },
        }
    }

    /// An iterator over the messages of all closed segments, in order.
    pub fn iter(&self) -> (r: TopicIterator)
        requires
            self.wf(),
        ensures
            r.wf_ti(*self),
            r.count@ == 0,
    {
        TopicIterator { next_segment: 0, segment_iter: None, count: Ghost(0) }
    }
}

/// Walks the closed segments of a topic in index order, yielding each
/// stored message once.
pub struct TopicIterator {
    pub next_segment: usize,
    pub segment_iter: Option<SegmentIterator>,
    pub count: Ghost<nat>,
}

impl TopicIterator {
    /// The iterator points into `topic`: its per-segment iterator sits on
    /// the current closed segment, and `count` messages have been yielded.
    pub open spec fn wf_ti(self, topic: Topic) -> bool {
        &&& self.next_segment <= topic.files@.len()
        &&& match self.segment_iter {
            None => self.next_segment == 0 && self.count@ == 0,
            Some(it) => {
                let data = data_region(topic.files@[self.next_segment - 1]@);
                &&& self.next_segment >= 1
                &&& it.wf_iter()
                &&& it.spec_bs() == topic.spec_bs()
                &&& (it.snap@ == Seq::<u8>::empty() || it.snap@ == data)
                &&& it.num_read() <= segment_messages(data, topic.spec_bs()).len()
                &&& self.count@ == topic.closed_msgs_upto(self.next_segment - 1).len()
                    + it.num_read()
            },
        }
    }

    /// Yield the next message of the topic's closed segments, or `None`
    /// when they are exhausted.
    pub fn next(&mut self, topic: &Topic) -> (r: Option<Vec<u8>>)
        requires
            topic.wf(),
            old(self).wf_ti(*topic),
        ensures
            final(self).wf_ti(*topic),
            ({
                let msgs = topic.closed_messages();
                if old(self).count@ < msgs.len() {
                    &&& r is Some
                    &&& r.unwrap()@ == msgs[old(self).count@ as int]
                    &&& final(self).count@ == old(self).count@ + 1
                } else {
                    &&& r is None
                    &&& final(self).count@ == old(self).count@
                }
            }),
    {
        let ghost bs = topic.spec_bs();
        let ghost nfiles = topic.files@.len() as int;
        match &mut self.segment_iter {
            Some(it) => {
                let k = self.next_segment - 1;
                let ghost data = data_region(topic.files@[k as int]@);
                let ghost msgs_k = segment_messages(data, bs);
                let ghost j = it.num_read();
                let f = &topic.files[k];
                proof {
                    assert(topic.closed_ok(k as int));
                    assert(f@.len() >= 33);
                }
                let data_slice = slice_subrange(f.as_slice(), 0, f.len() - FOOTER_BYTE_COUNT);
                proof {
                    assert(data_slice@ == data);
                    if it.snap@ != Seq::<u8>::empty() {
                        lemma_extends_refl(data, bs);
                    }
                    assert(segment_extends(data, it.snap@, bs));
                }
                let msg = it.next(data_slice);
                proof {
                    lemma_upto_extend(*topic, self.next_segment as int, nfiles);
                    assert(topic.closed_msgs_upto(self.next_segment as int)
                        == topic.closed_msgs_upto(self.next_segment - 1) + msgs_k);
                }
                match msg {
                    Some(m) => {
                        proof {
                            self.count@ = self.count@ + 1;
                            assert(topic.closed_msgs_upto(self.next_segment as int)[old(
                                self,
                            ).count@ as int] == msgs_k[j as int]);
                            assert(topic.closed_messages()[old(self).count@ as int] == msgs_k[j as int]);
                        }
                        return Some(m);
                    },
                    None => {
                        proof {
                            assert(it.num_read() == msgs_k.len());
                            assert(self.count@ == topic.closed_msgs_upto(
                                self.next_segment as int,
                            ).len());
                        }
                    },
                }
            },
            None => {},
        }
        proof {
            // everything before `next_segment` has been yielded
            assert(self.count@ == topic.closed_msgs_upto(self.next_segment as int).len());
        }
        if self.next_segment < topic.segments.len() {
            let k = self.next_segment;
            let ghost data = data_region(topic.files@[k as int]@);
            let ghost msgs_k = segment_messages(data, bs);
            proof {
                assert(topic.closed_ok(k as int));
            }
            let fresh_iter = topic.segments[k].iter();
            self.segment_iter = Some(fresh_iter);
            self.next_segment = k + 1;
            match &mut self.segment_iter {
                Some(it) => {
                    let f = &topic.files[k];
                    proof {
                        assert(topic.closed_ok(k as int));
                        assert(f@.len() >= 33);
                    }
                    let data_slice = slice_subrange(f.as_slice(), 0, f.len() - FOOTER_BYTE_COUNT);
                    proof {
                        assert(data_slice@ == data);
                    }
                    let msg = it.next(data_slice);
                    proof {
                        assert(msg is Some);
                        self.count@ = self.count@ + 1;
                        lemma_upto_extend(*topic, k + 1, nfiles);
                        assert(topic.closed_msgs_upto(k + 1) == topic.closed_msgs_upto(k as int)
                            + msgs_k);
                        assert(topic.closed_msgs_upto(k + 1)[old(self).count@ as int]
                            == msgs_k[0]);
                        assert(topic.closed_messages()[old(self).count@ as int] == msgs_k[0]);
                    }
                    return msg;
                },
                None => {
                    proof {
                        assert(false);
                    }
                    return None;
                },
            }
        }
        proof {
            lemma_upto_extend(*topic, self.next_segment as int, nfiles);
            assert(self.next_segment as int == nfiles);
        }
        None
    }
}


/// Every byte is an ASCII decimal digit.
pub open spec fn is_digits(s: Seq<u8>) -> bool {
    forall|i: int| 0 <= i < s.len() ==> 48 <= #[trigger] s[i] <= 57
}

/// The number a string of ASCII decimal digits denotes.
pub open spec fn digits_value(s: Seq<u8>) -> int
    decreases s.len(),
{
    if s.len() == 0 {
        0
    } else {
        digits_value(s.drop_last()) * 10 + (s.last() - 48)
    }
}

proof fn lemma_digits_value_nonneg(s: Seq<u8>)
    requires
        is_digits(s),
    ensures
        digits_value(s) >= 0,
    decreases s.len(),
{
    if s.len() > 0 {
        assert(is_digits(s.drop_last())) by {
            assert(forall|i: int| 0 <= i < s.len() - 1 ==> #[trigger] s.drop_last()[i] == s[i]);
        }
        lemma_digits_value_nonneg(s.drop_last());
    }
}

/// A digit string denotes at least what any of its prefixes denotes.
proof fn lemma_digits_value_mono(s: Seq<u8>, k: int)
    requires
        is_digits(s),
        0 <= k <= s.len(),
    ensures
        digits_value(s.take(k)) <= digits_value(s),
    decreases s.len() - k,
{
    if k == s.len() {
        assert(s.take(k) =~= s);
    } else {
        lemma_digits_value_mono(s, k + 1);
        assert(s.take(k + 1).drop_last() =~= s.take(k));
        assert(s.take(k + 1).last() == s[k]);
        assert(is_digits(s.take(k))) by {
            assert(forall|i: int| 0 <= i < k ==> #[trigger] s.take(k)[i] == s[i]);
        }
        lemma_digits_value_nonneg(s.take(k));
        assert(digits_value(s.take(k)) <= digits_value(s.take(k + 1)));
    }
}

/// Parse a segment file name: `segment_` followed by at least nine decimal
/// digits gives the segment index; anything else — another name, too few
/// digits, a non-digit, or a value over `u64::MAX` — is no segment name.
pub fn parse_segment_index(name: &[u8]) -> (r: Option<u64>)
    ensures
        ({
            let digits = name@.skip(8);
            if name@.len() >= 17 && name@.take(8) == segment_name_prefix() && is_digits(digits)
                && digits_value(digits) <= u64::MAX {
                r == Some(digits_value(digits) as u64)
            } else {
                r is None
            }
        }),
{
    let n = name.len();
    if n < 17 {
        return None;
    }
    let prefix: [u8; 8] = [115, 101, 103, 109, 101, 110, 116, 95];
    let mut k: usize = 0;
    while k < 8
        invariant
            k <= 8,
            n == name@.len(),
            n >= 9,
            prefix@ == segment_name_prefix(),
            forall|i: int| 0 <= i < k ==> name@[i] == segment_name_prefix()[i],
        decreases 8 - k,
    {
        if *slice_index_get(name, k) != prefix[k] {
            proof {
                assert(name@.take(8)[k as int] != segment_name_prefix()[k as int]);
            }
            return None;
        }
        k = k + 1;
    }
    proof {
        assert(name@.take(8) =~= segment_name_prefix());
    }
    let mut v: u64 = 0;
    let mut i: usize = 8;
    while i < n
        invariant
            8 <= i <= n,
            n == name@.len(),
            name@.take(8) == segment_name_prefix(),
            is_digits(name@.subrange(8, i as int)),
            v == digits_value(name@.subrange(8, i as int)),
        decreases n - i,
    {
        let b = *slice_index_get(name, i);
        if b < 48 || b > 57 {
            proof {
                assert(name@.skip(8)[i - 8] == name@[i as int]);
                assert(!is_digits(name@.skip(8)));
            }
            return None;
        }
        let d = (b - 48) as u64;
        proof {
            assert(name@.subrange(8, i + 1).drop_last() =~= name@.subrange(8, i as int));
            assert(name@.subrange(8, i + 1).last() == name@[i as int]);
            assert(digits_value(name@.subrange(8, i + 1)) == v * 10 + d);
            assert(is_digits(name@.subrange(8, i + 1))) by {
                assert(forall|j: int|
                    0 <= j < i + 1 - 8 ==> #[trigger] name@.subrange(8, i + 1)[j] == name@[8
                        + j]);
            }
        }
        if v > (u64::MAX - d) / 10 {
            proof {
                let md = (u64::MAX - d) as int;
                lemma_fundamental_div_mod(md, 10);
                assert(10 * v + d > u64::MAX);
                if is_digits(name@.skip(8)) {
                    lemma_digits_value_mono(name@.skip(8), i + 1 - 8);
                    assert(name@.skip(8).take(i + 1 - 8) =~= name@.subrange(8, i + 1));
                    assert(digits_value(name@.skip(8)) > u64::MAX);
                }
            }
            return None;
        }
        proof {
            let md = (u64::MAX - d) as int;
            lemma_fundamental_div_mod(md, 10);
            assert(10 * v + d <= u64::MAX);
        }
        v = v * 10 + d;
        i = i + 1;
    }
    proof {
        assert(name@.subrange(8, n as int) =~= name@.skip(8));
        lemma_digits_value_nonneg(name@.skip(8));
    }
    Some(v)
}


/// One recovered segment is admissible at position `i` of a topic over
/// `dir`: its descriptor carries the topic's block size, its position as
/// index, the store's segment path, and offsets that chain gap-free; its
/// bytes end in the descriptor's footer over a well-formed, complete data
/// region whose message count the offsets account for.
pub open spec fn recovered_entry_ok(
    dir: Seq<char>,
    buffer_size: usize,
    segs: Seq<(SegmentInfo, Vec<u8>)>,
    i: int,
) -> bool {
    let info = segs[i].0;
    let f = segs[i].1@;
    &&& info.buffer_size == buffer_size as u64
    &&& info.index == i as u64
    &&& info.path@ == spec_segment_path(dir, i as u64)
    &&& info.start_offset as int == (if i == 0 {
        0int
    } else {
        segs[i - 1].0.next_offset as int
    })
    &&& f.len() >= 33
    &&& f.skip(f.len() - 33) == footer_bytes(info)
    &&& wf_segment_data(data_region(f), buffer_size as int)
    &&& complete_segment(data_region(f), buffer_size as int)
    &&& segment_messages(data_region(f), buffer_size as int).len() >= 1
    &&& info.next_offset == info.start_offset + segment_messages(
        data_region(f),
        buffer_size as int,
    ).len()
}

/// Every handed segment is admissible.
pub open spec fn recoverable(
    dir: Seq<char>,
    buffer_size: usize,
    segs: Seq<(SegmentInfo, Vec<u8>)>,
) -> bool {
    forall|i: int| 0 <= i < segs.len() ==> recovered_entry_ok(dir, buffer_size, segs, i)
}

impl Topic {
    /// Rebuild a topic from recovered closed segments, handed in index
    /// order as descriptor and file bytes. Succeeds exactly when every
    /// segment is admissible (`recovered_entry_ok`). A wrong chunk CRC is
    /// refused with `CrcMismatch`, a wrong footer magic byte with
    /// `MissingMagic`, and any other mismatch with `ShortRead`.
    pub fn from_recovered(
        path: &str,
        buffer_size: usize,
        segments: Vec<(SegmentInfo, Vec<u8>)>,
    ) -> (r: Result<Topic, Error>)
        requires
            10 <= buffer_size <= u32::MAX,
        ensures
            r is Ok <==> recoverable(path@, buffer_size, segments@),
            r == Err::<Topic, Error>(Error::MissingMagic) ==> exists|i: int|
                0 <= i < segments@.len() && (#[trigger] segments@[i].1@).len() >= 33
                    && segments@[i].1@[segments@[i].1@.len() - 33] != 42,
            r == Err::<Topic, Error>(Error::CrcMismatch) ==> exists|i: int|
                0 <= i < segments@.len() && segment_crc_fault(
                    data_region(#[trigger] segments@[i].1@),
                    buffer_size as int,
                ),
            r is Ok ==> {
                let t = r.unwrap();
                &&& t.wf()
                &&& t.dir@ == path@
                &&& t.buffer_size == buffer_size
                &&& t.open_segment is None
                &&& t.segments@.len() == segments@.len()
                &&& (forall|i: int|
                    0 <= i < segments@.len() ==> (#[trigger] t.files@[i]) == segments@[i].1
                        && t.segments@[i] == segments@[i].0)
            },
    {
        let ghost segs0 = segments@;
        let mut inputs = segments;
        let mut topic = Topic {
            dir: path.to_string(),
            segments: Vec::new(),
            files: Vec::new(),
            open_segment: None,
            buffer_size,
        };
        let total = inputs.len();
        let mut idx: usize = 0;
        while idx < total
            invariant
                idx <= total,
                segs0 == segments@,
                total == segs0.len(),
                inputs@ == segs0.skip(idx as int),
                topic.wf(),
                topic.dir@ == path@,
                topic.buffer_size == buffer_size,
                10 <= buffer_size <= u32::MAX,
                topic.open_segment is None,
                topic.segments@.len() == idx,
                topic.files@.len() == idx,
                forall|i: int|
                    0 <= i < idx ==> (#[trigger] topic.files@[i]) == segs0[i].1
                        && topic.segments@[i] == segs0[i].0,
                forall|i: int| 0 <= i < idx ==> recovered_entry_ok(path@, buffer_size, segs0, i),
            decreases total - idx,
        {
            let ghost t_before = topic;
            let pair = inputs.remove(0);
            proof {
                assert(pair == segs0[idx as int]);
                assert(inputs@ =~= segs0.skip(idx + 1));
            }
            let info = pair.0;
            let file = pair.1;
            if info.buffer_size != buffer_size as u64 {
                proof {
                    assert(!recovered_entry_ok(path@, buffer_size, segs0, idx as int));
                }
                return Err(Error::ShortRead);
            }
            if info.index != idx as u64 {
                proof {
                    assert(!recovered_entry_ok(path@, buffer_size, segs0, idx as int));
                }
                return Err(Error::ShortRead);
            }
            let expected_path = segment_path(path, idx as u64);
            if !(info.path == expected_path) {
                proof {
                    assert(!recovered_entry_ok(path@, buffer_size, segs0, idx as int));
                }
                return Err(Error::ShortRead);
            }
            let expected_start: u64 = if idx == 0 {
                0
            } else {
                topic.segments[idx - 1].next_offset
            };
            proof {
                if idx > 0 {
                    assert(topic.files@[idx - 1] == segs0[idx - 1].1);
                }
            }
            if info.start_offset != expected_start {
                proof {
                    assert(!recovered_entry_ok(path@, buffer_size, segs0, idx as int));
                }
                return Err(Error::ShortRead);
            }
            if file.len() < FOOTER_BYTE_COUNT {
                proof {
                    assert(!recovered_entry_ok(path@, buffer_size, segs0, idx as int));
                }
                return Err(Error::ShortRead);
            }
            let footer_start = file.len() - FOOTER_BYTE_COUNT;
            // the footer must be this descriptor's footer
            let magic = match u8::read_bytes(file.as_slice(), footer_start) {
                Ok(b) => b,
                Err(_) => {
                    proof {
                        assert(false);
                    }
                    0
                },
            };
            if magic != 42 {
                proof {
                    assert(file@.subrange(footer_start as int, footer_start + 1)[0]
                        == file@[footer_start as int]);
                    assert(segs0[idx as int].1@.len() >= 33 && segs0[idx as int].1@[segs0[idx
                        as int].1@.len() - 33] != 42);
                    if recovered_entry_ok(path@, buffer_size, segs0, idx as int) {
                        assert(footer_bytes(info)[0] == 42);
                        assert(file@.skip(file@.len() - 33)[0] == file@[file@.len() - 33]);
                        assert(file@.subrange(footer_start as int, footer_start + 1)[0]
                            == file@[footer_start as int]);
                        assert(false);
                    }
                }
                return Err(Error::MissingMagic);
            }
            let mut fields: [u64; 4] = [0, 0, 0, 0];
            let mut k: usize = 0;
            while k < 4
                invariant
                    k <= 4,
                    file@.len() >= 33,
                    footer_start == file@.len() - 33,
                    footer_start + 33 <= usize::MAX,
                    forall|j: int|
                        0 <= j < k ==> #[trigger] fields@[j] == vstd::bytes::spec_u64_from_le_bytes(
                            file@.subrange(
                                file@.len() - 32 + 8 * j,
                                file@.len() - 24 + 8 * j,
                            ),
                        ),
                decreases 4 - k,
            {
                let v = match u64::read_bytes(file.as_slice(), footer_start + 1 + 8 * k) {
                    Ok(v) => v,
                    Err(_) => {
                        proof {
                            assert(false);
                        }
                        0
                    },
                };
                fields[k] = v;
                k = k + 1;
            }
            if fields[0] != info.index || fields[1] != info.buffer_size || fields[2]
                != info.start_offset || fields[3] != info.next_offset {
                proof {
                    if recovered_entry_ok(path@, buffer_size, segs0, idx as int) {
                        lemma_footer_round_trip(info, data_region(file@));
                        assert(file@ =~= data_region(file@) + footer_bytes(info)) by {
                            assert(file@ =~= data_region(file@) + file@.skip(file@.len() - 33));
                        }
                        assert(false);
                    }
                }
                return Err(Error::ShortRead);
            }
            proof {
                // equal decoded fields mean the footer bytes are exactly
                // this descriptor's footer
                lemma_auto_spec_u64_to_from_le_bytes();
                assert(file@.skip(file@.len() - 33) =~= footer_bytes(info)) by {
                    let ft = file@.skip(file@.len() - 33);
                    assert(ft.len() == 33);
                    assert(ft.subrange(1, 9) =~= file@.subrange(
                        file@.len() - 32,
                        file@.len() - 24,
                    ));
                    assert(ft.subrange(9, 17) =~= file@.subrange(
                        file@.len() - 24,
                        file@.len() - 16,
                    ));
                    assert(ft.subrange(17, 25) =~= file@.subrange(
                        file@.len() - 16,
                        file@.len() - 8,
                    ));
                    assert(ft.subrange(25, 33) =~= file@.subrange(
                        file@.len() - 8,
                        file@.len() as int,
                    ));
                    assert(ft.subrange(1, 9) == spec_u64_to_le_bytes(info.index));
                    assert(ft.subrange(9, 17) == spec_u64_to_le_bytes(info.buffer_size));
                    assert(ft.subrange(17, 25) == spec_u64_to_le_bytes(info.start_offset));
                    assert(ft.subrange(25, 33) == spec_u64_to_le_bytes(info.next_offset));
                    assert forall|j: int| 0 <= j < 33 implies #[trigger] ft[j] == footer_bytes(
                        info,
                    )[j] by {
                        if 1 <= j < 9 {
                            assert(ft[j] == ft.subrange(1, 9)[j - 1]);
                        } else if 9 <= j < 17 {
                            assert(ft[j] == ft.subrange(9, 17)[j - 9]);
                        } else if 17 <= j < 25 {
                            assert(ft[j] == ft.subrange(17, 25)[j - 17]);
                        } else if 25 <= j {
                            assert(ft[j] == ft.subrange(25, 33)[j - 25]);
                        } else {
                            assert(ft[0] == file@[file@.len() - 33]);
                        }
                    }
                }
            }
            let data = slice_subrange(file.as_slice(), 0, footer_start);
            proof {
                assert(data@ == data_region(file@));
            }
            let count = match check_segment_data(data, buffer_size) {
                Ok(c) => c,
                Err(e) => {
                    proof {
                        assert(!recovered_entry_ok(path@, buffer_size, segs0, idx as int));
                        if e == Error::CrcMismatch {
                            assert(segment_crc_fault(
                                data_region(segs0[idx as int].1@),
                                buffer_size as int,
                            ));
                        }
                    }
                    return Err(e);
                },
            };
            if count == 0 {
                proof {
                    assert(!recovered_entry_ok(path@, buffer_size, segs0, idx as int));
                }
                return Err(Error::ShortRead);
            }
            if count as u64 > u64::MAX - info.start_offset {
                proof {
                    assert(!recovered_entry_ok(path@, buffer_size, segs0, idx as int));
                }
                return Err(Error::ShortRead);
            }
            if info.next_offset != info.start_offset + count as u64 {
                proof {
                    assert(!recovered_entry_ok(path@, buffer_size, segs0, idx as int));
                }
                return Err(Error::ShortRead);
            }
            topic.segments.push(info);
            topic.files.push(file);
            proof {
                let n = idx as int;
                assert(topic.files@[n] == segs0[n].1);
                lemma_upto_same(t_before, topic, n);
                assert(topic.closed_ok(n)) by {
                    assert(wf_segment_data(data_region(topic.files@[n]@), topic.spec_bs()));
                    assert(complete_segment(data_region(topic.files@[n]@), topic.spec_bs()));
                    assert(topic.files@[n]@.skip(topic.files@[n]@.len() - 33) == footer_bytes(
                        topic.segments@[n],
                    ));
                }
                assert forall|i: int| 0 <= i < topic.files@.len() implies topic.closed_ok(
                    i,
                ) by {
                    if i < n {
                        assert(t_before.closed_ok(i));
                        assert(topic.files@[i] == t_before.files@[i]);
                        assert(topic.segments@[i] == t_before.segments@[i]);
                        assert(topic.dir == t_before.dir);
                    }
                }
                assert(recovered_entry_ok(path@, buffer_size, segs0, n));
            }
            idx = idx + 1;
        }
        proof {
            assert(recoverable(path@, buffer_size, segs0));
        }
        Ok(topic)
    }
}

} // verus!
