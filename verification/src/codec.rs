//! The line codec: turns a raw byte stream into discrete line frames and
//! back. A frame is one logical line; on the wire it is delimited by the
//! two-byte CRLF terminator, which is never part of the decoded value and
//! is always appended on encode.

use vstd::prelude::*;
use bytes::BytesMut;
use crate::buffer::{buf_bytes, buf_extend, buf_get, buf_len, buf_new, buf_split_to};

verus! {

/// The two-byte frame terminator, carriage return then line feed.
pub open spec fn term_seq() -> Seq<u8> {
    seq![13u8, 10u8]
}

/// The terminator starts at index `i` of `s`.
pub open spec fn crlf_at(s: Seq<u8>, i: int) -> bool {
    &&& 0 <= i
    &&& i + 2 <= s.len()
    &&& s[i] == 13u8
    &&& s[i + 1] == 10u8
}

/// Index of the first terminator in `s`, if any.
pub open spec fn find_term(s: Seq<u8>) -> Option<int>
    decreases s.len(),
{
    if s.len() < 2 {
        None
    } else if s[0] == 13u8 && s[1] == 10u8 {
        Some(0)
    } else {
        match find_term(s.drop_first()) {
            Some(i) => Some(i + 1),
            None => None,
        }
    }
}

/// `find_term` returns exactly the least index at which the terminator
/// occurs, and `None` exactly when it occurs nowhere.
pub proof fn lemma_find_term_spec(s: Seq<u8>)
    ensures
        (match find_term(s) {
            Some(i) => crlf_at(s, i) && (forall|k: int| 0 <= k < i ==> !crlf_at(s, k)),
            None => forall|k: int| !crlf_at(s, k),
        }),
    decreases s.len(),
{
    if s.len() < 2 {
    } else if s[0] == 13u8 && s[1] == 10u8 {
    } else {
        let t = s.drop_first();
        lemma_find_term_spec(t);
        assert forall|k: int| 0 <= k implies (crlf_at(s, k + 1) <==> crlf_at(t, k)) by {
            if 0 <= k && k + 2 <= t.len() {
                assert(t[k] == s[k + 1]);
                assert(t[k + 1] == s[k + 2]);
            }
        }
        assert(!crlf_at(s, 0));
        match find_term(t) {
            Some(i) => {
                assert(crlf_at(s, i + 1));
                assert forall|k: int| 0 <= k < i + 1 implies !crlf_at(s, k) by {
                    if k > 0 {
                        assert(!crlf_at(t, k - 1));
                    }
                }
            },
            None => {
                assert forall|k: int| !crlf_at(s, k) by {
                    if k > 0 {
                        assert(!crlf_at(t, k - 1));
                    }
                }
            },
        }
    }
}

/// The state of a codec: the undecoded inbound bytes and the buffered
/// outbound bytes.
#[verifier::ext_equal]
pub ghost struct CodecView {
    /// Bytes pulled from the stream and not yet decoded into frames.
    pub rd: Seq<u8>,
    /// Bytes enqueued for write and not yet accepted by the stream.
    pub wr: Seq<u8>,
}

/// Wraps one bidirectional byte stream's buffered state: decode pulls
/// complete lines out of the read buffer, encode queues bytes on the write
/// buffer for the host to flush.
pub struct LineCodec {
    rd: BytesMut,
    wr: BytesMut,
}

impl View for LineCodec {
    type V = CodecView;

    closed spec fn view(&self) -> CodecView {
        CodecView { rd: buf_bytes(self.rd), wr: buf_bytes(self.wr) }
    }
}

impl LineCodec {
    /// A fresh codec with both buffers empty.
    pub fn new() -> (r: LineCodec)
        ensures
            r@.rd == Seq::<u8>::empty(),
            r@.wr == Seq::<u8>::empty(),
    {
        LineCodec { rd: buf_new(), wr: buf_new() }
    }

    /// Append bytes newly pulled from the stream to the read buffer.
    pub fn feed(&mut self, data: &[u8])
        ensures
            final(self)@.rd == old(self)@.rd + data@,
            final(self)@.wr == old(self)@.wr,
    {
        buf_extend(&mut self.rd, data);
    }

    /// Index of the first terminator in the read buffer, if any.
    fn find_term_index(&self) -> (r: Option<usize>)
        ensures
            (match r {
                Some(p) => find_term(self@.rd) == Some(p as int),
                None => find_term(self@.rd) is None,
            }),
    {
        proof {
            lemma_find_term_spec(self@.rd);
        }
        let n = buf_len(&self.rd);
        if n < 2 {
            return None;
        }
        let mut j: usize = 0;
        while j < n - 1
            invariant
                n == self@.rd.len(),
                2 <= n,
                j <= n,
                forall|k: int| 0 <= k < j ==> !crlf_at(self@.rd, k),
            decreases n - j,
        {
            if buf_get(&self.rd, j) == 13u8 && buf_get(&self.rd, j + 1) == 10u8 {
                proof {
                    lemma_find_term_spec(self@.rd);
                    assert(crlf_at(self@.rd, j as int));
                    if find_term(self@.rd) is None {
                        assert(false);
                    }
                    let i = find_term(self@.rd)->Some_0;
                    if i < j {
                        assert(!crlf_at(self@.rd, i));
                        assert(false);
                    }
                    if i > j {
                        assert(!crlf_at(self@.rd, j as int));
                        assert(false);
                    }
                }
                return Some(j);
            }
            j += 1;
        }
        proof {
            assert forall|k: int| !crlf_at(self@.rd, k) by {
                if 0 <= k && k + 2 <= self@.rd.len() {
                    assert(k < j);
                }
            }
            if find_term(self@.rd) is Some {
                assert(crlf_at(self@.rd, find_term(self@.rd)->Some_0));
                assert(false);
            }
        }
        None
    }

    /// Decode the next complete line, terminator excluded. If the buffer
    /// holds no full frame yet the call returns `None` and changes
    /// nothing: a partial line simply awaits more bytes.
    pub fn decode_next(&mut self) -> (r: Option<Vec<u8>>)
        ensures
            final(self)@.wr == old(self)@.wr,
            (match find_term(old(self)@.rd) {
                Some(i) => {
                    &&& r is Some
                    &&& r->Some_0@ == old(self)@.rd.take(i)
                    &&& final(self)@.rd == old(self)@.rd.skip(i + 2)
                },
                None => {
                    &&& r is None
                    &&& final(self)@.rd == old(self)@.rd
                },
            }),
    {
        match self.find_term_index() {
            Some(p) => {
                let n = buf_len(&self.rd);
                proof {
                    lemma_find_term_spec(self@.rd);
                    assert(p + 2 <= n);
                }
                let mut line: Vec<u8> = Vec::new();
                let mut k: usize = 0;
                while k < p
                    invariant
                        k <= p,
                        crlf_at(self@.rd, p as int),
                        line@ == self@.rd.take(k as int),
                    decreases p - k,
                {
                    line.push(buf_get(&self.rd, k));
                    proof {
                        assert(line@ =~= self@.rd.take(k + 1));
                    }
                    k += 1;
                }
                let tail = buf_split_to(&mut self.rd, p + 2);
                let _ = tail;
                Some(line)
            },
            None => None,
        }
    }

    /// Decode repeatedly until no complete line remains: every line the
    /// buffered bytes hold, in order. The undecoded remainder stays
    /// buffered and awaits more bytes.
    pub fn decode_all(&mut self) -> (r: Vec<Vec<u8>>)
        ensures
            final(self)@.wr == old(self)@.wr,
            r.deep_view() == lines_of(old(self)@.rd),
            final(self)@.rd == leftover_of(old(self)@.rd),
    {
        let mut out: Vec<Vec<u8>> = Vec::new();
        proof {
            assert(out.deep_view() + lines_of(self@.rd) =~~= lines_of(old(self)@.rd));
        }
        loop
            invariant
                self@.wr == old(self)@.wr,
                out.deep_view() + lines_of(self@.rd) == lines_of(old(self)@.rd),
                leftover_of(self@.rd) == leftover_of(old(self)@.rd),
            ensures
                self@.wr == old(self)@.wr,
                out.deep_view() == lines_of(old(self)@.rd),
                self@.rd == leftover_of(old(self)@.rd),
            decreases self@.rd.len(),
        {
            let ghost pre = self@.rd;
            let ghost sofar = out.deep_view();
            match self.decode_next() {
                Some(line) => {
                    proof {
                        lemma_find_term_spec(pre);
                    }
                    out.push(line);
                    proof {
                        let i = find_term(pre)->Some_0;
                        assert(out.deep_view() =~~= sofar.push(pre.take(i)));
                        assert(lines_of(pre) == seq![pre.take(i)] + lines_of(pre.skip(i + 2)));
                        assert(out.deep_view() + lines_of(self@.rd) =~~= sofar + lines_of(pre));
                    }
                },
                None => {
                    proof {
                        assert(lines_of(pre) =~= Seq::<Seq<u8>>::empty());
                        assert(out.deep_view() =~~= out.deep_view() + lines_of(self@.rd));
                    }
                    break;
                },
            }
        }
        out
    }

    /// Enqueue raw bytes at the end of the write buffer.
    pub fn buffer(&mut self, data: &[u8])
        ensures
            final(self)@.wr == old(self)@.wr + data@,
            final(self)@.rd == old(self)@.rd,
    {
        buf_extend(&mut self.wr, data);
    }

    /// Number of bytes awaiting transmission.
    pub fn pending_len(&self) -> (r: usize)
        ensures
            r == self@.wr.len(),
    {
        buf_len(&self.wr)
    }

    /// Copy of the bytes awaiting transmission, for the host to hand to
    /// the stream.
    pub fn pending(&self) -> (r: Vec<u8>)
        ensures
            r@ == self@.wr,
    {
        let n = buf_len(&self.wr);
        let mut out: Vec<u8> = Vec::new();
        let mut k: usize = 0;
        while k < n
            invariant
                k <= n,
                n == self@.wr.len(),
                out@ == self@.wr.take(k as int),
            decreases n - k,
        {
            out.push(buf_get(&self.wr, k));
            proof {
                assert(out@ =~= self@.wr.take(k + 1));
            }
            k += 1;
        }
        proof {
            assert(out@ =~= self@.wr);
        }
        out
    }

    /// Drop the first `n` buffered bytes after the stream accepted them.
    pub fn advance_write(&mut self, n: usize)
        requires
            n <= old(self)@.wr.len(),
        ensures
            final(self)@.wr == old(self)@.wr.skip(n as int),
            final(self)@.rd == old(self)@.rd,
    {
        let head = buf_split_to(&mut self.wr, n);
        let _ = head;
    }
}

/// The encoded wire form of a sequence of lines: each line followed by
/// the terminator, concatenated in order.
pub open spec fn encode_lines(lines: Seq<Seq<u8>>) -> Seq<u8>
    decreases lines.len(),
{
    if lines.len() == 0 {
        Seq::empty()
    } else {
        lines.first() + term_seq() + encode_lines(lines.drop_first())
    }
}

/// Every complete line a byte stream decodes to, in order.
pub open spec fn lines_of(s: Seq<u8>) -> Seq<Seq<u8>>
    decreases s.len(),
{
    match find_term(s) {
        None => Seq::empty(),
        Some(i) => if 0 <= i && i + 2 <= s.len() {
            seq![s.take(i)] + lines_of(s.skip(i + 2))
        } else {
            // `find_term` only ever returns in-bounds indices; this arm
            // exists so the recursion is well-founded by construction.
            Seq::empty()
        },
    }
}

/// The partial trailing line a byte stream leaves undecoded.
pub open spec fn leftover_of(s: Seq<u8>) -> Seq<u8>
    decreases s.len(),
{
    match find_term(s) {
        None => s,
        Some(i) => if 0 <= i && i + 2 <= s.len() {
            leftover_of(s.skip(i + 2))
        } else {
            s
        },
    }
}

/// A terminator-free prefix pushes the first terminator of
/// `l + term_seq() + t` exactly to the end of that prefix.
pub(crate) proof fn lemma_find_term_of_framed(l: Seq<u8>, t: Seq<u8>)
    requires
        find_term(l) is None,
    ensures
        find_term(l + term_seq() + t) == Some(l.len() as int),
{
    let s = l + term_seq() + t;
    lemma_find_term_spec(l);
    lemma_find_term_spec(s);
    assert(s[l.len() as int] == 13u8);
    assert(s[l.len() as int + 1] == 10u8);
    assert(crlf_at(s, l.len() as int));
    assert forall|k: int| 0 <= k < l.len() implies !crlf_at(s, k) by {
        assert(!crlf_at(l, k));
        if k + 2 <= l.len() {
            assert(s[k] == l[k]);
            assert(s[k + 1] == l[k + 1]);
        } else {
            assert(k == l.len() - 1);
            assert(s[k + 1] == 13u8);
        }
    }
    match find_term(s) {
        None => {
            assert(!crlf_at(s, l.len() as int));
        },
        Some(i) => {
            if i < l.len() {
                assert(crlf_at(s, i));
            }
            if i > l.len() {
                assert(!crlf_at(s, l.len() as int));
            }
        },
    }
}

/// Round trip: encoding any sequence of terminator-free lines and
/// decoding the exact bytes yields back the original lines, unmodified
/// and complete, with nothing left over.
pub proof fn lemma_encode_decode_round_trip(lines: Seq<Seq<u8>>)
    requires
        forall|k: int| 0 <= k < lines.len() ==> find_term(#[trigger] lines[k]) is None,
    ensures
        lines_of(encode_lines(lines)) == lines,
        leftover_of(encode_lines(lines)) == Seq::<u8>::empty(),
    decreases lines.len(),
{
    if lines.len() == 0 {
        assert(lines_of(encode_lines(lines)) =~= lines);
    } else {
        let l = lines.first();
        let rest = lines.drop_first();
        let s = encode_lines(lines);
        assert(s == l + term_seq() + encode_lines(rest));
        lemma_find_term_of_framed(l, encode_lines(rest));
        assert(s.take(l.len() as int) =~= l);
        assert(s.skip(l.len() as int + 2) =~= encode_lines(rest));
        assert(forall|k: int| 0 <= k < rest.len() ==> find_term(#[trigger] rest[k]) is None);
        lemma_encode_decode_round_trip(rest);
        assert(lines_of(s) =~= lines);
    }
}

/// Decoding is incremental, so frame boundaries cannot depend on how the
/// underlying bytes were chunked across reads: processing `s` and then
/// continuing from its leftover with `t` appended decodes the same lines
/// as processing `s + t` whole.
pub proof fn lemma_decode_chunking(s: Seq<u8>, t: Seq<u8>)
    ensures
        lines_of(s + t) == lines_of(s) + lines_of(leftover_of(s) + t),
        leftover_of(s + t) == leftover_of(leftover_of(s) + t),
    decreases s.len(),
{
    lemma_find_term_spec(s);
    match find_term(s) {
        None => {
            assert(leftover_of(s) == s);
            assert(lines_of(s + t) =~= lines_of(s) + lines_of(leftover_of(s) + t));
        },
        Some(i) => {
            lemma_find_term_spec(s + t);
            assert(crlf_at(s + t, i));
            assert forall|k: int| 0 <= k < i implies !crlf_at(s + t, k) by {
                assert(!crlf_at(s, k));
                assert(k + 2 <= s.len());
                assert((s + t)[k] == s[k]);
                assert((s + t)[k + 1] == s[k + 1]);
            }
            match find_term(s + t) {
                None => {
                    assert(!crlf_at(s + t, i));
                },
                Some(j) => {
                    if j < i {
                        assert(crlf_at(s + t, j));
                    }
                    if j > i {
                        assert(!crlf_at(s + t, i));
                    }
                    assert(j == i);
                    assert((s + t).take(i) =~= s.take(i));
                    assert((s + t).skip(i + 2) =~= s.skip(i + 2) + t);
                    lemma_decode_chunking(s.skip(i + 2), t);
                    assert(lines_of(s + t) =~= lines_of(s) + lines_of(leftover_of(s) + t));
                },
            }
        },
    }
}

/// The wire form of a relayed line: `"<name>: <line>\r\n"`.
pub open spec fn framed_spec(name: Seq<u8>, line: Seq<u8>) -> Seq<u8> {
    name + seq![58u8, 32u8] + line + term_seq()
}

/// Build the broadcast frame for `line` as declared by `name`: the name,
/// a colon and a space, the line, and the terminator.
pub fn frame_line(name: &Vec<u8>, line: &Vec<u8>) -> (r: Vec<u8>)
    ensures
        r@ == framed_spec(name@, line@),
{
    let mut out: Vec<u8> = Vec::new();
    let mut k: usize = 0;
    let n = name.len();
    while k < n
        invariant
            k <= n,
            n == name@.len(),
            out@ == name@.take(k as int),
        decreases n - k,
    {
        out.push(name[k]);
        proof {
            assert(out@ =~= name@.take(k + 1));
        }
        k += 1;
    }
    out.push(58u8);
    out.push(32u8);
    let m = line.len();
    let ghost mid = name@ + seq![58u8, 32u8];
    proof {
        assert(out@ =~= mid);
    }
    let mut k2: usize = 0;
    while k2 < m
        invariant
            k2 <= m,
            m == line@.len(),
            out@ == mid + line@.take(k2 as int),
        decreases m - k2,
    {
        out.push(line[k2]);
        proof {
            assert(out@ =~= mid + line@.take(k2 + 1));
        }
        k2 += 1;
    }
    out.push(13u8);
    out.push(10u8);
    proof {
        assert(line@.take(m as int) =~= line@);
        assert(out@ =~= framed_spec(name@, line@));
    }
    out
}

} // verus!
