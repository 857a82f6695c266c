use vstd::prelude::*;
use crate::codec::{
    dec_u64, decode_command, enc_map, enc_result, enc_u64, encode_map, encode_result, parse_command,
    whole,
};
use crate::command::{effect, execute, Reply, ReplyView};
use crate::keyspace::Keyspace;
use crate::value::{as_map, unique_keys, ValueView};

verus! {

/// The largest frame a connection accepts by default: one mebibyte.
pub const DEFAULT_FRAME_LIMIT: u64 = 1048576;

/// A frame on the wire: the payload's length as eight little-endian bytes,
/// then the payload.
pub open spec fn frame_of(payload: Seq<u8>) -> Seq<u8> {
    enc_u64(payload.len() as u64) + payload
}

/// Frames `payload` for the wire.
pub fn frame(payload: &Vec<u8>) -> (r: Vec<u8>)
    ensures
        r@ == frame_of(payload@),
{
    let n = payload.len() as u64;
    let mut out: Vec<u8> = Vec::new();
    out.push((n & 0xff) as u8);
    out.push(((n >> 8u64) & 0xff) as u8);
    out.push(((n >> 16u64) & 0xff) as u8);
    out.push(((n >> 24u64) & 0xff) as u8);
    out.push(((n >> 32u64) & 0xff) as u8);
    out.push(((n >> 40u64) & 0xff) as u8);
    out.push(((n >> 48u64) & 0xff) as u8);
    out.push(((n >> 56u64) & 0xff) as u8);
    let ghost head = out@;
    let mut i: usize = 0;
    while i < payload.len()
        invariant
            i <= payload@.len(),
            out@ == head + payload@.subrange(0, i as int),
        decreases payload@.len() - i,
    {
        out.push(payload[i]);
        i = i + 1;
        assert(out@ =~= head + payload@.subrange(0, i as int));
    }
    assert(payload@.subrange(0, i as int) =~= payload@);
    assert(head =~= enc_u64(n));
    out
}

/// The payload length announced by a frame's eight-byte head, when the head
/// is whole and the length is within `limit`.
pub fn frame_length(head: &[u8], limit: u64) -> (r: Option<u64>)
    ensures
        head@.len() < 8 ==> r is None,
        head@.len() >= 8 ==> r == if dec_u64(head@) <= limit {
            Some(dec_u64(head@))
        } else {
            None
        },
{
    if head.len() < 8 {
        return None;
    }
    let n = (head[0] as u64) | ((head[1] as u64) << 8u64) | ((head[2] as u64) << 16u64) | ((
    head[3] as u64) << 24u64) | ((head[4] as u64) << 32u64) | ((head[5] as u64) << 40u64) | ((
    head[6] as u64) << 48u64) | ((head[7] as u64) << 56u64);
    if n <= limit {
        Some(n)
    } else {
        None
    }
}

/// What a connection does next.
#[derive(Debug)]
pub enum Step {
    /// Send these bytes to the peer.
    Send(Vec<u8>),
    /// A command was handled that sends nothing back.
    Quiet,
    /// No whole frame is buffered: read more.
    Wait,
    /// The peer sent a frame that is too large or does not decode: drop the
    /// connection.
    Close,
}

/// The bytes sent for a reply: an encoded reply value, or the encoded map of
/// a snapshot.
pub open spec fn sends(rv: ReplyView, s: Step) -> bool {
    match rv {
        ReplyView::Answer(x) => s matches Step::Send(b) && b@ == frame_of(enc_result(x)),
        ReplyView::Snapshot(m) => s matches Step::Send(b) && exists|es: Seq<(Seq<char>, ValueView)>|
            unique_keys(es) && as_map(es) == m && b@ == frame_of(enc_map(es)),
        ReplyView::Silent => s is Quiet,
    }
}

/// The server side of one client connection: the bytes read and not yet
/// handled.
pub struct Connection {
    buffer: Vec<u8>,
    limit: u64,
}

impl Connection {
    /// The bytes read and not yet handled.
    pub closed spec fn pending(&self) -> Seq<u8> {
        self.buffer@
    }

    /// The largest payload accepted.
    pub closed spec fn frame_limit(&self) -> u64 {
        self.limit
    }

    pub fn new() -> (r: Self)
        ensures
            r.pending() == Seq::<u8>::empty(),
            r.frame_limit() == DEFAULT_FRAME_LIMIT,
    {
        Connection { buffer: Vec::new(), limit: DEFAULT_FRAME_LIMIT }
    }

    pub fn with_limit(limit: u64) -> (r: Self)
        ensures
            r.pending() == Seq::<u8>::empty(),
            r.frame_limit() == limit,
    {
        Connection { buffer: Vec::new(), limit }
    }

    /// Adds bytes read from the peer.
    pub fn receive(&mut self, data: &[u8])
        ensures
            final(self).pending() == old(self).pending() + data@,
            final(self).frame_limit() == old(self).frame_limit(),
    {
        let ghost start = self.buffer@;
        let mut i: usize = 0;
        while i < data.len()
            invariant
                i <= data@.len(),
                self.buffer@ == start + data@.subrange(0, i as int),
                self.limit == old(self).limit,
            decreases data@.len() - i,
        {
            self.buffer.push(data[i]);
            i = i + 1;
            assert(self.buffer@ =~= start + data@.subrange(0, i as int));
        }
        assert(data@.subrange(0, i as int) =~= data@);
    }

    /// Handles the first buffered frame, if a whole one is there.
    #[verifier::rlimit(40)]
    pub fn serve(&mut self, ks: &mut Keyspace) -> (r: Step)
        ensures
            final(self).frame_limit() == old(self).frame_limit(),
            final(ks).cap() == old(ks).cap(),
            ({
                let buf = old(self).pending();
                let n = dec_u64(buf);
                if buf.len() < 8 || (n <= old(self).frame_limit() && n > buf.len() - 8) {
                    &&& r is Wait
                    &&& final(self).pending() == buf
                    &&& final(ks)@ == old(ks)@
                } else if n > old(self).frame_limit() {
                    &&& r is Close
                    &&& final(ks)@ == old(ks)@
                } else {
                    let payload = buf.subrange(8, 8 + n);
                    &&& final(self).pending() == buf.skip(8 + n)
                    &&& match whole(payload, parse_command(payload)) {
                        None => r is Close && final(ks)@ == old(ks)@,
                        Some(c) => {
                            let (after, reply) = effect(old(ks)@, old(ks).cap(), c);
                            &&& final(ks)@ == after
                            &&& sends(reply, r)
                        },
                    }
                }
            }),
    {
        let len = self.buffer.len();
        if len < 8 {
            return Step::Wait;
        }
        let ghost buf = self.buffer@;
        let n = (self.buffer[0] as u64) | ((self.buffer[1] as u64) << 8u64) | ((self.buffer[2] as u64)
            << 16u64) | ((self.buffer[3] as u64) << 24u64) | ((self.buffer[4] as u64) << 32u64) | ((
        self.buffer[5] as u64) << 40u64) | ((self.buffer[6] as u64) << 48u64) | ((
        self.buffer[7] as u64) << 56u64);
        if n > self.limit {
            return Step::Close;
        }
        if n > (len - 8) as u64 {
            return Step::Wait;
        }
        let end = 8 + n as usize;
        let mut payload: Vec<u8> = Vec::new();
        let mut rest: Vec<u8> = Vec::new();
        let mut i: usize = 0;
        while i < len
            invariant
                i <= len,
                len == self.buffer@.len(),
                8 <= end <= len,
                i <= end ==> payload@ == self.buffer@.subrange(8, if i < 8 { 8 } else { i as int }),
                i <= end ==> rest@.len() == 0,
                i > end ==> payload@ == self.buffer@.subrange(8, end as int),
                i > end ==> rest@ == self.buffer@.subrange(end as int, i as int),
            decreases len - i,
        {
            if i >= end {
                rest.push(self.buffer[i]);
            } else if i >= 8 {
                payload.push(self.buffer[i]);
            }
            i = i + 1;
            assert(payload@ =~= self.buffer@.subrange(8, if i <= end { if i < 8 { 8 } else { i as int } } else { end as int }));
            assert(i > end ==> rest@ =~= self.buffer@.subrange(end as int, i as int));
        }
        assert(payload@ =~= buf.subrange(8, 8 + n));
        assert(rest@ =~= buf.skip(8 + n));
        self.buffer = rest;
        match decode_command(&payload) {
            None => Step::Close,
            Some(cmd) => match execute(ks, cmd) {
                Reply::Answer(res) => Step::Send(frame(&encode_result(&res))),
                Reply::Snapshot(m) => {
                    let bytes = encode_map(&m);
                    Step::Send(frame(&bytes))
                },
                Reply::Silent => Step::Quiet,
            },
        }
    }
}

} // verus!
