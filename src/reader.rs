use vstd::prelude::*;
use crate::common::copy_slice;
use crate::protocol::{Data, Parsed, Resp, encode, frame_at, get_len, parse_frame, MAX_FRAME_LEN, decimal};

verus! {

/// Outcome of reading from the buffered bytes of a connection.
pub enum ReadResult {
    /// One complete value.
    Frame(Data),
    /// More bytes are needed.
    NeedMore,
    /// The bytes cannot form a value; the connection is to be closed.
    ProtocolError,
}

/// Incremental reader of RESP values over the bytes received on one connection.
///
/// In replication mode it counts the bytes of every value it returns, so that a
/// replica can report how much of the master's stream it has processed.
pub struct StreamReader {
    buffer: Vec<u8>,
    current_command_processed_bytes: usize,
    total_processed_bytes: usize,
    is_replication_stream: bool,
}

impl StreamReader {
    /// Bytes received and not yet consumed.
    pub closed spec fn pending(&self) -> Seq<u8> {
        self.buffer@
    }

    pub closed spec fn processed(&self) -> nat {
        self.total_processed_bytes as nat
    }

    pub closed spec fn last_len(&self) -> nat {
        self.current_command_processed_bytes as nat
    }

    pub closed spec fn replication(&self) -> bool {
        self.is_replication_stream
    }

    pub fn new(is_replication_stream: bool) -> (r: Self)
        ensures
            r.pending() == Seq::<u8>::empty(),
            r.processed() == 0,
            r.last_len() == 0,
            r.replication() == is_replication_stream,
    {
        StreamReader {
            buffer: Vec::new(),
            current_command_processed_bytes: 0,
            total_processed_bytes: 0,
            is_replication_stream,
        }
    }

    /// Appends bytes received from the peer.
    pub fn feed(&mut self, bytes: &[u8])
        ensures
            final(self).pending() == old(self).pending() + bytes@,
            final(self).processed() == old(self).processed(),
            final(self).last_len() == old(self).last_len(),
            final(self).replication() == old(self).replication(),
    {
        crate::common::push_all(&mut self.buffer, bytes);
    }

    /// Switches byte counting on or off.
    pub fn set_replication(&mut self, on: bool)
        ensures
            final(self).pending() == old(self).pending(),
            final(self).processed() == old(self).processed(),
            final(self).last_len() == old(self).last_len(),
            final(self).replication() == on,
    {
        self.is_replication_stream = on;
    }

    fn consume(&mut self, n: usize)
        requires
            n <= old(self).buffer@.len(),
        ensures
            final(self).buffer@ == old(self).buffer@.skip(n as int),
            final(self).total_processed_bytes == old(self).total_processed_bytes,
            final(self).current_command_processed_bytes == old(self).current_command_processed_bytes,
            final(self).is_replication_stream == old(self).is_replication_stream,
    {
        let rest = copy_slice(self.buffer.as_slice(), n, self.buffer.len());
        self.buffer = rest;
    }

    /// Reads one complete value from the pending bytes. In replication mode the bytes
    /// of the value are added to the processed count (saturating); the length of the
    /// value is kept as the latest command length either way.
    pub fn read_redis_data(&mut self) -> (r: ReadResult)
        ensures
            final(self).replication() == old(self).replication(),
            match r {
                ReadResult::Frame(d) => {
                    let n = encode(d@).len();
                    &&& frame_at(old(self).pending(), 0, d@, MAX_FRAME_LEN as nat)
                    &&& final(self).pending() == old(self).pending().skip(n as int)
                    &&& final(self).last_len() == n
                    &&& final(self).processed() == if old(self).replication() {
                        if old(self).processed() + n <= usize::MAX {
                            old(self).processed() + n
                        } else {
                            usize::MAX as nat
                        }
                    } else {
                        old(self).processed()
                    }
                },
                _ => {
                    &&& forall|v: Resp| !#[trigger] frame_at(old(self).pending(), 0, v, MAX_FRAME_LEN as nat)
                    &&& final(self).pending() == old(self).pending()
                    &&& final(self).processed() == old(self).processed()
                    &&& final(self).last_len() == old(self).last_len()
                },
            },
            old(self).pending().len() == 0 ==> r is NeedMore,
            old(self).pending().len() > 0 && !crate::protocol::is_tag(old(self).pending()[0]) ==> r is ProtocolError,
            forall|m: nat|
                old(self).pending().len() > 0 && (old(self).pending()[0] == 36 || old(self).pending()[0] == 42)
                    && m > MAX_FRAME_LEN && #[trigger] crate::protocol::digits_at(old(self).pending(), 1, m)
                    ==> r is ProtocolError,
    {
        match parse_frame(self.buffer.as_slice(), 0, MAX_FRAME_LEN) {
            Parsed::Frame(d, n) => {
                self.consume(n);
                self.current_command_processed_bytes = n;
                if self.is_replication_stream {
                    self.total_processed_bytes = self.total_processed_bytes.saturating_add(n);
                }
                ReadResult::Frame(d)
            },
            Parsed::Incomplete => ReadResult::NeedMore,
            Parsed::Invalid => ReadResult::ProtocolError,
        }
    }

    /// Whether bytes of an unfinished value are waiting.
    pub fn has_pending(&self) -> (r: bool)
        ensures
            r == (self.pending().len() > 0),
    {
        self.buffer.len() > 0
    }

    /// Bytes of values returned in replication mode since the last reset.
    pub fn get_processed_bytes(&self) -> (r: usize)
        ensures
            r == self.processed(),
    {
        self.total_processed_bytes
    }

    pub fn reset_processed_bytes(&mut self)
        ensures
            final(self).processed() == 0,
            final(self).pending() == old(self).pending(),
            final(self).last_len() == old(self).last_len(),
            final(self).replication() == old(self).replication(),
    {
        self.total_processed_bytes = 0;
    }

    /// Length of the value most recently returned.
    pub fn get_latest_command_byte_length(&self) -> (r: usize)
        ensures
            r == self.last_len(),
    {
        self.current_command_processed_bytes
    }

    /// The offset a replica acknowledges on `REPLCONF GETACK`: the processed bytes
    /// without the value just read (the `GETACK` request itself).
    pub fn ack_offset(&self) -> (r: usize)
        ensures
            r == if self.processed() >= self.last_len() {
                (self.processed() - self.last_len()) as nat
            } else {
                0
            },
    {
        if self.total_processed_bytes >= self.current_command_processed_bytes {
            self.total_processed_bytes - self.current_command_processed_bytes
        } else {
            0
        }
    }

    /// Reads a snapshot transfer `$<len>\r\n<len bytes>`, which has no trailing CRLF.
    /// `None` when the bytes are not all there yet or do not start such a transfer.
    pub fn expect_bytes(&mut self) -> (r: Option<Vec<u8>>)
        ensures
            final(self).replication() == old(self).replication(),
            final(self).processed() == old(self).processed(),
            final(self).last_len() == old(self).last_len(),
            r matches Some(b) ==> exists|n: nat|
                #![trigger decimal(n)]
                {
                    let h = seq![36u8] + decimal(n) + seq![13u8, 10u8];
                    &&& n == b@.len()
                    &&& old(self).pending().take(h.len() + n as int) == h + b@
                    &&& final(self).pending() == old(self).pending().skip(h.len() + n as int)
                },
            r is None ==> final(self).pending() == old(self).pending(),
            forall|n: nat|
                #![trigger transfer_header(n)]
                old(self).pending().len() < usize::MAX && transfer_header(n).len() + n <= old(self).pending().len()
                    && old(self).pending().take(transfer_header(n).len() as int) == transfer_header(n) ==> r is Some,
    {
        proof {
            assert forall|n: nat|
                #![trigger transfer_header(n)]
                old(self).pending().len() < usize::MAX && transfer_header(n).len() + n <= old(self).pending().len()
                    && old(self).pending().take(transfer_header(n).len() as int) == transfer_header(n) implies
                    self.buffer@.len() > 0 && self.buffer@[0] == 36 && crate::protocol::digits_at(self.buffer@, 1, n)
                    && self.buffer@[1 + decimal(n).len() as int] == 13 && self.buffer@[2 + decimal(n).len() as int] == 10 by {
                let h = transfer_header(n);
                let b = self.buffer@;
                crate::protocol::lemma_decimal_shape(n);
                assert(b[0] == b.take(h.len() as int)[0]);
                assert forall|j: int| 0 <= j < decimal(n).len() implies b.subrange(1, 1 + decimal(n).len() as int)[j] == decimal(n)[j] by {
                    assert(b[1 + j] == b.take(h.len() as int)[1 + j]);
                    assert(h[1 + j] == decimal(n)[j]);
                }
                assert(b.subrange(1, 1 + decimal(n).len() as int) =~= decimal(n));
                assert(b[1 + decimal(n).len() as int] == b.take(h.len() as int)[1 + decimal(n).len() as int]);
                assert(b[2 + decimal(n).len() as int] == b.take(h.len() as int)[2 + decimal(n).len() as int]);
            }
        }
        if self.buffer.len() == 0 || self.buffer[0] != 36 || self.buffer.len() >= usize::MAX {
            return None;
        }
        match get_len(self.buffer.as_slice()) {
            Some((n, start)) => {
                proof {
                    assert forall|m: nat|
                        #![trigger transfer_header(m)]
                        old(self).pending().len() < usize::MAX && transfer_header(m).len() + m <= old(self).pending().len()
                            && old(self).pending().take(transfer_header(m).len() as int) == transfer_header(m) implies
                            m == n && start + n <= self.buffer@.len() && self.buffer@[start - 1] == 10 by {
                        crate::protocol::lemma_digits_unique(self.buffer@, 1, m, n as nat);
                    }
                }
                if start > self.buffer.len() || self.buffer[start - 1] != 10 || n > self.buffer.len() - start {
                    return None;
                }
                let payload = copy_slice(self.buffer.as_slice(), start, start + n);
                proof {
                    let h = seq![36u8] + decimal(n as nat) + seq![13u8, 10u8];
                    assert(h.len() == start);
                    assert(self.buffer@.take(start + n) =~= h + payload@);
                }
                self.consume(start + n);
                Some(payload)
            },
            None => {
                proof {
                    assert forall|m: nat|
                        #![trigger transfer_header(m)]
                        old(self).pending().len() < usize::MAX && transfer_header(m).len() + m <= old(self).pending().len()
                            && old(self).pending().take(transfer_header(m).len() as int) == transfer_header(m) implies
                            false by {
                        assert(m <= usize::MAX);
                    }
                }
                None
            },
        }
    }

    /// Reads a simple string value, such as a handshake reply.
    pub fn receive_sstring(&mut self) -> (r: Option<Vec<u8>>)
        ensures
            final(self).replication() == old(self).replication(),
            r matches Some(s) ==> frame_at(old(self).pending(), 0, Resp::Simple(s@), MAX_FRAME_LEN as nat)
                && final(self).pending() == old(self).pending().skip(encode(Resp::Simple(s@)).len() as int),
            r is None ==> final(self).pending() == old(self).pending(),
            forall|s: Seq<u8>| #[trigger] frame_at(old(self).pending(), 0, Resp::Simple(s), MAX_FRAME_LEN as nat)
                ==> (r matches Some(x) && x@ == s),
    {
        let ghost b = self.buffer@;
        match parse_frame(self.buffer.as_slice(), 0, MAX_FRAME_LEN) {
            Parsed::Frame(Data::SStr(s), n) => {
                proof {
                    assert forall|t: Seq<u8>| #[trigger] frame_at(b, 0, Resp::Simple(t), MAX_FRAME_LEN as nat) implies t == s@ by {
                        crate::protocol::lemma_frame_unique(b, 0, Resp::Simple(t), Resp::Simple(s@), MAX_FRAME_LEN as nat);
                    }
                }
                self.consume(n);
                Some(s)
            },
            Parsed::Frame(d, _) => {
                proof {
                    assert forall|t: Seq<u8>| !#[trigger] frame_at(b, 0, Resp::Simple(t), MAX_FRAME_LEN as nat) by {
                        if frame_at(b, 0, Resp::Simple(t), MAX_FRAME_LEN as nat) {
                            crate::protocol::lemma_frame_unique(b, 0, Resp::Simple(t), d@, MAX_FRAME_LEN as nat);
                        }
                    }
                }
                None
            },
            _ => None,
        }
    }
}

/// The header of a snapshot transfer of `n` bytes: `$<n>\r\n`.
pub open spec fn transfer_header(n: nat) -> Seq<u8> {
    seq![36u8] + decimal(n) + seq![13u8, 10u8]
}

} // verus!
