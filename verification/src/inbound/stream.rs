//! Bytes that were read ahead of a connection and are handed back first.
use vstd::prelude::*;
use crate::buf;

verus! {

/// What was read ahead of a connection. A reader gets these bytes first and
/// then goes on with the connection itself.
pub struct SniffedStream {
    pub prefix: bytes::Bytes,
}

impl SniffedStream {
    /// Nothing was read ahead.
    pub fn new() -> (r: Self)
        ensures
            buf::contents(r.prefix) == Seq::<u8>::empty(),
    {
        SniffedStream { prefix: bytes::Bytes::new() }
    }

    /// Hands bytes back: they come after those that were handed back before.
    pub fn prepend(&mut self, data: bytes::Bytes)
        requires
            buf::contents(old(self).prefix).len() + buf::contents(data).len() <= isize::MAX,
        ensures
            buf::contents(final(self).prefix) == buf::contents(old(self).prefix) + buf::contents(
                data,
            ),
    {
        if data.is_empty() {
            assert(buf::contents(self.prefix) + buf::contents(data) =~= buf::contents(self.prefix));
            return ;
        }
        if self.prefix.is_empty() {
            assert(buf::contents(self.prefix) + buf::contents(data) =~= buf::contents(data));
            self.prefix = data;
        } else {
            let mut both = bytes::BytesMut::with_capacity(self.prefix.len() + data.len());
            both.extend_from_slice(buf::bytes_slice(&self.prefix));
            both.extend_from_slice(buf::bytes_slice(&data));
            self.prefix = both.freeze();
            assert(buf::contents(self.prefix) =~= buf::contents(old(self).prefix) + buf::contents(
                data,
            ));
        }
    }

    /// The bytes that a reader with room for `room` gets; they are gone
    /// afterwards. There are none once everything has been handed back, and
    /// then the reader goes on with the connection.
    pub fn read(&mut self, room: usize) -> (r: Vec<u8>)
        ensures
            r@.len() == (if buf::contents(old(self).prefix).len() < room {
                buf::contents(old(self).prefix).len() as int
            } else {
                room as int
            }),
            r@ + buf::contents(final(self).prefix) == buf::contents(old(self).prefix),
    {
        let len: usize = self.prefix.len();
        let amount: usize = if len < room {
            len
        } else {
            room
        };
        let all: &[u8] = buf::bytes_slice(&self.prefix);
        let r: Vec<u8> = vstd::slice::slice_to_vec(vstd::slice::slice_subrange(all, 0, amount));
        buf::bytes_advance(&mut self.prefix, amount);
        assert(r@ + buf::contents(self.prefix) =~= buf::contents(old(self).prefix));
        r
    }
}

} // verus!
