//! Buffered output channels for command output.
//!
//! The computing side of command output: bytes are appended to in-memory
//! buffers with exact contracts, and a thin unverified shell hands the
//! buffered bytes to the real standard streams.  When no separate error
//! channel is configured, error output falls through to the main channel.

use vstd::prelude::*;

verus! {

/// A pair of output channels: the main one, and an optional error one.
pub struct IO {
    pub output: Vec<u8>,
    pub error: Vec<u8>,
    pub split_error: bool,
}

impl IO {
    /// Fresh empty channels; `split_error` configures a separate error
    /// channel.
    pub fn new(split_error: bool) -> (r: IO)
        ensures
            r.output@.len() == 0,
            r.error@.len() == 0,
            r.split_error == split_error,
    {
        IO { output: Vec::new(), error: Vec::new(), split_error }
    }

    /// Appends the bytes to the main channel.
    pub fn write(&mut self, data: &Vec<u8>)
        ensures
            final(self).output@ == old(self).output@ + data@,
            final(self).error@ == old(self).error@,
            final(self).split_error == old(self).split_error,
    {
        let mut i: usize = 0;
        while i < data.len()
            invariant
                0 <= i <= data@.len(),
                self.output@ == old(self).output@ + data@.subrange(0, i as int),
                self.error@ == old(self).error@,
                self.split_error == old(self).split_error,
            decreases data@.len() - i,
        {
            self.output.push(data[i]);
            proof {
                assert(self.output@ =~= old(self).output@ + data@.subrange(0, i + 1));
            }
            i = i + 1;
        }
        proof {
            assert(old(self).output@ + data@.subrange(0, data@.len() as int) =~= old(self).output@
                + data@);
        }
    }

    /// Appends the bytes to the error channel, or to the main channel when
    /// no separate error channel is configured.
    pub fn write_err(&mut self, data: &Vec<u8>)
        ensures
            old(self).split_error ==> final(self).error@ == old(self).error@ + data@
                && final(self).output@ == old(self).output@,
            !old(self).split_error ==> final(self).output@ == old(self).output@ + data@
                && final(self).error@ == old(self).error@,
            final(self).split_error == old(self).split_error,
    {
        if self.split_error {
            let mut i: usize = 0;
            while i < data.len()
                invariant
                    0 <= i <= data@.len(),
                    self.error@ == old(self).error@ + data@.subrange(0, i as int),
                    self.output@ == old(self).output@,
                    self.split_error == old(self).split_error,
                decreases data@.len() - i,
            {
                self.error.push(data[i]);
                proof {
                    assert(self.error@ =~= old(self).error@ + data@.subrange(0, i + 1));
                }
                i = i + 1;
            }
            proof {
                assert(old(self).error@ + data@.subrange(0, data@.len() as int) =~= old(self).error@
                    + data@);
            }
        } else {
            self.write(data);
        }
    }

    /// Buffered channels hold nothing in flight, so a flush changes no
    /// state; the unverified shell around the real streams performs the
    /// actual flushing when it empties the buffers.
    pub fn flush(&mut self)
        ensures
            final(self).output@ == old(self).output@,
            final(self).error@ == old(self).error@,
            final(self).split_error == old(self).split_error,
    {
    }
}

} // verus!
