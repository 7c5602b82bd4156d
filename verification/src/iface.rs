//! What is needed to start the runtime process that hosts the controllers.

use vstd::prelude::*;

verus! {

/// Bytes in one mebibyte: message buffers are sized in mebibytes.
pub const M: usize = 0x10_0000;

/// How the runtime process is to be started.
#[derive(Debug)]
pub struct Args {
    /// Path of the runtime's executable.
    pub aicirt: String,
    pub tokenizer: String,
    /// Size of the JSON message buffers, in mebibytes.
    pub json_size: usize,
    /// Size of the binary buffer, in mebibytes.
    pub bin_size: usize,
    pub shm_prefix: String,
    /// How long to spin before sleeping while waiting for an answer, in
    /// milliseconds.
    pub busy_wait_time: u64,
}

impl Args {
    /// Size of the JSON message buffers in bytes, where that fits a `usize`.
    pub fn json_bytes(&self) -> (r: Option<usize>)
        ensures
            r == (if self.json_size * M <= usize::MAX {
                Some((self.json_size * M) as usize)
            } else {
                None::<usize>
            }),
    {
        self.json_size.checked_mul(M)
    }

    /// Size of the binary buffer in bytes, where that fits a `usize`.
    pub fn bin_bytes(&self) -> (r: Option<usize>)
        ensures
            r == (if self.bin_size * M <= usize::MAX {
                Some((self.bin_size * M) as usize)
            } else {
                None::<usize>
            }),
    {
        self.bin_size.checked_mul(M)
    }
}

} // verus!
