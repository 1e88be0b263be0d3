//! A small in-memory stand-in for a file: named byte contents behind an
//! open/closed state machine. Opening and closing can fail spuriously, as
//! real permission checks can; reading is only allowed while open.

use vstd::prelude::*;
use vstd::string::StringExecFns;
use rand::Rng;

verus! {

/// Whether the file is currently open for reading.
#[derive(Debug, PartialEq, Eq, Structural)]
pub enum FileState {
    Open,
    Closed,
}

/// A named sequence of bytes with an open/closed state.
#[derive(Debug)]
pub struct File {
    pub name: String,
    data: Vec<u8>,
    state: FileState,
}

/// Relies on rand::Rng::gen_ratio, through rand::thread_rng: true with
/// probability 1/denominator. Nothing is promised of the outcome.
#[verifier::external_body]
fn one_in(denominator: u32) -> bool
    requires
        1 <= denominator,
{
    rand::thread_rng().gen_ratio(1, denominator)
}

impl File {
    /// The file's name.
    pub closed spec fn spec_name(&self) -> Seq<char> {
        self.name@
    }

    /// The bytes the file holds.
    pub closed spec fn spec_data(&self) -> Seq<u8> {
        self.data@
    }

    /// Whether the file is open.
    pub closed spec fn is_open(&self) -> bool {
        self.state == FileState::Open
    }

    /// A new, closed file with the given name and contents.
    pub fn new(name: &str, data: Vec<u8>) -> (f: File)
        ensures
            f.spec_name() == name@,
            f.spec_data() == data@,
            !f.is_open(),
    {
        File { name: String::from_str(name), data, state: FileState::Closed }
    }

    /// Appends the whole contents to `save_to` and returns how many bytes
    /// were read; reading a file that is not open is refused.
    pub fn read(self: &File, save_to: &mut Vec<u8>) -> (r: Result<usize, String>)
        ensures
            self.is_open() ==> (r matches Ok(n) && n == self.spec_data().len())
                && final(save_to)@ == old(save_to)@ + self.spec_data(),
            !self.is_open() ==> (r matches Err(m) && m@ == "File must be open for reading"@)
                && *final(save_to) == *old(save_to),
    {
        if !matches!(self.state, FileState::Open) {
            let err_msg = String::from_str("File must be open for reading");
            return Err(err_msg);
        }
        let read_length = self.data.len();
        crate::codec::push_bytes(save_to, self.data.as_slice());
        Ok(read_length)
    }

    /// Tries to open the file. The permission check draws at random: on
    /// success the same name and contents come back open, and on refusal
    /// the file is lost with an error message, as a consumed value.
    pub fn open(self: File) -> (r: Result<File, String>)
        ensures
            r matches Ok(f) ==> f.spec_name() == self.spec_name() && f.spec_data() == self.spec_data()
                && f.is_open(),
            r matches Err(m) ==> m@ == "Permission denied"@,
    {
        if one_in(10) {
            let err_msg = String::from_str("Permission denied");
            return Err(err_msg);
        }
        let mut f = self;
        f.state = FileState::Open;
        Ok(f)
    }

    /// Tries to close the file, with the same spurious failure as `open`;
    /// on success the same name and contents come back closed.
    pub fn close(self: File) -> (r: Result<File, String>)
        ensures
            r matches Ok(f) ==> f.spec_name() == self.spec_name() && f.spec_data() == self.spec_data()
                && !f.is_open(),
            r matches Err(m) ==> m@ == "Permission denied"@,
    {
        if one_in(10) {
            let err_msg = String::from_str("Permission denied");
            return Err(err_msg);
        }
        let mut f = self;
        f.state = FileState::Closed;
        Ok(f)
    }
}

} // verus!
