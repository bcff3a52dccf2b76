use vstd::prelude::*;

verus! {

/// The fatal conditions a run can end with.
///
/// `Data` rejects an ambiguous destination: several resolved sources aimed at
/// a single path that is not a directory, where later copies would overwrite
/// earlier ones. `Io` carries the message of an operating-system failure met
/// while reading, writing or hashing a file. `Threading` marks a background
/// hashing task that could not be joined, kept distinct from `Io` so that a
/// concurrency fault is not mistaken for a data fault.
#[derive(Debug)]
pub enum Error {
    Data,
    Io(String),
    Threading,
}

impl Error {
    /// The human-readable message for this error, one fixed line per kind,
    /// with an I/O failure reporting the underlying system message.
    pub fn message(&self) -> (r: String)
        ensures
            self is Data ==> r@ == "copying multiple files to one path; probable data loss"@,
            self is Io ==> r@ == self->Io_0@,
            self is Threading ==> r@ == "thread join failed"@,
    {
        match self {
            Error::Data => String::from_str("copying multiple files to one path; probable data loss"),
            Error::Io(m) => m.clone(),
            Error::Threading => String::from_str("thread join failed"),
        }
    }
}

} // verus!
