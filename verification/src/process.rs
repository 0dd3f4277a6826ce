//! What processes leave behind.

use vstd::prelude::*;

verus! {

/// What a process left behind.
#[derive(Debug, PartialEq, Eq)]
pub struct ProcessOutput {
    /// The exit code, or nothing if a signal ended the process.
    pub code: Option<i32>,
    pub stdout: Vec<u8>,
    pub stderr: Vec<u8>,
}

/// The value of a [`ProcessOutput`].
#[verifier::ext_equal]
pub struct ProcessOutputView {
    pub code: Option<i32>,
    pub stdout: Seq<u8>,
    pub stderr: Seq<u8>,
}

impl View for ProcessOutput {
    type V = ProcessOutputView;

    open spec fn view(&self) -> ProcessOutputView {
        ProcessOutputView { code: self.code, stdout: self.stdout@, stderr: self.stderr@ }
    }
}

impl ProcessOutputView {
    /// Whether the process ended well.
    pub open spec fn succeeded(self) -> bool {
        self.code == Some(0i32)
    }
}

impl ProcessOutput {
    /// Whether the process ended well.
    pub fn success(&self) -> (r: bool)
        ensures
            r == self@.succeeded(),
    {
        match self.code {
            Some(c) => c == 0,
            None => false,
        }
    }
}

} // verus!
