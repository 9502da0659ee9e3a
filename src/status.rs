//! The outcome of an operation: success, or an error kind with a message.

use vstd::prelude::*;

verus! {

/// The kind of a status.
#[derive(PartialEq, Eq, Structural, Clone, Copy, Debug)]
pub enum Code {
    Success,
    NotFound,
    Corruption,
    NotSupported,
    InvalidArgument,
    IOError,
}

/// Success, or an error kind with a message.
#[derive(Debug)]
pub struct Status {
    code: Code,
    msg: String,
}

/// The message of an error built from `msg` and `msg2`: `msg`, then `": "` and `msg2` when
/// `msg2` is not empty.
pub open spec fn joined_message(msg: Seq<char>, msg2: Seq<char>) -> Seq<char> {
    if msg2.len() == 0 {
        msg
    } else {
        msg + ": "@ + msg2
    }
}

/// The text that `to_string` puts before the message of a status of kind `code`.
pub open spec fn code_prefix(code: Code) -> Seq<char> {
    match code {
        Code::Success => "OK"@,
        Code::NotFound => "NotFound: "@,
        Code::Corruption => "Corruption: "@,
        Code::NotSupported => "Not implemented: "@,
        Code::InvalidArgument => "Invalid argument: "@,
        Code::IOError => "IO error: "@,
    }
}

impl Status {
    pub closed spec fn code_spec(&self) -> Code {
        self.code
    }

    pub closed spec fn message(&self) -> Seq<char> {
        self.msg@
    }

    /// A success status.
    pub fn new() -> (r: Self)
        ensures
            r.code_spec() == Code::Success,
            r.message().len() == 0,
    {
        Status { code: Code::Success, msg: String::new() }
    }

    /// A success status.
    #[allow(non_snake_case)]
    pub fn OK() -> (r: Self)
        ensures
            r.code_spec() == Code::Success,
            r.message().len() == 0,
    {
        Self::new()
    }

    fn from_code_msgs(code: Code, msg: &str, msg2: &str) -> (r: Self)
        ensures
            r.code_spec() == code,
            r.message() == joined_message(msg@, msg2@),
    {
        let mut m = String::from_str(msg);
        if !msg2.is_empty() {
            m.append(": ");
            m.append(msg2);
        }
        Status { code, msg: m }
    }

    pub fn not_found(msg: &str, msg2: &str) -> (r: Self)
        ensures
            r.code_spec() == Code::NotFound,
            r.message() == joined_message(msg@, msg2@),
    {
        Self::from_code_msgs(Code::NotFound, msg, msg2)
    }

    pub fn corruption(msg: &str, msg2: &str) -> (r: Self)
        ensures
            r.code_spec() == Code::Corruption,
            r.message() == joined_message(msg@, msg2@),
    {
        Self::from_code_msgs(Code::Corruption, msg, msg2)
    }

    pub fn not_supported(msg: &str, msg2: &str) -> (r: Self)
        ensures
            r.code_spec() == Code::NotSupported,
            r.message() == joined_message(msg@, msg2@),
    {
        Self::from_code_msgs(Code::NotSupported, msg, msg2)
    }

    pub fn invalid_argument(msg: &str, msg2: &str) -> (r: Self)
        ensures
            r.code_spec() == Code::InvalidArgument,
            r.message() == joined_message(msg@, msg2@),
    {
        Self::from_code_msgs(Code::InvalidArgument, msg, msg2)
    }

    pub fn io_error(msg: &str, msg2: &str) -> (r: Self)
        ensures
            r.code_spec() == Code::IOError,
            r.message() == joined_message(msg@, msg2@),
    {
        Self::from_code_msgs(Code::IOError, msg, msg2)
    }

    /// The kind of this status.
    pub fn code(&self) -> (r: Code)
        ensures
            r == self.code_spec(),
    {
        self.code
    }

    /// Whether this status is a success.
    pub fn ok(&self) -> (r: bool)
        ensures
            r == (self.code_spec() == Code::Success),
    {
        self.code == Code::Success
    }

    pub fn is_not_found(&self) -> (r: bool)
        ensures
            r == (self.code_spec() == Code::NotFound),
    {
        self.code == Code::NotFound
    }

    pub fn is_corruption(&self) -> (r: bool)
        ensures
            r == (self.code_spec() == Code::Corruption),
    {
        self.code == Code::Corruption
    }

    pub fn is_io_error(&self) -> (r: bool)
        ensures
            r == (self.code_spec() == Code::IOError),
    {
        self.code == Code::IOError
    }

    pub fn is_not_supported_error(&self) -> (r: bool)
        ensures
            r == (self.code_spec() == Code::NotSupported),
    {
        self.code == Code::NotSupported
    }

    pub fn is_invalid_argument(&self) -> (r: bool)
        ensures
            r == (self.code_spec() == Code::InvalidArgument),
    {
        self.code == Code::InvalidArgument
    }

    /// A copy of this status.
    pub fn duplicate(&self) -> (r: Self)
        ensures
            r.code_spec() == self.code_spec(),
            r.message() == self.message(),
    {
        Status { code: self.code, msg: String::from_str(self.msg.as_str()) }
    }

    /// `"OK"` for success; otherwise the kind's name, `": "`, and the message.
    pub fn to_string(&self) -> (r: String)
        ensures
            r@ == if self.code_spec() == Code::Success {
                code_prefix(Code::Success)
            } else {
                code_prefix(self.code_spec()) + self.message()
            },
    {
        let mut r = match self.code {
            Code::Success => String::from_str("OK"),
            Code::NotFound => String::from_str("NotFound: "),
            Code::Corruption => String::from_str("Corruption: "),
            Code::NotSupported => String::from_str("Not implemented: "),
            Code::InvalidArgument => String::from_str("Invalid argument: "),
            Code::IOError => String::from_str("IO error: "),
        };
        if self.code != Code::Success {
            r.append(self.msg.as_str());
        }
        r
    }
}

} // verus!
