//! The library's error: a kind and a message, as `std::io::Error` carries them.
use vstd::prelude::*;

verus! {

/// The kinds of failure the library reports (the `std::io::ErrorKind`s it uses).
#[derive(Debug, Clone, Copy, PartialEq, Eq, Structural)]
pub enum ErrorKind {
    NotFound,
    PermissionDenied,
    InvalidData,
    InvalidInput,
    Unsupported,
    BrokenPipe,
    Other,
}

/// An error: its kind and the message it displays.
#[derive(Debug)]
pub struct Error {
    pub kind: ErrorKind,
    pub msg: String,
}

impl Error {
    /// An error of the given kind with the given message.
    pub fn new(kind: ErrorKind, msg: &str) -> (e: Error)
        ensures
            e.kind == kind,
            e.msg@ == msg@,
    {
        Error { kind, msg: msg.to_owned() }
    }

    /// An error of the given kind that owns the given message.
    pub fn from_string(kind: ErrorKind, msg: String) -> (e: Error)
        ensures
            e.kind == kind,
            e.msg@ == msg@,
    {
        Error { kind, msg }
    }

    /// The kind of the error.
    pub fn kind(&self) -> (k: ErrorKind)
        ensures
            k == self.kind,
    {
        self.kind
    }

    /// The message the error displays.
    pub fn message(&self) -> (m: &str)
        ensures
            m@ == self.msg@,
    {
        self.msg.as_str()
    }
}

/// What `add_msg` puts between the old and the added message.
pub open spec fn msg_sep(add_new_line: bool) -> Seq<char> {
    if add_new_line {
        seq!['\n']
    } else {
        seq![',', ' ']
    }
}

/// The messages `msgs` joined by `sep`.
pub open spec fn joined_msgs(msgs: Seq<Seq<char>>, sep: Seq<char>) -> Seq<char>
    decreases msgs.len(),
{
    if msgs.len() == 0 {
        Seq::empty()
    } else if msgs.len() == 1 {
        msgs[0]
    } else {
        joined_msgs(msgs.drop_last(), sep) + sep + msgs.last()
    }
}

/// The message an empty collection of errors merges to.
pub open spec fn empty_merge_msg() -> Seq<char> {
    "Tried to merge 0 errors"@
}

pub trait ModError {
    /// replaces self with `self` + `msg`
    fn add_msg(&mut self, msg: &str, add_new_line: bool);
}

impl ModError for Error {
    fn add_msg(&mut self, msg: &str, add_new_line: bool)
        ensures
            final(self).kind == old(self).kind,
            final(self).msg@ == old(self).msg@ + msg_sep(add_new_line) + msg@,
    {
        if add_new_line {
            self.msg.append("\n");
        } else {
            self.msg.append(", ");
        }
        self.msg.append(msg);
        proof {
            reveal_strlit("\n");
            reveal_strlit(", ");
        }
    }
}

pub trait ErrorClone {
    /// clones a immutable reference to an `Error` to a owned `Error`
    fn clone_err(&self) -> Error;
}

impl ErrorClone for Error {
    fn clone_err(&self) -> (e: Error)
        ensures
            e.kind == self.kind,
            e.msg@ == self.msg@,
    {
        Error { kind: self.kind, msg: self.msg.clone() }
    }
}

pub trait Merge {
    /// joins all `Error`'s in a collection while leaving the collection intact
    fn merge(&self, add_new_line: bool) -> Error;
}

impl Merge for [Error] {
    fn merge(&self, add_new_line: bool) -> (e: Error)
        ensures
            self@.len() == 0 ==> e.kind == ErrorKind::InvalidInput && e.msg@ == empty_merge_msg(),
            self@.len() > 0 ==> e.kind == self@[0].kind && e.msg@ == joined_msgs(
                self@.map_values(|x: Error| x.msg@),
                msg_sep(add_new_line),
            ),
    {
        if self.len() == 0 {
            return Error::new(ErrorKind::InvalidInput, "Tried to merge 0 errors");
        }
        let mut new_err = self[0].clone_err();
        let ghost msgs = self@.map_values(|x: Error| x.msg@);
        assert(msgs.subrange(0, 1) =~= seq![msgs[0]]);
        let mut i: usize = 1;
        while i < self.len()
            invariant
                1 <= i <= self@.len(),
                msgs == self@.map_values(|x: Error| x.msg@),
                new_err.kind == self@[0].kind,
                new_err.msg@ == joined_msgs(msgs.subrange(0, i as int), msg_sep(add_new_line)),
            decreases self@.len() - i,
        {
            new_err.add_msg(self[i].message(), add_new_line);
            assert(msgs.subrange(0, i + 1).drop_last() =~= msgs.subrange(0, i as int));
            i = i + 1;
        }
        assert(msgs.subrange(0, self@.len() as int) =~= msgs);
        new_err
    }
}

/// A text that `parse_bool` refused.
pub struct ParseBoolError;

/// A text that `parse_u32` refused.
pub struct ParseIntError;

/// A text that the `ini` crate could not read as a document; it holds the crate's message.
pub struct IniParseError(pub String);

/// The message given to a value that is not a `bool`.
pub open spec fn bool_err_msg(key: Seq<char>, context: Seq<char>) -> Seq<char> {
    "string: '"@ + context + "', saved with key: '"@ + key
        + "', was not `true`, `false`, `1`, or `0`"@
}

/// The message given to a value that is not a `u32`.
pub open spec fn int_err_msg(key: Seq<char>, context: Seq<char>) -> Seq<char> {
    "string: '"@ + context + "', saved with key: '"@ + key + "', was not within the valid `U32 range`"@
}

pub trait IntoIoError {
    fn into_io_error(self, key: &str, context: &str) -> Error;
}

impl IntoIoError for ParseBoolError {
    /// converts `ParseBoolError` into an `Error`, key and context add context to the message
    fn into_io_error(self, key: &str, context: &str) -> (e: Error)
        ensures
            e.kind == ErrorKind::InvalidData,
            e.msg@ == bool_err_msg(key@, context@),
    {
        let mut m = "string: '".to_owned();
        m.append(context);
        m.append("', saved with key: '");
        m.append(key);
        m.append("', was not `true`, `false`, `1`, or `0`");
        Error { kind: ErrorKind::InvalidData, msg: m }
    }
}

impl IntoIoError for ParseIntError {
    /// converts `ParseIntError` into an `Error`, key and context add context to the message
    fn into_io_error(self, key: &str, context: &str) -> (e: Error)
        ensures
            e.kind == ErrorKind::InvalidData,
            e.msg@ == int_err_msg(key@, context@),
    {
        let mut m = "string: '".to_owned();
        m.append(context);
        m.append("', saved with key: '");
        m.append(key);
        m.append("', was not within the valid `U32 range`");
        Error { kind: ErrorKind::InvalidData, msg: m }
    }
}

impl IntoIoError for IniParseError {
    /// converts a parse failure of the `ini` crate into an `Error`, key and context are not used
    fn into_io_error(self, key: &str, context: &str) -> (e: Error)
        ensures
            e.kind == ErrorKind::InvalidData,
            e.msg@ == self.0@,
    {
        Error { kind: ErrorKind::InvalidData, msg: self.0 }
    }
}

} // verus!
