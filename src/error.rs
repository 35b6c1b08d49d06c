use vstd::prelude::*;
use vstd::string::StringExecFns;

verus! {

/// The kind of an input/output failure.
#[derive(Clone, Copy, Debug, PartialEq, Eq, Structural)]
pub enum IoErrorKind {
    WouldBlock,
    Other,
    UnexpectedEof,
    InvalidData,
    InvalidInput,
}

/// What can go wrong while computing a signature, a delta or a patch.
#[derive(Clone, Copy, Debug, PartialEq, Eq, Structural)]
pub enum Error {
    Io(IoErrorKind),
    Syntax,
    Mem,
    BadMagic,
    Unimplemented,
    Internal,
    Unknown(i32),
}

/// The text of an input/output failure of each kind.
pub open spec fn io_text(k: IoErrorKind) -> Seq<char> {
    match k {
        IoErrorKind::WouldBlock => "blocked waiting for more data"@,
        IoErrorKind::Other => "unknown IO error from librsync"@,
        IoErrorKind::UnexpectedEof => "unexpected end of input file"@,
        IoErrorKind::InvalidData => "unbelievable value in stream"@,
        IoErrorKind::InvalidInput => "bad parameter"@,
    }
}

impl IoErrorKind {
    /// A short description of the failure.
    pub fn description(&self) -> (r: &'static str)
        ensures
            r@ == io_text(*self),
    {
        match self {
            IoErrorKind::WouldBlock => "blocked waiting for more data",
            IoErrorKind::Other => "unknown IO error from librsync",
            IoErrorKind::UnexpectedEof => "unexpected end of input file",
            IoErrorKind::InvalidData => "unbelievable value in stream",
            IoErrorKind::InvalidInput => "bad parameter",
        }
    }
}

/// The decimal digit for `d`.
pub open spec fn digit_char(d: nat) -> char {
    if d == 0 { '0' } else if d == 1 { '1' } else if d == 2 { '2' } else if d == 3 { '3' }
    else if d == 4 { '4' } else if d == 5 { '5' } else if d == 6 { '6' } else if d == 7 { '7' }
    else if d == 8 { '8' } else { '9' }
}

/// The decimal digits of `v`, most significant first.
pub open spec fn decimal_digits(v: nat) -> Seq<char>
    decreases v,
{
    if v < 10 {
        seq![digit_char(v)]
    } else {
        decimal_digits(v / 10).push(digit_char(v % 10))
    }
}

/// `n` written in decimal, with a minus sign when negative.
pub open spec fn decimal(n: int) -> Seq<char> {
    if n < 0 {
        seq!['-'] + decimal_digits((-n) as nat)
    } else {
        decimal_digits(n as nat)
    }
}

fn digit_str(d: u64) -> (r: &'static str)
    requires
        d < 10,
    ensures
        r@ == seq![digit_char(d as nat)],
{
    proof {
        reveal_strlit("0");
        reveal_strlit("1");
        reveal_strlit("2");
        reveal_strlit("3");
        reveal_strlit("4");
        reveal_strlit("5");
        reveal_strlit("6");
        reveal_strlit("7");
        reveal_strlit("8");
        reveal_strlit("9");
    }
    if d == 0 { "0" } else if d == 1 { "1" } else if d == 2 { "2" } else if d == 3 { "3" }
    else if d == 4 { "4" } else if d == 5 { "5" } else if d == 6 { "6" } else if d == 7 { "7" }
    else if d == 8 { "8" } else { "9" }
}

fn push_digits(s: &mut String, v: u64)
    ensures
        final(s)@ == old(s)@ + decimal_digits(v as nat),
    decreases v,
{
    if v >= 10 {
        push_digits(s, v / 10);
    }
    s.append(digit_str(v % 10));
    assert(final(s)@ =~= old(s)@ + decimal_digits(v as nat));
}

/// The error that a numeric result code of the engine stands for.
pub open spec fn error_of_code(code: i32) -> Error {
    if code == 1 {
        Error::Io(IoErrorKind::WouldBlock)
    } else if code == 100 {
        Error::Io(IoErrorKind::Other)
    } else if code == 101 {
        Error::Syntax
    } else if code == 102 {
        Error::Mem
    } else if code == 103 {
        Error::Io(IoErrorKind::UnexpectedEof)
    } else if code == 104 {
        Error::BadMagic
    } else if code == 105 {
        Error::Unimplemented
    } else if code == 106 {
        Error::Io(IoErrorKind::InvalidData)
    } else if code == 107 {
        Error::Internal
    } else if code == 108 {
        Error::Io(IoErrorKind::InvalidInput)
    } else {
        Error::Unknown(code)
    }
}

impl Error {
    /// Maps a numeric result code onto an error; a code with no meaning of
    /// its own is kept in `Unknown`.
    pub fn from_code(code: i32) -> (r: Error)
        ensures
            r == error_of_code(code),
    {
        match code {
            1 => Error::Io(IoErrorKind::WouldBlock),
            100 => Error::Io(IoErrorKind::Other),
            101 => Error::Syntax,
            102 => Error::Mem,
            103 => Error::Io(IoErrorKind::UnexpectedEof),
            104 => Error::BadMagic,
            105 => Error::Unimplemented,
            106 => Error::Io(IoErrorKind::InvalidData),
            107 => Error::Internal,
            108 => Error::Io(IoErrorKind::InvalidInput),
            _ => Error::Unknown(code),
        }
    }

    /// The full text of the error: the code of an unknown error in decimal,
    /// else its description.
    pub fn message(&self) -> (r: String)
        ensures
            self matches Error::Unknown(n) ==> r@ == "unknown error "@ + decimal(n as int)
                + " from native library"@,
            !(self is Unknown) ==> r@ == self.description_text(),
    {
        match self {
            Error::Unknown(n) => {
                let mut s = String::from_str("unknown error ");
                if *n < 0 {
                    s.append("-");
                    proof {
                        reveal_strlit("-");
                    }
                }
                let v: u64 = if *n < 0 {
                    (-(*n as i64)) as u64
                } else {
                    *n as u64
                };
                push_digits(&mut s, v);
                s.append(" from native library");
                assert(s@ =~= "unknown error "@ + decimal(*n as int) + " from native library"@);
                s
            },
            _ => String::from_str(self.description()),
        }
    }

    /// What `description` gives.
    pub open spec fn description_text(&self) -> Seq<char> {
        match self {
            Error::Io(k) => io_text(*k),
            Error::Syntax => "syntax error"@,
            Error::Mem => "out of memory"@,
            Error::BadMagic => "bad magic number given"@,
            Error::Unimplemented => "unimplemented feature"@,
            Error::Internal => "internal error"@,
            Error::Unknown(_) => "unknown error from librsync"@,
        }
    }

    /// A short description of the error.
    pub fn description(&self) -> (r: &'static str)
        ensures
            self is Syntax ==> r@ == "syntax error"@,
            self is Mem ==> r@ == "out of memory"@,
            self is BadMagic ==> r@ == "bad magic number given"@,
            self is Unimplemented ==> r@ == "unimplemented feature"@,
            self is Internal ==> r@ == "internal error"@,
            self is Unknown ==> r@ == "unknown error from librsync"@,
            self matches Error::Io(k) ==> r@ == io_text(*k),
    {
        match self {
            Error::Io(k) => k.description(),
            Error::Syntax => "syntax error",
            Error::Mem => "out of memory",
            Error::BadMagic => "bad magic number given",
            Error::Unimplemented => "unimplemented feature",
            Error::Internal => "internal error",
            Error::Unknown(_) => "unknown error from librsync",
        }
    }
}

} // verus!
