//! The errors of the library, each with its message.
use vstd::prelude::*;
use vstd::string::StringExecFns;

verus! {

/// Why an operation of the library failed.
#[derive(Debug, Clone, PartialEq, Eq)]
pub enum Error {
    /// A WAL file does not start with the magic bytes.
    InvalidMagic,
    /// A WAL file header names a format version this library does not read.
    UnsupportedVersion { version: u16 },
    /// A WAL file is shorter than its header.
    TruncatedHeader,
    /// An encoded WAL payload does not fit the format.
    PayloadTooLarge,
    /// A WAL record has an empty key.
    EmptyKey,
    /// A WAL record key is longer than a `u32` can count.
    KeyTooLarge,
    /// A WAL record value is longer than a `u32` can count.
    ValueTooLarge,
    /// A WAL record announces a payload above the maximum.
    PayloadLengthExceedsMax { payload_len: u32 },
    /// A WAL record's checksum does not match its bytes.
    ChecksumMismatch,
    /// A WAL payload is shorter than its fixed fields.
    PayloadTooShort,
    /// A WAL payload's key and value lengths overflow when added.
    PayloadLengthOverflow,
    /// A WAL payload's length disagrees with its key and value lengths.
    PayloadLengthMismatch,
    /// A WAL delete record carries a value.
    DeleteWithValue,
    /// A WAL record has a kind byte that is neither put nor delete.
    UnknownKind { kind: u8 },
    /// A configuration names an empty storage path.
    EmptyStoragePath,
    /// A configuration sets the memtable size to zero.
    ZeroMemtableBytes,
    /// A command-line argument is not recognised.
    UnknownArgument { arg: String },
    /// A command-line flag lacks its value.
    MissingFlagValue { flag: String },
    /// Reading or writing a file failed; the message is the system's.
    Io { message: String },
}

/// The decimal digits of `n`, most significant first.
pub open spec fn decimal_digits(n: nat) -> Seq<char>
    decreases n,
{
    let d = ((n % 10) + ('0' as nat)) as char;
    if n < 10 {
        seq![d]
    } else {
        decimal_digits(n / 10).push(d)
    }
}

/// The number that a string of decimal digits denotes, most significant
/// digit first.
pub open spec fn digits_value(s: Seq<char>) -> nat
    decreases s.len(),
{
    if s.len() == 0 {
        0
    } else {
        digits_value(s.drop_last()) * 10 + ((s.last() as nat) - ('0' as nat)) as nat
    }
}

/// The decimal text of a number is made of the digits 0 to 9, has no
/// leading zero, and denotes that number.
pub proof fn law_decimal_digits_denote(n: nat)
    ensures
        decimal_digits(n).len() > 0,
        decimal_digits(n).len() > 1 <==> n >= 10,
        forall|i: int|
            0 <= i < decimal_digits(n).len() ==> '0' <= #[trigger] decimal_digits(n)[i] <= '9',
        decimal_digits(n).len() > 1 ==> decimal_digits(n)[0] != '0',
        digits_value(decimal_digits(n)) == n,
    decreases n,
{
    let d = ((n % 10) + ('0' as nat)) as char;
    assert(d as nat == (n % 10) + ('0' as nat));
    if n >= 10 {
        let m = n / 10;
        law_decimal_digits_denote(m);
        let s = decimal_digits(n);
        assert(s == decimal_digits(m).push(d));
        assert(s.drop_last() =~= decimal_digits(m));
        assert(s[0] == decimal_digits(m)[0]);
        if decimal_digits(m).len() == 1 {
            assert(decimal_digits(m) == seq![((m % 10) + ('0' as nat)) as char]);
            assert(m % 10 == m);
        }
        assert(s.last() == d);
        assert(digits_value(s) == digits_value(decimal_digits(m)) * 10 + n % 10);
        assert(m * 10 + n % 10 == n);
    } else {
        assert(decimal_digits(n).drop_last() =~= Seq::<char>::empty());
        assert(n % 10 == n);
        assert(decimal_digits(n).last() == d);
        assert(digits_value(decimal_digits(n)) == digits_value(Seq::<char>::empty()) * 10 + n % 10);
    }
}

/// The decimal digit `d` as text.
fn digit_text(d: u64) -> (r: &'static str)
    requires
        d < 10,
    ensures
        r@ == seq![((d as nat) + ('0' as nat)) as char],
{
    match d {
        0 => {
            proof {
                reveal_strlit("0");
            }
            "0"
        },
        1 => {
            proof {
                reveal_strlit("1");
            }
            "1"
        },
        2 => {
            proof {
                reveal_strlit("2");
            }
            "2"
        },
        3 => {
            proof {
                reveal_strlit("3");
            }
            "3"
        },
        4 => {
            proof {
                reveal_strlit("4");
            }
            "4"
        },
        5 => {
            proof {
                reveal_strlit("5");
            }
            "5"
        },
        6 => {
            proof {
                reveal_strlit("6");
            }
            "6"
        },
        7 => {
            proof {
                reveal_strlit("7");
            }
            "7"
        },
        8 => {
            proof {
                reveal_strlit("8");
            }
            "8"
        },
        _ => {
            proof {
                reveal_strlit("9");
            }
            "9"
        },
    }
}

/// Renders `n` in decimal, most significant digit first.
pub(crate) fn decimal_string(n: u64) -> (s: String)
    ensures
        s@ == decimal_digits(n as nat),
{
    let mut acc = String::from_str(digit_text(n % 10));
    let mut rest: u64 = n / 10;
    while rest > 0
        invariant
            rest > 0 ==> decimal_digits(n as nat) == decimal_digits(rest as nat) + acc@,
            rest == 0 ==> acc@ == decimal_digits(n as nat),
        decreases rest,
    {
        let d = digit_text(rest % 10);
        let ghost old_acc = acc@;
        acc = String::from_str(d).concat(acc.as_str());
        proof {
            let dd = decimal_digits((rest / 10) as nat);
            if rest >= 10 {
                assert(decimal_digits(rest as nat) == dd.push(d@[0]));
                assert(dd + acc@ =~= dd.push(d@[0]) + old_acc);
            } else {
                assert(acc@ =~= decimal_digits(rest as nat) + old_acc);
            }
        }
        rest = rest / 10;
    }
    acc
}

/// The message of an error.
pub open spec fn message_spec(e: Error) -> Seq<char> {
    match e {
        Error::InvalidMagic => "invalid WAL file magic"@,
        Error::UnsupportedVersion { version } => "unsupported WAL format version: "@
            + decimal_digits(version as nat),
        Error::TruncatedHeader => "failed to fill whole buffer"@,
        Error::PayloadTooLarge => "WAL record payload is too large"@,
        Error::EmptyKey => "WAL record key must not be empty"@,
        Error::KeyTooLarge => "WAL record key is too large"@,
        Error::ValueTooLarge => "WAL record value is too large"@,
        Error::PayloadLengthExceedsMax { payload_len } => "WAL record payload length exceeds maximum: "@
            + decimal_digits(payload_len as nat),
        Error::ChecksumMismatch => "WAL record checksum mismatch"@,
        Error::PayloadTooShort => "WAL record payload is too short"@,
        Error::PayloadLengthOverflow => "WAL record payload length overflows"@,
        Error::PayloadLengthMismatch => "WAL record payload length mismatch"@,
        Error::DeleteWithValue => "WAL delete record must not include a value"@,
        Error::UnknownKind { kind } => "unknown WAL record kind: "@ + decimal_digits(kind as nat),
        Error::EmptyStoragePath => "storage_path must not be empty"@,
        Error::ZeroMemtableBytes => "memtable_bytes must be greater than zero"@,
        Error::UnknownArgument { arg } => "unknown argument: "@ + arg@,
        Error::MissingFlagValue { flag } => flag@ + " requires a path"@,
        Error::Io { message } => message@,
    }
}

impl Error {
    /// The message of this error, the text it shows to a user.
    pub fn message(&self) -> (s: String)
        ensures
            s@ == message_spec(*self),
    {
        match self {
            Error::InvalidMagic => String::from_str("invalid WAL file magic"),
            Error::UnsupportedVersion { version } => String::from_str(
                "unsupported WAL format version: ",
            ).concat(decimal_string(*version as u64).as_str()),
            Error::TruncatedHeader => String::from_str("failed to fill whole buffer"),
            Error::PayloadTooLarge => String::from_str("WAL record payload is too large"),
            Error::EmptyKey => String::from_str("WAL record key must not be empty"),
            Error::KeyTooLarge => String::from_str("WAL record key is too large"),
            Error::ValueTooLarge => String::from_str("WAL record value is too large"),
            Error::PayloadLengthExceedsMax { payload_len } => String::from_str(
                "WAL record payload length exceeds maximum: ",
            ).concat(decimal_string(*payload_len as u64).as_str()),
            Error::ChecksumMismatch => String::from_str("WAL record checksum mismatch"),
            Error::PayloadTooShort => String::from_str("WAL record payload is too short"),
            Error::PayloadLengthOverflow => String::from_str("WAL record payload length overflows"),
            Error::PayloadLengthMismatch => String::from_str("WAL record payload length mismatch"),
            Error::DeleteWithValue => String::from_str("WAL delete record must not include a value"),
            Error::UnknownKind { kind } => String::from_str("unknown WAL record kind: ").concat(
                decimal_string(*kind as u64).as_str(),
            ),
            Error::EmptyStoragePath => String::from_str("storage_path must not be empty"),
            Error::ZeroMemtableBytes => String::from_str("memtable_bytes must be greater than zero"),
            Error::UnknownArgument { arg } => String::from_str("unknown argument: ").concat(
                arg.as_str(),
            ),
            Error::MissingFlagValue { flag } => flag.clone().concat(" requires a path"),
            Error::Io { message } => message.clone(),
        }
    }
}

} // verus!
