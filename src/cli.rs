//! Exit codes and the argument-free subcommand.
use vstd::prelude::*;

verus! {

/// How the program ends.
#[derive(Clone, Copy, Debug, PartialEq, Eq, Structural)]
pub enum CliResult {
    Success,
    IoError,
    Usage,
    LogError,
    ConfigError,
    Abort,
}

impl CliResult {
    /// The process exit code.
    pub fn code(self) -> (r: u8)
        ensures
            r == match self {
                CliResult::Success => 0u8,
                CliResult::IoError => 42u8,
                CliResult::Usage => 64u8,
                CliResult::LogError => 65u8,
                CliResult::ConfigError => 78u8,
                CliResult::Abort => 255u8,
            },
    {
        match self {
            CliResult::Success => 0,
            CliResult::IoError => 42,
            CliResult::Usage => 64,
            CliResult::LogError => 65,
            CliResult::ConfigError => 78,
            CliResult::Abort => 255,
        }
    }
}

/// The `thaw` subcommand, which takes no arguments.
#[derive(Clone, Copy, Debug, PartialEq, Eq, Structural)]
pub struct Thaw {}

/// Default size of a chunk, in bytes.
pub const DEFAULT_CHUNK_SIZE: usize = 512;

/// Default size of the buffer between the compressor and the encryptor.
pub const DEFAULT_BUF_SIZE: usize = 8192;

/// Mode of a chunk file.
pub const CHUNK_FILE_MODE: u32 = 0o660;

/// Name of a chunk file before its index.
pub const CHUNK_FILE_PREFIX: &'static str = "chunk";

/// Characters outside those that object-store keys allow.
pub const UNSAFE_PREFIX: &'static str = "[^a-zA-Z0-9[/()!'*._-]]+";

/// What the `regex` crate finds for `pattern` in `text`: `None` where the
/// pattern does not compile, else the leftmost match, if any.
pub uninterp spec fn regex_search(pattern: Seq<char>, text: Seq<char>) -> Option<Option<Seq<char>>>;

/// Relies on `regex::Regex::new` and `Regex::find`: compiles `pattern` and
/// returns the text of the leftmost match in `text`.
#[verifier::external_body]
fn regex_find(pattern: &str, text: &str) -> (r: Option<Option<String>>)
    ensures
        match r {
            None => regex_search(pattern@, text@).is_none(),
            Some(None) => regex_search(pattern@, text@) == Some(None::<Seq<char>>),
            Some(Some(m)) => regex_search(pattern@, text@) == Some(Some(m@)),
        },
{
    match regex::Regex::new(pattern) {
        Ok(re) => match re.find(text) {
            Some(m) => Some(Some(m.as_str().to_string())),
            None => Some(None),
        },
        Err(_) => None,
    }
}

/// Why a prefix was refused.
#[derive(Clone, Debug, PartialEq, Eq)]
pub enum PrefixError {
    /// The prefix is empty.
    Empty,
    /// The prefix holds characters that object-store keys do not allow; the
    /// first run of them is given.
    Unsafe(String),
    /// The prefix starts at the root.
    Absolute,
    /// The pattern of unsafe characters does not compile.
    Pattern,
}

/// The verdict on a non-empty prefix `s`, given what the search for unsafe
/// characters in it found.
pub fn check_prefix(s: &str, search: Option<Option<String>>) -> (r: Result<String, PrefixError>)
    requires
        s@.len() > 0,
    ensures
        match search {
            None => r == Err::<String, PrefixError>(PrefixError::Pattern),
            Some(Some(m)) => r == Err::<String, PrefixError>(PrefixError::Unsafe(m)),
            Some(None) => if s@[0] == '/' {
                r == Err::<String, PrefixError>(PrefixError::Absolute)
            } else {
                r matches Ok(p) && p@ == s@
            },
        },
{
    match search {
        None => Err(PrefixError::Pattern),
        Some(Some(m)) => Err(PrefixError::Unsafe(m)),
        Some(None) => if s.get_char(0) == '/' {
            Err(PrefixError::Absolute)
        } else {
            Ok(String::from_str(s))
        },
    }
}

/// Checks a prefix given on the command line: it must not be empty, must
/// hold only characters that object-store keys allow, and must be relative.
pub fn parse_prefix(s: &str) -> (r: Result<String, PrefixError>)
    ensures
        s@.len() == 0 ==> r == Err::<String, PrefixError>(PrefixError::Empty),
        s@.len() > 0 ==> match regex_search(UNSAFE_PREFIX@, s@) {
            None => r == Err::<String, PrefixError>(PrefixError::Pattern),
            Some(Some(m)) => r matches Err(PrefixError::Unsafe(u)) && u@ == m,
            Some(None) => if s@[0] == '/' {
                r == Err::<String, PrefixError>(PrefixError::Absolute)
            } else {
                r matches Ok(p) && p@ == s@
            },
        },
{
    if s.unicode_len() == 0 {
        return Err(PrefixError::Empty);
    }
    let search = regex_find(UNSAFE_PREFIX, s);
    check_prefix(s, search)
}

} // verus!
