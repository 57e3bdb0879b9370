//! The logic of the `b3sum` command line tool that does not touch the
//! outside world: its parsed arguments, and how a file name is escaped in
//! its output.

use vstd::prelude::*;

verus! {

/// `std::path::PathBuf`, an owned file system path.
#[verifier::external_type_specification]
#[verifier::external_body]
pub struct ExPathBuf(std::path::PathBuf);

/// The parsed command line of `b3sum`: print or check BLAKE3 checksums.
/// With no file, or when a file is `-`, standard input is read.
pub struct Inner {
    /// Files to hash, or checkfiles to check.
    pub file: Vec<std::path::PathBuf>,
    /// Use the keyed mode, reading the 32-byte key from standard input.
    pub keyed: bool,
    /// Use the key derivation mode, with the given context string.
    pub derive_key: Option<String>,
    /// The number of output bytes, before hex encoding.
    pub length: u64,
    /// The starting output byte offset, before hex encoding.
    pub seek: u64,
    /// The maximum number of threads to use.
    pub num_threads: Option<usize>,
    /// Disable memory mapping.
    pub no_mmap: bool,
    /// Omit file names in the output.
    pub no_names: bool,
    /// Write raw output bytes to standard output, rather than hex; implies
    /// `no_names`, and only one input is allowed.
    pub raw: bool,
    /// Read checksums from the files and check them.
    pub check: bool,
    /// Skip printing OK for each checked file (with `check` only).
    pub quiet: bool,
}

/// The escaped form of one byte of a file name: a backslash becomes two
/// backslashes, a newline becomes a backslash and `n`.
pub open spec fn escape_byte(b: u8) -> Seq<u8> {
    if b == 92 {
        seq![92u8, 92u8]
    } else if b == 10 {
        seq![92u8, 110u8]
    } else {
        seq![b]
    }
}

/// The escaped form of the first `n` bytes of a file name.
pub open spec fn escape_prefix(name: Seq<u8>, n: nat) -> Seq<u8>
    decreases n,
{
    if n == 0 {
        Seq::empty()
    } else {
        escape_prefix(name, (n - 1) as nat) + escape_byte(name[n - 1])
    }
}

/// Whether a file name needs escaping: it holds a backslash or a newline.
pub open spec fn needs_escape(name: Seq<u8>) -> bool {
    exists|i: int| 0 <= i < name.len() && (name[i] == 92 || name[i] == 10)
}

/// Escape a file name (as UTF-8 bytes) for a checksum line: if it holds a
/// backslash or a newline, every backslash is doubled and every newline
/// becomes `\n`, and the line is marked as escaped; otherwise the name is
/// unchanged.
pub fn escape_filepath(name: &[u8]) -> (r: (Vec<u8>, bool))
    ensures
        r.1 == needs_escape(name@),
        r.1 ==> r.0@ == escape_prefix(name@, name@.len()),
        !r.1 ==> r.0@ == name@,
{
    let n: usize = name.len();
    let mut out: Vec<u8> = Vec::new();
    let mut escaped = false;
    let mut i: usize = 0;
    while i < n
        invariant
            i <= n,
            n == name@.len(),
            out@ == escape_prefix(name@, i as nat),
            escaped <==> exists|k: int| 0 <= k < i && (name@[k] == 92 || name@[k] == 10),
            !escaped ==> out@ == name@.subrange(0, i as int),
        decreases n - i,
    {
        let b = name[i];
        let ghost before = out@;
        if b == 92 {
            out.push(92);
            out.push(92);
            escaped = true;
        } else if b == 10 {
            out.push(92);
            out.push(110);
            escaped = true;
        } else {
            out.push(b);
        }
        proof {
            assert(escape_prefix(name@, (i + 1) as nat) == escape_prefix(name@, i as nat) + escape_byte(name@[i as int]));
            assert(out@ =~= before + escape_byte(b));
            if !escaped {
                assert(name@.subrange(0, i + 1) =~= name@.subrange(0, i as int).push(b));
            }
            if b == 92 || b == 10 {
                assert(exists|k: int| 0 <= k < i + 1 && (name@[k] == 92 || name@[k] == 10)) by {
                    assert(name@[i as int] == b);
                }
            }
        }
        i += 1;
    }
    if escaped {
        (out, true)
    } else {
        proof {
            assert(name@.subrange(0, n as int) =~= name@);
        }
        (out, false)
    }
}

/// A file name with every backslash turned into a forward slash where
/// `windows` is set (Windows paths use either as a separator), else
/// unchanged.
pub open spec fn normalize_separators(name: Seq<u8>, windows: bool) -> Seq<u8> {
    if windows {
        Seq::new(name.len(), |i: int| if name[i] == 92 { 47u8 } else { name[i] })
    } else {
        name
    }
}

/// A file name (as UTF-8 bytes) as a checksum line shows it: on Windows
/// (`windows`), backslashes are normalized to forward slashes first, which
/// avoids escaping in the common case and makes checkfiles portable; then
/// the name is escaped as `escape_filepath` does. Returns the text and
/// whether it was escaped.
pub fn filepath_to_string(name: &[u8], windows: bool) -> (r: (Vec<u8>, bool))
    ensures
        r.1 == needs_escape(normalize_separators(name@, windows)),
        r.1 ==> r.0@ == escape_prefix(
            normalize_separators(name@, windows),
            normalize_separators(name@, windows).len(),
        ),
        !r.1 ==> r.0@ == normalize_separators(name@, windows),
{
    if windows {
        let mut normalized: Vec<u8> = Vec::new();
        let mut i: usize = 0;
        while i < name.len()
            invariant
                i <= name@.len(),
                normalized@ == normalize_separators(name@, true).subrange(0, i as int),
            decreases name@.len() - i,
        {
            let b = name[i];
            if b == 92 {
                normalized.push(47);
            } else {
                normalized.push(b);
            }
            i += 1;
            proof {
                assert(normalized@ =~= normalize_separators(name@, true).subrange(0, i as int));
            }
        }
        proof {
            assert(normalized@ =~= normalize_separators(name@, true));
        }
        escape_filepath(normalized.as_slice())
    } else {
        escape_filepath(name)
    }
}

} // verus!
