use vstd::prelude::*;

use crate::errors::UnsquashfsError;

verus! {

// ---------------------------------------------------------------------------
// Quoting a path for the child invocation
// ---------------------------------------------------------------------------
/// What one byte of a path becomes: a single quote (byte 39) is replaced by
/// the five-byte run `'"'"'` (bytes 39, 34, 39, 34, 39), any other byte is
/// kept as it is.
pub open spec fn escaped_byte(b: u8) -> Seq<u8> {
    if b == 39 {
        seq![39u8, 34u8, 39u8, 34u8, 39u8]
    } else {
        seq![b]
    }
}

/// A path with every single quote replaced by the run `'"'"'`.
pub open spec fn shell_escaped(s: Seq<u8>) -> Seq<u8>
    decreases s.len(),
{
    if s.len() == 0 {
        Seq::<u8>::empty()
    } else {
        shell_escaped(s.drop_last()) + escaped_byte(s.last())
    }
}

/// Replace every single quote of a path by the run `'"'"'`, as the child
/// invocation requires.
pub fn escape_single_quotes(s: &[u8]) -> (r: Vec<u8>)
    ensures
        r@ == shell_escaped(s@),
{
    let mut r: Vec<u8> = Vec::new();
    let mut i: usize = 0;
    while i < s.len()
        invariant
            0 <= i <= s.len(),
            r@ == shell_escaped(s@.subrange(0, i as int)),
        decreases s.len() - i,
    {
        let b = s[i];
        if b == 39 {
            r.push(39);
            r.push(34);
            r.push(39);
            r.push(34);
            r.push(39);
        } else {
            r.push(b);
        }
        proof {
            assert(s@.subrange(0, i as int + 1).drop_last() =~= s@.subrange(0, i as int));
            assert(s@.subrange(0, i as int + 1).last() == s@[i as int]);
            assert(r@ =~= shell_escaped(s@.subrange(0, i as int)) + escaped_byte(s@[i as int]));
        }
        i = i + 1;
    }
    proof {
        assert(s@.subrange(0, s@.len() as int) =~= s@);
    }
    r
}

// ---------------------------------------------------------------------------
// Formatting the parallelism hint
// ---------------------------------------------------------------------------
/// The decimal digits of a number, most significant first, no leading zeros
/// except for the number 0 itself.
pub open spec fn decimal_rep(n: nat) -> Seq<u8>
    decreases n,
{
    if n < 10 {
        seq![(48 + n) as u8]
    } else {
        decimal_rep(n / 10).push((48 + n % 10) as u8)
    }
}

/// The decimal digits of a number, as the child's argument vector carries
/// the parallelism hint.
pub fn format_usize(n: usize) -> (r: Vec<u8>)
    ensures
        r@ == decimal_rep(n as nat),
    decreases n,
{
    if n < 10 {
        let mut r: Vec<u8> = Vec::new();
        r.push(48 + n as u8);
        r
    } else {
        let mut r = format_usize(n / 10);
        r.push(48 + (n % 10) as u8);
        r
    }
}

// ---------------------------------------------------------------------------
// The child's argument vector
// ---------------------------------------------------------------------------
/// The argument vector of the child invocation, reproduced byte for byte: an
/// optional `-p <N>` parallelism pair first, then `-f` (force overwrite),
/// `-q` (quiet), `-d <destination>`, and the archive last.
pub open spec fn invocation_args(
    archive: Seq<u8>,
    directory: Seq<u8>,
    thread_limit: Option<usize>,
) -> Seq<Seq<u8>> {
    let base = seq![
        seq![45u8, 102u8],
        seq![45u8, 113u8],
        seq![45u8, 100u8],
        directory,
        archive,
    ];
    match thread_limit {
        Option::Some(n) => seq![seq![45u8, 112u8], decimal_rep(n as nat)] + base,
        Option::None => base,
    }
}

/// Build the child's argument vector from the two already-escaped paths and
/// the optional parallelism hint.
pub fn build_args(
    archive: &[u8],
    directory: &[u8],
    thread_limit: Option<usize>,
) -> (args: Vec<Vec<u8>>)
    ensures
        args@.map_values(|a: Vec<u8>| a@) == invocation_args(archive@, directory@, thread_limit),
{
    let mut args: Vec<Vec<u8>> = Vec::new();
    if let Some(n) = thread_limit {
        let mut p_flag: Vec<u8> = Vec::new();
        p_flag.push(45);
        p_flag.push(112);
        args.push(p_flag);
        args.push(format_usize(n));
    }
    let mut f_flag: Vec<u8> = Vec::new();
    f_flag.push(45);
    f_flag.push(102);
    args.push(f_flag);
    let mut q_flag: Vec<u8> = Vec::new();
    q_flag.push(45);
    q_flag.push(113);
    args.push(q_flag);
    let mut d_flag: Vec<u8> = Vec::new();
    d_flag.push(45);
    d_flag.push(100);
    args.push(d_flag);
    let mut dir: Vec<u8> = Vec::new();
    dir.extend_from_slice(directory);
    args.push(dir);
    let mut arc: Vec<u8> = Vec::new();
    arc.extend_from_slice(archive);
    args.push(arc);
    proof {
        assert(args@.map_values(|a: Vec<u8>| a@) =~~= invocation_args(
            archive@,
            directory@,
            thread_limit,
        ));
    }
    args
}

/// Decide the front half of an `extract` call from what the host reported:
/// whether the binary resolved, and the two canonical paths where they were
/// representable. Fails fast with `BinaryNotFound` before anything else, then
/// with `InvalidPath` for a missing path; otherwise hands back the exact
/// argument vector for the child, with both paths quoted.
pub fn plan_invocation(
    binary_found: bool,
    archive: Option<Vec<u8>>,
    directory: Option<Vec<u8>>,
    thread_limit: Option<usize>,
) -> (r: Result<Vec<Vec<u8>>, UnsquashfsError>)
    ensures
        !binary_found ==> r == Err::<Vec<Vec<u8>>, UnsquashfsError>(
            UnsquashfsError::BinaryNotFound,
        ),
        binary_found ==> (match (archive, directory) {
            (Option::Some(a), Option::Some(d)) => r matches Ok(args) && args@.map_values(
                |x: Vec<u8>| x@,
            ) == invocation_args(shell_escaped(a@), shell_escaped(d@), thread_limit),
            _ => r == Err::<Vec<Vec<u8>>, UnsquashfsError>(UnsquashfsError::InvalidPath),
        }),
{
    if !binary_found {
        return Err(UnsquashfsError::BinaryNotFound);
    }
    let (archive, directory) = match (archive, directory) {
        (Some(a), Some(d)) => (a, d),
        _ => { return Err(UnsquashfsError::InvalidPath) },
    };
    let archive = escape_single_quotes(archive.as_slice());
    let directory = escape_single_quotes(directory.as_slice());
    Ok(build_args(archive.as_slice(), directory.as_slice(), thread_limit))
}

} // verus!
