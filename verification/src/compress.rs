//! The file cache of the server: which entries of a directory tree go into
//! it, under which name, and in which coding.

use std::io::Write;
use vstd::prelude::*;
use vstd::string::*;
use crate::http::Coding;
use crate::text::{ends_with, str_ends_with};

verus! {

/// The error of a writer of the standard library.
#[verifier::external_type_specification]
#[verifier::external_body]
pub struct ExIoError(std::io::Error);

/// The size of the buffer that the brotli encoder writes through.
pub const BROTLI_BUFFER_SIZE: usize = 4096;

/// The quality that files are encoded with, the highest there is.
pub const BROTLI_QUALITY: u32 = 11;

/// The logarithm of the window that files are encoded with.
pub const BROTLI_WINDOW: u32 = 22;

/// The bytes that the brotli encoder of the `brotli` crate writes for `data`
/// when it is set up with the given buffer size, quality and window. The crate
/// is built with its feature `portable-float`, with which its cost estimates
/// come from tables and not from the machine's math library, so that the
/// bytes are the same on every machine.
pub uninterp spec fn brotli_stream(
    data: Seq<u8>,
    buffer_size: usize,
    quality: u32,
    lgwin: u32,
) -> Seq<u8>;

/// The bytes that the zlib encoder of the `deflate` crate writes for `data`
/// at its default level of compression.
pub uninterp spec fn zlib_stream(data: Seq<u8>) -> Seq<u8>;

/// Runs `brotli::CompressorWriter` over `data`: it makes the writer on an
/// empty vector with `CompressorWriter::new`, hands it the data with
/// `write_all`, and lets it finish as it goes out of scope. What is then in
/// the vector is taken to depend on the data and the three settings alone.
/// Nothing is claimed of a run whose write reports an error.
#[verifier::external_body]
fn brotli_encode(
    data: &[u8],
    buffer_size: usize,
    quality: u32,
    lgwin: u32,
) -> (stream: Result<Vec<u8>, std::io::Error>)
    requires
        quality <= 11,
        10 <= lgwin <= 24,
    ensures
        stream matches Ok(bytes) ==> bytes@ == brotli_stream(data@, buffer_size, quality, lgwin),
{
    let mut stream = Vec::new();
    let written = brotli::CompressorWriter::new(&mut stream, buffer_size, quality, lgwin)
        .write_all(data);
    match written {
        Ok(()) => Ok(stream),
        Err(error) => Err(error),
    }
}

/// Runs `deflate::write::ZlibEncoder` over `data`: it makes the encoder on an
/// empty vector with `ZlibEncoder::new` and `Compression::Default`, hands it
/// the data with `write_all`, and takes the vector back with `finish`. The
/// outer result is that of `write_all`, the inner one that of `finish`. What
/// `finish` returns is taken to depend on the data alone. Nothing is claimed
/// of a run that reports an error.
#[verifier::external_body]
fn zlib_encode(data: &[u8]) -> (stream: Result<Result<Vec<u8>, std::io::Error>, std::io::Error>)
    ensures
        stream matches Ok(Ok(bytes)) ==> bytes@ == zlib_stream(data@),
{
    let mut encoder = deflate::write::ZlibEncoder::new(Vec::new(), deflate::Compression::Default);
    match encoder.write_all(data) {
        Ok(()) => Ok(encoder.finish()),
        Err(error) => Err(error),
    }
}

/// An encoder reported an error.
#[derive(Clone, Copy, Debug, PartialEq, Eq, Structural)]
pub enum CompressError {
    /// The brotli encoder could not write.
    Brotli,
    /// The zlib encoder could not write.
    ZlibWrite,
    /// The zlib encoder could not finish its stream.
    ZlibFinish,
}

/// Whether `error` is one that the encoder of `coding` gives.
pub open spec fn error_of(coding: Coding, error: CompressError) -> bool {
    match coding {
        Coding::Brotli => error == CompressError::Brotli,
        Coding::Zlib => error == CompressError::ZlibWrite || error == CompressError::ZlibFinish,
    }
}

/// What comes of one step of an encoder: what the step gave, or `failure`
/// where it reported an error.
pub fn encoded<T>(outcome: Result<T, std::io::Error>, failure: CompressError) -> (result: Result<
    T,
    CompressError,
>)
    ensures
        outcome is Ok ==> result == Ok::<T, CompressError>(outcome->Ok_0),
        outcome is Err ==> result == Err::<T, CompressError>(failure),
{
    match outcome {
        Ok(given) => Ok(given),
        Err(_) => Err(failure),
    }
}

/// The bytes of `data` in the given coding, as the cache keeps them: brotli
/// at the highest quality, or zlib at the default level. Where an encoder
/// reports an error, the error says which one did, and at which step.
pub fn compress(data: &[u8], coding: Coding) -> (result: Result<Vec<u8>, CompressError>)
    ensures
        result matches Ok(bytes) ==> bytes@ == match coding {
            Coding::Brotli => brotli_stream(
                data@,
                BROTLI_BUFFER_SIZE,
                BROTLI_QUALITY,
                BROTLI_WINDOW,
            ),
            Coding::Zlib => zlib_stream(data@),
        },
        result matches Err(error) ==> error_of(coding, error),
{
    match coding {
        Coding::Brotli => encoded(
            brotli_encode(data, BROTLI_BUFFER_SIZE, BROTLI_QUALITY, BROTLI_WINDOW),
            CompressError::Brotli,
        ),
        Coding::Zlib => match encoded(zlib_encode(data), CompressError::ZlibWrite) {
            Ok(finished) => encoded(finished, CompressError::ZlibFinish),
            Err(error) => Err(error),
        },
    }
}

/// `name` is one of `names`.
pub open spec fn listed(names: Seq<&str>, name: Seq<char>) -> bool {
    exists|i: int| 0 <= i < names.len() && (#[trigger] names[i])@ == name
}

/// `name` ends with one of `endings`.
pub open spec fn has_ending(endings: Seq<&str>, name: Seq<char>) -> bool {
    exists|i: int| 0 <= i < endings.len() && ends_with(name, (#[trigger] endings[i])@)
}

/// The path of the entry `name` of the directory `path`.
pub open spec fn child_of(path: Seq<char>, name: Seq<char>) -> Seq<char> {
    path + "/"@ + name
}

/// Whether two strings are the same.
fn same_str(a: &str, b: &str) -> (same: bool)
    ensures
        same == (a@ == b@),
{
    let n = a.unicode_len();
    if n != b.unicode_len() {
        return false;
    }
    let found = crate::text::str_stands_at(a, 0, b);
    assert(a@.subrange(0, n as int) =~= a@);
    found
}

/// Whether `name` is one of `names`.
pub fn is_listed(names: &[&str], name: &str) -> (found: bool)
    ensures
        found == listed(names@, name@),
{
    let mut i: usize = 0;
    while i < names.len()
        invariant
            i <= names@.len(),
            forall|k: int| 0 <= k < i ==> (#[trigger] names@[k])@ != name@,
        decreases names@.len() - i,
    {
        if same_str(names[i], name) {
            return true;
        }
        i += 1;
    }
    false
}

/// Whether `name` ends with one of `endings`.
pub fn is_ending_listed(endings: &[&str], name: &str) -> (found: bool)
    ensures
        found == has_ending(endings@, name@),
{
    let mut i: usize = 0;
    while i < endings.len()
        invariant
            i <= endings@.len(),
            forall|k: int| 0 <= k < i ==> !ends_with(name@, (#[trigger] endings@[k])@),
        decreases endings@.len() - i,
    {
        if str_ends_with(name, endings[i]) {
            return true;
        }
        i += 1;
    }
    false
}

/// The path of the entry `name` of the directory `path`.
pub fn child_path(path: &str, name: &str) -> (child: String)
    ensures
        child@ == child_of(path@, name@),
{
    let mut child = String::from_str(path);
    child.append("/");
    child.append(name);
    child
}

/// What is done with an entry of a directory.
pub enum EntryPlan {
    /// The entry is left out.
    Skip,
    /// The entry is a directory whose entries are gone through in turn.
    Descend { base_path: String, calc_path: String },
    /// The entry is a file that is read from `read_path` and kept in the
    /// cache under `key_path`.
    Compress { key_path: String, read_path: String },
}

/// What is done with the entry `name` of a directory that is read at
/// `calc_path` and served at `base_path`. A directory is gone through unless
/// it is one of `dir_ex`. A file is kept unless it is one of `file_ex`, and
/// only if its name ends with one of `ext_inc`.
pub fn plan_entry(
    base_path: &str,
    calc_path: &str,
    name: &str,
    is_dir: bool,
    ext_inc: &[&str],
    file_ex: &[&str],
    dir_ex: &[&str],
) -> (plan: EntryPlan)
    ensures
        match plan {
            EntryPlan::Skip => if is_dir {
                listed(dir_ex@, name@)
            } else {
                listed(file_ex@, name@) || !has_ending(ext_inc@, name@)
            },
            EntryPlan::Descend { base_path: served, calc_path: read } => is_dir && !listed(
                dir_ex@,
                name@,
            ) && served@ == child_of(base_path@, name@) && read@ == child_of(calc_path@, name@),
            EntryPlan::Compress { key_path, read_path } => !is_dir && !listed(file_ex@, name@)
                && has_ending(ext_inc@, name@) && key_path@ == child_of(base_path@, name@)
                && read_path@ == child_of(calc_path@, name@),
        },
{
    if is_dir {
        if is_listed(dir_ex, name) {
            return EntryPlan::Skip;
        }
        EntryPlan::Descend {
            base_path: child_path(base_path, name),
            calc_path: child_path(calc_path, name),
        }
    } else {
        if is_listed(file_ex, name) {
            return EntryPlan::Skip;
        }
        if is_ending_listed(ext_inc, name) {
            return EntryPlan::Compress {
                key_path: child_path(base_path, name),
                read_path: child_path(calc_path, name),
            };
        }
        EntryPlan::Skip
    }
}

} // verus!
