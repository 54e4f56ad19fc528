//! Patching a client from one build to the next.
//!
//! 1. The current build's hash and the target's name a directory of patches:
//!    `patches/patch-{first eight of the one}-{first eight of the other}`.
//! 2. `diff_manifest.hash` there names the diff manifest, compressed with zlib.
//! 3. For each of its entries a diff is fetched, in one piece or in parts, held
//!    against sizes and MD5 checksums, decompressed and applied.
//! 4. Each path that is done is recorded on a line of its own, so that a later
//!    run can go on from there.
//! 5. Files that cannot be patched are fetched whole from the new manifest.
use vstd::prelude::*;
use vstd::string::*;
use crate::blocks;
use crate::diff;
use crate::diff::DiffError;
use crate::numerals;
use crate::nxl;
use crate::nxl::ManifestFile;
use crate::outside;
use crate::text;

verus! {

/// Number of files patched concurrently.
pub const PARALLEL_PATCHES: usize = 10;

// ---------------------------------------------------------------------------
// Diff manifest
// ---------------------------------------------------------------------------

/// A diff manifest.
#[derive(Debug)]
pub struct DiffManifest {
    pub src_deploy_id: String,
    pub dst_deploy_id: String,
    pub diff_result: Vec<DiffEntry>,
    pub patcher_type: Option<String>,
    pub total_size: Option<u64>,
    pub version: Option<String>,
}

/// A single part of a multi-part diff file.
#[derive(Clone, Debug)]
pub struct DiffPart {
    /// Relative path of this part, with its suffix.
    pub path: String,
    /// MD5 hex string of this part's compressed data.
    pub checksum: String,
    /// Byte size of this part's compressed data.
    pub file_size: u64,
}

/// The diff of a single file.
#[derive(Clone, Debug)]
pub struct DiffEntry {
    pub path: String,
    /// MD5 hex string of the compressed diff or of its parts together. May be
    /// empty where there are parts.
    pub checksum: String,
    /// Byte size of the compressed diff or of its parts together.
    pub file_size: u64,
    /// The parts of a large diff, to be put together in order.
    pub parts: Vec<DiffPart>,
    pub entry_type: u32,
}

// ---------------------------------------------------------------------------
// The target build
// ---------------------------------------------------------------------------

/// What a target is given by.
#[derive(Clone, Debug)]
pub enum Target {
    /// The public build, as the account service knows it.
    Latest,
    /// The hash is to be fetched from this address.
    Address(String),
    /// The hash is this.
    Hash(String),
}

/// A text that names no target.
#[derive(Clone, Debug)]
pub struct InvalidTarget {
    pub text: String,
}

impl InvalidTarget {
    /// The words for this error.
    pub open spec fn words(self) -> Seq<char> {
        "invalid target hash '"@ + self.text@
            + "': must be 'latest', a 40-character hex string, or an http(s) URL"@
    }

    /// The message for this error.
    pub fn message(&self) -> (s: String)
        ensures
            s@ == self.words(),
    {
        let mut s = String::new();
        s.append("invalid target hash '");
        s.append(self.text.as_str());
        s.append("': must be 'latest', a 40-character hex string, or an http(s) URL");
        s
    }
}

/// Tells what a target is given by, without the white space around it.
pub fn classify_target(input: &str) -> (result: Result<Target, InvalidTarget>)
    ensures
        ({
            let s = text::trimmed(input@);
            if text::lower(s) == text::lower("latest"@) {
                result matches Ok(Target::Latest)
            } else if nxl::is_address(s) {
                result matches Ok(Target::Address(a)) && a@ == s
            } else if nxl::is_sha1(s) {
                result matches Ok(Target::Hash(h)) && h@ == s
            } else {
                result matches Err(e) && e.text@ == s
            }
        }),
{
    let chars = text::to_chars(input);
    let s = text::trim(chars.as_slice());
    let plain = text::from_chars(s);
    if text::same_ignoring_case(plain.as_str(), "latest") {
        return Ok(Target::Latest);
    }
    if nxl::looks_like_address(s) {
        return Ok(Target::Address(plain));
    }
    if s.len() != 40 || !text::only_hex_digits(s) {
        return Err(InvalidTarget { text: plain });
    }
    Ok(Target::Hash(plain))
}

/// The hash of a build and the directory that its files are found in.
#[derive(Clone, Debug)]
pub struct ResolvedHash {
    pub hash: String,
    pub base_url: String,
}

/// A hash address that gave an empty reply.
#[derive(Clone, Copy, Debug, PartialEq, Eq, Structural)]
pub enum EmptyReply {
    Latest,
    Target,
}

impl EmptyReply {
    /// The words for this error.
    pub open spec fn words(self) -> Seq<char> {
        match self {
            EmptyReply::Latest => "latest manifest hash URL returned an empty response"@,
            EmptyReply::Target => "target manifest hash URL returned an empty response"@,
        }
    }

    /// The message for this error.
    pub fn message(&self) -> (s: &'static str)
        ensures
            s@ == self.words(),
    {
        match self {
            EmptyReply::Latest => "latest manifest hash URL returned an empty response",
            EmptyReply::Target => "target manifest hash URL returned an empty response",
        }
    }
}

/// The directory of an address: what comes before its last slash, once the
/// slashes at its end are gone.
pub open spec fn directory_of(url: Seq<char>) -> Seq<char> {
    text::before_last(text::without_trailing(url, '/'), '/')
}

/// Extracts the directory from a `.manifest.hash` address by stripping the file
/// name.
pub fn base_url_from_hash_url(url: &str) -> (base: String)
    ensures
        base@ == directory_of(url@),
{
    let chars = text::to_chars(url);
    let whole = text::trim_trailing(chars.as_slice(), '/');
    text::from_chars(text::cut_before_last(whole, '/'))
}

/// The directory that a build's files are found in unless an address says
/// otherwise.
pub fn default_patch_base_url(appid: &str) -> (url: String)
    ensures
        url@ == nxl::base_address(appid@),
{
    nxl::default_base_url(appid)
}

/// Takes the target hash out of what its address gave, as text; the build's
/// files are then found beside it.
pub fn resolve_text(which: EmptyReply, url: &str, content: &str) -> (result: Result<
    ResolvedHash,
    EmptyReply,
>)
    ensures
        ({
            let hash = text::trimmed(content@);
            if hash.len() > 0 {
                result matches Ok(r) && r.hash@ == hash && r.base_url@ == directory_of(url@)
            } else {
                result == Err::<ResolvedHash, EmptyReply>(which)
            }
        }),
{
    match nxl::hash_in_text(content) {
        Ok(hash) => Ok(ResolvedHash { hash, base_url: base_url_from_hash_url(url) }),
        Err(_) => Err(which),
    }
}

/// Takes the target hash out of what its address gave.
pub fn resolve_bytes(which: EmptyReply, url: &str, bytes: &[u8]) -> (result: Result<
    ResolvedHash,
    EmptyReply,
>)
    ensures
        ({
            let hash = text::trimmed(outside::utf8_lossy(bytes@));
            if hash.len() > 0 {
                result matches Ok(r) && r.hash@ == hash && r.base_url@ == directory_of(url@)
            } else {
                result == Err::<ResolvedHash, EmptyReply>(which)
            }
        }),
{
    let content = outside::text_of_bytes(bytes);
    resolve_text(which, url, content.as_str())
}

/// Resolves a target that is given by its hash.
pub fn resolve_given(hash: String, appid: &str) -> (resolved: ResolvedHash)
    ensures
        resolved.hash == hash,
        resolved.base_url@ == nxl::base_address(appid@),
{
    ResolvedHash { hash, base_url: default_patch_base_url(appid) }
}

/// The name of the file that holds the hash of a client's build.
pub fn hash_file_name(appid: &str) -> (name: String)
    ensures
        name@ == appid@ + ".manifest.hash"@,
{
    let mut name = String::new();
    name.append(appid);
    name.append(".manifest.hash");
    name
}

/// The name of the file that records what is done on the way to a build.
pub fn record_file_name(appid: &str, dst_hash: &str) -> (name: String)
    ensures
        name@ == ".incomplete-"@ + appid@ + "_"@ + dst_hash@,
{
    let mut name = String::new();
    name.append(".incomplete-");
    name.append(appid);
    name.append("_");
    name.append(dst_hash);
    name
}

/// The hash of a client's build: what its hash file holds, without the white
/// space around it.
pub fn current_hash(content: &str) -> (hash: String)
    ensures
        hash@ == text::trimmed(content@),
{
    let chars = text::to_chars(content);
    text::from_chars(text::trim(chars.as_slice()))
}

/// Whether a client is at the target already.
pub fn already_current(src_hash: &str, dst_hash: &str) -> (r: bool)
    ensures
        r == (text::lower(src_hash@) == text::lower(dst_hash@)),
{
    text::same_ignoring_case(src_hash, dst_hash)
}

// ---------------------------------------------------------------------------
// Addresses of patches
// ---------------------------------------------------------------------------

/// The directory of the patches from one build to another.
pub open spec fn patch_directory(
    base_url: Seq<char>,
    src_hash: Seq<char>,
    dst_hash: Seq<char>,
) -> Seq<char> {
    base_url + "/patches/patch-"@ + text::first_bytes(src_hash, 8)->Some_0 + "-"@
        + text::first_bytes(dst_hash, 8)->Some_0
}

/// The directory of the patches from one build to another. Both hashes must be
/// at least eight bytes long, with the eighth at the end of a character.
pub fn patch_base_url(base_url: &str, src_hash: &str, dst_hash: &str) -> (url: String)
    requires
        text::first_bytes(src_hash@, 8) is Some,
        text::first_bytes(dst_hash@, 8) is Some,
    ensures
        url@ == patch_directory(base_url@, src_hash@, dst_hash@),
{
    let mut url = String::new();
    url.append(base_url);
    url.append("/patches/patch-");
    if let Some(src8) = text::take_bytes(src_hash, 8) {
        url.append(src8.as_str());
    }
    url.append("-");
    if let Some(dst8) = text::take_bytes(dst_hash, 8) {
        url.append(dst8.as_str());
    }
    url
}

/// The address of the hash of the diff manifest.
pub fn diff_manifest_hash_url(patch_base: &str) -> (url: String)
    ensures
        url@ == patch_base@ + "/diff_manifest.hash"@,
{
    let mut url = String::new();
    url.append(patch_base);
    url.append("/diff_manifest.hash");
    url
}

/// The name of the diff manifest: what its hash file holds, without the white
/// space around it.
pub fn diff_manifest_name(bytes: &[u8]) -> (name: String)
    ensures
        name@ == text::trimmed(outside::utf8_lossy(bytes@)),
{
    let content = outside::text_of_bytes(bytes);
    current_hash(content.as_str())
}

/// The address of the diff manifest.
pub fn diff_manifest_url(patch_base: &str, name: &str) -> (url: String)
    ensures
        url@ == patch_base@ + "/"@ + name@,
{
    nxl::manifest_url(patch_base, name)
}

/// The address of a part of a diff.
pub open spec fn part_address(base: Seq<char>, appid: Seq<char>, part: DiffPart) -> Seq<char> {
    base + "/"@ + appid + "/"@ + part.path@
}

/// The address of a diff that is in one piece.
pub open spec fn diff_address(base: Seq<char>, appid: Seq<char>, entry: DiffEntry) -> Seq<char> {
    base + "/"@ + appid + "/"@ + entry.path@ + ".diff"@
}

/// The address of a part of a diff.
pub fn part_url(patch_base: &str, appid: &str, part: &DiffPart) -> (url: String)
    ensures
        url@ == part_address(patch_base@, appid@, *part),
{
    let mut url = String::new();
    url.append(patch_base);
    url.append("/");
    url.append(appid);
    url.append("/");
    url.append(part.path.as_str());
    url
}

/// The address of a diff that is in one piece.
pub fn diff_url(patch_base: &str, appid: &str, entry: &DiffEntry) -> (url: String)
    ensures
        url@ == diff_address(patch_base@, appid@, *entry),
{
    let mut url = String::new();
    url.append(patch_base);
    url.append("/");
    url.append(appid);
    url.append("/");
    url.append(entry.path.as_str());
    url.append(".diff");
    url
}

// ---------------------------------------------------------------------------
// Checking and applying diffs
// ---------------------------------------------------------------------------

/// What a size or a checksum belongs to.
#[derive(Clone, Copy, Debug, PartialEq, Eq, Structural)]
pub enum Piece {
    /// A part of a diff.
    Part,
    /// The parts of a diff together.
    Joined,
    /// A diff in one piece.
    Whole,
}

/// Why a file cannot be patched.
#[derive(Clone, Debug)]
pub enum PatchError {
    /// The compressed data has another size than the manifest says.
    Size { piece: Piece, path: String, expected: u64, got: u64 },
    /// The compressed data has another MD5 than the manifest says.
    Digest { piece: Piece, path: String, checksum: String, actual: String },
    /// The diff cannot be decompressed.
    NotZlib { path: String, cause: String },
    /// The diff cannot be applied to the old file.
    Apply { path: String, error: DiffError },
}

impl Piece {
    /// How a message about this begins.
    pub open spec fn subject(self, path: Seq<char>) -> Seq<char> {
        match self {
            Piece::Part => "diff part '"@ + path + "': "@,
            _ => "diff '"@ + path + "': "@,
        }
    }
}

impl PatchError {
    /// The words for this error.
    pub open spec fn words(self) -> Seq<char> {
        match self {
            PatchError::Size { piece, path, expected, got } => piece.subject(path@) + (
            if piece is Joined {
                "concatenated-size mismatch (expected "@
            } else {
                "compressed-size mismatch (expected "@
            }) + numerals::decimal(expected as nat) + ", got "@ + numerals::decimal(got as nat)
                + ")"@,
            PatchError::Digest { piece, path, checksum, actual } => piece.subject(path@) + (
            if piece is Joined {
                "concatenated MD5 mismatch (expected "@
            } else {
                "MD5 mismatch (expected "@
            }) + checksum@ + ", got "@ + actual@ + ")"@,
            PatchError::NotZlib { path, cause } => "failed to decompress diff for '"@ + path@
                + "': zlib decompression failed: "@ + cause@,
            PatchError::Apply { path, error } => "failed to apply diff for '"@ + path@ + "': "@
                + error.words(),
        }
    }

    /// The message for this error.
    pub fn message(&self) -> (s: String)
        ensures
            s@ == self.words(),
    {
        let mut s = String::new();
        match self {
            PatchError::Size { piece, path, expected, got } => {
                match piece {
                    Piece::Part => {
                        s.append("diff part '");
                    },
                    _ => {
                        s.append("diff '");
                    },
                }
                s.append(path.as_str());
                s.append("': ");
                match piece {
                    Piece::Joined => {
                        s.append("concatenated-size mismatch (expected ");
                    },
                    _ => {
                        s.append("compressed-size mismatch (expected ");
                    },
                }
                numerals::push_decimal(&mut s, *expected as u128);
                s.append(", got ");
                numerals::push_decimal(&mut s, *got as u128);
                s.append(")");
            },
            PatchError::Digest { piece, path, checksum, actual } => {
                match piece {
                    Piece::Part => {
                        s.append("diff part '");
                    },
                    _ => {
                        s.append("diff '");
                    },
                }
                s.append(path.as_str());
                s.append("': ");
                match piece {
                    Piece::Joined => {
                        s.append("concatenated MD5 mismatch (expected ");
                    },
                    _ => {
                        s.append("MD5 mismatch (expected ");
                    },
                }
                s.append(checksum.as_str());
                s.append(", got ");
                s.append(actual.as_str());
                s.append(")");
            },
            PatchError::NotZlib { path, cause } => {
                s.append("failed to decompress diff for '");
                s.append(path.as_str());
                s.append("': zlib decompression failed: ");
                s.append(cause.as_str());
            },
            PatchError::Apply { path, error } => {
                s.append("failed to apply diff for '");
                s.append(path.as_str());
                s.append("': ");
                s.append(error.message().as_str());
            },
        }
        s
    }
}

/// What is wrong with a patch.
pub enum PatchFault {
    Size { piece: Piece, path: Seq<char>, expected: u64, got: nat },
    Digest { piece: Piece, path: Seq<char>, checksum: Seq<char>, actual: Seq<char> },
    NotZlib { path: Seq<char>, cause: Seq<char> },
    Apply { path: Seq<char>, error: DiffError },
}

impl PatchError {
    /// What this error says.
    pub open spec fn model(self) -> PatchFault {
        match self {
            PatchError::Size { piece, path, expected, got } => PatchFault::Size {
                piece,
                path: path@,
                expected,
                got: got as nat,
            },
            PatchError::Digest { piece, path, checksum, actual } => PatchFault::Digest {
                piece,
                path: path@,
                checksum: checksum@,
                actual: actual@,
            },
            PatchError::NotZlib { path, cause } => PatchFault::NotZlib {
                path: path@,
                cause: cause@,
            },
            PatchError::Apply { path, error } => PatchFault::Apply { path: path@, error },
        }
    }
}

/// What is wrong with data of a size and a digest, if anything: the size comes
/// first.
pub open spec fn data_fault(
    piece: Piece,
    path: Seq<char>,
    size: u64,
    checksum: Option<Seq<char>>,
    data: Seq<u8>,
    digest: Seq<u8>,
) -> Option<PatchFault> {
    if data.len() != size {
        Some(PatchFault::Size { piece, path, expected: size, got: data.len() })
    } else {
        match checksum {
            Some(sum) if text::lower(numerals::hex(digest)) != text::lower(sum) => Some(
                PatchFault::Digest { piece, path, checksum: sum, actual: numerals::hex(digest) },
            ),
            _ => None,
        }
    }
}

/// The fault that an outcome reports.
pub open spec fn reported(result: Result<(), PatchError>) -> Option<PatchFault> {
    match result {
        Ok(_) => None,
        Err(e) => Some(e.model()),
    }
}

/// Holds data against a size and, where one is given, a checksum, with the
/// digest of the data at hand.
pub fn judge_data(
    piece: Piece,
    path: &str,
    size: u64,
    checksum: Option<&String>,
    data: &[u8],
    digest: &[u8],
) -> (result: Result<(), PatchError>)
    ensures
        reported(result) == data_fault(
            piece,
            path@,
            size,
            match checksum {
                Some(sum) => Some(sum@),
                None => None,
            },
            data@,
            digest@,
        ),
{
    if data.len() as u64 != size {
        return Err(
            PatchError::Size {
                piece,
                path: path.to_owned(),
                expected: size,
                got: data.len() as u64,
            },
        );
    }
    if let Some(sum) = checksum {
        let actual = outside::hex_encode(digest);
        if !text::same_ignoring_case(actual.as_str(), sum.as_str()) {
            return Err(
                PatchError::Digest {
                    piece,
                    path: path.to_owned(),
                    checksum: sum.clone(),
                    actual,
                },
            );
        }
    }
    Ok(())
}

/// What is wrong with a fetched part, if anything.
pub open spec fn part_fault(part: DiffPart, data: Seq<u8>) -> Option<PatchFault> {
    data_fault(
        Piece::Part,
        part.path@,
        part.file_size,
        Some(part.checksum@),
        data,
        outside::md5_of(data),
    )
}

/// What is wrong with the parts of a diff together, if anything. A checksum
/// that is empty is none.
pub open spec fn joined_fault(entry: DiffEntry, data: Seq<u8>) -> Option<PatchFault> {
    data_fault(
        Piece::Joined,
        entry.path@,
        entry.file_size,
        if entry.checksum@.len() > 0 {
            Some(entry.checksum@)
        } else {
            None
        },
        data,
        outside::md5_of(data),
    )
}

/// What is wrong with a diff in one piece, if anything.
pub open spec fn whole_fault(entry: DiffEntry, data: Seq<u8>) -> Option<PatchFault> {
    data_fault(
        Piece::Whole,
        entry.path@,
        entry.file_size,
        Some(entry.checksum@),
        data,
        outside::md5_of(data),
    )
}

/// Holds a fetched part against its size and checksum.
pub fn check_part(part: &DiffPart, data: &[u8]) -> (result: Result<(), PatchError>)
    ensures
        reported(result) == part_fault(*part, data@),
{
    let digest = outside::md5_digest(data);
    judge_data(
        Piece::Part,
        part.path.as_str(),
        part.file_size,
        Some(&part.checksum),
        data,
        digest.as_slice(),
    )
}

/// Holds the parts of a diff together against the entry's size and, where it
/// has one, its checksum.
pub fn check_joined(entry: &DiffEntry, data: &[u8]) -> (result: Result<(), PatchError>)
    ensures
        reported(result) == joined_fault(*entry, data@),
{
    let digest = outside::md5_digest(data);
    let checksum = if text::to_chars(entry.checksum.as_str()).len() > 0 {
        Some(&entry.checksum)
    } else {
        None
    };
    judge_data(
        Piece::Joined,
        entry.path.as_str(),
        entry.file_size,
        checksum,
        data,
        digest.as_slice(),
    )
}

/// Holds a diff in one piece against the entry's size and checksum.
pub fn check_whole(entry: &DiffEntry, data: &[u8]) -> (result: Result<(), PatchError>)
    ensures
        reported(result) == whole_fault(*entry, data@),
{
    let digest = outside::md5_digest(data);
    judge_data(
        Piece::Whole,
        entry.path.as_str(),
        entry.file_size,
        Some(&entry.checksum),
        data,
        digest.as_slice(),
    )
}

/// What a decompressed diff makes of the old file.
pub open spec fn applied(
    path: Seq<char>,
    diff_data: Seq<u8>,
    old_data: Seq<u8>,
) -> Result<Seq<u8>, PatchFault> {
    match diff::diff_output(diff_data, 0, old_data) {
        Ok(new) => Ok(new),
        Err(error) => Err(PatchFault::Apply { path, error }),
    }
}

/// What a compressed diff makes of the old file.
pub open spec fn new_file(
    path: Seq<char>,
    compressed: Seq<u8>,
    old_data: Seq<u8>,
) -> Result<Seq<u8>, PatchFault> {
    match outside::zlib_inflated(compressed) {
        Ok(diff_data) => applied(path, diff_data, old_data),
        Err(cause) => Err(PatchFault::NotZlib { path, cause }),
    }
}

/// What an outcome says.
pub open spec fn made(result: Result<Vec<u8>, PatchError>) -> Result<Seq<u8>, PatchFault> {
    match result {
        Ok(v) => Ok(v@),
        Err(e) => Err(e.model()),
    }
}

/// Applies a decompressed diff to the old file.
pub fn apply_to(path: &str, diff_data: &[u8], old_data: &[u8]) -> (result: Result<
    Vec<u8>,
    PatchError,
>)
    ensures
        made(result) == applied(path@, diff_data@, old_data@),
{
    match diff::apply_diff(diff_data, old_data) {
        Ok(new) => Ok(new),
        Err(error) => Err(PatchError::Apply { path: path.to_owned(), error }),
    }
}

/// Decompresses a diff that was accepted and applies it to the old file, which
/// is empty where there was none.
pub fn patched(path: &str, compressed: &[u8], old_data: &[u8]) -> (result: Result<
    Vec<u8>,
    PatchError,
>)
    ensures
        made(result) == new_file(path@, compressed@, old_data@),
{
    match nxl::decompress_zlib(compressed) {
        Ok(diff_data) => apply_to(path, diff_data.as_slice(), old_data),
        Err(e) => Err(PatchError::NotZlib { path: path.to_owned(), cause: e.cause }),
    }
}

// ---------------------------------------------------------------------------
// Patching one file
// ---------------------------------------------------------------------------

/// How far the fetching of a diff has come: so many parts, and their data.
#[derive(Debug)]
pub struct PatchRun {
    pub done: usize,
    pub buf: Vec<u8>,
}

/// What is to be done next about a file.
#[derive(Debug)]
pub enum PatchStep {
    /// Get the bytes at this address, and hand them on.
    Fetch { url: String },
    /// The diff is complete: read the old file and make the new one.
    Apply { compressed: Vec<u8> },
    /// The file cannot be patched.
    Fail { error: PatchError },
}

/// What a step says.
pub enum StepModel {
    Fetch(Seq<char>),
    Apply(Seq<u8>),
    Fail(PatchFault),
}

impl PatchStep {
    /// What this step says.
    pub open spec fn model(self) -> StepModel {
        match self {
            PatchStep::Fetch { url } => StepModel::Fetch(url@),
            PatchStep::Apply { compressed } => StepModel::Apply(compressed@),
            PatchStep::Fail { error } => StepModel::Fail(error.model()),
        }
    }
}

/// The first step.
pub open spec fn opening(base: Seq<char>, appid: Seq<char>, entry: DiffEntry) -> StepModel {
    if entry.parts@.len() == 0 {
        StepModel::Fetch(diff_address(base, appid, entry))
    } else {
        StepModel::Fetch(part_address(base, appid, entry.parts@[0]))
    }
}

/// The step after `data` was fetched, when `done` parts with the data `buf`
/// were fetched before.
pub open spec fn following(
    base: Seq<char>,
    appid: Seq<char>,
    entry: DiffEntry,
    done: int,
    buf: Seq<u8>,
    data: Seq<u8>,
) -> StepModel {
    if entry.parts@.len() == 0 {
        match whole_fault(entry, data) {
            Some(fault) => StepModel::Fail(fault),
            None => StepModel::Apply(data),
        }
    } else {
        match part_fault(entry.parts@[done], data) {
            Some(fault) => StepModel::Fail(fault),
            None => if done + 1 < entry.parts@.len() {
                StepModel::Fetch(part_address(base, appid, entry.parts@[done + 1]))
            } else {
                match joined_fault(entry, buf + data) {
                    Some(fault) => StepModel::Fail(fault),
                    None => StepModel::Apply(buf + data),
                }
            },
        }
    }
}

/// Begins with a file.
pub fn first_step(patch_base: &str, appid: &str, entry: &DiffEntry) -> (begun: (
    PatchRun,
    PatchStep,
))
    ensures
        begun.0.done == 0,
        begun.0.buf@ == Seq::<u8>::empty(),
        begun.1.model() == opening(patch_base@, appid@, *entry),
{
    let run = PatchRun { done: 0, buf: Vec::new() };
    let url = if entry.parts.len() == 0 {
        diff_url(patch_base, appid, entry)
    } else {
        part_url(patch_base, appid, &entry.parts[0])
    };
    (run, PatchStep::Fetch { url })
}

/// Whether `data` is taken as part `done` of a diff in parts.
pub open spec fn part_taken(entry: DiffEntry, done: int, data: Seq<u8>) -> bool {
    entry.parts@.len() > 0 && part_fault(entry.parts@[done], data) is None
}

/// Goes on with a file after `data` was fetched. A part that is sound is added
/// to the run; anything else leaves the run as it is.
pub fn next_step(
    run: &mut PatchRun,
    patch_base: &str,
    appid: &str,
    entry: &DiffEntry,
    data: Vec<u8>,
) -> (step: PatchStep)
    requires
        entry.parts@.len() > 0 ==> old(run).done < entry.parts@.len(),
    ensures
        step.model() == following(
            patch_base@,
            appid@,
            *entry,
            old(run).done as int,
            old(run).buf@,
            data@,
        ),
        step is Fetch ==> final(run).done < entry.parts@.len(),
        if part_taken(*entry, old(run).done as int, data@) {
            &&& final(run).done == old(run).done + 1
            &&& final(run).buf@ == old(run).buf@ + data@
        } else {
            *final(run) == *old(run)
        },
{
    if entry.parts.len() == 0 {
        return match check_whole(entry, data.as_slice()) {
            Ok(()) => PatchStep::Apply { compressed: data },
            Err(error) => PatchStep::Fail { error },
        };
    }
    if let Err(error) = check_part(&entry.parts[run.done], data.as_slice()) {
        return PatchStep::Fail { error };
    }
    run.buf.extend_from_slice(data.as_slice());
    assert(run.buf@ =~= old(run).buf@ + data@);
    run.done = run.done + 1;
    if run.done < entry.parts.len() {
        return PatchStep::Fetch { url: part_url(patch_base, appid, &entry.parts[run.done]) };
    }
    match check_joined(entry, run.buf.as_slice()) {
        Ok(()) => {
            let mut compressed: Vec<u8> = Vec::new();
            compressed.extend_from_slice(run.buf.as_slice());
            assert(compressed@ =~= run.buf@);
            PatchStep::Apply { compressed }
        },
        Err(error) => PatchStep::Fail { error },
    }
}

/// The end of the run: the diff that the replies make, from part `done` on with
/// the data `buf` before it, or what is wrong with it.
pub open spec fn fetched(
    entry: DiffEntry,
    done: int,
    buf: Seq<u8>,
    replies: Seq<Seq<u8>>,
) -> Result<Seq<u8>, PatchFault>
    decreases entry.parts@.len() - done,
{
    match following(Seq::empty(), Seq::empty(), entry, done, buf, replies[done]) {
        StepModel::Fail(fault) => Err(fault),
        StepModel::Apply(compressed) => Ok(compressed),
        StepModel::Fetch(_) => if done + 1 < entry.parts@.len() {
            fetched(entry, done + 1, buf + replies[done], replies)
        } else {
            Ok(buf)
        },
    }
}

/// A diff in parts is accepted exactly where every part is, and then all of
/// them together; it is then the parts joined in their order.
pub proof fn law_parts_are_all_checked(entry: DiffEntry, done: int, replies: Seq<Seq<u8>>)
    requires
        entry.parts@.len() > 0,
        replies.len() == entry.parts@.len(),
        0 <= done < entry.parts@.len(),
    ensures
        ({
            let all = blocks::joined(replies);
            let sound = joined_fault(entry, all) is None && forall|i: int|
                done <= i < replies.len() ==> part_fault(
                    entry.parts@[i],
                    #[trigger] replies[i],
                ) is None;
            let result = fetched(entry, done, blocks::joined(replies.take(done)), replies);
            &&& result is Ok <==> sound
            &&& result matches Ok(compressed) ==> compressed == all
        }),
    decreases entry.parts@.len() - done,
{
    let buf = blocks::joined(replies.take(done));
    let data = replies[done];
    assert(replies.take(done + 1).drop_last() =~= replies.take(done));
    assert(blocks::joined(replies.take(done + 1)) == buf + data);
    if done + 1 < entry.parts@.len() {
        law_parts_are_all_checked(entry, done + 1, replies);
    } else {
        assert(replies.take(done + 1) =~= replies);
    }
}

/// A diff in one piece is accepted exactly where its size and checksum are
/// right.
pub proof fn law_whole_diff_is_checked(entry: DiffEntry, data: Seq<u8>)
    requires
        entry.parts@.len() == 0,
    ensures
        fetched(entry, 0, Seq::empty(), seq![data]) == (match whole_fault(entry, data) {
            None => Ok::<Seq<u8>, PatchFault>(data),
            Some(fault) => Err(fault),
        }),
{
}

// ---------------------------------------------------------------------------
// Going on from an earlier run
// ---------------------------------------------------------------------------

/// Whether a text stands in a list.
pub open spec fn listed(list: Seq<Seq<char>>, s: Seq<char>) -> bool {
    exists|i: int| 0 <= i < list.len() && #[trigger] list[i] == s
}

/// Computes `listed`.
pub fn is_listed(list: &Vec<String>, s: &str) -> (r: bool)
    ensures
        r == listed(text::texts(list@), s@),
{
    let ghost all = text::texts(list@);
    let mut i: usize = 0;
    while i < list.len()
        invariant
            i <= list@.len(),
            all == text::texts(list@),
            forall|j: int| 0 <= j < i ==> #[trigger] all[j] != s@,
        decreases list@.len() - i,
    {
        assert(all[i as int] == list@[i as int]@);
        if text::same_text(list[i].as_str(), s) {
            return true;
        }
        i = i + 1;
    }
    false
}

/// The lines that are not empty, each where it first occurs.
pub open spec fn distinct_lines(lines: Seq<Seq<char>>) -> Seq<Seq<char>>
    decreases lines.len(),
{
    if lines.len() == 0 {
        Seq::empty()
    } else {
        let before = distinct_lines(lines.drop_last());
        if lines.last().len() == 0 || listed(before, lines.last()) {
            before
        } else {
            before.push(lines.last())
        }
    }
}

/// Reads the paths that an earlier run has recorded as done: the lines that are
/// not empty, each once.
pub fn completed_paths(content: &str) -> (paths: Vec<String>)
    ensures
        text::texts(paths@) == distinct_lines(text::lines_of(content@)),
{
    let chars = text::to_chars(content);
    let lines = text::lines(chars.as_slice());
    let ghost all = text::texts(lines@);
    let mut paths: Vec<String> = Vec::new();
    let mut i: usize = 0;
    assert(text::texts(paths@) =~= distinct_lines(all.take(0)));
    while i < lines.len()
        invariant
            i <= lines@.len(),
            all == text::texts(lines@),
            text::texts(paths@) == distinct_lines(all.take(i as int)),
        decreases lines@.len() - i,
    {
        proof {
            assert(all.take(i + 1).drop_last() =~= all.take(i as int));
            assert(all.take(i + 1).last() == lines@[i as int]@);
        }
        let fresh = text::to_chars(lines[i].as_str()).len() > 0 && !is_listed(
            &paths,
            lines[i].as_str(),
        );
        if fresh {
            let ghost before = paths@;
            paths.push(lines[i].clone());
            assert(text::texts(paths@) =~= text::texts(before).push(all[i as int]));
        }
        i = i + 1;
    }
    assert(all.take(i as int) =~= all);
    paths
}

/// The line that records a path as done.
pub fn completed_line(path: &str) -> (line: String)
    ensures
        line@ == path@ + "\n"@,
{
    let mut line = String::new();
    line.append(path);
    line.append("\n");
    line
}

/// The entries that are left to patch, in order.
pub open spec fn entries_left(
    entries: Seq<DiffEntry>,
    completed: Seq<Seq<char>>,
) -> Seq<DiffEntry>
    decreases entries.len(),
{
    if entries.len() == 0 {
        Seq::empty()
    } else {
        let before = entries_left(entries.drop_last(), completed);
        if listed(completed, entries.last().path@) {
            before
        } else {
            before.push(entries.last())
        }
    }
}

/// Drops the entries that an earlier run has recorded as done.
pub fn remaining_entries(entries: Vec<DiffEntry>, completed: &Vec<String>) -> (left: Vec<DiffEntry>)
    ensures
        left@ == entries_left(entries@, text::texts(completed@)),
{
    let ghost all = entries@;
    let ghost done = text::texts(completed@);
    let mut rest = entries;
    let mut reversed: Vec<DiffEntry> = Vec::new();
    assert(all.take(all.len() as int) =~= all);
    assert(entries_left(all, done) =~= entries_left(rest@, done) + backwards(reversed@));
    while rest.len() > 0
        invariant
            done == text::texts(completed@),
            entries_left(all, done) == entries_left(rest@, done) + backwards(reversed@),
        decreases rest@.len(),
    {
        let ghost was = rest@;
        let ghost had = reversed@;
        match rest.pop() {
            Some(entry) => {
                assert(was.drop_last() =~= rest@);
                if !is_listed(completed, entry.path.as_str()) {
                    reversed.push(entry);
                    proof {
                        assert(backwards(reversed@) =~= seq![entry] + backwards(had));
                        assert(entries_left(was, done) + backwards(had) =~= entries_left(
                            rest@,
                            done,
                        ) + backwards(reversed@));
                    }
                }
            },
            None => {},
        }
    }
    let mut left: Vec<DiffEntry> = Vec::new();
    assert(left@ + backwards(reversed@) =~= entries_left(all, done));
    while reversed.len() > 0
        invariant
            left@ + backwards(reversed@) == entries_left(all, done),
        decreases reversed@.len(),
    {
        let ghost had = reversed@;
        let ghost was = left@;
        match reversed.pop() {
            Some(entry) => {
                left.push(entry);
                proof {
                    assert(had.drop_last() =~= reversed@);
                    assert(backwards(had) =~= seq![entry] + backwards(reversed@));
                    assert(left@ + backwards(reversed@) =~= was + backwards(had));
                }
            },
            None => {},
        }
    }
    assert(left@ =~= left@ + backwards(reversed@));
    left
}

/// A list from its end to its beginning.
spec fn backwards(list: Seq<DiffEntry>) -> Seq<DiffEntry> {
    Seq::new(list.len(), |i: int| list[list.len() - 1 - i])
}

/// The sum of the sizes of the entries' diffs.
pub open spec fn diff_bytes(entries: Seq<DiffEntry>) -> nat
    decreases entries.len(),
{
    if entries.len() == 0 {
        0
    } else {
        diff_bytes(entries.drop_last()) + entries.last().file_size as nat
    }
}

/// Computes `diff_bytes`.
pub fn total_compressed(entries: &Vec<DiffEntry>) -> (total: u128)
    ensures
        total == diff_bytes(entries@),
{
    let mut total: u128 = 0;
    let mut i: usize = 0;
    assert(entries@.take(0) =~= Seq::empty());
    while i < entries.len()
        invariant
            i <= entries@.len(),
            total == diff_bytes(entries@.take(i as int)),
            total <= i * 0xffff_ffff_ffff_ffff,
        decreases entries@.len() - i,
    {
        proof {
            assert(entries@.take(i + 1).drop_last() =~= entries@.take(i as int));
            assert(i < 0xffff_ffff_ffff_ffff);
        }
        total = total + entries[i].file_size as u128;
        i = i + 1;
    }
    assert(entries@.take(i as int) =~= entries@);
    total
}

/// How many workers patch or fetch `count` files.
pub fn patch_workers(count: usize) -> (workers: usize)
    ensures
        workers == (if count == 0 {
            1
        } else {
            blocks::least(PARALLEL_PATCHES as int, count as int)
        }),
{
    if count == 0 {
        1
    } else if PARALLEL_PATCHES < count {
        PARALLEL_PATCHES
    } else {
        count
    }
}

// ---------------------------------------------------------------------------
// Fetching what cannot be patched
// ---------------------------------------------------------------------------

/// The last position of a path in a list; paths that cannot be read are left
/// out of it.
pub open spec fn last_named(decoded: Seq<Option<Seq<char>>>, path: Seq<char>) -> Option<int>
    decreases decoded.len(),
{
    if decoded.len() == 0 {
        None
    } else if decoded.last() == Some(path) {
        Some(decoded.len() - 1)
    } else {
        last_named(decoded.drop_last(), path)
    }
}

/// Where a path is found: as it is, with forward slashes, or with backslashes.
pub open spec fn found_at(decoded: Seq<Option<Seq<char>>>, path: Seq<char>) -> Option<int> {
    match last_named(decoded, path) {
        Some(i) => Some(i),
        None => match last_named(decoded, text::replaced(path, '\\', '/')) {
            Some(i) => Some(i),
            None => last_named(decoded, text::replaced(path, '/', '\\')),
        },
    }
}

/// The positions that are found.
pub open spec fn position_in(found: Option<usize>) -> Option<int> {
    match found {
        Some(i) => Some(i as int),
        None => None,
    }
}

/// Computes `last_named`.
fn find_last(decoded: &Vec<Option<String>>, path: &[char]) -> (found: Option<usize>)
    ensures
        position_in(found) == last_named(text::texts_in(decoded@), path@),
        found matches Some(i) ==> i < decoded@.len(),
{
    let ghost all = text::texts_in(decoded@);
    let mut i: usize = decoded.len();
    assert(all.take(i as int) =~= all);
    while i > 0
        invariant
            i <= decoded@.len(),
            all == text::texts_in(decoded@),
            last_named(all, path@) == last_named(all.take(i as int), path@),
        decreases i,
    {
        proof {
            assert(all.take(i as int).last() == all[i - 1]);
            assert(all.take(i as int).drop_last() =~= all.take(i - 1));
        }
        if let Some(name) = &decoded[i - 1] {
            if text::spells(path, name.as_str()) {
                return Some(i - 1);
            }
        }
        i = i - 1;
    }
    None
}

/// Finds the entry of a manifest for a path, with either kind of slash.
pub fn find_fallback(decoded: &Vec<Option<String>>, path: &str) -> (found: Option<usize>)
    ensures
        position_in(found) == found_at(text::texts_in(decoded@), path@),
        found matches Some(i) ==> i < decoded@.len(),
{
    let chars = text::to_chars(path);
    if let Some(i) = find_last(decoded, chars.as_slice()) {
        return Some(i);
    }
    let forward = text::replace_char(chars.as_slice(), '\\', '/');
    if let Some(i) = find_last(decoded, forward.as_slice()) {
        return Some(i);
    }
    let backward = text::replace_char(chars.as_slice(), '/', '\\');
    find_last(decoded, backward.as_slice())
}

/// The path of each file of a manifest, where it can be read.
pub open spec fn readable_paths(files: Seq<(String, ManifestFile)>) -> Seq<Option<Seq<char>>> {
    Seq::new(
        files.len(),
        |i: int|
            match nxl::manifest_path(files[i].0@) {
                Ok(path) => Some(path),
                Err(_) => None,
            },
    )
}

/// Computes `readable_paths`.
pub fn decode_paths(files: &Vec<(String, ManifestFile)>) -> (decoded: Vec<Option<String>>)
    ensures
        text::texts_in(decoded@) == readable_paths(files@),
{
    let mut decoded: Vec<Option<String>> = Vec::new();
    let mut i: usize = 0;
    while i < files.len()
        invariant
            i <= files@.len(),
            decoded@.len() == i,
            forall|j: int|
                0 <= j < i ==> text::text_in(#[trigger] decoded@[j]) == readable_paths(files@)[j],
        decreases files@.len() - i,
    {
        let path = match nxl::decode_file_path(files[i].0.as_str()) {
            Ok(path) => Some(path),
            Err(_) => None,
        };
        decoded.push(path);
        i = i + 1;
    }
    assert(text::texts_in(decoded@) =~= readable_paths(files@));
    decoded
}

/// A file to fetch whole.
#[derive(Debug)]
pub struct FallbackEntry {
    pub path: String,
    pub objects: Vec<String>,
    pub objects_fsize: Vec<u64>,
    pub fsize: u64,
}

impl FallbackEntry {
    /// What is known of this file.
    pub open spec fn model(self) -> nxl::FileModel {
        (self.path@, self.fsize, text::texts(self.objects@), self.objects_fsize@)
    }
}

/// What is known of the files of a list.
pub open spec fn fallback_models(list: Seq<FallbackEntry>) -> Seq<nxl::FileModel> {
    Seq::new(list.len(), |i: int| list[i].model())
}

/// File `i` of a manifest, to be fetched whole for a path.
pub open spec fn whole_file(
    files: Seq<(String, ManifestFile)>,
    i: int,
    path: Seq<char>,
) -> nxl::FileModel {
    let file = files[i].1;
    (path, file.fsize, text::texts(file.objects@), file.objects_fsize@)
}

/// The files to fetch whole for the paths that failed, and the paths for which
/// the manifest has none.
pub open spec fn fallback_plan(
    files: Seq<(String, ManifestFile)>,
    decoded: Seq<Option<Seq<char>>>,
    failed: Seq<Seq<char>>,
) -> (Seq<nxl::FileModel>, Seq<Seq<char>>)
    decreases failed.len(),
{
    if failed.len() == 0 {
        (Seq::empty(), Seq::empty())
    } else {
        let (entries, missing) = fallback_plan(files, decoded, failed.drop_last());
        match found_at(decoded, failed.last()) {
            Some(i) => (entries.push(whole_file(files, i, failed.last())), missing),
            None => (entries, missing.push(failed.last())),
        }
    }
}

/// Plans what to fetch whole, by the decoded paths of the manifest's files.
pub fn plan_by_paths(
    files: &Vec<(String, ManifestFile)>,
    decoded: &Vec<Option<String>>,
    failed: &Vec<String>,
) -> (plan: (Vec<FallbackEntry>, Vec<String>))
    requires
        decoded@.len() == files@.len(),
    ensures
        (fallback_models(plan.0@), text::texts(plan.1@)) == fallback_plan(
            files@,
            text::texts_in(decoded@),
            text::texts(failed@),
        ),
{
    let ghost names = text::texts_in(decoded@);
    let ghost all = text::texts(failed@);
    let mut entries: Vec<FallbackEntry> = Vec::new();
    let mut missing: Vec<String> = Vec::new();
    let mut i: usize = 0;
    assert(fallback_models(entries@) =~= Seq::empty());
    assert(text::texts(missing@) =~= Seq::empty());
    while i < failed.len()
        invariant
            i <= failed@.len(),
            decoded@.len() == files@.len(),
            names == text::texts_in(decoded@),
            all == text::texts(failed@),
            (fallback_models(entries@), text::texts(missing@)) == fallback_plan(
                files@,
                names,
                all.take(i as int),
            ),
        decreases failed@.len() - i,
    {
        proof {
            assert(all.take(i + 1).drop_last() =~= all.take(i as int));
            assert(all.take(i + 1).last() == failed@[i as int]@);
        }
        match find_fallback(decoded, failed[i].as_str()) {
            Some(k) => {
                let file = &files[k].1;
                let entry = FallbackEntry {
                    path: failed[i].clone(),
                    objects: nxl::copy_texts(&file.objects),
                    objects_fsize: nxl::copy_sizes(&file.objects_fsize),
                    fsize: file.fsize,
                };
                let ghost before = entries@;
                let ghost model = entry.model();
                entries.push(entry);
                assert(fallback_models(entries@) =~= fallback_models(before).push(model));
            },
            None => {
                let ghost before = missing@;
                missing.push(failed[i].clone());
                assert(text::texts(missing@) =~= text::texts(before).push(all[i as int]));
            },
        }
        i = i + 1;
    }
    assert(all.take(i as int) =~= all);
    (entries, missing)
}

/// Plans what to fetch whole for the paths that could not be patched.
pub fn plan_fallback(files: &Vec<(String, ManifestFile)>, failed: &Vec<String>) -> (plan: (
    Vec<FallbackEntry>,
    Vec<String>,
))
    ensures
        (fallback_models(plan.0@), text::texts(plan.1@)) == fallback_plan(
            files@,
            readable_paths(files@),
            text::texts(failed@),
        ),
{
    let decoded = decode_paths(files);
    proof {
        assert(text::texts_in(decoded@).len() == decoded@.len());
    }
    plan_by_paths(files, &decoded, failed)
}

/// A block of a whole file whose size is not what the manifest says.
#[derive(Clone, Debug)]
pub struct BlockMismatch {
    pub object_id: String,
    pub expected: u64,
    pub got: u64,
}

impl BlockMismatch {
    /// The words for this error.
    pub open spec fn words(self) -> Seq<char> {
        "object "@ + self.object_id@ + ": size mismatch (expected "@ + numerals::decimal(
            self.expected as nat,
        ) + ", got "@ + numerals::decimal(self.got as nat) + ")"@
    }

    /// The message for this error.
    pub fn message(&self) -> (s: String)
        ensures
            s@ == self.words(),
    {
        let mut s = String::new();
        s.append("object ");
        s.append(self.object_id.as_str());
        s.append(": size mismatch (expected ");
        numerals::push_decimal(&mut s, self.expected as u128);
        s.append(", got ");
        numerals::push_decimal(&mut s, self.got as u128);
        s.append(")");
        s
    }
}

/// How many blocks of a whole file are fetched: those that have both a name and
/// a size.
pub fn block_count(entry: &FallbackEntry) -> (n: usize)
    ensures
        n == blocks::least(entry.objects@.len() as int, entry.objects_fsize@.len() as int),
{
    if entry.objects.len() < entry.objects_fsize.len() {
        entry.objects.len()
    } else {
        entry.objects_fsize.len()
    }
}

/// Accepts a fetched block of a whole file and puts it behind those before it.
pub fn add_block(object_id: &str, expected: u64, data: &[u8], out: &mut Vec<u8>) -> (result: Result<
    (),
    BlockMismatch,
>)
    ensures
        if data@.len() == expected {
            result is Ok && final(out)@ == old(out)@ + data@
        } else {
            &&& result matches Err(e)
            &&& e.object_id@ == object_id@
            &&& e.expected == expected
            &&& e.got == data@.len()
            &&& final(out)@ == old(out)@
        },
{
    if data.len() as u64 != expected {
        return Err(
            BlockMismatch { object_id: object_id.to_owned(), expected, got: data.len() as u64 },
        );
    }
    out.extend_from_slice(data);
    assert(out@ =~= old(out)@ + data@);
    Ok(())
}

// ---------------------------------------------------------------------------
// Patching a client
// ---------------------------------------------------------------------------

/// Where the patching of a client stands.
#[derive(Clone, Copy, Debug, PartialEq, Eq, Structural)]
pub enum Stage {
    /// The target is known, and compared with the current build.
    Comparing,
    /// Diffs are fetched and applied.
    Patching,
    /// Files that could not be patched are fetched whole.
    Fetching,
    /// Finished files that are still in the staging directory are moved.
    Moving,
    /// The new hash is written and the record removed.
    Updating,
    /// Nothing is left to do.
    Done,
    /// Some files could not be moved: the old hash and the record stay, and a
    /// later run goes on from there.
    Unfinished,
}

/// What a stage came to.
#[derive(Clone, Copy, Debug, PartialEq, Eq, Structural)]
pub enum StageEnd {
    /// Whether the client is at the target already.
    Compared { current: bool },
    /// How many files could not be patched.
    Patched { failed: usize },
    Fetched,
    /// How many files could not be moved.
    Moved { failed: usize },
    Updated,
}

/// The stage after another one.
pub open spec fn stage_after(stage: Stage, end: StageEnd) -> Option<Stage> {
    match (stage, end) {
        (Stage::Comparing, StageEnd::Compared { current }) => Some(
            if current {
                Stage::Done
            } else {
                Stage::Patching
            },
        ),
        (Stage::Patching, StageEnd::Patched { failed }) => Some(
            if failed > 0 {
                Stage::Fetching
            } else {
                Stage::Moving
            },
        ),
        (Stage::Fetching, StageEnd::Fetched) => Some(Stage::Moving),
        (Stage::Moving, StageEnd::Moved { failed }) => Some(
            if failed > 0 {
                Stage::Unfinished
            } else {
                Stage::Updating
            },
        ),
        (Stage::Updating, StageEnd::Updated) => Some(Stage::Done),
        _ => None,
    }
}

/// Decides what comes after a stage; nothing where the end is not one of that
/// stage.
pub fn next_stage(stage: Stage, end: StageEnd) -> (next: Option<Stage>)
    ensures
        next == stage_after(stage, end),
{
    match (stage, end) {
        (Stage::Comparing, StageEnd::Compared { current }) => Some(
            if current {
                Stage::Done
            } else {
                Stage::Patching
            },
        ),
        (Stage::Patching, StageEnd::Patched { failed }) => Some(
            if failed > 0 {
                Stage::Fetching
            } else {
                Stage::Moving
            },
        ),
        (Stage::Fetching, StageEnd::Fetched) => Some(Stage::Moving),
        (Stage::Moving, StageEnd::Moved { failed }) => Some(
            if failed > 0 {
                Stage::Unfinished
            } else {
                Stage::Updating
            },
        ),
        (Stage::Updating, StageEnd::Updated) => Some(Stage::Done),
        _ => None,
    }
}

// ---------------------------------------------------------------------------
// Laws
// ---------------------------------------------------------------------------

/// Whether a path survives being recorded on a line of its own.
pub open spec fn recordable(path: Seq<char>) -> bool {
    path.len() > 0 && !path.contains('\n') && path.last() != '\r'
}

/// The record of a list of paths.
pub open spec fn record(paths: Seq<Seq<char>>) -> Seq<char>
    decreases paths.len(),
{
    if paths.len() == 0 {
        Seq::empty()
    } else {
        record(paths.drop_last()) + (paths.last() + "\n"@)
    }
}

/// The lines of a record are the paths.
proof fn lemma_record_lines(paths: Seq<Seq<char>>)
    requires
        forall|i: int| 0 <= i < paths.len() ==> recordable(#[trigger] paths[i]),
    ensures
        record(paths).len() == 0 || record(paths).last() == '\n',
        text::lines_of(record(paths)) == paths,
    decreases paths.len(),
{
    reveal_strlit("\n");
    if paths.len() == 0 {
        assert(text::lines_of(record(paths)) =~= paths);
    } else {
        let before = paths.drop_last();
        let path = paths.last();
        assert forall|i: int| 0 <= i < before.len() implies recordable(#[trigger] before[i]) by {
            assert(before[i] == paths[i]);
        }
        lemma_record_lines(before);
        assert(recordable(path)) by {
            assert(path == paths[paths.len() - 1]);
        }
        assert(path + "\n"@ =~= path.push('\n'));
        text::lemma_one_line(path);
        text::lemma_lines_append(record(before), path.push('\n'));
        assert(before + seq![path] =~= paths);
    }
}

/// Every line that is not empty is among the distinct ones, and nothing else.
proof fn lemma_distinct_lines(lines: Seq<Seq<char>>, s: Seq<char>)
    ensures
        listed(distinct_lines(lines), s) == (listed(lines, s) && s.len() > 0),
    decreases lines.len(),
{
    if lines.len() > 0 {
        let fewer = lines.drop_last();
        let last = lines.last();
        let before = distinct_lines(fewer);
        let all = distinct_lines(lines);
        lemma_distinct_lines(fewer, s);
        if listed(fewer, s) {
            let i = choose|i: int| 0 <= i < fewer.len() && #[trigger] fewer[i] == s;
            assert(lines[i] == s);
        }
        if listed(lines, s) {
            let i = choose|i: int| 0 <= i < lines.len() && #[trigger] lines[i] == s;
            if i < fewer.len() {
                assert(fewer[i] == s);
            }
        }
        if s == last {
            assert(lines[lines.len() - 1] == s);
        }
        if listed(before, s) {
            let i = choose|i: int| 0 <= i < before.len() && #[trigger] before[i] == s;
            assert(all[i] == s);
        }
        if listed(all, s) {
            let i = choose|i: int| 0 <= i < all.len() && #[trigger] all[i] == s;
            if i < before.len() {
                assert(before[i] == s);
            }
        }
        if s == last && s.len() > 0 && !listed(before, s) {
            assert(all[before.len() as int] == s);
        }
    }
}

/// A later run finds exactly the paths that were recorded.
pub proof fn law_recorded_paths_are_found(paths: Seq<Seq<char>>, path: Seq<char>)
    requires
        forall|i: int| 0 <= i < paths.len() ==> recordable(#[trigger] paths[i]),
    ensures
        listed(distinct_lines(text::lines_of(record(paths))), path) == listed(paths, path),
{
    lemma_record_lines(paths);
    lemma_distinct_lines(paths, path);
    if listed(paths, path) {
        let i = choose|i: int| 0 <= i < paths.len() && #[trigger] paths[i] == path;
        assert(recordable(paths[i]));
    }
}

/// No path is found twice.
pub proof fn law_found_paths_are_distinct(lines: Seq<Seq<char>>)
    ensures
        forall|i: int, j: int|
            0 <= i < j < distinct_lines(lines).len() ==> distinct_lines(lines)[i]
                != distinct_lines(lines)[j],
    decreases lines.len(),
{
    if lines.len() > 0 {
        law_found_paths_are_distinct(lines.drop_last());
        let before = distinct_lines(lines.drop_last());
        let all = distinct_lines(lines);
        assert forall|i: int, j: int| 0 <= i < j < all.len() implies all[i] != all[j] by {
            assert(all[i] == before[i]);
        }
    }
}

/// What is left to patch is what was not recorded: no entry is patched twice
/// and none is passed over.
pub proof fn law_left_is_not_completed(
    entries: Seq<DiffEntry>,
    completed: Seq<Seq<char>>,
    entry: DiffEntry,
)
    ensures
        entries_left(entries, completed).contains(entry) == (entries.contains(entry) && !listed(
            completed,
            entry.path@,
        )),
        entries_left(entries, completed).len() <= entries.len(),
    decreases entries.len(),
{
    if entries.len() > 0 {
        let fewer = entries.drop_last();
        law_left_is_not_completed(fewer, completed, entry);
        let before = entries_left(fewer, completed);
        let all = entries_left(entries, completed);
        if entries.contains(entry) {
            let i = choose|i: int| 0 <= i < entries.len() && entries[i] == entry;
            if i < fewer.len() {
                assert(fewer[i] == entry);
            }
        }
        if fewer.contains(entry) {
            let i = choose|i: int| 0 <= i < fewer.len() && fewer[i] == entry;
            assert(entries[i] == entry);
        }
        if entries.last() == entry {
            assert(entries[entries.len() - 1] == entry);
        }
        if before.contains(entry) {
            let i = choose|i: int| 0 <= i < before.len() && before[i] == entry;
            assert(all[i] == entry);
        }
        if all.contains(entry) {
            let i = choose|i: int| 0 <= i < all.len() && all[i] == entry;
            if i < before.len() {
                assert(before[i] == entry);
            }
        }
        if entries.last() == entry && !listed(completed, entry.path@) {
            assert(all[before.len() as int] == entry);
        }
    }
}

/// Every path that failed is either fetched whole or reported missing, and
/// nothing else is: it is missing exactly where it is not found, and otherwise
/// fetched as the file that it is found at.
pub proof fn law_every_failure_is_handled(
    files: Seq<(String, ManifestFile)>,
    decoded: Seq<Option<Seq<char>>>,
    failed: Seq<Seq<char>>,
    path: Seq<char>,
    file: nxl::FileModel,
)
    ensures
        ({
            let (entries, missing) = fallback_plan(files, decoded, failed);
            &&& entries.len() + missing.len() == failed.len()
            &&& missing.contains(path) == (failed.contains(path) && found_at(
                decoded,
                path,
            ) is None)
            &&& found_at(decoded, path) matches Some(i) ==> entries.contains(
                whole_file(files, i, path),
            ) == failed.contains(path)
            &&& entries.contains(file) == (failed.contains(file.0) && match found_at(
                decoded,
                file.0,
            ) {
                Some(i) => file == whole_file(files, i, file.0),
                None => false,
            })
        }),
{
    lemma_missing_paths(files, decoded, failed, path);
    lemma_fetched_files(files, decoded, failed, file);
    if let Some(i) = found_at(decoded, path) {
        lemma_fetched_files(files, decoded, failed, whole_file(files, i, path));
    }
}

/// Pushing an element adds it to what a list contains.
proof fn lemma_push_contains<A>(list: Seq<A>, last: A, a: A)
    ensures
        list.push(last).contains(a) == (list.contains(a) || last == a),
{
    let all = list.push(last);
    if list.contains(a) {
        let i = choose|i: int| 0 <= i < list.len() && list[i] == a;
        assert(all[i] == a);
    }
    if last == a {
        assert(all[list.len() as int] == a);
    }
    if all.contains(a) {
        let i = choose|i: int| 0 <= i < all.len() && all[i] == a;
        if i < list.len() {
            assert(list[i] == a);
        }
    }
}

/// What is missing is what failed and is not found.
proof fn lemma_missing_paths(
    files: Seq<(String, ManifestFile)>,
    decoded: Seq<Option<Seq<char>>>,
    failed: Seq<Seq<char>>,
    path: Seq<char>,
)
    ensures
        fallback_plan(files, decoded, failed).1.contains(path) == (failed.contains(path)
            && found_at(decoded, path) is None),
        fallback_plan(files, decoded, failed).0.len() + fallback_plan(
            files,
            decoded,
            failed,
        ).1.len() == failed.len(),
    decreases failed.len(),
{
    if failed.len() > 0 {
        let fewer = failed.drop_last();
        lemma_missing_paths(files, decoded, fewer, path);
        assert(fewer.push(failed.last()) =~= failed);
        lemma_push_contains(fewer, failed.last(), path);
        lemma_push_contains(fallback_plan(files, decoded, fewer).1, failed.last(), path);
    }
}

/// What is fetched is what failed and is found, as the file it is found at.
proof fn lemma_fetched_files(
    files: Seq<(String, ManifestFile)>,
    decoded: Seq<Option<Seq<char>>>,
    failed: Seq<Seq<char>>,
    file: nxl::FileModel,
)
    ensures
        fallback_plan(files, decoded, failed).0.contains(file) == (failed.contains(file.0)
            && match found_at(decoded, file.0) {
            Some(i) => file == whole_file(files, i, file.0),
            None => false,
        }),
    decreases failed.len(),
{
    if failed.len() > 0 {
        let fewer = failed.drop_last();
        lemma_fetched_files(files, decoded, fewer, file);
        assert(fewer.push(failed.last()) =~= failed);
        lemma_push_contains(fewer, failed.last(), file.0);
        if let Some(i) = found_at(decoded, failed.last()) {
            lemma_push_contains(
                fallback_plan(files, decoded, fewer).0,
                whole_file(files, i, failed.last()),
                file,
            );
        }
    }
}

/// The stage that a run is in after some ends; nothing where an end does not
/// belong.
pub open spec fn stage_reached(ends: Seq<StageEnd>) -> Option<Stage>
    decreases ends.len(),
{
    if ends.len() == 0 {
        Some(Stage::Comparing)
    } else {
        match stage_reached(ends.drop_last()) {
            Some(stage) => stage_after(stage, ends.last()),
            None => None,
        }
    }
}

/// The hash of a client is updated only once every file was moved, and a client
/// that is at the target already is not touched.
pub proof fn law_hash_is_updated_last(ends: Seq<StageEnd>)
    requires
        stage_reached(ends) == Some(Stage::Updating),
    ensures
        ends.last() == (StageEnd::Moved { failed: 0 }),
        ends.len() >= 3,
        ends[0] == (StageEnd::Compared { current: false }),
    decreases ends.len(),
{
    let a = ends.drop_last();
    assert(stage_reached(a) == Some(Stage::Moving));
    let b = a.drop_last();
    assert(stage_reached(b) == Some(Stage::Patching) || stage_reached(b) == Some(
        Stage::Fetching,
    ));
    if stage_reached(b) == Some(Stage::Fetching) {
        let c = b.drop_last();
        assert(stage_reached(c) == Some(Stage::Patching));
        lemma_patching_is_second(c);
    } else {
        lemma_patching_is_second(b);
    }
}

/// Patching begins right after the comparison.
proof fn lemma_patching_is_second(ends: Seq<StageEnd>)
    requires
        stage_reached(ends) == Some(Stage::Patching),
    ensures
        ends.len() == 1,
        ends[0] == (StageEnd::Compared { current: false }),
{
    let before = ends.drop_last();
    assert(stage_reached(before) == Some(Stage::Comparing));
    if before.len() > 0 {
        assert(stage_after(stage_reached(before.drop_last())->Some_0, before.last()) != Some(
            Stage::Comparing,
        ));
    }
}

/// The directory of an address is what comes before its last part, however many
/// slashes follow that; an address without slashes is its own.
pub proof fn law_files_lie_in_their_directory(dir: Seq<char>, name: Seq<char>, slashes: nat)
    requires
        name.len() > 0,
        !name.contains('/'),
    ensures
        directory_of(dir + seq!['/'] + name + Seq::new(slashes, |i: int| '/')) == dir,
        directory_of(name) == name,
{
    let url = dir + seq!['/'] + name;
    assert(url.last() == name.last());
    assert(name.contains(name[name.len() - 1]));
    text::law_trailing_characters_go(url, '/', slashes);
    text::law_cut_at_the_last(dir, '/', name);
    text::law_trailing_characters_go(name, '/', 0);
    assert(name + Seq::new(0, |i: int| '/') =~= name);
}

/// The directory of a patch is named by the first eight characters of the two
/// hashes, the current one first, and by nothing else of them.
pub proof fn law_patches_are_named_by_both_builds(
    base: Seq<char>,
    src: Seq<char>,
    dst: Seq<char>,
)
    requires
        src.len() >= 8 && vstd::utf8::is_ascii_chars(src),
        dst.len() >= 8 && vstd::utf8::is_ascii_chars(dst),
    ensures
        patch_directory(base, src, dst) == base + "/patches/patch-"@ + src.take(8) + "-"@
            + dst.take(8),
{
    assert forall|i: int| 0 <= i < src.len() implies #[trigger] src[i] <= '\u{7f}' by {
    }
    assert forall|i: int| 0 <= i < dst.len() implies #[trigger] dst[i] <= '\u{7f}' by {
    }
    text::law_first_bytes_of_ascii(src, 8);
    text::law_first_bytes_of_ascii(dst, 8);
}

/// The diff of a file lies beneath the patch's directory, by the application and
/// the file's own path, and a part by the part's own path; only a whole diff gets
/// an ending.
pub proof fn law_diffs_lie_beneath_the_patch(
    base: Seq<char>,
    appid: Seq<char>,
    entry: DiffEntry,
    part: DiffPart,
)
    ensures
        ({
            let n = base.len() as int;
            let m = n + 1 + appid.len();
            let whole = diff_address(base, appid, entry);
            let piece = part_address(base, appid, part);
            &&& whole.subrange(0, n) == base && piece.subrange(0, n) == base
            &&& whole[n] == '/' && piece[n] == '/'
            &&& whole.subrange(n + 1, m) == appid && piece.subrange(n + 1, m) == appid
            &&& whole[m] == '/' && piece[m] == '/'
            &&& whole.subrange(m + 1, whole.len() as int) == entry.path@ + seq![
                '.',
                'd',
                'i',
                'f',
                'f',
            ]
            &&& piece.subrange(m + 1, piece.len() as int) == part.path@
        }),
{
    reveal_strlit("/");
    reveal_strlit(".diff");
    let n = base.len() as int;
    let m = n + 1 + appid.len();
    let whole = diff_address(base, appid, entry);
    let piece = part_address(base, appid, part);
    assert(whole.subrange(0, n) =~= base && piece.subrange(0, n) =~= base);
    assert(whole.subrange(n + 1, m) =~= appid && piece.subrange(n + 1, m) =~= appid);
    assert(whole.subrange(m + 1, whole.len() as int) =~= entry.path@ + seq![
        '.',
        'd',
        'i',
        'f',
        'f',
    ]);
    assert(piece.subrange(m + 1, piece.len() as int) =~= part.path@);
}

/// Data of a patch is accepted exactly where it has the size that the manifest
/// gives and the MD5 that the manifest gives, in hexadecimal and in either case.
/// Parts together need no checksum where none is given. A wrong size is reported
/// before a wrong checksum, each with what was expected and what came.
pub proof fn law_data_is_held_against_the_manifest(
    entry: DiffEntry,
    part: DiffPart,
    data: Seq<u8>,
)
    ensures
        part_fault(part, data) is None <==> (data.len() == part.file_size && nxl::names_digest(
            part.checksum@,
            outside::md5_of(data),
        )),
        whole_fault(entry, data) is None <==> (data.len() == entry.file_size && nxl::names_digest(
            entry.checksum@,
            outside::md5_of(data),
        )),
        joined_fault(entry, data) is None <==> (data.len() == entry.file_size && (
        entry.checksum@.len() == 0 || nxl::names_digest(entry.checksum@, outside::md5_of(data)))),
        data.len() != part.file_size ==> part_fault(part, data) == Some(
            PatchFault::Size {
                piece: Piece::Part,
                path: part.path@,
                expected: part.file_size,
                got: data.len(),
            },
        ),
        data.len() != entry.file_size ==> whole_fault(entry, data) == Some(
            PatchFault::Size {
                piece: Piece::Whole,
                path: entry.path@,
                expected: entry.file_size,
                got: data.len(),
            },
        ) && joined_fault(entry, data) == Some(
            PatchFault::Size {
                piece: Piece::Joined,
                path: entry.path@,
                expected: entry.file_size,
                got: data.len(),
            },
        ),
        data.len() == part.file_size && part_fault(part, data) is Some ==> part_fault(part, data)
            == Some(
            PatchFault::Digest {
                piece: Piece::Part,
                path: part.path@,
                checksum: part.checksum@,
                actual: numerals::hex(outside::md5_of(data)),
            },
        ),
        data.len() == entry.file_size && whole_fault(entry, data) is Some ==> whole_fault(
            entry,
            data,
        ) == Some(
            PatchFault::Digest {
                piece: Piece::Whole,
                path: entry.path@,
                checksum: entry.checksum@,
                actual: numerals::hex(outside::md5_of(data)),
            },
        ),
        data.len() == entry.file_size && joined_fault(entry, data) is Some ==> joined_fault(
            entry,
            data,
        ) == Some(
            PatchFault::Digest {
                piece: Piece::Joined,
                path: entry.path@,
                checksum: entry.checksum@,
                actual: numerals::hex(outside::md5_of(data)),
            },
        ),
{
}

/// Errors, steps and files to fetch are seen as what they hold.
pub proof fn law_outcomes_are_seen_whole(
    error: PatchError,
    step: PatchStep,
    file: FallbackEntry,
    files: Seq<FallbackEntry>,
    bytes: Vec<u8>,
)
    ensures
        error matches PatchError::Size { piece, path, expected, got } ==> error.model() == (
        PatchFault::Size { piece, path: path@, expected, got: got as nat }),
        error matches PatchError::Digest { piece, path, checksum, actual } ==> error.model() == (
        PatchFault::Digest { piece, path: path@, checksum: checksum@, actual: actual@ }),
        error matches PatchError::NotZlib { path, cause } ==> error.model() == (
        PatchFault::NotZlib { path: path@, cause: cause@ }),
        error matches PatchError::Apply { path, error: e } ==> error.model() == (
        PatchFault::Apply { path: path@, error: e }),
        step matches PatchStep::Fetch { url } ==> step.model() == StepModel::Fetch(url@),
        step matches PatchStep::Apply { compressed } ==> step.model() == StepModel::Apply(
            compressed@,
        ),
        step matches PatchStep::Fail { error: e } ==> step.model() == StepModel::Fail(e.model()),
        file.model().0 == file.path@,
        file.model().1 == file.fsize,
        file.model().2.len() == file.objects@.len(),
        forall|i: int|
            0 <= i < file.objects@.len() ==> #[trigger] file.model().2[i] == file.objects@[i]@,
        file.model().3 == file.objects_fsize@,
        fallback_models(files).len() == files.len(),
        forall|i: int|
            0 <= i < files.len() ==> #[trigger] fallback_models(files)[i] == files[i].model(),
        reported(Ok(())) is None,
        reported(Err(error)) == Some(error.model()),
        made(Ok(bytes)) == Ok::<Seq<u8>, PatchFault>(bytes@),
        made(Err(error)) == Err::<Seq<u8>, PatchFault>(error.model()),
{
}

/// A diff in one piece is fetched once, by the file's address. Parts are fetched
/// in their order, each once the one before it was found sound; the diff is
/// applied once the last is in and all of them together are sound, and it is then
/// the parts joined in that order. Whatever is not sound ends the run.
pub proof fn law_parts_are_fetched_in_order(
    base: Seq<char>,
    appid: Seq<char>,
    entry: DiffEntry,
    done: int,
    buf: Seq<u8>,
    data: Seq<u8>,
)
    requires
        entry.parts@.len() == 0 ==> done == 0,
        entry.parts@.len() > 0 ==> 0 <= done < entry.parts@.len(),
    ensures
        ({
            let n = entry.parts@.len() as int;
            let next = following(base, appid, entry, done, buf, data);
            &&& n == 0 ==> opening(base, appid, entry) == StepModel::Fetch(
                diff_address(base, appid, entry),
            )
            &&& n > 0 ==> opening(base, appid, entry) == StepModel::Fetch(
                part_address(base, appid, entry.parts@[0]),
            )
            &&& n == 0 ==> (next == StepModel::Apply(data) <==> whole_fault(entry, data) is None)
            &&& n == 0 && whole_fault(entry, data) is Some ==> next == StepModel::Fail(
                whole_fault(entry, data)->Some_0,
            )
            &&& n > 0 && part_fault(entry.parts@[done], data) is Some ==> next == StepModel::Fail(
                part_fault(entry.parts@[done], data)->Some_0,
            )
            &&& done + 1 < n && part_fault(entry.parts@[done], data) is None ==> next
                == StepModel::Fetch(part_address(base, appid, entry.parts@[done + 1]))
            &&& n > 0 && done + 1 == n && part_fault(entry.parts@[done], data) is None ==> {
                &&& joined_fault(entry, buf + data) is None ==> next == StepModel::Apply(
                    buf + data,
                )
                &&& joined_fault(entry, buf + data) is Some ==> next == StepModel::Fail(
                    joined_fault(entry, buf + data)->Some_0,
                )
            }
            &&& n > 0 ==> (part_taken(entry, done, data) <==> part_fault(
                entry.parts@[done],
                data,
            ) is None)
            &&& n == 0 ==> !part_taken(entry, done, data)
        }),
{
}

/// A diff that can be decompressed makes the file that its commands make of the
/// old one; what goes wrong is reported for the file's path.
pub proof fn law_patching_applies_the_diff(
    path: Seq<char>,
    compressed: Seq<u8>,
    diff_data: Seq<u8>,
    old: Seq<u8>,
    cause: Seq<char>,
)
    ensures
        outside::zlib_inflated(compressed) == Ok::<Seq<u8>, Seq<char>>(diff_data) ==> {
            &&& diff::diff_output(diff_data, 0, old) matches Ok(new) ==> new_file(
                path,
                compressed,
                old,
            ) == Ok::<Seq<u8>, PatchFault>(new)
            &&& diff::diff_output(diff_data, 0, old) matches Err(error) ==> new_file(
                path,
                compressed,
                old,
            ) == Err::<Seq<u8>, PatchFault>(PatchFault::Apply { path, error })
        },
        outside::zlib_inflated(compressed) == Err::<Seq<u8>, Seq<char>>(cause) ==> new_file(
            path,
            compressed,
            old,
        ) == Err::<Seq<u8>, PatchFault>(PatchFault::NotZlib { path, cause }),
{
}

/// A path is listed exactly where it stands in the list.
pub proof fn law_listed_is_in_the_list(list: Seq<Seq<char>>, s: Seq<char>)
    ensures
        listed(list, s) == list.contains(s),
{
    if listed(list, s) {
        let i = choose|i: int| 0 <= i < list.len() && #[trigger] list[i] == s;
        assert(list.contains(list[i]));
    }
}

/// The entries whose path is not recorded.
pub open spec fn is_open(completed: Seq<Seq<char>>) -> spec_fn(DiffEntry) -> bool {
    |e: DiffEntry| !completed.contains(e.path@)
}

/// What is left to patch are the entries whose path is not recorded, all of them,
/// in the manifest's order.
pub proof fn law_left_keeps_its_order(entries: Seq<DiffEntry>, completed: Seq<Seq<char>>)
    ensures
        entries_left(entries, completed) == entries.filter(is_open(completed)),
    decreases entries.len(),
{
    reveal(Seq::filter);
    if entries.len() > 0 {
        law_left_keeps_its_order(entries.drop_last(), completed);
        law_listed_is_in_the_list(completed, entries.last().path@);
    }
}

/// A recorded line that is not empty and not recorded before is added behind the
/// others; any other line changes nothing.
pub proof fn law_a_line_is_recorded_once(lines: Seq<Seq<char>>, line: Seq<char>)
    ensures
        distinct_lines(Seq::empty()) == Seq::<Seq<char>>::empty(),
        line.len() > 0 && !lines.contains(line) ==> distinct_lines(lines.push(line))
            == distinct_lines(lines).push(line),
        line.len() == 0 || lines.contains(line) ==> distinct_lines(lines.push(line))
            == distinct_lines(lines),
{
    assert(lines.push(line).drop_last() =~= lines);
    lemma_distinct_lines(lines, line);
    law_listed_is_in_the_list(lines, line);
}

/// The sum of the sizes of two lists of diffs is the sum of their sums, and that
/// of one diff its size.
pub proof fn law_diff_sizes_add_up(a: Seq<DiffEntry>, b: Seq<DiffEntry>, entry: DiffEntry)
    ensures
        diff_bytes(Seq::empty()) == 0,
        diff_bytes(seq![entry]) == entry.file_size,
        diff_bytes(a + b) == diff_bytes(a) + diff_bytes(b),
    decreases b.len(),
{
    assert(seq![entry].drop_last() =~= Seq::empty());
    if b.len() == 0 {
        assert(a + b =~= a);
    } else {
        assert((a + b).drop_last() =~= a + b.drop_last());
        law_diff_sizes_add_up(a, b.drop_last(), entry);
    }
}

/// Of the entries with a path the last one is taken, and one is taken wherever
/// there is one.
pub proof fn law_last_of_a_path_is_taken(decoded: Seq<Option<Seq<char>>>, path: Seq<char>)
    ensures
        match last_named(decoded, path) {
            Some(i) => {
                &&& 0 <= i < decoded.len()
                &&& decoded[i] == Some(path)
                &&& forall|j: int| i < j < decoded.len() ==> #[trigger] decoded[j] != Some(path)
            },
            None => forall|j: int|
                0 <= j < decoded.len() ==> #[trigger] decoded[j] != Some(path),
        },
    decreases decoded.len(),
{
    if decoded.len() > 0 && decoded.last() != Some(path) {
        let fewer = decoded.drop_last();
        law_last_of_a_path_is_taken(fewer, path);
        assert forall|j: int|
            0 <= j < decoded.len() && (last_named(decoded, path) is None || last_named(
                decoded,
                path,
            )->Some_0 < j) implies #[trigger] decoded[j] != Some(path) by {
            if j < fewer.len() {
                assert(fewer[j] == decoded[j]);
            }
        }
    }
}

/// Whether two texts differ in the direction of their slashes alone.
pub open spec fn same_but_for_slashes(a: Seq<char>, b: Seq<char>) -> bool {
    &&& a.len() == b.len()
    &&& forall|i: int|
        0 <= i < a.len() ==> #[trigger] a[i] == b[i] || ((a[i] == '/' || a[i] == '\\') && (b[i]
            == '/' || b[i] == '\\'))
}

/// Whether a text has slashes of one direction alone.
pub open spec fn one_way(s: Seq<char>) -> bool {
    !s.contains('/') || !s.contains('\\')
}

/// What is found for a path is an entry whose path differs from it in the
/// direction of its slashes at most; and an entry is found for every path that
/// differs so from a path of the manifest, where that one has its slashes all
/// forward or all backward.
pub proof fn law_slashes_are_tried_either_way(
    decoded: Seq<Option<Seq<char>>>,
    path: Seq<char>,
    held: Seq<char>,
    at: int,
)
    ensures
        found_at(decoded, path) matches Some(i) ==> 0 <= i < decoded.len() && decoded[i] is Some
            && same_but_for_slashes(decoded[i]->Some_0, path),
        0 <= at < decoded.len() && decoded[at] == Some(held) && same_but_for_slashes(held, path)
            && (one_way(held) || held == path) ==> found_at(decoded, path) is Some,
        0 <= at < decoded.len() && decoded[at] == Some(path) ==> (found_at(decoded, path) matches
            Some(i) && decoded[i] == Some(path)),
{
    let forward = text::replaced(path, '\\', '/');
    let backward = text::replaced(path, '/', '\\');
    law_last_of_a_path_is_taken(decoded, path);
    law_last_of_a_path_is_taken(decoded, forward);
    law_last_of_a_path_is_taken(decoded, backward);
    if 0 <= at < decoded.len() && decoded[at] == Some(held) && same_but_for_slashes(held, path)
        && one_way(held) {
        if !held.contains('\\') {
            assert(held =~= forward) by {
                assert forall|i: int| 0 <= i < held.len() implies held[i] == forward[i] by {
                    assert(held.contains(held[i]));
                }
            }
        } else {
            assert(held =~= backward) by {
                assert forall|i: int| 0 <= i < held.len() implies held[i] == backward[i] by {
                    assert(held.contains(held[i]));
                }
            }
        }
    }
}

/// Where the paths of a manifest have their slashes all forward, or all backward,
/// paths that differ in the direction of their slashes alone are found at one
/// place.
pub proof fn law_slashes_do_not_hide_a_file(
    decoded: Seq<Option<Seq<char>>>,
    a: Seq<char>,
    b: Seq<char>,
)
    requires
        same_but_for_slashes(a, b),
        (forall|i: int|
            0 <= i < decoded.len() && decoded[i] is Some ==> !(#[trigger] decoded[i])->Some_0.contains(
                '\\',
            )) || (forall|i: int|
            0 <= i < decoded.len() && decoded[i] is Some ==> !(#[trigger] decoded[i])->Some_0.contains(
                '/',
            )),
    ensures
        found_at(decoded, a) == found_at(decoded, b),
{
    lemma_found_by_turned_path(decoded, a);
    lemma_found_by_turned_path(decoded, b);
    assert(text::replaced(a, '\\', '/') =~= text::replaced(b, '\\', '/'));
    assert(text::replaced(a, '/', '\\') =~= text::replaced(b, '/', '\\'));
}

/// In a manifest with slashes of one direction a path is found as it is with its
/// slashes turned that way.
proof fn lemma_found_by_turned_path(decoded: Seq<Option<Seq<char>>>, path: Seq<char>)
    ensures
        (forall|i: int|
            0 <= i < decoded.len() && decoded[i] is Some ==> !(#[trigger] decoded[i])->Some_0.contains(
                '\\',
            )) ==> found_at(decoded, path) == last_named(decoded, text::replaced(path, '\\', '/')),
        (forall|i: int|
            0 <= i < decoded.len() && decoded[i] is Some ==> !(#[trigger] decoded[i])->Some_0.contains(
                '/',
            )) ==> found_at(decoded, path) == last_named(decoded, text::replaced(path, '/', '\\')),
{
    let forward = text::replaced(path, '\\', '/');
    let backward = text::replaced(path, '/', '\\');
    law_last_of_a_path_is_taken(decoded, path);
    law_last_of_a_path_is_taken(decoded, forward);
    law_last_of_a_path_is_taken(decoded, backward);
    if forall|i: int|
        0 <= i < decoded.len() && decoded[i] is Some ==> !(#[trigger] decoded[i])->Some_0.contains(
            '\\',
        ) {
        if last_named(decoded, path) is Some {
            let i = last_named(decoded, path)->Some_0;
            assert(!decoded[i]->Some_0.contains('\\'));
            assert forall|j: int| 0 <= j < path.len() implies path[j] == forward[j] by {
                assert(path.contains(path[j]));
            }
            assert(path =~= forward);
        } else if last_named(decoded, backward) is Some {
            let i = last_named(decoded, backward)->Some_0;
            assert(!decoded[i]->Some_0.contains('\\'));
            assert forall|j: int| 0 <= j < path.len() implies backward[j] == forward[j] by {
                assert(backward.contains(backward[j]));
            }
            assert(backward =~= forward);
        }
    }
    if forall|i: int|
        0 <= i < decoded.len() && decoded[i] is Some ==> !(#[trigger] decoded[i])->Some_0.contains(
            '/',
        ) {
        if last_named(decoded, path) is Some {
            let i = last_named(decoded, path)->Some_0;
            assert(!decoded[i]->Some_0.contains('/'));
            assert forall|j: int| 0 <= j < path.len() implies path[j] == backward[j] by {
                assert(path.contains(path[j]));
            }
            assert(path =~= backward);
        } else if last_named(decoded, forward) is Some {
            let i = last_named(decoded, forward)->Some_0;
            assert(!decoded[i]->Some_0.contains('/'));
            assert forall|j: int| 0 <= j < path.len() implies backward[j] == forward[j] by {
                assert(forward.contains(forward[j]));
            }
            assert(backward =~= forward);
        }
    }
}

/// The paths of a manifest are those that can be read off its entries.
pub proof fn law_paths_are_read_off(files: Seq<(String, ManifestFile)>, i: int)
    requires
        0 <= i < files.len(),
    ensures
        readable_paths(files).len() == files.len(),
        readable_paths(files)[i] is Some <==> nxl::manifest_path(files[i].0@) is Ok,
        readable_paths(files)[i] is Some ==> nxl::manifest_path(files[i].0@) == Ok::<
            Seq<char>,
            crate::paths::PathFault,
        >(readable_paths(files)[i]->Some_0),
{
}

/// The paths for which the manifest has no file.
pub open spec fn is_missing(decoded: Seq<Option<Seq<char>>>) -> spec_fn(Seq<char>) -> bool {
    |path: Seq<char>| found_at(decoded, path) is None
}

/// The paths for which the manifest has a file.
pub open spec fn is_there(decoded: Seq<Option<Seq<char>>>) -> spec_fn(Seq<char>) -> bool {
    |path: Seq<char>| found_at(decoded, path) is Some
}

/// What is fetched whole are the failed paths that are found, in their order,
/// each under its own path with the size, the blocks and the block sizes of the
/// entry it is found at, as they stand there; the others are missing, in theirs.
pub proof fn law_fallback_keeps_blocks_and_sizes(
    files: Seq<(String, ManifestFile)>,
    decoded: Seq<Option<Seq<char>>>,
    failed: Seq<Seq<char>>,
)
    ensures
        ({
            let (entries, missing) = fallback_plan(files, decoded, failed);
            let found = failed.filter(is_there(decoded));
            &&& missing == failed.filter(is_missing(decoded))
            &&& entries.len() == found.len()
            &&& forall|k: int|
                0 <= k < found.len() ==> {
                    let file = files[found_at(decoded, found[k])->Some_0].1;
                    &&& (#[trigger] entries[k]).0 == found[k]
                    &&& entries[k].1 == file.fsize
                    &&& entries[k].2.len() == file.objects@.len()
                    &&& entries[k].3 == file.objects_fsize@
                }
            &&& forall|k: int, i: int|
                0 <= k < found.len() && 0 <= i < entries[k].2.len() ==> #[trigger]
                    entries[k].2[i] == files[found_at(decoded, found[k])->Some_0].1.objects@[i]@
        }),
    decreases failed.len(),
{
    reveal(Seq::filter);
    if failed.len() > 0 {
        law_fallback_keeps_blocks_and_sizes(files, decoded, failed.drop_last());
        let (entries, missing) = fallback_plan(files, decoded, failed);
        let (before, _) = fallback_plan(files, decoded, failed.drop_last());
        let found = failed.filter(is_there(decoded));
        assert forall|k: int, i: int|
            0 <= k < found.len() && 0 <= i < entries[k].2.len() implies #[trigger]
            entries[k].2[i] == files[found_at(decoded, found[k])->Some_0].1.objects@[i]@ by {
            if k < before.len() {
                assert(entries[k] == before[k]);
                assert(found[k] == failed.drop_last().filter(is_there(decoded))[k]);
            }
        }
    }
}

/// The course of a run: a client at the target is done at once; otherwise files
/// that failed to be patched are fetched before anything is moved, the hash is
/// updated where every file was moved, and the run stays unfinished otherwise.
pub proof fn law_course_of_a_run(failed: usize, stuck: usize)
    ensures
        ({
            let start = seq![StageEnd::Compared { current: false }, StageEnd::Patched { failed }];
            let fetched = if failed > 0 {
                start.push(StageEnd::Fetched)
            } else {
                start
            };
            let moved = fetched.push(StageEnd::Moved { failed: stuck });
            &&& stage_reached(seq![StageEnd::Compared { current: true }]) == Some(Stage::Done)
            &&& failed > 0 ==> stage_reached(start) == Some(Stage::Fetching)
            &&& stage_reached(fetched) == Some(Stage::Moving)
            &&& stuck > 0 ==> stage_reached(moved) == Some(Stage::Unfinished)
            &&& stuck == 0 ==> stage_reached(moved) == Some(Stage::Updating) && stage_reached(
                moved.push(StageEnd::Updated),
            ) == Some(Stage::Done)
        }),
{
    let none = Seq::<StageEnd>::empty();
    assert(stage_reached(none) == Some(Stage::Comparing));
    let current = seq![StageEnd::Compared { current: true }];
    assert(current.drop_last() =~= none);
    let one = seq![StageEnd::Compared { current: false }];
    assert(one.drop_last() =~= none);
    assert(stage_reached(one) == Some(Stage::Patching));
    let start = seq![StageEnd::Compared { current: false }, StageEnd::Patched { failed }];
    assert(start.drop_last() =~= one);
    let fetched = if failed > 0 {
        start.push(StageEnd::Fetched)
    } else {
        start
    };
    assert(start.push(StageEnd::Fetched).drop_last() =~= start);
    let moved = fetched.push(StageEnd::Moved { failed: stuck });
    assert(moved.drop_last() =~= fetched);
    assert(moved.push(StageEnd::Updated).drop_last() =~= moved);
}

/// Nothing follows a stage but what its own end leads to: no end of another stage
/// moves a run on, and a run that is done or unfinished stays so.
pub proof fn law_stages_end_by_their_own(stage: Stage, end: StageEnd)
    ensures
        stage_after(stage, end) is Some <==> {
            ||| stage is Comparing && end is Compared
            ||| stage is Patching && end is Patched
            ||| stage is Fetching && end is Fetched
            ||| stage is Moving && end is Moved
            ||| stage is Updating && end is Updated
        },
{
}

/// A message about a patch names the file, or the part of a diff, and what came
/// instead of what was expected.
pub proof fn law_patch_messages(
    path: String,
    expected: u64,
    got: u64,
    checksum: String,
    actual: String,
    cause: String,
    error: DiffError,
)
    ensures
        ({
            let sizes = numerals::decimal(expected as nat) + ", got "@ + numerals::decimal(
                got as nat,
            ) + ")"@;
            let digests = checksum@ + ", got "@ + actual@ + ")"@;
            &&& (PatchError::Size { piece: Piece::Part, path, expected, got }).words()
                == "diff part '"@ + path@ + "': compressed-size mismatch (expected "@ + sizes
            &&& (PatchError::Size { piece: Piece::Whole, path, expected, got }).words()
                == "diff '"@ + path@ + "': compressed-size mismatch (expected "@ + sizes
            &&& (PatchError::Size { piece: Piece::Joined, path, expected, got }).words()
                == "diff '"@ + path@ + "': concatenated-size mismatch (expected "@ + sizes
            &&& (PatchError::Digest { piece: Piece::Part, path, checksum, actual }).words()
                == "diff part '"@ + path@ + "': MD5 mismatch (expected "@ + digests
            &&& (PatchError::Digest { piece: Piece::Whole, path, checksum, actual }).words()
                == "diff '"@ + path@ + "': MD5 mismatch (expected "@ + digests
            &&& (PatchError::Digest { piece: Piece::Joined, path, checksum, actual }).words()
                == "diff '"@ + path@ + "': concatenated MD5 mismatch (expected "@ + digests
            &&& (PatchError::NotZlib { path, cause }).words() == "failed to decompress diff for '"@
                + path@ + "': zlib decompression failed: "@ + cause@
            &&& (PatchError::Apply { path, error }).words() == "failed to apply diff for '"@ + path@
                + "': "@ + error.words()
        }),
{
    reveal_strlit("': ");
    reveal_strlit("compressed-size mismatch (expected ");
    reveal_strlit("': compressed-size mismatch (expected ");
    reveal_strlit("concatenated-size mismatch (expected ");
    reveal_strlit("': concatenated-size mismatch (expected ");
    reveal_strlit("MD5 mismatch (expected ");
    reveal_strlit("': MD5 mismatch (expected ");
    reveal_strlit("concatenated MD5 mismatch (expected ");
    reveal_strlit("': concatenated MD5 mismatch (expected ");
    assert("': compressed-size mismatch (expected "@ =~= "': "@
        + "compressed-size mismatch (expected "@);
    assert("': concatenated-size mismatch (expected "@ =~= "': "@
        + "concatenated-size mismatch (expected "@);
    assert("': MD5 mismatch (expected "@ =~= "': "@ + "MD5 mismatch (expected "@);
    assert("': concatenated MD5 mismatch (expected "@ =~= "': "@
        + "concatenated MD5 mismatch (expected "@);
    let part = "diff part '"@ + path@;
    let whole = "diff '"@ + path@;
    let a = numerals::decimal(expected as nat);
    let b = numerals::decimal(got as nat);
    lemma_pieces_in_any_order(
        part,
        "': "@,
        "compressed-size mismatch (expected "@,
        a,
        ", got "@,
        b,
        ")"@,
    );
    lemma_pieces_in_any_order(
        whole,
        "': "@,
        "compressed-size mismatch (expected "@,
        a,
        ", got "@,
        b,
        ")"@,
    );
    lemma_pieces_in_any_order(
        whole,
        "': "@,
        "concatenated-size mismatch (expected "@,
        a,
        ", got "@,
        b,
        ")"@,
    );
    lemma_pieces_in_any_order(
        part,
        "': "@,
        "MD5 mismatch (expected "@,
        checksum@,
        ", got "@,
        actual@,
        ")"@,
    );
    lemma_pieces_in_any_order(
        whole,
        "': "@,
        "MD5 mismatch (expected "@,
        checksum@,
        ", got "@,
        actual@,
        ")"@,
    );
    lemma_pieces_in_any_order(
        whole,
        "': "@,
        "concatenated MD5 mismatch (expected "@,
        checksum@,
        ", got "@,
        actual@,
        ")"@,
    );
}

/// Pieces of a message can be put together in either order.
proof fn lemma_pieces_in_any_order(
    front: Seq<char>,
    mid: Seq<char>,
    what: Seq<char>,
    a: Seq<char>,
    got: Seq<char>,
    b: Seq<char>,
    end: Seq<char>,
)
    ensures
        front + mid + what + a + got + b + end == front + (mid + what) + (a + got + b + end),
{
    assert(front + mid + what + a + got + b + end =~= front + (mid + what) + (a + got + b + end));
}

/// A message about a target quotes it, one about an empty reply says which, and one
/// about a block of a whole file names the block and the two sizes.
pub proof fn law_target_messages(quoted: String, object_id: String, expected: u64, got: u64)
    ensures
        (InvalidTarget { text: quoted }).words() == "invalid target hash '"@ + quoted@
            + "': must be 'latest', a 40-character hex string, or an http(s) URL"@,
        EmptyReply::Latest.words() == "latest manifest hash URL returned an empty response"@,
        EmptyReply::Target.words() == "target manifest hash URL returned an empty response"@,
        (BlockMismatch { object_id, expected, got }).words() == "object "@ + object_id@
            + ": size mismatch (expected "@ + numerals::decimal(expected as nat) + ", got "@
            + numerals::decimal(got as nat) + ")"@,
{
}

/// Ten files are patched at once, and fewer only where there are fewer.
pub proof fn law_ten_patches_at_once(count: int)
    ensures
        count >= 10 ==> blocks::least(PARALLEL_PATCHES as int, count) == 10,
        count < 10 ==> blocks::least(PARALLEL_PATCHES as int, count) == count,
{
}

} // verus!
