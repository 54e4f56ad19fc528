//! NXL clients: where their manifests and blocks are found, how paths are
//! written in a manifest, and what is to be fetched.
//!
//! 1. A `.manifest.hash` address gives the SHA-1 of the manifest as plain text.
//! 2. The manifest is found under that hash beside it, compressed with zlib.
//! 3. Its paths are Base64 of UTF-16LE, mostly with a byte order mark.
//! 4. Each block of a file is found under its SHA-1, in a directory named by the
//!    first two characters, compressed with zlib.
use vstd::prelude::*;
use vstd::string::*;
use crate::blocks;
use crate::filter::FileFilter;
use crate::listing;
use crate::listing::Tally;
use crate::numerals;
use crate::outside;
use crate::paths;
use crate::paths::PathFault;
use crate::text;

verus! {

/// Number of files downloaded concurrently.
pub const PARALLEL_FILES: usize = 10;

// ---------------------------------------------------------------------------
// Manifest
// ---------------------------------------------------------------------------

/// A manifest: its files, in no particular order, and what it says of itself.
#[derive(Debug, Clone)]
pub struct Manifest {
    pub filepath_encoding: Option<String>,
    pub files: Vec<(String, ManifestFile)>,
    pub platform: Option<String>,
    pub product: Option<String>,
    pub total_compressed_size: Option<u64>,
    pub total_objects: Option<u64>,
    pub total_uncompressed_size: Option<u64>,
    pub version: Option<String>,
}

/// A single file entry inside the manifest.
#[derive(Debug, Clone)]
pub struct ManifestFile {
    /// Uncompressed file size in bytes.
    pub fsize: u64,
    /// Modification time (Unix timestamp).
    pub mtime: Option<i64>,
    /// SHA-1 hex strings of each object block, or `["__DIR__"]` for directories.
    pub objects: Vec<String>,
    /// Uncompressed size of each object block.
    pub objects_fsize: Vec<u64>,
}

impl ManifestFile {
    /// Whether this entry stands for a directory.
    pub open spec fn names_directory(self) -> bool {
        self.objects@.len() == 1 && self.objects@[0]@ == "__DIR__"@
    }

    /// Whether this entry stands for a directory.
    pub fn is_directory(&self) -> (r: bool)
        ensures
            r == self.names_directory(),
    {
        self.objects.len() == 1 && text::same_text(self.objects[0].as_str(), "__DIR__")
    }
}

// ---------------------------------------------------------------------------
// Hashes and addresses
// ---------------------------------------------------------------------------

/// Whether a text is an address to fetch from.
pub open spec fn is_address(s: Seq<char>) -> bool {
    text::begins(s, "http://"@) || text::begins(s, "https://"@)
}

/// Whether a text is a SHA-1 in hexadecimal.
pub open spec fn is_sha1(s: Seq<char>) -> bool {
    s.len() == 40 && text::all_hex_digits(s)
}

/// Computes `is_address`.
pub fn looks_like_address(s: &[char]) -> (r: bool)
    ensures
        r == is_address(s@),
{
    text::starts_with(s, text::to_chars("http://").as_slice()) || text::starts_with(
        s,
        text::to_chars("https://").as_slice(),
    )
}

/// Where the hash of a manifest comes from.
#[derive(Clone, Debug)]
pub enum Source {
    /// It is to be fetched from this address.
    Address(String),
    /// It is this.
    Hash(String),
}

/// A text that is neither an address nor a hash.
#[derive(Clone, Debug)]
pub struct InvalidHash {
    pub text: String,
}

impl InvalidHash {
    /// The words for this error.
    pub open spec fn words(self) -> Seq<char> {
        "invalid manifest hash '"@ + self.text@
            + "': must be a 40-character hex string or an http(s) URL"@
    }

    /// The message for this error.
    pub fn message(&self) -> (s: String)
        ensures
            s@ == self.words(),
    {
        let mut s = String::new();
        s.append("invalid manifest hash '");
        s.append(self.text.as_str());
        s.append("': must be a 40-character hex string or an http(s) URL");
        s
    }
}

/// Tells whether a manifest is given by an address or by its hash, without the
/// white space around it.
pub fn classify_source(input: &str) -> (result: Result<Source, InvalidHash>)
    ensures
        ({
            let s = text::trimmed(input@);
            if is_address(s) {
                result matches Ok(Source::Address(a)) && a@ == s
            } else if is_sha1(s) {
                result matches Ok(Source::Hash(h)) && h@ == s
            } else {
                result matches Err(e) && e.text@ == s
            }
        }),
{
    let chars = text::to_chars(input);
    let s = text::trim(chars.as_slice());
    if looks_like_address(s) {
        return Ok(Source::Address(text::from_chars(s)));
    }
    if s.len() != 40 || !text::only_hex_digits(s) {
        return Err(InvalidHash { text: text::from_chars(s) });
    }
    Ok(Source::Hash(text::from_chars(s)))
}

/// A hash file that holds nothing.
#[derive(Clone, Copy, Debug, PartialEq, Eq, Structural)]
pub struct EmptyHash;

impl EmptyHash {
    /// The words for this error.
    pub open spec fn words(self) -> Seq<char> {
        "manifest hash is empty"@
    }

    /// The message for this error.
    pub fn message(&self) -> (s: &'static str)
        ensures
            s@ == self.words(),
    {
        "manifest hash is empty"
    }
}

/// Takes the hash out of the text of a hash file: the text without the white
/// space around it, which must not be all of it.
pub fn hash_in_text(content: &str) -> (result: Result<String, EmptyHash>)
    ensures
        ({
            let s = text::trimmed(content@);
            if s.len() > 0 {
                result matches Ok(hash) && hash@ == s
            } else {
                result == Err::<String, EmptyHash>(EmptyHash)
            }
        }),
{
    let chars = text::to_chars(content);
    let s = text::trim(chars.as_slice());
    if s.len() == 0 {
        return Err(EmptyHash);
    }
    Ok(text::from_chars(s))
}

/// Takes the hash out of the bytes of a hash file, which need not be UTF-8.
pub fn hash_in_bytes(bytes: &[u8]) -> (result: Result<String, EmptyHash>)
    ensures
        ({
            let s = text::trimmed(outside::utf8_lossy(bytes@));
            if s.len() > 0 {
                result matches Ok(hash) && hash@ == s
            } else {
                result == Err::<String, EmptyHash>(EmptyHash)
            }
        }),
{
    let content = outside::text_of_bytes(bytes);
    hash_in_text(content.as_str())
}

/// The directory of an application's manifests.
pub open spec fn base_address(appid: Seq<char>) -> Seq<char> {
    "http://download2.nexon.net/Game/nxl/games/"@ + appid
}

/// The directory of an application's manifests.
pub fn default_base_url(appid: &str) -> (url: String)
    ensures
        url@ == base_address(appid@),
{
    let mut url = String::new();
    url.append("http://download2.nexon.net/Game/nxl/games/");
    url.append(appid);
    url
}

/// The address of a manifest.
pub fn manifest_url(base_url: &str, hash: &str) -> (url: String)
    ensures
        url@ == base_url@ + "/"@ + hash@,
{
    let mut url = String::new();
    url.append(base_url);
    url.append("/");
    url.append(hash);
    url
}

/// The address of a block. Its name must be at least two bytes long, with the
/// second byte at the end of a character.
pub fn object_url(base_url: &str, appid: &str, object_id: &str) -> (url: String)
    requires
        text::first_bytes(object_id@, 2) is Some,
    ensures
        url@ == base_url@ + "/"@ + appid@ + "/"@ + text::first_bytes(object_id@, 2)->Some_0 + "/"@
            + object_id@,
{
    let mut url = String::new();
    url.append(base_url);
    url.append("/");
    url.append(appid);
    url.append("/");
    if let Some(first2) = text::take_bytes(object_id, 2) {
        url.append(first2.as_str());
    }
    url.append("/");
    url.append(object_id);
    url
}

// ---------------------------------------------------------------------------
// Paths
// ---------------------------------------------------------------------------

/// The path that a name in a manifest spells.
pub open spec fn manifest_path(encoded: Seq<char>) -> Result<Seq<char>, PathFault> {
    match outside::base64_decoded(encoded) {
        Some(bytes) => paths::utf16_path(bytes),
        None => Err(PathFault::NotBase64),
    }
}

/// Decodes a path from the manifest: Base64 of UTF-16LE, mostly with a byte
/// order mark, which is stripped.
pub fn decode_file_path(encoded: &str) -> (result: Result<String, PathFault>)
    ensures
        paths::path_in(result) == manifest_path(encoded@),
{
    match outside::base64_decode(encoded) {
        Ok(bytes) => paths::decode_utf16_path(bytes.as_slice()),
        Err(_) => Err(PathFault::NotBase64),
    }
}

// ---------------------------------------------------------------------------
// Blocks
// ---------------------------------------------------------------------------

/// Data that zlib cannot decompress, and why.
#[derive(Clone, Debug, PartialEq, Eq)]
pub struct NotZlib {
    pub cause: String,
}

impl NotZlib {
    /// The words for this error.
    pub open spec fn words(self) -> Seq<char> {
        "zlib decompression failed: "@ + self.cause@
    }

    /// The message for this error.
    pub fn message(&self) -> (s: String)
        ensures
            s@ == self.words(),
    {
        let mut s = String::new();
        s.append("zlib decompression failed: ");
        s.append(self.cause.as_str());
        s
    }
}

/// Decompresses zlib-wrapped data.
pub fn decompress_zlib(data: &[u8]) -> (result: Result<Vec<u8>, NotZlib>)
    ensures
        match outside::zlib_inflated(data@) {
            Ok(out) => result matches Ok(v) && v@ == out,
            Err(words) => result matches Err(NotZlib { cause }) && cause@ == words,
        },
{
    match outside::zlib_inflate(data) {
        Ok(out) => Ok(out),
        Err(e) => Err(NotZlib { cause: outside::io_error_text(&e) }),
    }
}

/// Why a block is not accepted.
#[derive(Clone, Debug)]
pub enum ObjectError {
    /// It cannot be decompressed.
    NotZlib { object_id: String, cause: String },
    /// Its SHA-1 is not its name.
    Mismatch { object_id: String, actual: String },
}

impl ObjectError {
    /// The words for this error.
    pub open spec fn words(self) -> Seq<char> {
        match self {
            ObjectError::NotZlib { object_id, cause } => "failed to decompress object "@
                + object_id@ + ": zlib decompression failed: "@ + cause@,
            ObjectError::Mismatch { object_id, actual } => "SHA-1 mismatch for object "@
                + object_id@ + ": expected "@ + object_id@ + ", got "@ + actual@,
        }
    }

    /// The message for this error.
    pub fn message(&self) -> (s: String)
        ensures
            s@ == self.words(),
    {
        let mut s = String::new();
        match self {
            ObjectError::NotZlib { object_id, cause } => {
                s.append("failed to decompress object ");
                s.append(object_id.as_str());
                s.append(": zlib decompression failed: ");
                s.append(cause.as_str());
            },
            ObjectError::Mismatch { object_id, actual } => {
                s.append("SHA-1 mismatch for object ");
                s.append(object_id.as_str());
                s.append(": expected ");
                s.append(object_id.as_str());
                s.append(", got ");
                s.append(actual.as_str());
            },
        }
        s
    }
}

/// Whether a digest, written in hexadecimal, is a name, in any case.
pub open spec fn names_digest(object_id: Seq<char>, digest: Seq<u8>) -> bool {
    text::lower(numerals::hex(digest)) == text::lower(object_id)
}

/// Accepts the data of a block by its digest.
pub fn accept_object(object_id: &str, data: Vec<u8>, digest: &[u8]) -> (result: Result<
    Vec<u8>,
    ObjectError,
>)
    ensures
        if names_digest(object_id@, digest@) {
            result == Ok::<Vec<u8>, ObjectError>(data)
        } else {
            &&& result matches Err(ObjectError::Mismatch { object_id: id, actual })
            &&& id@ == object_id@
            &&& actual@ == numerals::hex(digest@)
        },
{
    let actual = outside::hex_encode(digest);
    if !text::same_ignoring_case(actual.as_str(), object_id) {
        return Err(ObjectError::Mismatch { object_id: object_id.to_owned(), actual });
    }
    Ok(data)
}

/// Opens a fetched block: decompresses it and holds its SHA-1 against its name.
pub fn open_object(object_id: &str, compressed: &[u8]) -> (result: Result<Vec<u8>, ObjectError>)
    ensures
        match outside::zlib_inflated(compressed@) {
            Err(words) => {
                &&& result matches Err(ObjectError::NotZlib { object_id: id, cause })
                &&& id@ == object_id@
                &&& cause@ == words
            },
            Ok(data) => if names_digest(object_id@, outside::sha1_of(data)) {
                result matches Ok(v) && v@ == data
            } else {
                &&& result matches Err(ObjectError::Mismatch { object_id: id, actual })
                &&& id@ == object_id@
                &&& actual@ == numerals::hex(outside::sha1_of(data))
            },
        },
{
    match decompress_zlib(compressed) {
        Err(e) => Err(ObjectError::NotZlib { object_id: object_id.to_owned(), cause: e.cause }),
        Ok(data) => {
            let digest = outside::sha1_digest(data.as_slice());
            accept_object(object_id, data, digest.as_slice())
        },
    }
}

// ---------------------------------------------------------------------------
// What to list
// ---------------------------------------------------------------------------

/// What a manifest says of its files.
pub open spec fn found_in(files: Seq<(String, ManifestFile)>) -> Seq<listing::Found> {
    Seq::new(
        files.len(),
        |i: int|
            listing::Found {
                path: manifest_path(files[i].0@),
                directory: files[i].1.names_directory(),
                size: files[i].1.fsize,
                chunks: files[i].1.objects.len(),
            },
    )
}

/// What the files of a manifest come to, without any order.
pub open spec fn listed(
    files: Seq<(String, ManifestFile)>,
    filter: Option<&FileFilter>,
) -> listing::TallyModel {
    listing::tally_all(found_in(files), filter)
}

/// Lists the files of a manifest in the order of their paths, and counts what
/// is left out: first the paths that cannot be read, then directories, then
/// what the filter does not keep.
pub fn list_files(files: &Vec<(String, ManifestFile)>, filter: Option<&FileFilter>) -> (tally:
    Tally)
    ensures
        ({
            let found = listed(files@, filter);
            &&& listing::is_sorted_from(found.entries, listing::models(tally.entries@))
            &&& tally.dir_count == found.dir_count
            &&& tally.filtered_out == found.filtered_out
            &&& tally.faults@ == found.faults
        }),
{
    let ghost found = found_in(files@);
    let mut tally = Tally::new();
    let mut i: usize = 0;
    while i < files.len()
        invariant
            i <= files@.len(),
            found == found_in(files@),
            tally.model() == listing::tally_all(found.take(i as int), filter),
            tally.dir_count <= i,
            tally.filtered_out <= i,
        decreases files@.len() - i,
    {
        proof {
            assert(found.take(i + 1).drop_last() =~= found.take(i as int));
            assert(found.take(i + 1).last() == found[i as int]);
        }
        let file = &files[i].1;
        let path = decode_file_path(files[i].0.as_str());
        tally.add_entry(path, file.is_directory(), file.fsize, file.objects.len(), filter);
        i = i + 1;
    }
    assert(found.take(i as int) =~= found);
    tally.sorted()
}

// ---------------------------------------------------------------------------
// What to download
// ---------------------------------------------------------------------------

/// A file ready for download.
#[derive(Debug)]
pub struct ResolvedFile {
    pub rel_path: String,
    pub fsize: u64,
    pub objects: Vec<String>,
    pub objects_fsize: Vec<u64>,
}

/// What is known of a file to download: its path, its size, its blocks and
/// their sizes.
pub type FileModel = (Seq<char>, u64, Seq<Seq<char>>, Seq<u64>);

impl ResolvedFile {
    /// What is known of this file.
    pub open spec fn model(self) -> FileModel {
        (self.rel_path@, self.fsize, text::texts(self.objects@), self.objects_fsize@)
    }
}

/// What is known of the files of a list.
pub open spec fn file_models(files: Seq<ResolvedFile>) -> Seq<FileModel> {
    Seq::new(files.len(), |i: int| files[i].model())
}

/// What is to be done about a manifest.
#[derive(Debug)]
pub struct DownloadPlan {
    /// The files to download.
    pub entries: Vec<ResolvedFile>,
    /// The directories to create.
    pub dirs: Vec<String>,
    pub filtered_out: usize,
    /// The paths that could not be read.
    pub faults: Vec<PathFault>,
}

/// What a plan says.
pub struct PlanModel {
    pub entries: Seq<FileModel>,
    pub dirs: Seq<Seq<char>>,
    pub filtered_out: nat,
    pub faults: Seq<PathFault>,
}

/// A plan for nothing.
pub open spec fn empty_plan() -> PlanModel {
    PlanModel {
        entries: Seq::empty(),
        dirs: Seq::empty(),
        filtered_out: 0,
        faults: Seq::empty(),
    }
}

/// A plan with one more entry of a manifest taken into account: the filter
/// decides about directories too.
pub open spec fn planned_with(
    plan: PlanModel,
    path: Result<Seq<char>, PathFault>,
    file: ManifestFile,
    filter: Option<&FileFilter>,
) -> PlanModel {
    match path {
        Err(fault) => PlanModel { faults: plan.faults.push(fault), ..plan },
        Ok(path) => if !listing::passes(filter, path) {
            PlanModel { filtered_out: plan.filtered_out + 1, ..plan }
        } else if file.names_directory() {
            PlanModel { dirs: plan.dirs.push(path), ..plan }
        } else {
            PlanModel {
                entries: plan.entries.push(
                    (path, file.fsize, text::texts(file.objects@), file.objects_fsize@),
                ),
                ..plan
            }
        },
    }
}

/// What is to be done about the files of a manifest.
pub open spec fn planned(
    files: Seq<(String, ManifestFile)>,
    filter: Option<&FileFilter>,
) -> PlanModel
    decreases files.len(),
{
    if files.len() == 0 {
        empty_plan()
    } else {
        let (encoded, file) = files.last();
        planned_with(planned(files.drop_last(), filter), manifest_path(encoded@), file, filter)
    }
}

/// A copy of a list of strings.
pub fn copy_texts(list: &Vec<String>) -> (copy: Vec<String>)
    ensures
        text::texts(copy@) == text::texts(list@),
{
    let mut copy: Vec<String> = Vec::new();
    let mut i: usize = 0;
    while i < list.len()
        invariant
            i <= list@.len(),
            copy@.len() == i,
            forall|j: int| 0 <= j < i ==> (#[trigger] copy@[j])@ == list@[j]@,
        decreases list@.len() - i,
    {
        copy.push(list[i].clone());
        i = i + 1;
    }
    assert(text::texts(copy@) =~= text::texts(list@));
    copy
}

/// A copy of a list of sizes.
pub fn copy_sizes(list: &Vec<u64>) -> (copy: Vec<u64>)
    ensures
        copy@ == list@,
{
    let mut copy: Vec<u64> = Vec::new();
    let mut i: usize = 0;
    while i < list.len()
        invariant
            i <= list@.len(),
            copy@ == list@.take(i as int),
        decreases list@.len() - i,
    {
        copy.push(list[i]);
        assert(copy@ =~= list@.take(i + 1));
        i = i + 1;
    }
    assert(copy@ =~= list@);
    copy
}

impl DownloadPlan {
    /// What this plan says.
    pub open spec fn model(self) -> PlanModel {
        PlanModel {
            entries: file_models(self.entries@),
            dirs: text::texts(self.dirs@),
            filtered_out: self.filtered_out as nat,
            faults: self.faults@,
        }
    }

    /// A plan for nothing.
    pub fn new() -> (plan: DownloadPlan)
        ensures
            plan.model() == empty_plan(),
    {
        let plan = DownloadPlan {
            entries: Vec::new(),
            dirs: Vec::new(),
            filtered_out: 0,
            faults: Vec::new(),
        };
        assert(file_models(plan.entries@) =~= Seq::empty());
        assert(text::texts(plan.dirs@) =~= Seq::empty());
        plan
    }

    /// Takes one entry of a manifest into account.
    pub fn add_entry(
        &mut self,
        path: Result<String, PathFault>,
        file: &ManifestFile,
        filter: Option<&FileFilter>,
    )
        requires
            old(self).filtered_out < usize::MAX,
        ensures
            final(self).model() == planned_with(
                old(self).model(),
                paths::path_in(path),
                *file,
                filter,
            ),
            final(self).filtered_out <= old(self).filtered_out + 1,
    {
        match path {
            Err(fault) => {
                self.faults.push(fault);
            },
            Ok(path) => {
                if !listing::let_through(filter, path.as_str()) {
                    self.filtered_out = self.filtered_out + 1;
                } else if file.is_directory() {
                    let ghost before = self.dirs@;
                    let ghost name = path@;
                    self.dirs.push(path);
                    assert(text::texts(self.dirs@) =~= text::texts(before).push(name));
                } else {
                    let ghost before = self.entries@;
                    let entry = ResolvedFile {
                        rel_path: path,
                        fsize: file.fsize,
                        objects: copy_texts(&file.objects),
                        objects_fsize: copy_sizes(&file.objects_fsize),
                    };
                    let ghost model = entry.model();
                    self.entries.push(entry);
                    assert(file_models(self.entries@) =~= file_models(before).push(model));
                }
            },
        }
    }

    /// The sizes of the files to download.
    pub fn sizes(&self) -> (sizes: Vec<u64>)
        ensures
            sizes@ == Seq::new(self.entries@.len(), |i: int| self.entries@[i].fsize),
    {
        let mut sizes: Vec<u64> = Vec::new();
        let mut i: usize = 0;
        while i < self.entries.len()
            invariant
                i <= self.entries@.len(),
                sizes@.len() == i,
                forall|j: int| 0 <= j < i ==> #[trigger] sizes@[j] == self.entries@[j].fsize,
            decreases self.entries@.len() - i,
        {
            sizes.push(self.entries[i].fsize);
            i = i + 1;
        }
        assert(sizes@ =~= Seq::new(self.entries@.len(), |i: int| self.entries@[i].fsize));
        sizes
    }
}

/// Plans the download of a manifest's files.
pub fn plan_download(
    files: &Vec<(String, ManifestFile)>,
    filter: Option<&FileFilter>,
) -> (plan: DownloadPlan)
    ensures
        plan.model() == planned(files@, filter),
{
    let mut plan = DownloadPlan::new();
    let mut i: usize = 0;
    assert(files@.take(0) =~= Seq::empty());
    while i < files.len()
        invariant
            i <= files@.len(),
            plan.model() == planned(files@.take(i as int), filter),
            plan.filtered_out <= i,
        decreases files@.len() - i,
    {
        proof {
            assert(files@.take(i + 1).drop_last() =~= files@.take(i as int));
            assert(files@.take(i + 1).last() == files@[i as int]);
        }
        let path = decode_file_path(files[i].0.as_str());
        plan.add_entry(path, &files[i].1, filter);
        i = i + 1;
    }
    assert(files@.take(i as int) =~= files@);
    plan
}

/// The sum of the sizes of all files in a manifest.
pub open spec fn manifest_bytes(files: Seq<(String, ManifestFile)>) -> nat
    decreases files.len(),
{
    if files.len() == 0 {
        0
    } else {
        manifest_bytes(files.drop_last()) + files.last().1.fsize as nat
    }
}

/// Computes `manifest_bytes`.
pub fn manifest_size(files: &Vec<(String, ManifestFile)>) -> (total: u128)
    ensures
        total == manifest_bytes(files@),
{
    let mut total: u128 = 0;
    let mut i: usize = 0;
    assert(files@.take(0) =~= Seq::empty());
    while i < files.len()
        invariant
            i <= files@.len(),
            total == manifest_bytes(files@.take(i as int)),
            total <= i * 0xffff_ffff_ffff_ffff,
        decreases files@.len() - i,
    {
        proof {
            assert(files@.take(i + 1).drop_last() =~= files@.take(i as int));
            assert(i < 0xffff_ffff_ffff_ffff);
        }
        total = total + files[i].1.fsize as u128;
        i = i + 1;
    }
    assert(files@.take(i as int) =~= files@);
    total
}

/// How many workers download `file_count` files.
pub fn file_workers(file_count: usize) -> (workers: usize)
    ensures
        workers == blocks::least(PARALLEL_FILES as int, file_count as int),
{
    if PARALLEL_FILES < file_count {
        PARALLEL_FILES
    } else {
        file_count
    }
}

/// A download in which files failed.
#[derive(Clone, Copy, Debug, PartialEq, Eq, Structural)]
pub struct DownloadFailed {
    pub failed: usize,
}

impl DownloadFailed {
    /// The words for this error.
    pub open spec fn words(self) -> Seq<char> {
        numerals::decimal(self.failed as nat) + " file(s) failed to download"@
    }

    /// The message for this error.
    pub fn message(&self) -> (s: String)
        ensures
            s@ == self.words(),
    {
        let mut s = String::new();
        numerals::push_decimal(&mut s, self.failed as u128);
        s.append(" file(s) failed to download");
        s
    }
}

/// Ends a download: it succeeds exactly where no file failed.
pub fn run_outcome(failed: usize) -> (result: Result<(), DownloadFailed>)
    ensures
        result == (if failed > 0 {
            Err(DownloadFailed { failed })
        } else {
            Ok(())
        }),
{
    if failed > 0 {
        Err(DownloadFailed { failed })
    } else {
        Ok(())
    }
}

// ---------------------------------------------------------------------------
// Laws
// ---------------------------------------------------------------------------

/// Every entry of a manifest is accounted for: it is a file to download, a
/// directory, filtered out, or a path that cannot be read.
pub proof fn law_plan_accounts_for_every_entry(
    files: Seq<(String, ManifestFile)>,
    filter: Option<&FileFilter>,
)
    ensures
        ({
            let plan = planned(files, filter);
            plan.entries.len() + plan.dirs.len() + plan.filtered_out + plan.faults.len()
                == files.len()
        }),
    decreases files.len(),
{
    if files.len() > 0 {
        law_plan_accounts_for_every_entry(files.drop_last(), filter);
    }
}

/// What a check lists is what a download fetches: the same paths with the same
/// sizes and numbers of blocks.
pub proof fn law_check_lists_what_download_fetches(
    files: Seq<(String, ManifestFile)>,
    filter: Option<&FileFilter>,
)
    ensures
        ({
            let found = listed(files, filter).entries;
            let fetched = planned(files, filter).entries;
            &&& found.len() == fetched.len()
            &&& forall|i: int|
                0 <= i < found.len() ==> (#[trigger] found[i]).0 == fetched[i].0 && found[i].1
                    == fetched[i].1 && found[i].2 == fetched[i].2.len()
        }),
    decreases files.len(),
{
    if files.len() > 0 {
        assert(found_in(files).drop_last() =~= found_in(files.drop_last()));
        law_check_lists_what_download_fetches(files.drop_last(), filter);
        let found = listed(files, filter).entries;
        let fetched = planned(files, filter).entries;
        let fewer = listed(files.drop_last(), filter).entries;
        assert forall|i: int| 0 <= i < found.len() implies (#[trigger] found[i]).0
            == fetched[i].0 && found[i].1 == fetched[i].1 && found[i].2
            == fetched[i].2.len() by {
            if i < fewer.len() {
                assert(found[i] == fewer[i]);
            }
        }
    }
}

/// A file to download is seen as its path, its size, its blocks and their sizes,
/// each list in its own order; a plan is seen as what it holds.
pub proof fn law_files_are_seen_whole(file: ResolvedFile, files: Seq<ResolvedFile>, plan: DownloadPlan)
    ensures
        file.model().0 == file.rel_path@,
        file.model().1 == file.fsize,
        file.model().2.len() == file.objects@.len(),
        forall|i: int|
            0 <= i < file.objects@.len() ==> #[trigger] file.model().2[i] == file.objects@[i]@,
        file.model().3.len() == file.objects_fsize@.len(),
        forall|i: int|
            0 <= i < file.objects_fsize@.len() ==> #[trigger] file.model().3[i]
                == file.objects_fsize@[i],
        file_models(files).len() == files.len(),
        forall|i: int| 0 <= i < files.len() ==> #[trigger] file_models(files)[i] == files[i].model(),
        plan.model().entries == file_models(plan.entries@),
        plan.model().dirs.len() == plan.dirs@.len(),
        forall|i: int|
            0 <= i < plan.dirs@.len() ==> #[trigger] plan.model().dirs[i] == plan.dirs@[i]@,
        plan.model().filtered_out == plan.filtered_out,
        plan.model().faults == plan.faults@,
{
}

/// What the check reads off an entry of a manifest: its path, whether its only
/// block is the mark of a directory, its size and its number of blocks.
pub proof fn law_entries_are_read_off(files: Seq<(String, ManifestFile)>, i: int)
    requires
        0 <= i < files.len(),
    ensures
        found_in(files).len() == files.len(),
        found_in(files)[i].path == manifest_path(files[i].0@),
        found_in(files)[i].directory <==> (files[i].1.objects@.len() == 1
            && files[i].1.objects@[0]@ == "__DIR__"@),
        found_in(files)[i].size == files[i].1.fsize,
        found_in(files)[i].chunks == files[i].1.objects@.len(),
{
}

/// Entries of a manifest that are downloaded: their path can be read and passes
/// the filter, and they are no directories.
pub open spec fn is_downloaded(filter: Option<&FileFilter>) -> spec_fn(
    (String, ManifestFile),
) -> bool {
    |f: (String, ManifestFile)|
        manifest_path(f.0@) is Ok && listing::goes_through(filter, manifest_path(f.0@)->Ok_0) && !(
        f.1.objects@.len() == 1 && f.1.objects@[0]@ == "__DIR__"@)
}

/// Entries of a manifest that are created: their path can be read and passes the
/// filter, and they are directories.
pub open spec fn is_created(filter: Option<&FileFilter>) -> spec_fn(
    (String, ManifestFile),
) -> bool {
    |f: (String, ManifestFile)|
        manifest_path(f.0@) is Ok && listing::goes_through(filter, manifest_path(f.0@)->Ok_0)
            && f.1.objects@.len() == 1 && f.1.objects@[0]@ == "__DIR__"@
}

/// Entries of a manifest that are passed over: their path can be read and does
/// not pass the filter.
pub open spec fn is_passed_over(filter: Option<&FileFilter>) -> spec_fn(
    (String, ManifestFile),
) -> bool {
    |f: (String, ManifestFile)|
        manifest_path(f.0@) is Ok && !listing::goes_through(filter, manifest_path(f.0@)->Ok_0)
}

/// Entries of a manifest whose path cannot be read.
pub open spec fn is_unnamed() -> spec_fn((String, ManifestFile)) -> bool {
    |f: (String, ManifestFile)| manifest_path(f.0@) is Err
}

/// Every file that is planned is an entry of the manifest, in the manifest's
/// order, with that entry's own size and with its block names and block sizes as
/// they stand there; and every entry that is to be downloaded is planned. The
/// directories, what is passed over and what cannot be read are those of the
/// manifest, too.
pub proof fn law_plan_keeps_blocks_and_sizes(
    files: Seq<(String, ManifestFile)>,
    filter: Option<&FileFilter>,
)
    ensures
        ({
            let plan = planned(files, filter);
            let kept = files.filter(is_downloaded(filter));
            let dirs = files.filter(is_created(filter));
            let unnamed = files.filter(is_unnamed());
            &&& plan.entries.len() == kept.len()
            &&& forall|k: int|
                0 <= k < kept.len() ==> {
                    &&& Ok::<Seq<char>, PathFault>((#[trigger] plan.entries[k]).0)
                        == manifest_path(kept[k].0@)
                    &&& plan.entries[k].1 == kept[k].1.fsize
                    &&& plan.entries[k].2.len() == kept[k].1.objects@.len()
                    &&& plan.entries[k].3 == kept[k].1.objects_fsize@
                }
            &&& forall|k: int, i: int|
                0 <= k < kept.len() && 0 <= i < kept[k].1.objects@.len() ==> #[trigger]
                    plan.entries[k].2[i] == kept[k].1.objects@[i]@
            &&& plan.dirs.len() == dirs.len()
            &&& forall|k: int|
                0 <= k < dirs.len() ==> Ok::<Seq<char>, PathFault>(#[trigger] plan.dirs[k])
                    == manifest_path(dirs[k].0@)
            &&& plan.filtered_out == files.filter(is_passed_over(filter)).len()
            &&& plan.faults.len() == unnamed.len()
            &&& forall|k: int|
                0 <= k < unnamed.len() ==> Err::<Seq<char>, PathFault>(#[trigger] plan.faults[k])
                    == manifest_path(unnamed[k].0@)
        }),
    decreases files.len(),
{
    reveal(Seq::filter);
    if files.len() > 0 {
        law_plan_keeps_blocks_and_sizes(files.drop_last(), filter);
        let plan = planned(files, filter);
        let before = planned(files.drop_last(), filter);
        let kept = files.filter(is_downloaded(filter));
        assert forall|k: int, i: int|
            0 <= k < kept.len() && 0 <= i < kept[k].1.objects@.len() implies #[trigger]
            plan.entries[k].2[i] == kept[k].1.objects@[i]@ by {
            if k < before.entries.len() {
                assert(plan.entries[k] == before.entries[k]);
                assert(kept[k] == files.drop_last().filter(is_downloaded(filter))[k]);
            }
        }
    }
}

/// Each planned file has an entry of the manifest that it was made from, block
/// for block and size for size.
pub proof fn law_planned_files_are_entries(
    files: Seq<(String, ManifestFile)>,
    filter: Option<&FileFilter>,
    k: int,
)
    requires
        0 <= k < planned(files, filter).entries.len(),
    ensures
        ({
            let (path, size, names, sizes) = planned(files, filter).entries[k];
            exists|n: int|
                {
                    &&& 0 <= n < files.len()
                    &&& manifest_path((#[trigger] files[n]).0@) == Ok::<Seq<char>, PathFault>(path)
                    &&& files[n].1.fsize == size
                    &&& files[n].1.objects@.len() == names.len()
                    &&& forall|i: int|
                        0 <= i < names.len() ==> #[trigger] names[i] == files[n].1.objects@[i]@
                    &&& files[n].1.objects_fsize@.len() == sizes.len()
                    &&& forall|i: int|
                        0 <= i < sizes.len() ==> #[trigger] sizes[i]
                            == files[n].1.objects_fsize@[i]
                }
        }),
    decreases files.len(),
{
    let fewer = files.drop_last();
    let before = planned(fewer, filter).entries;
    if k < before.len() {
        law_planned_files_are_entries(fewer, filter, k);
        let (path, size, names, sizes) = before[k];
        assert(planned(files, filter).entries[k] == before[k]);
        let n = choose|n: int|
            {
                &&& 0 <= n < fewer.len()
                &&& manifest_path((#[trigger] fewer[n]).0@) == Ok::<Seq<char>, PathFault>(path)
                &&& fewer[n].1.fsize == size
                &&& fewer[n].1.objects@.len() == names.len()
                &&& forall|i: int|
                    0 <= i < names.len() ==> #[trigger] names[i] == fewer[n].1.objects@[i]@
                &&& fewer[n].1.objects_fsize@.len() == sizes.len()
                &&& forall|i: int|
                    0 <= i < sizes.len() ==> #[trigger] sizes[i] == fewer[n].1.objects_fsize@[i]
            };
        assert(files[n] == fewer[n]);
    } else {
        assert(files[files.len() - 1] == files.last());
    }
}

/// A path that was written into a manifest is read out of it again: Base64 of
/// UTF-16LE, with a byte order mark. What is not Base64, or has half a unit at its
/// end, cannot be read.
pub proof fn law_manifest_paths_are_read(encoded: Seq<char>, path: Seq<char>)
    ensures
        outside::base64_decoded(encoded) == Some(
            paths::unit_bytes(seq![0xFEFFu16] + paths::utf16_units(path)),
        ) ==> manifest_path(encoded) == Ok::<Seq<char>, PathFault>(path),
        outside::base64_decoded(encoded) is None ==> manifest_path(encoded) == Err::<
            Seq<char>,
            PathFault,
        >(PathFault::NotBase64),
        (outside::base64_decoded(encoded) matches Some(bytes) && bytes.len() % 2 == 1)
            ==> manifest_path(encoded) == Err::<Seq<char>, PathFault>(PathFault::OddLength),
{
    paths::law_utf16_path_round_trip(path);
}

/// An address is what begins with one of the two schemes; a hash is forty
/// hexadecimal digits, in either case.
pub proof fn law_addresses_and_hashes(s: Seq<char>, rest: Seq<char>)
    ensures
        is_address("http://"@ + rest),
        is_address("https://"@ + rest),
        is_address(s) ==> exists|r: Seq<char>|
            s == #[trigger] ("http://"@ + r) || s == "https://"@ + r,
        is_sha1(s) <==> (s.len() == 40 && forall|i: int|
            0 <= i < 40 ==> ('0' <= #[trigger] s[i] <= '9' || 'a' <= s[i] <= 'f' || 'A' <= s[i]
                <= 'F')),
{
    text::law_parts_are_found(Seq::empty(), "http://"@, rest);
    text::law_parts_are_found(Seq::empty(), "https://"@, rest);
    text::law_found_parts_are_there(s, "http://"@);
    text::law_found_parts_are_there(s, "https://"@);
    if text::begins(s, "https://"@) {
        let r = choose|r: Seq<char>| s == #[trigger] ("https://"@ + r);
        let t = "http://"@ + r;
        assert(s == "https://"@ + r);
    }
    if is_sha1(s) {
        assert forall|i: int| 0 <= i < 40 implies ('0' <= #[trigger] s[i] <= '9' || 'a' <= s[i]
            <= 'f' || 'A' <= s[i] <= 'F') by {
            assert(text::hex_digit(s[i]));
        }
    }
}

/// A block is accepted by its name exactly where the name spells its digest: two
/// hexadecimal digits for each byte, in order and in either case.
pub proof fn law_names_spell_digests(object_id: Seq<char>, digest: Seq<u8>)
    ensures
        names_digest(object_id, digest) <==> {
            &&& object_id.len() == 2 * digest.len()
            &&& text::all_hex_digits(object_id)
            &&& forall|i: int|
                0 <= i < digest.len() ==> 16 * numerals::nibble(object_id[2 * i])
                    + numerals::nibble(object_id[2 * i + 1]) == #[trigger] digest[i]
        },
{
    let spelt = numerals::hex(digest);
    let n = digest.len() as int;
    if digest.len() > 0 {
        numerals::law_hex_spells_each_byte(digest, 0);
    }
    assert(spelt.len() == 2 * n);
    assert forall|j: int| 0 <= j < 2 * n implies text::hex_digit(#[trigger] spelt[j]) && !('A'
        <= spelt[j] <= 'F') by {
        numerals::law_hex_spells_each_byte(digest, j / 2);
        assert(j == 2 * (j / 2) || j == 2 * (j / 2) + 1);
    }
    if names_digest(object_id, digest) {
        let x = text::lower(spelt);
        let y = text::lower(object_id);
        assert(x.len() == y.len());
        assert forall|j: int| 0 <= j < object_id.len() implies text::hex_digit(
            #[trigger] object_id[j],
        ) && numerals::nibble(object_id[j]) == numerals::nibble(spelt[j]) by {
            assert(x[j] == y[j]);
            lemma_digits_in_either_case(spelt[j], object_id[j]);
        }
        assert forall|i: int| 0 <= i < digest.len() implies 16 * numerals::nibble(object_id[2 * i])
            + numerals::nibble(object_id[2 * i + 1]) == #[trigger] digest[i] by {
            numerals::law_hex_spells_each_byte(digest, i);
        }
    }
    if object_id.len() == 2 * digest.len() && text::all_hex_digits(object_id) && forall|i: int|
        0 <= i < digest.len() ==> 16 * numerals::nibble(object_id[2 * i]) + numerals::nibble(
            object_id[2 * i + 1],
        ) == #[trigger] digest[i] {
        assert forall|j: int| 0 <= j < 2 * n implies text::lower(spelt)[j] == text::lower(
            object_id,
        )[j] by {
            let i = j / 2;
            numerals::law_hex_spells_each_byte(digest, i);
            assert(0 <= i < digest.len());
            assert(digest[i] == digest[i]);
            assert(text::hex_digit(object_id[2 * i]) && text::hex_digit(object_id[2 * i + 1]));
            lemma_digits_in_either_case(spelt[2 * i], object_id[2 * i]);
            lemma_digits_in_either_case(spelt[2 * i + 1], object_id[2 * i + 1]);
            assert(j == 2 * i || j == 2 * i + 1);
        }
        assert(text::lower(spelt) =~= text::lower(object_id));
    }
}

/// Hexadecimal digits of one value are one digit in either case.
proof fn lemma_digits_in_either_case(small: char, c: char)
    requires
        text::hex_digit(small),
        !('A' <= small <= 'F'),
    ensures
        text::lower_char(small) == text::lower_char(c) ==> text::hex_digit(c) && numerals::nibble(
            c,
        ) == numerals::nibble(small),
        text::hex_digit(c) && numerals::nibble(c) == numerals::nibble(small) ==> text::lower_char(
            small,
        ) == text::lower_char(c),
        0 <= numerals::nibble(small) < 16,
        text::hex_digit(c) ==> 0 <= numerals::nibble(c) < 16,
{
}

/// The size of two manifests together is the sum of their sizes, and that of one
/// entry its own.
pub proof fn law_manifest_sizes_add_up(
    a: Seq<(String, ManifestFile)>,
    b: Seq<(String, ManifestFile)>,
    entry: (String, ManifestFile),
)
    ensures
        manifest_bytes(Seq::empty()) == 0,
        manifest_bytes(seq![entry]) == entry.1.fsize,
        manifest_bytes(a + b) == manifest_bytes(a) + manifest_bytes(b),
    decreases b.len(),
{
    assert(seq![entry].drop_last() =~= Seq::empty());
    if b.len() == 0 {
        assert(a + b =~= a);
    } else {
        assert((a + b).drop_last() =~= a + b.drop_last());
        law_manifest_sizes_add_up(a, b.drop_last(), entry);
    }
}

/// The directory of an application ends with the application's id, behind a
/// slash, and differs for different ids.
pub proof fn law_each_application_has_its_directory(a: Seq<char>, b: Seq<char>)
    ensures
        text::ends(base_address(a), seq!['/'] + a),
        text::begins(base_address(a), "http://download2.nexon.net/Game/nxl/games/"@),
        base_address(a) == base_address(b) ==> a == b,
{
    reveal_strlit("http://download2.nexon.net/Game/nxl/games/");
    let head = "http://download2.nexon.net/Game/nxl/games/"@;
    let x = base_address(a);
    assert(x.subrange(head.len() - 1, x.len() as int) =~= seq!['/'] + a);
    assert(x.subrange(0, head.len() as int) =~= head);
    assert(x.subrange(head.len() as int, x.len() as int) =~= a);
    let y = base_address(b);
    assert(y.subrange(head.len() as int, y.len() as int) =~= b);
}

/// A message about a manifest or a block quotes what it is about, and what came
/// instead of what was expected.
pub proof fn law_nxl_messages(
    quoted: String,
    cause: String,
    object_id: String,
    actual: String,
    failed: usize,
)
    ensures
        (InvalidHash { text: quoted }).words() == "invalid manifest hash '"@ + quoted@
            + "': must be a 40-character hex string or an http(s) URL"@,
        EmptyHash.words() == "manifest hash is empty"@,
        (NotZlib { cause }).words() == "zlib decompression failed: "@ + cause@,
        (ObjectError::NotZlib { object_id, cause }).words() == "failed to decompress object "@
            + object_id@ + ": zlib decompression failed: "@ + cause@,
        (ObjectError::Mismatch { object_id, actual }).words() == "SHA-1 mismatch for object "@
            + object_id@ + ": expected "@ + object_id@ + ", got "@ + actual@,
        (DownloadFailed { failed }).words() == numerals::decimal(failed as nat)
            + " file(s) failed to download"@,
{
}

/// Ten files are downloaded at once, and fewer only where there are fewer.
pub proof fn law_ten_files_at_once(file_count: int)
    ensures
        file_count >= 10 ==> blocks::least(PARALLEL_FILES as int, file_count) == 10,
        file_count < 10 ==> blocks::least(PARALLEL_FILES as int, file_count) == file_count,
{
}

} // verus!
