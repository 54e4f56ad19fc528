//! NGM clients: where the game info and the manifest are found, and what a
//! manifest lists. Its paths are Base64 of UTF-8.
use vstd::prelude::*;
use vstd::string::*;
use crate::filter::FileFilter;
use crate::listing;
use crate::listing::Tally;
use crate::outside;
use crate::paths;
use crate::paths::PathFault;
use crate::text;

verus! {

/// What the service says about a game.
#[derive(Debug)]
pub struct GameInfo {
    pub game_name: String,
    pub setup_file_url: String,
    pub manifest_name: Option<String>,
}

/// A single file entry inside the manifest.
#[derive(Debug, Clone)]
pub struct NgmManifestFile {
    /// Chunk index (as text) and SHA-1 of each chunk, in no particular order.
    pub objects: Vec<(String, String)>,
    /// Decompressed file size in bytes.
    pub uncompressed_size: u64,
    /// SHA-1 of the complete file.
    pub hash: String,
}

/// A manifest: its files, in no particular order, and what it says of itself.
#[derive(Debug)]
pub struct NgmManifest {
    pub files: Vec<(String, NgmManifestFile)>,
    pub version: Option<String>,
    pub total_uncompressed_size: Option<u64>,
}

impl NgmManifestFile {
    /// Whether this entry stands for a directory: it has no chunks, or a single
    /// one that says so.
    pub open spec fn names_directory(self) -> bool {
        self.objects@.len() == 0 || (self.objects@.len() == 1 && self.objects@[0].1@
            == "__DIR__"@)
    }

    /// Whether this entry stands for a directory.
    pub fn is_directory(&self) -> (r: bool)
        ensures
            r == self.names_directory(),
    {
        self.objects.len() == 0 || (self.objects.len() == 1 && text::same_text(
            self.objects[0].1.as_str(),
            "__DIR__",
        ))
    }
}

/// The address of a game's info.
pub fn info_url(appid: &str) -> (url: String)
    ensures
        url@ == "https://ngmapi.nexon.com/game-info/"@ + appid@,
{
    let mut url = String::new();
    url.append("https://ngmapi.nexon.com/game-info/");
    url.append(appid);
    url
}

impl GameInfo {
    /// The address of the manifest, if there is one.
    pub open spec fn manifest_address(self) -> Option<Seq<char>> {
        match self.manifest_name {
            Some(name) => Some(
                text::without_trailing(self.setup_file_url@, '/') + "/"@ + name@,
            ),
            None => None,
        }
    }

    /// The address of the manifest, if there is one: its name beneath the
    /// setup address, with one slash between them.
    pub fn manifest_url(&self) -> (url: Option<String>)
        ensures
            match self.manifest_address() {
                Some(address) => url matches Some(u) && u@ == address,
                None => url is None,
            },
    {
        match &self.manifest_name {
            Some(name) => {
                let chars = text::to_chars(self.setup_file_url.as_str());
                let mut url = text::from_chars(text::trim_trailing(chars.as_slice(), '/'));
                url.append("/");
                url.append(name.as_str());
                Some(url)
            },
            None => None,
        }
    }
}

/// The path that a name in a manifest spells.
pub open spec fn manifest_path(encoded: Seq<char>) -> Result<Seq<char>, PathFault> {
    match outside::base64_decoded(encoded) {
        Some(bytes) => paths::utf8_path(bytes),
        None => Err(PathFault::NotBase64),
    }
}

/// Decodes a path from the manifest: Base64 of UTF-8.
pub fn decode_path(encoded: &str) -> (result: Result<String, PathFault>)
    ensures
        paths::path_in(result) == manifest_path(encoded@),
{
    match outside::base64_decode(encoded) {
        Ok(bytes) => paths::decode_utf8_path(bytes),
        Err(_) => Err(PathFault::NotBase64),
    }
}

/// What a manifest says of its files.
pub open spec fn found_in(files: Seq<(String, NgmManifestFile)>) -> Seq<listing::Found> {
    Seq::new(
        files.len(),
        |i: int|
            listing::Found {
                path: manifest_path(files[i].0@),
                directory: files[i].1.names_directory(),
                size: files[i].1.uncompressed_size,
                chunks: files[i].1.objects.len(),
            },
    )
}

/// What the files of a manifest come to, without any order.
pub open spec fn listed(
    files: Seq<(String, NgmManifestFile)>,
    filter: Option<&FileFilter>,
) -> listing::TallyModel {
    listing::tally_all(found_in(files), filter)
}

/// Lists the files of a manifest in the order of their paths, and counts what
/// is left out: first the paths that cannot be read, then directories, then
/// what the filter does not keep.
pub fn list_files(
    files: &Vec<(String, NgmManifestFile)>,
    filter: Option<&FileFilter>,
) -> (tally: Tally)
    ensures
        ({
            let found = listed(files@, filter);
            &&& listing::is_sorted_from(found.entries, listing::models(tally.entries@))
            &&& tally.dir_count == found.dir_count
            &&& tally.filtered_out == found.filtered_out
            &&& tally.faults@ == found.faults
        }),
{
    let ghost found = found_in(files@);
    let mut tally = Tally::new();
    let mut i: usize = 0;
    while i < files.len()
        invariant
            i <= files@.len(),
            found == found_in(files@),
            tally.model() == listing::tally_all(found.take(i as int), filter),
            tally.dir_count <= i,
            tally.filtered_out <= i,
        decreases files@.len() - i,
    {
        proof {
            assert(found.take(i + 1).drop_last() =~= found.take(i as int));
            assert(found.take(i + 1).last() == found[i as int]);
        }
        let file = &files[i].1;
        let path = decode_path(files[i].0.as_str());
        tally.add_entry(
            path,
            file.is_directory(),
            file.uncompressed_size,
            file.objects.len(),
            filter,
        );
        i = i + 1;
    }
    assert(found.take(i as int) =~= found);
    tally.sorted()
}

// ---------------------------------------------------------------------------
// Laws
// ---------------------------------------------------------------------------

/// A slash more or less at the end of the setup address makes no difference.
pub proof fn law_trailing_slashes_do_not_matter(a: GameInfo, b: GameInfo)
    requires
        a.manifest_name == b.manifest_name,
        b.setup_file_url@ == a.setup_file_url@.push('/'),
    ensures
        a.manifest_address() == b.manifest_address(),
{
    assert(b.setup_file_url@.drop_last() =~= a.setup_file_url@);
}

/// A manifest is taken entry by entry: each name is read as a path, and its size
/// and its chunks are those that the manifest gives.
pub proof fn law_files_are_taken_one_by_one(files: Seq<(String, NgmManifestFile)>, i: int)
    requires
        0 <= i < files.len(),
    ensures
        found_in(files).len() == files.len(),
        found_in(files)[i].path == manifest_path(files[i].0@),
        found_in(files)[i].size == files[i].1.uncompressed_size,
        found_in(files)[i].chunks == files[i].1.objects@.len(),
        found_in(files)[i].directory <==> {
            ||| files[i].1.objects@.len() == 0
            ||| files[i].1.objects@.len() == 1 && files[i].1.objects@[0].1@ == "__DIR__"@
        },
{
}

/// The manifest lies right beneath the setup address, however many slashes that
/// ends with; a game without a name for it has none.
pub proof fn law_manifest_lies_beneath_the_setup(info: GameInfo, base: Seq<char>, n: nat)
    requires
        base.len() == 0 || base.last() != '/',
        info.setup_file_url@ == base + Seq::new(n, |i: int| '/'),
    ensures
        info.manifest_address() is Some <==> info.manifest_name is Some,
        info.manifest_name matches Some(name) ==> info.manifest_address() == Some(
            base + "/"@ + name@,
        ),
{
    text::law_trailing_characters_go(base, '/', n);
}

/// A name that is Base64 of a path's UTF-8 reads as that path; one whose bytes
/// are no UTF-8, or that is no Base64, is refused.
pub proof fn law_manifest_paths_are_utf8(encoded: Seq<char>, path: Seq<char>)
    ensures
        outside::base64_decoded(encoded) == Some(vstd::utf8::encode_utf8(path)) ==> manifest_path(
            encoded,
        ) == Ok::<Seq<char>, PathFault>(path),
        outside::base64_decoded(encoded) is None <==> manifest_path(encoded) == Err::<
            Seq<char>,
            PathFault,
        >(PathFault::NotBase64),
        outside::base64_decoded(encoded) matches Some(bytes) && !vstd::utf8::valid_utf8(bytes)
            ==> manifest_path(encoded) == Err::<Seq<char>, PathFault>(PathFault::NotUtf8),
{
    paths::law_utf8_path_round_trip(path, Seq::empty());
    if outside::base64_decoded(encoded) is Some {
        paths::law_utf8_path_round_trip(path, outside::base64_decoded(encoded)->Some_0);
    }
}

/// A manifest is listed by what its files are.
pub proof fn law_listing_is_of_the_files(
    files: Seq<(String, NgmManifestFile)>,
    filter: Option<&FileFilter>,
)
    ensures
        listed(files, filter) == listing::tally_all(found_in(files), filter),
{
}

} // verus!
