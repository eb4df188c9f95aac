//! Keeping the service's copies of files up to date.

use crate::request::CodeRange;
use crate::snapshot;
use crate::text;
use crate::trigger::EditPredictionRequestTrigger;
use vstd::prelude::*;
use vstd::slice::slice_subrange;
use vstd::string::*;
use vstd::utf8::*;

verus! {

/// Why a change of a file cannot be sent.
#[derive(Clone, Copy, Debug, PartialEq, Eq)]
pub enum FileSyncError {
    /// A position in the file or the file's length does not fit in a message.
    PositionOverflow,
}

/// One replacement in a file. Positions count UTF-16 code units.
#[derive(Debug, PartialEq)]
pub struct SingleUpdateRequest {
    pub start_position: i32,
    pub end_position: i32,
    pub change_length: i32,
    pub replaced_string: String,
    pub range: Option<CodeRange>,
}

/// What became of a file since the version before.
#[derive(Debug, PartialEq)]
pub struct FilesyncUpdate {
    pub model_version: i32,
    pub relative_workspace_path: String,
    pub updates: Vec<SingleUpdateRequest>,
    pub expected_file_length: i32,
}

/// The first version of a file.
#[derive(Debug, PartialEq)]
pub struct FSUploadFileRequest {
    pub uuid: String,
    pub relative_workspace_path: String,
    pub contents: String,
    pub model_version: i32,
    pub sha256_hash: String,
}

/// A later version of a file.
#[derive(Debug, PartialEq)]
pub struct FSSyncFileRequest {
    pub uuid: String,
    pub relative_workspace_path: String,
    pub model_version: i32,
    pub filesync_updates: Vec<FilesyncUpdate>,
    pub sha256_hash: String,
}

/// A request that brings the service's copy of a file up to date.
#[derive(Debug, PartialEq)]
pub enum FileSyncRequest {
    Upload(FSUploadFileRequest),
    Sync(FSSyncFileRequest),
}

impl FileSyncRequest {
    /// The method of the service that takes the request.
    pub fn method_name(&self) -> (name: &'static str)
        ensures
            name@ == match self {
                FileSyncRequest::Upload(_) => "FSUploadFile"@,
                FileSyncRequest::Sync(_) => "FSSyncFile"@,
            },
    {
        match self {
            FileSyncRequest::Upload(_) => "FSUploadFile",
            FileSyncRequest::Sync(_) => "FSSyncFile",
        }
    }
}

// ---------------------------------------------------------------------------
// Hashes
// ---------------------------------------------------------------------------

/// The SHA-256 digest of bytes.
pub uninterp spec fn sha256_digest(bytes: Seq<u8>) -> Seq<u8>;

/// `Sha256::digest` of the `sha2` crate gives the digest of the bytes: 32 bytes that depend
/// on the given ones alone.
#[verifier::external_body]
fn digest_of(bytes: &[u8]) -> (digest: Vec<u8>)
    ensures
        digest@ == sha256_digest(bytes@),
        digest@.len() == 32,
{
    <sha2::Sha256 as sha2::Digest>::digest(bytes).to_vec()
}

/// The hexadecimal digit of a number below sixteen.
pub open spec fn hex_digit(n: int) -> char {
    if n < 10 {
        ('0' as u32 + n) as char
    } else {
        ('a' as u32 + (n - 10)) as char
    }
}

/// Bytes as hexadecimal digits, two for each.
pub open spec fn hex(bytes: Seq<u8>) -> Seq<char> {
    Seq::new(
        2 * bytes.len(),
        |i: int|
            hex_digit(
                if i % 2 == 0 {
                    bytes[i / 2] as int / 16
                } else {
                    bytes[i / 2] as int % 16
                },
            ),
    )
}

/// The SHA-256 hash of a text, as hexadecimal digits.
pub open spec fn sha_256_text(contents: Seq<char>) -> Seq<char> {
    hex(sha256_digest(encode_utf8(contents)))
}

/// The hexadecimal digit of a number below sixteen.
fn hex_digit_of(n: u8) -> (c: char)
    requires
        n < 16,
    ensures
        c == hex_digit(n as int),
{
    if n < 10 {
        (0x30u8 + n) as char
    } else {
        (0x61u8 + (n - 10)) as char
    }
}

/// Bytes as hexadecimal digits.
pub fn hex_of(bytes: &[u8]) -> (s: String)
    ensures
        s@ == hex(bytes@),
{
    let mut s: String = String::new();
    let mut i: usize = 0;
    while i < bytes.len()
        invariant
            i <= bytes@.len(),
            s@ == hex(bytes@).take(2 * i),
        decreases bytes@.len() - i,
    {
        let ghost all = hex(bytes@);
        s.push(hex_digit_of(bytes[i] / 16));
        s.push(hex_digit_of(bytes[i] % 16));
        assert((2 * i) / 2 == i && (2 * i) % 2 == 0 && (2 * i + 1) / 2 == i && (2 * i + 1) % 2
            == 1);
        assert(all.take(2 * (i + 1)) =~= all.take(2 * i).push(all[2 * i]).push(all[2 * i + 1]));
        i += 1;
    }
    assert(hex(bytes@).take(2 * i) =~= hex(bytes@));
    s
}

/// The SHA-256 hash of a text.
pub fn sha_256(contents: &str) -> (hash: String)
    ensures
        hash@ == sha_256_text(contents@),
        hash@.len() == 64,
{
    let digest: Vec<u8> = digest_of(contents.as_bytes());
    hex_of(digest.as_slice())
}

/// The cookie that ties requests for one workspace together.
pub fn file_sync_cookie(workspace_root_path: &str) -> (cookie: String)
    ensures
        cookie@ == "FilesyncCookie="@ + sha_256_text(workspace_root_path@).take(32),
{
    let hash: String = sha_256(workspace_root_path);
    let chars: Vec<char> = text::chars_of(hash.as_str());
    assert(chars@.subrange(0, 32) =~= chars@.take(32));
    let start: String = text::string_of(slice_subrange(chars.as_slice(), 0, 32));
    let mut cookie: String = "FilesyncCookie=".to_owned();
    cookie.append(start.as_str());
    cookie
}

/// The identifier of a workspace that has a root.
pub fn workspace_id(workspace_root_path: &str) -> (id: Option<String>)
    ensures
        match id {
            Some(id) => workspace_root_path@.len() > 0 && id@ == sha_256_text(
                workspace_root_path@,
            ),
            None => workspace_root_path@.len() == 0,
        },
{
    if workspace_root_path.is_empty() {
        None
    } else {
        Some(sha_256(workspace_root_path))
    }
}

// ---------------------------------------------------------------------------
// Updates
// ---------------------------------------------------------------------------

/// The number of characters in front of the first one that changed.
pub open spec fn change_start(old_contents: Seq<char>, new_contents: Seq<char>) -> int {
    text::common_prefix(old_contents, new_contents)
}

/// The number of characters behind the last one that changed.
pub open spec fn unchanged_end(old_contents: Seq<char>, new_contents: Seq<char>) -> int {
    let p = change_start(old_contents, new_contents);
    text::common_suffix(old_contents.skip(p), new_contents.skip(p))
}

/// The UTF-16 position at which a change starts.
pub open spec fn start_position(old_contents: Seq<char>, new_contents: Seq<char>) -> int {
    text::utf16_len(old_contents.take(change_start(old_contents, new_contents))) as int
}

/// The UTF-16 position, in the old contents, at which a change ends.
pub open spec fn end_position(old_contents: Seq<char>, new_contents: Seq<char>) -> int {
    text::utf16_len(
        old_contents.take(old_contents.len() - unchanged_end(old_contents, new_contents)),
    ) as int
}

/// The new text between the unchanged start and the unchanged end.
pub open spec fn changed_text(old_contents: Seq<char>, new_contents: Seq<char>) -> Seq<char> {
    new_contents.subrange(
        change_start(old_contents, new_contents),
        new_contents.len() - unchanged_end(old_contents, new_contents),
    )
}

/// Whether an update is the smallest one that turns old contents into new ones.
pub open spec fn is_update(
    update: SingleUpdateRequest,
    old_contents: Seq<char>,
    new_contents: Seq<char>,
) -> bool {
    &&& update.start_position == start_position(old_contents, new_contents)
    &&& update.end_position == end_position(old_contents, new_contents)
    &&& update.change_length == update.end_position - update.start_position
    &&& update.replaced_string@ == changed_text(old_contents, new_contents)
    &&& update.range is None
}

/// Contents after an update.
pub open spec fn updated(contents: Seq<char>, update: SingleUpdateRequest) -> Seq<char> {
    contents.take(snapshot::units_index(contents, update.start_position as int))
        + update.replaced_string@ + contents.skip(
        snapshot::units_index(contents, update.end_position as int),
    )
}

proof fn lemma_change_bounds(old_contents: Seq<char>, new_contents: Seq<char>)
    ensures
        ({
            let p = change_start(old_contents, new_contents);
            let s = unchanged_end(old_contents, new_contents);
            &&& 0 <= p
            &&& 0 <= s
            &&& p + s <= old_contents.len()
            &&& p + s <= new_contents.len()
            &&& old_contents.take(p) == new_contents.take(p)
            &&& old_contents.skip(old_contents.len() - s) == new_contents.skip(
                new_contents.len() - s,
            )
        }),
{
    text::lemma_common_prefix(old_contents, new_contents);
    let p = change_start(old_contents, new_contents);
    let a = old_contents.skip(p);
    let b = new_contents.skip(p);
    text::lemma_common_suffix(a, b);
    let s = unchanged_end(old_contents, new_contents);
    assert(old_contents.skip(old_contents.len() - s) =~= a.skip(a.len() - s));
    assert(new_contents.skip(new_contents.len() - s) =~= b.skip(b.len() - s));
}

/// An update turns the old contents into the new ones.
pub proof fn lemma_update_applies(
    update: SingleUpdateRequest,
    old_contents: Seq<char>,
    new_contents: Seq<char>,
)
    requires
        is_update(update, old_contents, new_contents),
    ensures
        updated(old_contents, update) == new_contents,
{
    lemma_change_bounds(old_contents, new_contents);
    let p = change_start(old_contents, new_contents);
    let s = unchanged_end(old_contents, new_contents);
    snapshot::lemma_column_index(old_contents, p);
    snapshot::lemma_column_index(old_contents, old_contents.len() - s);
    assert(new_contents =~= new_contents.take(p) + changed_text(old_contents, new_contents)
        + new_contents.skip(new_contents.len() - s));
}

/// No replacement that turns the old contents into the new ones replaces fewer characters,
/// nor puts fewer in their place, than the one between the unchanged start and the unchanged
/// end.
pub proof fn lemma_smallest_update(
    old_contents: Seq<char>,
    new_contents: Seq<char>,
    start: int,
    end: int,
    replacement: Seq<char>,
)
    requires
        0 <= start <= end <= old_contents.len(),
        old_contents.take(start) + replacement + old_contents.skip(end) == new_contents,
    ensures
        old_contents.len() - unchanged_end(old_contents, new_contents) - change_start(
            old_contents,
            new_contents,
        ) <= end - start,
        changed_text(old_contents, new_contents).len() <= replacement.len(),
{
    let a = old_contents;
    let b = new_contents;
    let p = change_start(a, b);
    let s = unchanged_end(a, b);
    let q = a.len() - end;
    lemma_change_bounds(a, b);
    text::lemma_common_prefix(a, b);
    assert(start <= p) by {
        if p < start {
            assert(b[p] == a.take(start)[p]);
        }
    }
    let rest_a = a.skip(p);
    let rest_b = b.skip(p);
    text::lemma_common_suffix(rest_a, rest_b);
    assert(start + q <= p + s) by {
        if s < rest_a.len() && s < rest_b.len() && s < q {
            assert(rest_a[rest_a.len() - 1 - s] == a[a.len() - 1 - s]);
            assert(rest_b[rest_b.len() - 1 - s] == b[b.len() - 1 - s]);
            assert(b[b.len() - 1 - s] == a.skip(end)[q - 1 - s]);
        }
    }
}

/// The smallest replacement that turns old contents into new ones.
pub fn single_file_update(old_contents: &str, new_contents: &str) -> (r: Result<
    SingleUpdateRequest,
    FileSyncError,
>)
    ensures
        match r {
            Ok(update) => is_update(update, old_contents@, new_contents@),
            Err(error) => end_position(old_contents@, new_contents@) > i32::MAX,
        },
{
    let old_chars: Vec<char> = text::chars_of(old_contents);
    let new_chars: Vec<char> = text::chars_of(new_contents);
    let (prefix, suffix): (usize, usize) = text::common_affixes(
        old_chars.as_slice(),
        new_chars.as_slice(),
    );
    let old_end: usize = old_chars.len() - suffix;
    let new_end: usize = new_chars.len() - suffix;
    proof {
        lemma_change_bounds(old_contents@, new_contents@);
        snapshot::lemma_take_bounds(old_contents@, prefix as int);
        snapshot::lemma_take_bounds(old_contents@, old_end as int);
        snapshot::lemma_take_monotone(old_contents@, prefix as int, old_end as int);
        assert(old_chars@.subrange(0, prefix as int) =~= old_chars@.take(prefix as int));
        assert(old_chars@.subrange(0, old_end as int) =~= old_chars@.take(old_end as int));
    }
    let start: usize = text::chars_utf16_len(slice_subrange(old_chars.as_slice(), 0, prefix));
    let end: usize = text::chars_utf16_len(slice_subrange(old_chars.as_slice(), 0, old_end));
    if end > i32::MAX as usize {
        return Err(FileSyncError::PositionOverflow);
    }
    Ok(
        SingleUpdateRequest {
            start_position: start as i32,
            end_position: end as i32,
            change_length: (end - start) as i32,
            replaced_string: text::string_of(
                slice_subrange(new_chars.as_slice(), prefix, new_end),
            ),
            range: None,
        },
    )
}

// ---------------------------------------------------------------------------
// The state of synchronisation
// ---------------------------------------------------------------------------

/// A file that the service has a copy of.
pub struct SyncedFile {
    pub relative_workspace_path: String,
    pub model_version: i32,
    pub contents: String,
}

/// A version of a file and what it holds.
pub struct FileVersion {
    pub model_version: i32,
    pub contents: Seq<char>,
}

/// The files that the service has copies of, by their paths.
pub open spec fn synced_map(files: Seq<SyncedFile>) -> Map<Seq<char>, FileVersion>
    decreases files.len(),
{
    if files.len() == 0 {
        Map::empty()
    } else {
        synced_map(files.drop_last()).insert(
            files.last().relative_workspace_path@,
            FileVersion {
                model_version: files.last().model_version,
                contents: files.last().contents@,
            },
        )
    }
}

/// Whether no path occurs twice.
pub open spec fn distinct_paths(files: Seq<SyncedFile>) -> bool {
    forall|i: int, j: int|
        0 <= i < j < files.len() ==> (#[trigger] files[i]).relative_workspace_path@ != (
        #[trigger] files[j]).relative_workspace_path@
}

proof fn lemma_synced_map(files: Seq<SyncedFile>, path: Seq<char>)
    requires
        distinct_paths(files),
    ensures
        synced_map(files).contains_key(path) <==> exists|i: int|
            0 <= i < files.len() && (#[trigger] files[i]).relative_workspace_path@ == path,
        forall|i: int|
            0 <= i < files.len() && (#[trigger] files[i]).relative_workspace_path@ == path
                ==> synced_map(files)[path] == (FileVersion {
                model_version: files[i].model_version,
                contents: files[i].contents@,
            }),
    decreases files.len(),
{
    if files.len() > 0 {
        let head = files.drop_last();
        assert(distinct_paths(head)) by {
            assert forall|i: int, j: int| 0 <= i < j < head.len() implies (
            #[trigger] head[i]).relative_workspace_path@ != (
            #[trigger] head[j]).relative_workspace_path@ by {
                assert(files[i].relative_workspace_path@ != files[j].relative_workspace_path@);
            }
        }
        lemma_synced_map(head, path);
        let last = files[files.len() - 1];
        if synced_map(files).contains_key(path) {
            if last.relative_workspace_path@ != path {
                let i = choose|i: int|
                    0 <= i < head.len() && (#[trigger] head[i]).relative_workspace_path@ == path;
                assert(files[i].relative_workspace_path@ == path);
            }
        }
        assert forall|i: int|
            0 <= i < files.len() && (#[trigger] files[i]).relative_workspace_path@
                == path implies synced_map(files).contains_key(path) && synced_map(files)[path] == (
        FileVersion { model_version: files[i].model_version, contents: files[i].contents@ }) by {
            if i < head.len() {
                assert(head[i].relative_workspace_path@ == path);
                assert(files[i].relative_workspace_path@ != last.relative_workspace_path@);
            }
        }
    }
}

proof fn lemma_synced_update(files: Seq<SyncedFile>, at: int, file: SyncedFile)
    requires
        distinct_paths(files),
        0 <= at < files.len(),
        file.relative_workspace_path@ == files[at].relative_workspace_path@,
    ensures
        distinct_paths(files.update(at, file)),
        synced_map(files.update(at, file)) == synced_map(files).insert(
            file.relative_workspace_path@,
            FileVersion { model_version: file.model_version, contents: file.contents@ },
        ),
{
    let new = files.update(at, file);
    assert forall|i: int, j: int| 0 <= i < j < new.len() implies (
    #[trigger] new[i]).relative_workspace_path@ != (#[trigger] new[j]).relative_workspace_path@ by {
        assert(files[i].relative_workspace_path@ != files[j].relative_workspace_path@);
    }
    let left = synced_map(new);
    let right = synced_map(files).insert(
        file.relative_workspace_path@,
        FileVersion { model_version: file.model_version, contents: file.contents@ },
    );
    assert forall|path: Seq<char>|
        #![trigger left.dom().contains(path)]
        #![trigger right.dom().contains(path)]
        #![trigger left[path]]
        left.dom().contains(path) == right.dom().contains(path) && (left.contains_key(path)
            ==> left[path] == right[path]) by {
        lemma_synced_map(files, path);
        lemma_synced_map(new, path);
        if left.contains_key(path) {
            let i = choose|i: int|
                0 <= i < new.len() && (#[trigger] new[i]).relative_workspace_path@ == path;
            assert(new[i].relative_workspace_path@ == path);
            assert(files[i].relative_workspace_path@ == path);
            if i != at {
                assert(files[i].relative_workspace_path@ != files[at].relative_workspace_path@);
            }
        }
        if right.contains_key(path) {
            if path != file.relative_workspace_path@ {
                let i = choose|i: int|
                    0 <= i < files.len() && (#[trigger] files[i]).relative_workspace_path@ == path;
                assert(files[i].relative_workspace_path@ == path);
                assert(new[i].relative_workspace_path@ == path);
            } else {
                assert(new[at].relative_workspace_path@ == path);
            }
        }
    }
    assert(left.dom() =~= right.dom());
    assert(left =~= right);
}

/// `Uuid::new_v4` of the `uuid` crate makes a random identifier, which is written as 36
/// characters. Which one it is rests on chance. It panics when the system has no random
/// numbers to give.
#[verifier::external_body]
fn random_uuid() -> (uuid: String)
    ensures
        uuid@.len() == 36,
{
    uuid::Uuid::new_v4().to_string()
}

/// What the service was sent so far.
pub struct FileSync {
    uuid: String,
    files: Vec<SyncedFile>,
}

impl FileSync {
    #[verifier::type_invariant]
    spec fn well_formed(self) -> bool {
        distinct_paths(self.files@)
    }

    /// The identifier under which files are sent.
    pub closed spec fn id(&self) -> Seq<char> {
        self.uuid@
    }

    /// The files that the service has copies of.
    pub closed spec fn synced(&self) -> Map<Seq<char>, FileVersion> {
        synced_map(self.files@)
    }

    /// The state before anything was sent, under a random identifier.
    pub fn new() -> (sync: Self)
        ensures
            sync.synced() == Map::<Seq<char>, FileVersion>::empty(),
            sync.id().len() == 36,
    {
        FileSync::with_uuid(random_uuid())
    }

    /// The state before anything was sent, under the given identifier.
    pub fn with_uuid(uuid: String) -> (sync: Self)
        ensures
            sync.synced() == Map::<Seq<char>, FileVersion>::empty(),
            sync.id() == uuid@,
    {
        FileSync { uuid, files: Vec::new() }
    }
}

/// The index of the file with the given path.
fn find_file(files: &Vec<SyncedFile>, path: &str) -> (r: Option<usize>)
    ensures
        match r {
            Some(i) => i < files@.len() && files@[i as int].relative_workspace_path@ == path@,
            None => forall|i: int|
                0 <= i < files@.len() ==> (#[trigger] files@[i]).relative_workspace_path@ != path@,
        },
{
    let mut i: usize = 0;
    while i < files.len()
        invariant
            i <= files@.len(),
            forall|j: int|
                0 <= j < i ==> (#[trigger] files@[j]).relative_workspace_path@ != path@,
        decreases files@.len() - i,
    {
        if text::same_str(files[i].relative_workspace_path.as_str(), path) {
            return Some(i);
        }
        i += 1;
    }
    None
}

/// One version more, as far as versions can be counted.
pub open spec fn next_version(version: i32) -> i32 {
    if version == i32::MAX {
        i32::MAX
    } else {
        (version + 1) as i32
    }
}

/// Whether a request uploads the first version of a file.
pub open spec fn is_upload(
    request: FileSyncRequest,
    uuid: Seq<char>,
    path: Seq<char>,
    contents: Seq<char>,
) -> bool {
    match request {
        FileSyncRequest::Upload(upload) => {
            &&& upload.uuid@ == uuid
            &&& upload.relative_workspace_path@ == path
            &&& upload.contents@ == contents
            &&& upload.model_version == 1
            &&& upload.sha256_hash@ == sha_256_text(contents)
        },
        FileSyncRequest::Sync(_) => false,
    }
}

/// Whether a request sends the change from one version of a file to the next.
pub open spec fn is_sync(
    request: FileSyncRequest,
    uuid: Seq<char>,
    path: Seq<char>,
    before: FileVersion,
    contents: Seq<char>,
) -> bool {
    match request {
        FileSyncRequest::Upload(_) => false,
        FileSyncRequest::Sync(sync) => {
            &&& sync.uuid@ == uuid
            &&& sync.relative_workspace_path@ == path
            &&& sync.model_version == next_version(before.model_version)
            &&& sync.sha256_hash@ == sha_256_text(contents)
            &&& sync.filesync_updates@.len() == 1
            &&& sync.filesync_updates@[0].model_version == sync.model_version
            &&& sync.filesync_updates@[0].relative_workspace_path@ == path
            &&& sync.filesync_updates@[0].expected_file_length == text::utf16_len(contents)
            &&& sync.filesync_updates@[0].updates@.len() == 1
            &&& is_update(sync.filesync_updates@[0].updates@[0], before.contents, contents)
        },
    }
}

/// Whether nothing is sent for a file: the service is not to have files, or it has a copy
/// and the file was not just edited or did not change.
pub open spec fn nothing_to_send(
    synced: Map<Seq<char>, FileVersion>,
    client_key: Seq<char>,
    path: Seq<char>,
    contents: Seq<char>,
    trigger: EditPredictionRequestTrigger,
) -> bool {
    ||| client_key.len() == 0
    ||| synced.contains_key(path) && (trigger != EditPredictionRequestTrigger::BufferEdit
        || synced[path].contents == contents)
}

/// Whether a result, and the files that the service then counts as having, are those of
/// bringing a file up to date.
pub open spec fn is_enqueued(
    synced: Map<Seq<char>, FileVersion>,
    now_synced: Map<Seq<char>, FileVersion>,
    uuid: Seq<char>,
    client_key: Seq<char>,
    path: Seq<char>,
    contents: Seq<char>,
    trigger: EditPredictionRequestTrigger,
    result: Result<Option<FileSyncRequest>, FileSyncError>,
) -> bool {
    let before = synced[path];
    let next = FileVersion {
        model_version: if synced.contains_key(path) {
            next_version(before.model_version)
        } else {
            1
        },
        contents,
    };
    if nothing_to_send(synced, client_key, path, contents, trigger) {
        result == Ok::<Option<FileSyncRequest>, FileSyncError>(None) && now_synced == synced
    } else if !synced.contains_key(path) {
        &&& result is Ok && result->Ok_0 is Some
        &&& is_upload(result->Ok_0->0, uuid, path, contents)
        &&& now_synced == synced.insert(path, next)
    } else if end_position(before.contents, contents) > i32::MAX {
        result is Err && now_synced == synced
    } else if text::utf16_len(contents) > i32::MAX {
        result is Err && now_synced == synced.insert(path, next)
    } else {
        &&& result is Ok && result->Ok_0 is Some
        &&& is_sync(result->Ok_0->0, uuid, path, before, contents)
        &&& now_synced == synced.insert(path, next)
    }
}

/// The copies that the service has once it has received a request.
pub open spec fn received(
    copies: Map<Seq<char>, FileVersion>,
    request: FileSyncRequest,
) -> Map<Seq<char>, FileVersion> {
    match request {
        FileSyncRequest::Upload(upload) => copies.insert(
            upload.relative_workspace_path@,
            FileVersion { model_version: upload.model_version, contents: upload.contents@ },
        ),
        FileSyncRequest::Sync(sync) => copies.insert(
            sync.relative_workspace_path@,
            FileVersion {
                model_version: sync.model_version,
                contents: updated(
                    copies[sync.relative_workspace_path@].contents,
                    sync.filesync_updates@[0].updates@[0],
                ),
            },
        ),
    }
}

/// A service that has the copies it counts as having still has them once it has received
/// the next request.
pub proof fn lemma_copies_agree(
    synced: Map<Seq<char>, FileVersion>,
    now_synced: Map<Seq<char>, FileVersion>,
    uuid: Seq<char>,
    client_key: Seq<char>,
    path: Seq<char>,
    contents: Seq<char>,
    trigger: EditPredictionRequestTrigger,
    result: Result<Option<FileSyncRequest>, FileSyncError>,
)
    requires
        is_enqueued(
            synced,
            now_synced,
            uuid,
            client_key,
            path,
            contents,
            trigger,
            result,
        ),
        result is Ok,
    ensures
        match result->Ok_0 {
            Some(request) => received(synced, request) == now_synced,
            None => synced == now_synced,
        },
{
    if let Some(FileSyncRequest::Sync(sync)) = result->Ok_0 {
        lemma_update_applies(
            sync.filesync_updates@[0].updates@[0],
            synced[path].contents,
            contents,
        );
    }
}

impl FileSync {
    /// The request that brings the service's copy of a file up to date, if there is one to
    /// send. From then on the service counts as having that version.
    pub fn enqueue_file_sync(
        &mut self,
        file_sync_client_key: &str,
        relative_workspace_path: String,
        contents: String,
        trigger: EditPredictionRequestTrigger,
    ) -> (r: Result<Option<FileSyncRequest>, FileSyncError>)
        ensures
            final(self).id() == old(self).id(),
            is_enqueued(
                old(self).synced(),
                final(self).synced(),
                old(self).id(),
                file_sync_client_key@,
                relative_workspace_path@,
                contents@,
                trigger,
                r,
            ),
    {
        proof {
            use_type_invariant(&*self);
        }
        if file_sync_client_key.is_empty() {
            return Ok(None);
        }
        let mut files: Vec<SyncedFile> = Vec::new();
        std::mem::swap(&mut files, &mut self.files);
        let result: Result<Option<FileSyncRequest>, FileSyncError> = bring_up_to_date(
            &mut files,
            &self.uuid,
            relative_workspace_path,
            contents,
            trigger,
        );
        self.files = files;
        result
    }
}

/// The request that brings a file up to date, which the service then counts as having.
fn bring_up_to_date(
    files: &mut Vec<SyncedFile>,
    uuid: &String,
    relative_workspace_path: String,
    contents: String,
    trigger: EditPredictionRequestTrigger,
) -> (r: Result<Option<FileSyncRequest>, FileSyncError>)
    requires
        distinct_paths(old(files)@),
    ensures
        distinct_paths(final(files)@),
        forall|client_key: Seq<char>|
            client_key.len() > 0 ==> #[trigger] is_enqueued(
                synced_map(old(files)@),
                synced_map(final(files)@),
                uuid@,
                client_key,
                relative_workspace_path@,
                contents@,
                trigger,
                r,
            ),
{
    let ghost held = files@;
    proof {
        lemma_synced_map(held, relative_workspace_path@);
    }
    let at: usize = match find_file(&*files, relative_workspace_path.as_str()) {
        Some(at) => at,
        None => {
            let request: FileSyncRequest = FileSyncRequest::Upload(
                FSUploadFileRequest {
                    uuid: uuid.clone(),
                    relative_workspace_path: relative_workspace_path.clone(),
                    contents: contents.clone(),
                    model_version: 1,
                    sha256_hash: sha_256(contents.as_str()),
                },
            );
            let file: SyncedFile = SyncedFile {
                relative_workspace_path,
                model_version: 1,
                contents,
            };
            assert(held.push(file).drop_last() =~= held);
            files.push(file);
            return Ok(Some(request));
        },
    };
    assert(held[at as int].relative_workspace_path@ == relative_workspace_path@);
    if trigger != EditPredictionRequestTrigger::BufferEdit || text::same_str(
        files[at].contents.as_str(),
        contents.as_str(),
    ) {
        return Ok(None);
    }
    let version: i32 = files[at].model_version;
    let model_version: i32 = if version == i32::MAX {
        i32::MAX
    } else {
        version + 1
    };
    let update: SingleUpdateRequest = match single_file_update(
        files[at].contents.as_str(),
        contents.as_str(),
    ) {
        Ok(update) => update,
        Err(error) => {
            return Err(error);
        },
    };
    let file: SyncedFile = SyncedFile {
        relative_workspace_path: relative_workspace_path.clone(),
        model_version,
        contents: contents.clone(),
    };
    proof {
        lemma_synced_update(held, at as int, file);
    }
    files.set(at, file);
    let chars: Vec<char> = text::chars_of(contents.as_str());
    let length: usize = text::chars_utf16_len(chars.as_slice());
    if length > i32::MAX as usize {
        return Err(FileSyncError::PositionOverflow);
    }
    let changes: FilesyncUpdate = FilesyncUpdate {
        model_version,
        relative_workspace_path: relative_workspace_path.clone(),
        updates: vec![update],
        expected_file_length: length as i32,
    };
    Ok(
        Some(
            FileSyncRequest::Sync(
                FSSyncFileRequest {
                    uuid: uuid.clone(),
                    relative_workspace_path,
                    model_version,
                    filesync_updates: vec![changes],
                    sha256_hash: sha_256(contents.as_str()),
                },
            ),
        ),
    )
}

// ---------------------------------------------------------------------------
// What is sent of a file
// ---------------------------------------------------------------------------

/// An update names the UTF-16 positions between which the old contents change, and as many
/// units as lie between them.
pub proof fn lemma_update_positions(
    update: SingleUpdateRequest,
    old_contents: Seq<char>,
    new_contents: Seq<char>,
)
    requires
        is_update(update, old_contents, new_contents),
    ensures
        0 <= update.start_position <= update.end_position <= text::utf16_len(old_contents),
        update.change_length == update.end_position - update.start_position,
        update.range is None,
        exists|start: int, end: int|
            {
                &&& 0 <= start <= end <= old_contents.len()
                &&& update.start_position == text::utf16_len(#[trigger] old_contents.take(start))
                &&& update.end_position == text::utf16_len(#[trigger] old_contents.take(end))
                &&& old_contents.take(start) + update.replaced_string@ + old_contents.skip(end)
                    == new_contents
            },
        old_contents == new_contents ==> update.change_length == 0
            && update.replaced_string@.len() == 0,
{
    lemma_change_bounds(old_contents, new_contents);
    let p = change_start(old_contents, new_contents);
    let s = unchanged_end(old_contents, new_contents);
    let end = old_contents.len() - s;
    snapshot::lemma_take_monotone(old_contents, p, end);
    snapshot::lemma_take_bounds(old_contents, end);
    assert(new_contents =~= new_contents.take(p) + changed_text(old_contents, new_contents)
        + new_contents.skip(new_contents.len() - s));
    assert(old_contents.take(p) + update.replaced_string@ + old_contents.skip(end)
        == new_contents);
    assert(update.start_position == text::utf16_len(old_contents.take(p)));
    if old_contents == new_contents {
        let none = Seq::<char>::empty();
        let n = old_contents.len() as int;
        assert(old_contents.take(n) + none + old_contents.skip(n) =~= new_contents);
        lemma_smallest_update(old_contents, new_contents, n, n, none);
    }
}

/// What is sent of a file: nothing without a key; the whole of a file that the service does
/// not have, as version one; of one that it has, the change, as the next version, when the
/// file was edited and changed. What the service has of other files stays as it is.
pub proof fn lemma_what_is_sent(
    synced: Map<Seq<char>, FileVersion>,
    now_synced: Map<Seq<char>, FileVersion>,
    uuid: Seq<char>,
    client_key: Seq<char>,
    path: Seq<char>,
    contents: Seq<char>,
    trigger: EditPredictionRequestTrigger,
    result: Result<Option<FileSyncRequest>, FileSyncError>,
)
    requires
        is_enqueued(synced, now_synced, uuid, client_key, path, contents, trigger, result),
    ensures
        client_key.len() == 0 ==> result == Ok::<Option<FileSyncRequest>, FileSyncError>(None)
            && now_synced == synced,
        client_key.len() > 0 && !synced.contains_key(path) ==> match result {
            Ok(Some(FileSyncRequest::Upload(upload))) => {
                &&& upload.uuid@ == uuid
                &&& upload.relative_workspace_path@ == path
                &&& upload.contents@ == contents
                &&& upload.model_version == 1
                &&& upload.sha256_hash@ == sha_256_text(contents)
                &&& now_synced.contains_key(path)
                &&& now_synced[path].model_version == 1
                &&& now_synced[path].contents == contents
            },
            _ => false,
        },
        client_key.len() > 0 && synced.contains_key(path) && (trigger
            != EditPredictionRequestTrigger::BufferEdit || synced[path].contents == contents)
            ==> result == Ok::<Option<FileSyncRequest>, FileSyncError>(None) && now_synced
            == synced,
        client_key.len() > 0 && synced.contains_key(path) && trigger
            == EditPredictionRequestTrigger::BufferEdit && synced[path].contents != contents
            && text::utf16_len(contents) <= 0x7fff_ffff && text::utf16_len(synced[path].contents)
            <= 0x7fff_ffff ==> match result {
            Ok(Some(FileSyncRequest::Sync(sync))) => {
                let version = synced[path].model_version;
                &&& sync.uuid@ == uuid
                &&& sync.relative_workspace_path@ == path
                &&& version < 0x7fff_ffff ==> sync.model_version == version + 1
                &&& version == 0x7fff_ffff ==> sync.model_version == version
                &&& sync.sha256_hash@ == sha_256_text(contents)
                &&& sync.filesync_updates@.len() == 1
                &&& sync.filesync_updates@[0].model_version == sync.model_version
                &&& sync.filesync_updates@[0].relative_workspace_path@ == path
                &&& sync.filesync_updates@[0].expected_file_length == text::utf16_len(contents)
                &&& sync.filesync_updates@[0].updates@.len() == 1
                &&& updated(synced[path].contents, sync.filesync_updates@[0].updates@[0])
                    == contents
                &&& now_synced.contains_key(path)
                &&& now_synced[path].model_version == sync.model_version
                &&& now_synced[path].contents == contents
            },
            _ => false,
        },
        forall|other: Seq<char>|
            other != path ==> #[trigger] now_synced.contains_key(other) == synced.contains_key(
                other,
            ) && (synced.contains_key(other) ==> now_synced[other] == synced[other]),
{
    if synced.contains_key(path) {
        let before = synced[path].contents;
        lemma_change_bounds(before, contents);
        let end = before.len() - unchanged_end(before, contents);
        snapshot::lemma_take_bounds(before, end);
    }
    if let Ok(Some(FileSyncRequest::Sync(sync))) = result {
        if !nothing_to_send(synced, client_key, path, contents, trigger) && synced.contains_key(
            path,
        ) && result is Ok {
            lemma_update_applies(
                sync.filesync_updates@[0].updates@[0],
                synced[path].contents,
                contents,
            );
        }
    }
}

/// The number that a hexadecimal digit stands for.
pub open spec fn digit_value(c: char) -> int {
    if '0' <= c <= '9' {
        c as int - 48
    } else if 'a' <= c <= 'f' {
        c as int - 87
    } else {
        -1
    }
}

/// Bytes can be read back from their hexadecimal digits, two for each, the higher one first.
pub proof fn lemma_hex(bytes: Seq<u8>, i: int)
    requires
        0 <= i < bytes.len(),
    ensures
        hex(bytes).len() == 2 * bytes.len(),
        digit_value(hex(bytes)[2 * i]) * 16 + digit_value(hex(bytes)[2 * i + 1]) == bytes[i],
        0 <= digit_value(hex(bytes)[2 * i]) < 16,
        0 <= digit_value(hex(bytes)[2 * i + 1]) < 16,
{
    assert((2 * i) / 2 == i && (2 * i) % 2 == 0 && (2 * i + 1) / 2 == i && (2 * i + 1) % 2 == 1);
    lemma_digit(bytes[i] as int / 16);
    lemma_digit(bytes[i] as int % 16);
}

proof fn lemma_digit(n: int)
    requires
        0 <= n < 16,
    ensures
        digit_value(hex_digit(n)) == n,
{
}

/// A change fails to be sent only where a position is too far to be counted. When it is the
/// length of the new contents that is too large, the change is noted all the same; when it is
/// the place of the change, nothing is noted.
pub proof fn lemma_when_sync_fails(
    synced: Map<Seq<char>, FileVersion>,
    now_synced: Map<Seq<char>, FileVersion>,
    uuid: Seq<char>,
    client_key: Seq<char>,
    path: Seq<char>,
    contents: Seq<char>,
    trigger: EditPredictionRequestTrigger,
    result: Result<Option<FileSyncRequest>, FileSyncError>,
)
    requires
        is_enqueued(synced, now_synced, uuid, client_key, path, contents, trigger, result),
        client_key.len() > 0,
        synced.contains_key(path),
        trigger == EditPredictionRequestTrigger::BufferEdit,
        synced[path].contents != contents,
    ensures
        result is Err <==> end_position(synced[path].contents, contents) > 0x7fff_ffff
            || text::utf16_len(contents) > 0x7fff_ffff,
        result is Err && text::utf16_len(contents) <= 0x7fff_ffff ==> now_synced == synced,
        result is Err && end_position(synced[path].contents, contents) > 0x7fff_ffff
            ==> now_synced == synced,
        text::utf16_len(synced[path].contents) <= 0x7fff_ffff ==> {
            let version = synced[path].model_version;
            &&& now_synced.contains_key(path)
            &&& now_synced[path].contents == contents
            &&& version < 0x7fff_ffff ==> now_synced[path].model_version == version + 1
            &&& version == 0x7fff_ffff ==> now_synced[path].model_version == version
        },
{
    let before = synced[path].contents;
    lemma_change_bounds(before, contents);
    let end = before.len() - unchanged_end(before, contents);
    snapshot::lemma_take_bounds(before, end);
}

} // verus!
