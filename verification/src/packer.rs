use vstd::prelude::*;
use vstd::utf8::encode_utf8;

use crate::finder::{find_last, last_index_of};
use crate::num::{decimal, decimal_chars, lemma_decimal_reads_back};
use crate::source::{classification, zip_magic, FetchedKind};
use crate::text::{append_chars, append_str, chars_of, copy_range, str_eq, string_from_chars, string_views};

verus! {

/// At most this many files go into one archive.
pub const MAX_FILES_PER_ARCHIVE: usize = 256;

/// At most this many bytes, before compression, go into one archive: 50 MiB.
pub const MAX_UNCOMPRESSED_BYTES: u64 = 52428800;

/// Why an archive could not be built.
#[derive(Debug)]
pub enum PackError {
    /// There was nothing to pack.
    NoFiles,
    /// More files were asked for than one archive takes.
    TooManyFiles { count: usize },
    /// A path did not name a regular file.
    NotRegularFile { path: String },
    /// The total size does not fit in 64 bits.
    SizeOverflow,
    /// The files hold more bytes than one archive takes.
    TooLarge { total: u64 },
    /// The archive writer failed.
    Archive,
}

/// How a packing failure is described.
pub open spec fn pack_message(e: PackError) -> Seq<char> {
    match e {
        PackError::NoFiles => "no files to pack"@,
        PackError::TooManyFiles { count } => "too many files: "@ + decimal(count as nat) + " > "@
            + decimal(MAX_FILES_PER_ARCHIVE as nat),
        PackError::NotRegularFile { path } => "not a regular file: "@ + path@,
        PackError::SizeOverflow => "archive size overflow"@,
        PackError::TooLarge { total } => "archive too large: "@ + decimal(total as nat) + " bytes > "@
            + decimal(MAX_UNCOMPRESSED_BYTES as nat) + " bytes"@,
        PackError::Archive => "could not write the ZIP archive"@,
    }
}

impl PackError {
    /// The description of the failure.
    pub fn message(&self) -> (r: String)
        ensures
            r@ == pack_message(*self),
    {
        let mut out: Vec<char> = Vec::new();
        match self {
            PackError::NoFiles => {
                append_str(&mut out, "no files to pack");
            },
            PackError::TooManyFiles { count } => {
                append_str(&mut out, "too many files: ");
                let d = decimal_chars(*count as u64);
                append_chars(&mut out, d.as_slice());
                append_str(&mut out, " > ");
                let m = decimal_chars(MAX_FILES_PER_ARCHIVE as u64);
                append_chars(&mut out, m.as_slice());
            },
            PackError::NotRegularFile { path } => {
                append_str(&mut out, "not a regular file: ");
                append_str(&mut out, path.as_str());
            },
            PackError::SizeOverflow => {
                append_str(&mut out, "archive size overflow");
            },
            PackError::TooLarge { total } => {
                append_str(&mut out, "archive too large: ");
                let d = decimal_chars(*total);
                append_chars(&mut out, d.as_slice());
                append_str(&mut out, " bytes > ");
                let m = decimal_chars(MAX_UNCOMPRESSED_BYTES);
                append_chars(&mut out, m.as_slice());
                append_str(&mut out, " bytes");
            },
            PackError::Archive => {
                append_str(&mut out, "could not write the ZIP archive");
            },
        }
        string_from_chars(out.as_slice())
    }
}

// ---------------------------------------------------------------------------
// Checking the input.
// ---------------------------------------------------------------------------

/// The running check of the files to pack: how many bytes they hold so far.
pub struct InputCheck {
    total: u64,
}

impl InputCheck {
    /// The bytes of the files checked so far.
    pub closed spec fn total_bytes(&self) -> nat {
        self.total as nat
    }

    /// Starts checking `count` files: none, or more than one archive takes,
    /// is refused.
    pub fn start(count: usize) -> (r: Result<InputCheck, PackError>)
        ensures
            count == 0 ==> r matches Err(PackError::NoFiles),
            count > MAX_FILES_PER_ARCHIVE ==> (r matches Err(PackError::TooManyFiles { count: c }) && c == count),
            0 < count <= MAX_FILES_PER_ARCHIVE ==> (r matches Ok(chk) && chk.total_bytes() == 0),
    {
        if count == 0 {
            return Err(PackError::NoFiles);
        }
        if count > MAX_FILES_PER_ARCHIVE {
            return Err(PackError::TooManyFiles { count });
        }
        Ok(InputCheck { total: 0 })
    }

    /// Checks the next file: it must be a regular file, and the running
    /// total must neither overflow nor exceed the limit.
    pub fn add_file(&mut self, path: &str, is_file: bool, len: u64) -> (r: Result<(), PackError>)
        ensures
            !is_file ==> (r matches Err(PackError::NotRegularFile { path: p }) && p@ == path@
                && final(self).total_bytes() == old(self).total_bytes()),
            is_file && old(self).total_bytes() + len > u64::MAX ==> (r matches Err(PackError::SizeOverflow)
                && final(self).total_bytes() == old(self).total_bytes()),
            is_file && old(self).total_bytes() + len <= u64::MAX ==> final(self).total_bytes() == old(self).total_bytes() + len,
            is_file && old(self).total_bytes() + len <= u64::MAX && old(self).total_bytes() + len > MAX_UNCOMPRESSED_BYTES
                ==> (r matches Err(PackError::TooLarge { total }) && total == old(self).total_bytes() + len),
            is_file && old(self).total_bytes() + len <= MAX_UNCOMPRESSED_BYTES ==> r is Ok,
    {
        if !is_file {
            return Err(PackError::NotRegularFile { path: path.to_owned() });
        }
        match self.total.checked_add(len) {
            None => Err(PackError::SizeOverflow),
            Some(t) => {
                self.total = t;
                if t > MAX_UNCOMPRESSED_BYTES {
                    Err(PackError::TooLarge { total: t })
                } else {
                    Ok(())
                }
            },
        }
    }
}

// ---------------------------------------------------------------------------
// Unique names inside one archive.
// ---------------------------------------------------------------------------

/// The names taken so far in one archive.
pub struct NameSet {
    names: Vec<String>,
}

impl View for NameSet {
    type V = Set<Seq<char>>;

    closed spec fn view(&self) -> Set<Seq<char>> {
        string_views(self.names@).to_set()
    }
}

impl NameSet {
    /// How many names were added: an upper bound of the number of names.
    pub closed spec fn size(&self) -> nat {
        self.names@.len()
    }

    /// No name taken yet.
    pub fn new() -> (r: NameSet)
        ensures
            r@ == Set::<Seq<char>>::empty(),
            r.size() == 0,
    {
        let r = NameSet { names: Vec::new() };
        assert(r@ =~= Set::<Seq<char>>::empty());
        r
    }

    /// Whether `name` is taken.
    pub fn contains(&self, name: &str) -> (r: bool)
        ensures
            r == self@.contains(name@),
    {
        let mut i: usize = 0;
        while i < self.names.len()
            invariant
                i <= self.names@.len(),
                forall|j: int| 0 <= j < i ==> self.names@[j]@ != name@,
            decreases self.names@.len() - i,
        {
            if str_eq(self.names[i].as_str(), name) {
                assert(string_views(self.names@)[i as int] == name@);
                return true;
            }
            i = i + 1;
        }
        assert(!self@.contains(name@)) by {
            if self@.contains(name@) {
                let k = choose|k: int| 0 <= k < string_views(self.names@).len() && string_views(self.names@)[k] == name@;
                assert(self.names@[k]@ == name@);
            }
        }
        false
    }

    /// Takes `name`; true when it was not taken before.
    pub fn insert(&mut self, name: String) -> (r: bool)
        ensures
            r == !old(self)@.contains(name@),
            final(self)@ == old(self)@.insert(name@),
            final(self).size() == old(self).size() + (if r { 1nat } else { 0nat }),
    {
        if self.contains(name.as_str()) {
            assert(self@.insert(name@) =~= self@);
            return false;
        }
        let ghost before = string_views(self.names@);
        let ghost nv = name@;
        self.names.push(name);
        assert(string_views(self.names@) =~= before.push(nv));
        assert(string_views(self.names@).to_set() =~= before.to_set().insert(nv)) by {
            assert forall|t: Seq<char>| string_views(self.names@).to_set().contains(t) == before.to_set().insert(nv).contains(t) by {
                if string_views(self.names@).to_set().contains(t) && t != nv {
                    let k = choose|k: int| 0 <= k < string_views(self.names@).len() && string_views(self.names@)[k] == t;
                    assert(before[k] == t);
                }
                if before.to_set().contains(t) {
                    let k = choose|k: int| 0 <= k < before.len() && before[k] == t;
                    assert(string_views(self.names@)[k] == t);
                }
                if t == nv {
                    assert(string_views(self.names@)[before.len() as int] == t);
                }
            }
        }
        true
    }

    /// There are no more names than were added.
    pub proof fn lemma_size(&self)
        ensures
            self@.finite(),
            self@.len() <= self.size(),
    {
        string_views(self.names@).lemma_cardinality_of_set();
    }
}

/// `path` with `_index` put before its last `.`, or at its end where it has no `.`.
pub open spec fn suffixed(path: Seq<char>, index: nat) -> Seq<char> {
    let k = last_index_of(path, '.');
    if k >= 0 {
        path.take(k) + seq!['_'] + decimal(index) + path.skip(k)
    } else {
        path + seq!['_'] + decimal(index)
    }
}

/// `r` is the name that `path` gets when the names `used` are taken: `path`
/// itself where it is free, else `path` suffixed with the smallest index
/// from 2 up whose name is free.
pub open spec fn unique_choice(path: Seq<char>, used: Set<Seq<char>>, r: Seq<char>) -> bool {
    if !used.contains(path) {
        r == path
    } else {
        exists|i: nat|
            #![trigger suffixed(path, i)]
            i >= 2 && r == suffixed(path, i) && !used.contains(r) && forall|j: nat|
                2 <= j < i ==> used.contains(#[trigger] suffixed(path, j))
    }
}

/// Different indexes give different names.
pub proof fn lemma_suffixed_injective(path: Seq<char>, i: nat, j: nat)
    requires
        suffixed(path, i) == suffixed(path, j),
    ensures
        i == j,
{
    let k = last_index_of(path, '.');
    let a = if k >= 0 { path.take(k) + seq!['_'] } else { path + seq!['_'] };
    let b = if k >= 0 { path.skip(k) } else { Seq::<char>::empty() };
    let di = decimal(i);
    let dj = decimal(j);
    assert(suffixed(path, i) =~= a + di + b);
    assert(suffixed(path, j) =~= a + dj + b);
    let s = suffixed(path, i);
    assert(di.len() == dj.len());
    assert(s.subrange(a.len() as int, (a.len() + di.len()) as int) =~= di);
    assert(s.subrange(a.len() as int, (a.len() + dj.len()) as int) =~= dj);
    lemma_decimal_reads_back(i);
    lemma_decimal_reads_back(j);
}

/// `path` with `_index` put before its last `.`, or at its end where it has no `.`.
pub fn append_suffix(path: &str, index: usize) -> (r: String)
    ensures
        r@ == suffixed(path@, index as nat),
{
    let p = chars_of(path);
    let digits = decimal_chars(index as u64);
    let mut out: Vec<char>;
    match find_last(p.as_slice(), '.') {
        Some(k) => {
            proof {
                crate::finder::lemma_last_index_bounds(p@, '.');
            }
            out = copy_range(p.as_slice(), 0, k);
            out.push('_');
            append_chars(&mut out, digits.as_slice());
            let rest = copy_range(p.as_slice(), k, p.len());
            append_chars(&mut out, rest.as_slice());
            assert(out@ =~= suffixed(path@, index as nat));
        },
        None => {
            out = copy_range(p.as_slice(), 0, p.len());
            out.push('_');
            append_chars(&mut out, digits.as_slice());
            assert(out@ =~= suffixed(path@, index as nat));
        },
    }
    string_from_chars(out.as_slice())
}

/// The name `path` gets inside an archive whose names `used` are taken:
/// `path` itself where it is free, else `path` suffixed with the smallest
/// index from 2 up whose name is free. The name is taken.
pub fn unique_archive_path(path: &str, used: &mut NameSet) -> (r: String)
    requires
        old(used).size() + 3 < usize::MAX,
    ensures
        unique_choice(path@, old(used)@, r@),
        !old(used)@.contains(r@),
        final(used)@ == old(used)@.insert(r@),
        final(used).size() == old(used).size() + 1,
{
    if used.insert(path.to_owned()) {
        return path.to_owned();
    }
    assert(used@ =~= old(used)@);
    let ghost used0 = used@;
    let ghost tested = Set::<Seq<char>>::empty();
    let mut index: usize = 2;
    proof {
        used.lemma_size();
    }
    loop
        invariant
            used@ == used0,
            used0 == old(used)@,
            used.size() == old(used).size(),
            used0.contains(path@),
            used.size() + 3 < usize::MAX,
            used@.finite(),
            used@.len() <= used.size(),
            2 <= index,
            tested.finite(),
            tested.len() == index - 2,
            tested.subset_of(used0),
            forall|s: Seq<char>| tested.contains(s) ==> exists|j: nat| 2 <= j < index && s == #[trigger] suffixed(path@, j),
            forall|j: nat| 2 <= j < index ==> used0.contains(#[trigger] suffixed(path@, j)),
        decreases used.size() + 2 - index,
    {
        proof {
            vstd::set_lib::lemma_len_subset(tested, used0);
        }
        let candidate = append_suffix(path, index);
        if !used.contains(candidate.as_str()) {
            let ghost c = candidate@;
            let added = used.insert(candidate);
            assert(unique_choice(path@, used0, c));
            return append_suffix(path, index);
        }
        proof {
            let c = suffixed(path@, index as nat);
            assert(!tested.contains(c)) by {
                if tested.contains(c) {
                    let j = choose|j: nat| 2 <= j < index && c == #[trigger] suffixed(path@, j);
                    lemma_suffixed_injective(path@, j, index as nat);
                }
            }
            let t2 = tested.insert(c);
            assert(t2.len() == tested.len() + 1);
            assert(t2.subset_of(used0));
            vstd::set_lib::lemma_len_subset(t2, used0);
            assert forall|s: Seq<char>| t2.contains(s) implies exists|j: nat| 2 <= j < index + 1 && s == #[trigger] suffixed(path@, j) by {
                if s == c {
                    assert(s == suffixed(path@, index as nat));
                } else {
                    let j = choose|j: nat| 2 <= j < index && s == #[trigger] suffixed(path@, j);
                    assert(s == suffixed(path@, j));
                }
            }
            tested = t2;
        }
        index = index + 1;
    }
}

// ---------------------------------------------------------------------------
// Writing the archive.
// ---------------------------------------------------------------------------

/// A ZIP writer over an in-memory buffer. Verus does not take the writer's
/// type in a signature (its bounds name std's I/O traits), so it is held here.
#[verifier::external_body]
pub struct ZipSink {
    writer: zip::ZipWriter<std::io::Cursor<Vec<u8>>>,
}

#[verifier::external_type_specification]
#[verifier::external_body]
pub struct ExZipError(zip::result::ZipError);

#[verifier::external_type_specification]
#[verifier::external_body]
pub struct ExIoError(std::io::Error);

/// One entry of an archive: its name, whether it is deflated (else stored),
/// the Unix permissions it was given and the bytes it holds.
pub open spec fn entry_name(e: (Seq<char>, bool, u32, Seq<u8>)) -> Seq<char> {
    e.0
}

/// The names of the entries, in order.
pub open spec fn entry_names_of(es: Seq<(Seq<char>, bool, u32, Seq<u8>)>) -> Seq<Seq<char>> {
    es.map_values(|e: (Seq<char>, bool, u32, Seq<u8>)| entry_name(e))
}

/// At most 2 GiB: an entry of this size always fits the 32-bit size fields
/// of a ZIP archive, compressed or not (the deflate encoder, miniz_oxide,
/// writes a stored block wherever compressing would grow the data, so a
/// deflated entry stays within a few bytes per block of its size).
pub open spec fn entry_fits(data: Seq<u8>) -> bool {
    data.len() <= 0x8000_0000
}

/// The entry written last, if any, fits the archive's size fields.
pub open spec fn last_entry_fits(es: Seq<(Seq<char>, bool, u32, Seq<u8>)>) -> bool {
    es.len() == 0 || entry_fits(es.last().3)
}

/// The entries of a ZIP writer, in the order they were started: for each,
/// its name, whether it is deflated, its Unix permissions and the bytes
/// written into it. `None` once a call on the writer has failed.
pub uninterp spec fn zip_entries(w: ZipSink) -> Option<Seq<(Seq<char>, bool, u32, Seq<u8>)>>;

/// The bytes of the ZIP archive that holds `entries`, in order, as
/// `zip::ZipWriter` writes it over an in-memory buffer.
pub uninterp spec fn zip_archive(entries: Seq<(Seq<char>, bool, u32, Seq<u8>)>) -> Seq<u8>;

/// How entries are compressed.
#[derive(Debug, Clone, Copy, PartialEq, Eq, Structural)]
pub enum Compression {
    Stored,
    Deflated,
}

/// `zip::ZipWriter::new` over an empty in-memory buffer: the writer has no
/// entries yet.
#[verifier::external_body]
fn zip_writer_new() -> (w: ZipSink)
    ensures
        zip_entries(w) == Some(Seq::<(Seq<char>, bool, u32, Seq<u8>)>::empty()),
{
    ZipSink { writer: zip::ZipWriter::new(std::io::Cursor::new(Vec::new())) }
}

/// `zip::ZipWriter::start_file` with the given compression and Unix
/// permissions. The source first finishes the entry before (which fails only
/// where its compressed size exceeds 32 bits, see `entry_fits`), then refuses a name that is
/// already there, and otherwise adds an empty entry named `name`; on an
/// in-memory buffer nothing else can fail. It panics on a name of more than
/// 65535 bytes, which `requires` leaves out.
#[verifier::external_body]
fn zip_start_file(
    w: &mut ZipSink,
    name: &str,
    compression: Compression,
    permissions: u32,
) -> (r: Result<(), zip::result::ZipError>)
    requires
        encode_utf8(name@).len() <= 65535,
    ensures
        (zip_entries(*old(w)) matches Some(es) && !entry_names_of(es).contains(name@) && last_entry_fits(es))
            ==> r is Ok,
        r is Ok ==> match zip_entries(*old(w)) {
            Some(es) => !entry_names_of(es).contains(name@) && zip_entries(*final(w)) == Some(
                es.push((name@, compression is Deflated, permissions, Seq::<u8>::empty())),
            ),
            None => zip_entries(*final(w)) is None,
        },
        r is Err ==> zip_entries(*final(w)) is None,
{
    let method = match compression {
        Compression::Stored => zip::CompressionMethod::Stored,
        Compression::Deflated => zip::CompressionMethod::Deflated,
    };
    let options = zip::write::SimpleFileOptions::default().compression_method(method).unix_permissions(permissions);
    w.writer.start_file(name, options)
}

/// `std::io::Write::write_all` on the writer: the entry started last gets
/// `data`. The source refuses an entry of more than `u32::MAX` bytes (the
/// writer is not set up for large files); on an in-memory buffer nothing
/// else can fail. Each entry is written by one such call.
#[verifier::external_body]
fn zip_write_all(w: &mut ZipSink, data: &[u8]) -> (r: Result<(), std::io::Error>)
    requires
        zip_entries(*old(w)) matches Some(es) ==> es.len() > 0 && es.last().3.len() == 0,
    ensures
        (zip_entries(*old(w)) is Some && data@.len() <= u32::MAX) ==> r is Ok,
        r is Ok ==> match zip_entries(*old(w)) {
            Some(es) => zip_entries(*final(w)) == Some(
                es.update(es.len() - 1, (es.last().0, es.last().1, es.last().2, data@)),
            ),
            None => zip_entries(*final(w)) is None,
        },
        r is Err ==> zip_entries(*final(w)) is None,
{
    std::io::Write::write_all(&mut w.writer, data)
}

/// `b` ends with a ZIP end-of-central-directory record without a comment:
/// its 22 bytes begin with the signature `PK\x05\x06` and end with a zero
/// comment length.
pub open spec fn ends_with_end_record(b: Seq<u8>) -> bool {
    &&& b.len() >= 22
    &&& b[b.len() - 22] == 0x50u8
    &&& b[b.len() - 21] == 0x4bu8
    &&& b[b.len() - 20] == 0x05u8
    &&& b[b.len() - 19] == 0x06u8
    &&& b[b.len() - 2] == 0u8
    &&& b[b.len() - 1] == 0u8
}

/// `zip::ZipWriter::finish`, then the bytes of the buffer. The source
/// finishes the last entry (which fails only where its compressed size
/// exceeds 32 bits), then writes the central directory and, last, the
/// end-of-central-directory record; the writers made here carry no archive
/// comment, so that record is the final 22 bytes. The bytes begin with the
/// first entry's local header (`PK\x03\x04`), or with the end record where
/// there is no entry. They are the same for the same entries: the crate is
/// built without zip's `time` feature, so every entry carries the fixed date
/// 1980-01-01, and deflating is deterministic.
#[verifier::external_body]
fn zip_finish(w: ZipSink) -> (r: Result<Vec<u8>, zip::result::ZipError>)
    ensures
        (zip_entries(w) matches Some(es) && last_entry_fits(es)) ==> r is Ok,
        r matches Ok(b) ==> ends_with_end_record(b@),
        r matches Ok(b) ==> (zip_entries(w) matches Some(es) ==> zip_magic(b@) && b@ == zip_archive(es)),
{
    match w.writer.finish() {
        Ok(cursor) => Ok(cursor.into_inner()),
        Err(e) => Err(e),
    }
}

/// The Unix permissions of archive entries: `rw-r--r--`.
pub const ENTRY_PERMISSIONS: u32 = 420;

/// The entries of an archive of the given files: `names[i]` holding
/// `contents[i]`, deflated, with `ENTRY_PERMISSIONS`.
pub open spec fn packed_entries(names: Seq<Seq<char>>, contents: Seq<Seq<u8>>) -> Seq<(Seq<char>, bool, u32, Seq<u8>)> {
    Seq::new(names.len(), |i: int| (names[i], true, ENTRY_PERMISSIONS, contents[i]))
}

/// The bytes of each buffer.
pub open spec fn byte_views(s: Seq<Vec<u8>>) -> Seq<Seq<u8>> {
    s.map_values(|v: Vec<u8>| v@)
}

/// An archive being written in memory.
pub struct ZipBuilder {
    writer: ZipSink,
}

impl ZipBuilder {
    /// The entries written so far, in order; `None` once a write has failed.
    pub closed spec fn entries(&self) -> Option<Seq<(Seq<char>, bool, u32, Seq<u8>)>> {
        zip_entries(self.writer)
    }

    /// An empty archive.
    pub fn new() -> (r: ZipBuilder)
        ensures
            r.entries() == Some(Seq::<(Seq<char>, bool, u32, Seq<u8>)>::empty()),
    {
        ZipBuilder { writer: zip_writer_new() }
    }

    /// Adds a deflated entry `name` holding `data`. A name already taken is
    /// refused; a name must fit the 65535 bytes of a ZIP name field.
    pub fn add_file(&mut self, name: &str, data: &[u8]) -> (r: Result<(), PackError>)
        requires
            encode_utf8(name@).len() <= 65535,
        ensures
            (old(self).entries() matches Some(es) && !entry_names_of(es).contains(name@) && last_entry_fits(es)
                && data@.len() <= u32::MAX) ==> r is Ok,
            r is Ok ==> match old(self).entries() {
                Some(es) => !entry_names_of(es).contains(name@) && final(self).entries() == Some(
                    es.push((name@, true, ENTRY_PERMISSIONS, data@)),
                ),
                None => final(self).entries() is None,
            },
            r is Err ==> (r matches Err(PackError::Archive)) && final(self).entries() is None,
    {
        let ghost old_entries = self.entries();
        match zip_start_file(&mut self.writer, name, Compression::Deflated, ENTRY_PERMISSIONS) {
            Ok(()) => {},
            Err(_) => {
                return Err(PackError::Archive);
            },
        }
        match zip_write_all(&mut self.writer, data) {
            Ok(()) => {
                proof {
                    if let Some(es) = old_entries {
                        let e = (name@, true, ENTRY_PERMISSIONS, Seq::<u8>::empty());
                        assert(es.push(e).update(es.len() as int, (name@, true, ENTRY_PERMISSIONS, data@))
                            =~= es.push((name@, true, ENTRY_PERMISSIONS, data@)));
                    }
                }
                Ok(())
            },
            Err(_) => Err(PackError::Archive),
        }
    }

    /// The bytes of the finished archive: the archive of its entries, which
    /// begins with a ZIP signature and ends with its end-of-central-directory
    /// record.
    pub fn finish(self) -> (r: Result<Vec<u8>, PackError>)
        ensures
            (self.entries() matches Some(es) && last_entry_fits(es)) ==> r is Ok,
            r matches Ok(b) ==> ends_with_end_record(b@),
            r matches Ok(b) ==> (self.entries() matches Some(es) ==> zip_magic(b@) && b@ == zip_archive(es)),
            r is Err ==> (r matches Err(PackError::Archive)),
    {
        match zip_finish(self.writer) {
            Ok(bytes) => Ok(bytes),
            Err(_) => Err(PackError::Archive),
        }
    }
}

/// The names of `archive_paths` in one archive, in order: each path gets
/// its unique name given the names of the paths before it.
pub open spec fn archive_names_ok(paths: Seq<Seq<char>>, names: Seq<Seq<char>>) -> bool {
    &&& names.len() == paths.len()
    &&& forall|i: int| 0 <= i < paths.len() ==> unique_choice(#[trigger] paths[i], names.take(i).to_set(), names[i])
}

/// The name of each file inside one archive: its archive path, or that path
/// with the smallest free numeric suffix where an earlier file took it.
pub fn archive_names(archive_paths: &[String]) -> (r: Vec<String>)
    requires
        archive_paths@.len() + 3 < usize::MAX,
    ensures
        archive_names_ok(string_views(archive_paths@), string_views(r@)),
{
    let mut used = NameSet::new();
    let mut names: Vec<String> = Vec::new();
    let mut i: usize = 0;
    while i < archive_paths.len()
        invariant
            i <= archive_paths@.len(),
            archive_paths@.len() + 3 < usize::MAX,
            used.size() == i,
            names@.len() == i,
            used@ == string_views(names@).to_set(),
            forall|j: int| 0 <= j < i ==> unique_choice(#[trigger] string_views(archive_paths@)[j], string_views(names@).take(j).to_set(), string_views(names@)[j]),
        decreases archive_paths@.len() - i,
    {
        let ghost before = string_views(names@);
        let n = unique_archive_path(archive_paths[i].as_str(), &mut used);
        let ghost nv = n@;
        names.push(n);
        proof {
            let after = string_views(names@);
            assert(after =~= before.push(nv));
            assert(after.take(i as int) =~= before);
            assert forall|j: int| 0 <= j < i + 1 implies unique_choice(#[trigger] string_views(archive_paths@)[j], after.take(j).to_set(), after[j]) by {
                if j < i {
                    assert(after.take(j) =~= before.take(j));
                    assert(after[j] == before[j]);
                }
            }
            assert(after.to_set() =~= before.to_set().insert(nv)) by {
                assert forall|t: Seq<char>| after.to_set().contains(t) == before.to_set().insert(nv).contains(t) by {
                    if after.to_set().contains(t) && t != nv {
                        let k = choose|k: int| 0 <= k < after.len() && after[k] == t;
                        assert(before[k] == t);
                    }
                    if before.to_set().contains(t) {
                        let k = choose|k: int| 0 <= k < before.len() && before[k] == t;
                        assert(after[k] == t);
                    }
                    if t == nv {
                        assert(after[i as int] == t);
                    }
                }
            }
        }
        i = i + 1;
    }
    assert(string_views(archive_paths@).len() == string_views(names@).len());
    names
}

/// Writes the files into the archive in order, each under its name:
/// `names[i]` holding `contents[i]`. It succeeds where the names are new and
/// distinct and every entry, the last one already written included, fits.
pub fn write_entries(builder: &mut ZipBuilder, names: &[String], contents: &[Vec<u8>]) -> (r: Result<(), PackError>)
    requires
        names@.len() == contents@.len(),
        forall|i: int| 0 <= i < names@.len() ==> encode_utf8(#[trigger] names@[i]@).len() <= 65535,
    ensures
        (old(builder).entries() matches Some(es) && last_entry_fits(es)
            && string_views(names@).no_duplicates()
            && (forall|i: int| 0 <= i < names@.len() ==> !entry_names_of(es).contains(#[trigger] names@[i]@))
            && (forall|i: int| 0 <= i < contents@.len() ==> entry_fits(#[trigger] contents@[i]@))) ==> r is Ok,
        r is Ok ==> match old(builder).entries() {
            Some(es) => final(builder).entries() == Some(es + packed_entries(string_views(names@), byte_views(contents@))),
            None => final(builder).entries() is None,
        },
        r is Err ==> (r matches Err(PackError::Archive)),
{
    let ghost start = builder.entries();
    let ghost nv = string_views(names@);
    let ghost cv = byte_views(contents@);
    let ghost good = start matches Some(es) && last_entry_fits(es) && nv.no_duplicates()
        && (forall|i: int| 0 <= i < names@.len() ==> !entry_names_of(es).contains(#[trigger] names@[i]@))
        && (forall|i: int| 0 <= i < contents@.len() ==> entry_fits(#[trigger] contents@[i]@));
    let mut i: usize = 0;
    while i < names.len()
        invariant
            i <= names@.len(),
            names@.len() == contents@.len(),
            start == old(builder).entries(),
            nv == string_views(names@),
            cv == byte_views(contents@),
            forall|k: int| 0 <= k < names@.len() ==> encode_utf8(#[trigger] names@[k]@).len() <= 65535,
            good == (start matches Some(es) && last_entry_fits(es) && nv.no_duplicates()
                && (forall|k: int| 0 <= k < names@.len() ==> !entry_names_of(es).contains(#[trigger] names@[k]@))
                && (forall|k: int| 0 <= k < contents@.len() ==> entry_fits(#[trigger] contents@[k]@))),
            match start {
                Some(es) => builder.entries() == Some(es + packed_entries(nv.take(i as int), cv.take(i as int))),
                None => builder.entries() is None,
            },
        decreases names@.len() - i,
    {
        proof {
            if let Some(es) = start {
                let cur = es + packed_entries(nv.take(i as int), cv.take(i as int));
                if good {
                    assert(entry_names_of(cur) =~= entry_names_of(es) + nv.take(i as int));
                    assert(!entry_names_of(cur).contains(names@[i as int]@)) by {
                        if entry_names_of(cur).contains(names@[i as int]@) {
                            let k = choose|k: int| 0 <= k < entry_names_of(cur).len() && entry_names_of(cur)[k] == names@[i as int]@;
                            if k >= es.len() {
                                assert(nv[k - es.len()] == nv[i as int]);
                            } else {
                                assert(entry_names_of(es)[k] == names@[i as int]@);
                            }
                        }
                    }
                    if i > 0 {
                        assert(cv[i - 1] == contents@[i - 1]@);
                        assert(cur.last().3 == contents@[i - 1]@);
                        assert(entry_fits(contents@[i - 1]@));
                    } else {
                        assert(cur =~= es);
                    }
                    assert(last_entry_fits(cur));
                    assert(entry_fits(contents@[i as int]@));
                    assert(contents@[i as int]@.len() <= u32::MAX);
                }
            }
        }
        match builder.add_file(names[i].as_str(), contents[i].as_slice()) {
            Ok(()) => {},
            Err(e) => {
                return Err(e);
            },
        }
        proof {
            if let Some(es) = start {
                assert(es + packed_entries(nv.take(i + 1), cv.take(i + 1))
                    =~= (es + packed_entries(nv.take(i as int), cv.take(i as int))).push(
                        (names@[i as int]@, true, ENTRY_PERMISSIONS, contents@[i as int]@),
                    ));
            }
        }
        i = i + 1;
    }
    assert(nv.take(names@.len() as int) =~= nv);
    assert(cv.take(contents@.len() as int) =~= cv);
    Ok(())
}

/// Every file's name in the archive fits the 65535 bytes of a ZIP name field.
pub open spec fn archive_names_fit(paths: Seq<Seq<char>>) -> bool {
    forall|names: Seq<Seq<char>>, i: int|
        #![trigger archive_names_ok(paths, names), names[i]]
        archive_names_ok(paths, names) && 0 <= i < names.len() ==> encode_utf8(names[i]).len() <= 65535
}

/// Packs the files into a ZIP archive in memory: `contents[i]` under the
/// unique name that `archive_paths[i]` gets in the archive, in order. It
/// succeeds where every file fits; the bytes begin with a ZIP signature and
/// end with the archive's end-of-central-directory record.
pub fn build_archive(archive_paths: &[String], contents: &[Vec<u8>]) -> (r: Result<Vec<u8>, PackError>)
    requires
        archive_paths@.len() == contents@.len(),
        archive_paths@.len() + 3 < usize::MAX,
        archive_names_fit(string_views(archive_paths@)),
    ensures
        (forall|i: int| 0 <= i < contents@.len() ==> entry_fits(#[trigger] contents@[i]@)) ==> r is Ok,
        r matches Ok(b) ==> exists|names: Seq<Seq<char>>|
            archive_names_ok(string_views(archive_paths@), names)
                && b@ == zip_archive(packed_entries(names, byte_views(contents@))),
        r matches Ok(b) ==> ends_with_end_record(b@) && zip_magic(b@),
        r is Err ==> (r matches Err(PackError::Archive)),
{
    let names = archive_names(archive_paths);
    let ghost nv = string_views(names@);
    proof {
        lemma_archive_names_distinct(string_views(archive_paths@), nv);
        assert forall|i: int| 0 <= i < names@.len() implies encode_utf8(#[trigger] names@[i]@).len() <= 65535 by {
            assert(nv[i] == names@[i]@);
        }
        assert(nv.no_duplicates()) by {
            assert forall|i: int, j: int| 0 <= i < nv.len() && 0 <= j < nv.len() && i != j implies nv[i] != nv[j] by {
                if i > j {
                    assert(nv[j] != nv[i]);
                }
            }
        }
    }
    let mut builder = ZipBuilder::new();
    proof {
        assert forall|i: int| 0 <= i < names@.len() implies !entry_names_of(Seq::<(Seq<char>, bool, u32, Seq<u8>)>::empty()).contains(#[trigger] names@[i]@) by {
            assert(entry_names_of(Seq::<(Seq<char>, bool, u32, Seq<u8>)>::empty()) =~= Seq::<Seq<char>>::empty());
        }
    }
    match write_entries(&mut builder, names.as_slice(), contents) {
        Ok(()) => {},
        Err(e) => {
            return Err(e);
        },
    }
    let ghost es = packed_entries(nv, byte_views(contents@));
    proof {
        assert(Seq::<(Seq<char>, bool, u32, Seq<u8>)>::empty() + es =~= es);
        if es.len() > 0 {
            assert(es.last().3 == contents@[es.len() - 1]@);
        }
    }
    let r = builder.finish();
    proof {
        if r is Ok {
            let b = r->Ok_0;
            assert(archive_names_ok(string_views(archive_paths@), nv) && b@ == zip_archive(packed_entries(nv, byte_views(contents@))));
        }
    }
    r
}

/// No two files of one archive get the same name.
pub proof fn lemma_archive_names_distinct(paths: Seq<Seq<char>>, names: Seq<Seq<char>>)
    requires
        archive_names_ok(paths, names),
    ensures
        forall|i: int, j: int| 0 <= i < j < names.len() ==> names[i] != names[j],
{
    assert forall|i: int, j: int| 0 <= i < j < names.len() implies names[i] != names[j] by {
        assert(unique_choice(paths[j], names.take(j).to_set(), names[j]));
        assert(names.take(j)[i] == names[i]);
        assert(names.take(j).to_set().contains(names[i]));
        if !names.take(j).to_set().contains(paths[j]) {
        } else {
            let k = choose|k: nat|
                #![trigger suffixed(paths[j], k)]
                k >= 2 && names[j] == suffixed(paths[j], k) && !names.take(j).to_set().contains(names[j])
                    && forall|m: nat| 2 <= m < k ==> names.take(j).to_set().contains(#[trigger] suffixed(paths[j], m));
        }
    }
}

/// The name a path gets is determined by the names already taken.
pub proof fn lemma_unique_choice_determined(path: Seq<char>, used: Set<Seq<char>>, r1: Seq<char>, r2: Seq<char>)
    requires
        unique_choice(path, used, r1),
        unique_choice(path, used, r2),
    ensures
        r1 == r2,
{
    if used.contains(path) {
        let i1 = choose|i: nat|
            #![trigger suffixed(path, i)]
            i >= 2 && r1 == suffixed(path, i) && !used.contains(r1) && forall|j: nat|
                2 <= j < i ==> used.contains(#[trigger] suffixed(path, j));
        let i2 = choose|i: nat|
            #![trigger suffixed(path, i)]
            i >= 2 && r2 == suffixed(path, i) && !used.contains(r2) && forall|j: nat|
                2 <= j < i ==> used.contains(#[trigger] suffixed(path, j));
        if i1 < i2 {
            assert(used.contains(suffixed(path, i1)));
        } else if i2 < i1 {
            assert(used.contains(suffixed(path, i2)));
        }
    }
}

/// The first `k` names of the files of one archive are determined by their paths.
proof fn lemma_archive_names_prefix(paths: Seq<Seq<char>>, n1: Seq<Seq<char>>, n2: Seq<Seq<char>>, k: int)
    requires
        archive_names_ok(paths, n1),
        archive_names_ok(paths, n2),
        0 <= k <= paths.len(),
    ensures
        n1.take(k) == n2.take(k),
    decreases k,
{
    if k > 0 {
        lemma_archive_names_prefix(paths, n1, n2, k - 1);
        assert(unique_choice(paths[k - 1], n1.take(k - 1).to_set(), n1[k - 1]));
        assert(unique_choice(paths[k - 1], n2.take(k - 1).to_set(), n2[k - 1]));
        lemma_unique_choice_determined(paths[k - 1], n1.take(k - 1).to_set(), n1[k - 1], n2[k - 1]);
        assert(n1.take(k) =~= n1.take(k - 1).push(n1[k - 1]));
        assert(n2.take(k) =~= n2.take(k - 1).push(n2[k - 1]));
    }
}

/// The names of the files of one archive are determined by their paths:
/// two sequences of names that both fit are the same.
pub proof fn lemma_archive_names_unique(paths: Seq<Seq<char>>, n1: Seq<Seq<char>>, n2: Seq<Seq<char>>)
    requires
        archive_names_ok(paths, n1),
        archive_names_ok(paths, n2),
    ensures
        n1 == n2,
{
    lemma_archive_names_prefix(paths, n1, n2, paths.len() as int);
    assert(n1.take(paths.len() as int) =~= n1);
    assert(n2.take(paths.len() as int) =~= n2);
}

/// Bytes that begin with a ZIP signature, such as a built archive, are
/// classified as a ZIP whatever their URL and content type.
pub proof fn lemma_archive_classified_as_zip(url: Seq<char>, content_type: Seq<char>, b: Seq<u8>)
    requires
        zip_magic(b),
    ensures
        classification(url, content_type, b) == Ok::<FetchedKind, Seq<char>>(FetchedKind::Zip),
{
}

} // verus!
