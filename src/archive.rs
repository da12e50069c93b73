//! Files, archives and their canonical binary form.
use vstd::prelude::*;
use crate::cbor::{
    bytes_item, expect, head, lemma_bytes_unique, lemma_head_unique, lemma_prefix_concat,
    lemma_text_unique, lemma_whole, prefix_at, push_bytes, push_head, push_text, read_bytes,
    read_head, read_text, text_item, MAJOR_ARRAY, MAJOR_MAP, MAJOR_UINT,
};

verus! {

/// One file of an archive: where it goes, relative to the archive's root,
/// and its bytes.
#[derive(Clone, Debug, PartialEq, Eq, Hash)]
pub struct File {
    pub path: String,
    pub content: Vec<u8>,
}

/// What a `File` holds.
pub struct FileModel {
    pub path: Seq<char>,
    pub content: Seq<u8>,
}

impl View for File {
    type V = FileModel;

    open spec fn view(&self) -> FileModel {
        FileModel { path: self.path@, content: self.content@ }
    }
}

/// A snapshot of a directory: when it was taken and its files, in order.
#[derive(Clone, Debug, PartialEq, Eq, Hash)]
pub struct Archive {
    /// Seconds since the Unix epoch.
    pub created_at: u64,
    pub files: Vec<File>,
}

/// What an `Archive` holds.
pub struct ArchiveModel {
    pub created_at: u64,
    pub files: Seq<FileModel>,
}

pub open spec fn file_models(files: Seq<File>) -> Seq<FileModel> {
    files.map_values(|f: File| f@)
}

impl View for Archive {
    type V = ArchiveModel;

    open spec fn view(&self) -> ArchiveModel {
        ArchiveModel { created_at: self.created_at, files: file_models(self.files@) }
    }
}

/// Relies on `SystemTime::now` and `SystemTime::duration_since`: the whole
/// seconds since the Unix epoch, or `None` for a clock set before it.
#[verifier::external_body]
pub fn now_epoch_secs() -> (r: Option<u64>) {
    match std::time::SystemTime::now().duration_since(std::time::UNIX_EPOCH) {
        Ok(d) => Some(d.as_secs()),
        Err(_) => None,
    }
}

/// The bytes handed to an archive's consumer could not be read as one.
#[derive(Clone, Copy, Debug, PartialEq, Eq)]
pub enum DecodeError {
    Malformed,
}

/// A file is written as a map `{"path": text, "content": bytes}`.
pub open spec fn file_bytes(f: FileModel) -> Seq<u8> {
    head(MAJOR_MAP, 2) + text_item("path"@) + text_item(f.path) + text_item("content"@)
        + bytes_item(f.content)
}

/// The files, one after the other.
pub open spec fn files_bytes(fs: Seq<FileModel>) -> Seq<u8>
    decreases fs.len(),
{
    if fs.len() == 0 {
        Seq::empty()
    } else {
        files_bytes(fs.drop_last()) + file_bytes(fs.last())
    }
}

/// What stands before the files: a map head, the timestamp and the head of
/// the array of files.
pub open spec fn archive_prefix(created_at: u64, count: nat) -> Seq<u8> {
    head(MAJOR_MAP, 2) + text_item("created_at"@) + head(MAJOR_UINT, created_at) + text_item(
        "files"@,
    ) + head(MAJOR_ARRAY, count as u64)
}

/// The canonical form of an archive: the map
/// `{"created_at": uint, "files": [file, ...]}`.
pub open spec fn archive_bytes(a: ArchiveModel) -> Seq<u8> {
    archive_prefix(a.created_at, a.files.len()) + files_bytes(a.files)
}

/// Encoding depends on nothing but the archive's contents: archives that
/// hold the same encode to the same bytes, call after call.
pub proof fn lemma_encoding_deterministic(a: Archive, b: Archive)
    requires
        a@ == b@,
    ensures
        archive_bytes(a@) == archive_bytes(b@),
{
}

/// The files before index `i` are written before file `i`.
proof fn lemma_files_take(fs: Seq<FileModel>, i: int)
    requires
        0 <= i < fs.len(),
    ensures
        files_bytes(fs.take(i + 1)) == files_bytes(fs.take(i)) + file_bytes(fs[i]),
{
    assert(fs.take(i + 1).drop_last() =~= fs.take(i));
}

/// The bytes of the first `i` files begin the bytes of all of them.
proof fn lemma_files_prefix(fs: Seq<FileModel>, i: int)
    requires
        0 <= i <= fs.len(),
    ensures
        files_bytes(fs.take(i)).len() <= files_bytes(fs).len(),
        files_bytes(fs).subrange(0, files_bytes(fs.take(i)).len() as int) == files_bytes(
            fs.take(i),
        ),
    decreases fs.len() - i,
{
    if i == fs.len() {
        assert(fs.take(i) =~= fs);
        assert(files_bytes(fs).subrange(0, files_bytes(fs).len() as int) =~= files_bytes(fs));
    } else {
        lemma_files_prefix(fs, i + 1);
        lemma_files_take(fs, i);
        let x = files_bytes(fs.take(i));
        let x1 = files_bytes(fs.take(i + 1));
        assert(files_bytes(fs).subrange(0, x.len() as int) =~= x1.subrange(0, x.len() as int));
        assert(x1.subrange(0, x.len() as int) =~= x);
    }
}

/// Each file takes at least one byte.
proof fn lemma_files_len(fs: Seq<FileModel>)
    ensures
        fs.len() <= files_bytes(fs).len(),
    decreases fs.len(),
{
    if fs.len() > 0 {
        lemma_files_len(fs.drop_last());
    }
}

/// In the canonical form of `a`, file `i` stands right after the ones before it.
proof fn lemma_next_file(b: Seq<u8>, a: ArchiveModel, done: Seq<FileModel>, pos: int, i: int)
    requires
        archive_bytes(a) == b,
        done == a.files.take(i),
        0 <= i < a.files.len(),
        0 <= pos <= b.len(),
        b.subrange(0, pos) == archive_prefix(a.created_at, a.files.len()) + files_bytes(done),
    ensures
        prefix_at(file_bytes(a.files[i]), b, pos),
{
    lemma_files_prefix(a.files, i + 1);
    lemma_files_take(a.files, i);
    let pre = archive_prefix(a.created_at, a.files.len());
    let y = files_bytes(a.files);
    let x = files_bytes(a.files.take(i));
    let x1 = files_bytes(a.files.take(i + 1));
    let fb = file_bytes(a.files[i]);
    assert(b.subrange(0, pos).len() == pos);
    assert(files_bytes(done) == x);
    assert((pre + x).len() == pre.len() + x.len());
    assert(pos == pre.len() + x.len());
    assert(b.subrange(pos, pos + fb.len()) =~= y.subrange(x.len() as int, x1.len() as int));
    assert(y.subrange(x.len() as int, x1.len() as int) =~= x1.subrange(
        x.len() as int,
        x1.len() as int,
    ));
    assert(x1.subrange(x.len() as int, x1.len() as int) =~= fb);
}

/// A file stands at `pos` exactly when each of its five parts stands in turn.
broadcast proof fn lemma_file_parts(g: FileModel, s: Seq<u8>, pos: int)
    ensures
        #[trigger] prefix_at(file_bytes(g), s, pos) == {
            let p1 = pos + head(MAJOR_MAP, 2).len();
            let p2 = p1 + text_item("path"@).len();
            let p3 = p2 + text_item(g.path).len();
            let p4 = p3 + text_item("content"@).len();
            &&& prefix_at(head(MAJOR_MAP, 2), s, pos)
            &&& prefix_at(text_item("path"@), s, p1)
            &&& prefix_at(text_item(g.path), s, p2)
            &&& prefix_at(text_item("content"@), s, p3)
            &&& prefix_at(bytes_item(g.content), s, p4)
        },
{
    let h = head(MAJOR_MAP, 2);
    let kp = text_item("path"@);
    let t = text_item(g.path);
    let kc = text_item("content"@);
    let c = bytes_item(g.content);
    lemma_prefix_concat(h + kp + t + kc, c, s, pos);
    lemma_prefix_concat(h + kp + t, kc, s, pos);
    lemma_prefix_concat(h + kp, t, s, pos);
    lemma_prefix_concat(h, kp, s, pos);
}

/// Each of the five parts of the head of an archive stands in turn at the
/// start of `s`.
pub open spec fn prefix_parts(c: u64, n: nat, s: Seq<u8>) -> bool {
    let p1 = head(MAJOR_MAP, 2).len();
    let p2 = p1 + text_item("created_at"@).len();
    let p3 = p2 + head(MAJOR_UINT, c).len();
    let p4 = p3 + text_item("files"@).len();
    &&& prefix_at(head(MAJOR_MAP, 2), s, 0)
    &&& prefix_at(text_item("created_at"@), s, p1 as int)
    &&& prefix_at(head(MAJOR_UINT, c), s, p2 as int)
    &&& prefix_at(text_item("files"@), s, p3 as int)
    &&& prefix_at(head(MAJOR_ARRAY, n as u64), s, p4 as int)
}

/// The head of an archive stands at the start exactly when each of its five
/// parts stands in turn.
proof fn lemma_prefix_parts(c: u64, n: nat, s: Seq<u8>)
    ensures
        prefix_at(archive_prefix(c, n), s, 0) == prefix_parts(c, n, s),
{
    let h = head(MAJOR_MAP, 2);
    let kc = text_item("created_at"@);
    let u = head(MAJOR_UINT, c);
    let kf = text_item("files"@);
    let arr = head(MAJOR_ARRAY, n as u64);
    lemma_prefix_concat(h + kc + u + kf, arr, s, 0);
    lemma_prefix_concat(h + kc + u, kf, s, 0);
    lemma_prefix_concat(h + kc, u, s, 0);
    lemma_prefix_concat(h, kc, s, 0);
}

/// The canonical form of an archive begins with the five parts of its head.
broadcast proof fn lemma_archive_start(a: ArchiveModel)
    ensures
        prefix_parts(a.created_at, a.files.len(), #[trigger] archive_bytes(a)),
{
    lemma_archive_parts(a, archive_bytes(a));
    lemma_prefix_parts(a.created_at, a.files.len(), archive_bytes(a));
}

/// The canonical form of `a` begins with the head of `a`.
proof fn lemma_archive_parts(a: ArchiveModel, s: Seq<u8>)
    requires
        archive_bytes(a) == s,
    ensures
        prefix_at(archive_prefix(a.created_at, a.files.len()), s, 0),
{
    lemma_whole(s);
    lemma_prefix_concat(archive_prefix(a.created_at, a.files.len()), files_bytes(a.files), s, 0);
}

/// Archives with the same canonical form have the same first `i` files.
proof fn lemma_same_files_prefix(a1: ArchiveModel, a2: ArchiveModel, i: int)
    requires
        archive_bytes(a1) == archive_bytes(a2),
        archive_bytes(a1).len() <= u64::MAX,
        a1.created_at == a2.created_at,
        a1.files.len() == a2.files.len(),
        0 <= i <= a1.files.len(),
    ensures
        a1.files.take(i) == a2.files.take(i),
    decreases i,
{
    if i > 0 {
        let j = i - 1;
        lemma_same_files_prefix(a1, a2, j);
        let s = archive_bytes(a1);
        let pre = archive_prefix(a1.created_at, a1.files.len());
        let x = files_bytes(a1.files.take(j));
        lemma_files_prefix(a1.files, j);
        let pos = (pre.len() + x.len()) as int;
        assert(s.subrange(0, pos) =~= pre + x);
        lemma_next_file(s, a1, a1.files.take(j), pos, j);
        lemma_next_file(s, a2, a2.files.take(j), pos, j);
        let f1 = a1.files[j];
        let f2 = a2.files[j];
        lemma_file_parts(f1, s, pos);
        lemma_file_parts(f2, s, pos);
        let p2 = pos + head(MAJOR_MAP, 2).len() + text_item("path"@).len() as int;
        lemma_text_unique(f1.path, f2.path, s, p2);
        let p4 = p2 + text_item(f1.path).len() + text_item("content"@).len() as int;
        lemma_bytes_unique(f1.content, f2.content, s, p4);
        assert(f1 == f2);
        assert(a1.files.take(i) =~= a1.files.take(j).push(f1));
        assert(a2.files.take(i) =~= a2.files.take(j).push(f2));
    }
}

/// The canonical form determines the archive: two archives whose canonical
/// forms agree are the same archive. Decoding is therefore well defined,
/// and decoding an encoded archive gives it back.
pub proof fn lemma_encoding_injective(a1: ArchiveModel, a2: ArchiveModel)
    requires
        archive_bytes(a1) == archive_bytes(a2),
        archive_bytes(a1).len() <= u64::MAX,
    ensures
        a1 == a2,
{
    let s = archive_bytes(a1);
    lemma_archive_parts(a1, s);
    lemma_archive_parts(a2, s);
    lemma_prefix_parts(a1.created_at, a1.files.len(), s);
    lemma_prefix_parts(a2.created_at, a2.files.len(), s);
    lemma_files_len(a1.files);
    lemma_files_len(a2.files);
    let p2 = head(MAJOR_MAP, 2).len() + text_item("created_at"@).len();
    lemma_head_unique(MAJOR_UINT, a1.created_at, MAJOR_UINT, a2.created_at, s, p2 as int);
    let p4 = p2 + head(MAJOR_UINT, a1.created_at).len() + text_item("files"@).len();
    lemma_head_unique(
        MAJOR_ARRAY,
        a1.files.len() as u64,
        MAJOR_ARRAY,
        a2.files.len() as u64,
        s,
        p4 as int,
    );
    lemma_same_files_prefix(a1, a2, a1.files.len() as int);
    assert(a1.files.take(a1.files.len() as int) =~= a1.files);
    assert(a2.files.take(a2.files.len() as int) =~= a2.files);
}

/// Reads the file that stands at `pos`.
fn read_file(b: &[u8], pos: usize) -> (r: Option<(File, usize)>)
    requires
        b@.len() <= u64::MAX,
    ensures
        r matches Some((f, end)) ==> prefix_at(file_bytes(f@), b@, pos as int) && end == pos
            + file_bytes(f@).len(),
        forall|g: FileModel| #[trigger]
            prefix_at(file_bytes(g), b@, pos as int) ==> (r matches Some((f, end)) && f@ == g),
{
    broadcast use lemma_file_parts;

    // Knowing b.len() bounds b@.len() by usize::MAX for the sums below.
    let _len = b.len();
    let mut key_path: Vec<u8> = Vec::new();
    push_text(&mut key_path, "path");
    let mut key_content: Vec<u8> = Vec::new();
    push_text(&mut key_content, "content");
    let (m, n, p1) = match read_head(b, pos) {
        Some(x) => x,
        None => {
            return None;
        },
    };
    if m != MAJOR_MAP || n != 2 {
        proof {
            assert forall|g: FileModel| !(#[trigger] prefix_at(file_bytes(g), b@, pos as int)) by {
                if prefix_at(file_bytes(g), b@, pos as int) {
                    lemma_head_unique(m, n, MAJOR_MAP, 2, b@, pos as int);
                }
            }
        }
        return None;
    }
    proof {
        assert(p1 == pos + head(MAJOR_MAP, 2).len());
    }
    if !expect(b, p1, &key_path) {
        return None;
    }
    let p2 = p1 + key_path.len();
    let (path, p3) = match read_text(b, p2) {
        Some(x) => x,
        None => {
            return None;
        },
    };
    proof {
        assert forall|g: FileModel| #[trigger]
            prefix_at(file_bytes(g), b@, pos as int) implies g.path == path@ by {
            lemma_text_unique(g.path, path@, b@, p2 as int);
        }
    }
    if !expect(b, p3, &key_content) {
        return None;
    }
    let p4 = p3 + key_content.len();
    let (content, p5) = match read_bytes(b, p4) {
        Some(x) => x,
        None => {
            return None;
        },
    };
    let f = File { path, content };
    proof {
        lemma_file_parts(f@, b@, pos as int);
        assert forall|g: FileModel| #[trigger]
            prefix_at(file_bytes(g), b@, pos as int) implies f@ == g by {
            lemma_bytes_unique(g.content, f.content@, b@, p4 as int);
        }
    }
    Some((f, p5))
}

/// A parent-directory segment `..` begins at `i`.
pub open spec fn parent_segment_at(p: Seq<char>, i: int) -> bool {
    &&& 0 <= i && i + 1 < p.len()
    &&& p[i] == '.' && p[i + 1] == '.'
    &&& i == 0 || p[i - 1] == '/'
    &&& i + 2 == p.len() || p[i + 2] == '/'
}

/// A path that stays inside the directory it is joined to: not empty, not
/// absolute, no backslash or NUL, and no `..` segment.
pub open spec fn safe_path(p: Seq<char>) -> bool {
    &&& p.len() > 0
    &&& p[0] != '/'
    &&& forall|i: int| 0 <= i < p.len() ==> #[trigger] p[i] != '\\' && p[i] != '\0'
    &&& forall|i: int| !#[trigger] parent_segment_at(p, i)
}

/// Whether `path` stays inside the directory it is joined to.
pub fn is_safe_path(path: &str) -> (r: bool)
    ensures
        r == safe_path(path@),
{
    let n = path.unicode_len();
    if n == 0 || path.get_char(0) == '/' {
        return false;
    }
    let mut i: usize = 0;
    while i < n
        invariant
            n == path@.len(),
            i <= n,
            path@.len() > 0 && path@[0] != '/',
            forall|j: int| 0 <= j < i ==> #[trigger] path@[j] != '\\' && path@[j] != '\0',
            forall|j: int| 0 <= j < i ==> !#[trigger] parent_segment_at(path@, j),
        decreases n - i,
    {
        let c = path.get_char(i);
        if c == '\\' || c == '\0' {
            return false;
        }
        if c == '.' && i + 1 < n && path.get_char(i + 1) == '.' && (i == 0 || path.get_char(i - 1)
            == '/') && (i + 2 == n || path.get_char(i + 2) == '/') {
            assert(parent_segment_at(path@, i as int));
            return false;
        }
        i = i + 1;
    }
    proof {
        assert forall|j: int| !#[trigger] parent_segment_at(path@, j) by {
            if 0 <= j < n {
            }
        }
    }
    true
}

impl File {
    pub fn new(path: String, content: Vec<u8>) -> (r: File)
        ensures
            r.path@ == path@,
            r.content@ == content@,
    {
        File { path, content }
    }
}

impl Archive {
    /// An archive of `files`, stamped with the current time; `None` when
    /// the clock reads before the Unix epoch.
    pub fn new(files: Vec<File>) -> (r: Option<Archive>)
        ensures
            r matches Some(a) ==> a.files@ == files@,
    {
        match now_epoch_secs() {
            Some(created_at) => Some(Archive { created_at, files }),
            None => None,
        }
    }

    /// Whether every path of the archive stays inside the directory that
    /// the archive is written to.
    pub fn paths_are_safe(&self) -> (r: bool)
        ensures
            r == forall|i: int|
                0 <= i < self.files@.len() ==> safe_path(#[trigger] self.files@[i].path@),
    {
        let mut i: usize = 0;
        while i < self.files.len()
            invariant
                i <= self.files@.len(),
                forall|j: int| 0 <= j < i ==> safe_path(#[trigger] self.files@[j].path@),
            decreases self.files@.len() - i,
        {
            if !is_safe_path(self.files[i].path.as_str()) {
                return false;
            }
            i = i + 1;
        }
        true
    }

    /// Appends the canonical form of this archive to `out`.
    fn write_cbor_to(&self, out: &mut Vec<u8>)
        ensures
            final(out)@ == old(out)@ + archive_bytes(self@),
    {
        let ghost start = out@;
        push_head(out, MAJOR_MAP, 2);
        push_text(out, "created_at");
        push_head(out, MAJOR_UINT, self.created_at);
        push_text(out, "files");
        push_head(out, MAJOR_ARRAY, self.files.len() as u64);
        let ghost pre = out@;
        assert(pre =~= start + archive_prefix(self.created_at, self@.files.len()));
        let mut i: usize = 0;
        while i < self.files.len()
            invariant
                i <= self.files@.len(),
                out@ == pre + files_bytes(self@.files.take(i as int)),
            decreases self.files@.len() - i,
        {
            let f = &self.files[i];
            push_head(out, MAJOR_MAP, 2);
            push_text(out, "path");
            push_text(out, f.path.as_str());
            push_text(out, "content");
            push_bytes(out, f.content.as_slice());
            proof {
                lemma_files_take(self@.files, i as int);
            }
            i = i + 1;
            assert(out@ =~= pre + files_bytes(self@.files.take(i as int)));
        }
        assert(self@.files.take(i as int) =~= self@.files);
        assert(final(out)@ =~= old(out)@ + archive_bytes(self@));
    }

    /// The canonical form of this archive.
    pub fn to_cbor_bytes(&self) -> (r: Vec<u8>)
        ensures
            r@ == archive_bytes(self@),
    {
        let mut out: Vec<u8> = Vec::new();
        self.write_cbor_to(&mut out);
        assert(out@ =~= archive_bytes(self@));
        out
    }

    /// Reads an archive from its canonical form. Anything else, including
    /// trailing bytes, is malformed.
    #[verifier::rlimit(40)]
    pub fn from_cbor_bytes(b: &[u8]) -> (r: Result<Archive, DecodeError>)
        ensures
            r matches Ok(a) ==> archive_bytes(a@) == b@,
            forall|a: ArchiveModel| #[trigger]
                archive_bytes(a) == b@ ==> (r matches Ok(x) && x@ == a),
            r is Err ==> r == Err::<Archive, DecodeError>(DecodeError::Malformed),
    {
        broadcast use lemma_archive_start;

        // Knowing b.len() bounds b@.len() by usize::MAX for the sums below.
        let _len = b.len();
        let mut key_created: Vec<u8> = Vec::new();
        push_text(&mut key_created, "created_at");
        let mut key_files: Vec<u8> = Vec::new();
        push_text(&mut key_files, "files");
        let (m, n, p1) = match read_head(b, 0) {
            Some(x) => x,
            None => {
                return Err(DecodeError::Malformed);
            },
        };
        if m != MAJOR_MAP || n != 2 {
            proof {
                assert forall|a: ArchiveModel| #[trigger] archive_bytes(a) != b@ by {
                    if archive_bytes(a) == b@ {
                        lemma_head_unique(m, n, MAJOR_MAP, 2, b@, 0);
                    }
                }
            }
            return Err(DecodeError::Malformed);
        }
        if !expect(b, p1, &key_created) {
            return Err(DecodeError::Malformed);
        }
        let p2 = p1 + key_created.len();
        let (m, created_at, p3) = match read_head(b, p2) {
            Some(x) => x,
            None => {
                return Err(DecodeError::Malformed);
            },
        };
        if m != MAJOR_UINT {
            proof {
                assert forall|a: ArchiveModel| #[trigger] archive_bytes(a) != b@ by {
                    if archive_bytes(a) == b@ {
                        lemma_head_unique(m, created_at, MAJOR_UINT, a.created_at, b@, p2 as int);
                    }
                }
            }
            return Err(DecodeError::Malformed);
        }
        proof {
            assert forall|a: ArchiveModel| #[trigger]
                archive_bytes(a) == b@ implies a.created_at == created_at by {
                lemma_head_unique(m, created_at, MAJOR_UINT, a.created_at, b@, p2 as int);
            }
        }
        if !expect(b, p3, &key_files) {
            return Err(DecodeError::Malformed);
        }
        let p4 = p3 + key_files.len();
        let (m, count, p5) = match read_head(b, p4) {
            Some(x) => x,
            None => {
                return Err(DecodeError::Malformed);
            },
        };
        if m != MAJOR_ARRAY {
            proof {
                assert forall|a: ArchiveModel| #[trigger] archive_bytes(a) != b@ by {
                    if archive_bytes(a) == b@ {
                        let len = a.files.len() as u64;
                        lemma_head_unique(m, count, MAJOR_ARRAY, len, b@, p4 as int);
                    }
                }
            }
            return Err(DecodeError::Malformed);
        }
        proof {
            assert forall|a: ArchiveModel| #[trigger]
                archive_bytes(a) == b@ implies a.files.len() == count by {
                lemma_files_len(a.files);
                lemma_head_unique(m, count, MAJOR_ARRAY, a.files.len() as u64, b@, p4 as int);
            }
            lemma_prefix_parts(created_at, count as nat, b@);
            assert(prefix_at(archive_prefix(created_at, count as nat), b@, 0));
        }
        let mut files: Vec<File> = Vec::new();
        let mut pos = p5;
        let mut i: u64 = 0;
        while i < count
            invariant
                b@.len() <= u64::MAX,
                i <= count,
                files@.len() == i,
                p5 == archive_prefix(created_at, count as nat).len(),
                p5 <= pos <= b@.len(),
                b@.subrange(0, pos as int) == archive_prefix(created_at, count as nat)
                    + files_bytes(file_models(files@)),
                forall|a: ArchiveModel| #[trigger]
                    archive_bytes(a) == b@ ==> a.created_at == created_at && a.files.len()
                        == count && file_models(files@) == a.files.take(i as int),
            decreases count - i,
        {
            proof {
                assert forall|a: ArchiveModel| #[trigger]
                    archive_bytes(a) == b@ implies prefix_at(
                    file_bytes(a.files[i as int]),
                    b@,
                    pos as int,
                ) by {
                    lemma_next_file(b@, a, file_models(files@), pos as int, i as int);
                }
            }
            let (f, next) = match read_file(b, pos) {
                Some(x) => x,
                None => {
                    proof {
                        assert forall|a: ArchiveModel| #[trigger] archive_bytes(a) != b@ by {
                            if archive_bytes(a) == b@ {
                                assert(prefix_at(file_bytes(a.files[i as int]), b@, pos as int));
                            }
                        }
                    }
                    return Err(DecodeError::Malformed);
                },
            };
            let ghost old_files = files@;
            files.push(f);
            proof {
                assert(file_models(files@).drop_last() =~= file_models(old_files));
                assert(b@.subrange(0, next as int) =~= b@.subrange(0, pos as int) + file_bytes(f@));
                assert forall|a: ArchiveModel| #[trigger]
                    archive_bytes(a) == b@ implies file_models(files@) == a.files.take(
                    i as int + 1,
                ) by {
                    assert(prefix_at(file_bytes(a.files[i as int]), b@, pos as int));
                    assert(file_models(files@) =~= a.files.take(i as int + 1));
                }
            }
            pos = next;
            i = i + 1;
        }
        let a = Archive { created_at, files };
        if pos != b.len() {
            proof {
                assert forall|a: ArchiveModel| #[trigger] archive_bytes(a) != b@ by {
                    if archive_bytes(a) == b@ {
                        assert(a.files.take(count as int) =~= a.files);
                    }
                }
            }
            return Err(DecodeError::Malformed);
        }
        proof {
            assert(b@.subrange(0, pos as int) =~= b@);
            assert forall|x: ArchiveModel| #[trigger] archive_bytes(x) == b@ implies a@ == x by {
                assert(x.files.take(count as int) =~= x.files);
            }
        }
        Ok(a)
    }
}

} // verus!
