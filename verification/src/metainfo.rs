//! The torrent metainfo schema and the projection of a decoded bencode tree
//! onto it.
//!
//! The projection is specified relationally: [`torrent_matches`] says when a
//! [`Torrent`] record is a faithful reading of a bencode value, and
//! [`project`] returns the matching record exactly when one exists. A value
//! admits at most one matching record ([`lemma_torrent_matches_unique`]), so
//! projecting the same tree twice always yields structurally equal records.

use vstd::prelude::*;

use crate::value::{model_of, model_pairs, model_seq, BValue, BencodeValue};

verus! {

/// A projected torrent: the announce URL and the info dictionary.
///
/// Byte-string fields are kept as raw bytes: bencode byte strings are not
/// assumed to be UTF-8 text, and the projection does not re-interpret them.
#[derive(Debug, PartialEq, Eq)]
pub struct Torrent {
    /// The tracker announce URL, as the raw bytes of the `announce` field.
    pub announce: Vec<u8>,
    /// The projected `info` dictionary.
    pub info: Info,
}

/// The projected `info` dictionary of a torrent.
#[derive(Debug, PartialEq, Eq)]
pub struct Info {
    /// The suggested name, as the raw bytes of the `name` field.
    pub name: Vec<u8>,
    /// The number of bytes per piece (`piece length`), non-negative.
    pub piece_length: u64,
    /// The piece hashes: one 20-byte entry per piece, in order.
    pub pieces: Vec<Vec<u8>>,
    /// Whether this is a single-file or a multi-file torrent.
    pub keys: Keys,
}

/// The single-file/multi-file union, discriminated by which field the source
/// dictionary holds (`length` or `files`), never by an explicit tag.
#[derive(Debug, PartialEq, Eq)]
pub enum Keys {
    /// A single file of the given length.
    SingleFile {
        /// The file length in bytes.
        length: u64,
    },
    /// A directory of files.
    MultiFile {
        /// The files, in order.
        files: Vec<File>,
    },
}

/// One file entry of a multi-file torrent.
#[derive(Debug, PartialEq, Eq)]
pub struct File {
    /// The file length in bytes.
    pub length: u64,
    /// The path segments in order, outermost first, as raw bytes.
    pub path: Vec<Vec<u8>>,
}

/// The mathematical model of a [`Torrent`].
#[verifier::ext_equal]
pub struct TorrentModel {
    pub announce: Seq<u8>,
    pub info: InfoModel,
}

/// The mathematical model of an [`Info`].
#[verifier::ext_equal]
pub struct InfoModel {
    pub name: Seq<u8>,
    pub piece_length: u64,
    pub pieces: Seq<Seq<u8>>,
    pub keys: KeysModel,
}

/// The mathematical model of a [`Keys`].
#[verifier::ext_equal]
pub enum KeysModel {
    Single { length: u64 },
    Multi { files: Seq<FileModel> },
}

/// The mathematical model of a [`File`].
#[verifier::ext_equal]
pub struct FileModel {
    pub length: u64,
    pub path: Seq<Seq<u8>>,
}

/// The views of a sequence of byte vectors.
pub open spec fn byte_seqs(v: Seq<Vec<u8>>) -> Seq<Seq<u8>> {
    Seq::new(v.len(), |i: int| if 0 <= i < v.len() { v[i]@ } else { arbitrary() })
}

impl View for File {
    type V = FileModel;

    open spec fn view(&self) -> FileModel {
        FileModel { length: self.length, path: byte_seqs(self.path@) }
    }
}

/// The views of a sequence of file entries.
pub open spec fn file_views(v: Seq<File>) -> Seq<FileModel> {
    Seq::new(v.len(), |i: int| if 0 <= i < v.len() { v[i]@ } else { arbitrary() })
}

impl View for Keys {
    type V = KeysModel;

    open spec fn view(&self) -> KeysModel {
        match self {
            Keys::SingleFile { length } => KeysModel::Single { length: *length },
            Keys::MultiFile { files } => KeysModel::Multi { files: file_views(files@) },
        }
    }
}

impl View for Info {
    type V = InfoModel;

    open spec fn view(&self) -> InfoModel {
        InfoModel {
            name: self.name@,
            piece_length: self.piece_length,
            pieces: byte_seqs(self.pieces@),
            keys: self.keys@,
        }
    }
}

impl View for Torrent {
    type V = TorrentModel;

    open spec fn view(&self) -> TorrentModel {
        TorrentModel { announce: self.announce@, info: self.info@ }
    }
}

/// A field of the torrent schema, for error reporting.
#[derive(Debug, PartialEq, Eq)]
pub enum SchemaField {
    /// The root value itself.
    Root,
    /// The `announce` field.
    Announce,
    /// The `info` field.
    Info,
    /// The `name` field of `info`.
    Name,
    /// The `piece length` field of `info`.
    PieceLength,
    /// The `pieces` field of `info`.
    Pieces,
    /// The `length`/`files` discriminator of `info`.
    Layout,
    /// An entry of the `files` list.
    FileEntry,
    /// The `path` field of a file entry.
    Path,
}

/// Why a structurally valid bencode tree failed to fit the torrent schema.
#[derive(Debug, PartialEq, Eq)]
pub enum SchemaFault {
    /// A required field is absent.
    Missing,
    /// A field holds the wrong bencode variant.
    WrongType,
    /// An integer field that must be non-negative is negative.
    Negative,
    /// The `pieces` byte string is not a whole number of 20-byte hashes.
    BadPiecesLength,
    /// Both `length` and `files` are present.
    AmbiguousLayout,
}

/// A schema violation: which field, and what was wrong with it.
#[derive(Debug, PartialEq, Eq)]
pub struct SchemaError {
    /// The field at fault.
    pub field: SchemaField,
    /// The kind of violation.
    pub detail: SchemaFault,
}

/// The first entry with this key, if any. Later duplicates never shadow an
/// earlier entry, and entry order is otherwise irrelevant to lookups.
pub open spec fn bs_lookup(ps: Seq<(Seq<u8>, BValue)>, key: Seq<u8>) -> Option<BValue>
    decreases ps.len(),
{
    if ps.len() == 0 {
        None
    } else if ps[0].0 == key {
        Some(ps[0].1)
    } else {
        bs_lookup(ps.drop_first(), key)
    }
}

/// The bytes of `"announce"`.
pub open spec fn key_announce() -> Seq<u8> {
    seq![97u8, 110u8, 110u8, 111u8, 117u8, 110u8, 99u8, 101u8]
}

/// The bytes of `"info"`.
pub open spec fn key_info() -> Seq<u8> {
    seq![105u8, 110u8, 102u8, 111u8]
}

/// The bytes of `"name"`.
pub open spec fn key_name() -> Seq<u8> {
    seq![110u8, 97u8, 109u8, 101u8]
}

/// The bytes of `"piece length"`.
pub open spec fn key_piece_length() -> Seq<u8> {
    seq![112u8, 105u8, 101u8, 99u8, 101u8, 32u8, 108u8, 101u8, 110u8, 103u8, 116u8, 104u8]
}

/// The bytes of `"pieces"`.
pub open spec fn key_pieces() -> Seq<u8> {
    seq![112u8, 105u8, 101u8, 99u8, 101u8, 115u8]
}

/// The bytes of `"length"`.
pub open spec fn key_length() -> Seq<u8> {
    seq![108u8, 101u8, 110u8, 103u8, 116u8, 104u8]
}

/// The bytes of `"files"`.
pub open spec fn key_files() -> Seq<u8> {
    seq![102u8, 105u8, 108u8, 101u8, 115u8]
}

/// The bytes of `"path"`.
pub open spec fn key_path() -> Seq<u8> {
    seq![112u8, 97u8, 116u8, 104u8]
}

/// The concatenated piece hashes cut into 20-byte entries, in order.
pub open spec fn hash_chunks(s: Seq<u8>) -> Seq<Seq<u8>> {
    Seq::new((s.len() / 20) as nat, |i: int| s.subrange(20 * i, 20 * i + 20))
}

/// Cutting a whole number of hashes yields exactly `len / 20` entries of 20
/// bytes each, in order of appearance.
pub proof fn lemma_hash_chunks_shape(s: Seq<u8>)
    ensures
        hash_chunks(s).len() == s.len() / 20,
        forall|i: int|
            0 <= i < hash_chunks(s).len() ==> (#[trigger] hash_chunks(s)[i]).len() == 20
                && hash_chunks(s)[i] == s.subrange(20 * i, 20 * i + 20),
{
    assert forall|i: int|
        0 <= i < hash_chunks(s).len() implies (#[trigger] hash_chunks(s)[i]).len() == 20
        && hash_chunks(s)[i] == s.subrange(20 * i, 20 * i + 20) by {
        assert(20 * i + 20 <= s.len()) by (nonlinear_arith)
            requires
                0 <= i < s.len() / 20,
        ;
    }
}

/// When `f` is a faithful reading of one entry of the `files` list.
pub open spec fn file_matches(m: BValue, f: FileModel) -> bool {
    &&& m is Dict
    &&& (bs_lookup(m->Dict_0, key_length()) matches Some(lv) && lv matches BValue::Int(n)
        && n >= 0 && f.length as int == n as int)
    &&& (bs_lookup(m->Dict_0, key_path()) matches Some(pv) && pv matches BValue::List(segs)
        && f.path.len() == segs.len() && (forall|i: int|
        0 <= i < segs.len() ==> (#[trigger] segs[i]) is Bytes && f.path[i] == segs[i]->Bytes_0))
}

/// When `k` is a faithful reading of the `length`/`files` discrimination of
/// an `info` dictionary: exactly one of the two fields is present, and it
/// has the right shape.
pub open spec fn layout_matches(info: Seq<(Seq<u8>, BValue)>, k: KeysModel) -> bool {
    match k {
        KeysModel::Single { length } => {
            &&& (bs_lookup(info, key_length()) matches Some(lv)
                && lv matches BValue::Int(n) && n >= 0 && length as int == n as int)
            &&& bs_lookup(info, key_files()) is None
        },
        KeysModel::Multi { files } => {
            &&& bs_lookup(info, key_length()) is None
            &&& (bs_lookup(info, key_files()) matches Some(fv)
                && fv matches BValue::List(es) && files.len() == es.len() && (forall|i: int|
                0 <= i < es.len() ==> file_matches(#[trigger] es[i], files[i])))
        },
    }
}

/// When `im` is a faithful reading of an `info` value.
pub open spec fn info_matches(iv: BValue, im: InfoModel) -> bool {
    &&& iv is Dict
    &&& (bs_lookup(iv->Dict_0, key_name()) matches Some(nv)
        && nv matches BValue::Bytes(nb) && im.name == nb)
    &&& (bs_lookup(iv->Dict_0, key_piece_length()) matches Some(pv)
        && pv matches BValue::Int(n) && n >= 0 && im.piece_length as int == n as int)
    &&& (bs_lookup(iv->Dict_0, key_pieces()) matches Some(hv)
        && hv matches BValue::Bytes(hb) && hb.len() % 20 == 0 && im.pieces == hash_chunks(hb))
    &&& layout_matches(iv->Dict_0, im.keys)
}

/// When `t` is a faithful reading of a whole decoded torrent.
pub open spec fn torrent_matches(m: BValue, t: TorrentModel) -> bool {
    &&& m is Dict
    &&& (bs_lookup(m->Dict_0, key_announce()) matches Some(av)
        && av matches BValue::Bytes(ab) && t.announce == ab)
    &&& (bs_lookup(m->Dict_0, key_info()) matches Some(iv) && info_matches(iv, t.info))
}

/// A value admits at most one faithful file reading.
pub proof fn lemma_file_matches_unique(m: BValue, f1: FileModel, f2: FileModel)
    requires
        file_matches(m, f1),
        file_matches(m, f2),
    ensures
        f1 == f2,
{
    let segs = bs_lookup(m->Dict_0, key_path())->Some_0->List_0;
    assert forall|i: int| 0 <= i < f1.path.len() implies f1.path[i] == #[trigger] f2.path[i] by {
        assert(segs[i] is Bytes);
        assert(f1.path[i] == segs[i]->Bytes_0);
        assert(f2.path[i] == segs[i]->Bytes_0);
    }
    assert(f1.path =~= f2.path);
    assert(f1 =~= f2);
}

/// A value admits at most one faithful torrent reading: projecting one
/// decoded tree can only ever produce structurally equal records.
pub proof fn lemma_torrent_matches_unique(m: BValue, t1: TorrentModel, t2: TorrentModel)
    requires
        torrent_matches(m, t1),
        torrent_matches(m, t2),
    ensures
        t1 == t2,
{
    match (t1.info.keys, t2.info.keys) {
        (KeysModel::Multi { files: fs1 }, KeysModel::Multi { files: fs2 }) => {
            let iv = bs_lookup(m->Dict_0, key_info())->Some_0;
            let es = bs_lookup(iv->Dict_0, key_files())->Some_0->List_0;
            assert forall|i: int| 0 <= i < fs1.len() implies fs1[i] == #[trigger] fs2[i] by {
                lemma_file_matches_unique(es[i], fs1[i], fs2[i]);
            }
            assert(fs1 =~= fs2);
        },
        _ => {},
    }
    assert(t1.info.keys =~= t2.info.keys);
    assert(t1.info =~= t2.info);
    assert(t1 =~= t2);
}

/// Skipping entries whose keys all differ from `key` leaves the lookup
/// result unchanged.
proof fn lemma_bs_lookup_skip(ps: Seq<(Seq<u8>, BValue)>, key: Seq<u8>, i: int)
    requires
        0 <= i <= ps.len(),
        forall|j: int| 0 <= j < i ==> (#[trigger] ps[j]).0 != key,
    ensures
        bs_lookup(ps, key) == bs_lookup(ps.skip(i), key),
    decreases i,
{
    if i == 0 {
        assert(ps.skip(0) =~= ps);
    } else {
        assert(ps[0].0 != key);
        assert(ps.drop_first().skip(i - 1) =~= ps.skip(i));
        assert(forall|j: int|
            0 <= j < i - 1 ==> (#[trigger] ps.drop_first()[j]).0 == ps[j + 1].0);
        lemma_bs_lookup_skip(ps.drop_first(), key, i - 1);
    }
}

/// Byte-for-byte equality of two byte vectors.
#[verifier::loop_isolation(false)]
fn bytes_eq(a: &Vec<u8>, b: &Vec<u8>) -> (r: bool)
    ensures
        r == (a@ == b@),
{
    if a.len() != b.len() {
        return false;
    }
    let n = a.len();
    let mut i: usize = 0;
    while i < n
        invariant
            i <= n,
            n == a@.len() && n == b@.len(),
            forall|j: int| 0 <= j < i ==> a@[j] == b@[j],
        decreases n - i,
    {
        if a[i] != b[i] {
            return false;
        }
        i = i + 1;
    }
    proof {
        assert(a@ =~= b@);
    }
    true
}

/// A fresh copy of a byte vector.
#[verifier::loop_isolation(false)]
fn copy_bytes(src: &Vec<u8>) -> (r: Vec<u8>)
    ensures
        r@ == src@,
{
    let n = src.len();
    let mut out: Vec<u8> = Vec::new();
    let mut i: usize = 0;
    while i < n
        invariant
            i <= n,
            n == src@.len(),
            out@ == src@.subrange(0, i as int),
        decreases n - i,
    {
        out.push(src[i]);
        i = i + 1;
        proof {
            assert(out@ =~= src@.subrange(0, i as int));
        }
    }
    proof {
        assert(src@.subrange(0, n as int) =~= src@);
    }
    out
}

/// The first entry of `ps` whose key equals `key`, as [`bs_lookup`] reads
/// the entries.
#[verifier::loop_isolation(false)]
fn dict_find<'a>(ps: &'a Vec<(Vec<u8>, BencodeValue)>, key: &Vec<u8>) -> (r: Option<
    &'a BencodeValue,
>)
    ensures
        r matches Some(v) ==> bs_lookup(model_pairs(ps@), key@) == Some(model_of(*v)),
        r is None ==> bs_lookup(model_pairs(ps@), key@) is None,
{
    let ghost mps = model_pairs(ps@);
    let n = ps.len();
    let mut i: usize = 0;
    while i < n
        invariant
            i <= n,
            n == ps@.len(),
            forall|j: int| 0 <= j < i ==> (#[trigger] model_pairs(ps@)[j]).0 != key@,
        decreases n - i,
    {
        if bytes_eq(&ps[i].0, key) {
            proof {
                let gi = i as int;
                lemma_bs_lookup_skip(mps, key@, gi);
                assert(mps.skip(gi).len() > 0);
                assert(mps.skip(gi)[0] == mps[gi]);
                assert(mps[gi].0 == key@);
                assert(mps[gi].1 == model_of(ps@[gi].1));
            }
            return Some(&ps[i].1);
        }
        i = i + 1;
    }
    proof {
        lemma_bs_lookup_skip(mps, key@, n as int);
        assert(mps.skip(n as int).len() == 0);
    }
    None
}

/// The key `"announce"` as runtime bytes.
fn key_announce_bytes() -> (r: Vec<u8>)
    ensures
        r@ == key_announce(),
{
    let mut v: Vec<u8> = Vec::new();
    v.push(97);
    v.push(110);
    v.push(110);
    v.push(111);
    v.push(117);
    v.push(110);
    v.push(99);
    v.push(101);
    proof {
        assert(v@ =~= key_announce());
    }
    v
}

/// The key `"info"` as runtime bytes.
fn key_info_bytes() -> (r: Vec<u8>)
    ensures
        r@ == key_info(),
{
    let mut v: Vec<u8> = Vec::new();
    v.push(105);
    v.push(110);
    v.push(102);
    v.push(111);
    proof {
        assert(v@ =~= key_info());
    }
    v
}

/// The key `"name"` as runtime bytes.
fn key_name_bytes() -> (r: Vec<u8>)
    ensures
        r@ == key_name(),
{
    let mut v: Vec<u8> = Vec::new();
    v.push(110);
    v.push(97);
    v.push(109);
    v.push(101);
    proof {
        assert(v@ =~= key_name());
    }
    v
}

/// The key `"piece length"` as runtime bytes.
fn key_piece_length_bytes() -> (r: Vec<u8>)
    ensures
        r@ == key_piece_length(),
{
    let mut v: Vec<u8> = Vec::new();
    v.push(112);
    v.push(105);
    v.push(101);
    v.push(99);
    v.push(101);
    v.push(32);
    v.push(108);
    v.push(101);
    v.push(110);
    v.push(103);
    v.push(116);
    v.push(104);
    proof {
        assert(v@ =~= key_piece_length());
    }
    v
}

/// The key `"pieces"` as runtime bytes.
fn key_pieces_bytes() -> (r: Vec<u8>)
    ensures
        r@ == key_pieces(),
{
    let mut v: Vec<u8> = Vec::new();
    v.push(112);
    v.push(105);
    v.push(101);
    v.push(99);
    v.push(101);
    v.push(115);
    proof {
        assert(v@ =~= key_pieces());
    }
    v
}

/// The key `"length"` as runtime bytes.
fn key_length_bytes() -> (r: Vec<u8>)
    ensures
        r@ == key_length(),
{
    let mut v: Vec<u8> = Vec::new();
    v.push(108);
    v.push(101);
    v.push(110);
    v.push(103);
    v.push(116);
    v.push(104);
    proof {
        assert(v@ =~= key_length());
    }
    v
}

/// The key `"files"` as runtime bytes.
fn key_files_bytes() -> (r: Vec<u8>)
    ensures
        r@ == key_files(),
{
    let mut v: Vec<u8> = Vec::new();
    v.push(102);
    v.push(105);
    v.push(108);
    v.push(101);
    v.push(115);
    proof {
        assert(v@ =~= key_files());
    }
    v
}

/// The key `"path"` as runtime bytes.
fn key_path_bytes() -> (r: Vec<u8>)
    ensures
        r@ == key_path(),
{
    let mut v: Vec<u8> = Vec::new();
    v.push(112);
    v.push(97);
    v.push(116);
    v.push(104);
    proof {
        assert(v@ =~= key_path());
    }
    v
}

/// Cuts a `pieces` byte string into its 20-byte hash entries.
#[verifier::loop_isolation(false)]
fn chunk_pieces(hb: &Vec<u8>) -> (r: Vec<Vec<u8>>)
    requires
        hb@.len() % 20 == 0,
    ensures
        byte_seqs(r@) == hash_chunks(hb@),
{
    let total = hb.len();
    let n = total / 20;
    proof {
        vstd::arithmetic::div_mod::lemma_fundamental_div_mod(total as int, 20);
        assert(total == 20 * n);
    }
    let mut out: Vec<Vec<u8>> = Vec::new();
    let mut i: usize = 0;
    while i < n
        invariant
            i <= n,
            total == 20 * n,
            out@.len() == i,
            forall|j: int|
                0 <= j < i ==> #[trigger] byte_seqs(out@)[j] == hash_chunks(hb@)[j],
        decreases n - i,
    {
        proof {
            assert(20 * (i as int) + 20 <= 20 * (n as int)) by (nonlinear_arith)
                requires
                    i < n,
            ;
        }
        let base = i * 20;
        let mut h: Vec<u8> = Vec::new();
        let mut k: usize = 0;
        while k < 20
            invariant
                k <= 20,
                base == i * 20,
                base + 20 <= total,
                h@.len() == k,
                forall|j: int| 0 <= j < k ==> h@[j] == hb@[base + j],
            decreases 20 - k,
        {
            h.push(hb[base + k]);
            k = k + 1;
        }
        proof {
            assert(h@ =~= hb@.subrange(20 * (i as int), 20 * (i as int) + 20));
            assert(hash_chunks(hb@)[i as int] == h@);
        }
        let ghost old_out = out@;
        out.push(h);
        i = i + 1;
        proof {
            assert forall|j: int|
                0 <= j < i implies #[trigger] byte_seqs(out@)[j] == hash_chunks(hb@)[j] by {
                if j < i - 1 {
                    assert(out@[j] == old_out[j]);
                    assert(byte_seqs(old_out)[j] == hash_chunks(hb@)[j]);
                } else {
                    assert(out@[j]@ == hb@.subrange(20 * j, 20 * j + 20));
                }
            }
        }
    }
    proof {
        assert(byte_seqs(out@) =~= hash_chunks(hb@));
    }
    out
}

/// Projects one entry of the `files` list onto a [`File`].
#[verifier::loop_isolation(false)]
fn project_file(v: &BencodeValue) -> (r: Result<File, SchemaError>)
    ensures
        r matches Ok(f) ==> file_matches(model_of(*v), f@),
        r matches Err(_) ==> forall|fm: FileModel| !file_matches(model_of(*v), fm),
{
    let ps = match v {
        BencodeValue::Dictionary(ps) => ps,
        _ => {
            return Err(
                SchemaError { field: SchemaField::FileEntry, detail: SchemaFault::WrongType },
            );
        },
    };
    let lkey = key_length_bytes();
    let length: u64 = match dict_find(ps, &lkey) {
        Some(BencodeValue::Integer(n)) => {
            if *n < 0 {
                return Err(
                    SchemaError { field: SchemaField::FileEntry, detail: SchemaFault::Negative },
                );
            }
            *n as u64
        },
        Some(_) => {
            return Err(
                SchemaError { field: SchemaField::FileEntry, detail: SchemaFault::WrongType },
            );
        },
        None => {
            return Err(
                SchemaError { field: SchemaField::FileEntry, detail: SchemaFault::Missing },
            );
        },
    };
    let pkey = key_path_bytes();
    let segs = match dict_find(ps, &pkey) {
        Some(BencodeValue::List(es)) => es,
        Some(_) => {
            return Err(SchemaError { field: SchemaField::Path, detail: SchemaFault::WrongType });
        },
        None => {
            return Err(SchemaError { field: SchemaField::Path, detail: SchemaFault::Missing });
        },
    };
    let mut path: Vec<Vec<u8>> = Vec::new();
    let count = segs.len();
    let mut i: usize = 0;
    while i < count
        invariant
            i <= count,
            count == segs@.len(),
            path@.len() == i,
            forall|j: int|
                0 <= j < i ==> (#[trigger] model_seq(segs@)[j]) is Bytes && byte_seqs(path@)[j]
                    == model_seq(segs@)[j]->Bytes_0,
        decreases count - i,
    {
        match &segs[i] {
            BencodeValue::ByteString(sb) => {
                path.push(copy_bytes(sb));
                proof {
                    assert(model_seq(segs@)[i as int] == model_of(segs@[i as int]));
                }
            },
            _ => {
                proof {
                    assert(model_seq(segs@)[i as int] == model_of(segs@[i as int]));
                    assert(!(model_seq(segs@)[i as int] is Bytes));
                }
                return Err(
                    SchemaError { field: SchemaField::Path, detail: SchemaFault::WrongType },
                );
            },
        }
        i = i + 1;
    }
    let f = File { length, path };
    proof {
        assert(f@.path =~= model_seq(segs@).map_values(|s: BValue| s->Bytes_0)) by {
            assert(forall|j: int|
                0 <= j < count ==> #[trigger] byte_seqs(f.path@)[j] == model_seq(
                    segs@,
                )[j]->Bytes_0);
        }
        assert(file_matches(model_of(*v), f@)) by {
            assert(f@.path.len() == model_seq(segs@).len());
        }
    }
    Ok(f)
}

/// Projects the `info` dictionary onto an [`Info`].
#[verifier::loop_isolation(false)]
fn project_info(ips: &Vec<(Vec<u8>, BencodeValue)>) -> (r: Result<Info, SchemaError>)
    ensures
        r matches Ok(i) ==> info_matches(BValue::Dict(model_pairs(ips@)), i@),
        r matches Err(_) ==> forall|im: InfoModel|
            !info_matches(BValue::Dict(model_pairs(ips@)), im),
{
    let nkey = key_name_bytes();
    let name = match dict_find(ips, &nkey) {
        Some(BencodeValue::ByteString(nb)) => copy_bytes(nb),
        Some(_) => {
            return Err(SchemaError { field: SchemaField::Name, detail: SchemaFault::WrongType });
        },
        None => {
            return Err(SchemaError { field: SchemaField::Name, detail: SchemaFault::Missing });
        },
    };
    let plkey = key_piece_length_bytes();
    let piece_length: u64 = match dict_find(ips, &plkey) {
        Some(BencodeValue::Integer(n)) => {
            if *n < 0 {
                return Err(
                    SchemaError {
                        field: SchemaField::PieceLength,
                        detail: SchemaFault::Negative,
                    },
                );
            }
            *n as u64
        },
        Some(_) => {
            return Err(
                SchemaError { field: SchemaField::PieceLength, detail: SchemaFault::WrongType },
            );
        },
        None => {
            return Err(
                SchemaError { field: SchemaField::PieceLength, detail: SchemaFault::Missing },
            );
        },
    };
    let hkey = key_pieces_bytes();
    let pieces = match dict_find(ips, &hkey) {
        Some(BencodeValue::ByteString(hb)) => {
            if hb.len() % 20 != 0 {
                return Err(
                    SchemaError {
                        field: SchemaField::Pieces,
                        detail: SchemaFault::BadPiecesLength,
                    },
                );
            }
            chunk_pieces(hb)
        },
        Some(_) => {
            return Err(
                SchemaError { field: SchemaField::Pieces, detail: SchemaFault::WrongType },
            );
        },
        None => {
            return Err(SchemaError { field: SchemaField::Pieces, detail: SchemaFault::Missing });
        },
    };
    let lkey = key_length_bytes();
    let fkey = key_files_bytes();
    let lv = dict_find(ips, &lkey);
    let fv = dict_find(ips, &fkey);
    let keys: Keys = match (lv, fv) {
        (Some(BencodeValue::Integer(n)), None) => {
            if *n < 0 {
                return Err(
                    SchemaError { field: SchemaField::Layout, detail: SchemaFault::Negative },
                );
            }
            Keys::SingleFile { length: *n as u64 }
        },
        (Some(_), None) => {
            return Err(
                SchemaError { field: SchemaField::Layout, detail: SchemaFault::WrongType },
            );
        },
        (None, Some(BencodeValue::List(es))) => {
            let mut files: Vec<File> = Vec::new();
            let count = es.len();
            let mut i: usize = 0;
            while i < count
                invariant
                    i <= count,
                    count == es@.len(),
                    files@.len() == i,
                    forall|j: int|
                        0 <= j < i ==> file_matches(
                            #[trigger] model_seq(es@)[j],
                            file_views(files@)[j],
                        ),
                decreases count - i,
            {
                match project_file(&es[i]) {
                    Ok(f) => {
                        files.push(f);
                        proof {
                            assert(model_seq(es@)[i as int] == model_of(es@[i as int]));
                        }
                    },
                    Err(e) => {
                        proof {
                            assert(model_seq(es@)[i as int] == model_of(es@[i as int]));
                        }
                        return Err(e);
                    },
                }
                i = i + 1;
            }
            Keys::MultiFile { files }
        },
        (None, Some(_)) => {
            return Err(
                SchemaError { field: SchemaField::Layout, detail: SchemaFault::WrongType },
            );
        },
        (Some(_), Some(_)) => {
            return Err(
                SchemaError { field: SchemaField::Layout, detail: SchemaFault::AmbiguousLayout },
            );
        },
        (None, None) => {
            return Err(
                SchemaError { field: SchemaField::Layout, detail: SchemaFault::Missing },
            );
        },
    };
    let info = Info { name, piece_length, pieces, keys };
    proof {
        assert(info_matches(BValue::Dict(model_pairs(ips@)), info@)) by {
            assert(info@.pieces == byte_seqs(info.pieces@));
            if info.keys is MultiFile {
                let es = bs_lookup(model_pairs(ips@), key_files())->Some_0->List_0;
                assert(forall|j: int|
                    0 <= j < es.len() ==> file_matches(
                        #[trigger] es[j],
                        info@.keys->Multi_files[j],
                    ));
            }
        }
    }
    Ok(info)
}

/// Projects a decoded bencode value onto the torrent metainfo schema.
///
/// Returns the unique [`Torrent`] that faithfully reads `v`
/// ([`torrent_matches`]), and an error exactly when no such record exists:
/// a missing or wrongly typed field, a `pieces` string that is not a whole
/// number of 20-byte hashes, or an absent or ambiguous `length`/`files`
/// discriminator.
pub fn project(v: &BencodeValue) -> (r: Result<Torrent, SchemaError>)
    ensures
        r matches Ok(t) ==> torrent_matches(model_of(*v), t@),
        r matches Err(_) ==> forall|t: TorrentModel| !torrent_matches(model_of(*v), t),
{
    let ps = match v {
        BencodeValue::Dictionary(ps) => ps,
        _ => {
            return Err(SchemaError { field: SchemaField::Root, detail: SchemaFault::WrongType });
        },
    };
    let akey = key_announce_bytes();
    let announce = match dict_find(ps, &akey) {
        Some(BencodeValue::ByteString(ab)) => copy_bytes(ab),
        Some(_) => {
            return Err(
                SchemaError { field: SchemaField::Announce, detail: SchemaFault::WrongType },
            );
        },
        None => {
            return Err(
                SchemaError { field: SchemaField::Announce, detail: SchemaFault::Missing },
            );
        },
    };
    let ikey = key_info_bytes();
    let info = match dict_find(ps, &ikey) {
        Some(BencodeValue::Dictionary(ips)) => {
            match project_info(ips) {
                Ok(info) => info,
                Err(e) => {
                    proof {
                        assert forall|t: TorrentModel|
                            !torrent_matches(model_of(*v), t) by {
                            if torrent_matches(model_of(*v), t) {
                                assert(!info_matches(
                                    BValue::Dict(model_pairs(ips@)),
                                    t.info,
                                ));
                            }
                        }
                    }
                    return Err(e);
                },
            }
        },
        Some(_) => {
            return Err(
                SchemaError { field: SchemaField::Info, detail: SchemaFault::WrongType },
            );
        },
        None => {
            return Err(SchemaError { field: SchemaField::Info, detail: SchemaFault::Missing });
        },
    };
    Ok(Torrent { announce, info })
}

} // verus!
