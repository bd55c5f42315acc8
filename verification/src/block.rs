//! The five block variants and their fixed-layout text codec.
//!
//! One encoded block is a type digit, an even run of uppercase hexadecimal
//! digits (the block body, two digits per byte), and a terminator digit that
//! is carried but never interpreted.  The body starts with the variant's
//! pointer bytes; folders and file headers then carry a name delimited by
//! its first zero byte, followed by the remaining payload.

use vstd::prelude::*;

use crate::hexcode::bytes_of_hex;
use crate::hexcode::hex_decode;
use crate::hexcode::hex_encode_upper;
use crate::hexcode::hex_upper_of;
use crate::hexcode::is_hex_seq;
use crate::hexcode::is_upper_hex_seq;
use crate::hexcode::lemma_bytes_of_hex_len;
use crate::hexcode::lemma_hex_round_trip;
use crate::hexcode::lemma_hex_round_trip_text;
use crate::hexcode::lemma_hex_upper_len;
use crate::vfs::VFSError;
use vstd::string::StrSliceExecFns;
use vstd::string::StringExecFns;

verus! {

/// The root block: heads of the free, bad and directory chains, then the
/// volume name and zero padding.
#[derive(Debug)]
pub struct Folder {
    pub next_available: u8,
    pub next_bad: u8,
    pub next_file: u8,
    pub name: Vec<u8>,
    pub rest: Vec<u8>,
}

/// A free (or damaged) block: the next free block's index and unused payload.
#[derive(Debug)]
pub struct Empty {
    pub next_file: u8,
    pub data: Vec<u8>,
}

/// A directory entry: the next entry, the first data block, the file's name
/// and the first chunk of its content.
#[derive(Debug)]
pub struct FileHeader {
    pub next_file: u8,
    pub next_data: u8,
    pub name: Vec<u8>,
    pub data: Vec<u8>,
}

/// A content continuation block: the next data block's index and a chunk of
/// file content.
#[derive(Debug)]
pub struct FileData {
    pub next_data: u8,
    pub data: Vec<u8>,
}

/// A block of the disk image, one of five variants.  `Damaged` shares the
/// `Empty` layout; only the enclosing tag distinguishes the two.
#[derive(Debug)]
pub enum Block {
    Folder(Folder),
    Empty(Empty),
    Damaged(Empty),
    FileHeader(FileHeader),
    FileData(FileData),
}

/// Mathematical model of a folder block.
#[verifier::ext_equal]
pub struct FolderV {
    pub next_available: u8,
    pub next_bad: u8,
    pub next_file: u8,
    pub name: Seq<u8>,
    pub rest: Seq<u8>,
}

/// Mathematical model of an empty or damaged block.
#[verifier::ext_equal]
pub struct EmptyV {
    pub next_file: u8,
    pub data: Seq<u8>,
}

/// Mathematical model of a file header block.
#[verifier::ext_equal]
pub struct FileHeaderV {
    pub next_file: u8,
    pub next_data: u8,
    pub name: Seq<u8>,
    pub data: Seq<u8>,
}

/// Mathematical model of a file data block.
#[verifier::ext_equal]
pub struct FileDataV {
    pub next_data: u8,
    pub data: Seq<u8>,
}

/// Mathematical model of a block.
#[verifier::ext_equal]
pub enum BlockV {
    Folder(FolderV),
    Empty(EmptyV),
    Damaged(EmptyV),
    FileHeader(FileHeaderV),
    FileData(FileDataV),
}

impl View for Folder {
    type V = FolderV;

    open spec fn view(&self) -> FolderV {
        FolderV {
            next_available: self.next_available,
            next_bad: self.next_bad,
            next_file: self.next_file,
            name: self.name@,
            rest: self.rest@,
        }
    }
}

impl View for Empty {
    type V = EmptyV;

    open spec fn view(&self) -> EmptyV {
        EmptyV { next_file: self.next_file, data: self.data@ }
    }
}

impl View for FileHeader {
    type V = FileHeaderV;

    open spec fn view(&self) -> FileHeaderV {
        FileHeaderV {
            next_file: self.next_file,
            next_data: self.next_data,
            name: self.name@,
            data: self.data@,
        }
    }
}

impl View for FileData {
    type V = FileDataV;

    open spec fn view(&self) -> FileDataV {
        FileDataV { next_data: self.next_data, data: self.data@ }
    }
}

impl View for Block {
    type V = BlockV;

    open spec fn view(&self) -> BlockV {
        match self {
            Block::Folder(f) => BlockV::Folder(f@),
            Block::Empty(e) => BlockV::Empty(e@),
            Block::Damaged(e) => BlockV::Damaged(e@),
            Block::FileHeader(h) => BlockV::FileHeader(h@),
            Block::FileData(d) => BlockV::FileData(d@),
        }
    }
}

/// Index of the first zero byte of `s`, or `s.len()` if none occurs.
pub open spec fn zero_pos(s: Seq<u8>) -> int
    decreases s.len(),
{
    if s.len() == 0 {
        0
    } else if s[0] == 0 {
        0
    } else {
        1 + zero_pos(s.drop_first())
    }
}

pub proof fn lemma_zero_pos(s: Seq<u8>)
    ensures
        0 <= zero_pos(s) <= s.len(),
        zero_pos(s) < s.len() ==> s[zero_pos(s)] == 0,
        forall|j: int| 0 <= j < zero_pos(s) ==> s[j] != 0,
    decreases s.len(),
{
    if s.len() == 0 {
    } else if s[0] == 0 {
    } else {
        lemma_zero_pos(s.drop_first());
        assert forall|j: int| 0 <= j < zero_pos(s) implies s[j] != 0 by {
            if j > 0 {
                assert(s.drop_first()[j - 1] == s[j]);
            }
        }
    }
}

/// `zero_pos` is the unique position with no zero byte before it that either
/// holds a zero byte or is the end.
pub proof fn lemma_zero_pos_unique(s: Seq<u8>, k: int)
    requires
        0 <= k <= s.len(),
        forall|j: int| 0 <= j < k ==> s[j] != 0,
        k < s.len() ==> s[k] == 0,
    ensures
        zero_pos(s) == k,
    decreases s.len(),
{
    if s.len() == 0 {
    } else if s[0] == 0 {
        assert(k == 0);
    } else {
        assert(s[0] != 0);
        assert(k >= 1);
        assert forall|j: int| 0 <= j < k - 1 implies s.drop_first()[j] != 0 by {
            assert(s.drop_first()[j] == s[j + 1]);
        }
        assert(k - 1 < s.drop_first().len() ==> s.drop_first()[k - 1] == s[k]);
        lemma_zero_pos_unique(s.drop_first(), k - 1);
    }
}

/// Byte body of an encoded block: the pointer bytes, then for the named
/// variants the name and its zero terminator, then the remaining payload.
pub open spec fn body_bytes(b: BlockV) -> Seq<u8> {
    match b {
        BlockV::Folder(f) => seq![f.next_available, f.next_bad, f.next_file] + f.name + seq![0u8]
            + f.rest,
        BlockV::Empty(e) => seq![e.next_file] + e.data,
        BlockV::Damaged(e) => seq![e.next_file] + e.data,
        BlockV::FileHeader(h) => seq![h.next_file, h.next_data] + h.name + seq![0u8] + h.data,
        BlockV::FileData(d) => seq![d.next_data] + d.data,
    }
}

/// The ASCII digit selecting a block's variant.
pub open spec fn type_digit(b: BlockV) -> char {
    match b {
        BlockV::Folder(_) => '0',
        BlockV::Empty(_) => '1',
        BlockV::Damaged(_) => '2',
        BlockV::FileHeader(_) => '3',
        BlockV::FileData(_) => '4',
    }
}

/// Full encoded text of a block: type digit, uppercase hexadecimal body,
/// terminator digit.
pub open spec fn encode_line(b: BlockV) -> Seq<char> {
    seq![type_digit(b)] + hex_upper_of(body_bytes(b)) + seq!['0']
}

/// Decode a folder body: three pointer bytes, then the name up to its first
/// zero byte, then the padding.
pub open spec fn decode_folder(bytes: Seq<u8>) -> Result<FolderV, VFSError> {
    if bytes.len() < 3 {
        Err(VFSError::MissingNameTerminator)
    } else {
        let region = bytes.skip(3);
        let zp = zero_pos(region);
        if zp == region.len() {
            Err(VFSError::MissingNameTerminator)
        } else {
            Ok(
                FolderV {
                    next_available: bytes[0],
                    next_bad: bytes[1],
                    next_file: bytes[2],
                    name: region.take(zp),
                    rest: region.skip(zp + 1),
                },
            )
        }
    }
}

/// Decode a file header body: two pointer bytes, then the name up to its
/// first zero byte, then the first content chunk.
pub open spec fn decode_file_header(bytes: Seq<u8>) -> Result<FileHeaderV, VFSError> {
    if bytes.len() < 2 {
        Err(VFSError::MissingNameTerminator)
    } else {
        let region = bytes.skip(2);
        let zp = zero_pos(region);
        if zp == region.len() {
            Err(VFSError::MissingNameTerminator)
        } else {
            Ok(
                FileHeaderV {
                    next_file: bytes[0],
                    next_data: bytes[1],
                    name: region.take(zp),
                    data: region.skip(zp + 1),
                },
            )
        }
    }
}

/// Decode an empty (or damaged) body: the pointer byte, then the payload.
pub open spec fn decode_empty(bytes: Seq<u8>) -> EmptyV
    recommends
        bytes.len() >= 1,
{
    EmptyV { next_file: bytes[0], data: bytes.drop_first() }
}

/// Decode a file data body: the pointer byte, then the content chunk.
pub open spec fn decode_file_data(bytes: Seq<u8>) -> FileDataV
    recommends
        bytes.len() >= 1,
{
    FileDataV { next_data: bytes[0], data: bytes.drop_first() }
}

/// Decode one encoded block line: the leading type digit selects the
/// variant, the trailing terminator digit is dropped uninterpreted, and the
/// text between them is the hexadecimal body.
pub open spec fn decode_line(s: Seq<char>) -> Result<BlockV, VFSError>
    recommends
        s.len() >= 4,
{
    let tag = s[0];
    let payload = s.subrange(1, s.len() - 1);
    if !(tag == '0' || tag == '1' || tag == '2' || tag == '3' || tag == '4') {
        Err(VFSError::UnknownBlockType)
    } else if !(payload.len() % 2 == 0 && is_hex_seq(payload)) {
        Err(VFSError::InvalidHexPayload)
    } else {
        let bytes = bytes_of_hex(payload);
        if tag == '0' {
            match decode_folder(bytes) {
                Ok(f) => Ok(BlockV::Folder(f)),
                Err(e) => Err(e),
            }
        } else if tag == '1' {
            Ok(BlockV::Empty(decode_empty(bytes)))
        } else if tag == '2' {
            Ok(BlockV::Damaged(decode_empty(bytes)))
        } else if tag == '3' {
            match decode_file_header(bytes) {
                Ok(h) => Ok(BlockV::FileHeader(h)),
                Err(e) => Err(e),
            }
        } else {
            Ok(BlockV::FileData(decode_file_data(bytes)))
        }
    }
}

/// First index at or after `from` holding a zero byte, or `data.len()` if
/// none occurs there.
pub(crate) fn find_zero(data: &Vec<u8>, from: usize) -> (r: usize)
    requires
        from <= data@.len(),
    ensures
        from <= r <= data@.len(),
        r - from == zero_pos(data@.skip(from as int)),
        r < data@.len() ==> data@[r as int] == 0,
        forall|j: int| from <= j < r ==> data@[j] != 0,
{
    let n = data.len();
    let mut i = from;
    while i < n
        invariant
            from <= i <= n,
            n == data@.len(),
            forall|j: int| from <= j < i ==> data@[j] != 0,
        decreases n - i,
    {
        if data[i] == 0 {
            proof {
                let s = data@.skip(from as int);
                assert forall|j: int| 0 <= j < i - from implies s[j] != 0 by {
                    assert(s[j] == data@[j + from]);
                }
                assert(s[i - from] == data@[i as int]);
                lemma_zero_pos_unique(s, i - from);
            }
            return i;
        }
        i += 1;
    }
    proof {
        let s = data@.skip(from as int);
        assert forall|j: int| 0 <= j < n - from implies s[j] != 0 by {
            assert(s[j] == data@[j + from]);
        }
        lemma_zero_pos_unique(s, n - from);
    }
    n
}

/// Copy of the byte range `[from, to)` of `data`.
pub(crate) fn copy_range(data: &Vec<u8>, from: usize, to: usize) -> (r: Vec<u8>)
    requires
        from <= to <= data@.len(),
    ensures
        r@ == data@.subrange(from as int, to as int),
{
    let mut v: Vec<u8> = Vec::new();
    let mut i = from;
    while i < to
        invariant
            from <= i <= to <= data@.len(),
            v@ == data@.subrange(from as int, i as int),
        decreases to - i,
    {
        v.push(data[i]);
        proof {
            assert(v@ =~= data@.subrange(from as int, (i + 1) as int));
        }
        i += 1;
    }
    v
}

/// Whether two byte vectors hold the same bytes.
pub(crate) fn bytes_equal(a: &Vec<u8>, b: &Vec<u8>) -> (r: bool)
    ensures
        r == (a@ == b@),
{
    if a.len() != b.len() {
        return false;
    }
    let n = a.len();
    let mut i: usize = 0;
    while i < n
        invariant
            i <= n,
            n == a@.len(),
            n == b@.len(),
            forall|j: int| 0 <= j < i ==> a@[j] == b@[j],
        decreases n - i,
    {
        if a[i] != b[i] {
            return false;
        }
        i += 1;
    }
    proof {
        assert(a@ =~= b@);
    }
    true
}

/// Append a copy of `src` to `dst`.
pub(crate) fn append_bytes(dst: &mut Vec<u8>, src: &Vec<u8>)
    ensures
        final(dst)@ == old(dst)@ + src@,
{
    let ghost orig = dst@;
    let n = src.len();
    let mut i: usize = 0;
    while i < n
        invariant
            i <= n,
            n == src@.len(),
            dst@ == orig + src@.subrange(0, i as int),
        decreases n - i,
    {
        dst.push(src[i]);
        proof {
            assert(dst@ =~= orig + src@.subrange(0, (i + 1) as int));
        }
        i += 1;
    }
    proof {
        assert(orig + src@.subrange(0, n as int) =~= orig + src@);
    }
}

impl Folder {
    /// Split a decoded folder body into its fields.
    pub fn parse(data: &Vec<u8>) -> (r: Result<Folder, VFSError>)
        requires
            data@.len() >= 3,
        ensures
            match decode_folder(data@) {
                Ok(f) => r is Ok && r->Ok_0@ == f,
                Err(e) => r is Err && r->Err_0 == e,
            },
    {
        proof {
            lemma_zero_pos(data@.skip(3));
        }
        let zp = find_zero(data, 3);
        if zp == data.len() {
            return Err(VFSError::MissingNameTerminator);
        }
        let name = copy_range(data, 3, zp);
        let rest = copy_range(data, zp + 1, data.len());
        let f = Folder {
            next_available: data[0],
            next_bad: data[1],
            next_file: data[2],
            name,
            rest,
        };
        proof {
            let region = data@.skip(3);
            assert(f@.name =~= region.take(zp - 3));
            assert(f@.rest =~= region.skip(zp - 3 + 1));
        }
        Ok(f)
    }

    /// Byte body of this folder as it is laid out on disk.
    pub fn encode_bytes(&self) -> (r: Vec<u8>)
        ensures
            r@ == body_bytes(BlockV::Folder(self@)),
    {
        let mut v: Vec<u8> = Vec::new();
        v.push(self.next_available);
        v.push(self.next_bad);
        v.push(self.next_file);
        append_bytes(&mut v, &self.name);
        v.push(0);
        append_bytes(&mut v, &self.rest);
        proof {
            assert(v@ =~= body_bytes(BlockV::Folder(self@)));
        }
        v
    }
}

impl Empty {
    /// Split a decoded empty (or damaged) body into its fields.
    pub fn parse(data: &Vec<u8>) -> (r: Empty)
        requires
            data@.len() >= 1,
        ensures
            r@ == decode_empty(data@),
    {
        let e = Empty { next_file: data[0], data: copy_range(data, 1, data.len()) };
        proof {
            assert(e@.data =~= data@.drop_first());
        }
        e
    }

    /// Byte body of this block as it is laid out on disk.
    pub fn encode_bytes(&self) -> (r: Vec<u8>)
        ensures
            r@ == seq![self.next_file] + self.data@,
    {
        let mut v: Vec<u8> = Vec::new();
        v.push(self.next_file);
        append_bytes(&mut v, &self.data);
        proof {
            assert(v@ =~= seq![self.next_file] + self.data@);
        }
        v
    }
}

impl FileHeader {
    /// Split a decoded file header body into its fields.
    pub fn parse(data: &Vec<u8>) -> (r: Result<FileHeader, VFSError>)
        requires
            data@.len() >= 2,
        ensures
            match decode_file_header(data@) {
                Ok(h) => r is Ok && r->Ok_0@ == h,
                Err(e) => r is Err && r->Err_0 == e,
            },
    {
        proof {
            lemma_zero_pos(data@.skip(2));
        }
        let zp = find_zero(data, 2);
        if zp == data.len() {
            return Err(VFSError::MissingNameTerminator);
        }
        let name = copy_range(data, 2, zp);
        let rest = copy_range(data, zp + 1, data.len());
        let h = FileHeader {
            next_file: data[0],
            next_data: data[1],
            name,
            data: rest,
        };
        proof {
            let region = data@.skip(2);
            assert(h@.name =~= region.take(zp - 2));
            assert(h@.data =~= region.skip(zp - 2 + 1));
        }
        Ok(h)
    }

    /// Byte body of this file header as it is laid out on disk.
    pub fn encode_bytes(&self) -> (r: Vec<u8>)
        ensures
            r@ == body_bytes(BlockV::FileHeader(self@)),
    {
        let mut v: Vec<u8> = Vec::new();
        v.push(self.next_file);
        v.push(self.next_data);
        append_bytes(&mut v, &self.name);
        v.push(0);
        append_bytes(&mut v, &self.data);
        proof {
            assert(v@ =~= body_bytes(BlockV::FileHeader(self@)));
        }
        v
    }
}

impl FileData {
    /// Split a decoded file data body into its fields.
    pub fn parse(data: &Vec<u8>) -> (r: FileData)
        requires
            data@.len() >= 1,
        ensures
            r@ == decode_file_data(data@),
    {
        let d = FileData { next_data: data[0], data: copy_range(data, 1, data.len()) };
        proof {
            assert(d@.data =~= data@.drop_first());
        }
        d
    }

    /// Byte body of this file data block as it is laid out on disk.
    pub fn encode_bytes(&self) -> (r: Vec<u8>)
        ensures
            r@ == body_bytes(BlockV::FileData(self@)),
    {
        let mut v: Vec<u8> = Vec::new();
        v.push(self.next_data);
        append_bytes(&mut v, &self.data);
        proof {
            assert(v@ =~= body_bytes(BlockV::FileData(self@)));
        }
        v
    }
}

impl Block {
    /// Decode one encoded block line.
    pub fn parse(data: &str) -> (r: Result<Block, VFSError>)
        requires
            data@.len() >= 4,
        ensures
            match decode_line(data@) {
                Ok(b) => r is Ok && r->Ok_0@ == b,
                Err(e) => r is Err && r->Err_0 == e,
            },
    {
        let n = data.unicode_len();
        let tag = data.get_char(0);
        if !(tag == '0' || tag == '1' || tag == '2' || tag == '3' || tag == '4') {
            return Err(VFSError::UnknownBlockType);
        }
        let payload = data.substring_char(1, n - 1);
        match hex_decode(payload) {
            None => Err(VFSError::InvalidHexPayload),
            Some(bytes) => {
                proof {
                    lemma_bytes_of_hex_len(payload@);
                    assert(bytes@.len() >= 1);
                }
                if tag == '0' {
                    if bytes.len() < 3 {
                        Err(VFSError::MissingNameTerminator)
                    } else {
                        match Folder::parse(&bytes) {
                            Ok(f) => Ok(Block::Folder(f)),
                            Err(e) => Err(e),
                        }
                    }
                } else if tag == '1' {
                    Ok(Block::Empty(Empty::parse(&bytes)))
                } else if tag == '2' {
                    Ok(Block::Damaged(Empty::parse(&bytes)))
                } else if tag == '3' {
                    if bytes.len() < 2 {
                        Err(VFSError::MissingNameTerminator)
                    } else {
                        match FileHeader::parse(&bytes) {
                            Ok(h) => Ok(Block::FileHeader(h)),
                            Err(e) => Err(e),
                        }
                    }
                } else {
                    Ok(Block::FileData(FileData::parse(&bytes)))
                }
            },
        }
    }

    /// Encoded text of this block, terminator digit included.
    pub fn to_string(&self) -> (r: String)
        ensures
            r@ == encode_line(self@),
    {
        let bytes = match self {
            Block::Folder(f) => f.encode_bytes(),
            Block::Empty(e) => e.encode_bytes(),
            Block::Damaged(e) => e.encode_bytes(),
            Block::FileHeader(h) => h.encode_bytes(),
            Block::FileData(d) => d.encode_bytes(),
        };
        let hex_text = hex_encode_upper(&bytes);
        let tag: &'static str = match self {
            Block::Folder(_) => "0",
            Block::Empty(_) => "1",
            Block::Damaged(_) => "2",
            Block::FileHeader(_) => "3",
            Block::FileData(_) => "4",
        };
        proof {
            reveal_strlit("0");
            reveal_strlit("1");
            reveal_strlit("2");
            reveal_strlit("3");
            reveal_strlit("4");
        }
        let mut out = String::from_str(tag);
        out.append(hex_text.as_str());
        out.append("0");
        proof {
            assert(bytes@ == body_bytes(self@));
            assert(tag@ =~= seq![type_digit(self@)]);
            assert(out@ =~= encode_line(self@));
        }
        out
    }
}

/// The name field (if the variant has one) holds no zero byte; always true
/// of the other variants.
pub open spec fn name_zero_free(b: BlockV) -> bool {
    match b {
        BlockV::Folder(f) => forall|i: int| 0 <= i < f.name.len() ==> f.name[i] != 0,
        BlockV::FileHeader(h) => forall|i: int| 0 <= i < h.name.len() ==> h.name[i] != 0,
        _ => true,
    }
}

/// Round trip, value side: decoding the encoded text of any block whose name
/// holds no zero byte yields the block itself.
pub proof fn lemma_decode_encode(b: BlockV)
    requires
        name_zero_free(b),
    ensures
        decode_line(encode_line(b)) == Ok::<BlockV, VFSError>(b),
{
    let body = body_bytes(b);
    let s = encode_line(b);
    lemma_hex_upper_len(body);
    let payload = s.subrange(1, s.len() - 1);
    assert(payload =~= hex_upper_of(body));
    lemma_hex_round_trip(body);
    assert(bytes_of_hex(payload) == body);
    match b {
        BlockV::Folder(f) => {
            let region = body.skip(3);
            assert(region =~= f.name + seq![0u8] + f.rest);
            assert forall|j: int| 0 <= j < f.name.len() implies region[j] != 0 by {
                assert(region[j] == f.name[j]);
            }
            assert(region[f.name.len() as int] == 0);
            lemma_zero_pos_unique(region, f.name.len() as int);
            let d = decode_folder(body);
            assert(d is Ok);
            assert(d->Ok_0.name =~= f.name);
            assert(d->Ok_0.rest =~= f.rest);
            assert(d->Ok_0 =~= f);
        },
        BlockV::FileHeader(h) => {
            let region = body.skip(2);
            assert(region =~= h.name + seq![0u8] + h.data);
            assert forall|j: int| 0 <= j < h.name.len() implies region[j] != 0 by {
                assert(region[j] == h.name[j]);
            }
            assert(region[h.name.len() as int] == 0);
            lemma_zero_pos_unique(region, h.name.len() as int);
            let d = decode_file_header(body);
            assert(d is Ok);
            assert(d->Ok_0.name =~= h.name);
            assert(d->Ok_0.data =~= h.data);
            assert(d->Ok_0 =~= h);
        },
        BlockV::Empty(e) => {
            assert(decode_empty(body).data =~= e.data);
            assert(decode_empty(body) =~= e);
        },
        BlockV::Damaged(e) => {
            assert(decode_empty(body).data =~= e.data);
            assert(decode_empty(body) =~= e);
        },
        BlockV::FileData(d) => {
            assert(decode_file_data(body).data =~= d.data);
            assert(decode_file_data(body) =~= d);
        },
    }
}

/// A well-formed encoded line: it decodes, its hexadecimal digits are
/// uppercase, and its terminator digit is `'0'`.
pub open spec fn well_formed_line(s: Seq<char>) -> bool {
    &&& s.len() >= 4
    &&& decode_line(s) is Ok
    &&& is_upper_hex_seq(s.subrange(1, s.len() - 1))
    &&& s.last() == '0'
}

/// Round trip, text side: re-encoding the block decoded from a well-formed
/// line reproduces the line character for character.
pub proof fn lemma_encode_decode(s: Seq<char>)
    requires
        well_formed_line(s),
    ensures
        encode_line(decode_line(s)->Ok_0) == s,
{
    let tag = s[0];
    let payload = s.subrange(1, s.len() - 1);
    let bytes = bytes_of_hex(payload);
    lemma_hex_round_trip_text(payload);
    assert(hex_upper_of(bytes) == payload);
    lemma_bytes_of_hex_len(payload);
    let b = decode_line(s)->Ok_0;
    if tag == '0' {
        let f = decode_folder(bytes)->Ok_0;
        let region = bytes.skip(3);
        let zp = zero_pos(region);
        lemma_zero_pos(region);
        assert(body_bytes(BlockV::Folder(f)) =~= bytes);
    } else if tag == '1' {
        assert(body_bytes(b) =~= bytes);
    } else if tag == '2' {
        assert(body_bytes(b) =~= bytes);
    } else if tag == '3' {
        let h = decode_file_header(bytes)->Ok_0;
        let region = bytes.skip(2);
        let zp = zero_pos(region);
        lemma_zero_pos(region);
        assert(body_bytes(BlockV::FileHeader(h)) =~= bytes);
    } else {
        assert(body_bytes(b) =~= bytes);
    }
    assert(encode_line(b) =~= s);
}

} // verus!
