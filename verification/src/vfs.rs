//! The disk image: an ordered sequence of blocks, indexed positionally.
//!
//! A disk is either formatted fresh (a root folder followed by a singly
//! linked free list) or parsed from hex text, one block per line.  The
//! directory walk and the file reader traverse pointer chains through the
//! block vector; both are defined against recursive specification functions
//! over the blocks' views.

use vstd::prelude::*;
use vstd::string::StrSliceExecFns;
use vstd::string::StringExecFns;
use vstd::string::StringSliceAdditionalSpecFns;
use vstd::utf8::decode_utf8;
use vstd::utf8::valid_utf8;

use crate::block::Block;
use crate::block::BlockV;
use crate::block::zero_pos;

verus! {

/// Everything that can go wrong while decoding, creating or reading a disk
/// image.  Each failure surfaces as its own kind; nothing is coerced.
#[derive(Clone, Copy, Debug, PartialEq, Eq, Structural)]
pub enum VFSError {
    /// A line's type digit selects no known block variant.
    UnknownBlockType,
    /// A block's hexadecimal payload is odd in length or holds a non-digit.
    InvalidHexPayload,
    /// A named block's payload holds no zero byte after the pointer bytes.
    MissingNameTerminator,
    /// A data line of the disk text is shorter than the smallest legal block.
    LineTooShort,
    /// The disk text holds no block lines at all.
    EmptyDisk,
    /// Fewer than 11 columns leaves no room for the smallest block.
    ColumnsTooSmall,
    /// The column count must be divisible by two.
    ColumnsNotEven,
    /// A disk needs at least the root row and one data row.
    RowsTooSmall,
    /// The volume name does not fit in the root folder's payload.
    VolumeNameTooLarge,
    /// No directory entry carries the requested name.
    FileNotFound,
    /// A file's data chain is broken.
    DataNotFound,
}

/// Diagnostic text for each error kind.
pub open spec fn message_spec(e: VFSError) -> Seq<char> {
    match e {
        VFSError::UnknownBlockType => "unknown block type"@,
        VFSError::InvalidHexPayload => "block payload is not valid hex"@,
        VFSError::MissingNameTerminator => "name field is missing its terminator"@,
        VFSError::LineTooShort => "line isn't long enough"@,
        VFSError::EmptyDisk => "disk has no blocks"@,
        VFSError::ColumnsTooSmall => "number of cols is too small (must be greater than 11)"@,
        VFSError::ColumnsNotEven => "cols is not divisible by 2"@,
        VFSError::RowsTooSmall => "number of rows is too small (must be greater than 1)"@,
        VFSError::VolumeNameTooLarge => "volume name is too large"@,
        VFSError::FileNotFound => "file in vfs was not found"@,
        VFSError::DataNotFound => "disk is missing data"@,
    }
}

impl VFSError {
    /// Diagnostic text of this error kind.
    pub fn message(&self) -> (m: &'static str)
        ensures
            m@ == message_spec(*self),
    {
        match *self {
            VFSError::UnknownBlockType => "unknown block type",
            VFSError::InvalidHexPayload => "block payload is not valid hex",
            VFSError::MissingNameTerminator => "name field is missing its terminator",
            VFSError::LineTooShort => "line isn't long enough",
            VFSError::EmptyDisk => "disk has no blocks",
            VFSError::ColumnsTooSmall => "number of cols is too small (must be greater than 11)",
            VFSError::ColumnsNotEven => "cols is not divisible by 2",
            VFSError::RowsTooSmall => "number of rows is too small (must be greater than 1)",
            VFSError::VolumeNameTooLarge => "volume name is too large",
            VFSError::FileNotFound => "file in vfs was not found",
            VFSError::DataNotFound => "disk is missing data",
        }
    }
}

/// What `String::from_utf8_lossy` makes of a byte sequence; it depends on
/// the bytes alone.
pub uninterp spec fn lossy_decode_of(bytes: Seq<u8>) -> Seq<char>;

/// Relies on `String::from_utf8_lossy`: the result is a function of the
/// bytes alone, and valid UTF-8 input decodes exactly (invalid sequences are
/// replaced, never rejected).
#[verifier::external_body]
fn bytes_to_string_lossy(bytes: &Vec<u8>) -> (r: String)
    ensures
        r@ == lossy_decode_of(bytes@),
        valid_utf8(bytes@) ==> r@ == decode_utf8(bytes@),
{
    String::from_utf8_lossy(bytes).into_owned()
}

/// The disk image: an ordered collection of blocks, addressed by position.
#[derive(Debug)]
pub struct VFS {
    pub blocks: Vec<Block>,
}

impl View for VFS {
    type V = Seq<BlockV>;

    open spec fn view(&self) -> Seq<BlockV> {
        Seq::new(self.blocks@.len(), |i: int| self.blocks@[i]@)
    }
}

/// The directory-entry chain head stored in the root folder.
pub open spec fn root_next_file(blocks: Seq<BlockV>) -> int
    recommends
        blocks.len() > 0,
        blocks[0] is Folder,
{
    blocks[0]->Folder_0.next_file as int
}

/// The directory walk from block index `i`: file headers contribute their
/// name and index and the walk follows their next-entry pointer; empty
/// placeholders are skipped along their own pointer; pointer value 0, an
/// out-of-range index, any other variant, or exhausted fuel ends the walk.
pub open spec fn walk_files(blocks: Seq<BlockV>, i: int, fuel: nat) -> Seq<(Seq<u8>, int)>
    decreases fuel,
{
    if fuel == 0 || i <= 0 || i >= blocks.len() {
        Seq::empty()
    } else {
        match blocks[i] {
            BlockV::FileHeader(h) => seq![(h.name, i)] + walk_files(
                blocks,
                h.next_file as int,
                (fuel - 1) as nat,
            ),
            BlockV::Empty(e) => walk_files(blocks, e.next_file as int, (fuel - 1) as nat),
            _ => Seq::empty(),
        }
    }
}

/// Every entry of the directory walk names an in-range file header block and
/// carries that block's name.
pub proof fn lemma_walk_files_entries(blocks: Seq<BlockV>, i: int, fuel: nat)
    ensures
        forall|j: int|
            0 <= j < walk_files(blocks, i, fuel).len() ==> {
                let e = #[trigger] walk_files(blocks, i, fuel)[j];
                0 < e.1 < blocks.len() && blocks[e.1] is FileHeader && blocks[e.1]->FileHeader_0.name
                    == e.0
            },
    decreases fuel,
{
    if fuel == 0 || i <= 0 || i >= blocks.len() {
    } else {
        match blocks[i] {
            BlockV::FileHeader(h) => {
                lemma_walk_files_entries(blocks, h.next_file as int, (fuel - 1) as nat);
                let w = walk_files(blocks, i, fuel);
                let rest = walk_files(blocks, h.next_file as int, (fuel - 1) as nat);
                assert forall|j: int| 0 <= j < w.len() implies {
                    let e = #[trigger] w[j];
                    0 < e.1 < blocks.len() && blocks[e.1] is FileHeader
                        && blocks[e.1]->FileHeader_0.name == e.0
                } by {
                    if j > 0 {
                        assert(w[j] == rest[j - 1]);
                    }
                }
            },
            BlockV::Empty(e) => {
                lemma_walk_files_entries(blocks, e.next_file as int, (fuel - 1) as nat);
            },
            _ => {},
        }
    }
}

/// The next pointer a directory-chain block follows: a file header's next
/// entry, an empty block's next pointer, 0 for every other variant.
pub open spec fn chain_next(blocks: Seq<BlockV>, i: int) -> int
    recommends
        0 <= i < blocks.len(),
{
    match blocks[i] {
        BlockV::FileHeader(h) => h.next_file as int,
        BlockV::Empty(e) => e.next_file as int,
        _ => 0,
    }
}

/// `idxs` lists, in order, the block indices of a terminating directory
/// chain starting at `start`: every listed block is a file header or an
/// empty placeholder, each one's next pointer leads to the following entry,
/// and the last one's next pointer is 0.
pub open spec fn chain_valid(blocks: Seq<BlockV>, start: int, idxs: Seq<int>) -> bool {
    &&& (if idxs.len() == 0 {
        start == 0
    } else {
        start == idxs[0]
    })
    &&& forall|j: int| 0 <= j < idxs.len() ==> 0 < #[trigger] idxs[j] < blocks.len()
    &&& forall|j: int|
        0 <= j < idxs.len() ==> (blocks[#[trigger] idxs[j]] is FileHeader || blocks[idxs[j]] is Empty)
    &&& forall|j: int|
        0 <= j < idxs.len() ==> chain_next(blocks, #[trigger] idxs[j]) == (if j == idxs.len() - 1 {
            0
        } else {
            idxs[j + 1]
        })
}

/// The file headers among the chained blocks, each as its name and index,
/// in chain order.
pub open spec fn chain_headers(blocks: Seq<BlockV>, idxs: Seq<int>) -> Seq<(Seq<u8>, int)>
    decreases idxs.len(),
{
    if idxs.len() == 0 {
        Seq::empty()
    } else {
        let rest = chain_headers(blocks, idxs.drop_first());
        match blocks[idxs[0]] {
            BlockV::FileHeader(h) => seq![(h.name, idxs[0])] + rest,
            _ => rest,
        }
    }
}

/// Directory listing completeness: over a terminating chain of file headers
/// and empty placeholders, the walk returns exactly the headers' names and
/// indices, in chain order.
pub proof fn lemma_walk_files_complete(blocks: Seq<BlockV>, start: int, idxs: Seq<int>, fuel: nat)
    requires
        chain_valid(blocks, start, idxs),
        idxs.len() < fuel,
    ensures
        walk_files(blocks, start, fuel) == chain_headers(blocks, idxs),
    decreases idxs.len(),
{
    if idxs.len() == 0 {
        assert(walk_files(blocks, 0, fuel) =~= Seq::<(Seq<u8>, int)>::empty());
    } else {
        let i0 = idxs[0];
        assert(0 < i0 < blocks.len());
        let next = chain_next(blocks, i0);
        let tail = idxs.drop_first();
        assert(next == if idxs.len() == 1 {
            0int
        } else {
            idxs[1]
        });
        assert forall|j: int| 0 <= j < tail.len() implies 0 < #[trigger] tail[j] < blocks.len()
            && (blocks[tail[j]] is FileHeader || blocks[tail[j]] is Empty) && chain_next(
            blocks,
            tail[j],
        ) == (if j == tail.len() - 1 {
            0int
        } else {
            tail[j + 1]
        }) by {
            assert(tail[j] == idxs[j + 1]);
            if j < tail.len() - 1 {
                assert(tail[j + 1] == idxs[j + 2]);
            }
        }
        assert(chain_valid(blocks, next, tail));
        lemma_walk_files_complete(blocks, next, tail, (fuel - 1) as nat);
        match blocks[i0] {
            BlockV::FileHeader(h) => {
                assert(walk_files(blocks, start, fuel) == seq![(h.name, i0)] + walk_files(
                    blocks,
                    h.next_file as int,
                    (fuel - 1) as nat,
                ));
            },
            BlockV::Empty(e) => {},
            _ => {
                assert(false);
            },
        }
    }
}

/// Length of the free list reachable from block index `i`: empty blocks
/// chained through their next pointers, ending at 0, an out-of-range index,
/// another variant, or exhausted fuel.
pub open spec fn free_list_len(blocks: Seq<BlockV>, i: int, fuel: nat) -> nat
    decreases fuel,
{
    if fuel == 0 || i <= 0 || i >= blocks.len() {
        0
    } else {
        match blocks[i] {
            BlockV::Empty(e) => 1 + free_list_len(blocks, e.next_file as int, (fuel - 1) as nat),
            _ => 0,
        }
    }
}

/// Disk usage: the block count minus the length of the free list reachable
/// from the root folder's `next_available` pointer (never below zero).
pub open spec fn usage_of(blocks: Seq<BlockV>) -> nat
    recommends
        blocks.len() > 0,
        blocks[0] is Folder,
{
    let free = free_list_len(blocks, blocks[0]->Folder_0.next_available as int, blocks.len() as nat);
    if free <= blocks.len() {
        (blocks.len() - free) as nat
    } else {
        0
    }
}

/// The content a file header itself contributes: its payload with the final
/// structural filler byte dropped.
pub open spec fn head_content(h: crate::block::FileHeaderV) -> Seq<u8> {
    if h.data.len() > 0 {
        h.data.drop_last()
    } else {
        h.data
    }
}

/// The content a data block contributes: its payload up to the first zero
/// byte if one is present, otherwise the whole payload.
pub open spec fn data_chunk(data: Seq<u8>) -> Seq<u8> {
    data.take(zero_pos(data))
}

/// The data chain from block index `i`: the concatenation of each data
/// block's chunk, ending at pointer value 0.  `None` marks a broken chain:
/// a non-data block, an out-of-range index, or exhausted fuel.
pub open spec fn walk_data(blocks: Seq<BlockV>, i: int, fuel: nat) -> Option<Seq<u8>>
    decreases fuel,
{
    if i == 0 {
        Some(Seq::empty())
    } else if fuel == 0 || i < 0 || i >= blocks.len() {
        None
    } else {
        match blocks[i] {
            BlockV::FileData(d) => match walk_data(blocks, d.next_data as int, (fuel - 1) as nat) {
                Some(rest) => Some(data_chunk(d.data) + rest),
                None => None,
            },
            _ => None,
        }
    }
}

/// The block index carried by the first directory entry whose name is
/// `name`, if any.
pub open spec fn find_file(files: Seq<(Seq<u8>, int)>, name: Seq<u8>) -> Option<int>
    decreases files.len(),
{
    if files.len() == 0 {
        None
    } else if files[0].0 == name {
        Some(files[0].1)
    } else {
        find_file(files.drop_first(), name)
    }
}

/// Reading a file by name: resolve the name through the directory walk,
/// take the header's own payload without its final filler byte, then append
/// the chunks of the data chain.
pub open spec fn read_spec(blocks: Seq<BlockV>, name: Seq<u8>) -> Result<Seq<u8>, VFSError>
    recommends
        blocks.len() > 0,
        blocks[0] is Folder,
{
    let files = walk_files(blocks, root_next_file(blocks), blocks.len() as nat);
    match find_file(files, name) {
        None => Err(VFSError::FileNotFound),
        Some(pos) => {
            if !(0 <= pos < blocks.len() && blocks[pos] is FileHeader) {
                Err(VFSError::FileNotFound)
            } else {
                let h = blocks[pos]->FileHeader_0;
                match walk_data(blocks, h.next_data as int, blocks.len() as nat) {
                    Some(tail) => Ok(head_content(h) + tail),
                    None => Err(VFSError::DataNotFound),
                }
            }
        },
    }
}

/// Index of the first newline of `s`, or `s.len()` if none occurs.
pub open spec fn nl_pos(s: Seq<char>) -> int
    decreases s.len(),
{
    if s.len() == 0 {
        0
    } else if s[0] == '\n' {
        0
    } else {
        1 + nl_pos(s.drop_first())
    }
}

/// `nl_pos` is the unique position with no newline before it that either
/// holds a newline or is the end.
pub proof fn lemma_nl_pos_unique(s: Seq<char>, k: int)
    requires
        0 <= k <= s.len(),
        forall|j: int| 0 <= j < k ==> s[j] != '\n',
        k < s.len() ==> s[k] == '\n',
    ensures
        nl_pos(s) == k,
    decreases s.len(),
{
    if s.len() == 0 {
    } else if s[0] == '\n' {
        assert(k == 0);
    } else {
        assert(k >= 1);
        assert forall|j: int| 0 <= j < k - 1 implies s.drop_first()[j] != '\n' by {
            assert(s.drop_first()[j] == s[j + 1]);
        }
        assert(k - 1 < s.drop_first().len() ==> s.drop_first()[k - 1] == s[k]);
        lemma_nl_pos_unique(s.drop_first(), k - 1);
    }
}

/// A line terminated by a newline drops one carriage return just before it.
pub open spec fn strip_cr(line: Seq<char>) -> Seq<char> {
    if line.len() > 0 && line.last() == '\r' {
        line.drop_last()
    } else {
        line
    }
}

/// The lines of `s`, split as `str::lines` splits them: at each newline,
/// with a carriage return before the newline dropped, and with no final
/// empty line when the text ends in a newline.
pub open spec fn split_lines(s: Seq<char>) -> Seq<Seq<char>>
    decreases s.len(),
{
    if s.len() == 0 {
        Seq::empty()
    } else {
        let p = nl_pos(s);
        if 0 <= p < s.len() {
            seq![strip_cr(s.take(p))] + split_lines(s.skip(p + 1))
        } else {
            seq![s]
        }
    }
}

/// Parse a run of block lines: each must reach the minimum width, its
/// three-character row label is stripped, and the rest decodes as one block.
/// The first failing line decides the error.
pub open spec fn parse_lines(ls: Seq<Seq<char>>) -> Result<Seq<BlockV>, VFSError>
    decreases ls.len(),
{
    if ls.len() == 0 {
        Ok(Seq::empty())
    } else if ls[0].len() < 11 {
        Err(VFSError::LineTooShort)
    } else {
        match crate::block::decode_line(ls[0].skip(3)) {
            Err(e) => Err(e),
            Ok(b) => match parse_lines(ls.drop_first()) {
                Err(e) => Err(e),
                Ok(rest) => Ok(seq![b] + rest),
            },
        }
    }
}

/// Parse a whole disk text: the first two lines are header rows and are
/// skipped; a text with no block lines at all is an empty disk.
pub open spec fn parse_disk(s: Seq<char>) -> Result<Seq<BlockV>, VFSError> {
    let ls = split_lines(s);
    if ls.len() <= 2 {
        Err(VFSError::EmptyDisk)
    } else {
        parse_lines(ls.skip(2))
    }
}

/// The lines of `s`, as borrowed slices, matching `split_lines` of its view.
fn split_input<'a>(s: &'a str) -> (r: Vec<&'a str>)
    ensures
        r@.len() == split_lines(s@).len(),
        forall|i: int| 0 <= i < r@.len() ==> (#[trigger] r@[i])@ == split_lines(s@)[i],
{
    let n = s.unicode_len();
    let mut r: Vec<&str> = Vec::new();
    let mut start: usize = 0;
    let mut i: usize = 0;
    proof {
        assert(s@.skip(0) =~= s@);
        assert(r@.map_values(|t: &str| t@) + split_lines(s@) =~= split_lines(s@));
    }
    while i < n
        invariant
            start <= i <= n,
            n == s@.len(),
            forall|j: int| start <= j < i ==> s@[j] != '\n',
            split_lines(s@) == r@.map_values(|t: &str| t@) + split_lines(s@.skip(start as int)),
        decreases n - i,
    {
        if s.get_char(i) == '\n' {
            let ghost map0 = r@.map_values(|t: &str| t@);
            let end = if i > start && s.get_char(i - 1) == '\r' {
                i - 1
            } else {
                i
            };
            let piece = s.substring_char(start, end);
            r.push(piece);
            proof {
                let rem = s@.skip(start as int);
                assert forall|j: int| 0 <= j < i - start implies rem[j] != '\n' by {
                    assert(rem[j] == s@[j + start]);
                }
                assert(rem[i - start] == s@[i as int]);
                lemma_nl_pos_unique(rem, i - start);
                assert(rem.take(i - start) =~= s@.subrange(start as int, i as int));
                assert(rem.skip(i - start + 1) =~= s@.skip(i + 1));
                if i > start && s@[i - 1] == '\r' {
                    assert(s@.subrange(start as int, i as int).last() == '\r');
                    assert(strip_cr(s@.subrange(start as int, i as int)) =~= s@.subrange(
                        start as int,
                        end as int,
                    ));
                } else {
                    if i > start {
                        assert(s@.subrange(start as int, i as int).last() == s@[i - 1]);
                    }
                    assert(strip_cr(s@.subrange(start as int, i as int)) =~= s@.subrange(
                        start as int,
                        end as int,
                    ));
                }
                assert(piece@ == strip_cr(rem.take(i - start)));
                assert(split_lines(rem) == seq![strip_cr(rem.take(i - start))] + split_lines(
                    s@.skip(i + 1),
                ));
                assert(r@.map_values(|t: &str| t@) =~= map0 + seq![piece@]);
                assert((map0 + seq![piece@]) + split_lines(s@.skip(i + 1)) =~= map0 + (seq![piece@]
                    + split_lines(s@.skip(i + 1))));
            }
            start = i + 1;
        }
        i += 1;
    }
    if start < n {
        let ghost map0 = r@.map_values(|t: &str| t@);
        let piece = s.substring_char(start, n);
        r.push(piece);
        proof {
            let rem = s@.skip(start as int);
            assert forall|j: int| 0 <= j < rem.len() implies rem[j] != '\n' by {
                assert(rem[j] == s@[j + start]);
            }
            lemma_nl_pos_unique(rem, rem.len() as int);
            assert(piece@ =~= rem);
            assert(split_lines(rem) == seq![rem]);
            assert(r@.map_values(|t: &str| t@) =~= map0 + seq![piece@]);
            assert(map0 + seq![rem] =~= r@.map_values(|t: &str| t@));
        }
    } else {
        proof {
            assert(s@.skip(start as int) =~= Seq::<char>::empty());
            assert(split_lines(s@.skip(start as int)) == Seq::<Seq<char>>::empty());
            assert(r@.map_values(|t: &str| t@) + Seq::<Seq<char>>::empty() =~= r@.map_values(
                |t: &str| t@,
            ));
        }
    }
    proof {
        let m = r@.map_values(|t: &str| t@);
        assert(split_lines(s@) == m);
        assert forall|i: int| 0 <= i < r@.len() implies (#[trigger] r@[i])@ == split_lines(s@)[i] by {
            assert(m[i] == r@[i]@);
        }
    }
    r
}

/// A run of `n` spaces.
pub open spec fn spaces(n: int) -> Seq<char> {
    Seq::new(n as nat, |i: int| ' ')
}

/// The tens header cells: for each full sixteen columns one cell of fifteen
/// spaces and the group number in hexadecimal.
pub open spec fn tens_cells(kmax: int) -> Seq<char>
    decreases kmax,
{
    if kmax <= 0 {
        Seq::empty()
    } else {
        tens_cells(kmax - 1) + spaces(15) + crate::hexcode::spec_hex_nat(kmax)
    }
}

/// The tens header row of a dump whose lines are `width` characters wide.
pub open spec fn tens_row(width: int) -> Seq<char> {
    seq!['X', 'X', ':', ' '] + tens_cells((width - 1) / 16)
}

/// The ones header row: one hexadecimal digit per column, cycling.
pub open spec fn ones_row(width: int) -> Seq<char> {
    seq!['X', 'X', ':'] + Seq::new(
        width as nat,
        |i: int| crate::hexcode::hex_digit_upper((i % 16) as u8),
    )
}

/// The row label of block `i`: its index as two-or-more uppercase
/// hexadecimal digits, zero padded to two, and a colon.
pub open spec fn row_label(i: int) -> Seq<char> {
    (if i < 16 {
        seq!['0'] + crate::hexcode::spec_hex_nat(i)
    } else {
        crate::hexcode::spec_hex_nat(i)
    }) + seq![':']
}

/// The dump rows from block `i` on: each block's label, its encoded text
/// and a newline.
pub open spec fn render_rows(blocks: Seq<BlockV>, i: int) -> Seq<char>
    decreases blocks.len() - i,
{
    if i < 0 || i >= blocks.len() {
        Seq::empty()
    } else {
        row_label(i) + crate::block::encode_line(blocks[i]) + seq!['\n'] + render_rows(
            blocks,
            i + 1,
        )
    }
}

/// The whole hex dump: both header rows sized to the first block's encoded
/// width, then one labelled row per block.
pub open spec fn render(blocks: Seq<BlockV>) -> Seq<char>
    recommends
        blocks.len() > 0,
{
    let width = crate::block::encode_line(blocks[0]).len() as int;
    tens_row(width) + seq!['\n'] + ones_row(width) + seq!['\n'] + render_rows(blocks, 0)
}

/// The two-or-more character row label of block index `i`, colon included.
fn row_label_exec(i: usize) -> (r: String)
    ensures
        r@ == row_label(i as int),
{
    let mut s = if i < 16 {
        let mut t = String::from_str("0");
        t.append(crate::hexcode::digit_str(i as u8));
        proof {
            reveal_strlit("0");
            assert(t@ =~= seq!['0'] + crate::hexcode::spec_hex_nat(i as int));
        }
        t
    } else {
        crate::hexcode::hex_usize(i)
    };
    s.append(":");
    proof {
        reveal_strlit(":");
        assert(s@ =~= row_label(i as int));
    }
    s
}

/// A run of `n` zero bytes.
pub open spec fn zero_bytes(n: int) -> Seq<u8> {
    Seq::new(n as nat, |i: int| 0u8)
}

/// The blocks of a freshly formatted disk: the root folder, then empty
/// blocks forming a singly linked free list that ends at 0.  `body` is the
/// byte width of one block body.
pub open spec fn create_blocks(name: Seq<u8>, rows: int, body: int) -> Seq<BlockV>
    recommends
        2 <= rows <= 256,
        name.len() + 4 <= body,
{
    Seq::new(
        rows as nat,
        |i: int|
            if i == 0 {
                BlockV::Folder(
                    crate::block::FolderV {
                        next_available: 1,
                        next_bad: 0,
                        next_file: 0,
                        name: name,
                        rest: zero_bytes(body - 4 - name.len()),
                    },
                )
            } else {
                BlockV::Empty(
                    crate::block::EmptyV {
                        next_file: if i == rows - 1 {
                            0
                        } else {
                            (i + 1) as u8
                        },
                        data: zero_bytes(body - 1),
                    },
                )
            },
    )
}

/// Formatting a new disk: the geometry checks in order, then the name-fit
/// check against the root folder's payload, then the fresh block sequence.
pub open spec fn create_spec(name: Seq<u8>, rows: int, cols: int) -> Result<Seq<BlockV>, VFSError> {
    if cols < 11 {
        Err(VFSError::ColumnsTooSmall)
    } else if cols % 2 != 0 {
        Err(VFSError::ColumnsNotEven)
    } else if rows < 2 {
        Err(VFSError::RowsTooSmall)
    } else {
        let body = (cols - 1) / 2;
        if name.len() + 4 > body {
            Err(VFSError::VolumeNameTooLarge)
        } else {
            Ok(create_blocks(name, rows, body))
        }
    }
}

/// A fresh vector of `n` zero bytes.
fn zero_vec(n: usize) -> (r: Vec<u8>)
    ensures
        r@ == zero_bytes(n as int),
{
    let mut v: Vec<u8> = Vec::new();
    let mut i: usize = 0;
    while i < n
        invariant
            i <= n,
            v@.len() == i,
            forall|j: int| 0 <= j < i ==> v@[j] == 0,
        decreases n - i,
    {
        v.push(0);
        i += 1;
    }
    proof {
        assert(v@ =~= zero_bytes(n as int));
    }
    v
}

/// Creation validity: invalid geometry always fails, with the matching
/// error kind, and never yields a disk.
pub proof fn lemma_create_validity(name: Seq<u8>, rows: int, cols: int)
    ensures
        cols < 11 ==> create_spec(name, rows, cols) == Err::<Seq<BlockV>, VFSError>(
            VFSError::ColumnsTooSmall,
        ),
        cols >= 11 && cols % 2 != 0 ==> create_spec(name, rows, cols) == Err::<
            Seq<BlockV>,
            VFSError,
        >(VFSError::ColumnsNotEven),
        cols >= 11 && cols % 2 == 0 && rows < 2 ==> create_spec(name, rows, cols) == Err::<
            Seq<BlockV>,
            VFSError,
        >(VFSError::RowsTooSmall),
{
}

/// Creation free-list shape: on success block 0 is the root folder with
/// `next_available == 1`, and blocks `1..rows` chain to one another through
/// their next-pointers, the last pointing to 0.
pub proof fn lemma_create_free_list(name: Seq<u8>, rows: int, cols: int)
    requires
        create_spec(name, rows, cols) is Ok,
        rows <= 256,
    ensures
        ({
            let bs = create_spec(name, rows, cols)->Ok_0;
            &&& bs.len() == rows
            &&& bs[0] is Folder
            &&& bs[0]->Folder_0.next_available == 1
            &&& bs[0]->Folder_0.next_file == 0
            &&& forall|i: int| 1 <= i < rows ==> (#[trigger] bs[i]) is Empty
            &&& forall|i: int| 1 <= i < rows - 1 ==> (#[trigger] bs[i])->Empty_0.next_file == i + 1
            &&& bs[rows - 1]->Empty_0.next_file == 0
        }),
{
    let bs = create_spec(name, rows, cols)->Ok_0;
    assert(rows >= 2);
    assert(bs == create_blocks(name, rows, (cols - 1) / 2));
    assert(bs[rows - 1] is Empty);
    assert(bs[rows - 1]->Empty_0.next_file == 0);
}

impl VFS {
    /// Format a new disk image: the root folder carries the volume name and
    /// the remaining rows form the free list.
    pub fn new(name: &str, rows: usize, cols: usize) -> (r: Result<VFS, VFSError>)
        requires
            cols < 11 || cols % 2 != 0 || rows <= 256,
        ensures
            match create_spec(name.spec_bytes(), rows as int, cols as int) {
                Ok(bs) => r is Ok && r->Ok_0@ == bs,
                Err(e) => r is Err && r->Err_0 == e,
            },
    {
        if cols < 11 {
            return Err(VFSError::ColumnsTooSmall);
        }
        if cols % 2 != 0 {
            return Err(VFSError::ColumnsNotEven);
        }
        if rows < 2 {
            return Err(VFSError::RowsTooSmall);
        }
        let body = (cols - 1) / 2;
        let name_bytes = name.as_bytes_vec();
        if name_bytes.len() > body - 4 {
            return Err(VFSError::VolumeNameTooLarge);
        }
        let ghost target = create_blocks(name.spec_bytes(), rows as int, body as int);
        let rest = zero_vec(body - 4 - name_bytes.len());
        let root = Block::Folder(
            crate::block::Folder {
                next_available: 1,
                next_bad: 0,
                next_file: 0,
                name: name_bytes,
                rest,
            },
        );
        let mut blocks: Vec<Block> = Vec::new();
        blocks.push(root);
        proof {
            assert(blocks@.len() == 1);
            assert(blocks@[0]@ == target[0]);
        }
        let mut i: usize = 1;
        while i < rows
            invariant
                1 <= i <= rows,
                2 <= rows <= 256,
                body >= 5,
                target == create_blocks(name.spec_bytes(), rows as int, body as int),
                blocks@.len() == i,
                forall|j: int| 0 <= j < i ==> blocks@[j]@ == target[j],
            decreases rows - i,
        {
            let next_file: u8 = if i == rows - 1 {
                0
            } else {
                (i + 1) as u8
            };
            let data = zero_vec(body - 1);
            let block = Block::Empty(crate::block::Empty { next_file, data });
            proof {
                assert(block@ == target[i as int]);
            }
            blocks.push(block);
            i += 1;
        }
        let vfs = VFS { blocks };
        proof {
            assert(vfs@ =~= target);
        }
        Ok(vfs)
    }

    /// Load a disk image from its text form: two header rows, then one
    /// block per line behind a three-character row label.
    pub fn parse(input: &str) -> (r: Result<VFS, VFSError>)
        ensures
            match parse_disk(input@) {
                Ok(bs) => r is Ok && r->Ok_0@ == bs,
                Err(e) => r is Err && r->Err_0 == e,
            },
    {
        let lines = split_input(input);
        let n = lines.len();
        if n <= 2 {
            return Err(VFSError::EmptyDisk);
        }
        let ghost all = split_lines(input@);
        let ghost ls = all.skip(2);
        let mut blocks: Vec<Block> = Vec::new();
        let mut i: usize = 2;
        proof {
            assert(blocks@.map_values(|b: Block| b@) =~= Seq::<BlockV>::empty());
            if parse_lines(all.skip(2)) is Ok {
                assert(Seq::<BlockV>::empty() + parse_lines(all.skip(2))->Ok_0 =~= parse_lines(
                    all.skip(2),
                )->Ok_0);
            }
        }
        while i < n
            invariant
                2 <= i <= n,
                n == lines@.len(),
                n == all.len(),
                all == split_lines(input@),
                ls == all.skip(2),
                forall|j: int| 0 <= j < n ==> (#[trigger] lines@[j])@ == all[j],
                parse_lines(ls) == (match parse_lines(all.skip(i as int)) {
                    Ok(rest) => Ok::<Seq<BlockV>, VFSError>(
                        blocks@.map_values(|b: Block| b@) + rest,
                    ),
                    Err(e) => Err::<Seq<BlockV>, VFSError>(e),
                }),
            decreases n - i,
        {
            let ghost map0 = blocks@.map_values(|b: Block| b@);
            let line = lines[i];
            let m = line.unicode_len();
            proof {
                assert(all.skip(i as int)[0] == all[i as int]);
            }
            if m < 11 {
                return Err(VFSError::LineTooShort);
            }
            let body = line.substring_char(3, m);
            proof {
                assert(body@ =~= all[i as int].skip(3));
            }
            match Block::parse(body) {
                Err(e) => {
                    return Err(e);
                },
                Ok(b) => {
                    proof {
                        assert(all.skip(i as int).drop_first() =~= all.skip(i as int + 1));
                        if parse_lines(all.skip(i as int + 1)) is Ok {
                            let rest = parse_lines(all.skip(i as int + 1))->Ok_0;
                            assert(map0 + (seq![b@] + rest) =~= (map0 + seq![b@]) + rest);
                        }
                    }
                    blocks.push(b);
                    proof {
                        assert(blocks@.map_values(|bb: Block| bb@) =~= map0 + seq![b@]);
                    }
                },
            }
            i += 1;
        }
        proof {
            assert(all.skip(n as int) =~= Seq::<Seq<char>>::empty());
            assert(parse_lines(all.skip(n as int)) == Ok::<Seq<BlockV>, VFSError>(
                Seq::<BlockV>::empty(),
            ));
            assert(blocks@.map_values(|b: Block| b@) + Seq::<BlockV>::empty() =~= blocks@.map_values(
                |b: Block| b@,
            ));
        }
        let vfs = VFS { blocks };
        proof {
            assert(vfs@ =~= vfs.blocks@.map_values(|b: Block| b@));
        }
        Ok(vfs)
    }

    /// The names and block indices of the files on the disk, in directory
    /// chain order, as raw name bytes.
    fn walk_names(&self) -> (r: Vec<(Vec<u8>, usize)>)
        requires
            self@.len() > 0,
            self@[0] is Folder,
        ensures
            ({
                let fs = walk_files(self@, root_next_file(self@), self@.len() as nat);
                &&& r@.len() == fs.len()
                &&& forall|i: int|
                    0 <= i < fs.len() ==> (#[trigger] r@[i]).0@ == fs[i].0 && r@[i].1 == fs[i].1
            }),
    {
        let ghost bs = self@;
        let ghost fs = walk_files(bs, root_next_file(bs), bs.len() as nat);
        let n = self.blocks.len();
        let root_next = match &self.blocks[0] {
            Block::Folder(f) => f.next_file,
            _ => {
                proof {
                    assert(false);
                }
                0
            },
        };
        let mut out: Vec<(Vec<u8>, usize)> = Vec::new();
        let mut next: u8 = root_next;
        let mut steps: usize = 0;
        proof {
            assert(fs =~= out@.map_values(|p: (Vec<u8>, usize)| (p.0@, p.1 as int)) + walk_files(
                bs,
                next as int,
                (n - steps) as nat,
            ));
        }
        while next != 0 && (next as usize) < n && steps < n
            invariant
                n == bs.len(),
                bs == self@,
                steps <= n,
                fs == out@.map_values(|p: (Vec<u8>, usize)| (p.0@, p.1 as int)) + walk_files(
                    bs,
                    next as int,
                    (n - steps) as nat,
                ),
            decreases n - steps,
        {
            let ghost out_map0 = out@.map_values(|p: (Vec<u8>, usize)| (p.0@, p.1 as int));
            let ghost fuel0 = (n - steps) as nat;
            match &self.blocks[next as usize] {
                Block::FileHeader(h) => {
                    let name = crate::block::copy_range(&h.name, 0, h.name.len());
                    proof {
                        assert(name@ =~= h.name@);
                    }
                    out.push((name, next as usize));
                    let ghost entry = (h.name@, next as int);
                    proof {
                        assert(walk_files(bs, next as int, fuel0) == seq![entry] + walk_files(
                            bs,
                            h.next_file as int,
                            (fuel0 - 1) as nat,
                        ));
                        assert(out@.map_values(|p: (Vec<u8>, usize)| (p.0@, p.1 as int)) =~= out_map0
                            + seq![entry]);
                        assert((out_map0 + seq![entry]) + walk_files(
                            bs,
                            h.next_file as int,
                            (fuel0 - 1) as nat,
                        ) =~= out_map0 + (seq![entry] + walk_files(
                            bs,
                            h.next_file as int,
                            (fuel0 - 1) as nat,
                        )));
                    }
                    next = h.next_file;
                },
                Block::Empty(e) => {
                    next = e.next_file;
                },
                _ => {
                    proof {
                        assert(walk_files(bs, next as int, fuel0) =~= Seq::<(Seq<u8>, int)>::empty());
                        assert(walk_files(bs, 0int, (fuel0 - 1) as nat) =~= Seq::<(
                            Seq<u8>,
                            int,
                        )>::empty());
                    }
                    next = 0;
                },
            }
            steps += 1;
        }
        proof {
            assert(walk_files(bs, next as int, (n - steps) as nat) =~= Seq::<(Seq<u8>, int)>::empty());
            assert(fs =~= out@.map_values(|p: (Vec<u8>, usize)| (p.0@, p.1 as int)));
            assert forall|i: int| 0 <= i < fs.len() implies (#[trigger] out@[i]).0@ == fs[i].0
                && out@[i].1 == fs[i].1 by {
                assert(fs[i] == out@.map_values(|p: (Vec<u8>, usize)| (p.0@, p.1 as int))[i]);
            }
        }
        out
    }

    /// The content of the file carrying `filename`, reconstructed from its
    /// header block and its chain of data blocks and decoded as UTF-8 with
    /// lossy replacement.
    pub fn cat_file(&self, filename: &str) -> (r: Result<String, VFSError>)
        requires
            self@.len() > 0,
            self@[0] is Folder,
        ensures
            ({
                let res = read_spec(self@, filename.spec_bytes());
                match res {
                    Ok(bytes) => r is Ok && r->Ok_0@ == lossy_decode_of(bytes) && (valid_utf8(
                        bytes,
                    ) ==> r->Ok_0@ == decode_utf8(bytes)),
                    Err(e) => r is Err && r->Err_0 == e,
                }
            }),
    {
        let ghost bs = self@;
        let ghost nb = filename.spec_bytes();
        let ghost fs = walk_files(bs, root_next_file(bs), bs.len() as nat);
        let names = self.walk_names();
        let fname = filename.as_bytes_vec();
        let n0 = self.blocks.len();
        let n = names.len();
        let mut i: usize = 0;
        let mut found: bool = false;
        let mut pos: usize = 0;
        proof {
            assert(fs.skip(0) =~= fs);
        }
        while i < n && !found
            invariant
                n == names@.len(),
                n == fs.len(),
                i <= n,
                fname@ == nb,
                forall|j: int|
                    0 <= j < names@.len() ==> (#[trigger] names@[j]).0@ == fs[j].0 && names@[j].1
                        == fs[j].1,
                !found ==> find_file(fs, nb) == find_file(fs.skip(i as int), nb),
                found ==> find_file(fs, nb) == Some(pos as int),
                found ==> exists|k: int|
                    0 <= k < fs.len() && (#[trigger] fs[k]).1 == pos && fs[k].0 == nb,
            decreases n - i,
        {
            if crate::block::bytes_equal(&names[i].0, &fname) {
                found = true;
                pos = names[i].1;
                proof {
                    assert(fs.skip(i as int)[0] == fs[i as int]);
                    assert(fs[i as int].0 == nb);
                    assert(find_file(fs.skip(i as int), nb) == Some(fs[i as int].1));
                }
            } else {
                proof {
                    assert(fs.skip(i as int)[0] == fs[i as int]);
                    assert(fs[i as int].0 != nb);
                    assert(fs.skip(i as int).drop_first() =~= fs.skip(i as int + 1));
                }
            }
            i += 1;
        }
        if !found {
            proof {
                assert(fs.skip(n as int) =~= Seq::<(Seq<u8>, int)>::empty());
            }
            return Err(VFSError::FileNotFound);
        }
        proof {
            lemma_walk_files_entries(bs, root_next_file(bs), bs.len() as nat);
            let k = choose|k: int| 0 <= k < fs.len() && (#[trigger] fs[k]).1 == pos && fs[k].0 == nb;
            assert(fs[k].1 == pos);
            assert(0 < pos < bs.len() && bs[pos as int] is FileHeader);
        }
        match &self.blocks[pos] {
            Block::FileHeader(h) => {
                let mut content: Vec<u8> = if h.data.len() > 0 {
                    crate::block::copy_range(&h.data, 0, h.data.len() - 1)
                } else {
                    Vec::new()
                };
                let ghost head = head_content(h@);
                proof {
                    assert(content@ =~= head);
                }
                let ghost target = walk_data(bs, h@.next_data as int, n0 as nat);
                let mut next: u8 = h.next_data;
                let mut steps: usize = 0;
                proof {
                    if walk_data(bs, next as int, (n0 - steps) as nat) is Some {
                        assert(content@.skip(head.len() as int) =~= Seq::<u8>::empty());
                        assert(content@.skip(head.len() as int) + walk_data(
                            bs,
                            next as int,
                            (n0 - steps) as nat,
                        )->0 =~= walk_data(bs, next as int, (n0 - steps) as nat)->0);
                    }
                }
                while next != 0
                    invariant
                        n0 == bs.len(),
                        bs == self@,
                        bs.len() > 0,
                        bs[0] is Folder,
                        nb == filename.spec_bytes(),
                        fs == walk_files(bs, root_next_file(bs), bs.len() as nat),
                        find_file(fs, nb) == Some(pos as int),
                        0 <= pos < n0,
                        bs[pos as int] is FileHeader,
                        h@ == bs[pos as int]->FileHeader_0,
                        head == head_content(h@),
                        target == walk_data(bs, h@.next_data as int, n0 as nat),
                        steps <= n0,
                        content@.len() >= head.len(),
                        content@.take(head.len() as int) == head,
                        target == (match walk_data(bs, next as int, (n0 - steps) as nat) {
                            Some(t) => Some(content@.skip(head.len() as int) + t),
                            None => None::<Seq<u8>>,
                        }),
                    decreases n0 - steps,
                {
                    if next as usize >= n0 || steps >= n0 {
                        proof {
                            assert(walk_data(bs, next as int, (n0 - steps) as nat) is None);
                        }
                        return Err(VFSError::DataNotFound);
                    }
                    let ghost acc0 = content@.skip(head.len() as int);
                    let ghost fuel0 = (n0 - steps) as nat;
                    match &self.blocks[next as usize] {
                        Block::FileData(d) => {
                            let zp = crate::block::find_zero(&d.data, 0);
                            let chunk = crate::block::copy_range(&d.data, 0, zp);
                            proof {
                                assert(d.data@.skip(0) =~= d.data@);
                                assert(chunk@ =~= data_chunk(d@.data));
                            }
                            crate::block::append_bytes(&mut content, &chunk);
                            proof {
                                assert(content@.take(head.len() as int) =~= head);
                                assert(content@.skip(head.len() as int) =~= acc0 + chunk@);
                                if walk_data(bs, d.next_data as int, (fuel0 - 1) as nat) is Some {
                                    let rest = walk_data(
                                        bs,
                                        d.next_data as int,
                                        (fuel0 - 1) as nat,
                                    )->0;
                                    assert(walk_data(bs, next as int, fuel0) == Some(
                                        data_chunk(d@.data) + rest,
                                    ));
                                    assert((acc0 + chunk@) + rest =~= acc0 + (chunk@ + rest));
                                }
                            }
                            next = d.next_data;
                        },
                        _ => {
                            proof {
                                assert(walk_data(bs, next as int, fuel0) is None);
                            }
                            return Err(VFSError::DataNotFound);
                        },
                    }
                    steps += 1;
                }
                proof {
                    assert(target == Some(content@.skip(head.len() as int)));
                    assert(head + content@.skip(head.len() as int) =~= content@);
                }
                Ok(bytes_to_string_lossy(&content))
            },
            _ => {
                proof {
                    assert(false);
                }
                Err(VFSError::FileNotFound)
            },
        }
    }

    /// Render the whole disk as a hex dump: column index headers, then one
    /// row per block with its two-digit index label.
    pub fn print(&self) -> (r: String)
        requires
            self@.len() > 0,
        ensures
            r@ == render(self@),
    {
        let ghost bs = self@;
        let first = self.blocks[0].to_string();
        let width = first.as_str().unicode_len();
        proof {
            crate::hexcode::lemma_hex_upper_len(
                crate::block::body_bytes(bs[0]),
            );
            assert(width >= 2);
            reveal_strlit("XX: ");
            reveal_strlit("XX:");
            reveal_strlit("\n");
            reveal_strlit("0");
            reveal_strlit(":");
            reveal_strlit("               ");
        }
        let kmax = (width - 1) / 16;
        let mut out = String::from_str("XX: ");
        proof {
            assert(out@ =~= seq!['X', 'X', ':', ' '] + tens_cells(0));
        }
        let mut k: usize = 1;
        while k <= kmax
            invariant
                1 <= k <= kmax + 1,
                kmax == (width - 1) / 16,
                width >= 2,
                out@ == seq!['X', 'X', ':', ' '] + tens_cells(k - 1),
            decreases kmax - k + 1,
        {
            out.append("               ");
            let h = crate::hexcode::hex_usize(k);
            out.append(h.as_str());
            proof {
                reveal_strlit("               ");
                assert("               "@ =~= spaces(15));
                assert(out@ =~= seq!['X', 'X', ':', ' '] + tens_cells(k as int));
            }
            k += 1;
        }
        proof {
            assert(out@ == tens_row(width as int));
        }
        out.append("\n");
        let mut ones = String::from_str("XX:");
        proof {
            assert(ones@ =~= seq!['X', 'X', ':'] + Seq::new(
                0,
                |j: int| crate::hexcode::hex_digit_upper((j % 16) as u8),
            ));
        }
        let mut i: usize = 0;
        while i < width
            invariant
                i <= width,
                ones@ == seq!['X', 'X', ':'] + Seq::new(
                    i as nat,
                    |j: int| crate::hexcode::hex_digit_upper((j % 16) as u8),
                ),
            decreases width - i,
        {
            ones.append(crate::hexcode::digit_str((i % 16) as u8));
            proof {
                assert(ones@ =~= seq!['X', 'X', ':'] + Seq::new(
                    (i + 1) as nat,
                    |j: int| crate::hexcode::hex_digit_upper((j % 16) as u8),
                ));
            }
            i += 1;
        }
        out.append(ones.as_str());
        out.append("\n");
        proof {
            assert("\n"@ =~= seq!['\n']);
            assert(out@ =~= tens_row(width as int) + seq!['\n'] + ones_row(width as int)
                + seq!['\n']);
            assert(out@ + render_rows(bs, 0) =~= render(bs));
        }
        let n = self.blocks.len();
        let mut bi: usize = 0;
        while bi < n
            invariant
                bi <= n,
                n == bs.len(),
                bs == self@,
                render(bs) == out@ + render_rows(bs, bi as int),
            decreases n - bi,
        {
            let ghost before = out@;
            let label = row_label_exec(bi);
            out.append(label.as_str());
            let line = self.blocks[bi].to_string();
            out.append(line.as_str());
            out.append("\n");
            proof {
                reveal_strlit("\n");
                assert("\n"@ =~= seq!['\n']);
                assert(out@ =~= before + (row_label(bi as int) + crate::block::encode_line(
                    bs[bi as int],
                ) + seq!['\n']));
                assert(render_rows(bs, bi as int) =~= (row_label(bi as int)
                    + crate::block::encode_line(bs[bi as int]) + seq!['\n']) + render_rows(
                    bs,
                    bi as int + 1,
                ));
                assert(before + ((row_label(bi as int) + crate::block::encode_line(bs[bi as int])
                    + seq!['\n']) + render_rows(bs, bi as int + 1)) =~= (before + (row_label(
                    bi as int,
                ) + crate::block::encode_line(bs[bi as int]) + seq!['\n'])) + render_rows(
                    bs,
                    bi as int + 1,
                ));
            }
            bi += 1;
        }
        proof {
            assert(render_rows(bs, n as int) =~= Seq::<char>::empty());
            assert(out@ + Seq::<char>::empty() =~= out@);
        }
        out
    }

    /// Number of blocks in use: the block count minus the length of the
    /// free list reachable from the root folder's `next_available` pointer.
    pub fn disk_usage(&self) -> (r: usize)
        requires
            self@.len() > 0,
            self@[0] is Folder,
        ensures
            r == usage_of(self@),
    {
        let ghost bs = self@;
        let n = self.blocks.len();
        let next_avail = match &self.blocks[0] {
            Block::Folder(f) => f.next_available,
            _ => {
                proof {
                    assert(false);
                }
                0
            },
        };
        let ghost total = free_list_len(bs, next_avail as int, n as nat);
        let mut free: usize = 0;
        let mut next: u8 = next_avail;
        let mut steps: usize = 0;
        while next != 0 && (next as usize) < n && steps < n
            invariant
                n == bs.len(),
                bs == self@,
                steps <= n,
                free <= steps,
                total == free + free_list_len(bs, next as int, (n - steps) as nat),
            decreases n - steps,
        {
            match &self.blocks[next as usize] {
                Block::Empty(e) => {
                    free += 1;
                    next = e.next_file;
                },
                _ => {
                    next = 0;
                },
            }
            steps += 1;
        }
        proof {
            assert(free_list_len(bs, next as int, (n - steps) as nat) == 0);
            assert(total == free);
        }
        if free <= n {
            n - free
        } else {
            0
        }
    }

    /// The names and block indices of the files on the disk, in directory
    /// chain order.  Names are decoded as UTF-8 with lossy replacement.
    pub fn get_files(&self) -> (r: Vec<(String, usize)>)
        requires
            self@.len() > 0,
            self@[0] is Folder,
        ensures
            ({
                let fs = walk_files(self@, root_next_file(self@), self@.len() as nat);
                &&& r@.len() == fs.len()
                &&& forall|i: int|
                    0 <= i < fs.len() ==> (#[trigger] r@[i]).0@ == lossy_decode_of(fs[i].0)
                        && r@[i].1 == fs[i].1
                &&& forall|i: int|
                    0 <= i < fs.len() && valid_utf8(fs[i].0) ==> (#[trigger] r@[i]).0@
                        == decode_utf8(fs[i].0)
            }),
    {
        let names = self.walk_names();
        let ghost fs = walk_files(self@, root_next_file(self@), self@.len() as nat);
        let mut r: Vec<(String, usize)> = Vec::new();
        let n = names.len();
        let mut i: usize = 0;
        while i < n
            invariant
                n == names@.len(),
                n == fs.len(),
                i <= n,
                r@.len() == i,
                forall|j: int|
                    0 <= j < names@.len() ==> (#[trigger] names@[j]).0@ == fs[j].0 && names@[j].1
                        == fs[j].1,
                forall|j: int|
                    0 <= j < i ==> (#[trigger] r@[j]).0@ == lossy_decode_of(fs[j].0) && r@[j].1
                        == fs[j].1,
                forall|j: int|
                    0 <= j < i && valid_utf8(fs[j].0) ==> (#[trigger] r@[j]).0@ == decode_utf8(
                        fs[j].0,
                    ),
            decreases n - i,
        {
            let p = &names[i];
            let s = bytes_to_string_lossy(&p.0);
            r.push((s, p.1));
            i += 1;
        }
        r
    }
}

} // verus!
