//! The binary instruction format: one record per instruction, little
//! endian, with inline matrices in sparse coordinate form.
//!
//! A record is the instruction id (four bytes), a kind byte giving the
//! kernel and the shape of the two operands, then the two operands: an
//! address as four bytes, an inline block as a non-zero count (four bytes),
//! a rank byte, a layout byte, and one sixteen-byte-plus-coordinates record
//! per non-zero entry.  Every parsed record re-serialises to exactly the
//! bytes it was parsed from.

use vstd::prelude::*;
use crate::scheduler::SerializeFormat;

verus! {

/// The serialisation configuration: the layout of the left operand.
pub struct QcfConfig {
    pub matrix_format: SerializeFormat,
}

impl QcfConfig {
    /// A column-major configuration.
    pub fn column_major() -> (r: Self)
        ensures
            r.matrix_format == SerializeFormat::ColumnMajor,
    {
        Self { matrix_format: SerializeFormat::ColumnMajor }
    }

    /// A row-major configuration.
    pub fn row_major() -> (r: Self)
        ensures
            r.matrix_format == SerializeFormat::RowMajor,
    {
        Self { matrix_format: SerializeFormat::RowMajor }
    }

    /// The opposite layout.
    pub fn invert(&self) -> (r: Self)
        ensures
            r.matrix_format == spec_invert(self.matrix_format),
    {
        match self.matrix_format {
            SerializeFormat::RowMajor => Self::column_major(),
            SerializeFormat::ColumnMajor => Self::row_major(),
        }
    }
}

impl Default for QcfConfig {
    /// The default layout is row major.
    fn default() -> (r: Self)
        ensures
            r.matrix_format == SerializeFormat::RowMajor,
    {
        Self { matrix_format: SerializeFormat::RowMajor }
    }
}

/// The opposite layout.
pub open spec fn spec_invert(f: SerializeFormat) -> SerializeFormat {
    match f {
        SerializeFormat::RowMajor => SerializeFormat::ColumnMajor,
        SerializeFormat::ColumnMajor => SerializeFormat::RowMajor,
    }
}

/// One non-zero entry of a sparse block: its coordinates and the bit
/// patterns of the real and imaginary parts of its value.
#[derive(Clone, Copy, PartialEq, Eq, Structural, Debug)]
pub struct CooEntry {
    pub row: u32,
    pub col: u32,
    pub re_bits: u64,
    pub im_bits: u64,
}

/// A dense complex matrix in sparse coordinate form: the rank (the base-two
/// logarithm of the row count) and the non-zero entries, in the order of
/// the chosen layout.
#[derive(Clone, PartialEq, Eq, Debug)]
pub struct CooBlock {
    pub rank: u8,
    pub entries: Vec<CooEntry>,
}

impl CooBlock {
    /// Holds when the non-zero count fits the four bytes of the wire
    /// format.
    pub open spec fn wf(&self) -> bool {
        self.entries@.len() <= 0xFFFF_FFFF
    }
}

/// An operand of a wire instruction: an inline block or the id of another
/// instruction.
#[derive(Clone, PartialEq, Eq, Debug)]
pub enum QcfOperand {
    /// An inline sparse block.
    Block(CooBlock),
    /// The id of the instruction that produces the operand.
    Address(u32),
}

impl QcfOperand {
    /// Holds when an inline block is well formed.
    pub open spec fn wf(&self) -> bool {
        match self {
            QcfOperand::Block(b) => b.wf(),
            QcfOperand::Address(_) => true,
        }
    }
}

/// A wire instruction: an id, a kernel, two operands and the layout of the
/// left operand.  For a matrix multiplication the right operand's layout on
/// the wire is the inverse of the left operand's, to enable streaming
/// inner-product kernels.
#[derive(Clone, PartialEq, Eq, Debug)]
pub struct QcfInstruction {
    pub id: u32,
    pub te: bool,
    pub left: QcfOperand,
    pub right: QcfOperand,
    pub left_format: SerializeFormat,
}

impl QcfInstruction {
    /// Holds when both operands are well formed.
    pub open spec fn wf(&self) -> bool {
        self.left.wf() && self.right.wf()
    }
}

/// The four little-endian bytes of a 32-bit value.
pub open spec fn u32_le(x: u32) -> Seq<u8> {
    seq![
        (x & 0xff) as u8,
        ((x >> 8) & 0xff) as u8,
        ((x >> 16) & 0xff) as u8,
        ((x >> 24) & 0xff) as u8,
    ]
}

/// The eight little-endian bytes of a 64-bit value.
pub open spec fn u64_le(x: u64) -> Seq<u8> {
    seq![
        (x & 0xff) as u8,
        ((x >> 8) & 0xff) as u8,
        ((x >> 16) & 0xff) as u8,
        ((x >> 24) & 0xff) as u8,
        ((x >> 32) & 0xff) as u8,
        ((x >> 40) & 0xff) as u8,
        ((x >> 48) & 0xff) as u8,
        ((x >> 56) & 0xff) as u8,
    ]
}

/// The byte of a layout flag: zero for row major, one for column major.
pub open spec fn format_byte(f: SerializeFormat) -> u8 {
    match f {
        SerializeFormat::RowMajor => 0,
        SerializeFormat::ColumnMajor => 1,
    }
}

/// The bytes of one non-zero entry.
pub open spec fn entry_bytes(e: CooEntry) -> Seq<u8> {
    u32_le(e.row) + u32_le(e.col) + u64_le(e.re_bits) + u64_le(e.im_bits)
}

/// The bytes of a list of non-zero entries.
pub open spec fn entries_bytes(s: Seq<CooEntry>) -> Seq<u8>
    decreases s.len(),
{
    if s.len() == 0 {
        Seq::empty()
    } else {
        entries_bytes(s.drop_last()) + entry_bytes(s.last())
    }
}

/// The bytes of an inline block in the given layout.
pub open spec fn block_bytes(b: CooBlock, f: SerializeFormat) -> Seq<u8> {
    u32_le(b.entries@.len() as u32) + seq![b.rank, format_byte(f)] + entries_bytes(b.entries@)
}

/// The bytes of an operand in the given layout.
pub open spec fn operand_bytes(o: QcfOperand, f: SerializeFormat) -> Seq<u8> {
    match o {
        QcfOperand::Block(b) => block_bytes(b, f),
        QcfOperand::Address(a) => u32_le(a),
    }
}

/// The kind byte of an instruction: the kernel and the shapes of the two
/// operands.
pub open spec fn kind_byte(i: QcfInstruction) -> u8 {
    let base: u8 = if i.te {
        0
    } else {
        4
    };
    let l: u8 = if i.left is Address {
        2
    } else {
        0
    };
    let r: u8 = if i.right is Address {
        1
    } else {
        0
    };
    (base + l + r) as u8
}

/// The layout of the right operand on the wire: for a matrix
/// multiplication the inverse of the left operand's layout, for a tensor
/// product the same.
pub open spec fn right_format(i: QcfInstruction) -> SerializeFormat {
    if i.te {
        i.left_format
    } else {
        spec_invert(i.left_format)
    }
}

/// The bytes of a whole instruction record.
pub open spec fn instr_bytes(i: QcfInstruction) -> Seq<u8> {
    u32_le(i.id) + seq![kind_byte(i)] + operand_bytes(i.left, i.left_format) + operand_bytes(
        i.right,
        right_format(i),
    )
}

/// Appends the four little-endian bytes of a 32-bit value.
fn push_u32_le(out: &mut Vec<u8>, x: u32)
    ensures
        final(out)@ == old(out)@ + u32_le(x),
{
    out.push((x & 0xff) as u8);
    out.push(((x >> 8) & 0xff) as u8);
    out.push(((x >> 16) & 0xff) as u8);
    out.push(((x >> 24) & 0xff) as u8);
    proof {
        assert(out@ =~= old(out)@ + u32_le(x));
    }
}

/// Appends the eight little-endian bytes of a 64-bit value.
fn push_u64_le(out: &mut Vec<u8>, x: u64)
    ensures
        final(out)@ == old(out)@ + u64_le(x),
{
    out.push((x & 0xff) as u8);
    out.push(((x >> 8) & 0xff) as u8);
    out.push(((x >> 16) & 0xff) as u8);
    out.push(((x >> 24) & 0xff) as u8);
    out.push(((x >> 32) & 0xff) as u8);
    out.push(((x >> 40) & 0xff) as u8);
    out.push(((x >> 48) & 0xff) as u8);
    out.push(((x >> 56) & 0xff) as u8);
    proof {
        assert(out@ =~= old(out)@ + u64_le(x));
    }
}

/// Appends the byte of a layout flag.
fn push_format(out: &mut Vec<u8>, f: SerializeFormat)
    ensures
        final(out)@ == old(out)@ + seq![format_byte(f)],
{
    match f {
        SerializeFormat::RowMajor => out.push(0),
        SerializeFormat::ColumnMajor => out.push(1),
    }
    proof {
        assert(out@ =~= old(out)@ + seq![format_byte(f)]);
    }
}

/// Appends the bytes of an inline block in the given layout.
fn push_block(out: &mut Vec<u8>, b: &CooBlock, f: SerializeFormat)
    requires
        b.wf(),
    ensures
        final(out)@ == old(out)@ + block_bytes(*b, f),
{
    push_u32_le(out, b.entries.len() as u32);
    out.push(b.rank);
    push_format(out, f);
    let ghost header = old(out)@ + u32_le(b.entries@.len() as u32) + seq![b.rank, format_byte(f)];
    proof {
        assert(out@ =~= header);
        assert(entries_bytes(b.entries@.subrange(0, 0)) =~= Seq::<u8>::empty());
        assert(out@ =~= header + entries_bytes(b.entries@.subrange(0, 0)));
    }
    let mut i: usize = 0;
    while i < b.entries.len()
        invariant
            i <= b.entries@.len(),
            out@ == header + entries_bytes(b.entries@.subrange(0, i as int)),
        decreases b.entries@.len() - i,
    {
        let e = b.entries[i];
        let ghost pre = out@;
        push_u32_le(out, e.row);
        push_u32_le(out, e.col);
        push_u64_le(out, e.re_bits);
        push_u64_le(out, e.im_bits);
        proof {
            let s1 = b.entries@.subrange(0, i + 1 as int);
            assert(s1.drop_last() =~= b.entries@.subrange(0, i as int));
            assert(s1.last() == e);
            assert(out@ =~= pre + entry_bytes(e));
            assert(out@ =~= header + entries_bytes(s1));
        }
        i = i + 1;
    }
    proof {
        assert(b.entries@.subrange(0, b.entries@.len() as int) =~= b.entries@);
        assert(out@ =~= old(out)@ + block_bytes(*b, f));
    }
}

/// Appends the bytes of an operand in the given layout.
fn push_operand(out: &mut Vec<u8>, o: &QcfOperand, f: SerializeFormat)
    requires
        o.wf(),
    ensures
        final(out)@ == old(out)@ + operand_bytes(*o, f),
{
    match o {
        QcfOperand::Block(b) => push_block(out, b, f),
        QcfOperand::Address(a) => push_u32_le(out, *a),
    }
}

/// A consumer of the binary instruction format.
pub trait ToQcf {
    /// The byte image the serialiser promises: the documented encoding for
    /// a representable value, nothing for a value the format cannot carry.
    spec fn qcf_image(&self, config: &QcfConfig) -> Seq<u8>;

    /// Serialises the value under the given configuration.
    fn to_qcf(&self, config: &QcfConfig) -> (r: Vec<u8>)
        ensures
            r@ == self.qcf_image(config),
    ;
}

impl CooBlock {
    /// Serialises the block in the given layout.
    pub fn qcf_bytes(&self, config: &QcfConfig) -> (r: Vec<u8>)
        requires
            self.wf(),
        ensures
            r@ == block_bytes(*self, config.matrix_format),
    {
        let mut out: Vec<u8> = Vec::new();
        push_block(&mut out, self, config.matrix_format);
        out
    }
}

impl ToQcf for CooBlock {
    /// A block whose non-zero count overflows the four-byte wire field
    /// cannot be represented and serialises to nothing.
    open spec fn qcf_image(&self, config: &QcfConfig) -> Seq<u8> {
        if self.wf() {
            block_bytes(*self, config.matrix_format)
        } else {
            Seq::empty()
        }
    }

    fn to_qcf(&self, config: &QcfConfig) -> (r: Vec<u8>) {
        if self.entries.len() > 0xFFFF_FFFFusize {
            Vec::new()
        } else {
            self.qcf_bytes(config)
        }
    }
}

impl QcfInstruction {
    /// Serialises the whole record: the id, the kind byte, then the left
    /// and the right operand; a matrix multiplication's right operand is
    /// laid out inversely to its left operand.
    pub fn qcf_bytes(&self) -> (r: Vec<u8>)
        requires
            self.wf(),
        ensures
            r@ == instr_bytes(*self),
    {
        let mut out: Vec<u8> = Vec::new();
        push_u32_le(&mut out, self.id);
        let base: u8 = if self.te {
            0
        } else {
            4
        };
        let l: u8 = match self.left {
            QcfOperand::Address(_) => 2,
            QcfOperand::Block(_) => 0,
        };
        let rb: u8 = match self.right {
            QcfOperand::Address(_) => 1,
            QcfOperand::Block(_) => 0,
        };
        out.push(base + l + rb);
        proof {
            assert(out@ =~= u32_le(self.id) + seq![kind_byte(*self)]);
        }
        push_operand(&mut out, &self.left, self.left_format);
        let rf = if self.te {
            self.left_format
        } else {
            QcfConfig { matrix_format: self.left_format }.invert().matrix_format
        };
        push_operand(&mut out, &self.right, rf);
        proof {
            assert(out@ =~= instr_bytes(*self));
        }
        out
    }
}

impl ToQcf for QcfInstruction {
    /// A record holding a block whose non-zero count overflows the
    /// four-byte wire field cannot be represented and serialises to
    /// nothing; the configuration plays no part, as the record carries its
    /// own layouts.
    open spec fn qcf_image(&self, config: &QcfConfig) -> Seq<u8> {
        if self.wf() {
            instr_bytes(*self)
        } else {
            Seq::empty()
        }
    }

    fn to_qcf(&self, config: &QcfConfig) -> (r: Vec<u8>) {
        let left_ok = match &self.left {
            QcfOperand::Block(b) => b.entries.len() <= 0xFFFF_FFFFusize,
            QcfOperand::Address(_) => true,
        };
        let right_ok = match &self.right {
            QcfOperand::Block(b) => b.entries.len() <= 0xFFFF_FFFFusize,
            QcfOperand::Address(_) => true,
        };
        if left_ok && right_ok {
            self.qcf_bytes()
        } else {
            Vec::new()
        }
    }
}

/// A failure while reading a record: the bytes ran out, or a kind or
/// layout byte holds a value the format does not use.
#[derive(Clone, Copy, PartialEq, Eq, Structural, Debug)]
pub enum QcfError {
    /// The record needs more bytes than remain.
    Truncated,
    /// A kind or layout byte is not one the format uses.
    BadKind,
}
/// The byte length of a block's entry list.
pub proof fn lemma_entries_bytes_len(s: Seq<CooEntry>)
    ensures
        entries_bytes(s).len() == 24 * s.len(),
    decreases s.len(),
{
    if s.len() > 0 {
        lemma_entries_bytes_len(s.drop_last());
    }
}

/// The byte length of an operand in any layout.
pub open spec fn operand_len(o: QcfOperand) -> int {
    match o {
        QcfOperand::Block(b) => 6 + 24 * (b.entries@.len() as int),
        QcfOperand::Address(_) => 4,
    }
}

/// The byte length of a whole record.
pub open spec fn instr_len(i: QcfInstruction) -> int {
    5 + operand_len(i.left) + operand_len(i.right)
}

/// A record's byte image has the length the operand shapes dictate, and at
/// least thirteen bytes.
pub proof fn lemma_instr_bytes_len(i: QcfInstruction)
    ensures
        instr_bytes(i).len() == instr_len(i),
        instr_bytes(i).len() >= 13,
        operand_bytes(i.left, i.left_format).len() == operand_len(i.left),
        operand_bytes(i.right, right_format(i)).len() == operand_len(i.right),
{
    match i.left {
        QcfOperand::Block(b) => lemma_entries_bytes_len(b.entries@),
        QcfOperand::Address(_) => {},
    }
    match i.right {
        QcfOperand::Block(b) => lemma_entries_bytes_len(b.entries@),
        QcfOperand::Address(_) => {},
    }
}

/// Four little-endian bytes determine their 32-bit value.
pub proof fn lemma_u32_le_injective(a: u32, b: u32)
    requires
        u32_le(a) == u32_le(b),
    ensures
        a == b,
{
    assert(u32_le(a)[0] == u32_le(b)[0] && u32_le(a)[1] == u32_le(b)[1] && u32_le(a)[2] == u32_le(
        b,
    )[2] && u32_le(a)[3] == u32_le(b)[3]);
    assert(a & 0xff < 256 && (a >> 8) & 0xff < 256 && (a >> 16) & 0xff < 256 && (a >> 24) & 0xff
        < 256) by (bit_vector);
    assert(b & 0xff < 256 && (b >> 8) & 0xff < 256 && (b >> 16) & 0xff < 256 && (b >> 24) & 0xff
        < 256) by (bit_vector);
    assert(a & 0xff == b & 0xff && (a >> 8) & 0xff == (b >> 8) & 0xff && (a >> 16) & 0xff == (b
        >> 16) & 0xff && (a >> 24) & 0xff == (b >> 24) & 0xff);
    assert(a == b) by (bit_vector)
        requires
            a & 0xff == b & 0xff,
            (a >> 8) & 0xff == (b >> 8) & 0xff,
            (a >> 16) & 0xff == (b >> 16) & 0xff,
            (a >> 24) & 0xff == (b >> 24) & 0xff,
    ;
}

/// Holds when the bytes starting at the offset are exactly the image of the
/// given well formed record, with room for it.
pub open spec fn encodes_at(bytes: Seq<u8>, start: int, i: QcfInstruction) -> bool {
    &&& i.wf()
    &&& 0 <= start
    &&& start + instr_bytes(i).len() <= bytes.len()
    &&& bytes.subrange(start, start + instr_bytes(i).len()) == instr_bytes(i)
}

/// Holds when the bytes starting at the offset are exactly the image of the
/// given well formed block in the given layout, with room for it.
pub open spec fn block_encodes_at(bytes: Seq<u8>, off: int, b: CooBlock, f: SerializeFormat) -> bool {
    &&& b.wf()
    &&& 0 <= off
    &&& off + block_bytes(b, f).len() <= bytes.len()
    &&& bytes.subrange(off, off + block_bytes(b, f).len()) == block_bytes(b, f)
}

/// The kind byte determines the kernel and the operand shapes.
pub proof fn lemma_kind_byte(i: QcfInstruction)
    ensures
        kind_byte(i) < 8,
        i.te <==> kind_byte(i) < 4,
        (i.left is Address) <==> (kind_byte(i) == 2 || kind_byte(i) == 3 || kind_byte(i) == 6
            || kind_byte(i) == 7),
        (i.right is Address) <==> (kind_byte(i) == 1 || kind_byte(i) == 3 || kind_byte(i) == 5
            || kind_byte(i) == 7),
{
}

/// Reads four little-endian bytes as a 32-bit value; fails exactly when
/// fewer than four bytes remain.
fn read_u32_le(bytes: &Vec<u8>, off: usize) -> (r: Result<(u32, usize), QcfError>)
    requires
        off <= bytes@.len(),
    ensures
        r matches Ok((x, next)) ==> next == off + 4 && next <= bytes@.len() && u32_le(x)
            == bytes@.subrange(off as int, next as int),
        r is Err <==> bytes@.len() - off < 4,
{
    if bytes.len() - off < 4 {
        return Err(QcfError::Truncated);
    }
    let c0 = bytes[off] as u32;
    let c1 = bytes[off + 1] as u32;
    let c2 = bytes[off + 2] as u32;
    let c3 = bytes[off + 3] as u32;
    let x = c0 | (c1 << 8) | (c2 << 16) | (c3 << 24);
    proof {
        assert(x & 0xff == c0 && (x >> 8) & 0xff == c1 && (x >> 16) & 0xff == c2 && (x >> 24)
            & 0xff == c3) by (bit_vector)
            requires
                x == c0 | (c1 << 8) | (c2 << 16) | (c3 << 24),
                c0 < 256,
                c1 < 256,
                c2 < 256,
                c3 < 256,
        ;
        assert(u32_le(x) =~= bytes@.subrange(off as int, off + 4 as int));
    }
    Ok((x, off + 4))
}

/// Reads eight little-endian bytes as a 64-bit value; fails exactly when
/// fewer than eight bytes remain.
fn read_u64_le(bytes: &Vec<u8>, off: usize) -> (r: Result<(u64, usize), QcfError>)
    requires
        off <= bytes@.len(),
    ensures
        r matches Ok((x, next)) ==> next == off + 8 && next <= bytes@.len() && u64_le(x)
            == bytes@.subrange(off as int, next as int),
        r is Err <==> bytes@.len() - off < 8,
{
    if bytes.len() - off < 8 {
        return Err(QcfError::Truncated);
    }
    let c0 = bytes[off] as u64;
    let c1 = bytes[off + 1] as u64;
    let c2 = bytes[off + 2] as u64;
    let c3 = bytes[off + 3] as u64;
    let c4 = bytes[off + 4] as u64;
    let c5 = bytes[off + 5] as u64;
    let c6 = bytes[off + 6] as u64;
    let c7 = bytes[off + 7] as u64;
    let x = c0 | (c1 << 8) | (c2 << 16) | (c3 << 24) | (c4 << 32) | (c5 << 40) | (c6 << 48) | (c7
        << 56);
    proof {
        assert(x & 0xff == c0 && (x >> 8) & 0xff == c1 && (x >> 16) & 0xff == c2 && (x >> 24)
            & 0xff == c3 && (x >> 32) & 0xff == c4 && (x >> 40) & 0xff == c5 && (x >> 48) & 0xff
            == c6 && (x >> 56) & 0xff == c7) by (bit_vector)
            requires
                x == c0 | (c1 << 8) | (c2 << 16) | (c3 << 24) | (c4 << 32) | (c5 << 40) | (c6
                    << 48) | (c7 << 56),
                c0 < 256,
                c1 < 256,
                c2 < 256,
                c3 < 256,
                c4 < 256,
                c5 < 256,
                c6 < 256,
                c7 < 256,
        ;
        assert(u64_le(x) =~= bytes@.subrange(off as int, off + 8 as int));
    }
    Ok((x, off + 8))
}

/// Reads an inline block together with the layout its own flag byte
/// records.  A failure means that no well formed block, in any layout, is
/// encoded at the offset.
fn read_block(bytes: &Vec<u8>, off: usize) -> (r: Result<
    (CooBlock, SerializeFormat, usize),
    QcfError,
>)
    requires
        off <= bytes@.len(),
    ensures
        r matches Ok((b, f, next)) ==> off <= next <= bytes@.len() && b.wf() && block_bytes(b, f)
            == bytes@.subrange(off as int, next as int),
        r is Err ==> forall|b: CooBlock, f: SerializeFormat|
            !block_encodes_at(bytes@, off as int, b, f),
{
    let (count, mut pos) = match read_u32_le(bytes, off) {
        Ok(p) => p,
        Err(e) => {
            proof {
                assert forall|b: CooBlock, f: SerializeFormat| !block_encodes_at(
                    bytes@,
                    off as int,
                    b,
                    f,
                ) by {
                    if block_encodes_at(bytes@, off as int, b, f) {
                        lemma_entries_bytes_len(b.entries@);
                    }
                }
            }
            return Err(e);
        },
    };
    if bytes.len() - pos < 2 {
        proof {
            assert forall|b: CooBlock, f: SerializeFormat| !block_encodes_at(
                bytes@,
                off as int,
                b,
                f,
            ) by {
                if block_encodes_at(bytes@, off as int, b, f) {
                    lemma_entries_bytes_len(b.entries@);
                }
            }
        }
        return Err(QcfError::Truncated);
    }
    let rank = bytes[pos];
    let fb = bytes[pos + 1];
    let f = if fb == 0 {
        SerializeFormat::RowMajor
    } else if fb == 1 {
        SerializeFormat::ColumnMajor
    } else {
        proof {
            assert forall|b: CooBlock, f2: SerializeFormat| !block_encodes_at(
                bytes@,
                off as int,
                b,
                f2,
            ) by {
                if block_encodes_at(bytes@, off as int, b, f2) {
                    lemma_entries_bytes_len(b.entries@);
                    assert(bytes@[off + 5] == block_bytes(b, f2)[5]);
                    assert(block_bytes(b, f2)[5] == format_byte(f2));
                }
            }
        }
        return Err(QcfError::BadKind);
    };
    pos = pos + 2;
    let ghost header_end = pos;
    let mut entries: Vec<CooEntry> = Vec::new();
    let mut i: u32 = 0;
    proof {
        assert(entries_bytes(entries@) =~= Seq::<u8>::empty());
        assert(bytes@.subrange(header_end as int, pos as int) =~= Seq::<u8>::empty());
    }
    while i < count
        invariant
            i <= count,
            off + 4 <= bytes@.len(),
            header_end == off + 6,
            header_end <= pos <= bytes@.len(),
            pos == header_end + 24 * i,
            bytes@[off + 5] == format_byte(f),
            u32_le(count) == bytes@.subrange(off as int, off + 4 as int),
            entries@.len() == i,
            entries_bytes(entries@) == bytes@.subrange(header_end as int, pos as int),
        decreases count - i,
    {
        proof {
            assert forall|b: CooBlock, f2: SerializeFormat|
                block_encodes_at(bytes@, off as int, b, f2) implies bytes@.len() - pos >= 24 by {
                lemma_entries_bytes_len(b.entries@);
                assert(bytes@.subrange(off as int, off + 4 as int) == block_bytes(b, f2).subrange(
                    0,
                    4,
                ));
                assert(block_bytes(b, f2).subrange(0, 4) =~= u32_le(b.entries@.len() as u32));
                lemma_u32_le_injective(count, b.entries@.len() as u32);
                assert(b.entries@.len() as u32 == count);
                assert(b.entries@.len() == count);
            }
        }
        let (row, p1) = match read_u32_le(bytes, pos) {
            Ok(p) => p,
            Err(e) => {
                return Err(e);
            },
        };
        let (col, p2) = match read_u32_le(bytes, p1) {
            Ok(p) => p,
            Err(e) => {
                return Err(e);
            },
        };
        let (re_bits, p3) = match read_u64_le(bytes, p2) {
            Ok(p) => p,
            Err(e) => {
                return Err(e);
            },
        };
        let (im_bits, p4) = match read_u64_le(bytes, p3) {
            Ok(p) => p,
            Err(e) => {
                return Err(e);
            },
        };
        let e = CooEntry { row, col, re_bits, im_bits };
        let ghost pre = entries@;
        entries.push(e);
        proof {
            assert(entries@.drop_last() =~= pre);
            assert(entries@.last() == e);
            assert(bytes@.subrange(header_end as int, p4 as int) =~= bytes@.subrange(
                header_end as int,
                pos as int,
            ) + bytes@.subrange(pos as int, p1 as int) + bytes@.subrange(p1 as int, p2 as int)
                + bytes@.subrange(p2 as int, p3 as int) + bytes@.subrange(p3 as int, p4 as int));
            assert(entries_bytes(entries@) == bytes@.subrange(header_end as int, p4 as int));
        }
        pos = p4;
        i = i + 1;
    }
    let b = CooBlock { rank, entries };
    proof {
        assert(b.entries@.len() == count);
        assert(b.entries@.len() as u32 == count);
        assert(block_bytes(b, f) =~= bytes@.subrange(off as int, pos as int)) by {
            assert(u32_le(count) == bytes@.subrange(off as int, off + 4 as int));
            assert(bytes@.subrange(off + 4 as int, header_end as int) =~= seq![
                b.rank,
                format_byte(f),
            ]);
            assert(bytes@.subrange(off as int, pos as int) =~= bytes@.subrange(
                off as int,
                off + 4 as int,
            ) + bytes@.subrange(off + 4 as int, header_end as int) + bytes@.subrange(
                header_end as int,
                pos as int,
            ));
        }
    }
    Ok((b, f, pos))
}

/// The kind byte of a kernel and two operand shapes.
pub open spec fn kind_code(te: bool, left_addr: bool, right_addr: bool) -> u8 {
    (((if te {
        0u8
    } else {
        4u8
    }) + (if left_addr {
        2u8
    } else {
        0u8
    }) + (if right_addr {
        1u8
    } else {
        0u8
    })) as u8)
}

/// The kind byte of a record is the code of its kernel and operand shapes.
pub proof fn lemma_kind_code(i: QcfInstruction)
    ensures
        kind_byte(i) == kind_code(i.te, i.left is Address, i.right is Address),
{
}

/// Parses one instruction record starting at the given offset.
///
/// A successful parse is exact: the returned record re-serialises to
/// precisely the bytes consumed.  A failure is complete: it happens only
/// when no well formed record is encoded at the offset, so every record the
/// serialiser emits parses back.  A record whose operands are both
/// addresses does not carry its left layout on the wire; such a record
/// parses with a row-major left layout, which re-serialises identically.
pub fn parse_qcf(bytes: &Vec<u8>, start: usize) -> (r: Result<(QcfInstruction, usize), QcfError>)
    requires
        start <= bytes@.len(),
    ensures
        r matches Ok((instr, next)) ==> start <= next <= bytes@.len() && instr.wf() && instr_bytes(
            instr,
        ) == bytes@.subrange(start as int, next as int),
        r is Err ==> forall|i: QcfInstruction| !encodes_at(bytes@, start as int, i),
{
    let (id, p0) = match read_u32_le(bytes, start) {
        Ok(p) => p,
        Err(e) => {
            proof {
                lemma_no_record(bytes@, start as int);
            }
            return Err(e);
        },
    };
    if bytes.len() - p0 < 1 {
        proof {
            lemma_no_record(bytes@, start as int);
        }
        return Err(QcfError::Truncated);
    }
    let kind = bytes[p0];
    let (te, left_is_addr, right_is_addr) = if kind == 0 {
        (true, false, false)
    } else if kind == 1 {
        (true, false, true)
    } else if kind == 2 {
        (true, true, false)
    } else if kind == 3 {
        (true, true, true)
    } else if kind == 4 {
        (false, false, false)
    } else if kind == 5 {
        (false, false, true)
    } else if kind == 6 {
        (false, true, false)
    } else if kind == 7 {
        (false, true, true)
    } else {
        proof {
            assert forall|i: QcfInstruction| !encodes_at(bytes@, start as int, i) by {
                if encodes_at(bytes@, start as int, i) {
                    lemma_record_prefix(bytes@, start as int, i);
                    lemma_kind_byte(i);
                }
            }
        }
        return Err(QcfError::BadKind);
    };
    proof {
        assert(kind == kind_code(te, left_is_addr, right_is_addr));
    }
    if left_is_addr {
        parse_addr_left(bytes, start, id, te, right_is_addr)
    } else {
        parse_block_left(bytes, start, id, te, right_is_addr)
    }
}

/// Parses the rest of a record whose left operand is an address.
fn parse_addr_left(bytes: &Vec<u8>, start: usize, id: u32, te: bool, right_is_addr: bool) -> (r:
    Result<(QcfInstruction, usize), QcfError>)
    requires
        start + 5 <= bytes@.len(),
        u32_le(id) == bytes@.subrange(start as int, start + 4 as int),
        bytes@[start + 4] == kind_code(te, true, right_is_addr),
    ensures
        r matches Ok((instr, next)) ==> start <= next <= bytes@.len() && instr.wf() && instr_bytes(
            instr,
        ) == bytes@.subrange(start as int, next as int),
        r is Err ==> forall|i: QcfInstruction| !encodes_at(bytes@, start as int, i),
{
    let total = bytes.len();
    let p1 = start + 5;
    let (a, p2) = match read_u32_le(bytes, p1) {
        Ok(p) => p,
        Err(e) => {
            proof {
                lemma_no_record(bytes@, start as int);
            }
            return Err(e);
        },
    };
    let left = QcfOperand::Address(a);
    let (right, rf, p3) = match read_operand(bytes, p2, right_is_addr) {
        Ok(p) => p,
        Err(e) => {
            proof {
                assert forall|i: QcfInstruction| !encodes_at(bytes@, start as int, i) by {
                    if encodes_at(bytes@, start as int, i) {
                        lemma_record_prefix(bytes@, start as int, i);
                        lemma_kind_code(i);
                        lemma_kind_byte(i);
                        lemma_operand_fits(bytes@, start as int, i, p2 as int);
                    }
                }
            }
            return Err(e);
        },
    };
    // the record's left layout is recorded only on an inline block: an
    // address-led tensor product takes it from the right block, a
    // multiplication takes the inverse, and a record with two address
    // operands defaults to row major
    let left_format = match rf {
        Some(f) => {
            if te {
                f
            } else {
                match f {
                    SerializeFormat::RowMajor => SerializeFormat::ColumnMajor,
                    SerializeFormat::ColumnMajor => SerializeFormat::RowMajor,
                }
            }
        },
        None => SerializeFormat::RowMajor,
    };
    let instr = QcfInstruction { id, te, left, right, left_format };
    proof {
        assert(kind_byte(instr) == bytes@[start + 4]);
        lemma_instr_concat(instr, bytes@, start as int, start + 4 as int, p2 as int, p3 as int);
    }
    Ok((instr, p3))
}

/// Parses the rest of a record whose left operand is an inline block.
#[verifier::rlimit(100)]
fn parse_block_left(bytes: &Vec<u8>, start: usize, id: u32, te: bool, right_is_addr: bool) -> (r:
    Result<(QcfInstruction, usize), QcfError>)
    requires
        start + 5 <= bytes@.len(),
        u32_le(id) == bytes@.subrange(start as int, start + 4 as int),
        bytes@[start + 4] == kind_code(te, false, right_is_addr),
    ensures
        r matches Ok((instr, next)) ==> start <= next <= bytes@.len() && instr.wf() && instr_bytes(
            instr,
        ) == bytes@.subrange(start as int, next as int),
        r is Err ==> forall|i: QcfInstruction| !encodes_at(bytes@, start as int, i),
{
    let total = bytes.len();
    let p1 = start + 5;
    let (lb, left_format, p2) = match read_block(bytes, p1) {
        Ok(p) => p,
        Err(e) => {
            proof {
                assert forall|i: QcfInstruction| !encodes_at(bytes@, start as int, i) by {
                    if encodes_at(bytes@, start as int, i) {
                        lemma_record_prefix(bytes@, start as int, i);
                        lemma_kind_code(i);
                        lemma_kind_byte(i);
                        lemma_left_block_fits(bytes@, start as int, i);
                    }
                }
            }
            return Err(e);
        },
    };
    let left = QcfOperand::Block(lb);
    let (right, rf, p3) = match read_operand(bytes, p2, right_is_addr) {
        Ok(p) => p,
        Err(e) => {
            proof {
                assert forall|i: QcfInstruction| !encodes_at(bytes@, start as int, i) by {
                    if encodes_at(bytes@, start as int, i) {
                        lemma_record_prefix(bytes@, start as int, i);
                        lemma_kind_code(i);
                        lemma_kind_byte(i);
                        lemma_left_block_agrees(bytes@, start as int, i, lb, left_format,
                        p2 as int);
                        lemma_operand_fits(bytes@, start as int, i, p2 as int);
                    }
                }
            }
            return Err(e);
        },
    };
    // an inline right block must carry the layout the left operand
    // dictates: the same for a tensor product, the inverse for a
    // multiplication
    let expected = if te {
        left_format
    } else {
        match left_format {
            SerializeFormat::RowMajor => SerializeFormat::ColumnMajor,
            SerializeFormat::ColumnMajor => SerializeFormat::RowMajor,
        }
    };
    match rf {
        Some(f) => {
            if f != expected {
                proof {
                    let rbp = right->Block_0;
                    lemma_entries_bytes_len(rbp.entries@);
                    assert(operand_bytes(right, f) == bytes@.subrange(p2 as int, p3 as int));
                    assert(operand_bytes(right, f) =~= u32_le(rbp.entries@.len() as u32) + seq![
                        rbp.rank,
                        format_byte(f),
                    ] + entries_bytes(rbp.entries@));
                    assert(operand_bytes(right, f).len() >= 6);
                    assert(p3 - p2 >= 6);
                    assert(bytes@.subrange(p2 as int, p3 as int)[5] == bytes@[p2 + 5]);
                    assert(bytes@[p2 + 5] == operand_bytes(right, f)[5]);
                    assert(operand_bytes(right, f)[5] == format_byte(f));
                    assert forall|i: QcfInstruction| !encodes_at(bytes@, start as int, i) by {
                        if encodes_at(bytes@, start as int, i) {
                            lemma_record_prefix(bytes@, start as int, i);
                            lemma_kind_code(i);
                            lemma_kind_byte(i);
                            lemma_left_block_agrees(bytes@, start as int, i, lb, left_format,
                            p2 as int);
                            lemma_right_block_agrees(bytes@, start as int, i, p2 as int);
                            assert(bytes@[p2 + 5] == format_byte(right_format(i)));
                        }
                    }
                }
                return Err(QcfError::BadKind);
            }
        },
        None => {},
    }
    let instr = QcfInstruction { id, te, left, right, left_format };
    proof {
        assert(kind_byte(instr) == bytes@[start + 4]);
        lemma_instr_concat(instr, bytes@, start as int, start + 4 as int, p2 as int, p3 as int);
    }
    Ok((instr, p3))
}

/// Reads one operand of the announced shape; an inline block also reports
/// the layout its flag byte records.
fn read_operand(bytes: &Vec<u8>, off: usize, is_addr: bool) -> (r: Result<
    (QcfOperand, Option<SerializeFormat>, usize),
    QcfError,
>)
    requires
        off <= bytes@.len(),
    ensures
        r matches Ok((o, rf, next)) ==> off <= next <= bytes@.len() && o.wf() && (o is Address
            <==> is_addr) && match rf {
            Some(f) => !is_addr && operand_bytes(o, f) == bytes@.subrange(off as int, next as int),
            None => is_addr && operand_bytes(o, SerializeFormat::RowMajor) == bytes@.subrange(
                off as int,
                next as int,
            ),
        },
        r is Err && is_addr ==> bytes@.len() - off < 4,
        r is Err && !is_addr ==> forall|b: CooBlock, f: SerializeFormat|
            !block_encodes_at(bytes@, off as int, b, f),
{
    if is_addr {
        let (a, p) = match read_u32_le(bytes, off) {
            Ok(p) => p,
            Err(e) => {
                return Err(e);
            },
        };
        Ok((QcfOperand::Address(a), None, p))
    } else {
        let (b, f, p) = match read_block(bytes, off) {
            Ok(p) => p,
            Err(e) => {
                return Err(e);
            },
        };
        Ok((QcfOperand::Block(b), Some(f), p))
    }
}

/// No record fits when fewer than thirteen bytes remain at the offset.
proof fn lemma_no_record(bytes: Seq<u8>, start: int)
    requires
        0 <= start <= bytes.len(),
        bytes.len() - start < 13,
    ensures
        forall|i: QcfInstruction| !encodes_at(bytes, start, i),
{
    assert forall|i: QcfInstruction| !encodes_at(bytes, start, i) by {
        if encodes_at(bytes, start, i) {
            lemma_instr_bytes_len(i);
        }
    }
}

/// The leading bytes of an encoded record are its id and kind byte, its
/// operand images sit back to back after them, and both operands fit.
proof fn lemma_record_prefix(bytes: Seq<u8>, start: int, i: QcfInstruction)
    requires
        encodes_at(bytes, start, i),
    ensures
        bytes.len() - start >= 13,
        bytes[start + 4] == kind_byte(i),
        bytes.subrange(start + 5, start + 5 + operand_len(i.left)) == operand_bytes(
            i.left,
            i.left_format,
        ),
        bytes.subrange(
            start + 5 + operand_len(i.left),
            start + 5 + operand_len(i.left) + operand_len(i.right),
        ) == operand_bytes(i.right, right_format(i)),
{
    lemma_instr_bytes_len(i);
    let img = instr_bytes(i);
    let ll = operand_len(i.left);
    let rl = operand_len(i.right);
    assert(img == bytes.subrange(start, start + img.len() as int));
    assert(bytes[start + 4] == img[4]);
    assert(img[4] == kind_byte(i));
    assert(bytes.subrange(start + 5, start + 5 + ll) =~= img.subrange(5, 5 + ll));
    assert(img.subrange(5, 5 + ll) =~= operand_bytes(i.left, i.left_format));
    assert(bytes.subrange(start + 5 + ll, start + 5 + ll + rl) =~= img.subrange(
        5 + ll,
        5 + ll + rl,
    ));
    assert(img.subrange(5 + ll, 5 + ll + rl) =~= operand_bytes(i.right, right_format(i)));
}

/// An encoded record whose left operand is an inline block has that block
/// encoded right after the kind byte.
proof fn lemma_left_block_fits(bytes: Seq<u8>, start: int, i: QcfInstruction)
    requires
        encodes_at(bytes, start, i),
        i.left is Block,
    ensures
        block_encodes_at(bytes, start + 5, i.left->Block_0, i.left_format),
{
    lemma_record_prefix(bytes, start, i);
    lemma_instr_bytes_len(i);
}

/// Whatever block the parser read as the left operand occupies the same
/// bytes as an encoded record's left block, so the two end at the same
/// offset and agree on the layout.
#[verifier::rlimit(50)]
proof fn lemma_left_block_agrees(
    bytes: Seq<u8>,
    start: int,
    i: QcfInstruction,
    lb: CooBlock,
    lf: SerializeFormat,
    p2: int,
)
    requires
        encodes_at(bytes, start, i),
        i.left is Block,
        lb.wf(),
        start + 5 <= p2 <= bytes.len(),
        block_bytes(lb, lf) == bytes.subrange(start + 5, p2),
    ensures
        p2 == start + 5 + operand_len(i.left),
        lf == i.left_format,
{
    lemma_record_prefix(bytes, start, i);
    lemma_instr_bytes_len(i);
    let b = i.left->Block_0;
    lemma_entries_bytes_len(b.entries@);
    lemma_entries_bytes_len(lb.entries@);
    let limg = operand_bytes(i.left, i.left_format);
    assert(limg == bytes.subrange(start + 5, start + 5 + operand_len(i.left)));
    let pimg = block_bytes(lb, lf);
    assert(pimg == bytes.subrange(start + 5, p2));
    let bc = b.entries@.len() as u32;
    let lc = lb.entries@.len() as u32;
    // the two count fields occupy the same four bytes
    assert(limg =~= u32_le(bc) + seq![b.rank, format_byte(i.left_format)] + entries_bytes(
        b.entries@,
    ));
    assert(pimg =~= u32_le(lc) + seq![lb.rank, format_byte(lf)] + entries_bytes(lb.entries@));
    assert(limg[0] == u32_le(bc)[0] && limg[1] == u32_le(bc)[1] && limg[2] == u32_le(bc)[2]
        && limg[3] == u32_le(bc)[3]);
    assert(pimg[0] == u32_le(lc)[0] && pimg[1] == u32_le(lc)[1] && pimg[2] == u32_le(lc)[2]
        && pimg[3] == u32_le(lc)[3]);
    assert(bytes[start + 5] == limg[0] && bytes[start + 6] == limg[1] && bytes[start + 7]
        == limg[2] && bytes[start + 8] == limg[3]);
    assert(pimg.len() >= 6);
    assert(p2 - (start + 5) >= 6);
    assert(bytes.subrange(start + 5, p2)[0] == bytes[start + 5]);
    assert(bytes.subrange(start + 5, p2)[1] == bytes[start + 6]);
    assert(bytes.subrange(start + 5, p2)[2] == bytes[start + 7]);
    assert(bytes.subrange(start + 5, p2)[3] == bytes[start + 8]);
    assert(bytes[start + 5] == pimg[0] && bytes[start + 6] == pimg[1] && bytes[start + 7]
        == pimg[2] && bytes[start + 8] == pimg[3]);
    assert(u32_le(bc) =~= u32_le(lc));
    lemma_u32_le_injective(b.entries@.len() as u32, lb.entries@.len() as u32);
    assert(b.entries@.len() as u32 == lb.entries@.len() as u32);
    assert(b.entries@.len() == lb.entries@.len());
    assert(p2 == start + 5 + operand_len(i.left));
    // the two layout bytes coincide
    assert(bytes[start + 10] == limg[5]);
    assert(limg[5] == format_byte(i.left_format));
    assert(bytes[start + 10] == pimg[5]);
    assert(pimg[5] == format_byte(lf));
    assert(format_byte(lf) == format_byte(i.left_format));
    assert(lf == i.left_format) by {
        match lf {
            SerializeFormat::RowMajor => {},
            SerializeFormat::ColumnMajor => {},
        }
    }
}

/// An encoded record whose right operand is an inline block has that block
/// encoded at the right operand's position, in the layout the record's kind
/// dictates.
proof fn lemma_right_block_agrees(bytes: Seq<u8>, start: int, i: QcfInstruction, p2: int)
    requires
        encodes_at(bytes, start, i),
        i.right is Block,
        p2 == start + 5 + operand_len(i.left),
    ensures
        block_encodes_at(bytes, p2, i.right->Block_0, right_format(i)),
        bytes[p2 + 5] == format_byte(right_format(i)),
{
    lemma_record_prefix(bytes, start, i);
    lemma_instr_bytes_len(i);
    let rb = i.right->Block_0;
    lemma_entries_bytes_len(rb.entries@);
    assert(bytes.subrange(p2, p2 + operand_len(i.right)) == block_bytes(rb, right_format(i)));
    assert(bytes[p2 + 5] == block_bytes(rb, right_format(i))[5]);
}

/// An encoded record has room for its right operand at the position the
/// parser reached after the left operand.
proof fn lemma_operand_fits(bytes: Seq<u8>, start: int, i: QcfInstruction, p2: int)
    requires
        encodes_at(bytes, start, i),
        p2 == start + 5 + operand_len(i.left),
    ensures
        (i.right is Address) ==> bytes.len() - p2 >= 4,
        (i.right is Block) ==> block_encodes_at(bytes, p2, i.right->Block_0, right_format(i)),
{
    lemma_instr_bytes_len(i);
    if i.right is Block {
        lemma_right_block_agrees(bytes, start, i, p2);
    }
}

/// Splices the four segments of a parsed record back together.
proof fn lemma_instr_concat(
    instr: QcfInstruction,
    bytes: Seq<u8>,
    start: int,
    p0: int,
    p2: int,
    p3: int,
)
    requires
        0 <= start <= p0,
        p0 + 1 <= p2 <= p3 <= bytes.len(),
        u32_le(instr.id) == bytes.subrange(start, p0),
        bytes[p0] == kind_byte(instr),
        operand_bytes(instr.left, instr.left_format) == bytes.subrange(p0 + 1, p2),
        operand_bytes(instr.right, right_format(instr)) == bytes.subrange(p2, p3),
    ensures
        instr_bytes(instr) == bytes.subrange(start, p3),
{
    assert(bytes.subrange(p0, p0 + 1) =~= seq![kind_byte(instr)]);
    assert(bytes.subrange(start, p3) =~= bytes.subrange(start, p0) + bytes.subrange(p0, p0 + 1)
        + bytes.subrange(p0 + 1, p2) + bytes.subrange(p2, p3));
    assert(instr_bytes(instr) == bytes.subrange(start, p3));
}

} // verus!
