//! The binary instruction format: records serialise to the documented
//! little-endian layout and parse back to the instruction they came from.

use qcs_core::compiler::{
    parse_qcf, CooBlock, CooEntry, QcfConfig, QcfError, QcfInstruction, QcfOperand, ToQcf,
};
use qcs_core::scheduler::SerializeFormat;

fn sample_block() -> CooBlock {
    CooBlock {
        rank: 1,
        entries: vec![
            CooEntry { row: 0, col: 1, re_bits: 1.0f64.to_bits(), im_bits: 0.0f64.to_bits() },
            CooEntry { row: 1, col: 0, re_bits: 1.0f64.to_bits(), im_bits: (-0.5f64).to_bits() },
        ],
    }
}

#[test]
fn block_layout_is_documented_coo() {
    let b = CooBlock {
        rank: 2,
        entries: vec![CooEntry { row: 3, col: 1, re_bits: 0, im_bits: u64::MAX }],
    };
    let bytes = b.qcf_bytes(&QcfConfig::row_major());
    // count, rank, layout byte
    assert_eq!(&bytes[0..4], &[1, 0, 0, 0]);
    assert_eq!(bytes[4], 2);
    assert_eq!(bytes[5], 0);
    // row, col, real bits, imaginary bits
    assert_eq!(&bytes[6..10], &[3, 0, 0, 0]);
    assert_eq!(&bytes[10..14], &[1, 0, 0, 0]);
    assert_eq!(&bytes[14..22], &[0u8; 8]);
    assert_eq!(&bytes[22..30], &[0xff; 8]);

    let col = b.qcf_bytes(&QcfConfig::column_major());
    assert_eq!(col[5], 1);
    assert_eq!(&col[6..], &bytes[6..]);
}

#[test]
fn round_trip_te_blocks() {
    let instr = QcfInstruction {
        id: 7,
        te: true,
        left: QcfOperand::Block(sample_block()),
        right: QcfOperand::Block(sample_block()),
        left_format: SerializeFormat::RowMajor,
    };
    let bytes = instr.qcf_bytes();
    assert_eq!(bytes[4], 0x00);
    let (parsed, used) = parse_qcf(&bytes, 0).unwrap();
    assert_eq!(used, bytes.len());
    assert_eq!(parsed, instr);
}

#[test]
fn round_trip_mm_mixed_operands() {
    let instr = QcfInstruction {
        id: 0xDEAD_BEEF,
        te: false,
        left: QcfOperand::Block(sample_block()),
        right: QcfOperand::Address(41),
        left_format: SerializeFormat::ColumnMajor,
    };
    let bytes = instr.qcf_bytes();
    assert_eq!(bytes[4], 0x05);
    let (parsed, used) = parse_qcf(&bytes, 0).unwrap();
    assert_eq!(used, bytes.len());
    assert_eq!(parsed, instr);
}

#[test]
fn round_trip_addresses() {
    let instr = QcfInstruction {
        id: 1,
        te: false,
        left: QcfOperand::Address(2),
        right: QcfOperand::Address(3),
        left_format: SerializeFormat::RowMajor,
    };
    let bytes = instr.qcf_bytes();
    assert_eq!(bytes[4], 0x07);
    let (parsed, used) = parse_qcf(&bytes, 0).unwrap();
    assert_eq!(used, bytes.len());
    assert_eq!(parsed, instr);
}

/// A matrix multiplication's right block is laid out inversely to the
/// left operand.
#[test]
fn mm_right_block_layout_is_inverted() {
    let instr = QcfInstruction {
        id: 2,
        te: false,
        left: QcfOperand::Address(9),
        right: QcfOperand::Block(sample_block()),
        left_format: SerializeFormat::RowMajor,
    };
    let bytes = instr.qcf_bytes();
    assert_eq!(bytes[4], 0x06);
    // right block starts after id, kind and the left address; its layout
    // byte sits after its count and rank
    assert_eq!(bytes[4 + 1 + 4 + 4 + 1], 1);
}

/// The record shape the scheduler emits for the second half of every
/// tensor expansion: an address-led tensor product whose left layout is
/// column major.  The layout rides on the right block and parses back.
#[test]
fn round_trip_expansion_pad_record() {
    let instr = QcfInstruction {
        id: 9,
        te: true,
        left: QcfOperand::Address(8),
        right: QcfOperand::Block(sample_block()),
        left_format: SerializeFormat::ColumnMajor,
    };
    let bytes = instr.qcf_bytes();
    assert_eq!(bytes[4], 0x02);
    // the right block carries the column-major flag
    assert_eq!(bytes[4 + 1 + 4 + 4 + 1], 1);
    let (parsed, used) = parse_qcf(&bytes, 0).unwrap();
    assert_eq!(used, bytes.len());
    assert_eq!(parsed, instr);
}

/// An address-led transposed multiplication: the left layout is the
/// inverse of the flag on the right block.
#[test]
fn round_trip_transposed_mm_record() {
    let instr = QcfInstruction {
        id: 3,
        te: false,
        left: QcfOperand::Address(4),
        right: QcfOperand::Block(sample_block()),
        left_format: SerializeFormat::ColumnMajor,
    };
    let bytes = instr.qcf_bytes();
    assert_eq!(bytes[4], 0x06);
    // a column-major left means a row-major right block on the wire
    assert_eq!(bytes[4 + 1 + 4 + 4 + 1], 0);
    let (parsed, used) = parse_qcf(&bytes, 0).unwrap();
    assert_eq!(used, bytes.len());
    assert_eq!(parsed, instr);
}

/// A record with two address operands does not carry its left layout, so
/// it parses back with the row-major default and identical bytes.
#[test]
fn address_pair_round_trips_up_to_layout() {
    let instr = QcfInstruction {
        id: 5,
        te: true,
        left: QcfOperand::Address(1),
        right: QcfOperand::Address(2),
        left_format: SerializeFormat::ColumnMajor,
    };
    let bytes = instr.qcf_bytes();
    let (parsed, used) = parse_qcf(&bytes, 0).unwrap();
    assert_eq!(used, bytes.len());
    assert_eq!(parsed.left_format, SerializeFormat::RowMajor);
    assert_eq!(parsed.qcf_bytes(), bytes);
}

#[test]
fn parse_rejects_truncation() {
    let instr = QcfInstruction {
        id: 7,
        te: true,
        left: QcfOperand::Block(sample_block()),
        right: QcfOperand::Address(0),
        left_format: SerializeFormat::RowMajor,
    };
    let mut bytes = instr.qcf_bytes();
    bytes.pop();
    assert_eq!(parse_qcf(&bytes, 0), Err(QcfError::Truncated));
}

#[test]
fn parse_rejects_unknown_kind() {
    let instr = QcfInstruction {
        id: 7,
        te: true,
        left: QcfOperand::Address(1),
        right: QcfOperand::Address(2),
        left_format: SerializeFormat::RowMajor,
    };
    let mut bytes = instr.qcf_bytes();
    bytes[4] = 0x08;
    assert_eq!(parse_qcf(&bytes, 0), Err(QcfError::BadKind));
}

#[test]
fn parse_consumes_one_record_of_a_stream() {
    let a = QcfInstruction {
        id: 1,
        te: true,
        left: QcfOperand::Block(sample_block()),
        right: QcfOperand::Address(0),
        left_format: SerializeFormat::RowMajor,
    };
    let b = QcfInstruction {
        id: 2,
        te: false,
        left: QcfOperand::Address(1),
        right: QcfOperand::Address(0),
        left_format: SerializeFormat::RowMajor,
    };
    let mut bytes = a.qcf_bytes();
    bytes.extend(b.qcf_bytes());
    let (pa, na) = parse_qcf(&bytes, 0).unwrap();
    assert_eq!(pa, a);
    let (pb, nb) = parse_qcf(&bytes, na).unwrap();
    assert_eq!(pb, b);
    assert_eq!(nb, bytes.len());
}

#[test]
fn config_inversion() {
    assert_eq!(
        QcfConfig::row_major().invert().matrix_format,
        SerializeFormat::ColumnMajor
    );
    assert_eq!(
        QcfConfig::column_major().invert().matrix_format,
        SerializeFormat::RowMajor
    );
    assert_eq!(QcfConfig::default().matrix_format, SerializeFormat::RowMajor);
    let b = sample_block();
    assert_eq!(b.to_qcf(&QcfConfig::default()), b.qcf_bytes(&QcfConfig::row_major()));
}
