use bitstream_io::{BigEndian, BitRead, BitReader, BitWrite, BitWriter, LittleEndian};
use std::io::{Cursor, SeekFrom};
use struct_compression_analyzer::bits::{BitIoError, BitReaderContainer, BitWriterContainer};

const SAMPLE: [u8; 7] = [0b1011_0111, 0x00, 0xFF, 0x5A, 0xC3, 0x81, 0x7E];

/// Reads `counts` one after the other with both readers and compares every
/// value, every failure and every position.
fn compare_reads(data: &[u8], msb_first: bool, counts: &[u32]) {
    let mut ours = BitReaderContainer::new(data, msb_first);
    if msb_first {
        let mut theirs = BitReader::endian(Cursor::new(data), BigEndian);
        for &n in counts {
            let a = ours.read(n);
            let b = theirs.read::<u64>(n);
            match (a, b) {
                (Ok(x), Ok(y)) => assert_eq!(x, y, "value of {} bits", n),
                (Err(_), Err(_)) => {}
                (a, b) => panic!("reads of {} bits differ: {:?} / {:?}", n, a, b.ok()),
            }
            assert_eq!(ours.position_in_bits(), theirs.position_in_bits().unwrap());
        }
    } else {
        let mut theirs = BitReader::endian(Cursor::new(data), LittleEndian);
        for &n in counts {
            let a = ours.read(n);
            let b = theirs.read::<u64>(n);
            match (a, b) {
                (Ok(x), Ok(y)) => assert_eq!(x, y, "value of {} bits", n),
                (Err(_), Err(_)) => {}
                (a, b) => panic!("reads of {} bits differ: {:?} / {:?}", n, a, b.ok()),
            }
            assert_eq!(ours.position_in_bits(), theirs.position_in_bits().unwrap());
        }
    }
}

#[test]
fn reader_matches_bitstream_io_msb_first() {
    compare_reads(&SAMPLE, true, &[1, 2, 5, 3, 13, 0, 8, 16, 7]);
    compare_reads(&SAMPLE, true, &[56]);
    compare_reads(&SAMPLE, true, &[4, 52]);
    compare_reads(&SAMPLE, true, &[3, 60]);
}

#[test]
fn reader_matches_bitstream_io_lsb_first() {
    compare_reads(&SAMPLE, false, &[1, 2, 5, 3, 13, 0, 8, 16, 7]);
    compare_reads(&SAMPLE, false, &[56]);
    compare_reads(&SAMPLE, false, &[4, 52]);
    compare_reads(&SAMPLE, false, &[3, 60]);
}

#[test]
fn reader_reports_too_many_bits() {
    let data = [0u8; 10];
    let mut ours = BitReaderContainer::new(&data, true);
    assert_eq!(ours.read(65), Err(BitIoError::ExcessiveBits));
    assert_eq!(ours.position_in_bits(), 0);
    assert_eq!(ours.read(64), Ok(0));
    let mut theirs = BitReader::endian(Cursor::new(&data), BigEndian);
    assert!(theirs.read::<u64>(65).is_err());
}

#[test]
fn reader_reports_end_of_stream() {
    let data = [0xABu8, 0xCD];
    let mut ours = BitReaderContainer::new(&data, true);
    assert_eq!(ours.read(12), Ok(0xABC));
    assert_eq!(ours.read(5), Err(BitIoError::UnexpectedEof));
    assert_eq!(ours.position_in_bits(), 16);
    assert_eq!(ours.read(0), Ok(0));
}

#[test]
fn seeks_match_bitstream_io() {
    for msb_first in [true, false] {
        for target in [0u64, 3, 8, 13, 24, 56, 57, 64, 70] {
            let mut ours = BitReaderContainer::new(&SAMPLE, msb_first);
            let a = ours.seek_bits(target);
            let (b, pos, next) = if msb_first {
                let mut theirs = BitReader::endian(Cursor::new(&SAMPLE[..]), BigEndian);
                let b = theirs.seek_bits(SeekFrom::Start(target));
                let pos = theirs.position_in_bits().unwrap();
                (b.ok(), pos, theirs.read::<u64>(4).ok())
            } else {
                let mut theirs = BitReader::endian(Cursor::new(&SAMPLE[..]), LittleEndian);
                let b = theirs.seek_bits(SeekFrom::Start(target));
                let pos = theirs.position_in_bits().unwrap();
                (b.ok(), pos, theirs.read::<u64>(4).ok())
            };
            assert_eq!(a.ok(), b, "seek to {}", target);
            assert_eq!(ours.position_in_bits(), pos, "position after seek to {}", target);
            assert_eq!(ours.read(4).ok(), next, "read after seek to {}", target);
        }
    }
}

/// Writes `(bits, value)` pairs with both writers, aligns, and compares the
/// buffers.
fn compare_writes(msb_first: bool, writes: &[(u32, u64)]) {
    let mut ours = BitWriterContainer::new(msb_first);
    for &(n, v) in writes {
        ours.write(n, v);
    }
    let expected = if msb_first {
        let mut theirs = BitWriter::endian(Vec::new(), BigEndian);
        for &(n, v) in writes {
            theirs.write::<u64>(n, v).unwrap();
        }
        theirs.byte_align().unwrap();
        theirs.into_writer()
    } else {
        let mut theirs = BitWriter::endian(Vec::new(), LittleEndian);
        for &(n, v) in writes {
            theirs.write::<u64>(n, v).unwrap();
        }
        theirs.byte_align().unwrap();
        theirs.into_writer()
    };
    assert_eq!(ours.get_writer_buffer(), &expected[..]);
}

#[test]
fn writer_matches_bitstream_io() {
    let writes = [(1u32, 1u64), (2, 0b01), (5, 0b10111), (13, 0x1ABC), (0, 0), (64, 0x0123_4567_89AB_CDEF), (3, 0b101)];
    compare_writes(true, &writes);
    compare_writes(false, &writes);
    compare_writes(true, &[(7, 0x55)]);
    compare_writes(false, &[(7, 0x55)]);
    compare_writes(true, &[]);
}

#[test]
fn writer_counts_and_keeps_existing_data() {
    let mut w = BitWriterContainer::with_owned_data(&[0xAA, 0xBB], true);
    assert_eq!(w.len_bits(), 16);
    w.write(4, 0xC);
    assert_eq!(w.len_bits(), 20);
    assert_eq!(w.get_writer_buffer(), &[0xAA, 0xBB, 0xC0][..]);
    assert_eq!(w.len_bits(), 24);
}

#[test]
fn written_bits_read_back() {
    for msb_first in [true, false] {
        let mut w = BitWriterContainer::new(msb_first);
        w.write(3, 0b101);
        w.write(17, 0x1_2345);
        w.write(1, 1);
        let buf = w.get_writer_buffer().to_vec();
        let mut r = BitReaderContainer::new(&buf, msb_first);
        assert_eq!(r.read(3), Ok(0b101));
        assert_eq!(r.read(17), Ok(0x1_2345));
        assert_eq!(r.read(1), Ok(1));
        assert_eq!(r.read(3), Ok(0));
    }
}
