use zeta::dat::{read_block_entry, read_block_header, BlockHeader, Cursor, Phase, Request};
use zeta::{
    process_files, zero_stream, Binary64, Block, DatFile, Error, FileProcessor, FileQueue,
    SeekPattern, SimpleSeeker, Zero, ZeroLog, ZeroPort, ZeroSink, ZeroStream,
};

struct Collector {
    zeros: Vec<(u64, Zero)>,
    close_after: usize,
}

impl Collector {
    fn open() -> Self {
        Collector { zeros: Vec::new(), close_after: usize::MAX }
    }

    fn closing_after(count: usize) -> Self {
        Collector { zeros: Vec::new(), close_after: count }
    }

    fn numbers(&self) -> Vec<u64> {
        self.zeros.iter().map(|zero| zero.0).collect()
    }
}

impl ZeroStream for Collector {
    fn is_closed(&self) -> bool {
        self.zeros.len() >= self.close_after
    }

    fn send(&mut self, zero_number: u64, zero: Zero) {
        self.zeros.push((zero_number, zero));
    }
}

fn number(value: f64) -> Binary64 {
    Binary64::from_bits(value.to_bits())
}

fn block(t0: f64, t1: f64, n_t0: u64, n_t1: u64, deltas: &[u128]) -> Vec<u8> {
    let mut bytes = Vec::new();
    bytes.extend_from_slice(&t0.to_bits().to_le_bytes());
    bytes.extend_from_slice(&t1.to_bits().to_le_bytes());
    bytes.extend_from_slice(&n_t0.to_le_bytes());
    bytes.extend_from_slice(&n_t1.to_le_bytes());
    for delta in deltas {
        bytes.extend_from_slice(&delta.to_le_bytes()[..13]);
    }
    bytes
}

fn file_of(blocks: &[Vec<u8>]) -> Vec<u8> {
    let mut bytes = (blocks.len() as u64).to_le_bytes().to_vec();
    for block in blocks {
        bytes.extend_from_slice(block);
    }
    bytes
}

fn dat_file(order: usize) -> DatFile {
    DatFile { file_name: format!("zeros_{}.dat", order), order, digest: vec![0; 16] }
}

fn manifest_line(order: usize) -> String {
    format!("0123456789abcdef0123456789abcdef  zeros_{}.dat\n", order)
}

fn value(base: f64, offset: u128, precision: i32) -> Zero {
    Zero { base: number(base), offset, precision }
}

fn synthetic() -> Vec<u8> {
    file_of(&[block(10.0, 20.0, 0, 3, &[10, 20, 30])])
}

fn ten_zeros(first: u64, t0: f64) -> Vec<u8> {
    file_of(&[block(t0, t0 + 1.0, first, first + 10, &[1, 1, 1, 1, 1, 1, 1, 1, 1, 1])])
}

fn at(offset: usize, order: usize, block_number: u64) -> Block {
    Block { offset, filename: format!("zeros_{}.dat", order), block_number }
}

#[test]
fn one_block_is_decoded_in_order() {
    let data = synthetic();
    let mut consumer = Collector::open();
    let mut port = ZeroPort::new(&mut consumer, SeekPattern::All);
    let result = FileProcessor::new(dat_file(14)).process(&data, &mut port);
    assert_eq!(result, Ok(()));
    assert_eq!(port.amount_sent(), 3);
    assert_eq!(
        consumer.zeros,
        vec![(0, value(10.0, 10, 115)), (1, value(10.0, 30, 115)), (2, value(10.0, 60, 115))]
    );
}

#[test]
fn stream_of_all_zeros_of_a_synthetic_archive() {
    let archive = vec![("zeros_14.dat".to_string(), synthetic())];
    let mut consumer = Collector::open();
    let result = zero_stream(&mut consumer, SeekPattern::All, &manifest_line(14), None, &archive);
    assert_eq!(result, Ok(()));
    assert_eq!(
        consumer.zeros,
        vec![(0, value(10.0, 10, 115)), (1, value(10.0, 30, 115)), (2, value(10.0, 60, 115))]
    );
}

#[test]
fn start_above_all_values_delivers_nothing() {
    let archive = vec![("zeros_14.dat".to_string(), synthetic())];
    let mut consumer = Collector::open();
    let pattern = SeekPattern::StartWithImaginaryPart(number(15.0));
    let result =
        zero_stream(&mut consumer, pattern, &manifest_line(14), Some(at(8, 14, 0)), &archive);
    assert_eq!(result, Ok(()));
    assert!(consumer.zeros.is_empty());
}

#[test]
fn start_between_two_values_delivers_from_the_first_that_reaches_it() {
    let step = 1u128 << 101;
    let data = file_of(&[block(10.0, 20.0, 0, 4, &[step, step, step, step])]);
    let archive = vec![("zeros_14.dat".to_string(), data)];
    let mut consumer = Collector::open();
    let pattern = SeekPattern::StartWithImaginaryPart(number(12.5));
    let result =
        zero_stream(&mut consumer, pattern, &manifest_line(14), Some(at(8, 14, 0)), &archive);
    assert_eq!(result, Ok(()));
    assert_eq!(
        consumer.zeros,
        vec![(2, value(10.0, 3 * step, 115)), (3, value(10.0, 4 * step, 115))]
    );
}

#[test]
fn one_zero_from_zero_number_one() {
    let archive = vec![("zeros_14.dat".to_string(), synthetic())];
    let mut consumer = Collector::open();
    let pattern = SeekPattern::StartWithZeroNumberAmount(1, 1);
    let result =
        zero_stream(&mut consumer, pattern, &manifest_line(14), Some(at(8, 14, 0)), &archive);
    assert_eq!(result, Ok(()));
    assert_eq!(consumer.zeros, vec![(1, value(10.0, 30, 115))]);
}

#[test]
fn amount_by_imaginary_part_is_kept() {
    let step = 1u128 << 101;
    let data = file_of(&[block(10.0, 20.0, 0, 4, &[step, step, step, step])]);
    let archive = vec![("zeros_14.dat".to_string(), data)];
    let mut consumer = Collector::open();
    let pattern = SeekPattern::StartWithImaginaryAmount(number(11.5), 2);
    let result =
        zero_stream(&mut consumer, pattern, &manifest_line(14), Some(at(8, 14, 0)), &archive);
    assert_eq!(result, Ok(()));
    assert_eq!(consumer.numbers(), vec![1, 2]);
}

#[test]
fn consumer_that_closes_after_the_first_zero_gets_one() {
    let data = synthetic();
    let mut consumer = Collector::closing_after(1);
    let mut port = ZeroPort::new(&mut consumer, SeekPattern::All);
    let result = FileProcessor::new(dat_file(14)).process(&data, &mut port);
    assert_eq!(result, Ok(()));
    assert_eq!(consumer.numbers(), vec![0]);
}

#[test]
fn consumer_that_closes_after_seven_zeros_of_two_files_gets_seven() {
    let manifest = manifest_line(1) + &manifest_line(2);
    let archive = vec![("zeros_1.dat".to_string(), ten_zeros(0, 10.0))];
    let mut consumer = Collector::closing_after(7);
    let result = zero_stream(&mut consumer, SeekPattern::All, &manifest, None, &archive);
    // The second file is not in the archive: it is never asked for.
    assert_eq!(result, Ok(()));
    assert_eq!(consumer.numbers(), vec![0, 1, 2, 3, 4, 5, 6]);
}

#[test]
fn two_files_are_streamed_one_after_the_other() {
    let manifest = manifest_line(2) + &manifest_line(1);
    let archive = vec![
        ("zeros_2.dat".to_string(), ten_zeros(10, 20.0)),
        ("zeros_1.dat".to_string(), ten_zeros(0, 10.0)),
    ];
    let mut consumer = Collector::open();
    let result = zero_stream(&mut consumer, SeekPattern::All, &manifest, None, &archive);
    assert_eq!(result, Ok(()));
    assert_eq!(consumer.numbers(), (0..20).collect::<Vec<u64>>());
    assert_eq!(consumer.zeros[10], (10, value(20.0, 1, 115)));
}

#[test]
fn truncated_file_delivers_what_is_there() {
    let mut data = file_of(&[block(10.0, 20.0, 0, 5, &[1, 2, 3])]);
    data.truncate(8 + 32 + 3 * 13);
    let mut consumer = Collector::open();
    let mut port = ZeroPort::new(&mut consumer, SeekPattern::All);
    let result = FileProcessor::new(dat_file(14)).process(&data, &mut port);
    assert_eq!(result, Err(Error::TruncatedStream));
    assert_eq!(
        consumer.zeros,
        vec![(0, value(10.0, 1, 115)), (1, value(10.0, 3, 115)), (2, value(10.0, 6, 115))]
    );
}

#[test]
fn file_that_ends_in_a_field_is_truncated() {
    for length in [0, 7, 9, 39, 41, 52] {
        let mut data = synthetic();
        data.truncate(length);
        let mut consumer = Collector::open();
        let mut port = ZeroPort::new(&mut consumer, SeekPattern::All);
        let result = FileProcessor::new(dat_file(14)).process(&data, &mut port);
        assert_eq!(result, Err(Error::TruncatedStream));
    }
}

#[test]
fn empty_manifest_is_an_empty_stream() {
    let archive = Vec::new();
    let mut consumer = Collector::open();
    let result = zero_stream(&mut consumer, SeekPattern::All, "", None, &archive);
    assert_eq!(result, Ok(()));
    assert!(consumer.zeros.is_empty());
}

#[test]
fn start_behind_all_zeros_is_an_empty_stream() {
    let manifest = manifest_line(1) + &manifest_line(2);
    let archive = vec![
        ("zeros_1.dat".to_string(), ten_zeros(0, 10.0)),
        ("zeros_2.dat".to_string(), ten_zeros(10, 20.0)),
    ];
    let mut consumer = Collector::open();
    let pattern = SeekPattern::StartWithZeroNumber(1_000_000);
    let result = zero_stream(&mut consumer, pattern, &manifest, Some(at(8, 2, 0)), &archive);
    assert_eq!(result, Ok(()));
    assert!(consumer.zeros.is_empty());
}

#[test]
fn question_without_an_answer_is_an_index_miss() {
    let archive = vec![("zeros_14.dat".to_string(), synthetic())];
    let mut consumer = Collector::open();
    let pattern = SeekPattern::StartWithZeroNumber(1);
    let result = zero_stream(&mut consumer, pattern, &manifest_line(14), None, &archive);
    assert_eq!(result, Err(Error::IndexMiss));
    let result = zero_stream(&mut consumer, pattern, "no manifest", None, &archive);
    assert_eq!(result, Err(Error::ManifestMalformed));
    // A stream of all zeros puts no question, and takes no answer.
    let result = zero_stream(
        &mut consumer,
        SeekPattern::All,
        &manifest_line(14),
        Some(at(8, 99, 0)),
        &archive,
    );
    assert_eq!(result, Ok(()));
    assert_eq!(consumer.numbers(), vec![0, 1, 2]);
}

#[test]
fn first_block_in_an_unlisted_file_is_an_index_miss() {
    let archive = vec![("zeros_14.dat".to_string(), synthetic())];
    let mut consumer = Collector::open();
    let mut port = ZeroPort::new(&mut consumer, SeekPattern::StartWithZeroNumber(0));
    let result = process_files(vec![dat_file(14)], &archive, &mut port, Some(at(8, 15, 0)));
    assert_eq!(result, Err(Error::IndexMiss));
}

#[test]
fn file_that_the_archive_lacks_is_a_transport_error() {
    let archive = vec![("zeros_1.dat".to_string(), ten_zeros(0, 10.0))];
    let mut consumer = Collector::open();
    let mut port = ZeroPort::new(&mut consumer, SeekPattern::All);
    let result = process_files(vec![dat_file(1), dat_file(2)], &archive, &mut port, None);
    assert_eq!(result, Err(Error::TransportError));
    assert_eq!(consumer.zeros.len(), 10);
}

#[test]
fn files_before_the_first_block_are_left_out() {
    let archive = vec![
        ("zeros_2.dat".to_string(), ten_zeros(10, 20.0)),
        ("zeros_3.dat".to_string(), ten_zeros(20, 30.0)),
    ];
    let mut consumer = Collector::open();
    let mut port = ZeroPort::new(&mut consumer, SeekPattern::StartWithZeroNumber(12));
    let files = vec![dat_file(1), dat_file(2), dat_file(3)];
    let result = process_files(files, &archive, &mut port, Some(at(8, 2, 0)));
    assert_eq!(result, Ok(()));
    assert_eq!(consumer.numbers(), (12..30).collect::<Vec<u64>>());
}

#[test]
fn empty_block_is_passed_without_a_zero() {
    let data = file_of(&[
        block(10.0, 11.0, 0, 2, &[1, 1]),
        block(11.0, 12.0, 2, 2, &[]),
        block(12.0, 13.0, 2, 3, &[5]),
    ]);
    let mut consumer = Collector::open();
    let mut port = ZeroPort::new(&mut consumer, SeekPattern::All);
    let result = FileProcessor::new(dat_file(14)).process(&data, &mut port);
    assert_eq!(result, Ok(()));
    assert_eq!(
        consumer.zeros,
        vec![(0, value(10.0, 1, 114)), (1, value(10.0, 2, 114)), (2, value(12.0, 5, 114))]
    );
}

#[test]
fn process_with_first_is_the_tail_of_process() {
    let first = block(10.0, 11.0, 0, 2, &[1, 1]);
    let second = block(11.0, 12.0, 2, 4, &[7, 8]);
    let third = block(12.0, 13.0, 4, 5, &[5]);
    let offset = 8 + first.len();
    let data = file_of(&[first, second, third]);
    let mut whole = Collector::open();
    let mut port = ZeroPort::new(&mut whole, SeekPattern::All);
    assert_eq!(FileProcessor::new(dat_file(14)).process(&data, &mut port), Ok(()));
    let mut tail = Collector::open();
    let mut port = ZeroPort::new(&mut tail, SeekPattern::All);
    let result =
        FileProcessor::new(dat_file(14)).process_with_first(&data, &mut port, &at(offset, 14, 1));
    assert_eq!(result, Ok(()));
    assert_eq!(tail.numbers(), vec![2, 3, 4]);
    assert_eq!(tail.zeros[..], whole.zeros[2..]);
}

#[test]
fn first_block_at_the_current_position_is_accepted() {
    let data = synthetic();
    let mut consumer = Collector::open();
    let mut port = ZeroPort::new(&mut consumer, SeekPattern::All);
    let result =
        FileProcessor::new(dat_file(14)).process_with_first(&data, &mut port, &at(8, 14, 0));
    assert_eq!(result, Ok(()));
    assert_eq!(consumer.numbers(), vec![0, 1, 2]);
}

#[test]
fn first_block_before_the_blocks_is_a_seek_backward() {
    let data = synthetic();
    let mut consumer = Collector::open();
    let mut port = ZeroPort::new(&mut consumer, SeekPattern::All);
    let result =
        FileProcessor::new(dat_file(14)).process_with_first(&data, &mut port, &at(4, 14, 0));
    assert_eq!(result, Err(Error::SeekBackward));
}

#[test]
fn first_block_behind_the_file_is_truncated() {
    let data = synthetic();
    let mut consumer = Collector::open();
    let mut port = ZeroPort::new(&mut consumer, SeekPattern::All);
    let result = FileProcessor::new(dat_file(14)).process_with_first(
        &data,
        &mut port,
        &at(data.len() + 1, 14, 0),
    );
    assert_eq!(result, Err(Error::TruncatedStream));
}

#[test]
fn first_block_behind_the_last_block_yields_nothing() {
    let data = synthetic();
    let mut consumer = Collector::open();
    let mut port = ZeroPort::new(&mut consumer, SeekPattern::All);
    let result = FileProcessor::new(dat_file(14)).process_with_first(
        &data,
        &mut port,
        &at(data.len(), 14, 1),
    );
    assert_eq!(result, Ok(()));
    assert!(consumer.zeros.is_empty());
}

#[test]
fn malformed_headers_are_decode_errors() {
    let cases = [
        block(20.0, 10.0, 0, 1, &[1]),
        block(10.0, 10.0, 0, 1, &[1]),
        block(10.0, 20.0, 2, 1, &[1]),
        block(f64::NAN, 20.0, 0, 1, &[1]),
        block(10.0, f64::NAN, 0, 1, &[1]),
        block(10.0, f64::INFINITY, 0, 1, &[1]),
        block(f64::NEG_INFINITY, 20.0, 0, 1, &[1]),
    ];
    for case in cases {
        let data = file_of(&[case]);
        let mut consumer = Collector::open();
        let mut port = ZeroPort::new(&mut consumer, SeekPattern::All);
        let result = FileProcessor::new(dat_file(14)).process(&data, &mut port);
        assert_eq!(result, Err(Error::DecodeError));
        assert!(consumer.zeros.is_empty());
    }
}

#[test]
fn header_gives_the_precision_of_its_block() {
    let header = |t0: f64, t1: f64| BlockHeader { t0: number(t0), t1: number(t1), n_t0: 5, n_t1: 9 };
    let cursor = header(10.0, 20.0).begin().unwrap();
    assert_eq!(
        cursor,
        Cursor { base: number(10.0), precision: 115, number: 5, left: 4, sum: 0 }
    );
    assert_eq!(header(14.0, 16.0).begin().unwrap().precision, 115);
    assert_eq!(header(14.0, 15.999).begin().unwrap().precision, 114);
    assert_eq!(header(1e10, 30610046000.0).begin().unwrap().precision, 145);
    assert_eq!(header(0.25, 0.75).begin().unwrap().precision, 110);
    assert_eq!(header(-2.0, 0.0).begin().unwrap().precision, 111);
    assert_eq!(header(-2.0, -1.0).begin().unwrap().precision, 111);
    assert_eq!(header(0.0, f64::MIN_POSITIVE).begin().unwrap().precision, -1022 + 111);
}

#[test]
fn steps_add_up_and_overflow_is_a_decode_error() {
    let cursor = Cursor { base: number(10.0), precision: 115, number: 7, left: 2, sum: 5 };
    let (next, zero_number, zero) = cursor.take((1, 2, 3)).unwrap();
    let step = 1u128 + (2u128 << 64) + (3u128 << 96);
    assert_eq!(zero_number, 7);
    assert_eq!(zero, value(10.0, 5 + step, 115));
    assert_eq!(next, Cursor { base: number(10.0), precision: 115, number: 8, left: 1, sum: 5 + step });
    let full = Cursor { base: number(10.0), precision: 115, number: 7, left: 2, sum: u128::MAX - 4 };
    assert_eq!(full.take((5, 0, 0)), Err(Error::DecodeError));
    assert_eq!(full.take((4, 0, 0)).unwrap().2.offset, u128::MAX);
    let widest = Cursor { base: number(10.0), precision: 115, number: 7, left: 2, sum: 0 };
    assert_eq!(widest.take((u64::MAX, u32::MAX, u8::MAX)).unwrap().2.offset, (1u128 << 104) - 1);
}

#[test]
fn fields_are_read_least_significant_byte_first() {
    let bytes: Vec<u8> = (1..=40).collect();
    let mut reader = SimpleSeeker::new(&bytes);
    assert_eq!(reader.read_u8(), Ok(1));
    assert_eq!(reader.read_u32(), Ok(0x05040302));
    assert_eq!(reader.read_u64(), Ok(0x0d0c0b0a09080706));
    assert_eq!(reader.read_f64(), Ok(Binary64::from_bits(0x1514131211100f0e)));
    assert_eq!(reader.consumed(), 21);
    assert_eq!(reader.remaining(), 19);
    assert_eq!(reader.read_exact(3), Ok(&bytes[21..24]));
    assert_eq!(reader.consume_until(24), Ok(()));
    assert_eq!(reader.consumed(), 24);
    assert_eq!(reader.consume_until(23), Err(Error::SeekBackward));
    assert_eq!(reader.consume_until(41), Err(Error::TruncatedStream));
    assert_eq!(reader.consumed(), 24);
    assert_eq!(reader.consume_until(38), Ok(()));
    assert_eq!(reader.read_u32(), Err(Error::TruncatedStream));
    assert_eq!(reader.read_u64(), Err(Error::TruncatedStream));
    assert_eq!(reader.read_exact(3), Err(Error::TruncatedStream));
    assert_eq!(reader.consumed(), 38);
    assert_eq!(reader.read_u8(), Ok(39));
    assert_eq!(reader.read_u8(), Ok(40));
    assert_eq!(reader.read_u8(), Err(Error::TruncatedStream));
    assert_eq!(reader.consume_until(40), Ok(()));
}

#[test]
fn header_and_entry_are_read_from_their_bytes() {
    let bytes = block(10.0, 20.0, 3, 4, &[(7u128 << 96) + (6u128 << 64) + 5]);
    let mut reader = SimpleSeeker::new(&bytes);
    assert_eq!(
        read_block_header(&mut reader),
        Ok(BlockHeader { t0: number(10.0), t1: number(20.0), n_t0: 3, n_t1: 4 })
    );
    assert_eq!(read_block_entry(&mut reader), Ok((5, 6, 7)));
    assert_eq!(read_block_entry(&mut reader), Err(Error::TruncatedStream));
    let mut short = SimpleSeeker::new(&bytes[..31]);
    assert_eq!(read_block_header(&mut short), Err(Error::TruncatedStream));
    assert_eq!(short.consumed(), 0);
}

#[test]
fn processor_asks_for_the_bytes_it_needs() {
    let first = block(10.0, 11.0, 0, 1, &[1]);
    let offset = 8 + first.len();
    let data = file_of(&[first, block(11.0, 12.0, 1, 2, &[9])]);
    let mut consumer = Collector::open();
    let mut port = ZeroPort::new(&mut consumer, SeekPattern::All);
    let mut processor = FileProcessor::new(dat_file(14));
    assert_eq!(processor.name(), "zeros_14.dat");
    processor.start_at(&at(offset, 14, 1));
    assert_eq!(processor.request(), Request::Read(8));
    assert_eq!(processor.advance(&data[..8], &mut port), Ok(()));
    assert_eq!(processor.request(), Request::Skip(offset - 8));
    processor.skipped();
    assert_eq!(processor.request(), Request::Read(32));
    assert_eq!(processor.advance(&data[offset..offset + 31], &mut port), Err(Error::TruncatedStream));
    assert_eq!(processor.request(), Request::Read(32));
    assert_eq!(processor.advance(&data[offset..offset + 32], &mut port), Ok(()));
    assert_eq!(processor.request(), Request::Read(13));
    assert_eq!(processor.advance(&data[offset + 32..], &mut port), Ok(()));
    assert_eq!(processor.request(), Request::Finished);
    assert_eq!(processor.advance(&data, &mut port), Ok(()));
    assert_eq!(consumer.zeros, vec![(1, value(11.0, 9, 114))]);
    assert_ne!(Phase::Start, Phase::Done);
}

#[test]
fn five_thousand_zeros_from_the_first() {
    let deltas: Vec<u128> = (0..6000).map(|i| 1 + (i as u128 % 7)).collect();
    let archive = vec![(
        "zeros_14.dat".to_string(),
        file_of(&[
            block(14.0, 5000.0, 0, 3000, &deltas[..3000]),
            block(5000.0, 9000.0, 3000, 6000, &deltas[3000..]),
        ]),
    )];
    let mut consumer = Collector::open();
    let pattern = SeekPattern::StartWithZeroNumberAmount(0, 5000);
    let result =
        zero_stream(&mut consumer, pattern, &manifest_line(14), Some(at(8, 14, 0)), &archive);
    assert_eq!(result, Ok(()));
    assert_eq!(consumer.numbers(), (0..5000).collect::<Vec<u64>>());
    for pair in consumer.zeros.windows(2) {
        let (lower, upper) = (pair[0].1, pair[1].1);
        assert!(upper.at_least(lower.base));
        assert!(upper.base != lower.base || upper.offset > lower.offset);
    }
}

#[test]
fn counting_sink_closes_at_five_thousand() {
    let deltas: Vec<u128> = (0..6000).map(|_| 1).collect();
    let data = file_of(&[block(14.0, 5000.0, 0, 6000, &deltas)]);
    let mut sink = ZeroSink::new();
    let mut port = ZeroPort::new(&mut sink, SeekPattern::All);
    assert_eq!(FileProcessor::new(dat_file(14)).process(&data, &mut port), Ok(()));
    assert_eq!(port.amount_sent(), 5000);
    assert_eq!(sink.amt(), 5000);
    assert!(sink.is_closed());
    assert_eq!(ZeroSink::default().amt(), 0);
}

#[test]
fn file_yields_as_many_zeros_as_its_headers_announce() {
    let data = file_of(&[
        block(10.0, 11.0, 0, 4, &[1, 2, 3, 4]),
        block(11.0, 12.0, 4, 4, &[]),
        block(12.0, 13.0, 4, 9, &[5, 5, 5, 5, 5]),
        block(13.0, 14.0, 9, 10, &[7]),
    ]);
    let mut consumer = Collector::open();
    let mut port = ZeroPort::new(&mut consumer, SeekPattern::All);
    assert_eq!(FileProcessor::new(dat_file(14)).process(&data, &mut port), Ok(()));
    assert_eq!(consumer.zeros.len(), 4 + 0 + 5 + 1);
    assert_eq!(consumer.numbers(), (0..10).collect::<Vec<u64>>());
}

#[test]
fn zeros_lie_between_the_bounds_of_their_block() {
    let step = 1u128 << 101;
    let data = file_of(&[block(10.0, 12.0, 0, 3, &[0, step, step - 1])]);
    let mut consumer = Collector::open();
    let mut port = ZeroPort::new(&mut consumer, SeekPattern::All);
    assert_eq!(FileProcessor::new(dat_file(14)).process(&data, &mut port), Ok(()));
    assert_eq!(consumer.zeros.len(), 3);
    for (_, zero) in &consumer.zeros {
        assert!(zero.at_least(number(10.0)));
        assert!(!zero.at_least(number(12.0)));
    }
    assert!(consumer.zeros[1].1.at_least(number(11.0)));
    assert!(!consumer.zeros[1].1.at_least(number(11.000000000000002)));
}

#[test]
fn whole_file_is_collected_with_its_error() {
    let (zeros, result) = FileProcessor::new(dat_file(14)).collect(&synthetic());
    assert_eq!(result, Ok(()));
    assert_eq!(
        zeros,
        vec![(0, value(10.0, 10, 115)), (1, value(10.0, 30, 115)), (2, value(10.0, 60, 115))]
    );
    let mut data = synthetic();
    data.truncate(8 + 32 + 13 + 5);
    let (zeros, result) = FileProcessor::new(dat_file(14)).collect(&data);
    assert_eq!(result, Err(Error::TruncatedStream));
    assert_eq!(zeros, vec![(0, value(10.0, 10, 115))]);
}

#[test]
fn log_keeps_every_zero_and_stays_open() {
    let mut log = ZeroLog::new();
    let mut port = ZeroPort::new(&mut log, SeekPattern::StartWithZeroNumber(1));
    assert_eq!(FileProcessor::new(dat_file(14)).process(&synthetic(), &mut port), Ok(()));
    assert!(!port.is_closed());
    assert_eq!(log.zeros, vec![(1, value(10.0, 30, 115)), (2, value(10.0, 60, 115))]);
    assert!(!log.is_closed());
}

#[test]
fn file_without_a_header_fails_though_the_port_is_closed() {
    let mut consumer = Collector::closing_after(0);
    let mut port = ZeroPort::new(&mut consumer, SeekPattern::All);
    assert!(port.poll());
    assert_eq!(
        FileProcessor::new(dat_file(14)).process(&[], &mut port),
        Err(Error::TruncatedStream)
    );
    let mut port = ZeroPort::new(&mut consumer, SeekPattern::StartWithZeroNumberAmount(0, 0));
    assert_eq!(
        FileProcessor::new(dat_file(14)).process(&synthetic()[..20], &mut port),
        Err(Error::TruncatedStream)
    );
    assert!(consumer.zeros.is_empty());
}

#[test]
fn queue_hands_out_the_files_until_the_port_is_closed() {
    let files = vec![dat_file(1), dat_file(2), dat_file(3)];
    let mut consumer = Collector::closing_after(1);
    let mut port = ZeroPort::new(&mut consumer, SeekPattern::All);
    let mut queue = FileQueue::new(files, Some(at(40, 2, 1))).unwrap();
    let mut processor = queue.next(&mut port).unwrap();
    assert_eq!(processor.name(), "zeros_2.dat");
    assert_eq!(processor.request(), Request::Read(8));
    assert_eq!(processor.advance(&2u64.to_le_bytes(), &mut port), Ok(()));
    assert_eq!(processor.request(), Request::Skip(32));
    let processor = queue.next(&mut port).unwrap();
    assert_eq!(processor.name(), "zeros_3.dat");
    assert_eq!(processor.process(&ten_zeros(20, 30.0), &mut port), Ok(()));
    assert!(queue.next(&mut port).is_none());
    assert_eq!(consumer.numbers(), vec![20]);

    let mut open = Collector::open();
    let mut port = ZeroPort::new(&mut open, SeekPattern::All);
    let mut queue = FileQueue::new(vec![dat_file(1)], None).unwrap();
    assert!(queue.next(&mut port).is_some());
    assert!(queue.next(&mut port).is_none());
    assert_eq!(
        FileQueue::new(vec![dat_file(1)], Some(at(8, 2, 0))).err(),
        Some(Error::IndexMiss)
    );
    assert!(FileQueue::new(Vec::new(), None).unwrap().next(&mut port).is_none());
}
