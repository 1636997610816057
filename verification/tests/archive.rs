use zeta::database::first_block_found;
use zeta::lmfdb::md5_url;
use zeta::repository::sort_by_order;
use zeta::{
    first_block, lmfdb_data_resolve, read_repository, Binary64, Block, DatFile, Error, IndexQuery,
    SeekPattern,
};

const DIGEST: &str = "00112233445566778899aabbccddeeff";

fn line(name: &str) -> String {
    format!("{}  {}", DIGEST, name)
}

#[test]
fn line_of_the_manifest_is_read() {
    let file = DatFile::parse(&line("zeros_14.dat")).unwrap();
    assert_eq!(file.file_name, "zeros_14.dat");
    assert_eq!(file.order, 14);
    assert_eq!(
        file.digest,
        vec![
            0x00, 0x11, 0x22, 0x33, 0x44, 0x55, 0x66, 0x77, 0x88, 0x99, 0xaa, 0xbb, 0xcc, 0xdd,
            0xee, 0xff
        ]
    );
    let file = DatFile::parse(&line("zeros_0030610045000.dat")).unwrap();
    assert_eq!(file.file_name, "zeros_0030610045000.dat");
    assert_eq!(file.order, 30610045000);
    assert_eq!(DatFile::parse(&line("zeros_0.dat")).unwrap().order, 0);
}

#[test]
fn malformed_lines_are_refused() {
    let malformed = [
        String::new(),
        line(""),
        line("zeros_.dat"),
        line("zeros_14.da"),
        line("zeros_14.dat "),
        line("zeros_14.txt"),
        line("zeros_1a.dat"),
        line("zeros_-1.dat"),
        line("zeros_+1.dat"),
        line("Zeros_14.dat"),
        line("zeros-14.dat"),
        line("zeros_14_dat"),
        line("zeros_99999999999999999999999999.dat"),
        line("zeros_1\u{662}.dat"),
        format!("{} zeros_14.dat", DIGEST),
        format!("{}\t zeros_14.dat", DIGEST),
        format!("{} *zeros_14.dat", DIGEST),
        format!("{}   zeros_14.dat", DIGEST),
        format!("{}  zeros_14.dat", &DIGEST[1..]),
        format!("{}  zeros_14.dat", DIGEST.to_uppercase()),
        format!("{}g  zeros_14.dat", &DIGEST[1..]),
        format!("{}\u{e9}  zeros_14.dat", &DIGEST[2..]),
    ];
    for text in malformed {
        assert_eq!(DatFile::parse(&text).err(), Some(Error::ManifestMalformed), "{:?}", text);
    }
}

#[test]
fn manifest_is_read_in_the_order_of_the_numbers() {
    let text = [line("zeros_5000.dat"), line("zeros_14.dat"), line("zeros_26000.dat")].join("\n");
    let files = read_repository(&text).unwrap();
    let names: Vec<&str> = files.iter().map(|file| file.file_name.as_str()).collect();
    assert_eq!(names, vec!["zeros_14.dat", "zeros_5000.dat", "zeros_26000.dat"]);
    let orders: Vec<usize> = files.iter().map(|file| file.order).collect();
    assert_eq!(orders, vec![14, 5000, 26000]);
}

#[test]
fn line_ends_of_both_kinds_are_taken() {
    let text = format!("{}\r\n{}\n", line("zeros_2.dat"), line("zeros_1.dat"));
    let files = read_repository(&text).unwrap();
    let names: Vec<&str> = files.iter().map(|file| file.file_name.as_str()).collect();
    assert_eq!(names, vec!["zeros_1.dat", "zeros_2.dat"]);
    assert_eq!(read_repository("").unwrap().len(), 0);
    assert_eq!(read_repository(&line("zeros_1.dat")).unwrap().len(), 1);
}

#[test]
fn manifest_with_a_malformed_line_is_refused() {
    let with_empty_line = format!("{}\n\n{}\n", line("zeros_2.dat"), line("zeros_1.dat"));
    assert_eq!(read_repository(&with_empty_line).err(), Some(Error::ManifestMalformed));
    let with_garbage = format!("{}\nzeros_1.dat\n", line("zeros_2.dat"));
    assert_eq!(read_repository(&with_garbage).err(), Some(Error::ManifestMalformed));
    let with_other_letters = format!("{}\n\u{fc}\n", line("zeros_2.dat"));
    assert_eq!(read_repository(&with_other_letters).err(), Some(Error::ManifestMalformed));
    assert_eq!(read_repository("\n").err(), Some(Error::ManifestMalformed));
    let with_two_carriage_returns = format!("{}\r\r\n", line("zeros_2.dat"));
    assert_eq!(read_repository(&with_two_carriage_returns).err(), Some(Error::ManifestMalformed));
}

#[test]
fn files_of_the_same_order_keep_their_places() {
    let file = |name: &str, order: usize| DatFile {
        file_name: name.to_string(),
        order,
        digest: vec![0; 16],
    };
    let sorted = sort_by_order(vec![
        file("c", 3),
        file("a", 1),
        file("b1", 2),
        file("d", 4),
        file("b2", 2),
        file("zero", 0),
    ]);
    let names: Vec<&str> = sorted.iter().map(|file| file.file_name.as_str()).collect();
    assert_eq!(names, vec!["zero", "a", "b1", "b2", "c", "d"]);
    assert!(sort_by_order(Vec::new()).is_empty());
}

#[test]
fn pattern_puts_its_question_to_the_index() {
    let t = Binary64::from_bits(15.0f64.to_bits());
    assert_eq!(first_block(&SeekPattern::All), None);
    assert_eq!(
        first_block(&SeekPattern::StartWithImaginaryPart(t)),
        Some(IndexQuery::ImaginaryPart(t))
    );
    assert_eq!(
        first_block(&SeekPattern::StartWithImaginaryAmount(t, 3)),
        Some(IndexQuery::ImaginaryPart(t))
    );
    assert_eq!(first_block(&SeekPattern::StartWithZeroNumber(7)), Some(IndexQuery::ZeroNumber(7)));
    assert_eq!(
        first_block(&SeekPattern::StartWithZeroNumberAmount(7, 3)),
        Some(IndexQuery::ZeroNumber(7))
    );
}

#[test]
fn question_asks_for_the_last_block_at_or_before_the_start() {
    assert_eq!(
        IndexQuery::ImaginaryPart(Binary64::from_bits(0)).statement(),
        "SELECT offset, filename, block_number FROM zero_index WHERE t <= ?1 \
         ORDER BY t DESC, filename ASC, block_number ASC LIMIT 1"
    );
    assert_eq!(
        IndexQuery::ZeroNumber(0).statement(),
        "SELECT offset, filename, block_number FROM zero_index WHERE N <= ?1 \
         ORDER BY N DESC, filename ASC, block_number ASC LIMIT 1"
    );
}

#[test]
fn row_of_the_index_is_a_block() {
    let block = Block::from_row(8, "zeros_14.dat".to_string(), 0).unwrap();
    assert_eq!(block.offset, 8);
    assert_eq!(block.filename, "zeros_14.dat");
    assert_eq!(block.block_number, 0);
    let block = Block::from_row(123456, "zeros_5000.dat".to_string(), 77).unwrap();
    assert_eq!((block.offset, block.block_number), (123456, 77));
    assert_eq!(Block::from_row(-1, String::new(), 0).err(), Some(Error::IndexUnavailable));
    assert_eq!(Block::from_row(8, String::new(), -1).err(), Some(Error::IndexUnavailable));
}

#[test]
fn answer_of_the_index_is_the_first_block() {
    let block = || Block { offset: 8, filename: "zeros_14.dat".to_string(), block_number: 0 };
    let query = Some(IndexQuery::ZeroNumber(3));
    assert_eq!(first_block_found(query, Some(block())).unwrap().unwrap().offset, 8);
    assert_eq!(first_block_found(query, None).err(), Some(Error::IndexMiss));
    assert!(first_block_found(None, Some(block())).unwrap().is_none());
    assert!(first_block_found(None, None).unwrap().is_none());
}

#[test]
fn files_are_resolved_in_the_directory_of_the_archive() {
    assert_eq!(
        lmfdb_data_resolve("zeros_14.dat").as_deref(),
        Some("https://beta.lmfdb.org/data/riemann-zeta-zeros/zeros_14.dat")
    );
    assert_eq!(
        md5_url().as_deref(),
        Some("https://beta.lmfdb.org/data/riemann-zeta-zeros/md5.txt")
    );
    assert_eq!(
        lmfdb_data_resolve("../index.db").as_deref(),
        Some("https://beta.lmfdb.org/data/index.db")
    );
    assert_eq!(
        lmfdb_data_resolve("a b").as_deref(),
        Some("https://beta.lmfdb.org/data/riemann-zeta-zeros/a%20b")
    );
    assert_eq!(lmfdb_data_resolve("http://[").as_deref(), None);
}
