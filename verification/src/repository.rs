use crate::error::Error;
use vstd::prelude::*;
use vstd::string::*;
use vstd::utf8::is_ascii_chars;

verus! {

/// A data file of the archive, as the manifest lists it.
#[derive(Debug)]
pub struct DatFile {
    pub file_name: String,
    /// The place of the file among the files of the archive.
    pub order: usize,
    /// The 16 bytes of the MD5 digest of the file.
    pub digest: Vec<u8>,
}

/// What a line of the manifest says of a data file.
pub struct Listing {
    pub file_name: Seq<char>,
    pub order: nat,
    pub digest: Seq<u8>,
}

impl View for DatFile {
    type V = Listing;

    open spec fn view(&self) -> Listing {
        Listing { file_name: self.file_name@, order: self.order as nat, digest: self.digest@ }
    }
}

/// A decimal digit.
pub open spec fn digit(c: char) -> bool {
    '0' <= c <= '9'
}

/// A lowercase hexadecimal digit.
pub open spec fn hex(c: char) -> bool {
    digit(c) || 'a' <= c <= 'f'
}

/// The value of a lowercase hexadecimal digit.
pub open spec fn hex_value(c: char) -> nat {
    if digit(c) {
        (c as u32 - 48) as nat
    } else {
        (c as u32 - 87) as nat
    }
}

/// The number that decimal digits stand for.
pub open spec fn decimal(digits: Seq<char>) -> nat
    decreases digits.len(),
{
    if digits.len() == 0 {
        0
    } else {
        decimal(digits.drop_last()) * 10 + (digits.last() as u32 - 48) as nat
    }
}

/// The shape of a line of the manifest: 32 lowercase hexadecimal digits, two
/// spaces, and a file name made of `zeros_`, decimal digits (at least one) and
/// `.dat`, where the digits stand for a number that fits `usize`.
pub open spec fn well_formed(line: Seq<char>) -> bool {
    &&& line.len() >= 45
    &&& forall|i: int| 0 <= i < 32 ==> hex(#[trigger] line[i])
    &&& line[32] == ' '
    &&& line[33] == ' '
    &&& line[34] == 'z'
    &&& line[35] == 'e'
    &&& line[36] == 'r'
    &&& line[37] == 'o'
    &&& line[38] == 's'
    &&& line[39] == '_'
    &&& forall|i: int| 40 <= i < line.len() - 4 ==> digit(#[trigger] line[i])
    &&& line[line.len() - 4] == '.'
    &&& line[line.len() - 3] == 'd'
    &&& line[line.len() - 2] == 'a'
    &&& line[line.len() - 1] == 't'
    &&& decimal(line.subrange(40, line.len() - 4)) <= usize::MAX
}

/// What a well-formed line says: the file name behind the two spaces, the
/// number in the file name, and the digest in front.
pub open spec fn listing(line: Seq<char>) -> Listing {
    Listing {
        file_name: line.subrange(34, line.len() as int),
        order: decimal(line.subrange(40, line.len() - 4)),
        digest: Seq::new(
            16,
            |i: int| (16 * hex_value(line[2 * i]) + hex_value(line[2 * i + 1])) as u8,
        ),
    }
}

/// More digits never stand for a smaller number.
pub proof fn lemma_decimal_grows(digits: Seq<char>, count: int)
    requires
        0 <= count <= digits.len(),
        forall|i: int| 0 <= i < digits.len() ==> digit(#[trigger] digits[i]),
    ensures
        decimal(digits.take(count)) <= decimal(digits),
    decreases digits.len(),
{
    if count < digits.len() {
        let shorter = digits.drop_last();
        assert(shorter.take(count) =~= digits.take(count));
        lemma_decimal_grows(shorter, count);
    } else {
        assert(digits.take(count) =~= digits);
    }
}

/// A well-formed line holds ASCII characters only.
pub proof fn lemma_well_formed_is_ascii(line: Seq<char>)
    requires
        well_formed(line),
    ensures
        is_ascii_chars(line),
{
    assert forall|i: int| 0 <= i < line.len() implies '\0' <= #[trigger] line[i] <= '\u{7f}' by {
        if i < 32 {
            assert(hex(line[i]));
        } else if 40 <= i < line.len() - 4 {
            assert(digit(line[i]));
        }
    }
}

/// The value of the hexadecimal digit with the ASCII code `byte`, or `None`
/// where the byte is no lowercase hexadecimal digit.
fn nibble(byte: u8) -> (value: Option<u8>)
    ensures
        match value {
            Some(v) => hex(byte as char) && v == hex_value(byte as char),
            None => !hex(byte as char),
        },
{
    if 48 <= byte && byte <= 57 {
        Some(byte - 48)
    } else if 97 <= byte && byte <= 102 {
        Some(byte - 87)
    } else {
        None
    }
}

impl DatFile {
    /// Reads a line of the manifest.
    pub fn parse(line: &str) -> (result: Result<DatFile, Error>)
        ensures
            match result {
                Ok(file) => well_formed(line@) && file@ == listing(line@),
                Err(error) => !well_formed(line@) && error == Error::ManifestMalformed,
            },
    {
        broadcast use is_ascii_spec_bytes;

        if !line.is_ascii() {
            proof {
                if well_formed(line@) {
                    lemma_well_formed_is_ascii(line@);
                }
            }
            return Err(Error::ManifestMalformed);
        }
        let bytes = line.as_bytes();
        let len = bytes.len();
        assert(bytes@.len() == line@.len());
        assert(forall|i: int| 0 <= i < len ==> #[trigger] bytes@[i] == line@[i] as u8);
        assert(forall|i: int| 0 <= i < len ==> #[trigger] bytes@[i] as char == line@[i]);
        if len < 45 {
            return Err(Error::ManifestMalformed);
        }
        let mut digest: Vec<u8> = Vec::new();
        let mut k: usize = 0;
        while k < 16
            invariant
                k <= 16,
                len >= 45,
                bytes@.len() == len,
                forall|i: int| 0 <= i < len ==> #[trigger] bytes@[i] as char == line@[i],
                forall|i: int| 0 <= i < 2 * k ==> hex(#[trigger] line@[i]),
                digest@.len() == k,
                forall|i: int| 0 <= i < k ==> #[trigger] digest@[i] == listing(line@).digest[i],
            decreases 16 - k,
        {
            let high = nibble(bytes[2 * k]);
            let low = nibble(bytes[2 * k + 1]);
            match (high, low) {
                (Some(high), Some(low)) => {
                    digest.push(16 * high + low);
                },
                _ => {
                    assert(!hex(line@[2 * k as int]) || !hex(line@[2 * k + 1]));
                    return Err(Error::ManifestMalformed);
                },
            }
            k = k + 1;
        }
        if bytes[32] != 32 || bytes[33] != 32 || bytes[34] != 122 || bytes[35] != 101 || bytes[36]
            != 114 || bytes[37] != 111 || bytes[38] != 115 || bytes[39] != 95 {
            return Err(Error::ManifestMalformed);
        }
        if bytes[len - 4] != 46 || bytes[len - 3] != 100 || bytes[len - 2] != 97 || bytes[len - 1]
            != 116 {
            return Err(Error::ManifestMalformed);
        }
        let ghost digits = line@.subrange(40, len - 4);
        let mut order: usize = 0;
        let mut at: usize = 40;
        proof {
            assert(digits.take(0) =~= Seq::<char>::empty());
        }
        while at < len - 4
            invariant
                40 <= at <= len - 4,
                bytes@.len() == len,
                line@.len() == len,
                digits == line@.subrange(40, len - 4),
                forall|i: int| 0 <= i < len ==> #[trigger] bytes@[i] as char == line@[i],
                forall|i: int| 40 <= i < at ==> digit(#[trigger] line@[i]),
                order == decimal(digits.take(at - 40)),
            decreases len - at,
        {
            let byte = bytes[at];
            if byte < 48 || byte > 57 {
                assert(!digit(line@[at as int]));
                return Err(Error::ManifestMalformed);
            }
            proof {
                assert(digits.take(at - 40 + 1).drop_last() =~= digits.take(at - 40));
                assert(digits.take(at - 40 + 1).last() == line@[at as int]);
            }
            let next = match order.checked_mul(10) {
                Some(tenfold) => tenfold.checked_add((byte - 48) as usize),
                None => None,
            };
            match next {
                Some(next) => {
                    order = next;
                },
                None => {
                    proof {
                        if well_formed(line@) {
                            assert forall|i: int| 0 <= i < digits.len() implies digit(
                                #[trigger] digits[i],
                            ) by {
                                assert(digit(line@[i + 40]));
                            }
                            lemma_decimal_grows(digits, at - 40 + 1);
                        }
                    }
                    return Err(Error::ManifestMalformed);
                },
            }
            at = at + 1;
        }
        proof {
            assert(digits.take(at - 40) =~= digits);
            assert(digest@ =~= listing(line@).digest);
        }
        let file_name = line.substring_ascii(34, len).to_owned();
        Ok(DatFile { file_name, order, digest })
    }
}

/// The index of the first line feed at or behind the index `from`, and the
/// length of the text where there is none.
pub open spec fn line_end(text: Seq<char>, from: int) -> int
    decreases text.len() - from,
{
    if from < 0 || from >= text.len() || text[from] == '\n' {
        from
    } else {
        line_end(text, from + 1)
    }
}

/// A line without the carriage return at its end, if it has one.
pub open spec fn trimmed(line: Seq<char>) -> Seq<char> {
    if line.len() > 0 && line.last() == '\r' {
        line.drop_last()
    } else {
        line
    }
}

/// The lines of a text from the index `from` on. A line ends with a line
/// feed, or with a carriage return and a line feed, or with the text; behind
/// the last line feed there is a line only if there is a character.
pub open spec fn lines(text: Seq<char>, from: int) -> Seq<Seq<char>>
    decreases text.len() - from,
{
    if from < 0 || from >= text.len() {
        Seq::empty()
    } else {
        let end = line_end(text, from);
        if from <= end < text.len() {
            seq![trimmed(text.subrange(from, end))] + lines(text, end + 1)
        } else {
            seq![trimmed(text.subrange(from, end))]
        }
    }
}

/// What the lines say, each for itself.
pub open spec fn listings_of(lines: Seq<Seq<char>>) -> Seq<Listing> {
    lines.map_values(|line: Seq<char>| listing(line))
}

/// What the files are, as listings.
pub open spec fn listings(files: Seq<DatFile>) -> Seq<Listing> {
    files.map_values(|file: DatFile| file@)
}

/// No file stands before one of a smaller order.
pub open spec fn ordered(files: Seq<Listing>) -> bool {
    forall|i: int, j: int| 0 <= i < j < files.len() ==> files[i].order <= files[j].order
}

/// The index of the first file at or behind the index `from` whose order is
/// at least `order`, and the count of the files where there is none.
pub open spec fn place_of(files: Seq<Listing>, order: nat, from: int) -> int
    decreases files.len() - from,
{
    if from < 0 || from >= files.len() || files[from].order >= order {
        from
    } else {
        place_of(files, order, from + 1)
    }
}

/// The files in the order of their numbers, the smallest first; files of the
/// same number stay in the order in which they came.
pub open spec fn by_order(files: Seq<Listing>) -> Seq<Listing>
    decreases files.len(),
{
    if files.len() == 0 {
        files
    } else {
        by_order(files.drop_first()).insert(
            place_of(by_order(files.drop_first()), files[0].order, 0),
            files[0],
        )
    }
}

/// The place of a file is behind all files of a smaller order.
proof fn lemma_place_of(files: Seq<Listing>, order: nat, from: int, at: int)
    requires
        0 <= from <= at <= files.len(),
        forall|i: int| from <= i < at ==> (#[trigger] files[i]).order < order,
        at < files.len() ==> files[at].order >= order,
    ensures
        place_of(files, order, from) == at,
    decreases at - from,
{
    if from < at {
        lemma_place_of(files, order, from + 1, at);
    }
}

/// Every line of the text is well formed, and so the text is ASCII.
pub open spec fn manifest_ok(text: Seq<char>) -> bool {
    &&& is_ascii_chars(text)
    &&& forall|k: int| 0 <= k < lines(text, 0).len() ==> well_formed(#[trigger] lines(text, 0)[k])
}

/// A line ends at the first line feed.
pub proof fn lemma_line_end(text: Seq<char>, from: int, end: int)
    requires
        0 <= from <= end <= text.len(),
        forall|i: int| from <= i < end ==> #[trigger] text[i] != '\n',
        end == text.len() || text[end] == '\n',
    ensures
        line_end(text, from) == end,
    decreases end - from,
{
    if from < end {
        lemma_line_end(text, from + 1, end);
    }
}

/// A sequence with one more element is, as a multiset, the sequence and the
/// element.
pub proof fn lemma_insert_to_multiset<A>(s: Seq<A>, at: int, a: A)
    requires
        0 <= at <= s.len(),
    ensures
        s.insert(at, a).to_multiset() == s.to_multiset().insert(a),
{
    broadcast use vstd::seq_lib::group_to_multiset_ensures;

    let t = s.insert(at, a);
    assert(t.remove(at) =~= s);
    assert(t[at] == a);
    assert(t.contains(a));
    assert(t.to_multiset().remove(a).insert(a) =~= t.to_multiset());
}

/// Puts the files in the order of their numbers, the smallest first.
pub fn sort_by_order(files: Vec<DatFile>) -> (sorted: Vec<DatFile>)
    ensures
        listings(sorted@) == by_order(listings(files@)),
        ordered(listings(sorted@)),
        listings(sorted@).to_multiset() == listings(files@).to_multiset(),
{
    broadcast use vstd::seq_lib::group_to_multiset_ensures;

    let ghost all = files@;
    let mut rest = files;
    let mut sorted: Vec<DatFile> = Vec::new();
    proof {
        assert(listings(all).skip(all.len() as int) =~= Seq::<Listing>::empty());
        assert(listings(sorted@) =~= Seq::<Listing>::empty());
        assert(listings(sorted@).to_multiset().add(listings(rest@).to_multiset()) =~= listings(
            all,
        ).to_multiset());
    }
    while rest.len() > 0
        invariant
            all == files@,
            rest@.len() <= all.len(),
            rest@ == all.take(rest@.len() as int),
            listings(sorted@) == by_order(listings(all).skip(rest@.len() as int)),
            ordered(listings(sorted@)),
            listings(sorted@).to_multiset().add(listings(rest@).to_multiset()) == listings(
                all,
            ).to_multiset(),
        decreases rest.len(),
    {
        let ghost before = rest@;
        let ghost placed = sorted@;
        let file = rest.pop().unwrap();
        let mut at: usize = 0;
        while at < sorted.len() && sorted[at].order < file.order
            invariant
                at <= sorted.len(),
                forall|i: int| 0 <= i < at ==> (#[trigger] sorted@[i]).order < file.order,
            decreases sorted.len() - at,
        {
            at = at + 1;
        }
        sorted.insert(at, file);
        proof {
            let tail = listings(all).skip(rest@.len() as int);
            assert(before == all.take(before.len() as int));
            assert(rest@ == before.drop_last());
            assert(rest@ =~= all.take(rest@.len() as int));
            assert(file == before[before.len() - 1]);
            assert(file == all[before.len() - 1]);
            assert(tail[0] == listings(all)[rest@.len() as int]);
            assert(tail[0] == file@);
            assert(tail.drop_first() =~= listings(all).skip(before.len() as int));
            lemma_place_of(listings(placed), file@.order, 0, at as int);
            assert(listings(before) =~= listings(rest@).push(file@));
            assert(listings(sorted@) =~= listings(placed).insert(at as int, file@));
            lemma_insert_to_multiset(listings(placed), at as int, file@);
            let one = file@;
            let left = listings(placed).to_multiset();
            let right = listings(rest@).to_multiset();
            vstd::seq_lib::to_multiset_build(listings(rest@), one);
            assert(listings(before).to_multiset() =~= right.insert(one));
            assert(listings(sorted@).to_multiset() == left.insert(one));
            assert(left.insert(one).add(right) =~= left.add(right.insert(one)));
            let now = listings(sorted@);
            let was = listings(placed);
            assert forall|i: int, j: int| 0 <= i < j < now.len() implies now[i].order
                <= now[j].order by {
                if j < at {
                    assert(was[i].order <= was[j].order);
                } else if j == at {
                    assert(placed[i].order < file.order);
                } else if i < at {
                    assert(placed[i].order < file.order);
                    if at < placed.len() {
                        assert(was[at as int].order <= was[j - 1].order || at == j - 1);
                    }
                } else if i == at {
                    assert(was[at as int].order <= was[j - 1].order || at == j - 1);
                } else {
                    assert(was[i - 1].order <= was[j - 1].order);
                }
            }
        }
    }
    proof {
        assert(listings(all).skip(0) =~= listings(all));
        assert(listings(rest@) =~= Seq::<Listing>::empty());
        assert(listings(sorted@).to_multiset().add(listings(rest@).to_multiset()) =~= listings(
            sorted@,
        ).to_multiset());
    }
    sorted
}

/// Reads the manifest of the archive: one data file for each line, in the
/// order of their numbers.
pub fn read_repository(text: &str) -> (result: Result<Vec<DatFile>, Error>)
    ensures
        match result {
            Ok(files) => {
                &&& manifest_ok(text@)
                &&& listings(files@) == by_order(listings_of(lines(text@, 0)))
                &&& ordered(listings(files@))
                &&& listings(files@).to_multiset() == listings_of(lines(text@, 0)).to_multiset()
            },
            Err(error) => !manifest_ok(text@) && error == Error::ManifestMalformed,
        },
{
    broadcast use is_ascii_spec_bytes;

    if !text.is_ascii() {
        return Err(Error::ManifestMalformed);
    }
    let bytes = text.as_bytes();
    let len = bytes.len();
    assert(bytes@.len() == text@.len());
    assert(forall|i: int| 0 <= i < len ==> #[trigger] bytes@[i] as char == text@[i]);
    let mut files: Vec<DatFile> = Vec::new();
    let mut from: usize = 0;
    let ghost mut read = Seq::<Seq<char>>::empty();
    proof {
        assert(read + lines(text@, 0) =~= lines(text@, 0));
        assert(listings(files@) =~= listings_of(read));
    }
    while from < len
        invariant
            from <= len,
            text.is_ascii(),
            bytes@.len() == len,
            text@.len() == len,
            forall|i: int| 0 <= i < len ==> #[trigger] bytes@[i] as char == text@[i],
            lines(text@, 0) == read + lines(text@, from as int),
            forall|k: int| 0 <= k < read.len() ==> well_formed(#[trigger] read[k]),
            listings(files@) == listings_of(read),
        decreases len - from,
    {
        let mut end: usize = from;
        while end < len && bytes[end] != 10
            invariant
                from <= end <= len,
                bytes@.len() == len,
                forall|i: int| 0 <= i < len ==> #[trigger] bytes@[i] as char == text@[i],
                forall|i: int| from <= i < end ==> #[trigger] text@[i] != '\n',
            decreases len - end,
        {
            end = end + 1;
        }
        let stop: usize = if end > from && bytes[end - 1] == 13 {
            (end - 1) as usize
        } else {
            end
        };
        let line = text.substring_ascii(from, stop);
        proof {
            lemma_line_end(text@, from as int, end as int);
            assert(line@ =~= trimmed(text@.subrange(from as int, end as int)));
            assert(lines(text@, end + 1) =~= if end < len {
                lines(text@, end + 1)
            } else {
                Seq::<Seq<char>>::empty()
            });
            assert(lines(text@, from as int) =~= seq![line@] + lines(text@, end + 1));
            assert(read + (seq![line@] + lines(text@, end + 1)) =~= read.push(line@) + lines(
                text@,
                end + 1,
            ));
        }
        match DatFile::parse(line) {
            Ok(file) => {
                proof {
                    assert(listings(files@.push(file)) =~= listings(files@).push(file@));
                    assert(listings_of(read.push(line@)) =~= listings_of(read).push(
                        listing(line@),
                    ));
                    read = read.push(line@);
                }
                files.push(file);
            },
            Err(error) => {
                proof {
                    let k = read.len() as int;
                    assert(lines(text@, 0)[k] == line@);
                }
                return Err(error);
            },
        }
        proof {
            if end == len {
                assert(lines(text@, end + 1) =~= lines(text@, end as int));
            }
        }
        from = if end == len {
            end
        } else {
            end + 1
        };
    }
    proof {
        assert(read + lines(text@, from as int) =~= read);
    }
    Ok(sort_by_order(files))
}

} // verus!
