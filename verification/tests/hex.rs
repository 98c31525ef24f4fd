use lost_commander::hex;
use lost_commander::hex::{
    differing, first_difference, hex_digit, offset_width, parse_offset, printable, rows_of,
    with_nibble, write_back, Compared, Cursor, Dump, Edits, Pane, Row, PER_ROW,
};

/// The bytes of a file of some size, counting up and wrapping.
fn a_file(size: usize) -> Vec<u8> {
    (0..size).map(|n| (n % 251) as u8).collect()
}

fn dump_of(bytes: &[u8]) -> Dump {
    Dump {
        path: "blob.bin".to_string(),
        size: bytes.len() as u64,
    }
}

/// What a window shows of a file of some bytes.
fn read(dump: &Dump, bytes: &[u8], from: u64, count: usize) -> Vec<Row> {
    match dump.window(from, count) {
        Some((at, length)) => dump.read(from, count, &bytes[at as usize..at as usize + length]),
        None => Vec::new(),
    }
}

/// Where two files first differ, read in blocks.
fn compare(left: &[u8], right: &[u8]) -> Option<u64> {
    let mut at: u64 = 0;
    loop {
        let from = at as usize;
        let a = &left[from.min(left.len())..left.len().min(from + 65536)];
        let b = &right[from.min(right.len())..right.len().min(from + 65536)];
        match first_difference(at, a, b) {
            Compared::Differ(offset) => return Some(offset),
            Compared::Same => return None,
            Compared::Next(next) => at = next,
        }
    }
}

/// The bytes of a file after its changes were written back.
fn patched(mut bytes: Vec<u8>, edits: &Edits) -> (u64, Vec<u8>) {
    let mut written = 0;
    for (at, run) in write_back(edits, bytes.len() as u64) {
        bytes[at as usize..at as usize + run.len()].copy_from_slice(&run);
        written += run.len() as u64;
    }
    (written, bytes)
}

fn row(offset: u64, bytes: &[u8]) -> Row {
    Row {
        offset,
        bytes: bytes.to_vec(),
    }
}

#[test]
fn a_full_row_reads_the_way_hexdump_writes_it() {
    let bytes: Vec<u8> = b"Hello, world!\x00\x01\x02".to_vec();
    let row = row(0, &bytes);
    assert_eq!(
        hex::line(&row, 8),
        "00000000  48 65 6c 6c 6f 2c 20 77  6f 72 6c 64 21 00 01 02  |Hello, world!...|"
    );
}

#[test]
fn a_short_last_row_keeps_the_columns_where_they_were() {
    let full = hex::line(&row(0, b"0123456789abcdef"), 8);
    let short = hex::line(&row(0x10, b"tail"), 8);
    // The text column starts at the same place in both, which is the
    // whole reason the hex column is padded.
    assert_eq!(
        full.find('|').unwrap(),
        short.find('|').unwrap(),
        "\\n{full}\\n{short}"
    );
    assert_eq!(
        short.trim_end(),
        "00000010  74 61 69 6c                                       |tail|"
    );
}

#[test]
fn only_printable_ascii_survives_into_the_text_column() {
    let row = row(0, &[0x00, 0x09, 0x1f, 0x20, 0x41, 0x7e, 0x7f, 0x80, 0xff]);
    assert_eq!(row.text(), "...  A~...".replace("  ", " "));
    assert_eq!(printable(b'A'), 'A');
    assert_eq!(printable(b' '), ' ');
    assert_eq!(printable(0x7f), '.', "delete is not printable");
    assert_eq!(printable(0xc3), '.', "nor is half of a UTF-8 character");
}

#[test]
fn the_offset_column_is_eight_wide_until_it_has_to_be_more() {
    assert_eq!(offset_width(0), 8);
    assert_eq!(offset_width(1024), 8);
    assert_eq!(offset_width(0xffff_ffff), 8);
    assert_eq!(offset_width(0x1_0000_0000), 9, "past four gigabytes");
}

#[test]
fn rows_are_cut_at_sixteen_and_numbered_from_where_they_start() {
    let bytes: Vec<u8> = (0..20u8).collect();
    let rows = rows_of(&bytes, 0x100);
    assert_eq!(rows.len(), 2);
    assert_eq!(rows[0].offset, 0x100);
    assert_eq!(rows[0].bytes.len(), 16);
    assert_eq!(rows[1].offset, 0x110);
    assert_eq!(rows[1].bytes, [16, 17, 18, 19]);
}

#[test]
fn differing_marks_the_bytes_that_differ_and_the_ones_that_are_missing() {
    let left = row(0, &[1, 2, 3, 4]);
    let right = row(0, &[1, 9, 3]);
    let marks = differing(Some(&left), Some(&right));
    assert_eq!(marks.len(), PER_ROW);
    assert!(!marks[0], "the same");
    assert!(marks[1], "2 against 9");
    assert!(!marks[2]);
    assert!(marks[3], "one row ended and the other did not");
    assert!(!marks[4], "past the end of both is not a difference");

    // A row against nothing at all is all difference, as far as it goes.
    let marks = differing(Some(&left), None);
    assert_eq!(marks[..4], [true, true, true, true]);
}

#[test]
fn only_the_window_asked_for_is_read() {
    let bytes = a_file(1000);
    let dump = dump_of(&bytes);

    assert_eq!(dump.size, 1000);
    assert_eq!(
        dump.rows(),
        63,
        "1000 bytes is 62 full rows and a short one"
    );

    let window = read(&dump, &bytes, 10, 3);
    assert_eq!(window.len(), 3);
    assert_eq!(window[0].offset, 160);
    assert_eq!(window[0].bytes[0], 160u8, "byte 160 of a file counting up");

    // The last row is short, and asking past the end gives nothing rather
    // than an error.
    let last = read(&dump, &bytes, 62, 4);
    assert_eq!(last.len(), 1);
    assert_eq!(last[0].bytes.len(), 1000 - 62 * 16);
    assert!(read(&dump, &bytes, 63, 4).is_empty());
    assert!(read(&dump, &bytes, 10, 0).is_empty());
}

#[test]
fn an_empty_file_has_no_rows() {
    let dump = dump_of(&[]);
    assert_eq!(dump.rows(), 0);
    assert!(read(&dump, &[], 0, 10).is_empty());
    assert_eq!(dump.offset_width(), 8);
}

#[test]
fn the_first_difference_is_an_offset_worth_going_to() {
    let a = a_file(100_000);
    let mut bytes = a_file(100_000);
    assert_eq!(compare(&a, &bytes), None, "identical");

    // A change well past the first read block is still found.
    bytes[70_000] ^= 0xff;
    assert_eq!(compare(&a, &bytes), Some(70_000));

    // One file being a prefix of the other differs where it ends.
    assert_eq!(compare(&bytes[..500], &bytes), Some(500));
    assert_eq!(compare(&bytes, &bytes[..500]), Some(500));
}

#[test]
fn a_byte_takes_two_keystrokes_one_nibble_at_a_time() {
    // Replacing the whole byte on the first keystroke would make 0x4f
    // reachable only by typing 04 and then 4f.
    assert_eq!(with_nibble(0x00, 0x4, false), 0x40);
    assert_eq!(with_nibble(0x40, 0xf, true), 0x4f);
    // And the other half is left alone either way round.
    assert_eq!(with_nibble(0xab, 0x0, false), 0x0b);
    assert_eq!(with_nibble(0xab, 0x0, true), 0xa0);

    assert_eq!(hex_digit('0'), Some(0));
    assert_eq!(hex_digit('9'), Some(9));
    assert_eq!(hex_digit('a'), Some(10));
    assert_eq!(hex_digit('F'), Some(15));
    assert_eq!(hex_digit('g'), None);
    assert_eq!(hex_digit(' '), None);
}

#[test]
fn a_byte_typed_back_to_what_it_was_stops_being_a_change() {
    let mut edits = Edits::default();
    edits.set(10, 0xaa, 0xbb);
    assert_eq!(edits.len(), 1);
    assert_eq!(edits.get(10), Some(0xbb));
    assert!(edits.is_changed(10));

    edits.set(10, 0xaa, 0xaa);
    assert!(edits.is_empty(), "back to itself is not an edit");
    assert_eq!(edits.get(10), None);
}

#[test]
fn undoing_restores_what_the_file_had_and_not_the_step_before() {
    // Editing the same byte twice must remember the value *on disk*, not
    // the first edit's - or one undo leaves a value that was never there.
    let mut edits = Edits::default();
    edits.set(4, 0x11, 0x22);
    edits.set(4, 0x22, 0x33);
    assert_eq!(edits.len(), 1);
    assert_eq!(edits.get(4), Some(0x33));

    // And one undo clears the byte entirely, back to the file's own value.
    assert_eq!(edits.undo(), Some(4));
    assert!(edits.is_empty());

    // Undo goes back in the order the edits were made.
    let mut edits = Edits::default();
    edits.set(1, 0, 1);
    edits.set(9, 0, 2);
    edits.set(5, 0, 3);
    assert_eq!(edits.undo(), Some(5));
    assert_eq!(edits.undo(), Some(9));
    assert_eq!(edits.undo(), Some(1));
    assert_eq!(edits.undo(), None);
}

#[test]
fn changes_are_laid_over_the_rows_read_from_the_file() {
    let mut edits = Edits::default();
    edits.set(0, b'h', b'H');
    edits.set(4, b'o', b'0');

    let mut row = Row {
        offset: 0,
        bytes: b"hello".to_vec(),
    };
    edits.overlay(&mut row);
    assert_eq!(row.bytes, b"Hell0".to_vec());

    // A row that does not contain the changed offsets is untouched.
    let mut elsewhere = Row {
        offset: 64,
        bytes: b"hello".to_vec(),
    };
    edits.overlay(&mut elsewhere);
    assert_eq!(elsewhere.bytes, b"hello".to_vec());
}

#[test]
fn neighbouring_changes_become_one_run() {
    let mut edits = Edits::default();
    for (at, byte) in [(5u64, 1u8), (6, 2), (7, 3), (20, 9)] {
        edits.set(at, 0, byte);
    }
    assert_eq!(edits.runs(), vec![(5, vec![1, 2, 3]), (20, vec![9])]);
}

#[test]
fn writing_back_changes_the_bytes_and_not_the_length() {
    // The whole contract of a hex editor: it overwrites. Inserting one
    // byte would move every byte after it, which is a rewrite of the file
    // rather than a fix to it.
    let mut edits = Edits::default();
    edits.set(0, b'h', b'H');
    edits.set(6, b'w', b'W');
    let (written, after) = patched(b"hello world".to_vec(), &edits);
    assert_eq!(written, 2);
    assert_eq!(after, b"Hello World".to_vec());
    assert_eq!(after.len(), 11, "the same length as it went in");
}

#[test]
fn writing_back_nothing_touches_nothing() {
    let (written, after) = patched(b"as it was".to_vec(), &Edits::default());
    assert_eq!(written, 0);
    assert_eq!(after, b"as it was".to_vec());
}

#[test]
fn a_file_that_shrank_is_not_extended_by_the_write() {
    // The dump was taken when the file was longer. Writing past the end
    // would grow it, which is the one thing this must never do.
    let mut edits = Edits::default();
    edits.set(8, 0, b'X');
    edits.set(9, 0, b'Y');
    edits.set(10, 0, b'Z'); // past the end
    let (_, after) = patched(b"12345678".to_vec(), &edits);
    assert_eq!(after.len(), 8, "not one byte longer");
}

#[test]
fn the_cursor_walks_bytes_and_stops_at_the_ends() {
    let mut cursor = Cursor::default();
    assert_eq!(cursor.at, 0);
    assert_eq!(cursor.pane, Pane::Hex);

    cursor.step(1, 100);
    assert_eq!(cursor.at, 1);
    cursor.step(-5, 100);
    assert_eq!(cursor.at, 0, "not past the start");
    cursor.step(1000, 100);
    assert_eq!(cursor.at, 99, "not past the end");

    cursor.to(20, 100);
    assert_eq!((cursor.row(), cursor.column()), (1, 4));
    // Moving resets the half, so the next digit is the high one - the
    // alternative is a cursor that lands mid-byte and eats a keystroke.
    cursor.low = true;
    cursor.step(1, 100);
    assert!(!cursor.low);

    assert_eq!(Pane::Hex.other(), Pane::Text);
    assert_eq!(Pane::Text.other(), Pane::Hex);
}

#[test]
fn what_was_changed_is_said_in_words() {
    let mut edits = Edits::default();
    assert_eq!(edits.describe(), "");
    edits.set(0x2a, 0x00, 0xff);
    assert_eq!(edits.describe(), "1 byte changed: 0x2a 00 -> ff");
    edits.set(0x2b, 0x00, 0x01);
    assert_eq!(edits.describe(), "2 bytes changed");
}

#[test]
fn a_typed_offset_is_hex_because_every_offset_on_screen_is() {
    assert_eq!(parse_offset("1f400", 0x20000), Some(0x1f400));
    assert_eq!(parse_offset("1F400", 0x20000), Some(0x1f400));
    assert_eq!(parse_offset("0x1f400", 0x20000), Some(0x1f400));
    // Groupings, so an offset copied out of a dump or a spec parses.
    assert_eq!(parse_offset("  1f_40 0 ", 0x20000), Some(0x1f400));
}

#[test]
fn there_is_a_way_to_ask_for_decimal() {
    // Without one, `100` could only mean 256 and somebody wanting byte
    // one hundred would have no way to say so.
    assert_eq!(parse_offset("100", 1000), Some(0x100));
    assert_eq!(parse_offset("0n100", 1000), Some(100));
    assert_eq!(parse_offset("+100", 1000), Some(100));
}

#[test]
fn past_the_end_lands_on_the_last_byte() {
    // The reader asked to go as far as possible that way. An error where
    // the cursor should be is not an answer to that.
    assert_eq!(parse_offset("ffffffff", 0x100), Some(0xff));
    // And an empty file has nowhere to land at all.
    assert_eq!(parse_offset("0", 0), Some(0));
}

#[test]
fn what_is_not_an_offset_is_refused_rather_than_guessed_at() {
    assert_eq!(parse_offset("", 0x100), None);
    assert_eq!(parse_offset("   ", 0x100), None);
    assert_eq!(parse_offset("zz", 0x100), None);
    assert_eq!(parse_offset("0x", 0x100), None);
    // Decimal-only digits under a decimal prefix: `f` is not one.
    assert_eq!(parse_offset("0nff", 0x100), None);
}

#[test]
fn a_row_is_two_digits_to_a_byte() {
    let row = row(0, &[0x00, 0xff]);
    assert_eq!(row.pair(0), "00");
    assert_eq!(row.pair(1), "ff");
    assert_eq!(row.pair(2), "  ");
    assert!(row.hex().starts_with("00 ff"));
}

#[test]
fn typing_and_undoing_leaves_things_as_they_were() {
    let mut edits = Edits::default();
    edits.set(3, 0x10, 0x20);
    let runs = edits.runs();
    edits.set(7, 0x00, 0x01);
    assert_eq!(edits.undo(), Some(7));
    assert_eq!(edits.runs(), runs);
    edits.clear();
    assert!(edits.is_empty());
    assert_eq!(edits.undo(), None);
}

#[test]
fn a_byte_typed_back_after_another_change_stops_being_a_change() {
    let mut edits = Edits::default();
    edits.set(4, 0x11, 0x22);
    edits.set(4, 0x22, 0x11);
    assert!(edits.is_empty());
    assert_eq!(edits.get(4), None);
    assert_eq!(edits.undo(), None);

    // Typed over with what it already shows, it is still the change it was.
    edits.set(4, 0x11, 0x22);
    edits.set(4, 0x22, 0x22);
    assert_eq!(edits.get(4), Some(0x22));
    assert_eq!(edits.len(), 1);
}

#[test]
fn an_offset_of_any_length_past_the_end_is_the_last_byte() {
    assert_eq!(parse_offset("fffffffffffffffff", 0x100), Some(0xff));
    assert_eq!(parse_offset("0n99999999999999999999999999", 0x100), Some(0xff));
    assert_eq!(parse_offset("ffffffffffffffffg", 0x100), None);
    assert_eq!(parse_offset("ffffffffffffffffff", 0), Some(0));
}
