use lost_commander::encoding::{
    decode, encode, is_utf8_allowing_a_cut, sniff, sniff_newline, strip_bom, to_newline,
    Confidence, Encoding, Newline, ALL, NEWLINES, SNIFF, UNREPRESENTABLE,
};

#[test]
fn a_byte_order_mark_is_proof_rather_than_a_guess() {
    for (encoding, bytes) in [
        (Encoding::Utf8Bom, vec![0xEF, 0xBB, 0xBF, b'h', b'i']),
        (Encoding::Utf16Le, vec![0xFF, 0xFE, b'h', 0, b'i', 0]),
        (Encoding::Utf16Be, vec![0xFE, 0xFF, 0, b'h', 0, b'i']),
    ] {
        let found = sniff(&bytes);
        assert_eq!(found.encoding, encoding);
        assert_eq!(found.confidence, Confidence::Marked);
        assert_eq!(decode(&bytes, found.encoding), "hi");
    }
}

#[test]
fn plain_utf8_is_recognised_and_said_to_be_certain() {
    let found = sniff("hello, wörld — ok\n".as_bytes());
    assert_eq!(found.encoding, Encoding::Utf8);
    assert_eq!(found.confidence, Confidence::Certain);
    assert_eq!(found.describe(), "UTF-8");
}

#[test]
fn utf16_without_a_mark_is_found_by_where_the_nulls_fall() {
    let little: Vec<u8> = "hello there"
        .encode_utf16()
        .flat_map(|unit| unit.to_le_bytes())
        .collect();
    let found = sniff(&little);
    assert_eq!(found.encoding, Encoding::Utf16Le);
    assert_eq!(decode(&little, found.encoding), "hello there");

    let big: Vec<u8> = "hello there"
        .encode_utf16()
        .flat_map(|unit| unit.to_be_bytes())
        .collect();
    assert_eq!(sniff(&big).encoding, Encoding::Utf16Be);

    // A file that merely contains a null is not UTF-16.
    let mut mostly_text = b"a perfectly ordinary line of text".to_vec();
    mostly_text.push(0);
    assert_eq!(sniff(&mostly_text).encoding, Encoding::Utf8);
}

#[test]
fn a_windows_file_that_is_not_utf8_is_guessed_and_says_so() {
    // "café" in CP1252: the é is a single byte, which is not valid UTF-8.
    let bytes = vec![b'c', b'a', b'f', 0xE9, b'\n'];
    let found = sniff(&bytes);
    assert_eq!(found.encoding, Encoding::Cp1252);
    assert_eq!(found.confidence, Confidence::Guessed);
    assert_eq!(found.describe(), "Windows-1252 (a guess)");
    assert_eq!(decode(&bytes, Encoding::Cp1252), "café\n");
}

#[test]
fn cyrillic_is_mostly_high_bytes_and_reads_as_cyrillic() {
    // "Привет" in CP1251.
    let bytes = vec![0xCF, 0xF0, 0xE8, 0xE2, 0xE5, 0xF2];
    let found = sniff(&bytes);
    assert_eq!(found.encoding, Encoding::Cp1251);
    assert_eq!(decode(&bytes, Encoding::Cp1251), "Привет");
}

#[test]
fn a_bad_byte_at_the_end_is_a_bad_byte_and_not_a_cut() {
    // The distinction that matters. `caf\xE9\n` has a byte that cannot be
    // where it is - 0xE9 opens a three-byte sequence and a newline cannot
    // continue one - so the file is not UTF-8. Trimming bytes off the end
    // until it parses, which is the obvious way to allow for the window
    // cutting a character in half, reads this as a truncated "caf" and
    // calls the whole file UTF-8.
    assert!(!is_utf8_allowing_a_cut(&[b'c', b'a', b'f', 0xE9, b'\n']));
    // 0xFF cannot appear in UTF-8 at all, in any position.
    assert!(!is_utf8_allowing_a_cut(&[b'a', 0xFF, b'b']));

    // Whereas a sequence that simply ran out is a cut, and allowed. Note
    // that `caf\xE9` on its own is one of these: 0xE9 is a legitimate
    // opening byte, so ending there is indistinguishable from a window
    // that stopped one byte early. It is the *next* byte that decides.
    let character = "文".as_bytes();
    assert!(is_utf8_allowing_a_cut(&character[..2]));
    assert!(is_utf8_allowing_a_cut(character));
    assert!(is_utf8_allowing_a_cut(&[b'c', b'a', b'f', 0xE9]));
}

#[test]
fn a_cut_in_the_middle_of_a_character_does_not_make_a_file_not_utf8() {
    // Sixty-four kilobytes of a three-byte character, so the sniff window
    // is guaranteed to land mid-sequence. Without trimming to a boundary
    // every such file is declared "not UTF-8" and read as CP1251.
    let text = "文".repeat(SNIFF);
    let found = sniff(text.as_bytes());
    assert_eq!(found.encoding, Encoding::Utf8);
    assert_eq!(found.confidence, Confidence::Certain);
}

#[test]
fn nothing_at_all_is_utf8() {
    let found = sniff(b"");
    assert_eq!(found.encoding, Encoding::Utf8);
    assert_eq!(found.confidence, Confidence::Certain);
    assert_eq!(decode(b"", Encoding::Utf8), "");
}

#[test]
fn every_encoding_round_trips_what_it_can_hold() {
    for encoding in ALL {
        let text = match encoding {
            Encoding::Cp1251 => "Привет, мир!\nline two\n",
            Encoding::Latin1 => "café ± ½\nline two\n",
            _ => "café — “quoted” ±\nline two\n",
        };
        let there = encode(text, encoding);
        assert!(
            there.is_lossless(),
            "{}: lost {:?}",
            encoding.label(),
            there.lost
        );
        assert_eq!(decode(&there.bytes, encoding), text, "{}", encoding.label());
    }
}

#[test]
fn what_will_not_fit_is_reported_rather_than_lost_in_silence() {
    // Saving a file with Cyrillic in it as western European cannot work,
    // and doing it quietly is how an afternoon's work becomes question
    // marks.
    let there = encode("Привет", Encoding::Cp1252);
    assert!(!there.is_lossless());
    assert_eq!(there.bytes, b"??????");
    assert_eq!(there.lost, vec!['П', 'р', 'и', 'в', 'е', 'т']);
    let complaint = there.complaint(Encoding::Cp1252).expect("a complaint");
    assert!(complaint.contains("Windows-1252"), "{complaint}");
    assert!(complaint.contains('П'), "{complaint}");

    // And nothing to complain about where nothing was lost.
    assert!(encode("plain", Encoding::Cp1252)
        .complaint(Encoding::Cp1252)
        .is_none());
}

#[test]
fn latin1_carries_any_byte_at_all_both_ways() {
    // The identity mapping, which is what makes it the safe fallback: a
    // file of arbitrary bytes comes back exactly as it went in.
    let bytes: Vec<u8> = (0u8..=255).collect();
    let text = decode(&bytes, Encoding::Latin1);
    assert_eq!(text.chars().count(), 256);
    let there = encode(&text, Encoding::Latin1);
    assert!(there.is_lossless());
    assert_eq!(there.bytes, bytes);
}

#[test]
fn the_mark_is_written_and_read_back_off_again() {
    let there = encode("hi", Encoding::Utf8Bom);
    assert_eq!(there.bytes, vec![0xEF, 0xBB, 0xBF, b'h', b'i']);
    assert_eq!(decode(&there.bytes, Encoding::Utf8Bom), "hi");
    // And a file written without one does not grow a phantom character.
    assert_eq!(decode(b"hi", Encoding::Utf8), "hi");
}

#[test]
fn a_truncated_utf16_file_keeps_its_last_byte_as_a_complaint() {
    let bytes = vec![b'h', 0, b'i'];
    assert_eq!(decode(&bytes, Encoding::Utf16Le), "h\u{FFFD}");
}

#[test]
fn line_endings_are_found_by_majority_and_put_back() {
    assert_eq!(sniff_newline("a\nb\nc"), Newline::Lf);
    assert_eq!(sniff_newline("a\r\nb\r\nc"), Newline::Crlf);
    assert_eq!(sniff_newline("a\rb\rc"), Newline::Cr);
    assert_eq!(sniff_newline("no endings at all"), Newline::Lf);
    // Mixed: whichever it mostly is, so saving does not convert the
    // majority to match one stray line.
    assert_eq!(sniff_newline("a\r\nb\r\nc\nd"), Newline::Crlf);
    assert_eq!(sniff_newline("a\nb\nc\r\nd"), Newline::Lf);

    assert_eq!(to_newline("a\nb", Newline::Crlf), "a\r\nb");
    assert_eq!(to_newline("a\r\nb", Newline::Lf), "a\nb");
    assert_eq!(to_newline("a\rb", Newline::Crlf), "a\r\nb");
    // Idempotent: converting to what it already is changes nothing, and
    // in particular does not turn one CRLF into two.
    assert_eq!(to_newline("a\r\nb", Newline::Crlf), "a\r\nb");
}

#[test]
fn a_file_read_and_written_back_unchanged_is_byte_for_byte_the_same() {
    // The property that matters for an editor: open, save, and the file
    // on disk has not moved. Checked for each encoding through the whole
    // round trip a save actually takes, line endings included.
    for encoding in ALL {
        let original = match encoding {
            Encoding::Cp1251 => "Первая строка\r\nвторая\r\n",
            _ => "first line\r\nsecond\r\n",
        };
        let bytes = encode(original, encoding).bytes;

        let found = sniff(&bytes);
        let read_as = if found.confidence == Confidence::Marked {
            found.encoding
        } else {
            encoding
        };
        let text = decode(&bytes, read_as);
        let endings = sniff_newline(&text);
        assert_eq!(endings, Newline::Crlf, "{}", encoding.label());

        let written = encode(&to_newline(&text, endings), read_as);
        assert!(written.is_lossless(), "{}", encoding.label());
        assert_eq!(written.bytes, bytes, "{}", encoding.label());
    }
}

#[test]
fn a_mark_is_taken_off_only_where_it_stands() {
    assert_eq!(strip_bom(&[0xEF, 0xBB, 0xBF, b'a'], Encoding::Utf8Bom), b"a");
    assert_eq!(strip_bom(b"a", Encoding::Utf8Bom), b"a");
    assert_eq!(strip_bom(&[0xFF, 0xFE, b'a', 0], Encoding::Utf16Le), &[b'a', 0]);
    assert_eq!(Encoding::Utf16Be.bom(), vec![0xFE, 0xFF]);
    assert!(Encoding::Latin1.bom().is_empty());
}

#[test]
fn invalid_utf8_becomes_the_replacement_character() {
    assert_eq!(decode(&[b'a', 0xFF, b'b'], Encoding::Utf8), "a\u{FFFD}b");
}

#[test]
fn a_character_beyond_two_bytes_takes_a_pair_of_units() {
    let there = encode("\u{1F600}", Encoding::Utf16Le);
    assert_eq!(there.bytes, vec![0xFF, 0xFE, 0x3D, 0xD8, 0x00, 0xDE]);
    assert_eq!(decode(&there.bytes, Encoding::Utf16Le), "\u{1F600}");
    // Half a pair is a complaint.
    assert_eq!(decode(&[0x3D, 0xD8], Encoding::Utf16Le), "\u{FFFD}");
}

#[test]
fn each_character_is_lost_once() {
    let there = encode("文文a文", Encoding::Latin1);
    assert_eq!(there.lost, vec!['文']);
    assert_eq!(there.bytes, vec![UNREPRESENTABLE, UNREPRESENTABLE, b'a', UNREPRESENTABLE]);
}

#[test]
fn endings_are_put_back_as_they_were() {
    for newline in NEWLINES {
        let once = to_newline("a\r\nb\rc\n", newline);
        assert_eq!(to_newline(&once, newline), once);
        assert_eq!(once, format!("a{0}b{0}c{0}", newline.as_str()));
    }
}

#[test]
fn only_the_single_byte_encodings_accept_anything() {
    let accepting: Vec<Encoding> = ALL.iter().copied().filter(|e| e.accepts_anything()).collect();
    assert_eq!(accepting.len(), 3);
    for encoding in [Encoding::Latin1, Encoding::Cp1252, Encoding::Cp1251] {
        assert!(encoding.accepts_anything());
        let every_byte: Vec<u8> = (0..=255).collect();
        assert_eq!(encode(&decode(&every_byte, encoding), encoding).bytes, every_byte);
    }
    assert!(!Encoding::Utf8.accepts_anything());
}

#[test]
fn only_the_last_conversion_counts() {
    let text = "a\r\nb\rc\n\nd\n\r";
    for first in NEWLINES {
        for then in NEWLINES {
            assert_eq!(
                to_newline(&to_newline(text, first), then),
                to_newline(text, then)
            );
        }
    }
}
