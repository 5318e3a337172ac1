//! What reading a VTT caption block gives, as specification.
//!
//! A block is four lines: a blank line, the block number, a header
//! `Speaker HH:MM:SS.mmm --> HH:MM:SS.mmm` whose speaker is optional, and the text.
//! Each reader's outcome says whether it panics, fails with which error, or gives which
//! value, for every text.

use vstd::prelude::*;

use crate::caption::{CaptionBlock, CaptionView};
use crate::error::{ParseError, VttParserError};
use crate::text::{
    all_digits, field_value, byte_len, numeric, char_width, decimal_value, digit_value, is_digit,
    lemma_byte_len_at_least_len, lemma_byte_len_first, lemma_lines_final_newline, lemma_byte_len_skip, lemma_numeric_index, lemma_split_cons, lemma_split_single, lines,
    numeric_index, parse_usize, split, strip_cr,
};
use crate::time::{SimpleTime, TimeParts};

verus! {

/// What reading some text comes to: the reader panics, fails with an error, or gives a
/// value.
pub enum Outcome<T> {
    Panics,
    Fails(ParseError),
    Gives(T),
}

/// The characters that fill the two bytes starting at character `i` of `cs`, when both
/// ends of those two bytes fall between characters; `None` when slicing them would panic.
pub open spec fn two_byte_field(cs: Seq<char>, i: int) -> Option<Seq<char>> {
    if char_width(cs[i]) == 2 {
        Some(cs.subrange(i, i + 1))
    } else if char_width(cs[i]) == 1 && char_width(cs[i + 1]) == 1 {
        Some(cs.subrange(i, i + 2))
    } else {
        None
    }
}

/// What reading the timestamp `HH:MM:SS.mmm` from `cs` comes to.
///
/// The text must be 12 bytes long. The fields are the byte ranges 0..2, 3..5, 6..8 and
/// 9..12, and each must consist of ASCII digits; slicing a range that does not begin and
/// end between characters panics. The characters at indices 2 and 5 must be `:` and the
/// one at index 8 must be `.`. Every failure is `InvalidTimestamp` of the whole text.
/// Minutes or seconds above 60, which `SimpleTime::from_parts` does not accept, make it
/// panic.
pub open spec fn timestamp_outcome(cs: Seq<char>) -> Outcome<TimeParts> {
    let bad = Outcome::Fails(ParseError::InvalidTimestamp(cs));
    if byte_len(cs) != 12 {
        bad
    } else {
        match two_byte_field(cs, 0) {
            None => Outcome::Panics,
            Some(hf) => match field_value(hf) {
                None => bad,
                Some(h) => if cs[2] != ':' {
                    bad
                } else {
                    match two_byte_field(cs, 3) {
                        None => Outcome::Panics,
                        Some(mf) => match field_value(mf) {
                            None => bad,
                            Some(m) => if cs[5] != ':' {
                                bad
                            } else {
                                match two_byte_field(cs, 6) {
                                    None => Outcome::Panics,
                                    Some(sf) => match field_value(sf) {
                                        None => bad,
                                        Some(sec) => if cs[8] != '.' {
                                            bad
                                        } else {
                                            match field_value(cs.subrange(9, cs.len() as int)) {
                                                None => bad,
                                                Some(ms) => if m > 60 || sec > 60 {
                                                    Outcome::Panics
                                                } else {
                                                    Outcome::Gives(
                                                        TimeParts {
                                                            hours: h,
                                                            minutes: m,
                                                            seconds: sec,
                                                            milliseconds: ms,
                                                        },
                                                    )
                                                },
                                            }
                                        },
                                    },
                                }
                            },
                        },
                    }
                },
            },
        }
    }
}

/// Whether `r` is what the outcome `o` says of a timestamp.
pub open spec fn timestamp_result(r: Result<SimpleTime, VttParserError>, o: Outcome<TimeParts>) -> bool {
    match o {
        Outcome::Gives(t) => r matches Ok(x) && x@ == t,
        Outcome::Fails(e) => r matches Err(x) && x@ == e,
        Outcome::Panics => true,
    }
}

/// The arrow between the two timestamps of a block header.
pub open spec fn arrow() -> Seq<char> {
    seq!['-', '-', '>']
}

/// What reading `start --> end` from `cs` comes to. The text must be exactly three words
/// separated by single spaces, the middle one `-->`; otherwise it fails with
/// `InvalidTimestamp` of the whole text. Then each timestamp is read in turn.
pub open spec fn header_timestamps_outcome(cs: Seq<char>) -> Outcome<(TimeParts, TimeParts)> {
    let words = split(cs, ' ');
    if words.len() != 3 || words[1] != arrow() {
        Outcome::Fails(ParseError::InvalidTimestamp(cs))
    } else {
        match timestamp_outcome(words[0]) {
            Outcome::Panics => Outcome::Panics,
            Outcome::Fails(e) => Outcome::Fails(e),
            Outcome::Gives(a) => match timestamp_outcome(words[2]) {
                Outcome::Panics => Outcome::Panics,
                Outcome::Fails(e) => Outcome::Fails(e),
                Outcome::Gives(b) => Outcome::Gives((a, b)),
            },
        }
    }
}

/// Whether `r` is what the outcome `o` says of a pair of timestamps.
pub open spec fn header_timestamps_result(
    r: Result<(SimpleTime, SimpleTime), VttParserError>,
    o: Outcome<(TimeParts, TimeParts)>,
) -> bool {
    match o {
        Outcome::Gives(t) => r matches Ok(x) && x.0@ == t.0 && x.1@ == t.1,
        Outcome::Fails(e) => r matches Err(x) && x@ == e,
        Outcome::Panics => true,
    }
}

/// What reading a block header from `cs` comes to. Empty text fails with
/// `UnexpectedEndOfFile`. Text that starts with a numeric character is all timestamps.
/// Otherwise the speaker is everything before the space that precedes the first numeric
/// character, and the timestamps are everything from that character on; without such a
/// character and space the header fails with `BlockHeaderInvalid` of the whole text.
pub open spec fn header_outcome(cs: Seq<char>) -> Outcome<(Option<Seq<char>>, TimeParts, TimeParts)> {
    if cs.len() == 0 {
        Outcome::Fails(ParseError::UnexpectedEndOfFile)
    } else if numeric(cs[0]) {
        match header_timestamps_outcome(cs) {
            Outcome::Panics => Outcome::Panics,
            Outcome::Fails(e) => Outcome::Fails(e),
            Outcome::Gives(t) => Outcome::Gives((None, t.0, t.1)),
        }
    } else {
        let k = numeric_index(cs) as int;
        if k >= cs.len() || cs[k - 1] != ' ' {
            Outcome::Fails(ParseError::BlockHeaderInvalid(cs))
        } else {
            match header_timestamps_outcome(cs.subrange(k, cs.len() as int)) {
                Outcome::Panics => Outcome::Panics,
                Outcome::Fails(e) => Outcome::Fails(e),
                Outcome::Gives(t) => Outcome::Gives((Some(cs.subrange(0, k - 1)), t.0, t.1)),
            }
        }
    }
}

/// Whether `r` is what the outcome `o` says of a block header.
pub open spec fn header_result(
    r: Result<(Option<String>, SimpleTime, SimpleTime), VttParserError>,
    o: Outcome<(Option<Seq<char>>, TimeParts, TimeParts)>,
) -> bool {
    match o {
        Outcome::Gives(t) => r matches Ok(x) && x.0.deep_view() == t.0 && x.1@ == t.1 && x.2@
            == t.2,
        Outcome::Fails(e) => r matches Err(x) && x@ == e,
        Outcome::Panics => true,
    }
}

/// What reading a block from `cs` comes to. The text must have exactly four lines, else it
/// fails with `UnexpectedEndOfFile`: a blank line, a block number, a header, and the text
/// of the caption.
pub open spec fn block_outcome(cs: Seq<char>) -> Outcome<CaptionView> {
    let ls = lines(cs);
    if ls.len() != 4 {
        Outcome::Fails(ParseError::UnexpectedEndOfFile)
    } else if ls[0].len() != 0 {
        Outcome::Fails(ParseError::ExpectedBlankLine(ls[0]))
    } else if parse_usize(ls[1]) is None {
        Outcome::Fails(ParseError::ExpectedBlockNumber(ls[1]))
    } else {
        match header_outcome(ls[2]) {
            Outcome::Panics => Outcome::Panics,
            Outcome::Fails(e) => Outcome::Fails(e),
            Outcome::Gives(h) => Outcome::Gives(
                CaptionView { speaker: h.0, start: h.1, end: h.2, text: ls[3] },
            ),
        }
    }
}

/// Whether `r` is what the outcome `o` says of a block.
pub open spec fn block_result(r: Result<CaptionBlock, VttParserError>, o: Outcome<CaptionView>) -> bool {
    match o {
        Outcome::Gives(b) => r matches Ok(x) && x@ == b,
        Outcome::Fails(e) => r matches Err(x) && x@ == e,
        Outcome::Panics => true,
    }
}


/// Every character of an all-ASCII sequence takes one byte.
proof fn lemma_byte_len_ascii(cs: Seq<char>)
    requires
        forall|i: int| 0 <= i < cs.len() ==> (#[trigger] cs[i] as u32) < 0x80,
    ensures
        byte_len(cs) == cs.len(),
    decreases cs.len(),
{
    if cs.len() > 0 {
        lemma_byte_len_first(cs);
        assert forall|i: int| 0 <= i < cs.drop_first().len() implies (
        #[trigger] cs.drop_first()[i] as u32) < 0x80 by {
            assert(cs.drop_first()[i] == cs[i + 1]);
        }
        lemma_byte_len_ascii(cs.drop_first());
    }
}

/// A field of two or three ASCII digits reads as their decimal value.
proof fn lemma_field_digits(ds: Seq<char>)
    requires
        2 <= ds.len() <= 3,
        all_digits(ds),
    ensures
        field_value(ds) == Some(
            if ds.len() == 2 {
                digit_value(ds[0]) * 10 + digit_value(ds[1])
            } else {
                digit_value(ds[0]) * 100 + digit_value(ds[1]) * 10 + digit_value(ds[2])
            },
        ),
{
    let d1 = ds.take(1);
    let d2 = ds.take(2);
    assert(d1.drop_last() =~= Seq::<char>::empty());
    assert(decimal_value(Seq::<char>::empty()) == 0);
    assert(d1.last() == ds[0]);
    assert(d2.drop_last() =~= d1);
    assert(d2.last() == ds[1]);
    assert(decimal_value(d1) == digit_value(ds[0]));
    assert(decimal_value(d2) == digit_value(ds[0]) * 10 + digit_value(ds[1]));
    if ds.len() == 2 {
        assert(d2 =~= ds);
    } else {
        assert(ds.drop_last() =~= d2);
    }
}

/// Every timestamp `HH:MM:SS.mmm` written with ASCII digits, with at most 60 minutes and
/// at most 60 seconds, is read as the values of its fields.
pub proof fn lemma_timestamp_of_digits(
    h1: char,
    h2: char,
    m1: char,
    m2: char,
    s1: char,
    s2: char,
    f1: char,
    f2: char,
    f3: char,
)
    requires
        is_digit(h1) && is_digit(h2) && is_digit(m1) && is_digit(m2) && is_digit(s1)
            && is_digit(s2) && is_digit(f1) && is_digit(f2) && is_digit(f3),
        digit_value(m1) * 10 + digit_value(m2) <= 60,
        digit_value(s1) * 10 + digit_value(s2) <= 60,
    ensures
        timestamp_outcome(seq![h1, h2, ':', m1, m2, ':', s1, s2, '.', f1, f2, f3])
            == Outcome::Gives(
            TimeParts {
                hours: digit_value(h1) * 10 + digit_value(h2),
                minutes: digit_value(m1) * 10 + digit_value(m2),
                seconds: digit_value(s1) * 10 + digit_value(s2),
                milliseconds: digit_value(f1) * 100 + digit_value(f2) * 10 + digit_value(f3),
            },
        ),
{
    let cs = seq![h1, h2, ':', m1, m2, ':', s1, s2, '.', f1, f2, f3];
    assert forall|i: int| 0 <= i < cs.len() implies (#[trigger] cs[i] as u32) < 0x80 by {}
    lemma_byte_len_ascii(cs);
    lemma_field_digits(cs.subrange(0, 2));
    lemma_field_digits(cs.subrange(3, 5));
    lemma_field_digits(cs.subrange(6, 8));
    lemma_field_digits(cs.subrange(9, 12));
}

/// Only the documented form is read: a timestamp that reads as a time is 12 ASCII
/// characters `HH:MM:SS.mmm`, every field of digits; any other text fails with
/// `InvalidTimestamp` of itself, except where slicing its fields panics.
pub proof fn lemma_timestamp_form(cs: Seq<char>)
    ensures
        timestamp_outcome(cs) is Gives ==> {
            &&& cs.len() == 12
            &&& cs[2] == ':' && cs[5] == ':' && cs[8] == '.'
            &&& is_digit(cs[0]) && is_digit(cs[1]) && is_digit(cs[3]) && is_digit(cs[4])
            &&& is_digit(cs[6]) && is_digit(cs[7]) && is_digit(cs[9]) && is_digit(cs[10])
            &&& is_digit(cs[11])
        },
        timestamp_outcome(cs) is Fails ==> timestamp_outcome(cs) == Outcome::<TimeParts>::Fails(
            ParseError::InvalidTimestamp(cs),
        ),
{
    if timestamp_outcome(cs) is Gives {
        lemma_byte_len_at_least_len(cs);
        assert(cs.skip(0) =~= cs);
        let hf = two_byte_field(cs, 0).unwrap();
        assert(is_digit(hf[0]));
        lemma_byte_len_skip(cs, 0);
        lemma_byte_len_skip(cs, 1);
        assert(hf =~= cs.subrange(0, 2));
        assert(is_digit(hf[1]));
        lemma_byte_len_skip(cs, 2);
        let mf = two_byte_field(cs, 3).unwrap();
        assert(is_digit(mf[0]));
        lemma_byte_len_skip(cs, 3);
        lemma_byte_len_skip(cs, 4);
        assert(mf =~= cs.subrange(3, 5));
        assert(is_digit(mf[1]));
        lemma_byte_len_skip(cs, 5);
        let sf = two_byte_field(cs, 6).unwrap();
        assert(is_digit(sf[0]));
        lemma_byte_len_skip(cs, 6);
        lemma_byte_len_skip(cs, 7);
        assert(sf =~= cs.subrange(6, 8));
        assert(is_digit(sf[1]));
        lemma_byte_len_skip(cs, 8);
        let ms = cs.subrange(9, cs.len() as int);
        assert(ms =~= cs.skip(9));
        assert forall|i: int| 0 <= i < ms.len() implies (#[trigger] ms[i] as u32) < 0x80 by {
            assert(is_digit(ms[i]));
        }
        lemma_byte_len_ascii(ms);
        assert(is_digit(ms[0]) && is_digit(ms[1]) && is_digit(ms[2]));
    }
}

/// A header's timestamps `start --> end`, with no space inside either timestamp, read as
/// the two timestamps read in turn.
pub proof fn lemma_header_timestamps_of(start: Seq<char>, end: Seq<char>)
    requires
        !start.contains(' '),
        !end.contains(' '),
    ensures
        header_timestamps_outcome(start + seq![' '] + arrow() + seq![' '] + end) == match
            timestamp_outcome(start) {
            Outcome::Panics => Outcome::Panics,
            Outcome::Fails(e) => Outcome::Fails(e),
            Outcome::Gives(a) => match timestamp_outcome(end) {
                Outcome::Panics => Outcome::Panics,
                Outcome::Fails(e) => Outcome::Fails(e),
                Outcome::Gives(b) => Outcome::Gives((a, b)),
            },
        },
{
    let tail = arrow() + seq![' '] + end;
    assert(!arrow().contains(' ')) by {
        if arrow().contains(' ') {
            let j = choose|j: int| 0 <= j < arrow().len() && arrow()[j] == ' ';
            assert(arrow()[j] != ' ');
        }
    }
    lemma_split_single(end, ' ');
    lemma_split_cons(arrow(), end, ' ');
    lemma_split_cons(start, tail, ' ');
    assert(start + seq![' '] + arrow() + seq![' '] + end =~= start + seq![' '] + tail);
    let words = split(start + seq![' '] + tail, ' ');
    assert(words =~= seq![start, arrow(), end]);
}

/// A header `speaker start --> end` whose speaker holds no numeric character and whose
/// start begins with one reads as the speaker and the timestamps after it; a header that
/// begins with a numeric character has no speaker.
pub proof fn lemma_header_of(speaker: Seq<char>, times: Seq<char>)
    requires
        times.len() > 0,
        numeric(times[0]),
        forall|j: int| 0 <= j < speaker.len() ==> !numeric(#[trigger] speaker[j]),
    ensures
        speaker.len() == 0 ==> header_outcome(times) == match header_timestamps_outcome(times) {
            Outcome::Panics => Outcome::Panics,
            Outcome::Fails(e) => Outcome::Fails(e),
            Outcome::Gives(t) => Outcome::Gives((None::<Seq<char>>, t.0, t.1)),
        },
        speaker.len() > 0 ==> header_outcome(speaker + seq![' '] + times) == match
            header_timestamps_outcome(times) {
            Outcome::Panics => Outcome::Panics,
            Outcome::Fails(e) => Outcome::Fails(e),
            Outcome::Gives(t) => Outcome::Gives((Some(speaker), t.0, t.1)),
        },
{
    if speaker.len() > 0 {
        let cs = speaker + seq![' '] + times;
        let k = speaker.len() + 1 as int;
        assert(cs[0] == speaker[0]);
        assert forall|j: int| 0 <= j < k implies !numeric(#[trigger] cs[j]) by {
            if j < speaker.len() {
                assert(cs[j] == speaker[j]);
            }
        }
        assert(cs[k] == times[0]);
        lemma_numeric_index(cs, k);
        assert(cs.subrange(k, cs.len() as int) =~= times);
        assert(cs.subrange(0, k - 1) =~= speaker);
    }
}

/// A block reads the same whether or not its text ends with a final line feed (when the
/// last line does not end in a carriage return, which a final line feed would strip).
pub proof fn lemma_block_final_newline(cs: Seq<char>)
    requires
        cs.len() > 0,
        cs.last() != '\n',
        cs.last() != '\r',
    ensures
        block_outcome(cs.push('\n')) == block_outcome(cs),
{
    lemma_lines_final_newline(cs);
}

/// A block that reads as a caption has the speaker and times its third line reads as
/// with `block_header`, and its fourth line as text.
pub proof fn lemma_block_parts(cs: Seq<char>)
    ensures
        block_outcome(cs) matches Outcome::Gives(b) ==> {
            &&& lines(cs).len() == 4
            &&& lines(cs)[0].len() == 0
            &&& parse_usize(lines(cs)[1]) is Some
            &&& header_outcome(lines(cs)[2]) == Outcome::Gives((b.speaker, b.start, b.end))
            &&& b.text == lines(cs)[3]
        },
{
}

/// A block written as a blank line, then the number, header and text lines, each ended
/// by a line feed, has those four lines, and reads as its number and header say.
pub proof fn lemma_block_of(number: Seq<char>, header: Seq<char>, text: Seq<char>)
    requires
        !number.contains('\n') && strip_cr(number) == number,
        !header.contains('\n') && strip_cr(header) == header,
        !text.contains('\n') && strip_cr(text) == text,
    ensures
        ({
            let cs = seq!['\n'] + number + seq!['\n'] + header + seq!['\n'] + text + seq!['\n'];
            &&& lines(cs) == seq![Seq::<char>::empty(), number, header, text]
            &&& block_outcome(cs) == if parse_usize(number) is None {
                Outcome::Fails(ParseError::ExpectedBlockNumber(number))
            } else {
                match header_outcome(header) {
                    Outcome::Panics => Outcome::Panics,
                    Outcome::Fails(e) => Outcome::Fails(e),
                    Outcome::Gives(h) => Outcome::Gives(
                        CaptionView { speaker: h.0, start: h.1, end: h.2, text: text },
                    ),
                }
            }
        }),
{
    let empty = Seq::<char>::empty();
    let cs = seq!['\n'] + number + seq!['\n'] + header + seq!['\n'] + text + seq!['\n'];
    let r3 = text + seq!['\n'] + empty;
    let r2 = header + seq!['\n'] + r3;
    let r1 = number + seq!['\n'] + r2;
    assert(cs =~= empty + seq!['\n'] + r1);
    assert(!empty.contains('\n'));
    lemma_split_single(empty, '\n');
    lemma_split_cons(text, empty, '\n');
    lemma_split_cons(header, r3, '\n');
    lemma_split_cons(number, r2, '\n');
    lemma_split_cons(empty, r1, '\n');
    let pieces = split(cs, '\n');
    assert(pieces =~= seq![empty, number, header, text, empty]);
    assert(strip_cr(empty) == empty);
    assert(lines(cs) =~= seq![empty, number, header, text]);
}

} // verus!
