//! `VttParser`: reading the blocks of VTT caption files.

use vstd::prelude::*;

use crate::caption::CaptionBlock;
use crate::error::{ParseError, VttParserError};
use crate::grammar::{
    arrow, block_outcome, block_result, header_outcome, header_result,
    header_timestamps_outcome, header_timestamps_result, timestamp_outcome, timestamp_result,
    two_byte_field,
};
use crate::text::{
    byte_len, byte_len_is, find_numeric, numeric_char, lemma_byte_len_at_least_len,
    lemma_byte_len_skip, line_ranges, lines, field_value_range, parse_usize, parse_usize_range, split,
    split_ranges, to_chars, utf8_width,
};
use crate::time::SimpleTime;

verus! {

/// Type for parsing VTT caption files. It reads blocks of four lines:
/// - a blank line,
/// - the block number,
/// - the header `Speaker HH:MM:SS.mmm --> HH:MM:SS.mmm`, whose speaker is optional,
/// - the text to display for the caption.
pub struct VttParser;

/// The end of the field of two bytes starting at character `i`, as `two_byte_field`
/// gives it; `None` when slicing it would panic.
fn two_byte_field_end(cs: &Vec<char>, i: usize) -> (r: Option<usize>)
    requires
        i < cs.len(),
        byte_len(cs@.skip(i as int)) >= 2,
    ensures
        match two_byte_field(cs@, i as int) {
            None => r is None,
            Some(f) => r matches Some(e) && i < e <= cs.len() && f == cs@.subrange(
                i as int,
                e as int,
            ),
        },
{
    proof {
        lemma_byte_len_skip(cs@, i as int);
    }
    let w = utf8_width(cs[i]);
    if w == 2 {
        Some(i + 1)
    } else if w == 1 {
        if utf8_width(cs[i + 1]) == 1 {
            Some(i + 2)
        } else {
            None
        }
    } else {
        None
    }
}

impl VttParser {
    /// Parse a VTT timestamp as `block_timestamp` does, for any text: `None` where
    /// `block_timestamp` would panic, else what it gives.
    pub fn try_block_timestamp(s: &str) -> (r: Option<Result<SimpleTime, VttParserError>>)
        ensures
            r is None <==> timestamp_outcome(s@) is Panics,
            r matches Some(x) ==> timestamp_result(x, timestamp_outcome(s@)),
    {
        let cs = to_chars(s);
        if !byte_len_is(&cs, 12) {
            return Some(Err(VttParserError::InvalidTimestamp(s.to_owned())));
        }
        let ghost c = cs@;
        proof {
            assert(c.skip(0) =~= c);
            lemma_byte_len_at_least_len(c);
        }
        let h_end = match two_byte_field_end(&cs, 0) {
            None => return None,
            Some(e) => e,
        };
        let hours = match field_value_range(&cs, 0, h_end) {
            None => return Some(Err(VttParserError::InvalidTimestamp(s.to_owned()))),
            Some(v) => v,
        };
        proof {
            lemma_byte_len_skip(c, 0);
            lemma_byte_len_skip(c, 1);
        }
        if cs[2] != ':' {
            return Some(Err(VttParserError::InvalidTimestamp(s.to_owned())));
        }
        proof {
            lemma_byte_len_skip(c, 2);
        }
        let m_end = match two_byte_field_end(&cs, 3) {
            None => return None,
            Some(e) => e,
        };
        let minutes = match field_value_range(&cs, 3, m_end) {
            None => return Some(Err(VttParserError::InvalidTimestamp(s.to_owned()))),
            Some(v) => v,
        };
        proof {
            lemma_byte_len_skip(c, 3);
            lemma_byte_len_skip(c, 4);
        }
        if cs[5] != ':' {
            return Some(Err(VttParserError::InvalidTimestamp(s.to_owned())));
        }
        proof {
            lemma_byte_len_skip(c, 5);
        }
        let s_end = match two_byte_field_end(&cs, 6) {
            None => return None,
            Some(e) => e,
        };
        let seconds = match field_value_range(&cs, 6, s_end) {
            None => return Some(Err(VttParserError::InvalidTimestamp(s.to_owned()))),
            Some(v) => v,
        };
        proof {
            lemma_byte_len_skip(c, 6);
            lemma_byte_len_skip(c, 7);
            lemma_byte_len_skip(c, 8);
            lemma_byte_len_at_least_len(c.skip(9));
        }
        if cs[8] != '.' {
            return Some(Err(VttParserError::InvalidTimestamp(s.to_owned())));
        }
        let milliseconds = match field_value_range(&cs, 9, cs.len()) {
            None => return Some(Err(VttParserError::InvalidTimestamp(s.to_owned()))),
            Some(v) => v,
        };
        if minutes > 60 || seconds > 60 {
            return None;
        }
        Some(Ok(SimpleTime::from_parts(hours, minutes, seconds, milliseconds)))
    }

    /// Parse a VTT timestamp `HH:MM:SS.mmm`.
    pub fn block_timestamp(s: &str) -> (r: Result<SimpleTime, VttParserError>)
        requires
            !(timestamp_outcome(s@) is Panics),
        ensures
            timestamp_result(r, timestamp_outcome(s@)),
    {
        match Self::try_block_timestamp(s) {
            Some(r) => r,
            None => {
                proof {
                    assert(false);
                }
                Err(VttParserError::UnexpectedEndOfFile)
            },
        }
    }

    /// Whether `cs[a..b]` is the arrow `-->`.
    fn is_arrow(cs: &Vec<char>, a: usize, b: usize) -> (r: bool)
        requires
            a <= b <= cs.len(),
        ensures
            r == (cs@.subrange(a as int, b as int) == arrow()),
    {
        if b - a == 3 && cs[a] == '-' && cs[a + 1] == '-' && cs[a + 2] == '>' {
            assert(cs@.subrange(a as int, b as int) =~= arrow());
            true
        } else {
            proof {
                let sub = cs@.subrange(a as int, b as int);
                if sub == arrow() {
                    assert(sub.len() == 3);
                    assert(sub[0] == cs@[a as int] && sub[1] == cs@[a + 1]);
                    assert(sub[2] == cs@[a + 2]);
                    assert(arrow()[0] == '-' && arrow()[1] == '-' && arrow()[2] == '>');
                }
            }
            false
        }
    }

    /// Parse the remainder of a header line for start, end timestamps.
    pub fn block_header_timestamps(s: &str) -> (r: Result<
        (SimpleTime, SimpleTime),
        VttParserError,
    >)
        requires
            !(header_timestamps_outcome(s@) is Panics),
        ensures
            header_timestamps_result(r, header_timestamps_outcome(s@)),
    {
        let cs = to_chars(s);
        let words = split_ranges(&cs, ' ');
        if words.len() != 3 {
            return Err(VttParserError::InvalidTimestamp(s.to_owned()));
        }
        let ghost ws = split(cs@, ' ');
        assert(cs@.subrange(words@[1].0 as int, words@[1].1 as int) == ws[1]);
        if !Self::is_arrow(&cs, words[1].0, words[1].1) {
            return Err(VttParserError::InvalidTimestamp(s.to_owned()));
        }
        assert(cs@.subrange(words@[0].0 as int, words@[0].1 as int) == ws[0]);
        assert(cs@.subrange(words@[2].0 as int, words@[2].1 as int) == ws[2]);
        let first = s.substring_char(words[0].0, words[0].1);
        let start = match Self::block_timestamp(first) {
            Ok(t) => t,
            Err(e) => return Err(e),
        };
        let third = s.substring_char(words[2].0, words[2].1);
        let end = match Self::block_timestamp(third) {
            Ok(t) => t,
            Err(e) => return Err(e),
        };
        Ok((start, end))
    }

    /// Parse a string slice into a tuple of block header information: the optional
    /// speaker, the start and the end.
    pub fn block_header(s: &str) -> (r: Result<
        (Option<String>, SimpleTime, SimpleTime),
        VttParserError,
    >)
        requires
            !(header_outcome(s@) is Panics),
        ensures
            header_result(r, header_outcome(s@)),
    {
        let cs = to_chars(s);
        if cs.len() == 0 {
            return Err(VttParserError::UnexpectedEndOfFile);
        }
        if numeric_char(cs[0]) {
            let (start, end) = match Self::block_header_timestamps(s) {
                Ok(t) => t,
                Err(e) => return Err(e),
            };
            return Ok((None, start, end));
        }
        let k = find_numeric(&cs);
        if k == cs.len() {
            return Err(VttParserError::BlockHeaderInvalid(s.to_owned()));
        }
        assert(k > 0);
        if cs[k - 1] != ' ' {
            return Err(VttParserError::BlockHeaderInvalid(s.to_owned()));
        }
        let name = s.substring_char(0, k - 1);
        let rest = s.substring_char(k, cs.len());
        let (start, end) = match Self::block_header_timestamps(rest) {
            Ok(t) => t,
            Err(e) => return Err(e),
        };
        Ok((Some(name.to_owned()), start, end))
    }

    /// Parse a string slice into a block number.
    pub fn block_number(s: &str) -> (r: Result<usize, VttParserError>)
        ensures
            match parse_usize(s@) {
                Some(v) => r matches Ok(n) && n == v,
                None => r matches Err(e) && e@ == ParseError::ExpectedBlockNumber(s@),
            },
    {
        let cs = to_chars(s);
        match parse_usize_range(&cs, 0, cs.len()) {
            Some(n) => {
                assert(cs@.subrange(0, cs@.len() as int) =~= s@);
                Ok(n)
            },
            None => {
                assert(cs@.subrange(0, cs@.len() as int) =~= s@);
                Err(VttParserError::ExpectedBlockNumber(s.to_owned()))
            },
        }
    }

    /// Parse the text of a block.
    pub fn block_text(s: &str) -> (r: String)
        ensures
            r@ == s@,
    {
        s.to_owned()
    }

    /// Parse a block: a blank line, a block number, a header, and a line of text.
    pub fn block(s: &str) -> (r: Result<CaptionBlock, VttParserError>)
        requires
            !(block_outcome(s@) is Panics),
        ensures
            block_result(r, block_outcome(s@)),
    {
        let cs = to_chars(s);
        let ls = line_ranges(&cs);
        if ls.len() != 4 {
            return Err(VttParserError::UnexpectedEndOfFile);
        }
        let ghost lv = lines(cs@);
        assert(cs@.subrange(ls@[0].0 as int, ls@[0].1 as int) == lv[0]);
        assert(cs@.subrange(ls@[1].0 as int, ls@[1].1 as int) == lv[1]);
        assert(cs@.subrange(ls@[2].0 as int, ls@[2].1 as int) == lv[2]);
        assert(cs@.subrange(ls@[3].0 as int, ls@[3].1 as int) == lv[3]);
        if ls[0].0 != ls[0].1 {
            let blank = s.substring_char(ls[0].0, ls[0].1);
            return Err(VttParserError::ExpectedBlankLine(blank.to_owned()));
        }
        let number_line = s.substring_char(ls[1].0, ls[1].1);
        match Self::block_number(number_line) {
            Ok(_) => {},
            Err(e) => return Err(e),
        }
        let header_line = s.substring_char(ls[2].0, ls[2].1);
        let (speaker, start, end) = match Self::block_header(header_line) {
            Ok(h) => h,
            Err(e) => return Err(e),
        };
        let text_line = s.substring_char(ls[3].0, ls[3].1);
        let text = Self::block_text(text_line);
        Ok(CaptionBlock::assemble(speaker, start, end, text))
    }

    /// Whether reading `start --> end` from `s` panics.
    fn header_timestamps_panics(s: &str) -> (r: bool)
        ensures
            r == header_timestamps_outcome(s@) is Panics,
    {
        let cs = to_chars(s);
        let words = split_ranges(&cs, ' ');
        if words.len() != 3 {
            return false;
        }
        let ghost ws = split(cs@, ' ');
        assert(cs@.subrange(words@[1].0 as int, words@[1].1 as int) == ws[1]);
        if !Self::is_arrow(&cs, words[1].0, words[1].1) {
            return false;
        }
        assert(cs@.subrange(words@[0].0 as int, words@[0].1 as int) == ws[0]);
        assert(cs@.subrange(words@[2].0 as int, words@[2].1 as int) == ws[2]);
        let first = s.substring_char(words[0].0, words[0].1);
        match Self::try_block_timestamp(first) {
            None => true,
            Some(Err(_)) => false,
            Some(Ok(_)) => {
                let third = s.substring_char(words[2].0, words[2].1);
                Self::try_block_timestamp(third).is_none()
            },
        }
    }

    /// Whether reading a block header from `s` panics.
    fn header_panics(s: &str) -> (r: bool)
        ensures
            r == header_outcome(s@) is Panics,
    {
        let cs = to_chars(s);
        if cs.len() == 0 {
            return false;
        }
        if numeric_char(cs[0]) {
            return Self::header_timestamps_panics(s);
        }
        let k = find_numeric(&cs);
        if k == cs.len() || cs[k - 1] != ' ' {
            return false;
        }
        let rest = s.substring_char(k, cs.len());
        Self::header_timestamps_panics(rest)
    }

    /// Whether reading a block from `s` panics.
    fn block_panics(s: &str) -> (r: bool)
        ensures
            r == block_outcome(s@) is Panics,
    {
        let cs = to_chars(s);
        let ls = line_ranges(&cs);
        if ls.len() != 4 || ls[0].0 != ls[0].1 {
            return false;
        }
        let ghost lv = lines(cs@);
        assert(cs@.subrange(ls@[1].0 as int, ls@[1].1 as int) == lv[1]);
        assert(cs@.subrange(ls@[2].0 as int, ls@[2].1 as int) == lv[2]);
        if parse_usize_range(&cs, ls[1].0, ls[1].1).is_none() {
            return false;
        }
        let header_line = s.substring_char(ls[2].0, ls[2].1);
        Self::header_panics(header_line)
    }

    /// Parse a header's timestamps as `block_header_timestamps` does, for any text: `None`
    /// where it would panic, else what it gives.
    pub fn try_block_header_timestamps(s: &str) -> (r: Option<
        Result<(SimpleTime, SimpleTime), VttParserError>,
    >)
        ensures
            r is None <==> header_timestamps_outcome(s@) is Panics,
            r matches Some(x) ==> header_timestamps_result(x, header_timestamps_outcome(s@)),
    {
        if Self::header_timestamps_panics(s) {
            None
        } else {
            Some(Self::block_header_timestamps(s))
        }
    }

    /// Parse a block header as `block_header` does, for any text: `None` where it would
    /// panic, else what it gives.
    pub fn try_block_header(s: &str) -> (r: Option<
        Result<(Option<String>, SimpleTime, SimpleTime), VttParserError>,
    >)
        ensures
            r is None <==> header_outcome(s@) is Panics,
            r matches Some(x) ==> header_result(x, header_outcome(s@)),
    {
        if Self::header_panics(s) {
            None
        } else {
            Some(Self::block_header(s))
        }
    }

    /// Parse a block as `block` does, for any text: `None` where `block` would panic
    /// (a timestamp whose bytes cannot be sliced as its fields, or whose fields are out of
    /// range), else what `block` gives.
    pub fn try_block(s: &str) -> (r: Option<Result<CaptionBlock, VttParserError>>)
        ensures
            r is None <==> block_outcome(s@) is Panics,
            r matches Some(x) ==> block_result(x, block_outcome(s@)),
    {
        if Self::block_panics(s) {
            None
        } else {
            Some(Self::block(s))
        }
    }
}

} // verus!
